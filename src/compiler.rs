use vstd::prelude::*;

use crate::interpreter::{apply, fits_i32, run, trunc_div};
use crate::parser::{BinaryOperator, AST};

verus! {

/// One instruction of the entry block of the generated `main` routine. Each
/// instruction defines one value, named by its index in the block; operands
/// name earlier values.
#[derive(Clone, Copy, Debug, PartialEq, Eq, Structural)]
pub enum Instr {
    /// A 32-bit integer constant.
    Const(i32),
    /// `add`, `sub`, `mul` or `sdiv` on two earlier values.
    Binary(BinaryOperator, usize, usize),
    /// A call of `printf("%d\n", v)` on an earlier value `v`; it stands for `v`.
    Print(usize),
    /// `ret i32 0`, which closes the block; it stands for `0`.
    ReturnZero,
}

/// What a native 32-bit instruction yields: addition, subtraction and
/// multiplication wrap; a signed division by zero, or one whose quotient
/// does not fit, faults (`None`).
pub open spec fn native_binary(op: BinaryOperator, a: i32, b: i32) -> Option<i32> {
    match op {
        BinaryOperator::Add => Some(a.wrapping_add(b)),
        BinaryOperator::Sub => Some(a.wrapping_sub(b)),
        BinaryOperator::Mul => Some(a.wrapping_mul(b)),
        BinaryOperator::Div => if b == 0 || !fits_i32(trunc_div(a as int, b as int)) {
            None
        } else {
            Some(trunc_div(a as int, b as int) as i32)
        },
    }
}

/// One instruction run on the values defined so far and the values printed
/// so far; `None` where it faults or names a value not yet defined.
pub open spec fn step(values: Seq<i32>, printed: Seq<i32>, i: Instr) -> Option<
    (Seq<i32>, Seq<i32>),
> {
    match i {
        Instr::Const(v) => Some((values.push(v), printed)),
        Instr::Binary(op, x, y) => if x < values.len() && y < values.len() {
            match native_binary(op, values[x as int], values[y as int]) {
                Some(v) => Some((values.push(v), printed)),
                None => None,
            }
        } else {
            None
        },
        Instr::Print(x) => if x < values.len() {
            Some((values.push(values[x as int]), printed.push(values[x as int])))
        } else {
            None
        },
        Instr::ReturnZero => Some((values.push(0), printed)),
    }
}

/// Runs a block from its first instruction: the value of each instruction
/// and the values printed, or `None` on a fault.
pub open spec fn execute(block: Seq<Instr>) -> Option<(Seq<i32>, Seq<i32>)>
    decreases block.len(),
{
    if block.len() == 0 {
        Some((Seq::empty(), Seq::empty()))
    } else {
        match execute(block.drop_last()) {
            Some((values, printed)) => step(values, printed, block.last()),
            None => None,
        }
    }
}

/// The block after emitting `node` at the end of `block`, and the index of
/// the instruction that holds its value. Operands are emitted left first.
pub open spec fn lower(node: AST, block: Seq<Instr>) -> (Seq<Instr>, nat)
    decreases node,
{
    match node {
        AST::BinOp(l, op, r) => {
            let (b1, hl) = lower(*l, block);
            let (b2, hr) = lower(*r, b1);
            (b2.push(Instr::Binary(op, hl as usize, hr as usize)), b2.len())
        },
        AST::Num(v) => (block.push(Instr::Const(v)), block.len()),
        AST::Print(e) => {
            let (b1, h) = lower(*e, block);
            (b1.push(Instr::Print(h as usize)), b1.len())
        },
    }
}

/// The native-code backend: it emits the instructions of the entry block of
/// a `main` routine, which an execution engine then builds and runs.
pub struct Compiler {
    block: Vec<Instr>,
}

impl Compiler {
    /// The instructions emitted so far.
    pub closed spec fn instructions(&self) -> Seq<Instr> {
        self.block@
    }

    pub fn new() -> (r: Compiler)
        ensures
            r.instructions() == Seq::<Instr>::empty(),
    {
        Compiler { block: Vec::new() }
    }

    /// Opens a fresh, empty entry block for `main`.
    pub fn create_main_function(&mut self)
        ensures
            final(self).instructions() == Seq::<Instr>::empty(),
    {
        self.block = Vec::new();
    }

    /// Emits the instructions of `node` and returns the index of the one
    /// that holds its value.
    pub fn compile(&mut self, node: &AST) -> (h: usize)
        ensures
            (final(self).instructions(), h as nat) == lower(*node, old(self).instructions()),
        decreases node,
    {
        match node {
            AST::BinOp(left, op, right) => {
                let lhs = self.compile(left);
                let rhs = self.compile(right);
                let h = self.block.len();
                self.block.push(Instr::Binary(*op, lhs, rhs));
                h
            },
            AST::Num(value) => {
                let h = self.block.len();
                self.block.push(Instr::Const(*value));
                h
            },
            AST::Print(expr) => {
                let value = self.compile(expr);
                let h = self.block.len();
                self.block.push(Instr::Print(value));
                h
            },
        }
    }

    /// Closes the block with `ret i32 0`.
    pub fn finish_main_function(&mut self)
        ensures
            final(self).instructions() == old(self).instructions().push(Instr::ReturnZero),
    {
        self.block.push(Instr::ReturnZero);
    }

    /// The instructions emitted so far.
    pub fn block(&self) -> (r: &Vec<Instr>)
        ensures
            r@ == self.instructions(),
    {
        &self.block
    }
}

/// Where the interpreter's operator yields a value, the native instruction
/// yields the same one.
pub proof fn lemma_native_binary_agrees(op: BinaryOperator, a: i32, b: i32)
    requires
        apply(op, a, b) is Ok,
    ensures
        native_binary(op, a, b) == Some(apply(op, a, b)->Ok_0),
{
}

/// Emitting a tree appends to the block and leaves what was there.
pub proof fn lemma_lower_extends(node: AST, block: Seq<Instr>)
    ensures
        lower(node, block).0.len() > block.len(),
        lower(node, block).0.subrange(0, block.len() as int) == block,
        block.len() <= lower(node, block).1 < lower(node, block).0.len(),
    decreases node,
{
    match node {
        AST::BinOp(l, op, r) => {
            lemma_lower_extends(*l, block);
            let b1 = lower(*l, block).0;
            lemma_lower_extends(*r, b1);
            let b2 = lower(*r, b1).0;
            assert(b2.push(Instr::Binary(op, lower(*l, block).1 as usize, lower(*r, b1).1 as usize)).subrange(
                0,
                block.len() as int,
            ) =~= b2.subrange(0, b1.len() as int).subrange(0, block.len() as int));
        },
        AST::Num(v) => {
            assert(block.push(Instr::Const(v)).subrange(0, block.len() as int) =~= block);
        },
        AST::Print(e) => {
            lemma_lower_extends(*e, block);
            let b1 = lower(*e, block).0;
            assert(b1.push(Instr::Print(lower(*e, block).1 as usize)).subrange(
                0,
                block.len() as int,
            ) =~= b1.subrange(0, block.len() as int));
        },
    }
}

proof fn lemma_execute_push(block: Seq<Instr>, i: Instr)
    ensures
        execute(block.push(i)) == match execute(block) {
            Some((values, printed)) => step(values, printed, i),
            None => None,
        },
{
    assert(block.push(i).drop_last() =~= block);
}

/// Running the instructions emitted for `node` after a block that ran
/// without fault gives the interpreter's value and printed values.
proof fn lemma_lower_runs(node: AST, block: Seq<Instr>, values: Seq<i32>, printed: Seq<i32>)
    requires
        execute(block) == Some((values, printed)),
        values.len() == block.len(),
        run(node).0 is Ok,
        lower(node, block).0.len() <= usize::MAX,
    ensures
        ({
            let (b, h) = lower(node, block);
            let (vs, ps) = execute(b)->Some_0;
            &&& execute(b) is Some
            &&& vs.len() == b.len()
            &&& vs.subrange(0, values.len() as int) == values
            &&& vs[h as int] == run(node).0->Ok_0
            &&& ps == printed + run(node).1
        }),
    decreases node,
{
    lemma_lower_extends(node, block);
    match node {
        AST::BinOp(l, op, r) => {
            let (b1, hl) = lower(*l, block);
            lemma_lower_extends(*r, b1);
            let (b2, hr) = lower(*r, b1);
            lemma_lower_runs(*l, block, values, printed);
            let (v1, p1) = execute(b1)->Some_0;
            lemma_lower_runs(*r, b1, v1, p1);
            let (v2, p2) = execute(b2)->Some_0;
            lemma_lower_extends(*l, block);
            assert(v2[hl as int] == v2.subrange(0, v1.len() as int)[hl as int]);
            let a = run(*l).0->Ok_0;
            let b = run(*r).0->Ok_0;
            lemma_native_binary_agrees(op, a, b);
            lemma_execute_push(b2, Instr::Binary(op, hl as usize, hr as usize));
            let v3 = v2.push(apply(op, a, b)->Ok_0);
            assert(v3.subrange(0, values.len() as int) =~= v2.subrange(0, v1.len() as int).subrange(
                0,
                values.len() as int,
            ));
            assert(p2 =~= printed + run(node).1);
        },
        AST::Num(v) => {
            lemma_execute_push(block, Instr::Const(v));
            assert(values.push(v).subrange(0, values.len() as int) =~= values);
            assert(printed + run(node).1 =~= printed);
        },
        AST::Print(e) => {
            let (b1, h) = lower(*e, block);
            lemma_lower_runs(*e, block, values, printed);
            let (v1, p1) = execute(b1)->Some_0;
            lemma_execute_push(b1, Instr::Print(h as usize));
            let x = run(*e).0->Ok_0;
            assert(v1.push(x).subrange(0, values.len() as int) =~= v1.subrange(
                0,
                values.len() as int,
            ));
            assert(p1.push(x) =~= printed + run(node).1);
        },
    }
}

/// The two backends agree: where the interpreter evaluates a tree to a value
/// without fault, the finished `main` block emitted for it runs without
/// fault, the instruction of the tree holds that value, and the values
/// printed are the ones the interpreter printed, in the same order.
pub proof fn lemma_backends_agree(node: AST)
    requires
        run(node).0 is Ok,
        lower(node, Seq::empty()).0.len() < usize::MAX,
    ensures
        ({
            let (b, h) = lower(node, Seq::empty());
            let main = b.push(Instr::ReturnZero);
            let (vs, ps) = execute(main)->Some_0;
            &&& execute(main) is Some
            &&& vs[h as int] == run(node).0->Ok_0
            &&& ps == run(node).1
        }),
{
    let (b, h) = lower(node, Seq::empty());
    lemma_lower_runs(node, Seq::empty(), Seq::empty(), Seq::empty());
    lemma_lower_extends(node, Seq::empty());
    lemma_execute_push(b, Instr::ReturnZero);
    assert(Seq::<i32>::empty() + run(node).1 =~= run(node).1);
}

} // verus!
