use vstd::prelude::*;

use crate::lexer::{decimal, lemma_scan_decimal};
use crate::parser::{lemma_parse_single_number, parse_text, BinaryOperator, ParseError, AST};

verus! {

/// A fault met while evaluating a tree; it ends the evaluation.
#[derive(Clone, Copy, Debug, PartialEq, Eq, Structural)]
pub enum ArithmeticError {
    DivisionByZero,
    /// The exact result does not fit in an `i32`.
    Overflow,
}

pub open spec fn abs(a: int) -> int {
    if a < 0 {
        -a
    } else {
        a
    }
}

/// Division that rounds toward zero, as `i32` division does.
pub open spec fn trunc_div(a: int, b: int) -> int {
    let q = abs(a) / abs(b);
    if (a < 0) != (b < 0) {
        -q
    } else {
        q
    }
}

/// The exact result of an operator on integers (the divisor is not zero).
pub open spec fn exact(op: BinaryOperator, a: int, b: int) -> int {
    match op {
        BinaryOperator::Add => a + b,
        BinaryOperator::Sub => a - b,
        BinaryOperator::Mul => a * b,
        BinaryOperator::Div => trunc_div(a, b),
    }
}

pub open spec fn fits_i32(v: int) -> bool {
    i32::MIN <= v <= i32::MAX
}

/// An operator on two `i32` values: its exact result where that fits,
/// otherwise the fault.
pub open spec fn apply(op: BinaryOperator, a: i32, b: i32) -> Result<i32, ArithmeticError> {
    if op is Div && b == 0 {
        Err(ArithmeticError::DivisionByZero)
    } else if fits_i32(exact(op, a as int, b as int)) {
        Ok(exact(op, a as int, b as int) as i32)
    } else {
        Err(ArithmeticError::Overflow)
    }
}

/// Evaluates a tree, left operand first: its value or the first fault, with
/// the values that its `Print` nodes printed, in order.
pub open spec fn run(node: AST) -> (Result<i32, ArithmeticError>, Seq<i32>)
    decreases node,
{
    match node {
        AST::BinOp(l, op, r) => {
            let (lv, lp) = run(*l);
            match lv {
                Err(e) => (Err(e), lp),
                Ok(a) => {
                    let (rv, rp) = run(*r);
                    match rv {
                        Err(e) => (Err(e), lp + rp),
                        Ok(b) => (apply(op, a, b), lp + rp),
                    }
                },
            }
        },
        AST::Num(v) => (Ok(v), Seq::empty()),
        AST::Print(e) => {
            let (v, p) = run(*e);
            match v {
                Ok(x) => (Ok(x), p.push(x)),
                Err(_) => (v, p),
            }
        },
    }
}

/// The value of a tree, or the fault that ends its evaluation.
pub open spec fn evaluate(node: AST) -> Result<i32, ArithmeticError> {
    run(node).0
}

/// The decimal text of any `i32` that is not negative parses to that number
/// and evaluates back to it, printing nothing. (A negative number's text
/// starts with `-`, which the grammar reads only as a binary operator.)
pub proof fn lemma_literal_round_trip(n: i32)
    requires
        n >= 0,
    ensures
        parse_text(decimal(n as nat)) == Ok::<AST, ParseError>(AST::Num(n)),
        run(AST::Num(n)) == (Ok::<i32, ArithmeticError>(n), Seq::<i32>::empty()),
{
    lemma_scan_decimal(n);
    lemma_parse_single_number(decimal(n as nat), n, decimal(n as nat).len());
}

/// The tree-walking backend. It keeps the values that `print` emitted, in
/// order, for the caller to write out, one decimal line each.
pub struct Interpreter {
    printed: Vec<i32>,
}

impl Interpreter {
    /// The values printed so far.
    pub closed spec fn output(&self) -> Seq<i32> {
        self.printed@
    }

    pub fn new() -> (r: Interpreter)
        ensures
            r.output() == Seq::<i32>::empty(),
    {
        Interpreter { printed: Vec::new() }
    }

    /// Evaluates `node`. Each `Print` node adds its value to the output.
    pub fn interpret(&mut self, node: &AST) -> (r: Result<i32, ArithmeticError>)
        ensures
            r == run(*node).0,
            final(self).output() == old(self).output() + run(*node).1,
        decreases node,
    {
        match node {
            AST::BinOp(left, op, right) => {
                let lhs = match self.interpret(left) {
                    Ok(v) => v,
                    Err(e) => return Err(e),
                };
                let rhs = match self.interpret(right) {
                    Ok(v) => v,
                    Err(e) => {
                        assert(self.output() =~= old(self).output() + run(*node).1);
                        return Err(e);
                    },
                };
                assert(self.output() =~= old(self).output() + run(*node).1);
                apply_exec(*op, lhs, rhs)
            },
            AST::Num(value) => {
                assert(self.output() =~= old(self).output() + run(*node).1);
                Ok(*value)
            },
            AST::Print(expr) => {
                let value = match self.interpret(expr) {
                    Ok(v) => v,
                    Err(e) => return Err(e),
                };
                self.printed.push(value);
                assert(self.output() =~= old(self).output() + run(*node).1);
                Ok(value)
            },
        }
    }

    /// The values printed so far, in order.
    pub fn printed(&self) -> (r: &Vec<i32>)
        ensures
            r@ == self.output(),
    {
        &self.printed
    }
}

fn apply_exec(op: BinaryOperator, a: i32, b: i32) -> (r: Result<i32, ArithmeticError>)
    ensures
        r == apply(op, a, b),
{
    let checked = match op {
        BinaryOperator::Add => a.checked_add(b),
        BinaryOperator::Sub => a.checked_sub(b),
        BinaryOperator::Mul => a.checked_mul(b),
        BinaryOperator::Div => {
            if b == 0 {
                return Err(ArithmeticError::DivisionByZero);
            }
            a.checked_div(b)
        },
    };
    match checked {
        Some(v) => Ok(v),
        None => Err(ArithmeticError::Overflow),
    }
}

} // verus!
