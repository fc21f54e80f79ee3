use vstd::prelude::*;

use crate::lexer::{lemma_scan_moves_forward, scan, LexError, Lexer, Token};

verus! {

/// The four arithmetic operators; no other token can stand in a binary node.
#[derive(Clone, Copy, Debug, PartialEq, Eq, Structural)]
pub enum BinaryOperator {
    Add,
    Sub,
    Mul,
    Div,
}

/// The syntax tree of one input line.
#[derive(Debug, PartialEq, Eq)]
pub enum AST {
    BinOp(Box<AST>, BinaryOperator, Box<AST>),
    Num(i32),
    Print(Box<AST>),
}

/// Why a line could not be parsed.
#[derive(Clone, Copy, Debug, PartialEq, Eq, Structural)]
pub enum ParseError {
    /// The current token is not the one the grammar asks for. Where a factor
    /// is expected, `expected` is `Number(0)`, standing for any number.
    UnexpectedToken { found: Token, expected: Token },
    /// The lexer failed on the way.
    Lex(LexError),
}

/// Where the parser stands: the lexer's position and the look-ahead token.
pub struct Cursor {
    pub pos: nat,
    pub cur: Token,
}

/// Characters left plus the look-ahead token; eating a token other than
/// `EndOfInput` makes it smaller.
pub open spec fn measure(s: Seq<char>, c: Cursor) -> int {
    s.len() - c.pos + if c.cur is EndOfInput {
        0int
    } else {
        1int
    }
}

/// Replaces the look-ahead token with the next one from the lexer.
pub open spec fn bump(s: Seq<char>, c: Cursor) -> Result<Cursor, ParseError> {
    let (r, p) = scan(s, c.pos);
    match r {
        Ok(t) => Ok(Cursor { pos: p, cur: t }),
        Err(e) => Err(ParseError::Lex(e)),
    }
}

/// Two tokens of the same variant; the value of a number does not count.
pub open spec fn same_kind(a: Token, b: Token) -> bool {
    match (a, b) {
        (Token::Number(_), Token::Number(_)) => true,
        _ => a == b,
    }
}

pub open spec fn eat_spec(s: Seq<char>, c: Cursor, expected: Token) -> Result<Cursor, ParseError> {
    if same_kind(c.cur, expected) {
        bump(s, c)
    } else {
        Err(ParseError::UnexpectedToken { found: c.cur, expected })
    }
}

pub open spec fn operator_of(t: Token) -> BinaryOperator {
    match t {
        Token::Plus => BinaryOperator::Add,
        Token::Minus => BinaryOperator::Sub,
        Token::Star => BinaryOperator::Mul,
        _ => BinaryOperator::Div,
    }
}

pub open spec fn is_additive(t: Token) -> bool {
    t is Plus || t is Minus
}

pub open spec fn is_multiplicative(t: Token) -> bool {
    t is Star || t is Slash
}

/// `factor := NUMBER | "(" expr ")"`
///
/// The tests of `measure` always hold (see `lemma_bump_decreases` and the
/// contracts of the parser's methods); they make the recursion well founded.
pub open spec fn parse_factor(s: Seq<char>, c: Cursor) -> Result<(AST, Cursor), ParseError>
    decreases measure(s, c), 0int,
{
    match c.cur {
        Token::Number(v) => match bump(s, c) {
            Ok(c1) => Ok((AST::Num(v), c1)),
            Err(e) => Err(e),
        },
        Token::LParen => match bump(s, c) {
            Ok(c1) => if 0 <= measure(s, c1) < measure(s, c) {
                match parse_expr(s, c1) {
                    Ok((e, c2)) => match eat_spec(s, c2, Token::RParen) {
                        Ok(c3) => Ok((e, c3)),
                        Err(x) => Err(x),
                    },
                    Err(x) => Err(x),
                }
            } else {
                Err(ParseError::UnexpectedToken { found: c1.cur, expected: Token::Number(0) })
            },
            Err(e) => Err(e),
        },
        _ => Err(ParseError::UnexpectedToken { found: c.cur, expected: Token::Number(0) }),
    }
}

/// The loop of `term := factor (("*" | "/") factor)*`, with `left` parsed so far.
pub open spec fn parse_term_rest(s: Seq<char>, left: AST, c: Cursor) -> Result<
    (AST, Cursor),
    ParseError,
>
    decreases measure(s, c), 1int,
{
    if is_multiplicative(c.cur) {
        match bump(s, c) {
            Ok(c1) => if 0 <= measure(s, c1) < measure(s, c) {
                match parse_factor(s, c1) {
                    Ok((right, c2)) => if 0 <= measure(s, c2) < measure(s, c) {
                        parse_term_rest(
                            s,
                            AST::BinOp(Box::new(left), operator_of(c.cur), Box::new(right)),
                            c2,
                        )
                    } else {
                        Ok((left, c2))
                    },
                    Err(x) => Err(x),
                }
            } else {
                Ok((left, c1))
            },
            Err(e) => Err(e),
        }
    } else {
        Ok((left, c))
    }
}

/// `term := factor (("*" | "/") factor)*`, left-associative.
pub open spec fn parse_term(s: Seq<char>, c: Cursor) -> Result<(AST, Cursor), ParseError>
    decreases measure(s, c), 2int,
{
    match parse_factor(s, c) {
        Ok((n, c1)) => if 0 <= measure(s, c1) < measure(s, c) {
            parse_term_rest(s, n, c1)
        } else {
            Ok((n, c1))
        },
        Err(x) => Err(x),
    }
}

/// The loop of `expr := term (("+" | "-") term)*`, with `left` parsed so far.
pub open spec fn parse_expr_rest(s: Seq<char>, left: AST, c: Cursor) -> Result<
    (AST, Cursor),
    ParseError,
>
    decreases measure(s, c), 3int,
{
    if is_additive(c.cur) {
        match bump(s, c) {
            Ok(c1) => if 0 <= measure(s, c1) < measure(s, c) {
                match parse_term(s, c1) {
                    Ok((right, c2)) => if 0 <= measure(s, c2) < measure(s, c) {
                        parse_expr_rest(
                            s,
                            AST::BinOp(Box::new(left), operator_of(c.cur), Box::new(right)),
                            c2,
                        )
                    } else {
                        Ok((left, c2))
                    },
                    Err(x) => Err(x),
                }
            } else {
                Ok((left, c1))
            },
            Err(e) => Err(e),
        }
    } else {
        Ok((left, c))
    }
}

/// `expr := term (("+" | "-") term)*`, left-associative.
pub open spec fn parse_expr(s: Seq<char>, c: Cursor) -> Result<(AST, Cursor), ParseError>
    decreases measure(s, c), 4int,
{
    match parse_term(s, c) {
        Ok((n, c1)) => if 0 <= measure(s, c1) < measure(s, c) {
            parse_expr_rest(s, n, c1)
        } else {
            Ok((n, c1))
        },
        Err(x) => Err(x),
    }
}

/// An expression that must be followed by the end of the input.
pub open spec fn parse_whole_expr(s: Seq<char>, c: Cursor) -> Result<AST, ParseError> {
    match parse_expr(s, c) {
        Ok((e, c1)) => if c1.cur is EndOfInput {
            Ok(e)
        } else {
            Err(ParseError::UnexpectedToken { found: c1.cur, expected: Token::EndOfInput })
        },
        Err(x) => Err(x),
    }
}

/// `program := "print" expr | expr`, followed by the end of the input.
pub open spec fn parse_program(s: Seq<char>, c: Cursor) -> Result<AST, ParseError> {
    if c.cur is Print {
        match bump(s, c) {
            Ok(c1) => match parse_whole_expr(s, c1) {
                Ok(e) => Ok(AST::Print(Box::new(e))),
                Err(x) => Err(x),
            },
            Err(x) => Err(x),
        }
    } else {
        parse_whole_expr(s, c)
    }
}

/// The cursor on the first token of the text from `pos` on.
pub open spec fn start(s: Seq<char>, pos: nat) -> Result<Cursor, ParseError> {
    bump(s, Cursor { pos, cur: Token::EndOfInput })
}

/// The syntax tree of a whole line, or the first error met.
pub open spec fn parse_text(s: Seq<char>) -> Result<AST, ParseError> {
    match start(s, 0) {
        Ok(c) => parse_program(s, c),
        Err(e) => Err(e),
    }
}

/// Eating a token other than `EndOfInput` makes the measure smaller.
pub proof fn lemma_bump_decreases(s: Seq<char>, c: Cursor)
    requires
        c.pos <= s.len(),
    ensures
        bump(s, c) is Ok ==> {
            let c1 = bump(s, c)->Ok_0;
            &&& c1.pos <= s.len()
            &&& 0 <= measure(s, c1)
            &&& !(c.cur is EndOfInput) ==> measure(s, c1) < measure(s, c)
        },
{
    lemma_scan_moves_forward(s, c.pos);
}

/// A text whose only token is the number `v` parses to that number.
pub proof fn lemma_parse_single_number(s: Seq<char>, v: i32, p: nat)
    requires
        p <= s.len(),
        scan(s, 0) == (Ok::<Token, LexError>(Token::Number(v)), p),
        scan(s, p) == (Ok::<Token, LexError>(Token::EndOfInput), p),
    ensures
        parse_text(s) == Ok::<AST, ParseError>(AST::Num(v)),
{
    let c = Cursor { pos: p, cur: Token::Number(v) };
    let c1 = Cursor { pos: p, cur: Token::EndOfInput };
    assert(start(s, 0) == Ok::<Cursor, ParseError>(c));
    assert(bump(s, c) == Ok::<Cursor, ParseError>(c1));
    assert(parse_factor(s, c) == Ok::<(AST, Cursor), ParseError>((AST::Num(v), c1)));
    assert(parse_term_rest(s, AST::Num(v), c1) == Ok::<(AST, Cursor), ParseError>((AST::Num(v), c1)));
    assert(parse_term(s, c) == Ok::<(AST, Cursor), ParseError>((AST::Num(v), c1)));
    assert(parse_expr_rest(s, AST::Num(v), c1) == Ok::<(AST, Cursor), ParseError>((AST::Num(v), c1)));
    assert(parse_expr(s, c) == Ok::<(AST, Cursor), ParseError>((AST::Num(v), c1)));
}

/// A parser with one token of look-ahead.
pub struct Parser {
    lexer: Lexer,
    current_token: Token,
}

impl Parser {
    /// The text being parsed.
    pub closed spec fn text(&self) -> Seq<char> {
        self.lexer.text()
    }

    pub closed spec fn cursor(&self) -> Cursor {
        Cursor { pos: self.lexer.position(), cur: self.current_token }
    }

    pub closed spec fn wf(&self) -> bool {
        self.lexer.wf()
    }

    /// Reads the first token of the lexer's remaining input.
    pub fn new(lexer: Lexer) -> (r: Result<Parser, ParseError>)
        requires
            lexer.wf(),
        ensures
            match start(lexer.text(), lexer.position()) {
                Ok(c) => r is Ok && r->Ok_0.wf() && r->Ok_0.text() == lexer.text()
                    && r->Ok_0.cursor() == c,
                Err(e) => r == Err::<Parser, ParseError>(e),
            },
    {
        let mut lexer = lexer;
        match lexer.get_next_token() {
            Ok(t) => Ok(Parser { lexer, current_token: t }),
            Err(e) => Err(ParseError::Lex(e)),
        }
    }

    fn bump(&mut self) -> (r: Result<(), ParseError>)
        requires
            old(self).wf(),
        ensures
            final(self).wf(),
            final(self).text() == old(self).text(),
            match bump(old(self).text(), old(self).cursor()) {
                Ok(c1) => r is Ok && final(self).cursor() == c1,
                Err(e) => r == Err::<(), ParseError>(e),
            },
    {
        match self.lexer.get_next_token() {
            Ok(t) => {
                self.current_token = t;
                Ok(())
            },
            Err(e) => Err(ParseError::Lex(e)),
        }
    }

    /// Consumes the look-ahead token if it has the variant of `token`.
    fn eat(&mut self, token: Token) -> (r: Result<(), ParseError>)
        requires
            old(self).wf(),
        ensures
            final(self).wf(),
            final(self).text() == old(self).text(),
            match eat_spec(old(self).text(), old(self).cursor(), token) {
                Ok(c1) => r is Ok && final(self).cursor() == c1,
                Err(e) => r == Err::<(), ParseError>(e),
            },
    {
        if !same_kind_exec(self.current_token, token) {
            return Err(ParseError::UnexpectedToken { found: self.current_token, expected: token });
        }
        self.bump()
    }

    fn factor(&mut self) -> (r: Result<AST, ParseError>)
        requires
            old(self).wf(),
        ensures
            final(self).wf(),
            final(self).text() == old(self).text(),
            match parse_factor(old(self).text(), old(self).cursor()) {
                Ok((n, c1)) => r == Ok::<AST, ParseError>(n) && final(self).cursor() == c1
                    && 0 <= measure(final(self).text(), c1) < measure(
                    old(self).text(),
                    old(self).cursor(),
                ),
                Err(e) => r == Err::<AST, ParseError>(e),
            },
        decreases measure(old(self).text(), old(self).cursor()), 0int,
    {
        let ghost s = self.text();
        let ghost c = self.cursor();
        proof {
            lemma_bump_decreases(s, c);
        }
        match self.current_token {
            Token::Number(value) => {
                if let Err(e) = self.eat(Token::Number(value)) {
                    return Err(e);
                }
                Ok(AST::Num(value))
            },
            Token::LParen => {
                if let Err(e) = self.eat(Token::LParen) {
                    return Err(e);
                }
                let node = match self.expr() {
                    Ok(n) => n,
                    Err(e) => return Err(e),
                };
                proof {
                    lemma_bump_decreases(s, self.cursor());
                }
                if let Err(e) = self.eat(Token::RParen) {
                    return Err(e);
                }
                Ok(node)
            },
            _ => Err(ParseError::UnexpectedToken { found: self.current_token, expected: Token::Number(0) }),
        }
    }

    fn term(&mut self) -> (r: Result<AST, ParseError>)
        requires
            old(self).wf(),
        ensures
            final(self).wf(),
            final(self).text() == old(self).text(),
            match parse_term(old(self).text(), old(self).cursor()) {
                Ok((n, c1)) => r == Ok::<AST, ParseError>(n) && final(self).cursor() == c1
                    && 0 <= measure(final(self).text(), c1) < measure(
                    old(self).text(),
                    old(self).cursor(),
                ),
                Err(e) => r == Err::<AST, ParseError>(e),
            },
        decreases measure(old(self).text(), old(self).cursor()), 2int,
    {
        let ghost s = self.text();
        let ghost c0 = self.cursor();
        let mut node = match self.factor() {
            Ok(n) => n,
            Err(e) => return Err(e),
        };
        while is_multiplicative_exec(self.current_token)
            invariant
                self.wf(),
                self.text() == s,
                s == old(self).text(),
                c0 == old(self).cursor(),
                0 <= measure(s, self.cursor()) < measure(s, c0),
                parse_term(s, c0) == parse_term_rest(s, node, self.cursor()),
            decreases measure(s, self.cursor()),
        {
            let ghost c = self.cursor();
            let token = self.current_token;
            proof {
                lemma_bump_decreases(s, c);
            }
            if let Err(e) = self.eat(token) {
                return Err(e);
            }
            let right = match self.factor() {
                Ok(n) => n,
                Err(e) => return Err(e),
            };
            node = AST::BinOp(Box::new(node), operator_exec(token), Box::new(right));
        }
        Ok(node)
    }

    fn expr(&mut self) -> (r: Result<AST, ParseError>)
        requires
            old(self).wf(),
        ensures
            final(self).wf(),
            final(self).text() == old(self).text(),
            match parse_expr(old(self).text(), old(self).cursor()) {
                Ok((n, c1)) => r == Ok::<AST, ParseError>(n) && final(self).cursor() == c1
                    && 0 <= measure(final(self).text(), c1) < measure(
                    old(self).text(),
                    old(self).cursor(),
                ),
                Err(e) => r == Err::<AST, ParseError>(e),
            },
        decreases measure(old(self).text(), old(self).cursor()), 4int,
    {
        let ghost s = self.text();
        let ghost c0 = self.cursor();
        let mut node = match self.term() {
            Ok(n) => n,
            Err(e) => return Err(e),
        };
        while is_additive_exec(self.current_token)
            invariant
                self.wf(),
                self.text() == s,
                s == old(self).text(),
                c0 == old(self).cursor(),
                0 <= measure(s, self.cursor()) < measure(s, c0),
                parse_expr(s, c0) == parse_expr_rest(s, node, self.cursor()),
            decreases measure(s, self.cursor()),
        {
            let ghost c = self.cursor();
            let token = self.current_token;
            proof {
                lemma_bump_decreases(s, c);
            }
            if let Err(e) = self.eat(token) {
                return Err(e);
            }
            let right = match self.term() {
                Ok(n) => n,
                Err(e) => return Err(e),
            };
            node = AST::BinOp(Box::new(node), operator_exec(token), Box::new(right));
        }
        Ok(node)
    }

    /// Parses the whole line: an optional `print`, one expression, and the end
    /// of the input.
    pub fn parse(&mut self) -> (r: Result<AST, ParseError>)
        requires
            old(self).wf(),
        ensures
            final(self).wf(),
            final(self).text() == old(self).text(),
            r == parse_program(old(self).text(), old(self).cursor()),
            r is Ok ==> final(self).cursor().cur is EndOfInput,
    {
        if let Token::Print = self.current_token {
            if let Err(e) = self.eat(Token::Print) {
                return Err(e);
            }
            let e = match self.expr() {
                Ok(n) => n,
                Err(e) => return Err(e),
            };
            if let Err(e) = self.expect_end() {
                return Err(e);
            }
            Ok(AST::Print(Box::new(e)))
        } else {
            let e = match self.expr() {
                Ok(n) => n,
                Err(e) => return Err(e),
            };
            if let Err(e) = self.expect_end() {
                return Err(e);
            }
            Ok(e)
        }
    }

    fn expect_end(&self) -> (r: Result<(), ParseError>)
        ensures
            r == if self.cursor().cur is EndOfInput {
                Ok::<(), ParseError>(())
            } else {
                Err(ParseError::UnexpectedToken { found: self.cursor().cur, expected: Token::EndOfInput })
            },
    {
        if let Token::EndOfInput = self.current_token {
            Ok(())
        } else {
            Err(ParseError::UnexpectedToken { found: self.current_token, expected: Token::EndOfInput })
        }
    }
}

fn same_kind_exec(a: Token, b: Token) -> (r: bool)
    ensures
        r == same_kind(a, b),
{
    match (a, b) {
        (Token::Number(_), Token::Number(_)) => true,
        _ => a == b,
    }
}

fn is_additive_exec(t: Token) -> (r: bool)
    ensures
        r == is_additive(t),
{
    matches!(t, Token::Plus | Token::Minus)
}

fn is_multiplicative_exec(t: Token) -> (r: bool)
    ensures
        r == is_multiplicative(t),
{
    matches!(t, Token::Star | Token::Slash)
}

fn operator_exec(t: Token) -> (r: BinaryOperator)
    ensures
        r == operator_of(t),
{
    match t {
        Token::Plus => BinaryOperator::Add,
        Token::Minus => BinaryOperator::Sub,
        Token::Star => BinaryOperator::Mul,
        _ => BinaryOperator::Div,
    }
}

} // verus!
