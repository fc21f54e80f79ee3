use vstd::prelude::*;

verus! {

/// One lexical unit of the calculator language.
#[derive(Clone, Copy, Debug, PartialEq, Eq, Structural)]
pub enum Token {
    Number(i32),
    Plus,
    Minus,
    Star,
    Slash,
    Print,
    LParen,
    RParen,
    EndOfInput,
}

/// Why the lexer could not produce a token.
#[derive(Clone, Copy, Debug, PartialEq, Eq, Structural)]
pub enum LexError {
    /// A character that starts no token.
    UnexpectedCharacter(char),
    /// A run of digits whose value does not fit in an `i32`.
    MalformedNumber,
    /// A `p` that does not begin the keyword `print`; `found` is the first
    /// character that differs, or `None` at the end of the input.
    ExpectedKeyword { found: Option<char> },
}

pub open spec fn is_space(c: char) -> bool {
    c == ' ' || c == '\t' || c == '\n' || c == '\r'
}

pub open spec fn is_digit(c: char) -> bool {
    '0' <= c && c <= '9'
}

pub open spec fn digit_value(c: char) -> nat {
    (c as int - '0' as int) as nat
}

/// The value of a run of decimal digits, most significant first.
pub open spec fn digits_value(d: Seq<char>) -> nat
    decreases d.len(),
{
    if d.len() == 0 {
        0
    } else {
        digits_value(d.drop_last()) * 10 + digit_value(d.last())
    }
}

/// The first position at or after `i` that holds no whitespace.
pub open spec fn skip_spaces(s: Seq<char>, i: nat) -> nat
    decreases s.len() - i,
{
    if i < s.len() && is_space(s[i as int]) {
        skip_spaces(s, i + 1)
    } else {
        i
    }
}

/// The end of the maximal run of digits that starts at `i`.
pub open spec fn digits_end(s: Seq<char>, i: nat) -> nat
    decreases s.len() - i,
{
    if i < s.len() && is_digit(s[i as int]) {
        digits_end(s, i + 1)
    } else {
        i
    }
}

pub open spec fn keyword() -> Seq<char> {
    seq!['p', 'r', 'i', 'n', 't']
}

/// How many leading characters of the keyword stand at `i`, given that the
/// first `j` of them do.
pub open spec fn keyword_matched(s: Seq<char>, i: nat, j: nat) -> nat
    decreases 5 - j,
{
    if j < 5 && i + j < s.len() && s[(i + j) as int] == keyword()[j as int] {
        keyword_matched(s, i, j + 1)
    } else {
        j
    }
}

pub open spec fn char_at(s: Seq<char>, i: nat) -> Option<char> {
    if i < s.len() {
        Some(s[i as int])
    } else {
        None
    }
}

/// The token of a one-character operator or parenthesis.
pub open spec fn symbol_token(c: char) -> Option<Token> {
    if c == '+' {
        Some(Token::Plus)
    } else if c == '-' {
        Some(Token::Minus)
    } else if c == '*' {
        Some(Token::Star)
    } else if c == '/' {
        Some(Token::Slash)
    } else if c == '(' {
        Some(Token::LParen)
    } else if c == ')' {
        Some(Token::RParen)
    } else {
        None
    }
}

/// What one step of the lexer yields on the text `s` from position `pos`,
/// with the position that it leaves behind.
pub open spec fn scan(s: Seq<char>, pos: nat) -> (Result<Token, LexError>, nat) {
    let i = skip_spaces(s, pos);
    if i >= s.len() {
        (Ok(Token::EndOfInput), i)
    } else {
        let c = s[i as int];
        if is_digit(c) {
            let j = digits_end(s, i);
            let v = digits_value(s.subrange(i as int, j as int));
            if v <= i32::MAX {
                (Ok(Token::Number(v as i32)), j)
            } else {
                (Err(LexError::MalformedNumber), j)
            }
        } else if symbol_token(c) is Some {
            (Ok(symbol_token(c)->0), i + 1)
        } else if c == 'p' {
            let m = keyword_matched(s, i, 1);
            if m == 5 {
                (Ok(Token::Print), i + 5)
            } else {
                (Err(LexError::ExpectedKeyword { found: char_at(s, i + m) }), i + m)
            }
        } else {
            (Err(LexError::UnexpectedCharacter(c)), i)
        }
    }
}

/// A pull-based lexer over one line of text.
pub struct Lexer {
    chars: Vec<char>,
    pos: usize,
}

impl Lexer {
    /// The text being tokenized.
    pub closed spec fn text(&self) -> Seq<char> {
        self.chars@
    }

    /// The position of the next character to read.
    pub closed spec fn position(&self) -> nat {
        self.pos as nat
    }

    pub open spec fn wf(&self) -> bool {
        self.position() <= self.text().len()
    }

    pub fn new(input: &str) -> (l: Lexer)
        ensures
            l.wf(),
            l.text() == input@,
            l.position() == 0,
    {
        let mut chars: Vec<char> = Vec::new();
        for c in it: input.chars()
            invariant
                it.seq() == input@,
                chars@ == input@.subrange(0, it.index() as int),
        {
            chars.push(c);
        }
        assert(chars@ =~= input@);
        Lexer { chars, pos: 0 }
    }

    fn current_char(&self) -> (r: Option<char>)
        ensures
            r == char_at(self.text(), self.position()),
    {
        if self.pos < self.chars.len() {
            Some(self.chars[self.pos])
        } else {
            None
        }
    }

    fn advance(&mut self)
        requires
            old(self).position() < old(self).text().len(),
        ensures
            final(self).text() == old(self).text(),
            final(self).position() == old(self).position() + 1,
    {
        if self.pos < self.chars.len() {
            self.pos = self.pos + 1;
        }
    }

    /// Yields the next token and moves past it; at the end of the input it
    /// yields `EndOfInput`, and keeps doing so.
    pub fn get_next_token(&mut self) -> (r: Result<Token, LexError>)
        requires
            old(self).wf(),
        ensures
            final(self).wf(),
            final(self).text() == old(self).text(),
            (r, final(self).position()) == scan(old(self).text(), old(self).position()),
    {
        let ghost s = self.text();
        let ghost start = self.position();
        while self.pos < self.chars.len() && is_space_char(self.chars[self.pos])
            invariant
                self.wf(),
                self.text() == s,
                skip_spaces(s, start) == skip_spaces(s, self.position()),
            decreases self.chars.len() - self.pos,
        {
            self.advance();
        }
        let c = match self.current_char() {
            None => {
                return Ok(Token::EndOfInput);
            },
            Some(c) => c,
        };
        if is_digit_char(c) {
            self.number()
        } else if c == 'p' {
            self.keyword_print()
        } else {
            match symbol(c) {
                Some(t) => {
                    self.advance();
                    Ok(t)
                },
                None => Err(LexError::UnexpectedCharacter(c)),
            }
        }
    }

    /// Reads the maximal run of digits at the current position.
    fn number(&mut self) -> (r: Result<Token, LexError>)
        requires
            old(self).wf(),
            old(self).position() < old(self).text().len(),
            is_digit(old(self).text()[old(self).position() as int]),
        ensures
            final(self).wf(),
            final(self).text() == old(self).text(),
            ({
                let s = old(self).text();
                let i = old(self).position();
                let j = digits_end(s, i);
                let v = digits_value(s.subrange(i as int, j as int));
                &&& final(self).position() == j
                &&& r == if v <= i32::MAX {
                    Ok::<Token, LexError>(Token::Number(v as i32))
                } else {
                    Err(LexError::MalformedNumber)
                }
            }),
    {
        let ghost s = self.text();
        let ghost i = self.position();
        let mut value: i64 = 0;
        let mut overflow = false;
        while self.pos < self.chars.len() && is_digit_char(self.chars[self.pos])
            invariant
                self.wf(),
                self.text() == s,
                i <= self.position(),
                digits_end(s, i) == digits_end(s, self.position()),
                !overflow ==> value == digits_value(s.subrange(i as int, self.position() as int)),
                !overflow ==> value <= i32::MAX,
                overflow ==> digits_value(s.subrange(i as int, self.position() as int)) > i32::MAX,
            decreases self.chars.len() - self.pos,
        {
            let c = self.chars[self.pos];
            let ghost before = s.subrange(i as int, self.position() as int);
            self.advance();
            let ghost after = s.subrange(i as int, self.position() as int);
            assert(after.drop_last() =~= before);
            assert(after.last() == c);
            assert(digits_value(after) == digits_value(before) * 10 + digit_value(c));
            if !overflow {
                value = value * 10 + digit_char_value(c);
                if value > i32::MAX as i64 {
                    overflow = true;
                }
            } else {
                assert(digits_value(after) >= digits_value(before)) by (nonlinear_arith)
                    requires
                        digits_value(after) == digits_value(before) * 10 + digit_value(c),
                ;
            }
        }
        if overflow {
            Err(LexError::MalformedNumber)
        } else {
            Ok(Token::Number(value as i32))
        }
    }

    /// Reads the keyword `print`, whose first letter is at the current position.
    fn keyword_print(&mut self) -> (r: Result<Token, LexError>)
        requires
            old(self).wf(),
            old(self).position() < old(self).text().len(),
            old(self).text()[old(self).position() as int] == 'p',
        ensures
            final(self).wf(),
            final(self).text() == old(self).text(),
            ({
                let s = old(self).text();
                let i = old(self).position();
                let m = keyword_matched(s, i, 1);
                if m == 5 {
                    r == Ok::<Token, LexError>(Token::Print) && final(self).position() == i + 5
                } else {
                    &&& r == Err::<Token, LexError>(
                        LexError::ExpectedKeyword { found: char_at(s, i + m) },
                    )
                    &&& final(self).position() == i + m
                }
            }),
    {
        let ghost s = self.text();
        let ghost i = self.position();
        self.advance();
        let mut j: usize = 1;
        while j < 5 && self.pos < self.chars.len() && self.chars[self.pos] == keyword_char(j)
            invariant
                self.wf(),
                self.text() == s,
                1 <= j <= 5,
                self.position() == i + j,
                keyword_matched(s, i, 1) == keyword_matched(s, i, j as nat),
            decreases 5 - j,
        {
            self.advance();
            j = j + 1;
        }
        if j == 5 {
            Ok(Token::Print)
        } else {
            Err(LexError::ExpectedKeyword { found: self.current_char() })
        }
    }
}

fn is_space_char(c: char) -> (r: bool)
    ensures
        r == is_space(c),
{
    c == ' ' || c == '\t' || c == '\n' || c == '\r'
}

fn is_digit_char(c: char) -> (r: bool)
    ensures
        r == is_digit(c),
{
    '0' <= c && c <= '9'
}

fn digit_char_value(c: char) -> (r: i64)
    requires
        is_digit(c),
    ensures
        r == digit_value(c),
{
    (c as u32 - '0' as u32) as i64
}

fn symbol(c: char) -> (r: Option<Token>)
    ensures
        r == symbol_token(c),
{
    match c {
        '+' => Some(Token::Plus),
        '-' => Some(Token::Minus),
        '*' => Some(Token::Star),
        '/' => Some(Token::Slash),
        '(' => Some(Token::LParen),
        ')' => Some(Token::RParen),
        _ => None,
    }
}

fn keyword_char(j: usize) -> (c: char)
    requires
        j < 5,
    ensures
        c == keyword()[j as int],
{
    match j {
        0 => 'p',
        1 => 'r',
        2 => 'i',
        3 => 'n',
        _ => 't',
    }
}

/// Once the lexer has reached the end of its input it stays there: the next
/// step again yields `EndOfInput`, never an error, and does not move.
pub proof fn lemma_exhausted_lexer_stays_exhausted(s: Seq<char>, pos: nat)
    requires
        pos <= s.len(),
        scan(s, pos).0 == Ok::<Token, LexError>(Token::EndOfInput),
    ensures
        scan(s, scan(s, pos).1) == (Ok::<Token, LexError>(Token::EndOfInput), scan(s, pos).1),
{
    lemma_skip_spaces_bounds(s, pos);
    let q = scan(s, pos).1;
    assert(q == s.len());
}

pub proof fn lemma_skip_spaces_bounds(s: Seq<char>, i: nat)
    requires
        i <= s.len(),
    ensures
        i <= skip_spaces(s, i) <= s.len(),
    decreases s.len() - i,
{
    if i < s.len() && is_space(s[i as int]) {
        lemma_skip_spaces_bounds(s, i + 1);
    }
}

pub proof fn lemma_digits_end_bounds(s: Seq<char>, i: nat)
    requires
        i <= s.len(),
    ensures
        i <= digits_end(s, i) <= s.len(),
    decreases s.len() - i,
{
    if i < s.len() && is_digit(s[i as int]) {
        lemma_digits_end_bounds(s, i + 1);
    }
}

pub proof fn lemma_keyword_matched_bounds(s: Seq<char>, i: nat, j: nat)
    requires
        j <= 5,
        i + j <= s.len(),
    ensures
        j <= keyword_matched(s, i, j) <= 5,
        i + keyword_matched(s, i, j) <= s.len(),
    decreases 5 - j,
{
    if j < 5 && i + j < s.len() && s[(i + j) as int] == keyword()[j as int] {
        lemma_keyword_matched_bounds(s, i, j + 1);
    }
}

/// A step of the lexer never moves back nor past the end of the text, and
/// one that yields a token other than `EndOfInput` moves forward.
pub proof fn lemma_scan_moves_forward(s: Seq<char>, pos: nat)
    requires
        pos <= s.len(),
    ensures
        pos <= scan(s, pos).1 <= s.len(),
        scan(s, pos).0 is Ok && scan(s, pos).0->Ok_0 != Token::EndOfInput ==> pos < scan(s, pos).1,
{
    lemma_skip_spaces_bounds(s, pos);
    let i = skip_spaces(s, pos);
    if i < s.len() {
        lemma_digits_end_bounds(s, i);
        if is_digit(s[i as int]) {
            lemma_digits_end_bounds(s, i + 1);
        }
        lemma_keyword_matched_bounds(s, i, 1);
    }
}

/// The character of a decimal digit `d < 10`.
pub open spec fn digit_char(d: nat) -> char {
    seq!['0', '1', '2', '3', '4', '5', '6', '7', '8', '9'][d as int]
}

/// The decimal text of `n`, without sign or leading zeros.
pub open spec fn decimal(n: nat) -> Seq<char>
    decreases n,
{
    if n < 10 {
        seq![digit_char(n)]
    } else {
        decimal(n / 10).push(digit_char(n % 10))
    }
}

proof fn lemma_digit_char(d: nat)
    requires
        d < 10,
    ensures
        is_digit(digit_char(d)),
        !is_space(digit_char(d)),
        digit_value(digit_char(d)) == d,
{
}

proof fn lemma_decimal(n: nat)
    ensures
        decimal(n).len() >= 1,
        forall|k: int| 0 <= k < decimal(n).len() ==> is_digit(#[trigger] decimal(n)[k]),
        digits_value(decimal(n)) == n,
    decreases n,
{
    if n < 10 {
        lemma_digit_char(n);
        assert(decimal(n).drop_last() =~= Seq::<char>::empty());
        assert(digits_value(Seq::<char>::empty()) == 0);
        assert(decimal(n).last() == digit_char(n));
    } else {
        lemma_decimal(n / 10);
        lemma_digit_char(n % 10);
        assert(decimal(n).drop_last() =~= decimal(n / 10));
        assert(decimal(n).last() == digit_char(n % 10));
        assert(digits_value(decimal(n)) == digits_value(decimal(n / 10)) * 10 + (n % 10));
        assert((n / 10) * 10 + n % 10 == n) by (nonlinear_arith);
    }
}

proof fn lemma_digits_end_all_digits(s: Seq<char>, i: nat)
    requires
        i <= s.len(),
        forall|k: int| i <= k < s.len() ==> is_digit(#[trigger] s[k]),
    ensures
        digits_end(s, i) == s.len(),
    decreases s.len() - i,
{
    if i < s.len() {
        lemma_digits_end_all_digits(s, i + 1);
    }
}

/// The decimal text of an `i32` that is not negative lexes to that number,
/// followed by the end of the input.
pub proof fn lemma_scan_decimal(n: i32)
    requires
        n >= 0,
    ensures
        scan(decimal(n as nat), 0) == (Ok::<Token, LexError>(Token::Number(n)), decimal(n as nat).len()),
        scan(decimal(n as nat), decimal(n as nat).len()) == (
            Ok::<Token, LexError>(Token::EndOfInput),
            decimal(n as nat).len(),
        ),
{
    let s = decimal(n as nat);
    lemma_decimal(n as nat);
    assert(is_digit(s[0]));
    lemma_digits_end_all_digits(s, 0);
    assert(s.subrange(0, s.len() as int) =~= s);
}

} // verus!
