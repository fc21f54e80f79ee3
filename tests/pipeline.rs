use minicalc::compiler::{Compiler, Instr};
use minicalc::interpreter::{ArithmeticError, Interpreter};
use minicalc::lexer::{LexError, Lexer, Token};
use minicalc::parser::{BinaryOperator, ParseError, Parser, AST};

fn parse(text: &str) -> Result<AST, ParseError> {
    let mut parser = Parser::new(Lexer::new(text))?;
    parser.parse()
}

fn eval(text: &str) -> Result<i32, ArithmeticError> {
    let tree = parse(text).expect("the text should parse");
    Interpreter::new().interpret(&tree)
}

fn tokens(text: &str, count: usize) -> Vec<Result<Token, LexError>> {
    let mut lexer = Lexer::new(text);
    (0..count).map(|_| lexer.get_next_token()).collect()
}

#[test]
fn literal_round_trip() {
    for n in [0, 1, 7, 42, 1000, 65535, 2147483646, 2147483647] {
        let text = n.to_string();
        assert_eq!(parse(&text), Ok(AST::Num(n)));
        assert_eq!(eval(&text), Ok(n));
    }
}

#[test]
fn negative_literal_is_not_a_number() {
    assert_eq!(
        parse("-1"),
        Err(ParseError::UnexpectedToken { found: Token::Minus, expected: Token::Number(0) })
    );
}

#[test]
fn subtraction_is_left_associative() {
    assert_eq!(eval("8-3-2"), Ok(3));
    assert_eq!(eval("16/4/2"), Ok(2));
}

#[test]
fn multiplication_binds_tighter() {
    assert_eq!(eval("2+3*4"), Ok(14));
    assert_eq!(eval("(2+3)*4"), Ok(20));
    assert_eq!(eval("2*3+4"), Ok(10));
    assert_eq!(eval("10-6/2"), Ok(7));
}

#[test]
fn tree_shape_of_precedence() {
    let num = |v| Box::new(AST::Num(v));
    assert_eq!(
        parse("2+3*4"),
        Ok(AST::BinOp(num(2), BinaryOperator::Add, Box::new(AST::BinOp(num(3), BinaryOperator::Mul, num(4)))))
    );
    assert_eq!(
        parse("8-3-2"),
        Ok(AST::BinOp(Box::new(AST::BinOp(num(8), BinaryOperator::Sub, num(3))), BinaryOperator::Sub, num(2)))
    );
}

#[test]
fn division_truncates_toward_zero() {
    assert_eq!(eval("7/2"), Ok(3));
    assert_eq!(eval("(0-7)/2"), Ok(-3));
    assert_eq!(eval("7/(0-2)"), Ok(-3));
    assert_eq!(eval("(0-7)/(0-2)"), Ok(3));
}

#[test]
fn leading_minus_does_not_parse() {
    assert_eq!(
        parse("-7/2"),
        Err(ParseError::UnexpectedToken { found: Token::Minus, expected: Token::Number(0) })
    );
}

#[test]
fn division_by_zero_faults() {
    assert_eq!(eval("1/0"), Err(ArithmeticError::DivisionByZero));
    assert_eq!(eval("1/(2-2)"), Err(ArithmeticError::DivisionByZero));
}

#[test]
fn overflow_faults() {
    assert_eq!(eval("2147483647+1"), Err(ArithmeticError::Overflow));
    assert_eq!(eval("0-2147483647-2"), Err(ArithmeticError::Overflow));
    assert_eq!(eval("65536*65536"), Err(ArithmeticError::Overflow));
    assert_eq!(eval("(0-2147483647-1)/(0-1)"), Err(ArithmeticError::Overflow));
    assert_eq!(eval("0-2147483647-1"), Ok(i32::MIN));
}

#[test]
fn print_emits_and_returns_value() {
    let tree = parse("print 5").unwrap();
    assert_eq!(tree, AST::Print(Box::new(AST::Num(5))));
    let mut interpreter = Interpreter::new();
    assert_eq!(interpreter.interpret(&tree), Ok(5));
    assert_eq!(interpreter.printed(), &vec![5]);
}

#[test]
fn print_of_expression() {
    let tree = parse("print (1+2)*3").unwrap();
    let mut interpreter = Interpreter::new();
    assert_eq!(interpreter.interpret(&tree), Ok(9));
    assert_eq!(interpreter.printed(), &vec![9]);
}

#[test]
fn no_print_emits_nothing() {
    let tree = parse("1+2").unwrap();
    let mut interpreter = Interpreter::new();
    assert_eq!(interpreter.interpret(&tree), Ok(3));
    assert!(interpreter.printed().is_empty());
}

#[test]
fn fault_under_print_prints_nothing() {
    let tree = parse("print 1/0").unwrap();
    let mut interpreter = Interpreter::new();
    assert_eq!(interpreter.interpret(&tree), Err(ArithmeticError::DivisionByZero));
    assert!(interpreter.printed().is_empty());
}

#[test]
fn unexpected_character() {
    assert_eq!(tokens("@", 1), vec![Err(LexError::UnexpectedCharacter('@'))]);
    assert_eq!(parse("@"), Err(ParseError::Lex(LexError::UnexpectedCharacter('@'))));
    assert_eq!(parse("1+é"), Err(ParseError::Lex(LexError::UnexpectedCharacter('é'))));
}

#[test]
fn unterminated_parenthesis() {
    assert_eq!(
        parse("(1+2"),
        Err(ParseError::UnexpectedToken { found: Token::EndOfInput, expected: Token::RParen })
    );
}

#[test]
fn missing_operand() {
    assert_eq!(
        parse("1+"),
        Err(ParseError::UnexpectedToken { found: Token::EndOfInput, expected: Token::Number(0) })
    );
    assert_eq!(
        parse(""),
        Err(ParseError::UnexpectedToken { found: Token::EndOfInput, expected: Token::Number(0) })
    );
    assert_eq!(
        parse("1+print"),
        Err(ParseError::UnexpectedToken { found: Token::Print, expected: Token::Number(0) })
    );
}

#[test]
fn trailing_input_is_rejected() {
    assert_eq!(
        parse("1 2"),
        Err(ParseError::UnexpectedToken { found: Token::Number(2), expected: Token::EndOfInput })
    );
    assert_eq!(
        parse("(1))"),
        Err(ParseError::UnexpectedToken { found: Token::RParen, expected: Token::EndOfInput })
    );
}

#[test]
fn malformed_number() {
    assert_eq!(tokens("2147483648", 1), vec![Err(LexError::MalformedNumber)]);
    assert_eq!(parse("1+99999999999999999999"), Err(ParseError::Lex(LexError::MalformedNumber)));
    assert_eq!(tokens("0002147483647", 1), vec![Ok(Token::Number(2147483647))]);
}

#[test]
fn misspelled_keyword() {
    assert_eq!(tokens("prin", 1), vec![Err(LexError::ExpectedKeyword { found: None })]);
    assert_eq!(tokens("pront 1", 1), vec![Err(LexError::ExpectedKeyword { found: Some('o') })]);
    assert_eq!(tokens("p", 1), vec![Err(LexError::ExpectedKeyword { found: None })]);
    assert_eq!(tokens("printx", 2), vec![Ok(Token::Print), Err(LexError::UnexpectedCharacter('x'))]);
}

#[test]
fn token_sequence() {
    assert_eq!(
        tokens(" print (12 +3)*4/ 5 - 6\r\n", 13),
        vec![
            Ok(Token::Print),
            Ok(Token::LParen),
            Ok(Token::Number(12)),
            Ok(Token::Plus),
            Ok(Token::Number(3)),
            Ok(Token::RParen),
            Ok(Token::Star),
            Ok(Token::Number(4)),
            Ok(Token::Slash),
            Ok(Token::Number(5)),
            Ok(Token::Minus),
            Ok(Token::Number(6)),
            Ok(Token::EndOfInput),
        ]
    );
}

#[test]
fn exhausted_lexer_stays_exhausted() {
    assert_eq!(tokens("7", 4), vec![Ok(Token::Number(7)), Ok(Token::EndOfInput), Ok(Token::EndOfInput), Ok(Token::EndOfInput)]);
    assert_eq!(tokens(" \t\n", 3), vec![Ok(Token::EndOfInput); 3]);
    assert_eq!(tokens("", 2), vec![Ok(Token::EndOfInput); 2]);
}

#[test]
fn whitespace_is_skipped() {
    assert_eq!(eval("\t 1 +\r\n 2\n"), Ok(3));
    assert_eq!(eval("007"), Ok(7));
}

/// Runs a finished block the way the native program would, returning the
/// value of each instruction and the printed values.
fn run_block(block: &[Instr]) -> Option<(Vec<i32>, Vec<i32>)> {
    let mut values: Vec<i32> = Vec::new();
    let mut printed = Vec::new();
    for instr in block {
        let v = match *instr {
            Instr::Const(v) => v,
            Instr::Binary(op, x, y) => {
                let (a, b) = (*values.get(x)?, *values.get(y)?);
                match op {
                    BinaryOperator::Add => a.wrapping_add(b),
                    BinaryOperator::Sub => a.wrapping_sub(b),
                    BinaryOperator::Mul => a.wrapping_mul(b),
                    BinaryOperator::Div => a.checked_div(b)?,
                }
            }
            Instr::Print(x) => {
                let v = *values.get(x)?;
                printed.push(v);
                v
            }
            Instr::ReturnZero => 0,
        };
        values.push(v);
    }
    Some((values, printed))
}

fn compile(text: &str) -> (Vec<Instr>, usize) {
    let tree = parse(text).unwrap();
    let mut compiler = Compiler::new();
    compiler.create_main_function();
    let h = compiler.compile(&tree);
    compiler.finish_main_function();
    (compiler.block().clone(), h)
}

#[test]
fn compiled_block_layout() {
    let (block, h) = compile("2+3*4");
    assert_eq!(
        block,
        vec![
            Instr::Const(2),
            Instr::Const(3),
            Instr::Const(4),
            Instr::Binary(BinaryOperator::Mul, 1, 2),
            Instr::Binary(BinaryOperator::Add, 0, 3),
            Instr::ReturnZero,
        ]
    );
    assert_eq!(h, 4);
    let (block, h) = compile("print 5");
    assert_eq!(block, vec![Instr::Const(5), Instr::Print(0), Instr::ReturnZero]);
    assert_eq!(h, 1);
}

#[test]
fn backends_agree() {
    for text in ["8-3-2", "2+3*4", "(2+3)*4", "7/2", "(0-7)/2", "print 5", "print (1+2)*(3-10)/2", "42"] {
        let tree = parse(text).unwrap();
        let mut interpreter = Interpreter::new();
        let value = interpreter.interpret(&tree).unwrap();
        let (block, h) = compile(text);
        let (values, printed) = run_block(&block).unwrap();
        assert_eq!(values[h], value, "{}", text);
        assert_eq!(&printed, interpreter.printed(), "{}", text);
    }
}

#[test]
fn compiler_restarts_block() {
    let mut compiler = Compiler::new();
    compiler.create_main_function();
    compiler.compile(&AST::Num(1));
    compiler.create_main_function();
    assert!(compiler.block().is_empty());
}
