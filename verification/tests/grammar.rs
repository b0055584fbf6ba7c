use calc::grammar::{parse, ParseError};
use calc::interner::Interner;
use calc::ir::{
    DefId, Expression, ExpressionData, FunctionData, FunctionId, Op, Span, Statement,
    StatementData, VariableId,
};
use calc::lexer::{lex, Token, TokenKind};

fn tokens(text: &str) -> (Vec<Token>, Interner) {
    let mut interner = Interner::new();
    let tokens = lex(text.as_bytes(), &mut interner);
    (tokens, interner)
}

fn statements(text: &str) -> Result<Vec<Statement>, ParseError> {
    let (tokens, _) = tokens(text);
    parse(&tokens, text.as_bytes(), DefId { index: 0 })
}

fn span(start: usize, end: usize) -> Span {
    Span { id: DefId { index: 0 }, start, end }
}

fn number(start: usize, end: usize, digits: &str) -> Expression {
    Expression { span: span(start, end), data: ExpressionData::Number(digits.to_string()) }
}

fn variable(start: usize, end: usize, index: usize) -> Expression {
    Expression { span: span(start, end), data: ExpressionData::Variable(VariableId { index }) }
}

fn op(start: usize, end: usize, left: Expression, op: Op, right: Expression) -> Expression {
    Expression {
        span: span(start, end),
        data: ExpressionData::Op(Box::new(left), op, Box::new(right)),
    }
}

fn print(start: usize, end: usize, e: Expression) -> Statement {
    Statement { span: span(start, end), data: StatementData::Print(e) }
}

#[test]
fn lexes_keywords_and_names() {
    let (tokens, interner) = tokens("fn f(x) = x;");
    let kinds: Vec<TokenKind> = tokens.iter().map(|t| t.kind).collect();
    assert_eq!(
        kinds,
        vec![
            TokenKind::Fn,
            TokenKind::Identifier,
            TokenKind::LeftParen,
            TokenKind::Identifier,
            TokenKind::RightParen,
            TokenKind::Equals,
            TokenKind::Identifier,
            TokenKind::Semicolon,
            TokenKind::End,
        ]
    );
    assert_eq!(tokens[3].symbol, tokens[6].symbol);
    assert_ne!(tokens[1].symbol, tokens[3].symbol);
    assert_eq!(interner.text(tokens[1].symbol), "f");
    assert_eq!(interner.text(tokens[3].symbol), "x");
    assert_eq!((tokens[8].start, tokens[8].end), (12, 12));
}

#[test]
fn lexes_numbers_and_words() {
    let (tokens, interner) = tokens("  3.14 1. fnx print_ _a9\t");
    let seen: Vec<(TokenKind, usize, usize)> =
        tokens.iter().map(|t| (t.kind, t.start, t.end)).collect();
    assert_eq!(
        seen,
        vec![
            (TokenKind::Number, 2, 6),
            (TokenKind::Number, 7, 8),
            (TokenKind::Invalid, 8, 9),
        ]
    );
    assert_eq!(interner.texts.len(), 0);
}

#[test]
fn lexing_stops_at_a_byte_that_starts_no_token() {
    let (tokens, _) = tokens("a $ b");
    let seen: Vec<(TokenKind, usize, usize)> =
        tokens.iter().map(|t| (t.kind, t.start, t.end)).collect();
    assert_eq!(seen, vec![(TokenKind::Identifier, 0, 1), (TokenKind::Invalid, 2, 3)]);
}

#[test]
fn keywords_are_whole_words() {
    let (tokens, interner) = tokens("fn fnx print printer f");
    let kinds: Vec<TokenKind> = tokens.iter().map(|t| t.kind).collect();
    assert_eq!(
        kinds,
        vec![
            TokenKind::Fn,
            TokenKind::Identifier,
            TokenKind::Print,
            TokenKind::Identifier,
            TokenKind::Identifier,
            TokenKind::End,
        ]
    );
    assert_eq!(interner.text(tokens[1].symbol), "fnx");
    assert_eq!(interner.text(tokens[3].symbol), "printer");
}

#[test]
fn parse_print() {
    let parsed = statements("print 1 + 2;").unwrap();
    let sum = op(6, 11, number(6, 7, "1"), Op::Add, number(10, 11, "2"));
    assert_eq!(parsed, vec![print(0, 12, sum)]);
}

#[test]
fn parse_precedence() {
    // this parses as `(1 + (2 * 3)) + 4`
    let parsed = statements("print 1 + 2 * 3 + 4;").unwrap();
    let product = op(10, 15, number(10, 11, "2"), Op::Multiply, number(14, 15, "3"));
    let inner = op(6, 15, number(6, 7, "1"), Op::Add, product);
    let outer = op(6, 19, inner, Op::Add, number(18, 19, "4"));
    assert_eq!(parsed, vec![print(0, 20, outer)]);
}

#[test]
fn operators_group_to_the_left() {
    let parsed = statements("print 8 - 4 - 2 / 1 / 3;").unwrap();
    let quotient = op(14, 19, number(14, 15, "2"), Op::Divide, number(18, 19, "1"));
    let quotient = op(14, 23, quotient, Op::Divide, number(22, 23, "3"));
    let difference = op(6, 11, number(6, 7, "8"), Op::Subtract, number(10, 11, "4"));
    let difference = op(6, 23, difference, Op::Subtract, quotient);
    assert_eq!(parsed, vec![print(0, 24, difference)]);
}

#[test]
fn brackets_override_precedence() {
    let parsed = statements("print (1 + 2) * 3;").unwrap();
    let sum = op(7, 12, number(7, 8, "1"), Op::Add, number(11, 12, "2"));
    let product = op(6, 17, sum, Op::Multiply, number(16, 17, "3"));
    assert_eq!(parsed, vec![print(0, 18, product)]);
}

#[test]
fn parses_a_definition_and_a_call() {
    let text = "fn add(a, b) = a + b; print add(1.5, x);";
    let parsed = statements(text).unwrap();
    // handles in the order of the first appearance: add, a, b, x
    let body = op(15, 20, variable(15, 16, 1), Op::Add, variable(19, 20, 2));
    let definition = Statement {
        span: span(0, 21),
        data: StatementData::Function {
            name: FunctionId { index: 0 },
            data: FunctionData {
                name_span: span(3, 6),
                args: vec![VariableId { index: 1 }, VariableId { index: 2 }],
                body,
            },
        },
    };
    let call = Expression {
        span: span(28, 39),
        data: ExpressionData::Call(
            FunctionId { index: 0 },
            vec![number(32, 35, "1.5"), variable(37, 38, 3)],
        ),
    };
    assert_eq!(parsed, vec![definition, print(22, 40, call)]);
}

#[test]
fn parses_empty_lists() {
    let parsed = statements("fn g() = f();").unwrap();
    let call = Expression {
        span: span(9, 12),
        data: ExpressionData::Call(FunctionId { index: 1 }, vec![]),
    };
    let definition = Statement {
        span: span(0, 13),
        data: StatementData::Function {
            name: FunctionId { index: 0 },
            data: FunctionData { name_span: span(3, 4), args: vec![], body: call },
        },
    };
    assert_eq!(parsed, vec![definition]);
}

#[test]
fn empty_text_is_an_empty_program() {
    assert_eq!(statements("").unwrap(), vec![]);
    assert_eq!(statements(" \n\t ").unwrap(), vec![]);
}

#[test]
fn the_error_is_at_the_first_token_that_cannot_follow() {
    assert_eq!(statements("print 1 + + 2"), Err(ParseError { start: 10, end: 11 }));
    assert_eq!(statements("print 1 + 2; print ;"), Err(ParseError { start: 19, end: 20 }));
    assert_eq!(statements("fn (x) = x;"), Err(ParseError { start: 3, end: 4 }));
    assert_eq!(statements("fn f(x, ) = x;"), Err(ParseError { start: 8, end: 9 }));
    assert_eq!(statements("fn f(x) x;"), Err(ParseError { start: 8, end: 9 }));
    assert_eq!(statements("print f(1,);"), Err(ParseError { start: 10, end: 11 }));
    assert_eq!(statements("print (1 + 2;"), Err(ParseError { start: 12, end: 13 }));
    assert_eq!(statements("1 + 2;"), Err(ParseError { start: 0, end: 1 }));
    assert_eq!(statements("print 1 $ 2;"), Err(ParseError { start: 8, end: 9 }));
    assert_eq!(statements("print total value;"), Err(ParseError { start: 12, end: 13 }));
}

#[test]
fn an_earlier_syntax_error_wins_over_a_later_bad_byte() {
    assert_eq!(statements("print + ; $"), Err(ParseError { start: 6, end: 7 }));
}

#[test]
fn the_error_at_the_end_of_the_text_is_empty() {
    assert_eq!(statements("print 1"), Err(ParseError { start: 7, end: 7 }));
    assert_eq!(statements("print 1 +  "), Err(ParseError { start: 11, end: 11 }));
    assert_eq!(statements("fn f("), Err(ParseError { start: 5, end: 5 }));
}
