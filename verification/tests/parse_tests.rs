use scheme_interp::parse::{Expr, ParseResult, Parser};
use scheme_interp::scan::ReadError;

fn sym(s: &str) -> Expr {
    Expr::Symbol(s.to_string())
}

fn num(s: &str) -> Expr {
    Expr::Numeric(s.to_string())
}

fn parse_one(text: &str) -> ParseResult {
    Parser::new(text.to_string()).read_expr()
}

fn parse_err(text: &str) -> ReadError {
    match Parser::new(text.to_string()).try_read_expr() {
        Err(e) => e,
        Ok(r) => panic!("expected an error, read {:?}", r),
    }
}

fn expr(r: ParseResult) -> Expr {
    match r {
        ParseResult::Expression(e) => e,
        other => panic!("expected an expression, got {:?}", other),
    }
}

#[test]
fn parse_proper_list() {
    assert_eq!(expr(parse_one("(a b c)")), Expr::List(vec![sym("a"), sym("b"), sym("c")]));
    assert_eq!(
        expr(parse_one("(f (g 1) 2)")),
        Expr::List(vec![sym("f"), Expr::List(vec![sym("g"), num("1")]), num("2")])
    );
}

#[test]
fn parse_improper_list_keeps_last_element() {
    assert_eq!(expr(parse_one("(a . b)")), Expr::ImproperList(vec![sym("a"), sym("b")]));
    assert_eq!(expr(parse_one("(a b . c)")), Expr::ImproperList(vec![sym("a"), sym("b"), sym("c")]));
    assert_eq!(expr(parse_one("(a . b\n)")), Expr::ImproperList(vec![sym("a"), sym("b")]));
}

#[test]
fn parse_empty_lists() {
    assert_eq!(expr(parse_one("()")), Expr::Null);
    assert_eq!(expr(parse_one("( )")), Expr::Null);
    assert_eq!(expr(parse_one("( ; nothing\n )")), Expr::Null);
}

#[test]
fn parse_quote_as_list() {
    assert_eq!(expr(parse_one("'x")), Expr::List(vec![sym("quote"), sym("x")]));
    assert_eq!(
        expr(parse_one("'(1 2)")),
        Expr::List(vec![sym("quote"), Expr::List(vec![num("1"), num("2")])])
    );
}

#[test]
fn parse_skips_whitespace_and_comments() {
    assert_eq!(expr(parse_one("\n\n   x")), sym("x"));
    assert_eq!(expr(parse_one(";; hello\n;; again\n7")), num("7"));
}

#[test]
fn parse_numbers_and_symbols() {
    assert_eq!(expr(parse_one("-12")), num("-12"));
    assert_eq!(expr(parse_one(".25")), num(".25"));
    assert_eq!(expr(parse_one("-x")), sym("-x"));
    assert_eq!(expr(parse_one("-")), sym("-"));
    assert_eq!(expr(parse_one("lambda")), sym("lambda"));
    assert_eq!(expr(parse_one("\u{3bb}x")), sym("TODO_ELSE!"));
    assert_eq!(expr(parse_one("x\u{3bb}")), sym("x\u{3bb}"));
}

#[test]
fn parse_tokens() {
    assert!(matches!(parse_one(")"), ParseResult::CloseParen));
    assert!(matches!(parse_one(".a"), ParseResult::Dot));
    assert!(matches!(parse_one(" "), ParseResult::EOF));
}

#[test]
fn parse_consumes_one_expression_at_a_time() {
    let mut p = Parser::new("(define x 5) x".to_string());
    assert_eq!(expr(p.read_expr()), Expr::List(vec![sym("define"), sym("x"), num("5")]));
    assert_eq!(expr(p.read_expr()), sym("x"));
    assert!(matches!(p.read_expr(), ParseResult::EOF));
}

#[test]
fn parse_errors() {
    assert_eq!(parse_err("'"), ReadError::QuotedEof);
    assert_eq!(parse_err("')"), ReadError::QuotedCloseParen);
    assert_eq!(parse_err("'. "), ReadError::QuotedDot);
    assert_eq!(parse_err("(a . .)"), ReadError::DotAfterDot);
    assert_eq!(parse_err("(a . )"), ReadError::CloseParenAfterDot);
    assert_eq!(parse_err("(a . "), ReadError::EofAfterDot);
    assert_eq!(parse_err("(a . b c)"), ReadError::ExpectedCloseParen);
    assert_eq!(parse_err("(a . b"), ReadError::ExpectedCloseParen);
    assert_eq!(parse_err("(a b"), ReadError::EofInList);
    assert_eq!(parse_err("2..5"), ReadError::BadNumber);
    assert_eq!(parse_err("."), ReadError::DotAtEof);
}

#[test]
fn parse_list_with_blank_before_close_is_null() {
    let mut p = Parser::new(" )".to_string());
    assert_eq!(p.read_list(), Ok(Expr::Null));
    assert_eq!(p.peek(), None);
    assert_eq!(Parser::new(")".to_string()).read_list(), Ok(Expr::Null));
}

#[test]
fn parse_list_after_dot_allows_blank_before_close() {
    let mut p = Parser::new("a . b )".to_string());
    assert_eq!(p.read_list(), Ok(Expr::ImproperList(vec![sym("a"), sym("b")])));
    assert_eq!(p.peek(), None);
}

#[test]
fn parse_quote_after_quote_char() {
    let mut p = Parser::new("a".to_string());
    assert_eq!(p.read_quote(), Ok(Expr::List(vec![sym("quote"), sym("a")])));
    assert_eq!(Parser::new("".to_string()).read_quote(), Err(ReadError::QuotedEof));
}

#[test]
fn parse_peek_then_take() {
    let mut p = Parser::new("(a".to_string());
    assert_eq!(p.peek(), Some('('));
    assert_eq!(p.take(), Some('('));
    assert_eq!(p.peek(), Some('a'));
    assert_eq!(p.take(), Some('a'));
    assert_eq!(p.take(), None);
}

#[test]
fn parse_doubled_blank_leaves_the_same_reads() {
    let mut p = Parser::new("x  ( y  .  z )  '  w".to_string());
    let mut q = Parser::new("x ( y . z ) ' w".to_string());
    for _ in 0..4 {
        assert_eq!(format!("{:?}", p.read_expr()), format!("{:?}", q.read_expr()));
    }
}

#[test]
fn parse_blank_inserted_reads_the_same() {
    let pairs = [
        ("(a)", "( a )"),
        ("()", "( )"),
        ("'a", "' a"),
        ("(a . b)", "( a . b )"),
        ("(1 2)", "(1 2 )"),
    ];
    for (u, t) in pairs.iter() {
        assert_eq!(expr(parse_one(u)), expr(parse_one(t)));
    }
}
