use scheme_interp::eval::ScmObj;
use scheme_interp::read::{Parser, ReadResult};
use scheme_interp::scan::ReadError;

fn sym(s: &str) -> ScmObj {
    ScmObj::Symbol(s.to_string())
}

fn num(s: &str) -> ScmObj {
    ScmObj::Numeric(s.to_string())
}

fn cons(a: ScmObj, b: ScmObj) -> ScmObj {
    ScmObj::Cons(Box::new(a), Box::new(b))
}

fn read_one(text: &str) -> ReadResult {
    Parser::new(text.to_string()).read_expr()
}

fn read_err(text: &str) -> ReadError {
    match Parser::new(text.to_string()).try_read_expr() {
        Err(e) => e,
        Ok(r) => panic!("expected an error, read {:?}", r),
    }
}

fn expr(r: ReadResult) -> ScmObj {
    match r {
        ReadResult::Expression(e) => e,
        other => panic!("expected an expression, got {:?}", other),
    }
}

#[test]
fn read_proper_list_as_cons_chain() {
    let e = expr(read_one("(a b)"));
    assert_eq!(e, cons(sym("a"), cons(sym("b"), ScmObj::Null)));
}

#[test]
fn read_nested_list() {
    let e = expr(read_one("(+ 1 (f x))"));
    assert_eq!(
        e,
        cons(sym("+"), cons(num("1"), cons(cons(sym("f"), cons(sym("x"), ScmObj::Null)), ScmObj::Null)))
    );
}

#[test]
fn read_improper_list() {
    let e = expr(read_one("(a . b)"));
    assert_eq!(e, cons(sym("a"), sym("b")));
    let e = expr(read_one("(a b . c)"));
    assert_eq!(e, cons(sym("a"), cons(sym("b"), sym("c"))));
    let e = expr(read_one("(a . b )"));
    assert_eq!(e, cons(sym("a"), sym("b")));
    let e = expr(read_one("(a . b ; comment\n )"));
    assert_eq!(e, cons(sym("a"), sym("b")));
}

#[test]
fn read_empty_list_is_null() {
    assert_eq!(expr(read_one("()")), ScmObj::Null);
    assert_eq!(expr(read_one("( )")), ScmObj::Null);
}

#[test]
fn read_quote_as_list() {
    assert_eq!(expr(read_one("'x")), cons(sym("quote"), cons(sym("x"), ScmObj::Null)));
    assert_eq!(
        expr(read_one("'(a)")),
        cons(sym("quote"), cons(cons(sym("a"), ScmObj::Null), ScmObj::Null))
    );
}

#[test]
fn read_skips_whitespace_and_comments() {
    assert_eq!(expr(read_one(" \t\r\n foo")), sym("foo"));
    assert_eq!(expr(read_one("; a comment\nfoo")), sym("foo"));
    assert_eq!(expr(read_one("(a ; inner comment\n b)")), cons(sym("a"), cons(sym("b"), ScmObj::Null)));
}

#[test]
fn read_numbers() {
    assert_eq!(expr(read_one("42")), num("42"));
    assert_eq!(expr(read_one("-5")), num("-5"));
    assert_eq!(expr(read_one(".5")), num(".5"));
    assert_eq!(expr(read_one("-.5")), num("-.5"));
    assert_eq!(expr(read_one("3.25")), num("3.25"));
    assert_eq!(expr(read_one("7.")), num("7."));
    let value: f64 = match expr(read_one("-2.5")) {
        ScmObj::Numeric(t) => t.parse().unwrap(),
        _ => panic!("not a number"),
    };
    assert_eq!(value, -2.5);
}

#[test]
fn read_minus_and_symbols() {
    assert_eq!(expr(read_one("-")), sym("-"));
    assert_eq!(expr(read_one("- 1")), sym("-"));
    assert_eq!(expr(read_one("-abc")), sym("-abc"));
    assert_eq!(expr(read_one("foo42")), sym("foo42"));
    assert_eq!(expr(read_one("caf\u{e9}")), sym("caf\u{e9}"));
    assert_eq!(expr(read_one("<=")), sym("<"));
    assert_eq!(expr(read_one("\"")), sym("TODO_ELSE"));
}

#[test]
fn read_tokens() {
    assert!(matches!(read_one(")"), ReadResult::CloseParen));
    assert!(matches!(read_one(". x"), ReadResult::Dot));
    assert!(matches!(read_one(""), ReadResult::EOF));
    assert!(matches!(read_one("   ; only a comment"), ReadResult::EOF));
}

#[test]
fn read_consumes_one_expression_at_a_time() {
    let mut p = Parser::new("12abc (x) y".to_string());
    assert_eq!(expr(p.read_expr()), num("12"));
    assert_eq!(expr(p.read_expr()), sym("abc"));
    assert_eq!(expr(p.read_expr()), cons(sym("x"), ScmObj::Null));
    assert_eq!(expr(p.read_expr()), sym("y"));
    assert!(matches!(p.read_expr(), ReadResult::EOF));
    assert!(matches!(p.read_expr(), ReadResult::EOF));
}

#[test]
fn read_errors() {
    assert_eq!(read_err("'"), ReadError::QuotedEof);
    assert_eq!(read_err("')"), ReadError::QuotedCloseParen);
    assert_eq!(read_err("'. a"), ReadError::QuotedDot);
    assert_eq!(read_err("(a . .)"), ReadError::DotAfterDot);
    assert_eq!(read_err("(a . ))"), ReadError::CloseParenAfterDot);
    assert_eq!(read_err("(a . )"), ReadError::ExpectedCloseParen);
    assert_eq!(read_err("(a . b c)"), ReadError::ExpectedCloseParen);
    assert_eq!(read_err("(a . b"), ReadError::ExpectedCloseParen);
    assert_eq!(read_err("(a"), ReadError::EofInList);
    assert_eq!(read_err("1.2.3"), ReadError::BadNumber);
    assert_eq!(read_err("1-2"), ReadError::BadNumber);
    assert_eq!(read_err("."), ReadError::DotAtEof);
    assert_eq!(read_err("(a ."), ReadError::DotAtEof);
}

#[test]
fn read_doubled_blank_reads_the_same() {
    let texts = ["(a  b)", "( a . b )", "'  x", "-  1"];
    let singles = ["(a b)", "( a . b)", "' x", "- 1"];
    for (t, u) in texts.iter().zip(singles.iter()) {
        assert_eq!(expr(read_one(t)), expr(read_one(u)));
    }
}

#[test]
fn read_list_after_dot_allows_blank_before_close() {
    let mut p = Parser::new("a . b )".to_string());
    assert_eq!(p.read_list(), Ok(cons(sym("a"), sym("b"))));
    assert_eq!(p.peek(), None);
    let mut q = Parser::new("a . b ; last\n ) c".to_string());
    assert_eq!(q.read_list(), Ok(cons(sym("a"), sym("b"))));
    assert_eq!(expr(q.read_expr()), sym("c"));
}

#[test]
fn read_list_ends_at_close_paren() {
    let mut p = Parser::new("a b) c".to_string());
    assert_eq!(p.read_list(), Ok(cons(sym("a"), cons(sym("b"), ScmObj::Null))));
    assert_eq!(p.peek(), Some(' '));
    let mut q = Parser::new(" )".to_string());
    assert_eq!(q.read_list(), Ok(ScmObj::Null));
    assert_eq!(q.peek(), None);
}

#[test]
fn read_quote_after_quote_char() {
    let mut p = Parser::new("a".to_string());
    assert_eq!(p.read_quote(), Ok(cons(sym("quote"), cons(sym("a"), ScmObj::Null))));
    assert_eq!(Parser::new(")".to_string()).read_quote(), Err(ReadError::QuotedCloseParen));
}

#[test]
fn read_peek_then_take() {
    let mut p = Parser::new("xy".to_string());
    assert_eq!(p.peek(), Some('x'));
    assert_eq!(p.peek(), Some('x'));
    assert_eq!(p.take(), Some('x'));
    assert_eq!(p.peek(), Some('y'));
    assert_eq!(p.take(), Some('y'));
    assert_eq!(p.peek(), None);
    assert_eq!(p.take(), None);
}

#[test]
fn read_doubled_blank_leaves_the_same_reads() {
    let mut p = Parser::new("a  (b  .  c)  d".to_string());
    let mut q = Parser::new("a (b . c) d".to_string());
    for _ in 0..4 {
        assert_eq!(format!("{:?}", p.read_expr()), format!("{:?}", q.read_expr()));
    }
    assert_eq!(read_err("(a .  b  c)"), read_err("(a . b c)"));
}

#[test]
fn read_blank_inserted_reads_the_same() {
    let pairs = [
        ("(a)", "( a )"),
        ("(a b)", "(a\tb )"),
        ("'a", "' a"),
        ("(a . b)", "( a . b )"),
        ("(x;c\n)", "(x ;c\n)"),
        ("-(1)", "- (1)"),
    ];
    for (u, t) in pairs.iter() {
        assert_eq!(expr(read_one(u)), expr(read_one(t)));
    }
    assert_eq!(expr(read_one("()")), expr(read_one("( )")));
    assert_eq!(read_err("(a . b c)"), read_err("( a . b c )"));
}

#[test]
fn read_blank_after_final_dot_matters() {
    assert_eq!(read_err("."), ReadError::DotAtEof);
    assert!(matches!(read_one(". "), ReadResult::Dot));
}
