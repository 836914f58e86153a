//! A reader of Scheme text into `Expr` trees: a list becomes a vector of its
//! elements, `'e` becomes the list `(quote e)`.
use vstd::prelude::*;

use crate::scan::{
    after_line, blank_doubled_at, lemma_after_line_to_end, blank_fits_at, blank_inserted_at, differ_by_blank,
    lemma_after_line_inserted, lemma_blank_ends_tokens, lemma_doubled_is_inserted,
    lemma_inserted_shape, lemma_inserted_split, lemma_number_run_stop, lemma_same_reading_refl,
    lemma_symbol_run_stop, same_reading, with_first, char_is_alphabetic, lemma_after_line_skips, is_digit, is_float_text, is_float_text_exec, is_space,
    is_suffix, is_symbol_start, lemma_after_line_len, lemma_number_run_len, lemma_skip_suffix,
    lemma_suffix_trans, lemma_symbol_run_len, number_run, number_text, quote_symbol, symbol_run,
    symbol_text, ReadError, Token,
};

verus! {

/// An expression as read from program text. A number keeps the text it was
/// written with, which `f64`'s `FromStr` accepts (see `scan::is_float_text`).
#[derive(Debug, PartialEq)]
pub enum Expr {
    /// A name, like `foo`.
    Symbol(String),
    /// A number.
    Numeric(String),
    /// A list ending in the empty list: `(a b c)`.
    List(Vec<Expr>),
    /// A list whose last element follows a `.`: `(a b . c)` holds `a`, `b`, `c`.
    ImproperList(Vec<Expr>),
    /// `()`.
    Null,
}

/// The mathematical value of an `Expr`.
pub enum Form {
    Symbol(Seq<char>),
    Numeric(Seq<char>),
    List(Seq<Form>),
    ImproperList(Seq<Form>),
    Null,
}

/// The `Form` that an expression stands for.
pub open spec fn form_of(e: Expr) -> Form
    decreases e,
{
    match e {
        Expr::Symbol(s) => Form::Symbol(s@),
        Expr::Numeric(t) => Form::Numeric(t@),
        Expr::List(v) => Form::List(
            Seq::new(
                v.len() as nat,
                |i: int|
                    if 0 <= i < v.len() {
                        form_of(v@[i])
                    } else {
                        Form::Null
                    },
            ),
        ),
        Expr::ImproperList(v) => Form::ImproperList(
            Seq::new(
                v.len() as nat,
                |i: int|
                    if 0 <= i < v.len() {
                        form_of(v@[i])
                    } else {
                        Form::Null
                    },
            ),
        ),
        Expr::Null => Form::Null,
    }
}

impl View for Expr {
    type V = Form;

    open spec fn view(&self) -> Form {
        form_of(*self)
    }
}

/// The forms of a sequence of expressions, element by element.
pub open spec fn forms(v: Seq<Expr>) -> Seq<Form> {
    Seq::new(v.len(), |i: int| v[i]@)
}

pub proof fn lemma_form_of_lists(v: Vec<Expr>)
    ensures
        form_of(Expr::List(v)) == Form::List(forms(v@)),
        form_of(Expr::ImproperList(v)) == Form::ImproperList(forms(v@)),
{
    let a = form_of(Expr::List(v));
    let b = form_of(Expr::ImproperList(v));
    if let Form::List(items) = a {
        assert(items =~= forms(v@));
    }
    if let Form::ImproperList(items) = b {
        assert(items =~= forms(v@));
    }
}

/// What one call of `Parser::read_expr` finds.
#[derive(Debug)]
pub enum ParseResult {
    Expression(Expr),
    CloseParen,
    Dot,
    EOF,
}

impl ParseResult {
    /// The token this result reports.
    pub open spec fn token(&self) -> Token<Form> {
        match self {
            ParseResult::Expression(e) => Token::Expression(e@),
            ParseResult::CloseParen => Token::CloseParen,
            ParseResult::Dot => Token::Dot,
            ParseResult::EOF => Token::Eof,
        }
    }
}

/// At the end of the text, reading finds the end of the text.
pub proof fn law_parse_end()
    ensures
        parse_expr_result(Seq::empty()) == Ok::<(Token<Form>, Seq<char>), ReadError>(
            (Token::Eof, Seq::empty()),
        ),
{
}

/// What an expression stands for: a symbol or number its text, a list (proper
/// or not) the forms of its elements in the same order, and `Null` itself.
pub proof fn law_expr_view(a: String, v: Vec<Expr>)
    ensures
        Expr::Symbol(a)@ == Form::Symbol(a@),
        Expr::Numeric(a)@ == Form::Numeric(a@),
        Expr::Null@ == Form::Null,
        Expr::List(v)@ matches Form::List(fs) && fs.len() == v.len() && forall|i: int|
            0 <= i < v.len() ==> fs[i] == (#[trigger] v@[i])@,
        Expr::ImproperList(v)@ matches Form::ImproperList(fs) && fs.len() == v.len() && forall|
            i: int,
        |
            0 <= i < v.len() ==> fs[i] == (#[trigger] v@[i])@,
{
    lemma_form_of_lists(v);
}

/// Each result of `read_expr` reports its own kind of token.
pub proof fn law_parse_result_tokens(e: Expr)
    ensures
        ParseResult::Expression(e).token() == Token::Expression(e@),
        ParseResult::CloseParen.token() == Token::<Form>::CloseParen,
        ParseResult::Dot.token() == Token::<Form>::Dot,
        ParseResult::EOF.token() == Token::<Form>::Eof,
{
}

/// The symbol read for a character that starts no expression.
pub open spec fn unknown_symbol() -> Seq<char> {
    seq!['T', 'O', 'D', 'O', '_', 'E', 'L', 'S', 'E', '!']
}

/// `'e` is read as the list `(quote e)`.
pub open spec fn quoted(e: Form) -> Form {
    Form::List(seq![Form::Symbol(quote_symbol()), e])
}

/// A number whose first character `first` was taken; `s` is the text after it.
pub open spec fn number_result(first: char, s: Seq<char>) -> Result<
    (Token<Form>, Seq<char>),
    ReadError,
> {
    if is_float_text(number_text(first, s)) {
        Ok((Token::Expression(Form::Numeric(number_text(first, s))), s.skip(number_run(s) as int)))
    } else {
        Err(ReadError::BadNumber)
    }
}

/// A symbol whose first character `first` was taken; `s` is the text after it.
pub open spec fn symbol_result(first: char, s: Seq<char>) -> Result<
    (Token<Form>, Seq<char>),
    ReadError,
> {
    Ok((Token::Expression(Form::Symbol(symbol_text(seq![first], s))), s.skip(symbol_run(s) as int)))
}

/// What `read_expr` finds at the start of `s`, and the text it leaves;
/// `Err` where reading stops on malformed text.
pub open spec fn parse_expr_result(s: Seq<char>) -> Result<(Token<Form>, Seq<char>), ReadError>
    decreases s.len(), 0nat,
{
    if s.len() == 0 {
        Ok((Token::Eof, s))
    } else {
        let c = s[0];
        let r = s.drop_first();
        if is_space(c) {
            parse_expr_result(r)
        } else if c == ';' {
            proof {
                lemma_after_line_len(r);
            }
            parse_expr_result(after_line(r))
        } else if c == '(' {
            match parse_list_result(r) {
                Ok((f, rest)) => Ok((Token::Expression(f), rest)),
                Err(e) => Err(e),
            }
        } else if c == ')' {
            Ok((Token::CloseParen, r))
        } else if is_digit(c) {
            number_result(c, r)
        } else if c == '-' {
            if r.len() > 0 {
                if is_digit(r[0]) || r[0] == '.' {
                    number_result(c, r)
                } else {
                    symbol_result(c, r)
                }
            } else {
                Ok((Token::Expression(Form::Symbol(seq!['-'])), r))
            }
        } else if c == '.' {
            if r.len() > 0 {
                if is_digit(r[0]) {
                    number_result(c, r)
                } else {
                    Ok((Token::Dot, r))
                }
            } else {
                Err(ReadError::DotAtEof)
            }
        } else if c == '\'' {
            match parse_quote_result(r) {
                Ok((f, rest)) => Ok((Token::Expression(f), rest)),
                Err(e) => Err(e),
            }
        } else if is_symbol_start(c) {
            symbol_result(c, r)
        } else {
            Ok((Token::Expression(Form::Symbol(unknown_symbol())), r))
        }
    }
}

/// The expression after a `'`, wrapped as `(quote e)`.
pub open spec fn parse_quote_result(s: Seq<char>) -> Result<(Form, Seq<char>), ReadError>
    decreases s.len(), 1nat,
{
    match parse_expr_result(s) {
        Ok((Token::Expression(e), rest)) => Ok((quoted(e), rest)),
        Ok((Token::Dot, _)) => Err(ReadError::QuotedDot),
        Ok((Token::CloseParen, _)) => Err(ReadError::QuotedCloseParen),
        Ok((Token::Eof, _)) => Err(ReadError::QuotedEof),
        Err(e) => Err(e),
    }
}

/// The elements of a list up to its `)`, whether the last of them followed
/// a `.`, and the text after the `)`.
pub open spec fn parse_items_result(s: Seq<char>) -> Result<(Seq<Form>, bool, Seq<char>), ReadError>
    decreases s.len(), 1nat,
{
    match parse_expr_result(s) {
        Err(e) => Err(e),
        Ok((Token::Expression(e), rest)) => {
            if rest.len() < s.len() {
                match parse_items_result(rest) {
                    Ok((items, improper, rest2)) => Ok((seq![e] + items, improper, rest2)),
                    Err(x) => Err(x),
                }
            } else {
                Err(ReadError::EofInList)
            }
        },
        Ok((Token::Dot, rest)) => {
            if rest.len() < s.len() {
                match parse_expr_result(rest) {
                    Err(x) => Err(x),
                    Ok((Token::Expression(last), rest2)) => {
                        if rest2.len() < s.len() {
                            match parse_expr_result(rest2) {
                                Err(x) => Err(x),
                                Ok((Token::CloseParen, rest3)) => Ok((seq![last], true, rest3)),
                                Ok(_) => Err(ReadError::ExpectedCloseParen),
                            }
                        } else {
                            Err(ReadError::EofInList)
                        }
                    },
                    Ok((Token::Dot, _)) => Err(ReadError::DotAfterDot),
                    Ok((Token::CloseParen, _)) => Err(ReadError::CloseParenAfterDot),
                    Ok((Token::Eof, _)) => Err(ReadError::EofAfterDot),
                }
            } else {
                Err(ReadError::EofInList)
            }
        },
        Ok((Token::CloseParen, rest)) => Ok((Seq::empty(), false, rest)),
        Ok((Token::Eof, _)) => Err(ReadError::EofInList),
    }
}

/// The rest of a list whose `(` was taken; a list without elements, such as
/// `()` or `( )`, is read as `Null`.
pub open spec fn parse_list_result(s: Seq<char>) -> Result<(Form, Seq<char>), ReadError>
    decreases s.len(), 2nat,
{
    if s.len() > 0 && s[0] == ')' {
        Ok((Form::Null, s.drop_first()))
    } else {
        match parse_items_result(s) {
            Ok((items, improper, rest)) => Ok(
                (
                    if improper {
                        Form::ImproperList(items)
                    } else if items.len() == 0 {
                        Form::Null
                    } else {
                        Form::List(items)
                    },
                    rest,
                ),
            ),
            Err(e) => Err(e),
        }
    }
}

/// Every successful read leaves a suffix of its input, and a read that finds
/// anything but the end of the text consumes at least one character.
#[verifier::spinoff_prover]
#[verifier::rlimit(40)]
pub proof fn lemma_parse_consumes(s: Seq<char>)
    ensures
        parse_expr_result(s) matches Ok((t, r)) ==> is_suffix(s, r) && (!(t is Eof)
            ==> r.len() < s.len()),
        parse_items_result(s) matches Ok((items, imp, r)) ==> is_suffix(s, r) && r.len()
            < s.len(),
        parse_list_result(s) matches Ok((f, r)) ==> is_suffix(s, r) && r.len() < s.len(),
        parse_quote_result(s) matches Ok((f, r)) ==> is_suffix(s, r) && r.len() < s.len(),
    decreases s.len(),
{
    assert(s.skip(0) =~= s);
    if s.len() > 0 {
        let c = s[0];
        let r = s.drop_first();
        lemma_skip_suffix(s, 1);
        lemma_parse_consumes(r);
        lemma_symbol_run_len(r);
        lemma_number_run_len(r);
        lemma_skip_suffix(r, symbol_run(r) as int);
        lemma_skip_suffix(r, number_run(r) as int);
        if let Ok((t, rest)) = parse_expr_result(r) {
            lemma_suffix_trans(s, r, rest);
        }
        if let Ok((t, rest)) = parse_list_result(r) {
            lemma_suffix_trans(s, r, rest);
        }
        if let Ok((t, rest)) = parse_quote_result(r) {
            lemma_suffix_trans(s, r, rest);
        }
        if let Ok((t, rest)) = number_result(c, r) {
            lemma_suffix_trans(s, r, rest);
        }
        if let Ok((t, rest)) = symbol_result(c, r) {
            lemma_suffix_trans(s, r, rest);
        }
        if c == ';' {
            lemma_after_line_len(r);
            lemma_parse_consumes(after_line(r));
            lemma_suffix_trans(s, r, after_line(r));
            if let Ok((t, rest)) = parse_expr_result(after_line(r)) {
                lemma_suffix_trans(s, after_line(r), rest);
            }
        }
    }
    assert(parse_expr_result(s) matches Ok((t, r)) ==> is_suffix(s, r) && (!(t is Eof)
        ==> r.len() < s.len()));
    if let Ok((t, rest)) = parse_expr_result(s) {
        if rest.len() < s.len() {
            lemma_parse_consumes(rest);
            if let Ok((d, i, rest2)) = parse_items_result(rest) {
                lemma_suffix_trans(s, rest, rest2);
            }
            if let Ok((d, rest2)) = parse_expr_result(rest) {
                lemma_suffix_trans(s, rest, rest2);
                if rest2.len() < s.len() {
                    lemma_parse_consumes(rest2);
                    if let Ok((t3, rest3)) = parse_expr_result(rest2) {
                        lemma_suffix_trans(s, rest2, rest3);
                    }
                }
            }
        }
    }
    assert(parse_items_result(s) matches Ok((items, imp, r)) ==> is_suffix(s, r) && r.len()
        < s.len());
}

/// Whitespace before an expression does not change what is read.
pub proof fn law_parse_skips_whitespace(ws: Seq<char>, s: Seq<char>)
    requires
        forall|i: int| 0 <= i < ws.len() ==> is_space(#[trigger] ws[i]),
    ensures
        parse_expr_result(ws + s) == parse_expr_result(s),
    decreases ws.len(),
{
    if ws.len() > 0 {
        assert((ws + s).drop_first() =~= ws.drop_first() + s);
        assert(is_space(ws[0]));
        law_parse_skips_whitespace(ws.drop_first(), s);
    } else {
        assert(ws + s =~= s);
    }
}

/// A comment, from `;` to the end of its line, does not change what is read.
pub proof fn law_parse_skips_comment(line: Seq<char>, s: Seq<char>)
    requires
        forall|i: int| 0 <= i < line.len() ==> line[i] != '\n',
    ensures
        parse_expr_result(seq![';'] + line + seq!['\n'] + s) == parse_expr_result(s),
        parse_expr_result(seq![';'] + line) == Ok::<(Token<Form>, Seq<char>), ReadError>(
            (Token::Eof, Seq::empty()),
        ),
{
    let t = seq![';'] + line + seq!['\n'] + s;
    assert(t.drop_first() =~= line + seq!['\n'] + s);
    lemma_after_line_skips(line, s);
    lemma_first_char(';', line);
    lemma_after_line_to_end(line);
    assert(parse_expr_result(seq![';'] + line) == parse_expr_result(after_line(line)));
    assert(after_line(line) =~= Seq::<char>::empty());
}

/// `'e` is read as the list `(quote e)`, and a quote must be followed by an expression.
pub proof fn law_parse_quote(s: Seq<char>)
    ensures
        parse_expr_result(seq!['\''] + s) == match parse_expr_result(s) {
            Ok((Token::Expression(e), rest)) => Ok(
                (
                    Token::Expression(
                        Form::List(seq![Form::Symbol(seq!['q', 'u', 'o', 't', 'e']), e]),
                    ),
                    rest,
                ),
            ),
            Ok((Token::Dot, _)) => Err(ReadError::QuotedDot),
            Ok((Token::CloseParen, _)) => Err(ReadError::QuotedCloseParen),
            Ok((Token::Eof, _)) => Err(ReadError::QuotedEof),
            Err(e) => Err(e),
        },
{
    let t = seq!['\''] + s;
    assert(t[0] == '\'');
    assert(t.drop_first() =~= s);
    assert(parse_expr_result(t) == match parse_quote_result(s) {
        Ok((f, rest)) => Ok((Token::Expression(f), rest)),
        Err(e) => Err(e),
    });
}

/// `()` is read as `Null`.
pub proof fn law_parse_empty_list(s: Seq<char>)
    ensures
        parse_expr_result(seq!['(', ')'] + s) == Ok::<(Token<Form>, Seq<char>), ReadError>(
            (Token::Expression(Form::Null), s),
        ),
{
    let t = seq!['(', ')'] + s;
    let u = seq![')'] + s;
    assert(t[0] == '(');
    assert(t.drop_first() =~= u);
    assert(u[0] == ')');
    assert(u.drop_first() =~= s);
    assert(parse_list_result(u) == Ok::<(Form, Seq<char>), ReadError>((Form::Null, s)));
}

proof fn lemma_first_char(c: char, s: Seq<char>)
    ensures
        (seq![c] + s).len() == s.len() + 1,
        (seq![c] + s)[0] == c,
        (seq![c] + s).drop_first() == s,
{
    assert((seq![c] + s).drop_first() =~= s);
}

/// A `)` is read as the end of a list, and reading goes on right after it.
pub proof fn law_parse_close_paren(s: Seq<char>)
    ensures
        parse_expr_result(seq![')'] + s) == Ok::<(Token<Form>, Seq<char>), ReadError>((Token::CloseParen, s)),
{
    lemma_first_char(')', s);
}

/// A `(` starts a list, which is read up to its `)`.
pub proof fn law_parse_open_paren(s: Seq<char>)
    ensures
        parse_expr_result(seq!['('] + s) == match parse_list_result(s) {
            Ok((d, rest)) => Ok::<(Token<Form>, Seq<char>), ReadError>((Token::Expression(d), rest)),
            Err(e) => Err(e),
        },
{
    lemma_first_char('(', s);
}

/// A digit starts a number, which takes in the number characters after it;
/// its text must be one that `f64` accepts.
pub proof fn law_parse_digit(c: char, s: Seq<char>)
    requires
        '0' <= c && c <= '9',
    ensures
        parse_expr_result(seq![c] + s) == (if is_float_text(seq![c] + s.take(number_run(s) as int)) {
            Ok::<(Token<Form>, Seq<char>), ReadError>(
                (
                    Token::Expression(Form::Numeric(seq![c] + s.take(number_run(s) as int))),
                    s.skip(number_run(s) as int),
                ),
            )
        } else {
            Err::<(Token<Form>, Seq<char>), ReadError>(ReadError::BadNumber)
        }),
{
    lemma_first_char(c, s);
}

/// A `-` starts a number when a digit or `.` follows it; otherwise it starts
/// a symbol, which is `-` alone at the end of the text.
pub proof fn law_parse_minus(s: Seq<char>)
    ensures
        s.len() == 0 ==> parse_expr_result(seq!['-'] + s) == Ok::<(Token<Form>, Seq<char>), ReadError>(
            (Token::Expression(Form::Symbol(seq!['-'])), s),
        ),
        s.len() > 0 && (('0' <= s[0] && s[0] <= '9') || s[0] == '.') ==> parse_expr_result(seq!['-'] + s)
            == (if is_float_text(seq!['-'] + s.take(number_run(s) as int)) {
            Ok::<(Token<Form>, Seq<char>), ReadError>(
                (
                    Token::Expression(Form::Numeric(seq!['-'] + s.take(number_run(s) as int))),
                    s.skip(number_run(s) as int),
                ),
            )
        } else {
            Err::<(Token<Form>, Seq<char>), ReadError>(ReadError::BadNumber)
        }),
        s.len() > 0 && !(('0' <= s[0] && s[0] <= '9') || s[0] == '.') ==> parse_expr_result(seq!['-'] + s)
            == Ok::<(Token<Form>, Seq<char>), ReadError>(
            (
                Token::Expression(Form::Symbol(seq!['-'] + s.take(symbol_run(s) as int))),
                s.skip(symbol_run(s) as int),
            ),
        ),
{
    lemma_first_char('-', s);
}

/// A `.` starts a number when a digit follows it (`.5`); otherwise it is the
/// dot of an improper list, and at the end of the text reading stops.
pub proof fn law_parse_dot(s: Seq<char>)
    ensures
        s.len() == 0 ==> parse_expr_result(seq!['.'] + s) == Err::<(Token<Form>, Seq<char>), ReadError>(ReadError::DotAtEof),
        s.len() > 0 && '0' <= s[0] && s[0] <= '9' ==> parse_expr_result(seq!['.'] + s) == (if is_float_text(seq!['.'] + s.take(number_run(s) as int)) {
            Ok::<(Token<Form>, Seq<char>), ReadError>(
                (
                    Token::Expression(Form::Numeric(seq!['.'] + s.take(number_run(s) as int))),
                    s.skip(number_run(s) as int),
                ),
            )
        } else {
            Err::<(Token<Form>, Seq<char>), ReadError>(ReadError::BadNumber)
        }),
        s.len() > 0 && !('0' <= s[0] && s[0] <= '9') ==> parse_expr_result(seq!['.'] + s) == Ok::<(Token<Form>, Seq<char>), ReadError>(
            (Token::Dot, s),
        ),
{
    lemma_first_char('.', s);
}

/// Every character that starts a symbol (`<` to `Z`, which takes in `=`,
/// `>`, `?`, `@` and the capitals; the small letters; and
/// `~ ! # $ % ^ & * _ + : /`) is read as a symbol made of it and the symbol
/// characters that follow it.
pub proof fn law_parse_symbol_start(c: char, s: Seq<char>)
    requires
        ('<' <= c && c <= 'Z') || ('a' <= c && c <= 'z') || c == '~' || c == '!' || c == '#'
            || c == '$' || c == '%' || c == '^' || c == '&' || c == '*' || c == '_' || c == '+'
            || c == ':' || c == '/',
    ensures
        parse_expr_result(seq![c] + s) == Ok::<(Token<Form>, Seq<char>), ReadError>(
            (
                Token::Expression(Form::Symbol(seq![c] + s.take(symbol_run(s) as int))),
                s.skip(symbol_run(s) as int),
            ),
        ),
{
    lemma_first_char(c, s);
}

/// A character that starts nothing (no blank, comment, parenthesis, number,
/// dot, quote or symbol) is read as the placeholder symbol, on its own.
pub proof fn law_parse_other_char(c: char, s: Seq<char>)
    requires
        !(c == ' ' || c == '\n' || c == '\t' || c == '\r'),
        c != ';' && c != '(' && c != ')' && c != '-' && c != '.' && c != '\'',
        !('0' <= c && c <= '9'),
        !(('<' <= c && c <= 'Z') || ('a' <= c && c <= 'z') || c == '~' || c == '!' || c == '#'
            || c == '$' || c == '%' || c == '^' || c == '&' || c == '*' || c == '_' || c == '+'
            || c == ':' || c == '/'),
    ensures
        parse_expr_result(seq![c] + s) == Ok::<(Token<Form>, Seq<char>), ReadError>(
            (Token::Expression(Form::Symbol(seq!['T', 'O', 'D', 'O', '_', 'E', 'L', 'S', 'E', '!'])), s),
        ),
{
    lemma_first_char(c, s);
}

/// A list ends at its `)` token, wherever blanks and comments put it: a list
/// that goes on with a `)` has no more elements, and one without any
/// elements, such as `( )`, is `Null`.
pub proof fn law_parse_list_close(s: Seq<char>)
    requires
        parse_expr_result(s) matches Ok((Token::CloseParen, _)),
    ensures
        parse_expr_result(s) matches Ok((Token::CloseParen, rest)) && parse_items_result(s)
            == Ok::<(Seq<Form>, bool, Seq<char>), ReadError>((Seq::empty(), false, rest))
            && parse_list_result(s) == Ok::<(Form, Seq<char>), ReadError>((Form::Null, rest)),
{
}

/// The elements of a list are read in order: after its first element `e`,
/// the others are read as if the list began there.
pub proof fn law_parse_items_cons(s: Seq<char>)
    requires
        parse_expr_result(s) matches Ok((Token::Expression(_), _)),
    ensures
        parse_expr_result(s) matches Ok((Token::Expression(e), rest)) && parse_items_result(s)
            == match parse_items_result(rest) {
            Ok((items, improper, rest2)) => Ok((seq![e] + items, improper, rest2)),
            Err(x) => Err(x),
        },
{
    lemma_parse_consumes(s);
}

/// After a `.`, a list holds one more element and then its `)` token: that
/// element is the last one, and reading goes on after the `)`.
pub proof fn law_parse_items_dotted(s: Seq<char>)
    requires
        parse_expr_result(s) matches Ok((Token::Dot, rest)) && parse_expr_result(rest) matches Ok(
            (Token::Expression(_), rest2),
        ) && parse_expr_result(rest2) matches Ok((Token::CloseParen, _)),
    ensures
        parse_expr_result(s) matches Ok((Token::Dot, rest)) && parse_expr_result(rest) matches Ok(
            (Token::Expression(w), rest2),
        ) && parse_expr_result(rest2) matches Ok((Token::CloseParen, rest3))
            && parse_items_result(s) == Ok::<(Seq<Form>, bool, Seq<char>), ReadError>(
            (seq![w], true, rest3),
        ),
{
    lemma_parse_consumes(s);
    if let Ok((_, rest)) = parse_expr_result(s) {
        lemma_parse_consumes(rest);
    }
}

/// A list is read as its elements, in order: a dotted one as an improper
/// list, one without a dot as the list of exactly its elements, and one
/// without elements as `Null`.
pub proof fn law_parse_list_of_items(s: Seq<char>)
    ensures
        parse_expr_result(seq!['('] + s) == match parse_items_result(s) {
            Ok((items, improper, rest)) => Ok::<(Token<Form>, Seq<char>), ReadError>(
                (
                    Token::Expression(
                        if improper {
                            Form::ImproperList(items)
                        } else if items.len() == 0 {
                            Form::Null
                        } else {
                            Form::List(items)
                        },
                    ),
                    rest,
                ),
            ),
            Err(e) => Err(e),
        },
{
    law_parse_open_paren(s);
    if s.len() > 0 && s[0] == ')' {
        lemma_first_char(')', s.drop_first());
        assert(s =~= seq![')'] + s.drop_first());
        law_parse_close_paren(s.drop_first());
    }
}

/// A list of one element, such as `(f)`, is read as the list holding just
/// that element, not as the element itself.
pub proof fn law_parse_one_element_list(s: Seq<char>)
    requires
        parse_expr_result(s) matches Ok((Token::Expression(_), rest)) && parse_expr_result(rest) matches Ok(
            (Token::CloseParen, _),
        ),
    ensures
        parse_expr_result(s) matches Ok((Token::Expression(f), rest)) && parse_expr_result(rest) matches Ok(
            (Token::CloseParen, rest2),
        ) && parse_expr_result(seq!['('] + s) == Ok::<(Token<Form>, Seq<char>), ReadError>(
            (Token::Expression(Form::List(seq![f])), rest2),
        ),
{
    law_parse_list_of_items(s);
    law_parse_items_cons(s);
    if let Ok((Token::Expression(f), rest)) = parse_expr_result(s) {
        law_parse_list_close(rest);
        assert(seq![f] + Seq::<Form>::empty() =~= seq![f]);
    }
}

/// Reading the elements of a list stops where reading the next element
/// stops, and at the end of the text.
pub proof fn law_parse_items_stop(s: Seq<char>)
    ensures
        parse_expr_result(s) matches Err(e) ==> parse_items_result(s) == Err::<(Seq<Form>, bool, Seq<char>), ReadError>(e),
        parse_expr_result(s) matches Ok((Token::Eof, _)) ==> parse_items_result(s) == Err::<(Seq<Form>, bool, Seq<char>), ReadError>(ReadError::EofInList),
{
}

/// What stops a list after its `.`: an item after the `.` that is no
/// expression, an error in what follows, or a missing `)` token after the
/// last element.
pub proof fn law_parse_items_dot_stops(s: Seq<char>)
    requires
        parse_expr_result(s) matches Ok((Token::Dot, _)),
    ensures
        parse_expr_result(s) matches Ok((Token::Dot, rest)) && (parse_expr_result(rest) matches Err(e) ==> parse_items_result(s)
            == Err::<(Seq<Form>, bool, Seq<char>), ReadError>(e)) && (parse_expr_result(rest) matches Ok((Token::Dot, _)) ==> parse_items_result(s) == Err::<(Seq<Form>, bool, Seq<char>), ReadError>(
            ReadError::DotAfterDot,
        )) && (parse_expr_result(rest) matches Ok((Token::CloseParen, _)) ==> parse_items_result(s) == Err::<(Seq<Form>, bool, Seq<char>), ReadError>(
            ReadError::CloseParenAfterDot,
        )) && (parse_expr_result(rest) matches Ok((Token::Eof, _)) ==> parse_items_result(s) == Err::<(Seq<Form>, bool, Seq<char>), ReadError>(
            ReadError::EofAfterDot,
        )) && (parse_expr_result(rest) matches Ok((Token::Expression(_), rest2)) ==> (parse_expr_result(rest2) matches Err(
            e,
        ) ==> parse_items_result(s) == Err::<(Seq<Form>, bool, Seq<char>), ReadError>(e)) && (parse_expr_result(rest2) matches Ok((tok, _)) && !(tok is CloseParen)
            ==> parse_items_result(s) == Err::<(Seq<Form>, bool, Seq<char>), ReadError>(ReadError::ExpectedCloseParen))),
{
    lemma_parse_consumes(s);
    if let Ok((_, rest)) = parse_expr_result(s) {
        lemma_parse_consumes(rest);
    }
}

/// A number read from texts that differ by a blank put in after its first
/// character reads the same.
proof fn lemma_number_blank(first: char, r: Seq<char>, k: int, c: char)
    requires
        blank_fits_at(r, k, c),
    ensures
        same_reading(number_result(first, r), number_result(first, blank_inserted_at(r, k, c))),
{
    let r2 = blank_inserted_at(r, k, c);
    lemma_inserted_shape(r, k, c);
    lemma_blank_ends_tokens(c);
    lemma_number_run_stop(r, r2, k);
    let n = number_run(r) as int;
    lemma_inserted_split(r, k, c, n);
    assert(number_text(first, r) == number_text(first, r2));
    assert(blank_fits_at(r.skip(n), k - n, c));
    assert(differ_by_blank(r.skip(n), r2.skip(n)));
}

/// A symbol read from texts that differ by a blank put in after its first
/// character reads the same.
proof fn lemma_symbol_blank(first: char, r: Seq<char>, k: int, c: char)
    requires
        blank_fits_at(r, k, c),
    ensures
        same_reading(symbol_result(first, r), symbol_result(first, blank_inserted_at(r, k, c))),
{
    let r2 = blank_inserted_at(r, k, c);
    lemma_inserted_shape(r, k, c);
    lemma_blank_ends_tokens(c);
    lemma_symbol_run_stop(r, r2, k);
    let n = symbol_run(r) as int;
    lemma_inserted_split(r, k, c, n);
    assert(symbol_text(seq![first], r) == symbol_text(seq![first], r2));
    assert(blank_fits_at(r.skip(n), k - n, c));
    assert(differ_by_blank(r.skip(n), r2.skip(n)));
}

/// Two readings of list elements agree: the same error, or the same
/// elements, ending the same way, with what is left differing by a blank.
pub open spec fn same_items(
    a: Result<(Seq<Form>, bool, Seq<char>), ReadError>,
    b: Result<(Seq<Form>, bool, Seq<char>), ReadError>,
) -> bool {
    match a {
        Ok((x, i, r)) => match b {
            Ok((y, k, r2)) => x == y && i == k && differ_by_blank(r, r2),
            Err(_) => false,
        },
        Err(e) => b == Err::<(Seq<Form>, bool, Seq<char>), ReadError>(e),
    }
}

proof fn lemma_expr_blank(s: Seq<char>, t: Seq<char>)
    requires
        differ_by_blank(s, t),
    ensures
        same_reading(parse_expr_result(s), parse_expr_result(t)),
    decreases s.len(), 0nat,
{
    lemma_same_reading_refl(parse_expr_result(s));
    if t == s {
    } else if exists|c: char| is_space(c) && t == #[trigger] with_first(c, s) {
        assert(t.drop_first() =~= s);
    } else {
        let (j, c) = choose|j: int, c: char|
            blank_fits_at(s, j, c) && t == #[trigger] blank_inserted_at(s, j, c);
        lemma_inserted_shape(s, j, c);
        lemma_blank_ends_tokens(c);
        if j == 0 {
            assert(t.drop_first() =~= s);
        } else {
            let k = j - 1;
            let r = s.drop_first();
            let r2 = t.drop_first();
            assert(blank_fits_at(r, k, c));
            assert(differ_by_blank(r, r2));
            lemma_inserted_shape(r, k, c);
            let x = s[0];
            if is_space(x) {
                lemma_expr_blank(r, r2);
            } else if x == ';' {
                lemma_after_line_len(r);
                lemma_after_line_inserted(r, k, c);
                lemma_expr_blank(after_line(r), after_line(r2));
            } else if x == '(' {
                lemma_list_blank(r, r2);
            } else if x == '\'' {
                lemma_quote_blank(r, r2);
            } else {
                lemma_number_blank(x, r, k, c);
                lemma_symbol_blank(x, r, k, c);
            }
        }
    }
}

proof fn lemma_quote_blank(s: Seq<char>, t: Seq<char>)
    requires
        differ_by_blank(s, t),
    ensures
        same_reading(parse_quote_result(s), parse_quote_result(t)),
    decreases s.len(), 1nat,
{
    lemma_expr_blank(s, t);
}

proof fn lemma_items_blank(s: Seq<char>, t: Seq<char>)
    requires
        differ_by_blank(s, t),
    ensures
        same_items(parse_items_result(s), parse_items_result(t)),
    decreases s.len(), 1nat,
{
    lemma_parse_consumes(s);
    lemma_parse_consumes(t);
    if let Ok((_, rest)) = parse_expr_result(s) {
        lemma_parse_consumes(rest);
    }
    if let Ok((_, rest)) = parse_expr_result(t) {
        lemma_parse_consumes(rest);
    }
    if t == s {
    } else if exists|c: char| is_space(c) && t == #[trigger] with_first(c, s) {
        assert(t.drop_first() =~= s);
        assert(parse_expr_result(t) == parse_expr_result(s));
        assert(parse_items_result(t) == parse_items_result(s));
    } else {
        lemma_expr_blank(s, t);
        if let Ok((Token::Expression(e), rest)) = parse_expr_result(s) {
            if let Ok((_, rest2)) = parse_expr_result(t) {
                lemma_items_blank(rest, rest2);
            }
        }
        if let Ok((Token::Dot, rest)) = parse_expr_result(s) {
            if let Ok((_, rest2)) = parse_expr_result(t) {
                lemma_expr_blank(rest, rest2);
                if let Ok((_, q)) = parse_expr_result(rest) {
                    if let Ok((_, q2)) = parse_expr_result(rest2) {
                        lemma_parse_consumes(q);
                        lemma_parse_consumes(q2);
                        lemma_expr_blank(q, q2);
                    }
                }
            }
        }
    }
}

proof fn lemma_list_blank(s: Seq<char>, t: Seq<char>)
    requires
        differ_by_blank(s, t),
    ensures
        same_reading(parse_list_result(s), parse_list_result(t)),
    decreases s.len(), 2nat,
{
    lemma_same_reading_refl(parse_list_result(s));
    if t == s {
    } else if exists|c: char| is_space(c) && t == #[trigger] with_first(c, s) {
        assert(t.drop_first() =~= s);
        assert(parse_expr_result(t) == parse_expr_result(s));
        lemma_items_blank(s, t);
    } else {
        let (j, c) = choose|j: int, c: char|
            blank_fits_at(s, j, c) && t == #[trigger] blank_inserted_at(s, j, c);
        lemma_inserted_shape(s, j, c);
        if j > 0 && s[0] == ')' {
            let r = s.drop_first();
            let r2 = t.drop_first();
            assert(blank_fits_at(r, j - 1, c));
            assert(differ_by_blank(r, r2));
        } else {
            lemma_items_blank(s, t);
        }
    }
}

/// Blanks are only separators: on texts that differ by one blank (put in
/// where a blank fits, or in front), reading an expression or the rest of a list
/// gives the same result or the same error, and leaves texts that again
/// differ by at most that blank.
pub proof fn law_parse_respects_blanks(s: Seq<char>, t: Seq<char>)
    requires
        differ_by_blank(s, t),
    ensures
        same_reading(parse_expr_result(s), parse_expr_result(t)),
        same_reading(parse_list_result(s), parse_list_result(t)),
{
    lemma_expr_blank(s, t);
    lemma_list_blank(s, t);
}

/// A blank put in where it fits (before a character that continues no
/// symbol and no number, such as a blank, `(`, `)` or `'`) does not change
/// what is read: `( a )` reads as `(a)`, `( )` as `()`.
pub proof fn law_parse_blank_inserted(s: Seq<char>, j: int, c: char)
    requires
        blank_fits_at(s, j, c),
    ensures
        same_reading(parse_expr_result(s), parse_expr_result(blank_inserted_at(s, j, c))),
{
    lemma_expr_blank(s, blank_inserted_at(s, j, c));
}

/// Writing any blank of a text twice does not change what is read from it.
pub proof fn law_parse_doubled_blank(s: Seq<char>, j: int)
    requires
        0 <= j < s.len(),
        is_space(s[j]),
    ensures
        same_reading(parse_expr_result(s), parse_expr_result(blank_doubled_at(s, j))),
{
    lemma_doubled_is_inserted(s, j);
    lemma_expr_blank(s, blank_doubled_at(s, j));
}

/// `r` with the elements `p` put in front of the elements it found.
pub open spec fn with_prefix(
    p: Seq<Form>,
    r: Result<(Seq<Form>, bool, Seq<char>), ReadError>,
) -> Result<(Seq<Form>, bool, Seq<char>), ReadError> {
    match r {
        Ok((items, improper, rest)) => Ok((p + items, improper, rest)),
        Err(e) => Err(e),
    }
}

proof fn lemma_prefix_push(p: Seq<Form>, f: Form, r: Result<(Seq<Form>, bool, Seq<char>), ReadError>)
    ensures
        with_prefix(p, with_prefix(seq![f], r)) == with_prefix(p.push(f), r),
{
    if let Ok((items, improper, rest)) = r {
        assert(p + (seq![f] + items) =~= p.push(f) + items);
    }
}

/// A reader over a program text, which it consumes from the front.
pub struct Parser {
    text: Vec<char>,
    pos: usize,
}

impl View for Parser {
    type V = Seq<char>;

    /// The text not consumed yet.
    closed spec fn view(&self) -> Seq<char> {
        self.text@.skip(self.pos as int)
    }
}

impl Parser {
    #[verifier::type_invariant]
    spec fn inv(&self) -> bool {
        self.pos <= self.text.len()
    }

    pub fn new(text: String) -> (p: Parser)
        ensures
            p@ == text@,
    {
        broadcast use vstd::string::group_string_axioms;

        let mut chars: Vec<char> = Vec::new();
        for c in it: text.as_str().chars()
            invariant
                chars@ == it.seq().take(it.index() as int),
        {
            chars.push(c);
        }
        assert(chars@ =~= text@);
        let p = Parser { text: chars, pos: 0 };
        assert(p.text@.skip(0) =~= p.text@);
        p
    }

    /// `self` is `old` with more of the same text consumed.
    pub closed spec fn advanced_from(&self, old: Parser) -> bool {
        self.text@ == old.text@ && old.pos <= self.pos
    }

    proof fn lemma_advanced_suffix(&self, old: Parser)
        requires
            self.inv(),
            self.advanced_from(old),
        ensures
            is_suffix(old@, self@),
            self@.len() <= old@.len(),
    {
        assert(old@.skip(old@.len() - self@.len()) =~= self@);
    }

    /// Takes the next character of the text, if any.
    pub fn take(&mut self) -> (c: Option<char>)
        ensures
            old(self)@.len() == 0 ==> c is None && final(self)@ == old(self)@,
            old(self)@.len() > 0 ==> c == Some(old(self)@[0]) && final(self)@ == old(
                self,
            )@.drop_first(),
            final(self).advanced_from(*old(self)),
    {
        proof {
            use_type_invariant(&*self);
        }
        if self.pos < self.text.len() {
            let c = self.text[self.pos];
            self.pos = self.pos + 1;
            assert(self.text@.skip(self.pos as int) =~= old(self).text@.skip(
                old(self).pos as int,
            ).drop_first());
            Some(c)
        } else {
            None
        }
    }

    /// The next character of the text, if any, without taking it.
    pub fn peek(&self) -> (c: Option<char>)
        ensures
            self@.len() == 0 ==> c is None,
            self@.len() > 0 ==> c == Some(self@[0]),
    {
        proof {
            use_type_invariant(self);
        }
        if self.pos < self.text.len() {
            Some(self.text[self.pos])
        } else {
            None
        }
    }

    fn skip_line(&mut self)
        ensures
            final(self)@ == after_line(old(self)@),
            final(self).advanced_from(*old(self)),
    {
        loop
            invariant
                after_line(self@) == after_line(old(self)@),
                self.advanced_from(*old(self)),
            decreases self@.len(),
        {
            proof {
                use_type_invariant(&*self);
            }
            if let Some(c) = self.take() {
                if c == '\n' {
                    return;
                }
            } else {
                return;
            }
        }
    }

    fn read_symbol(&mut self, symstr: String) -> (o: Expr)
        ensures
            o@ == Form::Symbol(symbol_text(symstr@, old(self)@)),
            final(self)@ == old(self)@.skip(symbol_run(old(self)@) as int),
            final(self).advanced_from(*old(self)),
    {
        let mut sym = symstr;
        let ghost start = old(self)@;
        let ghost prefix = sym@;
        let ghost mut k: int = 0;
        proof {
            assert(start.skip(0) =~= start);
            assert(prefix + start.take(0) =~= prefix);
        }
        loop
            invariant
                0 <= k <= start.len(),
                start == old(self)@,
                self@ == start.skip(k),
                sym@ == prefix + start.take(k),
                prefix == symstr@,
                symbol_run(start) == k + symbol_run(self@),
                self.advanced_from(*old(self)),
            decreases self@.len(),
        {
            proof {
                use_type_invariant(&*self);
            }
            if let Some(peeked) = self.peek() {
                if char_is_alphabetic(peeked) || ('0' <= peeked && peeked <= '9') {
                    self.take();
                    sym.push(peeked);
                    proof {
                        assert(start.skip(k).drop_first() =~= start.skip(k + 1));
                        assert(prefix + start.take(k + 1) =~= (prefix + start.take(k)).push(
                            peeked,
                        ));
                        k = k + 1;
                    }
                } else {
                    return Expr::Symbol(sym);
                }
            } else {
                return Expr::Symbol(sym);
            }
        }
    }

    /// Reads a number whose first character `first` was already taken.
    fn read_number(&mut self, first: char) -> (res: Result<Expr, ReadError>)
        ensures
            is_float_text(number_text(first, old(self)@)) ==> (res matches Ok(o) && o@
                == Form::Numeric(number_text(first, old(self)@)) && final(self)@ == old(
                self,
            )@.skip(number_run(old(self)@) as int)),
            !is_float_text(number_text(first, old(self)@)) ==> res == Err::<Expr, ReadError>(
                ReadError::BadNumber,
            ),
            final(self).advanced_from(*old(self)),
    {
        let ghost start = old(self)@;
        let ghost mut k: int = 0;
        let mut numstr = String::new();
        numstr.push(first);
        let mut chars: Vec<char> = Vec::new();
        chars.push(first);
        proof {
            assert(start.skip(0) =~= start);
            assert(seq![first] + start.take(0) =~= seq![first]);
        }
        loop
            invariant
                0 <= k <= start.len(),
                start == old(self)@,
                self@ == start.skip(k),
                numstr@ == seq![first] + start.take(k),
                chars@ == numstr@,
                number_run(start) == k + number_run(self@),
                self.advanced_from(*old(self)),
            ensures
                0 <= k <= start.len(),
                self@ == start.skip(k),
                numstr@ == seq![first] + start.take(k),
                chars@ == numstr@,
                number_run(start) == k,
                self.advanced_from(*old(self)),
            decreases self@.len(),
        {
            proof {
                use_type_invariant(&*self);
            }
            let c = match self.peek() {
                Some(c) => c,
                None => break,
            };
            if ('0' <= c && c <= '9') || c == '.' || c == '~' || c == '!' || c == '@' || c == '#'
                || c == '$' || c == '%' || c == '^' || c == '&' || c == '*' || c == '-' || c
                == '_' || c == '=' || c == '+' || c == ':' || c == '/' || c == '?' || c == '<'
                || c == '>' {
                self.take();
                numstr.push(c);
                chars.push(c);
                proof {
                    assert(start.skip(k).drop_first() =~= start.skip(k + 1));
                    assert(seq![first] + start.take(k + 1) =~= (seq![first] + start.take(
                        k,
                    )).push(c));
                    k = k + 1;
                }
            } else {
                break ;
            }
        }
        if is_float_text_exec(&chars) {
            Ok(Expr::Numeric(numstr))
        } else {
            Err(ReadError::BadNumber)
        }
    }

    /// Reads the expression after a `'` that was already taken.
    pub fn read_quote(&mut self) -> (res: Result<Expr, ReadError>)
        ensures
            match parse_quote_result(old(self)@) {
                Ok((f, rest)) => res matches Ok(o) && o@ == f && final(self)@ == rest,
                Err(e) => res == Err::<Expr, ReadError>(e),
            },
            final(self).advanced_from(*old(self)),
        decreases old(self)@.len(), 1nat,
    {
        let next_expr = self.read_token();
        match next_expr {
            Ok(ParseResult::Expression(e)) => {
                let quote = String::from_str("quote");
                proof {
                    reveal_strlit("quote");
                    assert(quote@ =~= quote_symbol());
                }
                let list = vec![Expr::Symbol(quote), e];
                proof {
                    lemma_form_of_lists(list);
                    assert(forms(list@) =~= seq![Form::Symbol(quote_symbol()), list@[1]@]);
                }
                Ok(Expr::List(list))
            },
            Ok(ParseResult::Dot) => Err(ReadError::QuotedDot),
            Ok(ParseResult::CloseParen) => Err(ReadError::QuotedCloseParen),
            Ok(ParseResult::EOF) => Err(ReadError::QuotedEof),
            Err(e) => Err(e),
        }
    }

    /// Reads the rest of a list whose `(` was already taken.
    pub fn read_list(&mut self) -> (res: Result<Expr, ReadError>)
        ensures
            match parse_list_result(old(self)@) {
                Ok((f, rest)) => res matches Ok(o) && o@ == f && final(self)@ == rest,
                Err(e) => res == Err::<Expr, ReadError>(e),
            },
            final(self).advanced_from(*old(self)),
        decreases old(self)@.len(), 1nat,
    {
        proof {
            use_type_invariant(&*self);
        }
        if let Some(')') = self.peek() {
            self.take();
            return Ok(Expr::Null);
        }
        let ghost start = self@;
        let mut list: Vec<Expr> = Vec::new();
        proof {
            assert(forms(list@) + Seq::<Form>::empty() =~= Seq::<Form>::empty());
            assert forall|q: Seq<Form>| forms(list@) + q =~= q by {}
        }
        loop
            invariant
                start == old(self)@,
                !(start.len() > 0 && start[0] == ')'),
                parse_items_result(start) == with_prefix(forms(list@), parse_items_result(self@)),
                self.advanced_from(*old(self)),
            decreases self@.len(),
        {
            proof {
                use_type_invariant(&*self);
                self.lemma_advanced_suffix(*old(self));
                lemma_parse_consumes(self@);
            }
            let ghost cur = self@;
            let ghost before = list@;
            let res = self.read_token();
            match res {
                Err(x) => {
                    return Err(x);
                },
                Ok(ParseResult::Expression(e)) => {
                    list.push(e);
                    proof {
                        assert(parse_items_result(cur) == with_prefix(
                            seq![e@],
                            parse_items_result(self@),
                        ));
                        assert(forms(list@) =~= forms(before).push(e@));
                        lemma_prefix_push(forms(before), e@, parse_items_result(self@));
                    }
                },
                Ok(ParseResult::Dot) => {
                    let last = self.read_token();
                    match last {
                        Err(x) => {
                            return Err(x);
                        },
                        Ok(ParseResult::Expression(final_e)) => {
                            proof {
                                use_type_invariant(&*self);
                            }
                            let closer = self.read_token();
                            match closer {
                                Err(x) => {
                                    return Err(x);
                                },
                                Ok(ParseResult::CloseParen) => {
                                    list.push(final_e);
                                    proof {
                                        assert(forms(list@) =~= forms(before) + seq![final_e@]);
                                        lemma_form_of_lists(list);
                                    }
                                    return Ok(Expr::ImproperList(list));
                                },
                                Ok(_) => {
                                    return Err(ReadError::ExpectedCloseParen);
                                },
                            }
                        },
                        Ok(ParseResult::Dot) => {
                            return Err(ReadError::DotAfterDot);
                        },
                        Ok(ParseResult::CloseParen) => {
                            return Err(ReadError::CloseParenAfterDot);
                        },
                        Ok(ParseResult::EOF) => {
                            return Err(ReadError::EofAfterDot);
                        },
                    }
                },
                Ok(ParseResult::CloseParen) => {
                    proof {
                        assert(forms(list@) + Seq::<Form>::empty() =~= forms(list@));
                        lemma_form_of_lists(list);
                    }
                    if list.len() == 0 {
                        return Ok(Expr::Null);
                    }
                    return Ok(Expr::List(list));
                },
                Ok(ParseResult::EOF) => {
                    return Err(ReadError::EofInList);
                },
            }
        }
    }

    fn read_token(&mut self) -> (res: Result<ParseResult, ReadError>)
        ensures
            match parse_expr_result(old(self)@) {
                Ok((t, rest)) => res matches Ok(r) && r.token() == t && final(self)@ == rest,
                Err(e) => res == Err::<ParseResult, ReadError>(e),
            },
            final(self).advanced_from(*old(self)),
        decreases old(self)@.len(), 0nat,
    {
        loop
            invariant
                parse_expr_result(self@) == parse_expr_result(old(self)@),
                self.advanced_from(*old(self)),
            decreases self@.len(),
        {
            proof {
                use_type_invariant(&*self);
                self.lemma_advanced_suffix(*old(self));
            }
            let took = self.take();
            if took.is_none() {
                return Ok(ParseResult::EOF);
            }
            let c = took.unwrap();
            proof {
                use_type_invariant(&*self);
            }
            let ghost after_take = *self;
            if c == ' ' || c == '\n' || c == '\t' || c == '\r' {
            } else if c == ';' {
                self.skip_line();
                proof {
                    use_type_invariant(&*self);
                    self.lemma_advanced_suffix(after_take);
                    lemma_after_line_len(after_take@);
                }
            } else if c == '(' {
                return match self.read_list() {
                    Ok(l) => Ok(ParseResult::Expression(l)),
                    Err(e) => Err(e),
                };
            } else if c == ')' {
                return Ok(ParseResult::CloseParen);
            } else if '0' <= c && c <= '9' {
                return match self.read_number(c) {
                    Ok(n) => Ok(ParseResult::Expression(n)),
                    Err(e) => Err(e),
                };
            } else if c == '-' {
                let peeked_opt = self.peek();
                if let Some(peeked) = peeked_opt {
                    if ('0' <= peeked && peeked <= '9') || peeked == '.' {
                        return match self.read_number(c) {
                            Ok(n) => Ok(ParseResult::Expression(n)),
                            Err(e) => Err(e),
                        };
                    } else {
                        let mut symstr = String::new();
                        symstr.push(c);
                        return Ok(ParseResult::Expression(self.read_symbol(symstr)));
                    }
                } else {
                    let minus = String::from_str("-");
                    proof {
                        reveal_strlit("-");
                        assert(minus@ =~= seq!['-']);
                    }
                    return Ok(ParseResult::Expression(Expr::Symbol(minus)));
                }
            } else if c == '.' {
                let peeked_opt = self.peek();
                if let Some(peeked) = peeked_opt {
                    if '0' <= peeked && peeked <= '9' {
                        return match self.read_number(c) {
                            Ok(n) => Ok(ParseResult::Expression(n)),
                            Err(e) => Err(e),
                        };
                    } else {
                        return Ok(ParseResult::Dot);
                    }
                } else {
                    return Err(ReadError::DotAtEof);
                }
            } else if c == '\'' {
                return match self.read_quote() {
                    Ok(q) => Ok(ParseResult::Expression(q)),
                    Err(e) => Err(e),
                };
            } else if ('<' <= c && c <= 'Z') || ('a' <= c && c <= 'z') || c == '~' || c == '!'
                || c == '#' || c == '$' || c == '%' || c == '^' || c == '&' || c == '*' || c
                == '_' || c == '+' || c == ':' || c == '/' {
                let mut symstr = String::new();
                symstr.push(c);
                return Ok(ParseResult::Expression(self.read_symbol(symstr)));
            } else {
                let unknown = String::from_str("TODO_ELSE!");
                proof {
                    reveal_strlit("TODO_ELSE!");
                    assert(unknown@ =~= unknown_symbol());
                }
                return Ok(ParseResult::Expression(Expr::Symbol(unknown)));
            }
        }
    }

    /// Reads the next expression, or `)`, `.`, or the end of the text, and
    /// consumes the text it read. Returns `Err` on the malformed text on
    /// which `read_expr` cannot be called.
    pub fn try_read_expr(&mut self) -> (res: Result<ParseResult, ReadError>)
        ensures
            match parse_expr_result(old(self)@) {
                Ok((t, rest)) => res matches Ok(r) && r.token() == t && final(self)@ == rest,
                Err(e) => res == Err::<ParseResult, ReadError>(e),
            },
            is_suffix(old(self)@, final(self)@),
    {
        let res = self.read_token();
        proof {
            use_type_invariant(&*self);
            self.lemma_advanced_suffix(*old(self));
        }
        res
    }

    /// Reads the next expression, or `)`, `.`, or the end of the text, and
    /// consumes the text it read.
    pub fn read_expr(&mut self) -> (res: ParseResult)
        requires
            parse_expr_result(old(self)@) is Ok,
        ensures
            parse_expr_result(old(self)@) matches Ok((t, rest)) && res.token() == t
                && final(self)@ == rest,
    {
        match self.try_read_expr() {
            Ok(r) => r,
            Err(_) => {
                proof {
                    assert(false);
                }
                ParseResult::EOF
            },
        }
    }
}

} // verus!
