//! A reader of Scheme text into `ScmObj` trees: lists become chains of
//! `Cons` cells ending in `Null`, `'e` becomes the list `(quote e)`.
use vstd::prelude::*;

use crate::eval::{datum_of, Datum, ScmObj};
use crate::scan::{
    after_line, blank_doubled_at, lemma_after_line_to_end, blank_fits_at, blank_inserted_at, differ_by_blank,
    lemma_after_line_inserted, lemma_blank_ends_tokens, lemma_doubled_is_inserted,
    lemma_inserted_shape, lemma_inserted_split, lemma_number_run_stop, lemma_same_reading_refl,
    lemma_symbol_run_stop, same_reading, with_first, char_is_alphabetic, is_digit, is_float_text, is_float_text_exec, is_space,
    is_suffix, is_symbol_start, lemma_after_line_len, lemma_after_line_skips, lemma_number_run_len,
    lemma_skip_suffix, lemma_suffix_trans, lemma_symbol_run_len, number_run, number_text,
    quote_symbol, symbol_run, symbol_text, ReadError, Token,
};

verus! {

/// What one call of `Parser::read_expr` finds.
#[derive(Debug)]
pub enum ReadResult {
    Expression(ScmObj),
    CloseParen,
    Dot,
    Error(&'static str),
    EOF,
}

impl ReadResult {
    /// The token this result reports; `None` for `Error`, which the reader never returns.
    pub open spec fn token(&self) -> Option<Token<Datum>> {
        match self {
            ReadResult::Expression(e) => Some(Token::Expression(e@)),
            ReadResult::CloseParen => Some(Token::CloseParen),
            ReadResult::Dot => Some(Token::Dot),
            ReadResult::Error(_) => None,
            ReadResult::EOF => Some(Token::Eof),
        }
    }
}

/// What an object stands for: a symbol or number its text, a pair the pair
/// of what its two parts stand for, and `Null` itself.
pub proof fn law_scm_obj_view(a: String, x: ScmObj, y: ScmObj)
    ensures
        ScmObj::Symbol(a)@ == Datum::Symbol(a@),
        ScmObj::Numeric(a)@ == Datum::Numeric(a@),
        ScmObj::Null@ == Datum::Null,
        ScmObj::Cons(Box::new(x), Box::new(y))@ == Datum::Cons(Box::new(x@), Box::new(y@)),
{
}

/// Each result of `read_expr` reports its own kind of token; `Error` reports none.
pub proof fn law_read_result_tokens(e: ScmObj, m: &'static str)
    ensures
        ReadResult::Expression(e).token() == Some(Token::Expression(e@)),
        ReadResult::CloseParen.token() == Some(Token::<Datum>::CloseParen),
        ReadResult::Dot.token() == Some(Token::<Datum>::Dot),
        ReadResult::EOF.token() == Some(Token::<Datum>::Eof),
        ReadResult::Error(m).token() == None::<Token<Datum>>,
{
}

/// At the end of the text, reading finds the end of the text.
pub proof fn law_read_end()
    ensures
        read_expr_result(Seq::empty()) == Ok::<(Token<Datum>, Seq<char>), ReadError>(
            (Token::Eof, Seq::empty()),
        ),
{
}

/// The symbol read for a character that starts no expression.
pub open spec fn unknown_symbol() -> Seq<char> {
    seq!['T', 'O', 'D', 'O', '_', 'E', 'L', 'S', 'E']
}

/// `'e` is read as the list `(quote e)`.
pub open spec fn quoted(e: Datum) -> Datum {
    Datum::Cons(
        Box::new(Datum::Symbol(quote_symbol())),
        Box::new(Datum::Cons(Box::new(e), Box::new(Datum::Null))),
    )
}

/// A number whose first character `first` was taken; `s` is the text after it.
pub open spec fn number_result(first: char, s: Seq<char>) -> Result<
    (Token<Datum>, Seq<char>),
    ReadError,
> {
    if is_float_text(number_text(first, s)) {
        Ok((Token::Expression(Datum::Numeric(number_text(first, s))), s.skip(number_run(s) as int)))
    } else {
        Err(ReadError::BadNumber)
    }
}

/// A symbol whose first character `first` was taken; `s` is the text after it.
pub open spec fn symbol_result(first: char, s: Seq<char>) -> Result<
    (Token<Datum>, Seq<char>),
    ReadError,
> {
    Ok((Token::Expression(Datum::Symbol(symbol_text(seq![first], s))), s.skip(symbol_run(s) as int)))
}

/// What `read_expr` finds at the start of `s`, and the text it leaves;
/// `Err` where reading stops on malformed text.
pub open spec fn read_expr_result(s: Seq<char>) -> Result<(Token<Datum>, Seq<char>), ReadError>
    decreases s.len(), 0nat,
{
    if s.len() == 0 {
        Ok((Token::Eof, s))
    } else {
        let c = s[0];
        let r = s.drop_first();
        if is_space(c) {
            read_expr_result(r)
        } else if c == ';' {
            proof {
                lemma_after_line_len(r);
            }
            read_expr_result(after_line(r))
        } else if c == '(' {
            match read_list_result(r) {
                Ok((d, rest)) => Ok((Token::Expression(d), rest)),
                Err(e) => Err(e),
            }
        } else if c == ')' {
            Ok((Token::CloseParen, r))
        } else if is_digit(c) {
            number_result(c, r)
        } else if c == '-' {
            if r.len() > 0 {
                if is_digit(r[0]) || r[0] == '.' {
                    number_result(c, r)
                } else {
                    symbol_result(c, r)
                }
            } else {
                Ok((Token::Expression(Datum::Symbol(seq!['-'])), r))
            }
        } else if c == '.' {
            if r.len() > 0 {
                if is_digit(r[0]) {
                    number_result(c, r)
                } else {
                    Ok((Token::Dot, r))
                }
            } else {
                Err(ReadError::DotAtEof)
            }
        } else if c == '\'' {
            match read_quote_result(r) {
                Ok((d, rest)) => Ok((Token::Expression(d), rest)),
                Err(e) => Err(e),
            }
        } else if is_symbol_start(c) {
            symbol_result(c, r)
        } else {
            Ok((Token::Expression(Datum::Symbol(unknown_symbol())), r))
        }
    }
}

/// The expression after a `'`, wrapped as `(quote e)`.
pub open spec fn read_quote_result(s: Seq<char>) -> Result<(Datum, Seq<char>), ReadError>
    decreases s.len(), 1nat,
{
    match read_expr_result(s) {
        Ok((Token::Expression(e), rest)) => Ok((quoted(e), rest)),
        Ok((Token::Dot, _)) => Err(ReadError::QuotedDot),
        Ok((Token::CloseParen, _)) => Err(ReadError::QuotedCloseParen),
        Ok((Token::Eof, _)) => Err(ReadError::QuotedEof),
        Err(e) => Err(e),
    }
}

/// The rest of a list whose `(` was taken: its elements as a chain of
/// `Cons` cells ending in `Null`, or in the element after a `.`.
pub open spec fn read_list_result(s: Seq<char>) -> Result<(Datum, Seq<char>), ReadError>
    decreases s.len(), 1nat,
{
    if s.len() > 0 && s[0] == ')' {
        Ok((Datum::Null, s.drop_first()))
    } else {
        match read_expr_result(s) {
            Err(e) => Err(e),
            Ok((Token::CloseParen, rest)) => Ok((Datum::Null, rest)),
            Ok((Token::Expression(e), rest)) => {
                if rest.len() < s.len() {
                    match read_list_result(rest) {
                        Ok((tail, rest2)) => Ok((Datum::Cons(Box::new(e), Box::new(tail)), rest2)),
                        Err(x) => Err(x),
                    }
                } else {
                    Err(ReadError::EofInList)
                }
            },
            Ok((Token::Dot, rest)) => {
                if rest.len() < s.len() {
                    match read_expr_result(rest) {
                        Err(x) => Err(x),
                        Ok((last, rest2)) => {
                            if rest2.len() < s.len() {
                                match read_expr_result(rest2) {
                                    Err(x) => Err(x),
                                    Ok((Token::CloseParen, rest3)) => match last {
                                        Token::Expression(e) => Ok((e, rest3)),
                                        Token::Dot => Err(ReadError::DotAfterDot),
                                        Token::CloseParen => Err(ReadError::CloseParenAfterDot),
                                        Token::Eof => Err(ReadError::EofAfterDot),
                                    },
                                    Ok(_) => Err(ReadError::ExpectedCloseParen),
                                }
                            } else {
                                Err(ReadError::EofInList)
                            }
                        },
                    }
                } else {
                    Err(ReadError::EofInList)
                }
            },
            Ok((Token::Eof, _)) => Err(ReadError::EofInList),
        }
    }
}

/// Every successful read leaves a suffix of its input, and a read that finds
/// anything but the end of the text consumes at least one character.
#[verifier::spinoff_prover]
pub proof fn lemma_read_consumes(s: Seq<char>)
    ensures
        read_expr_result(s) matches Ok((t, r)) ==> is_suffix(s, r) && (!(t is Eof) ==> r.len()
            < s.len()),
        read_list_result(s) matches Ok((d, r)) ==> is_suffix(s, r) && r.len() < s.len(),
        read_quote_result(s) matches Ok((d, r)) ==> is_suffix(s, r) && r.len() < s.len(),
    decreases s.len(),
{
    assert(s.skip(0) =~= s);
    if s.len() > 0 {
        let c = s[0];
        let r = s.drop_first();
        lemma_skip_suffix(s, 1);
        lemma_read_consumes(r);
        lemma_symbol_run_len(r);
        lemma_number_run_len(r);
        lemma_skip_suffix(r, symbol_run(r) as int);
        lemma_skip_suffix(r, number_run(r) as int);
        if let Ok((t, rest)) = read_expr_result(r) {
            lemma_suffix_trans(s, r, rest);
        }
        if let Ok((t, rest)) = read_list_result(r) {
            lemma_suffix_trans(s, r, rest);
        }
        if let Ok((t, rest)) = read_quote_result(r) {
            lemma_suffix_trans(s, r, rest);
        }
        if let Ok((t, rest)) = number_result(c, r) {
            lemma_suffix_trans(s, r, rest);
        }
        if let Ok((t, rest)) = symbol_result(c, r) {
            lemma_suffix_trans(s, r, rest);
        }
        if c == ';' {
            lemma_after_line_len(r);
            lemma_read_consumes(after_line(r));
            lemma_suffix_trans(s, r, after_line(r));
            if let Ok((t, rest)) = read_expr_result(after_line(r)) {
                lemma_suffix_trans(s, after_line(r), rest);
            }
        }
    }
    assert(read_expr_result(s) matches Ok((t, r)) ==> is_suffix(s, r) && (!(t is Eof)
        ==> r.len() < s.len()));
    // lists
    if !(s.len() > 0 && s[0] == ')') {
        if let Ok((t, rest)) = read_expr_result(s) {
            if rest.len() < s.len() {
                lemma_read_consumes(rest);
                if let Ok((d, rest2)) = read_list_result(rest) {
                    lemma_suffix_trans(s, rest, rest2);
                }
                if let Ok((d, rest2)) = read_expr_result(rest) {
                    lemma_suffix_trans(s, rest, rest2);
                    if rest2.len() < s.len() {
                        lemma_read_consumes(rest2);
                        if let Ok((t3, rest3)) = read_expr_result(rest2) {
                            lemma_suffix_trans(s, rest2, rest3);
                        }
                    }
                }
            }
        }
    } else {
        lemma_skip_suffix(s, 1);
    }
}


/// Whitespace before an expression does not change what is read.
pub proof fn law_read_skips_whitespace(ws: Seq<char>, s: Seq<char>)
    requires
        forall|i: int| 0 <= i < ws.len() ==> is_space(#[trigger] ws[i]),
    ensures
        read_expr_result(ws + s) == read_expr_result(s),
    decreases ws.len(),
{
    if ws.len() > 0 {
        assert((ws + s).drop_first() =~= ws.drop_first() + s);
        assert(is_space(ws[0]));
        law_read_skips_whitespace(ws.drop_first(), s);
    } else {
        assert(ws + s =~= s);
    }
}

/// A comment, from `;` to the end of its line, does not change what is read.
pub proof fn law_read_skips_comment(line: Seq<char>, s: Seq<char>)
    requires
        forall|i: int| 0 <= i < line.len() ==> line[i] != '\n',
    ensures
        read_expr_result(seq![';'] + line + seq!['\n'] + s) == read_expr_result(s),
        read_expr_result(seq![';'] + line) == Ok::<(Token<Datum>, Seq<char>), ReadError>(
            (Token::Eof, Seq::empty()),
        ),
{
    let t = seq![';'] + line + seq!['\n'] + s;
    assert(t.drop_first() =~= line + seq!['\n'] + s);
    lemma_after_line_skips(line, s);
    lemma_first_char(';', line);
    lemma_after_line_to_end(line);
    assert(read_expr_result(seq![';'] + line) == read_expr_result(after_line(line)));
    assert(after_line(line) =~= Seq::<char>::empty());
}

/// `'e` is read as the list `(quote e)`, and a quote must be followed by an expression.
pub proof fn law_read_quote(s: Seq<char>)
    ensures
        read_expr_result(seq!['\''] + s) == match read_expr_result(s) {
            Ok((Token::Expression(e), rest)) => Ok(
                (
                    Token::Expression(
                        Datum::Cons(
                            Box::new(Datum::Symbol(seq!['q', 'u', 'o', 't', 'e'])),
                            Box::new(Datum::Cons(Box::new(e), Box::new(Datum::Null))),
                        ),
                    ),
                    rest,
                ),
            ),
            Ok((Token::Dot, _)) => Err(ReadError::QuotedDot),
            Ok((Token::CloseParen, _)) => Err(ReadError::QuotedCloseParen),
            Ok((Token::Eof, _)) => Err(ReadError::QuotedEof),
            Err(e) => Err(e),
        },
{
    let t = seq!['\''] + s;
    assert(t[0] == '\'');
    assert(t.drop_first() =~= s);
    assert(t.len() > 0);
    assert(!is_space(t[0]));
    assert(read_expr_result(t) == match read_quote_result(s) {
        Ok((d, rest)) => Ok((Token::Expression(d), rest)),
        Err(e) => Err(e),
    });
}

/// `()` is read as the empty list.
pub proof fn law_read_empty_list(s: Seq<char>)
    ensures
        read_expr_result(seq!['(', ')'] + s) == Ok::<(Token<Datum>, Seq<char>), ReadError>(
            (Token::Expression(Datum::Null), s),
        ),
{
    let t = seq!['(', ')'] + s;
    let u = seq![')'] + s;
    assert(t[0] == '(');
    assert(t.drop_first() =~= u);
    assert(u[0] == ')');
    assert(u.drop_first() =~= s);
    assert(read_list_result(u) == Ok::<(Datum, Seq<char>), ReadError>((Datum::Null, s)));
}

/// A proper list `(e1 ... en)` is read as the chain of pairs
/// `e1`, ..., `en` ending in the empty list: after its first element `e`,
/// the rest of the list is read as if it were a list of its own.
pub proof fn law_read_list_cons(s: Seq<char>)
    requires
        !(s.len() > 0 && s[0] == ')'),
        read_expr_result(s) matches Ok((Token::Expression(_), _)),
    ensures
        read_expr_result(s) matches Ok((Token::Expression(e), rest)) && read_list_result(s) == match read_list_result(rest) {
            Ok((tail, rest2)) => Ok((Datum::Cons(Box::new(e), Box::new(tail)), rest2)),
            Err(x) => Err(x),
        },
{
    lemma_read_consumes(s);
}

proof fn lemma_first_char(c: char, s: Seq<char>)
    ensures
        (seq![c] + s).len() == s.len() + 1,
        (seq![c] + s)[0] == c,
        (seq![c] + s).drop_first() == s,
{
    assert((seq![c] + s).drop_first() =~= s);
}

/// A `)` is read as the end of a list, and reading goes on right after it.
pub proof fn law_read_close_paren(s: Seq<char>)
    ensures
        read_expr_result(seq![')'] + s) == Ok::<(Token<Datum>, Seq<char>), ReadError>((Token::CloseParen, s)),
{
    lemma_first_char(')', s);
}

/// A `(` starts a list, which is read up to its `)`.
pub proof fn law_read_open_paren(s: Seq<char>)
    ensures
        read_expr_result(seq!['('] + s) == match read_list_result(s) {
            Ok((d, rest)) => Ok::<(Token<Datum>, Seq<char>), ReadError>((Token::Expression(d), rest)),
            Err(e) => Err(e),
        },
{
    lemma_first_char('(', s);
}

/// A digit starts a number, which takes in the number characters after it;
/// its text must be one that `f64` accepts.
pub proof fn law_read_digit(c: char, s: Seq<char>)
    requires
        '0' <= c && c <= '9',
    ensures
        read_expr_result(seq![c] + s) == (if is_float_text(seq![c] + s.take(number_run(s) as int)) {
            Ok::<(Token<Datum>, Seq<char>), ReadError>(
                (
                    Token::Expression(Datum::Numeric(seq![c] + s.take(number_run(s) as int))),
                    s.skip(number_run(s) as int),
                ),
            )
        } else {
            Err::<(Token<Datum>, Seq<char>), ReadError>(ReadError::BadNumber)
        }),
{
    lemma_first_char(c, s);
}

/// A `-` starts a number when a digit or `.` follows it; otherwise it starts
/// a symbol, which is `-` alone at the end of the text.
pub proof fn law_read_minus(s: Seq<char>)
    ensures
        s.len() == 0 ==> read_expr_result(seq!['-'] + s) == Ok::<(Token<Datum>, Seq<char>), ReadError>(
            (Token::Expression(Datum::Symbol(seq!['-'])), s),
        ),
        s.len() > 0 && (('0' <= s[0] && s[0] <= '9') || s[0] == '.') ==> read_expr_result(seq!['-'] + s)
            == (if is_float_text(seq!['-'] + s.take(number_run(s) as int)) {
            Ok::<(Token<Datum>, Seq<char>), ReadError>(
                (
                    Token::Expression(Datum::Numeric(seq!['-'] + s.take(number_run(s) as int))),
                    s.skip(number_run(s) as int),
                ),
            )
        } else {
            Err::<(Token<Datum>, Seq<char>), ReadError>(ReadError::BadNumber)
        }),
        s.len() > 0 && !(('0' <= s[0] && s[0] <= '9') || s[0] == '.') ==> read_expr_result(seq!['-'] + s)
            == Ok::<(Token<Datum>, Seq<char>), ReadError>(
            (
                Token::Expression(Datum::Symbol(seq!['-'] + s.take(symbol_run(s) as int))),
                s.skip(symbol_run(s) as int),
            ),
        ),
{
    lemma_first_char('-', s);
}

/// A `.` starts a number when a digit follows it (`.5`); otherwise it is the
/// dot of an improper list, and at the end of the text reading stops.
pub proof fn law_read_dot(s: Seq<char>)
    ensures
        s.len() == 0 ==> read_expr_result(seq!['.'] + s) == Err::<(Token<Datum>, Seq<char>), ReadError>(ReadError::DotAtEof),
        s.len() > 0 && '0' <= s[0] && s[0] <= '9' ==> read_expr_result(seq!['.'] + s) == (if is_float_text(seq!['.'] + s.take(number_run(s) as int)) {
            Ok::<(Token<Datum>, Seq<char>), ReadError>(
                (
                    Token::Expression(Datum::Numeric(seq!['.'] + s.take(number_run(s) as int))),
                    s.skip(number_run(s) as int),
                ),
            )
        } else {
            Err::<(Token<Datum>, Seq<char>), ReadError>(ReadError::BadNumber)
        }),
        s.len() > 0 && !('0' <= s[0] && s[0] <= '9') ==> read_expr_result(seq!['.'] + s) == Ok::<(Token<Datum>, Seq<char>), ReadError>(
            (Token::Dot, s),
        ),
{
    lemma_first_char('.', s);
}

/// Every character that starts a symbol (`<` to `Z`, which takes in `=`,
/// `>`, `?`, `@` and the capitals; the small letters; and
/// `~ ! # $ % ^ & * _ + : /`) is read as a symbol made of it and the symbol
/// characters that follow it.
pub proof fn law_read_symbol_start(c: char, s: Seq<char>)
    requires
        ('<' <= c && c <= 'Z') || ('a' <= c && c <= 'z') || c == '~' || c == '!' || c == '#'
            || c == '$' || c == '%' || c == '^' || c == '&' || c == '*' || c == '_' || c == '+'
            || c == ':' || c == '/',
    ensures
        read_expr_result(seq![c] + s) == Ok::<(Token<Datum>, Seq<char>), ReadError>(
            (
                Token::Expression(Datum::Symbol(seq![c] + s.take(symbol_run(s) as int))),
                s.skip(symbol_run(s) as int),
            ),
        ),
{
    lemma_first_char(c, s);
}

/// A character that starts nothing (no blank, comment, parenthesis, number,
/// dot, quote or symbol) is read as the placeholder symbol, on its own.
pub proof fn law_read_other_char(c: char, s: Seq<char>)
    requires
        !(c == ' ' || c == '\n' || c == '\t' || c == '\r'),
        c != ';' && c != '(' && c != ')' && c != '-' && c != '.' && c != '\'',
        !('0' <= c && c <= '9'),
        !(('<' <= c && c <= 'Z') || ('a' <= c && c <= 'z') || c == '~' || c == '!' || c == '#'
            || c == '$' || c == '%' || c == '^' || c == '&' || c == '*' || c == '_' || c == '+'
            || c == ':' || c == '/'),
    ensures
        read_expr_result(seq![c] + s) == Ok::<(Token<Datum>, Seq<char>), ReadError>(
            (Token::Expression(Datum::Symbol(seq!['T', 'O', 'D', 'O', '_', 'E', 'L', 'S', 'E'])), s),
        ),
{
    lemma_first_char(c, s);
}

/// A list ends at its `)` token, wherever blanks and comments put it: the
/// rest of a list that goes on with a `)` is the empty list.
pub proof fn law_read_list_close(s: Seq<char>)
    requires
        read_expr_result(s) matches Ok((Token::CloseParen, _)),
    ensures
        read_expr_result(s) matches Ok((Token::CloseParen, rest)) && read_list_result(s)
            == Ok::<(Datum, Seq<char>), ReadError>((Datum::Null, rest)),
{
}

/// After a `.`, a list holds one more element and then its `)` token: the
/// rest of such a list is that element itself, and reading goes on after the `)`.
pub proof fn law_read_list_dotted(s: Seq<char>)
    requires
        read_expr_result(s) matches Ok((Token::Dot, rest)) && read_expr_result(rest) matches Ok(
            (Token::Expression(_), rest2),
        ) && read_expr_result(rest2) matches Ok((Token::CloseParen, _)),
    ensures
        read_expr_result(s) matches Ok((Token::Dot, rest)) && read_expr_result(rest) matches Ok(
            (Token::Expression(w), rest2),
        ) && read_expr_result(rest2) matches Ok((Token::CloseParen, rest3)) && read_list_result(s)
            == Ok::<(Datum, Seq<char>), ReadError>((w, rest3)),
{
    lemma_read_consumes(s);
    if let Ok((_, rest)) = read_expr_result(s) {
        lemma_read_consumes(rest);
    }
}

/// Reading a list stops where reading its next element stops, and at the
/// end of the text.
pub proof fn law_read_list_stops(s: Seq<char>)
    ensures
        read_expr_result(s) matches Err(e) ==> read_list_result(s) == Err::<(Datum, Seq<char>), ReadError>(e),
        read_expr_result(s) matches Ok((Token::Eof, _)) ==> read_list_result(s) == Err::<(Datum, Seq<char>), ReadError>(ReadError::EofInList),
{
}

/// What stops a list after its `.`: an error in what follows, a `)` token
/// missing after the next item, or an item after the `.` that is no
/// expression.
pub proof fn law_read_list_dot_stops(s: Seq<char>)
    requires
        read_expr_result(s) matches Ok((Token::Dot, _)),
    ensures
        read_expr_result(s) matches Ok((Token::Dot, rest)) && (read_expr_result(rest) matches Err(e) ==> read_list_result(s)
            == Err::<(Datum, Seq<char>), ReadError>(e)) && (read_expr_result(rest) matches Ok((last, rest2)) ==> (read_expr_result(rest2) matches Err(
            e,
        ) ==> read_list_result(s) == Err::<(Datum, Seq<char>), ReadError>(e)) && (read_expr_result(rest2) matches Ok((tok, _)) && !(tok is CloseParen)
            ==> read_list_result(s) == Err::<(Datum, Seq<char>), ReadError>(ReadError::ExpectedCloseParen)) && (read_expr_result(rest2) matches Ok(
            (Token::CloseParen, _),
        ) ==> (last is Dot ==> read_list_result(s) == Err::<(Datum, Seq<char>), ReadError>(ReadError::DotAfterDot)) && (last is CloseParen
            ==> read_list_result(s) == Err::<(Datum, Seq<char>), ReadError>(ReadError::CloseParenAfterDot)) && (last is Eof ==> read_list_result(s)
            == Err::<(Datum, Seq<char>), ReadError>(ReadError::EofAfterDot)))),
{
    lemma_read_consumes(s);
    if let Ok((_, rest)) = read_expr_result(s) {
        lemma_read_consumes(rest);
    }
}

/// A number read from texts that differ by a blank put in after its first
/// character reads the same.
proof fn lemma_number_blank(first: char, r: Seq<char>, k: int, c: char)
    requires
        blank_fits_at(r, k, c),
    ensures
        same_reading(number_result(first, r), number_result(first, blank_inserted_at(r, k, c))),
{
    let r2 = blank_inserted_at(r, k, c);
    lemma_inserted_shape(r, k, c);
    lemma_blank_ends_tokens(c);
    lemma_number_run_stop(r, r2, k);
    let n = number_run(r) as int;
    lemma_inserted_split(r, k, c, n);
    assert(number_text(first, r) == number_text(first, r2));
    assert(blank_fits_at(r.skip(n), k - n, c));
    assert(differ_by_blank(r.skip(n), r2.skip(n)));
}

/// A symbol read from texts that differ by a blank put in after its first
/// character reads the same.
proof fn lemma_symbol_blank(first: char, r: Seq<char>, k: int, c: char)
    requires
        blank_fits_at(r, k, c),
    ensures
        same_reading(symbol_result(first, r), symbol_result(first, blank_inserted_at(r, k, c))),
{
    let r2 = blank_inserted_at(r, k, c);
    lemma_inserted_shape(r, k, c);
    lemma_blank_ends_tokens(c);
    lemma_symbol_run_stop(r, r2, k);
    let n = symbol_run(r) as int;
    lemma_inserted_split(r, k, c, n);
    assert(symbol_text(seq![first], r) == symbol_text(seq![first], r2));
    assert(blank_fits_at(r.skip(n), k - n, c));
    assert(differ_by_blank(r.skip(n), r2.skip(n)));
}

proof fn lemma_expr_blank(s: Seq<char>, t: Seq<char>)
    requires
        differ_by_blank(s, t),
    ensures
        same_reading(read_expr_result(s), read_expr_result(t)),
    decreases s.len(), 0nat,
{
    lemma_same_reading_refl(read_expr_result(s));
    if t == s {
    } else if exists|c: char| is_space(c) && t == #[trigger] with_first(c, s) {
        assert(t.drop_first() =~= s);
    } else {
        let (j, c) = choose|j: int, c: char|
            blank_fits_at(s, j, c) && t == #[trigger] blank_inserted_at(s, j, c);
        lemma_inserted_shape(s, j, c);
        lemma_blank_ends_tokens(c);
        if j == 0 {
            assert(t.drop_first() =~= s);
        } else {
            let k = j - 1;
            let r = s.drop_first();
            let r2 = t.drop_first();
            assert(blank_fits_at(r, k, c));
            assert(differ_by_blank(r, r2));
            lemma_inserted_shape(r, k, c);
            let x = s[0];
            if is_space(x) {
                lemma_expr_blank(r, r2);
            } else if x == ';' {
                lemma_after_line_len(r);
                lemma_after_line_inserted(r, k, c);
                lemma_expr_blank(after_line(r), after_line(r2));
            } else if x == '(' {
                lemma_list_blank(r, r2);
            } else if x == '\'' {
                lemma_quote_blank(r, r2);
            } else {
                lemma_number_blank(x, r, k, c);
                lemma_symbol_blank(x, r, k, c);
            }
        }
    }
}

proof fn lemma_quote_blank(s: Seq<char>, t: Seq<char>)
    requires
        differ_by_blank(s, t),
    ensures
        same_reading(read_quote_result(s), read_quote_result(t)),
    decreases s.len(), 1nat,
{
    lemma_expr_blank(s, t);
}

proof fn lemma_list_blank(s: Seq<char>, t: Seq<char>)
    requires
        differ_by_blank(s, t),
    ensures
        same_reading(read_list_result(s), read_list_result(t)),
    decreases s.len(), 1nat,
{
    lemma_same_reading_refl(read_list_result(s));
    lemma_read_consumes(s);
    lemma_read_consumes(t);
    if let Ok((_, rest)) = read_expr_result(s) {
        lemma_read_consumes(rest);
    }
    if let Ok((_, rest)) = read_expr_result(t) {
        lemma_read_consumes(rest);
    }
    if t == s {
    } else if exists|c: char| is_space(c) && t == #[trigger] with_first(c, s) {
        assert(t.drop_first() =~= s);
        assert(read_expr_result(t) == read_expr_result(s));
        assert(read_list_result(t) == read_list_result(s));
    } else {
        let (j, c) = choose|j: int, c: char|
            blank_fits_at(s, j, c) && t == #[trigger] blank_inserted_at(s, j, c);
        lemma_inserted_shape(s, j, c);
        if j > 0 && s[0] == ')' {
            let r = s.drop_first();
            let r2 = t.drop_first();
            assert(blank_fits_at(r, j - 1, c));
            assert(differ_by_blank(r, r2));
        } else {
            lemma_expr_blank(s, t);
            if let Ok((Token::Expression(e), rest)) = read_expr_result(s) {
                if let Ok((_, rest2)) = read_expr_result(t) {
                    lemma_list_blank(rest, rest2);
                }
            }
            if let Ok((Token::Dot, rest)) = read_expr_result(s) {
                if let Ok((_, rest2)) = read_expr_result(t) {
                    lemma_expr_blank(rest, rest2);
                    if let Ok((_, q)) = read_expr_result(rest) {
                        if let Ok((_, q2)) = read_expr_result(rest2) {
                            lemma_read_consumes(q);
                            lemma_read_consumes(q2);
                            lemma_expr_blank(q, q2);
                        }
                    }
                }
            }
        }
    }
}

/// Blanks are only separators: on texts that differ by one blank (put in
/// where a blank fits, or in front), reading an expression or the rest of a list
/// gives the same result or the same error, and leaves texts that again
/// differ by at most that blank.
pub proof fn law_read_respects_blanks(s: Seq<char>, t: Seq<char>)
    requires
        differ_by_blank(s, t),
    ensures
        same_reading(read_expr_result(s), read_expr_result(t)),
        same_reading(read_list_result(s), read_list_result(t)),
{
    lemma_expr_blank(s, t);
    lemma_list_blank(s, t);
}

/// A blank put in where it fits (before a character that continues no
/// symbol and no number, such as a blank, `(`, `)` or `'`) does not change
/// what is read: `( a )` reads as `(a)`, `( )` as `()`.
pub proof fn law_read_blank_inserted(s: Seq<char>, j: int, c: char)
    requires
        blank_fits_at(s, j, c),
    ensures
        same_reading(read_expr_result(s), read_expr_result(blank_inserted_at(s, j, c))),
{
    lemma_expr_blank(s, blank_inserted_at(s, j, c));
}

/// Writing any blank of a text twice does not change what is read from it.
pub proof fn law_read_doubled_blank(s: Seq<char>, j: int)
    requires
        0 <= j < s.len(),
        is_space(s[j]),
    ensures
        same_reading(read_expr_result(s), read_expr_result(blank_doubled_at(s, j))),
{
    lemma_doubled_is_inserted(s, j);
    lemma_expr_blank(s, blank_doubled_at(s, j));
}

/// A reader over a program text, which it consumes from the front.
pub struct Parser {
    text: Vec<char>,
    pos: usize,
}

impl View for Parser {
    type V = Seq<char>;

    /// The text not consumed yet.
    closed spec fn view(&self) -> Seq<char> {
        self.text@.skip(self.pos as int)
    }
}

impl Parser {
    #[verifier::type_invariant]
    spec fn inv(&self) -> bool {
        self.pos <= self.text.len()
    }

    pub fn new(text: String) -> (p: Parser)
        ensures
            p@ == text@,
    {
        broadcast use vstd::string::group_string_axioms;

        let mut chars: Vec<char> = Vec::new();
        for c in it: text.as_str().chars()
            invariant
                chars@ == it.seq().take(it.index() as int),
        {
            chars.push(c);
        }
        assert(chars@ =~= text@);
        let p = Parser { text: chars, pos: 0 };
        assert(p.text@.skip(0) =~= p.text@);
        p
    }

    /// `self` is `old` with more of the same text consumed.
    pub closed spec fn advanced_from(&self, old: Parser) -> bool {
        self.text@ == old.text@ && old.pos <= self.pos
    }

    proof fn lemma_advanced_suffix(&self, old: Parser)
        requires
            self.inv(),
            self.advanced_from(old),
        ensures
            is_suffix(old@, self@),
            self@.len() <= old@.len(),
    {
        assert(old@.skip(old@.len() - self@.len()) =~= self@);
    }

    /// Takes the next character of the text, if any.
    pub fn take(&mut self) -> (c: Option<char>)
        ensures
            old(self)@.len() == 0 ==> c is None && final(self)@ == old(self)@,
            old(self)@.len() > 0 ==> c == Some(old(self)@[0]) && final(self)@ == old(
                self,
            )@.drop_first(),
            final(self).advanced_from(*old(self)),
    {
        proof {
            use_type_invariant(&*self);
        }
        if self.pos < self.text.len() {
            let c = self.text[self.pos];
            self.pos = self.pos + 1;
            assert(self.text@.skip(self.pos as int) =~= old(self).text@.skip(
                old(self).pos as int,
            ).drop_first());
            Some(c)
        } else {
            None
        }
    }

    /// The next character of the text, if any, without taking it.
    pub fn peek(&self) -> (c: Option<char>)
        ensures
            self@.len() == 0 ==> c is None,
            self@.len() > 0 ==> c == Some(self@[0]),
    {
        proof {
            use_type_invariant(self);
        }
        if self.pos < self.text.len() {
            Some(self.text[self.pos])
        } else {
            None
        }
    }

    fn skip_line(&mut self)
        ensures
            final(self)@ == after_line(old(self)@),
            final(self).advanced_from(*old(self)),
    {
        loop
            invariant
                after_line(self@) == after_line(old(self)@),
                self.advanced_from(*old(self)),
            decreases self@.len(),
        {
            proof {
                use_type_invariant(&*self);
            }
            if let Some(c) = self.take() {
                if c == '\n' {
                    return;
                }
            } else {
                return;
            }
        }
    }

    fn read_symbol(&mut self, symstr: String) -> (o: ScmObj)
        ensures
            o@ == Datum::Symbol(symbol_text(symstr@, old(self)@)),
            final(self)@ == old(self)@.skip(symbol_run(old(self)@) as int),
            final(self).advanced_from(*old(self)),
    {
        let mut sym = symstr;
        let ghost start = old(self)@;
        let ghost prefix = sym@;
        let ghost mut k: int = 0;
        proof {
            assert(start.skip(0) =~= start);
            assert(prefix + start.take(0) =~= prefix);
        }
        loop
            invariant
                0 <= k <= start.len(),
                start == old(self)@,
                self@ == start.skip(k),
                sym@ == prefix + start.take(k),
                prefix == symstr@,
                symbol_run(start) == k + symbol_run(self@),
                self.advanced_from(*old(self)),
            decreases self@.len(),
        {
            proof {
                use_type_invariant(&*self);
            }
            if let Some(peeked) = self.peek() {
                if char_is_alphabetic(peeked) || ('0' <= peeked && peeked <= '9') {
                    self.take();
                    sym.push(peeked);
                    proof {
                        assert(start.skip(k).drop_first() =~= start.skip(k + 1));
                        assert(prefix + start.take(k + 1) =~= (prefix + start.take(k)).push(
                            peeked,
                        ));
                        k = k + 1;
                    }
                } else {
                    return ScmObj::Symbol(sym);
                }
            } else {
                return ScmObj::Symbol(sym);
            }
        }
    }

    /// Reads a number whose first character `first` was already taken.
    fn read_number(&mut self, first: char) -> (res: Result<ScmObj, ReadError>)
        ensures
            is_float_text(number_text(first, old(self)@)) ==> (res matches Ok(o) && o@
                == Datum::Numeric(number_text(first, old(self)@)) && final(self)@ == old(
                self,
            )@.skip(number_run(old(self)@) as int)),
            !is_float_text(number_text(first, old(self)@)) ==> res == Err::<ScmObj, ReadError>(
                ReadError::BadNumber,
            ),
            final(self).advanced_from(*old(self)),
    {
        let ghost start = old(self)@;
        let ghost mut k: int = 0;
        let mut numstr = String::new();
        numstr.push(first);
        let mut chars: Vec<char> = Vec::new();
        chars.push(first);
        proof {
            assert(start.skip(0) =~= start);
            assert(seq![first] + start.take(0) =~= seq![first]);
        }
        loop
            invariant
                0 <= k <= start.len(),
                start == old(self)@,
                self@ == start.skip(k),
                numstr@ == seq![first] + start.take(k),
                chars@ == numstr@,
                number_run(start) == k + number_run(self@),
                self.advanced_from(*old(self)),
            ensures
                0 <= k <= start.len(),
                self@ == start.skip(k),
                numstr@ == seq![first] + start.take(k),
                chars@ == numstr@,
                number_run(start) == k,
                self.advanced_from(*old(self)),
            decreases self@.len(),
        {
            proof {
                use_type_invariant(&*self);
            }
            let c = match self.peek() {
                Some(c) => c,
                None => break,
            };
            if ('0' <= c && c <= '9') || c == '.' || c == '~' || c == '!' || c == '@' || c == '#'
                || c == '$' || c == '%' || c == '^' || c == '&' || c == '*' || c == '-' || c
                == '_' || c == '=' || c == '+' || c == ':' || c == '/' || c == '?' || c == '<'
                || c == '>' {
                self.take();
                numstr.push(c);
                chars.push(c);
                proof {
                    assert(start.skip(k).drop_first() =~= start.skip(k + 1));
                    assert(seq![first] + start.take(k + 1) =~= (seq![first] + start.take(
                        k,
                    )).push(c));
                    k = k + 1;
                }
            } else {
                break ;
            }
        }
        if is_float_text_exec(&chars) {
            Ok(ScmObj::Numeric(numstr))
        } else {
            Err(ReadError::BadNumber)
        }
    }

    /// Reads the expression after a `'` that was already taken.
    pub fn read_quote(&mut self) -> (res: Result<ScmObj, ReadError>)
        ensures
            match read_quote_result(old(self)@) {
                Ok((d, rest)) => res matches Ok(o) && o@ == d && final(self)@ == rest,
                Err(e) => res == Err::<ScmObj, ReadError>(e),
            },
            final(self).advanced_from(*old(self)),
        decreases old(self)@.len(), 1nat,
    {
        let next_expr = self.read_token();
        match next_expr {
            Ok(ReadResult::Expression(e)) => {
                let quote = String::from_str("quote");
                proof {
                    reveal_strlit("quote");
                    assert(quote@ =~= quote_symbol());
                }
                let o = ScmObj::Cons(
                    Box::new(ScmObj::Symbol(quote)),
                    Box::new(ScmObj::Cons(Box::new(e), Box::new(ScmObj::Null))),
                );
                proof {
                    reveal_with_fuel(datum_of, 3);
                }
                Ok(o)
            },
            Ok(ReadResult::Dot) => Err(ReadError::QuotedDot),
            Ok(ReadResult::CloseParen) => Err(ReadError::QuotedCloseParen),
            Ok(ReadResult::EOF) => Err(ReadError::QuotedEof),
            Ok(ReadResult::Error(_)) => {
                proof {
                    assert(false);
                }
                Err(ReadError::QuotedEof)
            },
            Err(e) => Err(e),
        }
    }

    /// Reads the rest of a list whose `(` was already taken.
    pub fn read_list(&mut self) -> (res: Result<ScmObj, ReadError>)
        ensures
            match read_list_result(old(self)@) {
                Ok((d, rest)) => res matches Ok(o) && o@ == d && final(self)@ == rest,
                Err(e) => res == Err::<ScmObj, ReadError>(e),
            },
            final(self).advanced_from(*old(self)),
        decreases old(self)@.len(), 1nat,
    {
        proof {
            use_type_invariant(&*self);
            lemma_read_consumes(old(self)@);
        }
        if let Some(')') = self.peek() {
            self.take();
            return Ok(ScmObj::Null);
        }
        let cur = self.read_token();
        match cur {
            Ok(ReadResult::CloseParen) => Ok(ScmObj::Null),
            Ok(ReadResult::Expression(e)) => {
                proof {
                    use_type_invariant(&*self);
                }
                match self.read_list() {
                    Ok(tail) => Ok(ScmObj::Cons(Box::new(e), Box::new(tail))),
                    Err(x) => Err(x),
                }
            },
            Ok(ReadResult::Dot) => {
                proof {
                    use_type_invariant(&*self);
                }
                let improper_final = self.read_token();
                match improper_final {
                    Err(x) => Err(x),
                    Ok(improper_final) => {
                        proof {
                            use_type_invariant(&*self);
                        }
                        let close_paren = self.read_token();
                        match close_paren {
                            Err(x) => Err(x),
                            Ok(ReadResult::CloseParen) => match improper_final {
                                ReadResult::Expression(e) => Ok(e),
                                ReadResult::Dot => Err(ReadError::DotAfterDot),
                                ReadResult::CloseParen => Err(ReadError::CloseParenAfterDot),
                                ReadResult::EOF => Err(ReadError::EofAfterDot),
                                ReadResult::Error(_) => {
                                    proof {
                                        assert(false);
                                    }
                                    Err(ReadError::EofAfterDot)
                                },
                            },
                            Ok(_) => Err(ReadError::ExpectedCloseParen),
                        }
                    },
                }
            },
            Ok(ReadResult::EOF) => Err(ReadError::EofInList),
            Ok(ReadResult::Error(_)) => {
                proof {
                    assert(false);
                }
                Err(ReadError::EofInList)
            },
            Err(e) => Err(e),
        }
    }

    fn read_token(&mut self) -> (res: Result<ReadResult, ReadError>)
        ensures
            match read_expr_result(old(self)@) {
                Ok((t, rest)) => res matches Ok(r) && r.token() == Some(t) && final(self)@ == rest,
                Err(e) => res == Err::<ReadResult, ReadError>(e),
            },
            final(self).advanced_from(*old(self)),
        decreases old(self)@.len(), 0nat,
    {
        loop
            invariant
                read_expr_result(self@) == read_expr_result(old(self)@),
                self.advanced_from(*old(self)),
            decreases self@.len(),
        {
            proof {
                use_type_invariant(&*self);
                self.lemma_advanced_suffix(*old(self));
            }
            let took = self.take();
            if took.is_none() {
                return Ok(ReadResult::EOF);
            }
            let c = took.unwrap();
            proof {
                use_type_invariant(&*self);
            }
            let ghost after_take = *self;
            if c == ' ' || c == '\n' || c == '\t' || c == '\r' {
            } else if c == ';' {
                self.skip_line();
                proof {
                    use_type_invariant(&*self);
                    self.lemma_advanced_suffix(after_take);
                    lemma_after_line_len(after_take@);
                }
            } else if c == '(' {
                return match self.read_list() {
                    Ok(l) => Ok(ReadResult::Expression(l)),
                    Err(e) => Err(e),
                };
            } else if c == ')' {
                return Ok(ReadResult::CloseParen);
            } else if '0' <= c && c <= '9' {
                return match self.read_number(c) {
                    Ok(n) => Ok(ReadResult::Expression(n)),
                    Err(e) => Err(e),
                };
            } else if c == '-' {
                let peeked_opt = self.peek();
                if let Some(peeked) = peeked_opt {
                    if ('0' <= peeked && peeked <= '9') || peeked == '.' {
                        return match self.read_number(c) {
                            Ok(n) => Ok(ReadResult::Expression(n)),
                            Err(e) => Err(e),
                        };
                    } else {
                        let mut symstr = String::new();
                        symstr.push(c);
                        return Ok(ReadResult::Expression(self.read_symbol(symstr)));
                    }
                } else {
                    let minus = String::from_str("-");
                    proof {
                        reveal_strlit("-");
                        assert(minus@ =~= seq!['-']);
                    }
                    return Ok(ReadResult::Expression(ScmObj::Symbol(minus)));
                }
            } else if c == '.' {
                let peeked_opt = self.peek();
                if let Some(peeked) = peeked_opt {
                    if '0' <= peeked && peeked <= '9' {
                        return match self.read_number(c) {
                            Ok(n) => Ok(ReadResult::Expression(n)),
                            Err(e) => Err(e),
                        };
                    } else {
                        return Ok(ReadResult::Dot);
                    }
                } else {
                    return Err(ReadError::DotAtEof);
                }
            } else if c == '\'' {
                return match self.read_quote() {
                    Ok(q) => Ok(ReadResult::Expression(q)),
                    Err(e) => Err(e),
                };
            } else if ('<' <= c && c <= 'Z') || ('a' <= c && c <= 'z') || c == '~' || c == '!'
                || c == '#' || c == '$' || c == '%' || c == '^' || c == '&' || c == '*' || c
                == '_' || c == '+' || c == ':' || c == '/' {
                let mut symstr = String::new();
                symstr.push(c);
                return Ok(ReadResult::Expression(self.read_symbol(symstr)));
            } else {
                let unknown = String::from_str("TODO_ELSE");
                proof {
                    reveal_strlit("TODO_ELSE");
                    assert(unknown@ =~= unknown_symbol());
                }
                return Ok(ReadResult::Expression(ScmObj::Symbol(unknown)));
            }
        }
    }

    /// Reads the next expression, or `)`, `.`, or the end of the text, and
    /// consumes the text it read. Returns `Err` on the malformed text on
    /// which `read_expr` cannot be called.
    pub fn try_read_expr(&mut self) -> (res: Result<ReadResult, ReadError>)
        ensures
            match read_expr_result(old(self)@) {
                Ok((t, rest)) => res matches Ok(r) && r.token() == Some(t) && final(self)@ == rest,
                Err(e) => res == Err::<ReadResult, ReadError>(e),
            },
            is_suffix(old(self)@, final(self)@),
    {
        let res = self.read_token();
        proof {
            use_type_invariant(&*self);
            self.lemma_advanced_suffix(*old(self));
        }
        res
    }

    /// Reads the next expression, or `)`, `.`, or the end of the text, and
    /// consumes the text it read.
    pub fn read_expr(&mut self) -> (res: ReadResult)
        requires
            read_expr_result(old(self)@) is Ok,
        ensures
            read_expr_result(old(self)@) matches Ok((t, rest)) && res.token() == Some(t)
                && final(self)@ == rest,
    {
        match self.try_read_expr() {
            Ok(r) => r,
            Err(_) => {
                proof {
                    assert(false);
                }
                ReadResult::EOF
            },
        }
    }
}

} // verus!
