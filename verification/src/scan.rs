//! Character classes and token-level rules shared by the two readers
//! (`read` and `parse`): what counts as whitespace, where a symbol or a
//! number ends, how a comment is skipped, and which number texts are valid.
use vstd::prelude::*;

verus! {

/// Whether `c` has the Unicode `Alphabetic` property (std's `char::is_alphabetic`).
pub uninterp spec fn is_alphabetic(c: char) -> bool;

/// Calls std's `char::is_alphabetic`. The contract ties its result to the
/// name `is_alphabetic` and states it for ASCII characters, where exactly the
/// letters are alphabetic; the Unicode tables beyond ASCII are not restated.
#[verifier::external_body]
pub(crate) fn char_is_alphabetic(c: char) -> (b: bool)
    ensures
        b == is_alphabetic(c),
        c <= '\u{7f}' ==> (b <==> (('a' <= c && c <= 'z') || ('A' <= c && c <= 'Z'))),
{
    c.is_alphabetic()
}

/// Appending one character to a `String` extends its character sequence by it.
pub assume_specification[ String::push ](string: &mut String, ch: char)
    ensures
        final(string)@ == old(string)@.push(ch),
;

/// Whitespace that the readers skip between expressions.
pub open spec fn is_space(c: char) -> bool {
    c == ' ' || c == '\n' || c == '\t' || c == '\r'
}

/// A decimal digit (`char::is_digit(10)`).
pub open spec fn is_digit(c: char) -> bool {
    '0' <= c && c <= '9'
}

/// Alphabetic characters: among ASCII characters the letters, beyond ASCII
/// those with the Unicode `Alphabetic` property.
pub open spec fn is_letter(c: char) -> bool {
    if c <= '\u{7f}' {
        ('a' <= c && c <= 'z') || ('A' <= c && c <= 'Z')
    } else {
        is_alphabetic(c)
    }
}

/// Characters that may continue a symbol once it has started.
pub open spec fn is_symbol_char(c: char) -> bool {
    is_letter(c) || is_digit(c)
}

/// Characters that may continue a number once it has started.
pub open spec fn is_number_char(c: char) -> bool {
    is_digit(c) || c == '.' || c == '~' || c == '!' || c == '@' || c == '#' || c == '$'
        || c == '%' || c == '^' || c == '&' || c == '*' || c == '-' || c == '_' || c == '='
        || c == '+' || c == ':' || c == '/' || c == '?' || c == '<' || c == '>'
}

/// Characters that start a symbol (other than `-`, which may also start a number).
pub open spec fn is_symbol_start(c: char) -> bool {
    ('<' <= c && c <= 'Z') || ('a' <= c && c <= 'z') || c == '~' || c == '!' || c == '#'
        || c == '$' || c == '%' || c == '^' || c == '&' || c == '*' || c == '_' || c == '+'
        || c == ':' || c == '/'
}

/// The text left after a comment: everything after the first newline,
/// or nothing when there is no newline.
pub open spec fn after_line(s: Seq<char>) -> Seq<char>
    decreases s.len(),
{
    if s.len() == 0 {
        s
    } else if s[0] == '\n' {
        s.drop_first()
    } else {
        after_line(s.drop_first())
    }
}

/// Length of the longest prefix of `s` made of symbol characters.
pub open spec fn symbol_run(s: Seq<char>) -> nat
    decreases s.len(),
{
    if s.len() > 0 && is_symbol_char(s[0]) {
        1 + symbol_run(s.drop_first())
    } else {
        0
    }
}

/// Length of the longest prefix of `s` made of number characters.
pub open spec fn number_run(s: Seq<char>) -> nat
    decreases s.len(),
{
    if s.len() > 0 && is_number_char(s[0]) {
        1 + number_run(s.drop_first())
    } else {
        0
    }
}

/// Whether a number text that the readers collected is accepted by
/// `f64`'s `FromStr`. Collected texts start with a digit, `-` or `.` and hold
/// only number characters; among those, the accepted ones are an optional
/// leading `-` followed by digits with at most one `.` and at least one digit.
pub open spec fn is_float_text(t: Seq<char>) -> bool {
    if t.len() > 0 && t[0] == '-' {
        is_unsigned_float_text(t.drop_first())
    } else {
        is_unsigned_float_text(t)
    }
}

/// Digits with at most one `.` and at least one digit.
pub open spec fn is_unsigned_float_text(u: Seq<char>) -> bool {
    &&& forall|i: int| 0 <= i < u.len() ==> is_digit(#[trigger] u[i]) || u[i] == '.'
    &&& forall|i: int, j: int| #![trigger u[i], u[j]] 0 <= i < j < u.len() && u[i] == '.' ==> u[j] != '.'
    &&& exists|i: int| 0 <= i < u.len() && is_digit(#[trigger] u[i])
}

/// What the readers stop on where a fuller reader would report an error.
#[derive(Debug, Clone, Copy, PartialEq, Eq)]
pub enum ReadError {
    /// A quote followed by a `.`.
    QuotedDot,
    /// A quote followed by a `)`.
    QuotedCloseParen,
    /// A quote at the end of the text.
    QuotedEof,
    /// The element after a `.` in a list is itself a `.`.
    DotAfterDot,
    /// The element after a `.` in a list is a `)`.
    CloseParenAfterDot,
    /// The text ends right after a `.` in a list.
    EofAfterDot,
    /// The element after a `.` in a list is not followed by `)`.
    ExpectedCloseParen,
    /// The text ends inside a list.
    EofInList,
    /// A number text that `f64` does not accept.
    BadNumber,
    /// A `.` as the last character of the text.
    DotAtEof,
}

/// What one call of a reader's `read_expr` finds, over a view `D` of the
/// expressions that it builds.
pub enum Token<D> {
    /// A complete expression.
    Expression(D),
    /// A `)` that closes a list.
    CloseParen,
    /// A `.` that marks the last element of an improper list.
    Dot,
    /// The end of the text.
    Eof,
}

/// The text of a symbol that starts with `start` and continues into `s`.
pub open spec fn symbol_text(start: Seq<char>, s: Seq<char>) -> Seq<char> {
    start + s.take(symbol_run(s) as int)
}

/// The text of a number whose first character is `first` and that continues into `s`.
pub open spec fn number_text(first: char, s: Seq<char>) -> Seq<char> {
    seq![first] + s.take(number_run(s) as int)
}

pub proof fn lemma_after_line_len(s: Seq<char>)
    ensures
        after_line(s).len() <= s.len(),
        s.skip(s.len() - after_line(s).len()) == after_line(s),
    decreases s.len(),
{
    if s.len() > 0 && s[0] != '\n' {
        lemma_after_line_len(s.drop_first());
        assert(s.skip(s.len() - after_line(s).len()) =~= s.drop_first().skip(
            s.drop_first().len() - after_line(s).len(),
        ));
    }
    if s.len() == 0 {
        assert(s.skip(0) =~= s);
    }
}

pub proof fn lemma_symbol_run_len(s: Seq<char>)
    ensures
        symbol_run(s) <= s.len(),
    decreases s.len(),
{
    if s.len() > 0 && is_symbol_char(s[0]) {
        lemma_symbol_run_len(s.drop_first());
    }
}

pub proof fn lemma_number_run_len(s: Seq<char>)
    ensures
        number_run(s) <= s.len(),
    decreases s.len(),
{
    if s.len() > 0 && is_number_char(s[0]) {
        lemma_number_run_len(s.drop_first());
    }
}

/// A comment runs to the end of its line: after a line without newlines
/// and its newline, the text goes on with what follows.
pub proof fn lemma_after_line_skips(line: Seq<char>, s: Seq<char>)
    requires
        forall|i: int| 0 <= i < line.len() ==> line[i] != '\n',
    ensures
        after_line(line + seq!['\n'] + s) == s,
    decreases line.len(),
{
    let t = line + seq!['\n'] + s;
    if line.len() == 0 {
        assert(t.drop_first() =~= s);
    } else {
        assert(t.drop_first() =~= line.drop_first() + seq!['\n'] + s);
        lemma_after_line_skips(line.drop_first(), s);
    }
}

/// A comment without a newline runs to the end of the text.
pub proof fn lemma_after_line_to_end(line: Seq<char>)
    requires
        forall|i: int| 0 <= i < line.len() ==> line[i] != '\n',
    ensures
        after_line(line) == Seq::<char>::empty(),
    decreases line.len(),
{
    if line.len() > 0 {
        lemma_after_line_to_end(line.drop_first());
    }
}

/// `s` with its character at `j` written twice.
pub open spec fn blank_doubled_at(s: Seq<char>, j: int) -> Seq<char> {
    s.take(j + 1) + s.skip(j)
}

/// `s` with the character `c` put in before its character at `j`.
pub open spec fn blank_inserted_at(s: Seq<char>, j: int, c: char) -> Seq<char> {
    s.take(j) + seq![c] + s.skip(j)
}

/// Where a blank `c` may go into `s` without joining or splitting a token:
/// before a character that continues no symbol and no number; a newline,
/// which would end a comment, only before another newline.
pub open spec fn blank_fits_at(s: Seq<char>, j: int, c: char) -> bool {
    &&& 0 <= j < s.len()
    &&& is_space(c)
    &&& !is_symbol_char(s[j])
    &&& !is_number_char(s[j])
    &&& (c == '\n' ==> s[j] == '\n')
}

/// `s` with the character `c` put in front of it.
pub open spec fn with_first(c: char, s: Seq<char>) -> Seq<char> {
    seq![c] + s
}

/// `t` is `s`, or `s` with one more blank where a blank fits, or `s` after
/// one more blank.
pub open spec fn differ_by_blank(s: Seq<char>, t: Seq<char>) -> bool {
    ||| t == s
    ||| exists|j: int, c: char| blank_fits_at(s, j, c) && t == #[trigger] blank_inserted_at(s, j, c)
    ||| exists|c: char| is_space(c) && t == #[trigger] with_first(c, s)
}

/// Two readings of texts that differ by a blank agree: the same error, or the
/// same result with what is left differing by a blank.
pub open spec fn same_reading<T>(
    a: Result<(T, Seq<char>), ReadError>,
    b: Result<(T, Seq<char>), ReadError>,
) -> bool {
    match a {
        Ok((x, r)) => match b {
            Ok((y, r2)) => x == y && differ_by_blank(r, r2),
            Err(_) => false,
        },
        Err(e) => b == Err::<(T, Seq<char>), ReadError>(e),
    }
}

pub proof fn lemma_same_reading_refl<T>(a: Result<(T, Seq<char>), ReadError>)
    ensures
        same_reading(a, a),
{
}

/// A blank is neither a symbol nor a number character.
pub proof fn lemma_blank_ends_tokens(c: char)
    requires
        is_space(c),
    ensures
        !is_symbol_char(c),
        !is_number_char(c),
{
}

/// Writing a blank twice is putting in a copy of it where it stands.
pub proof fn lemma_doubled_is_inserted(s: Seq<char>, j: int)
    requires
        0 <= j < s.len(),
        is_space(s[j]),
    ensures
        blank_fits_at(s, j, s[j]),
        blank_doubled_at(s, j) == blank_inserted_at(s, j, s[j]),
{
    assert(blank_doubled_at(s, j) =~= blank_inserted_at(s, j, s[j]));
}

pub proof fn lemma_inserted_shape(s: Seq<char>, j: int, c: char)
    requires
        0 <= j < s.len(),
    ensures
        blank_inserted_at(s, j, c).len() == s.len() + 1,
        blank_inserted_at(s, j, c)[j] == c,
        j == 0 ==> blank_inserted_at(s, j, c) == with_first(c, s),
        j > 0 ==> blank_inserted_at(s, j, c)[0] == s[0],
        j > 0 ==> blank_inserted_at(s, j, c).drop_first() == blank_inserted_at(
            s.drop_first(),
            j - 1,
            c,
        ),
        j > 0 ==> s.drop_first()[j - 1] == s[j],
        forall|i: int| 0 <= i < j ==> #[trigger] blank_inserted_at(s, j, c)[i] == s[i],
{
    let t = blank_inserted_at(s, j, c);
    if j == 0 {
        assert(t =~= with_first(c, s));
    } else {
        assert(t.drop_first() =~= blank_inserted_at(s.drop_first(), j - 1, c));
    }
}

pub proof fn lemma_inserted_split(s: Seq<char>, j: int, c: char, n: int)
    requires
        0 <= n <= j < s.len(),
    ensures
        blank_inserted_at(s, j, c).take(n) == s.take(n),
        blank_inserted_at(s, j, c).skip(n) == blank_inserted_at(s.skip(n), j - n, c),
        s.skip(n)[j - n] == s[j],
{
    assert(blank_inserted_at(s, j, c).take(n) =~= s.take(n));
    assert(blank_inserted_at(s, j, c).skip(n) =~= blank_inserted_at(s.skip(n), j - n, c));
}

/// A run of symbol characters ends at the first other character, so two
/// texts that agree before `k` and have no symbol character at `k` have the
/// same run.
pub proof fn lemma_symbol_run_stop(a: Seq<char>, b: Seq<char>, k: int)
    requires
        0 <= k < a.len(),
        k < b.len(),
        forall|i: int| 0 <= i < k ==> a[i] == b[i],
        !is_symbol_char(a[k]),
        !is_symbol_char(b[k]),
    ensures
        symbol_run(a) == symbol_run(b),
        symbol_run(a) <= k,
    decreases k,
{
    if k > 0 && is_symbol_char(a[0]) {
        lemma_symbol_run_stop(a.drop_first(), b.drop_first(), k - 1);
    }
}

/// A run of number characters ends at the first other character, so two
/// texts that agree before `k` and have no number character at `k` have the
/// same run.
pub proof fn lemma_number_run_stop(a: Seq<char>, b: Seq<char>, k: int)
    requires
        0 <= k < a.len(),
        k < b.len(),
        forall|i: int| 0 <= i < k ==> a[i] == b[i],
        !is_number_char(a[k]),
        !is_number_char(b[k]),
    ensures
        number_run(a) == number_run(b),
        number_run(a) <= k,
    decreases k,
{
    if k > 0 && is_number_char(a[0]) {
        lemma_number_run_stop(a.drop_first(), b.drop_first(), k - 1);
    }
}

/// What follows a comment changes at most by the blank put in.
pub proof fn lemma_after_line_inserted(r: Seq<char>, j: int, c: char)
    requires
        blank_fits_at(r, j, c),
    ensures
        differ_by_blank(after_line(r), after_line(blank_inserted_at(r, j, c))),
    decreases r.len(),
{
    let t = blank_inserted_at(r, j, c);
    lemma_inserted_shape(r, j, c);
    if j == 0 {
        assert(t.drop_first() =~= r);
        if c == '\n' {
            assert(r =~= with_first('\n', r.drop_first()));
        }
    } else if r[0] == '\n' {
        assert(after_line(t) == blank_inserted_at(after_line(r), j - 1, c));
    } else {
        lemma_after_line_inserted(r.drop_first(), j - 1, c);
    }
}

/// The character classes of the readers: the blanks they skip, the decimal
/// digits, what continues a symbol (letters and digits), what continues a
/// number, and what starts a symbol.
pub proof fn law_char_classes(c: char)
    ensures
        is_space(c) <==> (c == ' ' || c == '\n' || c == '\t' || c == '\r'),
        is_digit(c) <==> ('0' <= c && c <= '9'),
        is_symbol_char(c) <==> (('a' <= c && c <= 'z') || ('A' <= c && c <= 'Z') || ('0' <= c
            && c <= '9') || (c > '\u{7f}' && is_alphabetic(c))),
        is_number_char(c) <==> (('0' <= c && c <= '9') || c == '.' || c == '~' || c == '!' || c
            == '@' || c == '#' || c == '$' || c == '%' || c == '^' || c == '&' || c == '*' || c
            == '-' || c == '_' || c == '=' || c == '+' || c == ':' || c == '/' || c == '?' || c
            == '<' || c == '>'),
        is_symbol_start(c) <==> (('<' <= c && c <= 'Z') || ('a' <= c && c <= 'z') || c == '~'
            || c == '!' || c == '#' || c == '$' || c == '%' || c == '^' || c == '&' || c == '*'
            || c == '_' || c == '+' || c == ':' || c == '/'),
{
}

/// `symbol_run(s)` is the length of the longest prefix of `s` made of
/// symbol characters.
pub proof fn law_symbol_run(s: Seq<char>)
    ensures
        symbol_run(s) <= s.len(),
        forall|i: int| 0 <= i < symbol_run(s) ==> is_symbol_char(#[trigger] s[i]),
        symbol_run(s) < s.len() ==> !is_symbol_char(s[symbol_run(s) as int]),
    decreases s.len(),
{
    if s.len() > 0 && is_symbol_char(s[0]) {
        let r = s.drop_first();
        law_symbol_run(r);
        assert forall|i: int| 0 <= i < symbol_run(s) implies is_symbol_char(#[trigger] s[i]) by {
            if i > 0 {
                assert(s[i] == r[i - 1]);
            }
        }
        if symbol_run(s) < s.len() {
            assert(s[symbol_run(s) as int] == r[symbol_run(r) as int]);
        }
    }
}

/// `number_run(s)` is the length of the longest prefix of `s` made of
/// number characters.
pub proof fn law_number_run(s: Seq<char>)
    ensures
        number_run(s) <= s.len(),
        forall|i: int| 0 <= i < number_run(s) ==> is_number_char(#[trigger] s[i]),
        number_run(s) < s.len() ==> !is_number_char(s[number_run(s) as int]),
    decreases s.len(),
{
    if s.len() > 0 && is_number_char(s[0]) {
        let r = s.drop_first();
        law_number_run(r);
        assert forall|i: int| 0 <= i < number_run(s) implies is_number_char(#[trigger] s[i]) by {
            if i > 0 {
                assert(s[i] == r[i - 1]);
            }
        }
        if number_run(s) < s.len() {
            assert(s[number_run(s) as int] == r[number_run(r) as int]);
        }
    }
}

/// A number text is accepted exactly when, after an optional leading `-`, it
/// is made of decimal digits and at most one `.`, with at least one digit.
/// Which digit comes first plays no part: `0.5`, `007`, `.5` and `5.` are
/// all accepted, as `f64`'s `FromStr` accepts them.
pub proof fn law_float_text_shape(t: Seq<char>, u: Seq<char>)
    requires
        u == (if t.len() > 0 && t[0] == '-' {
            t.drop_first()
        } else {
            t
        }),
    ensures
        is_float_text(t) <==> {
            &&& forall|i: int| 0 <= i < u.len() ==> ('0' <= #[trigger] u[i] && u[i] <= '9') || u[i] == '.'
            &&& forall|i: int, j: int| #![trigger u[i], u[j]] 0 <= i < j < u.len() && u[i] == '.' ==> u[j] != '.'
            &&& exists|i: int| 0 <= i < u.len() && '0' <= #[trigger] u[i] && u[i] <= '9'
        },
{
}

/// Decides `is_float_text` on a collected number text.
pub fn is_float_text_exec(t: &Vec<char>) -> (b: bool)
    ensures
        b == is_float_text(t@),
{
    let start: usize = if t.len() > 0 && t[0] == '-' {
        1
    } else {
        0
    };
    let ghost u = if t@.len() > 0 && t@[0] == '-' {
        t@.drop_first()
    } else {
        t@
    };
    assert(u =~= t@.skip(start as int));
    let mut seen_dot = false;
    let mut seen_digit = false;
    let mut i: usize = start;
    while i < t.len()
        invariant
            start <= i <= t.len(),
            u == t@.skip(start as int),
            u == (if t@.len() > 0 && t@[0] == '-' {
                t@.drop_first()
            } else {
                t@
            }),
            forall|k: int| 0 <= k < i - start ==> is_digit(#[trigger] u[k]) || u[k] == '.',
            forall|k: int, l: int|
                #![trigger u[k], u[l]]
                0 <= k < l < i - start && u[k] == '.' ==> u[l] != '.',
            seen_dot <==> exists|k: int| 0 <= k < i - start && #[trigger] u[k] == '.',
            seen_digit <==> exists|k: int| 0 <= k < i - start && is_digit(#[trigger] u[k]),
        decreases t.len() - i,
    {
        let c = t[i];
        assert(u[i - start] == c);
        if '0' <= c && c <= '9' {
            seen_digit = true;
        } else if c == '.' {
            if seen_dot {
                let ghost k = choose|k: int| 0 <= k < i - start && #[trigger] u[k] == '.';
                assert(u[k] == '.' && u[i - start] == '.');
                return false;
            }
            seen_dot = true;
        } else {
            assert(!(is_digit(u[i - start]) || u[i - start] == '.'));
            return false;
        }
        i = i + 1;
    }
    seen_digit
}

/// `r` is what is left of `s` after a prefix of it was consumed.
pub open spec fn is_suffix(s: Seq<char>, r: Seq<char>) -> bool {
    r.len() <= s.len() && r == s.skip(s.len() - r.len())
}

pub open spec fn quote_symbol() -> Seq<char> {
    seq!['q', 'u', 'o', 't', 'e']
}

pub proof fn lemma_suffix_trans(s: Seq<char>, r: Seq<char>, q: Seq<char>)
    requires
        is_suffix(s, r),
        is_suffix(r, q),
    ensures
        is_suffix(s, q),
{
    assert(s.skip(s.len() - r.len()).skip(r.len() - q.len()) =~= s.skip(s.len() - q.len()));
}

pub proof fn lemma_skip_suffix(s: Seq<char>, k: int)
    requires
        0 <= k <= s.len(),
    ensures
        is_suffix(s, s.skip(k)),
{
}

} // verus!
