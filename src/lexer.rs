//! Splits Gram text into tokens; whitespace and `//` comments separate
//! tokens and are dropped.
use vstd::prelude::*;

verus! {

/// Kinds of token.
#[derive(Debug, Clone, Copy, PartialEq, Eq, Structural)]
pub enum TokenKind {
    LParen,
    RParen,
    LBracket,
    RBracket,
    LBrace,
    RBrace,
    Colon,
    Pipe,
    Comma,
    At,
    /// `-->`
    ArrowRight,
    /// `<--`
    ArrowLeft,
    /// `<-->`
    ArrowBoth,
    /// `~~`
    ArrowSquiggle,
    /// `-[`
    OpenRight,
    /// `<-[`
    OpenLeft,
    /// `~[`
    OpenSquiggle,
    /// `]->`
    CloseRight,
    /// `]-`
    CloseLeft,
    /// `]~`
    CloseSquiggle,
    Ident,
    Str,
    Integer,
    Decimal,
    /// A string literal without its closing quote.
    Unterminated,
    /// A character that starts no token.
    Invalid,
}

/// A token: its kind and the characters `start..end` of the input.
#[derive(Debug, Clone, Copy, PartialEq, Eq, Structural)]
pub struct Token {
    pub kind: TokenKind,
    pub start: usize,
    pub end: usize,
}

/// White space, as Unicode's `White_Space` property gives it.
pub open spec fn is_space(c: char) -> bool {
    let u = c as u32;
    (0x09 <= u <= 0x0d) || u == 0x20 || u == 0x85 || u == 0xa0 || u == 0x1680 || (0x2000 <= u
        <= 0x200a) || u == 0x2028 || u == 0x2029 || u == 0x202f || u == 0x205f || u == 0x3000
}

/// Every character is whitespace.
pub open spec fn all_space(s: Seq<char>) -> bool {
    forall|i: int| 0 <= i < s.len() ==> is_space(#[trigger] s[i])
}

/// Position of the first newline at or after `i`, or the end of `s`.
pub open spec fn line_end(s: Seq<char>, i: int) -> int
    decreases s.len() - i,
{
    if i < 0 || i >= s.len() || s[i] == '\n' {
        i
    } else {
        line_end(s, i + 1)
    }
}

/// From `i` on, `s` holds only whitespace and `//` comments.
pub open spec fn blank_from(s: Seq<char>, i: int) -> bool
    decreases s.len() - i, 1int,
{
    if i < 0 || i >= s.len() {
        true
    } else if is_space(s[i]) {
        blank_from(s, i + 1)
    } else if s[i] == '/' && i + 1 < s.len() && s[i + 1] == '/' {
        blank_from_line_end(s, i + 2)
    } else {
        false
    }
}

/// `blank_from` at the end of the line that holds position `i`.
pub open spec fn blank_from_line_end(s: Seq<char>, i: int) -> bool
    decreases s.len() - i, 0int,
{
    if i < 0 || i >= s.len() {
        true
    } else if s[i] == '\n' {
        blank_from(s, i + 1)
    } else {
        blank_from_line_end(s, i + 1)
    }
}

/// `s` holds only whitespace and `//` comments.
pub open spec fn blank(s: Seq<char>) -> bool {
    blank_from(s, 0)
}

pub open spec fn is_digit(c: char) -> bool {
    '0' <= c <= '9'
}

pub open spec fn is_ident_start(c: char) -> bool {
    ('a' <= c <= 'z') || ('A' <= c <= 'Z') || c == '_'
}

pub open spec fn is_ident_char(c: char) -> bool {
    is_ident_start(c) || is_digit(c)
}

/// A non-empty run of identifier characters that does not start with a digit.
pub open spec fn is_identifier(s: Seq<char>) -> bool {
    &&& s.len() > 0
    &&& is_ident_start(s[0])
    &&& forall|i: int| 0 <= i < s.len() ==> is_ident_char(#[trigger] s[i])
}

/// Tokens lie inside the input, in order, without overlapping; identifier
/// tokens hold identifiers.
pub open spec fn tokens_wf(s: Seq<char>, toks: Seq<Token>) -> bool {
    &&& forall|k: int|
        0 <= k < toks.len() ==> #[trigger] toks[k].start < toks[k].end <= s.len()
    &&& forall|k: int|
        0 <= k < toks.len() && toks[k].kind == TokenKind::Ident ==> is_identifier(
            s.subrange(#[trigger] toks[k].start as int, toks[k].end as int),
        )
    &&& forall|k: int| 0 < k < toks.len() ==> toks[k - 1].end <= #[trigger] toks[k].start
    &&& forall|k: int|
        0 <= k < toks.len() && #[trigger] toks[k].kind == TokenKind::Str ==> toks[k].start + 2
            <= toks[k].end
    &&& forall|k: int|
        0 <= k < toks.len() && #[trigger] toks[k].kind == TokenKind::Decimal ==> decimal_form(
            s.subrange(toks[k].start as int, toks[k].end as int),
        )
}

pub fn space_char(c: char) -> (r: bool)
    ensures
        r == is_space(c),
{
    let u = c as u32;
    (0x09 <= u && u <= 0x0d) || u == 0x20 || u == 0x85 || u == 0xa0 || u == 0x1680 || (0x2000
        <= u && u <= 0x200a) || u == 0x2028 || u == 0x2029 || u == 0x202f || u == 0x205f || u
        == 0x3000
}

pub fn digit_char(c: char) -> (r: bool)
    ensures
        r == is_digit(c),
{
    '0' <= c && c <= '9'
}

pub fn ident_start_char(c: char) -> (r: bool)
    ensures
        r == is_ident_start(c),
{
    ('a' <= c && c <= 'z') || ('A' <= c && c <= 'Z') || c == '_'
}

pub fn ident_char(c: char) -> (r: bool)
    ensures
        r == is_ident_char(c),
{
    ident_start_char(c) || digit_char(c)
}

/// The end of the run of digits that starts at `i`.
pub open spec fn digits_end(s: Seq<char>, i: int) -> int
    decreases s.len() - i,
{
    if 0 <= i < s.len() && is_digit(s[i]) {
        digits_end(s, i + 1)
    } else {
        i
    }
}

/// `s` is a decimal literal: an optional `-`, digits, `.`, digits, and an
/// optional exponent `e` or `E`, optional sign, digits.
pub open spec fn decimal_form(s: Seq<char>) -> bool {
    let a: int = if s.len() > 0 && s[0] == '-' {
        1
    } else {
        0
    };
    let b = digits_end(s, a);
    let c = digits_end(s, b + 1);
    let d: int = if c + 1 < s.len() && (s[c + 1] == '+' || s[c + 1] == '-') {
        c + 2
    } else {
        c + 1
    };
    let e = digits_end(s, d);
    &&& b > a
    &&& b < s.len()
    &&& s[b] == '.'
    &&& c > b + 1
    &&& (c == s.len() || ((s[c] == 'e' || s[c] == 'E') && e > d && e == s.len()))
}

/// Scanning digits inside `s[lo..hi]` ends where scanning `s` does, when
/// that is within `hi`.
proof fn lemma_digits_end_sub(s: Seq<char>, lo: int, hi: int, j: int)
    requires
        0 <= lo <= j <= hi <= s.len(),
        digits_end(s, j) <= hi,
    ensures
        digits_end(s.subrange(lo, hi), j - lo) == digits_end(s, j) - lo,
    decreases hi - j,
{
    let sub = s.subrange(lo, hi);
    lemma_digits_end_bounds(s, j);
    if j < hi && is_digit(s[j]) {
        assert(sub[j - lo] == s[j]);
        lemma_digits_end_sub(s, lo, hi, j + 1);
    } else if j < hi {
        assert(sub[j - lo] == s[j]);
    }
}

proof fn lemma_digits_end_bounds(s: Seq<char>, i: int)
    requires
        0 <= i <= s.len(),
    ensures
        i <= digits_end(s, i) <= s.len(),
    decreases s.len() - i,
{
    if i < s.len() && is_digit(s[i]) {
        lemma_digits_end_bounds(s, i + 1);
    }
}

/// Position after the digits that start at `i`.
pub fn scan_digits(s: &Vec<char>, i: usize) -> (r: usize)
    requires
        i <= s.len(),
    ensures
        r == digits_end(s@, i as int),
        i <= r <= s.len(),
{
    let mut j = i;
    proof {
        lemma_digits_end_bounds(s@, i as int);
    }
    while j < s.len() && digit_char(s[j])
        invariant
            i <= j <= s.len(),
            digits_end(s@, i as int) == digits_end(s@, j as int),
        decreases s.len() - j,
    {
        j = j + 1;
    }
    j
}

/// Position after the identifier characters that start at `i`.
fn scan_ident(s: &Vec<char>, i: usize) -> (r: usize)
    requires
        i <= s.len(),
    ensures
        i <= r <= s.len(),
        forall|k: int| i <= k < r ==> is_ident_char(#[trigger] s@[k]),
        r == s.len() || !is_ident_char(s@[r as int]),
        r == ident_end(s@, i as int),
{
    let mut j = i;
    while j < s.len() && ident_char(s[j])
        invariant
            i <= j <= s.len(),
            ident_end(s@, i as int) == ident_end(s@, j as int),
            forall|k: int| i <= k < j ==> is_ident_char(#[trigger] s@[k]),
        decreases s.len() - j,
    {
        j = j + 1;
    }
    j
}

/// `s[j]` exists and is `c`.
pub open spec fn char_at(s: Seq<char>, j: int, c: char) -> bool {
    0 <= j < s.len() && s[j] == c
}

/// End of the run of identifier characters that starts at `i`.
pub open spec fn ident_end(s: Seq<char>, i: int) -> int
    decreases s.len() - i,
{
    if 0 <= i < s.len() && is_ident_char(s[i]) {
        ident_end(s, i + 1)
    } else {
        i
    }
}

/// Kind and end of a string literal whose body is scanned from `j`.
pub open spec fn string_token(s: Seq<char>, j: int) -> (TokenKind, int)
    decreases s.len() - j,
{
    if j < 0 || j >= s.len() {
        (TokenKind::Unterminated, s.len() as int)
    } else if s[j] == '"' {
        (TokenKind::Str, j + 1)
    } else if s[j] == '\\' && j + 1 < s.len() {
        string_token(s, j + 2)
    } else {
        string_token(s, j + 1)
    }
}

/// Kind and end of the punctuation or arrow token at `i`.
pub open spec fn symbol_token(s: Seq<char>, i: int) -> (TokenKind, int) {
    let c = s[i];
    let n = i + 1;
    if c == '(' {
        (TokenKind::LParen, n)
    } else if c == ')' {
        (TokenKind::RParen, n)
    } else if c == '[' {
        (TokenKind::LBracket, n)
    } else if c == '{' {
        (TokenKind::LBrace, n)
    } else if c == '}' {
        (TokenKind::RBrace, n)
    } else if c == ':' {
        (TokenKind::Colon, n)
    } else if c == '|' {
        (TokenKind::Pipe, n)
    } else if c == ',' {
        (TokenKind::Comma, n)
    } else if c == '@' {
        (TokenKind::At, n)
    } else if c == ']' {
        if char_at(s, n, '-') && char_at(s, n + 1, '>') {
            (TokenKind::CloseRight, n + 2)
        } else if char_at(s, n, '-') {
            (TokenKind::CloseLeft, n + 1)
        } else if char_at(s, n, '~') {
            (TokenKind::CloseSquiggle, n + 1)
        } else {
            (TokenKind::RBracket, n)
        }
    } else if c == '-' {
        if char_at(s, n, '-') && char_at(s, n + 1, '>') {
            (TokenKind::ArrowRight, n + 2)
        } else if char_at(s, n, '[') {
            (TokenKind::OpenRight, n + 1)
        } else {
            (TokenKind::Invalid, n)
        }
    } else if c == '<' {
        if char_at(s, n, '-') && char_at(s, n + 1, '-') && char_at(s, n + 2, '>') {
            (TokenKind::ArrowBoth, n + 3)
        } else if char_at(s, n, '-') && char_at(s, n + 1, '-') {
            (TokenKind::ArrowLeft, n + 2)
        } else if char_at(s, n, '-') && char_at(s, n + 1, '[') {
            (TokenKind::OpenLeft, n + 2)
        } else {
            (TokenKind::Invalid, n)
        }
    } else if c == '~' {
        if char_at(s, n, '~') {
            (TokenKind::ArrowSquiggle, n + 1)
        } else if char_at(s, n, '[') {
            (TokenKind::OpenSquiggle, n + 1)
        } else {
            (TokenKind::Invalid, n)
        }
    } else {
        (TokenKind::Invalid, n)
    }
}

/// Kind and end of the number at `i`: digits with an optional sign, and a
/// fraction and exponent that make it a decimal.
pub open spec fn number_token(s: Seq<char>, i: int) -> (TokenKind, int) {
    let a = if s[i] == '-' {
        i + 1
    } else {
        i
    };
    let b = digits_end(s, a);
    let c = digits_end(s, b + 1);
    let d = if char_at(s, c + 1, '+') || char_at(s, c + 1, '-') {
        c + 2
    } else {
        c + 1
    };
    if b == a {
        (TokenKind::Integer, i + 1)
    } else if char_at(s, b, '.') && b + 1 < s.len() && is_digit(s[b + 1]) {
        if (char_at(s, c, 'e') || char_at(s, c, 'E')) && d <= s.len() && digits_end(s, d) > d {
            (TokenKind::Decimal, digits_end(s, d))
        } else {
            (TokenKind::Decimal, c)
        }
    } else {
        (TokenKind::Integer, b)
    }
}

/// Kind and end of the token that starts at `i`, a character that is
/// neither white space nor the start of a comment.
pub open spec fn token_at(s: Seq<char>, i: int) -> (TokenKind, int) {
    let c = s[i];
    if is_ident_start(c) {
        (TokenKind::Ident, ident_end(s, i))
    } else if c == '"' {
        string_token(s, i + 1)
    } else if is_digit(c) || (c == '-' && i + 1 < s.len() && is_digit(s[i + 1])) {
        number_token(s, i)
    } else {
        symbol_token(s, i)
    }
}

/// The tokens of `s` from position `i` on.
pub open spec fn lex(s: Seq<char>, i: int) -> Seq<Token>
    decreases s.len() - i,
{
    if i < 0 || i >= s.len() {
        Seq::empty()
    } else if is_space(s[i]) {
        lex(s, i + 1)
    } else if s[i] == '/' && char_at(s, i + 1, '/') {
        if line_end(s, i + 2) <= i || line_end(s, i + 2) > s.len() {
            Seq::empty()
        } else {
            lex(s, line_end(s, i + 2))
        }
    } else {
        let (k, e) = token_at(s, i);
        if e <= i || e > s.len() {
            Seq::empty()
        } else {
            seq![Token { kind: k, start: i as usize, end: e as usize }] + lex(s, e)
        }
    }
}

/// Whether `s[i]` exists and is `c`.
fn at(s: &Vec<char>, i: usize, c: char) -> (r: bool)
    ensures
        r == (i < s.len() && s@[i as int] == c),
        r == char_at(s@, i as int, c),
{
    i < s.len() && s[i] == c
}

/// Kind and end of the punctuation or arrow token at `i`.
fn scan_symbol(s: &Vec<char>, i: usize) -> (r: (TokenKind, usize))
    requires
        i < s.len(),
    ensures
        i < r.1 <= s.len(),
        r.0 != TokenKind::Ident,
        r.0 != TokenKind::Str,
        r.0 != TokenKind::Decimal,
        r.0 == symbol_token(s@, i as int).0 && r.1 == symbol_token(s@, i as int).1,
{
    let c = s[i];
    let n = i + 1;
    if c == '(' {
        (TokenKind::LParen, n)
    } else if c == ')' {
        (TokenKind::RParen, n)
    } else if c == '[' {
        (TokenKind::LBracket, n)
    } else if c == '{' {
        (TokenKind::LBrace, n)
    } else if c == '}' {
        (TokenKind::RBrace, n)
    } else if c == ':' {
        (TokenKind::Colon, n)
    } else if c == '|' {
        (TokenKind::Pipe, n)
    } else if c == ',' {
        (TokenKind::Comma, n)
    } else if c == '@' {
        (TokenKind::At, n)
    } else if c == ']' {
        if at(s, n, '-') && at(s, n + 1, '>') {
            (TokenKind::CloseRight, n + 2)
        } else if at(s, n, '-') {
            (TokenKind::CloseLeft, n + 1)
        } else if at(s, n, '~') {
            (TokenKind::CloseSquiggle, n + 1)
        } else {
            (TokenKind::RBracket, n)
        }
    } else if c == '-' {
        if at(s, n, '-') && at(s, n + 1, '>') {
            (TokenKind::ArrowRight, n + 2)
        } else if at(s, n, '[') {
            (TokenKind::OpenRight, n + 1)
        } else {
            (TokenKind::Invalid, n)
        }
    } else if c == '<' {
        if at(s, n, '-') && at(s, n + 1, '-') && at(s, n + 2, '>') {
            (TokenKind::ArrowBoth, n + 3)
        } else if at(s, n, '-') && at(s, n + 1, '-') {
            (TokenKind::ArrowLeft, n + 2)
        } else if at(s, n, '-') && at(s, n + 1, '[') {
            (TokenKind::OpenLeft, n + 2)
        } else {
            (TokenKind::Invalid, n)
        }
    } else if c == '~' {
        if at(s, n, '~') {
            (TokenKind::ArrowSquiggle, n + 1)
        } else if at(s, n, '[') {
            (TokenKind::OpenSquiggle, n + 1)
        } else {
            (TokenKind::Invalid, n)
        }
    } else {
        (TokenKind::Invalid, n)
    }
}

/// The characters `i..end` that `scan_number` takes as a decimal have
/// decimal form: `a` is past the sign, `b` at the point, `c` past the
/// fraction, and `end` is `c` or, past an exponent starting at `d`, `e`.
proof fn lemma_decimal_token(s: Seq<char>, i: int, a: int, b: int, c: int, d: int, e: int)
    requires
        0 <= i < s.len(),
        a == if s[i] == '-' { i + 1 } else { i },
        b == digits_end(s, a),
        b > a,
        b + 1 < s.len(),
        s[b] == '.',
        is_digit(s[b + 1]),
        c == digits_end(s, b + 1),
        c <= s.len(),
        (d == c && e == c) || (c < s.len() && (s[c] == 'e' || s[c] == 'E') && d == (if c + 1
            < s.len() && (s[c + 1] == '+' || s[c + 1] == '-') {
            c + 2
        } else {
            c + 1
        }) && d <= s.len() && e == digits_end(s, d) && e > d),
    ensures
        decimal_form(s.subrange(i, e)),
{
    let sub = s.subrange(i, e);
    lemma_digits_end_bounds(s, a);
    lemma_digits_end_bounds(s, b + 1);
    if d <= s.len() {
        lemma_digits_end_bounds(s, d);
    }
    assert(c > b + 1) by {
        assert(digits_end(s, b + 1) == digits_end(s, b + 2));
        lemma_digits_end_bounds(s, b + 2);
    }
    assert(sub[0] == s[i]);
    lemma_digits_end_sub(s, i, e, a);
    lemma_digits_end_sub(s, i, e, b + 1);
    assert(sub[b - i] == s[b]);
    if e != c {
        assert(sub[c - i] == s[c]);
        if c + 1 < e {
            assert(sub[c + 1 - i] == s[c + 1]);
        }
        lemma_digits_end_sub(s, i, e, d);
    }
}

/// Kind and end of the number that starts at `i` (after an optional `-`).
fn scan_number(s: &Vec<char>, i: usize) -> (r: (TokenKind, usize))
    requires
        i < s.len(),
    ensures
        i < r.1 <= s.len(),
        r.0 == TokenKind::Integer || r.0 == TokenKind::Decimal,
        r.0 == TokenKind::Decimal ==> decimal_form(s@.subrange(i as int, r.1 as int)),
        r.0 == number_token(s@, i as int).0 && r.1 == number_token(s@, i as int).1,
{
    let a = if s[i] == '-' {
        i + 1
    } else {
        i
    };
    let b = scan_digits(s, a);
    if b == a {
        return (TokenKind::Integer, i + 1);
    }
    if at(s, b, '.') && b + 1 < s.len() && digit_char(s[b + 1]) {
        let c = scan_digits(s, b + 1);
        proof {
            lemma_digits_end_bounds(s@, (b + 1) as int);
        }
        if at(s, c, 'e') || at(s, c, 'E') {
            let d = if at(s, c + 1, '+') || at(s, c + 1, '-') {
                c + 2
            } else {
                c + 1
            };
            if d <= s.len() {
                let e = scan_digits(s, d);
                if e > d {
                    proof {
                        lemma_decimal_token(s@, i as int, a as int, b as int, c as int, d as int, e as int);
                    }
                    return (TokenKind::Decimal, e);
                }
            }
        }
        proof {
            lemma_decimal_token(s@, i as int, a as int, b as int, c as int, c as int, c as int);
        }
        (TokenKind::Decimal, c)
    } else {
        (TokenKind::Integer, b)
    }
}

/// End of the string literal whose opening quote is at `i`, and whether it
/// is closed.
fn scan_string(s: &Vec<char>, i: usize) -> (r: (TokenKind, usize))
    requires
        i < s.len(),
    ensures
        i < r.1 <= s.len(),
        r.0 == TokenKind::Str || r.0 == TokenKind::Unterminated,
        r.0 == TokenKind::Str ==> i + 2 <= r.1,
        r.0 != TokenKind::Decimal,
        r.0 == string_token(s@, i + 1).0 && r.1 == string_token(s@, i + 1).1,
{
    let mut j = i + 1;
    while j < s.len()
        invariant
            i < j <= s.len(),
            string_token(s@, i + 1) == string_token(s@, j as int),
        decreases s.len() - j,
    {
        if s[j] == '"' {
            return (TokenKind::Str, j + 1);
        } else if s[j] == '\\' && j + 1 < s.len() {
            j = j + 2;
        } else {
            j = j + 1;
        }
    }
    (TokenKind::Unterminated, s.len())
}

/// The tokens of `s`.
pub fn tokenize(s: &Vec<char>) -> (r: Vec<Token>)
    ensures
        tokens_wf(s@, r@),
        all_space(s@) ==> r@.len() == 0,
        r@.len() == 0 <==> blank(s@),
        r@ == lex(s@, 0),
{
    let mut toks: Vec<Token> = Vec::new();
    let mut i: usize = 0;
    while i < s.len()
        invariant
            i <= s.len(),
            tokens_wf(s@, toks@),
            forall|k: int| 0 <= k < toks@.len() ==> #[trigger] toks@[k].end <= i,
            all_space(s@) ==> toks@.len() == 0,
            toks@.len() == 0 ==> (blank(s@) == blank_from(s@, i as int)),
            toks@.len() > 0 ==> !blank(s@),
            toks@ + lex(s@, i as int) == lex(s@, 0),
        decreases s.len() - i,
    {
        let c = s[i];
        if space_char(c) {
            i = i + 1;
        } else if c == '/' && at(s, i + 1, '/') {
            let ghost from = i;
            let ghost le = line_end(s@, i + 2);
            i = i + 2;
            assert(blank_from(s@, from as int) == blank_from_line_end(s@, i as int));
            while i < s.len() && s[i] != '\n'
                invariant
                    from < i <= s.len(),
                    blank_from(s@, from as int) == blank_from_line_end(s@, i as int),
                    le == line_end(s@, i as int),
                    forall|k: int| 0 <= k < toks@.len() ==> #[trigger] toks@[k].end <= i,
                decreases s.len() - i,
            {
                i = i + 1;
            }
            assert(blank_from_line_end(s@, i as int) == blank_from(s@, i as int));
        } else {
            assert(!all_space(s@));
            assert(!blank_from(s@, i as int));
            let (kind, end) = if ident_start_char(c) {
                let e = scan_ident(s, i);
                assert(is_ident_char(s@[i as int]));
                assert(is_identifier(s@.subrange(i as int, e as int))) by {
                    assert forall|k: int| 0 <= k < e - i implies is_ident_char(
                        #[trigger] s@.subrange(i as int, e as int)[k],
                    ) by {
                        assert(s@.subrange(i as int, e as int)[k] == s@[i + k]);
                    }
                }
                (TokenKind::Ident, e)
            } else if c == '"' {
                scan_string(s, i)
            } else if digit_char(c) || (c == '-' && i + 1 < s.len() && digit_char(s[i + 1])) {
                scan_number(s, i)
            } else {
                scan_symbol(s, i)
            };
            let ghost before = toks@;
            assert(kind == token_at(s@, i as int).0 && end == token_at(s@, i as int).1);
            toks.push(Token { kind, start: i, end });
            assert(toks@ + lex(s@, end as int) =~= before + lex(s@, i as int));
            assert(toks@[toks@.len() - 1].start == i);
            assert forall|k: int| 0 < k < toks@.len() implies toks@[k - 1].end <= #[trigger] toks@[k].start by {
                if k < toks@.len() - 1 {
                    assert(before[k - 1].end <= before[k].start);
                }
            }
            assert forall|k: int| 0 <= k < toks@.len() && #[trigger] toks@[k].kind == TokenKind::Str implies toks@[k].start + 2 <= toks@[k].end by {
                if k < toks@.len() - 1 {
                    assert(before[k] == toks@[k]);
                }
            }
            assert forall|k: int| 0 <= k < toks@.len() && #[trigger] toks@[k].kind == TokenKind::Decimal implies decimal_form(s@.subrange(toks@[k].start as int, toks@[k].end as int)) by {
                if k < toks@.len() - 1 {
                    assert(before[k] == toks@[k]);
                }
            }
            assert forall|k: int| 0 <= k < toks@.len() && toks@[k].kind == TokenKind::Ident implies is_identifier(
                s@.subrange(#[trigger] toks@[k].start as int, toks@[k].end as int),
            ) by {
                if k < toks@.len() - 1 {
                    assert(before[k] == toks@[k]);
                }
            }
            i = end;
        }
    }
    toks
}

} // verus!
