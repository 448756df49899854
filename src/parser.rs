//! Recursive-descent parser from Gram text to patterns of subjects. A syntax
//! problem does not stop it: it records one diagnostic for the item that
//! failed, skips to the next token that can start an item, and goes on.
use vstd::prelude::*;
use crate::error::{Diagnostic, DiagnosticKind, Location, ParseError, ParseErrorKind};
use crate::grammar::{
    balance, resume,
    document, items_from, next_item, problems,
    annotations_from, anonymous, group_at, item_at, members_from, skip_from,
    arrow_at, arrow_start, fold_chain, path_at, path_from, subject_models,
    labels_from, node_at, properties_from, subject_at, text_of, value_at, is_kind, Parsed,
};
use crate::lexer::{all_space, blank, digit_char, is_identifier, tokenize, tokens_wf, Token, TokenKind};
use crate::serializer::{
    entry_ok, hex_char_ok, hex_char_value, hex_value, unescape_char, unescaped, lemma_members_ok_all, lemma_put_entries_ok, lemma_within_more, node_ok, serializable,
    serializable_within,
    subject_ok, value_ok,
};
use crate::pattern::{models, Pattern, Tree};
use crate::subject::{Arrow, EntryModel, Form, PropertyMap, Subject, SubjectModel, Symbol, Value};
use crate::text::{
    all_digits, chars_of, digits_value, push_all, int_text, lemma_digits_prefix, lemma_nat_text_value, nat_text, push_nat,
    push_str, string_of,
};

verus! {

/// How deeply patterns may nest: each enclosing subject pattern and each
/// arrow of a chain counts one level.
pub const MAX_DEPTH: usize = 512;

/// Number of UTF-8 bytes that encode `c`.
pub open spec fn utf8_len(c: char) -> int {
    if (c as u32) < 0x80 {
        1
    } else if (c as u32) < 0x800 {
        2
    } else if (c as u32) < 0x10000 {
        3
    } else {
        4
    }
}

/// Byte offset of character `k` of `s`.
pub open spec fn offset_of(s: Seq<char>, k: int) -> int
    decreases k,
{
    if k <= 0 {
        0
    } else {
        offset_of(s, k - 1) + utf8_len(s[k - 1])
    }
}

/// Line of character `k` of `s`, from 1.
pub open spec fn line_of(s: Seq<char>, k: int) -> int
    decreases k,
{
    if k <= 0 {
        1
    } else if s[k - 1] == '\n' {
        line_of(s, k - 1) + 1
    } else {
        line_of(s, k - 1)
    }
}

/// Column of character `k` of `s` on its line, from 1, counted in characters.
pub open spec fn column_of(s: Seq<char>, k: int) -> int
    decreases k,
{
    if k <= 0 {
        1
    } else if s[k - 1] == '\n' {
        1
    } else {
        column_of(s, k - 1) + 1
    }
}

fn utf8_width(c: char) -> (r: usize)
    ensures
        r == utf8_len(c),
{
    let u = c as u32;
    if u < 0x80 {
        1
    } else if u < 0x800 {
        2
    } else if u < 0x10000 {
        3
    } else {
        4
    }
}

/// Location of character `idx` of `s`; each number stops at `usize::MAX`.
pub fn location_of(s: &Vec<char>, idx: usize) -> (r: Location)
    requires
        idx <= s.len(),
    ensures
        line_of(s@, idx as int) <= usize::MAX ==> r.line == line_of(s@, idx as int),
        column_of(s@, idx as int) <= usize::MAX ==> r.column == column_of(s@, idx as int),
        offset_of(s@, idx as int) <= usize::MAX ==> r.offset == offset_of(s@, idx as int),
{
    let mut offset: usize = 0;
    let mut line: usize = 1;
    let mut column: usize = 1;
    let mut k: usize = 0;
    while k < idx
        invariant
            k <= idx <= s.len(),
            line_of(s@, k as int) <= usize::MAX ==> line == line_of(s@, k as int),
            line_of(s@, k as int) > usize::MAX ==> line == usize::MAX,
            column_of(s@, k as int) <= usize::MAX ==> column == column_of(s@, k as int),
            column_of(s@, k as int) > usize::MAX ==> column == usize::MAX,
            offset_of(s@, k as int) <= usize::MAX ==> offset == offset_of(s@, k as int),
            offset_of(s@, k as int) > usize::MAX ==> offset == usize::MAX,
        decreases idx - k,
    {
        let w = utf8_width(s[k]);
        offset = offset.saturating_add(w);
        if s[k] == '\n' {
            line = line.saturating_add(1);
            column = 1;
        } else {
            column = column.saturating_add(1);
        }
        k = k + 1;
    }
    Location { offset, line, column }
}

/// Whether a token can begin an item of a document.
pub open spec fn starts_item(k: TokenKind) -> bool {
    k == TokenKind::LParen || k == TokenKind::LBracket || k == TokenKind::At
}

fn is_item_start(k: TokenKind) -> (r: bool)
    ensures
        r == starts_item(k),
{
    k == TokenKind::LParen || k == TokenKind::LBracket || k == TokenKind::At
}

/// Kind of token `pos`, if there is one.
fn kind_at(toks: &Vec<Token>, pos: usize) -> (r: Option<TokenKind>)
    ensures
        r is None == (pos >= toks.len()),
        r matches Some(k) ==> pos < toks.len() && k == toks@[pos as int].kind,
{
    if pos < toks.len() {
        Some(toks[pos].kind)
    } else {
        None
    }
}

fn kind_is(toks: &Vec<Token>, pos: usize, k: TokenKind) -> (r: bool)
    ensures
        r == (pos < toks.len() && toks@[pos as int].kind == k),
{
    pos < toks.len() && toks[pos].kind == k
}

/// Records one diagnostic at token `pos` (at the end of the input past the
/// last token).
fn report(
    s: &Vec<char>,
    toks: &Vec<Token>,
    pos: usize,
    diags: &mut Vec<Diagnostic>,
    kind: DiagnosticKind,
    what: &str,
)
    requires
        tokens_wf(s@, toks@),
    ensures
        final(diags)@.len() == old(diags)@.len() + 1,
        final(diags)@.last().kind == kind,
{
    let idx = if pos < toks.len() {
        toks[pos].start
    } else {
        s.len()
    };
    let location = location_of(s, idx);
    let mut msg: Vec<char> = Vec::new();
    match kind {
        DiagnosticKind::Syntax => push_str(&mut msg, "Syntax error at this location: "),
        DiagnosticKind::Missing => push_str(&mut msg, "Missing required syntax: "),
    }
    push_str(&mut msg, what);
    if pos < toks.len() {
        let t = toks[pos];
        assert(t.start == toks@[pos as int].start);
        let text = token_chars(s, t);
        push_str(&mut msg, " at `");
        push_all(&mut msg, &text);
        push_str(&mut msg, "`");
    }
    diags.push(Diagnostic { kind, location, message: string_of(msg.as_slice()) });
}

/// The characters of token `t`.
fn token_chars(s: &Vec<char>, t: Token) -> (r: Vec<char>)
    requires
        t.start <= t.end <= s.len(),
    ensures
        r@ == s@.subrange(t.start as int, t.end as int),
{
    let mut r: Vec<char> = Vec::new();
    let mut k = t.start;
    while k < t.end
        invariant
            t.start <= k <= t.end <= s.len(),
            r@ == s@.subrange(t.start as int, k as int),
        decreases t.end - k,
    {
        r.push(s[k]);
        k = k + 1;
        assert(r@ =~= s@.subrange(t.start as int, k as int));
    }
    r
}

/// Whether `cs` holds exactly the characters of `w`.
fn chars_equal(cs: &Vec<char>, w: &str) -> (r: bool)
    ensures
        r == (cs@ == w@),
{
    let ws = chars_of(w);
    if cs.len() != ws.len() {
        return false;
    }
    let mut k: usize = 0;
    while k < cs.len()
        invariant
            k <= cs.len() == ws.len(),
            ws@ == w@,
            forall|j: int| 0 <= j < k ==> cs@[j] == ws@[j],
        decreases cs.len() - k,
    {
        if cs[k] != ws[k] {
            assert(cs@[k as int] != ws@[k as int]);
            return false;
        }
        k = k + 1;
    }
    assert(cs@ =~= ws@);
    true
}

/// The characters between the quotes of a string token, with escapes
/// resolved.
fn unescape(s: &Vec<char>, t: Token) -> (r: Vec<char>)
    requires
        t.start + 2 <= t.end <= s.len(),
    ensures
        r@ == unescaped(s@.subrange(t.start + 1, t.end - 1)),
{
    let mut r: Vec<char> = Vec::new();
    let mut k = t.start + 1;
    let stop = t.end - 1;
    while k < stop
        invariant
            t.start < k <= stop,
            stop == t.end - 1,
            t.end <= s.len(),
            r@ + unescaped(s@.subrange(k as int, stop as int)) == unescaped(
                s@.subrange(t.start + 1, t.end - 1),
            ),
        decreases stop - k,
    {
        let ghost rest = s@.subrange(k as int, stop as int);
        let ghost before = r@;
        let c = s[k];
        if c == '\\' && stop - k > 3 && s[k + 1] == 'x' && hex_char_ok(s[k + 2]) && hex_char_ok(
            s[k + 3],
        ) {
            let v = hex_char_value(s[k + 2]) * 16 + hex_char_value(s[k + 3]);
            r.push((v as u8) as char);
            assert(rest.subrange(4, rest.len() as int) =~= s@.subrange(k + 4, stop as int));
            assert(r@ =~= before + seq![((hex_value(rest[2]) * 16 + hex_value(rest[3])) as u8) as char]);
            k = k + 4;
        } else if c == '\\' && k + 1 < stop {
            let e = s[k + 1];
            if e == 'n' {
                r.push('\n');
            } else if e == 't' {
                r.push('\t');
            } else if e == 'r' {
                r.push('\r');
            } else {
                r.push(e);
            }
            assert(rest.subrange(2, rest.len() as int) =~= s@.subrange(k + 2, stop as int));
            assert(r@ =~= before + seq![unescape_char(rest[1])]);
            k = k + 2;
        } else {
            r.push(c);
            assert(rest.subrange(1, rest.len() as int) =~= s@.subrange(k + 1, stop as int));
            assert(r@ =~= before + seq![rest[0]]);
            k = k + 1;
        }
    }
    assert(unescaped(s@.subrange(k as int, stop as int)) == Seq::<char>::empty());
    assert(r@ + Seq::<char>::empty() =~= r@);
    r
}

/// The integer that an optional `-` followed by decimal digits stands for,
/// when it fits in `i64`.
pub open spec fn integer_of(cs: Seq<char>) -> Option<int> {
    let a: int = if cs.len() > 0 && cs[0] == '-' {
        1
    } else {
        0
    };
    let ds = cs.subrange(a, cs.len() as int);
    let v = if a == 1 {
        -digits_value(ds)
    } else {
        digits_value(ds)
    };
    if ds.len() == 0 || !all_digits(ds) || v < -9223372036854775808 || v > 9223372036854775807 {
        None
    } else {
        Some(v)
    }
}

/// The decimal text of every `i64` stands for that integer.
pub proof fn lemma_integer_of_int_text(i: i64)
    ensures
        integer_of(int_text(i as int)) == Some(i as int),
{
    let t = int_text(i as int);
    if i < 0 {
        lemma_nat_text_value((-i) as nat);
        assert(t.subrange(1, t.len() as int) =~= nat_text((-i) as nat));
    } else {
        lemma_nat_text_value(i as nat);
        assert('0' <= nat_text(i as nat)[0] <= '9');
        assert(t.subrange(0, t.len() as int) =~= nat_text(i as nat));
    }
}

/// The value of an integer token, or `None` when it does not fit in `i64`.
pub fn integer_value(cs: &Vec<char>) -> (r: Option<i64>)
    ensures
        r is Some == integer_of(cs@) is Some,
        r matches Some(i) ==> integer_of(cs@) == Some(i as int),
        forall|i: i64| cs@ == int_text(i as int) ==> r == Some(i),
{
    proof {
        assert forall|i: i64| cs@ == int_text(i as int) implies integer_of(cs@) == Some(i as int) by {
            lemma_integer_of_int_text(i);
        }
    }
    let neg = cs.len() > 0 && cs[0] == '-';
    let a: usize = if neg {
        1
    } else {
        0
    };
    let ghost ds = cs@.subrange(a as int, cs@.len() as int);
    if a >= cs.len() {
        return None;
    }
    let mut k: usize = a;
    let mut mag: u64 = 0;
    while k < cs.len()
        invariant
            a <= k <= cs.len(),
            a == 0 || a == 1,
            neg == (cs@.len() > 0 && cs@[0] == '-'),
            neg ==> a == 1,
            !neg ==> a == 0,
            ds == cs@.subrange(a as int, cs@.len() as int),
            all_digits(cs@.subrange(a as int, k as int)),
            mag == digits_value(cs@.subrange(a as int, k as int)),
            mag <= 9223372036854775808u64,
            forall|i: i64| cs@ == int_text(i as int) ==> integer_of(cs@) == Some(i as int),
        decreases cs.len() - k,
    {
        if !digit_char(cs[k]) {
            assert(!('0' <= ds[k - a] <= '9'));
            return None;
        }
        let d = (cs[k] as u32 - '0' as u32) as u64;
        proof {
            assert(cs@.subrange(a as int, k + 1).drop_last() =~= cs@.subrange(a as int, k as int));
            assert(ds.subrange(0, k + 1 - a) =~= cs@.subrange(a as int, k + 1));
        }
        if mag > (9223372036854775808u64 - d) / 10 {
            proof {
                assert(mag * 10 + d > 9223372036854775808) by (nonlinear_arith)
                    requires
                        mag > (9223372036854775808u64 - d) / 10,
                        d <= 9,
                ;
                if all_digits(ds) {
                    lemma_digits_prefix(ds, k + 1 - a);
                }
            }
            return None;
        }
        assert(mag * 10 + d <= 9223372036854775808) by (nonlinear_arith)
            requires
                mag <= (9223372036854775808u64 - d) / 10,
                d <= 9,
        ;
        mag = mag * 10 + d;
        k = k + 1;
    }
    assert(cs@.subrange(a as int, k as int) =~= ds);
    if neg {
        if mag == 9223372036854775808u64 {
            Some(-9223372036854775807i64 - 1)
        } else {
            Some(-(mag as i64))
        }
    } else if mag <= 9223372036854775807u64 {
        Some(mag as i64)
    } else {
        None
    }
}

/// A literal value at `pos`.
fn parse_value(s: &Vec<char>, toks: &Vec<Token>, pos: &mut usize, diags: &mut Vec<Diagnostic>) -> (r:
    Option<Value>)
    requires
        tokens_wf(s@, toks@),
        *old(pos) <= toks.len(),
    ensures
        *old(pos) <= *final(pos) <= toks.len(),
        r is Some ==> final(diags)@.len() == old(diags)@.len() && *final(pos) > *old(pos),
        r is None ==> final(diags)@.len() == old(diags)@.len() + 1,
        r matches Some(v) ==> value_ok(v@),
        match value_at(s@, toks@, *old(pos) as int) {
            Some(m) => r matches Some(v) && v@ == m && *final(pos) == *old(pos) + 1,
            None => r is None && *final(pos) == *old(pos),
        },
{
    let p = *pos;
    match kind_at(toks, p) {
        Some(TokenKind::Str) => {
            let t = toks[p];
            assert(t.start + 2 <= t.end <= s.len());
            let cs = unescape(s, t);
            *pos = p + 1;
            Some(Value::Str(string_of(cs.as_slice())))
        },
        Some(TokenKind::Integer) => {
            let t = toks[p];
            assert(t.start == toks@[p as int].start);
            let cs = token_chars(s, t);
            match integer_value(&cs) {
                Some(i) => {
                    *pos = p + 1;
                    Some(Value::Integer(i))
                },
                None => {
                    report(s, toks, p, diags, DiagnosticKind::Syntax, "integer out of range");
                    None
                },
            }
        },
        Some(TokenKind::Decimal) => {
            let t = toks[p];
            assert(t.start == toks@[p as int].start);
            let cs = token_chars(s, t);
            *pos = p + 1;
            Some(Value::Decimal(string_of(cs.as_slice())))
        },
        Some(TokenKind::Ident) => {
            let t = toks[p];
            assert(t.start == toks@[p as int].start);
            let cs = token_chars(s, t);
            *pos = p + 1;
            if chars_equal(&cs, "true") {
                Some(Value::Boolean(true))
            } else if chars_equal(&cs, "false") {
                Some(Value::Boolean(false))
            } else {
                assert(is_identifier(s@.subrange(toks@[p as int].start as int, toks@[p as int].end as int)));
                Some(Value::Symbol(string_of(cs.as_slice())))
            }
        },
        _ => {
            report(s, toks, p, diags, DiagnosticKind::Missing, "value");
            None
        },
    }
}

/// Consumes a token of kind `k` at `pos`, or records it as missing.
fn expect(
    s: &Vec<char>,
    toks: &Vec<Token>,
    pos: &mut usize,
    diags: &mut Vec<Diagnostic>,
    k: TokenKind,
    what: &str,
) -> (r: bool)
    requires
        tokens_wf(s@, toks@),
        *old(pos) <= toks.len(),
    ensures
        r == is_kind(toks@, *old(pos) as int, k),
        r ==> final(diags)@.len() == old(diags)@.len() && *final(pos) == *old(pos) + 1 <= toks.len(),
        !r ==> final(diags)@.len() == old(diags)@.len() + 1 && *final(pos) == *old(pos),
{
    if kind_is(toks, *pos, k) {
        *pos = *pos + 1;
        true
    } else {
        report(s, toks, *pos, diags, DiagnosticKind::Missing, what);
        false
    }
}

/// The text of the identifier token at `pos`, consumed.
fn take_ident(s: &Vec<char>, toks: &Vec<Token>, pos: &mut usize) -> (r: String)
    requires
        tokens_wf(s@, toks@),
        *old(pos) < toks.len(),
    ensures
        *final(pos) == *old(pos) + 1,
        r@ == s@.subrange(toks@[*old(pos) as int].start as int, toks@[*old(pos) as int].end as int),
        toks@[*old(pos) as int].kind == TokenKind::Ident ==> is_identifier(r@),
{
    let t = toks[*pos];
    assert(t.start == toks@[*pos as int].start);
    let cs = token_chars(s, t);
    *pos = *pos + 1;
    string_of(cs.as_slice())
}

/// `{ key: value, ... }` at `pos`, whose entries are added to `props`.
fn parse_properties(
    s: &Vec<char>,
    toks: &Vec<Token>,
    pos: &mut usize,
    diags: &mut Vec<Diagnostic>,
    props: &mut PropertyMap,
) -> (r: bool)
    requires
        tokens_wf(s@, toks@),
        *old(pos) < toks.len(),
        old(props).wf(),
        forall|i: int| 0 <= i < old(props)@.len() ==> entry_ok(#[trigger] old(props)@[i]),
    ensures
        *old(pos) <= *final(pos) <= toks.len(),
        final(props).wf(),
        forall|i: int| 0 <= i < final(props)@.len() ==> entry_ok(#[trigger] final(props)@[i]),
        r ==> final(diags)@.len() == old(diags)@.len() && *final(pos) > *old(pos),
        !r ==> final(diags)@.len() == old(diags)@.len() + 1,
        match (if is_kind(toks@, *old(pos) + 1, TokenKind::RBrace) {
            Parsed::Done(old(props)@, *old(pos) + 2)
        } else {
            properties_from(s@, toks@, *old(pos) + 1, old(props)@)
        }) {
            Parsed::Done(m, q) => r && final(props)@ == m && *final(pos) == q,
            Parsed::Fail(f) => !r && *final(pos) == f,
        },
{
    let ghost spec = if is_kind(toks@, *old(pos) + 1, TokenKind::RBrace) {
        Parsed::Done(old(props)@, *old(pos) + 2)
    } else {
        properties_from(s@, toks@, *old(pos) + 1, old(props)@)
    };
    *pos = *pos + 1;
    if kind_is(toks, *pos, TokenKind::RBrace) {
        *pos = *pos + 1;
        return true;
    }
    loop
        invariant
            tokens_wf(s@, toks@),
            *old(pos) < *pos <= toks.len(),
            props.wf(),
            forall|i: int| 0 <= i < props@.len() ==> entry_ok(#[trigger] props@[i]),
            diags@.len() == old(diags)@.len(),
            !is_kind(toks@, *old(pos) + 1, TokenKind::RBrace),
            spec == properties_from(s@, toks@, *pos as int, props@),
            spec == (if is_kind(toks@, *old(pos) + 1, TokenKind::RBrace) {
                Parsed::Done(old(props)@, *old(pos) + 2)
            } else {
                properties_from(s@, toks@, *old(pos) + 1, old(props)@)
            }),
        decreases toks.len() - *pos,
    {
        if !kind_is(toks, *pos, TokenKind::Ident) {
            report(s, toks, *pos, diags, DiagnosticKind::Missing, "property key");
            return false;
        }
        let key = take_ident(s, toks, pos);
        if !expect(s, toks, pos, diags, TokenKind::Colon, ":") {
            return false;
        }
        match parse_value(s, toks, pos, diags) {
            Some(v) => {
                proof {
                    lemma_put_entries_ok(props@, key@, v@);
                }
                props.insert(key, v);
            },
            None => return false,
        }
        if kind_is(toks, *pos, TokenKind::Comma) {
            *pos = *pos + 1;
        } else {
            return expect(s, toks, pos, diags, TokenKind::RBrace, "}");
        }
    }
}

/// An identity, labels and properties, each optional, at `pos`.
fn parse_subject(
    s: &Vec<char>,
    toks: &Vec<Token>,
    pos: &mut usize,
    diags: &mut Vec<Diagnostic>,
    form: Form,
) -> (r: Option<Subject>)
    requires
        tokens_wf(s@, toks@),
        *old(pos) <= toks.len(),
    ensures
        *old(pos) <= *final(pos) <= toks.len(),
        r is Some ==> final(diags)@.len() == old(diags)@.len(),
        r matches Some(sub) ==> sub.wf() && sub.form == form && subject_ok(sub),
        r is None ==> final(diags)@.len() == old(diags)@.len() + 1,
        match subject_at(s@, toks@, *old(pos) as int, form) {
            Parsed::Done(m, q) => r matches Some(sub) && sub@ == m && *final(pos) == q,
            Parsed::Fail(f) => r is None && *final(pos) == f,
        },
{
    let ghost spec = subject_at(s@, toks@, *old(pos) as int, form);
    let mut subject = Subject::anonymous(form);
    if kind_is(toks, *pos, TokenKind::Ident) {
        subject.identity = Symbol(take_ident(s, toks, pos));
    }
    let ghost p1 = *pos as int;
    let ghost identity = subject.identity@;
    assert(labels_from(s@, toks@, p1, subject.labels@) == labels_from(s@, toks@, p1, Set::empty()));
    while kind_is(toks, *pos, TokenKind::Colon)
        invariant
            tokens_wf(s@, toks@),
            *old(pos) <= *pos <= toks.len(),
            subject.wf(),
            subject.form == form,
            subject_ok(subject),
            diags@.len() == old(diags)@.len(),
            subject.identity@ == identity,
            subject.properties@.len() == 0,
            spec == subject_at(s@, toks@, *old(pos) as int, form),
            identity == (if is_kind(toks@, *old(pos) as int, TokenKind::Ident) {
                text_of(s@, toks@, *old(pos) as int)
            } else {
                Seq::empty()
            }),
            p1 == (if is_kind(toks@, *old(pos) as int, TokenKind::Ident) {
                *old(pos) + 1
            } else {
                *old(pos) as int
            }),
            labels_from(s@, toks@, *pos as int, subject.labels@) == labels_from(s@, toks@, p1, Set::empty()),
        decreases toks.len() - *pos,
    {
        *pos = *pos + 1;
        if !kind_is(toks, *pos, TokenKind::Ident) {
            report(s, toks, *pos, diags, DiagnosticKind::Missing, "label");
            return None;
        }
        let label = take_ident(s, toks, pos);
        subject.labels.insert(label);
        assert(subject_ok(subject));
    }
    assert(subject.properties@ =~= Seq::<EntryModel>::empty());
    if kind_is(toks, *pos, TokenKind::LBrace) {
        if !parse_properties(s, toks, pos, diags, &mut subject.properties) {
            return None;
        }
    }
    Some(subject)
}

/// `( subject )` at `pos`.
fn parse_node(s: &Vec<char>, toks: &Vec<Token>, pos: &mut usize, diags: &mut Vec<Diagnostic>) -> (r:
    Option<Pattern<Subject>>)
    requires
        tokens_wf(s@, toks@),
        *old(pos) <= toks.len(),
    ensures
        *old(pos) <= *final(pos) <= toks.len(),
        r is Some ==> final(diags)@.len() == old(diags)@.len() && *final(pos) > *old(pos),
        r is None ==> final(diags)@.len() == old(diags)@.len() + 1,
        r matches Some(p) ==> node_ok(p),
        match node_at(s@, toks@, *old(pos) as int) {
            Parsed::Done(m, q) => r matches Some(p) && p@ == m && *final(pos) == q,
            Parsed::Fail(f) => r is None && *final(pos) == f,
        },
{
    let ghost p0 = *pos as int;
    if !expect(s, toks, pos, diags, TokenKind::LParen, "(") {
        return None;
    }
    let subject = match parse_subject(s, toks, pos, diags, Form::Node) {
        Some(sub) => sub,
        None => return None,
    };
    if !expect(s, toks, pos, diags, TokenKind::RParen, ")") {
        return None;
    }
    let p = Pattern::point(subject);
    assert(p.elements@.len() == 0);
    Some(p)
}

/// Whether a token begins an arrow.
fn is_arrow_start(k: TokenKind) -> (r: bool)
    ensures
        r == arrow_start(k),
{
    match k {
        TokenKind::ArrowRight | TokenKind::ArrowLeft | TokenKind::ArrowBoth
        | TokenKind::ArrowSquiggle | TokenKind::OpenRight | TokenKind::OpenLeft
        | TokenKind::OpenSquiggle => true,
        _ => false,
    }
}

/// An arrow at `pos`, with its descriptor: the subject of the relationship.
fn parse_arrow(s: &Vec<char>, toks: &Vec<Token>, pos: &mut usize, diags: &mut Vec<Diagnostic>) -> (r:
    Option<Subject>)
    requires
        tokens_wf(s@, toks@),
        *old(pos) < toks.len(),
    ensures
        *old(pos) <= *final(pos) <= toks.len(),
        r is Some ==> final(diags)@.len() == old(diags)@.len() && *final(pos) > *old(pos),
        r is None ==> final(diags)@.len() == old(diags)@.len() + 1,
        r matches Some(sub) ==> subject_ok(sub) && sub.form is Relationship,
        match arrow_at(s@, toks@, *old(pos) as int) {
            Parsed::Done(m, q) => r matches Some(sub) && sub@ == m && *final(pos) == q,
            Parsed::Fail(f) => r is None && *final(pos) == f,
        },
{
    let k = toks[*pos].kind;
    *pos = *pos + 1;
    let (open, close) = match k {
        TokenKind::ArrowRight => return Some(Subject::anonymous(Form::Relationship(Arrow::Right))),
        TokenKind::ArrowLeft => return Some(Subject::anonymous(Form::Relationship(Arrow::Left))),
        TokenKind::ArrowBoth => return Some(Subject::anonymous(Form::Relationship(Arrow::Both))),
        TokenKind::ArrowSquiggle => return Some(
            Subject::anonymous(Form::Relationship(Arrow::Squiggle)),
        ),
        TokenKind::OpenRight => (Arrow::Right, TokenKind::CloseRight),
        TokenKind::OpenLeft => (Arrow::Left, TokenKind::CloseLeft),
        TokenKind::OpenSquiggle => (Arrow::Squiggle, TokenKind::CloseSquiggle),
        _ => {
            *pos = *pos - 1;
            report(s, toks, *pos, diags, DiagnosticKind::Syntax, "expected an arrow");
            return None;
        },
    };
    let mut subject = match parse_subject(s, toks, pos, diags, Form::Relationship(open)) {
        Some(sub) => sub,
        None => return None,
    };
    if open == Arrow::Left && kind_is(toks, *pos, TokenKind::CloseRight) {
        subject.form = Form::Relationship(Arrow::Both);
        *pos = *pos + 1;
        return Some(subject);
    }
    let what = match close {
        TokenKind::CloseRight => "]->",
        TokenKind::CloseLeft => "]-",
        _ => "]~",
    };
    if !expect(s, toks, pos, diags, close, what) {
        return None;
    }
    Some(subject)
}

/// A node, or nodes joined by arrows, at `pos`. A chain nests to the right:
/// `(a)-->(b)-->(c)` has `(a)` and the relationship `(b)-->(c)` as elements.
fn parse_path(
    s: &Vec<char>,
    toks: &Vec<Token>,
    pos: &mut usize,
    diags: &mut Vec<Diagnostic>,
    depth: usize,
) -> (r: Option<Pattern<Subject>>)
    requires
        tokens_wf(s@, toks@),
        *old(pos) <= toks.len(),
    ensures
        *old(pos) <= *final(pos) <= toks.len(),
        r is Some ==> final(diags)@.len() == old(diags)@.len() && *final(pos) > *old(pos),
        r is None ==> final(diags)@.len() == old(diags)@.len() + 1,
        r matches Some(p) ==> serializable_within(p, depth as int) && (p.value.form is Node
            || p.value.form is Relationship),
        match path_at(s@, toks@, *old(pos) as int, depth as int) {
            Parsed::Done(m, q) => r matches Some(p) && p@ == m && *final(pos) == q,
            Parsed::Fail(f) => r is None && *final(pos) == f,
        },
{
    let ghost spec = path_at(s@, toks@, *old(pos) as int, depth as int);
    let first = match parse_node(s, toks, pos, diags) {
        Some(p) => p,
        None => return None,
    };
    let mut nodes: Vec<Pattern<Subject>> = Vec::new();
    let mut arrows: Vec<Subject> = Vec::new();
    nodes.push(first);
    assert(models(nodes@) =~= seq![first@]);
    assert(subject_models(arrows@) =~= Seq::<SubjectModel>::empty());
    while *pos < toks.len() && is_arrow_start(toks[*pos].kind)
        invariant
            tokens_wf(s@, toks@),
            *old(pos) < *pos <= toks.len(),
            nodes.len() == arrows.len() + 1,
            arrows.len() <= depth,
            diags@.len() == old(diags)@.len(),
            forall|i: int| 0 <= i < nodes.len() ==> node_ok(#[trigger] nodes@[i]),
            forall|i: int|
                0 <= i < arrows.len() ==> subject_ok(#[trigger] arrows@[i]) && arrows@[i].form is Relationship,
            spec == path_at(s@, toks@, *old(pos) as int, depth as int),
            spec == path_from(s@, toks@, *pos as int, depth as int, models(nodes@), subject_models(arrows@)),
        decreases toks.len() - *pos,
    {
        if arrows.len() >= depth {
            report(s, toks, *pos, diags, DiagnosticKind::Syntax, "nesting too deep");
            return None;
        }
        let arrow = match parse_arrow(s, toks, pos, diags) {
            Some(a) => a,
            None => return None,
        };
        let node = match parse_node(s, toks, pos, diags) {
            Some(p) => p,
            None => return None,
        };
        let ghost nb = nodes@;
        let ghost ab = arrows@;
        arrows.push(arrow);
        nodes.push(node);
        assert(models(nodes@) =~= models(nb).push(node@));
        assert(subject_models(arrows@) =~= subject_models(ab).push(arrow@));
    }
    let ghost final_tree = fold_chain(models(nodes@).drop_last(), subject_models(arrows@), models(nodes@).last());
    let ghost n_all = nodes@;
    let ghost total = arrows.len();
    let mut result = match nodes.pop() {
        Some(p) => p,
        None => return None,
    };
    assert(result == n_all[n_all.len() - 1]);
    assert(models(nodes@) =~= models(n_all).drop_last());
    assert(node_ok(result));
    assert forall|i: int| 0 <= i < nodes.len() implies node_ok(#[trigger] nodes@[i]) by {
        assert(nodes@[i] == n_all[i]);
    }
    while arrows.len() > 0
        invariant
            nodes.len() == arrows.len(),
            forall|i: int| 0 <= i < nodes.len() ==> node_ok(#[trigger] nodes@[i]),
            forall|i: int|
                0 <= i < arrows.len() ==> subject_ok(#[trigger] arrows@[i]) && arrows@[i].form is Relationship,
            arrows.len() <= total,
            serializable_within(result, total - arrows.len()),
            result.value.form is Node || result.value.form is Relationship,
            fold_chain(models(nodes@), subject_models(arrows@), result@) == final_tree,
        decreases arrows.len(),
    {
        let ghost a_before = arrows@;
        let ghost n_before = nodes@;
        let arrow = arrows.pop().unwrap();
        let source = nodes.pop().unwrap();
        assert(subject_ok(a_before[a_before.len() - 1]));
        assert(node_ok(n_before[n_before.len() - 1]));
        assert forall|i: int| 0 <= i < nodes.len() implies node_ok(#[trigger] nodes@[i]) by {
            assert(nodes@[i] == n_before[i]);
        }
        assert forall|i: int| 0 <= i < arrows.len() implies subject_ok(#[trigger] arrows@[i]) && arrows@[i].form is Relationship by {
            assert(arrows@[i] == a_before[i]);
        }
        let mut pair: Vec<Pattern<Subject>> = Vec::new();
        pair.push(source);
        pair.push(result);
        let ghost old_result = pair@[1]@;
        result = Pattern::pattern(arrow, pair);
        assert(models(pair@) =~= seq![source@, old_result]);
        assert(models(nodes@) =~= models(n_before).drop_last());
        assert(subject_models(arrows@) =~= subject_models(a_before).drop_last());
        assert(models(n_before).last() == source@);
        assert(subject_models(a_before).last() == arrow@);
        assert(serializable_within(result, total - arrows.len()));
    }
    proof {
        lemma_within_more(result, total as int, depth as int);
    }
    Some(result)
}

/// Moves `pos` past the bracketed group that opens at `pos`, or to the end
/// of the input when it is not closed.
fn skip_bracketed(toks: &Vec<Token>, pos: &mut usize)
    requires
        *old(pos) < toks.len(),
    ensures
        *old(pos) < *final(pos) <= toks.len(),
        *final(pos) == skip_from(toks@, *old(pos) as int, 0),
{
    let mut open: usize = 0;
    loop
        invariant
            *old(pos) <= *pos < toks.len(),
            open <= *pos - *old(pos),
            skip_from(toks@, *pos as int, open as int) == skip_from(toks@, *old(pos) as int, 0),
        decreases toks.len() - *pos,
    {
        match toks[*pos].kind {
            TokenKind::LBracket | TokenKind::OpenRight | TokenKind::OpenLeft
            | TokenKind::OpenSquiggle => {
                open = open + 1;
            },
            TokenKind::RBracket | TokenKind::CloseRight | TokenKind::CloseLeft
            | TokenKind::CloseSquiggle => {
                if open > 0 {
                    open = open - 1;
                }
            },
            _ => {},
        }
        *pos = *pos + 1;
        if open == 0 || *pos == toks.len() {
            return ;
        }
    }
}

/// Position after the rest of a bracketed group from `q`, with `open`
/// brackets open.
fn skip_open(toks: &Vec<Token>, q: usize, open0: usize) -> (r: usize)
    requires
        q <= toks.len(),
        open0 <= q,
    ensures
        r == skip_from(toks@, q as int, open0 as int),
        q <= r <= toks.len(),
{
    if q == toks.len() {
        return q;
    }
    let mut pos = q;
    let mut open = open0;
    loop
        invariant
            q <= pos < toks.len(),
            open <= pos,
            skip_from(toks@, pos as int, open as int) == skip_from(toks@, q as int, open0 as int),
        decreases toks.len() - pos,
    {
        match toks[pos].kind {
            TokenKind::LBracket | TokenKind::OpenRight | TokenKind::OpenLeft
            | TokenKind::OpenSquiggle => {
                open = open + 1;
            },
            TokenKind::RBracket | TokenKind::CloseRight | TokenKind::CloseLeft
            | TokenKind::CloseSquiggle => {
                if open > 0 {
                    open = open - 1;
                }
            },
            _ => {},
        }
        pos = pos + 1;
        if open == 0 || pos == toks.len() {
            return pos;
        }
    }
}

/// Where parsing goes on after a problem at `f` in the item that started at
/// `start`.
fn resume_at(toks: &Vec<Token>, f: usize, start: usize) -> (r: usize)
    requires
        start < toks.len(),
        start <= f <= toks.len(),
    ensures
        r == resume(toks@, f as int, start as int),
        start < r <= toks.len(),
{
    let mut opens: usize = 0;
    let mut closes: usize = 0;
    let mut k = start;
    while k < f
        invariant
            start <= k <= f <= toks.len(),
            opens + closes <= k - start,
            balance(toks@, start as int, k as int) == opens - closes,
        decreases f - k,
    {
        match toks[k].kind {
            TokenKind::LBracket | TokenKind::OpenRight | TokenKind::OpenLeft
            | TokenKind::OpenSquiggle => {
                opens = opens + 1;
            },
            TokenKind::RBracket | TokenKind::CloseRight | TokenKind::CloseLeft
            | TokenKind::CloseSquiggle => {
                closes = closes + 1;
            },
            _ => {},
        }
        k = k + 1;
    }
    let mut pos = if opens > closes {
        skip_open(toks, f, opens - closes)
    } else if f == start {
        start + 1
    } else {
        f
    };
    let ghost from = pos as int;
    while pos < toks.len() && !is_item_start(toks[pos].kind)
        invariant
            start < pos <= toks.len(),
            next_item(toks@, pos as int) == next_item(toks@, from),
        decreases toks.len() - pos,
    {
        pos = pos + 1;
    }
    pos
}

/// A subject pattern `[ subject | member, ... ]` at `pos`.
fn parse_group(
    s: &Vec<char>,
    toks: &Vec<Token>,
    pos: &mut usize,
    diags: &mut Vec<Diagnostic>,
    depth: usize,
) -> (r: Option<Pattern<Subject>>)
    requires
        tokens_wf(s@, toks@),
        *old(pos) < toks.len(),
    ensures
        *old(pos) <= *final(pos) <= toks.len(),
        r is Some ==> final(diags)@.len() == old(diags)@.len() && *final(pos) > *old(pos),
        r is None ==> final(diags)@.len() == old(diags)@.len() + 1,
        r matches Some(p) ==> serializable_within(p, depth as int) && p.value.form == Form::Group,
        match group_at(s@, toks@, *old(pos) as int, depth as int) {
            Parsed::Done(m, q) => r matches Some(p) && p@ == m && *final(pos) == q,
            Parsed::Fail(f) => r is None && *final(pos) == f,
        },
    decreases depth, 0nat,
{
    if depth == 0 {
        report(s, toks, *pos, diags, DiagnosticKind::Syntax, "nesting too deep");
        skip_bracketed(toks, pos);
        return None;
    }
    *pos = *pos + 1;
    let subject = match parse_subject(s, toks, pos, diags, Form::Group) {
        Some(sub) => sub,
        None => return None,
    };
    let mut members: Vec<Pattern<Subject>> = Vec::new();
    assert(models(members@) =~= Seq::<Tree<SubjectModel>>::empty());
    let ghost q0 = *pos as int;
    assert(subject_at(s@, toks@, *old(pos) + 1, Form::Group) == Parsed::Done(subject@, q0));
    if kind_is(toks, *pos, TokenKind::Pipe) {
        *pos = *pos + 1;
        if !kind_is(toks, *pos, TokenKind::RBracket) {
            let ghost spec_m = members_from(s@, toks@, *pos as int, depth as int, Seq::empty());
            let ghost q1 = *pos as int;
            loop
                invariant_except_break
                    spec_m == members_from(s@, toks@, *pos as int, depth as int, models(members@)),
                invariant
                    spec_m == members_from(s@, toks@, q1, depth as int, Seq::empty()),
                    q1 == q0 + 1,
                    is_kind(toks@, q0, TokenKind::Pipe),
                    !is_kind(toks@, q1, TokenKind::RBracket),
                    subject_at(s@, toks@, *old(pos) + 1, Form::Group) == Parsed::Done(subject@, q0),
                    tokens_wf(s@, toks@),
                    *old(pos) < *pos <= toks.len(),
                    diags@.len() == old(diags)@.len(),
                    depth > 0,
                    forall|i: int|
                        0 <= i < members.len() ==> serializable_within(#[trigger] members@[i], depth - 1),
                ensures
                    spec_m == Parsed::Done(models(members@), *pos as int),
                    *old(pos) < *pos <= toks.len(),
                    diags@.len() == old(diags)@.len(),
                    forall|i: int|
                        0 <= i < members.len() ==> serializable_within(#[trigger] members@[i], depth - 1),
                decreases toks.len() - *pos,
            {
                let ghost mb = members@;
                if kind_is(toks, *pos, TokenKind::Ident) {
                    let mut member = Subject::anonymous(Form::Node);
                    member.identity = Symbol(take_ident(s, toks, pos));
                    let m = Pattern::point(member);
                    assert(m.elements@.len() == 0);
                    assert(serializable_within(m, depth - 1));
                    members.push(m);
                    assert(models(members@) =~= models(mb).push(m@));
                } else if *pos < toks.len() && is_item_start(toks[*pos].kind) {
                    match parse_item(s, toks, pos, diags, depth - 1) {
                        Some(p) => {
                            members.push(p);
                            assert(models(members@) =~= models(mb).push(p@));
                        },
                        None => return None,
                    }
                } else {
                    report(s, toks, *pos, diags, DiagnosticKind::Missing, "pattern");
                    return None;
                }
                if kind_is(toks, *pos, TokenKind::Comma) {
                    *pos = *pos + 1;
                } else {
                    break ;
                }
            }
        }
    }
    if !expect(s, toks, pos, diags, TokenKind::RBracket, "]") {
        return None;
    }
    let g = Pattern::pattern(subject, members);
    assert(g@.elements == models(members@));
    proof {
        lemma_members_ok_all(g, g.elements.len() as int, depth - 1);
    }
    Some(g)
}

/// An item at `pos`: annotations, if any, then a path or a subject pattern.
fn parse_item(
    s: &Vec<char>,
    toks: &Vec<Token>,
    pos: &mut usize,
    diags: &mut Vec<Diagnostic>,
    depth: usize,
) -> (r: Option<Pattern<Subject>>)
    requires
        tokens_wf(s@, toks@),
        *old(pos) < toks.len(),
    ensures
        *old(pos) <= *final(pos) <= toks.len(),
        r is Some ==> final(diags)@.len() == old(diags)@.len() && *final(pos) > *old(pos),
        r is None ==> final(diags)@.len() == old(diags)@.len() + 1,
        r matches Some(p) ==> serializable_within(p, depth as int),
        match item_at(s@, toks@, *old(pos) as int, depth as int) {
            Parsed::Done(m, q) => r matches Some(p) && p@ == m && *final(pos) == q,
            Parsed::Fail(f) => r is None && *final(pos) == f,
        },
    decreases depth, 1nat,
{
    let ghost spec_a = annotations_from(s@, toks@, *old(pos) as int, Seq::empty());
    let mut wrapper = Subject::anonymous(Form::Annotated);
    let mut annotated = false;
    while kind_is(toks, *pos, TokenKind::At)
        invariant
            tokens_wf(s@, toks@),
            *old(pos) <= *pos <= toks.len(),
            annotated ==> *pos > *old(pos),
            annotated ==> wrapper.properties@.len() > 0,
            wrapper.wf(),
            subject_ok(wrapper),
            wrapper.form == Form::Annotated,
            wrapper.identity@.len() == 0,
            wrapper.labels.names().len() == 0,
            diags@.len() == old(diags)@.len(),
            annotated == (*pos > *old(pos)),
            spec_a == annotations_from(s@, toks@, *old(pos) as int, Seq::empty()),
            wrapper@ == (SubjectModel { properties: wrapper.properties@, ..anonymous(Form::Annotated) }),
            spec_a == annotations_from(s@, toks@, *pos as int, wrapper.properties@),
        decreases toks.len() - *pos,
    {
        *pos = *pos + 1;
        annotated = true;
        if !kind_is(toks, *pos, TokenKind::Ident) {
            report(s, toks, *pos, diags, DiagnosticKind::Missing, "annotation name");
            return None;
        }
        let key = take_ident(s, toks, pos);
        if !expect(s, toks, pos, diags, TokenKind::LParen, "(") {
            return None;
        }
        let value = match parse_value(s, toks, pos, diags) {
            Some(v) => v,
            None => return None,
        };
        if !expect(s, toks, pos, diags, TokenKind::RParen, ")") {
            return None;
        }
        proof {
            lemma_put_entries_ok(wrapper.properties@, key@, value@);
        }
        wrapper.properties.insert(key, value);
    }
    let inner = match kind_at(toks, *pos) {
        Some(TokenKind::LParen) => parse_path(s, toks, pos, diags, depth),
        Some(TokenKind::LBracket) => parse_group(s, toks, pos, diags, depth),
        _ => {
            report(s, toks, *pos, diags, DiagnosticKind::Missing, "pattern");
            None
        },
    };
    match inner {
        Some(p) => {
            if annotated {
                let mut one: Vec<Pattern<Subject>> = Vec::new();
                one.push(p);
                let w = Pattern::pattern(wrapper, one);
                assert(models(one@) =~= seq![p@]);
                assert(serializable_within(w, depth as int));
                Some(w)
            } else {
                Some(p)
            }
        },
        None => None,
    }
}

/// Parses every item of a token sequence, recording one diagnostic per item
/// that fails and per run of tokens that start no item.
fn parse_items(s: &Vec<char>, toks: &Vec<Token>, diags: &mut Vec<Diagnostic>) -> (r: Vec<
    Pattern<Subject>,
>)
    requires
        tokens_wf(s@, toks@),
    ensures
        toks@.len() == 0 ==> r@.len() == 0 && final(diags)@ == old(diags)@,
        toks@.len() > 0 ==> r@.len() > 0 || final(diags)@.len() > old(diags)@.len(),
        final(diags)@.len() >= old(diags)@.len(),
        forall|i: int| 0 <= i < r@.len() ==> serializable(#[trigger] r@[i]),
        items_from(s@, toks@, 0, Seq::empty(), 0) == (models(r@), (final(diags)@.len()
            - old(diags)@.len()) as nat),
{
    let mut patterns: Vec<Pattern<Subject>> = Vec::new();
    let mut pos: usize = 0;
    assert(models(patterns@) =~= Seq::<Tree<SubjectModel>>::empty());
    while pos < toks.len()
        invariant
            tokens_wf(s@, toks@),
            pos <= toks.len(),
            toks@.len() == 0 ==> patterns@.len() == 0 && diags@ == old(diags)@,
            pos > 0 ==> patterns@.len() > 0 || diags@.len() > old(diags)@.len(),
            diags@.len() >= old(diags)@.len(),
            forall|i: int| 0 <= i < patterns@.len() ==> serializable(#[trigger] patterns@[i]),
            items_from(s@, toks@, pos as int, models(patterns@), (diags@.len() - old(diags)@.len()) as nat)
                == items_from(s@, toks@, 0, Seq::empty(), 0),
        decreases toks.len() - pos,
    {
        let start = pos;
        let ghost pb = patterns@;
        let ok = if is_item_start(toks[pos].kind) {
            match parse_item(s, toks, &mut pos, diags, MAX_DEPTH) {
                Some(p) => {
                    patterns.push(p);
                    assert(models(patterns@) =~= models(pb).push(p@));
                    true
                },
                None => false,
            }
        } else {
            report(s, toks, pos, diags, DiagnosticKind::Syntax, "unexpected token");
            false
        };
        if !ok {
            pos = resume_at(toks, pos, start);
        }
    }
    patterns
}

/// Summary message of a failed parse with `n` diagnosed problems.
pub open spec fn failure_message(n: nat) -> Seq<char> {
    "Parse failed with "@ + nat_text(n) + " error(s)"@
}

/// What holds of every result of `parse_gram_notation` on `text`: blank
/// text gives no patterns and other text gives at least one or an error;
/// every pattern can be written back; an error is one aggregate of at least
/// one diagnostic, with a summary naming their number.
pub open spec fn parse_outcome(text: Seq<char>, r: Result<Vec<Pattern<Subject>>, ParseError>) -> bool {
    &&& blank(text) ==> r is Ok && r->Ok_0@.len() == 0
    &&& (r is Ok <==> document(text) is Some)
    &&& r matches Ok(ps) ==> document(text) == Some(models(ps@))
    &&& r matches Err(e) ==> e.errors@.len() == problems(text)
    &&& r matches Ok(ps) ==> (ps@.len() == 0 <==> blank(text))
    &&& r matches Ok(ps) ==> forall|i: int| 0 <= i < ps@.len() ==> serializable(#[trigger] ps@[i])
    &&& r matches Err(e) ==> e.kind == ParseErrorKind::Aggregate && e.errors@.len() > 0
        && e.message@ == failure_message(e.errors@.len()) && e.location == (Location {
        offset: 0,
        line: 1,
        column: 1,
    })
}

/// The result of `parse_single_pattern` for the parse result `res`: a parse
/// error unchanged, the one pattern, or a count error with no diagnostics.
pub open spec fn single_outcome(
    res: Result<Vec<Pattern<Subject>>, ParseError>,
    r: Result<Pattern<Subject>, ParseError>,
) -> bool {
    match res {
        Err(e) => r == Err::<Pattern<Subject>, ParseError>(e),
        Ok(ps) => if ps@.len() == 1 {
            r == Ok::<Pattern<Subject>, ParseError>(ps@[0])
        } else {
            r matches Err(e) && e.kind == ParseErrorKind::Count && e.errors@.len() == 0
                && e.message@ == count_message(ps@.len()) && e.location == (Location {
                offset: 0,
                line: 1,
                column: 1,
            })
        },
    }
}

/// Parses a Gram document into its patterns, in order. Empty or
/// whitespace-only input gives no patterns. On syntax problems the result is
/// one `ParseError` holding a diagnostic for each.
pub fn parse_gram_notation(input: &str) -> (r: Result<Vec<Pattern<Subject>>, ParseError>)
    ensures
        all_space(input@) ==> r is Ok && r->Ok_0@.len() == 0,
        parse_outcome(input@, r),
        r is Ok <==> document(input@) is Some,
        r matches Ok(ps) ==> document(input@) == Some(models(ps@)),
        r matches Err(e) ==> e.errors@.len() == problems(input@),
{
    let s = chars_of(input);
    let toks = tokenize(&s);
    let mut diags: Vec<Diagnostic> = Vec::new();
    let patterns = parse_items(&s, &toks, &mut diags);
    assert(s@ == input@);
    if diags.len() == 0 {
        Ok(patterns)
    } else {
        let mut msg: Vec<char> = Vec::new();
        push_str(&mut msg, "Parse failed with ");
        push_nat(&mut msg, diags.len() as u64);
        push_str(&mut msg, " error(s)");
        Err(
            ParseError {
                kind: ParseErrorKind::Aggregate,
                location: Location::start(),
                message: string_of(msg.as_slice()),
                errors: diags,
            },
        )
    }
}

/// Message of a count error for `n` patterns.
pub open spec fn count_message(n: nat) -> Seq<char> {
    if n == 0 {
        "Input contains no patterns"@
    } else {
        "Input contains "@ + nat_text(n) + " patterns, expected exactly 1"@
    }
}

/// The one pattern of `patterns`; a count error when there are none or
/// more than one.
pub fn single_pattern(patterns: Vec<Pattern<Subject>>) -> (r: Result<Pattern<Subject>, ParseError>)
    ensures
        patterns@.len() == 1 <==> r is Ok,
        r matches Ok(p) ==> p == patterns@[0],
        r matches Err(e) ==> e.kind == ParseErrorKind::Count && e.errors@.len() == 0
            && e.message@ == count_message(patterns@.len()) && e.location == (Location { offset: 0, line: 1, column: 1 }),
{
    let mut patterns = patterns;
    let n = patterns.len();
    if n == 1 {
        let p = patterns.pop().unwrap();
        return Ok(p);
    }
    let mut msg: Vec<char> = Vec::new();
    if n == 0 {
        push_str(&mut msg, "Input contains no patterns");
    } else {
        push_str(&mut msg, "Input contains ");
        push_nat(&mut msg, n as u64);
        push_str(&mut msg, " patterns, expected exactly 1");
    }
    Err(
        ParseError {
            kind: ParseErrorKind::Count,
            location: Location::start(),
            message: string_of(msg.as_slice()),
            errors: Vec::new(),
        },
    )
}

/// Parses a document that must hold exactly one pattern.
pub fn parse_single_pattern(input: &str) -> (r: Result<Pattern<Subject>, ParseError>)
    ensures
        exists|res| parse_outcome(input@, res) && #[trigger] single_outcome(res, r),
        match document(input@) {
            None => r matches Err(e) && e.kind == ParseErrorKind::Aggregate && e.errors@.len()
                == problems(input@) && e.message@ == failure_message(problems(input@)),
            Some(ms) => if ms.len() == 1 {
                r matches Ok(p) && p@ == ms[0]
            } else {
                r matches Err(e) && e.kind == ParseErrorKind::Count && e.errors@.len() == 0
                    && e.message@ == count_message(ms.len()) && e.location == (Location {
                    offset: 0,
                    line: 1,
                    column: 1,
                })
            },
        },
        blank(input@) ==> (r matches Err(e) && e.kind == ParseErrorKind::Count
            && e.message@ == count_message(0)),
        r matches Ok(p) ==> serializable(p),
{
    let res = parse_gram_notation(input);
    let ghost g = res;
    let r = match res {
        Ok(patterns) => single_pattern(patterns),
        Err(e) => Err(e),
    };
    assert(parse_outcome(input@, g) && single_outcome(g, r));
    proof {
        if g is Ok {
            assert(models(g->Ok_0@).len() == g->Ok_0@.len());
        }
    }
    r
}

/// Whether `input` is a Gram document without syntax problems.
pub fn validate_gram(input: &str) -> (r: bool)
    ensures
        exists|res| parse_outcome(input@, res) && r == (#[trigger] res.is_Ok()),
        r == (document(input@) is Some),
        blank(input@) ==> r,
{
    let res = parse_gram_notation(input);
    let r = res.is_ok();
    assert(parse_outcome(input@, res) && r == res.is_Ok());
    r
}

} // verus!
