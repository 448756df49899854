//! Writes patterns of subjects as Gram notation. Dispatch follows each
//! subject's form; a pattern whose form, element count or values Gram
//! notation cannot express is refused.
use vstd::prelude::*;
use crate::error::{ParseError, SerializeError};
use crate::lexer::blank;
use crate::grammar::{document, problems};
use crate::parser::{failure_message, parse_outcome, MAX_DEPTH};
use crate::parser::parse_gram_notation;
use crate::lexer::{decimal_form, ident_char, ident_start_char, is_identifier, scan_digits};
use crate::pattern::Pattern;
use crate::subject::{
    has_key, properties_put, Arrow, EntryModel, Form, LabelSet, PropertyMap, Subject, Value,
    ValueModel,
};
use crate::text::{chars_of, int_text, push_all, push_int, push_str, string_of};

verus! {

/// A control character: below U+0020, or U+007F.
pub open spec fn is_control(c: char) -> bool {
    (c as u32) < 0x20 || (c as u32) == 0x7f
}

/// The lower-case hexadecimal digit for `d < 16`.
pub open spec fn hex_digit(d: u32) -> char {
    if d < 10 {
        ((d + 48) as u8) as char
    } else {
        ((d + 87) as u8) as char
    }
}

pub open spec fn is_hex(c: char) -> bool {
    ('0' <= c <= '9') || ('a' <= c <= 'f')
}

/// The number a lower-case hexadecimal digit stands for.
pub open spec fn hex_value(c: char) -> u32 {
    if '0' <= c <= '9' {
        (c as u32 - 48) as u32
    } else {
        (c as u32 - 87) as u32
    }
}

/// How a character is written inside a string literal: the quote and the
/// backslash behind a backslash, newline, tab and CR as `\n`, `\t`, `\r`,
/// and the other control characters as `\x` and two hexadecimal digits.
pub open spec fn escape_char(c: char) -> Seq<char> {
    if c == '"' {
        seq!['\\', '"']
    } else if c == '\\' {
        seq!['\\', '\\']
    } else if c == '\n' {
        seq!['\\', 'n']
    } else if c == '\t' {
        seq!['\\', 't']
    } else if c == '\r' {
        seq!['\\', 'r']
    } else if is_control(c) {
        seq!['\\', 'x', hex_digit((c as u32) / 16), hex_digit((c as u32) % 16)]
    } else {
        seq![c]
    }
}

/// The characters of `s`, each escaped.
pub open spec fn escaped(s: Seq<char>) -> Seq<char>
    decreases s.len(),
{
    if s.len() == 0 {
        s
    } else {
        escaped(s.drop_last()) + escape_char(s.last())
    }
}

/// The character that a backslash followed by `c` stands for.
pub open spec fn unescape_char(c: char) -> char {
    if c == 'n' {
        '\n'
    } else if c == 't' {
        '\t'
    } else if c == 'r' {
        '\r'
    } else {
        c
    }
}

/// The characters that the body of a string literal stands for, read from
/// the front: a backslash and the character after it make one character.
pub open spec fn unescaped(s: Seq<char>) -> Seq<char>
    decreases s.len(),
{
    if s.len() == 0 {
        s
    } else if s[0] == '\\' && s.len() >= 4 && s[1] == 'x' && is_hex(s[2]) && is_hex(s[3]) {
        seq![((hex_value(s[2]) * 16 + hex_value(s[3])) as u8) as char] + unescaped(
            s.subrange(4, s.len() as int),
        )
    } else if s[0] == '\\' && s.len() >= 2 {
        seq![unescape_char(s[1])] + unescaped(s.subrange(2, s.len() as int))
    } else {
        seq![s[0]] + unescaped(s.subrange(1, s.len() as int))
    }
}

proof fn lemma_escaped_add(a: Seq<char>, b: Seq<char>)
    ensures
        escaped(a + b) == escaped(a) + escaped(b),
    decreases b.len(),
{
    if b.len() == 0 {
        assert(a + b =~= a);
        assert(escaped(a) + escaped(b) =~= escaped(a));
    } else {
        assert((a + b).drop_last() =~= a + b.drop_last());
        lemma_escaped_add(a, b.drop_last());
        assert(escaped(a) + escaped(b.drop_last()) + escape_char(b.last()) =~= escaped(a) + (
        escaped(b.drop_last()) + escape_char(b.last())));
    }
}

proof fn lemma_hex_round_trip(c: char)
    requires
        is_control(c),
    ensures
        is_hex(hex_digit((c as u32) / 16)),
        is_hex(hex_digit((c as u32) % 16)),
        ((hex_value(hex_digit((c as u32) / 16)) * 16 + hex_value(hex_digit((c as u32) % 16))) as u8) as char == c,
{
    let v = c as u32;
    assert(v / 16 < 16 && v % 16 < 16);
    assert(hex_value(hex_digit(v / 16)) == v / 16);
    assert(hex_value(hex_digit(v % 16)) == v % 16);
    assert((v / 16) * 16 + v % 16 == v);
    assert(((v as u8) as char) as u32 == v);
}

/// Reading back an escaped string gives the string: escaping, which
/// serialization applies to string values, is exactly inverted by parsing.
pub proof fn lemma_unescaped_escaped(s: Seq<char>)
    ensures
        unescaped(escaped(s)) == s,
    decreases s.len(),
{
    if s.len() > 0 {
        let c = s[0];
        let rest = s.subrange(1, s.len() as int);
        assert(s =~= seq![c] + rest);
        lemma_escaped_add(seq![c], rest);
        assert(seq![c].drop_last() =~= Seq::<char>::empty());
        assert(seq![c].last() == c);
        assert(escaped(Seq::<char>::empty()) == Seq::<char>::empty());
        assert(escaped(seq![c]) =~= escape_char(c));
        lemma_unescaped_escaped(rest);
        let e = escape_char(c) + escaped(rest);
        if is_control(c) && escape_char(c).len() == 4 {
            lemma_hex_round_trip(c);
            assert(e.subrange(4, e.len() as int) =~= escaped(rest));
        } else if escape_char(c).len() == 2 {
            assert(e.subrange(2, e.len() as int) =~= escaped(rest));
        } else {
            assert(e.subrange(1, e.len() as int) =~= escaped(rest));
        }
        assert(unescaped(e) =~= seq![c] + rest);
    }
}

/// Text of a literal value.
pub open spec fn value_text(v: ValueModel) -> Seq<char> {
    match v {
        ValueModel::Str(s) => seq!['"'] + escaped(s) + seq!['"'],
        ValueModel::Integer(i) => int_text(i),
        ValueModel::Decimal(s) => s,
        ValueModel::Boolean(b) => if b {
            "true"@
        } else {
            "false"@
        },
        ValueModel::Symbol(s) => s,
    }
}

/// A value that reads back as itself.
pub open spec fn value_ok(v: ValueModel) -> bool {
    match v {
        ValueModel::Symbol(s) => is_identifier(s) && s != "true"@ && s != "false"@,
        ValueModel::Decimal(s) => decimal_form(s),
        _ => true,
    }
}

/// `:L1:L2...`
pub open spec fn labels_text(ns: Seq<Seq<char>>) -> Seq<char>
    decreases ns.len(),
{
    if ns.len() == 0 {
        Seq::empty()
    } else {
        labels_text(ns.drop_last()) + seq![':'] + ns.last()
    }
}

/// `key: value`
pub open spec fn entry_text(e: EntryModel) -> Seq<char> {
    e.0 + ": "@ + value_text(e.1)
}

/// `k1: v1, k2: v2, ...`
pub open spec fn entries_text(es: Seq<EntryModel>) -> Seq<char>
    decreases es.len(),
{
    if es.len() == 0 {
        Seq::empty()
    } else if es.len() == 1 {
        entry_text(es[0])
    } else {
        entries_text(es.drop_last()) + ", "@ + entry_text(es.last())
    }
}

/// `@k1(v1) @k2(v2) ` with a space after each.
pub open spec fn annotations_text(es: Seq<EntryModel>) -> Seq<char>
    decreases es.len(),
{
    if es.len() == 0 {
        Seq::empty()
    } else {
        annotations_text(es.drop_last()) + seq!['@'] + es.last().0 + seq!['('] + value_text(
            es.last().1,
        ) + ") "@
    }
}

/// Identity, labels and property block of a subject.
pub open spec fn subject_text(s: Subject) -> Seq<char> {
    let head = s.identity@ + labels_text(s.labels.names());
    if s.properties@.len() == 0 {
        head
    } else if head.len() == 0 {
        "{"@ + entries_text(s.properties@) + "}"@
    } else {
        head + " {"@ + entries_text(s.properties@) + "}"@
    }
}

/// A subject with no identity, labels or properties.
pub open spec fn subject_plain(s: Subject) -> bool {
    s.identity@.len() == 0 && s.labels.names().len() == 0 && s.properties@.len() == 0
}

/// Labels listed once, keys unique, and identity, labels, keys and values
/// all read back as themselves.
pub open spec fn subject_ok(s: Subject) -> bool {
    &&& s.wf()
    &&& (s.identity@.len() == 0 || is_identifier(s.identity@))
    &&& forall|i: int| 0 <= i < s.labels.names().len() ==> is_identifier(#[trigger] s.labels.names()[i])
    &&& forall|i: int| 0 <= i < s.properties@.len() ==> entry_ok(#[trigger] s.properties@[i])
}

/// A property whose key and value read back as themselves.
pub open spec fn entry_ok(e: EntryModel) -> bool {
    is_identifier(e.0) && value_ok(e.1)
}

/// Text of an arrow carrying the relationship's subject.
pub open spec fn arrow_text(a: Arrow, s: Subject) -> Seq<char> {
    if subject_plain(s) {
        match a {
            Arrow::Right => "-->"@,
            Arrow::Left => "<--"@,
            Arrow::Both => "<-->"@,
            Arrow::Squiggle => "~~"@,
        }
    } else {
        match a {
            Arrow::Right => "-["@ + subject_text(s) + "]->"@,
            Arrow::Left => "<-["@ + subject_text(s) + "]-"@,
            Arrow::Both => "<-["@ + subject_text(s) + "]->"@,
            Arrow::Squiggle => "~["@ + subject_text(s) + "]~"@,
        }
    }
}

/// An atomic pattern of node form that can be written.
pub open spec fn node_ok(p: Pattern<Subject>) -> bool {
    p.value.form == Form::Node && p.elements.len() == 0 && subject_ok(p.value)
}

/// Whether Gram notation can express `p`, within the nesting that the
/// parser accepts.
pub open spec fn serializable(p: Pattern<Subject>) -> bool {
    serializable_within(p, MAX_DEPTH as int)
}

/// Whether Gram notation can express `p` with at most `d` levels of
/// nesting: each subject pattern and each arrow of a chain takes one.
pub open spec fn serializable_within(p: Pattern<Subject>, d: int) -> bool
    decreases p, p.elements.len() + 1,
{
    match p.value.form {
        Form::Node => node_ok(p),
        Form::Relationship(_) => {
            &&& d >= 1
            &&& p.elements.len() == 2
            &&& subject_ok(p.value)
            &&& node_ok(p.elements[0])
            &&& (p.elements[1].value.form is Node || p.elements[1].value.form is Relationship)
            &&& serializable_within(p.elements[1], d - 1)
        },
        Form::Group => d >= 1 && subject_ok(p.value) && members_ok(p, p.elements.len() as int, d - 1),
        Form::Annotated => {
            &&& p.elements.len() == 1
            &&& subject_ok(p.value)
            &&& p.value.identity@.len() == 0
            &&& p.value.labels.names().len() == 0
            &&& p.value.properties@.len() > 0
            &&& !(p.elements[0].value.form is Annotated)
            &&& serializable_within(p.elements[0], d)
        },
    }
}

/// The first `n` elements of `p` are serializable within `d` levels.
pub open spec fn members_ok(p: Pattern<Subject>, n: int, d: int) -> bool
    decreases p, n,
{
    if n <= 0 || n > p.elements.len() {
        true
    } else {
        members_ok(p, n - 1, d) && serializable_within(p.elements[n - 1], d)
    }
}

/// Room for more nesting does no harm.
pub proof fn lemma_within_more(p: Pattern<Subject>, d: int, e: int)
    requires
        serializable_within(p, d),
        d <= e,
    ensures
        serializable_within(p, e),
    decreases p, p.elements.len() + 1,
{
    match p.value.form {
        Form::Node => {},
        Form::Relationship(_) => {
            lemma_within_more(p.elements[1], d - 1, e - 1);
        },
        Form::Group => {
            lemma_members_more(p, p.elements.len() as int, d - 1, e - 1);
        },
        Form::Annotated => {
            lemma_within_more(p.elements[0], d, e);
        },
    }
}

proof fn lemma_members_more(p: Pattern<Subject>, n: int, d: int, e: int)
    requires
        members_ok(p, n, d),
        d <= e,
    ensures
        members_ok(p, n, e),
    decreases p, n,
{
    if 0 < n <= p.elements.len() {
        lemma_members_more(p, n - 1, d, e);
        lemma_within_more(p.elements[n - 1], d, e);
    }
}

/// The Gram text of `p`.
pub open spec fn gram_text(p: Pattern<Subject>) -> Seq<char>
    decreases p, p.elements.len() + 1,
{
    match p.value.form {
        Form::Node => "("@ + subject_text(p.value) + ")"@,
        Form::Relationship(a) => if p.elements.len() == 2 {
            gram_text(p.elements[0]) + arrow_text(a, p.value) + gram_text(p.elements[1])
        } else {
            Seq::empty()
        },
        Form::Group => if p.elements.len() == 0 {
            "["@ + subject_text(p.value) + "]"@
        } else {
            "["@ + subject_text(p.value) + " | "@ + members_text(p, p.elements.len() as int)
                + "]"@
        },
        Form::Annotated => if p.elements.len() == 1 {
            annotations_text(p.value.properties@) + gram_text(p.elements[0])
        } else {
            Seq::empty()
        },
    }
}

/// The first `n` elements of `p`, written and separated by `, `.
pub open spec fn members_text(p: Pattern<Subject>, n: int) -> Seq<char>
    decreases p, n,
{
    if n <= 0 || n > p.elements.len() {
        Seq::empty()
    } else if n == 1 {
        gram_text(p.elements[0])
    } else {
        members_text(p, n - 1) + ", "@ + gram_text(p.elements[n - 1])
    }
}

/// The texts of `ps`, one per line.
pub open spec fn patterns_text(ps: Seq<Pattern<Subject>>) -> Seq<char>
    decreases ps.len(),
{
    if ps.len() == 0 {
        Seq::empty()
    } else if ps.len() == 1 {
        gram_text(ps[0])
    } else {
        patterns_text(ps.drop_last()) + seq!['\n'] + gram_text(ps.last())
    }
}

fn is_decimal_text(s: &String) -> (r: bool)
    ensures
        r == decimal_form(s@),
{
    let cs = chars_of(s.as_str());
    let a: usize = if cs.len() > 0 && cs[0] == '-' {
        1
    } else {
        0
    };
    let b = scan_digits(&cs, a);
    if !(b > a && b < cs.len() && cs[b] == '.') {
        return false;
    }
    let c = scan_digits(&cs, b + 1);
    if c <= b + 1 {
        return false;
    }
    if c == cs.len() {
        return true;
    }
    if !(cs[c] == 'e' || cs[c] == 'E') {
        return false;
    }
    let d: usize = if c + 1 < cs.len() && (cs[c + 1] == '+' || cs[c + 1] == '-') {
        c + 2
    } else {
        c + 1
    };
    if d > cs.len() {
        return false;
    }
    let e = scan_digits(&cs, d);
    e > d && e == cs.len()
}

fn is_identifier_text(s: &String) -> (r: bool)
    ensures
        r == is_identifier(s@),
{
    let cs = chars_of(s.as_str());
    if cs.len() == 0 || !ident_start_char(cs[0]) {
        return false;
    }
    let mut i: usize = 0;
    while i < cs.len()
        invariant
            i <= cs.len(),
            cs@ == s@,
            forall|k: int| 0 <= k < i ==> crate::lexer::is_ident_char(#[trigger] cs@[k]),
        decreases cs.len() - i,
    {
        if !ident_char(cs[i]) {
            return false;
        }
        i = i + 1;
    }
    true
}

fn is_word(s: &String, w: &str) -> (r: bool)
    ensures
        r == (s@ == w@),
{
    let owned = w.to_string();
    *s == owned
}

fn value_is_ok(v: &Value) -> (r: bool)
    ensures
        r == value_ok(v@),
{
    match v {
        Value::Symbol(s) => is_identifier_text(s) && !is_word(s, "true") && !is_word(s, "false"),
        Value::Decimal(s) => is_decimal_text(s),
        _ => true,
    }
}

fn subject_is_ok(s: &Subject) -> (r: bool)
    ensures
        r == subject_ok(*s),
{
    if !s.labels.is_wf() || !s.properties.is_wf() {
        return false;
    }
    if !(s.identity.0.as_str().is_empty() || is_identifier_text(&s.identity.0)) {
        return false;
    }
    let mut i: usize = 0;
    while i < s.labels.len()
        invariant
            i <= s.labels.names().len(),
            s.identity@.len() == 0 || is_identifier(s.identity@),
            forall|k: int| 0 <= k < i ==> is_identifier(#[trigger] s.labels.names()[k]),
        decreases s.labels.names().len() - i,
    {
        if !is_identifier_text(s.labels.get(i)) {
            return false;
        }
        i = i + 1;
    }
    let mut j: usize = 0;
    while j < s.properties.len()
        invariant
            j <= s.properties@.len(),
            s.identity@.len() == 0 || is_identifier(s.identity@),
            forall|k: int| 0 <= k < s.labels.names().len() ==> is_identifier(#[trigger] s.labels.names()[k]),
            forall|k: int| 0 <= k < j ==> entry_ok(#[trigger] s.properties@[k]),
        decreases s.properties@.len() - j,
    {
        let key_ok = is_identifier_text(s.properties.key_at(j));
        let val_ok = value_is_ok(s.properties.value_at(j));
        if !key_ok || !val_ok {
            return false;
        }
        assert(entry_ok(s.properties@[j as int]));
        j = j + 1;
    }
    true
}

fn is_node_ok(p: &Pattern<Subject>) -> (r: bool)
    ensures
        r == node_ok(*p),
{
    p.value.form == Form::Node && p.elements.len() == 0 && subject_is_ok(&p.value)
}

/// Whether Gram notation can express `p`.
pub fn is_serializable(p: &Pattern<Subject>) -> (r: bool)
    ensures
        r == serializable(*p),
{
    is_serializable_within(p, MAX_DEPTH)
}

/// Whether Gram notation can express `p` within `d` levels of nesting.
fn is_serializable_within(p: &Pattern<Subject>, d: usize) -> (r: bool)
    ensures
        r == serializable_within(*p, d as int),
    decreases p,
{
    match p.value.form {
        Form::Node => is_node_ok(p),
        Form::Relationship(_) => {
            d >= 1 && p.elements.len() == 2 && subject_is_ok(&p.value) && is_node_ok(&p.elements[0]) && (
            match p.elements[1].value.form {
                Form::Node | Form::Relationship(_) => true,
                _ => false,
            }) && is_serializable_within(&p.elements[1], d - 1)
        },
        Form::Group => {
            if d == 0 || !subject_is_ok(&p.value) {
                return false;
            }
            let mut i: usize = 0;
            while i < p.elements.len()
                invariant
                    i <= p.elements.len(),
                    d >= 1,
                    p.value.form == Form::Group,
                    subject_ok(p.value),
                    members_ok(*p, i as int, d - 1),
                decreases p.elements.len() - i,
            {
                if !is_serializable_within(&p.elements[i], d - 1) {
                    proof {
                        if members_ok(*p, p.elements.len() as int, d - 1) {
                            lemma_members_ok_prefix(*p, p.elements.len() as int, i as int, d - 1);
                        }
                    }
                    return false;
                }
                i = i + 1;
            }
            true
        },
        Form::Annotated => {
            p.elements.len() == 1 && subject_is_ok(&p.value) && p.value.identity.0.as_str().is_empty()
                && p.value.labels.len() == 0 && p.value.properties.len() > 0 && (
            match p.elements[0].value.form {
                Form::Annotated => false,
                _ => true,
            }) && is_serializable_within(&p.elements[0], d)
        },
    }
}

/// Setting a key that reads back to a value that reads back keeps every
/// entry readable, and leaves at least one entry.
pub proof fn lemma_put_entries_ok(s: Seq<EntryModel>, k: Seq<char>, v: ValueModel)
    requires
        forall|i: int| 0 <= i < s.len() ==> entry_ok(#[trigger] s[i]),
        is_identifier(k),
        value_ok(v),
    ensures
        forall|i: int|
            0 <= i < properties_put(s, k, v).len() ==> entry_ok(#[trigger] properties_put(s, k, v)[i]),
        properties_put(s, k, v).len() >= 1,
        properties_put(s, k, v).len() >= s.len(),
{
    if has_key(s, k) {
        let i = choose|i: int| 0 <= i < s.len() && #[trigger] s[i].0 == k;
        assert(s.len() >= 1);
    }
}

/// The first `n` elements of `p` are serializable when each is.
pub proof fn lemma_members_ok_all(p: Pattern<Subject>, n: int, d: int)
    requires
        0 <= n <= p.elements.len(),
        forall|i: int| 0 <= i < n ==> serializable_within(#[trigger] p.elements[i], d),
    ensures
        members_ok(p, n, d),
    decreases n,
{
    if n > 0 {
        lemma_members_ok_all(p, n - 1, d);
    }
}

proof fn lemma_members_ok_prefix(p: Pattern<Subject>, n: int, i: int, d: int)
    requires
        0 <= i < n <= p.elements.len(),
        members_ok(p, n, d),
    ensures
        serializable_within(p.elements[i], d),
    decreases n,
{
    if i < n - 1 {
        lemma_members_ok_prefix(p, n - 1, i, d);
    }
}

fn hex_char(d: u32) -> (r: char)
    requires
        d < 16,
    ensures
        r == hex_digit(d),
{
    if d < 10 {
        ((d + 48) as u8) as char
    } else {
        ((d + 87) as u8) as char
    }
}

/// Whether `c` is a lower-case hexadecimal digit.
pub fn hex_char_ok(c: char) -> (r: bool)
    ensures
        r == is_hex(c),
{
    ('0' <= c && c <= '9') || ('a' <= c && c <= 'f')
}

/// The number a lower-case hexadecimal digit stands for.
pub fn hex_char_value(c: char) -> (r: u32)
    requires
        is_hex(c),
    ensures
        r == hex_value(c),
        r < 16,
{
    if '0' <= c && c <= '9' {
        c as u32 - 48
    } else {
        c as u32 - 87
    }
}

fn push_escaped(out: &mut Vec<char>, s: &String)
    ensures
        final(out)@ == old(out)@ + escaped(s@),
{
    let cs = chars_of(s.as_str());
    let ghost start = out@;
    let mut i: usize = 0;
    while i < cs.len()
        invariant
            i <= cs.len(),
            cs@ == s@,
            out@ == start + escaped(cs@.subrange(0, i as int)),
        decreases cs.len() - i,
    {
        let c = cs[i];
        assert(cs@.subrange(0, i + 1).drop_last() =~= cs@.subrange(0, i as int));
        let ghost mid = out@;
        if c == '"' {
            out.push('\\');
            out.push('"');
        } else if c == '\\' {
            out.push('\\');
            out.push('\\');
        } else if c == '\n' {
            out.push('\\');
            out.push('n');
        } else if c == '\t' {
            out.push('\\');
            out.push('t');
        } else if c == '\r' {
            out.push('\\');
            out.push('r');
        } else if (c as u32) < 0x20 || (c as u32) == 0x7f {
            out.push('\\');
            out.push('x');
            out.push(hex_char((c as u32) / 16));
            out.push(hex_char((c as u32) % 16));
        } else {
            out.push(c);
        }
        assert(out@ =~= mid + escape_char(c));
        i = i + 1;
        assert(out@ =~= start + escaped(cs@.subrange(0, i as int)));
    }
    assert(cs@.subrange(0, cs.len() as int) =~= cs@);
}

fn push_string(out: &mut Vec<char>, s: &String)
    ensures
        final(out)@ == old(out)@ + s@,
{
    let cs = chars_of(s.as_str());
    push_all(out, &cs);
}

fn push_value(out: &mut Vec<char>, v: &Value)
    ensures
        final(out)@ == old(out)@ + value_text(v@),
{
    match v {
        Value::Str(s) => {
            let ghost start = out@;
            out.push('"');
            push_escaped(out, s);
            out.push('"');
            assert(out@ =~= start + value_text(v@));
        },
        Value::Integer(i) => push_int(out, *i),
        Value::Decimal(s) => push_string(out, s),
        Value::Boolean(b) => {
            if *b {
                push_str(out, "true");
            } else {
                push_str(out, "false");
            }
        },
        Value::Symbol(s) => push_string(out, s),
    }
}

fn push_labels(out: &mut Vec<char>, labels: &LabelSet)
    ensures
        final(out)@ == old(out)@ + labels_text(labels.names()),
{
    let ghost start = out@;
    let mut i: usize = 0;
    while i < labels.len()
        invariant
            i <= labels.names().len(),
            out@ == start + labels_text(labels.names().subrange(0, i as int)),
        decreases labels.names().len() - i,
    {
        assert(labels.names().subrange(0, i + 1).drop_last() =~= labels.names().subrange(0, i as int));
        out.push(':');
        push_string(out, labels.get(i));
        i = i + 1;
        assert(out@ =~= start + labels_text(labels.names().subrange(0, i as int)));
    }
    assert(labels.names().subrange(0, labels.names().len() as int) =~= labels.names());
}

fn push_entry(out: &mut Vec<char>, props: &PropertyMap, i: usize)
    requires
        i < props@.len(),
    ensures
        final(out)@ == old(out)@ + entry_text(props@[i as int]),
{
    let ghost start = out@;
    push_string(out, props.key_at(i));
    push_str(out, ": ");
    push_value(out, props.value_at(i));
    assert(out@ =~= start + entry_text(props@[i as int]));
}

fn push_entries(out: &mut Vec<char>, props: &PropertyMap)
    ensures
        final(out)@ == old(out)@ + entries_text(props@),
{
    let ghost start = out@;
    let mut i: usize = 0;
    while i < props.len()
        invariant
            i <= props@.len(),
            out@ == start + entries_text(props@.subrange(0, i as int)),
        decreases props@.len() - i,
    {
        assert(props@.subrange(0, i + 1).drop_last() =~= props@.subrange(0, i as int));
        let ghost mid = out@;
        if i > 0 {
            push_str(out, ", ");
        }
        push_entry(out, props, i);
        i = i + 1;
        if i == 1 {
            assert(out@ =~= start + entries_text(props@.subrange(0, i as int)));
        } else {
            assert(out@ =~= start + entries_text(props@.subrange(0, i as int)));
        }
    }
    assert(props@.subrange(0, props@.len() as int) =~= props@);
}

fn push_annotations(out: &mut Vec<char>, props: &PropertyMap)
    ensures
        final(out)@ == old(out)@ + annotations_text(props@),
{
    let ghost start = out@;
    let mut i: usize = 0;
    while i < props.len()
        invariant
            i <= props@.len(),
            out@ == start + annotations_text(props@.subrange(0, i as int)),
        decreases props@.len() - i,
    {
        assert(props@.subrange(0, i + 1).drop_last() =~= props@.subrange(0, i as int));
        let ghost mid = out@;
        out.push('@');
        push_string(out, props.key_at(i));
        out.push('(');
        push_value(out, props.value_at(i));
        push_str(out, ") ");
        i = i + 1;
        assert(out@ =~= start + annotations_text(props@.subrange(0, i as int)));
    }
    assert(props@.subrange(0, props@.len() as int) =~= props@);
}

fn push_subject(out: &mut Vec<char>, s: &Subject)
    ensures
        final(out)@ == old(out)@ + subject_text(*s),
{
    let ghost start = out@;
    push_string(out, &s.identity.0);
    push_labels(out, &s.labels);
    let head_empty = s.identity.0.as_str().is_empty() && s.labels.len() == 0;
    if s.properties.len() > 0 {
        if head_empty {
            push_str(out, "{");
        } else {
            push_str(out, " {");
        }
        push_entries(out, &s.properties);
        push_str(out, "}");
    }
    assert(out@ =~= start + subject_text(*s));
}

fn push_arrow(out: &mut Vec<char>, a: Arrow, s: &Subject)
    ensures
        final(out)@ == old(out)@ + arrow_text(a, *s),
{
    let plain = s.identity.0.as_str().is_empty() && s.labels.len() == 0 && s.properties.len() == 0;
    let ghost start = out@;
    if plain {
        match a {
            Arrow::Right => push_str(out, "-->"),
            Arrow::Left => push_str(out, "<--"),
            Arrow::Both => push_str(out, "<-->"),
            Arrow::Squiggle => push_str(out, "~~"),
        }
    } else {
        match a {
            Arrow::Right => push_str(out, "-["),
            Arrow::Left => push_str(out, "<-["),
            Arrow::Both => push_str(out, "<-["),
            Arrow::Squiggle => push_str(out, "~["),
        }
        push_subject(out, s);
        match a {
            Arrow::Right => push_str(out, "]->"),
            Arrow::Left => push_str(out, "]-"),
            Arrow::Both => push_str(out, "]->"),
            Arrow::Squiggle => push_str(out, "]~"),
        }
    }
    assert(out@ =~= start + arrow_text(a, *s));
}

/// Appends the Gram text of `p` to `out`.
pub fn write_pattern(out: &mut Vec<char>, p: &Pattern<Subject>)
    ensures
        final(out)@ == old(out)@ + gram_text(*p),
    decreases p,
{
    let ghost start = out@;
    match p.value.form {
        Form::Node => {
            push_str(out, "(");
            push_subject(out, &p.value);
            push_str(out, ")");
        },
        Form::Relationship(a) => {
            if p.elements.len() == 2 {
                write_pattern(out, &p.elements[0]);
                push_arrow(out, a, &p.value);
                write_pattern(out, &p.elements[1]);
            }
        },
        Form::Group => {
            push_str(out, "[");
            push_subject(out, &p.value);
            if p.elements.len() > 0 {
                push_str(out, " | ");
                let ghost before = out@;
                let mut i: usize = 0;
                while i < p.elements.len()
                    invariant
                        i <= p.elements.len(),
                        out@ == before + members_text(*p, i as int),
                    decreases p.elements.len() - i,
                {
                    if i > 0 {
                        push_str(out, ", ");
                    }
                    write_pattern(out, &p.elements[i]);
                    i = i + 1;
                    assert(out@ =~= before + members_text(*p, i as int));
                }
            }
            push_str(out, "]");
        },
        Form::Annotated => {
            if p.elements.len() == 1 {
                push_annotations(out, &p.value.properties);
                write_pattern(out, &p.elements[0]);
            }
        },
    }
    assert(out@ =~= start + gram_text(*p));
}

/// Writes `p` as Gram notation; refused exactly when Gram notation cannot
/// express it.
pub fn serialize_pattern(pattern: &Pattern<Subject>) -> (r: Result<String, SerializeError>)
    ensures
        r is Ok <==> serializable(*pattern),
        r matches Ok(s) ==> s@ == gram_text(*pattern),
{
    if !is_serializable(pattern) {
        if !is_serializable_within(pattern, usize::MAX) {
            return Err(SerializeError::invalid_structure("pattern shape cannot be written as Gram notation"));
        }
        return Err(SerializeError::invalid_structure("pattern nested too deep"));
    }
    let mut out: Vec<char> = Vec::new();
    write_pattern(&mut out, pattern);
    Ok(string_of(out.as_slice()))
}

/// Writes each pattern on a line of its own; refused when any one cannot
/// be written.
pub fn serialize_patterns(patterns: &[Pattern<Subject>]) -> (r: Result<String, SerializeError>)
    ensures
        r is Ok <==> forall|i: int| 0 <= i < patterns@.len() ==> serializable(#[trigger] patterns@[i]),
        r matches Ok(s) ==> s@ == patterns_text(patterns@),
{
    let mut i: usize = 0;
    while i < patterns.len()
        invariant
            i <= patterns@.len(),
            forall|k: int| 0 <= k < i ==> serializable(#[trigger] patterns@[k]),
        decreases patterns@.len() - i,
    {
        if !is_serializable(&patterns[i]) {
            return Err(SerializeError::invalid_structure("pattern shape cannot be written as Gram notation"));
        }
        i = i + 1;
    }
    let mut out: Vec<char> = Vec::new();
    let mut j: usize = 0;
    while j < patterns.len()
        invariant
            j <= patterns@.len(),
            out@ == patterns_text(patterns@.subrange(0, j as int)),
        decreases patterns@.len() - j,
    {
        assert(patterns@.subrange(0, j + 1).drop_last() =~= patterns@.subrange(0, j as int));
        if j > 0 {
            out.push('\n');
        }
        write_pattern(&mut out, &patterns[j]);
        j = j + 1;
        assert(out@ =~= patterns_text(patterns@.subrange(0, j as int)));
    }
    assert(patterns@.subrange(0, patterns@.len() as int) =~= patterns@);
    Ok(string_of(out.as_slice()))
}

/// The result of `round_trip` for the parse result `res`: the parse error's
/// message behind "Parse error: ", or the text of the patterns.
pub open spec fn round_trip_outcome(
    res: Result<Vec<Pattern<Subject>>, ParseError>,
    r: Result<String, String>,
) -> bool {
    match res {
        Err(e) => r matches Err(m) && m@ == "Parse error: "@ + e.message@,
        Ok(ps) => r matches Ok(t) && t@ == patterns_text(ps@),
    }
}

/// Parses `input` and writes its patterns back, one per line. Writing never
/// fails on what parsing returns, so the only error is a parse error.
pub fn round_trip(input: &str) -> (r: Result<String, String>)
    ensures
        exists|res| parse_outcome(input@, res) && #[trigger] round_trip_outcome(res, r),
        match document(input@) {
            None => r matches Err(m) && m@ == "Parse error: "@ + failure_message(problems(input@)),
            Some(_) => r is Ok,
        },
        blank(input@) ==> (r matches Ok(s) && s@.len() == 0),
        r matches Err(m) ==> exists|n: nat|
            n > 0 && m@ == "Parse error: "@ + #[trigger] failure_message(n),
{
    let res = parse_gram_notation(input);
    let ghost g = res;
    let patterns = match res {
        Ok(ps) => ps,
        Err(e) => {
            let mut msg: Vec<char> = Vec::new();
            push_str(&mut msg, "Parse error: ");
            push_string(&mut msg, &e.message);
            assert(msg@ == "Parse error: "@ + failure_message(e.errors@.len()));
            let r = Err(string_of(msg.as_slice()));
            assert(round_trip_outcome(g, r));
            return r;
        },
    };
    let r = match serialize_patterns(patterns.as_slice()) {
        Ok(s) => Ok(s),
        Err(e) => {
            let mut msg: Vec<char> = Vec::new();
            push_str(&mut msg, "Serialize error: ");
            push_string(&mut msg, &e.reason);
            Err(string_of(msg.as_slice()))
        },
    };
    assert(patterns@ == g->Ok_0@);
    assert(round_trip_outcome(g, r));
    r
}

} // verus!
