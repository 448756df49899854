//! Literal values, symbols and subjects: the payload of a Gram pattern.
use vstd::prelude::*;
use crate::pattern::{mix, Combinable, PatternValue, HASH_SEED};
use crate::text::{chars_of, push_all, string_of};

verus! {

/// Running hash of a character sequence.
pub open spec fn text_digest(s: Seq<char>) -> u64
    decreases s.len(),
{
    if s.len() == 0 {
        HASH_SEED
    } else {
        mix(text_digest(s.drop_last()), (s.last() as u32) as u64)
    }
}

/// Hash of a string's characters.
pub fn text_hash(s: &String) -> (r: u64)
    ensures
        r == text_digest(s@),
{
    let cs = chars_of(s.as_str());
    let mut h: u64 = HASH_SEED;
    let mut i: usize = 0;
    while i < cs.len()
        invariant
            i <= cs.len(),
            cs@ == s@,
            h == text_digest(cs@.subrange(0, i as int)),
        decreases cs.len() - i,
    {
        assert(cs@.subrange(0, i + 1).drop_last() =~= cs@.subrange(0, i as int));
        h = (h ^ ((cs[i] as u32) as u64)).wrapping_mul(0x100000001b3u64);
        i = i + 1;
    }
    assert(cs@.subrange(0, cs.len() as int) =~= cs@);
    h
}

impl PatternValue for String {
    open spec fn digest(v: Seq<char>) -> u64 {
        text_digest(v)
    }

    fn same(&self, other: &Self) -> (r: bool) {
        *self == *other
    }

    fn value_hash(&self) -> (r: u64) {
        text_hash(self)
    }

    fn duplicate(&self) -> (r: Self) {
        self.clone()
    }
}

impl Combinable for String {
    open spec fn merged(a: Seq<char>, b: Seq<char>) -> Seq<char> {
        a + b
    }

    fn combine(self, other: Self) -> (r: Self) {
        let mut cs = chars_of(self.as_str());
        let more = chars_of(other.as_str());
        push_all(&mut cs, &more);
        string_of(cs.as_slice())
    }

    proof fn lemma_merged_associative(a: Seq<char>, b: Seq<char>, c: Seq<char>) {
        assert(a + b + c =~= a + (b + c));
    }
}

/// An identifier or label; the empty symbol stands for "anonymous".
#[derive(Debug)]
pub struct Symbol(pub String);

impl View for Symbol {
    type V = Seq<char>;

    open spec fn view(&self) -> Seq<char> {
        self.0@
    }
}

impl Symbol {
    pub fn new(s: &str) -> (r: Symbol)
        ensures
            r@ == s@,
    {
        Symbol(s.to_string())
    }

    pub fn duplicate(&self) -> (r: Symbol)
        ensures
            r@ == self@,
    {
        Symbol(self.0.clone())
    }
}

/// Model of a literal value.
pub enum ValueModel {
    Str(Seq<char>),
    Integer(int),
    Decimal(Seq<char>),
    Boolean(bool),
    Symbol(Seq<char>),
}

/// A literal usable as a property value or an annotation argument.
#[derive(Debug)]
pub enum Value {
    /// A double-quoted string, held unescaped.
    Str(String),
    /// A decimal integer.
    Integer(i64),
    /// A number with a fraction and an optional exponent, held as its text.
    Decimal(String),
    /// `true` or `false`.
    Boolean(bool),
    /// A bare identifier.
    Symbol(String),
}

impl View for Value {
    type V = ValueModel;

    open spec fn view(&self) -> ValueModel {
        match self {
            Value::Str(s) => ValueModel::Str(s@),
            Value::Integer(i) => ValueModel::Integer(*i as int),
            Value::Decimal(s) => ValueModel::Decimal(s@),
            Value::Boolean(b) => ValueModel::Boolean(*b),
            Value::Symbol(s) => ValueModel::Symbol(s@),
        }
    }
}

impl Value {
    /// Equality of models.
    pub fn same(&self, other: &Value) -> (r: bool)
        ensures
            r == (self@ == other@),
    {
        match (self, other) {
            (Value::Str(a), Value::Str(b)) => *a == *b,
            (Value::Integer(a), Value::Integer(b)) => *a == *b,
            (Value::Decimal(a), Value::Decimal(b)) => *a == *b,
            (Value::Boolean(a), Value::Boolean(b)) => *a == *b,
            (Value::Symbol(a), Value::Symbol(b)) => *a == *b,
            _ => false,
        }
    }

    pub fn duplicate(&self) -> (r: Value)
        ensures
            r@ == self@,
    {
        match self {
            Value::Str(s) => Value::Str(s.clone()),
            Value::Integer(i) => Value::Integer(*i),
            Value::Decimal(s) => Value::Decimal(s.clone()),
            Value::Boolean(b) => Value::Boolean(*b),
            Value::Symbol(s) => Value::Symbol(s.clone()),
        }
    }
}

/// Model of one property: its key and the model of its value.
pub type EntryModel = (Seq<char>, ValueModel);

/// Whether some entry of `s` has key `k`.
pub open spec fn has_key(s: Seq<EntryModel>, k: Seq<char>) -> bool {
    exists|i: int| 0 <= i < s.len() && #[trigger] s[i].0 == k
}

/// The entries of `a` whose key no entry of `b` has, in order.
pub open spec fn without_keys(a: Seq<EntryModel>, b: Seq<EntryModel>) -> Seq<EntryModel>
    decreases a.len(),
{
    if a.len() == 0 {
        a
    } else {
        let rest = without_keys(a.drop_last(), b);
        if has_key(b, a.last().0) {
            rest
        } else {
            rest.push(a.last())
        }
    }
}

/// Right-biased merge of two property lists: the entries of `a` that `b`
/// does not override, then all of `b`.
pub open spec fn properties_merged(a: Seq<EntryModel>, b: Seq<EntryModel>) -> Seq<EntryModel> {
    without_keys(a, b) + b
}

/// `s` with key `k` set to `v`: in place where the key is present,
/// appended where it is not.
pub open spec fn properties_put(s: Seq<EntryModel>, k: Seq<char>, v: ValueModel) -> Seq<EntryModel> {
    if has_key(s, k) {
        Seq::new(s.len(), |i: int| if s[i].0 == k { (k, v) } else { s[i] })
    } else {
        s.push((k, v))
    }
}

/// No two entries share a key.
pub open spec fn keys_unique(s: Seq<EntryModel>) -> bool {
    forall|i: int, j: int| 0 <= i < j < s.len() ==> s[i].0 != s[j].0
}

proof fn lemma_without_keys_add(x: Seq<EntryModel>, y: Seq<EntryModel>, c: Seq<EntryModel>)
    ensures
        without_keys(x + y, c) == without_keys(x, c) + without_keys(y, c),
    decreases y.len(),
{
    if y.len() == 0 {
        assert(x + y =~= x);
        assert(without_keys(x, c) + without_keys(y, c) =~= without_keys(x, c));
    } else {
        assert((x + y).drop_last() =~= x + y.drop_last());
        assert((x + y).last() == y.last());
        lemma_without_keys_add(x, y.drop_last(), c);
        if has_key(c, y.last().0) {
        } else {
            assert(without_keys(x, c) + without_keys(y.drop_last(), c).push(y.last()) =~= (
            without_keys(x, c) + without_keys(y.drop_last(), c)).push(y.last()));
        }
    }
}

proof fn lemma_without_keys_has_key(b: Seq<EntryModel>, c: Seq<EntryModel>, k: Seq<char>)
    ensures
        has_key(without_keys(b, c), k) == (has_key(b, k) && !has_key(c, k)),
    decreases b.len(),
{
    if b.len() > 0 {
        let d = b.drop_last();
        lemma_without_keys_has_key(d, c, k);
        let rest = without_keys(d, c);
        let w = without_keys(b, c);
        assert(forall|j: int| 0 <= j < rest.len() ==> w[j] == rest[j]);
        if has_key(d, k) {
            let i = choose|i: int| 0 <= i < d.len() && #[trigger] d[i].0 == k;
            assert(b[i].0 == k);
        }
        if has_key(rest, k) {
            let i = choose|i: int| 0 <= i < rest.len() && #[trigger] rest[i].0 == k;
            assert(w[i].0 == k);
        }
        if has_key(b, k) && !has_key(c, k) {
            let i = choose|i: int| 0 <= i < b.len() && #[trigger] b[i].0 == k;
            if i < b.len() - 1 {
                assert(d[i].0 == k);
            } else {
                assert(w[rest.len() as int].0 == k);
            }
        }
        if has_key(w, k) {
            let i = choose|i: int| 0 <= i < w.len() && #[trigger] w[i].0 == k;
            if i < rest.len() {
                assert(rest[i].0 == k);
            } else {
                assert(b[b.len() - 1].0 == k);
            }
        }
    }
}

proof fn lemma_without_keys_same_keys(a: Seq<EntryModel>, k1: Seq<EntryModel>, k2: Seq<EntryModel>)
    requires
        forall|k: Seq<char>| has_key(k1, k) == has_key(k2, k),
    ensures
        without_keys(a, k1) == without_keys(a, k2),
    decreases a.len(),
{
    if a.len() > 0 {
        lemma_without_keys_same_keys(a.drop_last(), k1, k2);
    }
}

proof fn lemma_without_keys_twice(a: Seq<EntryModel>, b: Seq<EntryModel>, c: Seq<EntryModel>)
    ensures
        without_keys(without_keys(a, b), c) == without_keys(a, without_keys(b, c) + c),
    decreases a.len(),
{
    let k = without_keys(b, c) + c;
    assert forall|key: Seq<char>| has_key(k, key) == (has_key(b, key) || has_key(c, key)) by {
        lemma_without_keys_has_key(b, c, key);
        let w = without_keys(b, c);
        if has_key(k, key) {
            let i = choose|i: int| 0 <= i < k.len() && #[trigger] k[i].0 == key;
            if i < w.len() {
                assert(w[i].0 == key);
            } else {
                assert(c[i - w.len()].0 == key);
            }
        }
        if has_key(w, key) {
            let i = choose|i: int| 0 <= i < w.len() && #[trigger] w[i].0 == key;
            assert(k[i].0 == key);
        }
        if has_key(c, key) {
            let i = choose|i: int| 0 <= i < c.len() && #[trigger] c[i].0 == key;
            assert(k[w.len() + i].0 == key);
        }
    }
    if a.len() > 0 {
        lemma_without_keys_twice(a.drop_last(), b, c);
        let rest = without_keys(a.drop_last(), b);
        if !has_key(b, a.last().0) {
            assert(rest.push(a.last()).drop_last() =~= rest);
        }
    }
}

/// The right-biased merge of property lists is associative.
pub proof fn lemma_properties_merged_associative(
    a: Seq<EntryModel>,
    b: Seq<EntryModel>,
    c: Seq<EntryModel>,
)
    ensures
        properties_merged(properties_merged(a, b), c) == properties_merged(
            a,
            properties_merged(b, c),
        ),
{
    lemma_without_keys_add(without_keys(a, b), b, c);
    lemma_without_keys_twice(a, b, c);
    assert(without_keys(a, b) + b == without_keys(a, b) + b);
    let lhs = properties_merged(properties_merged(a, b), c);
    assert(lhs =~= without_keys(without_keys(a, b), c) + without_keys(b, c) + c);
    assert(lhs =~= properties_merged(a, properties_merged(b, c)));
}

/// A set of labels, kept in the order they were first added.
#[derive(Debug)]
pub struct LabelSet {
    pub items: Vec<String>,
}

impl View for LabelSet {
    type V = Set<Seq<char>>;

    open spec fn view(&self) -> Set<Seq<char>> {
        self.names().to_set()
    }
}

impl LabelSet {
    /// The labels in insertion order.
    pub open spec fn names(&self) -> Seq<Seq<char>> {
        Seq::new(self.items.len() as nat, |i: int| self.items[i]@)
    }

    /// No label is listed twice.
    pub open spec fn wf(&self) -> bool {
        self.names().no_duplicates()
    }

    pub fn new() -> (r: LabelSet)
        ensures
            r.wf(),
            r.names() == Seq::<Seq<char>>::empty(),
    {
        let r = LabelSet { items: Vec::new() };
        assert(r.names() =~= Seq::<Seq<char>>::empty());
        r
    }

    /// Number of labels.
    pub fn len(&self) -> (r: usize)
        ensures
            r == self.names().len(),
    {
        self.items.len()
    }

    /// Whether no label is listed twice.
    pub fn is_wf(&self) -> (r: bool)
        ensures
            r == self.wf(),
    {
        let mut i: usize = 0;
        while i < self.items.len()
            invariant
                i <= self.items.len(),
                forall|a: int, b: int| 0 <= a < i && 0 <= b < i && a != b ==> self.names()[a] != self.names()[b],
            decreases self.items.len() - i,
        {
            let mut j: usize = 0;
            while j < i
                invariant
                    j <= i < self.items.len(),
                    forall|b: int| 0 <= b < j ==> self.names()[b] != self.names()[i as int],
                decreases i - j,
            {
                if self.items[j] == self.items[i] {
                    assert(self.names()[j as int] == self.names()[i as int]);
                    return false;
                }
                j = j + 1;
            }
            i = i + 1;
        }
        true
    }

    pub fn is_empty(&self) -> (r: bool)
        ensures
            r == (self.names().len() == 0),
            r == (self@ == Set::<Seq<char>>::empty()),
    {
        if self.items.len() > 0 {
            assert(self@.contains(self.names()[0]));
        } else {
            assert(self@ =~= Set::<Seq<char>>::empty());
        }
        self.items.len() == 0
    }

    /// The label at position `i` in insertion order.
    pub fn get(&self, i: usize) -> (r: &String)
        requires
            i < self.names().len(),
        ensures
            r@ == self.names()[i as int],
    {
        &self.items[i]
    }

    fn has(&self, name: &String) -> (r: bool)
        ensures
            r == self.names().contains(name@),
    {
        let mut i: usize = 0;
        while i < self.items.len()
            invariant
                i <= self.items.len(),
                forall|j: int| 0 <= j < i ==> self.names()[j] != name@,
            decreases self.items.len() - i,
        {
            if self.items[i] == *name {
                assert(self.names()[i as int] == name@);
                return true;
            }
            i = i + 1;
        }
        false
    }

    /// Whether `name` is one of the labels.
    pub fn contains(&self, name: &str) -> (r: bool)
        ensures
            r == self@.contains(name@),
    {
        let owned = name.to_string();
        self.has(&owned)
    }

    /// Adds `name` unless it is already present.
    pub fn insert(&mut self, name: String)
        ensures
            final(self).names() == (if old(self).names().contains(name@) {
                old(self).names()
            } else {
                old(self).names().push(name@)
            }),
            old(self).wf() ==> final(self).wf(),
            final(self)@ == old(self)@.insert(name@),
    {
        if !self.has(&name) {
            let ghost n = name@;
            self.items.push(name);
            assert(self.names() =~= old(self).names().push(n));
            assert forall|x: Seq<char>| self@.contains(x) == old(self)@.insert(n).contains(x) by {
                if self@.contains(x) {
                    let j = choose|j: int| 0 <= j < self.names().len() && self.names()[j] == x;
                    if j < old(self).names().len() {
                        assert(old(self).names()[j] == x);
                    }
                }
                if old(self)@.contains(x) {
                    let j = choose|j: int| 0 <= j < old(self).names().len() && old(self).names()[j] == x;
                    assert(self.names()[j] == x);
                }
                if x == n {
                    assert(self.names()[old(self).names().len() as int] == x);
                }
            }
            assert(self@ =~= old(self)@.insert(n));
        } else {
            assert(old(self)@.contains(name@));
            assert(self@ =~= old(self)@.insert(name@));
        }
    }

    /// Whether every label of `self` is a label of `other`.
    fn within(&self, other: &LabelSet) -> (r: bool)
        ensures
            r == self@.subset_of(other@),
    {
        let mut i: usize = 0;
        while i < self.items.len()
            invariant
                i <= self.items.len(),
                forall|j: int| 0 <= j < i ==> other.names().contains(#[trigger] self.names()[j]),
            decreases self.items.len() - i,
        {
            if !other.has(&self.items[i]) {
                assert(self@.contains(self.names()[i as int]));
                return false;
            }
            i = i + 1;
        }
        assert forall|x: Seq<char>| self@.contains(x) implies other@.contains(x) by {
            let j = choose|j: int| 0 <= j < self.names().len() && self.names()[j] == x;
            assert(other.names().contains(self.names()[j]));
        }
        true
    }

    /// Equality of the label sets.
    pub fn same(&self, other: &LabelSet) -> (r: bool)
        ensures
            r == (self@ == other@),
    {
        let r = self.within(other) && other.within(self);
        if r {
            assert(self@ =~= other@);
        }
        r
    }

    pub fn duplicate(&self) -> (r: LabelSet)
        ensures
            r.names() == self.names(),
    {
        let mut items: Vec<String> = Vec::new();
        let mut i: usize = 0;
        while i < self.items.len()
            invariant
                i <= self.items.len(),
                items.len() == i,
                forall|j: int| 0 <= j < i ==> items[j]@ == self.items[j]@,
            decreases self.items.len() - i,
        {
            items.push(self.items[i].clone());
            i = i + 1;
        }
        let r = LabelSet { items };
        assert(r.names() =~= self.names());
        r
    }
}

/// Properties: keys with values, in insertion order, later writes replacing
/// earlier ones.
#[derive(Debug)]
pub struct PropertyMap {
    pub entries: Vec<(String, Value)>,
}

impl View for PropertyMap {
    type V = Seq<EntryModel>;

    open spec fn view(&self) -> Seq<EntryModel> {
        Seq::new(self.entries.len() as nat, |i: int| (self.entries[i].0@, self.entries[i].1@))
    }
}

impl PropertyMap {
    /// No two entries share a key.
    pub open spec fn wf(&self) -> bool {
        keys_unique(self@)
    }

    pub fn new() -> (r: PropertyMap)
        ensures
            r.wf(),
            r@ == Seq::<EntryModel>::empty(),
    {
        let r = PropertyMap { entries: Vec::new() };
        assert(r@ =~= Seq::<EntryModel>::empty());
        r
    }

    /// Number of entries.
    pub fn len(&self) -> (r: usize)
        ensures
            r == self@.len(),
    {
        self.entries.len()
    }

    /// Whether no two entries share a key.
    pub fn is_wf(&self) -> (r: bool)
        ensures
            r == self.wf(),
    {
        let mut i: usize = 0;
        while i < self.entries.len()
            invariant
                i <= self.entries.len(),
                forall|a: int, b: int| 0 <= a < b < i ==> self@[a].0 != self@[b].0,
            decreases self.entries.len() - i,
        {
            let mut j: usize = 0;
            while j < i
                invariant
                    j <= i < self.entries.len(),
                    forall|b: int| 0 <= b < j ==> self@[b].0 != self@[i as int].0,
                decreases i - j,
            {
                if self.entries[j].0 == self.entries[i].0 {
                    assert(self@[j as int].0 == self@[i as int].0);
                    return false;
                }
                j = j + 1;
            }
            i = i + 1;
        }
        true
    }

    pub fn is_empty(&self) -> (r: bool)
        ensures
            r == (self@.len() == 0),
    {
        self.entries.len() == 0
    }

    /// The key of entry `i`.
    pub fn key_at(&self, i: usize) -> (r: &String)
        requires
            i < self@.len(),
        ensures
            r@ == self@[i as int].0,
    {
        &self.entries[i].0
    }

    /// The value of entry `i`.
    pub fn value_at(&self, i: usize) -> (r: &Value)
        requires
            i < self@.len(),
        ensures
            r@ == self@[i as int].1,
    {
        &self.entries[i].1
    }

    fn position(&self, key: &String) -> (r: Option<usize>)
        ensures
            r is None ==> !has_key(self@, key@),
            r matches Some(i) ==> i < self@.len() && self@[i as int].0 == key@,
    {
        let mut i: usize = 0;
        while i < self.entries.len()
            invariant
                i <= self.entries.len(),
                forall|j: int| 0 <= j < i ==> self@[j].0 != key@,
            decreases self.entries.len() - i,
        {
            if self.entries[i].0 == *key {
                return Some(i);
            }
            i = i + 1;
        }
        None
    }

    /// Whether some entry has key `key`.
    pub fn contains_key(&self, key: &str) -> (r: bool)
        ensures
            r == has_key(self@, key@),
    {
        let owned = key.to_string();
        self.position(&owned).is_some()
    }

    /// The value stored under `key`, if any.
    pub fn get(&self, key: &str) -> (r: Option<&Value>)
        requires
            self.wf(),
        ensures
            r is None == !has_key(self@, key@),
            r matches Some(v) ==> exists|i: int|
                0 <= i < self@.len() && self@[i].0 == key@ && #[trigger] self@[i].1 == v@,
    {
        let owned = key.to_string();
        match self.position(&owned) {
            Some(i) => {
                assert(self@[i as int].1 == self.entries[i as int].1@);
                Some(&self.entries[i].1)
            },
            None => None,
        }
    }

    /// Sets `key` to `value`, in place where the key is present, appended
    /// where it is not.
    pub fn insert(&mut self, key: String, value: Value)
        requires
            old(self).wf(),
        ensures
            final(self)@ == properties_put(old(self)@, key@, value@),
            final(self).wf(),
    {
        let ghost k = key@;
        let ghost v = value@;
        match self.position(&key) {
            Some(i) => {
                let ghost before = self@;
                assert forall|j: int| 0 <= j < before.len() && before[j].0 == k implies j == i by {
                    if j != i {
                        assert(before[j].0 == before[i as int].0);
                    }
                }
                self.entries.set(i, (key, value));
                assert(has_key(before, k));
                assert(self@ =~= properties_put(before, k, v));
                assert forall|a: int, b: int| 0 <= a < b < self@.len() implies self@[a].0 != self@[b].0 by {
                    assert(before[a].0 != before[b].0);
                }
            },
            None => {
                self.entries.push((key, value));
                assert(self@ =~= old(self)@.push((k, v)));
                assert forall|a: int, b: int| 0 <= a < b < self@.len() implies self@[a].0 != self@[b].0 by {
                    if b == self@.len() - 1 {
                        assert(old(self)@[a].0 == self@[a].0);
                    }
                }
            },
        }
    }

    /// Equality of the entry sequences.
    pub fn same(&self, other: &PropertyMap) -> (r: bool)
        ensures
            r == (self@ == other@),
    {
        if self.entries.len() != other.entries.len() {
            assert(self@.len() != other@.len());
            return false;
        }
        let mut i: usize = 0;
        while i < self.entries.len()
            invariant
                i <= self.entries.len(),
                self.entries.len() == other.entries.len(),
                forall|j: int| 0 <= j < i ==> self@[j] == other@[j],
            decreases self.entries.len() - i,
        {
            if !(self.entries[i].0 == other.entries[i].0) || !self.entries[i].1.same(
                &other.entries[i].1,
            ) {
                assert(self@[i as int] != other@[i as int]);
                return false;
            }
            i = i + 1;
        }
        assert(self@ =~= other@);
        true
    }

    pub fn duplicate(&self) -> (r: PropertyMap)
        ensures
            r@ == self@,
    {
        let mut entries: Vec<(String, Value)> = Vec::new();
        let mut i: usize = 0;
        while i < self.entries.len()
            invariant
                i <= self.entries.len(),
                entries.len() == i,
                forall|j: int|
                    0 <= j < i ==> entries[j].0@ == self.entries[j].0@ && entries[j].1@
                        == self.entries[j].1@,
            decreases self.entries.len() - i,
        {
            entries.push((self.entries[i].0.clone(), self.entries[i].1.duplicate()));
            i = i + 1;
        }
        let r = PropertyMap { entries };
        assert(r@ =~= self@);
        r
    }
}

/// Direction of a relationship, kept as metadata on its subject.
#[derive(Debug, Clone, Copy, PartialEq, Eq, Structural)]
pub enum Arrow {
    /// `-->` or `-[...]->`.
    Right,
    /// `<--` or `<-[...]-`.
    Left,
    /// `<-->` or `<-[...]->`.
    Both,
    /// `~~` or `~[...]~`.
    Squiggle,
}

/// Which surface form a subject's pattern was written in: the element count
/// alone cannot tell an annotation from a one-member group.
#[derive(Debug, Clone, Copy, PartialEq, Eq, Structural)]
pub enum Form {
    /// `(id:Label {k: v})`, no elements.
    Node,
    /// Two endpoints joined by an arrow; two elements.
    Relationship(Arrow),
    /// `[id | member, ...]`, any number of elements.
    Group,
    /// `@key(value) pattern`, one element.
    Annotated,
}

/// Model of a subject.
pub struct SubjectModel {
    pub identity: Seq<char>,
    pub labels: Set<Seq<char>>,
    pub properties: Seq<EntryModel>,
    pub form: Form,
}

/// The payload of a pattern: an identity (empty for anonymous), labels,
/// properties and the surface form.
#[derive(Debug)]
pub struct Subject {
    pub identity: Symbol,
    pub labels: LabelSet,
    pub properties: PropertyMap,
    pub form: Form,
}

impl View for Subject {
    type V = SubjectModel;

    open spec fn view(&self) -> SubjectModel {
        SubjectModel {
            identity: self.identity@,
            labels: self.labels@,
            properties: self.properties@,
            form: self.form,
        }
    }
}

impl Subject {
    /// Labels listed once each, keys unique.
    pub open spec fn wf(&self) -> bool {
        self.labels.wf() && self.properties.wf()
    }

    /// An anonymous subject of the given form, with no labels or properties.
    pub fn anonymous(form: Form) -> (r: Subject)
        ensures
            r.wf(),
            r.identity@ == Seq::<char>::empty(),
            r.labels.names().len() == 0,
            r.properties@.len() == 0,
            r.form == form,
            r@ == (SubjectModel {
                identity: Seq::empty(),
                labels: Set::empty(),
                properties: Seq::empty(),
                form,
            }),
    {
        let r = Subject {
            identity: Symbol(String::new()),
            labels: LabelSet::new(),
            properties: PropertyMap::new(),
            form,
        };
        assert(r.labels@ =~= Set::<Seq<char>>::empty());
        assert(r.identity@ =~= Seq::<char>::empty());
        assert(r.properties@ =~= Seq::<EntryModel>::empty());
        r
    }
}

impl PatternValue for Subject {
    open spec fn digest(v: SubjectModel) -> u64 {
        mix(text_digest(v.identity), v.properties.len() as u64)
    }

    fn same(&self, other: &Self) -> (r: bool) {
        self.identity.0 == other.identity.0 && self.labels.same(&other.labels)
            && self.properties.same(&other.properties) && self.form == other.form
    }

    fn value_hash(&self) -> (r: u64) {
        let h = text_hash(&self.identity.0);
        (h ^ (self.properties.len() as u64)).wrapping_mul(0x100000001b3u64)
    }

    fn duplicate(&self) -> (r: Self) {
        Subject {
            identity: self.identity.duplicate(),
            labels: self.labels.duplicate(),
            properties: self.properties.duplicate(),
            form: self.form,
        }
    }
}

/// Identity precedence of `combine`: the left identity unless it is
/// anonymous, then the right one.
pub open spec fn identity_merged(a: Seq<char>, b: Seq<char>) -> Seq<char> {
    if a.len() == 0 {
        b
    } else {
        a
    }
}

impl Combinable for Subject {
    /// Identity: the first non-anonymous one; labels: the union; properties:
    /// right-biased on key collisions; form: the left one.
    open spec fn merged(a: SubjectModel, b: SubjectModel) -> SubjectModel {
        SubjectModel {
            identity: identity_merged(a.identity, b.identity),
            labels: a.labels.union(b.labels),
            properties: properties_merged(a.properties, b.properties),
            form: a.form,
        }
    }

    fn combine(self, other: Self) -> (r: Self) {
        let Subject { identity: id1, labels: mut labels, properties: p1, form } = self;
        let Subject { identity: id2, labels: l2, properties: p2, form: _ } = other;
        let identity = if id1.0.as_str().is_empty() {
            id2
        } else {
            id1
        };
        let mut i: usize = 0;
        let ghost l1 = labels@;
        while i < l2.items.len()
            invariant
                i <= l2.items.len(),
                labels@ == l1.union(l2.names().subrange(0, i as int).to_set()),
            decreases l2.items.len() - i,
        {
            labels.insert(l2.items[i].clone());
            proof {
                let pre = l2.names().subrange(0, i as int);
                assert(l2.names().subrange(0, i + 1) =~= pre + seq![l2.names()[i as int]]);
                Seq::lemma_to_set_insert_commutes(pre, l2.names()[i as int]);
                assert(labels@ =~= l1.union(l2.names().subrange(0, i + 1).to_set()));
            }
            i = i + 1;
        }
        assert(l2.names().subrange(0, l2.items.len() as int) =~= l2.names());
        let properties = merge_properties(p1, p2);
        Subject { identity, labels, properties, form }
    }

    proof fn lemma_merged_associative(a: SubjectModel, b: SubjectModel, c: SubjectModel) {
        lemma_properties_merged_associative(a.properties, b.properties, c.properties);
        assert(a.labels.union(b.labels).union(c.labels) =~= a.labels.union(b.labels.union(c.labels)));
    }
}

/// The right-biased merge of two property maps.
fn merge_properties(a: PropertyMap, b: PropertyMap) -> (r: PropertyMap)
    ensures
        r@ == properties_merged(a@, b@),
{
    let mut entries: Vec<(String, Value)> = Vec::new();
    let mut i: usize = 0;
    while i < a.entries.len()
        invariant
            i <= a.entries.len(),
            (PropertyMap { entries })@ == without_keys(a@.subrange(0, i as int), b@),
        decreases a.entries.len() - i,
    {
        let ghost before = (PropertyMap { entries })@;
        assert(a@.subrange(0, i + 1).drop_last() =~= a@.subrange(0, i as int));
        assert(a@.subrange(0, i + 1).last() == a@[i as int]);
        if b.position(&a.entries[i].0).is_none() {
            entries.push((a.entries[i].0.clone(), a.entries[i].1.duplicate()));
            assert((PropertyMap { entries })@ =~= before.push(a@[i as int]));
        }
        i = i + 1;
    }
    assert(a@.subrange(0, a.entries.len() as int) =~= a@);
    let ghost mid = (PropertyMap { entries })@;
    let mut j: usize = 0;
    while j < b.entries.len()
        invariant
            j <= b.entries.len(),
            (PropertyMap { entries })@ == mid + b@.subrange(0, j as int),
        decreases b.entries.len() - j,
    {
        let ghost before = (PropertyMap { entries })@;
        entries.push((b.entries[j].0.clone(), b.entries[j].1.duplicate()));
        assert((PropertyMap { entries })@ =~= before.push(b@[j as int]));
        assert(b@.subrange(0, j + 1) =~= b@.subrange(0, j as int).push(b@[j as int]));
        j = j + 1;
        assert((PropertyMap { entries })@ =~= mid + b@.subrange(0, j as int));
    }
    assert(b@.subrange(0, b.entries.len() as int) =~= b@);
    PropertyMap { entries }
}

} // verus!
