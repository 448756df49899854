//! The recursive pattern container: a value and an ordered sequence of child
//! patterns, with structural equality, hashing, `map` and `combine`.
use vstd::prelude::*;

verus! {

/// Mathematical model of a pattern: the model of its value and the models of
/// its elements, in order.
pub struct Tree<M> {
    pub value: M,
    pub elements: Seq<Tree<M>>,
}

/// What a pattern's value must offer: structural comparison, a digest and a
/// copy, each agreeing with the value's model.
pub trait PatternValue: Sized + View {
    /// The 64-bit digest of a value, a function of its model alone.
    spec fn digest(v: Self::V) -> u64;

    fn same(&self, other: &Self) -> (r: bool)
        ensures
            r == (self@ == other@),
    ;

    fn value_hash(&self) -> (r: u64)
        ensures
            r == Self::digest(self@),
    ;

    fn duplicate(&self) -> (r: Self)
        ensures
            r@ == self@,
    ;
}

/// Values with an associative merge, used by `Pattern::combine`.
pub trait Combinable: Sized + View {
    /// The model of `a.combine(b)`.
    spec fn merged(a: Self::V, b: Self::V) -> Self::V;

    fn combine(self, other: Self) -> (r: Self)
        ensures
            r@ == Self::merged(self@, other@),
    ;

    /// The merge is associative.
    proof fn lemma_merged_associative(a: Self::V, b: Self::V, c: Self::V)
        ensures
            Self::merged(Self::merged(a, b), c) == Self::merged(a, Self::merged(b, c)),
    ;
}

/// A value of type `V` with an ordered sequence of child patterns.
#[derive(Debug, Hash)]
pub struct Pattern<V> {
    pub value: V,
    pub elements: Vec<Pattern<V>>,
}

impl<V: View> View for Pattern<V> {
    type V = Tree<V::V>;

    open spec fn view(&self) -> Tree<V::V> {
        pattern_model(*self)
    }
}

/// The model of a pattern, node by node.
pub open spec fn pattern_model<V: View>(p: Pattern<V>) -> Tree<V::V>
    decreases p,
{
    Tree {
        value: p.value@,
        elements: Seq::new(
            p.elements.len() as nat,
            |i: int|
                if 0 <= i < p.elements.len() {
                    pattern_model(p.elements[i])
                } else {
                    arbitrary()
                },
        ),
    }
}

/// The models of a sequence of patterns.
pub open spec fn models<V: View>(s: Seq<Pattern<V>>) -> Seq<Tree<V::V>> {
    Seq::new(s.len(), |i: int| s[i]@)
}

/// Mixes one 64-bit word into a running hash.
pub open spec fn mix(h: u64, x: u64) -> u64 {
    (h ^ x).wrapping_mul(0x100000001b3u64)
}

/// Seed of every hash computed in this crate.
pub const HASH_SEED: u64 = 0xcbf29ce484222325u64;

/// Structural hash of a tree: its value's digest, then each element's hash
/// in order, then the number of elements.
pub open spec fn tree_hash<V: PatternValue>(t: Tree<V::V>) -> u64
    decreases t, t.elements.len() + 1,
{
    mix(elements_hash::<V>(t, t.elements.len() as int), t.elements.len() as u64)
}

/// Running hash of a tree's value and its first `n` elements.
pub open spec fn elements_hash<V: PatternValue>(t: Tree<V::V>, n: int) -> u64
    decreases t, n,
{
    if n <= 0 || n > t.elements.len() {
        mix(HASH_SEED, V::digest(t.value))
    } else {
        mix(elements_hash::<V>(t, n - 1), tree_hash::<V>(t.elements[n - 1]))
    }
}

/// The model of combining two trees: merged values, concatenated elements.
pub open spec fn tree_combined<V: Combinable>(a: Tree<V::V>, b: Tree<V::V>) -> Tree<V::V> {
    Tree { value: V::merged(a.value, b.value), elements: a.elements + b.elements }
}

/// `b` is `a` with `f` applied to every value, node by node.
pub open spec fn maps_to<V, W, F: Fn(&V) -> W>(a: Pattern<V>, b: Pattern<W>, f: F) -> bool
    decreases a, a.elements.len() + 1,
{
    &&& f.ensures((&a.value,), b.value)
    &&& b.elements.len() == a.elements.len()
    &&& elements_map_to(a, b, f, a.elements.len() as int)
}

/// The first `n` elements of `b` are those of `a` mapped by `f`.
pub open spec fn elements_map_to<V, W, F: Fn(&V) -> W>(
    a: Pattern<V>,
    b: Pattern<W>,
    f: F,
    n: int,
) -> bool
    decreases a, n,
{
    if n <= 0 || n > a.elements.len() {
        true
    } else {
        elements_map_to(a, b, f, n - 1) && maps_to(a.elements[n - 1], b.elements[n - 1], f)
    }
}

/// `elements_map_to` for `n` elements depends on those elements alone, and
/// grows by one when the next element maps.
proof fn lemma_elements_map_to_extend<V, W, F: Fn(&V) -> W>(
    a: Pattern<V>,
    b: Pattern<W>,
    c: Pattern<W>,
    f: F,
    n: int,
)
    requires
        0 <= n <= a.elements.len(),
        n <= b.elements.len(),
        n <= c.elements.len(),
        forall|j: int| 0 <= j < n ==> b.elements[j] == c.elements[j],
        elements_map_to(a, b, f, n),
        n < a.elements.len() && n < c.elements.len() ==> maps_to(a.elements[n], c.elements[n], f),
    ensures
        elements_map_to(a, c, f, n),
        n < a.elements.len() && n < c.elements.len() ==> elements_map_to(a, c, f, n + 1),
    decreases n,
{
    if n > 0 {
        lemma_elements_map_to_extend(a, b, c, f, n - 1);
    }
    assert(elements_map_to(a, c, f, n));
}

impl<V: View> Pattern<V> {
    /// An atomic pattern: a value with no elements.
    pub fn point(value: V) -> (r: Self)
        ensures
            r.value == value,
            r.elements@.len() == 0,
            r@ == (Tree { value: value@, elements: Seq::<Tree<V::V>>::empty() }),
    {
        let r = Pattern { value, elements: Vec::new() };
        assert(r@.elements =~= Seq::<Tree<V::V>>::empty());
        r
    }

    /// A pattern with the given value and elements.
    pub fn pattern(value: V, elements: Vec<Pattern<V>>) -> (r: Self)
        ensures
            r.value == value,
            r.elements@ == elements@,
            r@ == (Tree { value: value@, elements: models(elements@) }),
    {
        let r = Pattern { value, elements };
        assert(r@.elements =~= models(elements@));
        r
    }

    /// The pattern's value.
    pub fn value(&self) -> (r: &V)
        ensures
            r == &self.value,
    {
        &self.value
    }

    /// The number of elements.
    pub fn length(&self) -> (r: usize)
        ensures
            r == self@.elements.len(),
    {
        self.elements.len()
    }

    /// Whether the pattern has no elements.
    pub fn is_atomic(&self) -> (r: bool)
        ensures
            r == (self@.elements.len() == 0),
    {
        self.elements.len() == 0
    }

    /// Applies `f` to every value, keeping the shape: the same number of
    /// elements at every node, in the same order.
    pub fn map<W, F: Fn(&V) -> W>(&self, f: F) -> (r: Pattern<W>)
        requires
            forall|v: &V| #[trigger] f.requires((v,)),
        ensures
            maps_to(*self, r, f),
    {
        self.map_with(&f)
    }

    fn map_with<W, F: Fn(&V) -> W>(&self, f: &F) -> (r: Pattern<W>)
        requires
            forall|v: &V| #[trigger] f.requires((v,)),
        ensures
            maps_to(*self, r, *f),
        decreases self,
    {
        let value = f(&self.value);
        let mut elements: Vec<Pattern<W>> = Vec::new();
        let mut i: usize = 0;
        while i < self.elements.len()
            invariant
                i <= self.elements.len(),
                elements.len() == i,
                forall|v: &V| #[trigger] f.requires((v,)),
                elements_map_to(*self, Pattern { value: arbitrary(), elements }, *f, i as int),
            decreases self.elements.len() - i,
        {
            let e = self.elements[i].map_with(f);
            let ghost before = elements;
            elements.push(e);
            i = i + 1;
            proof {
                lemma_elements_map_to_extend(*self, Pattern { value: arbitrary(), elements: before }, Pattern { value: arbitrary(), elements }, *f, (i - 1) as int);
            }
        }
        proof {
            lemma_elements_map_to_extend(*self, Pattern { value: arbitrary(), elements }, Pattern { value, elements }, *f, i as int);
        }
        Pattern { value, elements }
    }
}

impl<V: PatternValue> Pattern<V> {
    /// Structural comparison: equal values and equal elements, in order.
    pub fn structurally_equal(&self, other: &Self) -> (r: bool)
        ensures
            r == (self@ == other@),
        decreases self,
    {
        if !self.value.same(&other.value) {
            return false;
        }
        if self.elements.len() != other.elements.len() {
            assert(self@.elements.len() != other@.elements.len());
            return false;
        }
        let mut i: usize = 0;
        while i < self.elements.len()
            invariant
                i <= self.elements.len(),
                self.elements.len() == other.elements.len(),
                forall|j: int| 0 <= j < i ==> self.elements[j]@ == other.elements[j]@,
            decreases self.elements.len() - i,
        {
            if !self.elements[i].structurally_equal(&other.elements[i]) {
                assert(self@.elements[i as int] != other@.elements[i as int]);
                return false;
            }
            i = i + 1;
        }
        assert(self@.elements =~= other@.elements);
        true
    }

    /// Structural hash: a depth-first fold over the value's digest and the
    /// elements' hashes, in order.
    pub fn structural_hash(&self) -> (r: u64)
        ensures
            r == tree_hash::<V>(self@),
        decreases self,
    {
        let mut h = (HASH_SEED ^ self.value.value_hash()).wrapping_mul(0x100000001b3u64);
        let mut i: usize = 0;
        while i < self.elements.len()
            invariant
                i <= self.elements.len(),
                h == elements_hash::<V>(self@, i as int),
            decreases self.elements.len() - i,
        {
            let eh = self.elements[i].structural_hash();
            assert(self@.elements[i as int] == self.elements[i as int]@);
            h = (h ^ eh).wrapping_mul(0x100000001b3u64);
            i = i + 1;
        }
        (h ^ (self.elements.len() as u64)).wrapping_mul(0x100000001b3u64)
    }

    /// A structurally equal copy.
    pub fn duplicate(&self) -> (r: Self)
        ensures
            r@ == self@,
        decreases self,
    {
        let value = self.value.duplicate();
        let mut elements: Vec<Pattern<V>> = Vec::new();
        let mut i: usize = 0;
        while i < self.elements.len()
            invariant
                i <= self.elements.len(),
                elements.len() == i,
                forall|j: int| 0 <= j < i ==> elements[j]@ == self.elements[j]@,
            decreases self.elements.len() - i,
        {
            elements.push(self.elements[i].duplicate());
            i = i + 1;
        }
        let r = Pattern { value, elements };
        assert(r@.elements =~= self@.elements);
        r
    }
}

impl<V: PatternValue> Clone for Pattern<V> {
    fn clone(&self) -> (r: Self)
        ensures
            r@ == self@,
    {
        self.duplicate()
    }
}

impl<V: PatternValue> PartialEq for Pattern<V> {
    fn eq(&self, other: &Self) -> (r: bool) {
        self.structurally_equal(other)
    }
}

impl<V: PatternValue> vstd::std_specs::cmp::PartialEqSpecImpl for Pattern<V> {
    open spec fn obeys_eq_spec() -> bool {
        true
    }

    open spec fn eq_spec(&self, other: &Self) -> bool {
        self@ == other@
    }
}

impl<V: PatternValue> Eq for Pattern<V> {

}

impl<V: Combinable> Pattern<V> {
    /// Merges two patterns: the values by `V::combine`, the elements of
    /// `self` followed by those of `other`.
    pub fn combine(self, other: Self) -> (r: Self)
        ensures
            r@ == tree_combined::<V>(self@, other@),
    {
        let ghost a = self@;
        let ghost b = other@;
        let Pattern { value: v1, elements: mut e1 } = self;
        let Pattern { value: v2, elements: mut e2 } = other;
        let ghost s1 = e1@;
        let ghost s2 = e2@;
        let value = v1.combine(v2);
        e1.append(&mut e2);
        let r = Pattern { value, elements: e1 };
        assert(r@.elements =~= a.elements + b.elements) by {
            assert(e1@ == s1 + s2);
            assert forall|i: int| 0 <= i < r@.elements.len() implies r@.elements[i] == (a.elements
                + b.elements)[i] by {
                if i < s1.len() {
                } else {
                }
            }
        }
        r
    }
}

/// Element `i` of `b` is element `i` of `a` mapped by `f`, for `i < n`.
proof fn lemma_elements_map_to_at<V, W, F: Fn(&V) -> W>(
    a: Pattern<V>,
    b: Pattern<W>,
    f: F,
    n: int,
    i: int,
)
    requires
        0 <= i < n <= a.elements.len(),
        elements_map_to(a, b, f, n),
    ensures
        maps_to(a.elements[i], b.elements[i], f),
    decreases n,
{
    if i < n - 1 {
        lemma_elements_map_to_at(a, b, f, n - 1, i);
    }
}

/// Mapping with a function that returns a value equal to its argument gives
/// back a pattern equal to `p`: `map(p, identity) == p`.
pub proof fn lemma_map_identity<V: View, F: Fn(&V) -> V>(p: Pattern<V>, q: Pattern<V>, f: F)
    requires
        maps_to(p, q, f),
        forall|v: &V, w: V| f.ensures((v,), w) ==> w@ == v@,
    ensures
        q@ == p@,
    decreases p,
{
    assert forall|i: int| 0 <= i < p.elements.len() implies q.elements[i]@ == p.elements[i]@ by {
        lemma_elements_map_to_at(p, q, f, p.elements.len() as int, i);
        lemma_map_identity(p.elements[i], q.elements[i], f);
    }
    assert(q@.elements =~= p@.elements);
}

/// Mapping by `f` and then by `g` gives a pattern equal to mapping once by a
/// function `h` that agrees with `g` after `f`: `map(g after f) == map(g) after map(f)`.
pub proof fn lemma_map_compose<U: View, V: View, W: View, F: Fn(&U) -> V, G: Fn(&V) -> W, H: Fn(
    &U,
) -> W>(p: Pattern<U>, q: Pattern<V>, r: Pattern<W>, s: Pattern<W>, f: F, g: G, h: H)
    requires
        maps_to(p, q, f),
        maps_to(q, r, g),
        maps_to(p, s, h),
        forall|u: &U, v: V, w: W, x: W|
            f.ensures((u,), v) && g.ensures((&v,), w) && h.ensures((u,), x) ==> w@ == x@,
    ensures
        r@ == s@,
    decreases p,
{
    assert forall|i: int| 0 <= i < p.elements.len() implies r.elements[i]@ == s.elements[i]@ by {
        lemma_elements_map_to_at(p, q, f, p.elements.len() as int, i);
        lemma_elements_map_to_at(q, r, g, q.elements.len() as int, i);
        lemma_elements_map_to_at(p, s, h, p.elements.len() as int, i);
        lemma_map_compose(p.elements[i], q.elements[i], r.elements[i], s.elements[i], f, g, h);
    }
    assert(r@.elements =~= s@.elements);
}

/// Equal patterns have equal structural hashes, and a pattern's hash is the
/// same every time it is computed: the hash is a function of the model.
pub proof fn lemma_equal_patterns_hash_equal<V: PatternValue>(p1: Pattern<V>, p2: Pattern<V>)
    requires
        p1@ == p2@,
    ensures
        tree_hash::<V>(p1@) == tree_hash::<V>(p2@),
{
}

/// `combine` on patterns is associative when the values' merge is.
pub proof fn lemma_combine_associative<V: Combinable>(a: Tree<V::V>, b: Tree<V::V>, c: Tree<V::V>)
    ensures
        tree_combined::<V>(tree_combined::<V>(a, b), c) == tree_combined::<V>(
            a,
            tree_combined::<V>(b, c),
        ),
{
    V::lemma_merged_associative(a.value, b.value, c.value);
    assert(a.elements + b.elements + c.elements =~= a.elements + (b.elements + c.elements));
}

proof fn lemma_models_push_set<V: View>(s: Seq<Pattern<V>>, x: Pattern<V>)
    ensures
        models(s.push(x)) == models(s).push(x@),
        models(s.push(x)).to_set() == models(s).to_set().insert(x@),
{
    assert(models(s.push(x)) =~= models(s).push(x@));
    assert(models(s).push(x@) =~= models(s) + seq![x@]);
    Seq::lemma_to_set_insert_commutes(models(s), x@);
}

/// The patterns of `ps` with structural duplicates removed, first
/// occurrences kept in order: one pattern per structurally distinct input.
pub fn dedup_patterns<V: PatternValue>(ps: &Vec<Pattern<V>>) -> (r: Vec<Pattern<V>>)
    ensures
        models(r@).no_duplicates(),
        models(r@).to_set() == models(ps@).to_set(),
        r@.len() == models(ps@).to_set().len(),
{
    let mut r: Vec<Pattern<V>> = Vec::new();
    let mut hashes: Vec<u64> = Vec::new();
    let mut i: usize = 0;
    assert(models(r@).to_set() =~= models(ps@.subrange(0, 0)).to_set());
    while i < ps.len()
        invariant
            i <= ps.len(),
            hashes.len() == r.len(),
            forall|k: int| 0 <= k < r.len() ==> hashes@[k] == tree_hash::<V>(#[trigger] r@[k]@),
            models(r@).no_duplicates(),
            models(r@).to_set() == models(ps@.subrange(0, i as int)).to_set(),
        decreases ps.len() - i,
    {
        let p = &ps[i];
        let h = p.structural_hash();
        let mut found = false;
        let mut j: usize = 0;
        while j < r.len()
            invariant
                j <= r.len() == hashes.len(),
                forall|k: int| 0 <= k < r.len() ==> hashes@[k] == tree_hash::<V>(#[trigger] r@[k]@),
                h == tree_hash::<V>(p@),
                found ==> models(r@).contains(p@),
                !found ==> forall|k: int| 0 <= k < j ==> r@[k]@ != p@,
            ensures
                found ==> models(r@).contains(p@),
                !found ==> forall|k: int| 0 <= k < r.len() ==> r@[k]@ != p@,
            decreases r.len() - j,
        {
            if hashes[j] == h && r[j].structurally_equal(p) {
                assert(models(r@)[j as int] == p@);
                found = true;
                break ;
            }
            j = j + 1;
        }
        proof {
            assert(ps@.subrange(0, i + 1) =~= ps@.subrange(0, i as int).push(ps@[i as int]));
            lemma_models_push_set(ps@.subrange(0, i as int), ps@[i as int]);
        }
        if found {
            proof {
                let ms = models(ps@.subrange(0, i as int)).to_set();
                assert(models(r@).to_set().contains(p@));
                assert(ms.insert(p@) =~= ms);
            }
        } else {
            let ghost before = r@;
            assert(forall|k: int| 0 <= k < before.len() ==> before[k]@ != p@);
            let q = p.duplicate();
            r.push(q);
            hashes.push(h);
            proof {
                lemma_models_push_set(before, q);
                assert(!models(before).contains(p@)) by {
                    if models(before).contains(p@) {
                        let k = choose|k: int| 0 <= k < models(before).len() && models(before)[k] == p@;
                        assert(before[k]@ == p@);
                    }
                }
                assert forall|k: int| 0 <= k < r.len() implies hashes@[k] == tree_hash::<V>(#[trigger] r@[k]@) by {
                    if k < before.len() {
                        assert(r@[k] == before[k]);
                    }
                }
            }
        }
        i = i + 1;
    }
    proof {
        assert(ps@.subrange(0, ps@.len() as int) =~= ps@);
        models(r@).unique_seq_to_set();
    }
    r
}

} // verus!
