//! A map that is walked in the order of its keys.

use crate::text::{
    lemma_str_lt_connected, lemma_str_lt_irreflexive, lemma_str_lt_transitive, str_less, str_lt,
    Chars,
};
use crate::value::Value;
use vstd::prelude::*;

verus! {

/// A key: a value with a strict total order.
pub trait Key: Value {
    /// Whether `a` comes before `b`.
    spec fn lt(a: Self::V, b: Self::V) -> bool;

    proof fn lt_irreflexive(a: Self::V)
        ensures
            !Self::lt(a, a),
    ;

    proof fn lt_transitive(a: Self::V, b: Self::V, c: Self::V)
        requires
            Self::lt(a, b),
            Self::lt(b, c),
        ensures
            Self::lt(a, c),
    ;

    proof fn lt_connected(a: Self::V, b: Self::V)
        requires
            a != b,
        ensures
            Self::lt(a, b) || Self::lt(b, a),
    ;

    fn before(&self, other: &Self) -> (r: bool)
        ensures
            r == Self::lt(self.deep_view(), other.deep_view()),
    ;
}

impl Key for String {
    open spec fn lt(a: Chars, b: Chars) -> bool {
        str_lt(a, b)
    }

    proof fn lt_irreflexive(a: Chars) {
        lemma_str_lt_irreflexive(a);
    }

    proof fn lt_transitive(a: Chars, b: Chars, c: Chars) {
        lemma_str_lt_transitive(a, b, c);
    }

    proof fn lt_connected(a: Chars, b: Chars) {
        lemma_str_lt_connected(a, b);
    }

    fn before(&self, other: &Self) -> (r: bool) {
        str_less(self.as_str(), other.as_str())
    }
}

/// Pairs are ordered by their first part, then by their second.
impl<A: Key, B: Key> Key for (A, B) {
    open spec fn lt(a: (A::V, B::V), b: (A::V, B::V)) -> bool {
        A::lt(a.0, b.0) || a.0 == b.0 && B::lt(a.1, b.1)
    }

    proof fn lt_irreflexive(a: (A::V, B::V)) {
        A::lt_irreflexive(a.0);
        B::lt_irreflexive(a.1);
    }

    proof fn lt_transitive(a: (A::V, B::V), b: (A::V, B::V), c: (A::V, B::V)) {
        if A::lt(a.0, b.0) && A::lt(b.0, c.0) {
            A::lt_transitive(a.0, b.0, c.0);
        } else if a.0 == b.0 && b.0 == c.0 {
            if B::lt(a.1, b.1) && B::lt(b.1, c.1) {
                B::lt_transitive(a.1, b.1, c.1);
            }
        }
    }

    proof fn lt_connected(a: (A::V, B::V), b: (A::V, B::V)) {
        if a.0 != b.0 {
            A::lt_connected(a.0, b.0);
        } else {
            B::lt_connected(a.1, b.1);
        }
    }

    fn before(&self, other: &Self) -> (r: bool) {
        if self.0.before(&other.0) {
            true
        } else {
            self.0.same(&other.0) && self.1.before(&other.1)
        }
    }
}

/// Whether each key of a sequence comes before all that follow it.
pub open spec fn ascending<K: Key>(keys: Seq<K::V>) -> bool {
    forall|i: int, j: int| 0 <= i < j < keys.len() ==> K::lt(#[trigger] keys[i], #[trigger] keys[j])
}

/// The keys of a finite set in ascending order.
pub open spec fn in_order<K: Key>(dom: Set<K::V>) -> Seq<K::V> {
    choose|keys: Seq<K::V>| ascending::<K>(keys) && #[trigger] keys.to_set() == dom
}

/// Two ascending sequences of the same keys are equal.
proof fn lemma_ascending_unique<K: Key>(a: Seq<K::V>, b: Seq<K::V>)
    requires
        ascending::<K>(a),
        ascending::<K>(b),
        a.to_set() == b.to_set(),
    ensures
        a == b,
    decreases a.len(),
{
    if a.len() == 0 {
        if b.len() > 0 {
            assert(b.to_set().contains(b[0]));
            assert(a.to_set().contains(b[0]));
        }
        assert(a =~= b);
    } else {
        assert(a.to_set().contains(a[0]));
        assert(b.to_set().contains(a[0]));
        let i = choose|i: int| 0 <= i < b.len() && b[i] == a[0];
        assert(b.to_set().contains(b[0]));
        assert(a.to_set().contains(b[0]));
        let j = choose|j: int| 0 <= j < a.len() && a[j] == b[0];
        if i != 0 {
            assert(K::lt(b[0], b[i]));
            if j != 0 {
                assert(K::lt(a[0], a[j]));
                K::lt_transitive(a[0], b[0], a[0]);
            }
            K::lt_irreflexive(a[0]);
        }
        let a1 = a.drop_first();
        let b1 = b.drop_first();
        assert(a1.to_set() =~= b1.to_set()) by {
            assert forall|k: K::V| a1.to_set().contains(k) == b1.to_set().contains(k) by {
                if a1.to_set().contains(k) {
                    let x = choose|x: int| 0 <= x < a1.len() && a1[x] == k;
                    assert(a[x + 1] == k);
                    assert(a.to_set().contains(k));
                    assert(b.to_set().contains(k));
                    let y = choose|y: int| 0 <= y < b.len() && b[y] == k;
                    if y == 0 {
                        assert(K::lt(a[0], a[x + 1]));
                        K::lt_irreflexive(k);
                    }
                    assert(b1[y - 1] == k);
                }
                if b1.to_set().contains(k) {
                    let x = choose|x: int| 0 <= x < b1.len() && b1[x] == k;
                    assert(b[x + 1] == k);
                    assert(b.to_set().contains(k));
                    assert(a.to_set().contains(k));
                    let y = choose|y: int| 0 <= y < a.len() && a[y] == k;
                    if y == 0 {
                        assert(K::lt(b[0], b[x + 1]));
                        K::lt_irreflexive(k);
                    }
                    assert(a1[y - 1] == k);
                }
            }
        }
        lemma_ascending_unique::<K>(a1, b1);
        assert(a =~= seq![a[0]] + a1);
        assert(b =~= seq![b[0]] + b1);
    }
}

/// An ascending sequence is the order of the set of its keys.
pub proof fn lemma_in_order<K: Key>(keys: Seq<K::V>)
    requires
        ascending::<K>(keys),
    ensures
        in_order::<K>(keys.to_set()) == keys,
{
    assert(ascending::<K>(keys) && keys.to_set() == keys.to_set());
    lemma_ascending_unique::<K>(in_order::<K>(keys.to_set()), keys);
}

/// The keys of a finite set can be put in order.
pub proof fn lemma_in_order_exists<K: Key>(dom: Set<K::V>)
    requires
        dom.finite(),
    ensures
        ascending::<K>(in_order::<K>(dom)),
        in_order::<K>(dom).to_set() == dom,
    decreases dom.len(),
{
    if dom.len() == 0 {
        let none = Seq::<K::V>::empty();
        assert(none.to_set() =~= dom);
        assert(ascending::<K>(none));
    } else {
        let a = dom.choose();
        let rest = dom.remove(a);
        lemma_in_order_exists::<K>(rest);
        let keys = in_order::<K>(rest);
        let p = lemma_place::<K>(keys, a, 0);
        let all = keys.insert(p, a);
        assert forall|i: int, j: int| 0 <= i < j < all.len() implies K::lt(
            #[trigger] all[i],
            #[trigger] all[j],
        ) by {
            let x = if i < p { i } else { i - 1 };
            let y = if j < p { j } else { j - 1 };
            if i == p {
                assert(all[j] == keys[j - 1]);
                if j - 1 > p {
                    assert(K::lt(keys[p], keys[j - 1]));
                    K::lt_transitive(a, keys[p], keys[j - 1]);
                }
            } else if j == p {
                assert(all[i] == keys[i]);
            } else {
                assert(all[i] == keys[x] && all[j] == keys[y]);
            }
        }
        assert forall|k: K::V| all.to_set().contains(k) == dom.contains(k) by {
            if all.to_set().contains(k) {
                let i = choose|i: int| 0 <= i < all.len() && all[i] == k;
                if i < p {
                    assert(keys.to_set().contains(keys[i]));
                } else if i > p {
                    assert(keys.to_set().contains(keys[i - 1]));
                }
            }
            if dom.contains(k) {
                if k == a {
                    assert(all[p] == k);
                } else {
                    assert(keys.to_set().contains(k));
                    let i = choose|i: int| 0 <= i < keys.len() && keys[i] == k;
                    if i < p {
                        assert(all[i] == k);
                    } else {
                        assert(all[i + 1] == k);
                    }
                }
            }
        }
        assert(all.to_set() =~= dom);
    }
}

/// Where a new key belongs in an ascending sequence.
proof fn lemma_place<K: Key>(keys: Seq<K::V>, a: K::V, from: int) -> (p: int)
    requires
        ascending::<K>(keys),
        !keys.contains(a),
        0 <= from <= keys.len(),
        forall|i: int| 0 <= i < from ==> K::lt(#[trigger] keys[i], a),
    ensures
        from <= p <= keys.len(),
        forall|i: int| 0 <= i < p ==> K::lt(#[trigger] keys[i], a),
        p < keys.len() ==> K::lt(a, keys[p]),
    decreases keys.len() - from,
{
    if from == keys.len() {
        from
    } else {
        assert(keys[from] != a);
        K::lt_connected(keys[from], a);
        if K::lt(keys[from], a) {
            lemma_place::<K>(keys, a, from + 1)
        } else {
            from
        }
    }
}

/// A map with its entries in ascending order of their keys.
#[derive(Debug)]
pub struct OrdMap<K: Key, V: DeepView> {
    entries: Vec<(K, V)>,
}

impl<K: Key, V: DeepView> OrdMap<K, V> {
    spec fn keys(self) -> Seq<K::V> {
        self.entries.deep_view().map_values(|e: (K::V, V::V)| e.0)
    }

    #[verifier::type_invariant]
    spec fn well_formed(self) -> bool {
        ascending::<K>(self.keys())
    }
}

/// The map that a sequence of entries stands for.
spec fn entries_map<A, B>(entries: Seq<(A, B)>) -> Map<A, B> {
    Map::new(
        |k: A| exists|i: int| 0 <= i < entries.len() && #[trigger] entries[i].0 == k,
        |k: A| entries[choose|i: int| 0 <= i < entries.len() && #[trigger] entries[i].0 == k].1,
    )
}

impl<K: Key, V: DeepView> View for OrdMap<K, V> {
    type V = Map<K::V, V::V>;

    closed spec fn view(&self) -> Map<K::V, V::V> {
        entries_map(self.entries.deep_view())
    }
}

impl<K: Key, V: DeepView> DeepView for OrdMap<K, V> {
    type V = Map<K::V, V::V>;

    open spec fn deep_view(&self) -> Map<K::V, V::V> {
        self@
    }
}

/// The keys of ascending entries are those of the map, each with its value.
proof fn lemma_entries<K: Key, B>(entries: Seq<(K::V, B)>)
    requires
        ascending::<K>(entries.map_values(|e: (K::V, B)| e.0)),
    ensures
        entries.map_values(|e: (K::V, B)| e.0).to_set() == entries_map(entries).dom(),
        in_order::<K>(entries_map(entries).dom()) == entries.map_values(|e: (K::V, B)| e.0),
        forall|i: int| 0 <= i < entries.len() ==> #[trigger] entries_map(entries).contains_pair(
            entries[i].0,
            entries[i].1,
        ),
{
    let keys = entries.map_values(|e: (K::V, B)| e.0);
    let m = entries_map(entries);
    assert forall|i: int| 0 <= i < entries.len() implies #[trigger] m.contains_pair(
        entries[i].0,
        entries[i].1,
    ) by {
        let k = entries[i].0;
        assert(m.dom().contains(k));
        let j = choose|j: int| 0 <= j < entries.len() && #[trigger] entries[j].0 == k;
        if i < j {
            assert(K::lt(keys[i], keys[j]));
            K::lt_irreflexive(k);
        }
        if j < i {
            assert(K::lt(keys[j], keys[i]));
            K::lt_irreflexive(k);
        }
    }
    assert forall|k: K::V| keys.to_set().contains(k) == m.dom().contains(k) by {
        if keys.to_set().contains(k) {
            let i = choose|i: int| 0 <= i < keys.len() && keys[i] == k;
            assert(entries[i].0 == k);
        }
        if m.dom().contains(k) {
            let i = choose|i: int| 0 <= i < entries.len() && #[trigger] entries[i].0 == k;
            assert(keys[i] == k);
        }
    }
    assert(keys.to_set() =~= m.dom());
    lemma_in_order::<K>(keys);
}

impl<K: Key, V: DeepView> OrdMap<K, V> {
    /// An empty map.
    pub fn new() -> (r: Self)
        ensures
            r@ == Map::<K::V, V::V>::empty(),
    {
        let r = OrdMap { entries: Vec::new() };
        assert(r@ =~= Map::<K::V, V::V>::empty());
        r
    }

    proof fn lemma_view(&self)
        requires
            self.well_formed(),
        ensures
            in_order::<K>(self@.dom()) == self.keys(),
            self.keys().len() == self.entries@.len(),
            forall|i: int| 0 <= i < self.entries@.len() ==> #[trigger] self@.contains_pair(
                self.entries@[i].0.deep_view(),
                self.entries@[i].1.deep_view(),
            ),
            forall|k: K::V| #[trigger]
                self@.dom().contains(k) ==> exists|i: int|
                    0 <= i < self.entries@.len() && #[trigger] self.entries@[i].0.deep_view() == k,
    {
        let e = self.entries.deep_view();
        lemma_entries::<K, V::V>(e);
        assert forall|i: int| 0 <= i < self.entries@.len() implies #[trigger] self@.contains_pair(
            self.entries@[i].0.deep_view(),
            self.entries@[i].1.deep_view(),
        ) by {
            assert(entries_map(e).contains_pair(e[i].0, e[i].1));
        }
        assert forall|k: K::V| #[trigger] self@.dom().contains(k) implies exists|i: int|
            0 <= i < self.entries@.len() && #[trigger] self.entries@[i].0.deep_view() == k by {
            let i = choose|i: int| 0 <= i < e.len() && #[trigger] e[i].0 == k;
            assert(self.entries@[i].0.deep_view() == k);
        }
    }

    /// The number of entries.
    pub fn len(&self) -> (r: usize)
        ensures
            r == in_order::<K>(self@.dom()).len(),
            ascending::<K>(in_order::<K>(self@.dom())),
            in_order::<K>(self@.dom()).to_set() == self@.dom(),
    {
        proof {
            use_type_invariant(self);
            self.lemma_view();
            lemma_entries::<K, V::V>(self.entries.deep_view());
        }
        self.entries.len()
    }

    /// The key at a position of the order.
    pub fn key_at(&self, i: usize) -> (r: &K)
        requires
            i < in_order::<K>(self@.dom()).len(),
        ensures
            r.deep_view() == in_order::<K>(self@.dom())[i as int],
            self@.dom().contains(r.deep_view()),
    {
        proof {
            use_type_invariant(self);
            self.lemma_view();
        }
        let r = &self.entries[i].0;
        assert(self@.contains_pair(r.deep_view(), self.entries@[i as int].1.deep_view()));
        r
    }

    /// The value at a position of the order.
    pub fn value_at(&self, i: usize) -> (r: &V)
        requires
            i < in_order::<K>(self@.dom()).len(),
        ensures
            self@.dom().contains(in_order::<K>(self@.dom())[i as int]),
            r.deep_view() == self@[in_order::<K>(self@.dom())[i as int]],
    {
        proof {
            use_type_invariant(self);
            self.lemma_view();
        }
        let r = &self.entries[i].1;
        assert(self@.contains_pair(self.entries@[i as int].0.deep_view(), r.deep_view()));
        r
    }

    /// The position of the first key that does not come before `key`.
    fn position(&self, key: &K) -> (r: usize)
        requires
            self.well_formed(),
        ensures
            r <= self.entries@.len(),
            forall|i: int| 0 <= i < r ==> K::lt(#[trigger] self.keys()[i], key.deep_view()),
            forall|i: int|
                r <= i < self.entries@.len() ==> !K::lt(#[trigger] self.keys()[i], key.deep_view()),
    {
        let mut i: usize = 0;
        while i < self.entries.len() && self.entries[i].0.before(key)
            invariant
                i <= self.entries@.len(),
                forall|j: int| 0 <= j < i ==> K::lt(#[trigger] self.keys()[j], key.deep_view()),
            decreases self.entries.len() - i,
        {
            assert(self.keys()[i as int] == self.entries@[i as int].0.deep_view());
            i += 1;
        }
        proof {
            if i < self.entries.len() {
                assert(self.keys()[i as int] == self.entries@[i as int].0.deep_view());
                assert forall|j: int| i <= j < self.entries@.len() implies !K::lt(
                    #[trigger] self.keys()[j],
                    key.deep_view(),
                ) by {
                    if i < j && K::lt(self.keys()[j], key.deep_view()) {
                        K::lt_transitive(self.keys()[i as int], self.keys()[j], key.deep_view());
                    }
                }
            }
        }
        i
    }

    /// Finds the position of a key, or that it is absent.
    fn find(&self, key: &K) -> (r: (usize, bool))
        requires
            self.well_formed(),
        ensures
            r.0 <= self.entries@.len(),
            forall|i: int| 0 <= i < r.0 ==> K::lt(#[trigger] self.keys()[i], key.deep_view()),
            r.1 == self@.dom().contains(key.deep_view()),
            r.1 ==> r.0 < self.entries@.len() && self.keys()[r.0 as int] == key.deep_view(),
            !r.1 ==> forall|i: int|
                r.0 <= i < self.entries@.len() ==> K::lt(
                    key.deep_view(),
                    #[trigger] self.keys()[i],
                ),
    {
        let p = self.position(key);
        let found = p < self.entries.len() && self.entries[p].0.same(key);
        proof {
            self.lemma_view();
            let k = key.deep_view();
            if found {
                assert(self@.contains_pair(
                    self.entries@[p as int].0.deep_view(),
                    self.entries@[p as int].1.deep_view(),
                ));
                assert(self.keys()[p as int] == k);
            } else {
                assert forall|i: int| p <= i < self.entries@.len() implies K::lt(
                    k,
                    #[trigger] self.keys()[i],
                ) by {
                    if self.keys()[i] == k {
                        assert(i > p);
                        assert(self.keys()[p as int] == self.entries@[p as int].0.deep_view());
                        assert(K::lt(self.keys()[p as int], self.keys()[i]));
                    }
                    K::lt_connected(k, self.keys()[i]);
                }
                if self@.dom().contains(k) {
                    let i = choose|i: int|
                        0 <= i < self.entries@.len() && #[trigger] self.entries@[i].0.deep_view()
                            == k;
                    assert(self.keys()[i] == k);
                    K::lt_irreflexive(k);
                }
            }
        }
        (p, found)
    }

    /// Whether a key is there.
    pub fn contains_key(&self, key: &K) -> (r: bool)
        ensures
            r == self@.dom().contains(key.deep_view()),
    {
        proof {
            use_type_invariant(self);
        }
        self.find(key).1
    }

    /// The value of a key, if it is there.
    pub fn get(&self, key: &K) -> (r: Option<&V>)
        ensures
            r is Some == self@.dom().contains(key.deep_view()),
            r matches Some(v) ==> v.deep_view() == self@[key.deep_view()],
    {
        proof {
            use_type_invariant(self);
            self.lemma_view();
        }
        let (p, found) = self.find(key);
        if found {
            assert(self@.contains_pair(
                self.entries@[p as int].0.deep_view(),
                self.entries@[p as int].1.deep_view(),
            ));
            assert(self.keys()[p as int] == self.entries@[p as int].0.deep_view());
            Some(&self.entries[p].1)
        } else {
            None
        }
    }

    /// Sets the value of a key.
    pub fn insert(&mut self, key: K, value: V)
        ensures
            final(self)@ == old(self)@.insert(key.deep_view(), value.deep_view()),
    {
        proof {
            use_type_invariant(&*self);
            self.lemma_view();
        }
        let (p, found) = self.find(&key);
        let mut entries: Vec<(K, V)> = Vec::new();
        std::mem::swap(&mut entries, &mut self.entries);
        let ghost k = key.deep_view();
        let ghost v = value.deep_view();
        let ghost e0 = entries.deep_view();
        if found {
            entries[p] = (key, value);
        } else {
            entries.insert(p, (key, value));
        }
        proof {
            let e1 = entries.deep_view();
            let keys0 = e0.map_values(|e: (K::V, V::V)| e.0);
            let keys1 = e1.map_values(|e: (K::V, V::V)| e.0);
            let changed = if found { keys0 } else { keys0.insert(p as int, k) };
            if found {
                assert(e1 =~= e0.update(p as int, (k, v)));
            } else {
                assert(e1 =~= e0.insert(p as int, (k, v)));
            }
            assert(keys1 =~= changed);
            lemma_entries::<K, V::V>(e0);
            lemma_entries::<K, V::V>(e1);
            let m0 = entries_map(e0);
            let m1 = entries_map(e1);
            assert forall|x: K::V|
                m1.dom().contains(x) == #[trigger] m0.insert(k, v).dom().contains(x) by {
                if m1.dom().contains(x) {
                    let i = choose|i: int| 0 <= i < e1.len() && #[trigger] e1[i].0 == x;
                    if found {
                        assert(e0[i].0 == x);
                    } else if i < p {
                        assert(e0[i].0 == x);
                    } else if i > p {
                        assert(e0[i - 1].0 == x);
                    }
                }
                if m0.dom().contains(x) {
                    let i = choose|i: int| 0 <= i < e0.len() && #[trigger] e0[i].0 == x;
                    if found || i < p {
                        assert(e1[i].0 == x);
                    } else {
                        assert(e1[i + 1].0 == x);
                    }
                }
                assert(e1[p as int].0 == k);
            }
            assert forall|x: K::V| #[trigger] m1.dom().contains(x) implies m1[x] == m0.insert(
                k,
                v,
            )[x] by {
                let i = choose|i: int| 0 <= i < e1.len() && #[trigger] e1[i].0 == x;
                assert(m1.contains_pair(e1[i].0, e1[i].1));
                if i == p {
                } else {
                    let j = if found || i < p { i } else { i - 1 };
                    assert(e0[j] == e1[i]);
                    assert(m0.contains_pair(e0[j].0, e0[j].1));
                    if x == k {
                        assert(m1.contains_pair(e1[p as int].0, e1[p as int].1));
                        if i < p {
                            assert(K::lt(keys1[i], keys1[p as int]));
                        } else {
                            assert(K::lt(keys1[p as int], keys1[i]));
                        }
                        K::lt_irreflexive(k);
                    }
                }
            }
            assert(m1 =~= m0.insert(k, v));
        }
        self.entries = entries;
    }

    /// Takes a key and its value out.
    pub fn remove(&mut self, key: &K) -> (r: Option<V>)
        ensures
            final(self)@ == old(self)@.remove(key.deep_view()),
            r is Some == old(self)@.dom().contains(key.deep_view()),
            r matches Some(v) ==> v.deep_view() == old(self)@[key.deep_view()],
    {
        proof {
            use_type_invariant(&*self);
            self.lemma_view();
        }
        let (p, found) = self.find(key);
        if !found {
            assert(self@ =~= self@.remove(key.deep_view()));
            return None;
        }
        let mut entries: Vec<(K, V)> = Vec::new();
        std::mem::swap(&mut entries, &mut self.entries);
        let ghost k = key.deep_view();
        let ghost e0 = entries.deep_view();
        let (_, value) = entries.remove(p);
        proof {
            let e1 = entries.deep_view();
            let keys0 = e0.map_values(|e: (K::V, V::V)| e.0);
            let keys1 = e1.map_values(|e: (K::V, V::V)| e.0);
            assert(e1 =~= e0.remove(p as int));
            assert(keys1 =~= keys0.remove(p as int));
            lemma_entries::<K, V::V>(e0);
            lemma_entries::<K, V::V>(e1);
            let m0 = entries_map(e0);
            let m1 = entries_map(e1);
            assert(m0.contains_pair(e0[p as int].0, e0[p as int].1));
            assert forall|x: K::V|
                m1.dom().contains(x) == #[trigger] m0.remove(k).dom().contains(x) by {
                if m1.dom().contains(x) {
                    let i = choose|i: int| 0 <= i < e1.len() && #[trigger] e1[i].0 == x;
                    let j = if i < p { i } else { i + 1 };
                    assert(e0[j].0 == x);
                    if x == k {
                        if j < p {
                            assert(K::lt(keys0[j], keys0[p as int]));
                        } else {
                            assert(K::lt(keys0[p as int], keys0[j]));
                        }
                        K::lt_irreflexive(k);
                    }
                }
                if m0.dom().contains(x) && x != k {
                    let i = choose|i: int| 0 <= i < e0.len() && #[trigger] e0[i].0 == x;
                    if i < p {
                        assert(e1[i].0 == x);
                    } else {
                        assert(e1[i - 1].0 == x);
                    }
                }
            }
            assert forall|x: K::V| #[trigger] m1.dom().contains(x) implies m1[x] == m0.remove(
                k,
            )[x] by {
                let i = choose|i: int| 0 <= i < e1.len() && #[trigger] e1[i].0 == x;
                assert(m1.contains_pair(e1[i].0, e1[i].1));
                let j = if i < p { i } else { i + 1 };
                assert(e0[j] == e1[i]);
                assert(m0.contains_pair(e0[j].0, e0[j].1));
                assert(m0.remove(k).dom().contains(x));
            }
            assert(m1 =~= m0.remove(k));
        }
        self.entries = entries;
        Some(value)
    }
}

impl<K: Key, V: DeepView> OrdMap<K, V> {
    /// The entries in ascending order of their keys.
    pub fn into_entries(self) -> (r: Vec<(K, V)>)
        ensures
            r@.len() == in_order::<K>(self@.dom()).len(),
            forall|i: int|
                0 <= i < r@.len() ==> {
                    &&& (#[trigger] r@[i]).0.deep_view() == in_order::<K>(self@.dom())[i]
                    &&& r@[i].1.deep_view() == self@[in_order::<K>(self@.dom())[i]]
                },
    {
        proof {
            use_type_invariant(&self);
            self.lemma_view();
            assert forall|i: int| 0 <= i < self.entries@.len() implies {
                &&& (#[trigger] self.entries@[i]).0.deep_view() == in_order::<K>(self@.dom())[i]
                &&& self.entries@[i].1.deep_view() == self@[in_order::<K>(self@.dom())[i]]
            } by {
                assert(self@.contains_pair(
                    self.entries@[i].0.deep_view(),
                    self.entries@[i].1.deep_view(),
                ));
                assert(self.keys()[i] == self.entries@[i].0.deep_view());
            }
        }
        self.entries
    }
}

/// Enters the keys of a map into a set of keys.
pub fn add_keys<K: Key, V: DeepView>(keys: &mut OrdMap<K, ()>, m: &OrdMap<K, V>)
    ensures
        final(keys)@.dom() == old(keys)@.dom().union(m@.dom()),
{
    let ghost before = keys@.dom();
    let ghost all = in_order::<K>(m@.dom());
    let n = m.len();
    let mut i: usize = 0;
    assert(before.union(all.take(0).to_set()) =~= before);
    while i < n
        invariant
            i <= n,
            n == all.len(),
            all == in_order::<K>(m@.dom()),
            all.to_set() == m@.dom(),
            keys@.dom() == before.union(all.take(i as int).to_set()),
        decreases n - i,
    {
        let ghost partial = keys@;
        keys.insert(m.key_at(i).copy(), ());
        proof {
            let k = all[i as int];
            let t = all.take(i + 1);
            assert(t =~= all.take(i as int).push(k));
            assert forall|x: K::V| keys@.dom().contains(x) == before.union(
                t.to_set(),
            ).contains(x) by {
                if x == k {
                    assert(t[i as int] == x);
                } else if all.take(i as int).contains(x) {
                    let j = choose|j: int| 0 <= j < i && all.take(i as int)[j] == x;
                    assert(t[j] == x);
                } else if t.contains(x) {
                    let j = choose|j: int| 0 <= j < i + 1 && t[j] == x;
                    assert(all.take(i as int)[j] == x);
                }
            }
            assert(keys@.dom() =~= before.union(t.to_set()));
        }
        i += 1;
    }
    assert(all.take(i as int) =~= all);
}

impl<K: Key, V: Value> Value for OrdMap<K, V> {
    fn copy(&self) -> (r: Self) {
        proof {
            use_type_invariant(self);
        }
        let entries = self.entries.copy();
        assert(entries.deep_view() == self.entries.deep_view());
        OrdMap { entries }
    }

    fn same(&self, other: &Self) -> (r: bool) {
        proof {
            use_type_invariant(self);
            use_type_invariant(other);
            self.lemma_view();
            other.lemma_view();
        }
        let r = self.entries.same(&other.entries);
        proof {
            if self@ == other@ {
                let a = self.entries.deep_view();
                let b = other.entries.deep_view();
                assert(self.keys() == other.keys());
                assert forall|i: int| 0 <= i < a.len() implies a[i] == b[i] by {
                    assert(self.keys()[i] == a[i].0 && other.keys()[i] == b[i].0);
                    assert(self@.contains_pair(
                        self.entries@[i].0.deep_view(),
                        self.entries@[i].1.deep_view(),
                    ));
                    assert(other@.contains_pair(
                        other.entries@[i].0.deep_view(),
                        other.entries@[i].1.deep_view(),
                    ));
                }
                assert(a =~= b);
            }
        }
        r
    }
}

} // verus!
