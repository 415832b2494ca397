//! An ordered map and an ordered set, kept as sorted vectors.

use crate::text;
use crate::text::Rank;
use vstd::prelude::*;

verus! {

/// A key with a strict total order on its model.
pub trait Key: DeepView + Sized {
    spec fn precedes(a: Self::V, b: Self::V) -> bool;

    proof fn lemma_irreflexive(a: Self::V)
        ensures
            !Self::precedes(a, a),
    ;

    proof fn lemma_transitive(a: Self::V, b: Self::V, c: Self::V)
        requires
            Self::precedes(a, b),
            Self::precedes(b, c),
        ensures
            Self::precedes(a, c),
    ;

    proof fn lemma_total(a: Self::V, b: Self::V)
        ensures
            Self::precedes(a, b) || Self::precedes(b, a) || a == b,
    ;

    fn rank(&self, other: &Self) -> (r: Rank)
        ensures
            match r {
                Rank::Before => Self::precedes(self.deep_view(), other.deep_view()),
                Rank::Same => self.deep_view() == other.deep_view(),
                Rank::After => Self::precedes(other.deep_view(), self.deep_view()),
            },
    ;
}

/// Whether the keys stand in strictly increasing order.
pub open spec fn increasing<K: Key>(keys: Seq<K::V>) -> bool {
    forall|i: int, j: int|
        0 <= i < j < keys.len() ==> #[trigger] K::precedes(keys[i], keys[j])
}

/// The members of a set in increasing order.
pub open spec fn in_order<K: Key>(keys: Set<K::V>) -> Seq<K::V> {
    choose|s: Seq<K::V>| increasing::<K>(s) && #[trigger] s.to_set() == keys
}

/// Increasing sequences with the same members are the same.
pub proof fn lemma_increasing_unique<K: Key>(s: Seq<K::V>, t: Seq<K::V>)
    requires
        increasing::<K>(s),
        increasing::<K>(t),
        s.to_set() == t.to_set(),
    ensures
        s == t,
    decreases s.len(),
{
    assert forall|x: K::V| #[trigger] s.contains(x) == t.contains(x) by {
        assert(s.to_set().contains(x) == s.contains(x));
        assert(t.to_set().contains(x) == t.contains(x));
    }
    if s.len() == 0 {
        if t.len() > 0 {
            assert(t.contains(t[0]));
            assert(s.contains(t[0]));
        }
        assert(s =~= t);
    } else {
        assert(s.contains(s.last()));
        let j = choose|j: int| 0 <= j < t.len() && t[j] == s.last();
        assert(t.contains(t.last()));
        assert(s.contains(t.last()));
        let i = choose|i: int| 0 <= i < s.len() && s[i] == t.last();
        if j < t.len() - 1 {
            assert(K::precedes(t[j], t[t.len() - 1]));
            if i < s.len() - 1 {
                assert(K::precedes(s[i], s[s.len() - 1]));
                K::lemma_transitive(s.last(), t.last(), s.last());
            }
            K::lemma_irreflexive(s.last());
        }
        let a = s.drop_last();
        let b = t.drop_last();
        assert forall|x: K::V| a.to_set().contains(x) == b.to_set().contains(x) by {
            if a.contains(x) {
                let k = choose|k: int| 0 <= k < a.len() && a[k] == x;
                assert(s[k] == x && s.contains(x));
                let m = choose|m: int| 0 <= m < t.len() && t[m] == x;
                if m == t.len() - 1 {
                    assert(K::precedes(s[k], s[s.len() - 1]));
                    K::lemma_irreflexive(x);
                }
                assert(b[m] == x);
            }
            if b.contains(x) {
                let k = choose|k: int| 0 <= k < b.len() && b[k] == x;
                assert(t[k] == x && t.contains(x));
                assert(s.contains(x));
                let m = choose|m: int| 0 <= m < s.len() && s[m] == x;
                if m == s.len() - 1 {
                    assert(K::precedes(t[k], t[t.len() - 1]));
                    K::lemma_irreflexive(x);
                }
                assert(a[m] == x);
            }
        }
        assert(a.to_set() =~= b.to_set());
        assert forall|p: int, q: int| 0 <= p < q < a.len() implies #[trigger] K::precedes(
            a[p],
            a[q],
        ) by {
            assert(K::precedes(s[p], s[q]));
        }
        assert forall|p: int, q: int| 0 <= p < q < b.len() implies #[trigger] K::precedes(
            b[p],
            b[q],
        ) by {
            assert(K::precedes(t[p], t[q]));
        }
        lemma_increasing_unique::<K>(a, b);
        assert(s =~= a.push(s.last()));
        assert(t =~= b.push(t.last()));
    }
}

/// The order of a set is the one increasing sequence of its members.
pub proof fn lemma_in_order<K: Key>(s: Seq<K::V>, keys: Set<K::V>)
    requires
        increasing::<K>(s),
        forall|k: K::V| #[trigger] keys.contains(k) <==> s.contains(k),
    ensures
        in_order::<K>(keys) == s,
        s.to_set() == keys,
{
    assert(s.to_set() =~= keys);
    lemma_increasing_unique::<K>(in_order::<K>(keys), s);
}

/// A finite set that is not empty has a greatest member.
proof fn lemma_greatest<K: Key>(keys: Set<K::V>) -> (m: K::V)
    requires
        keys.finite(),
        keys.len() > 0,
    ensures
        keys.contains(m),
        forall|x: K::V| #[trigger] keys.contains(x) && x != m ==> K::precedes(x, m),
    decreases keys.len(),
{
    let a = keys.choose();
    let rest = keys.remove(a);
    if rest.len() == 0 {
        assert forall|x: K::V| #[trigger] keys.contains(x) && x != a implies K::precedes(x, a) by {
            assert(rest.contains(x));
        }
        a
    } else {
        let b = lemma_greatest::<K>(rest);
        K::lemma_total(a, b);
        if K::precedes(a, b) {
            assert forall|x: K::V| #[trigger] keys.contains(x) && x != b implies K::precedes(
                x,
                b,
            ) by {
                if x != a {
                    assert(rest.contains(x));
                }
            }
            b
        } else {
            assert(rest.contains(b));
            assert forall|x: K::V| #[trigger] keys.contains(x) && x != a implies K::precedes(
                x,
                a,
            ) by {
                assert(rest.contains(x));
                if x != b {
                    K::lemma_transitive(x, b, a);
                }
            }
            a
        }
    }
}

/// A finite set can be put in order.
pub proof fn lemma_order_exists<K: Key>(keys: Set<K::V>)
    requires
        keys.finite(),
    ensures
        increasing::<K>(in_order::<K>(keys)),
        in_order::<K>(keys).to_set() == keys,
    decreases keys.len(),
{
    if keys.len() == 0 {
        let none = Seq::<K::V>::empty();
        assert(none.to_set() =~= keys);
        assert(increasing::<K>(none));
    } else {
        let m = lemma_greatest::<K>(keys);
        let rest = keys.remove(m);
        lemma_order_exists::<K>(rest);
        let before = in_order::<K>(rest);
        let s = before.push(m);
        assert forall|x: K::V| s.to_set().contains(x) == keys.contains(x) by {
            assert(before.to_set().contains(x) == rest.contains(x));
            if before.contains(x) {
                let i = choose|i: int| 0 <= i < before.len() && before[i] == x;
                assert(s[i] == x);
            }
            if s.contains(x) {
                let i = choose|i: int| 0 <= i < s.len() && s[i] == x;
                if i < before.len() {
                    assert(before[i] == x);
                }
            }
            assert(s[before.len() as int] == m);
        }
        assert(s.to_set() =~= keys);
        assert forall|i: int, j: int| 0 <= i < j < s.len() implies #[trigger] K::precedes(
            s[i],
            s[j],
        ) by {
            if j < before.len() {
                assert(K::precedes(before[i], before[j]));
            } else {
                assert(before.contains(before[i]));
                assert(before.to_set().contains(before[i]));
                assert(keys.contains(before[i]));
            }
        }
    }
}

/// A map from keys to values whose entries stand in key order.
pub struct SortedMap<K: Key, V> {
    entries: Vec<(K, V)>,
}

impl<K: Key, V> SortedMap<K, V> {
    /// The keys, in order.
    pub closed spec fn keys(&self) -> Seq<K::V> {
        Seq::new(self.entries@.len(), |i: int| self.entries@[i].0.deep_view())
    }

    /// The values, in the order of their keys.
    pub closed spec fn values(&self) -> Seq<V> {
        Seq::new(self.entries@.len(), |i: int| self.entries@[i].1)
    }

    #[verifier::type_invariant]
    spec fn sorted(&self) -> bool {
        increasing::<K>(self.keys())
    }
}

impl<K: Key, V> View for SortedMap<K, V> {
    type V = Map<K::V, V>;

    open spec fn view(&self) -> Map<K::V, V> {
        Map::new(
            |k: K::V| self.keys().contains(k),
            |k: K::V| self.values()[self.keys().index_of(k)],
        )
    }
}

/// In increasing keys each key stands at one place only.
proof fn lemma_one_place<K: Key>(keys: Seq<K::V>, i: int)
    requires
        increasing::<K>(keys),
        0 <= i < keys.len(),
    ensures
        keys.contains(keys[i]),
        keys.index_of(keys[i]) == i,
{
    let j = keys.index_of(keys[i]);
    assert(0 <= j < keys.len() && keys[j] == keys[i]);
    if i < j {
        K::lemma_irreflexive(keys[i]);
        assert(K::precedes(keys[i], keys[j]));
    }
    if j < i {
        K::lemma_irreflexive(keys[i]);
        assert(K::precedes(keys[j], keys[i]));
    }
}

impl<K: Key, V> SortedMap<K, V> {
    /// What links the keys, the values and the map.
    pub open spec fn linked(&self) -> bool {
        &&& increasing::<K>(self.keys())
        &&& self.keys().no_duplicates()
        &&& self.keys().len() == self.values().len()
        &&& forall|k: K::V| #[trigger] self@.contains_key(k) <==> self.keys().contains(k)
        &&& forall|i: int|
            0 <= i < self.keys().len() ==> self@.contains_key(#[trigger] self.keys()[i])
                && self@[self.keys()[i]] == self.values()[i]
    }

    proof fn lemma_linked(&self)
        requires
            self.sorted(),
        ensures
            self.linked(),
    {
        assert forall|i: int| 0 <= i < self.keys().len() implies self@.contains_key(
            #[trigger] self.keys()[i],
        ) && self@[self.keys()[i]] == self.values()[i] by {
            lemma_one_place::<K>(self.keys(), i);
        }
        assert forall|i: int, j: int|
            0 <= i < self.keys().len() && 0 <= j < self.keys().len() && i
                != j implies self.keys()[i] != self.keys()[j] by {
            lemma_one_place::<K>(self.keys(), i);
            lemma_one_place::<K>(self.keys(), j);
        }
    }

    /// The empty map.
    pub fn new() -> (m: Self)
        ensures
            m@ == Map::<K::V, V>::empty(),
            m.keys() == Seq::<K::V>::empty(),
            m.linked(),
    {
        let m = SortedMap { entries: Vec::new() };
        proof {
            assert(m.keys() =~= Seq::<K::V>::empty());
            assert(m@ =~= Map::<K::V, V>::empty());
            m.lemma_linked();
        }
        m
    }

    /// The number of entries.
    pub fn len(&self) -> (n: usize)
        ensures
            n == self.keys().len(),
            self.linked(),
    {
        proof {
            use_type_invariant(&*self);
            self.lemma_linked();
        }
        self.entries.len()
    }

    /// Whether there is no entry.
    pub fn is_empty(&self) -> (r: bool)
        ensures
            r == (self.keys().len() == 0),
            self.linked(),
    {
        self.len() == 0
    }

    /// The place of a key, or the place where it would go.
    fn find(&self, key: &K) -> (r: (bool, usize))
        ensures
            r.1 <= self.keys().len(),
            r.0 ==> r.1 < self.keys().len() && self.keys()[r.1 as int] == key.deep_view(),
            !r.0 ==> !self.keys().contains(key.deep_view()),
            !r.0 ==> forall|i: int|
                0 <= i < r.1 ==> K::precedes(#[trigger] self.keys()[i], key.deep_view()),
            !r.0 ==> forall|i: int|
                r.1 <= i < self.keys().len() ==> K::precedes(
                    key.deep_view(),
                    #[trigger] self.keys()[i],
                ),
            self.linked(),
    {
        proof {
            use_type_invariant(&*self);
            self.lemma_linked();
        }
        let mut lo: usize = 0;
        let mut hi: usize = self.entries.len();
        while lo < hi
            invariant
                lo <= hi <= self.keys().len(),
                self.keys().len() == self.entries@.len(),
                self.linked(),
                forall|i: int|
                    0 <= i < lo ==> K::precedes(#[trigger] self.keys()[i], key.deep_view()),
                forall|i: int|
                    hi <= i < self.keys().len() ==> K::precedes(
                        key.deep_view(),
                        #[trigger] self.keys()[i],
                    ),
            decreases hi - lo,
        {
            let mid: usize = lo + (hi - lo) / 2;
            match self.entries[mid].0.rank(key) {
                Rank::Same => {
                    return (true, mid);
                },
                Rank::Before => {
                    proof {
                        assert forall|i: int| 0 <= i < mid + 1 implies K::precedes(
                            #[trigger] self.keys()[i],
                            key.deep_view(),
                        ) by {
                            if i < mid {
                                assert(K::precedes(self.keys()[i], self.keys()[mid as int]));
                                K::lemma_transitive(
                                    self.keys()[i],
                                    self.keys()[mid as int],
                                    key.deep_view(),
                                );
                            }
                        }
                    }
                    lo = mid + 1;
                },
                Rank::After => {
                    proof {
                        assert forall|i: int| mid <= i < self.keys().len() implies K::precedes(
                            key.deep_view(),
                            #[trigger] self.keys()[i],
                        ) by {
                            if mid < i {
                                assert(K::precedes(self.keys()[mid as int], self.keys()[i]));
                                K::lemma_transitive(
                                    key.deep_view(),
                                    self.keys()[mid as int],
                                    self.keys()[i],
                                );
                            }
                        }
                    }
                    hi = mid;
                },
            }
        }
        proof {
            K::lemma_irreflexive(key.deep_view());
            if self.keys().contains(key.deep_view()) {
                let i = self.keys().index_of(key.deep_view());
                assert(self.keys()[i] == key.deep_view());
            }
        }
        (false, lo)
    }

    /// Whether the map holds a key.
    pub fn contains_key(&self, key: &K) -> (r: bool)
        ensures
            r == self@.contains_key(key.deep_view()),
    {
        self.find(key).0
    }

    /// The value of a key.
    pub fn get(&self, key: &K) -> (r: Option<&V>)
        ensures
            match r {
                Some(v) => self@.contains_key(key.deep_view()) && *v == self@[key.deep_view()],
                None => !self@.contains_key(key.deep_view()),
            },
    {
        let (found, i) = self.find(key);
        if found {
            Some(&self.entries[i].1)
        } else {
            None
        }
    }

    /// The key at a place.
    pub fn key_at(&self, i: usize) -> (k: &K)
        requires
            i < self.keys().len(),
        ensures
            k.deep_view() == self.keys()[i as int],
    {
        &self.entries[i].0
    }

    /// The value at a place.
    pub fn value_at(&self, i: usize) -> (v: &V)
        requires
            i < self.keys().len(),
        ensures
            *v == self.values()[i as int],
            self.linked(),
    {
        proof {
            use_type_invariant(&*self);
            self.lemma_linked();
        }
        &self.entries[i].1
    }

    /// Sets the value of a key.
    pub fn insert(&mut self, key: K, value: V)
        ensures
            final(self)@ == old(self)@.insert(key.deep_view(), value),
            final(self).linked(),
    {
        let (found, i) = self.find(&key);
        let ghost k = key.deep_view();
        let ghost before = *self;
        let mut entries: Vec<(K, V)> = Vec::new();
        std::mem::swap(&mut entries, &mut self.entries);
        if found {
            entries[i] = (key, value);
        } else {
            entries.insert(i, (key, value));
        }
        let ghost keys = Seq::new(entries@.len(), |j: int| entries@[j].0.deep_view());
        proof {
            if found {
                assert(keys =~= before.keys());
            } else {
                assert(keys =~= before.keys().insert(i as int, k));
                assert forall|a: int, b: int| 0 <= a < b < keys.len() implies #[trigger] K::precedes(
                    keys[a],
                    keys[b],
                ) by {
                    if a < i && b > i {
                        assert(K::precedes(before.keys()[a], before.keys()[b - 1]));
                    } else if b < i {
                        assert(K::precedes(before.keys()[a], before.keys()[b]));
                    } else if a > i {
                        assert(K::precedes(before.keys()[a - 1], before.keys()[b - 1]));
                    } else if a == i {
                        assert(K::precedes(k, before.keys()[b - 1]));
                    } else {
                        assert(K::precedes(before.keys()[a], k));
                    }
                }
            }
            assert(increasing::<K>(keys));
        }
        self.entries = entries;
        proof {
            assert(self.keys() =~= keys);
            self.lemma_linked();
            let m = before@.insert(k, value);
            assert forall|q: K::V| self@.contains_key(q) == #[trigger] m.contains_key(q) by {
                if keys.contains(q) && q != k {
                    let j = keys.index_of(q);
                    assert(keys[j] == q);
                    let p = if found || j < i {
                        j
                    } else {
                        j - 1
                    };
                    assert(before.keys()[p] == q);
                }
                if before.keys().contains(q) {
                    let j = before.keys().index_of(q);
                    let p = if found || j < i {
                        j
                    } else {
                        j + 1
                    };
                    assert(keys[p] == q);
                }
                assert(keys[i as int] == k);
            }
            assert forall|q: K::V| #[trigger] m.contains_key(q) implies self@[q] == m[q] by {
                assert(self@.contains_key(q));
                let j = keys.index_of(q);
                assert(self.keys()[j] == q);
                assert(self@[q] == self.values()[j]);
                if q == k {
                    lemma_one_place::<K>(keys, i as int);
                    assert(keys[i as int] == k);
                } else {
                    let p = if found || j < i {
                        j
                    } else {
                        j - 1
                    };
                    assert(j != i);
                    assert(before.keys()[p] == q);
                    lemma_one_place::<K>(before.keys(), p);
                    assert(before.values()[p] == self.values()[j]);
                }
            }
            assert(self@ =~= m);
        }
    }

    /// Takes a key out of the map, with its value.
    pub fn remove(&mut self, key: &K) -> (r: Option<V>)
        ensures
            match r {
                Some(v) => old(self)@.contains_key(key.deep_view()) && v
                    == old(self)@[key.deep_view()],
                None => !old(self)@.contains_key(key.deep_view()),
            },
            final(self)@ == old(self)@.remove(key.deep_view()),
            final(self).linked(),
    {
        let (found, i) = self.find(key);
        if !found {
            proof {
                assert(self@ =~= old(self)@.remove(key.deep_view()));
            }
            return None;
        }
        let ghost k = key.deep_view();
        let ghost before = *self;
        let mut entries: Vec<(K, V)> = Vec::new();
        std::mem::swap(&mut entries, &mut self.entries);
        let taken = entries.remove(i);
        let ghost keys = Seq::new(entries@.len(), |j: int| entries@[j].0.deep_view());
        proof {
            assert(keys =~= before.keys().remove(i as int));
            assert forall|a: int, b: int| 0 <= a < b < keys.len() implies #[trigger] K::precedes(
                keys[a],
                keys[b],
            ) by {
                let a2 = if a < i {
                    a
                } else {
                    a + 1
                };
                let b2 = if b < i {
                    b
                } else {
                    b + 1
                };
                assert(K::precedes(before.keys()[a2], before.keys()[b2]));
            }
            assert(increasing::<K>(keys));
        }
        self.entries = entries;
        proof {
            assert(self.keys() =~= keys);
            self.lemma_linked();
            lemma_one_place::<K>(before.keys(), i as int);
            assert(taken.1 == before.values()[i as int]);
            let m = before@.remove(k);
            assert forall|q: K::V| self@.contains_key(q) == #[trigger] m.contains_key(q) by {
                if keys.contains(q) {
                    let j = keys.index_of(q);
                    assert(keys[j] == q);
                    let p = if j < i {
                        j
                    } else {
                        j + 1
                    };
                    assert(before.keys()[p] == q);
                    lemma_one_place::<K>(before.keys(), p);
                    assert(q != k);
                }
                if before.keys().contains(q) && q != k {
                    let j = before.keys().index_of(q);
                    let p = if j < i {
                        j
                    } else {
                        j - 1
                    };
                    assert(keys[p] == q);
                }
            }
            assert forall|q: K::V| #[trigger] m.contains_key(q) implies self@[q] == m[q] by {
                assert(self@.contains_key(q));
                let j = keys.index_of(q);
                assert(self.keys()[j] == q);
                assert(self@[q] == self.values()[j]);
                let p = if j < i {
                    j
                } else {
                    j + 1
                };
                assert(before.keys()[p] == q);
                lemma_one_place::<K>(before.keys(), p);
                assert(before.values()[p] == self.values()[j]);
            }
            assert(self@ =~= m);
        }
        Some(taken.1)
    }
}

impl<V> SortedMap<String, V> {
    /// The value of a textual key.
    pub fn get_str(&self, key: &str) -> (r: Option<&V>)
        ensures
            match r {
                Some(v) => self@.contains_key(key@) && *v == self@[key@],
                None => !self@.contains_key(key@),
            },
    {
        let owned = key.to_owned();
        self.get(&owned)
    }
}

/// A set whose members stand in order.
pub struct SortedSet<K: Key> {
    map: SortedMap<K, ()>,
}

impl<K: Key> View for SortedSet<K> {
    type V = Set<K::V>;

    closed spec fn view(&self) -> Set<K::V> {
        self.map@.dom()
    }
}

impl<K: Key> SortedSet<K> {
    /// The members, in order.
    pub closed spec fn members(&self) -> Seq<K::V> {
        self.map.keys()
    }

    /// What links the ordered members and the set.
    pub open spec fn linked(&self) -> bool {
        &&& increasing::<K>(self.members())
        &&& self.members().no_duplicates()
        &&& forall|k: K::V| #[trigger] self@.contains(k) <==> self.members().contains(k)
    }

    /// The empty set.
    pub fn new() -> (s: Self)
        ensures
            s@ == Set::<K::V>::empty(),
            s.linked(),
    {
        let s = SortedSet { map: SortedMap::new() };
        proof {
            assert(s@ =~= Set::<K::V>::empty());
        }
        s
    }

    /// The number of members.
    pub fn len(&self) -> (n: usize)
        ensures
            n == self.members().len(),
            n == self@.len(),
            self@.finite(),
            self.linked(),
    {
        let n = self.map.len();
        proof {
            assert forall|k: K::V| #[trigger] self@.contains(k) <==> self.members().contains(
                k,
            ) by {
                assert(self.map@.contains_key(k) <==> self.map.keys().contains(k));
            }
            self.members().unique_seq_to_set();
            assert(self@ =~= self.members().to_set());
        }
        n
    }

    /// Whether there is no member.
    pub fn is_empty(&self) -> (r: bool)
        ensures
            r == (self@ == Set::<K::V>::empty()),
    {
        let n = self.len();
        proof {
            if n == 0 {
                assert(self@ =~= Set::<K::V>::empty());
            }
        }
        n == 0
    }

    /// Whether a key is a member.
    pub fn has(&self, key: &K) -> (r: bool)
        ensures
            r == self@.contains(key.deep_view()),
    {
        self.map.contains_key(key)
    }

    /// Makes a key a member.
    pub fn insert(&mut self, key: K)
        ensures
            final(self)@ == old(self)@.insert(key.deep_view()),
    {
        self.map.insert(key, ());
        proof {
            assert(self@ =~= old(self)@.insert(key.deep_view()));
        }
    }

    /// The member at a place.
    pub fn member_at(&self, i: usize) -> (k: &K)
        requires
            i < self.members().len(),
        ensures
            k.deep_view() == self.members()[i as int],
    {
        self.map.key_at(i)
    }
}

impl SortedSet<String> {
    /// Whether a text is a member.
    pub fn contains(&self, key: &str) -> (r: bool)
        ensures
            r == self@.contains(key@),
    {
        let owned = key.to_owned();
        self.has(&owned)
    }
}

impl Key for (String, String) {
    open spec fn precedes(a: (Seq<char>, Seq<char>), b: (Seq<char>, Seq<char>)) -> bool {
        text::before(a.0, b.0) || (a.0 == b.0 && text::before(a.1, b.1))
    }

    proof fn lemma_irreflexive(a: (Seq<char>, Seq<char>)) {
        <String as Key>::lemma_irreflexive(a.0);
        <String as Key>::lemma_irreflexive(a.1);
    }

    proof fn lemma_transitive(
        a: (Seq<char>, Seq<char>),
        b: (Seq<char>, Seq<char>),
        c: (Seq<char>, Seq<char>),
    ) {
        if text::before(a.0, b.0) && text::before(b.0, c.0) {
            <String as Key>::lemma_transitive(a.0, b.0, c.0);
        }
        if a.0 == b.0 && b.0 == c.0 {
            <String as Key>::lemma_irreflexive(a.0);
            <String as Key>::lemma_transitive(a.1, b.1, c.1);
        }
    }

    proof fn lemma_total(a: (Seq<char>, Seq<char>), b: (Seq<char>, Seq<char>)) {
        <String as Key>::lemma_total(a.0, b.0);
        <String as Key>::lemma_total(a.1, b.1);
    }

    fn rank(&self, other: &Self) -> (r: Rank) {
        match text::str_rank(self.0.as_str(), other.0.as_str()) {
            Rank::Before => Rank::Before,
            Rank::After => Rank::After,
            Rank::Same => text::str_rank(self.1.as_str(), other.1.as_str()),
        }
    }
}

impl Key for (String, String, String) {
    open spec fn precedes(
        a: (Seq<char>, Seq<char>, Seq<char>),
        b: (Seq<char>, Seq<char>, Seq<char>),
    ) -> bool {
        text::before(a.0, b.0) || (a.0 == b.0 && <(String, String) as Key>::precedes(
            (a.1, a.2),
            (b.1, b.2),
        ))
    }

    proof fn lemma_irreflexive(a: (Seq<char>, Seq<char>, Seq<char>)) {
        <String as Key>::lemma_irreflexive(a.0);
        <(String, String) as Key>::lemma_irreflexive((a.1, a.2));
    }

    proof fn lemma_transitive(
        a: (Seq<char>, Seq<char>, Seq<char>),
        b: (Seq<char>, Seq<char>, Seq<char>),
        c: (Seq<char>, Seq<char>, Seq<char>),
    ) {
        if text::before(a.0, b.0) && text::before(b.0, c.0) {
            <String as Key>::lemma_transitive(a.0, b.0, c.0);
        }
        if a.0 == b.0 && b.0 == c.0 {
            <String as Key>::lemma_irreflexive(a.0);
            <(String, String) as Key>::lemma_transitive((a.1, a.2), (b.1, b.2), (c.1, c.2));
        }
    }

    proof fn lemma_total(a: (Seq<char>, Seq<char>, Seq<char>), b: (Seq<char>, Seq<char>, Seq<char>)) {
        <String as Key>::lemma_total(a.0, b.0);
        <(String, String) as Key>::lemma_total((a.1, a.2), (b.1, b.2));
    }

    fn rank(&self, other: &Self) -> (r: Rank) {
        match text::str_rank(self.0.as_str(), other.0.as_str()) {
            Rank::Before => Rank::Before,
            Rank::After => Rank::After,
            Rank::Same => match text::str_rank(self.1.as_str(), other.1.as_str()) {
                Rank::Before => Rank::Before,
                Rank::After => Rank::After,
                Rank::Same => text::str_rank(self.2.as_str(), other.2.as_str()),
            },
        }
    }
}

impl Key for (String, bool) {
    open spec fn precedes(a: (Seq<char>, bool), b: (Seq<char>, bool)) -> bool {
        text::before(a.0, b.0) || (a.0 == b.0 && !a.1 && b.1)
    }

    proof fn lemma_irreflexive(a: (Seq<char>, bool)) {
        <String as Key>::lemma_irreflexive(a.0);
    }

    proof fn lemma_transitive(a: (Seq<char>, bool), b: (Seq<char>, bool), c: (Seq<char>, bool)) {
        if text::before(a.0, b.0) && text::before(b.0, c.0) {
            <String as Key>::lemma_transitive(a.0, b.0, c.0);
        }
    }

    proof fn lemma_total(a: (Seq<char>, bool), b: (Seq<char>, bool)) {
        <String as Key>::lemma_total(a.0, b.0);
    }

    fn rank(&self, other: &Self) -> (r: Rank) {
        match text::str_rank(self.0.as_str(), other.0.as_str()) {
            Rank::Before => Rank::Before,
            Rank::After => Rank::After,
            Rank::Same => if self.1 == other.1 {
                Rank::Same
            } else if other.1 {
                Rank::Before
            } else {
                Rank::After
            },
        }
    }
}

impl Key for String {
    open spec fn precedes(a: Seq<char>, b: Seq<char>) -> bool {
        text::before(a, b)
    }

    proof fn lemma_irreflexive(a: Seq<char>) {
        text::lemma_bytes_irreflexive(vstd::utf8::encode_utf8(a));
    }

    proof fn lemma_transitive(a: Seq<char>, b: Seq<char>, c: Seq<char>) {
        text::lemma_bytes_transitive(
            vstd::utf8::encode_utf8(a),
            vstd::utf8::encode_utf8(b),
            vstd::utf8::encode_utf8(c),
        );
    }

    proof fn lemma_total(a: Seq<char>, b: Seq<char>) {
        text::lemma_bytes_total(vstd::utf8::encode_utf8(a), vstd::utf8::encode_utf8(b));
        if vstd::utf8::encode_utf8(a) == vstd::utf8::encode_utf8(b) {
            text::lemma_encoding_injective(a, b);
        }
    }

    fn rank(&self, other: &Self) -> (r: Rank) {
        text::str_rank(self.as_str(), other.as_str())
    }
}

} // verus!
