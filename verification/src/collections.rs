//! Keyed collections: a map and a set over keys compared by their view.
//!
//! Both keep their items in a vector with no two keys of equal view; the
//! map's view is a `Map` from key views to values and the set's a `Set` of
//! key views. Iteration order is insertion order.
use vstd::prelude::*;

verus! {

/// Keys that can be compared and copied by their view.
pub trait Key: View + Sized {
    fn key_eq(&self, other: &Self) -> (r: bool)
        ensures
            r == (self@ == other@);

    fn key_clone(&self) -> (r: Self)
        ensures
            r@ == self@;
}

impl Key for String {
    fn key_eq(&self, other: &Self) -> (r: bool) {
        *self == *other
    }

    fn key_clone(&self) -> (r: Self) {
        self.clone()
    }
}

impl Key for u32 {
    fn key_eq(&self, other: &Self) -> (r: bool) {
        *self == *other
    }

    fn key_clone(&self) -> (r: Self) {
        *self
    }
}

/// A map from keys to values.
pub struct KeyMap<K: Key, V> {
    entries: Vec<(K, V)>,
}

/// No two entries carry keys of equal view.
pub open spec fn distinct_keys<K: Key, V>(e: Seq<(K, V)>) -> bool {
    forall|i: int, j: int| 0 <= i < e.len() && 0 <= j < e.len() && i != j ==> e[i].0@ != e[j].0@
}

impl<K: Key, V> KeyMap<K, V> {
    #[verifier::type_invariant]
    spec fn inv(self) -> bool {
        distinct_keys(self.entries@)
    }

    /// The stored (key, value) entries in insertion order.
    pub closed spec fn entries(self) -> Seq<(K, V)> {
        self.entries@
    }

    pub closed spec fn spec_index_of(self, k: K::V) -> int {
        choose|i: int| 0 <= i < self.entries@.len() && self.entries@[i].0@ == k
    }

    pub open spec fn view(self) -> Map<K::V, V> {
        Map::new(
            |k: K::V| exists|i: int| 0 <= i < self.entries().len() && #[trigger] self.entries()[i].0@ == k,
            |k: K::V| self.entries()[self.spec_index_of(k)].1,
        )
    }

    proof fn lemma_entries(&self)
        requires
            distinct_keys(self.entries()),
        ensures
            distinct_keys(self.entries()),
            forall|i: int| 0 <= i < self.entries().len() ==> #[trigger] self.spec_index_of(self.entries()[i].0@) == i,
            forall|i: int| 0 <= i < self.entries().len() ==> self.view().contains_key(#[trigger] self.entries()[i].0@)
                && self.view()[self.entries()[i].0@] == self.entries()[i].1,
            self.view().dom().finite(),
            self.view().dom().len() == self.entries().len(),
    {
        assert forall|i: int| 0 <= i < self.entries().len() implies #[trigger] self.spec_index_of(self.entries()[i].0@) == i by {
            let k = self.entries()[i].0@;
            assert(0 <= i < self.entries@.len() && self.entries@[i].0@ == k);
            let j = self.spec_index_of(k);
            assert(0 <= j < self.entries@.len() && self.entries@[j].0@ == k);
        }
        self.lemma_dom_len();
    }

    /// The key domain is finite.
    pub proof fn lemma_dom_finite(&self)
        ensures
            self.view().dom().finite(),
    {
        let ks = self.entries().map_values(|e: (K, V)| e.0@);
        assert forall|k: K::V| self.view().dom().contains(k) implies ks.to_set().contains(k) by {
            let i = choose|i: int| 0 <= i < self.entries().len() && #[trigger] self.entries()[i].0@ == k;
            assert(ks[i] == k);
        }
        vstd::set_lib::lemma_len_subset(self.view().dom(), ks.to_set());
    }

    proof fn lemma_dom_len(&self)
        requires
            distinct_keys(self.entries@),
        ensures
            self.view().dom().finite(),
            self.view().dom().len() == self.entries().len(),
    {
        let ks = self.entries@.map_values(|e: (K, V)| e.0@);
        assert(self.view().dom() =~= ks.to_set()) by {
            assert forall|k: K::V| self.view().dom().contains(k) implies ks.to_set().contains(k) by {
                let i = choose|i: int| 0 <= i < self.entries().len() && #[trigger] self.entries()[i].0@ == k;
                assert(ks[i] == k);
            }
            assert forall|k: K::V| ks.to_set().contains(k) implies self.view().dom().contains(k) by {
                let i = choose|i: int| 0 <= i < ks.len() && ks[i] == k;
                assert(self.entries()[i].0@ == k);
            }
        }
        assert(ks.no_duplicates()) by {
            assert forall|i: int, j: int| 0 <= i < ks.len() && 0 <= j < ks.len() && i != j implies ks[i] != ks[j] by {}
        }
        ks.unique_seq_to_set();
    }

    pub fn new() -> (r: Self)
        ensures
            r@ == Map::<K::V, V>::empty(),
            r.entries() == Seq::<(K, V)>::empty(),
    {
        let r = KeyMap { entries: Vec::new() };
        assert(r@ =~= Map::<K::V, V>::empty());
        r
    }

    /// Number of entries; also tells that the entries carry distinct keys
    /// and are exactly the map's contents.
    pub fn len(&self) -> (r: usize)
        ensures
            r == self@.len(),
            r == self.entries().len(),
            distinct_keys(self.entries()),
            forall|i: int| 0 <= i < self.entries().len() ==> self@.contains_key(#[trigger] self.entries()[i].0@)
                && self@[self.entries()[i].0@] == self.entries()[i].1,
    {
        proof {
            use_type_invariant(self);
            self.lemma_entries();
        }
        self.entries.len()
    }

    /// Position of the entry with key `k`, if any.
    pub fn index_of(&self, k: &K) -> (r: Option<usize>)
        ensures
            r matches Some(i) ==> i < self.entries().len() && self.entries()[i as int].0@ == k@,
            r is None ==> !self@.contains_key(k@),
            r is Some <==> self@.contains_key(k@),
    {
        proof {
            use_type_invariant(self);
        }
        let mut i: usize = 0;
        while i < self.entries.len()
            invariant
                i <= self.entries@.len(),
                forall|j: int| 0 <= j < i ==> self.entries@[j].0@ != k@,
            decreases self.entries.len() - i,
        {
            if self.entries[i].0.key_eq(k) {
                return Some(i);
            }
            i = i + 1;
        }
        None
    }

    pub fn contains_key(&self, k: &K) -> (r: bool)
        ensures
            r == self@.contains_key(k@),
    {
        self.index_of(k).is_some()
    }

    pub fn get(&self, k: &K) -> (r: Option<&V>)
        ensures
            r matches Some(v) ==> self@.contains_key(k@) && self@[k@] == *v,
            r is None ==> !self@.contains_key(k@),
    {
        proof {
            use_type_invariant(self);
            self.lemma_entries();
        }
        match self.index_of(k) {
            Some(i) => Some(&self.entries[i].1),
            None => None,
        }
    }

    /// The key stored at position `i`.
    pub fn key_at(&self, i: usize) -> (r: &K)
        requires
            i < self.entries().len(),
        ensures
            *r == self.entries()[i as int].0,
            self@.contains_key(r@),
            self@[r@] == self.entries()[i as int].1,
            forall|j: int| 0 <= j < self.entries().len() && j != i ==> self.entries()[j].0@ != r@,
    {
        proof {
            use_type_invariant(self);
            self.lemma_entries();
        }
        &self.entries[i].0
    }

    /// The value stored at position `i`.
    pub fn value_at(&self, i: usize) -> (r: &V)
        requires
            i < self.entries().len(),
        ensures
            *r == self.entries()[i as int].1,
    {
        &self.entries[i].1
    }

    /// Store `v` under `k`, replacing any value stored under an equal key.
    pub fn insert(&mut self, k: K, v: V)
        ensures
            final(self)@ == old(self)@.insert(k@, v),
    {
        proof {
            use_type_invariant(&*self);
            self.lemma_entries();
        }
        let ghost old_e = self.entries@;
        let idx = self.index_of(&k);
        let mut e: Vec<(K, V)> = Vec::new();
        std::mem::swap(&mut e, &mut self.entries);
        match idx {
            Some(i) => {
                e.set(i, (k, v));
            },
            None => {
                e.push((k, v));
            },
        }
        proof {
            assert(distinct_keys(e@)) by {
                assert forall|a: int, b: int| 0 <= a < e@.len() && 0 <= b < e@.len() && a != b
                    implies e@[a].0@ != e@[b].0@ by {
                    if a < old_e.len() && b < old_e.len() {
                        if e@[a].0@ == k@ {
                            assert(old_e[a].0@ == k@ || e@[a].0@ == k@);
                        }
                    }
                }
            }
        }
        self.entries = e;
        proof {
            assert(distinct_keys(self.entries@)) by {
                assert forall|a: int, b: int| 0 <= a < self.entries@.len() && 0 <= b < self.entries@.len() && a != b
                    implies self.entries@[a].0@ != self.entries@[b].0@ by {
                    if a < old_e.len() && b < old_e.len() {
                        if self.entries@[a].0@ == k@ {
                            assert(old_e[a].0@ == k@ || self.entries@[a].0@ == k@);
                        }
                    }
                }
            }
            self.lemma_entries();
            let m = self.view();
            let o = old(self).view();
            assert forall|key: K::V| m.contains_key(key) <==> o.insert(k@, v).contains_key(key) by {
                if m.contains_key(key) {
                    let j = choose|j: int| 0 <= j < self.entries().len() && #[trigger] self.entries()[j].0@ == key;
                    if key != k@ {
                        assert(j < old_e.len());
                        assert(old_e[j].0@ == key);
                    }
                }
                if o.insert(k@, v).contains_key(key) {
                    if key == k@ {
                        match idx {
                            Some(i) => { assert(self.entries()[i as int].0@ == key); },
                            None => { assert(self.entries()[old_e.len() as int].0@ == key); },
                        }
                    } else {
                        let j = choose|j: int| 0 <= j < old_e.len() && #[trigger] old_e[j].0@ == key;
                        assert(self.entries()[j].0@ == key);
                    }
                }
            }
            assert forall|key: K::V| #[trigger] m.contains_key(key) implies m[key] == o.insert(k@, v)[key] by {
                let j = self.spec_index_of(key);
                assert(0 <= j < self.entries().len() && self.entries()[j].0@ == key);
                if key != k@ {
                    assert(old_e[j].0@ == key);
                    assert(old_e[j] == self.entries()[j]);
                    assert(old(self).spec_index_of(key) == j);
                }
            }
            assert(m =~= o.insert(k@, v));
        }
    }

    /// Remove the entry under `k`, returning its value.
    pub fn remove(&mut self, k: &K) -> (r: Option<V>)
        ensures
            final(self)@ == old(self)@.remove(k@),
            r matches Some(v) ==> old(self)@.contains_key(k@) && old(self)@[k@] == v,
            r is None ==> !old(self)@.contains_key(k@),
    {
        proof {
            use_type_invariant(&*self);
            self.lemma_entries();
        }
        let ghost old_e = self.entries@;
        match self.index_of(k) {
            Some(i) => {
                let mut e: Vec<(K, V)> = Vec::new();
                std::mem::swap(&mut e, &mut self.entries);
                let (_, v) = e.remove(i);
                proof {
                    assert(distinct_keys(e@)) by {
                        assert forall|a: int, b: int| 0 <= a < e@.len() && 0 <= b < e@.len() && a != b
                            implies e@[a].0@ != e@[b].0@ by {
                            let oa = if a < i { a } else { a + 1 };
                            let ob = if b < i { b } else { b + 1 };
                            assert(e@[a] == old_e[oa]);
                            assert(e@[b] == old_e[ob]);
                        }
                    }
                }
                self.entries = e;
                proof {
                    assert(distinct_keys(self.entries@)) by {
                        assert forall|a: int, b: int| 0 <= a < self.entries@.len() && 0 <= b < self.entries@.len() && a != b
                            implies self.entries@[a].0@ != self.entries@[b].0@ by {
                            let oa = if a < i { a } else { a + 1 };
                            let ob = if b < i { b } else { b + 1 };
                            assert(self.entries@[a] == old_e[oa]);
                            assert(self.entries@[b] == old_e[ob]);
                        }
                    }
                    self.lemma_entries();
                    let m = self.view();
                    let o = old(self).view();
                    assert forall|key: K::V| m.contains_key(key) <==> o.remove(k@).contains_key(key) by {
                        if m.contains_key(key) {
                            let j = choose|j: int| 0 <= j < self.entries().len() && #[trigger] self.entries()[j].0@ == key;
                            if j < i {
                                assert(old_e[j].0@ == key);
                            } else {
                                assert(old_e[j + 1].0@ == key);
                            }
                        }
                        if o.remove(k@).contains_key(key) {
                            let j = choose|j: int| 0 <= j < old_e.len() && #[trigger] old_e[j].0@ == key;
                            if j < i {
                                assert(self.entries()[j].0@ == key);
                            } else {
                                assert(self.entries()[j - 1].0@ == key);
                            }
                        }
                    }
                    assert forall|key: K::V| #[trigger] m.contains_key(key) implies m[key] == o.remove(k@)[key] by {
                        let j = choose|j: int| 0 <= j < self.entries().len() && #[trigger] self.entries()[j].0@ == key;
                        if j < i {
                            assert(old_e[j] == self.entries()[j]);
                        } else {
                            assert(old_e[j + 1] == self.entries()[j]);
                        }
                    }
                    assert(m =~= o.remove(k@));
                }
                Some(v)
            },
            None => {
                proof {
                    assert(self.view() =~= old(self).view().remove(k@));
                }
                None
            },
        }
    }

    /// Copies of the keys, in insertion order.
    pub fn keys(&self) -> (r: Vec<K>)
        ensures
            r.len() == self.entries().len(),
            r.len() == self@.len(),
            forall|i: int| 0 <= i < r.len() ==> r@[i]@ == self.entries()[i].0@,
            forall|i: int| 0 <= i < r.len() ==> self@.contains_key(#[trigger] r@[i]@),
            forall|k: K::V| self@.contains_key(k) ==> exists|i: int| 0 <= i < r.len() && #[trigger] r@[i]@ == k,
            forall|i: int, j: int| 0 <= i < r.len() && 0 <= j < r.len() && i != j ==> r@[i]@ != r@[j]@,
    {
        proof {
            use_type_invariant(self);
            self.lemma_entries();
        }
        let mut out: Vec<K> = Vec::new();
        let mut i: usize = 0;
        while i < self.entries.len()
            invariant
                i <= self.entries@.len(),
                out.len() == i,
                forall|j: int| 0 <= j < i ==> out@[j]@ == self.entries@[j].0@,
            decreases self.entries.len() - i,
        {
            out.push(self.entries[i].0.key_clone());
            i = i + 1;
        }
        proof {
            assert forall|k: K::V| self@.contains_key(k) implies exists|i: int| 0 <= i < out.len() && #[trigger] out@[i]@ == k by {
                let i = choose|i: int| 0 <= i < self.entries().len() && #[trigger] self.entries()[i].0@ == k;
                assert(out@[i]@ == k);
            }
        }
        out
    }
}

/// A set of keys.
pub struct KeySet<K: Key> {
    items: Vec<K>,
}

/// No two items have equal view.
pub open spec fn distinct_items<K: Key>(s: Seq<K>) -> bool {
    forall|i: int, j: int| 0 <= i < s.len() && 0 <= j < s.len() && i != j ==> s[i]@ != s[j]@
}

impl<K: Key> KeySet<K> {
    #[verifier::type_invariant]
    spec fn inv(self) -> bool {
        distinct_items(self.items@)
    }

    /// The stored items in insertion order.
    pub closed spec fn items(self) -> Seq<K> {
        self.items@
    }

    pub open spec fn view(self) -> Set<K::V> {
        Set::new(|k: K::V| exists|i: int| 0 <= i < self.items().len() && #[trigger] self.items()[i]@ == k)
    }

    proof fn lemma_items(&self)
        requires
            distinct_items(self.items()),
        ensures
            distinct_items(self.items()),
            forall|i: int| 0 <= i < self.items().len() ==> self.view().contains(#[trigger] self.items()[i]@),
            self.view().finite(),
            self.view().len() == self.items().len(),
    {
        let ks = self.items@.map_values(|e: K| e@);
        assert(self.view() =~= ks.to_set()) by {
            assert forall|k: K::V| self.view().contains(k) implies ks.to_set().contains(k) by {
                let i = choose|i: int| 0 <= i < self.items().len() && #[trigger] self.items()[i]@ == k;
                assert(ks[i] == k);
            }
            assert forall|k: K::V| ks.to_set().contains(k) implies self.view().contains(k) by {
                let i = choose|i: int| 0 <= i < ks.len() && ks[i] == k;
                assert(self.items()[i]@ == k);
            }
        }
        assert(ks.no_duplicates()) by {
            assert forall|i: int, j: int| 0 <= i < ks.len() && 0 <= j < ks.len() && i != j implies ks[i] != ks[j] by {}
        }
        ks.unique_seq_to_set();
    }

    pub fn new() -> (r: Self)
        ensures
            r@ == Set::<K::V>::empty(),
    {
        let r = KeySet { items: Vec::new() };
        assert(r@ =~= Set::<K::V>::empty());
        r
    }

    pub fn len(&self) -> (r: usize)
        ensures
            r == self@.len(),
            r == self.items().len(),
    {
        proof {
            use_type_invariant(self);
            self.lemma_items();
        }
        self.items.len()
    }

    pub fn contains(&self, k: &K) -> (r: bool)
        ensures
            r == self@.contains(k@),
    {
        let mut i: usize = 0;
        while i < self.items.len()
            invariant
                i <= self.items@.len(),
                forall|j: int| 0 <= j < i ==> self.items@[j]@ != k@,
            decreases self.items.len() - i,
        {
            if self.items[i].key_eq(k) {
                return true;
            }
            i = i + 1;
        }
        false
    }

    /// Add `k`; returns whether it was absent.
    pub fn insert(&mut self, k: K) -> (r: bool)
        ensures
            final(self)@ == old(self)@.insert(k@),
            r == !old(self)@.contains(k@),
            r ==> final(self).items() == old(self).items().push(k),
            !r ==> final(self).items() == old(self).items(),
    {
        proof {
            use_type_invariant(&*self);
        }
        if self.contains(&k) {
            assert(self.view() =~= old(self).view().insert(k@));
            false
        } else {
            let ghost old_items = self.items@;
            let mut e: Vec<K> = Vec::new();
            std::mem::swap(&mut e, &mut self.items);
            e.push(k);
            proof {
                assert forall|j: int| 0 <= j < old_items.len() implies old_items[j]@ != k@ by {
                    if old_items[j]@ == k@ {
                        assert(old(self).view().contains(k@));
                    }
                }
                assert(distinct_items(e@)) by {
                    assert forall|a: int, b: int| 0 <= a < e@.len() && 0 <= b < e@.len() && a != b implies e@[a]@ != e@[b]@ by {
                        if a < old_items.len() && b < old_items.len() {
                            assert(e@[a] == old_items[a] && e@[b] == old_items[b]);
                        }
                    }
                }
            }
            self.items = e;
            proof {
                assert forall|x: K::V| self.view().contains(x) <==> old(self).view().insert(k@).contains(x) by {
                    if self.view().contains(x) {
                        let j = choose|j: int| 0 <= j < self.items().len() && #[trigger] self.items()[j]@ == x;
                        if j < old_items.len() {
                            assert(old_items[j]@ == x);
                        }
                    }
                    if old(self).view().contains(x) {
                        let j = choose|j: int| 0 <= j < old_items.len() && #[trigger] old_items[j]@ == x;
                        assert(self.items()[j]@ == x);
                    }
                    if x == k@ {
                        assert(self.items()[old_items.len() as int]@ == x);
                    }
                }
                assert(self.view() =~= old(self).view().insert(k@));
            }
            true
        }
    }

    /// The item at position `i`.
    pub fn item_at(&self, i: usize) -> (r: &K)
        requires
            i < self.items().len(),
        ensures
            *r == self.items()[i as int],
    {
        &self.items[i]
    }

    /// Copies of the items, in insertion order.
    pub fn to_vec(&self) -> (r: Vec<K>)
        ensures
            r.len() == self.items().len(),
            r.len() == self@.len(),
            forall|i: int| 0 <= i < r.len() ==> r@[i]@ == self.items()[i]@,
            forall|i: int, j: int| 0 <= i < r.len() && 0 <= j < r.len() && i != j ==> r@[i]@ != r@[j]@,
    {
        proof {
            use_type_invariant(self);
            self.lemma_items();
        }
        let mut out: Vec<K> = Vec::new();
        let mut i: usize = 0;
        while i < self.items.len()
            invariant
                i <= self.items@.len(),
                out.len() == i,
                forall|j: int| 0 <= j < i ==> out@[j]@ == self.items@[j]@,
            decreases self.items.len() - i,
        {
            out.push(self.items[i].key_clone());
            i = i + 1;
        }
        out
    }
}

} // verus!
