//! A finite map kept as two parallel vectors with no key stored twice,
//! for keys that can be compared by their views.

use vstd::prelude::*;
use crate::trit::Trit;

verus! {

/// A key that can be compared with another by its view.
pub trait MapKey: View + Sized {
    fn same_key(&self, other: &Self) -> (b: bool)
        ensures
            b == (self@ == other@),
    ;
}

impl MapKey for String {
    fn same_key(&self, other: &Self) -> (b: bool) {
        *self == *other
    }
}

impl MapKey for Vec<Trit> {
    fn same_key(&self, other: &Self) -> (b: bool) {
        if self.len() != other.len() {
            return false;
        }
        let mut i: usize = 0;
        while i < self.len()
            invariant
                self@.len() == other@.len(),
                i <= self@.len(),
                forall|j: int| 0 <= j < i ==> self@[j] == other@[j],
            decreases self@.len() - i,
        {
            if self[i] != other[i] {
                return false;
            }
            i = i + 1;
        }
        assert(self@ =~= other@);
        true
    }
}

/// A map from keys to values: `keys[i]` maps to `values[i]`, and no key occurs twice.
pub struct KeyedMap<K: MapKey, V> {
    keys: Vec<K>,
    values: Vec<V>,
}

impl<K: MapKey, V> KeyedMap<K, V> {
    #[verifier::type_invariant]
    spec fn well_formed(self) -> bool {
        &&& self.keys@.len() == self.values@.len()
        &&& forall|i: int, j: int|
            0 <= i < j < self.keys@.len() ==> #[trigger] self.key_at(i) != #[trigger] self.key_at(j)
    }

    spec fn key_at(self, i: int) -> K::V {
        self.keys@[i]@
    }

    spec fn holds_key(self, k: K::V) -> bool {
        exists|i: int| 0 <= i < self.keys@.len() && #[trigger] self.key_at(i) == k
    }

    spec fn index_of(self, k: K::V) -> int {
        choose|i: int| 0 <= i < self.keys@.len() && #[trigger] self.key_at(i) == k
    }

    /// The key at position `i` leads to the value at position `i`.
    proof fn lemma_index_of(self, i: int)
        requires
            self.well_formed(),
            0 <= i < self.keys@.len(),
        ensures
            self.holds_key(self.key_at(i)),
            self.index_of(self.key_at(i)) == i,
    {
        let j = self.index_of(self.key_at(i));
        assert(0 <= j < self.keys@.len() && self.key_at(j) == self.key_at(i));
        if j < i {
            assert(self.key_at(j) != self.key_at(i));
        } else if i < j {
            assert(self.key_at(i) != self.key_at(j));
        }
    }

    /// The keys, as a set of character sequences.
    spec fn key_set(self) -> Set<K::V> {
        Set::new(|k: K::V| self.holds_key(k))
    }

    proof fn lemma_key_set(self)
        requires
            self.well_formed(),
        ensures
            self.key_set().finite(),
            self.key_set().len() == self.keys@.len(),
    {
        let ks = self.keys@.map_values(|s: K| s@);
        assert(ks.no_duplicates()) by {
            assert forall|i: int, j: int| 0 <= i < ks.len() && 0 <= j < ks.len() && i != j
                implies ks[i] != ks[j] by {
                assert(ks[i] == self.key_at(i));
                assert(ks[j] == self.key_at(j));
                if i < j {
                    assert(self.key_at(i) != self.key_at(j));
                } else {
                    assert(self.key_at(j) != self.key_at(i));
                }
            }
        }
        assert(self.key_set() =~= ks.to_set()) by {
            assert forall|k: K::V| self.key_set().contains(k) implies ks.to_set().contains(k) by {
                let i = self.index_of(k);
                assert(ks[i] == k);
            }
            assert forall|k: K::V| ks.to_set().contains(k) implies self.key_set().contains(k) by {
                let i = choose|i: int| 0 <= i < ks.len() && ks[i] == k;
                assert(self.key_at(i) == k);
            }
        }
        ks.unique_seq_to_set();
    }
}

impl<K: MapKey, V> View for KeyedMap<K, V> {
    type V = Map<K::V, V>;

    closed spec fn view(&self) -> Map<K::V, V> {
        Map::new(|k: K::V| self.holds_key(k), |k: K::V| self.values@[self.index_of(k)])
    }
}

impl<K: MapKey, V> KeyedMap<K, V> {
    /// An empty map.
    pub fn new() -> (m: Self)
        ensures
            m@ == Map::<K::V, V>::empty(),
    {
        let m = KeyedMap { keys: Vec::new(), values: Vec::new() };
        assert(m@ =~= Map::<K::V, V>::empty());
        m
    }

    /// Position of `key`, if it is stored.
    fn find(&self, key: &K) -> (r: Option<usize>)
        ensures
            match r {
                Some(i) => i < self.keys@.len() && self.key_at(i as int) == key@,
                None => !self.holds_key(key@),
            },
    {
        let mut i: usize = 0;
        while i < self.keys.len()
            invariant
                i <= self.keys@.len(),
                forall|j: int| 0 <= j < i ==> #[trigger] self.key_at(j) != key@,
            decreases self.keys@.len() - i,
        {
            if self.keys[i].same_key(key) {
                return Some(i);
            }
            i = i + 1;
        }
        None
    }

    /// The value stored under `key`, if any.
    pub fn get(&self, key: &K) -> (r: Option<&V>)
        ensures
            match r {
                Some(v) => self@.contains_key(key@) && *v == self@[key@],
                None => !self@.contains_key(key@),
            },
    {
        proof {
            use_type_invariant(self);
        }
        match self.find(key) {
            Some(i) => {
                proof {
                    self.lemma_index_of(i as int);
                }
                Some(&self.values[i])
            },
            None => None,
        }
    }

    /// Stores `value` under `key`, replacing what was stored there.
    pub fn insert(&mut self, key: K, value: V)
        ensures
            final(self)@ == old(self)@.insert(key@, value),
    {
        proof {
            use_type_invariant(&*self);
        }
        let ghost k_view = key@;
        let found = self.find(&key);
        let ghost before = *self;
        let mut taken = KeyedMap { keys: Vec::new(), values: Vec::new() };
        std::mem::swap(&mut taken, self);
        assert(taken == before);
        let KeyedMap { mut keys, mut values } = taken;
        match found {
            Some(i) => {
                values.set(i, value);
            },
            None => {
                keys.push(key);
                values.push(value);
            },
        }
        proof {
            let built = KeyedMap { keys, values };
            assert(built.keys@.len() == built.values@.len());
            assert forall|i: int, j: int| 0 <= i < j < built.keys@.len() implies
                #[trigger] built.key_at(i) != #[trigger] built.key_at(j) by {
                if found is None && j == keys@.len() - 1 {
                    assert(before.key_at(i) != k_view);
                } else {
                    assert(before.key_at(i) == built.key_at(i));
                    assert(before.key_at(j) == built.key_at(j));
                }
            }
        }
        *self = KeyedMap { keys, values };
        proof {
            let after = *self;
            assert forall|k: K::V| #[trigger] after@.contains_key(k) <==> before@.insert(k_view, value).contains_key(k) by {
                if after.holds_key(k) {
                    let j = after.index_of(k);
                    if k != k_view {
                        assert(before.key_at(j) == k);
                    }
                }
                if before.holds_key(k) {
                    let j = before.index_of(k);
                    assert(after.key_at(j) == k);
                }
                if k == k_view {
                    match found {
                        Some(i) => { assert(after.key_at(i as int) == k); },
                        None => { assert(after.key_at(before.keys@.len() as int) == k); },
                    }
                }
            }
            assert forall|k: K::V| #[trigger] after@.contains_key(k) implies
                after@[k] == before@.insert(k_view, value)[k] by {
                if k == k_view {
                    match found {
                        Some(i) => { after.lemma_index_of(i as int); },
                        None => { after.lemma_index_of(before.keys@.len() as int); },
                    }
                } else {
                    let j = before.index_of(k);
                    before.lemma_index_of(j);
                    after.lemma_index_of(j);
                }
            }
            assert(after@ =~= before@.insert(k_view, value));
        }
    }

    /// Number of keys stored.
    pub fn len(&self) -> (n: usize)
        ensures
            n == self@.dom().len(),
    {
        proof {
            use_type_invariant(self);
            self.lemma_key_set();
            assert(self@.dom() =~= self.key_set());
        }
        self.keys.len()
    }
}

} // verus!
