//! A finite map that remembers the order in which its keys arrived.

use crate::data::Data;
use crate::seqs::{
    lemma_index_of, lemma_paired_at, lemma_paired_dom, lemma_paired_push, lemma_paired_remove,
    lemma_paired_update, paired,
};
use vstd::prelude::*;

verus! {

/// A map from keys to values, no two keys of which denote the same value.
///
/// The view is the mathematical map over the views of keys and values;
/// `order` is the sequence in which the keys are stored and handed out.
pub struct ItemMap<K: Data, T: View> {
    keys: Vec<K>,
    vals: Vec<T>,
}

impl<K: Data, T: View> View for ItemMap<K, T> {
    type V = Map<K::V, T::V>;

    closed spec fn view(&self) -> Map<K::V, T::V> {
        paired(self.order(), self.values())
    }
}

impl<K: Data, T: View> ItemMap<K, T> {
    /// The views of the keys, in storage order.
    pub closed spec fn order(&self) -> Seq<K::V> {
        self.keys@.map_values(|k: K| k@)
    }

    spec fn values(&self) -> Seq<T::V> {
        self.vals@.map_values(|t: T| t@)
    }

    #[verifier::type_invariant]
    spec fn paired_up(&self) -> bool {
        &&& self.keys@.len() == self.vals@.len()
        &&& self.order().no_duplicates()
    }

    /// The empty map.
    pub fn new() -> (r: Self)
        ensures
            r@ == Map::<K::V, T::V>::empty(),
            r.order() == Seq::<K::V>::empty(),
    {
        let r = ItemMap { keys: Vec::new(), vals: Vec::new() };
        assert(r.order() =~= Seq::<K::V>::empty());
        assert(r@ =~= Map::<K::V, T::V>::empty());
        r
    }

    /// The number of keys.
    pub fn len(&self) -> (n: usize)
        ensures
            n == self.order().len(),
            n == self@.dom().len(),
            self@.dom().finite(),
            self.order().no_duplicates(),
            self@.dom() == self.order().to_set(),
    {
        proof {
            use_type_invariant(self);
            lemma_paired_dom(self.order(), self.values());
            self.order().unique_seq_to_set();
        }
        self.keys.len()
    }

    /// The key at position `i` of the storage order.
    pub fn key_at(&self, i: usize) -> (r: &K)
        requires
            i < self.order().len(),
        ensures
            r@ == self.order()[i as int],
            self@.contains_key(r@),
    {
        proof {
            use_type_invariant(self);
            lemma_paired_at(self.order(), self.values(), i as int);
        }
        &self.keys[i]
    }

    /// The value stored under the key at position `i` of the storage order.
    pub fn value_at(&self, i: usize) -> (r: &T)
        requires
            i < self.order().len(),
        ensures
            self@.contains_key(self.order()[i as int]),
            r@ == self@[self.order()[i as int]],
    {
        proof {
            use_type_invariant(self);
            lemma_paired_at(self.order(), self.values(), i as int);
        }
        &self.vals[i]
    }

    /// The position of the key denoting the same value as `k`, if any.
    pub fn position(&self, k: &K) -> (r: Option<usize>)
        ensures
            r is Some == self@.contains_key(k@),
            r matches Some(i) ==> i < self.order().len() && self.order()[i as int] == k@,
    {
        proof {
            use_type_invariant(self);
        }
        let mut i: usize = 0;
        while i < self.keys.len()
            invariant
                i <= self.keys.len(),
                forall|j: int| 0 <= j < i ==> self.order()[j] != k@,
            decreases self.keys.len() - i,
        {
            if self.keys[i].same(k) {
                assert(self.order()[i as int] == k@);
                assert(self.order().contains(k@));
                return Some(i);
            }
            i += 1;
        }
        assert(!self.order().contains(k@));
        None
    }

    /// Whether some key denotes the same value as `k`.
    pub fn contains_key(&self, k: &K) -> (r: bool)
        ensures
            r == self@.contains_key(k@),
    {
        self.position(k).is_some()
    }

    /// The value stored under `k`, if any.
    pub fn get(&self, k: &K) -> (r: Option<&T>)
        ensures
            r is Some == self@.contains_key(k@),
            r matches Some(t) ==> t@ == self@[k@],
    {
        match self.position(k) {
            Some(i) => Some(self.value_at(i)),
            None => None,
        }
    }

    /// Stores `t` under `k`, replacing what was stored there. A new key
    /// goes to the end of the storage order; a known key keeps its place.
    pub fn insert(&mut self, k: K, t: T)
        ensures
            final(self)@ == old(self)@.insert(k@, t@),
            final(self).order() == if old(self)@.contains_key(k@) {
                old(self).order()
            } else {
                old(self).order().push(k@)
            },
    {
        proof {
            use_type_invariant(&*self);
        }
        let ghost ks = self.order();
        let ghost vs = self.values();
        let found = self.position(&k);
        let mut taken = ItemMap { keys: Vec::new(), vals: Vec::new() };
        std::mem::swap(&mut taken, self);
        let ItemMap { mut keys, mut vals } = taken;
        match found {
            Some(i) => {
                vals.set(i, t);
                proof {
                    assert(vals@.map_values(|t: T| t@) =~= vs.update(i as int, t@));
                    lemma_paired_update(ks, vs, i as int, t@);
                }
            },
            None => {
                keys.push(k);
                vals.push(t);
                proof {
                    assert(keys@.map_values(|k: K| k@) =~= ks.push(k@));
                    assert(vals@.map_values(|t: T| t@) =~= vs.push(t@));
                    lemma_paired_push(ks, vs, k@, t@);
                }
            },
        }
        *self = ItemMap { keys, vals };
    }

    /// Removes the key that arrived last and hands it out with its value.
    pub fn pop(&mut self) -> (r: Option<(K, T)>)
        ensures
            r is None == (old(self)@.dom().len() == 0),
            r is None ==> final(self)@ == old(self)@,
            r matches Some((k, t)) ==> old(self)@.contains_key(k@) && old(self)@[k@] == t@
                && final(self)@ == old(self)@.remove(k@) && k@ == old(self).order().last()
                && final(self).order() == old(self).order().drop_last(),
            final(self)@.dom().finite(),
            final(self)@.dom().len() == if r is Some {
                old(self)@.dom().len() - 1
            } else {
                0
            },
    {
        let n = self.len();
        let ghost ks = self.order();
        let ghost vs = self.values();
        proof {
            use_type_invariant(&*self);
        }
        if n == 0 {
            return None;
        }
        let mut taken = ItemMap { keys: Vec::new(), vals: Vec::new() };
        std::mem::swap(&mut taken, self);
        let ItemMap { mut keys, mut vals } = taken;
        let k = keys.remove(n - 1);
        let t = vals.remove(n - 1);
        proof {
            assert(keys@.map_values(|k: K| k@) =~= ks.remove(n - 1));
            assert(ks.remove(n - 1) =~= ks.drop_last());
            assert(vals@.map_values(|t: T| t@) =~= vs.remove(n - 1));
            lemma_paired_remove(ks, vs, n - 1);
            lemma_paired_at(ks, vs, n - 1);
            crate::seqs::lemma_remove_at(ks, n - 1);
            lemma_paired_dom(ks.remove(n - 1), vs.remove(n - 1));
            ks.remove(n - 1).unique_seq_to_set();
        }
        *self = ItemMap { keys, vals };
        Some((k, t))
    }

    /// Removes `k` and hands out what was stored under it, if anything.
    pub fn remove(&mut self, k: &K) -> (r: Option<T>)
        ensures
            final(self)@ == old(self)@.remove(k@),
            r is Some == old(self)@.contains_key(k@),
            r matches Some(t) ==> t@ == old(self)@[k@],
            final(self).order() == if r is Some {
                old(self).order().remove(old(self).order().index_of(k@))
            } else {
                old(self).order()
            },
    {
        proof {
            use_type_invariant(&*self);
        }
        let ghost ks = self.order();
        let ghost vs = self.values();
        match self.position(k) {
            Some(i) => {
                let mut taken = ItemMap { keys: Vec::new(), vals: Vec::new() };
                std::mem::swap(&mut taken, self);
                let ItemMap { mut keys, mut vals } = taken;
                let _ = keys.remove(i);
                let t = vals.remove(i);
                proof {
                    assert(keys@.map_values(|k: K| k@) =~= ks.remove(i as int));
                    assert(vals@.map_values(|t: T| t@) =~= vs.remove(i as int));
                    lemma_paired_remove(ks, vs, i as int);
                    lemma_paired_at(ks, vs, i as int);
                    crate::seqs::lemma_remove_at(ks, i as int);
                    lemma_index_of(ks, i as int);
                }
                *self = ItemMap { keys, vals };
                Some(t)
            },
            None => {
                assert(self@.remove(k@) =~= self@);
                None
            },
        }
    }
}

impl<K: Data, T: Data> Data for ItemMap<K, T> {
    fn same(&self, other: &Self) -> (r: bool) {
        let n = self.len();
        let m = other.len();
        if n != m {
            return false;
        }
        let mut i: usize = 0;
        while i < n
            invariant
                i <= n,
                n == self.order().len(),
                forall|j: int|
                    0 <= j < i ==> other@.contains_key(#[trigger] self.order()[j]) && other@[self.order()[j]]
                        == self@[self.order()[j]],
            decreases n - i,
        {
            let k = self.key_at(i);
            let t = self.value_at(i);
            match other.get(k) {
                Some(u) => {
                    if !t.same(u) {
                        return false;
                    }
                },
                None => {
                    return false;
                },
            }
            i += 1;
        }
        proof {
            assert(self@.dom().subset_of(other@.dom())) by {
                assert forall|a: K::V| self@.dom().contains(a) implies other@.dom().contains(a) by {
                    let j = choose|j: int| 0 <= j < self.order().len() && self.order()[j] == a;
                    assert(other@.contains_key(self.order()[j]));
                }
            }
            vstd::set_lib::lemma_subset_equality(self@.dom(), other@.dom());
            assert forall|a: K::V| self@.dom().contains(a) implies self@[a] == other@[a] by {
                let j = choose|j: int| 0 <= j < self.order().len() && self.order()[j] == a;
                assert(other@[self.order()[j]] == self@[self.order()[j]]);
            }
            assert(self@ =~= other@);
        }
        true
    }

    fn duplicate(&self) -> (r: Self)
        ensures
            r.order() == self.order(),
    {
        let n = self.len();
        let mut keys: Vec<K> = Vec::new();
        let mut vals: Vec<T> = Vec::new();
        let mut i: usize = 0;
        proof {
            use_type_invariant(self);
        }
        while i < n
            invariant
                i <= n,
                n == self.order().len(),
                self.order().len() == self.values().len(),
                keys@.map_values(|k: K| k@) == self.order().take(i as int),
                vals@.map_values(|t: T| t@) == self.values().take(i as int),
            decreases n - i,
        {
            proof {
                use_type_invariant(self);
                lemma_paired_at(self.order(), self.values(), i as int);
            }
            let k = self.key_at(i).duplicate();
            let t = self.value_at(i).duplicate();
            let ghost pk = keys@.map_values(|k: K| k@);
            let ghost pv = vals@.map_values(|t: T| t@);
            keys.push(k);
            vals.push(t);
            assert(keys@.map_values(|k: K| k@) =~= pk.push(k@));
            assert(vals@.map_values(|t: T| t@) =~= pv.push(t@));
            assert(pk.push(k@) =~= self.order().take(i as int + 1));
            assert(pv.push(t@) =~= self.values().take(i as int + 1));
            i += 1;
        }
        proof {
            use_type_invariant(self);
            assert(self.order().take(n as int) =~= self.order());
            assert(self.values().take(n as int) =~= self.values());
            assert(keys@.len() == keys@.map_values(|k: K| k@).len());
            assert(vals@.len() == vals@.map_values(|t: T| t@).len());
        }
        ItemMap { keys, vals }
    }
}

} // verus!
