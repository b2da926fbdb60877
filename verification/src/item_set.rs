//! A finite set that remembers the order in which its items arrived.

use crate::data::Data;
use crate::seqs::{lemma_index_of, lemma_push_fresh, lemma_remove_at};
use vstd::prelude::*;

verus! {

/// A set of items, no two of which denote the same value.
///
/// The view is the mathematical set of the items' views; `order` is the
/// sequence in which the items are stored and handed out.
pub struct ItemSet<T: Data> {
    items: Vec<T>,
}

impl<T: Data> View for ItemSet<T> {
    type V = Set<T::V>;

    closed spec fn view(&self) -> Set<T::V> {
        self.order().to_set()
    }
}

impl<T: Data> ItemSet<T> {
    /// The views of the items, in storage order.
    pub closed spec fn order(&self) -> Seq<T::V> {
        self.items@.map_values(|t: T| t@)
    }

    #[verifier::type_invariant]
    spec fn distinct(&self) -> bool {
        self.order().no_duplicates()
    }

    /// The empty set.
    pub fn new() -> (r: Self)
        ensures
            r@ == Set::<T::V>::empty(),
            r.order() == Seq::<T::V>::empty(),
    {
        let r = ItemSet { items: Vec::new() };
        assert(r.order() =~= Seq::<T::V>::empty());
        assert(r@ =~= Set::<T::V>::empty());
        r
    }

    /// The number of items.
    pub fn len(&self) -> (n: usize)
        ensures
            n == self.order().len(),
            n == self@.len(),
            self@.finite(),
            self.order().no_duplicates(),
            self@ == self.order().to_set(),
    {
        proof {
            use_type_invariant(self);
            self.order().unique_seq_to_set();
        }
        self.items.len()
    }

    /// The item at position `i` of the storage order.
    pub fn item_at(&self, i: usize) -> (r: &T)
        requires
            i < self.order().len(),
        ensures
            r@ == self.order()[i as int],
            self@.contains(r@),
    {
        &self.items[i]
    }

    /// Whether some item denotes the same value as `x`.
    pub fn contains(&self, x: &T) -> (r: bool)
        ensures
            r == self@.contains(x@),
    {
        let mut i: usize = 0;
        while i < self.items.len()
            invariant
                i <= self.items.len(),
                forall|j: int| 0 <= j < i ==> self.order()[j] != x@,
            decreases self.items.len() - i,
        {
            if self.items[i].same(x) {
                assert(self.order()[i as int] == x@);
                assert(self.order().contains(x@));
                return true;
            }
            i += 1;
        }
        assert(!self.order().contains(x@));
        false
    }

    /// Adds `x` unless an item denoting the same value is present.
    /// Returns whether the set grew.
    pub fn insert(&mut self, x: T) -> (r: bool)
        ensures
            r == !old(self)@.contains(x@),
            final(self)@ == old(self)@.insert(x@),
            final(self).order() == if r {
                old(self).order().push(x@)
            } else {
                old(self).order()
            },
    {
        proof {
            use_type_invariant(&*self);
        }
        if self.contains(&x) {
            assert(self@.insert(x@) =~= self@);
            false
        } else {
            let ghost before = self.order();
            let mut items = Vec::new();
            std::mem::swap(&mut items, &mut self.items);
            items.push(x);
            proof {
                let after = items@.map_values(|t: T| t@);
                assert(after =~= before.push(x@));
                lemma_push_fresh(before, x@);
            }
            self.items = items;
            true
        }
    }

    /// Whether the set holds no item.
    pub fn is_empty(&self) -> (r: bool)
        ensures
            r == (self@ == Set::<T::V>::empty()),
            r == (self.order().len() == 0),
    {
        let n = self.len();
        proof {
            if n == 0 {
                assert(self@ =~= Set::<T::V>::empty());
            } else {
                assert(self@.contains(self.order()[0]));
            }
        }
        n == 0
    }

    /// Removes the item denoting the same value as `x`, if there is one.
    /// Returns whether the set shrank.
    pub fn remove(&mut self, x: &T) -> (r: bool)
        ensures
            r == old(self)@.contains(x@),
            final(self)@ == old(self)@.remove(x@),
            final(self).order() == if r {
                old(self).order().remove(old(self).order().index_of(x@))
            } else {
                old(self).order()
            },
    {
        proof {
            use_type_invariant(&*self);
        }
        let ghost before = self.order();
        let mut i: usize = 0;
        while i < self.items.len()
            invariant
                i <= self.items.len(),
                self.order() == before,
                before == old(self).order(),
                before.to_set() == old(self)@,
                before.no_duplicates(),
                forall|j: int| 0 <= j < i ==> before[j] != x@,
            decreases self.items.len() - i,
        {
            if self.items[i].same(x) {
                let mut items = Vec::new();
                std::mem::swap(&mut items, &mut self.items);
                let _ = items.remove(i);
                proof {
                    let after = items@.map_values(|t: T| t@);
                    assert(before[i as int] == x@);
                    assert(before.contains(x@));
                    assert(after =~= before.remove(i as int));
                    lemma_remove_at(before, i as int);
                    lemma_index_of(before, i as int);
                }
                self.items = items;
                return true;
            }
            i += 1;
        }
        proof {
            assert(!before.contains(x@));
            assert(self@.remove(x@) =~= self@);
        }
        false
    }
}

impl<T: Data> Data for ItemSet<T> {
    fn same(&self, other: &Self) -> (r: bool) {
        let n = self.len();
        let m = other.len();
        if n != m {
            return false;
        }
        let mut i: usize = 0;
        while i < n
            invariant
                i <= n,
                n == self.order().len(),
                forall|j: int| 0 <= j < i ==> other@.contains(self.order()[j]),
            decreases n - i,
        {
            if !other.contains(self.item_at(i)) {
                return false;
            }
            i += 1;
        }
        proof {
            assert(self@.subset_of(other@)) by {
                assert forall|a: T::V| self@.contains(a) implies other@.contains(a) by {
                    let j = choose|j: int| 0 <= j < self.order().len() && self.order()[j] == a;
                    assert(other@.contains(self.order()[j]));
                }
            }
            vstd::set_lib::lemma_subset_equality(self@, other@);
        }
        true
    }

    fn duplicate(&self) -> (r: Self)
        ensures
            r.order() == self.order(),
    {
        let n = self.len();
        let mut items: Vec<T> = Vec::new();
        let mut i: usize = 0;
        while i < n
            invariant
                i <= n,
                n == self.order().len(),
                items@.map_values(|t: T| t@) == self.order().take(i as int),
            decreases n - i,
        {
            let c = self.item_at(i).duplicate();
            let ghost prev = items@.map_values(|t: T| t@);
            items.push(c);
            assert(items@.map_values(|t: T| t@) =~= prev.push(c@));
            assert(prev.push(c@) =~= self.order().take(i as int + 1));
            i += 1;
        }
        assert(self.order().take(n as int) =~= self.order());
        ItemSet { items }
    }
}

} // verus!
