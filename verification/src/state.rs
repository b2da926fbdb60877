//! The entry the store keeps for one key.

use crate::data::Data;
use crate::item_set::ItemSet;
use vstd::prelude::*;

verus! {

/// What an entry denotes: the set of its owners and its domain state.
#[verifier::ext_equal]
#[verifier::reject_recursive_types(O)]
pub struct EntryView<O, V> {
    pub owners: Set<O>,
    pub state: V,
}

/// The entry of one key: who owns the key, and the key's domain state.
pub struct State<O: Data, V: Data> {
    pub owners: ItemSet<O>,
    pub state: V,
}

impl<O: Data, V: Data> View for State<O, V> {
    type V = EntryView<O::V, V::V>;

    open spec fn view(&self) -> EntryView<O::V, V::V> {
        EntryView { owners: self.owners@, state: self.state@ }
    }
}

impl<O: Data, V: Data> Data for State<O, V> {
    fn same(&self, other: &Self) -> (r: bool) {
        self.owners.same(&other.owners) && self.state.same(&other.state)
    }

    fn duplicate(&self) -> (r: Self) {
        State { owners: self.owners.duplicate(), state: self.state.duplicate() }
    }
}

impl<O: Data, V: Data> State<O, V> {
    /// An entry without owners.
    pub fn new(state: V) -> (r: Self)
        ensures
            r@ == (EntryView { owners: Set::<O::V>::empty(), state: state@ }),
    {
        State { owners: ItemSet::new(), state }
    }
}

impl<O: Data, V: Data + Default> Default for State<O, V> {
    fn default() -> (r: Self)
        ensures
            r@.owners == Set::<O::V>::empty(),
    {
        State { owners: ItemSet::new(), state: V::default() }
    }
}

} // verus!
