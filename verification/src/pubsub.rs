//! The events a store publishes, and what a reader reconstructs from them.

use crate::data::Data;
use crate::item_map::ItemMap;
use crate::state::{EntryView, State};
use vstd::prelude::*;

verus! {

/// What an event denotes.
#[verifier::reject_recursive_types(K)]
#[verifier::reject_recursive_types(O)]
pub enum EventView<K, O, V> {
    Added(K, EntryView<O, V>),
    Modified(K, EntryView<O, V>),
    Removed(K),
    Restart(Map<K, EntryView<O, V>>),
}

/// A change of a store, as its subscribers are told of it.
pub enum Event<K: Data, O: Data, V: Data> {
    /// The key got its first owner; the entry is the one just created.
    Added(K, State<O, V>),
    /// The key's owners or state changed; the entry is the one after the change.
    Modified(K, State<O, V>),
    /// The key lost its last owner.
    Removed(K),
    /// Everything known before is void; the map is the whole state.
    Restart(ItemMap<K, State<O, V>>),
}

impl<K: Data, O: Data, V: Data> View for Event<K, O, V> {
    type V = EventView<K::V, O::V, V::V>;

    open spec fn view(&self) -> EventView<K::V, O::V, V::V> {
        match self {
            Event::Added(k, s) => EventView::Added(k@, s@),
            Event::Modified(k, s) => EventView::Modified(k@, s@),
            Event::Removed(k) => EventView::Removed(k@),
            Event::Restart(m) => EventView::Restart(m@),
        }
    }
}

impl<K: Data, O: Data, V: Data> Data for Event<K, O, V> {
    fn same(&self, other: &Self) -> (r: bool) {
        match (self, other) {
            (Event::Added(k, s), Event::Added(k2, s2)) => k.same(k2) && s.same(s2),
            (Event::Modified(k, s), Event::Modified(k2, s2)) => k.same(k2) && s.same(s2),
            (Event::Removed(k), Event::Removed(k2)) => k.same(k2),
            (Event::Restart(m), Event::Restart(m2)) => m.same(m2),
            _ => false,
        }
    }

    fn duplicate(&self) -> (r: Self) {
        match self {
            Event::Added(k, s) => Event::Added(k.duplicate(), s.duplicate()),
            Event::Modified(k, s) => Event::Modified(k.duplicate(), s.duplicate()),
            Event::Removed(k) => Event::Removed(k.duplicate()),
            Event::Restart(m) => Event::Restart(m.duplicate()),
        }
    }
}

/// The state a reader holds after it has seen `e`, having held `m` before.
pub open spec fn replay_one<K, O, V>(
    m: Map<K, EntryView<O, V>>,
    e: EventView<K, O, V>,
) -> Map<K, EntryView<O, V>> {
    match e {
        EventView::Added(k, s) => m.insert(k, s),
        EventView::Modified(k, s) => m.insert(k, s),
        EventView::Removed(k) => m.remove(k),
        EventView::Restart(s) => s,
    }
}

/// The state a reader holds after it has seen the events of `es` in order,
/// having held `m` before.
pub open spec fn replay<K, O, V>(
    m: Map<K, EntryView<O, V>>,
    es: Seq<EventView<K, O, V>>,
) -> Map<K, EntryView<O, V>>
    decreases es.len(),
{
    if es.len() == 0 {
        m
    } else {
        replay_one(replay(m, es.drop_last()), es.last())
    }
}

/// Brings a reader's copy of the entries up to date with one event: an
/// added or modified entry is stored, a removed one is dropped, and a
/// restart replaces the copy.
pub fn absorb<K: Data, O: Data, V: Data>(state: &mut ItemMap<K, State<O, V>>, evt: Event<K, O, V>)
    ensures
        final(state)@ == replay_one(old(state)@, evt@),
{
    match evt {
        Event::Added(key, entry) => {
            state.insert(key, entry);
        },
        Event::Modified(key, entry) => {
            state.insert(key, entry);
        },
        Event::Removed(key) => {
            let _ = state.remove(&key);
        },
        Event::Restart(entries) => {
            *state = entries;
        },
    }
}

/// Replaying a batch and then one more event is replaying the longer batch.
pub proof fn lemma_replay_push<K, O, V>(
    m: Map<K, EntryView<O, V>>,
    es: Seq<EventView<K, O, V>>,
    e: EventView<K, O, V>,
)
    ensures
        replay(m, es.push(e)) == replay_one(replay(m, es), e),
{
    assert(es.push(e).drop_last() =~= es);
}

/// Replaying two batches in turn is replaying their concatenation.
pub proof fn lemma_replay_concat<K, O, V>(
    m: Map<K, EntryView<O, V>>,
    a: Seq<EventView<K, O, V>>,
    b: Seq<EventView<K, O, V>>,
)
    ensures
        replay(m, a + b) == replay(replay(m, a), b),
    decreases b.len(),
{
    if b.len() == 0 {
        assert(a + b =~= a);
    } else {
        lemma_replay_concat(m, a, b.drop_last());
        assert((a + b).drop_last() =~= a + b.drop_last());
    }
}

/// Replaying a batch is replaying its first event and then the rest.
pub proof fn lemma_replay_first<K, O, V>(m: Map<K, EntryView<O, V>>, es: Seq<EventView<K, O, V>>)
    requires
        es.len() > 0,
    ensures
        replay(m, es) == replay(replay_one(m, es[0]), es.drop_first()),
{
    let head = seq![es[0]];
    assert(head + es.drop_first() =~= es);
    lemma_replay_concat(m, head, es.drop_first());
    assert(head.drop_last() =~= Seq::empty());
    assert(replay(m, head) == replay_one(replay(m, head.drop_last()), head.last()));
}

} // verus!
