//! The owner-indexed reactive store.
//!
//! The store keeps, for every key, the set of its owners and a domain
//! state, and for every owner the set of its keys. Every change is told to
//! the subscribers as events, in the order in which it happened.

use crate::data::Data;
use crate::hub::{
    Hub, HubView, ListenerView, Received, deliver, deliver_all, lemma_deliver_concat,
    lemma_deliver_push,
};
use crate::item_map::ItemMap;
use crate::item_set::ItemSet;
use crate::laws::{
    lemma_attached_consistent, lemma_index_for_put, lemma_put_consistent,
    lemma_released_consistent, lemma_released_nothing, lemma_put_replays,
};
use crate::model::{
    Images, Index, announced, applied, attached, attached_key, consistent, effective, entry_view,
    enumerates, index_for, keys_of, owned_entries, owners_of, put_events, put_images, put_pods,
    released, released_key, sole_key, starts, told, untouched, yields,
};
use crate::pubsub::{lemma_replay_concat, lemma_replay_push, replay, Event, EventView};
use crate::state::{EntryView, State};
use vstd::prelude::*;

verus! {

/// The store: entries by key, keys by owner, and the subscribers.
pub struct Inner<K: Data, O: Data, V: Data> {
    /// the entries, by key
    images: ItemMap<K, State<O, V>>,
    /// the owners, with their keys
    pods: ItemMap<O, ItemSet<K>>,
    /// the subscribers
    hub: Hub<Event<K, O, V>>,
    /// every event published so far
    log: Ghost<Seq<EventView<K::V, O::V, V::V>>>,
}

impl<K: Data, O: Data, V: Data> Inner<K, O, V> {
    /// The entries, by key.
    pub closed spec fn images(&self) -> Images<K::V, O::V, V::V> {
        self.images@
    }

    /// The keys of each owner.
    pub closed spec fn pods(&self) -> Index<K::V, O::V> {
        self.pods@
    }

    /// The subscribers, each with what it is owed.
    pub closed spec fn listeners(&self) -> HubView<EventView<K::V, O::V, V::V>> {
        self.hub@
    }

    /// Every event published since the store was made, oldest first.
    pub closed spec fn log(&self) -> Seq<EventView<K::V, O::V, V::V>> {
        self.log@
    }

    /// The events published since the store was as `earlier`.
    pub open spec fn news(&self, earlier: &Self) -> Seq<EventView<K::V, O::V, V::V>> {
        self.log().skip(earlier.log().len() as int)
    }

    /// The store's validity: its maps are consistent, and a reader that
    /// replays the log from nothing holds the store's entries.
    pub open spec fn wf(&self) -> bool {
        &&& consistent(self.images(), self.pods())
        &&& replay(Map::empty(), self.log()) == self.images()
    }

    /// An empty store without subscribers.
    pub fn new() -> (r: Self)
        ensures
            r.wf(),
            r.images() == Map::<K::V, EntryView<O::V, V::V>>::empty(),
            r.pods() == Map::<O::V, Set<K::V>>::empty(),
            r.listeners() == Map::<u128, ListenerView<EventView<K::V, O::V, V::V>>>::empty(),
            r.log() == Seq::<EventView<K::V, O::V, V::V>>::empty(),
    {
        Inner { images: ItemMap::new(), pods: ItemMap::new(), hub: Hub::new(), log: Ghost(Seq::empty()) }
    }

    /// A copy of the entries as they are now.
    pub fn get_state(&self) -> (r: ItemMap<K, State<O, V>>)
        ensures
            r@ == self.images(),
    {
        self.images.duplicate()
    }

    /// A copy of the index as it is now: each owner with its keys.
    pub fn get_index(&self) -> (r: ItemMap<O, ItemSet<K>>)
        ensures
            r@ == self.pods(),
    {
        self.pods.duplicate()
    }

    /// A copy of the entry of `key`, if it has one.
    pub fn entry(&self, key: &K) -> (r: Option<State<O, V>>)
        ensures
            entry_view(r) == self.images().get(key@),
    {
        match self.images.get(key) {
            Some(s) => Some(s.duplicate()),
            None => None,
        }
    }

    /// Publishes `evt`: records it and hands it to the hub.
    fn broadcast(&mut self, evt: Event<K, O, V>)
        ensures
            final(self).images() == old(self).images(),
            final(self).pods() == old(self).pods(),
            final(self).log() == old(self).log().push(evt@),
            final(self).listeners() == deliver(old(self).listeners(), evt@),
    {
        self.hub.broadcast(&evt);
        self.log = Ghost(self.log@.push(evt@));
    }

    /// Registers a subscriber whose queue holds `capacity` events. Its
    /// first event is a `Restart` with the entries as they are now.
    pub fn subscribe(&mut self, capacity: usize) -> (id: u128)
        requires
            capacity > 0,
        ensures
            old(self).wf() ==> final(self).wf(),
            !old(self).listeners().contains_key(id),
            final(self).listeners() == old(self).listeners().insert(
                id,
                ListenerView {
                    capacity: capacity as nat,
                    pending: seq![EventView::Restart(old(self).images())],
                },
            ),
            final(self).images() == old(self).images(),
            final(self).pods() == old(self).pods(),
            final(self).log() == old(self).log(),
    {
        let first = Event::Restart(self.images.duplicate());
        self.hub.subscribe(capacity, first)
    }

    /// Cancels the subscription `id`. Cancelling an unknown id changes nothing.
    pub fn unsubscribe(&mut self, id: u128)
        ensures
            old(self).wf() ==> final(self).wf(),
            final(self).listeners() == old(self).listeners().remove(id),
            final(self).images() == old(self).images(),
            final(self).pods() == old(self).pods(),
            final(self).log() == old(self).log(),
    {
        self.hub.unsubscribe(id);
    }

    /// Takes the oldest waiting event of subscriber `id` out of its queue.
    pub fn receive(&mut self, id: u128) -> (r: Received<Event<K, O, V>>)
        ensures
            old(self).wf() ==> final(self).wf(),
            final(self).images() == old(self).images(),
            final(self).pods() == old(self).pods(),
            final(self).log() == old(self).log(),
            !old(self).listeners().contains_key(id) ==> r is Closed && final(self).listeners() == old(
                self,
            ).listeners(),
            old(self).listeners().contains_key(id) && old(self).listeners()[id].pending.len() == 0
                ==> r is Empty && final(self).listeners() == old(self).listeners(),
            old(self).listeners().contains_key(id) && old(self).listeners()[id].pending.len() > 0
                ==> (r matches Received::Event(e) && e@ == old(self).listeners()[id].pending[0])
                && final(self).listeners() == old(self).listeners().insert(
                id,
                ListenerView {
                    capacity: old(self).listeners()[id].capacity,
                    pending: old(self).listeners()[id].pending.drop_first(),
                },
            ),
    {
        self.hub.receive(id)
    }

    /// Gives up the store for its two maps.
    pub fn into_maps(self) -> (r: (ItemMap<K, State<O, V>>, ItemMap<O, ItemSet<K>>))
        ensures
            r.0@ == self.images(),
            r.1@ == self.pods(),
    {
        (self.images, self.pods)
    }

    /// Replaces the entries by those of `images` that have an owner,
    /// rebuilds the index from them, and publishes a single `Restart`
    /// that carries the new entries.
    pub fn set_state(&mut self, images: &ItemMap<K, State<O, V>>)
        ensures
            final(self).wf(),
            final(self).images() == owned_entries(images@),
            final(self).pods() == index_for(owned_entries(images@)),
            final(self).log() == old(self).log().push(
                EventView::Restart(owned_entries(images@)),
            ),
            final(self).listeners() == deliver(
                old(self).listeners(),
                EventView::Restart(owned_entries(images@)),
            ),
    {
        let mut scratch: Inner<K, O, V> = Inner::new();
        let n = images.len();
        let ghost ord = images.order();
        let ghost src = images@;
        let mut i: usize = 0;
        proof {
            assert(scratch.images() =~= Map::new(
                |k: K::V| ord.take(0).contains(k) && src[k].owners != Set::<O::V>::empty(),
                |k: K::V| src[k],
            ));
            assert(scratch.pods() =~= index_for(scratch.images()));
        }
        while i < n
            invariant
                i <= n,
                n == ord.len(),
                ord == images.order(),
                ord.no_duplicates(),
                src == images@,
                src.dom() == ord.to_set(),
                scratch.wf(),
                scratch.images() == Map::new(
                    |k: K::V| ord.take(i as int).contains(k) && src[k].owners != Set::<O::V>::empty(),
                    |k: K::V| src[k],
                ),
                scratch.pods() == index_for(scratch.images()),
            decreases n - i,
        {
            let k = images.key_at(i);
            let e = images.value_at(i);
            let ghost kv = k@;
            let ghost cur = scratch.images();
            proof {
                assert(ord[i as int] == kv);
                assert(!ord.take(i as int).contains(kv)) by {
                    if ord.take(i as int).contains(kv) {
                        let j = choose|j: int|
                            0 <= j < ord.take(i as int).len() && ord.take(i as int)[j] == kv;
                        assert(ord[j] == ord[i as int]);
                    }
                }
                lemma_index_for_put(cur, kv, e@);
            }
            scratch.put(k.duplicate(), Some(e.duplicate()));
            proof {
                let done = ord.take(i as int);
                let next = ord.take(i as int + 1);
                assert(next =~= done.push(kv));
                assert(next[i as int] == kv);
                let goal = Map::new(
                    |x: K::V| next.contains(x) && src[x].owners != Set::<O::V>::empty(),
                    |x: K::V| src[x],
                );
                assert forall|x: K::V| scratch.images().contains_key(x) <==> goal.contains_key(x) by {
                    if done.contains(x) {
                        let j = choose|j: int| 0 <= j < done.len() && done[j] == x;
                        assert(next[j] == x);
                    }
                    if next.contains(x) && x != kv {
                        let j = choose|j: int| 0 <= j < next.len() && next[j] == x;
                        assert(done[j] == x);
                    }
                }
                assert(scratch.images() =~= goal);
            }
            i += 1;
        }
        proof {
            assert(ord.take(n as int) =~= ord);
            assert forall|k: K::V| ord.contains(k) <==> src.contains_key(k) by {
                assert(ord.to_set().contains(k) <==> src.dom().contains(k));
            }
            assert(scratch.images() =~= owned_entries(src));
        }
        let (im, pods) = scratch.into_maps();
        self.reset(im, pods);
    }

    /// Replaces both maps at once and publishes a single `Restart` that
    /// carries the new entries. The caller has built consistent maps.
    pub fn reset(&mut self, images: ItemMap<K, State<O, V>>, pods: ItemMap<O, ItemSet<K>>)
        requires
            consistent(images@, pods@),
        ensures
            final(self).wf(),
            final(self).images() == images@,
            final(self).pods() == pods@,
            final(self).log() == old(self).log().push(EventView::Restart(images@)),
            final(self).listeners() == deliver(old(self).listeners(), EventView::Restart(images@)),
    {
        let evt = Event::Restart(images.duplicate());
        self.images = images;
        self.pods = pods;
        self.broadcast(evt);
        proof {
            lemma_replay_push(
                Map::empty(),
                old(self).log(),
                EventView::<K::V, O::V, V::V>::Restart(images@),
            );
        }
    }

    /// Removes `owner` and releases its keys: the owner leaves the entry
    /// of each; an entry left without owners is erased and `Removed` is
    /// published, any other gets its state from `on_remove` and `Modified`
    /// is published.
    fn release<F: Fn(&K, V) -> V>(&mut self, owner: &O, on_remove: &F)
        requires
            old(self).wf(),
            forall|k: K, v: V| call_requires(*on_remove, (&k, v)),
        ensures
            final(self).wf(),
            final(self).log() == old(self).log() + final(self).news(old(self)),
            released::<K, O::V, V, F>(
                old(self).images(),
                old(self).pods(),
                owner@,
                *on_remove,
                final(self).images(),
                final(self).pods(),
                final(self).news(old(self)),
            ),
            final(self).listeners() == deliver_all(
                old(self).listeners(),
                final(self).news(old(self)),
            ),
            replay(old(self).images(), final(self).news(old(self))) == final(self).images(),
    {
        let ghost p = self.images();
        let ghost q = self.pods();
        let ghost o = owner@;
        let ghost log0 = self.log();
        let ghost hub0 = self.listeners();
        match self.pods.remove(owner) {
            None => {
                proof {
                    let none = Seq::<K::V>::empty();
                    assert(self.news(old(self)) =~= Seq::empty());
                    assert(self.log() =~= log0 + self.news(old(self)));
                    assert(none.to_set() =~= Set::<K::V>::empty());
                    assert(enumerates(none, keys_of(q, o)));
                    assert(told(self.images(), none) =~= self.news(old(self)));
                    assert(self.pods() =~= q.remove(o));
                }
            },
            Some(keys) => {
                let n = keys.len();
                let ghost ord = keys.order();
                let ghost ks = keys@;
                let ghost mut evs = Seq::<EventView<K::V, O::V, V::V>>::empty();
                let mut i: usize = 0;
                proof {
                    assert(ord.take(0) =~= Seq::<K::V>::empty());
                    assert(told(self.images(), ord.take(0)) =~= evs);
                    assert(self.log() =~= log0 + evs);
                }
                while i < n
                    invariant
                        i <= n,
                        n == ord.len(),
                        ord == keys.order(),
                        ord.no_duplicates(),
                        ord.to_set() == ks,
                        consistent(p, q),
                        o == owner@,
                        q.contains_key(o),
                        q[o] == ks,
                        self.pods() == q.remove(o),
                        forall|k: K::V|
                            !ord.take(i as int).contains(k) ==> #[trigger] untouched(
                                p,
                                self.images(),
                                k,
                            ),
                        forall|k: K::V|
                            ord.take(i as int).contains(k) ==> #[trigger] released_key::<K, O::V, V, F>(
                                p,
                                o,
                                *on_remove,
                                self.images(),
                                k,
                            ),
                        evs == told(self.images(), ord.take(i as int)),
                        self.log() == log0 + evs,
                        replay(p, evs) == self.images(),
                        self.listeners() == deliver_all(hub0, evs),
                        forall|k: K, v: V| call_requires(*on_remove, (&k, v)),
                    decreases n - i,
                {
                    let k = keys.item_at(i);
                    let ghost kv = k@;
                    let ghost c = self.images();
                    proof {
                        assert(ord[i as int] == kv);
                        assert(ord.contains(kv));
                        assert(ks.contains(kv));
                        assert(q[o].contains(kv));
                        assert(p.contains_key(kv) && p[kv].owners.contains(o));
                        assert(!ord.take(i as int).contains(kv)) by {
                            if ord.take(i as int).contains(kv) {
                                let j = choose|j: int|
                                    0 <= j < ord.take(i as int).len() && ord.take(i as int)[j] == kv;
                                assert(ord[j] == ord[i as int]);
                            }
                        }
                        assert(untouched(p, c, kv));
                        assert(c.contains_key(kv) && c[kv] == p[kv]);
                    }
                    match self.images.remove(k) {
                        Some(st) => {
                            assert(st@ == c[kv]);
                            let State { mut owners, state } = st;
                            assert(owners@ == c[kv].owners);
                            let _ = owners.remove(owner);
                            assert(owners@ == p[kv].owners.remove(o));
                            if owners.is_empty() {
                                self.broadcast(Event::Removed(k.duplicate()));
                                proof {
                                    assert(self.images() =~= c.remove(kv));
                                    let e = EventView::<K::V, O::V, V::V>::Removed(kv);
                                    lemma_replay_push(p, evs, e);
                                    lemma_deliver_push(hub0, evs, e);
                                    evs = evs.push(e);
                                }
                            } else {
                                let ghost before = state;
                                let state = on_remove(k, state);
                                assert(call_ensures(*on_remove, (k, before), state));
                                assert(yields::<K, V, F>(*on_remove, kv, p[kv].state, state@));
                                let st = State { owners, state };
                                self.images.insert(k.duplicate(), st.duplicate());
                                self.broadcast(Event::Modified(k.duplicate(), st));
                                proof {
                                    let e = EventView::<K::V, O::V, V::V>::Modified(kv, st@);
                                    lemma_replay_push(p, evs, e);
                                    lemma_deliver_push(hub0, evs, e);
                                    assert(self.images() =~= c.insert(kv, st@));
                                    evs = evs.push(e);
                                }
                            }
                        },
                        None => {
                            assert(false);
                        },
                    }
                    proof {
                        let now = self.images();
                        let done = ord.take(i as int);
                        let next = ord.take(i as int + 1);
                        assert(next =~= done.push(kv));
                        assert forall|x: K::V| x != kv implies (now.contains_key(x) == c.contains_key(x)
                            && (c.contains_key(x) ==> now[x] == c[x])) by {}
                        assert(released_key::<K, O::V, V, F>(p, o, *on_remove, now, kv));
                        assert forall|x: K::V| !next.contains(x) implies #[trigger] untouched(
                            p,
                            now,
                            x,
                        ) by {
                            assert(x != kv) by {
                                if x == kv {
                                    assert(next[i as int] == kv);
                                }
                            }
                            if done.contains(x) {
                                let j = choose|j: int| 0 <= j < done.len() && done[j] == x;
                                assert(next[j] == x);
                            }
                            assert(untouched(p, c, x));
                        }
                        assert forall|x: K::V| next.contains(x) implies #[trigger] released_key::<
                            K,
                            O::V,
                            V,
                            F,
                        >(p, o, *on_remove, now, x) by {
                            if x != kv {
                                let j = choose|j: int| 0 <= j < next.len() && next[j] == x;
                                assert(j < i);
                                assert(done[j] == x);
                                assert(done.contains(x));
                                assert(released_key::<K, O::V, V, F>(p, o, *on_remove, c, x));
                            }
                        }
                        assert(evs =~= told(now, next)) by {
                            assert forall|j: int| 0 <= j < next.len() implies evs[j] == told(
                                now,
                                next,
                            )[j] by {
                                if j < i {
                                    assert(next[j] == ord[j]);
                                    assert(ord[j] != kv);
                                    assert(evs[j] == told(c, done)[j]);
                                }
                            }
                        }
                        assert(self.log() =~= log0 + evs);
                    }
                    i += 1;
                }
                proof {
                    assert(ord.take(n as int) =~= ord);
                    assert(self.news(old(self)) =~= evs);
                    assert(enumerates(ord, keys_of(q, o)));
                    assert forall|k: K::V| !ks.contains(k) implies #[trigger] untouched(
                        p,
                        self.images(),
                        k,
                    ) by {
                        assert(!ord.contains(k));
                    }
                    assert forall|k: K::V| ks.contains(k) implies #[trigger] released_key::<
                        K,
                        O::V,
                        V,
                        F,
                    >(p, o, *on_remove, self.images(), k) by {
                        assert(ord.contains(k));
                    }
                    lemma_released_consistent::<K, O::V, V, F>(
                        p,
                        q,
                        o,
                        *on_remove,
                        self.images(),
                        self.pods(),
                    );
                    lemma_replay_concat(Map::empty(), log0, evs);
                }
            },
        }
    }

    /// Attaches `owner` to each key of `keys`: a key without entry gets
    /// one, and `Added` is published; a key with an entry gets one more
    /// owner and the state `on_add` returns, and `Modified` is published.
    /// Then the index maps the owner to `keys`.
    fn attach<I: Fn(&K) -> V, A: Fn(&K, V) -> V>(
        &mut self,
        owner: O,
        keys: ItemSet<K>,
        initial: &I,
        on_add: &A,
    )
        requires
            old(self).wf(),
            !old(self).pods().contains_key(owner@),
            forall|k: K| call_requires(*initial, (&k,)),
            forall|k: K, v: V| call_requires(*on_add, (&k, v)),
        ensures
            final(self).wf(),
            final(self).log() == old(self).log() + final(self).news(old(self)),
            attached::<K, O::V, V, I, A>(
                old(self).images(),
                old(self).pods(),
                owner@,
                keys@,
                *initial,
                *on_add,
                final(self).images(),
                final(self).pods(),
                final(self).news(old(self)),
            ),
            final(self).listeners() == deliver_all(
                old(self).listeners(),
                final(self).news(old(self)),
            ),
            replay(old(self).images(), final(self).news(old(self))) == final(self).images(),
    {
        let ghost m = self.images();
        let ghost mq = self.pods();
        let ghost o = owner@;
        let ghost log0 = self.log();
        let ghost hub0 = self.listeners();
        let n = keys.len();
        let ghost ord = keys.order();
        let ghost ks = keys@;
        let ghost mut evs = Seq::<EventView<K::V, O::V, V::V>>::empty();
        let mut i: usize = 0;
        proof {
            assert(ord.take(0) =~= Seq::<K::V>::empty());
            assert(announced(m, self.images(), ord.take(0)) =~= evs);
            assert(self.log() =~= log0 + evs);
        }
        while i < n
            invariant
                i <= n,
                n == ord.len(),
                ord == keys.order(),
                ord.no_duplicates(),
                ord.to_set() == ks,
                ks == keys@,
                consistent(m, mq),
                o == owner@,
                !mq.contains_key(o),
                self.pods() == mq,
                forall|k: K::V|
                    !ord.take(i as int).contains(k) ==> #[trigger] untouched(m, self.images(), k),
                forall|k: K::V|
                    ord.take(i as int).contains(k) ==> #[trigger] attached_key::<K, O::V, V, I, A>(
                        m,
                        o,
                        *initial,
                        *on_add,
                        self.images(),
                        k,
                    ),
                evs == announced(m, self.images(), ord.take(i as int)),
                self.log() == log0 + evs,
                replay(m, evs) == self.images(),
                self.listeners() == deliver_all(hub0, evs),
                forall|k: K| call_requires(*initial, (&k,)),
                forall|k: K, v: V| call_requires(*on_add, (&k, v)),
            decreases n - i,
        {
            let k = keys.item_at(i);
            let ghost kv = k@;
            let ghost c = self.images();
            proof {
                assert(ord[i as int] == kv);
                assert(!ord.take(i as int).contains(kv)) by {
                    if ord.take(i as int).contains(kv) {
                        let j = choose|j: int|
                            0 <= j < ord.take(i as int).len() && ord.take(i as int)[j] == kv;
                        assert(ord[j] == ord[i as int]);
                    }
                }
                assert(untouched(m, c, kv));
            }
            match self.images.remove(k) {
                None => {
                    let state = initial(k);
                    assert(starts::<K, V, I>(*initial, kv, state@));
                    let mut owners = ItemSet::new();
                    let _ = owners.insert(owner.duplicate());
                    assert(owners@ =~= set![o]);
                    let st = State { owners, state };
                    self.images.insert(k.duplicate(), st.duplicate());
                    self.broadcast(Event::Added(k.duplicate(), st));
                    proof {
                        let e = EventView::<K::V, O::V, V::V>::Added(kv, st@);
                        lemma_replay_push(m, evs, e);
                        lemma_deliver_push(hub0, evs, e);
                        assert(self.images() =~= c.insert(kv, st@));
                        evs = evs.push(e);
                    }
                },
                Some(st) => {
                    assert(st@ == c[kv]);
                    let State { mut owners, state } = st;
                    let added = owners.insert(owner.duplicate());
                    proof {
                        assert((m.contains_key(kv) && m[kv].owners.contains(o)) <==> (mq.contains_key(o)
                            && mq[o].contains(kv)));
                        assert(added);
                    }
                    let ghost before = state;
                    let state = on_add(k, state);
                    assert(call_ensures(*on_add, (k, before), state));
                    assert(yields::<K, V, A>(*on_add, kv, m[kv].state, state@));
                    let st = State { owners, state };
                    self.images.insert(k.duplicate(), st.duplicate());
                    if added {
                        self.broadcast(Event::Modified(k.duplicate(), st));
                    }
                    proof {
                        let e = EventView::<K::V, O::V, V::V>::Modified(kv, st@);
                        lemma_replay_push(m, evs, e);
                        lemma_deliver_push(hub0, evs, e);
                        assert(self.images() =~= c.insert(kv, st@));
                        evs = evs.push(e);
                    }
                },
            }
            proof {
                let now = self.images();
                let done = ord.take(i as int);
                let next = ord.take(i as int + 1);
                assert(next =~= done.push(kv));
                assert(attached_key::<K, O::V, V, I, A>(m, o, *initial, *on_add, now, kv));
                assert forall|x: K::V| !next.contains(x) implies #[trigger] untouched(m, now, x) by {
                    assert(x != kv) by {
                        if x == kv {
                            assert(next[i as int] == kv);
                        }
                    }
                    if done.contains(x) {
                        let j = choose|j: int| 0 <= j < done.len() && done[j] == x;
                        assert(next[j] == x);
                    }
                    assert(untouched(m, c, x));
                }
                assert forall|x: K::V| next.contains(x) implies #[trigger] attached_key::<
                    K,
                    O::V,
                    V,
                    I,
                    A,
                >(m, o, *initial, *on_add, now, x) by {
                    if x != kv {
                        let j = choose|j: int| 0 <= j < next.len() && next[j] == x;
                        assert(j < i);
                        assert(done[j] == x);
                        assert(done.contains(x));
                        assert(attached_key::<K, O::V, V, I, A>(m, o, *initial, *on_add, c, x));
                    }
                }
                assert(evs =~= announced(m, now, next)) by {
                    assert forall|j: int| 0 <= j < next.len() implies evs[j] == announced(
                        m,
                        now,
                        next,
                    )[j] by {
                        if j < i {
                            assert(next[j] == ord[j]);
                            assert(ord[j] != kv);
                            assert(evs[j] == announced(m, c, done)[j]);
                        }
                    }
                }
                assert(self.log() =~= log0 + evs);
            }
            i += 1;
        }
        self.pods.insert(owner, keys);
        proof {
            assert(ord.take(n as int) =~= ord);
            assert(self.news(old(self)) =~= evs);
            assert(enumerates(ord, ks));
            assert forall|k: K::V| !ks.contains(k) implies #[trigger] untouched(
                m,
                self.images(),
                k,
            ) by {
                assert(!ord.contains(k));
            }
            assert forall|k: K::V| ks.contains(k) implies #[trigger] attached_key::<K, O::V, V, I, A>(
                m,
                o,
                *initial,
                *on_add,
                self.images(),
                k,
            ) by {
                assert(ord.contains(k));
            }
            lemma_attached_consistent::<K, O::V, V, I, A>(
                m,
                mq,
                o,
                ks,
                *initial,
                *on_add,
                self.images(),
                self.pods(),
            );
            lemma_replay_concat(Map::empty(), log0, evs);
        }
    }

    /// Reconciles the keys of `owner` with `keys`.
    ///
    /// Where the owner has exactly these keys already, nothing happens.
    /// Otherwise the owner is released first, with `on_add` as the update
    /// of the entries it leaves. Then, for each key of `keys`: a key
    /// without entry gets one with `owner` alone and the state that
    /// `initial` returns, and `Added` is published; a key with an entry
    /// gets `owner` as one more owner and the state that `on_add` returns,
    /// and `Modified` is published. At the end the index maps the owner to
    /// `keys`.
    pub fn apply<I: Fn(&K) -> V, A: Fn(&K, V) -> V>(
        &mut self,
        owner: O,
        keys: ItemSet<K>,
        initial: I,
        on_add: A,
    )
        requires
            old(self).wf(),
            forall|k: K| call_requires(initial, (&k,)),
            forall|k: K, v: V| call_requires(on_add, (&k, v)),
        ensures
            final(self).wf(),
            final(self).log() == old(self).log() + final(self).news(old(self)),
            applied::<K, O::V, V, I, A>(
                old(self).images(),
                old(self).pods(),
                owner@,
                keys@,
                initial,
                on_add,
                final(self).images(),
                final(self).pods(),
                final(self).news(old(self)),
            ),
            final(self).listeners() == deliver_all(
                old(self).listeners(),
                final(self).news(old(self)),
            ),
            replay(old(self).images(), final(self).news(old(self))) == final(self).images(),
    {
        let ghost p = self.images();
        let ghost q = self.pods();
        let ghost log0 = self.log();
        let ghost hub0 = self.listeners();
        match self.pods.get(&owner) {
            Some(current) => {
                if current.same(&keys) {
                    proof {
                        assert(self.news(old(self)) =~= Seq::empty());
                        assert(self.log() =~= log0 + self.news(old(self)));
                    }
                    return ;
                }
            },
            None => {},
        }
        self.release(&owner, &on_add);
        let ghost m = self.images();
        let ghost mq = self.pods();
        let ghost log1 = self.log();
        let ghost hub1 = self.listeners();
        let ghost first = self.news(old(self));
        let ghost o = owner@;
        let ghost ks = keys@;
        self.attach(owner, keys, &initial, &on_add);
        proof {
            let second = self.log().skip(log1.len() as int);
            assert(self.log() == log1 + second);
            assert(log1 == log0 + first);
            assert(self.log() =~= log0 + (first + second));
            assert(self.news(old(self)) =~= first + second);
            crate::hub::lemma_deliver_concat(hub0, first, second);
            lemma_replay_concat(p, first, second);
            assert(released::<K, O::V, V, A>(p, q, o, on_add, m, mq, first));
            assert(attached::<K, O::V, V, I, A>(
                m,
                mq,
                o,
                ks,
                initial,
                on_add,
                self.images(),
                self.pods(),
                second,
            ));
        }
    }

    /// Makes `key` a key of no owner but those of `owners`, given that it
    /// was a key of exactly those of `before`.
    fn reindex(&mut self, key: &K, before: &ItemSet<O>, owners: &ItemSet<O>)
        requires
            forall|o: O::V|
                #![trigger old(self).pods().contains_key(o)]
                #![trigger before@.contains(o)]
                (old(self).pods().contains_key(o) && old(self).pods()[o].contains(key@))
                    <==> before@.contains(o),
        ensures
            final(self).pods() == put_pods(old(self).pods(), key@, owners@),
            final(self).images() == old(self).images(),
            final(self).log() == old(self).log(),
            final(self).listeners() == old(self).listeners(),
    {
        let ghost q = self.pods();
        let ghost kv = key@;
        let n = before.len();
        let ghost ord = before.order();
        let mut i: usize = 0;
        while i < n
            invariant
                i <= n,
                n == ord.len(),
                ord == before.order(),
                ord.no_duplicates(),
                ord.to_set() == before@,
                kv == key@,
                forall|o: O::V|
                    #![trigger q.contains_key(o)]
                    #![trigger before@.contains(o)]
                    (q.contains_key(o) && q[o].contains(kv)) <==> before@.contains(o),
                forall|o: O::V|
                    #![trigger self.pods().contains_key(o)]
                    self.pods().contains_key(o) <==> q.contains_key(o) && !(ord.take(
                        i as int,
                    ).contains(o) && !owners@.contains(o) && sole_key(q, o, kv)),
                forall|o: O::V| #[trigger]
                    self.pods().contains_key(o) ==> self.pods()[o] == if ord.take(i as int).contains(o)
                        && !owners@.contains(o) {
                        q[o].remove(kv)
                    } else {
                        q[o]
                    },
                self.images() == old(self).images(),
                self.log() == old(self).log(),
                self.listeners() == old(self).listeners(),
            decreases n - i,
        {
            let o = before.item_at(i);
            let ghost ov = o@;
            let ghost cur = self.pods();
            proof {
                assert(ord[i as int] == ov);
                assert(ord.contains(ov));
                assert(ord.to_set().contains(ov));
                assert(before@.contains(ov));
                assert(q.contains_key(ov) && q[ov].contains(kv));
            }
            proof {
                assert(!ord.take(i as int).contains(ov)) by {
                    if ord.take(i as int).contains(ov) {
                        let j = choose|j: int|
                            0 <= j < ord.take(i as int).len() && ord.take(i as int)[j] == ov;
                        assert(ord[j] == ord[i as int]);
                    }
                }
                assert(cur.contains_key(ov) <==> q.contains_key(ov) && !(ord.take(i as int).contains(
                    ov,
                ) && !owners@.contains(ov) && sole_key(q, ov, kv)));
                assert(cur.contains_key(ov));
                assert(cur[ov] == q[ov]);
            }
            if !owners.contains(o) {
                match self.pods.remove(o) {
                    Some(mut keys) => {
                        let _ = keys.remove(key);
                        if !keys.is_empty() {
                            self.pods.insert(o.duplicate(), keys);
                        }
                    },
                    None => {},
                }
            }
            proof {
                let done = ord.take(i as int);
                let next = ord.take(i as int + 1);
                assert(next =~= done.push(ov));
                assert(next[i as int] == ov);
                assert forall|x: O::V|
                    #![trigger self.pods().contains_key(x)]
                    self.pods().contains_key(x) <==> q.contains_key(x) && !(next.contains(x)
                        && !owners@.contains(x) && sole_key(q, x, kv)) by {
                    assert(cur.contains_key(x) <==> q.contains_key(x) && !(done.contains(x)
                        && !owners@.contains(x) && sole_key(q, x, kv)));
                    if x != ov {
                        if next.contains(x) {
                            let j = choose|j: int| 0 <= j < next.len() && next[j] == x;
                            assert(done[j] == x);
                        }
                        if done.contains(x) {
                            let j = choose|j: int| 0 <= j < done.len() && done[j] == x;
                            assert(next[j] == x);
                        }
                    }
                }
                assert forall|x: O::V| #[trigger] self.pods().contains_key(x) implies self.pods()[x] == if next.contains(
                    x,
                ) && !owners@.contains(x) {
                    q[x].remove(kv)
                } else {
                    q[x]
                } by {
                    if x != ov {
                        assert(cur.contains_key(x));
                        if next.contains(x) {
                            let j = choose|j: int| 0 <= j < next.len() && next[j] == x;
                            assert(done[j] == x);
                        }
                        if done.contains(x) {
                            let j = choose|j: int| 0 <= j < done.len() && done[j] == x;
                            assert(next[j] == x);
                        }
                    }
                }
            }
            i += 1;
        }
        let ghost q1 = self.pods();
        let m = owners.len();
        let ghost ord2 = owners.order();
        proof {
            assert(ord.take(n as int) =~= ord);
            assert forall|o: O::V| #[trigger] q1.contains_key(o) implies q1[o] == if ord.contains(o)
                && !owners@.contains(o) {
                q[o].remove(kv)
            } else {
                q[o]
            } by {}
        }
        let mut j: usize = 0;
        while j < m
            invariant
                j <= m,
                m == ord2.len(),
                ord2 == owners.order(),
                ord2.no_duplicates(),
                ord2.to_set() == owners@,
                kv == key@,
                forall|o: O::V|
                    #![trigger self.pods().contains_key(o)]
                    self.pods().contains_key(o) <==> q1.contains_key(o) || ord2.take(j as int).contains(
                        o,
                    ),
                forall|o: O::V| #[trigger]
                    self.pods().contains_key(o) ==> self.pods()[o] == if ord2.take(j as int).contains(
                        o,
                    ) {
                        keys_of(q1, o).insert(kv)
                    } else {
                        q1[o]
                    },
                self.images() == old(self).images(),
                self.log() == old(self).log(),
                self.listeners() == old(self).listeners(),
            decreases m - j,
        {
            let o = owners.item_at(j);
            let ghost ov = o@;
            let ghost cur = self.pods();
            proof {
                assert(ord2[j as int] == ov);
                assert(!ord2.take(j as int).contains(ov)) by {
                    if ord2.take(j as int).contains(ov) {
                        let x = choose|x: int|
                            0 <= x < ord2.take(j as int).len() && ord2.take(j as int)[x] == ov;
                        assert(ord2[x] == ord2[j as int]);
                    }
                }
            }
            let mut keys = match self.pods.remove(o) {
                Some(keys) => keys,
                None => ItemSet::new(),
            };
            assert(keys@ == keys_of(q1, ov)) by {
                assert(cur.contains_key(ov) <==> q1.contains_key(ov));
            }
            let _ = keys.insert(key.duplicate());
            self.pods.insert(o.duplicate(), keys);
            proof {
                let done = ord2.take(j as int);
                let next = ord2.take(j as int + 1);
                assert(next =~= done.push(ov));
                assert(next[j as int] == ov);
                assert forall|x: O::V|
                    #![trigger self.pods().contains_key(x)]
                    self.pods().contains_key(x) <==> q1.contains_key(x) || next.contains(x) by {
                    assert(cur.contains_key(x) <==> q1.contains_key(x) || done.contains(x));
                    if done.contains(x) {
                        let y = choose|y: int| 0 <= y < done.len() && done[y] == x;
                        assert(next[y] == x);
                    }
                    if next.contains(x) && x != ov {
                        let y = choose|y: int| 0 <= y < next.len() && next[y] == x;
                        assert(done[y] == x);
                    }
                }
                assert forall|x: O::V| #[trigger] self.pods().contains_key(x) implies self.pods()[x] == if next.contains(
                    x,
                ) {
                    keys_of(q1, x).insert(kv)
                } else {
                    q1[x]
                } by {
                    if x != ov {
                        assert(cur.contains_key(x));
                        if done.contains(x) {
                            let y = choose|y: int| 0 <= y < done.len() && done[y] == x;
                            assert(next[y] == x);
                        }
                        if next.contains(x) {
                            let y = choose|y: int| 0 <= y < next.len() && next[y] == x;
                            assert(done[y] == x);
                        }
                    }
                }
            }
            j += 1;
        }
        proof {
            assert(ord2.take(m as int) =~= ord2);
            let goal = put_pods(q, kv, owners@);
            assert forall|o: O::V| self.pods().contains_key(o) <==> goal.contains_key(o) by {
                assert(q1.contains_key(o) <==> q.contains_key(o) && !(ord.contains(o)
                    && !owners@.contains(o) && sole_key(q, o, kv)));
                assert(ord2.to_set().contains(o) <==> owners@.contains(o));
                assert(ord.to_set().contains(o) <==> before@.contains(o));
                assert((q.contains_key(o) && q[o].contains(kv)) <==> before@.contains(o));
            }
            assert forall|o: O::V| self.pods().contains_key(o) implies self.pods()[o] == goal[o] by {
                assert(q1.contains_key(o) <==> q.contains_key(o) && !(ord.contains(o)
                    && !owners@.contains(o) && sole_key(q, o, kv)));
                assert(ord2.to_set().contains(o) <==> owners@.contains(o));
                assert(ord.to_set().contains(o) <==> before@.contains(o));
                assert((q.contains_key(o) && q[o].contains(kv)) <==> before@.contains(o));
                if owners@.contains(o) {
                    if q.contains_key(o) {
                        assert(q1.contains_key(o));
                        assert(q1[o] == q[o]);
                    }
                } else {
                    assert(q1.contains_key(o));
                    if !before@.contains(o) {
                        assert(q[o].remove(kv) =~= q[o]);
                    }
                }
            }
            assert(self.pods() =~= goal);
        }
    }

    /// Sets the entry of `key` to `next`, where an entry without owners
    /// counts as none, and keeps the index in step: `key` becomes a key of
    /// exactly the owners of the new entry. Publishes `Added` where there
    /// was no entry, `Modified` where the entry differs from the one
    /// before, `Removed` where the entry goes, and nothing otherwise.
    pub fn put(&mut self, key: K, next: Option<State<O, V>>)
        requires
            old(self).wf(),
        ensures
            final(self).wf(),
            final(self).images() == put_images(old(self).images(), key@, entry_view(next)),
            final(self).pods() == put_pods(
                old(self).pods(),
                key@,
                owners_of(effective(entry_view(next))),
            ),
            final(self).log() == old(self).log() + put_events(
                old(self).images(),
                key@,
                entry_view(next),
            ),
            final(self).listeners() == deliver_all(
                old(self).listeners(),
                put_events(old(self).images(), key@, entry_view(next)),
            ),
    {
        let ghost p = self.images();
        let ghost q = self.pods();
        let ghost log0 = self.log();
        let ghost hub0 = self.listeners();
        let ghost kv = key@;
        let ghost nv = entry_view(next);
        let ghost evs = put_events(p, kv, nv);
        let next = match next {
            Some(e) => if e.owners.is_empty() {
                None
            } else {
                Some(e)
            },
            None => None,
        };
        assert(entry_view(next) == effective(nv));
        let cur = self.images.remove(&key);
        assert(entry_view(cur) == if p.contains_key(kv) {
            Some(p[kv])
        } else {
            None
        });
        proof {
            lemma_put_consistent(p, q, kv, nv);
            lemma_put_replays(p, kv, nv);
            assert forall|o: O::V|
                #![trigger q.contains_key(o)]
                #![trigger owners_of(entry_view(cur)).contains(o)]
                (q.contains_key(o) && q[o].contains(kv)) <==> owners_of(
                    entry_view(cur),
                ).contains(o) by {
                assert((p.contains_key(kv) && p[kv].owners.contains(o)) <==> (q.contains_key(o)
                    && q[o].contains(kv)));
            }
        }
        let none: ItemSet<O> = ItemSet::new();
        match (cur, next) {
            (None, None) => {
                self.reindex(&key, &none, &none);
                proof {
                    assert(self.images() =~= p.remove(kv));
                    assert(evs =~= Seq::empty());
                    assert(self.log() =~= log0 + evs);
                    lemma_replay_concat(Map::empty(), log0, evs);
                }
            },
            (Some(was), None) => {
                self.reindex(&key, &was.owners, &none);
                self.broadcast(Event::Removed(key));
                proof {
                    let e = EventView::<K::V, O::V, V::V>::Removed(kv);
                    assert(evs =~= Seq::empty().push(e));
                    assert(self.log() =~= log0 + evs);
                    lemma_deliver_push(hub0, Seq::empty(), e);
                    lemma_replay_concat(Map::empty(), log0, evs);
                }
            },
            (None, Some(e)) => {
                self.reindex(&key, &none, &e.owners);
                self.images.insert(key.duplicate(), e.duplicate());
                self.broadcast(Event::Added(key, e));
                proof {
                    let ev = EventView::<K::V, O::V, V::V>::Added(kv, e@);
                    assert(self.images() =~= p.insert(kv, e@));
                    assert(evs =~= Seq::empty().push(ev));
                    assert(self.log() =~= log0 + evs);
                    lemma_deliver_push(hub0, Seq::empty(), ev);
                    lemma_replay_concat(Map::empty(), log0, evs);
                }
            },
            (Some(was), Some(e)) => {
                self.reindex(&key, &was.owners, &e.owners);
                self.images.insert(key.duplicate(), e.duplicate());
                proof {
                    assert(self.images() =~= p.insert(kv, e@));
                }
                if !was.same(&e) {
                    self.broadcast(Event::Modified(key, e));
                    proof {
                        let ev = EventView::<K::V, O::V, V::V>::Modified(kv, e@);
                        assert(evs =~= Seq::empty().push(ev));
                        assert(self.log() =~= log0 + evs);
                        lemma_deliver_push(hub0, Seq::empty(), ev);
                    }
                } else {
                    proof {
                        assert(evs =~= Seq::empty());
                        assert(self.log() =~= log0 + evs);
                    }
                }
                proof {
                    lemma_replay_concat(Map::empty(), log0, evs);
                }
            },
        }
    }

    /// Applies `f` to the entry of `key`, or to its absence, and sets the
    /// entry to what `f` returns, as `put` does.
    pub fn mutate<F: FnOnce(Option<State<O, V>>) -> Option<State<O, V>>>(&mut self, key: K, f: F)
        requires
            old(self).wf(),
            forall|cur: Option<State<O, V>>| call_requires(f, (cur,)),
        ensures
            final(self).wf(),
            exists|cur: Option<State<O, V>>, next: Option<State<O, V>>|
                {
                    &&& #[trigger] call_ensures(f, (cur,), next)
                    &&& entry_view(cur) == old(self).images().get(key@)
                    &&& final(self).images() == put_images(old(self).images(), key@, entry_view(next))
                    &&& final(self).pods() == put_pods(
                        old(self).pods(),
                        key@,
                        owners_of(effective(entry_view(next))),
                    )
                    &&& final(self).log() == old(self).log() + put_events(
                        old(self).images(),
                        key@,
                        entry_view(next),
                    )
                    &&& final(self).listeners() == deliver_all(
                        old(self).listeners(),
                        put_events(old(self).images(), key@, entry_view(next)),
                    )
                },
    {
        let cur = self.entry(&key);
        let ghost c = cur;
        let next = f(cur);
        let ghost nx = next;
        self.put(key, next);
        assert(call_ensures(f, (c,), nx));
    }

    /// Removes `owner` from the store and releases its keys. For each key
    /// of the owner: if the owner was the last, the entry is erased and
    /// `Removed` is published; else the entry's state becomes what
    /// `on_remove` returns for it and `Modified` is published.
    pub fn delete<F: Fn(&K, V) -> V>(&mut self, owner: &O, on_remove: F)
        requires
            old(self).wf(),
            forall|k: K, v: V| call_requires(on_remove, (&k, v)),
        ensures
            final(self).wf(),
            final(self).log() == old(self).log() + final(self).news(old(self)),
            released::<K, O::V, V, F>(
                old(self).images(),
                old(self).pods(),
                owner@,
                on_remove,
                final(self).images(),
                final(self).pods(),
                final(self).news(old(self)),
            ),
            final(self).listeners() == deliver_all(
                old(self).listeners(),
                final(self).news(old(self)),
            ),
            replay(old(self).images(), final(self).news(old(self))) == final(self).images(),
            keys_of(old(self).pods(), owner@) == Set::<K::V>::empty() ==> final(self).images() == old(
                self,
            ).images() && final(self).log() == old(self).log() && final(self).listeners() == old(
                self,
            ).listeners(),
    {
        self.release(owner, &on_remove);
        proof {
            if keys_of(old(self).pods(), owner@) == Set::<K::V>::empty() {
                lemma_released_nothing::<K, O::V, V, F>(
                    old(self).images(),
                    old(self).pods(),
                    owner@,
                    on_remove,
                    self.images(),
                    self.pods(),
                    self.news(old(self)),
                );
                assert(self.log() =~= old(self).log());
            }
        }
    }
}

/// Whether every owner of every entry of `images` has the entry's key
/// among its keys in `pods`, and every entry has an owner.
fn owners_indexed<K: Data, O: Data, V: Data>(
    images: &ItemMap<K, State<O, V>>,
    pods: &ItemMap<O, ItemSet<K>>,
) -> (r: bool)
    ensures
        r == ((forall|k: K::V, o: O::V|
            images@.contains_key(k) && #[trigger] images@[k].owners.contains(o) ==> pods@.contains_key(
                o,
            ) && pods@[o].contains(k)) && (forall|k: K::V| #[trigger]
            images@.contains_key(k) ==> images@[k].owners != Set::<O::V>::empty())),
{
    let n = images.len();
    let ghost ord = images.order();
    let mut i: usize = 0;
    while i < n
        invariant
            i <= n,
            n == ord.len(),
            ord == images.order(),
            images@.dom() == ord.to_set(),
            forall|k: K::V, o: O::V|
                ord.take(i as int).contains(k) && #[trigger] images@[k].owners.contains(o)
                    ==> pods@.contains_key(o) && pods@[o].contains(k),
            forall|k: K::V| #[trigger]
                ord.take(i as int).contains(k) ==> images@[k].owners != Set::<O::V>::empty(),
        decreases n - i,
    {
        let key = images.key_at(i);
        let entry = images.value_at(i);
        if entry.owners.is_empty() {
            return false;
        }
        let m = entry.owners.len();
        let ghost owners = entry.owners.order();
        let mut j: usize = 0;
        while j < m
            invariant
                j <= m,
                m == owners.len(),
                owners == entry.owners.order(),
                images@.contains_key(key@),
                entry@ == images@[key@],
                owners.to_set() == entry.owners@,
                forall|o: O::V| #[trigger]
                    owners.take(j as int).contains(o) ==> pods@.contains_key(o) && pods@[o].contains(
                        key@,
                    ),
            decreases m - j,
        {
            let owner = entry.owners.item_at(j);
            let held = match pods.get(owner) {
                Some(keys) => keys.contains(key),
                None => false,
            };
            if !held {
                assert(images@[key@].owners.contains(owner@));
                return false;
            }
            proof {
                let done = owners.take(j as int);
                let next = owners.take(j as int + 1);
                assert(next =~= done.push(owner@));
                assert forall|o: O::V| #[trigger] next.contains(o) implies pods@.contains_key(o)
                    && pods@[o].contains(key@) by {
                    let x = choose|x: int| 0 <= x < next.len() && next[x] == o;
                    if x < j {
                        assert(done[x] == o);
                        assert(done.contains(o));
                    }
                }
            }
            j += 1;
        }
        proof {
            let done = ord.take(i as int);
            let next = ord.take(i as int + 1);
            assert(next =~= done.push(key@));
            assert(owners.take(m as int) =~= owners);
            assert forall|k: K::V, o: O::V|
                next.contains(k) && #[trigger] images@[k].owners.contains(o) implies pods@.contains_key(
                o,
            ) && pods@[o].contains(k) by {
                let x = choose|x: int| 0 <= x < next.len() && next[x] == k;
                if x < i {
                    assert(done[x] == k);
                    assert(done.contains(k));
                } else {
                    assert(owners.to_set().contains(o));
                    assert(owners.contains(o));
                }
            }
            assert forall|k: K::V| #[trigger] next.contains(k) implies images@[k].owners != Set::<
                O::V,
            >::empty() by {
                let x = choose|x: int| 0 <= x < next.len() && next[x] == k;
                if x < i {
                    assert(done[x] == k);
                    assert(done.contains(k));
                }
            }
        }
        i += 1;
    }
    proof {
        assert(ord.take(n as int) =~= ord);
        assert forall|k: K::V| images@.contains_key(k) implies ord.contains(k) by {
            assert(images@.dom().contains(k));
            assert(ord.to_set().contains(k));
        }
    }
    true
}

/// Whether every key of every owner of `pods` has an entry in `images`
/// that lists the owner.
fn keys_owned<K: Data, O: Data, V: Data>(
    images: &ItemMap<K, State<O, V>>,
    pods: &ItemMap<O, ItemSet<K>>,
) -> (r: bool)
    ensures
        r == (forall|k: K::V, o: O::V|
            pods@.contains_key(o) && #[trigger] pods@[o].contains(k) ==> images@.contains_key(k)
                && images@[k].owners.contains(o)),
{
    let n = pods.len();
    let ghost ord = pods.order();
    let mut i: usize = 0;
    while i < n
        invariant
            i <= n,
            n == ord.len(),
            ord == pods.order(),
            pods@.dom() == ord.to_set(),
            forall|k: K::V, o: O::V|
                ord.take(i as int).contains(o) && #[trigger] pods@[o].contains(k)
                    ==> images@.contains_key(k) && images@[k].owners.contains(o),
        decreases n - i,
    {
        let owner = pods.key_at(i);
        let keys = pods.value_at(i);
        let m = keys.len();
        let ghost listed = keys.order();
        let mut j: usize = 0;
        while j < m
            invariant
                j <= m,
                m == listed.len(),
                listed == keys.order(),
                pods@.contains_key(owner@),
                keys@ == pods@[owner@],
                listed.to_set() == keys@,
                forall|k: K::V| #[trigger]
                    listed.take(j as int).contains(k) ==> images@.contains_key(k)
                        && images@[k].owners.contains(owner@),
            decreases m - j,
        {
            let key = keys.item_at(j);
            let owned = match images.get(key) {
                Some(entry) => entry.owners.contains(owner),
                None => false,
            };
            if !owned {
                assert(pods@[owner@].contains(key@));
                return false;
            }
            proof {
                let done = listed.take(j as int);
                let next = listed.take(j as int + 1);
                assert(next =~= done.push(key@));
                assert forall|k: K::V| #[trigger] next.contains(k) implies images@.contains_key(k)
                    && images@[k].owners.contains(owner@) by {
                    let x = choose|x: int| 0 <= x < next.len() && next[x] == k;
                    if x < j {
                        assert(done[x] == k);
                        assert(done.contains(k));
                    }
                }
            }
            j += 1;
        }
        proof {
            let done = ord.take(i as int);
            let next = ord.take(i as int + 1);
            assert(next =~= done.push(owner@));
            assert(listed.take(m as int) =~= listed);
            assert forall|k: K::V, o: O::V|
                next.contains(o) && #[trigger] pods@[o].contains(k) implies images@.contains_key(k)
                && images@[k].owners.contains(o) by {
                let x = choose|x: int| 0 <= x < next.len() && next[x] == o;
                if x < i {
                    assert(done[x] == o);
                    assert(done.contains(o));
                } else {
                    assert(listed.to_set().contains(k));
                    assert(listed.contains(k));
                }
            }
        }
        i += 1;
    }
    proof {
        assert(ord.take(n as int) =~= ord);
        assert forall|o: O::V| pods@.contains_key(o) implies ord.contains(o) by {
            assert(pods@.dom().contains(o));
            assert(ord.to_set().contains(o));
        }
    }
    true
}

/// Whether the two maps are consistent: what `reset` asks of its caller.
pub fn is_consistent<K: Data, O: Data, V: Data>(
    images: &ItemMap<K, State<O, V>>,
    pods: &ItemMap<O, ItemSet<K>>,
) -> (r: bool)
    ensures
        r == consistent(images@, pods@),
{
    owners_indexed(images, pods) && keys_owned(images, pods)
}

} // verus!
