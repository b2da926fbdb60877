//! The broadcast hub: one bounded queue per subscriber, and a fan-out that
//! delivers each event to every queue with room and evicts the others.

use crate::data::Data;
use crate::item_map::ItemMap;
use vstd::prelude::*;

verus! {

/// What a subscriber is owed: the bound of its queue and the events that
/// wait in it, oldest first.
pub struct ListenerView<E> {
    pub capacity: nat,
    pub pending: Seq<E>,
}

/// One subscriber's bounded queue.
pub struct Listener<E: Data> {
    capacity: usize,
    queue: Vec<E>,
}

impl<E: Data> View for Listener<E> {
    type V = ListenerView<E::V>;

    closed spec fn view(&self) -> ListenerView<E::V> {
        ListenerView { capacity: self.capacity as nat, pending: self.queue@.map_values(|e: E| e@) }
    }
}

impl<E: Data> Listener<E> {
    #[verifier::type_invariant]
    spec fn bounded(&self) -> bool {
        self.queue@.len() <= self.capacity
    }
}

/// What a subscriber finds when it asks for its next event.
pub enum Received<E> {
    /// The oldest waiting event, now taken from the queue.
    Event(E),
    /// The subscription stands and nothing waits.
    Empty,
    /// The subscription is gone: it was cancelled, or evicted for being slow.
    Closed,
}

/// The hub's view: each subscriber's id with what it is owed.
pub type HubView<E> = Map<u128, ListenerView<E>>;

/// The subscribers after `e` went out: whoever had room has `e` at the end
/// of its queue, whoever was full is gone.
pub open spec fn deliver<E>(h: HubView<E>, e: E) -> HubView<E> {
    Map::new(
        |id: u128| h.contains_key(id) && h[id].pending.len() < h[id].capacity,
        |id: u128| ListenerView { capacity: h[id].capacity, pending: h[id].pending.push(e) },
    )
}

/// The subscribers after the events of `es` went out in order.
pub open spec fn deliver_all<E>(h: HubView<E>, es: Seq<E>) -> HubView<E>
    decreases es.len(),
{
    if es.len() == 0 {
        h
    } else {
        deliver(deliver_all(h, es.drop_last()), es.last())
    }
}

/// Delivering a batch and then one more event is delivering the longer batch.
pub proof fn lemma_deliver_push<E>(h: HubView<E>, es: Seq<E>, e: E)
    ensures
        deliver_all(h, es.push(e)) == deliver(deliver_all(h, es), e),
{
    assert(es.push(e).drop_last() =~= es);
}

/// Delivering two batches in turn is delivering their concatenation.
pub proof fn lemma_deliver_concat<E>(h: HubView<E>, a: Seq<E>, b: Seq<E>)
    ensures
        deliver_all(h, a + b) == deliver_all(deliver_all(h, a), b),
    decreases b.len(),
{
    if b.len() == 0 {
        assert(a + b =~= a);
    } else {
        lemma_deliver_concat(h, a, b.drop_last());
        assert((a + b).drop_last() =~= a + b.drop_last());
    }
}

/// A subscriber that is still there after a batch went out was there
/// before, and has the whole batch at the end of its queue.
pub proof fn lemma_deliver_all_kept<E>(h: HubView<E>, es: Seq<E>, id: u128)
    requires
        deliver_all(h, es).contains_key(id),
    ensures
        h.contains_key(id),
        deliver_all(h, es)[id].capacity == h[id].capacity,
        deliver_all(h, es)[id].pending == h[id].pending + es,
    decreases es.len(),
{
    if es.len() == 0 {
        assert(h[id].pending + es =~= h[id].pending);
    } else {
        lemma_deliver_all_kept(h, es.drop_last(), id);
        assert(h[id].pending + es =~= (h[id].pending + es.drop_last()).push(es.last()));
    }
}

/// The distance from `start` up to `x`, counting past the largest id back to 0.
spec fn offset(x: u128, start: u128) -> int {
    (x as int - start as int) % 0x1_0000_0000_0000_0000_0000_0000_0000_0000int
}

/// Hands out the 128 bits of `uuid::Uuid::new_v4()`, a random identifier.
/// Nothing is claimed of the value: two calls may return anything.
#[verifier::external_body]
fn random_id() -> u128 {
    uuid::Uuid::new_v4().as_u128()
}

/// The set of subscribers.
pub struct Hub<E: Data> {
    listeners: ItemMap<u128, Listener<E>>,
}

impl<E: Data> View for Hub<E> {
    type V = HubView<E::V>;

    closed spec fn view(&self) -> HubView<E::V> {
        self.listeners@
    }
}

impl<E: Data> Hub<E> {
    /// A hub without subscribers.
    pub fn new() -> (r: Self)
        ensures
            r@ == Map::<u128, ListenerView<E::V>>::empty(),
    {
        Hub { listeners: ItemMap::new() }
    }

    /// The number of subscribers.
    pub fn len(&self) -> (n: usize)
        ensures
            n == self@.dom().len(),
            self@.dom().finite(),
    {
        self.listeners.len()
    }

    /// Whether `id` is subscribed.
    pub fn is_subscribed(&self, id: u128) -> (r: bool)
        ensures
            r == self@.contains_key(id),
    {
        self.listeners.contains_key(&id)
    }

    /// An id that no subscriber has: a random one, or, should that be
    /// taken, the next free one after it.
    fn fresh_id(&self) -> (id: u128)
        ensures
            !self@.contains_key(id),
    {
        let n = self.listeners.len();
        let start = random_id();
        let mut cur = start;
        let mut i: usize = 0;
        let ghost mut seen: Set<u128> = Set::empty();
        loop
            invariant
                i <= n,
                n == self@.dom().len(),
                self@.dom().finite(),
                seen.finite(),
                seen.len() == i,
                seen.subset_of(self@.dom()),
                forall|x: u128| seen.contains(x) ==> offset(x, start) < i,
                offset(cur, start) == i,
            ensures
                !self@.contains_key(cur),
            decreases n - i,
        {
            if !self.listeners.contains_key(&cur) {
                break ;
            }
            proof {
                seen = seen.insert(cur);
                vstd::set_lib::lemma_len_subset(seen, self@.dom());
            }
            cur = if cur == u128::MAX {
                0
            } else {
                cur + 1
            };
            i += 1;
        }
        cur
    }

    /// Registers a queue of the given capacity whose first event is `first`,
    /// under an id that no subscriber had.
    pub fn subscribe(&mut self, capacity: usize, first: E) -> (id: u128)
        requires
            capacity > 0,
        ensures
            !old(self)@.contains_key(id),
            final(self)@ == old(self)@.insert(
                id,
                ListenerView { capacity: capacity as nat, pending: seq![first@] },
            ),
    {
        let id = self.fresh_id();
        let mut queue: Vec<E> = Vec::new();
        queue.push(first);
        let listener = Listener { capacity, queue };
        assert(listener@.pending =~= seq![first@]);
        self.listeners.insert(id, listener);
        id
    }

    /// Cancels the subscription `id`. Cancelling an unknown id changes nothing.
    pub fn unsubscribe(&mut self, id: u128)
        ensures
            final(self)@ == old(self)@.remove(id),
    {
        let _ = self.listeners.remove(&id);
    }

    /// Delivers `event` to every subscriber with room in its queue and
    /// evicts every subscriber whose queue is full.
    pub fn broadcast(&mut self, event: &E)
        ensures
            final(self)@ == deliver(old(self)@, event@),
    {
        let ghost before = self@;
        let mut rest = ItemMap::new();
        std::mem::swap(&mut rest, &mut self.listeners);
        let mut kept: ItemMap<u128, Listener<E>> = ItemMap::new();
        let mut n = rest.len();
        while n > 0
            invariant
                n == rest@.dom().len(),
                rest@.dom().finite(),
                forall|id: u128| #[trigger]
                    rest@.contains_key(id) ==> before.contains_key(id) && before[id] == rest@[id],
                forall|id: u128| #[trigger]
                    kept@.contains_key(id) <==> deliver(before, event@).contains_key(id)
                        && !rest@.contains_key(id),
                forall|id: u128| #[trigger]
                    kept@.contains_key(id) ==> kept@[id] == deliver(before, event@)[id],
            decreases n,
        {
            match rest.pop() {
                Some((id, listener)) => {
                    proof {
                        use_type_invariant(&listener);
                    }
                    let Listener { capacity, mut queue } = listener;
                    if queue.len() < capacity {
                        let ghost pending = queue@.map_values(|e: E| e@);
                        queue.push(event.duplicate());
                        let listener = Listener { capacity, queue };
                        assert(listener@.pending =~= pending.push(event@));
                        kept.insert(id, listener);
                    }
                    n = n - 1;
                },
                None => {
                    n = 0;
                },
            }
        }
        proof {
            assert forall|id: u128| !rest@.contains_key(id) by {
                if rest@.contains_key(id) {
                    assert(rest@.dom().contains(id));
                    assert(rest@.dom().len() > 0);
                }
            }
            assert(kept@ =~= deliver(before, event@));
        }
        self.listeners = kept;
    }

    /// Takes the oldest waiting event of subscriber `id` out of its queue.
    pub fn receive(&mut self, id: u128) -> (r: Received<E>)
        ensures
            !old(self)@.contains_key(id) ==> r is Closed && final(self)@ == old(self)@,
            old(self)@.contains_key(id) && old(self)@[id].pending.len() == 0 ==> r is Empty
                && final(self)@ == old(self)@,
            old(self)@.contains_key(id) && old(self)@[id].pending.len() > 0 ==> (r matches Received::Event(
                e,
            ) && e@ == old(self)@[id].pending[0]) && final(self)@ == old(self)@.insert(
                id,
                ListenerView {
                    capacity: old(self)@[id].capacity,
                    pending: old(self)@[id].pending.drop_first(),
                },
            ),
    {
        match self.listeners.remove(&id) {
            None => Received::Closed,
            Some(listener) => {
                proof {
                    use_type_invariant(&listener);
                }
                let ghost was = listener@;
                let Listener { capacity, mut queue } = listener;
                if queue.len() == 0 {
                    let listener = Listener { capacity, queue };
                    assert(listener@.pending =~= was.pending);
                    self.listeners.insert(id, listener);
                    assert(self@ =~= old(self)@);
                    Received::Empty
                } else {
                    let e = queue.remove(0);
                    let listener = Listener { capacity, queue };
                    assert(listener@.pending =~= was.pending.drop_first());
                    self.listeners.insert(id, listener);
                    assert(self@ =~= old(self)@.insert(
                        id,
                        ListenerView { capacity: was.capacity, pending: was.pending.drop_first() },
                    ));
                    Received::Event(e)
                }
            },
        }
    }
}

} // verus!
