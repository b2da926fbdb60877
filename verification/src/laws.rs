//! What holds of the store's operations, proved from what they mean.

use crate::data::Data;
use crate::hub::{deliver_all, lemma_deliver_all_kept, HubView};
use crate::model::{
    Images, Index, announced, applied, attached, attached_key, consistent, effective, enumerates,
    greeting, index_for, keys_of, outcome, owners_of, put_events, put_images, put_pods, reconcile,
    released, released_key, relinquish, told, untouched,
};
use crate::pubsub::{lemma_replay_concat, lemma_replay_first, replay, replay_one, EventView};
use crate::state::EntryView;
use vstd::prelude::*;

verus! {

/// Setting the entry of one key leaves consistent maps consistent.
pub proof fn lemma_put_consistent<K, O, V>(
    pre: Images<K, O, V>,
    pre_pods: Index<K, O>,
    k: K,
    next: Option<EntryView<O, V>>,
)
    requires
        consistent(pre, pre_pods),
    ensures
        consistent(put_images(pre, k, next), put_pods(pre_pods, k, owners_of(effective(next)))),
{
    let post = put_images(pre, k, next);
    let owners = owners_of(effective(next));
    let post_pods = put_pods(pre_pods, k, owners);
    assert forall|x: K, o: O|
        #![trigger post[x].owners.contains(o)]
        #![trigger post_pods[o].contains(x)]
        (post.contains_key(x) && post[x].owners.contains(o)) <==> (post_pods.contains_key(o)
            && post_pods[o].contains(x)) by {
        assert((pre.contains_key(x) && pre[x].owners.contains(o)) <==> (pre_pods.contains_key(o)
            && pre_pods[o].contains(x)));
    }
}

/// Entries whose every entry has an owner are consistent with their index.
pub proof fn lemma_index_for_consistent<K, O, V>(images: Images<K, O, V>)
    requires
        forall|k: K| #[trigger] images.contains_key(k) ==> images[k].owners != Set::<O>::empty(),
    ensures
        consistent(images, index_for(images)),
{
}

/// Adding an entry under a new key adds that key to the index of each of
/// its owners.
pub proof fn lemma_index_for_put<K, O, V>(images: Images<K, O, V>, k: K, e: EntryView<O, V>)
    requires
        !images.contains_key(k),
    ensures
        put_pods(index_for(images), k, owners_of(effective(Some(e)))) == index_for(
            put_images(images, k, Some(e)),
        ),
{
    let pre = index_for(images);
    let post = put_images(images, k, Some(e));
    let a = put_pods(pre, k, owners_of(effective(Some(e))));
    let b = index_for(post);
    if e.owners == Set::<O>::empty() {
        assert(post =~= images);
        assert forall|o: O| #[trigger] pre.contains_key(o) implies pre[o].remove(k) == pre[o] by {
            assert(pre[o].remove(k) =~= pre[o]);
        }
        assert(a =~= b);
    } else {
        assert forall|o: O| a.contains_key(o) <==> b.contains_key(o) by {
            if a.contains_key(o) {
                if e.owners.contains(o) {
                    assert(post.contains_key(k) && post[k].owners.contains(o));
                } else {
                    let x = choose|x: K| images.contains_key(x) && #[trigger] images[x].owners.contains(o);
                    assert(post.contains_key(x) && post[x].owners.contains(o));
                }
            }
            if b.contains_key(o) {
                let x = choose|x: K| post.contains_key(x) && #[trigger] post[x].owners.contains(o);
                if x != k {
                    assert(images.contains_key(x) && images[x].owners.contains(o));
                }
            }
        }
        assert forall|o: O| a.contains_key(o) implies a[o] == b[o] by {
            assert(a[o] =~= b[o]);
        }
        assert(a =~= b);
    }
}

/// A release leaves consistent maps consistent.
pub proof fn lemma_released_consistent<K: Data, O, V: Data, F: Fn(&K, V) -> V>(
    pre: Images<K::V, O, V::V>,
    pre_pods: Index<K::V, O>,
    owner: O,
    f: F,
    post: Images<K::V, O, V::V>,
    post_pods: Index<K::V, O>,
)
    requires
        consistent(pre, pre_pods),
        post_pods == pre_pods.remove(owner),
        forall|k: K::V| !keys_of(pre_pods, owner).contains(k) ==> #[trigger] untouched(pre, post, k),
        forall|k: K::V|
            keys_of(pre_pods, owner).contains(k) ==> #[trigger] released_key(pre, owner, f, post, k),
    ensures
        consistent(post, post_pods),
        forall|k: K::V| post.contains_key(k) ==> !(#[trigger] post[k]).owners.contains(owner),
{
    let ks = keys_of(pre_pods, owner);
    assert forall|k: K::V, o: O|
        #![trigger post[k].owners.contains(o)]
        #![trigger post_pods[o].contains(k)]
        (post.contains_key(k) && post[k].owners.contains(o)) <==> (post_pods.contains_key(o)
            && post_pods[o].contains(k)) by {
        if ks.contains(k) {
            assert(released_key(pre, owner, f, post, k));
            assert(pre_pods[owner].contains(k));
            assert(pre.contains_key(k) && pre[k].owners.contains(owner));
            if o != owner {
                assert(pre[k].owners.contains(o) <==> pre_pods.contains_key(o) && pre_pods[o].contains(
                    k,
                ));
                if pre[k].owners.contains(o) {
                    assert(pre[k].owners.remove(owner).contains(o));
                }
            }
        } else {
            assert(untouched(pre, post, k));
            assert((pre.contains_key(k) && pre[k].owners.contains(o)) <==> (pre_pods.contains_key(o)
                && pre_pods[o].contains(k)));
            assert((pre.contains_key(k) && pre[k].owners.contains(owner)) <==> (
            pre_pods.contains_key(owner) && pre_pods[owner].contains(k)));
        }
    }
    assert forall|k: K::V| #[trigger] post.contains_key(k) implies post[k].owners != Set::<
        O,
    >::empty() by {
        if ks.contains(k) {
            assert(released_key(pre, owner, f, post, k));
        } else {
            assert(untouched(pre, post, k));
            assert(pre.contains_key(k));
        }
    }
    assert forall|k: K::V| post.contains_key(k) implies !(#[trigger] post[k]).owners.contains(
        owner,
    ) by {
        if post[k].owners.contains(owner) {
            assert(post_pods.contains_key(owner) && post_pods[owner].contains(k));
        }
    }
}

/// Releasing an owner without keys changes no entry and tells nothing.
pub proof fn lemma_released_nothing<K: Data, O, V: Data, F: Fn(&K, V) -> V>(
    pre: Images<K::V, O, V::V>,
    pre_pods: Index<K::V, O>,
    owner: O,
    f: F,
    post: Images<K::V, O, V::V>,
    post_pods: Index<K::V, O>,
    events: Seq<EventView<K::V, O, V::V>>,
)
    requires
        released(pre, pre_pods, owner, f, post, post_pods, events),
        keys_of(pre_pods, owner) == Set::<K::V>::empty(),
    ensures
        post == pre,
        events == Seq::<EventView<K::V, O, V::V>>::empty(),
{
    let ks = keys_of(pre_pods, owner);
    let order = choose|order: Seq<K::V>| #[trigger] enumerates(order, ks) && events == told(post, order);
    if order.len() > 0 {
        assert(order.to_set().contains(order[0]));
    }
    assert(events =~= Seq::empty());
    assert forall|k: K::V| #[trigger] post.contains_key(k) == pre.contains_key(k) by {
        assert(!ks.contains(k));
        assert(untouched(pre, post, k));
    }
    assert forall|k: K::V| #[trigger] pre.contains_key(k) implies post[k] == pre[k] by {
        assert(!ks.contains(k));
        assert(untouched(pre, post, k));
    }
    assert(post =~= pre);
}

/// An attachment of an owner that the index did not know leaves consistent
/// maps consistent.
pub proof fn lemma_attached_consistent<K: Data, O, V: Data, I: Fn(&K) -> V, A: Fn(&K, V) -> V>(
    pre: Images<K::V, O, V::V>,
    pre_pods: Index<K::V, O>,
    owner: O,
    keys: Set<K::V>,
    initial: I,
    on_add: A,
    post: Images<K::V, O, V::V>,
    post_pods: Index<K::V, O>,
)
    requires
        consistent(pre, pre_pods),
        !pre_pods.contains_key(owner),
        post_pods == pre_pods.insert(owner, keys),
        forall|k: K::V| !keys.contains(k) ==> #[trigger] untouched(pre, post, k),
        forall|k: K::V|
            keys.contains(k) ==> #[trigger] attached_key(pre, owner, initial, on_add, post, k),
    ensures
        consistent(post, post_pods),
{
    assert forall|k: K::V, o: O|
        #![trigger post[k].owners.contains(o)]
        #![trigger post_pods[o].contains(k)]
        (post.contains_key(k) && post[k].owners.contains(o)) <==> (post_pods.contains_key(o)
            && post_pods[o].contains(k)) by {
        assert((pre.contains_key(k) && pre[k].owners.contains(o)) <==> (pre_pods.contains_key(o)
            && pre_pods[o].contains(k)));
        assert((pre.contains_key(k) && pre[k].owners.contains(owner)) <==> (pre_pods.contains_key(
            owner,
        ) && pre_pods[owner].contains(k)));
        if keys.contains(k) {
            assert(attached_key(pre, owner, initial, on_add, post, k));
        } else {
            assert(untouched(pre, post, k));
        }
    }
    assert forall|k: K::V| #[trigger] post.contains_key(k) implies post[k].owners != Set::<
        O,
    >::empty() by {
        if keys.contains(k) {
            assert(attached_key(pre, owner, initial, on_add, post, k));
            assert(post[k].owners.contains(owner));
        } else {
            assert(untouched(pre, post, k));
            assert(pre.contains_key(k));
        }
    }
}

/// Replaying what `put` publishes turns the entries before into those after.
pub proof fn lemma_put_replays<K, O, V>(pre: Images<K, O, V>, k: K, next: Option<EntryView<O, V>>)
    ensures
        replay(pre, put_events(pre, k, next)) == put_images(pre, k, next),
{
    let evs = put_events(pre, k, next);
    if evs.len() == 0 {
        assert(put_images(pre, k, next) =~= pre);
    } else {
        assert(evs.drop_last() =~= Seq::empty());
        assert(replay(pre, evs.drop_last()) == pre);
    }
}

/// A release publishes no `Restart`.
pub proof fn lemma_released_no_restart<K: Data, O, V: Data, F: Fn(&K, V) -> V>(
    pre: Images<K::V, O, V::V>,
    pre_pods: Index<K::V, O>,
    owner: O,
    f: F,
    post: Images<K::V, O, V::V>,
    post_pods: Index<K::V, O>,
    events: Seq<EventView<K::V, O, V::V>>,
)
    requires
        released(pre, pre_pods, owner, f, post, post_pods, events),
    ensures
        forall|i: int| 0 <= i < events.len() ==> !(#[trigger] events[i] is Restart),
{
    let order = choose|order: Seq<K::V>| #[trigger]
        enumerates(order, keys_of(pre_pods, owner)) && events == told(post, order);
    assert forall|i: int| 0 <= i < events.len() implies !(#[trigger] events[i] is Restart) by {
        assert(events[i] == outcome(post, order[i]));
    }
}

/// An `apply` publishes no `Restart`.
pub proof fn lemma_applied_no_restart<K: Data, O, V: Data, I: Fn(&K) -> V, A: Fn(&K, V) -> V>(
    pre: Images<K::V, O, V::V>,
    pre_pods: Index<K::V, O>,
    owner: O,
    keys: Set<K::V>,
    initial: I,
    on_add: A,
    post: Images<K::V, O, V::V>,
    post_pods: Index<K::V, O>,
    events: Seq<EventView<K::V, O, V::V>>,
)
    requires
        applied(pre, pre_pods, owner, keys, initial, on_add, post, post_pods, events),
    ensures
        forall|i: int| 0 <= i < events.len() ==> !(#[trigger] events[i] is Restart),
{
    if !(pre_pods.contains_key(owner) && pre_pods[owner] == keys) {
        let (mid, mid_pods, first, second) = choose|
            mid: Images<K::V, O, V::V>,
            mid_pods: Index<K::V, O>,
            first: Seq<EventView<K::V, O, V::V>>,
            second: Seq<EventView<K::V, O, V::V>>,
        |
            #![trigger
                released(pre, pre_pods, owner, on_add, mid, mid_pods, first),
                attached(mid, mid_pods, owner, keys, initial, on_add, post, post_pods, second)
            ]
            {
                &&& released(pre, pre_pods, owner, on_add, mid, mid_pods, first)
                &&& attached(mid, mid_pods, owner, keys, initial, on_add, post, post_pods, second)
                &&& events == first + second
            };
        lemma_released_no_restart(pre, pre_pods, owner, on_add, mid, mid_pods, first);
        let order = choose|order: Seq<K::V>| #[trigger]
            enumerates(order, keys) && second == announced(mid, post, order);
        assert forall|i: int| 0 <= i < events.len() implies !(#[trigger] events[i] is Restart) by {
            if i >= first.len() {
                assert(events[i] == second[i - first.len()]);
                assert(second[i - first.len()] == greeting(mid, post, order[i - first.len()]));
            } else {
                assert(events[i] == first[i]);
            }
        }
    }
}

/// Setting one entry publishes no `Restart`.
pub proof fn lemma_put_no_restart<K, O, V>(pre: Images<K, O, V>, k: K, next: Option<EntryView<O, V>>)
    ensures
        forall|i: int|
            0 <= i < put_events(pre, k, next).len() ==> !(#[trigger] put_events(pre, k, next)[i] is Restart),
{
}

/// Applying the same keys for the same owner a second time changes
/// nothing and publishes nothing.
pub proof fn lemma_apply_idempotent<
    K: Data,
    O,
    V: Data,
    I: Fn(&K) -> V,
    A: Fn(&K, V) -> V,
    I2: Fn(&K) -> V,
    A2: Fn(&K, V) -> V,
>(
    pre: Images<K::V, O, V::V>,
    pre_pods: Index<K::V, O>,
    owner: O,
    keys: Set<K::V>,
    initial: I,
    on_add: A,
    mid: Images<K::V, O, V::V>,
    mid_pods: Index<K::V, O>,
    first: Seq<EventView<K::V, O, V::V>>,
    initial2: I2,
    on_add2: A2,
    post: Images<K::V, O, V::V>,
    post_pods: Index<K::V, O>,
    second: Seq<EventView<K::V, O, V::V>>,
)
    requires
        applied(pre, pre_pods, owner, keys, initial, on_add, mid, mid_pods, first),
        applied(mid, mid_pods, owner, keys, initial2, on_add2, post, post_pods, second),
    ensures
        second == Seq::<EventView<K::V, O, V::V>>::empty(),
        post == mid,
        post_pods == mid_pods,
{
    assert(mid_pods.contains_key(owner) && mid_pods[owner] == keys);
}

/// In a store whose entries carry no state, a release is a function of the
/// maps before it.
pub proof fn lemma_released_unit<K: Data, O, F: Fn(&K, ()) -> ()>(
    pre: Images<K::V, O, ()>,
    pre_pods: Index<K::V, O>,
    owner: O,
    f: F,
    post: Images<K::V, O, ()>,
    post_pods: Index<K::V, O>,
    events: Seq<EventView<K::V, O, ()>>,
)
    requires
        consistent(pre, pre_pods),
        released::<K, O, (), F>(pre, pre_pods, owner, f, post, post_pods, events),
    ensures
        post == relinquish(pre, owner),
        post_pods == pre_pods.remove(owner),
{
    let ks = keys_of(pre_pods, owner);
    let goal = relinquish(pre, owner);
    assert forall|k: K::V| post.contains_key(k) <==> goal.contains_key(k) by {
        assert((pre.contains_key(k) && pre[k].owners.contains(owner)) <==> (pre_pods.contains_key(
            owner,
        ) && pre_pods[owner].contains(k)));
        if ks.contains(k) {
            assert(released_key::<K, O, (), F>(pre, owner, f, post, k));
        } else {
            assert(untouched(pre, post, k));
            if pre.contains_key(k) {
                assert(pre[k].owners.remove(owner) =~= pre[k].owners);
            }
        }
    }
    assert forall|k: K::V| post.contains_key(k) implies post[k] == goal[k] by {
        assert((pre.contains_key(k) && pre[k].owners.contains(owner)) <==> (pre_pods.contains_key(
            owner,
        ) && pre_pods[owner].contains(k)));
        if ks.contains(k) {
            assert(released_key::<K, O, (), F>(pre, owner, f, post, k));
        } else {
            assert(untouched(pre, post, k));
            assert(pre[k].owners.remove(owner) =~= pre[k].owners);
        }
    }
    assert(post =~= goal);
}

/// In a store whose entries carry no state, `apply` is a function of the
/// maps before it.
pub proof fn lemma_applied_unit<K: Data, O, I: Fn(&K) -> (), A: Fn(&K, ()) -> ()>(
    pre: Images<K::V, O, ()>,
    pre_pods: Index<K::V, O>,
    owner: O,
    keys: Set<K::V>,
    initial: I,
    on_add: A,
    post: Images<K::V, O, ()>,
    post_pods: Index<K::V, O>,
    events: Seq<EventView<K::V, O, ()>>,
)
    requires
        consistent(pre, pre_pods),
        applied::<K, O, (), I, A>(pre, pre_pods, owner, keys, initial, on_add, post, post_pods, events),
    ensures
        (post, post_pods) == reconcile(pre, pre_pods, owner, keys),
{
    if !(pre_pods.contains_key(owner) && pre_pods[owner] == keys) {
        let (mid, mid_pods, first, second) = choose|
            mid: Images<K::V, O, ()>,
            mid_pods: Index<K::V, O>,
            first: Seq<EventView<K::V, O, ()>>,
            second: Seq<EventView<K::V, O, ()>>,
        |
            #![trigger
                released::<K, O, (), A>(pre, pre_pods, owner, on_add, mid, mid_pods, first),
                attached::<K, O, (), I, A>(mid, mid_pods, owner, keys, initial, on_add, post, post_pods, second)
            ]
            {
                &&& released::<K, O, (), A>(pre, pre_pods, owner, on_add, mid, mid_pods, first)
                &&& attached::<K, O, (), I, A>(
                    mid,
                    mid_pods,
                    owner,
                    keys,
                    initial,
                    on_add,
                    post,
                    post_pods,
                    second,
                )
                &&& events == first + second
            };
        lemma_released_unit::<K, O, A>(pre, pre_pods, owner, on_add, mid, mid_pods, first);
        let goal = reconcile(pre, pre_pods, owner, keys).0;
        assert forall|k: K::V| post.contains_key(k) <==> goal.contains_key(k) by {
            if keys.contains(k) {
                assert(attached_key::<K, O, (), I, A>(mid, owner, initial, on_add, post, k));
            } else {
                assert(untouched(mid, post, k));
            }
        }
        assert forall|k: K::V| post.contains_key(k) implies post[k] == goal[k] by {
            assert(post[k].state == goal[k].state);
            assert(goal.contains_key(k));
            if keys.contains(k) {
                assert(attached_key::<K, O, (), I, A>(mid, owner, initial, on_add, post, k));
                assert(mid.contains_key(k) <==> relinquish(pre, owner).contains_key(k));
                if pre.contains_key(k) {
                    if mid.contains_key(k) {
                        assert(post[k].owners =~= pre[k].owners.insert(owner));
                    } else {
                        assert(pre[k].owners.remove(owner) == Set::<O>::empty());
                        assert(pre[k].owners.insert(owner) =~= set![owner]);
                        assert(pre[k].owners != Set::<O>::empty());
                        assert(post[k].owners =~= pre[k].owners.insert(owner));
                    }
                } else {
                    assert(post[k].owners =~= Set::<O>::empty().insert(owner));
                }
                assert(post[k].owners == goal[k].owners);
                assert(post[k] =~= goal[k]);
            } else {
                assert(untouched(mid, post, k));
                assert(post[k] == mid[k]);
            }
        }
        assert(post =~= goal);
        assert(post_pods =~= pre_pods.insert(owner, keys));
    }
}

/// A subscriber's queue is a sound log. Let a reader hold `held`, and let
/// replaying what waits for it give the store's entries. Then, after a
/// batch of events that turns the entries into `after` went out and left
/// the reader subscribed, replaying what waits for it gives `after`.
pub proof fn lemma_subscriber_sound<K, O, V>(
    hub: HubView<EventView<K, O, V>>,
    id: u128,
    held: Images<K, O, V>,
    before: Images<K, O, V>,
    events: Seq<EventView<K, O, V>>,
    after: Images<K, O, V>,
)
    requires
        hub.contains_key(id),
        replay(held, hub[id].pending) == before,
        replay(before, events) == after,
        deliver_all(hub, events).contains_key(id),
    ensures
        replay(held, deliver_all(hub, events)[id].pending) == after,
{
    lemma_deliver_all_kept(hub, events, id);
    lemma_replay_concat(held, hub[id].pending, events);
}

/// Taking an event out of the queue and replaying it keeps the queue a
/// sound log: what the reader then holds, replayed with what still waits,
/// gives what it gave before.
pub proof fn lemma_reader_step<K, O, V>(held: Images<K, O, V>, pending: Seq<EventView<K, O, V>>)
    requires
        pending.len() > 0,
    ensures
        replay(replay_one(held, pending[0]), pending.drop_first()) == replay(held, pending),
{
    lemma_replay_first(held, pending);
}

/// A new subscriber's queue is a sound log: replaying it from nothing
/// gives the entries of the store at the time of subscription.
pub proof fn lemma_fresh_subscriber<K, O, V>(images: Images<K, O, V>)
    ensures
        replay(Map::empty(), seq![EventView::Restart(images)]) == images,
{
    let first = seq![EventView::Restart(images)];
    assert(first.drop_last() =~= Seq::empty());
    assert(replay(Map::<K, EntryView<O, V>>::empty(), first.drop_last()) == Map::<
        K,
        EntryView<O, V>,
    >::empty());
}

} // verus!
