//! What the store's operations mean, over the views of its maps.
//!
//! The forward map gives every key its entry, the reverse map gives every
//! owner its keys. The predicates here say how an operation relates the
//! maps before it to the maps after it and to the events it publishes.

use crate::data::Data;
use crate::pubsub::EventView;
use crate::state::{EntryView, State};
use vstd::prelude::*;

verus! {

/// The forward map of a store: each key with its entry.
pub type Images<K, O, V> = Map<K, EntryView<O, V>>;

/// The reverse map of a store: each owner with its keys.
pub type Index<K, O> = Map<O, Set<K>>;

/// The two invariants of the store's maps: an owner is among the owners of
/// a key exactly when the key is among the keys of the owner, and no key
/// has an entry without owners.
pub open spec fn consistent<K, O, V>(images: Images<K, O, V>, pods: Index<K, O>) -> bool {
    &&& forall|k: K, o: O|
        #![trigger images[k].owners.contains(o)]
        #![trigger pods[o].contains(k)]
        (images.contains_key(k) && images[k].owners.contains(o)) <==> (pods.contains_key(o)
            && pods[o].contains(k))
    &&& forall|k: K| #[trigger] images.contains_key(k) ==> images[k].owners != Set::<O>::empty()
}

/// The keys of `owner`: none if the index does not know the owner.
pub open spec fn keys_of<K, O>(pods: Index<K, O>, owner: O) -> Set<K> {
    if pods.contains_key(owner) {
        pods[owner]
    } else {
        Set::empty()
    }
}

/// `order` lists the members of `s`, each once.
pub open spec fn enumerates<A>(order: Seq<A>, s: Set<A>) -> bool {
    order.no_duplicates() && order.to_set() == s
}

/// What subscribers are told of `k` once a release has left `images`.
pub open spec fn outcome<K, O, V>(images: Images<K, O, V>, k: K) -> EventView<K, O, V> {
    if images.contains_key(k) {
        EventView::Modified(k, images[k])
    } else {
        EventView::Removed(k)
    }
}

/// The events of a release that visited the keys in `order` and left `images`.
pub open spec fn told<K, O, V>(images: Images<K, O, V>, order: Seq<K>) -> Seq<EventView<K, O, V>> {
    order.map_values(|k: K| outcome(images, k))
}

/// Key `k` is in `post` what it was in `pre`: absent, or the same entry.
pub open spec fn untouched<K, O, V>(pre: Images<K, O, V>, post: Images<K, O, V>, k: K) -> bool {
    &&& post.contains_key(k) == pre.contains_key(k)
    &&& pre.contains_key(k) ==> post[k] == pre[k]
}

/// `f`, called for key `k` with a state that denotes `a`, may return a
/// state that denotes `b`.
pub open spec fn yields<K: Data, V: Data, F: Fn(&K, V) -> V>(f: F, k: K::V, a: V::V, b: V::V) -> bool {
    exists|ke: K, x: V, y: V| ke@ == k && x@ == a && y@ == b && #[trigger] call_ensures(f, (&ke, x), y)
}

/// `f`, called for key `k`, may return a state that denotes `b`.
pub open spec fn starts<K: Data, V: Data, I: Fn(&K) -> V>(f: I, k: K::V, b: V::V) -> bool {
    exists|ke: K, y: V| ke@ == k && y@ == b && #[trigger] call_ensures(f, (&ke,), y)
}

/// What releasing `owner` does to the entry of one of its keys: the owner
/// leaves; if no owner is left the entry goes, else `f` updates its state.
pub open spec fn released_key<K: Data, O, V: Data, F: Fn(&K, V) -> V>(
    pre: Images<K::V, O, V::V>,
    owner: O,
    f: F,
    post: Images<K::V, O, V::V>,
    k: K::V,
) -> bool {
    if pre.contains_key(k) && pre[k].owners.remove(owner) != Set::<O>::empty() {
        &&& post.contains_key(k)
        &&& post[k].owners == pre[k].owners.remove(owner)
        &&& yields(f, k, pre[k].state, post[k].state)
    } else {
        !post.contains_key(k)
    }
}

/// What releasing `owner` does: the owner leaves the index and the entries
/// of its keys, every other entry stays, and each key of the owner is told
/// of once, in some order, with what became of it.
pub open spec fn released<K: Data, O, V: Data, F: Fn(&K, V) -> V>(
    pre: Images<K::V, O, V::V>,
    pre_pods: Index<K::V, O>,
    owner: O,
    f: F,
    post: Images<K::V, O, V::V>,
    post_pods: Index<K::V, O>,
    events: Seq<EventView<K::V, O, V::V>>,
) -> bool {
    let ks = keys_of(pre_pods, owner);
    &&& post_pods == pre_pods.remove(owner)
    &&& forall|k: K::V| !ks.contains(k) ==> #[trigger] untouched(pre, post, k)
    &&& forall|k: K::V| ks.contains(k) ==> #[trigger] released_key(pre, owner, f, post, k)
    &&& exists|order: Seq<K::V>| #[trigger] enumerates(order, ks) && events == told(post, order)
}

/// What attaching `owner` does to the entry of one of its new keys: a key
/// without entry gets one with `owner` alone and the state `initial`
/// returns; a key with an entry gets `owner` as one more owner and the
/// state `on_add` returns for the old one.
pub open spec fn attached_key<K: Data, O, V: Data, I: Fn(&K) -> V, A: Fn(&K, V) -> V>(
    pre: Images<K::V, O, V::V>,
    owner: O,
    initial: I,
    on_add: A,
    post: Images<K::V, O, V::V>,
    k: K::V,
) -> bool {
    &&& post.contains_key(k)
    &&& if pre.contains_key(k) {
        &&& post[k].owners == pre[k].owners.insert(owner)
        &&& yields(on_add, k, pre[k].state, post[k].state)
    } else {
        &&& post[k].owners == set![owner]
        &&& starts(initial, k, post[k].state)
    }
}

/// What subscribers are told of `k` once an attachment has turned `pre`
/// into `post`.
pub open spec fn greeting<K, O, V>(pre: Images<K, O, V>, post: Images<K, O, V>, k: K) -> EventView<
    K,
    O,
    V,
> {
    if pre.contains_key(k) {
        EventView::Modified(k, post[k])
    } else {
        EventView::Added(k, post[k])
    }
}

/// The events of an attachment that visited the keys in `order`.
pub open spec fn announced<K, O, V>(
    pre: Images<K, O, V>,
    post: Images<K, O, V>,
    order: Seq<K>,
) -> Seq<EventView<K, O, V>> {
    order.map_values(|k: K| greeting(pre, post, k))
}

/// What attaching `owner` to `keys` does: the index maps the owner to the
/// keys, every key of `keys` has the owner in its entry, every other entry
/// stays, and each key is told of once, in some order.
pub open spec fn attached<K: Data, O, V: Data, I: Fn(&K) -> V, A: Fn(&K, V) -> V>(
    pre: Images<K::V, O, V::V>,
    pre_pods: Index<K::V, O>,
    owner: O,
    keys: Set<K::V>,
    initial: I,
    on_add: A,
    post: Images<K::V, O, V::V>,
    post_pods: Index<K::V, O>,
    events: Seq<EventView<K::V, O, V::V>>,
) -> bool {
    &&& post_pods == pre_pods.insert(owner, keys)
    &&& forall|k: K::V| !keys.contains(k) ==> #[trigger] untouched(pre, post, k)
    &&& forall|k: K::V|
        keys.contains(k) ==> #[trigger] attached_key(pre, owner, initial, on_add, post, k)
    &&& exists|order: Seq<K::V>| #[trigger]
        enumerates(order, keys) && events == announced(pre, post, order)
}

/// What `apply` does. Where the owner has exactly `keys` already, nothing
/// changes and nothing is told. Otherwise the owner is released, with
/// `on_add` as the update of the entries it leaves, and then attached to
/// `keys`.
pub open spec fn applied<K: Data, O, V: Data, I: Fn(&K) -> V, A: Fn(&K, V) -> V>(
    pre: Images<K::V, O, V::V>,
    pre_pods: Index<K::V, O>,
    owner: O,
    keys: Set<K::V>,
    initial: I,
    on_add: A,
    post: Images<K::V, O, V::V>,
    post_pods: Index<K::V, O>,
    events: Seq<EventView<K::V, O, V::V>>,
) -> bool {
    if pre_pods.contains_key(owner) && pre_pods[owner] == keys {
        &&& post == pre
        &&& post_pods == pre_pods
        &&& events == Seq::<EventView<K::V, O, V::V>>::empty()
    } else {
        exists|
            mid: Images<K::V, O, V::V>,
            mid_pods: Index<K::V, O>,
            first: Seq<EventView<K::V, O, V::V>>,
            second: Seq<EventView<K::V, O, V::V>>,
        |
            #![trigger
                released(pre, pre_pods, owner, on_add, mid, mid_pods, first),
                attached(mid, mid_pods, owner, keys, initial, on_add, post, post_pods, second)
            ]
            {
                &&& released(pre, pre_pods, owner, on_add, mid, mid_pods, first)
                &&& attached(mid, mid_pods, owner, keys, initial, on_add, post, post_pods, second)
                &&& events == first + second
            }
    }
}

/// What an optional entry denotes.
pub open spec fn entry_view<O: Data, V: Data>(e: Option<State<O, V>>) -> Option<EntryView<O::V, V::V>> {
    match e {
        Some(s) => Some(s@),
        None => None,
    }
}

/// The entry that a store keeps when it is handed `next`: an entry
/// without owners counts as no entry.
pub open spec fn effective<O, V>(next: Option<EntryView<O, V>>) -> Option<EntryView<O, V>> {
    match next {
        Some(e) => if e.owners == Set::<O>::empty() {
            None
        } else {
            Some(e)
        },
        None => None,
    }
}

/// The owners of an optional entry.
pub open spec fn owners_of<O, V>(e: Option<EntryView<O, V>>) -> Set<O> {
    match e {
        Some(e) => e.owners,
        None => Set::empty(),
    }
}

/// The entries after the entry of `k` was set to `next`.
pub open spec fn put_images<K, O, V>(pre: Images<K, O, V>, k: K, next: Option<EntryView<O, V>>) -> Images<
    K,
    O,
    V,
> {
    match effective(next) {
        Some(e) => pre.insert(k, e),
        None => pre.remove(k),
    }
}

/// `k` is the one key of `o`.
pub open spec fn sole_key<K, O>(pods: Index<K, O>, o: O, k: K) -> bool {
    pods.contains_key(o) && pods[o].contains(k) && pods[o].remove(k) == Set::<K>::empty()
}

/// The index after the owners of `k` became `owners`: `k` is a key of
/// exactly these, and an owner that had `k` as its one key and has it no
/// more leaves the index.
pub open spec fn put_pods<K, O>(pre: Index<K, O>, k: K, owners: Set<O>) -> Index<K, O> {
    Map::new(
        |o: O| (pre.contains_key(o) && !sole_key(pre, o, k)) || owners.contains(o),
        |o: O|
            if owners.contains(o) {
                keys_of(pre, o).insert(k)
            } else {
                pre[o].remove(k)
            },
    )
}

/// What subscribers are told when the entry of `k` is set to `next`: that
/// it was added, that it was modified if it differs, that it was removed,
/// or nothing.
pub open spec fn put_events<K, O, V>(
    pre: Images<K, O, V>,
    k: K,
    next: Option<EntryView<O, V>>,
) -> Seq<EventView<K, O, V>> {
    match effective(next) {
        Some(e) => if !pre.contains_key(k) {
            seq![EventView::Added(k, e)]
        } else if pre[k] != e {
            seq![EventView::Modified(k, e)]
        } else {
            Seq::empty()
        },
        None => if pre.contains_key(k) {
            seq![EventView::Removed(k)]
        } else {
            Seq::empty()
        },
    }
}

/// The entries of `images` that have an owner.
pub open spec fn owned_entries<K, O, V>(images: Images<K, O, V>) -> Images<K, O, V> {
    Map::new(
        |k: K| images.contains_key(k) && images[k].owners != Set::<O>::empty(),
        |k: K| images[k],
    )
}

/// The index that belongs to `images`: each owner that occurs in an entry,
/// with the keys in whose entries it occurs.
pub open spec fn index_for<K, O, V>(images: Images<K, O, V>) -> Index<K, O> {
    Map::new(
        |o: O| exists|k: K| images.contains_key(k) && #[trigger] images[k].owners.contains(o),
        |o: O| Set::new(|k: K| images.contains_key(k) && images[k].owners.contains(o)),
    )
}

/// What `apply` makes of the two maps of a store whose entries carry no
/// state: the owner leaves every entry, joins the entries of `keys`, and
/// entries left without owner go.
pub open spec fn reconcile<K, O>(
    images: Images<K, O, ()>,
    pods: Index<K, O>,
    owner: O,
    keys: Set<K>,
) -> (Images<K, O, ()>, Index<K, O>) {
    if pods.contains_key(owner) && pods[owner] == keys {
        (images, pods)
    } else {
        (
            Map::new(
                |k: K|
                    keys.contains(k) || (images.contains_key(k) && images[k].owners.remove(owner)
                        != Set::<O>::empty()),
                |k: K|
                    EntryView {
                        owners: if keys.contains(k) {
                            owners_of(images.get(k)).insert(owner)
                        } else {
                            images[k].owners.remove(owner)
                        },
                        state: (),
                    },
            ),
            pods.insert(owner, keys),
        )
    }
}

/// What a release makes of the entries of a store whose entries carry no
/// state.
pub open spec fn relinquish<K, O>(images: Images<K, O, ()>, owner: O) -> Images<K, O, ()> {
    Map::new(
        |k: K| images.contains_key(k) && images[k].owners.remove(owner) != Set::<O>::empty(),
        |k: K| EntryView { owners: images[k].owners.remove(owner), state: () },
    )
}

} // verus!
