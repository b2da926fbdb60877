use bommer::api::{ImageRef, PodRef};
use bommer::data::Data;
use bommer::hub::Received;
use bommer::item_map::ItemMap;
use bommer::item_set::ItemSet;
use bommer::pubsub::Event;
use bommer::state::State;
use bommer::store::Inner;

type Store = Inner<ImageRef, PodRef, u128>;

fn image(id: &str) -> ImageRef {
    ImageRef(id.to_string())
}

fn pod(name: &str) -> PodRef {
    PodRef {
        namespace: "ns".to_string(),
        name: name.to_string(),
    }
}

fn pods(names: &[&str]) -> ItemSet<PodRef> {
    let mut set = ItemSet::new();
    for name in names {
        set.insert(pod(name));
    }
    set
}

fn entry(names: &[&str], state: u128) -> State<PodRef, u128> {
    State {
        owners: pods(names),
        state,
    }
}

fn next(store: &mut Store, id: u128) -> Option<Event<ImageRef, PodRef, u128>> {
    match store.receive(id) {
        Received::Event(e) => Some(e),
        _ => None,
    }
}

fn fresh() -> (Store, u128) {
    let mut store = Store::new();
    let id = store.subscribe(16);
    assert!(matches!(next(&mut store, id), Some(Event::Restart(_))));
    (store, id)
}

#[test]
fn mutate_from_nothing_adds() {
    let (mut store, id) = fresh();
    store.mutate(image("a"), |cur| {
        assert!(cur.is_none());
        Some(entry(&["pod-1", "pod-2"], 5))
    });
    match next(&mut store, id) {
        Some(Event::Added(k, s)) => {
            assert_eq!(k, image("a"));
            assert_eq!(s.state, 5);
        }
        _ => panic!("expected an addition"),
    }
    let index = store.get_index();
    assert_eq!(index.len(), 2);
    assert!(index.get(&pod("pod-1")).unwrap().contains(&image("a")));
    assert!(index.get(&pod("pod-2")).unwrap().contains(&image("a")));
}

#[test]
fn mutate_to_a_different_entry_modifies() {
    let (mut store, id) = fresh();
    store.put(image("a"), Some(entry(&["pod-1"], 1)));
    next(&mut store, id);
    store.mutate(image("a"), |cur| {
        cur.map(|mut e| {
            e.state = 2;
            e
        })
    });
    match next(&mut store, id) {
        Some(Event::Modified(_, s)) => assert_eq!(s.state, 2),
        _ => panic!("expected a modification"),
    }
}

#[test]
fn mutate_to_the_same_entry_is_silent() {
    let (mut store, id) = fresh();
    store.put(image("a"), Some(entry(&["pod-1"], 1)));
    next(&mut store, id);
    store.mutate(image("a"), |cur| cur);
    assert!(next(&mut store, id).is_none());
}

#[test]
fn mutate_to_nothing_removes_and_wipes_ownership() {
    let (mut store, id) = fresh();
    store.put(image("a"), Some(entry(&["pod-1", "pod-2"], 1)));
    store.put(image("b"), Some(entry(&["pod-1"], 1)));
    next(&mut store, id);
    next(&mut store, id);
    store.mutate(image("a"), |_| None);
    assert!(matches!(next(&mut store, id), Some(Event::Removed(k)) if k == image("a")));
    assert!(!store.get_state().contains_key(&image("a")));
    let index = store.get_index();
    assert!(!index.get(&pod("pod-1")).unwrap().contains(&image("a")));
    assert!(index.get(&pod("pod-1")).unwrap().contains(&image("b")));
    // an owner whose one key went leaves the index
    assert!(index.get(&pod("pod-2")).is_none());
}

#[test]
fn mutate_from_nothing_to_nothing_is_silent() {
    let (mut store, id) = fresh();
    store.mutate(image("a"), |_| None);
    assert!(next(&mut store, id).is_none());
    assert_eq!(store.get_state().len(), 0);
}

#[test]
fn entry_without_owners_counts_as_none() {
    let (mut store, id) = fresh();
    store.put(image("a"), Some(entry(&[], 1)));
    assert!(next(&mut store, id).is_none());
    store.put(image("a"), Some(entry(&["pod-1"], 1)));
    next(&mut store, id);
    store.put(image("a"), Some(entry(&[], 1)));
    assert!(matches!(next(&mut store, id), Some(Event::Removed(_))));
    assert_eq!(store.get_state().len(), 0);
}

#[test]
fn changed_owners_move_the_key_in_the_index() {
    let (mut store, _) = fresh();
    store.put(image("a"), Some(entry(&["pod-1", "pod-2"], 1)));
    store.put(image("a"), Some(entry(&["pod-2", "pod-3"], 1)));
    let index = store.get_index();
    assert!(index.get(&pod("pod-1")).is_none());
    assert!(index.get(&pod("pod-2")).unwrap().contains(&image("a")));
    assert!(index.get(&pod("pod-3")).unwrap().contains(&image("a")));
    // a later delete of the old owner must leave the entry alone
    store.delete(&pod("pod-1"), |_, v| v);
    assert!(store.entry(&image("a")).unwrap().owners.same(&pods(&["pod-2", "pod-3"])));
}

#[test]
fn set_state_rebuilds_the_index() {
    let (mut store, id) = fresh();
    store.put(image("old"), Some(entry(&["pod-9"], 1)));
    next(&mut store, id);
    let mut images = ItemMap::new();
    images.insert(image("a"), entry(&["pod-1", "pod-2"], 1));
    images.insert(image("b"), entry(&["pod-2"], 2));
    images.insert(image("c"), entry(&[], 3));
    store.set_state(&images);
    match next(&mut store, id) {
        Some(Event::Restart(s)) => {
            assert_eq!(s.len(), 2);
            assert!(s.same(&store.get_state()));
        }
        _ => panic!("expected a restart"),
    }
    assert!(next(&mut store, id).is_none());
    let index = store.get_index();
    assert_eq!(index.len(), 2);
    assert_eq!(index.get(&pod("pod-2")).unwrap().len(), 2);
    assert_eq!(index.get(&pod("pod-1")).unwrap().len(), 1);
}
