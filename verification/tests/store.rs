use bommer::api::{ImageRef, PodRef};
use bommer::data::Data;
use bommer::hub::Received;
use bommer::item_map::ItemMap;
use bommer::item_set::ItemSet;
use bommer::pubsub::{absorb, Event};
use bommer::state::State;
use bommer::store::{is_consistent, Inner};

type Store = Inner<ImageRef, PodRef, ()>;

fn image(id: &str) -> ImageRef {
    ImageRef(id.to_string())
}

fn pod(name: &str) -> PodRef {
    PodRef {
        namespace: "default".to_string(),
        name: name.to_string(),
    }
}

fn images(ids: &[&str]) -> ItemSet<ImageRef> {
    let mut set = ItemSet::new();
    for id in ids {
        set.insert(image(id));
    }
    set
}

fn pods(names: &[&str]) -> ItemSet<PodRef> {
    let mut set = ItemSet::new();
    for name in names {
        set.insert(pod(name));
    }
    set
}

fn apply(store: &mut Store, owner: &str, keys: &[&str]) {
    store.apply(pod(owner), images(keys), |_| (), |_, v| v);
}

fn delete(store: &mut Store, owner: &str) {
    store.delete(&pod(owner), |_, v| v);
}

/// Takes everything that waits for the subscriber.
fn drain(store: &mut Store, id: u128) -> Vec<Event<ImageRef, PodRef, ()>> {
    let mut events = Vec::new();
    loop {
        match store.receive(id) {
            Received::Event(e) => events.push(e),
            Received::Empty => return events,
            Received::Closed => panic!("subscription closed"),
        }
    }
}

/// A subscriber that has taken its initial restart already.
fn subscriber(store: &mut Store) -> u128 {
    let id = store.subscribe(16);
    let first = drain(store, id);
    assert_eq!(first.len(), 1);
    assert!(matches!(first[0], Event::Restart(_)));
    id
}

fn is_added(e: &Event<ImageRef, PodRef, ()>, key: &str, owners: &[&str]) -> bool {
    match e {
        Event::Added(k, s) => k.same(&image(key)) && s.owners.same(&pods(owners)),
        _ => false,
    }
}

fn is_modified(e: &Event<ImageRef, PodRef, ()>, key: &str, owners: &[&str]) -> bool {
    match e {
        Event::Modified(k, s) => k.same(&image(key)) && s.owners.same(&pods(owners)),
        _ => false,
    }
}

fn is_removed(e: &Event<ImageRef, PodRef, ()>, key: &str) -> bool {
    match e {
        Event::Removed(k) => k.same(&image(key)),
        _ => false,
    }
}

/// Whether an owner is among the owners of a key exactly when the key is
/// among the keys of the owner, and no entry is without owners.
fn invariants_hold(store: &Store) -> bool {
    let images = store.get_state();
    let index = store.get_index();
    if !is_consistent(&images, &index) {
        return false;
    }
    for i in 0..images.len() {
        let key = images.key_at(i);
        let entry = images.value_at(i);
        if entry.owners.is_empty() {
            return false;
        }
        for j in 0..entry.owners.len() {
            match index.get(entry.owners.item_at(j)) {
                Some(keys) if keys.contains(key) => {}
                _ => return false,
            }
        }
    }
    for i in 0..index.len() {
        let owner = index.key_at(i);
        let keys = index.value_at(i);
        for j in 0..keys.len() {
            match images.get(keys.item_at(j)) {
                Some(entry) if entry.owners.contains(owner) => {}
                _ => return false,
            }
        }
    }
    true
}

/// What a reader holds after the events, having held `state` before.
fn replay(
    mut state: ItemMap<ImageRef, State<PodRef, ()>>,
    events: &[Event<ImageRef, PodRef, ()>],
) -> ItemMap<ImageRef, State<PodRef, ()>> {
    for e in events {
        absorb(&mut state, e.duplicate());
    }
    state
}

#[test]
fn first_apply_adds_the_image() {
    let mut store = Store::new();
    let id = subscriber(&mut store);
    apply(&mut store, "pod-1", &["I1"]);
    let events = drain(&mut store, id);
    assert_eq!(events.len(), 1);
    assert!(is_added(&events[0], "I1", &["pod-1"]));
}

#[test]
fn second_owner_modifies_and_adds() {
    let mut store = Store::new();
    let id = subscriber(&mut store);
    apply(&mut store, "pod-1", &["I1"]);
    drain(&mut store, id);
    apply(&mut store, "pod-2", &["I1", "I2"]);
    let events = drain(&mut store, id);
    assert_eq!(events.len(), 2);
    assert!(is_modified(&events[0], "I1", &["pod-1", "pod-2"]));
    assert!(is_added(&events[1], "I2", &["pod-2"]));
}

#[test]
fn delete_of_one_owner_modifies_shared_image() {
    let mut store = Store::new();
    let id = subscriber(&mut store);
    apply(&mut store, "pod-1", &["I1"]);
    apply(&mut store, "pod-2", &["I1", "I2"]);
    drain(&mut store, id);
    delete(&mut store, "pod-1");
    let events = drain(&mut store, id);
    assert_eq!(events.len(), 1);
    assert!(is_modified(&events[0], "I1", &["pod-2"]));
}

#[test]
fn delete_of_last_owner_removes_images() {
    let mut store = Store::new();
    let id = subscriber(&mut store);
    apply(&mut store, "pod-1", &["I1"]);
    apply(&mut store, "pod-2", &["I1", "I2"]);
    delete(&mut store, "pod-1");
    drain(&mut store, id);
    delete(&mut store, "pod-2");
    let events = drain(&mut store, id);
    assert_eq!(events.len(), 2);
    assert!(events.iter().any(|e| is_removed(e, "I1")));
    assert!(events.iter().any(|e| is_removed(e, "I2")));
    assert_eq!(store.get_state().len(), 0);
    assert_eq!(store.get_index().len(), 0);
}

#[test]
fn reset_publishes_a_single_restart() {
    let mut store = Store::new();
    let id = subscriber(&mut store);
    apply(&mut store, "pod-1", &["I1"]);
    drain(&mut store, id);

    let mut new_images = ItemMap::new();
    new_images.insert(
        image("Ix"),
        State {
            owners: pods(&["Py"]),
            state: (),
        },
    );
    let mut new_index = ItemMap::new();
    new_index.insert(pod("Py"), images(&["Ix"]));
    assert!(is_consistent(&new_images, &new_index));
    store.reset(new_images.duplicate(), new_index);

    let events = drain(&mut store, id);
    assert_eq!(events.len(), 1);
    match &events[0] {
        Event::Restart(snapshot) => assert!(snapshot.same(&new_images)),
        _ => panic!("expected a restart"),
    }
    assert!(store.get_state().same(&new_images));
    assert!(invariants_hold(&store));
}

#[test]
fn apply_twice_is_silent_the_second_time() {
    let mut store = Store::new();
    let id = subscriber(&mut store);
    apply(&mut store, "pod-1", &["I1", "I2"]);
    assert_eq!(drain(&mut store, id).len(), 2);
    let before = store.get_state();
    apply(&mut store, "pod-1", &["I2", "I1"]);
    assert_eq!(drain(&mut store, id).len(), 0);
    assert!(store.get_state().same(&before));
}

#[test]
fn delete_of_unknown_owner_changes_nothing() {
    let mut store = Store::new();
    let id = subscriber(&mut store);
    apply(&mut store, "pod-1", &["I1"]);
    drain(&mut store, id);
    let before = store.get_state();
    let index = store.get_index();
    delete(&mut store, "pod-9");
    assert_eq!(drain(&mut store, id).len(), 0);
    assert!(store.get_state().same(&before));
    assert!(store.get_index().same(&index));
}

#[test]
fn apply_of_no_keys_releases_like_delete() {
    let mut store = Store::new();
    let id = subscriber(&mut store);
    apply(&mut store, "pod-1", &["I1"]);
    apply(&mut store, "pod-2", &["I1"]);
    drain(&mut store, id);
    apply(&mut store, "pod-1", &[]);
    let events = drain(&mut store, id);
    assert_eq!(events.len(), 1);
    assert!(is_modified(&events[0], "I1", &["pod-2"]));
    assert!(invariants_hold(&store));
}

#[test]
fn changed_keys_release_before_they_attach() {
    let mut store = Store::new();
    let id = subscriber(&mut store);
    apply(&mut store, "pod-1", &["I1", "I2"]);
    drain(&mut store, id);
    apply(&mut store, "pod-1", &["I2", "I3"]);
    let events = drain(&mut store, id);
    assert_eq!(events.len(), 4);
    assert!(is_removed(&events[0], "I1"));
    assert!(is_removed(&events[1], "I2"));
    assert!(is_added(&events[2], "I2", &["pod-1"]));
    assert!(is_added(&events[3], "I3", &["pod-1"]));
    let state = store.get_state();
    assert_eq!(state.len(), 2);
    assert!(!state.contains_key(&image("I1")));
    assert!(invariants_hold(&store));
}

#[test]
fn invariants_hold_after_mixed_operations() {
    let mut store = Store::new();
    apply(&mut store, "pod-1", &["I1", "I2"]);
    assert!(invariants_hold(&store));
    apply(&mut store, "pod-2", &["I2", "I3"]);
    assert!(invariants_hold(&store));
    apply(&mut store, "pod-1", &["I3"]);
    assert!(invariants_hold(&store));
    delete(&mut store, "pod-2");
    assert!(invariants_hold(&store));
    store.set_state(&ItemMap::new());
    assert!(invariants_hold(&store));
    apply(&mut store, "pod-3", &["I1"]);
    delete(&mut store, "pod-3");
    assert!(invariants_hold(&store));
    assert_eq!(store.get_state().len(), 0);
}

#[test]
fn replaying_the_events_gives_the_state() {
    let mut store = Store::new();
    let id = store.subscribe(64);
    apply(&mut store, "pod-1", &["I1", "I2"]);
    apply(&mut store, "pod-2", &["I2", "I3"]);
    delete(&mut store, "pod-1");
    apply(&mut store, "pod-2", &["I1"]);
    store.put(
        image("I9"),
        Some(State {
            owners: pods(&["pod-7"]),
            state: (),
        }),
    );
    let events = drain(&mut store, id);
    let replayed = replay(ItemMap::new(), &events);
    assert!(replayed.same(&store.get_state()));
}

#[test]
fn closures_set_the_state_of_entries() {
    let mut store: Inner<ImageRef, PodRef, u128> = Inner::new();
    store.apply(pod("pod-1"), images(&["I1"]), |_| 1, |_, v| v + 10);
    assert_eq!(store.entry(&image("I1")).unwrap().state, 1);
    store.apply(pod("pod-2"), images(&["I1"]), |_| 1, |_, v| v + 10);
    assert_eq!(store.entry(&image("I1")).unwrap().state, 11);
    store.delete(&pod("pod-1"), |_, v| v + 100);
    let entry = store.entry(&image("I1")).unwrap();
    assert_eq!(entry.state, 111);
    assert!(entry.owners.same(&pods(&["pod-2"])));
}

#[test]
fn reader_follows_each_kind_of_event() {
    let mut copy: ItemMap<ImageRef, State<PodRef, ()>> = ItemMap::new();
    let entry = |names: &[&str]| State {
        owners: pods(names),
        state: (),
    };
    absorb(&mut copy, Event::Added(image("I1"), entry(&["pod-1"])));
    assert_eq!(copy.len(), 1);
    absorb(&mut copy, Event::Modified(image("I1"), entry(&["pod-1", "pod-2"])));
    assert_eq!(copy.get(&image("I1")).unwrap().owners.len(), 2);
    absorb(&mut copy, Event::Removed(image("I1")));
    assert_eq!(copy.len(), 0);
    let mut snapshot = ItemMap::new();
    snapshot.insert(image("I2"), entry(&["pod-3"]));
    snapshot.insert(image("I3"), entry(&["pod-3"]));
    absorb(&mut copy, Event::Added(image("I9"), entry(&["pod-9"])));
    absorb(&mut copy, Event::Restart(snapshot.duplicate()));
    assert!(copy.same(&snapshot));
}

#[test]
fn inconsistent_maps_are_told_apart() {
    let entry = |names: &[&str]| State {
        owners: pods(names),
        state: (),
    };
    let mut forward: ItemMap<ImageRef, State<PodRef, ()>> = ItemMap::new();
    let mut reverse: ItemMap<PodRef, ItemSet<ImageRef>> = ItemMap::new();
    assert!(is_consistent(&forward, &reverse));

    forward.insert(image("I1"), entry(&["pod-1", "pod-2"]));
    // the index misses both owners
    assert!(!is_consistent(&forward, &reverse));
    reverse.insert(pod("pod-1"), images(&["I1"]));
    // the index misses one owner
    assert!(!is_consistent(&forward, &reverse));
    reverse.insert(pod("pod-2"), images(&["I1"]));
    assert!(is_consistent(&forward, &reverse));

    // an owner may be known without keys
    reverse.insert(pod("pod-3"), images(&[]));
    assert!(is_consistent(&forward, &reverse));
    // but not with a key whose entry does not list it
    reverse.insert(pod("pod-3"), images(&["I1"]));
    assert!(!is_consistent(&forward, &reverse));
    reverse.insert(pod("pod-3"), images(&["I7"]));
    assert!(!is_consistent(&forward, &reverse));
    reverse.remove(&pod("pod-3"));

    // an entry needs an owner
    forward.insert(image("I2"), entry(&[]));
    assert!(!is_consistent(&forward, &reverse));
}
