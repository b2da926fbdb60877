use bommer::api::{ImageRef, PodRef};
use bommer::data::Data;
use bommer::hub::{Hub, Received};
use bommer::item_set::ItemSet;
use bommer::pubsub::Event;
use bommer::store::Inner;

fn take(hub: &mut Hub<u128>, id: u128) -> Option<u128> {
    match hub.receive(id) {
        Received::Event(e) => Some(e),
        _ => None,
    }
}

#[test]
fn subscriber_gets_its_first_event() {
    let mut hub: Hub<u128> = Hub::new();
    let id = hub.subscribe(4, 7);
    assert!(hub.is_subscribed(id));
    assert_eq!(hub.len(), 1);
    assert_eq!(take(&mut hub, id), Some(7));
    assert!(matches!(hub.receive(id), Received::Empty));
}

#[test]
fn ids_are_fresh() {
    let mut hub: Hub<u128> = Hub::new();
    let mut ids = Vec::new();
    for i in 0..50u128 {
        let id = hub.subscribe(1, i);
        assert!(!ids.contains(&id));
        ids.push(id);
    }
    assert_eq!(hub.len(), 50);
}

#[test]
fn events_arrive_in_order() {
    let mut hub: Hub<u128> = Hub::new();
    let id = hub.subscribe(4, 0);
    hub.broadcast(&1);
    hub.broadcast(&2);
    hub.broadcast(&3);
    assert_eq!(take(&mut hub, id), Some(0));
    assert_eq!(take(&mut hub, id), Some(1));
    assert_eq!(take(&mut hub, id), Some(2));
    assert_eq!(take(&mut hub, id), Some(3));
    assert_eq!(take(&mut hub, id), None);
}

#[test]
fn every_subscriber_gets_every_event() {
    let mut hub: Hub<u128> = Hub::new();
    let a = hub.subscribe(4, 0);
    let b = hub.subscribe(4, 0);
    hub.broadcast(&5);
    for id in [a, b] {
        assert_eq!(take(&mut hub, id), Some(0));
        assert_eq!(take(&mut hub, id), Some(5));
        assert_eq!(take(&mut hub, id), None);
    }
}

#[test]
fn full_queue_evicts_the_subscriber_only() {
    let mut hub: Hub<u128> = Hub::new();
    let slow = hub.subscribe(2, 0);
    let fast = hub.subscribe(8, 0);
    hub.broadcast(&1);
    assert!(hub.is_subscribed(slow));
    hub.broadcast(&2);
    assert!(!hub.is_subscribed(slow));
    assert!(matches!(hub.receive(slow), Received::Closed));
    assert!(hub.is_subscribed(fast));
    assert_eq!(take(&mut hub, fast), Some(0));
    assert_eq!(take(&mut hub, fast), Some(1));
    assert_eq!(take(&mut hub, fast), Some(2));
}

#[test]
fn reading_makes_room() {
    let mut hub: Hub<u128> = Hub::new();
    let id = hub.subscribe(1, 0);
    assert_eq!(take(&mut hub, id), Some(0));
    hub.broadcast(&1);
    assert!(hub.is_subscribed(id));
    assert_eq!(take(&mut hub, id), Some(1));
}

#[test]
fn unsubscribe_is_idempotent() {
    let mut hub: Hub<u128> = Hub::new();
    let a = hub.subscribe(4, 0);
    let b = hub.subscribe(4, 0);
    hub.unsubscribe(a);
    hub.unsubscribe(a);
    assert!(!hub.is_subscribed(a));
    assert!(hub.is_subscribed(b));
    assert_eq!(hub.len(), 1);
    assert!(matches!(hub.receive(a), Received::Closed));
}

#[test]
fn fresh_subscriber_starts_with_the_snapshot() {
    let mut store: Inner<ImageRef, PodRef, ()> = Inner::new();
    let mut keys = ItemSet::new();
    keys.insert(ImageRef("I1".to_string()));
    let owner = PodRef {
        namespace: "ns".to_string(),
        name: "pod-1".to_string(),
    };
    store.apply(owner.duplicate(), keys, |_| (), |_, v| v);

    let id = store.subscribe(16);
    let snapshot = store.get_state();
    match store.receive(id) {
        Received::Event(Event::Restart(first)) => assert!(first.same(&snapshot)),
        _ => panic!("expected a restart first"),
    }

    store.delete(&owner, |_, v| v);
    match store.receive(id) {
        Received::Event(Event::Removed(k)) => assert_eq!(k.0, "I1"),
        _ => panic!("expected a removal"),
    }
    assert!(matches!(store.receive(id), Received::Empty));
    store.unsubscribe(id);
    assert!(matches!(store.receive(id), Received::Closed));
}
