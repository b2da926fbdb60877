use bommer::api::{ImageRef, PodRef};
use bommer::data::Data;
use bommer::hub::Received;
use bommer::pods::{
    get_containers_all, get_containers_ns, handle, image_store, images_from_pod, to_container_id,
    to_key, to_state, ContainerStatus, Pod, WatchEvent,
};
use bommer::pubsub::Event;

fn status(id: &str) -> ContainerStatus {
    ContainerStatus {
        image_id: id.to_string(),
    }
}

fn pod(namespace: Option<&str>, name: Option<&str>, ids: &[&str]) -> Pod {
    Pod {
        namespace: namespace.map(|s| s.to_string()),
        name: name.map(|s| s.to_string()),
        container_statuses: ids.iter().map(|id| status(id)).collect(),
        init_container_statuses: Vec::new(),
        ephemeral_container_statuses: Vec::new(),
    }
}

fn pod_ref(namespace: &str, name: &str) -> PodRef {
    PodRef {
        namespace: namespace.to_string(),
        name: name.to_string(),
    }
}

#[test]
fn empty_image_id_is_no_image() {
    assert!(to_container_id(status("")).is_none());
    assert_eq!(to_container_id(status("a@sha256:1")).unwrap().0, "a@sha256:1");
}

#[test]
fn pod_needs_namespace_and_name() {
    assert!(to_key(&pod(None, Some("p"), &[])).is_none());
    assert!(to_key(&pod(Some("ns"), None, &[])).is_none());
    assert!(to_key(&pod(None, None, &[])).is_none());
    let key = to_key(&pod(Some("ns"), Some("p"), &[])).unwrap();
    assert_eq!(key, pod_ref("ns", "p"));
}

#[test]
fn images_come_from_all_kinds_of_containers() {
    let p = Pod {
        namespace: Some("ns".to_string()),
        name: Some("p".to_string()),
        container_statuses: vec![status("a"), status(""), status("b")],
        init_container_statuses: vec![status("c"), status("a")],
        ephemeral_container_statuses: vec![status("d")],
    };
    let images = images_from_pod(p);
    assert_eq!(images.len(), 4);
    for id in ["a", "b", "c", "d"] {
        assert!(images.contains(&ImageRef(id.to_string())));
    }
    assert!(!images.contains(&ImageRef(String::new())));
}

#[test]
fn pod_without_reference_is_not_indexed() {
    let mut store = image_store();
    handle(&mut store, WatchEvent::Applied(pod(None, Some("p"), &["a"])));
    handle(&mut store, WatchEvent::Applied(pod(Some("ns"), None, &["a"])));
    assert_eq!(store.get_state().len(), 0);
    assert_eq!(store.get_index().len(), 0);
}

#[test]
fn applied_and_deleted_pods_change_the_store() {
    let mut store = image_store();
    let id = store.subscribe(16);
    handle(&mut store, WatchEvent::Applied(pod(Some("ns"), Some("pod-1"), &["a", "b"])));
    handle(&mut store, WatchEvent::Applied(pod(Some("ns"), Some("pod-2"), &["b"])));
    let state = store.get_state();
    assert_eq!(state.len(), 2);
    let b = state.get(&ImageRef("b".to_string())).unwrap();
    assert_eq!(b.owners.len(), 2);
    assert!(b.owners.contains(&pod_ref("ns", "pod-1")));
    assert!(b.owners.contains(&pod_ref("ns", "pod-2")));

    handle(&mut store, WatchEvent::Deleted(pod(Some("ns"), Some("pod-1"), &[])));
    let state = store.get_state();
    assert_eq!(state.len(), 1);
    assert!(state.contains_key(&ImageRef("b".to_string())));

    let mut kinds = Vec::new();
    loop {
        match store.receive(id) {
            Received::Event(Event::Restart(_)) => kinds.push("restart"),
            Received::Event(Event::Added(..)) => kinds.push("added"),
            Received::Event(Event::Modified(..)) => kinds.push("modified"),
            Received::Event(Event::Removed(_)) => kinds.push("removed"),
            _ => break,
        }
    }
    assert_eq!(
        kinds,
        vec!["restart", "added", "added", "modified", "removed", "modified"]
    );
}

#[test]
fn restart_replaces_everything_with_one_event() {
    let mut store = image_store();
    handle(&mut store, WatchEvent::Applied(pod(Some("ns"), Some("old"), &["x"])));
    let id = store.subscribe(16);
    assert!(matches!(store.receive(id), Received::Event(Event::Restart(_))));

    handle(
        &mut store,
        WatchEvent::Restarted(vec![
            pod(Some("ns"), Some("pod-1"), &["a", "b"]),
            pod(None, Some("lost"), &["z"]),
            pod(Some("ns"), Some("pod-2"), &["b", ""]),
        ]),
    );
    match store.receive(id) {
        Received::Event(Event::Restart(snapshot)) => {
            assert!(snapshot.same(&store.get_state()));
            assert_eq!(snapshot.len(), 2);
        }
        _ => panic!("expected a restart"),
    }
    assert!(matches!(store.receive(id), Received::Empty));
    let state = store.get_state();
    assert!(!state.contains_key(&ImageRef("x".to_string())));
    assert!(!state.contains_key(&ImageRef("z".to_string())));
    assert_eq!(state.get(&ImageRef("b".to_string())).unwrap().owners.len(), 2);
    let index = store.get_index();
    assert_eq!(index.len(), 2);
    assert_eq!(index.get(&pod_ref("ns", "pod-2")).unwrap().len(), 1);
}

#[test]
fn to_state_builds_both_maps() {
    let (images, index) = to_state(vec![
        pod(Some("ns"), Some("pod-1"), &["a"]),
        pod(Some("ns"), Some("pod-2"), &["a", "b"]),
    ]);
    assert_eq!(images.len(), 2);
    assert_eq!(index.len(), 2);
    let a = images.get(&ImageRef("a".to_string())).unwrap();
    assert!(a.owners.contains(&pod_ref("ns", "pod-1")));
    assert!(a.owners.contains(&pod_ref("ns", "pod-2")));
    let first = index.get(&pod_ref("ns", "pod-1")).unwrap();
    assert_eq!(first.len(), 1);
    assert!(first.contains(&ImageRef("a".to_string())));
}

#[test]
fn images_are_viewed_by_namespace() {
    let mut store = image_store();
    handle(&mut store, WatchEvent::Applied(pod(Some("blue"), Some("pod-1"), &["a", "b"])));
    handle(&mut store, WatchEvent::Applied(pod(Some("blue"), Some("pod-2"), &["b"])));
    handle(&mut store, WatchEvent::Applied(pod(Some("red"), Some("pod-1"), &["b", "c"])));
    let state = store.get_state();

    let blue = get_containers_ns(&state, "blue");
    assert_eq!(blue.len(), 2);
    assert_eq!(blue.get(&ImageRef("a".to_string())).unwrap().pods.len(), 1);
    let b = &blue.get(&ImageRef("b".to_string())).unwrap().pods;
    assert_eq!(b.len(), 2);
    assert!(b.contains(&pod_ref("blue", "pod-1")));
    assert!(b.contains(&pod_ref("blue", "pod-2")));
    assert!(!b.contains(&pod_ref("red", "pod-1")));

    let red = get_containers_ns(&state, "red");
    assert_eq!(red.len(), 2);
    assert!(!red.contains_key(&ImageRef("a".to_string())));

    assert_eq!(get_containers_ns(&state, "green").len(), 0);

    let all = get_containers_all(&state);
    assert_eq!(all.len(), 2);
    assert!(all.get(&"blue".to_string()).unwrap().same(&blue));
    assert!(all.get(&"red".to_string()).unwrap().same(&red));
}
