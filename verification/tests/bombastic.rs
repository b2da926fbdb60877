use bommer::api::{ImageRef, PodRef};
use bommer::bombastic::{mirror, record, scan_outcome, scan_targets, store, Image, SbomState, SBOM};
use bommer::data::Data;
use bommer::hub::Received;
use bommer::item_map::ItemMap;
use bommer::item_set::ItemSet;
use bommer::pubsub::Event;
use bommer::purl::{purl_for, split_image};
use bommer::server::{bombastic_url, ServerConfig};
use bommer::state::State;

fn image(id: &str) -> ImageRef {
    ImageRef(id.to_string())
}

fn pods(names: &[&str]) -> ItemSet<PodRef> {
    let mut set = ItemSet::new();
    for name in names {
        set.insert(PodRef {
            namespace: "ns".to_string(),
            name: name.to_string(),
        });
    }
    set
}

fn upstream(names: &[&str]) -> State<PodRef, ()> {
    State {
        owners: pods(names),
        state: (),
    }
}

fn entry(names: &[&str], state: SbomState) -> State<PodRef, SbomState> {
    State {
        owners: pods(names),
        state,
    }
}

#[test]
fn purl_of_a_digest_reference() {
    let purl = purl_for(&image("registry.io/foo/bar@sha256:deadbeef"));
    assert_eq!(purl, Ok("pkg:oci/bar@sha256:deadbeef".to_string()));
}

#[test]
fn purl_of_a_name_without_path() {
    assert_eq!(
        purl_for(&image("bar@sha256:01")),
        Ok("pkg:oci/bar@sha256:01".to_string())
    );
}

#[test]
fn purl_cuts_at_the_last_at_sign() {
    assert_eq!(
        split_image(&image("reg/a@b@sha256:01")),
        Some(("a@b".to_string(), "sha256:01".to_string()))
    );
    assert_eq!(
        purl_for(&image("reg/a@b@sha256:01")),
        Ok("pkg:oci/a%40b@sha256:01".to_string())
    );
}

#[test]
fn reference_without_digest_has_no_purl() {
    assert_eq!(
        purl_for(&image("registry.io/foo/bar:latest")),
        Err("Unable to create PURL for: registry.io/foo/bar:latest".to_string())
    );
    assert_eq!(split_image(&image("")), None);
}

#[test]
fn digest_must_be_sha256() {
    assert_eq!(
        purl_for(&image("registry.io/foo/bar@md5:0123")),
        Err("Unable to create PURL for: registry.io/foo/bar@md5:0123".to_string())
    );
    assert_eq!(split_image(&image("bar@sha256")), None);
    assert_eq!(
        split_image(&image("bar@sha256:")),
        Some(("bar".to_string(), "sha256:".to_string()))
    );
}

#[test]
fn outcome_latches_into_state() {
    let found = scan_outcome(Ok(SBOM {
        data: "{}".to_string(),
    }));
    assert!(matches!(found, SbomState::Found(ref s) if s.data == "{}"));
    let failed = scan_outcome(Err("no route".to_string()));
    assert!(matches!(failed, SbomState::Failed(ref m) if m == "no route"));
}

#[test]
fn scheduled_images_are_scanned() {
    let added = Event::Added(image("a"), entry(&["p"], SbomState::Scheduled));
    let targets = scan_targets(&added);
    assert_eq!(targets, vec![image("a")]);

    let modified = Event::Modified(image("a"), entry(&["p"], SbomState::Missing));
    assert!(scan_targets(&modified).is_empty());

    let removed: Event<ImageRef, PodRef, SbomState> = Event::Removed(image("a"));
    assert!(scan_targets(&removed).is_empty());

    let mut snapshot = ItemMap::new();
    snapshot.insert(image("a"), entry(&["p"], SbomState::Scheduled));
    snapshot.insert(
        image("b"),
        entry(&["p"], SbomState::Failed("x".to_string())),
    );
    snapshot.insert(image("c"), entry(&["q"], SbomState::Scheduled));
    let targets = scan_targets(&Event::Restart(snapshot));
    assert_eq!(targets, vec![image("a"), image("c")]);
}

#[test]
fn mirror_schedules_new_images_and_keeps_results() {
    let mut map = store();
    let id = map.state.subscribe(16);
    assert!(matches!(map.state.receive(id), Received::Event(Event::Restart(_))));

    mirror(&mut map.state, Event::Added(image("a"), upstream(&["pod-1"])));
    match map.state.receive(id) {
        Received::Event(Event::Added(k, s)) => {
            assert_eq!(k, image("a"));
            assert!(matches!(s.state, SbomState::Scheduled));
            assert!(s.owners.same(&pods(&["pod-1"])));
        }
        _ => panic!("expected an addition"),
    }

    record(&mut map.state, &image("a"),
        SbomState::Found(SBOM {
            data: "blob".to_string(),
        }),
    );
    match map.state.receive(id) {
        Received::Event(Event::Modified(k, s)) => {
            assert_eq!(k, image("a"));
            assert!(matches!(s.state, SbomState::Found(ref b) if b.data == "blob"));
        }
        _ => panic!("expected a modification"),
    }

    mirror(&mut map.state, Event::Modified(image("a"), upstream(&["pod-1", "pod-2"])));
    match map.state.receive(id) {
        Received::Event(Event::Modified(_, s)) => {
            assert!(matches!(s.state, SbomState::Found(_)));
            assert!(s.owners.same(&pods(&["pod-1", "pod-2"])));
        }
        _ => panic!("expected a modification"),
    }

    // the same owners again: nothing to tell
    mirror(&mut map.state, Event::Modified(image("a"), upstream(&["pod-2", "pod-1"])));
    assert!(matches!(map.state.receive(id), Received::Empty));

    mirror(&mut map.state, Event::Removed(image("a")));
    assert!(matches!(map.state.receive(id), Received::Event(Event::Removed(_))));
    assert_eq!(map.get_state().len(), 0);
    assert_eq!(map.state.get_index().len(), 0);
}

#[test]
fn record_does_not_resurrect_a_removed_image() {
    let mut map = store();
    mirror(&mut map.state, Event::Added(image("a"), upstream(&["pod-1"])));
    mirror(&mut map.state, Event::Removed(image("a")));
    let id = map.state.subscribe(16);
    assert!(matches!(map.state.receive(id), Received::Event(Event::Restart(_))));
    record(&mut map.state, &image("a"), SbomState::Failed("late".to_string()));
    assert!(matches!(map.state.receive(id), Received::Empty));
    assert_eq!(map.get_state().len(), 0);
}

#[test]
fn restart_discards_results() {
    let mut map = store();
    mirror(&mut map.state, Event::Added(image("a"), upstream(&["pod-1"])));
    record(&mut map.state, &image("a"), SbomState::Missing);
    let id = map.state.subscribe(16);
    assert!(matches!(map.state.receive(id), Received::Event(Event::Restart(_))));

    let mut snapshot = ItemMap::new();
    snapshot.insert(image("a"), upstream(&["pod-1"]));
    snapshot.insert(image("b"), upstream(&["pod-2"]));
    mirror(&mut map.state, Event::Restart(snapshot));

    match map.state.receive(id) {
        Received::Event(Event::Restart(s)) => assert_eq!(s.len(), 2),
        _ => panic!("expected a restart"),
    }
    assert!(matches!(map.state.receive(id), Received::Empty));
    let state = map.get_state();
    assert_eq!(state.len(), 2);
    for key in ["a", "b"] {
        let img: &Image = state.get(&image(key)).unwrap();
        assert!(matches!(img.sbom, SbomState::Scheduled));
    }
    assert_eq!(state.get(&image("b")).unwrap().pods.len(), 1);
}

#[test]
fn failed_lookup_latches_the_message() {
    let mut map = store();
    mirror(&mut map.state, Event::Added(image("plain"), upstream(&["pod-1"])));
    let outcome = match purl_for(&image("plain")) {
        Ok(_) => panic!("no purl expected"),
        Err(message) => scan_outcome(Err(message)),
    };
    record(&mut map.state, &image("plain"), outcome);
    let state = map.get_state();
    match &state.get(&image("plain")).unwrap().sbom {
        SbomState::Failed(m) => assert_eq!(m, "Unable to create PURL for: plain"),
        _ => panic!("expected a failure"),
    }
}

#[test]
fn defaults_apply_where_nothing_is_configured() {
    assert_eq!(ServerConfig::new(None).bind_addr, "[::]:8080");
    assert_eq!(
        ServerConfig::new(Some("127.0.0.1:1".to_string())).bind_addr,
        "127.0.0.1:1"
    );
    assert_eq!(bombastic_url(None), "http://localhost:8080");
    assert_eq!(bombastic_url(Some("http://b".to_string())), "http://b");
}
