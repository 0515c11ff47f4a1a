use disk_core::model::{EntryKind, Node};
use disk_core::organizer::{breadcrumb_names, current_node, OrganizerApp, ScanResult, ScanState};
use disk_core::scanner::ScanOutcome;
use std::path::PathBuf;
use std::sync::mpsc::channel;

fn node(name: &str, kind: EntryKind, children: Vec<Node>) -> Node {
    Node { name: name.into(), size: 0, kind, modified: None, children }
}

fn outcome() -> ScanOutcome {
    ScanOutcome {
        root: node(
            "home",
            EntryKind::Dir,
            vec![
                node("Movies", EntryKind::Dir, vec![node("big.mov", EntryKind::File, vec![])]),
                node("notes.txt", EntryKind::File, vec![]),
            ],
        ),
        skipped: vec![],
    }
}

#[test]
fn current_node_follows_the_drill_path() {
    let o = outcome();
    assert_eq!(current_node(&o, &[]).name, "home");
    assert_eq!(current_node(&o, &[0]).name, "Movies");
    assert_eq!(current_node(&o, &[0, 0]).name, "big.mov");
}

#[test]
fn current_node_stops_at_a_missing_child() {
    let o = outcome();
    assert_eq!(current_node(&o, &[5]).name, "home");
    assert_eq!(current_node(&o, &[0, 3, 0]).name, "Movies");
}

#[test]
fn breadcrumb_runs_from_root_to_current_node() {
    let o = outcome();
    assert_eq!(breadcrumb_names(&o, &[]), vec!["home"]);
    assert_eq!(breadcrumb_names(&o, &[0, 0]), vec!["home", "Movies", "big.mov"]);
    assert_eq!(breadcrumb_names(&o, &[1, 4]), vec!["home", "notes.txt"]);
    let nav = [0, 9];
    assert_eq!(
        breadcrumb_names(&o, &nav).last().unwrap(),
        &current_node(&o, &nav).name
    );
}

#[test]
fn a_scan_runs_and_its_result_is_picked_up() {
    let mut app = OrganizerApp::new(PathBuf::from("/Users/me"));
    assert!(matches!(app.state, ScanState::Idle));
    app.apply_navigation(None, Some(0), Some(1));
    let (tx, rx) = channel::<ScanResult>();
    app.begin_scan(rx);
    assert!(app.is_scanning());
    assert!(app.nav.is_empty());
    assert_eq!(app.selected, None);
    app.poll_scan();
    assert!(app.is_scanning(), "nothing has arrived yet");
    tx.send(Ok(outcome())).unwrap();
    app.poll_scan();
    assert!(matches!(app.state, ScanState::Done(_)));
    assert!(app.rx.is_none());
}

#[test]
fn a_failed_scan_is_recorded_as_an_error() {
    let mut app = OrganizerApp::new(PathBuf::from("/Users/me"));
    let (tx, rx) = channel::<ScanResult>();
    app.begin_scan(rx);
    tx.send(Err(String::from("permission denied"))).unwrap();
    app.poll_scan();
    match &app.state {
        ScanState::Error(e) => assert_eq!(e, "permission denied"),
        _ => panic!("expected an error state"),
    }
}

#[test]
fn polling_without_a_scan_changes_nothing() {
    let mut app = OrganizerApp::new(PathBuf::from("/"));
    app.poll_scan();
    assert!(matches!(app.state, ScanState::Idle));
}

#[test]
fn navigation_drills_goes_up_and_selects() {
    let mut app = OrganizerApp::new(PathBuf::from("/"));
    assert_eq!(app.up_level(), None);
    app.apply_navigation(None, Some(2), None);
    app.apply_navigation(None, Some(0), None);
    assert_eq!(app.nav, vec![2, 0]);
    app.apply_navigation(None, None, Some(3));
    assert_eq!(app.selected, Some(3));
    let up = app.up_level();
    assert_eq!(up, Some(1));
    app.apply_navigation(up, None, None);
    assert_eq!(app.nav, vec![2]);
    assert_eq!(app.selected, None);
    app.apply_navigation(Some(0), Some(1), None);
    assert_eq!(app.nav, vec![1]);
}

#[test]
fn up_undoes_a_drill() {
    let mut app = OrganizerApp::new(PathBuf::from("/"));
    app.apply_navigation(None, Some(4), None);
    let before = app.nav.clone();
    app.apply_navigation(None, Some(7), None);
    app.apply_navigation(app.up_level(), None, None);
    assert_eq!(app.nav, before);
}

#[test]
fn a_delivery_is_recorded_and_nothing_delivered_changes_nothing() {
    let mut app = OrganizerApp::new(PathBuf::from("/Users/me"));
    let (_tx, rx) = channel::<ScanResult>();
    app.begin_scan(rx);
    app.record_delivery(None);
    assert!(app.is_scanning());
    assert!(app.rx.is_some());
    app.record_delivery(Some(Err(String::from("disk vanished"))));
    match &app.state {
        ScanState::Error(e) => assert_eq!(e, "disk vanished"),
        _ => panic!("expected an error state"),
    }
    assert!(app.rx.is_none());
}

#[test]
fn no_second_scan_starts_while_one_runs() {
    let mut app = OrganizerApp::new(PathBuf::from("/Users/me"));
    assert!(app.scan_wanted(true));
    assert!(!app.scan_wanted(false));
    let (tx, rx) = channel::<ScanResult>();
    app.begin_scan(rx);
    assert!(!app.scan_wanted(true));
    app.poll_scan();
    assert!(!app.scan_wanted(true));
    tx.send(Ok(outcome())).unwrap();
    app.poll_scan();
    assert!(app.scan_wanted(true));
}
