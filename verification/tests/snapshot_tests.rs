use disk_core::model::{EntryKind, Node};
use disk_core::snapshot::{is_meta_file_name, meta_file_name, snap_file_name, Snapshot, SnapshotMeta};
use std::path::PathBuf;
use std::time::SystemTime;

#[test]
fn snapshot_files_are_named_after_the_id() {
    assert_eq!(snap_file_name("20260529-1200"), "20260529-1200.snap");
    assert_eq!(meta_file_name("20260529-1200"), "20260529-1200.meta.json");
}

#[test]
fn only_metadata_files_are_listed() {
    assert!(is_meta_file_name(&meta_file_name("aaa")));
    assert!(!is_meta_file_name(&snap_file_name("aaa")));
    assert!(is_meta_file_name(".meta.json"));
    assert!(!is_meta_file_name("meta.json"));
    assert!(!is_meta_file_name("x.meta.json.bak"));
    assert!(!is_meta_file_name(""));
}

#[test]
fn a_snapshot_holds_its_metadata_and_tree() {
    let snap = Snapshot {
        meta: SnapshotMeta {
            id: "20260529-1200".into(),
            created_at: SystemTime::UNIX_EPOCH,
            roots: vec![PathBuf::from("/Users/me")],
            total_size: 30,
            entry_count: 3,
            skipped_count: 0,
        },
        root: Node {
            name: "root".into(),
            size: 30,
            kind: EntryKind::Dir,
            modified: None,
            children: vec![],
        },
    };
    assert_eq!(snap.meta.id, "20260529-1200");
    assert_eq!(snap.root.size, snap.meta.total_size);
}

#[test]
fn snapshot_metadata_clones_to_an_equal_value() {
    let meta = disk_core::snapshot::SnapshotMeta {
        id: String::from("20260529-101500"),
        created_at: std::time::SystemTime::UNIX_EPOCH,
        roots: vec![std::path::PathBuf::from("/Users/me")],
        total_size: 42,
        entry_count: 3,
        skipped_count: 1,
    };
    assert_eq!(meta.clone(), meta);
}
