use disk_core::diff::{diff, Change, Delta, DiffResult};
use disk_core::model::{EntryKind, Node};

fn file(name: &str, size: u64) -> Node {
    Node {
        name: name.into(),
        size,
        kind: EntryKind::File,
        modified: None,
        children: vec![],
    }
}

fn dir(name: &str, children: Vec<Node>) -> Node {
    let size = children.iter().map(|c| c.size).sum();
    Node {
        name: name.into(),
        size,
        kind: EntryKind::Dir,
        modified: None,
        children,
    }
}

fn find<'a>(result: &'a DiffResult, path: &str) -> Option<&'a Delta> {
    result.deltas.iter().find(|d| d.path == path)
}

#[test]
fn classifies_new_grown_shrunk_and_vanished() {
    let old = dir(
        "root",
        vec![
            file("keep.txt", 100),
            file("gone.txt", 50),
            file("steady.txt", 10),
            file("shrink.txt", 200),
        ],
    );
    let new = dir(
        "root",
        vec![
            file("keep.txt", 180),
            file("steady.txt", 10),
            file("shrink.txt", 120),
            file("fresh.txt", 70),
        ],
    );

    let result = diff(&old, &new, 0);

    assert_eq!(find(&result, "keep.txt").unwrap().change, Change::Grew);
    assert_eq!(find(&result, "keep.txt").unwrap().new_size, 180);
    assert_eq!(find(&result, "shrink.txt").unwrap().change, Change::Shrank);
    assert_eq!(find(&result, "gone.txt").unwrap().change, Change::Vanished);
    assert_eq!(find(&result, "gone.txt").unwrap().old_size, 50);
    assert_eq!(find(&result, "fresh.txt").unwrap().change, Change::New);
    assert!(find(&result, "steady.txt").is_none(), "unchanged is excluded");
}

#[test]
fn totals_count_files_once_not_parent_dirs() {
    let old = dir("root", vec![dir("sub", vec![file("big.bin", 100)])]);
    let new = dir("root", vec![dir("sub", vec![file("big.bin", 200)])]);

    let result = diff(&old, &new, 0);

    assert_eq!(result.total_added, 100, "the 100-byte growth counts once");
    assert_eq!(result.total_removed, 0);
    assert!(find(&result, "sub").is_some(), "folder-aware: dir reported");
    assert!(find(&result, "sub/big.bin").is_some(), "file reported too");
}

#[test]
fn respects_threshold_for_grew_and_shrank() {
    let old = dir("root", vec![file("a.txt", 100), file("b.txt", 100)]);
    let new = dir("root", vec![file("a.txt", 105), file("b.txt", 300)]);

    let result = diff(&old, &new, 10);

    assert!(find(&result, "a.txt").is_none(), "5-byte change below threshold");
    assert_eq!(find(&result, "b.txt").unwrap().change, Change::Grew);
}

#[test]
fn deltas_sorted_by_magnitude_descending() {
    let old = dir("root", vec![file("small.txt", 10), file("huge.txt", 10)]);
    let new = dir("root", vec![file("small.txt", 20), file("huge.txt", 1000)]);

    let result = diff(&old, &new, 0);

    assert_eq!(result.deltas.first().unwrap().path, String::from("huge.txt"));
}
