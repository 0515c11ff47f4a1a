use disk_core::diff::{diff, Change, Delta, DiffResult};
use disk_core::model::{EntryKind, Node};

fn file(name: &str, size: u64) -> Node {
    Node {
        name: name.into(),
        size,
        kind: EntryKind::File,
        modified: None,
        children: vec![],
    }
}

fn dir(name: &str, children: Vec<Node>) -> Node {
    let size = children.iter().map(|c| c.size).sum();
    Node {
        name: name.into(),
        size,
        kind: EntryKind::Dir,
        modified: None,
        children,
    }
}

fn find<'a>(result: &'a DiffResult, path: &str) -> Option<&'a Delta> {
    result.deltas.iter().find(|d| d.path == path)
}

fn sample_old() -> Node {
    dir(
        "root",
        vec![
            dir("docs", vec![file("a.txt", 10), file("b.txt", 40)]),
            file("keep.bin", 300),
            file("gone.bin", 25),
        ],
    )
}

fn sample_new() -> Node {
    dir(
        "elsewhere",
        vec![
            dir("docs", vec![file("a.txt", 70), file("c.txt", 5)]),
            file("keep.bin", 300),
        ],
    )
}

#[test]
fn a_tree_against_itself_shows_nothing() {
    let t = sample_old();
    let r = diff(&t, &t, 0);
    assert!(r.deltas.is_empty());
    assert_eq!(r.total_added, 0);
    assert_eq!(r.total_removed, 0);
}

#[test]
fn reversing_the_scans_reverses_each_change() {
    let forward = diff(&sample_old(), &sample_new(), 0);
    let backward = diff(&sample_new(), &sample_old(), 0);
    assert_eq!(forward.total_added, backward.total_removed);
    assert_eq!(forward.total_removed, backward.total_added);
    assert_eq!(forward.deltas.len(), backward.deltas.len());
    for d in &forward.deltas {
        let b = find(&backward, &d.path).unwrap();
        assert_eq!(b.old_size, d.new_size);
        assert_eq!(b.new_size, d.old_size);
        let expected = match d.change {
            Change::New => Change::Vanished,
            Change::Vanished => Change::New,
            Change::Grew => Change::Shrank,
            Change::Shrank => Change::Grew,
            Change::Unchanged => Change::Unchanged,
        };
        assert_eq!(b.change, expected);
    }
}

#[test]
fn totals_balance_the_change_in_file_bytes() {
    let r = diff(&sample_old(), &sample_new(), 0);
    // Files hold 10 + 40 + 300 + 25 = 375 bytes before and 70 + 5 + 300 = 375 after.
    assert_eq!(r.total_added, 60 + 5);
    assert_eq!(r.total_removed, 40 + 25);
    assert_eq!(375 + r.total_added - r.total_removed, 375);
}

#[test]
fn paths_are_relative_to_the_root_and_folder_aware() {
    let r = diff(&sample_old(), &sample_new(), 0);
    assert_eq!(find(&r, "docs/a.txt").unwrap().change, Change::Grew);
    assert_eq!(find(&r, "docs/b.txt").unwrap().change, Change::Vanished);
    assert_eq!(find(&r, "docs/c.txt").unwrap().change, Change::New);
    assert_eq!(find(&r, "gone.bin").unwrap().change, Change::Vanished);
    // docs went from 50 to 75 bytes.
    let docs = find(&r, "docs").unwrap();
    assert_eq!((docs.old_size, docs.new_size, docs.change), (50, 75, Change::Grew));
    assert!(find(&r, "keep.bin").is_none());
    assert!(find(&r, "root").is_none());
    assert!(find(&r, "elsewhere").is_none());
}

#[test]
fn deltas_run_largest_magnitude_first() {
    let r = diff(&sample_old(), &sample_new(), 0);
    for w in r.deltas.windows(2) {
        assert!(w[0].magnitude() >= w[1].magnitude());
    }
    assert_eq!(r.deltas.len(), 5);
}

#[test]
fn magnitude_is_the_absolute_size_change() {
    let grew = Delta { path: "x".into(), old_size: 10, new_size: 25, change: Change::Grew };
    let shrank = Delta { path: "x".into(), old_size: 25, new_size: 10, change: Change::Shrank };
    assert_eq!(grew.magnitude(), 15);
    assert_eq!(shrank.magnitude(), 15);
}

#[test]
fn shrinking_within_threshold_is_unchanged_and_beyond_it_shrank() {
    let old = dir("r", vec![file("a", 100), file("b", 100)]);
    let new = dir("r", vec![file("a", 95), file("b", 50)]);
    let r = diff(&old, &new, 10);
    assert!(find(&r, "a").is_none());
    assert_eq!(find(&r, "b").unwrap().change, Change::Shrank);
    assert_eq!(r.total_removed, 55);
}

#[test]
fn a_vanished_folder_and_its_files_are_all_reported() {
    let old = dir("r", vec![dir("old", vec![file("x", 3), file("y", 4)])]);
    let new = dir("r", vec![]);
    let r = diff(&old, &new, 0);
    assert_eq!(find(&r, "old").unwrap().change, Change::Vanished);
    assert_eq!(find(&r, "old/x").unwrap().change, Change::Vanished);
    assert_eq!(find(&r, "old/y").unwrap().change, Change::Vanished);
    assert_eq!(r.total_removed, 7);
    assert_eq!(r.deltas[0].path, "old");
}

#[test]
fn a_symlink_counts_as_a_file() {
    let link = |size: u64| Node {
        name: "link".into(),
        size,
        kind: EntryKind::Symlink,
        modified: None,
        children: vec![],
    };
    let r = diff(&dir("r", vec![link(10)]), &dir("r", vec![link(12)]), 0);
    assert_eq!(r.total_added, 2);
}

#[test]
fn the_root_name_plays_no_part() {
    let a = dir("/Volumes/Old/home", vec![file("x", 1), dir("d", vec![file("y", 2)])]);
    let b = dir("home", vec![file("x", 1), dir("d", vec![file("y", 2)])]);
    let r = diff(&a, &b, 0);
    assert!(r.deltas.is_empty());
    assert_eq!((r.total_added, r.total_removed), (0, 0));
}

#[test]
fn a_higher_threshold_lists_a_subset() {
    let old = dir("r", vec![file("a", 100), file("b", 100), file("c", 100)]);
    let new = dir("r", vec![file("a", 104), file("b", 150), file("c", 60)]);
    let low = diff(&old, &new, 0);
    let high = diff(&old, &new, 45);
    assert_eq!(low.deltas.len(), 3);
    assert_eq!(high.deltas.len(), 1);
    for d in &high.deltas {
        assert_eq!(find(&low, &d.path), Some(d));
    }
}

#[test]
fn totals_balance_against_the_root_sizes() {
    let old = sample_old();
    let new = sample_new();
    let r = diff(&old, &new, 0);
    assert_eq!(old.size, 375);
    assert_eq!(new.size, 375);
    assert_eq!(r.total_added + old.size, r.total_removed + new.size);
    let grown = dir("root", vec![dir("docs", vec![file("a.txt", 10), file("b.txt", 90)])]);
    let r = diff(&old, &grown, 0);
    assert_eq!(r.total_added + old.size, r.total_removed + grown.size);
}

#[test]
fn listed_paths_agree_as_text_and_as_components() {
    let r = diff(&sample_old(), &sample_new(), 0);
    for d in &r.deltas {
        for e in &r.deltas {
            assert_eq!(
                disk_core::path::same_path(&d.path, &e.path),
                d.path == e.path,
                "{} vs {}",
                d.path,
                e.path
            );
        }
    }
    assert!(r.deltas.iter().any(|d| d.path == "docs/a.txt"));
}

#[test]
fn paths_are_compared_by_components() {
    let old = dir("root", vec![dir("sub", vec![file("x", 5)])]);
    let new = dir("root", vec![dir("sub/", vec![file("x", 5)])]);
    let r = diff(&old, &new, 0);
    assert!(r.deltas.is_empty());
    assert_eq!((r.total_added, r.total_removed), (0, 0));

    let dotted = dir("root", vec![dir("sub", vec![file(".", 5)])]);
    let r = diff(&dotted, &dotted, 0);
    assert!(r.deltas.is_empty());
    let plain = dir("root", vec![dir("sub", vec![])]);
    let r = diff(&plain, &dotted, 0);
    assert_eq!(r.deltas.len(), 1);
    assert_eq!(r.deltas[0].path, "sub");
    assert_eq!((r.deltas[0].old_size, r.deltas[0].new_size), (0, 5));
    assert_eq!(r.deltas[0].change, Change::Grew);
    assert_eq!((r.total_added, r.total_removed), (5, 0));
}

#[test]
fn a_leading_dot_or_an_absolute_name_is_its_own_path() {
    let old = dir("root", vec![file("x", 5)]);
    let new = dir("root", vec![file("./x", 5), file("/etc", 1)]);
    let r = diff(&old, &new, 0);
    let mut paths: Vec<&str> = r.deltas.iter().map(|d| d.path.as_str()).collect();
    paths.sort();
    assert_eq!(paths, vec!["./x", "/etc", "x"]);
    assert_eq!(find(&r, "x").unwrap().change, Change::Vanished);
    assert_eq!(find(&r, "./x").unwrap().change, Change::New);
}
