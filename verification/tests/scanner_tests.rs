use disk_core::model::{EntryKind, Node};
use disk_core::scanner::{dir_node, ScanOptions};

fn file(name: &str, size: u64) -> Node {
    Node {
        name: name.into(),
        size,
        kind: EntryKind::File,
        modified: None,
        children: vec![],
    }
}

#[test]
fn dir_node_sums_and_orders_largest_first() {
    let node = dir_node(
        String::from("root"),
        None,
        vec![file("small.txt", 1), file("big.txt", 100), file("medium.txt", 50)],
    );
    assert_eq!(node.kind, EntryKind::Dir);
    assert_eq!(node.size, 151);
    let names: Vec<&str> = node.children.iter().map(|c| c.name.as_str()).collect();
    assert_eq!(names, ["big.txt", "medium.txt", "small.txt"]);
}

#[test]
fn dir_node_keeps_equal_sizes_in_scan_order() {
    let node = dir_node(
        String::from("d"),
        None,
        vec![file("a", 5), file("b", 7), file("c", 5)],
    );
    let names: Vec<&str> = node.children.iter().map(|c| c.name.as_str()).collect();
    assert_eq!(names, ["b", "a", "c"]);
}

#[test]
fn dir_node_rolls_up_nested_sizes() {
    let sub = dir_node(String::from("sub"), None, vec![file("inner.txt", 30)]);
    let root = dir_node(String::from("root"), None, vec![file("top.txt", 10), sub]);
    assert_eq!(root.size, 40);
    assert_eq!(root.children[0].name, "sub");
    assert_eq!(root.children[0].size, 30);
}

#[test]
fn empty_directory_has_size_zero() {
    let node = dir_node(String::from("empty"), None, vec![]);
    assert_eq!(node.size, 0);
    assert!(node.children.is_empty());
}

#[test]
fn scans_stay_on_one_device_by_default() {
    assert!(!ScanOptions::default().cross_device);
}

#[test]
fn sorting_is_largest_first_and_keeps_ties_in_order() {
    let leaf = |name: &str, size: u64| disk_core::model::Node {
        name: name.into(),
        size,
        kind: disk_core::model::EntryKind::File,
        modified: None,
        children: vec![],
    };
    let items = vec![leaf("a", 5), leaf("b", 9), leaf("c", 5), leaf("d", 0), leaf("e", 9)];
    let sorted = disk_core::order::sort_largest_first(items);
    let names: Vec<&str> = sorted.iter().map(|n| n.name.as_str()).collect();
    assert_eq!(names, vec!["b", "e", "a", "c", "d"]);
}

#[test]
fn the_walk_stays_on_the_root_device_unless_told_otherwise() {
    let stay = ScanOptions::default();
    assert!(stay.descends_into(7, 7));
    assert!(!stay.descends_into(7, 8));
    let cross = ScanOptions { cross_device: true };
    assert!(cross.descends_into(7, 8));
}

#[test]
fn leaves_hold_their_own_length() {
    let link = disk_core::scanner::leaf_node(String::from("l"), true, 12, None);
    assert_eq!(link.kind, EntryKind::Symlink);
    assert_eq!(link.size, 12);
    assert!(link.children.is_empty());
    let f = disk_core::scanner::leaf_node(String::from("f"), false, 7, None);
    assert_eq!(f.kind, EntryKind::File);
    assert_eq!(f.size, 7);
    assert_eq!(f.name, "f");
}
