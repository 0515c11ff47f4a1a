//! The computing half of a filesystem scan: the scan options and outcome, and
//! the roll-up that turns the scanned children of a directory into its sized
//! node. Walking the filesystem itself happens in the caller.
use crate::model::{all_well_sized, total_size, well_sized, EntryKind, Node};
use crate::order::{has_rank, largest_first, sort_largest_first, SizeKeyed};
use std::path::PathBuf;
use std::time::SystemTime;
use vstd::prelude::*;

verus! {

/// Options controlling a scan.
#[derive(Debug, Clone)]
pub struct ScanOptions {
    /// If false (the default), the scan stays on the same filesystem as the
    /// root and does not descend into mounted volumes (compared via device id).
    pub cross_device: bool,
}

impl Default for ScanOptions {
    fn default() -> (r: ScanOptions)
        ensures
            !r.cross_device,
    {
        ScanOptions { cross_device: false }
    }
}

impl ScanOptions {
    /// Whether the walk enters a directory on device `dev` when the scan root
    /// lies on device `root_dev`: always when crossing devices is allowed,
    /// otherwise only on the root's own device.
    pub fn descends_into(&self, root_dev: u64, dev: u64) -> (r: bool)
        ensures
            r == (self.cross_device || dev == root_dev),
    {
        self.cross_device || dev == root_dev
    }
}

/// The result of a scan: the sized tree plus any paths that could not be read.
#[derive(Debug)]
pub struct ScanOutcome {
    pub root: Node,
    pub skipped: Vec<PathBuf>,
}

/// The node for an entry that is not a directory: a symlink is its own entry
/// (never followed), anything else is a file; either holds its own length and
/// has no children.
pub fn leaf_node(name: String, is_symlink: bool, len: u64, modified: Option<SystemTime>) -> (node:
    Node)
    ensures
        node.name == name,
        node.size == len,
        node.kind == (if is_symlink {
            EntryKind::Symlink
        } else {
            EntryKind::File
        }),
        node.modified == modified,
        node.children@.len() == 0,
        well_sized(node),
{
    let kind = if is_symlink {
        EntryKind::Symlink
    } else {
        EntryKind::File
    };
    let node = Node { name, size: len, kind, modified, children: Vec::new() };
    assert(all_well_sized(node.children@));
    node
}

/// Whether a node holds `k` bytes.
pub open spec fn has_size(k: u64) -> spec_fn(Node) -> bool {
    |n: Node| n.size == k
}

/// The node for a directory named `name` whose entries were scanned into
/// `children`: its size is the sum of theirs, and they are kept largest first
/// so that rankings and the treemap read top-down; entries of equal size keep
/// the order they were scanned in.
pub fn dir_node(name: String, modified: Option<SystemTime>, children: Vec<Node>) -> (node: Node)
    requires
        total_size(children@) <= u64::MAX,
    ensures
        node.name == name,
        node.kind == EntryKind::Dir,
        node.modified == modified,
        node.size == total_size(children@),
        node.children@.to_multiset() == children@.to_multiset(),
        largest_first(node.children@),
        forall|i: int, j: int|
            0 <= i < j < node.children@.len() ==> #[trigger] node.children@[i].size
                >= #[trigger] node.children@[j].size,
        forall|k: u64| #[trigger] node.children@.filter(has_rank::<Node>(k)) == children@.filter(has_rank::<Node>(k)),
        forall|k: u64| #[trigger] node.children@.filter(has_size(k)) == children@.filter(has_size(k)),
        (forall|i: int| 0 <= i < children@.len() ==> #[trigger] well_sized(children@[i]))
            ==> well_sized(node),
{
    let mut total: u64 = 0;
    let mut i: usize = 0;
    while i < children.len()
        invariant
            i <= children.len(),
            total == total_size(children@.take(i as int)),
            total_size(children@) <= u64::MAX,
        decreases children.len() - i,
    {
        proof {
            assert(children@.take(i + 1).drop_last() =~= children@.take(i as int));
            lemma_total_size_prefix(children@, i + 1);
        }
        total = total + children[i].size;
        i = i + 1;
    }
    assert(children@.take(children.len() as int) =~= children@);
    let ghost scanned = children@;
    let sorted = sort_largest_first(children);
    let node = Node { name, size: total, kind: EntryKind::Dir, modified, children: sorted };
    proof {
        assert forall|k: u64| #[trigger] node.children@.filter(has_size(k)) == children@.filter(has_size(k)) by {
            assert(has_rank::<Node>(k) =~= has_size(k));
            assert(node.children@.filter(has_rank::<Node>(k)) == scanned.filter(has_rank::<Node>(k)));
        }
        crate::model::lemma_total_size_reorder(node.children@, scanned);
        if forall|i: int| 0 <= i < scanned.len() ==> #[trigger] well_sized(scanned[i]) {
            let s = node.children@;
            assert forall|i: int| 0 <= i < s.len() implies #[trigger] well_sized(s[i]) by {
                s.to_multiset_ensures();
                scanned.to_multiset_ensures();
                assert(s.to_multiset().count(s[i]) > 0);
                assert(scanned.contains(s[i]));
            }
            assert(node.size == total_size(node.children@));
            assert(largest_first(node.children@));
            assert(forall|i: int| 0 <= i < node.children@.len() ==> #[trigger] well_sized(node.children@[i]));
            crate::model::lemma_all_well_sized(s);
            assert(well_sized(node));
        }
    }
    node
}

/// A prefix of the nodes never totals more than all of them.
proof fn lemma_total_size_prefix(nodes: Seq<Node>, i: int)
    requires
        0 <= i <= nodes.len(),
    ensures
        total_size(nodes.take(i)) <= total_size(nodes),
    decreases nodes.len(),
{
    if i < nodes.len() {
        lemma_total_size_prefix(nodes.drop_last(), i);
        assert(nodes.drop_last().take(i) =~= nodes.take(i));
    } else {
        assert(nodes.take(i) =~= nodes);
    }
}

/// The children of a well-sized directory run by byte size, largest first,
/// at every level: a later child never holds more bytes than an earlier one.
pub proof fn law_children_run_largest_first_by_size(node: Node)
    requires
        well_sized(node),
        node.kind == EntryKind::Dir,
    ensures
        forall|i: int, j: int|
            0 <= i < j < node.children@.len() ==> #[trigger] node.children@[i].size
                >= #[trigger] node.children@[j].size,
{
    assert forall|i: int, j: int| 0 <= i < j < node.children@.len() implies #[trigger] node.children@[i].size
        >= #[trigger] node.children@[j].size by {
        assert(node.children@[i].rank() >= node.children@[j].rank());
    }
}

} // verus!
