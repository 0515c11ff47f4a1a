//! Core data model: the sized file tree produced by a scan.
use crate::order::{largest_first, SizeKeyed};
use std::time::SystemTime;
use vstd::prelude::*;

verus! {

/// What kind of filesystem entry a [`Node`] represents.
#[derive(Debug, Clone, Copy, PartialEq, Eq, Structural)]
pub enum EntryKind {
    Dir,
    File,
    Symlink,
}

/// One node in the scanned tree.
///
/// Only the component `name` is stored (not the full path) to keep large trees
/// memory-light; full paths are reconstructed during traversal.
#[derive(Debug, PartialEq, Eq)]
pub struct Node {
    pub name: String,
    /// Aggregate logical size in bytes. For directories this is the sum of all
    /// descendants; for files it is the file's own length.
    pub size: u64,
    pub kind: EntryKind,
    pub modified: Option<SystemTime>,
    /// Children. Empty for files. Sorted largest-first after a scan.
    pub children: Vec<Node>,
}

impl SizeKeyed for Node {
    open spec fn rank(&self) -> u64 {
        self.size
    }

    fn rank_of(&self) -> (k: u64) {
        self.size
    }
}

/// The total of the sizes of `nodes`.
pub open spec fn total_size(nodes: Seq<Node>) -> nat
    decreases nodes.len(),
{
    if nodes.len() == 0 {
        0
    } else {
        total_size(nodes.drop_last()) + nodes.last().size as nat
    }
}

/// A tree as a scan leaves it: every directory's size is the sum of its
/// children's sizes and its children run largest first; files and symlinks
/// have no children.
pub open spec fn well_sized(node: Node) -> bool
    decreases node, 1nat,
{
    &&& (node.kind == EntryKind::Dir ==> node.size == total_size(node.children@))
    &&& (node.kind == EntryKind::Dir ==> largest_first(node.children@))
    &&& (node.kind != EntryKind::Dir ==> node.children@.len() == 0)
    &&& all_well_sized(node.children@)
}

/// Every node of `nodes` is [`well_sized`].
pub open spec fn all_well_sized(nodes: Seq<Node>) -> bool
    decreases nodes, 0nat,
{
    if nodes.len() == 0 {
        true
    } else {
        all_well_sized(nodes.drop_last()) && well_sized(nodes.last())
    }
}

/// [`all_well_sized`] holds exactly when each node is well sized.
pub proof fn lemma_all_well_sized(nodes: Seq<Node>)
    ensures
        all_well_sized(nodes) <==> forall|i: int| 0 <= i < nodes.len() ==> #[trigger] well_sized(nodes[i]),
    decreases nodes.len(),
{
    if nodes.len() > 0 {
        lemma_all_well_sized(nodes.drop_last());
        if forall|i: int| 0 <= i < nodes.len() ==> #[trigger] well_sized(nodes[i]) {
            assert forall|i: int| 0 <= i < nodes.drop_last().len() implies #[trigger] well_sized(nodes.drop_last()[i]) by {
                assert(nodes.drop_last()[i] == nodes[i]);
            }
            assert(well_sized(nodes[nodes.len() - 1]));
        }
        if all_well_sized(nodes) {
            assert forall|i: int| 0 <= i < nodes.len() implies #[trigger] well_sized(nodes[i]) by {
                if i < nodes.len() - 1 {
                    assert(nodes.drop_last()[i] == nodes[i]);
                }
            }
        }
    }
}

/// Removing the `i`-th node takes its size out of the total.
pub proof fn lemma_total_size_remove(nodes: Seq<Node>, i: int)
    requires
        0 <= i < nodes.len(),
    ensures
        total_size(nodes) == total_size(nodes.remove(i)) + nodes[i].size,
    decreases nodes.len(),
{
    if i < nodes.len() - 1 {
        lemma_total_size_remove(nodes.drop_last(), i);
        assert(nodes.remove(i).drop_last() =~= nodes.drop_last().remove(i));
        assert(nodes.remove(i).last() == nodes.last());
    } else {
        assert(nodes.remove(i) =~= nodes.drop_last());
    }
}

/// Reordering nodes does not change their total size.
pub proof fn lemma_total_size_reorder(a: Seq<Node>, b: Seq<Node>)
    requires
        a.to_multiset() == b.to_multiset(),
    ensures
        total_size(a) == total_size(b),
    decreases a.len(),
{
    broadcast use vstd::seq_lib::group_to_multiset_ensures;

    if a.len() == 0 {
        a.to_multiset_ensures();
        b.to_multiset_ensures();
        assert(b.len() == 0);
        assert(b =~= a);
    } else {
        let x = a.last();
        let init = a.drop_last();
        assert(a == init.push(x));
        assert(a.to_multiset().count(x) > 0);
        assert(b.contains(x));
        let i = choose|i: int| 0 <= i < b.len() && b[i] == x;
        assert(b.remove(i).to_multiset() == b.to_multiset().remove(x));
        assert(init.to_multiset() =~= a.to_multiset().remove(x));
        lemma_total_size_reorder(init, b.remove(i));
        lemma_total_size_remove(b, i);
    }
}

/// The total size of nodes is the sum of their sizes: nothing for no
/// nodes, a node's own size for one, and totals of two runs add up.
pub proof fn law_total_size_adds(a: Seq<Node>, b: Seq<Node>, n: Node)
    ensures
        total_size(Seq::<Node>::empty()) == 0,
        total_size(seq![n]) == n.size,
        total_size(a + b) == total_size(a) + total_size(b),
    decreases b.len(),
{
    assert(seq![n].drop_last() =~= Seq::<Node>::empty());
    if b.len() == 0 {
        assert(a + b =~= a);
    } else {
        law_total_size_adds(a, b.drop_last(), n);
        assert((a + b).drop_last() =~= a + b.drop_last());
        assert((a + b).last() == b.last());
    }
}

} // verus!
