//! Diffing two scanned trees: what grew, shrank, appeared, or vanished.
//!
//! Trees are compared by path *relative to the scan root*, so two scans of the
//! same root line up regardless of where the root lives. Paths are compared
//! as paths, component by component: each is keyed by the plain spelling of
//! its components ([`path_key`]), so `docs`, `docs/` and `docs/.` are one path. The change list is
//! folder-aware (a directory that grew is reported alongside the file inside it
//! that caused it), while the added/removed totals are computed at the file
//! level so a change is never counted twice.
use crate::model::{total_size, EntryKind, Node};
use crate::order::{largest_first, sort_largest_first, SizeKeyed};
use crate::path::{
    all_plain, components, joined, lemma_components_sound, lemma_joined_ends_plain,
    lemma_path_key_of_joined, lemma_push_joined, lemma_render_round_trip, path_eq, path_key,
    path_key_text, plain_name, push_path, push_text,
};
use crate::sums::{
    lemma_seq_sum_is_set_sum, lemma_seq_sum_prefix, lemma_seq_sum_take_next, lemma_set_sum_add,
    lemma_set_sum_congruent, lemma_set_sum_disjoint_union, lemma_set_sum_remove, lemma_set_sum_widen,
    seq_sum, set_sum,
};
use vstd::prelude::*;

verus! {

/// Every entry (directories and files) below `children`, keyed by its path
/// relative to the scan root, where the children themselves sit at `prefix`
/// and each child's path is `prefix` joined with its name as `PathBuf::join`
/// does. A later entry at the same path replaces an earlier one.
pub open spec fn entries_below(children: Seq<Node>, prefix: Seq<char>) -> Map<Seq<char>, u64>
    decreases children,
{
    if children.len() == 0 {
        Map::empty()
    } else {
        let c = children.last();
        let rel = push_path(prefix, c.name@);
        let with_c = entries_below(children.drop_last(), prefix).insert(path_key(rel), c.size);
        if c.kind == EntryKind::Dir {
            with_c.union_prefer_right(entries_below(c.children@, rel))
        } else {
            with_c
        }
    }
}

/// Every space-holding leaf (file or symlink) below `children`, keyed by its
/// path relative to the scan root. Directories are looked through, never
/// counted.
pub open spec fn files_below(children: Seq<Node>, prefix: Seq<char>) -> Map<Seq<char>, u64>
    decreases children,
{
    if children.len() == 0 {
        Map::empty()
    } else {
        let c = children.last();
        let rel = push_path(prefix, c.name@);
        let before = files_below(children.drop_last(), prefix);
        if c.kind == EntryKind::Dir {
            before.union_prefer_right(files_below(c.children@, rel))
        } else {
            before.insert(path_key(rel), c.size)
        }
    }
}

/// Every entry of the tree, by path relative to its root.
pub open spec fn all_entries(root: Node) -> Map<Seq<char>, u64> {
    entries_below(root.children@, Seq::empty())
}

/// Every file and symlink of the tree, by path relative to its root.
pub open spec fn all_files(root: Node) -> Map<Seq<char>, u64> {
    files_below(root.children@, Seq::empty())
}

/// `table` lists each key of `m` once, with its size.
pub open spec fn represents(table: Seq<(String, u64)>, m: Map<Seq<char>, u64>) -> bool {
    &&& forall|i: int, j: int| 0 <= i < j < table.len() ==> table[i].0@ != table[j].0@
    &&& forall|i: int| 0 <= i < table.len() ==> m.contains_key(#[trigger] table[i].0@)
    &&& forall|i: int| 0 <= i < table.len() ==> m[#[trigger] table[i].0@] == table[i].1
    &&& forall|k: Seq<char>| #[trigger] m.contains_key(k) ==> exists|i: int| 0 <= i < table.len() && table[i].0@ == k
}

/// The keys of a table, as text.
pub open spec fn table_keys(table: Seq<(String, u64)>) -> Seq<Seq<char>> {
    table.map_values(|e: (String, u64)| e.0@)
}

/// The position of `key` in `table`, if it is there.
fn find_key(table: &Vec<(String, u64)>, key: &String) -> (r: Option<usize>)
    ensures
        match r {
            Some(i) => i < table@.len() && table@[i as int].0@ == key@,
            None => forall|i: int| 0 <= i < table@.len() ==> table@[i].0@ != key@,
        },
{
    let mut i: usize = 0;
    while i < table.len()
        invariant
            i <= table@.len(),
            forall|j: int| 0 <= j < i ==> table@[j].0@ != key@,
        decreases table.len() - i,
    {
        let same: bool = table[i].0 == *key;
        if same {
            return Some(i);
        }
        i = i + 1;
    }
    None
}

/// The size recorded for `key`, if any.
fn lookup(table: &Vec<(String, u64)>, key: &String, Ghost(m): Ghost<Map<Seq<char>, u64>>) -> (r: Option<u64>)
    requires
        represents(table@, m),
    ensures
        r == (if m.contains_key(key@) { Some(m[key@]) } else { None }),
{
    match find_key(table, key) {
        Some(i) => Some(table[i].1),
        None => {
            proof {
                if m.contains_key(key@) {
                    let j = choose|j: int| 0 <= j < table@.len() && table@[j].0@ == key@;
                    assert(table@[j].0@ == key@);
                }
            }
            None
        },
    }
}

/// Record `size` at `key`, replacing what was there.
fn record(table: &mut Vec<(String, u64)>, key: String, size: u64, Ghost(m): Ghost<Map<Seq<char>, u64>>)
    requires
        represents(old(table)@, m),
    ensures
        represents(final(table)@, m.insert(key@, size)),
{
    let ghost k = key@;
    let ghost m2 = m.insert(k, size);
    match find_key(table, &key) {
        Some(i) => {
            let ghost before = table@;
            table.set(i, (key, size));
            assert forall|a: int| 0 <= a < table@.len() implies m2[#[trigger] table@[a].0@] == table@[a].1 by {
                if a != i {
                    assert(before[a].0@ != k);
                }
            }
            assert forall|kk: Seq<char>| #[trigger] m2.contains_key(kk) implies exists|a: int|
                0 <= a < table@.len() && table@[a].0@ == kk by {
                if kk == k {
                    assert(table@[i as int].0@ == kk);
                } else {
                    let a = choose|a: int| 0 <= a < before.len() && before[a].0@ == kk;
                    assert(table@[a].0@ == kk);
                }
            }
        },
        None => {
            let ghost before = table@;
            table.push((key, size));
            assert forall|a: int| 0 <= a < table@.len() implies m2[#[trigger] table@[a].0@] == table@[a].1 by {
                if a < before.len() {
                    assert(before[a].0@ != k);
                }
            }
            assert forall|kk: Seq<char>| #[trigger] m2.contains_key(kk) implies exists|a: int|
                0 <= a < table@.len() && table@[a].0@ == kk by {
                if kk == k {
                    assert(table@[before.len() as int].0@ == kk);
                } else {
                    let a = choose|a: int| 0 <= a < before.len() && before[a].0@ == kk;
                    assert(table@[a].0@ == kk);
                }
            }
        },
    }
}

/// Flatten every node (dirs and files) below `node` into `out`, keyed by path
/// relative to the scan root.
fn flatten_all(
    node: &Node,
    prefix: &str,
    out: &mut Vec<(String, u64)>,
    Ghost(before): Ghost<Map<Seq<char>, u64>>,
)
    requires
        represents(old(out)@, before),
    ensures
        represents(final(out)@, before.union_prefer_right(entries_below(node.children@, prefix@))),
    decreases node,
{
    let mut i: usize = 0;
    while i < node.children.len()
        invariant
            i <= node.children@.len(),
            represents(
                out@,
                before.union_prefer_right(entries_below(node.children@.take(i as int), prefix@)),
            ),
        decreases node.children@.len() - i,
    {
        let child = &node.children[i];
        let ghost done = entries_below(node.children@.take(i as int), prefix@);
        let ghost cur = before.union_prefer_right(done);
        let rel = push_text(prefix, child.name.as_str());
        let key = path_key_text(rel.as_str());
        let ghost k = key@;
        record(out, key, child.size, Ghost(cur));
        let ghost with_child = done.insert(k, child.size);
        assert(node.children@.take(i + 1).drop_last() =~= node.children@.take(i as int));
        assert(node.children@.take(i + 1).last() == *child);
        if child.kind == EntryKind::Dir {
            flatten_all(child, rel.as_str(), out, Ghost(cur.insert(k, child.size)));
            assert(before.union_prefer_right(with_child.union_prefer_right(entries_below(child.children@, rel@)))
                =~= cur.insert(k, child.size).union_prefer_right(entries_below(child.children@, rel@)));
        } else {
            assert(before.union_prefer_right(with_child) =~= cur.insert(k, child.size));
        }
        i = i + 1;
    }
    assert(node.children@.take(node.children@.len() as int) =~= node.children@);
}

/// Flatten only space-holding leaves (files and symlinks) below `node`, so
/// totals computed from this table never double-count a directory and its
/// contents.
fn flatten_files(
    node: &Node,
    prefix: &str,
    out: &mut Vec<(String, u64)>,
    Ghost(before): Ghost<Map<Seq<char>, u64>>,
)
    requires
        represents(old(out)@, before),
    ensures
        represents(final(out)@, before.union_prefer_right(files_below(node.children@, prefix@))),
    decreases node,
{
    let mut i: usize = 0;
    while i < node.children.len()
        invariant
            i <= node.children@.len(),
            represents(
                out@,
                before.union_prefer_right(files_below(node.children@.take(i as int), prefix@)),
            ),
        decreases node.children@.len() - i,
    {
        let child = &node.children[i];
        let ghost done = files_below(node.children@.take(i as int), prefix@);
        let ghost cur = before.union_prefer_right(done);
        let rel = push_text(prefix, child.name.as_str());
        assert(node.children@.take(i + 1).drop_last() =~= node.children@.take(i as int));
        assert(node.children@.take(i + 1).last() == *child);
        if child.kind == EntryKind::Dir {
            flatten_files(child, rel.as_str(), out, Ghost(cur));
            assert(before.union_prefer_right(done.union_prefer_right(files_below(child.children@, rel@)))
                =~= cur.union_prefer_right(files_below(child.children@, rel@)));
        } else {
            let key = path_key_text(rel.as_str());
            let ghost k = key@;
            record(out, key, child.size, Ghost(cur));
            assert(before.union_prefer_right(done.insert(k, child.size)) =~= cur.insert(k, child.size));
        }
        i = i + 1;
    }
    assert(node.children@.take(node.children@.len() as int) =~= node.children@);
}


/// How a single path changed between two scans.
#[derive(Debug, Clone, Copy, PartialEq, Eq, Structural)]
pub enum Change {
    New,
    Vanished,
    Grew,
    Shrank,
    Unchanged,
}

/// The change for one path (relative to the scan root).
#[derive(Debug, Clone, PartialEq, Eq)]
pub struct Delta {
    pub path: String,
    pub old_size: u64,
    pub new_size: u64,
    pub change: Change,
}

/// The mathematical value of a [`Delta`].
pub struct DeltaView {
    pub path: Seq<char>,
    pub old_size: u64,
    pub new_size: u64,
    pub change: Change,
}

impl View for Delta {
    type V = DeltaView;

    open spec fn view(&self) -> DeltaView {
        DeltaView {
            path: self.path@,
            old_size: self.old_size,
            new_size: self.new_size,
            change: self.change,
        }
    }
}

/// The absolute difference of two sizes.
pub open spec fn size_gap(a: u64, b: u64) -> u64 {
    if a >= b {
        (a - b) as u64
    } else {
        (b - a) as u64
    }
}

impl Delta {
    /// Absolute size change, used for ranking.
    pub fn magnitude(&self) -> (m: u64)
        ensures
            m == size_gap(self.new_size, self.old_size),
    {
        if self.new_size >= self.old_size {
            self.new_size - self.old_size
        } else {
            self.old_size - self.new_size
        }
    }
}

impl SizeKeyed for Delta {
    open spec fn rank(&self) -> u64 {
        size_gap(self.new_size, self.old_size)
    }

    fn rank_of(&self) -> (k: u64) {
        self.magnitude()
    }
}

/// The result of diffing two trees.
#[derive(Debug, Clone, PartialEq, Eq)]
pub struct DiffResult {
    /// Changed paths only (no `Unchanged`), sorted by magnitude, largest first.
    pub deltas: Vec<Delta>,
    /// Total bytes added across files (growth + new files).
    pub total_added: u64,
    /// Total bytes removed across files (shrinkage + vanished files).
    pub total_removed: u64,
}

/// How a path present in both scans changed: a size change within
/// `threshold` bytes counts as unchanged.
pub open spec fn change_between(old_size: u64, new_size: u64, threshold: u64) -> Change {
    if new_size > old_size && new_size - old_size > threshold {
        Change::Grew
    } else if old_size > new_size && old_size - new_size > threshold {
        Change::Shrank
    } else {
        Change::Unchanged
    }
}

/// The change at `path`, given every entry of the old and new trees.
pub open spec fn delta_at(
    path: Seq<char>,
    old_all: Map<Seq<char>, u64>,
    new_all: Map<Seq<char>, u64>,
    threshold: u64,
) -> DeltaView {
    if old_all.contains_key(path) && new_all.contains_key(path) {
        DeltaView {
            path,
            old_size: old_all[path],
            new_size: new_all[path],
            change: change_between(old_all[path], new_all[path], threshold),
        }
    } else if new_all.contains_key(path) {
        DeltaView { path, old_size: 0, new_size: new_all[path], change: Change::New }
    } else {
        DeltaView { path, old_size: old_all[path], new_size: 0, change: Change::Vanished }
    }
}

/// The paths, in either tree, whose change is not `Unchanged`.
pub open spec fn changed_paths(
    old_all: Map<Seq<char>, u64>,
    new_all: Map<Seq<char>, u64>,
    threshold: u64,
) -> Set<Seq<char>> {
    old_all.dom().union(new_all.dom()).filter(
        |p: Seq<char>| delta_at(p, old_all, new_all, threshold).change != Change::Unchanged,
    )
}

/// `deltas` lists each changed path exactly once, with its change.
pub open spec fn lists_changes(
    deltas: Seq<DeltaView>,
    old_all: Map<Seq<char>, u64>,
    new_all: Map<Seq<char>, u64>,
    threshold: u64,
) -> bool {
    let changed = changed_paths(old_all, new_all, threshold);
    &&& forall|i: int|
        0 <= i < deltas.len() ==> changed.contains(#[trigger] deltas[i].path) && deltas[i]
            == delta_at(deltas[i].path, old_all, new_all, threshold)
    &&& forall|p: Seq<char>|
        #[trigger] changed.contains(p) ==> exists|i: int| 0 <= i < deltas.len() && deltas[i].path == p
    &&& forall|i: int, j: int| 0 <= i < j < deltas.len() ==> deltas[i].path != deltas[j].path
}

/// The value of a list of changes.
pub open spec fn delta_views(deltas: Seq<Delta>) -> Seq<DeltaView> {
    deltas.map_values(|d: Delta| d@)
}

/// The size of `path` in a file table, zero when absent.
pub open spec fn size_or_zero(files: Map<Seq<char>, u64>, path: Seq<char>) -> nat {
    if files.contains_key(path) {
        files[path] as nat
    } else {
        0
    }
}

/// The bytes a file gained between the scans (growth, or a new file).
pub open spec fn growth(old_files: Map<Seq<char>, u64>, new_files: Map<Seq<char>, u64>) -> spec_fn(Seq<char>) -> nat {
    |p: Seq<char>|
        if size_or_zero(new_files, p) > size_or_zero(old_files, p) {
            (size_or_zero(new_files, p) - size_or_zero(old_files, p)) as nat
        } else {
            0
        }
}

/// The bytes a file lost between the scans (shrinkage, or a vanished file).
pub open spec fn shrinkage(old_files: Map<Seq<char>, u64>, new_files: Map<Seq<char>, u64>) -> spec_fn(Seq<char>) -> nat {
    |p: Seq<char>|
        if size_or_zero(old_files, p) > size_or_zero(new_files, p) {
            (size_or_zero(old_files, p) - size_or_zero(new_files, p)) as nat
        } else {
            0
        }
}

/// The file paths of either tree.
pub open spec fn file_paths(old: Node, new: Node) -> Set<Seq<char>> {
    all_files(old).dom().union(all_files(new).dom())
}

/// Total bytes added across files from `old` to `new`.
pub open spec fn bytes_added(old: Node, new: Node) -> nat {
    set_sum(file_paths(old, new), growth(all_files(old), all_files(new)))
}

/// Total bytes removed across files from `old` to `new`.
pub open spec fn bytes_removed(old: Node, new: Node) -> nat {
    set_sum(file_paths(old, new), shrinkage(all_files(old), all_files(new)))
}

/// The text values of a list of keys.
pub open spec fn key_views(keys: Seq<String>) -> Seq<Seq<char>> {
    keys.map_values(|k: String| k@)
}

/// Every key of either table, each once: first those of `a` in order, then
/// those only `b` has.
fn key_union(
    a: &Vec<(String, u64)>,
    b: &Vec<(String, u64)>,
    Ghost(ma): Ghost<Map<Seq<char>, u64>>,
    Ghost(mb): Ghost<Map<Seq<char>, u64>>,
) -> (keys: Vec<String>)
    requires
        represents(a@, ma),
        represents(b@, mb),
    ensures
        key_views(keys@).no_duplicates(),
        forall|k: Seq<char>|
            key_views(keys@).contains(k) <==> (ma.contains_key(k) || mb.contains_key(k)),
{
    let mut keys: Vec<String> = Vec::new();
    let mut i: usize = 0;
    while i < a.len()
        invariant
            i <= a@.len(),
            represents(a@, ma),
            key_views(keys@).len() == i,
            forall|j: int| 0 <= j < i ==> key_views(keys@)[j] == a@[j].0@,
        decreases a@.len() - i,
    {
        let ghost prev = key_views(keys@);
        keys.push(a[i].0.clone());
        assert(key_views(keys@) =~= prev.push(a@[i as int].0@));
        i = i + 1;
    }
    assert(key_views(keys@).no_duplicates());
    assert forall|k: Seq<char>| key_views(keys@).contains(k) <==> ma.contains_key(k) by {
        if ma.contains_key(k) {
            let j = choose|j: int| 0 <= j < a@.len() && a@[j].0@ == k;
            assert(key_views(keys@)[j] == k);
        }
        if key_views(keys@).contains(k) {
            let j = choose|j: int| 0 <= j < key_views(keys@).len() && key_views(keys@)[j] == k;
            assert(ma.contains_key(a@[j].0@));
        }
    }
    let mut i: usize = 0;
    while i < b.len()
        invariant
            i <= b@.len(),
            represents(a@, ma),
            represents(b@, mb),
            key_views(keys@).no_duplicates(),
            forall|k: Seq<char>| ma.contains_key(k) ==> key_views(keys@).contains(k),
            forall|j: int| 0 <= j < i ==> key_views(keys@).contains(#[trigger] b@[j].0@),
            forall|x: int|
                0 <= x < key_views(keys@).len() ==> ma.contains_key(#[trigger] key_views(keys@)[x])
                    || exists|j: int| 0 <= j < i && b@[j].0@ == key_views(keys@)[x],
        decreases b@.len() - i,
    {
        let key = &b[i].0;
        let seen = lookup(a, key, Ghost(ma));
        let ghost before = key_views(keys@);
        if seen.is_none() {
            keys.push(key.clone());
            assert(key_views(keys@) =~= before.push(key@));
            assert(!before.contains(key@)) by {
                if before.contains(key@) {
                    let x = choose|x: int| 0 <= x < before.len() && before[x] == key@;
                    assert(ma.contains_key(before[x]) || exists|j: int| 0 <= j < i && b@[j].0@ == before[x]);
                    if !ma.contains_key(before[x]) {
                        let j = choose|j: int| 0 <= j < i && b@[j].0@ == before[x];
                        assert(b@[j].0@ != b@[i as int].0@);
                    }
                }
            }
            assert forall|x: int| 0 <= x < key_views(keys@).len() implies ma.contains_key(#[trigger] key_views(keys@)[x])
                || exists|j: int| 0 <= j < i + 1 && b@[j].0@ == key_views(keys@)[x] by {
                if x < before.len() {
                    assert(key_views(keys@)[x] == before[x]);
                    if !ma.contains_key(before[x]) {
                        let j = choose|j: int| 0 <= j < i && b@[j].0@ == before[x];
                        assert(0 <= j < i + 1 && b@[j].0@ == key_views(keys@)[x]);
                    }
                } else {
                    assert(b@[i as int].0@ == key_views(keys@)[x]);
                }
            }
            assert(key_views(keys@)[before.len() as int] == key@);
            assert forall|k: Seq<char>| before.contains(k) implies key_views(keys@).contains(k) by {
                let x = choose|x: int| 0 <= x < before.len() && before[x] == k;
                assert(key_views(keys@)[x] == k);
            }
        } else {
            assert(key_views(keys@) == before);
            assert(before.contains(key@));
            assert forall|x: int| 0 <= x < key_views(keys@).len() implies ma.contains_key(#[trigger] key_views(keys@)[x])
                || exists|j: int| 0 <= j < i + 1 && b@[j].0@ == key_views(keys@)[x] by {
                if !ma.contains_key(before[x]) {
                    let j = choose|j: int| 0 <= j < i && b@[j].0@ == before[x];
                    assert(0 <= j < i + 1 && b@[j].0@ == key_views(keys@)[x]);
                }
            }
        }
        i = i + 1;
    }
    assert forall|k: Seq<char>|
        key_views(keys@).contains(k) <==> (ma.contains_key(k) || mb.contains_key(k)) by {
        if mb.contains_key(k) {
            let j = choose|j: int| 0 <= j < b@.len() && b@[j].0@ == k;
            assert(key_views(keys@).contains(b@[j].0@));
        }
        if key_views(keys@).contains(k) {
            let x = choose|x: int| 0 <= x < key_views(keys@).len() && key_views(keys@)[x] == k;
            if !ma.contains_key(key_views(keys@)[x]) {
                let j = choose|j: int| 0 <= j < b@.len() && b@[j].0@ == key_views(keys@)[x];
                assert(mb.contains_key(b@[j].0@));
            }
        }
    }
    keys
}

/// The change at `key`, from the entry tables of the two trees.
fn delta_for(
    key: &String,
    old_all: &Vec<(String, u64)>,
    new_all: &Vec<(String, u64)>,
    threshold: u64,
    Ghost(mo): Ghost<Map<Seq<char>, u64>>,
    Ghost(mn): Ghost<Map<Seq<char>, u64>>,
) -> (d: Delta)
    requires
        represents(old_all@, mo),
        represents(new_all@, mn),
        mo.contains_key(key@) || mn.contains_key(key@),
    ensures
        d@ == delta_at(key@, mo, mn, threshold),
{
    let o = lookup(old_all, key, Ghost(mo));
    let n = lookup(new_all, key, Ghost(mn));
    match (o, n) {
        (Some(o), Some(n)) => {
            let change = if n > o && n - o > threshold {
                Change::Grew
            } else if o > n && o - n > threshold {
                Change::Shrank
            } else {
                Change::Unchanged
            };
            Delta { path: key.clone(), old_size: o, new_size: n, change }
        },
        (None, Some(n)) => Delta { path: key.clone(), old_size: 0, new_size: n, change: Change::New },
        (Some(o), None) => Delta {
            path: key.clone(),
            old_size: o,
            new_size: 0,
            change: Change::Vanished,
        },
        (None, None) => Delta { path: key.clone(), old_size: 0, new_size: 0, change: Change::Unchanged },
    }
}

/// Whether `path` is present in either tree with a change other than
/// `Unchanged`.
pub open spec fn is_changed(
    path: Seq<char>,
    old_all: Map<Seq<char>, u64>,
    new_all: Map<Seq<char>, u64>,
    threshold: u64,
) -> bool {
    (old_all.contains_key(path) || new_all.contains_key(path)) && delta_at(
        path,
        old_all,
        new_all,
        threshold,
    ).change != Change::Unchanged
}

/// One change per key whose change is not `Unchanged`, in key order.
fn changes_of(
    keys: &Vec<String>,
    old_all: &Vec<(String, u64)>,
    new_all: &Vec<(String, u64)>,
    threshold: u64,
    Ghost(mo): Ghost<Map<Seq<char>, u64>>,
    Ghost(mn): Ghost<Map<Seq<char>, u64>>,
) -> (ds: Vec<Delta>)
    requires
        represents(old_all@, mo),
        represents(new_all@, mn),
        key_views(keys@).no_duplicates(),
        forall|k: Seq<char>|
            key_views(keys@).contains(k) <==> (mo.contains_key(k) || mn.contains_key(k)),
    ensures
        lists_changes(delta_views(ds@), mo, mn, threshold),
{
    let ghost kv = key_views(keys@);
    let mut ds: Vec<Delta> = Vec::new();
    let ghost mut pos: Seq<int> = Seq::empty();
    let mut i: usize = 0;
    while i < keys.len()
        invariant
            i <= keys@.len(),
            kv == key_views(keys@),
            represents(old_all@, mo),
            represents(new_all@, mn),
            forall|k: Seq<char>| kv.contains(k) <==> (mo.contains_key(k) || mn.contains_key(k)),
            pos.len() == ds@.len(),
            forall|x: int|
                0 <= x < ds@.len() ==> 0 <= #[trigger] pos[x] < i && kv[pos[x]] == ds@[x]@.path,
            forall|x: int, y: int| 0 <= x < y < ds@.len() ==> pos[x] < pos[y],
            forall|x: int|
                0 <= x < ds@.len() ==> #[trigger] ds@[x]@ == delta_at(ds@[x]@.path, mo, mn, threshold)
                    && is_changed(ds@[x]@.path, mo, mn, threshold),
            forall|j: int|
                0 <= j < i && is_changed(#[trigger] kv[j], mo, mn, threshold) ==> exists|x: int|
                    0 <= x < ds@.len() && pos[x] == j,
        decreases keys@.len() - i,
    {
        let key = &keys[i];
        assert(kv[i as int] == key@);
        assert(kv.contains(key@));
        let d = delta_for(key, old_all, new_all, threshold, Ghost(mo), Ghost(mn));
        let keep = match d.change {
            Change::Unchanged => false,
            _ => true,
        };
        if keep {
            let ghost n = ds@.len();
            ds.push(d);
            proof {
                let old_pos = pos;
                pos = pos.push(i as int);
                assert(ds@[n as int] == d);
                assert forall|j: int|
                    0 <= j < i + 1 && is_changed(#[trigger] kv[j], mo, mn, threshold) implies exists|x: int|
                    0 <= x < ds@.len() && pos[x] == j by {
                    if j == i {
                        assert(pos[n as int] == j);
                    } else {
                        let x = choose|x: int| 0 <= x < n && old_pos[x] == j;
                        assert(pos[x] == old_pos[x]);
                        assert(0 <= x < ds@.len() && pos[x] == j);
                    }
                }
            }
        } else {
            assert(!is_changed(kv[i as int], mo, mn, threshold));
        }
        i = i + 1;
    }
    proof {
        let dv = delta_views(ds@);
        assert forall|x: int| 0 <= x < dv.len() implies dv[x] == ds@[x]@ by {}
        assert forall|p: Seq<char>| #[trigger] changed_paths(mo, mn, threshold).contains(p) implies exists|x: int|
            0 <= x < dv.len() && dv[x].path == p by {
            assert(is_changed(p, mo, mn, threshold));
            assert(kv.contains(p));
            let j = choose|j: int| 0 <= j < kv.len() && kv[j] == p;
            let x = choose|x: int| 0 <= x < ds@.len() && pos[x] == j;
            assert(dv[x].path == p);
        }
        assert forall|x: int, y: int| 0 <= x < y < dv.len() implies dv[x].path != dv[y].path by {
            assert(pos[x] < pos[y]);
            assert(kv[pos[x]] != kv[pos[y]]);
        }
    }
    ds
}

/// Reordering a list of changes keeps it an exact listing.
proof fn lemma_reorder_keeps_listing(
    a: Seq<Delta>,
    b: Seq<Delta>,
    mo: Map<Seq<char>, u64>,
    mn: Map<Seq<char>, u64>,
    threshold: u64,
)
    requires
        a.to_multiset() == b.to_multiset(),
        lists_changes(delta_views(a), mo, mn, threshold),
    ensures
        lists_changes(delta_views(b), mo, mn, threshold),
{
    broadcast use vstd::seq_lib::group_to_multiset_ensures;

    let av = delta_views(a);
    let bv = delta_views(b);
    let changed = changed_paths(mo, mn, threshold);
    assert(a.no_duplicates()) by {
        assert forall|i: int, j: int| 0 <= i < a.len() && 0 <= j < a.len() && i != j implies a[i] != a[j] by {
            if i < j {
                assert(av[i].path != av[j].path);
            } else {
                assert(av[j].path != av[i].path);
            }
        }
    }
    a.lemma_multiset_has_no_duplicates();
    b.lemma_multiset_has_no_duplicates_conv();
    assert forall|i: int| 0 <= i < bv.len() implies changed.contains(#[trigger] bv[i].path) && bv[i]
        == delta_at(bv[i].path, mo, mn, threshold) by {
        assert(b.contains(b[i]));
        assert(a.to_multiset().count(b[i]) > 0);
        let j = choose|j: int| 0 <= j < a.len() && a[j] == b[i];
        assert(av[j] == bv[i]);
    }
    assert forall|p: Seq<char>| #[trigger] changed.contains(p) implies exists|i: int| 0 <= i < bv.len() && bv[i].path == p by {
        let j = choose|j: int| 0 <= j < av.len() && av[j].path == p;
        assert(a.contains(a[j]));
        assert(b.to_multiset().count(a[j]) > 0);
        let i = choose|i: int| 0 <= i < b.len() && b[i] == a[j];
        assert(bv[i].path == p);
    }
    assert forall|i: int, j: int| 0 <= i < j < bv.len() implies bv[i].path != bv[j].path by {
        assert(b.contains(b[i]));
        assert(b.contains(b[j]));
        assert(a.to_multiset().count(b[i]) > 0);
        assert(a.to_multiset().count(b[j]) > 0);
        let x = choose|x: int| 0 <= x < a.len() && a[x] == b[i];
        let y = choose|y: int| 0 <= y < a.len() && a[y] == b[j];
        assert(b[i] != b[j]);
        if x < y {
            assert(av[x].path != av[y].path);
        } else {
            assert(av[y].path != av[x].path);
        }
    }
}

/// The bytes added and removed over the file paths `keys`.
fn sum_changes(
    keys: &Vec<String>,
    old_files: &Vec<(String, u64)>,
    new_files: &Vec<(String, u64)>,
    Ghost(mo): Ghost<Map<Seq<char>, u64>>,
    Ghost(mn): Ghost<Map<Seq<char>, u64>>,
) -> (r: (u64, u64))
    requires
        represents(old_files@, mo),
        represents(new_files@, mn),
        seq_sum(key_views(keys@), growth(mo, mn)) <= u64::MAX,
        seq_sum(key_views(keys@), shrinkage(mo, mn)) <= u64::MAX,
    ensures
        r.0 == seq_sum(key_views(keys@), growth(mo, mn)),
        r.1 == seq_sum(key_views(keys@), shrinkage(mo, mn)),
{
    let ghost kv = key_views(keys@);
    let ghost up = growth(mo, mn);
    let ghost down = shrinkage(mo, mn);
    let mut added: u64 = 0;
    let mut removed: u64 = 0;
    let mut i: usize = 0;
    while i < keys.len()
        invariant
            i <= keys@.len(),
            kv == key_views(keys@),
            up == growth(mo, mn),
            down == shrinkage(mo, mn),
            represents(old_files@, mo),
            represents(new_files@, mn),
            seq_sum(kv, up) <= u64::MAX,
            seq_sum(kv, down) <= u64::MAX,
            added == seq_sum(kv.take(i as int), up),
            removed == seq_sum(kv.take(i as int), down),
        decreases keys@.len() - i,
    {
        let key = &keys[i];
        assert(kv[i as int] == key@);
        let o = match lookup(old_files, key, Ghost(mo)) {
            Some(o) => o,
            None => 0,
        };
        let n = match lookup(new_files, key, Ghost(mn)) {
            Some(n) => n,
            None => 0,
        };
        proof {
            lemma_seq_sum_take_next(kv, up, i as int);
            lemma_seq_sum_take_next(kv, down, i as int);
            lemma_seq_sum_prefix(kv, up, i + 1);
            lemma_seq_sum_prefix(kv, down, i + 1);
        }
        if n > o {
            added = added + (n - o);
        } else if o > n {
            removed = removed + (o - n);
        }
        i = i + 1;
    }
    assert(kv.take(keys@.len() as int) =~= kv);
    (added, removed)
}

/// Diff `old` against `new`. Size changes within `threshold` count as
/// unchanged.
///
/// The change list holds every path (relative to the root) present in either
/// tree whose change is not `Unchanged`, once each, largest magnitude first.
/// The totals count files and symlinks only, so that a directory and the
/// files inside it are never counted twice.
pub fn diff(old: &Node, new: &Node, threshold: u64) -> (r: DiffResult)
    requires
        bytes_added(*old, *new) <= u64::MAX,
        bytes_removed(*old, *new) <= u64::MAX,
    ensures
        lists_changes(delta_views(r.deltas@), all_entries(*old), all_entries(*new), threshold),
        largest_first(r.deltas@),
        forall|i: int, j: int|
            0 <= i < j < r.deltas@.len() ==> size_gap(r.deltas@[i].new_size, r.deltas@[i].old_size)
                >= size_gap(r.deltas@[j].new_size, r.deltas@[j].old_size),
        r.total_added == bytes_added(*old, *new),
        r.total_removed == bytes_removed(*old, *new),
{
    let ghost empty = Map::<Seq<char>, u64>::empty();
    let ghost mo = all_entries(*old);
    let ghost mn = all_entries(*new);
    let root_prefix = String::new();
    let mut old_all: Vec<(String, u64)> = Vec::new();
    let mut new_all: Vec<(String, u64)> = Vec::new();
    flatten_all(old, root_prefix.as_str(), &mut old_all, Ghost(empty));
    flatten_all(new, root_prefix.as_str(), &mut new_all, Ghost(empty));
    assert(empty.union_prefer_right(mo) =~= mo);
    assert(empty.union_prefer_right(mn) =~= mn);
    let paths = key_union(&old_all, &new_all, Ghost(mo), Ghost(mn));
    let listed = changes_of(&paths, &old_all, &new_all, threshold, Ghost(mo), Ghost(mn));
    let ghost unsorted = listed@;
    let deltas = sort_largest_first(listed);
    proof {
        lemma_reorder_keeps_listing(unsorted, deltas@, mo, mn, threshold);
    }

    let ghost fo = all_files(*old);
    let ghost fnew = all_files(*new);
    let mut old_files: Vec<(String, u64)> = Vec::new();
    let mut new_files: Vec<(String, u64)> = Vec::new();
    flatten_files(old, root_prefix.as_str(), &mut old_files, Ghost(empty));
    flatten_files(new, root_prefix.as_str(), &mut new_files, Ghost(empty));
    assert(empty.union_prefer_right(fo) =~= fo);
    assert(empty.union_prefer_right(fnew) =~= fnew);
    let file_keys = key_union(&old_files, &new_files, Ghost(fo), Ghost(fnew));
    proof {
        let kv = key_views(file_keys@);
        assert(kv.to_set() =~= file_paths(*old, *new));
        lemma_seq_sum_is_set_sum(kv, growth(fo, fnew));
        lemma_seq_sum_is_set_sum(kv, shrinkage(fo, fnew));
    }
    let (total_added, total_removed) = sum_changes(
        &file_keys,
        &old_files,
        &new_files,
        Ghost(fo),
        Ghost(fnew),
    );
    DiffResult { deltas, total_added, total_removed }
}

/// The sum of a term that is zero everywhere is zero.
proof fn lemma_set_sum_zero(s: Set<Seq<char>>, f: spec_fn(Seq<char>) -> nat)
    requires
        s.finite(),
        forall|p: Seq<char>| s.contains(p) ==> f(p) == 0,
    ensures
        set_sum(s, f) == 0,
    decreases s.len(),
{
    if s.len() != 0 {
        let x = s.choose();
        lemma_set_sum_zero(s.remove(x), f);
    }
}

/// Every entry table of a tree is finite.
proof fn lemma_entries_finite(children: Seq<Node>, prefix: Seq<char>)
    ensures
        entries_below(children, prefix).dom().finite(),
        files_below(children, prefix).dom().finite(),
    decreases children,
{
    if children.len() > 0 {
        let c = children.last();
        let rel = push_path(prefix, c.name@);
        let key = path_key(rel);
        lemma_entries_finite(children.drop_last(), prefix);
        lemma_entries_finite(c.children@, rel);
        let e0 = entries_below(children.drop_last(), prefix).insert(key, c.size);
        let e1 = entries_below(c.children@, rel);
        assert(e0.union_prefer_right(e1).dom() =~= e0.dom().union(e1.dom()));
        let f0 = files_below(children.drop_last(), prefix);
        let f1 = files_below(c.children@, rel);
        assert(f0.union_prefer_right(f1).dom() =~= f0.dom().union(f1.dom()));
        assert(f0.insert(key, c.size).dom() =~= f0.dom().insert(key));
        assert(e0.dom() =~= entries_below(children.drop_last(), prefix).dom().insert(key));
    } else {
        assert(entries_below(children, prefix).dom() =~= Set::<Seq<char>>::empty());
        assert(files_below(children, prefix).dom() =~= Set::<Seq<char>>::empty());
    }
}

/// A tree compared with itself shows no change: no path is listed and both
/// totals are zero, whatever the threshold.
pub proof fn law_diff_with_itself_is_empty(tree: Node, threshold: u64)
    ensures
        changed_paths(all_entries(tree), all_entries(tree), threshold) == Set::<Seq<char>>::empty(),
        forall|ds: Seq<DeltaView>|
            lists_changes(ds, all_entries(tree), all_entries(tree), threshold) ==> ds.len() == 0,
        bytes_added(tree, tree) == 0,
        bytes_removed(tree, tree) == 0,
{
    let m = all_entries(tree);
    assert(changed_paths(m, m, threshold) =~= Set::<Seq<char>>::empty());
    assert forall|ds: Seq<DeltaView>| lists_changes(ds, m, m, threshold) implies ds.len() == 0 by {
        if ds.len() > 0 {
            assert(changed_paths(m, m, threshold).contains(ds[0].path));
        }
    }
    lemma_entries_finite(tree.children@, Seq::empty());
    let f = all_files(tree);
    assert(file_paths(tree, tree) =~= f.dom());
    lemma_set_sum_zero(file_paths(tree, tree), growth(f, f));
    lemma_set_sum_zero(file_paths(tree, tree), shrinkage(f, f));
}

/// The change at a path read backwards: swapping the scans swaps the sizes,
/// turns `New` into `Vanished` and `Grew` into `Shrank` (and back), and keeps
/// `Unchanged`.
pub open spec fn reversed(d: DeltaView) -> DeltaView {
    DeltaView {
        path: d.path,
        old_size: d.new_size,
        new_size: d.old_size,
        change: match d.change {
            Change::New => Change::Vanished,
            Change::Vanished => Change::New,
            Change::Grew => Change::Shrank,
            Change::Shrank => Change::Grew,
            Change::Unchanged => Change::Unchanged,
        },
    }
}

/// Diffing the scans the other way round reverses every change, lists the
/// same paths, and swaps the added and removed totals.
pub proof fn law_diff_reversed(old: Node, new: Node, threshold: u64)
    ensures
        changed_paths(all_entries(new), all_entries(old), threshold) == changed_paths(
            all_entries(old),
            all_entries(new),
            threshold,
        ),
        forall|p: Seq<char>|
            #[trigger] changed_paths(all_entries(old), all_entries(new), threshold).contains(p)
                ==> delta_at(p, all_entries(new), all_entries(old), threshold) == reversed(
                delta_at(p, all_entries(old), all_entries(new), threshold),
            ),
        bytes_added(new, old) == bytes_removed(old, new),
        bytes_removed(new, old) == bytes_added(old, new),
{
    let mo = all_entries(old);
    let mn = all_entries(new);
    assert(changed_paths(mn, mo, threshold) =~= changed_paths(mo, mn, threshold));
    let fo = all_files(old);
    let fnew = all_files(new);
    assert(file_paths(new, old) =~= file_paths(old, new));
    assert(growth(fnew, fo) =~= shrinkage(fo, fnew));
    assert(shrinkage(fnew, fo) =~= growth(fo, fnew));
}

/// The size of each path in a file table, zero where it has none.
pub open spec fn size_in(files: Map<Seq<char>, u64>) -> spec_fn(Seq<char>) -> nat {
    |p: Seq<char>| size_or_zero(files, p)
}

/// The bytes held by the files and symlinks of a tree.
pub open spec fn file_bytes(tree: Node) -> nat {
    set_sum(all_files(tree).dom(), size_in(all_files(tree)))
}

/// The totals account for the whole change: the bytes added minus the bytes
/// removed is the change in the bytes held by files.
pub proof fn law_totals_balance(old: Node, new: Node)
    ensures
        bytes_added(old, new) + file_bytes(old) == bytes_removed(old, new) + file_bytes(new),
{
    let fo = all_files(old);
    let fnew = all_files(new);
    let u = file_paths(old, new);
    lemma_entries_finite(old.children@, Seq::empty());
    lemma_entries_finite(new.children@, Seq::empty());
    let up = growth(fo, fnew);
    let down = shrinkage(fo, fnew);
    let so = size_in(fo);
    let sn = size_in(fnew);
    let both = |p: Seq<char>| up(p) + so(p);
    lemma_set_sum_add(u, up, so, both);
    lemma_set_sum_add(u, down, sn, both);
    lemma_set_sum_widen(fo.dom(), u, so);
    lemma_set_sum_widen(fnew.dom(), u, sn);
}

/// Below `children`, every directory's size is the sum of its children's
/// sizes.
pub open spec fn sums_up(children: Seq<Node>) -> bool
    decreases children,
{
    if children.len() == 0 {
        true
    } else {
        let c = children.last();
        &&& sums_up(children.drop_last())
        &&& (c.kind == EntryKind::Dir ==> c.size == total_size(c.children@))
        &&& sums_up(c.children@)
    }
}

/// Below `children`, every name is one plain component and no two siblings
/// share a name, as in a directory read from disk.
pub open spec fn well_named(children: Seq<Node>) -> bool
    decreases children,
{
    if children.len() == 0 {
        true
    } else {
        let c = children.last();
        &&& well_named(children.drop_last())
        &&& plain_name(c.name@)
        &&& forall|i: int| 0 <= i < children.len() - 1 ==> #[trigger] children[i].name@ != c.name@
        &&& well_named(c.children@)
    }
}

/// The relative path `k` is the entry `name` placed at `prefix`, or lies
/// inside it.
pub open spec fn lies_under(k: Seq<char>, prefix: Seq<char>, name: Seq<char>) -> bool {
    let h = push_path(prefix, name);
    h.is_prefix_of(k) && (k.len() == h.len() || k[h.len() as int] == '/')
}

proof fn lemma_well_named_each(children: Seq<Node>)
    requires
        well_named(children),
    ensures
        forall|i: int| 0 <= i < children.len() ==> plain_name(#[trigger] children[i].name@),
    decreases children.len(),
{
    if children.len() > 0 {
        lemma_well_named_each(children.drop_last());
        assert forall|i: int| 0 <= i < children.len() implies plain_name(
            #[trigger] children[i].name@,
        ) by {
            if i < children.len() - 1 {
                assert(children.drop_last()[i] == children[i]);
            }
        }
    }
}

/// A path inside an entry of the directory `name` lies under `name`.
proof fn lemma_deeper_lies_under(
    k: Seq<char>,
    ps: Seq<Seq<char>>,
    name: Seq<char>,
    inner: Seq<char>,
)
    requires
        all_plain(ps),
        plain_name(name),
        plain_name(inner),
        lies_under(k, push_path(joined(ps), name), inner),
    ensures
        lies_under(k, joined(ps), name),
{
    lemma_push_joined(ps, name);
    let qs = ps.push(name);
    lemma_joined_ends_plain(qs);
    let rel = joined(qs);
    let h2 = push_path(rel, inner);
    if inner.len() > 0 && inner[0] == '/' {
        assert(inner.contains('/'));
    }
    assert(h2 =~= rel + seq!['/'] + inner);
    assert forall|i: int| 0 <= i < rel.len() implies rel[i] == k[i] by {
        assert(h2[i] == rel[i]);
        assert(k.subrange(0, h2.len() as int)[i] == k[i]);
    }
    assert(rel =~= k.subrange(0, rel.len() as int));
    assert(h2[rel.len() as int] == '/');
    assert(k.subrange(0, h2.len() as int)[rel.len() as int] == k[rel.len() as int]);
}

proof fn lemma_apart_ordered(k: Seq<char>, ps: Seq<Seq<char>>, a: Seq<char>, b: Seq<char>)
    requires
        all_plain(ps),
        plain_name(a),
        plain_name(b),
        a != b,
        a.len() <= b.len(),
    ensures
        !(lies_under(k, joined(ps), a) && lies_under(k, joined(ps), b)),
{
    let prefix = joined(ps);
    if lies_under(k, prefix, a) && lies_under(k, prefix, b) {
        let pre = if ps.len() == 0 {
            Seq::<char>::empty()
        } else {
            prefix + seq!['/']
        };
        if ps.len() > 0 {
            lemma_joined_ends_plain(ps);
        }
        if a[0] == '/' {
            assert(a.contains('/'));
        }
        if b[0] == '/' {
            assert(b.contains('/'));
        }
        let ha = push_path(prefix, a);
        let hb = push_path(prefix, b);
        assert(ha =~= pre + a);
        assert(hb =~= pre + b);
        let p = pre.len() as int;
        if a.len() == b.len() {
            assert forall|i: int| 0 <= i < a.len() implies a[i] == b[i] by {
                assert(ha[p + i] == a[i]);
                assert(hb[p + i] == b[i]);
                assert(k.subrange(0, ha.len() as int)[p + i] == k[p + i]);
                assert(k.subrange(0, hb.len() as int)[p + i] == k[p + i]);
            }
            assert(a =~= b);
        } else {
            let q = p + a.len();
            assert(hb[q] == b[a.len() as int]);
            assert(k.subrange(0, hb.len() as int)[q] == k[q]);
            assert(k.len() != ha.len());
            assert(k[q] == '/');
            assert(b.contains('/'));
        }
    }
}

/// No path lies under two different plain names at one place.
proof fn lemma_apart(k: Seq<char>, ps: Seq<Seq<char>>, a: Seq<char>, b: Seq<char>)
    requires
        all_plain(ps),
        plain_name(a),
        plain_name(b),
        a != b,
        lies_under(k, joined(ps), a),
    ensures
        !lies_under(k, joined(ps), b),
{
    if a.len() <= b.len() {
        lemma_apart_ordered(k, ps, a, b);
    } else {
        lemma_apart_ordered(k, ps, b, a);
    }
}

/// For plain names, the key of a child's path is the path itself.
proof fn lemma_child_key(ps: Seq<Seq<char>>, n: Seq<char>)
    requires
        all_plain(ps),
        plain_name(n),
    ensures
        path_key(push_path(joined(ps), n)) == push_path(joined(ps), n),
        push_path(joined(ps), n) == joined(ps.push(n)),
        all_plain(ps.push(n)),
{
    lemma_push_joined(ps, n);
    lemma_path_key_of_joined(ps.push(n));
}

/// Every file path below `children`, placed at the plain names `ps`, lies
/// under one of their names.
proof fn lemma_file_keys_lie_under(children: Seq<Node>, ps: Seq<Seq<char>>, k: Seq<char>)
    requires
        well_named(children),
        all_plain(ps),
        files_below(children, joined(ps)).contains_key(k),
    ensures
        exists|i: int| 0 <= i < children.len() && lies_under(k, joined(ps), children[i].name@),
    decreases children,
{
    let c = children.last();
    let last = children.len() - 1;
    let prefix = joined(ps);
    let rel = push_path(prefix, c.name@);
    let init = children.drop_last();
    assert(children[last] == c);
    lemma_child_key(ps, c.name@);
    let qs = ps.push(c.name@);
    if c.kind == EntryKind::Dir && files_below(c.children@, rel).contains_key(k) {
        lemma_file_keys_lie_under(c.children@, qs, k);
        let j = choose|j: int|
            0 <= j < c.children@.len() && lies_under(k, joined(qs), c.children@[j].name@);
        lemma_well_named_each(c.children@);
        lemma_deeper_lies_under(k, ps, c.name@, c.children@[j].name@);
    } else if c.kind != EntryKind::Dir && k == rel {
        assert(rel.is_prefix_of(k));
    } else {
        lemma_file_keys_lie_under(init, ps, k);
        let i = choose|i: int| 0 <= i < init.len() && lies_under(k, prefix, init[i].name@);
        assert(init[i] == children[i]);
    }
}

/// The files below `children` whose directories sum their children, with
/// plain distinct names, hold exactly the children's total size.
proof fn lemma_file_bytes_below(children: Seq<Node>, ps: Seq<Seq<char>>)
    requires
        sums_up(children),
        well_named(children),
        all_plain(ps),
    ensures
        set_sum(files_below(children, joined(ps)).dom(), size_in(files_below(children, joined(ps))))
            == total_size(children),
    decreases children,
{
    let prefix = joined(ps);
    lemma_entries_finite(children, prefix);
    let all = files_below(children, prefix);
    if children.len() == 0 {
        assert(all.dom() =~= Set::<Seq<char>>::empty());
    } else {
        let c = children.last();
        let init = children.drop_last();
        let rel = push_path(prefix, c.name@);
        let before = files_below(init, prefix);
        assert(total_size(children) == total_size(init) + c.size);
        lemma_child_key(ps, c.name@);
        let qs = ps.push(c.name@);
        lemma_file_bytes_below(init, ps);
        lemma_entries_finite(init, prefix);
        lemma_well_named_each(init);
        assert forall|k: Seq<char>| before.contains_key(k) implies !lies_under(k, prefix, c.name@) by {
            lemma_file_keys_lie_under(init, ps, k);
            let i = choose|i: int| 0 <= i < init.len() && lies_under(k, prefix, init[i].name@);
            assert(init[i] == children[i]);
            assert(plain_name(init[i].name@));
            lemma_apart(k, ps, init[i].name@, c.name@);
        }
        if c.kind == EntryKind::Dir {
            let sub = files_below(c.children@, rel);
            lemma_file_bytes_below(c.children@, qs);
            lemma_entries_finite(c.children@, rel);
            lemma_well_named_each(c.children@);
            assert forall|k: Seq<char>| sub.contains_key(k) implies lies_under(k, prefix, c.name@) by {
                lemma_file_keys_lie_under(c.children@, qs, k);
                let j = choose|j: int|
                    0 <= j < c.children@.len() && lies_under(k, joined(qs), c.children@[j].name@);
                lemma_deeper_lies_under(k, ps, c.name@, c.children@[j].name@);
            }
            assert(before.dom().disjoint(sub.dom()));
            assert(all.dom() =~= before.dom().union(sub.dom()));
            lemma_set_sum_disjoint_union(before.dom(), sub.dom(), size_in(all));
            lemma_set_sum_congruent(before.dom(), size_in(all), size_in(before));
            lemma_set_sum_congruent(sub.dom(), size_in(all), size_in(sub));
        } else {
            assert(rel.is_prefix_of(rel));
            assert(!before.contains_key(rel));
            assert(all.dom() =~= before.dom().insert(rel));
            lemma_set_sum_remove(all.dom(), size_in(all), rel);
            assert(all.dom().remove(rel) =~= before.dom());
            lemma_set_sum_congruent(before.dom(), size_in(all), size_in(before));
        }
    }
}

/// Every byte of a scanned directory is held by exactly one file or symlink
/// below it: when each directory's size is the sum of its children's and
/// siblings carry distinct plain names, the file bytes of the tree are its
/// root's size, whatever order the children come in.
pub proof fn law_file_bytes_are_the_root_size(tree: Node)
    requires
        tree.kind == EntryKind::Dir,
        tree.size == total_size(tree.children@),
        sums_up(tree.children@),
        well_named(tree.children@),
    ensures
        file_bytes(tree) == tree.size,
{
    let none = Seq::<Seq<char>>::empty();
    assert(joined(none) == Seq::<char>::empty());
    lemma_file_bytes_below(tree.children@, none);
}

/// Every byte of change is counted once: between two scanned directories,
/// the bytes added minus the bytes removed is the change in the root's size.
pub proof fn law_totals_balance_root_sizes(old: Node, new: Node)
    requires
        old.kind == EntryKind::Dir,
        new.kind == EntryKind::Dir,
        old.size == total_size(old.children@),
        new.size == total_size(new.children@),
        sums_up(old.children@),
        sums_up(new.children@),
        well_named(old.children@),
        well_named(new.children@),
    ensures
        bytes_added(old, new) + old.size == bytes_removed(old, new) + new.size,
{
    law_totals_balance(old, new);
    law_file_bytes_are_the_root_size(old);
    law_file_bytes_are_the_root_size(new);
}

/// Entries are keyed as paths are compared: two relative paths have the
/// same key exactly when they have the same components, so a diff lines up
/// the paths that are equal as paths and keeps apart those that are not.
pub proof fn law_keys_match_paths(a: Seq<char>, b: Seq<char>)
    ensures
        (path_key(a) == path_key(b)) <==> path_eq(a, b),
{
    lemma_components_sound(a);
    lemma_components_sound(b);
    lemma_render_round_trip(components(a));
    lemma_render_round_trip(components(b));
}

/// Each listed change carries the sizes the two trees hold at its path, and
/// every path that appeared, vanished, or moved by more than the threshold
/// is listed: an
/// entry in both trees shows both sizes and grew or shrank by more than the
/// threshold; an entry only in the new tree is new, with old size 0 and its
/// whole size as new size; an entry only in the old tree vanished, with its
/// whole size as old size and new size 0. So an appeared or vanished entry
/// ranks by its whole size.
pub proof fn law_listed_change_sizes(
    ds: Seq<DeltaView>,
    old_all: Map<Seq<char>, u64>,
    new_all: Map<Seq<char>, u64>,
    threshold: u64,
)
    requires
        lists_changes(ds, old_all, new_all, threshold),
    ensures
        forall|i: int|
            0 <= i < ds.len() ==> (old_all.contains_key(#[trigger] ds[i].path) || new_all.contains_key(
                ds[i].path,
            )),
        forall|i: int|
            0 <= i < ds.len() && old_all.contains_key(#[trigger] ds[i].path) && new_all.contains_key(
                ds[i].path,
            ) ==> {
                &&& ds[i].old_size == old_all[ds[i].path]
                &&& ds[i].new_size == new_all[ds[i].path]
                &&& (ds[i].change == Change::Grew && ds[i].new_size > ds[i].old_size + threshold
                    || ds[i].change == Change::Shrank && ds[i].old_size > ds[i].new_size + threshold)
            },
        forall|i: int|
            0 <= i < ds.len() && !old_all.contains_key(#[trigger] ds[i].path) ==> {
                &&& ds[i].change == Change::New
                &&& ds[i].old_size == 0
                &&& ds[i].new_size == new_all[ds[i].path]
                &&& size_gap(ds[i].new_size, ds[i].old_size) == new_all[ds[i].path]
            },
        forall|i: int|
            0 <= i < ds.len() && !new_all.contains_key(#[trigger] ds[i].path) ==> {
                &&& ds[i].change == Change::Vanished
                &&& ds[i].new_size == 0
                &&& ds[i].old_size == old_all[ds[i].path]
                &&& size_gap(ds[i].new_size, ds[i].old_size) == old_all[ds[i].path]
            },
        forall|p: Seq<char>|
            #![trigger old_all.contains_key(p), new_all.contains_key(p)]
            (old_all.contains_key(p) || new_all.contains_key(p)) && !(old_all.contains_key(p)
                && new_all.contains_key(p) && old_all[p] <= new_all[p] + threshold && new_all[p]
                <= old_all[p] + threshold) ==> exists|i: int| 0 <= i < ds.len() && ds[i].path == p,
{
    assert forall|p: Seq<char>|
        #![trigger old_all.contains_key(p), new_all.contains_key(p)]
        (old_all.contains_key(p) || new_all.contains_key(p)) && !(old_all.contains_key(p)
            && new_all.contains_key(p) && old_all[p] <= new_all[p] + threshold && new_all[p]
            <= old_all[p] + threshold) implies exists|i: int| 0 <= i < ds.len() && ds[i].path == p by {
        assert(old_all.dom().union(new_all.dom()).contains(p));
        assert(changed_paths(old_all, new_all, threshold).contains(p));
    }
    assert forall|i: int| 0 <= i < ds.len() implies (old_all.contains_key(#[trigger] ds[i].path)
        || new_all.contains_key(ds[i].path)) by {
        assert(changed_paths(old_all, new_all, threshold).contains(ds[i].path));
    }
}

/// Trees are compared by paths relative to their roots, so where a root
/// lives (its name) plays no part: two roots with the same children have the
/// same entries and files.
pub proof fn law_root_name_plays_no_part(a: Node, b: Node)
    requires
        a.children@ == b.children@,
    ensures
        all_entries(a) == all_entries(b),
        all_files(a) == all_files(b),
{
}

/// Raising the threshold never adds a change: every path listed at the
/// higher threshold is listed at the lower one too, with the same sizes.
pub proof fn law_higher_threshold_lists_fewer(old: Node, new: Node, low: u64, high: u64)
    requires
        low <= high,
    ensures
        changed_paths(all_entries(old), all_entries(new), high).subset_of(
            changed_paths(all_entries(old), all_entries(new), low),
        ),
        forall|p: Seq<char>|
            #[trigger] changed_paths(all_entries(old), all_entries(new), high).contains(p) ==> delta_at(
                p,
                all_entries(old),
                all_entries(new),
                high,
            ) == delta_at(p, all_entries(old), all_entries(new), low),
{
}

} // verus!
