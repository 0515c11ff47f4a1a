//! Snapshot records, and the naming of their files.
//!
//! Each snapshot is stored as two files in the snapshots directory:
//! - `<id>.snap` — the full tree, in a compact binary encoding.
//! - `<id>.meta.json` — lightweight metadata, so listing never loads trees.
//!
//! Encoding, decoding and the file I/O happen in the caller; this module
//! decides the file names and which directory entries are metadata files.
use crate::model::Node;
use std::path::PathBuf;
use std::time::SystemTime;
use vstd::prelude::*;

verus! {

/// Lightweight metadata describing a snapshot, cheap to list.
#[derive(Debug, Clone, PartialEq, Eq)]
pub struct SnapshotMeta {
    pub id: String,
    pub created_at: SystemTime,
    pub roots: Vec<PathBuf>,
    pub total_size: u64,
    pub entry_count: u64,
    pub skipped_count: u64,
}

/// A full snapshot: metadata plus the scanned tree.
#[derive(Debug, PartialEq, Eq)]
pub struct Snapshot {
    pub meta: SnapshotMeta,
    pub root: Node,
}

/// The suffix of a snapshot's tree file.
pub open spec fn snap_suffix() -> Seq<char> {
    ".snap"@
}

/// The suffix of a snapshot's metadata file.
pub open spec fn meta_suffix() -> Seq<char> {
    ".meta.json"@
}

/// Whether `s` ends with `suffix`.
pub open spec fn text_ends_with(s: Seq<char>, suffix: Seq<char>) -> bool {
    suffix.len() <= s.len() && s.subrange(s.len() - suffix.len(), s.len() as int) == suffix
}

/// The name of the tree file of the snapshot `id`: `<id>.snap`.
pub fn snap_file_name(id: &str) -> (r: String)
    ensures
        r@ == id@ + snap_suffix(),
{
    let mut name = String::from_str(id);
    name.append(".snap");
    name
}

/// The name of the metadata file of the snapshot `id`: `<id>.meta.json`.
pub fn meta_file_name(id: &str) -> (r: String)
    ensures
        r@ == id@ + meta_suffix(),
{
    let mut name = String::from_str(id);
    name.append(".meta.json");
    name
}

/// Whether `s` ends with `suffix`, comparing characters.
fn ends_with_text(s: &str, suffix: &str) -> (r: bool)
    ensures
        r == text_ends_with(s@, suffix@),
{
    let n = s.unicode_len();
    let m = suffix.unicode_len();
    if m > n {
        return false;
    }
    let mut i: usize = 0;
    while i < m
        invariant
            m <= n,
            n == s@.len(),
            m == suffix@.len(),
            i <= m,
            forall|j: int| 0 <= j < i ==> s@[n - m + j] == suffix@[j],
        decreases m - i,
    {
        if s.get_char(n - m + i) != suffix.get_char(i) {
            assert(s@.subrange(n - m, n as int)[i as int] != suffix@[i as int]);
            return false;
        }
        i = i + 1;
    }
    assert(s@.subrange(n - m, n as int) =~= suffix@);
    true
}

/// Whether the directory entry `name` is a snapshot metadata file, i.e. ends
/// in `.meta.json`.
pub fn is_meta_file_name(name: &str) -> (r: bool)
    ensures
        r == text_ends_with(name@, meta_suffix()),
{
    ends_with_text(name, ".meta.json")
}

/// Listing finds exactly the metadata files that saving writes: the name
/// of a snapshot's metadata file is always taken for metadata, and the name
/// of its tree file never is.
pub proof fn law_listing_sees_only_metadata(id: Seq<char>)
    ensures
        text_ends_with(id + meta_suffix(), meta_suffix()),
        !text_ends_with(id + snap_suffix(), meta_suffix()),
{
    reveal_strlit(".meta.json");
    reveal_strlit(".snap");
    let m = id + meta_suffix();
    assert(m.subrange(m.len() - meta_suffix().len(), m.len() as int) =~= meta_suffix());
    let s = id + snap_suffix();
    if s.len() >= meta_suffix().len() {
        let tail = s.subrange(s.len() - meta_suffix().len(), s.len() as int);
        assert(tail[9] == 'p');
        assert(meta_suffix()[9] == 'n');
    }
}

} // verus!
