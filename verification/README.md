# disk_core

The engine of a small disk space organizer, written in Verus: the sized file
tree a scan produces, the diff of two scans (what grew, shrank, appeared or
vanished), the guards that decide what may be moved to the Trash, snapshot
file naming, human-readable sizes, and the navigation state of the organizer
window. Every function in `src/` carries a contract that Verus proves, except
three trusted wrappers around std whose contracts restate std's documentation:
`try_receive` (`Receiver::try_recv`, in `src/organizer.rs`), `std_components`
(`Path::components`, in `src/path.rs`) and `stable_sort_by_rank`
(`slice::sort_by_key`, in `src/order.rs`), plus the declared std types and the
`clone` of `SystemTime` in `src/std_types.rs`.

## Layout

- `src/model.rs` — `Node`, `EntryKind`, and what a well-sized tree is.
- `src/scanner.rs` — scan options and outcome; `dir_node`, the roll-up of a
  scanned directory (size is the sum of its children, children largest first).
- `src/diff.rs` — `diff`: every changed path once, largest change first, and
  file-level added/removed totals; laws on diffing a tree with itself, on
  reversing a diff, on the totals balancing the change in the root's size,
  and on paths being keyed exactly by their components (as `PathBuf`s
  compare).
- `src/delete.rs` — `check_deletable` and its refusals (the filesystem root,
  the home folder, system paths, scan roots themselves, anything outside the
  scan roots), with laws on what an approval guarantees.
- `src/path.rs` — the component view of Unix paths that the guards and the
  diff compare, joining as `PathBuf::push` does, and the plain spelling of a
  component list that diff tables are keyed by.
- `src/format.rs`, `src/text.rs` — `human_size`, with the binary64 rounding
  of the quotient modelled exactly, and decimal rendering.
- `src/snapshot.rs` — snapshot records and the names of their files.
- `src/organizer.rs` — window state: scan progress, drill-down path,
  breadcrumb and selection.
- `src/order.rs`, `src/sums.rs` — largest-first ordering and finite sums.
- `app/` — the desktop program: filesystem walking, snapshot encoding and I/O,
  the Trash, the egui window and the treemap layout. It is written against
  `eframe`, which is not among the dependencies in `Cargo.toml`, so `app/`
  does not build until that crate is added.
- `tests/` — the test suite.
