//! The engine behind a disk space organizer: the sized file tree a scan
//! produces, the diff of two scans (what grew, shrank, appeared or vanished),
//! the guards that decide what may be moved to the Trash, the naming of
//! snapshot files, human-readable sizes, and the navigation state of the
//! organizer window.
//!
//! Filesystem walking, snapshot encoding and file I/O, the Trash itself and
//! drawing live with the caller; each hands this crate plain values and
//! takes plain values back.

pub mod std_types;
pub mod model;
pub mod path;
pub mod delete;
pub mod text;
pub mod format;
pub mod sums;
pub mod order;
pub mod scanner;
pub mod diff;
pub mod snapshot;
pub mod organizer;
