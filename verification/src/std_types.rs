//! Operating-system types that the library carries along without looking
//! inside: timestamps and paths as the filesystem reports them.
use vstd::prelude::*;

verus! {

/// A point in time as the operating system reports it; carried through
/// unchanged, never inspected.
#[verifier::external_type_specification]
#[verifier::external_body]
pub struct ExSystemTime(std::time::SystemTime);

/// Trusted: `SystemTime` is `Copy`, so its `clone` returns the same instant.
/// The derived `Clone` of `SnapshotMeta` calls it; without it Verus refuses
/// that derive.
pub assume_specification[ <std::time::SystemTime as Clone>::clone ](t: &std::time::SystemTime) -> (r:
    std::time::SystemTime)
    ensures
        r == *t,
;

/// A filesystem path as the operating system hands it over; carried
/// through unchanged, never inspected.
#[verifier::external_type_specification]
#[verifier::external_body]
pub struct ExPathBuf(std::path::PathBuf);

} // verus!
