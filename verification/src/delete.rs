//! Safe deletion guards: the rules that refuse dangerous targets (the
//! filesystem root, the home folder, system paths, anything outside the
//! user's configured scan roots) before anything is moved to the Trash.
//!
//! The guard logic ([`check_deletable`]) is pure; the caller must still ask
//! the user for explicit confirmation before moving anything.
use crate::path::{
    components, has_no_parent, has_parent_dir_part, is_absolute, parts_absolute, parts_climb,
    parts_without_parent, path_eq, path_starts_with, same_path, starts_with,
};
use vstd::prelude::*;

verus! {

/// System paths that must never be deleted, regardless of scan roots.
///
/// These are absolute `/`-prefixed system locations. The user's own
/// `~/Library` (e.g. `/Users/alice/Library/Caches`) does not match `/Library`,
/// so user caches remain deletable.
pub open spec fn protected_prefixes() -> Seq<Seq<char>> {
    seq![
        "/System"@,
        "/usr"@,
        "/bin"@,
        "/sbin"@,
        "/private"@,
        "/Library"@,
        "/Applications"@,
        "/cores"@,
        "/dev"@,
        "/etc"@,
        "/var"@,
    ]
}

/// The protected system prefixes, in the order they are checked.
pub fn protected_prefix_list() -> (r: Vec<&'static str>)
    ensures
        r@.map_values(|s: &str| s@) == protected_prefixes(),
{
    let r = vec![
        "/System",
        "/usr",
        "/bin",
        "/sbin",
        "/private",
        "/Library",
        "/Applications",
        "/cores",
        "/dev",
        "/etc",
        "/var",
    ];
    assert(r@.map_values(|s: &str| s@) =~= protected_prefixes());
    r
}

/// Reason a path was refused for deletion. Each variant that carries a path
/// carries the refused target.
#[derive(Debug, Clone, PartialEq, Eq)]
pub enum GuardError {
    FilesystemRoot,
    HomeFolder(String),
    ProtectedSystemPath(String),
    ScanRootItself(String),
    OutsideScanRoots(String),
    UnsafePath(String),
}

/// The mathematical value of a [`GuardError`].
pub enum GuardErrorView {
    FilesystemRoot,
    HomeFolder(Seq<char>),
    ProtectedSystemPath(Seq<char>),
    ScanRootItself(Seq<char>),
    OutsideScanRoots(Seq<char>),
    UnsafePath(Seq<char>),
}

impl View for GuardError {
    type V = GuardErrorView;

    open spec fn view(&self) -> GuardErrorView {
        match self {
            GuardError::FilesystemRoot => GuardErrorView::FilesystemRoot,
            GuardError::HomeFolder(p) => GuardErrorView::HomeFolder(p@),
            GuardError::ProtectedSystemPath(p) => GuardErrorView::ProtectedSystemPath(p@),
            GuardError::ScanRootItself(p) => GuardErrorView::ScanRootItself(p@),
            GuardError::OutsideScanRoots(p) => GuardErrorView::OutsideScanRoots(p@),
            GuardError::UnsafePath(p) => GuardErrorView::UnsafePath(p@),
        }
    }
}

/// The value of a guard outcome.
pub open spec fn outcome_view(r: Result<(), GuardError>) -> Result<(), GuardErrorView> {
    match r {
        Ok(()) => Ok(()),
        Err(e) => Err(e@),
    }
}

/// The text of each refusal, as the user reads it.
pub open spec fn guard_message(e: GuardErrorView) -> Seq<char> {
    match e {
        GuardErrorView::FilesystemRoot => "refusing to delete the filesystem root"@,
        GuardErrorView::HomeFolder(p) => "refusing to delete the home folder: "@ + p,
        GuardErrorView::ProtectedSystemPath(p) => "refusing to delete a protected system path: "@
            + p,
        GuardErrorView::ScanRootItself(p) => "refusing to delete a scan root itself: "@ + p,
        GuardErrorView::OutsideScanRoots(p) => "refusing to delete outside the configured scan roots: "@
            + p,
        GuardErrorView::UnsafePath(p) => "refusing to delete an unsafe path (must be absolute, no '..'): "@
            + p,
    }
}

impl GuardError {
    /// The human-readable description of this refusal.
    pub fn message(&self) -> (r: String)
        ensures
            r@ == guard_message(self@),
    {
        match self {
            GuardError::FilesystemRoot => String::from_str("refusing to delete the filesystem root"),
            GuardError::HomeFolder(p) => {
                let mut m = String::from_str("refusing to delete the home folder: ");
                m.append(p.as_str());
                m
            },
            GuardError::ProtectedSystemPath(p) => {
                let mut m = String::from_str("refusing to delete a protected system path: ");
                m.append(p.as_str());
                m
            },
            GuardError::ScanRootItself(p) => {
                let mut m = String::from_str("refusing to delete a scan root itself: ");
                m.append(p.as_str());
                m
            },
            GuardError::OutsideScanRoots(p) => {
                let mut m = String::from_str(
                    "refusing to delete outside the configured scan roots: ",
                );
                m.append(p.as_str());
                m
            },
            GuardError::UnsafePath(p) => {
                let mut m = String::from_str(
                    "refusing to delete an unsafe path (must be absolute, no '..'): ",
                );
                m.append(p.as_str());
                m
            },
        }
    }
}

/// A path is safe in shape when it is absolute and free of `..`.
pub open spec fn safe_shape(target: Seq<char>) -> bool {
    parts_absolute(components(target)) && !parts_climb(components(target))
}

/// The path is the user's home folder, when one is known.
pub open spec fn is_home(target: Seq<char>, home: Option<Seq<char>>) -> bool {
    match home {
        Some(h) => path_eq(target, h),
        None => false,
    }
}

/// The path lies under one of the protected system prefixes.
pub open spec fn is_protected(target: Seq<char>) -> bool {
    exists|i: int|
        0 <= i < protected_prefixes().len() && path_starts_with(target, protected_prefixes()[i])
}

/// The path is one of the scan roots itself.
pub open spec fn is_scan_root(target: Seq<char>, roots: Seq<Seq<char>>) -> bool {
    exists|i: int| 0 <= i < roots.len() && path_eq(target, roots[i])
}

/// The path lies inside (or at) one of the scan roots.
pub open spec fn within_scan_roots(target: Seq<char>, roots: Seq<Seq<char>>) -> bool {
    exists|i: int| 0 <= i < roots.len() && path_starts_with(target, roots[i])
}

/// The verdict on moving `target` to the Trash, given the scan roots and the
/// user's home folder: the checks apply in order (shape, filesystem root,
/// home folder, protected prefix, scan root itself, inside some scan root)
/// and the first that fails decides.
pub open spec fn deletion_verdict(
    target: Seq<char>,
    roots: Seq<Seq<char>>,
    home: Option<Seq<char>>,
) -> Result<(), GuardErrorView> {
    if !safe_shape(target) {
        Err(GuardErrorView::UnsafePath(target))
    } else if parts_without_parent(components(target)) {
        Err(GuardErrorView::FilesystemRoot)
    } else if is_home(target, home) {
        Err(GuardErrorView::HomeFolder(target))
    } else if is_protected(target) {
        Err(GuardErrorView::ProtectedSystemPath(target))
    } else if is_scan_root(target, roots) {
        Err(GuardErrorView::ScanRootItself(target))
    } else if !within_scan_roots(target, roots) {
        Err(GuardErrorView::OutsideScanRoots(target))
    } else {
        Ok(())
    }
}

/// The text value of the home folder, when one is known.
pub open spec fn home_view(home: Option<&str>) -> Option<Seq<char>> {
    match home {
        Some(h) => Some(h@),
        None => None,
    }
}

/// The text values of the scan roots.
pub open spec fn root_views(roots: Seq<String>) -> Seq<Seq<char>> {
    roots.map_values(|r: String| r@)
}

/// Whether `target` is absolute and free of `..` components.
fn is_safe_shape(target: &str) -> (r: bool)
    ensures
        r == safe_shape(target@),
{
    is_absolute(target) && !has_parent_dir_part(target)
}

/// Whether `target` is the home folder.
fn is_home_folder(target: &str, home: Option<&str>) -> (r: bool)
    ensures
        r == is_home(target@, home_view(home)),
{
    match home {
        Some(h) => same_path(target, h),
        None => false,
    }
}

/// Whether `target` lies under one of the protected system prefixes.
fn under_protected_prefix(target: &str) -> (r: bool)
    ensures
        r == is_protected(target@),
{
    let prefixes = protected_prefix_list();
    let ghost pv = prefixes@.map_values(|s: &str| s@);
    let mut i: usize = 0;
    while i < prefixes.len()
        invariant
            i <= prefixes.len(),
            pv == prefixes@.map_values(|s: &str| s@),
            pv == protected_prefixes(),
            forall|j: int| 0 <= j < i ==> !path_starts_with(target@, #[trigger] pv[j]),
        decreases prefixes.len() - i,
    {
        assert(pv[i as int] == prefixes@[i as int]@);
        if starts_with(target, prefixes[i]) {
            return true;
        }
        i = i + 1;
    }
    false
}

/// Whether `target` is one of the scan roots.
fn equals_a_root(target: &str, scan_roots: &[String]) -> (r: bool)
    ensures
        r == is_scan_root(target@, root_views(scan_roots@)),
{
    let ghost rv = root_views(scan_roots@);
    let mut i: usize = 0;
    while i < scan_roots.len()
        invariant
            i <= scan_roots.len(),
            rv == root_views(scan_roots@),
            forall|j: int| 0 <= j < i ==> !path_eq(target@, #[trigger] rv[j]),
        decreases scan_roots.len() - i,
    {
        if same_path(target, scan_roots[i].as_str()) {
            assert(path_eq(target@, rv[i as int]));
            return true;
        }
        i = i + 1;
    }
    false
}

/// Whether `target` lies inside one of the scan roots.
fn inside_a_root(target: &str, scan_roots: &[String]) -> (r: bool)
    ensures
        r == within_scan_roots(target@, root_views(scan_roots@)),
{
    let ghost rv = root_views(scan_roots@);
    let mut i: usize = 0;
    while i < scan_roots.len()
        invariant
            i <= scan_roots.len(),
            rv == root_views(scan_roots@),
            forall|j: int| 0 <= j < i ==> !path_starts_with(target@, #[trigger] rv[j]),
        decreases scan_roots.len() - i,
    {
        if starts_with(target, scan_roots[i].as_str()) {
            assert(path_starts_with(target@, rv[i as int]));
            return true;
        }
        i = i + 1;
    }
    false
}

/// Validate that `target` is safe to move to Trash given the user's
/// `scan_roots` and home folder (`None` when it is not known).
///
/// Checks, in order: the path is absolute and `..`-free; it is not the
/// filesystem root; it is not the home folder; it is not a protected system
/// path; it is not a scan root itself; and it lies inside at least one scan
/// root.
pub fn check_deletable(target: &str, scan_roots: &[String], home: Option<&str>) -> (r: Result<
    (),
    GuardError,
>)
    ensures
        outcome_view(r) == deletion_verdict(target@, root_views(scan_roots@), home_view(home)),
{
    if !is_safe_shape(target) {
        return Err(GuardError::UnsafePath(String::from_str(target)));
    }
    if has_no_parent(target) {
        return Err(GuardError::FilesystemRoot);
    }
    if is_home_folder(target, home) {
        return Err(GuardError::HomeFolder(String::from_str(target)));
    }
    if under_protected_prefix(target) {
        return Err(GuardError::ProtectedSystemPath(String::from_str(target)));
    }
    if equals_a_root(target, scan_roots) {
        return Err(GuardError::ScanRootItself(String::from_str(target)));
    }
    if !inside_a_root(target, scan_roots) {
        return Err(GuardError::OutsideScanRoots(String::from_str(target)));
    }
    Ok(())
}

/// A deletion is approved only for a target that is absolute, free of `..`,
/// not the filesystem root, not the home folder, not under a protected system
/// prefix, not a scan root itself, and inside some scan root.
pub proof fn law_approved_targets_are_safe(
    target: Seq<char>,
    roots: Seq<Seq<char>>,
    home: Option<Seq<char>>,
)
    requires
        deletion_verdict(target, roots, home) is Ok,
    ensures
        parts_absolute(components(target)),
        !parts_climb(components(target)),
        !parts_without_parent(components(target)),
        !is_home(target, home),
        !is_protected(target),
        forall|i: int| 0 <= i < roots.len() ==> !path_eq(target, #[trigger] roots[i]),
        exists|i: int| 0 <= i < roots.len() && path_starts_with(target, roots[i]),
{
}

/// A protected system path is refused whatever the scan roots are, even a
/// root that covers the whole disk.
pub proof fn law_protected_paths_always_refused(
    target: Seq<char>,
    roots: Seq<Seq<char>>,
    home: Option<Seq<char>>,
)
    requires
        is_protected(target),
    ensures
        deletion_verdict(target, roots, home) is Err,
{
}

/// The home folder itself is refused whatever the scan roots are, even a
/// root that covers the whole disk.
pub proof fn law_home_folder_always_refused(target: Seq<char>, roots: Seq<Seq<char>>, home: Seq<char>)
    requires
        path_eq(target, home),
    ensures
        deletion_verdict(target, roots, Some(home)) is Err,
{
}

/// Adding scan roots never turns an approval into a refusal: the verdict
/// for an approved target stays approved when more roots are configured.
pub proof fn law_more_roots_keep_approvals(
    target: Seq<char>,
    roots: Seq<Seq<char>>,
    home: Option<Seq<char>>,
    extra: Seq<char>,
)
    requires
        deletion_verdict(target, roots, home) is Ok,
        !path_eq(target, extra),
    ensures
        deletion_verdict(target, roots.push(extra), home) is Ok,
{
    let more = roots.push(extra);
    let i = choose|i: int| 0 <= i < roots.len() && path_starts_with(target, roots[i]);
    assert(more[i] == roots[i]);
    assert forall|j: int| 0 <= j < more.len() implies !path_eq(target, #[trigger] more[j]) by {
        if j < roots.len() {
            assert(more[j] == roots[j]);
        }
    }
}

/// Every path under one of the system locations `/System`, `/usr`, `/bin`,
/// `/sbin`, `/private`, `/Library`, `/Applications`, `/cores`, `/dev`, `/etc`
/// and `/var` is refused, whatever the scan roots and the home folder.
pub proof fn law_system_locations_always_refused(
    target: Seq<char>,
    roots: Seq<Seq<char>>,
    home: Option<Seq<char>>,
)
    requires
        path_starts_with(target, "/System"@) || path_starts_with(target, "/usr"@)
            || path_starts_with(target, "/bin"@) || path_starts_with(target, "/sbin"@)
            || path_starts_with(target, "/private"@) || path_starts_with(target, "/Library"@)
            || path_starts_with(target, "/Applications"@) || path_starts_with(target, "/cores"@)
            || path_starts_with(target, "/dev"@) || path_starts_with(target, "/etc"@)
            || path_starts_with(target, "/var"@),
    ensures
        deletion_verdict(target, roots, home) is Err,
{
    let ps = protected_prefixes();
    assert(ps[0] == "/System"@);
    assert(ps[1] == "/usr"@);
    assert(ps[2] == "/bin"@);
    assert(ps[3] == "/sbin"@);
    assert(ps[4] == "/private"@);
    assert(ps[5] == "/Library"@);
    assert(ps[6] == "/Applications"@);
    assert(ps[7] == "/cores"@);
    assert(ps[8] == "/dev"@);
    assert(ps[9] == "/etc"@);
    assert(ps[10] == "/var"@);
    assert(is_protected(target));
}

/// Each refusal names its reason, checked in order: a path that is not
/// absolute or holds `..` is unsafe; the filesystem root comes next, then the
/// home folder, the system locations and the scan roots themselves; a path
/// inside no scan root is outside them; anything else is approved.
pub proof fn law_refusals_name_their_reason(
    target: Seq<char>,
    roots: Seq<Seq<char>>,
    home: Option<Seq<char>>,
)
    ensures
        !safe_shape(target) ==> deletion_verdict(target, roots, home) == Err::<(), GuardErrorView>(
            GuardErrorView::UnsafePath(target),
        ),
        safe_shape(target) && parts_without_parent(components(target)) ==> deletion_verdict(
            target,
            roots,
            home,
        ) == Err::<(), GuardErrorView>(GuardErrorView::FilesystemRoot),
        safe_shape(target) && !parts_without_parent(components(target)) && is_home(target, home)
            ==> deletion_verdict(target, roots, home) == Err::<(), GuardErrorView>(
            GuardErrorView::HomeFolder(target),
        ),
        safe_shape(target) && !parts_without_parent(components(target)) && !is_home(target, home)
            && is_protected(target) ==> deletion_verdict(target, roots, home) == Err::<
            (),
            GuardErrorView,
        >(GuardErrorView::ProtectedSystemPath(target)),
        safe_shape(target) && !parts_without_parent(components(target)) && !is_home(target, home)
            && !is_protected(target) && (exists|i: int| 0 <= i < roots.len() && path_eq(target, roots[i]))
            ==> deletion_verdict(target, roots, home) == Err::<(), GuardErrorView>(
            GuardErrorView::ScanRootItself(target),
        ),
        safe_shape(target) && !parts_without_parent(components(target)) && !is_home(target, home)
            && !is_protected(target) && (forall|i: int| 0 <= i < roots.len() ==> !path_starts_with(target, #[trigger] roots[i]))
            ==> deletion_verdict(target, roots, home) == Err::<(), GuardErrorView>(
            GuardErrorView::OutsideScanRoots(target),
        ),
        safe_shape(target) && !parts_without_parent(components(target)) && !is_home(target, home)
            && !is_protected(target) && (forall|i: int| 0 <= i < roots.len() ==> !path_eq(target, #[trigger] roots[i]))
            && (exists|i: int| 0 <= i < roots.len() && path_starts_with(target, roots[i]))
            ==> deletion_verdict(target, roots, home) is Ok,
{
    if safe_shape(target) && !parts_without_parent(components(target)) && !is_home(target, home)
        && !is_protected(target) && (forall|i: int| 0 <= i < roots.len() ==> !path_starts_with(target, #[trigger] roots[i])) {
        if is_scan_root(target, roots) {
            let i = choose|i: int| 0 <= i < roots.len() && path_eq(target, roots[i]);
            assert(components(roots[i]).is_prefix_of(components(target)));
            assert(path_starts_with(target, roots[i]));
        }
    }
}

} // verus!
