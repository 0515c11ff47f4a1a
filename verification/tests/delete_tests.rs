use disk_core::delete::{check_deletable, GuardError};

fn roots() -> Vec<String> {
    vec![
        String::from("/Users/me/Documents"),
        String::from("/Volumes/Backup"),
    ]
}

#[test]
fn allows_files_inside_a_scan_root() {
    let r = roots();
    assert!(check_deletable("/Users/me/Documents/big.zip", &r, Some("/Users/me")).is_ok());
    assert!(check_deletable("/Volumes/Backup/old/movie.mov", &r, Some("/Users/me")).is_ok());
}

#[test]
fn rejects_filesystem_root() {
    assert_eq!(
        check_deletable("/", &roots(), Some("/Users/me")),
        Err(GuardError::FilesystemRoot)
    );
}

#[test]
fn rejects_a_scan_root_itself() {
    assert_eq!(
        check_deletable("/Users/me/Documents", &roots(), Some("/Users/me")),
        Err(GuardError::ScanRootItself(String::from(
            "/Users/me/Documents"
        )))
    );
}

#[test]
fn rejects_paths_outside_all_scan_roots() {
    assert_eq!(
        check_deletable("/Users/other/secret.txt", &roots(), Some("/Users/me")),
        Err(GuardError::OutsideScanRoots(String::from(
            "/Users/other/secret.txt"
        )))
    );
}

#[test]
fn rejects_protected_system_paths_even_with_a_broad_root() {
    let r = vec![String::from("/")];
    assert_eq!(
        check_deletable("/System/Library/Kernels", &r, Some("/Users/me")),
        Err(GuardError::ProtectedSystemPath(String::from(
            "/System/Library/Kernels"
        )))
    );
    assert_eq!(
        check_deletable("/usr/bin/ssh", &r, Some("/Users/me")),
        Err(GuardError::ProtectedSystemPath(String::from(
            "/usr/bin/ssh"
        )))
    );
}

#[test]
fn keeps_user_library_deletable() {
    // ~/Library is a prime cleanup target and must NOT match /Library.
    let r = vec![String::from("/Users/me")];
    assert!(check_deletable("/Users/me/Library/Caches/big", &r, Some("/Users/me")).is_ok());
}

#[test]
fn rejects_parent_dir_traversal() {
    assert_eq!(
        check_deletable("/Users/me/Documents/../../other", &roots(), Some("/Users/me")),
        Err(GuardError::UnsafePath(String::from(
            "/Users/me/Documents/../../other"
        )))
    );
}

#[test]
fn rejects_relative_paths() {
    assert_eq!(
        check_deletable("relative/path", &roots(), Some("/Users/me")),
        Err(GuardError::UnsafePath(String::from("relative/path")))
    );
}
