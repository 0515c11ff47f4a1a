use disk_core::delete::{check_deletable, protected_prefix_list, GuardError};

#[test]
fn guard_messages_name_the_target() {
    assert_eq!(
        GuardError::FilesystemRoot.message(),
        "refusing to delete the filesystem root"
    );
    assert_eq!(
        GuardError::HomeFolder(String::from("/Users/me")).message(),
        "refusing to delete the home folder: /Users/me"
    );
    assert_eq!(
        GuardError::ProtectedSystemPath(String::from("/usr/bin")).message(),
        "refusing to delete a protected system path: /usr/bin"
    );
    assert_eq!(
        GuardError::ScanRootItself(String::from("/Users/me")).message(),
        "refusing to delete a scan root itself: /Users/me"
    );
    assert_eq!(
        GuardError::OutsideScanRoots(String::from("/tmp/x")).message(),
        "refusing to delete outside the configured scan roots: /tmp/x"
    );
    assert_eq!(
        GuardError::UnsafePath(String::from("a/../b")).message(),
        "refusing to delete an unsafe path (must be absolute, no '..'): a/../b"
    );
}

#[test]
fn every_protected_prefix_is_refused_under_a_whole_disk_root() {
    let roots = vec![String::from("/")];
    for prefix in protected_prefix_list() {
        let target = format!("{}/inner", prefix);
        assert_eq!(
            check_deletable(&target, &roots, Some("/Users/me")),
            Err(GuardError::ProtectedSystemPath(target.clone()))
        );
    }
    assert_eq!(protected_prefix_list().len(), 11);
}

#[test]
fn a_scan_root_is_refused_even_written_differently() {
    let roots = vec![String::from("/Users/me/Documents/")];
    assert_eq!(
        check_deletable("/Users/me//Documents", &roots, Some("/Users/me")),
        Err(GuardError::ScanRootItself(String::from("/Users/me//Documents")))
    );
}

#[test]
fn more_roots_keep_an_approval() {
    let one = vec![String::from("/Users/me")];
    let two = vec![String::from("/Users/me"), String::from("/Volumes/Other")];
    assert!(check_deletable("/Users/me/old.dmg", &one, Some("/Users/me")).is_ok());
    assert!(check_deletable("/Users/me/old.dmg", &two, Some("/Users/me")).is_ok());
}

#[test]
fn only_the_first_failing_check_is_reported() {
    // Both relative and outside the roots: the shape check comes first.
    assert_eq!(
        check_deletable("tmp/../x", &[String::from("/Users/me")], Some("/Users/me")),
        Err(GuardError::UnsafePath(String::from("tmp/../x")))
    );
    // A protected path that is also a scan root: protection comes first.
    assert_eq!(
        check_deletable("/usr", &[String::from("/usr")], Some("/Users/me")),
        Err(GuardError::ProtectedSystemPath(String::from("/usr")))
    );
}

#[test]
fn no_roots_means_nothing_is_deletable() {
    assert_eq!(
        check_deletable("/Users/me/a", &[], Some("/Users/me")),
        Err(GuardError::OutsideScanRoots(String::from("/Users/me/a")))
    );
}

#[test]
fn home_folder_is_refused_under_a_whole_disk_root() {
    let roots = vec![String::from("/")];
    assert_eq!(
        check_deletable("/Users/me", &roots, Some("/Users/me")),
        Err(GuardError::HomeFolder(String::from("/Users/me")))
    );
    assert_eq!(
        check_deletable("/Users/me/", &roots, Some("/Users/me")),
        Err(GuardError::HomeFolder(String::from("/Users/me/")))
    );
    assert!(check_deletable("/Users/me/old.dmg", &roots, Some("/Users/me")).is_ok());
}

#[test]
fn home_folder_that_is_also_a_scan_root_is_refused_as_home() {
    let roots = vec![String::from("/Users/me")];
    assert_eq!(
        check_deletable("/Users/me", &roots, Some("/Users/me")),
        Err(GuardError::HomeFolder(String::from("/Users/me")))
    );
    assert_eq!(
        check_deletable("/Users/me", &roots, None),
        Err(GuardError::ScanRootItself(String::from("/Users/me")))
    );
}

#[test]
fn unknown_home_folder_refuses_nothing_more() {
    let roots = vec![String::from("/")];
    assert!(check_deletable("/Users/me", &roots, None).is_ok());
}
