use disk_core::path::{
    has_no_parent, has_parent_dir_part, is_absolute, path_parts, same_path, starts_with, PathPart,
};

fn normal(s: &str) -> PathPart {
    PathPart::Normal(String::from(s))
}

#[test]
fn components_drop_repeated_separators_and_inner_dots() {
    assert_eq!(
        path_parts("/a//b/./c/"),
        vec![PathPart::RootDir, normal("a"), normal("b"), normal("c")]
    );
    assert_eq!(path_parts("a/./b"), vec![normal("a"), normal("b")]);
}

#[test]
fn components_keep_a_leading_dot_of_a_relative_path() {
    assert_eq!(path_parts("./a"), vec![PathPart::CurDir, normal("a")]);
    assert_eq!(path_parts("."), vec![PathPart::CurDir]);
    assert_eq!(path_parts(".a"), vec![normal(".a")]);
}

#[test]
fn components_of_root_empty_and_parent() {
    assert_eq!(path_parts("/"), vec![PathPart::RootDir]);
    assert_eq!(path_parts(""), Vec::<PathPart>::new());
    assert_eq!(path_parts("../x"), vec![PathPart::ParentDir, normal("x")]);
}

#[test]
fn starts_with_compares_whole_components() {
    assert!(starts_with("/Users/me/Library", "/Users/me"));
    assert!(starts_with("/Users/me/", "/Users/me"));
    assert!(!starts_with("/Users/meow", "/Users/me"));
    assert!(!starts_with("/Users/me/Library", "/Library"));
    assert!(starts_with("/anything", "/"));
}

#[test]
fn same_path_ignores_trailing_and_repeated_separators() {
    assert!(same_path("/Users/me/", "/Users//me"));
    assert!(!same_path("/Users/me", "/Users/me/x"));
}

#[test]
fn shape_predicates() {
    assert!(is_absolute("/x"));
    assert!(!is_absolute("x/y"));
    assert!(has_parent_dir_part("/a/../b"));
    assert!(!has_parent_dir_part("/a/..b"));
    assert!(has_no_parent("/"));
    assert!(has_no_parent("//"));
    assert!(has_no_parent(""));
    assert!(!has_no_parent("/a"));
}
