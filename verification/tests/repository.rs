use dgen::repository::{clone_target, clone_url, valid_repository_reference};

#[test]
fn test_valid_repository_reference() {
    assert!(valid_repository_reference("a/b").is_some());
    assert!(valid_repository_reference("a/").is_none());
    assert!(valid_repository_reference("/b").is_none());
    assert!(valid_repository_reference("a/b/c").is_none());
    assert!(valid_repository_reference("ab").is_none());
}

#[test]
fn valid_reference_yields_the_name() {
    assert_eq!(valid_repository_reference("a/b"), Some(String::from("b")));
    assert_eq!(
        valid_repository_reference("rust-lang/cargo"),
        Some(String::from("cargo"))
    );
}

#[test]
fn reference_without_separator_is_refused() {
    assert_eq!(valid_repository_reference(""), None);
    assert_eq!(valid_repository_reference("owner"), None);
}

#[test]
fn reference_of_a_lone_separator_is_refused() {
    assert_eq!(valid_repository_reference("/"), None);
    assert_eq!(valid_repository_reference("//"), None);
    assert_eq!(valid_repository_reference("a//b"), None);
    assert_eq!(valid_repository_reference("/a/"), None);
}

#[test]
fn reference_counts_characters_not_bytes() {
    assert_eq!(
        valid_repository_reference("\u{e9}t\u{e9}/caf\u{e9}"),
        Some(String::from("caf\u{e9}"))
    );
    assert_eq!(valid_repository_reference("\u{e9}/"), None);
}

#[test]
fn clone_url_is_under_the_host() {
    assert_eq!(clone_url("a/b"), "https://github.com/a/b");
}

#[test]
fn clone_target_joins_with_a_separator() {
    assert_eq!(clone_target("/tmp/dgen.x", "b"), "/tmp/dgen.x/b");
}
