use hantemcli::path::{Path, path_without_extension, has_file_extension};
use hantemcli::component::Component;

#[test]
fn parse_and_render_round_trip() {
    assert_eq!(Path::from_str("a/b/c").to_string(), "a/b/c");
    assert_eq!(Path::from_str("/a/b").to_string(), "/a/b");
    assert_eq!(Path::from_str("").to_string(), "");
    assert_eq!(Path::from_str("/").to_string(), "/");
    assert_eq!(Path::from_str("./a").to_string(), "./a");
    assert_eq!(Path::from_str("../a").to_string(), "../a");
}

#[test]
fn parse_drops_empty_segments() {
    assert_eq!(Path::from_str("a//b").to_string(), "a/b");
    assert_eq!(Path::from_str("a/b/").to_string(), "a/b");
    assert_eq!(Path::from_str("//a").to_string(), "/a");
}

#[test]
fn parse_classifies_components() {
    let p = Path::from_str("/a/./..");
    assert!(matches!(p.components[0], Component::RootDir));
    assert!(matches!(p.components[1], Component::Named(ref s) if s == "a"));
    assert!(matches!(p.components[2], Component::CurDir));
    assert!(matches!(p.components[3], Component::ParentDir));
}

#[test]
fn is_absolute_looks_at_first_component() {
    assert!(Path::from_str("/a").is_absolute());
    assert!(Path::from_str("/").is_absolute());
    assert!(!Path::from_str("a/b").is_absolute());
    assert!(!Path::from_str("").is_absolute());
}

#[test]
fn strip_extension_keeps_directory_prefix() {
    let r = path_without_extension(&Path::from_str("templates/page.hbs"));
    assert_eq!(r.unwrap().to_string(), "templates/page");
}

#[test]
fn strip_extension_stem_rules() {
    let stem = |s: &str| path_without_extension(&Path::from_str(s)).unwrap().to_string();
    assert_eq!(stem("foo"), "foo");
    assert_eq!(stem("foo.tar.gz"), "foo.tar");
    assert_eq!(stem("foo."), "foo");
    assert_eq!(stem(".gitignore"), ".gitignore");
    assert_eq!(stem("/a/b.txt"), "/a/b");
}

#[test]
fn strip_extension_fails_without_file_name() {
    assert!(path_without_extension(&Path::from_str("")).is_none());
    assert!(path_without_extension(&Path::from_str("..")).is_none());
    assert!(path_without_extension(&Path::from_str("a/..")).is_none());
    assert!(path_without_extension(&Path::from_str("/")).is_none());
    assert!(path_without_extension(&Path::from_str(".")).is_none());
}

#[test]
fn extension_match_is_a_literal_suffix_test() {
    assert!(has_file_extension(&Path::from_str("templates/page.hbs"), ".hbs"));
    assert!(has_file_extension(&Path::from_str("templates/page.xhbs"), "hbs"));
    assert!(!has_file_extension(&Path::from_str("templates/page.hbs"), ".html"));
    assert!(!has_file_extension(&Path::from_str("page"), ".hbs"));
    assert!(has_file_extension(&Path::from_str("page"), ""));
}

#[test]
fn extension_match_needs_a_file_name() {
    assert!(!has_file_extension(&Path::from_str(""), ".hbs"));
    assert!(!has_file_extension(&Path::from_str("/"), ".hbs"));
    assert!(!has_file_extension(&Path::from_str("a/.."), ".hbs"));
}

#[test]
fn paths_built_from_components_render() {
    let p = Path {
        components: vec![
            Component::Named("a".to_string()),
            Component::ParentDir,
            Component::Named("b".to_string()),
        ],
    };
    assert_eq!(p.to_string(), "a/../b");
    assert_eq!(p.duplicate().to_string(), "a/../b");
    assert_eq!(Path::empty().to_string(), "");
}
