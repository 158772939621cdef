use hantemcli::component::{str_eq, is_parent_dir, Component};
use hantemcli::path::{str_ends_with, Path, path_without_extension};

#[test]
fn str_eq_compares_by_characters() {
    assert!(str_eq("abc", "abc"));
    assert!(!str_eq("abc", "abd"));
    assert!(!str_eq("abc", "ab"));
    assert!(str_eq("", ""));
    assert!(str_eq("naïve", "naïve"));
}

#[test]
fn str_ends_with_is_a_suffix_test() {
    assert!(str_ends_with("page.hbs", ".hbs"));
    assert!(str_ends_with("page.xhbs", "hbs"));
    assert!(!str_ends_with("hbs", ".hbs"));
    assert!(str_ends_with("anything", ""));
}

#[test]
fn parent_dir_recognition() {
    assert!(is_parent_dir(&Component::ParentDir));
    assert!(!is_parent_dir(&Component::CurDir));
    assert!(!is_parent_dir(&Component::RootDir));
    assert!(!is_parent_dir(&Component::Named("..x".to_string())));
}

#[test]
fn component_equality_is_by_content() {
    assert!(Component::Named("a".to_string()).equals(&Component::Named("a".to_string())));
    assert!(!Component::Named("a".to_string()).equals(&Component::Named("b".to_string())));
    assert!(Component::CurDir.equals(&Component::CurDir));
    assert!(!Component::CurDir.equals(&Component::ParentDir));
    let c = Component::Named("x".to_string());
    assert!(c.duplicate().equals(&c));
}

#[test]
fn unicode_names_survive_the_pipeline() {
    let p = Path::from_str("dir/naïve.hbs");
    assert_eq!(p.to_string(), "dir/naïve.hbs");
    assert_eq!(path_without_extension(&p).unwrap().to_string(), "dir/naïve");
}
