use hantemcli::path::Path;
use hantemcli::normalize::naively_normalize_path;
use hantemcli::relative::relative_path_from;

fn rel(dst: &str, base: &str) -> Option<String> {
    relative_path_from(&Path::from_str(dst), &Path::from_str(base)).map(|p| p.to_string())
}

#[test]
fn relative_common_prefix_is_consumed() {
    assert_eq!(rel("a/b/c", "a/b"), Some("c".to_string()));
}

#[test]
fn relative_divergence_answers_base_with_parent() {
    assert_eq!(rel("a/x", "a/b"), Some("../x".to_string()));
}

#[test]
fn relative_longer_base_gives_parent_runs() {
    assert_eq!(rel("a/b", "a/b/c"), Some("..".to_string()));
    assert_eq!(rel("a", "a/b/c"), Some("../..".to_string()));
}

#[test]
fn relative_equal_paths_give_empty_path() {
    assert_eq!(rel("a/b", "a/b"), Some("".to_string()));
    assert_eq!(rel("", ""), Some("".to_string()));
}

#[test]
fn relative_mixed_absoluteness() {
    assert_eq!(rel("/a/b", "x"), Some("/a/b".to_string()));
    assert_eq!(rel("a", "/x"), None);
}

#[test]
fn relative_parent_in_base_is_unresolvable() {
    assert_eq!(rel("a/b", "../x"), None);
}

#[test]
fn relative_shared_leading_parents_match() {
    assert_eq!(rel("../../a/b", "../../a"), Some("b".to_string()));
}

#[test]
fn relative_both_absolute() {
    assert_eq!(rel("/a/b/c", "/a"), Some("b/c".to_string()));
    assert_eq!(rel("/x", "/a/b"), Some("../../x".to_string()));
}

#[test]
fn relative_round_trip_reconstructs_target() {
    // Joining the base with the computed relative path and normalizing
    // gives back the (normalized) target.
    let cases = [
        ("a/b/c", "a/x"),
        ("a/b", "a/b/c"),
        ("/a/b/c", "/a"),
        ("../../a/b", "../../a"),
        ("x", "y/z"),
    ];
    for (target, base) in cases {
        let rel = relative_path_from(&Path::from_str(target), &Path::from_str(base)).unwrap();
        let joined = format!("{}/{}", base, rel.to_string());
        let resolved = naively_normalize_path(&Path::from_str(&joined)).to_string();
        assert_eq!(resolved, target);
    }
}
