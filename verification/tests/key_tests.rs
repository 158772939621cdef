use hantemcli::path::Path;
use hantemcli::key::{build_key, sanitize_extension, KeyError};

fn key(template: &str, root: &str) -> Result<String, KeyError> {
    build_key(&Path::from_str(template), &Path::from_str(root))
}

#[test]
fn build_key_strips_extension_and_relativizes() {
    assert_eq!(key("templates/sub/page.hbs", "templates"), Ok("sub/page".to_string()));
}

#[test]
fn build_key_for_file_directly_under_root() {
    assert_eq!(key("templates/page.hbs", "templates"), Ok("page".to_string()));
}

#[test]
fn build_key_normalizes_both_sides() {
    assert_eq!(key("templates/./sub/../page.hbs", "x/../templates"), Ok("page".to_string()));
}

#[test]
fn build_key_without_file_name_fails() {
    assert_eq!(key("", "templates"), Err(KeyError::NoFileName));
    assert_eq!(key("a/..", "templates"), Err(KeyError::NoFileName));
}

#[test]
fn build_key_with_parent_in_root_fails() {
    assert_eq!(key("a/b.hbs", "../x"), Err(KeyError::Unrelatable));
}

#[test]
fn build_key_with_absolute_template_and_relative_root() {
    // An absolute template path against a relative root keeps the absolute
    // path as the key.
    assert_eq!(key("/a/b.hbs", "x"), Ok("/a/b".to_string()));
}

#[test]
fn build_key_with_relative_template_and_absolute_root() {
    assert_eq!(key("a/b.hbs", "/x"), Err(KeyError::Unrelatable));
}

#[test]
fn sanitize_extension_prefixes_a_dot() {
    assert_eq!(sanitize_extension("hbs"), ".hbs");
    assert_eq!(sanitize_extension(".hbs"), ".hbs");
    assert_eq!(sanitize_extension(""), ".");
}
