use hantemcli::path::Path;
use hantemcli::normalize::naively_normalize_path;

fn normalized(s: &str) -> String {
    naively_normalize_path(&Path::from_str(s)).to_string()
}

#[test]
fn normalize_is_idempotent_on_samples() {
    for s in ["a/b/../../c/./d", "../../a", "a/..", "/a/./b/../c", "", ".", "x/y/z"] {
        let once = naively_normalize_path(&Path::from_str(s));
        let twice = naively_normalize_path(&once);
        assert_eq!(twice.to_string(), once.to_string());
    }
}

#[test]
fn normalize_cancels_parent_against_segment() {
    assert_eq!(normalized("a/b/../c"), normalized("a/c"));
    assert_eq!(normalized("a/b/../c"), "a/c");
}

#[test]
fn normalize_keeps_leading_parent_run() {
    assert_eq!(normalized("../../a"), "../../a");
    assert_eq!(normalized("../a/../.."), "../..");
}

#[test]
fn normalize_all_cancelling_input_gives_empty_path() {
    assert_eq!(normalized("a/.."), "");
    assert_eq!(normalized("a/b/../.."), "");
    assert_eq!(normalized("."), "");
}

#[test]
fn normalize_drops_current_dir_segments() {
    assert_eq!(normalized("./a/./b/."), "a/b");
}

#[test]
fn normalize_absolute_paths() {
    assert_eq!(normalized("/a/../b"), "/b");
    assert_eq!(normalized("/a/b"), "/a/b");
    // A `..` above the root pops the root marker itself; what is left is
    // relative to the current directory.
    assert_eq!(normalized("/.."), "");
}
