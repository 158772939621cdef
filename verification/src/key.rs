//! The registry key builder: composes extension stripping, normalization and
//! relative path resolution to turn a discovered template file plus its
//! search root into the key under which the template is registered.

use vstd::prelude::*;
use crate::component::ComponentView;
use crate::path::{Path, spec_without_extension, path_without_extension, render_path};
use crate::normalize::{spec_normalize, naively_normalize_path};
use crate::relative::{spec_relative_from, relative_path_from};

verus! {

/// Why no registry key could be built for a file. Both cases are non-fatal
/// to a batch of registrations: the caller skips the one file.
#[derive(Debug, PartialEq, Eq, Structural)]
pub enum KeyError {
    /// The template path has no extractable file-name component.
    NoFileName,
    /// The template path cannot be expressed relative to the search root.
    Unrelatable,
}

/// The registry key of a template under a search root: the template's stem
/// and the root are both normalized, the stem is resolved relative to the
/// root, and the result is rendered as `/`-separated text.
pub open spec fn spec_build_key(template: Seq<ComponentView>, root: Seq<ComponentView>) -> Result<Seq<char>, KeyError> {
    match spec_without_extension(template) {
        None => Err(KeyError::NoFileName),
        Some(stem) => match spec_relative_from(spec_normalize(stem), spec_normalize(root)) {
            None => Err(KeyError::Unrelatable),
            Some(rel) => Ok(render_path(rel)),
        },
    }
}

/// Build the registry key for `template_path` as discovered under
/// `search_root`. Pure: the filesystem is never consulted.
pub fn build_key(template_path: &Path, search_root: &Path) -> (r: Result<String, KeyError>)
    ensures
        match r {
            Ok(s) => spec_build_key(template_path@, search_root@) == Ok::<Seq<char>, KeyError>(s@),
            Err(e) => spec_build_key(template_path@, search_root@) == Err::<Seq<char>, KeyError>(e),
        },
{
    let normalized_root = naively_normalize_path(search_root);
    match path_without_extension(template_path) {
        None => Err(KeyError::NoFileName),
        Some(stem) => {
            let normalized_stem = naively_normalize_path(&stem);
            match relative_path_from(&normalized_stem, &normalized_root) {
                None => Err(KeyError::Unrelatable),
                Some(rel) => Ok(rel.to_string()),
            }
        },
    }
}

/// The file extension to search for, with a literal `.` prefixed when the
/// caller has not already supplied one.
pub open spec fn spec_sanitize_extension(ext: Seq<char>) -> Seq<char> {
    if ext.len() > 0 && ext[0] == '.' {
        ext
    } else {
        seq!['.'] + ext
    }
}

/// Prefix the extension with `.` unless it already starts with one.
pub fn sanitize_extension(ext: &str) -> (r: String)
    ensures
        r@ == spec_sanitize_extension(ext@),
{
    if ext.unicode_len() > 0 && ext.get_char(0) == '.' {
        String::from_str(ext)
    } else {
        proof {
            reveal_strlit(".");
            assert("."@ =~= seq!['.']);
        }
        let mut out = String::from_str(".");
        out.append(ext);
        out
    }
}

} // verus!
