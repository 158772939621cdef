//! Path components, modeled as a tagged variant rather than leaning on a
//! platform path type, so that normalization and relativization stay portable
//! and purely syntactic.

use vstd::prelude::*;

verus! {

/// The mathematical form of one path component; contracts and proofs are
/// stated over sequences of these.
pub enum ComponentView {
    /// The root marker that begins an absolute path.
    RootDir,
    /// The `.` segment.
    CurDir,
    /// The `..` segment.
    ParentDir,
    /// A plain named segment, as its character sequence.
    Named(Seq<char>),
}

/// One syntactic segment of a path: a root marker, `.`, `..`, or a name.
pub enum Component {
    RootDir,
    CurDir,
    ParentDir,
    Named(String),
}

impl View for Component {
    type V = ComponentView;

    open spec fn view(&self) -> ComponentView {
        match self {
            Component::RootDir => ComponentView::RootDir,
            Component::CurDir => ComponentView::CurDir,
            Component::ParentDir => ComponentView::ParentDir,
            Component::Named(s) => ComponentView::Named(s@),
        }
    }
}

/// Character-by-character string equality, decided without any assumption on
/// the two slices' provenance.
pub fn str_eq(a: &str, b: &str) -> (r: bool)
    ensures
        r == (a@ == b@),
{
    let a_len = a.unicode_len();
    let b_len = b.unicode_len();
    if a_len != b_len {
        return false;
    }
    let mut i: usize = 0;
    while i < a_len
        invariant
            a_len == a@.len(),
            b_len == b@.len(),
            a_len == b_len,
            i <= a_len,
            forall|k: int| 0 <= k < i ==> a@[k] == b@[k],
        decreases a_len - i,
    {
        if a.get_char(i) != b.get_char(i) {
            return false;
        }
        i += 1;
    }
    proof {
        assert(a@ =~= b@);
    }
    true
}

impl Component {
    /// Structural equality of two components, compared by content.
    pub fn equals(&self, other: &Component) -> (r: bool)
        ensures
            r == (self@ == other@),
    {
        match (self, other) {
            (Component::RootDir, Component::RootDir) => true,
            (Component::CurDir, Component::CurDir) => true,
            (Component::ParentDir, Component::ParentDir) => true,
            (Component::Named(a), Component::Named(b)) => str_eq(a.as_str(), b.as_str()),
            _ => false,
        }
    }

    /// A fresh component with the same content.
    pub fn duplicate(&self) -> (r: Component)
        ensures
            r@ == self@,
    {
        match self {
            Component::RootDir => Component::RootDir,
            Component::CurDir => Component::CurDir,
            Component::ParentDir => Component::ParentDir,
            Component::Named(s) => Component::Named(String::from_str(s.as_str())),
        }
    }
}

/// Whether a component is the `..` segment.
pub fn is_parent_dir(component: &Component) -> (r: bool)
    ensures
        r == (component@ is ParentDir),
{
    match component {
        Component::ParentDir => true,
        _ => false,
    }
}

} // verus!
