//! Purely syntactic path normalization: `.` segments are dropped and `..`
//! segments are collapsed against a preceding real segment, with no look at
//! the real filesystem. The result keeps `..` only as a leading run.

use vstd::prelude::*;
use crate::component::{Component, ComponentView, is_parent_dir};
use crate::path::{Path, views_of, lemma_views_of_push};

verus! {

/// What one component does to the normalization output stack: `.` is
/// dropped, `..` is pushed when nothing can cancel it and pops the top
/// otherwise, and every other component is pushed unconditionally.
pub open spec fn norm_step(st: Seq<ComponentView>, c: ComponentView) -> Seq<ComponentView> {
    match c {
        ComponentView::CurDir => st,
        ComponentView::ParentDir => if st.len() == 0 || st.last() is ParentDir {
            st.push(ComponentView::ParentDir)
        } else {
            st.drop_last()
        },
        _ => st.push(c),
    }
}

/// Normalization of `cs`, run left to right onto an existing output stack.
pub open spec fn norm_onto(st: Seq<ComponentView>, cs: Seq<ComponentView>) -> Seq<ComponentView>
    decreases cs.len(),
{
    if cs.len() == 0 {
        st
    } else {
        norm_onto(norm_step(st, cs[0]), cs.skip(1))
    }
}

/// The normalized form of a path.
pub open spec fn spec_normalize(cs: Seq<ComponentView>) -> Seq<ComponentView> {
    norm_onto(Seq::empty(), cs)
}

/// A path in lowest terms: it holds no `.`, and its `..` components stand
/// only as a leading run, so no later component could still cancel one.
pub open spec fn is_normalized(cs: Seq<ComponentView>) -> bool {
    (forall|i: int| 0 <= i < cs.len() ==> !(cs[i] is CurDir))
        && (forall|i: int, j: int|
            0 <= j < i < cs.len() && cs[i] is ParentDir ==> cs[j] is ParentDir)
}

/// Normalizing a concatenation is normalizing the back half onto the front
/// half's result.
pub proof fn lemma_norm_onto_app(st: Seq<ComponentView>, xs: Seq<ComponentView>, ys: Seq<ComponentView>)
    ensures
        norm_onto(st, xs + ys) == norm_onto(norm_onto(st, xs), ys),
    decreases xs.len(),
{
    if xs.len() == 0 {
        assert(xs + ys =~= ys);
    } else {
        assert((xs + ys)[0] == xs[0]);
        assert((xs + ys).skip(1) =~= xs.skip(1) + ys);
        lemma_norm_onto_app(norm_step(st, xs[0]), xs.skip(1), ys);
    }
}

/// One step keeps the stack in lowest terms.
pub proof fn lemma_norm_step_preserves(st: Seq<ComponentView>, c: ComponentView)
    requires
        is_normalized(st),
    ensures
        is_normalized(norm_step(st, c)),
{
    match c {
        ComponentView::CurDir => {
        },
        ComponentView::ParentDir => {
            if st.len() == 0 || st.last() is ParentDir {
                let r = st.push(ComponentView::ParentDir);
                assert forall|i: int, j: int|
                    0 <= j < i < r.len() && r[i] is ParentDir implies r[j] is ParentDir by {
                    if i < st.len() {
                    } else {
                        if j < st.len() - 1 {
                            assert(st[st.len() - 1] is ParentDir);
                        }
                    }
                }
            }
        },
        _ => {
            let r = st.push(c);
            assert forall|i: int, j: int|
                0 <= j < i < r.len() && r[i] is ParentDir implies r[j] is ParentDir by {
                assert(i < st.len());
            }
        },
    }
}

/// Normalization keeps a lowest-terms stack in lowest terms.
pub proof fn lemma_norm_onto_preserves(st: Seq<ComponentView>, cs: Seq<ComponentView>)
    requires
        is_normalized(st),
    ensures
        is_normalized(norm_onto(st, cs)),
    decreases cs.len(),
{
    if cs.len() > 0 {
        lemma_norm_step_preserves(st, cs[0]);
        lemma_norm_onto_preserves(norm_step(st, cs[0]), cs.skip(1));
    }
}

/// Normalization does nothing to input that is already in lowest terms:
/// when the stack followed by the remaining input is normalized, every
/// remaining component is simply pushed.
pub proof fn lemma_norm_onto_noop(st: Seq<ComponentView>, xs: Seq<ComponentView>)
    requires
        is_normalized(st + xs),
    ensures
        norm_onto(st, xs) == st + xs,
    decreases xs.len(),
{
    if xs.len() == 0 {
        assert(st + xs =~= st);
    } else {
        let c = xs[0];
        assert((st + xs)[st.len() as int] == c);
        assert(!(c is CurDir));
        if c is ParentDir {
            if st.len() > 0 {
                assert forall|j: int| 0 <= j < st.len() implies st[j] is ParentDir by {
                    assert((st + xs)[j] == st[j]);
                }
                assert(st.last() is ParentDir);
            }
        }
        assert(norm_step(st, c) == st.push(c));
        assert(st.push(c) + xs.skip(1) =~= st + xs);
        lemma_norm_onto_noop(st.push(c), xs.skip(1));
    }
}

/// The normalized form of any path is in lowest terms.
pub proof fn lemma_normalize_is_normalized(p: Seq<ComponentView>)
    ensures
        is_normalized(spec_normalize(p)),
{
    lemma_norm_onto_preserves(Seq::empty(), p);
}

/// Law: normalization is idempotent — normalizing a normalized path gives
/// it back unchanged.
pub proof fn lemma_normalize_idempotent(p: Seq<ComponentView>)
    ensures
        spec_normalize(spec_normalize(p)) == spec_normalize(p),
{
    let q = spec_normalize(p);
    lemma_normalize_is_normalized(p);
    assert(Seq::<ComponentView>::empty() + q =~= q);
    lemma_norm_onto_noop(Seq::empty(), q);
}

/// Collapse `.` and resolvable `..` segments of the path, left to right,
/// without consulting the filesystem. Total: an all-cancelling input gives
/// the empty path, which denotes the current directory.
pub fn naively_normalize_path(path: &Path) -> (r: Path)
    ensures
        r@ == spec_normalize(path@),
{
    let mut stack: Vec<Component> = Vec::new();
    let n = path.components.len();
    let mut i: usize = 0;
    proof {
        assert(path@.skip(0) =~= path@);
        assert(views_of(stack@) =~= Seq::<ComponentView>::empty());
    }
    while i < n
        invariant
            n == path.components@.len(),
            path@.len() == n,
            i <= n,
            spec_normalize(path@) == norm_onto(views_of(stack@), path@.skip(i as int)),
        decreases n - i,
    {
        proof {
            assert(path@.skip(i as int)[0] == path@[i as int]);
            assert(path@.skip(i as int).skip(1) =~= path@.skip(i + 1));
            assert(path@[i as int] == path.components@[i as int]@);
        }
        let ghost prev = stack@;
        match &path.components[i] {
            Component::CurDir => {
            },
            Component::ParentDir => {
                let len = stack.len();
                if len == 0 || is_parent_dir(&stack[len - 1]) {
                    proof {
                        if len > 0 {
                            assert(views_of(prev).last() == prev[len - 1]@);
                        }
                    }
                    stack.push(Component::ParentDir);
                    proof {
                        lemma_views_of_push(prev, Component::ParentDir);
                    }
                } else {
                    proof {
                        assert(views_of(prev).last() == prev[len - 1]@);
                    }
                    stack.pop();
                    proof {
                        assert(views_of(stack@) =~= views_of(prev).drop_last());
                    }
                }
            },
            _ => {
                let c = path.components[i].duplicate();
                proof {
                    assert(!(c@ is CurDir) && !(c@ is ParentDir));
                }
                stack.push(c);
                proof {
                    lemma_views_of_push(prev, stack@.last());
                }
            },
        }
        i += 1;
    }
    proof {
        assert(path@.skip(n as int) =~= Seq::<ComponentView>::empty());
    }
    Path { components: stack }
}

} // verus!
