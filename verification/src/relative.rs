//! The relative path resolver: what path, resolved against `base`, denotes
//! `target` — computed syntactically, emulating POSIX `relpath`. The walk
//! consumes a common prefix, answers the rest of the base with `..` segments,
//! and refuses a `..` in the base, whose true referent is unknowable without
//! the filesystem.

use vstd::prelude::*;
use crate::component::{Component, ComponentView};
use crate::path::{Path, views_of, lemma_views_of_push, spec_is_absolute};
use crate::normalize::{spec_normalize, norm_onto, norm_step, is_normalized, lemma_norm_onto_app, lemma_norm_onto_noop};

verus! {

/// The lock-step walk over the two component sequences. `started` records
/// that output has already been emitted, which closes the common-prefix
/// phase: corresponding equal components are consumed only before it.
/// Ordered cases: equal heads, `.` in base (skipped, it stays in place),
/// `..` in base (unresolvable), base exhausted (remaining target appended
/// verbatim), and divergence (one `..` answers the base component).
pub open spec fn rel_walk(t: Seq<ComponentView>, b: Seq<ComponentView>, started: bool) -> Option<Seq<ComponentView>>
    decreases b.len(),
{
    if b.len() == 0 {
        Some(t)
    } else if t.len() > 0 && !started && t[0] == b[0] {
        rel_walk(t.skip(1), b.skip(1), false)
    } else if b[0] is CurDir {
        rel_walk(t, b.skip(1), started)
    } else if b[0] is ParentDir {
        None
    } else {
        match rel_walk(t, b.skip(1), true) {
            Some(rest) => Some(seq![ComponentView::ParentDir] + rest),
            None => None,
        }
    }
}

/// The path that denotes `t` when resolved against `b`. When exactly one of
/// the two is absolute they are not comparable syntactically: an absolute
/// target is returned unchanged, a relative one cannot be resolved at all.
pub open spec fn spec_relative_from(t: Seq<ComponentView>, b: Seq<ComponentView>) -> Option<Seq<ComponentView>> {
    if spec_is_absolute(t) != spec_is_absolute(b) {
        if spec_is_absolute(t) {
            Some(t)
        } else {
            None
        }
    } else {
        rel_walk(t, b, false)
    }
}

/// Get the relative path from two paths, similar to POSIX `relpath`. This
/// does not check whether either path exists in the filesystem.
pub fn relative_path_from(dst: &Path, base: &Path) -> (r: Option<Path>)
    ensures
        match r {
            Some(p) => spec_relative_from(dst@, base@) == Some(p@),
            None => spec_relative_from(dst@, base@) is None,
        },
{
    let dst_abs = dst.is_absolute();
    let base_abs = base.is_absolute();
    if dst_abs != base_abs {
        if dst_abs {
            return Some(dst.duplicate());
        } else {
            return None;
        }
    }
    let tn = dst.components.len();
    let bn = base.components.len();
    let mut out: Vec<Component> = Vec::new();
    let mut i: usize = 0;
    let mut j: usize = 0;
    proof {
        assert(dst@.skip(0) =~= dst@);
        assert(base@.skip(0) =~= base@);
        assert(views_of(out@) =~= Seq::<ComponentView>::empty());
        assert(Seq::<ComponentView>::empty() + dst@ =~= dst@);
    }
    while j < bn
        invariant
            tn == dst.components@.len(),
            dst@.len() == tn,
            bn == base.components@.len(),
            base@.len() == bn,
            i <= tn,
            j <= bn,
            spec_is_absolute(dst@) == spec_is_absolute(base@),
            rel_walk(dst@, base@, false) == match rel_walk(
                dst@.skip(i as int),
                base@.skip(j as int),
                out@.len() > 0,
            ) {
                Some(rest) => Some(views_of(out@) + rest),
                None => None::<Seq<ComponentView>>,
            },
        decreases bn - j,
    {
        proof {
            assert(base@.skip(j as int)[0] == base@[j as int]);
            assert(base@[j as int] == base.components@[j as int]@);
            assert(base@.skip(j as int).skip(1) =~= base@.skip(j + 1));
            if i < tn {
                assert(dst@.skip(i as int)[0] == dst@[i as int]);
                assert(dst@[i as int] == dst.components@[i as int]@);
                assert(dst@.skip(i as int).skip(1) =~= dst@.skip(i + 1));
            }
        }
        let b_c = &base.components[j];
        if i < tn && out.len() == 0 && dst.components[i].equals(b_c) {
            i += 1;
            j += 1;
        } else if matches!(b_c, Component::CurDir) {
            j += 1;
        } else if matches!(b_c, Component::ParentDir) {
            proof {
                let t1 = dst@.skip(i as int);
                let b1 = base@.skip(j as int);
                assert(b1[0] is ParentDir);
                assert(rel_walk(t1, b1, out@.len() > 0) is None);
            }
            return None;
        } else {
            let ghost prev = out@;
            out.push(Component::ParentDir);
            j += 1;
            proof {
                lemma_views_of_push(prev, Component::ParentDir);
                let w = rel_walk(dst@.skip(i as int), base@.skip(j as int), true);
                if w is Some {
                    assert(views_of(prev) + (seq![ComponentView::ParentDir] + w.unwrap())
                        =~= views_of(prev).push(ComponentView::ParentDir) + w.unwrap());
                }
            }
        }
    }
    proof {
        assert(base@.skip(bn as int) =~= Seq::<ComponentView>::empty());
    }
    let ghost head = views_of(out@);
    let mut k: usize = i;
    proof {
        assert(views_of(out@) =~= head + dst@.subrange(i as int, i as int));
    }
    while k < tn
        invariant
            tn == dst.components@.len(),
            dst@.len() == tn,
            i <= k <= tn,
            spec_is_absolute(dst@) == spec_is_absolute(base@),
            rel_walk(dst@, base@, false) == Some(head + dst@.skip(i as int)),
            views_of(out@) == head + dst@.subrange(i as int, k as int),
        decreases tn - k,
    {
        let ghost prev = out@;
        out.push(dst.components[k].duplicate());
        proof {
            lemma_views_of_push(prev, out@.last());
            assert((head + dst@.subrange(i as int, k as int)).push(dst@[k as int])
                =~= head + dst@.subrange(i as int, k + 1));
            assert(dst@[k as int] == dst.components@[k as int]@);
        }
        k += 1;
    }
    proof {
        assert(dst@.subrange(i as int, tn as int) =~= dst@.skip(i as int));
    }
    Some(Path { components: out })
}

/// Law: mixed absoluteness. An absolute target against a relative base is
/// returned unchanged; a relative target against an absolute base cannot be
/// resolved.
pub proof fn lemma_mixed_absoluteness(t: Seq<ComponentView>, b: Seq<ComponentView>)
    ensures
        spec_is_absolute(t) && !spec_is_absolute(b) ==> spec_relative_from(t, b) == Some(t),
        !spec_is_absolute(t) && spec_is_absolute(b) ==> spec_relative_from(t, b) is None,
{
}

/// `n` copies of the `..` component.
pub open spec fn repeat_parent(n: nat) -> Seq<ComponentView> {
    Seq::new(n, |i: int| ComponentView::ParentDir)
}

pub proof fn lemma_is_normalized_skip(cs: Seq<ComponentView>, k: int)
    requires
        is_normalized(cs),
        0 <= k <= cs.len(),
    ensures
        is_normalized(cs.skip(k)),
{
    assert forall|i: int| 0 <= i < cs.skip(k).len() implies !(cs.skip(k)[i] is CurDir) by {
        assert(cs.skip(k)[i] == cs[k + i]);
    }
    assert forall|i: int, j: int|
        0 <= j < i < cs.skip(k).len() && cs.skip(k)[i] is ParentDir
        implies cs.skip(k)[j] is ParentDir by {
        assert(cs.skip(k)[i] == cs[k + i]);
        assert(cs.skip(k)[j] == cs[k + j]);
    }
}

/// On normalized inputs, a successful walk has one shape: the two paths
/// agree on a prefix of length `l`, the rest of the base holds no `.` or
/// `..`, and the result answers each remaining base component with `..` and
/// then carries the rest of the target verbatim.
pub proof fn lemma_rel_walk_shape(t: Seq<ComponentView>, b: Seq<ComponentView>, started: bool, rel: Seq<ComponentView>) -> (l: int)
    requires
        is_normalized(t),
        is_normalized(b),
        rel_walk(t, b, started) == Some(rel),
    ensures
        0 <= l <= t.len(),
        l <= b.len(),
        started ==> l == 0,
        t.take(l) == b.take(l),
        forall|k: int| l <= k < b.len() ==> !(b[k] is CurDir) && !(b[k] is ParentDir),
        rel == repeat_parent((b.len() - l) as nat) + t.skip(l),
    decreases b.len(),
{
    if b.len() == 0 {
        assert(rel == t);
        assert(repeat_parent(0) + t.skip(0) =~= t);
        0
    } else if t.len() > 0 && !started && t[0] == b[0] {
        lemma_is_normalized_skip(t, 1);
        lemma_is_normalized_skip(b, 1);
        let l1 = lemma_rel_walk_shape(t.skip(1), b.skip(1), false, rel);
        let l = l1 + 1;
        assert(t.take(l) =~= b.take(l)) by {
            assert forall|x: int| 0 <= x < l implies t.take(l)[x] == b.take(l)[x] by {
                if x > 0 {
                    assert(t.skip(1).take(l1)[x - 1] == b.skip(1).take(l1)[x - 1]);
                    assert(t.skip(1).take(l1)[x - 1] == t[x]);
                    assert(b.skip(1).take(l1)[x - 1] == b[x]);
                }
            }
        }
        assert forall|k: int| l <= k < b.len() implies !(b[k] is CurDir) && !(b[k] is ParentDir) by {
            assert(b.skip(1)[k - 1] == b[k]);
        }
        assert(rel == repeat_parent((b.len() - l) as nat) + t.skip(l)) by {
            assert(t.skip(1).skip(l1) =~= t.skip(l));
            assert(b.skip(1).len() - l1 == b.len() - l);
        }
        l
    } else if b[0] is CurDir {
        assert(false);
        0
    } else if b[0] is ParentDir {
        assert(false);
        0
    } else {
        let rest = rel_walk(t, b.skip(1), true).unwrap();
        assert(rel == seq![ComponentView::ParentDir] + rest);
        lemma_is_normalized_skip(b, 1);
        let l1 = lemma_rel_walk_shape(t, b.skip(1), true, rest);
        assert(l1 == 0);
        assert forall|k: int| 0 <= k < b.len() implies !(b[k] is CurDir) && !(b[k] is ParentDir) by {
            if k > 0 {
                assert(b.skip(1)[k - 1] == b[k]);
            }
        }
        assert(rel =~= repeat_parent(b.len() as nat) + t.skip(0)) by {
            assert(rest == repeat_parent((b.len() - 1) as nat) + t.skip(0));
        }
        assert(t.take(0) =~= b.take(0));
        0
    }
}

/// `..` components run against a stack whose remaining top components are
/// plain segments pop them one by one.
proof fn lemma_norm_pops(b: Seq<ComponentView>, l: int)
    requires
        0 <= l <= b.len(),
        forall|k: int| l <= k < b.len() ==> !(b[k] is CurDir) && !(b[k] is ParentDir),
    ensures
        norm_onto(b, repeat_parent((b.len() - l) as nat)) == b.take(l),
    decreases b.len() - l,
{
    let m = (b.len() - l) as nat;
    if m == 0 {
        assert(repeat_parent(0).len() == 0);
        assert(b.take(l) =~= b);
    } else {
        assert(repeat_parent(m)[0] is ParentDir);
        assert(!(b.last() is ParentDir));
        assert(norm_step(b, repeat_parent(m)[0]) == b.drop_last());
        assert(repeat_parent(m).skip(1) =~= repeat_parent((m - 1) as nat));
        assert forall|k: int| l <= k < b.drop_last().len()
            implies !(b.drop_last()[k] is CurDir) && !(b.drop_last()[k] is ParentDir) by {
            assert(b.drop_last()[k] == b[k]);
        }
        lemma_norm_pops(b.drop_last(), l);
        assert(b.drop_last().take(l) =~= b.take(l));
    }
}

/// Law: relative round trip. For normalized target and base of the same
/// absoluteness, resolving the computed relative path against the base —
/// joining and normalizing — reconstructs the target exactly.
pub proof fn lemma_relative_round_trip(t: Seq<ComponentView>, b: Seq<ComponentView>, rel: Seq<ComponentView>)
    requires
        is_normalized(t),
        is_normalized(b),
        spec_is_absolute(t) == spec_is_absolute(b),
        spec_relative_from(t, b) == Some(rel),
    ensures
        spec_normalize(b + rel) == t,
{
    let l = lemma_rel_walk_shape(t, b, false, rel);
    let m = (b.len() - l) as nat;
    lemma_norm_onto_app(Seq::empty(), b, rel);
    assert(Seq::<ComponentView>::empty() + b =~= b);
    lemma_norm_onto_noop(Seq::empty(), b);
    lemma_norm_onto_app(b, repeat_parent(m), t.skip(l));
    assert(repeat_parent(m) + t.skip(l) == rel);
    lemma_norm_pops(b, l);
    assert(b.take(l) + t.skip(l) =~= t);
    lemma_norm_onto_noop(b.take(l), t.skip(l));
}

} // verus!
