//! The path value type: an ordered sequence of components, parsed from and
//! rendered back to `/`-separated text, together with the file-name logic
//! (extension test, extension stripping) that the registry key builder needs.

use vstd::prelude::*;
use crate::component::{Component, ComponentView, str_eq};

verus! {

/// A filesystem path as a pure value: just its components, in order. A path
/// is absolute exactly when its first component is the root marker.
pub struct Path {
    pub components: Vec<Component>,
}

/// The component-wise mathematical view of a component vector.
pub open spec fn views_of(s: Seq<Component>) -> Seq<ComponentView> {
    Seq::new(s.len(), |i: int| s[i]@)
}

impl View for Path {
    type V = Seq<ComponentView>;

    open spec fn view(&self) -> Seq<ComponentView> {
        views_of(self.components@)
    }
}

pub proof fn lemma_views_of_push(s: Seq<Component>, c: Component)
    ensures
        views_of(s.push(c)) == views_of(s).push(c@),
{
    assert(views_of(s.push(c)) =~= views_of(s).push(c@));
}

/// Index of the first `/` in `s`, or `s.len()` if there is none.
pub open spec fn first_sep(s: Seq<char>) -> nat
    decreases s.len(),
{
    if s.len() == 0 {
        0
    } else if s[0] == '/' {
        0
    } else {
        1 + first_sep(s.skip(1))
    }
}

pub proof fn lemma_first_sep_bounds(s: Seq<char>)
    ensures
        first_sep(s) <= s.len(),
        forall|k: int| 0 <= k < first_sep(s) ==> s[k] != '/',
        first_sep(s) < s.len() ==> s[first_sep(s) as int] == '/',
    decreases s.len(),
{
    if s.len() == 0 {
    } else if s[0] == '/' {
    } else {
        lemma_first_sep_bounds(s.skip(1));
        assert forall|k: int| 0 <= k < first_sep(s) implies s[k] != '/' by {
            if k > 0 {
                assert(s.skip(1)[k - 1] == s[k]);
            }
        }
        if first_sep(s) < s.len() {
            assert(s.skip(1)[first_sep(s) - 1] == s[first_sep(s) as int]);
        }
    }
}

pub proof fn lemma_first_sep_is(s: Seq<char>, m: int)
    requires
        0 <= m <= s.len(),
        forall|k: int| 0 <= k < m ==> s[k] != '/',
        m < s.len() ==> s[m] == '/',
    ensures
        first_sep(s) == m,
    decreases s.len(),
{
    if m == 0 {
    } else {
        assert(s.skip(1).len() == s.len() - 1);
        assert forall|k: int| 0 <= k < m - 1 implies s.skip(1)[k] != '/' by {
            assert(s.skip(1)[k] == s[k + 1]);
        }
        if m - 1 < s.len() - 1 {
            assert(s.skip(1)[m - 1] == s[m]);
        }
        lemma_first_sep_is(s.skip(1), m - 1);
    }
}

/// What one `/`-free text segment stands for: `.`, `..`, or a plain name.
pub open spec fn classify_segment(seg: Seq<char>) -> ComponentView {
    if seg == seq!['.'] {
        ComponentView::CurDir
    } else if seg == seq!['.', '.'] {
        ComponentView::ParentDir
    } else {
        ComponentView::Named(seg)
    }
}

/// Components of a relative path text: segments between `/` separators,
/// with empty segments dropped.
pub open spec fn parse_segments(s: Seq<char>) -> Seq<ComponentView>
    decreases s.len(),
    via parse_segments_decreases
{
    if s.len() == 0 {
        Seq::empty()
    } else if s[0] == '/' {
        parse_segments(s.skip(1))
    } else {
        let k = first_sep(s);
        seq![classify_segment(s.take(k as int))] + parse_segments(s.skip(k as int))
    }
}

#[via_fn]
proof fn parse_segments_decreases(s: Seq<char>) {
    if s.len() > 0 && s[0] != '/' {
        lemma_first_sep_bounds(s);
    }
}

/// Components of a path text: a leading `/` becomes the root marker, the
/// rest is split into segments.
pub open spec fn parse_path(s: Seq<char>) -> Seq<ComponentView> {
    if s.len() > 0 && s[0] == '/' {
        seq![ComponentView::RootDir] + parse_segments(s.skip(1))
    } else {
        parse_segments(s)
    }
}

/// The text of one component when it is rendered inside a path.
pub open spec fn seg_text(c: ComponentView) -> Seq<char> {
    match c {
        ComponentView::RootDir => seq!['/'],
        ComponentView::CurDir => seq!['.'],
        ComponentView::ParentDir => seq!['.', '.'],
        ComponentView::Named(s) => s,
    }
}

/// Segments joined with `/` separators.
pub open spec fn join_text(cs: Seq<ComponentView>) -> Seq<char>
    decreases cs.len(),
{
    if cs.len() == 0 {
        Seq::empty()
    } else if cs.len() == 1 {
        seg_text(cs[0])
    } else {
        join_text(cs.drop_last()) + seq!['/'] + seg_text(cs.last())
    }
}

/// The text of a whole path: a root marker renders as a leading `/`, the
/// remaining components are joined with `/`.
pub open spec fn render_path(cs: Seq<ComponentView>) -> Seq<char> {
    if cs.len() > 0 && cs[0] is RootDir {
        seq!['/'] + join_text(cs.skip(1))
    } else {
        join_text(cs)
    }
}

/// Whether a path is absolute.
pub open spec fn spec_is_absolute(cs: Seq<ComponentView>) -> bool {
    cs.len() > 0 && cs[0] is RootDir
}

/// The final named component of a path, if it has one. A path that is empty
/// or that ends in a root marker, `.`, or `..` has no file name.
pub open spec fn spec_file_name(cs: Seq<ComponentView>) -> Option<Seq<char>> {
    if cs.len() > 0 && cs.last() is Named {
        Some(cs.last()->Named_0)
    } else {
        None
    }
}

/// Whether `suffix` is a literal suffix of `s`.
pub open spec fn spec_ends_with(s: Seq<char>, suffix: Seq<char>) -> bool {
    suffix.len() <= s.len() && s.skip(s.len() - suffix.len()) == suffix
}

/// Whether the path's file name ends with the literal text `ext`.
pub open spec fn spec_has_extension(cs: Seq<ComponentView>, ext: Seq<char>) -> bool {
    match spec_file_name(cs) {
        Some(name) => spec_ends_with(name, ext),
        None => false,
    }
}

/// Index of the last `.` in `name`, or `-1` if there is none.
pub open spec fn last_dot(name: Seq<char>) -> int
    decreases name.len(),
{
    if name.len() == 0 {
        -1
    } else if name.last() == '.' {
        name.len() - 1
    } else {
        last_dot(name.drop_last())
    }
}

pub proof fn lemma_last_dot_is(name: Seq<char>, d: int)
    requires
        -1 <= d < name.len(),
        d >= 0 ==> name[d] == '.',
        forall|k: int| d < k < name.len() ==> name[k] != '.',
    ensures
        last_dot(name) == d,
    decreases name.len(),
{
    if name.len() == 0 {
    } else if name.last() == '.' {
        assert(d == name.len() - 1);
    } else {
        assert(d < name.len() - 1);
        assert forall|k: int| d < k < name.drop_last().len() implies name.drop_last()[k] != '.' by {
            assert(name.drop_last()[k] == name[k]);
        }
        if d >= 0 {
            assert(name.drop_last()[d] == name[d]);
        }
        lemma_last_dot_is(name.drop_last(), d);
    }
}

/// The file stem of a name: the text before the last `.`, except that a name
/// with no `.`, or whose only `.` leads it, is its own stem.
pub open spec fn spec_stem(name: Seq<char>) -> Seq<char> {
    let d = last_dot(name);
    if d <= 0 {
        name
    } else {
        name.take(d)
    }
}

/// The path with its file name's extension removed: the parent directory's
/// components followed by the file stem. `None` when there is no file name.
pub open spec fn spec_without_extension(cs: Seq<ComponentView>) -> Option<Seq<ComponentView>> {
    match spec_file_name(cs) {
        Some(name) => Some(cs.drop_last().push(ComponentView::Named(spec_stem(name)))),
        None => None,
    }
}

fn classify(seg: &str) -> (c: Component)
    ensures
        c@ == classify_segment(seg@),
{
    proof {
        reveal_strlit(".");
        reveal_strlit("..");
        assert("."@ =~= seq!['.']);
        assert(".."@ =~= seq!['.', '.']);
    }
    if str_eq(seg, ".") {
        Component::CurDir
    } else if str_eq(seg, "..") {
        Component::ParentDir
    } else {
        Component::Named(String::from_str(seg))
    }
}

impl Path {
    /// The empty path, which denotes the current directory.
    pub fn empty() -> (p: Path)
        ensures
            p@ == Seq::<ComponentView>::empty(),
    {
        let p = Path { components: Vec::new() };
        proof {
            assert(p@ =~= Seq::<ComponentView>::empty());
        }
        p
    }

    /// Parse a `/`-separated path text into its components.
    pub fn from_str(s: &str) -> (p: Path)
        ensures
            p@ == parse_path(s@),
    {
        let n = s.unicode_len();
        let mut components: Vec<Component> = Vec::new();
        let mut i: usize = 0;
        if n > 0 && s.get_char(0) == '/' {
            components.push(Component::RootDir);
            i = 1;
            proof {
                assert(views_of(components@) =~= seq![ComponentView::RootDir]);
            }
        } else {
            proof {
                assert(views_of(components@) =~= Seq::<ComponentView>::empty());
                assert(s@.skip(0) =~= s@);
            }
        }
        while i < n
            invariant
                n == s@.len(),
                i <= n,
                parse_path(s@) == views_of(components@) + parse_segments(s@.skip(i as int)),
            decreases n - i,
        {
            if s.get_char(i) == '/' {
                proof {
                    assert(s@.skip(i as int).skip(1) =~= s@.skip(i + 1));
                }
                i += 1;
            } else {
                let start = i;
                i += 1;
                while i < n && s.get_char(i) != '/'
                    invariant
                        n == s@.len(),
                        start < i <= n,
                        forall|k: int| start <= k < i ==> s@[k] != '/',
                    decreases n - i,
                {
                    i += 1;
                }
                let seg = s.substring_char(start, i);
                let c = classify(seg);
                let ghost prev = components@;
                components.push(c);
                proof {
                    let tail = s@.skip(start as int);
                    assert forall|k: int| 0 <= k < i - start implies tail[k] != '/' by {
                        assert(tail[k] == s@[start + k]);
                    }
                    if i < n {
                        assert(tail[i - start] == s@[i as int]);
                    }
                    lemma_first_sep_is(tail, i - start);
                    assert(tail.take(i - start) =~= s@.subrange(start as int, i as int));
                    assert(tail.skip(i - start) =~= s@.skip(i as int));
                    lemma_views_of_push(prev, c);
                    assert(views_of(prev) + (seq![c@] + parse_segments(s@.skip(i as int)))
                        =~= views_of(prev).push(c@) + parse_segments(s@.skip(i as int)));
                }
            }
        }
        proof {
            assert(s@.skip(n as int) =~= Seq::<char>::empty());
            assert(views_of(components@) + Seq::<ComponentView>::empty() =~= views_of(components@));
        }
        Path { components }
    }

    /// Render the path back to `/`-separated text.
    pub fn to_string(&self) -> (s: String)
        ensures
            s@ == render_path(self@),
    {
        let mut out = String::new();
        let n = self.components.len();
        let mut i: usize = 0;
        let rooted = n > 0 && matches!(&self.components[0], Component::RootDir);
        let ghost tail: Seq<ComponentView> = if rooted { self@.skip(1) } else { self@ };
        let ghost lead: Seq<char> = if rooted { seq!['/'] } else { Seq::empty() };
        if rooted {
            append_separator(&mut out);
            i = 1;
        }
        proof {
            assert(out@ =~= lead + join_text(tail.take(0)));
        }
        while i < n
            invariant
                n == self.components@.len(),
                self@.len() == n,
                (if rooted { 1int } else { 0int }) <= i <= n,
                rooted == (n > 0 && self@[0] is RootDir),
                tail == (if rooted { self@.skip(1) } else { self@ }),
                lead == (if rooted { seq!['/'] } else { Seq::<char>::empty() }),
                out@ == lead + join_text(tail.take(i - (if rooted { 1int } else { 0int }))),
            decreases n - i,
        {
            let ghost off: int = if rooted { 1 } else { 0 };
            let ghost j = i - off;
            proof {
                assert(tail[j] == self@[i as int]);
            }
            if i > if rooted { 1 } else { 0 } {
                append_separator(&mut out);
            }
            append_segment(&mut out, &self.components[i]);
            proof {
                assert(self@[i as int] == self.components@[i as int]@);
                let t1 = tail.take(j + 1);
                assert(t1.len() == j + 1);
                assert(t1.drop_last() =~= tail.take(j));
                assert(t1.last() == tail[j]);
                if j == 0 {
                    assert(join_text(t1) == seg_text(tail[0]));
                    assert(join_text(tail.take(0)) =~= Seq::<char>::empty());
                    assert(out@ =~= lead + join_text(t1));
                } else {
                    assert(join_text(t1) == join_text(tail.take(j)) + seq!['/'] + seg_text(tail[j]));
                    assert(out@ =~= lead + join_text(t1));
                }
            }
            i += 1;
        }
        proof {
            let ghost off: int = if rooted { 1 } else { 0 };
            assert(tail.take(n - off) =~= tail);
            assert(out@ =~= render_path(self@));
        }
        out
    }

    /// Whether the path is absolute, that is, begins with the root marker.
    pub fn is_absolute(&self) -> (r: bool)
        ensures
            r == spec_is_absolute(self@),
    {
        if self.components.len() == 0 {
            false
        } else {
            proof {
                assert(self@[0] == self.components@[0]@);
            }
            matches!(&self.components[0], Component::RootDir)
        }
    }

    /// A fresh path with the same components.
    pub fn duplicate(&self) -> (r: Path)
        ensures
            r@ == self@,
    {
        let mut components: Vec<Component> = Vec::new();
        let n = self.components.len();
        let mut i: usize = 0;
        while i < n
            invariant
                n == self.components@.len(),
                i <= n,
                views_of(components@) == self@.take(i as int),
            decreases n - i,
        {
            let ghost prev = components@;
            components.push(self.components[i].duplicate());
            proof {
                lemma_views_of_push(prev, components@.last());
                assert(views_of(prev).push(self@[i as int]) =~= self@.take(i + 1));
            }
            i += 1;
        }
        proof {
            assert(self@.take(n as int) =~= self@);
        }
        Path { components }
    }
}

fn append_separator(out: &mut String)
    ensures
        final(out)@ == old(out)@ + seq!['/'],
{
    proof {
        reveal_strlit("/");
        assert("/"@ =~= seq!['/']);
    }
    out.append("/");
}

fn append_segment(out: &mut String, c: &Component)
    ensures
        final(out)@ == old(out)@ + seg_text(c@),
{
    proof {
        reveal_strlit("/");
        reveal_strlit(".");
        reveal_strlit("..");
        assert("/"@ =~= seq!['/']);
        assert("."@ =~= seq!['.']);
        assert(".."@ =~= seq!['.', '.']);
    }
    match c {
        Component::RootDir => out.append("/"),
        Component::CurDir => out.append("."),
        Component::ParentDir => out.append(".."),
        Component::Named(s) => out.append(s.as_str()),
    }
}

/// Whether `suffix` is a literal suffix of `s`, decided character by
/// character.
pub fn str_ends_with(s: &str, suffix: &str) -> (r: bool)
    ensures
        r == spec_ends_with(s@, suffix@),
{
    let n = s.unicode_len();
    let m = suffix.unicode_len();
    if m > n {
        return false;
    }
    let mut i: usize = 0;
    while i < m
        invariant
            n == s@.len(),
            m == suffix@.len(),
            m <= n,
            i <= m,
            forall|k: int| 0 <= k < i ==> s@[n - m + k] == suffix@[k],
        decreases m - i,
    {
        if s.get_char(n - m + i) != suffix.get_char(i) {
            proof {
                assert(s@.skip(n - m)[i as int] == s@[n - m + i]);
            }
            return false;
        }
        i += 1;
    }
    proof {
        assert(s@.skip(n - m) =~= suffix@);
    }
    true
}

/// Whether the path's final component, as text, ends with `ext`. The match
/// is a literal suffix test: callers that want the extension to start at a
/// segment boundary pass `ext` with its leading `.`.
pub fn has_file_extension(entry: &Path, ext: &str) -> (r: bool)
    ensures
        r == spec_has_extension(entry@, ext@),
{
    let n = entry.components.len();
    if n == 0 {
        return false;
    }
    proof {
        assert(entry@.last() == entry.components@[n - 1]@);
    }
    match &entry.components[n - 1] {
        Component::Named(name) => str_ends_with(name.as_str(), ext),
        _ => false,
    }
}

fn stem_of(name: &str) -> (r: String)
    ensures
        r@ == spec_stem(name@),
{
    let n = name.unicode_len();
    let mut i: usize = 0;
    let mut dot: usize = n;
    while i < n
        invariant
            n == name@.len(),
            i <= n,
            dot <= n,
            dot == n ==> forall|k: int| 0 <= k < i ==> name@[k] != '.',
            dot < n ==> dot < i && name@[dot as int] == '.'
                && forall|k: int| dot < k < i ==> name@[k] != '.',
        decreases n - i,
    {
        if name.get_char(i) == '.' {
            dot = i;
        }
        i += 1;
    }
    if dot == n {
        proof {
            lemma_last_dot_is(name@, -1);
        }
        String::from_str(name)
    } else if dot == 0 {
        proof {
            lemma_last_dot_is(name@, 0);
        }
        String::from_str(name)
    } else {
        proof {
            lemma_last_dot_is(name@, dot as int);
        }
        let r = name.substring_char(0, dot);
        proof {
            assert(r@ =~= name@.take(dot as int));
        }
        String::from_str(r)
    }
}

/// The path's parent components followed by its file stem: the path with
/// the file name's extension removed. `None` when the path has no file name
/// (it is empty, or ends in a root marker, `.`, or `..`); callers treat that
/// as a hard failure and skip the file.
pub fn path_without_extension(path: &Path) -> (r: Option<Path>)
    ensures
        match r {
            Some(p) => spec_without_extension(path@) == Some(p@),
            None => spec_without_extension(path@) is None,
        },
{
    let n = path.components.len();
    if n == 0 {
        return None;
    }
    proof {
        assert(path@.last() == path.components@[n - 1]@);
    }
    let stem: String = match &path.components[n - 1] {
        Component::Named(name) => stem_of(name.as_str()),
        _ => {
            return None;
        },
    };
    let mut components: Vec<Component> = Vec::new();
    let mut i: usize = 0;
    while i < n - 1
        invariant
            n == path.components@.len(),
            n >= 1,
            i <= n - 1,
            views_of(components@) == path@.take(i as int),
        decreases n - 1 - i,
    {
        let ghost prev = components@;
        components.push(path.components[i].duplicate());
        proof {
            lemma_views_of_push(prev, components@.last());
            assert(views_of(prev).push(path@[i as int]) =~= path@.take(i + 1));
        }
        i += 1;
    }
    let ghost prev = components@;
    components.push(Component::Named(stem));
    proof {
        lemma_views_of_push(prev, components@.last());
        assert(path@.take(n - 1) =~= path@.drop_last());
    }
    Some(Path { components })
}

} // verus!
