//! Relative paths out of archives and lockfiles, which are not to be trusted: none of them may
//! lead out of the directory that it is meant for.
//!
//! Paths are texts with `/` between their segments. What looks odd but leads nowhere (`...`,
//! `~`, `file:`) is an ordinary name.

use crate::text::{
    any_is, contains, ends_with, holds, joined, joined3, quote, quoted, same, split_at_char,
    split_char, starts_with,
};
use vstd::prelude::*;
use vstd::string::*;

verus! {

/// Why a path is refused.
#[derive(Debug, PartialEq, Eq)]
pub enum PathError {
    /// The path could lead out of its directory.
    Escapes(String),
    /// The directory that the path is in lies outside.
    OutsideParent(String),
    /// The path ends in no name.
    NoName,
}

/// What a [`PathError`] holds.
#[verifier::ext_equal]
pub enum PathErrorView {
    Escapes(Seq<char>),
    OutsideParent(Seq<char>),
    NoName,
}

impl DeepView for PathError {
    type V = PathErrorView;

    open spec fn deep_view(&self) -> PathErrorView {
        match *self {
            PathError::Escapes(s) => PathErrorView::Escapes(s@),
            PathError::OutsideParent(s) => PathErrorView::OutsideParent(s@),
            PathError::NoName => PathErrorView::NoName,
        }
    }
}

/// What is said of a path that is refused.
pub open spec fn path_error_text(e: PathErrorView) -> Seq<char> {
    match e {
        PathErrorView::Escapes(path) => "unsafe path "@ + quoted(path)
            + ": refuses to escape the destination"@,
        PathErrorView::OutsideParent(path) => "unsafe path "@ + quoted(path)
            + ": parent resolves outside the destination (symlink traversal?)"@,
        PathErrorView::NoName => "path has no file name"@,
    }
}

impl PathError {
    /// The same error again.
    pub fn copy(&self) -> (r: PathError)
        ensures
            r.deep_view() == self.deep_view(),
    {
        match self {
            PathError::Escapes(path) => PathError::Escapes(path.clone()),
            PathError::OutsideParent(path) => PathError::OutsideParent(path.clone()),
            PathError::NoName => PathError::NoName,
        }
    }

    /// What is said of the error.
    pub fn message(&self) -> (r: String)
        ensures
            r@ == path_error_text(self.deep_view()),
    {
        match self {
            PathError::Escapes(path) => joined3(
                "unsafe path ",
                quote(path.as_str()).as_str(),
                ": refuses to escape the destination",
            ),
            PathError::OutsideParent(path) => joined3(
                "unsafe path ",
                quote(path.as_str()).as_str(),
                ": parent resolves outside the destination (symlink traversal?)",
            ),
            PathError::NoName => "path has no file name".to_owned(),
        }
    }
}

/// Whether a segment counts: it is not empty and not the directory itself.
pub open spec fn is_step() -> spec_fn(Seq<char>) -> bool {
    |segment: Seq<char>| segment.len() > 0 && segment != "."@
}

/// The segments of a path that lead somewhere.
pub open spec fn steps(path: Seq<char>) -> Seq<Seq<char>> {
    split_at_char(path, '/').filter(is_step())
}

/// Whether a path starts at the root.
pub open spec fn is_absolute(path: Seq<char>) -> bool {
    "/"@.is_prefix_of(path)
}

/// Whether a relative path cannot lead out of the directory that it starts from: it is not
/// empty, does not start at the root, has no segment `..`, and holds no backslash, which
/// separates segments elsewhere.
pub open spec fn is_within(relative: Seq<char>) -> bool {
    &&& relative.len() > 0
    &&& !is_absolute(relative)
    &&& !split_at_char(relative, '/').contains(".."@)
    &&& !contains(relative, "\\"@)
}

/// `base` with the relative path behind it.
pub open spec fn path_under(base: Seq<char>, relative: Seq<char>) -> Seq<char> {
    if base.len() == 0 || "/"@.is_suffix_of(base) {
        base + relative
    } else {
        base + "/"@ + relative
    }
}

/// Refuses a relative path that could lead out of the directory that it starts from.
pub fn ensure_within(relative: &str) -> (r: Result<(), PathError>)
    ensures
        match r {
            Ok(_) => is_within(relative@),
            Err(e) => !is_within(relative@) && e.deep_view() == PathErrorView::Escapes(relative@),
        },
{
    if relative.unicode_len() == 0 || starts_with(relative, "/") || any_is(
        &split_char(relative, '/'),
        "..",
    ) || holds(relative, "\\") {
        return Err(unsafe_path(relative));
    }
    Ok(())
}

/// The error of a path that could lead out of its directory.
fn unsafe_path(relative: &str) -> (r: PathError)
    ensures
        r.deep_view() == PathErrorView::Escapes(relative@),
{
    PathError::Escapes(relative.to_owned())
}

/// `base` with the relative path behind it, unless that could lead out of `base`.
pub fn safe_join(base: &str, relative: &str) -> (r: Result<String, PathError>)
    ensures
        match r {
            Ok(path) => is_within(relative@) && path@ == path_under(base@, relative@),
            Err(e) => !is_within(relative@) && e.deep_view() == PathErrorView::Escapes(relative@),
        },
{
    match ensure_within(relative) {
        Ok(_) => Ok(join_path(base, relative)),
        Err(e) => Err(e),
    }
}

/// `base` with the relative path behind it.
pub(crate) fn join_path(base: &str, relative: &str) -> (r: String)
    ensures
        r@ == path_under(base@, relative@),
{
    if base.unicode_len() == 0 || ends_with(base, "/") {
        joined(base, relative)
    } else {
        joined3(base, "/", relative)
    }
}

/// The segments of a path that lead somewhere.
fn steps_of(path: &str) -> (r: Vec<String>)
    ensures
        r.deep_view() == steps(path@),
{
    let pieces = split_char(path, '/');
    let ghost all = pieces.deep_view();
    let mut out: Vec<String> = Vec::new();
    let mut i: usize = 0;
    assert(out.deep_view() =~= all.take(0).filter(is_step())) by {
        reveal(Seq::filter);
    }
    while i < pieces.len()
        invariant
            i <= pieces.len(),
            all == pieces.deep_view(),
            out.deep_view() == all.take(i as int).filter(is_step()),
        decreases pieces.len() - i,
    {
        let ghost done = out.deep_view();
        proof {
            assert(all.take(i + 1) =~= all.take(i as int).push(all[i as int]));
            all.take(i as int).lemma_filter_push(all[i as int], is_step());
        }
        if pieces[i].unicode_len() > 0 && !same(pieces[i].as_str(), ".") {
            out.push(pieces[i].clone());
            assert(out.deep_view() =~= done.push(all[i as int]));
        }
        i += 1;
    }
    assert(all.take(all.len() as int) =~= all);
    out
}

/// Whether the directory `path` is `root` or lies below it, segment by segment.
pub open spec fn lies_in(root: Seq<char>, path: Seq<char>) -> bool {
    is_absolute(root) == is_absolute(path) && steps(root).is_prefix_of(steps(path))
}

/// Whether the directory `path` is `root` or lies below it.
fn is_inside(root: &str, path: &str) -> (r: bool)
    ensures
        r == lies_in(root@, path@),
{
    if starts_with(root, "/") != starts_with(path, "/") {
        return false;
    }
    let outer = steps_of(root);
    let inner = steps_of(path);
    if outer.len() > inner.len() {
        return false;
    }
    let mut i: usize = 0;
    while i < outer.len()
        invariant
            i <= outer.len() <= inner.len(),
            outer.deep_view() == steps(root@),
            inner.deep_view() == steps(path@),
            forall|j: int| 0 <= j < i ==> steps(root@)[j] == steps(path@)[j],
        decreases outer.len() - i,
    {
        if !same(outer[i].as_str(), inner[i].as_str()) {
            assert(steps(path@).subrange(0, steps(root@).len() as int)[i as int] != steps(
                root@,
            )[i as int]);
            return false;
        }
        i += 1;
    }
    assert(steps(root@) =~= steps(path@).subrange(0, steps(root@).len() as int));
    true
}

/// Where a file may be written: `out` names it, `real_parent` is where the directory of `out`
/// really lies once links are followed, and `root` is the directory that nothing may be
/// written outside of, equally resolved.
pub open spec fn contained(root: Seq<char>, real_parent: Seq<char>, out: Seq<char>) -> Result<
    Seq<char>,
    PathErrorView,
> {
    if !lies_in(root, real_parent) {
        Err(PathErrorView::OutsideParent(out))
    } else if steps(out).len() == 0 || steps(out).last() == ".."@ {
        Err(PathErrorView::NoName)
    } else {
        Ok(path_under(real_parent, steps(out).last()))
    }
}

/// Where a file may be written: in the resolved directory, so that no link among the
/// directories leads the write elsewhere. A link in the place of the file itself is not
/// followed here; who writes the file takes it away first.
pub fn contained_target(root: &str, real_parent: &str, out: &str) -> (r: Result<String, PathError>)
    ensures
        match r {
            Ok(path) => contained(root@, real_parent@, out@) == Ok::<Seq<char>, PathErrorView>(
                path@,
            ),
            Err(e) => contained(root@, real_parent@, out@) == Err::<Seq<char>, PathErrorView>(
                e.deep_view(),
            ),
        },
{
    if !is_inside(root, real_parent) {
        return Err(PathError::OutsideParent(out.to_owned()));
    }
    let names = steps_of(out);
    if names.len() == 0 || same(names[names.len() - 1].as_str(), "..") {
        return Err(PathError::NoName);
    }
    Ok(join_path(real_parent, names[names.len() - 1].as_str()))
}

/// The segments of a path are those of what stands before a slash and those of what stands
/// behind it.
proof fn lemma_split_around(a: Seq<char>, b: Seq<char>)
    ensures
        split_at_char(a + "/"@ + b, '/') == split_at_char(a, '/') + split_at_char(b, '/'),
    decreases b.len(),
{
    let sep = crate::text::equals('/');
    reveal_strlit("/");
    assert("/"@ =~= seq!['/']);
    let whole = a + "/"@ + b;
    if b.len() == 0 {
        assert(whole.drop_last() =~= a);
        assert(whole.last() == '/');
        assert(split_at_char(whole, '/') =~= split_at_char(a, '/') + split_at_char(b, '/'));
    } else {
        lemma_split_around(a, b.drop_last());
        assert(whole.drop_last() =~= a + "/"@ + b.drop_last());
        assert(whole.last() == b.last());
        crate::text::lemma_split_where_len(b.drop_last(), sep);
        let x = split_at_char(a, '/');
        let y = split_at_char(b.drop_last(), '/');
        assert((x + y).last() == y.last());
        assert((x + y).drop_last() =~= x + y.drop_last());
        assert(split_at_char(whole, '/') =~= x + split_at_char(b, '/'));
    }
}

/// An empty segment leads nowhere.
proof fn lemma_empty_is_no_step()
    ensures
        seq![Seq::<char>::empty()].filter(is_step()) == Seq::<Seq<char>>::empty(),
{
    let none = Seq::<Seq<char>>::empty();
    let piece = Seq::<char>::empty();
    none.lemma_filter_push(piece, is_step());
    assert(none.push(piece) =~= seq![piece]);
    assert(none.filter(is_step()) =~= none) by {
        none.lemma_filter_len(is_step());
    }
}

/// The steps of a path under a base are the steps of the base and then those of the path.
proof fn lemma_steps_under(base: Seq<char>, relative: Seq<char>)
    ensures
        steps(path_under(base, relative)) == steps(base) + steps(relative),
{
    reveal_strlit("/");
    assert("/"@ =~= seq!['/']);
    if base.len() == 0 {
        assert(base + relative =~= relative);
        assert(split_at_char(base, '/') =~= seq![Seq::<char>::empty()]);
        lemma_empty_is_no_step();
        assert(steps(base) + steps(relative) =~= steps(relative));
    } else if "/"@.is_suffix_of(base) {
        let stem = base.drop_last();
        assert(base =~= stem + "/"@ + Seq::<char>::empty());
        assert(base + relative =~= stem + "/"@ + relative);
        lemma_split_around(stem, Seq::empty());
        lemma_split_around(stem, relative);
        let empty_split = split_at_char(Seq::empty(), '/');
        assert(empty_split =~= seq![Seq::<char>::empty()]);
        Seq::filter_distributes_over_add(split_at_char(stem, '/'), empty_split, is_step());
        Seq::filter_distributes_over_add(
            split_at_char(stem, '/'),
            split_at_char(relative, '/'),
            is_step(),
        );
        lemma_empty_is_no_step();
        assert(steps(base) =~= steps(stem));
    } else {
        lemma_split_around(base, relative);
        Seq::filter_distributes_over_add(
            split_at_char(base, '/'),
            split_at_char(relative, '/'),
            is_step(),
        );
    }
}

/// What is joined lies in its base: the steps of the base come first, and none of those that
/// follow leads up.
pub proof fn joined_paths_stay_inside(base: Seq<char>, relative: Seq<char>)
    requires
        is_within(relative),
    ensures
        steps(path_under(base, relative)) == steps(base) + steps(relative),
        steps(base).is_prefix_of(steps(path_under(base, relative))),
        !steps(relative).contains(".."@),
        is_absolute(path_under(base, relative)) == is_absolute(base),
{
    lemma_steps_under(base, relative);
    assert(steps(base) =~= steps(path_under(base, relative)).subrange(
        0,
        steps(base).len() as int,
    ));
    if steps(relative).contains(".."@) {
        split_at_char(relative, '/').lemma_filter_contains_rev(is_step(), ".."@);
    }
    reveal_strlit("/");
    assert("/"@ =~= seq!['/']);
    if base.len() > 0 {
        assert(path_under(base, relative)[0] == base[0]);
        assert(is_absolute(base) <==> base[0] == '/');
        assert(is_absolute(path_under(base, relative)) <==> path_under(base, relative)[0] == '/');
    } else {
        assert(base + relative =~= relative);
    }
}

} // verus!
