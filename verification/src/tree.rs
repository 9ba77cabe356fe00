//! The flat dependency tree of a set of roots: one version of each package, the newest that
//! the first requirement on it accepts.
//!
//! The tree is walked breadth first. [`TreeWalk`] says which metadata document is needed next
//! and takes it; [`Registry::resolve_tree_from`] walks with documents that are all at hand.

use crate::json::{lookup, lookup_member, Json, JsonView};
use crate::package_json::spec::{range_accepts, range_of, Range};
use crate::registry::{
    dependencies_of, published_dependencies, resolved_of, selected_version, Registry, ResolveError,
    ResolveErrorView, Resolved, ResolvedView,
};
use crate::sort::{is_sorted, sort_stable, stable_sort, Sortable};
use crate::text::same;
use crate::version::{Version, VersionView};
use vstd::prelude::*;
use vstd::string::*;

verus! {

/// A requirement: the name of a package and a range that its version has to satisfy.
pub type RequirementView = (Seq<char>, Seq<Seq<char>>);

/// What was taken for the package `name`.
pub open spec fn taken(resolved: Seq<ResolvedView>, name: Seq<char>) -> Option<ResolvedView>
    decreases resolved.len(),
{
    if resolved.len() == 0 {
        None
    } else if resolved.last().name == name {
        Some(resolved.last())
    } else {
        taken(resolved.drop_last(), name)
    }
}

/// The requirements of the dependencies `deps` of a version, or the error of the first whose
/// specifier is no range.
pub open spec fn requirements_of(
    name: Seq<char>,
    version: VersionView,
    deps: Seq<(Seq<char>, Seq<char>)>,
) -> Result<Seq<RequirementView>, ResolveErrorView>
    decreases deps.len(),
{
    if deps.len() == 0 {
        Ok(Seq::empty())
    } else {
        match requirements_of(name, version, deps.drop_last()) {
            Ok(before) => match range_of(deps.last().1) {
                Ok(range) => Ok(before.push((deps.last().0, range))),
                Err(error) => Err(
                    ResolveErrorView::Unsupported {
                        name,
                        version,
                        dependency: deps.last().0,
                        spec: deps.last().1,
                        error,
                    },
                ),
            },
            Err(e) => Err(e),
        }
    }
}

/// What a metadata document gives for a requirement: the version to take, and what that
/// version requires.
pub open spec fn visited(
    base: Seq<char>,
    name: Seq<char>,
    range: Seq<Seq<char>>,
    doc: JsonView,
) -> Result<(ResolvedView, Seq<RequirementView>), ResolveErrorView> {
    match selected_version(doc, range) {
        Some(s) => match requirements_of(name, s.0, published_dependencies(doc, s.0)) {
            Ok(requirements) => Ok((resolved_of(base, name, s), requirements)),
            Err(e) => Err(e),
        },
        None => Err(ResolveErrorView::NoMatch { name, range }),
    }
}

/// How many of the documents are of packages for which nothing was taken yet.
pub open spec fn outstanding(
    docs: Seq<(Seq<char>, JsonView)>,
    resolved: Seq<ResolvedView>,
) -> nat
    decreases docs.len(),
{
    if docs.len() == 0 {
        0
    } else {
        outstanding(docs.drop_last(), resolved) + (if taken(resolved, docs.last().0) is None {
            1nat
        } else {
            0nat
        })
    }
}

/// What the walk takes from here on: the first requirement of the queue comes first. One on
/// a package that was taken has to accept the version; one on another package has its newest
/// version taken, and what that version requires joins the queue at its end.
pub open spec fn walked(
    base: Seq<char>,
    docs: Seq<(Seq<char>, JsonView)>,
    resolved: Seq<ResolvedView>,
    queue: Seq<RequirementView>,
) -> Result<Seq<ResolvedView>, ResolveErrorView>
    decreases outstanding(docs, resolved), queue.len(),
{
    if queue.len() == 0 {
        Ok(resolved)
    } else {
        let (name, range) = queue[0];
        match taken(resolved, name) {
            Some(existing) => if range_accepts(range, existing.version) {
                walked(base, docs, resolved, queue.drop_first())
            } else {
                Err(ResolveErrorView::Conflict { name, version: existing.version, range })
            },
            None => match lookup(docs, name) {
                Some(doc) => match visited(base, name, range, doc) {
                    Ok((r, requirements)) => {
                        proof {
                            lemma_outstanding_falls(docs, resolved, r, name);
                        }
                        walked(
                            base,
                            docs,
                            resolved.push(r),
                            queue.drop_first() + requirements,
                        )
                    },
                    Err(e) => Err(e),
                },
                None => Err(ResolveErrorView::NoPackument { name }),
            },
        }
    }
}

/// The tree of `roots`, in the order of the names.
pub open spec fn tree_of(
    base: Seq<char>,
    docs: Seq<(Seq<char>, JsonView)>,
    roots: Seq<RequirementView>,
) -> Result<Seq<ResolvedView>, ResolveErrorView> {
    match walked(base, docs, Seq::empty(), roots) {
        Ok(resolved) => Ok(stable_sort::<Resolved>(resolved)),
        Err(e) => Err(e),
    }
}

proof fn lemma_taken_push(resolved: Seq<ResolvedView>, r: ResolvedView, name: Seq<char>)
    ensures
        taken(resolved.push(r), name) == (if r.name == name {
            Some(r)
        } else {
            taken(resolved, name)
        }),
{
    assert(resolved.push(r).drop_last() =~= resolved);
}

proof fn lemma_outstanding_shrinks(
    docs: Seq<(Seq<char>, JsonView)>,
    resolved: Seq<ResolvedView>,
    r: ResolvedView,
)
    ensures
        outstanding(docs, resolved.push(r)) <= outstanding(docs, resolved),
    decreases docs.len(),
{
    if docs.len() > 0 {
        lemma_outstanding_shrinks(docs.drop_last(), resolved, r);
        lemma_taken_push(resolved, r, docs.last().0);
    }
}

/// Taking a package of which there is a document leaves fewer documents outstanding.
pub proof fn lemma_outstanding_falls(
    docs: Seq<(Seq<char>, JsonView)>,
    resolved: Seq<ResolvedView>,
    r: ResolvedView,
    name: Seq<char>,
)
    ensures
        r.name == name && taken(resolved, name) is None && lookup(docs, name) is Some
            ==> outstanding(docs, resolved.push(r)) < outstanding(docs, resolved),
    decreases docs.len(),
{
    if docs.len() > 0 {
        lemma_outstanding_shrinks(docs.drop_last(), resolved, r);
        lemma_outstanding_falls(docs.drop_last(), resolved, r, name);
        lemma_taken_push(resolved, r, docs.last().0);
    }
}

/// What a walk does next.
#[derive(Debug)]
pub enum TreeStep {
    /// The metadata document of this package is needed.
    Fetch(String),
    /// Every requirement is satisfied.
    Done,
    /// The requirements cannot be satisfied.
    Failed(ResolveError),
}

/// What a [`TreeStep`] holds.
#[verifier::ext_equal]
pub enum TreeStepView {
    Fetch(Seq<char>),
    Done,
    Failed(ResolveErrorView),
}

impl DeepView for TreeStep {
    type V = TreeStepView;

    open spec fn deep_view(&self) -> TreeStepView {
        match *self {
            TreeStep::Fetch(name) => TreeStepView::Fetch(name@),
            TreeStep::Done => TreeStepView::Done,
            TreeStep::Failed(e) => TreeStepView::Failed(e.deep_view()),
        }
    }
}

/// What a requirement asks for: nothing where it is satisfied, a document where nothing was
/// taken for its package, else it cannot be satisfied.
pub open spec fn pending(resolved: Seq<ResolvedView>, requirement: RequirementView) -> Option<
    TreeStepView,
> {
    let (name, range) = requirement;
    match taken(resolved, name) {
        Some(existing) => if range_accepts(range, existing.version) {
            None
        } else {
            Some(
                TreeStepView::Failed(
                    ResolveErrorView::Conflict { name, version: existing.version, range },
                ),
            )
        },
        None => Some(TreeStepView::Fetch(name)),
    }
}

/// What comes of a queue before a document is needed: the requirements at its front that are
/// satisfied leave it, up to one that is not.
pub open spec fn settled(resolved: Seq<ResolvedView>, queue: Seq<RequirementView>) -> (
    Seq<RequirementView>,
    TreeStepView,
)
    decreases queue.len(),
{
    if queue.len() == 0 {
        (queue, TreeStepView::Done)
    } else {
        match pending(resolved, queue[0]) {
            None => settled(resolved, queue.drop_first()),
            Some(step) => (queue, step),
        }
    }
}

/// A walk: what was taken, and the requirements that are still to be seen to.
pub struct TreeWalk {
    base_url: String,
    resolved: Vec<Resolved>,
    queue: Vec<(String, Range)>,
}

/// What a [`TreeWalk`] holds.
#[verifier::ext_equal]
pub struct TreeWalkView {
    pub base: Seq<char>,
    pub resolved: Seq<ResolvedView>,
    pub queue: Seq<RequirementView>,
}

impl DeepView for TreeWalk {
    type V = TreeWalkView;

    closed spec fn deep_view(&self) -> TreeWalkView {
        TreeWalkView {
            base: self.base_url@,
            resolved: self.resolved.deep_view(),
            queue: self.queue.deep_view(),
        }
    }
}

/// What was taken for the package `name`.
fn find_taken<'a>(resolved: &'a Vec<Resolved>, name: &str) -> (r: Option<&'a Resolved>)
    ensures
        r.deep_view() == taken(resolved.deep_view(), name@),
{
    let ghost all = resolved.deep_view();
    let mut i: usize = resolved.len();
    assert(all.take(i as int) =~= all);
    while i > 0
        invariant
            i <= resolved.len(),
            all == resolved.deep_view(),
            taken(all, name@) == taken(all.take(i as int), name@),
        decreases i,
    {
        assert(all.take(i as int).drop_last() =~= all.take(i - 1));
        i -= 1;
        if same(resolved[i].name.as_str(), name) {
            return Some(&resolved[i]);
        }
    }
    None
}

/// What a requirement asks for.
fn next_step(resolved: &Vec<Resolved>, name: &str, range: &Range) -> (r: Option<TreeStep>)
    ensures
        r.deep_view() == pending(resolved.deep_view(), (name@, range.deep_view())),
{
    match find_taken(resolved, name) {
        Some(existing) => {
            if range.matches(&existing.version) {
                None
            } else {
                Some(
                    TreeStep::Failed(
                        ResolveError::Conflict {
                            name: name.to_owned(),
                            version: existing.version.copy(),
                            range: range.copy(),
                        },
                    ),
                )
            }
        },
        None => Some(TreeStep::Fetch(name.to_owned())),
    }
}

/// The requirements of the dependencies of a version.
fn requirements(name: &str, version: &Version, deps: &Vec<(String, String)>) -> (r: Result<
    Vec<(String, Range)>,
    ResolveError,
>)
    ensures
        match r {
            Ok(list) => requirements_of(name@, version.deep_view(), deps.deep_view()) == Ok::<
                Seq<RequirementView>,
                ResolveErrorView,
            >(list.deep_view()),
            Err(e) => requirements_of(name@, version.deep_view(), deps.deep_view()) == Err::<
                Seq<RequirementView>,
                ResolveErrorView,
            >(e.deep_view()),
        },
{
    let ghost all = deps.deep_view();
    let ghost v = version.deep_view();
    let mut list: Vec<(String, Range)> = Vec::new();
    let mut i: usize = 0;
    assert(list.deep_view() =~= Seq::<RequirementView>::empty());
    while i < deps.len()
        invariant
            i <= deps.len(),
            all == deps.deep_view(),
            v == version.deep_view(),
            requirements_of(name@, v, all.take(i as int)) == Ok::<
                Seq<RequirementView>,
                ResolveErrorView,
            >(list.deep_view()),
        decreases deps.len() - i,
    {
        let ghost done = list.deep_view();
        proof {
            assert(all.take(i + 1).drop_last() =~= all.take(i as int));
        }
        match Range::parse(deps[i].1.as_str()) {
            Ok(range) => {
                let pair = (deps[i].0.clone(), range);
                let ghost p = pair.deep_view();
                list.push(pair);
                assert(list.deep_view() =~= done.push(p));
            },
            Err(error) => {
                proof {
                    lemma_requirements_fail(name@, v, all, i + 1);
                }
                return Err(
                    ResolveError::Unsupported {
                        name: name.to_owned(),
                        version: version.copy(),
                        dependency: deps[i].0.clone(),
                        spec: deps[i].1.clone(),
                        error,
                    },
                );
            },
        }
        i += 1;
    }
    assert(all.take(all.len() as int) =~= all);
    Ok(list)
}

/// An error among the first dependencies is the error of all.
proof fn lemma_requirements_fail(
    name: Seq<char>,
    version: VersionView,
    deps: Seq<(Seq<char>, Seq<char>)>,
    n: int,
)
    requires
        0 <= n <= deps.len(),
        requirements_of(name, version, deps.take(n)) is Err,
    ensures
        requirements_of(name, version, deps) == requirements_of(name, version, deps.take(n)),
    decreases deps.len() - n,
{
    if n < deps.len() {
        assert(deps.take(n + 1).drop_last() =~= deps.take(n));
        lemma_requirements_fail(name, version, deps, n + 1);
    } else {
        assert(deps.take(n) =~= deps);
    }
}

/// The same requirements again.
fn copy_requirements(list: &Vec<(String, Range)>) -> (r: Vec<(String, Range)>)
    ensures
        r.deep_view() == list.deep_view(),
{
    let mut out: Vec<(String, Range)> = Vec::new();
    let mut i: usize = 0;
    while i < list.len()
        invariant
            i <= list.len(),
            out.deep_view() =~= list.deep_view().take(i as int),
        decreases list.len() - i,
    {
        let ghost done = out.deep_view();
        let pair = (list[i].0.clone(), list[i].1.copy());
        let ghost p = pair.deep_view();
        out.push(pair);
        assert(out.deep_view() =~= done.push(p));
        i += 1;
    }
    assert(out.deep_view() =~= list.deep_view());
    out
}

impl TreeWalk {
    /// A walk from `roots`, of which nothing was taken yet.
    pub fn new(registry: &Registry, roots: &Vec<(String, Range)>) -> (r: TreeWalk)
        ensures
            r.deep_view() == (TreeWalkView {
                base: registry.base_url@,
                resolved: Seq::empty(),
                queue: roots.deep_view(),
            }),
    {
        let r = TreeWalk {
            base_url: registry.base_url.clone(),
            resolved: Vec::new(),
            queue: copy_requirements(roots),
        };
        assert(r.deep_view().resolved =~= Seq::<ResolvedView>::empty());
        r
    }

    /// Drops the requirements at the front of the queue that are satisfied, and says what
    /// comes then.
    pub fn step(&mut self) -> (r: TreeStep)
        ensures
            final(self).deep_view() == (TreeWalkView {
                queue: settled(old(self).deep_view().resolved, old(self).deep_view().queue).0,
                ..old(self).deep_view()
            }),
            r.deep_view() == settled(
                old(self).deep_view().resolved,
                old(self).deep_view().queue,
            ).1,
    {
        let ghost start = self.deep_view();
        let mut i: usize = 0;
        assert(start.queue.skip(0) =~= start.queue);
        while i < self.queue.len()
            invariant
                i <= self.queue.len(),
                start == self.deep_view(),
                start == old(self).deep_view(),
                settled(start.resolved, start.queue) == settled(
                    start.resolved,
                    start.queue.skip(i as int),
                ),
            decreases self.queue.len() - i,
        {
            let ghost rest = start.queue.skip(i as int);
            proof {
                assert(rest.drop_first() =~= start.queue.skip(i + 1));
                assert(rest[0] == (self.queue@[i as int].0@, self.queue@[i as int].1.deep_view()));
            }
            if let Some(step) = next_step(
                &self.resolved,
                self.queue[i].0.as_str(),
                &self.queue[i].1,
            ) {
                self.queue = drop_front(&self.queue, i);
                return step;
            }
            i += 1;
        }
        self.queue = Vec::new();
        assert(start.queue.skip(i as int) =~= Seq::<RequirementView>::empty());
        assert(self.queue.deep_view() =~= Seq::<RequirementView>::empty());
        TreeStep::Done
    }

    /// Takes the metadata document of the package at the front of the queue: its newest
    /// version that the requirement accepts is taken, and what that version requires joins
    /// the queue. Without a requirement, or with an error, nothing changes.
    pub fn supply(&mut self, doc: &Json) -> (r: Result<(), ResolveError>)
        ensures
            ({
                let before = old(self).deep_view();
                if before.queue.len() == 0 {
                    r is Ok && final(self).deep_view() == before
                } else {
                    let (name, range) = before.queue[0];
                    match visited(before.base, name, range, doc.deep_view()) {
                        Ok((taken, requirements)) => r is Ok && final(self).deep_view() == (
                        TreeWalkView {
                            base: before.base,
                            resolved: before.resolved.push(taken),
                            queue: before.queue.drop_first() + requirements,
                        }),
                        Err(e) => r is Err && r->Err_0.deep_view() == e && final(self).deep_view()
                            == before,
                    }
                }
            }),
    {
        if self.queue.len() == 0 {
            return Ok(());
        }
        let ghost before = self.deep_view();
        let registry = Registry { base_url: self.base_url.clone() };
        match registry.resolve(self.queue[0].0.as_str(), &self.queue[0].1, doc) {
            Err(e) => Err(e),
            Ok(found) => {
                let deps = dependencies_of(doc, &found.version);
                match requirements(self.queue[0].0.as_str(), &found.version, &deps) {
                    Err(e) => Err(e),
                    Ok(new) => {
                        let ghost r = found.deep_view();
                        let ghost reqs = new.deep_view();
                        let mut new = new;
                        let mut queue = drop_front(&self.queue, 1);
                        let ghost rest = queue.deep_view();
                        queue.append(&mut new);
                        assert(queue.deep_view() =~= rest + reqs);
                        assert(rest =~= before.queue.drop_first());
                        self.queue = queue;
                        self.resolved.push(found);
                        assert(self.resolved.deep_view() =~= before.resolved.push(r));
                        Ok(())
                    },
                }
            },
        }
    }

    /// What was taken, in the order of the names.
    pub fn finish(self) -> (r: Vec<Resolved>)
        ensures
            r.deep_view() == stable_sort::<Resolved>(self.deep_view().resolved),
    {
        sort_stable(self.resolved)
    }
}

/// What is left of a queue without its first `n` requirements.
fn drop_front(queue: &Vec<(String, Range)>, n: usize) -> (r: Vec<(String, Range)>)
    requires
        n <= queue@.len(),
    ensures
        r.deep_view() == queue.deep_view().skip(n as int),
{
    let mut out: Vec<(String, Range)> = Vec::new();
    let mut i: usize = n;
    assert(out.deep_view() =~= queue.deep_view().subrange(n as int, n as int));
    while i < queue.len()
        invariant
            n <= i <= queue.len(),
            out.deep_view() =~= queue.deep_view().subrange(n as int, i as int),
        decreases queue.len() - i,
    {
        let ghost done = out.deep_view();
        let pair = (queue[i].0.clone(), queue[i].1.copy());
        let ghost p = pair.deep_view();
        out.push(pair);
        assert(out.deep_view() =~= done.push(p));
        i += 1;
    }
    assert(out.deep_view() =~= queue.deep_view().skip(n as int));
    out
}

/// A step of a walk changes nothing of where the walk leads.
proof fn lemma_settled(
    base: Seq<char>,
    docs: Seq<(Seq<char>, JsonView)>,
    resolved: Seq<ResolvedView>,
    queue: Seq<RequirementView>,
)
    ensures
        ({
            let (rest, step) = settled(resolved, queue);
            &&& rest.len() <= queue.len()
            &&& match step {
                TreeStepView::Done => walked(base, docs, resolved, queue) == Ok::<
                    Seq<ResolvedView>,
                    ResolveErrorView,
                >(resolved),
                TreeStepView::Failed(e) => walked(base, docs, resolved, queue) == Err::<
                    Seq<ResolvedView>,
                    ResolveErrorView,
                >(e),
                TreeStepView::Fetch(name) => {
                    &&& rest.len() > 0
                    &&& rest[0].0 == name
                    &&& taken(resolved, name) is None
                    &&& walked(base, docs, resolved, queue) == walked(base, docs, resolved, rest)
                },
            }
        }),
    decreases queue.len(),
{
    if queue.len() > 0 {
        let (name, range) = queue[0];
        match taken(resolved, name) {
            Some(existing) => {
                if range_accepts(range, existing.version) {
                    lemma_settled(base, docs, resolved, queue.drop_first());
                }
            },
            None => {},
        }
    }
}

impl Registry {
    /// The tree of `roots` by the metadata documents in `packuments`, in the order of the
    /// names. Two requirements on one package that no single version satisfies are an error,
    /// and so is a package without a document.
    pub fn resolve_tree_from(
        &self,
        roots: &Vec<(String, Range)>,
        packuments: &Vec<(String, Json)>,
    ) -> (r: Result<Vec<Resolved>, ResolveError>)
        ensures
            match r {
                Ok(tree) => tree_of(self.base_url@, packuments.deep_view(), roots.deep_view())
                    == Ok::<Seq<ResolvedView>, ResolveErrorView>(tree.deep_view()),
                Err(e) => tree_of(self.base_url@, packuments.deep_view(), roots.deep_view())
                    == Err::<Seq<ResolvedView>, ResolveErrorView>(e.deep_view()),
            },
    {
        let ghost base = self.base_url@;
        let ghost docs = packuments.deep_view();
        let mut walk = TreeWalk::new(self, roots);
        loop
            invariant
                docs == packuments.deep_view(),
                base == self.base_url@,
                walk.deep_view().base == base,
                walked(base, docs, Seq::empty(), roots.deep_view()) == walked(
                    base,
                    docs,
                    walk.deep_view().resolved,
                    walk.deep_view().queue,
                ),
            decreases outstanding(docs, walk.deep_view().resolved),
        {
            let ghost before = walk.deep_view();
            proof {
                lemma_settled(base, docs, before.resolved, before.queue);
            }
            match walk.step() {
                TreeStep::Done => {
                    return Ok(walk.finish());
                },
                TreeStep::Failed(e) => {
                    return Err(e);
                },
                TreeStep::Fetch(name) => {
                    let ghost settled_walk = walk.deep_view();
                    match lookup_member(packuments, name.as_str()) {
                        Some(doc) => {
                            proof {
                                let (n, range) = settled_walk.queue[0];
                                if let Ok((r, reqs)) = visited(base, n, range, doc.deep_view()) {
                                    lemma_outstanding_falls(docs, settled_walk.resolved, r, n);
                                }
                            }
                            if let Err(e) = walk.supply(doc) {
                                return Err(e);
                            }
                        },
                        None => {
                            return Err(ResolveError::NoPackument { name });
                        },
                    }
                },
            }
        }
    }
}

/// Whether the tree holds a version of the package that the requirement accepts.
#[verifier::opaque]
pub open spec fn satisfied(tree: Seq<ResolvedView>, requirement: RequirementView) -> bool {
    exists|k: int|
        0 <= k < tree.len() && (#[trigger] tree[k]).name == requirement.0 && range_accepts(
            requirement.1,
            tree[k].version,
        )
}

/// Whether one of the requirements is on the package `name`.
#[verifier::opaque]
pub open spec fn named_in(requirements: Seq<RequirementView>, name: Seq<char>) -> bool {
    exists|k: int| 0 <= k < requirements.len() && (#[trigger] requirements[k]).0 == name
}

/// What a package of the tree requires, by its metadata document.
pub open spec fn required_by(docs: Seq<(Seq<char>, JsonView)>, r: ResolvedView) -> Seq<
    RequirementView,
> {
    requirements_of(
        r.name,
        r.version,
        published_dependencies(lookup(docs, r.name)->Some_0, r.version),
    )->Ok_0
}

/// Whether `r` is what its metadata document gives for some requirement on it.
#[verifier::opaque]
pub open spec fn is_given(
    base: Seq<char>,
    docs: Seq<(Seq<char>, JsonView)>,
    r: ResolvedView,
) -> bool {
    &&& lookup(docs, r.name) is Some
    &&& exists|range: Seq<Seq<char>>|
        #[trigger] visited(base, r.name, range, lookup(docs, r.name)->Some_0) == Ok::<
            (ResolvedView, Seq<RequirementView>),
            ResolveErrorView,
        >((r, required_by(docs, r)))
}

/// Whether no two packages of the tree have the same name.
pub open spec fn is_flat(tree: Seq<ResolvedView>) -> bool {
    forall|i: int, j: int|
        0 <= i < j < tree.len() ==> (#[trigger] tree[i]).name != (#[trigger] tree[j]).name
}

/// Whether a requirement of some package of the tree from `n` on and before `end` is on the
/// package `name`.
#[verifier::opaque]
pub open spec fn required_between(
    docs: Seq<(Seq<char>, JsonView)>,
    tree: Seq<ResolvedView>,
    n: int,
    end: int,
    name: Seq<char>,
) -> bool {
    exists|k: int| n <= k < end && named_in(required_by(docs, #[trigger] tree[k]), name)
}

/// Whether the roots lead to the package `name` over so many packages of the tree at most, each
/// of which requires the next.
pub open spec fn reached_over(
    docs: Seq<(Seq<char>, JsonView)>,
    roots: Seq<RequirementView>,
    tree: Seq<ResolvedView>,
    name: Seq<char>,
    packages: nat,
) -> bool
    decreases packages,
{
    ||| named_in(roots, name)
    ||| packages > 0 && exists|k: int|
        0 <= k < tree.len() && named_in(required_by(docs, #[trigger] tree[k]), name)
            && reached_over(docs, roots, tree, tree[k].name, (packages - 1) as nat)
}

/// Whether the roots lead to the package `name`, directly or over packages of the tree.
pub open spec fn is_reached(
    docs: Seq<(Seq<char>, JsonView)>,
    roots: Seq<RequirementView>,
    tree: Seq<ResolvedView>,
    name: Seq<char>,
) -> bool {
    exists|packages: nat| #[trigger] reached_over(docs, roots, tree, name, packages)
}

proof fn lemma_taken_index(resolved: Seq<ResolvedView>, name: Seq<char>) -> (k: int)
    requires
        taken(resolved, name) is Some,
    ensures
        0 <= k < resolved.len(),
        taken(resolved, name) == Some(resolved[k]),
        resolved[k].name == name,
    decreases resolved.len(),
{
    if resolved.last().name == name {
        resolved.len() - 1
    } else {
        lemma_taken_index(resolved.drop_last(), name)
    }
}

proof fn lemma_not_taken(resolved: Seq<ResolvedView>, name: Seq<char>, k: int)
    requires
        taken(resolved, name) is None,
        0 <= k < resolved.len(),
    ensures
        resolved[k].name != name,
    decreases resolved.len(),
{
    if k < resolved.len() - 1 {
        lemma_not_taken(resolved.drop_last(), name, k);
    }
}

/// What a walk takes in all, from what it has and what its queue holds.
#[verifier::rlimit(30)]
pub proof fn lemma_walked(
    base: Seq<char>,
    docs: Seq<(Seq<char>, JsonView)>,
    resolved: Seq<ResolvedView>,
    queue: Seq<RequirementView>,
)
    requires
        walked(base, docs, resolved, queue) is Ok,
        is_flat(resolved),
    ensures
        ({
            let out = walked(base, docs, resolved, queue)->Ok_0;
            let n = resolved.len() as int;
            &&& n <= out.len()
            &&& out.take(n) == resolved
            &&& is_flat(out)
            &&& forall|i: int| 0 <= i < queue.len() ==> satisfied(out, #[trigger] queue[i])
            &&& forall|i: int| n <= i < out.len() ==> is_given(base, docs, #[trigger] out[i])
            &&& forall|i: int, j: int|
                n <= i < out.len() && 0 <= j < required_by(docs, out[i]).len() ==> satisfied(
                    out,
                    #[trigger] required_by(docs, out[i])[j],
                )
            &&& forall|i: int|
                n <= i < out.len() ==> named_in(queue, (#[trigger] out[i]).name)
                    || required_between(docs, out, n, i, out[i].name)
        }),
    decreases outstanding(docs, resolved), queue.len(),
{
    let out = walked(base, docs, resolved, queue)->Ok_0;
    let n = resolved.len() as int;
    if queue.len() == 0 {
        assert(out.take(n) =~= resolved);
    } else {
        let (name, range) = queue[0];
        let rest = queue.drop_first();
        match taken(resolved, name) {
            Some(existing) => {
                lemma_walked(base, docs, resolved, rest);
                let k = lemma_taken_index(resolved, name);
                assert(out[k] == out.take(n)[k]);
                assert(satisfied(out, queue[0])) by {
                    reveal(satisfied);
                }
                assert forall|i: int| 0 <= i < queue.len() implies satisfied(
                    out,
                    #[trigger] queue[i],
                ) by {
                    if i > 0 {
                        assert(queue[i] == rest[i - 1]);
                    }
                }
                assert forall|i: int| n <= i < out.len() implies named_in(
                    queue,
                    (#[trigger] out[i]).name,
                ) || required_between(docs, out, n, i, out[i].name) by {
                    if named_in(rest, out[i].name) {
                        lemma_named_in_more(rest, queue, 1, out[i].name);
                    }
                }
            },
            None => {
                let doc = lookup(docs, name)->Some_0;
                let (r, reqs) = visited(base, name, range, doc)->Ok_0;
                let more = resolved.push(r);
                lemma_outstanding_falls(docs, resolved, r, name);
                assert(is_flat(more)) by {
                    assert forall|i: int, j: int| 0 <= i < j < more.len() implies (
                    #[trigger] more[i]).name != (#[trigger] more[j]).name by {
                        if j == n {
                            lemma_not_taken(resolved, name, i);
                        } else {
                            assert(resolved[i].name != resolved[j].name);
                        }
                    }
                }
                lemma_walked(base, docs, more, rest + reqs);
                assert(out.take(n) =~= resolved) by {
                    assert(out.take(n + 1) == more);
                    assert forall|i: int| 0 <= i < n implies out.take(n)[i] == resolved[i] by {
                        assert(out.take(n + 1)[i] == more[i]);
                    }
                }
                assert(out[n] == r) by {
                    assert(out.take(n + 1)[n] == more[n]);
                }
                assert(required_by(docs, r) == reqs);
                assert(satisfied(out, queue[0])) by {
                    reveal(satisfied);
                    lemma_selected_is_accepted(doc, range);
                    assert(out[n].name == name);
                }
                assert forall|i: int| 0 <= i < queue.len() implies satisfied(
                    out,
                    #[trigger] queue[i],
                ) by {
                    if i > 0 {
                        assert(queue[i] == (rest + reqs)[i - 1]);
                    }
                }
                assert forall|i: int| n <= i < out.len() implies is_given(
                    base,
                    docs,
                    #[trigger] out[i],
                ) by {
                    if i == n {
                        reveal(is_given);
                        assert(visited(base, r.name, range, doc) == Ok::<
                            (ResolvedView, Seq<RequirementView>),
                            ResolveErrorView,
                        >((r, reqs)));
                    }
                }
                assert forall|i: int, j: int|
                    n <= i < out.len() && 0 <= j < required_by(
                        docs,
                        out[i],
                    ).len() implies satisfied(out, #[trigger] required_by(docs, out[i])[j]) by {
                    if i == n {
                        assert(reqs[j] == (rest + reqs)[rest.len() + j]);
                    }
                }
                assert forall|i: int| n <= i < out.len() implies named_in(
                    queue,
                    (#[trigger] out[i]).name,
                ) || required_between(docs, out, n, i, out[i].name) by {
                    lemma_why_taken(docs, out, n, queue, reqs, i);
                }
            },
        }
    }
}

/// What is named in a part is named in the whole.
proof fn lemma_named_in_more(
    part: Seq<RequirementView>,
    whole: Seq<RequirementView>,
    offset: int,
    name: Seq<char>,
)
    requires
        named_in(part, name),
        0 <= offset,
        offset + part.len() <= whole.len(),
        forall|i: int| 0 <= i < part.len() ==> #[trigger] part[i] == whole[offset + i],
    ensures
        named_in(whole, name),
{
    reveal(named_in);
    let k = choose|k: int| 0 <= k < part.len() && (#[trigger] part[k]).0 == name;
    assert(whole[offset + k].0 == name);
}

/// A package that was taken from here on is named in the queue, or a package that was taken
/// from here on and before it requires it.
proof fn lemma_why_taken(
    docs: Seq<(Seq<char>, JsonView)>,
    out: Seq<ResolvedView>,
    n: int,
    queue: Seq<RequirementView>,
    reqs: Seq<RequirementView>,
    i: int,
)
    requires
        0 <= n <= i < out.len(),
        queue.len() > 0,
        out[n].name == queue[0].0,
        required_by(docs, out[n]) == reqs,
        i > n ==> named_in(queue.drop_first() + reqs, out[i].name) || required_between(
            docs,
            out,
            n + 1,
            i,
            out[i].name,
        ),
    ensures
        named_in(queue, out[i].name) || required_between(docs, out, n, i, out[i].name),
{
    reveal(named_in);
    reveal(required_between);
    let name = out[i].name;
    let rest = queue.drop_first();
    if i == n {
        assert(queue[0].0 == name);
    } else if named_in(rest + reqs, name) {
        let k = choose|k: int| 0 <= k < (rest + reqs).len() && (#[trigger] (rest + reqs)[k]).0 == name;
        if k < rest.len() {
            assert(queue[k + 1].0 == name);
        } else {
            assert(reqs[k - rest.len()].0 == name);
            assert(named_in(required_by(docs, out[n]), name));
        }
    } else {
        let k = choose|k: int|
            n + 1 <= k < i && named_in(required_by(docs, #[trigger] out[k]), name);
        assert(named_in(required_by(docs, out[k]), name));
    }
}

/// What is taken for a range is accepted by it.
proof fn lemma_selected_is_accepted(doc: JsonView, range: Seq<Seq<char>>)
    requires
        selected_version(doc, range) is Some,
    ensures
        range_accepts(range, selected_version(doc, range)->Some_0.0),
{
    let members = doc.members("versions"@)->Some_0;
    let i = crate::registry::selection_is_offered(members, range);
}

/// A tree holds each package once, in the order of the names; it satisfies every root and
/// everything that its packages require; each of its packages is what the registry gives for
/// a requirement on it; and the roots lead to each of them, directly or over packages of the
/// tree.
pub proof fn tree_is_flat_and_complete(
    base: Seq<char>,
    docs: Seq<(Seq<char>, JsonView)>,
    roots: Seq<RequirementView>,
)
    requires
        tree_of(base, docs, roots) is Ok,
    ensures
        ({
            let tree = tree_of(base, docs, roots)->Ok_0;
            &&& is_sorted::<Resolved>(tree)
            &&& is_flat(tree)
            &&& forall|i: int| 0 <= i < roots.len() ==> satisfied(tree, #[trigger] roots[i])
            &&& forall|i: int| 0 <= i < tree.len() ==> is_given(base, docs, #[trigger] tree[i])
            &&& forall|i: int, j: int|
                0 <= i < tree.len() && 0 <= j < required_by(docs, tree[i]).len() ==> satisfied(
                    tree,
                    #[trigger] required_by(docs, tree[i])[j],
                )
            &&& forall|i: int|
                0 <= i < tree.len() ==> is_reached(docs, roots, tree, (#[trigger] tree[i]).name)
        }),
{
    let none = Seq::<ResolvedView>::empty();
    let out = walked(base, docs, none, roots)->Ok_0;
    let tree = tree_of(base, docs, roots)->Ok_0;
    lemma_walked(base, docs, none, roots);
    crate::sort::sorting_is_stable::<Resolved>(out);
    lemma_flat_sorted(out, tree);
    assert forall|requirement: RequirementView| satisfied(out, requirement) implies #[trigger] satisfied(
        tree,
        requirement,
    ) by {
        lemma_satisfied_sorted(out, tree, requirement);
    }
    assert forall|i: int| 0 <= i < tree.len() implies #[trigger] out.contains(tree[i]) by {
        crate::sort::lemma_same_values(tree, out, tree[i]);
    }
    assert forall|i: int| 0 <= i < roots.len() implies satisfied(tree, #[trigger] roots[i]) by {
        assert(satisfied(out, roots[i]));
    }
    assert forall|i: int| 0 <= i < tree.len() implies is_given(base, docs, #[trigger] tree[i]) by {
        assert(out.contains(tree[i]));
        let k = choose|k: int| 0 <= k < out.len() && out[k] == tree[i];
        assert(is_given(base, docs, out[k]));
    }
    assert forall|i: int, j: int|
        0 <= i < tree.len() && 0 <= j < required_by(docs, tree[i]).len() implies satisfied(
        tree,
        #[trigger] required_by(docs, tree[i])[j],
    ) by {
        assert(out.contains(tree[i]));
        let k = choose|k: int| 0 <= k < out.len() && out[k] == tree[i];
        assert(satisfied(out, required_by(docs, out[k])[j]));
    }
    assert forall|i: int| 0 <= i < tree.len() implies is_reached(
        docs,
        roots,
        tree,
        (#[trigger] tree[i]).name,
    ) by {
        assert(out.contains(tree[i]));
        let k = choose|k: int| 0 <= k < out.len() && out[k] == tree[i];
        lemma_reached(docs, roots, out, k);
        lemma_reached_sorted(docs, roots, out, tree, out[k].name, (k + 1) as nat);
        assert(reached_over(docs, roots, tree, tree[i].name, (k + 1) as nat));
    }
}

/// Where each package is named by a root or required by one before it, the roots lead to all.
proof fn lemma_reached(
    docs: Seq<(Seq<char>, JsonView)>,
    roots: Seq<RequirementView>,
    out: Seq<ResolvedView>,
    i: int,
)
    requires
        0 <= i < out.len(),
        forall|j: int|
            0 <= j < out.len() ==> named_in(roots, (#[trigger] out[j]).name) || required_between(
                docs,
                out,
                0,
                j,
                out[j].name,
            ),
    ensures
        reached_over(docs, roots, out, out[i].name, (i + 1) as nat),
    decreases i,
{
    let name = out[i].name;
    assert(named_in(roots, name) || required_between(docs, out, 0, i, name));
    if !named_in(roots, name) {
        reveal(required_between);
        let k = choose|k: int|
            0 <= k < i && named_in(required_by(docs, #[trigger] out[k]), name);
        lemma_reached(docs, roots, out, k);
        lemma_reached_over_more(docs, roots, out, out[k].name, (k + 1) as nat, i as nat);
        assert(named_in(required_by(docs, out[k]), name) && reached_over(
            docs,
            roots,
            out,
            out[k].name,
            ((i + 1) as nat - 1) as nat,
        ));
    }
}

/// What is reached over some packages at most is reached over more at most.
proof fn lemma_reached_over_more(
    docs: Seq<(Seq<char>, JsonView)>,
    roots: Seq<RequirementView>,
    out: Seq<ResolvedView>,
    name: Seq<char>,
    few: nat,
    many: nat,
)
    requires
        few <= many,
        reached_over(docs, roots, out, name, few),
    ensures
        reached_over(docs, roots, out, name, many),
    decreases few,
{
    if !named_in(roots, name) {
        let k = choose|k: int|
            0 <= k < out.len() && named_in(required_by(docs, #[trigger] out[k]), name)
                && reached_over(docs, roots, out, out[k].name, (few - 1) as nat);
        lemma_reached_over_more(
            docs,
            roots,
            out,
            out[k].name,
            (few - 1) as nat,
            (many - 1) as nat,
        );
        assert(named_in(required_by(docs, out[k]), name));
    }
}

/// The order of the packages does not matter for what is reached.
proof fn lemma_reached_sorted(
    docs: Seq<(Seq<char>, JsonView)>,
    roots: Seq<RequirementView>,
    out: Seq<ResolvedView>,
    tree: Seq<ResolvedView>,
    name: Seq<char>,
    packages: nat,
)
    requires
        out.to_multiset() == tree.to_multiset(),
        reached_over(docs, roots, out, name, packages),
    ensures
        reached_over(docs, roots, tree, name, packages),
    decreases packages,
{
    if !named_in(roots, name) {
        let k = choose|k: int|
            0 <= k < out.len() && named_in(required_by(docs, #[trigger] out[k]), name)
                && reached_over(docs, roots, out, out[k].name, (packages - 1) as nat);
        lemma_reached_sorted(docs, roots, out, tree, out[k].name, (packages - 1) as nat);
        assert(out.contains(out[k]));
        crate::sort::lemma_same_values(out, tree, out[k]);
        let i = choose|i: int| 0 <= i < tree.len() && tree[i] == out[k];
        assert(named_in(required_by(docs, tree[i]), name));
    }
}

proof fn lemma_satisfied_sorted(
    out: Seq<ResolvedView>,
    tree: Seq<ResolvedView>,
    requirement: RequirementView,
)
    requires
        out.to_multiset() == tree.to_multiset(),
        satisfied(out, requirement),
    ensures
        satisfied(tree, requirement),
{
    reveal(satisfied);
    let k = choose|k: int|
        0 <= k < out.len() && (#[trigger] out[k]).name == requirement.0 && range_accepts(
            requirement.1,
            out[k].version,
        );
    assert(out.contains(out[k]));
    crate::sort::lemma_same_values(out, tree, out[k]);
    let i = choose|i: int| 0 <= i < tree.len() && tree[i] == out[k];
    assert(tree[i].name == requirement.0);
}

proof fn lemma_flat_sorted(out: Seq<ResolvedView>, tree: Seq<ResolvedView>)
    requires
        out.to_multiset() == tree.to_multiset(),
        is_flat(out),
    ensures
        is_flat(tree),
{
    assert(out.no_duplicates()) by {
        assert forall|i: int, j: int| 0 <= i < out.len() && 0 <= j < out.len() && i != j implies out[i]
            != out[j] by {
            if i < j {
                assert(out[i].name != out[j].name);
            } else {
                assert(out[j].name != out[i].name);
            }
        }
    }
    out.lemma_multiset_has_no_duplicates();
    tree.lemma_multiset_has_no_duplicates_conv();
    assert forall|i: int, j: int| 0 <= i < j < tree.len() implies (#[trigger] tree[i]).name != (
    #[trigger] tree[j]).name by {
        assert(tree[i] != tree[j]);
        assert(tree.contains(tree[i]));
        assert(tree.contains(tree[j]));
        crate::sort::lemma_same_values(tree, out, tree[i]);
        crate::sort::lemma_same_values(tree, out, tree[j]);
        let a = choose|a: int| 0 <= a < out.len() && out[a] == tree[i];
        let b = choose|b: int| 0 <= b < out.len() && out[b] == tree[j];
        if a < b {
            assert(out[a].name != out[b].name);
        } else {
            assert(out[b].name != out[a].name);
        }
    }
}

} // verus!
