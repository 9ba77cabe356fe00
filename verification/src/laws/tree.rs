//! What a flat tree holds of the packages that its roots need.

use crate::json::{lookup, text_members_of, JsonView};
use crate::package_json::license_in;
use crate::package_json::spec::{range_accepts, range_of, RangeErrorView};
use crate::registry::{
    newest, published_dependencies, selected_version, tarball_at, ResolveErrorView, ResolvedView,
};
use crate::text::text_leq;
use crate::tree::{
    is_given, outstanding, required_by, requirements_of, satisfied, taken,
    tree_is_flat_and_complete, tree_of, visited, walked, RequirementView,
};
use crate::version::{semver_version, version_leq, version_text, VersionView};
use vstd::prelude::*;
use vstd::string::*;

verus! {

/// A version requires one package for each text member of its dependencies, in their order, under
/// just that name, and in the range that the text is.
pub proof fn each_dependency_is_a_requirement(
    name: Seq<char>,
    version: VersionView,
    members: Seq<(Seq<char>, JsonView)>,
)
    requires
        requirements_of(name, version, text_members_of(members)) is Ok,
    ensures
        ({
            let kept = members.filter(|m: (Seq<char>, JsonView)| m.1 is Str);
            let required = requirements_of(name, version, text_members_of(members))->Ok_0;
            &&& required.len() == kept.len()
            &&& forall|j: int|
                0 <= j < kept.len() ==> (#[trigger] required[j]).0 == kept[j].0 && range_of(
                    kept[j].1->Str_0,
                ) == Ok::<Seq<Seq<char>>, RangeErrorView>(required[j].1)
        }),
{
    crate::laws::json::each_text_member_is_listed(members);
    lemma_requirement_by_requirement(name, version, text_members_of(members));
}

proof fn lemma_requirement_by_requirement(
    name: Seq<char>,
    version: VersionView,
    deps: Seq<(Seq<char>, Seq<char>)>,
)
    requires
        requirements_of(name, version, deps) is Ok,
    ensures
        ({
            let required = requirements_of(name, version, deps)->Ok_0;
            &&& required.len() == deps.len()
            &&& forall|j: int|
                0 <= j < deps.len() ==> (#[trigger] required[j]).0 == deps[j].0 && range_of(
                    deps[j].1,
                ) == Ok::<Seq<Seq<char>>, RangeErrorView>(required[j].1)
        }),
    decreases deps.len(),
{
    if deps.len() > 0 {
        lemma_requirement_by_requirement(name, version, deps.drop_last());
    }
}

/// Each dependency that the registry gives for a package of a tree is in the tree: a package of
/// that name, in a version that the range of the dependency accepts.
pub proof fn dependencies_are_in_the_tree(
    base: Seq<char>,
    docs: Seq<(Seq<char>, JsonView)>,
    roots: Seq<RequirementView>,
    i: int,
    members: Seq<(Seq<char>, JsonView)>,
    j: int,
)
    requires
        tree_of(base, docs, roots) is Ok,
        0 <= i < tree_of(base, docs, roots)->Ok_0.len(),
        ({
            let package = tree_of(base, docs, roots)->Ok_0[i];
            &&& lookup(docs, package.name) matches Some(doc)
            &&& doc.get("versions"@) matches Some(versions)
            &&& versions.get(version_text(package.version)) matches Some(meta)
            &&& meta.get("dependencies"@) == Some(JsonView::Object(members))
        }),
        0 <= j < members.len(),
        members[j].1 is Str,
    ensures
        range_of(members[j].1->Str_0) is Ok,
        exists|k: int|
            0 <= k < tree_of(base, docs, roots)->Ok_0.len() && (#[trigger] tree_of(
                base,
                docs,
                roots,
            )->Ok_0[k]).name == members[j].0 && range_accepts(
                range_of(members[j].1->Str_0)->Ok_0,
                tree_of(base, docs, roots)->Ok_0[k].version,
            ),
{
    let tree = tree_of(base, docs, roots)->Ok_0;
    let package = tree[i];
    tree_is_flat_and_complete(base, docs, roots);
    assert(is_given(base, docs, package));
    reveal(is_given);
    let doc = lookup(docs, package.name)->Some_0;
    let deps = text_members_of(members);
    assert(published_dependencies(doc, package.version) == deps);
    lemma_requirement_by_requirement(package.name, package.version, deps);
    let n = crate::laws::json::a_text_member_is_listed(members, j);
    assert(satisfied(tree, required_by(docs, package)[n]));
    reveal(satisfied);
}

/// Each root is in the tree: a package of that name, in a version that its range accepts.
pub proof fn roots_are_in_the_tree(
    base: Seq<char>,
    docs: Seq<(Seq<char>, JsonView)>,
    roots: Seq<RequirementView>,
    i: int,
)
    requires
        tree_of(base, docs, roots) is Ok,
        0 <= i < roots.len(),
    ensures
        exists|k: int|
            0 <= k < tree_of(base, docs, roots)->Ok_0.len() && (#[trigger] tree_of(
                base,
                docs,
                roots,
            )->Ok_0[k]).name == roots[i].0 && range_accepts(
                roots[i].1,
                tree_of(base, docs, roots)->Ok_0[k].version,
            ),
{
    tree_is_flat_and_complete(base, docs, roots);
    assert(satisfied(tree_of(base, docs, roots)->Ok_0, roots[i]));
    reveal(satisfied);
}

/// A package of a tree is a version that the registry offers, with the tarball, the integrity and
/// the license that stand there for it.
pub proof fn packages_are_as_published(
    base: Seq<char>,
    docs: Seq<(Seq<char>, JsonView)>,
    roots: Seq<RequirementView>,
    i: int,
)
    requires
        tree_of(base, docs, roots) is Ok,
        0 <= i < tree_of(base, docs, roots)->Ok_0.len(),
    ensures
        ({
            let package = tree_of(base, docs, roots)->Ok_0[i];
            let doc = lookup(docs, package.name)->Some_0;
            &&& lookup(docs, package.name) is Some
            &&& doc.get("versions"@) matches Some(JsonView::Object(versions)) && exists|k: int|
                0 <= k < versions.len() && semver_version((#[trigger] versions[k]).0) == Ok::<
                    VersionView,
                    Seq<char>,
                >(package.version) && is_published_at(base, package, versions[k].1)
        }),
{
    let tree = tree_of(base, docs, roots)->Ok_0;
    let package = tree[i];
    tree_is_flat_and_complete(base, docs, roots);
    assert(is_given(base, docs, package));
    reveal(is_given);
    let doc = lookup(docs, package.name)->Some_0;
    let range = choose|range: Seq<Seq<char>>|
        #[trigger] visited(base, package.name, range, doc) == Ok::<
            (ResolvedView, Seq<RequirementView>),
            ResolveErrorView,
        >((package, required_by(docs, package)));
    let versions = doc.members("versions"@)->Some_0;
    let k = crate::registry::selection_is_offered(versions, range);
    assert(versions[k] == versions[k]);
}

/// Whether the tarball, the integrity and the license of a package are those of its entry. Where
/// its `dist` names no tarball, that is at the conventional place and has no integrity.
pub open spec fn is_published_at(base: Seq<char>, package: ResolvedView, meta: JsonView) -> bool {
    let usual = tarball_at(base, package.name, version_text(package.version));
    package.license == license_in(meta) && match meta.get("dist"@) {
        Some(dist) => match dist.get("tarball"@) {
            Some(JsonView::Str(url)) => package.tarball_url == url && match dist.get(
                "integrity"@,
            ) {
                Some(JsonView::Str(digest)) => package.integrity == Some(digest),
                _ => package.integrity is None,
            },
            _ => package.tarball_url == usual && package.integrity is None,
        },
        None => package.tarball_url == usual && package.integrity is None,
    }
}

/// The packages of a tree stand in the order of their names, no name twice, and each is named by a
/// root or by a dependency of a package of the tree.
pub proof fn nothing_else_is_in_the_tree(
    base: Seq<char>,
    docs: Seq<(Seq<char>, JsonView)>,
    roots: Seq<RequirementView>,
)
    requires
        tree_of(base, docs, roots) is Ok,
    ensures
        ({
            let tree = tree_of(base, docs, roots)->Ok_0;
            &&& forall|i: int, j: int|
                0 <= i < j < tree.len() ==> text_leq(
                    (#[trigger] tree[i]).name,
                    (#[trigger] tree[j]).name,
                ) && tree[i].name != tree[j].name
            &&& forall|i: int|
                0 <= i < tree.len() ==> (exists|k: int|
                    0 <= k < roots.len() && (#[trigger] roots[k]).0 == (#[trigger] tree[i]).name)
                    || exists|k: int, j: int|
                    0 <= k < tree.len() && 0 <= j < required_by(docs, tree[k]).len() && (
                    #[trigger] required_by(docs, tree[k])[j]).0 == tree[i].name
        }),
{
    let tree = tree_of(base, docs, roots)->Ok_0;
    tree_is_flat_and_complete(base, docs, roots);
    reveal(crate::tree::named_in);
    assert forall|i: int| 0 <= i < tree.len() implies (exists|k: int|
        0 <= k < roots.len() && (#[trigger] roots[k]).0 == (#[trigger] tree[i]).name) || exists|
        k: int,
        j: int,
    |
        0 <= k < tree.len() && 0 <= j < required_by(docs, tree[k]).len() && (
        #[trigger] required_by(docs, tree[k])[j]).0 == tree[i].name by {
        let name = tree[i].name;
        assert(crate::tree::is_reached(docs, roots, tree, name));
        let n = choose|n: nat| #[trigger] crate::tree::reached_over(docs, roots, tree, name, n);
        if !crate::tree::named_in(roots, name) {
            let k = choose|k: int|
                0 <= k < tree.len() && crate::tree::named_in(
                    required_by(docs, #[trigger] tree[k]),
                    name,
                ) && crate::tree::reached_over(docs, roots, tree, tree[k].name, (n - 1) as nat);
            assert(crate::tree::named_in(required_by(docs, tree[k]), name));
        }
    }
}

/// What keeps a tree from being resolved is so: a range that accepts no version that the package
/// has, a package of which there is no document, two ranges of which one does not accept what the
/// other took, or a dependency whose text is no range.
pub proof fn failures_are_real(
    base: Seq<char>,
    docs: Seq<(Seq<char>, JsonView)>,
    roots: Seq<RequirementView>,
)
    requires
        tree_of(base, docs, roots) is Err,
    ensures
        match tree_of(base, docs, roots)->Err_0 {
            ResolveErrorView::NoMatch { name, range } => lookup(docs, name) matches Some(doc) && (
            doc.get("versions"@) matches Some(JsonView::Object(versions)) ==> forall|k: int|
                0 <= k < versions.len() && semver_version((#[trigger] versions[k]).0) is Ok
                    ==> !range_accepts(range, semver_version(versions[k].0)->Ok_0)),
            ResolveErrorView::NoPackument { name } => forall|k: int|
                0 <= k < docs.len() ==> (#[trigger] docs[k]).0 != name,
            ResolveErrorView::Conflict { name, version, range } => !range_accepts(range, version),
            ResolveErrorView::Unsupported { name, version, dependency, spec, error } => range_of(
                spec,
            ) == Err::<Seq<Seq<char>>, RangeErrorView>(error),
        },
{
    lemma_walk_fails(base, docs, Seq::empty(), roots);
}

proof fn lemma_walk_fails(
    base: Seq<char>,
    docs: Seq<(Seq<char>, JsonView)>,
    resolved: Seq<ResolvedView>,
    queue: Seq<RequirementView>,
)
    requires
        walked(base, docs, resolved, queue) is Err,
    ensures
        match walked(base, docs, resolved, queue)->Err_0 {
            ResolveErrorView::NoMatch { name, range } => lookup(docs, name) matches Some(doc) && (
            doc.get("versions"@) matches Some(JsonView::Object(versions)) ==> forall|k: int|
                0 <= k < versions.len() && semver_version((#[trigger] versions[k]).0) is Ok
                    ==> !range_accepts(range, semver_version(versions[k].0)->Ok_0)),
            ResolveErrorView::NoPackument { name } => forall|k: int|
                0 <= k < docs.len() ==> (#[trigger] docs[k]).0 != name,
            ResolveErrorView::Conflict { name, version, range } => !range_accepts(range, version),
            ResolveErrorView::Unsupported { name, version, dependency, spec, error } => range_of(
                spec,
            ) == Err::<Seq<Seq<char>>, RangeErrorView>(error),
        },
    decreases outstanding(docs, resolved), queue.len(),
{
    let (name, range) = queue[0];
    match taken(resolved, name) {
        Some(existing) => {
            if range_accepts(range, existing.version) {
                lemma_walk_fails(base, docs, resolved, queue.drop_first());
            }
        },
        None => match lookup(docs, name) {
            Some(doc) => match visited(base, name, range, doc) {
                Ok((r, requirements)) => {
                    crate::tree::lemma_outstanding_falls(docs, resolved, r, name);
                    lemma_walk_fails(
                        base,
                        docs,
                        resolved.push(r),
                        queue.drop_first() + requirements,
                    );
                },
                Err(e) => match selected_version(doc, range) {
                    Some(s) => {
                        lemma_requirements_error(name, s.0, published_dependencies(doc, s.0));
                    },
                    None => {
                        if let Some(JsonView::Object(versions)) = doc.get("versions"@) {
                            assert forall|k: int|
                                0 <= k < versions.len() && semver_version(
                                    (#[trigger] versions[k]).0,
                                ) is Ok implies !range_accepts(
                                range,
                                semver_version(versions[k].0)->Ok_0,
                            ) by {
                                crate::registry::nothing_selected_means_nothing_offered(
                                    versions,
                                    range,
                                    k,
                                );
                            }
                        }
                    },
                },
            },
            None => {
                assert forall|k: int| 0 <= k < docs.len() implies (#[trigger] docs[k]).0
                    != name by {
                    crate::json::lemma_present(docs, k);
                }
            },
        },
    }
}

proof fn lemma_requirements_error(
    name: Seq<char>,
    version: VersionView,
    deps: Seq<(Seq<char>, Seq<char>)>,
)
    requires
        requirements_of(name, version, deps) is Err,
    ensures
        requirements_of(name, version, deps)->Err_0 matches ResolveErrorView::Unsupported {
            name: n,
            version: v,
            dependency,
            spec,
            error,
        } && n == name && v == version && deps.contains((dependency, spec)) && range_of(spec)
            == Err::<Seq<Seq<char>>, RangeErrorView>(error),
    decreases deps.len(),
{
    let front = deps.drop_last();
    if requirements_of(name, version, front) is Err {
        lemma_requirements_error(name, version, front);
        let e = requirements_of(name, version, front)->Err_0;
        let d = (e->dependency, e->spec);
        let k = choose|k: int| 0 <= k < front.len() && front[k] == d;
        assert(deps[k] == d);
    } else {
        assert(deps[deps.len() - 1] == (deps.last().0, deps.last().1));
    }
}

/// The first root on a package has its newest version taken: no version that the range of the root
/// accepts is newer than the one in the tree.
pub proof fn the_first_root_takes_the_newest(
    base: Seq<char>,
    docs: Seq<(Seq<char>, JsonView)>,
    roots: Seq<RequirementView>,
    i: int,
    versions: Seq<(Seq<char>, JsonView)>,
    j: int,
    k: int,
)
    requires
        tree_of(base, docs, roots) is Ok,
        0 <= i < roots.len(),
        forall|h: int| 0 <= h < i ==> (#[trigger] roots[h]).0 != roots[i].0,
        lookup(docs, roots[i].0) matches Some(doc) && doc.get("versions"@) == Some(
            JsonView::Object(versions),
        ),
        0 <= j < versions.len(),
        semver_version(versions[j].0) is Ok,
        range_accepts(roots[i].1, semver_version(versions[j].0)->Ok_0),
        0 <= k < tree_of(base, docs, roots)->Ok_0.len(),
        tree_of(base, docs, roots)->Ok_0[k].name == roots[i].0,
    ensures
        version_leq(
            semver_version(versions[j].0)->Ok_0,
            tree_of(base, docs, roots)->Ok_0[k].version,
        ),
{
    let tree = tree_of(base, docs, roots)->Ok_0;
    let out = walked(base, docs, Seq::empty(), roots)->Ok_0;
    crate::sort::sorting_is_stable::<crate::registry::Resolved>(out);
    assert(tree.contains(tree[k]));
    crate::sort::lemma_same_values(tree, out, tree[k]);
    let n = choose|n: int| 0 <= n < out.len() && out[n] == tree[k];
    lemma_first_takes(base, docs, Seq::empty(), roots, i, n);
    crate::registry::selection_is_newest(versions, roots[i].1, j);
}

proof fn lemma_first_takes(
    base: Seq<char>,
    docs: Seq<(Seq<char>, JsonView)>,
    resolved: Seq<ResolvedView>,
    queue: Seq<RequirementView>,
    i: int,
    n: int,
)
    requires
        walked(base, docs, resolved, queue) is Ok,
        crate::tree::is_flat(resolved),
        0 <= i < queue.len(),
        taken(resolved, queue[i].0) is None,
        forall|h: int| 0 <= h < i ==> (#[trigger] queue[h]).0 != queue[i].0,
        lookup(docs, queue[i].0) is Some,
        0 <= n < walked(base, docs, resolved, queue)->Ok_0.len(),
        walked(base, docs, resolved, queue)->Ok_0[n].name == queue[i].0,
    ensures
        selected_version(lookup(docs, queue[i].0)->Some_0, queue[i].1) matches Some(s) && s.0
            == walked(base, docs, resolved, queue)->Ok_0[n].version,
    decreases outstanding(docs, resolved), queue.len(),
{
    let out = walked(base, docs, resolved, queue)->Ok_0;
    let (name, range) = queue[0];
    let rest = queue.drop_first();
    match taken(resolved, name) {
        Some(existing) => {
            assert(rest[i - 1] == queue[i]);
            assert forall|h: int| 0 <= h < i - 1 implies (#[trigger] rest[h]).0 != rest[i
                - 1].0 by {
                assert(rest[h] == queue[h + 1]);
            }
            lemma_first_takes(base, docs, resolved, rest, i - 1, n);
        },
        None => {
            let doc = lookup(docs, name)->Some_0;
            let (r, reqs) = visited(base, name, range, doc)->Ok_0;
            let more = resolved.push(r);
            crate::tree::lemma_outstanding_falls(docs, resolved, r, name);
            assert(more.drop_last() =~= resolved);
            assert(crate::tree::is_flat(more)) by {
                assert forall|a: int, b: int| 0 <= a < b < more.len() implies (
                #[trigger] more[a]).name != (#[trigger] more[b]).name by {
                    if b == resolved.len() {
                        lemma_untaken(resolved, name, a);
                    } else {
                        assert(resolved[a].name != resolved[b].name);
                    }
                }
            }
            if i == 0 {
                crate::tree::lemma_walked(base, docs, more, rest + reqs);
                let m = resolved.len() as int;
                assert(out.take(m + 1)[m] == r);
                if n < m {
                    assert(out[n].name != out[m].name);
                } else if m < n {
                    assert(out[m].name != out[n].name);
                }
            } else {
                let queued = rest + reqs;
                assert(queued[i - 1] == queue[i]);
                assert forall|h: int| 0 <= h < i - 1 implies (#[trigger] queued[h]).0 != queued[i
                    - 1].0 by {
                    assert(queued[h] == queue[h + 1]);
                }
                assert(queue[0].0 != queue[i].0);
                lemma_first_takes(base, docs, more, queued, i - 1, n);
            }
        },
    }
}

proof fn lemma_untaken(resolved: Seq<ResolvedView>, name: Seq<char>, k: int)
    requires
        taken(resolved, name) is None,
        0 <= k < resolved.len(),
    ensures
        resolved[k].name != name,
    decreases resolved.len(),
{
    if k < resolved.len() - 1 {
        lemma_untaken(resolved.drop_last(), name, k);
    }
}

} // verus!
