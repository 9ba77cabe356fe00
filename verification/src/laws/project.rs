//! What becomes of a manifest and its lockfile.

use crate::install::run::{
    after_event, locked_install, tree_install, EventView, InstallView, Stage, StepView,
};
use crate::install::{
    all_bins, bins_offered, is_file_name, is_linkable, verified_unpacking, InstallErrorView,
    PlannedView,
};
use crate::json::{
    distinct_members, lookup, optional_member, text_json, text_members_of, JsonView, NumberView,
};
use crate::laws::json::{lemma_lookup_optional, lemma_lookup_two};
use crate::package_json::deps::{
    bare_version, dependencies_of_members, dependency_named, dependency_of, is_git_source,
    DependencyView,
};
use crate::package_json::manifest::{
    dependencies_of_manifest, depends_on, dropped, new_manifest, upserted,
};
use crate::package_json::render::{
    dependency_member, package_entry, packages_map, root_entry, written_lock,
};
use crate::package_json::spec::{leads_to_registry, range_accepts, range_of, spec_of};
use crate::project::{
    asked_of_registry, documented_answer, is_plain_range, is_target, ranges_of, targets_of,
    upgrade_plan, with_changes, without_dependencies, ChangeView,
};
use crate::path_safety::{is_within, path_under};
use crate::registry::{packument_at, tarball_at, ResolvedView};
use crate::sort::{lemma_same_values, sorting_is_stable};
use crate::text::{contains, is_space, text_leq};
use crate::version::{semver_version, version_leq, version_text, VersionView};
use vstd::prelude::*;
use vstd::string::*;

verus! {

/// Whether an entry of a lockfile says what a package of a tree is.
pub open spec fn says_package(entry: JsonView, r: ResolvedView) -> bool {
    &&& entry.get("version"@) == Some(JsonView::Str(version_text(r.version)))
    &&& entry.get("resolved"@) == Some(JsonView::Str(r.tarball_url))
    &&& match r.integrity {
        Some(digest) => entry.get("integrity"@) == Some(JsonView::Str(digest)),
        None => entry.get("integrity"@) is None,
    }
    &&& match r.license {
        Some(license) => entry.get("license"@) == Some(JsonView::Str(license)),
        None => entry.get("license"@) is None,
    }
}

/// A lockfile that is written is of version 3 and has a package for each of the tree, in its order,
/// behind the project itself: under `node_modules/` and its name, with its version, tarball,
/// integrity and license.
pub proof fn a_written_lock_has_each_package(manifest: JsonView, tree: Seq<ResolvedView>)
    ensures
        ({
            let doc = written_lock(manifest, tree);
            &&& doc.get("lockfileVersion"@) == Some(JsonView::Number(NumberView::Unsigned(3)))
            &&& doc.get("packages"@) matches Some(JsonView::Object(packages)) && packages.len()
                == tree.len() + 1 && packages[0].0.len() == 0 && forall|i: int|
                0 <= i < tree.len() ==> (#[trigger] packages[i + 1]).0 == "node_modules/"@
                    + tree[i].name && says_package(packages[i + 1].1, tree[i])
        }),
{
    reveal_strlit("");
    lemma_lock_keys();
    let a = optional_member("name"@, text_json(manifest.text("name"@)));
    let b = optional_member("version"@, text_json(manifest.text("version"@)));
    let c = seq![
        ("lockfileVersion"@, JsonView::Number(NumberView::Unsigned(3))),
        ("requires"@, JsonView::Bool(true)),
        ("packages"@, JsonView::Object(packages_map(manifest, tree))),
    ];
    crate::json::lemma_lookup_concat(a + b, c, "lockfileVersion"@);
    crate::json::lemma_lookup_concat(a + b, c, "packages"@);
    assert(distinct_members(c));
    crate::json::lemma_distinct_lookup(c, 0);
    crate::json::lemma_distinct_lookup(c, 2);
    let packages = packages_map(manifest, tree);
    assert forall|i: int| 0 <= i < tree.len() implies (#[trigger] packages[i + 1]).0
        == "node_modules/"@ + tree[i].name && says_package(packages[i + 1].1, tree[i]) by {
        lemma_says_package(tree[i]);
    }
}

proof fn lemma_lock_keys()
    ensures
        "lockfileVersion"@ != "requires"@,
        "lockfileVersion"@ != "packages"@,
        "requires"@ != "packages"@,
        "version"@ != "resolved"@,
        "version"@ != "integrity"@,
        "version"@ != "license"@,
        "resolved"@ != "integrity"@,
        "resolved"@ != "license"@,
        "integrity"@ != "license"@,
        "name"@ != "version"@,
        "name"@ != "dependencies"@,
        "version"@ != "dependencies"@,
{
    reveal_strlit("lockfileVersion");
    reveal_strlit("requires");
    reveal_strlit("packages");
    reveal_strlit("name");
    reveal_strlit("version");
    reveal_strlit("resolved");
    reveal_strlit("integrity");
    reveal_strlit("license");
    reveal_strlit("dependencies");
    assert("lockfileVersion"@.len() == 15 && "requires"@.len() == 8 && "packages"@.len() == 8);
    assert("requires"@[0] == 'r' && "packages"@[0] == 'p');
    assert("version"@.len() == 7 && "resolved"@.len() == 8 && "integrity"@.len() == 9
        && "license"@.len() == 7 && "name"@.len() == 4 && "dependencies"@.len() == 12);
    assert("version"@[0] == 'v' && "license"@[0] == 'l');
}

proof fn lemma_says_package(r: ResolvedView)
    ensures
        says_package(package_entry(r), r),
{
    lemma_lock_keys();
    let a = seq![
        ("version"@, JsonView::Str(version_text(r.version))),
        ("resolved"@, JsonView::Str(r.tarball_url)),
    ];
    let b = a + optional_member("integrity"@, text_json(r.integrity));
    lemma_package_key(r, a, b, "version"@);
    lemma_package_key(r, a, b, "resolved"@);
    lemma_package_key(r, a, b, "integrity"@);
    lemma_package_key(r, a, b, "license"@);
}

proof fn lemma_package_key(
    r: ResolvedView,
    a: Seq<(Seq<char>, JsonView)>,
    b: Seq<(Seq<char>, JsonView)>,
    key: Seq<char>,
)
    requires
        a == seq![
            ("version"@, JsonView::Str(version_text(r.version))),
            ("resolved"@, JsonView::Str(r.tarball_url)),
        ],
        b == a + optional_member("integrity"@, text_json(r.integrity)),
    ensures
        package_entry(r).get(key) == if key == "license"@ && r.license is Some {
            text_json(r.license)
        } else if key == "integrity"@ && r.integrity is Some {
            text_json(r.integrity)
        } else if key == "resolved"@ {
            Some(JsonView::Str(r.tarball_url))
        } else if key == "version"@ {
            Some(JsonView::Str(version_text(r.version)))
        } else {
            None
        },
{
    lemma_lookup_two(a[0], a[1], key);
    lemma_lookup_optional(a, "integrity"@, text_json(r.integrity), key);
    lemma_lookup_optional(b, "license"@, text_json(r.license), key);
    assert(package_entry(r) == JsonView::Object(
        b + optional_member("license"@, text_json(r.license)),
    ));
}

/// The project itself stands first in a lockfile, with the name and version of its manifest, and
/// each dependency of that, with its range.
pub proof fn a_written_lock_has_the_project(
    manifest: JsonView,
    tree: Seq<ResolvedView>,
    members: Seq<(Seq<char>, JsonView)>,
    i: int,
)
    requires
        manifest.get("dependencies"@) == Some(JsonView::Object(members)),
        0 <= i < members.len(),
        members[i].1 is Str,
    ensures
        packages_map(manifest, tree)[0].1 == root_entry(manifest),
        root_entry(manifest).get("name"@) == text_json(manifest.text("name"@)),
        root_entry(manifest).get("version"@) == text_json(manifest.text("version"@)),
        root_entry(manifest).get("dependencies"@) matches Some(JsonView::Object(deps))
            && deps.contains(members[i]),
{
    lemma_lock_keys();
    let name = text_json(manifest.text("name"@));
    let version = text_json(manifest.text("version"@));
    let listed = dependencies_of_manifest(manifest);
    let deps = listed.map_values(dependency_member());
    let none = Seq::<(Seq<char>, JsonView)>::empty();
    let a = none + optional_member("name"@, name);
    let b = a + optional_member("version"@, version);
    let c = seq![("dependencies"@, JsonView::Object(deps))];
    assert(a =~= optional_member("name"@, name));
    assert(root_entry(manifest) == JsonView::Object(b + c));
    lemma_root_key(none, name, a, version, b, c, "name"@);
    lemma_root_key(none, name, a, version, b, c, "version"@);
    lemma_root_key(none, name, a, version, b, c, "dependencies"@);
    a_dependency_is_listed(manifest, members, i);
    let dep = (members[i].0, members[i].1->Str_0);
    let k = choose|k: int| 0 <= k < listed.len() && listed[k] == dep;
    assert(deps[k] == members[i]);
}

proof fn lemma_root_key(
    none: Seq<(Seq<char>, JsonView)>,
    name: Option<JsonView>,
    a: Seq<(Seq<char>, JsonView)>,
    version: Option<JsonView>,
    b: Seq<(Seq<char>, JsonView)>,
    c: Seq<(Seq<char>, JsonView)>,
    key: Seq<char>,
)
    requires
        none.len() == 0,
        a == none + optional_member("name"@, name),
        b == a + optional_member("version"@, version),
        c.len() == 1,
    ensures
        lookup(b + c, key) == if key == c[0].0 {
            Some(c[0].1)
        } else if key == "version"@ && version is Some {
            version
        } else if key == "name"@ && name is Some {
            name
        } else {
            None
        },
{
    lemma_lookup_optional(none, "name"@, name, key);
    lemma_lookup_optional(a, "version"@, version, key);
    crate::json::lemma_lookup_concat(b, c, key);
    reveal_with_fuel(lookup, 2);
}

/// Each text member of the dependencies of a manifest is listed, with its name and range.
pub proof fn a_dependency_is_listed(doc: JsonView, members: Seq<(Seq<char>, JsonView)>, i: int)
    requires
        doc.get("dependencies"@) == Some(JsonView::Object(members)),
        0 <= i < members.len(),
        members[i].1 is Str,
    ensures
        dependencies_of_manifest(doc).contains((members[i].0, members[i].1->Str_0)),
{
    let texts = text_members_of(members);
    let k = crate::laws::json::a_text_member_is_listed(members, i);
    assert(texts.contains(texts[k]));
    sorting_is_stable::<(String, String)>(texts);
    lemma_same_values(texts, dependencies_of_manifest(doc), texts[k]);
}

/// Each dependency that is listed is a text member of the dependencies of the manifest, and they
/// stand in the order of their names.
pub proof fn what_is_listed_is_a_dependency(
    doc: JsonView,
    members: Seq<(Seq<char>, JsonView)>,
    k: int,
)
    requires
        doc.get("dependencies"@) == Some(JsonView::Object(members)),
        0 <= k < dependencies_of_manifest(doc).len(),
    ensures
        ({
            let d = dependencies_of_manifest(doc)[k];
            members.contains((d.0, JsonView::Str(d.1)))
        }),
        forall|j: int|
            k <= j < dependencies_of_manifest(doc).len() ==> text_leq(
                dependencies_of_manifest(doc)[k].0,
                (#[trigger] dependencies_of_manifest(doc)[j]).0,
            ),
{
    let texts = text_members_of(members);
    let listed = dependencies_of_manifest(doc);
    sorting_is_stable::<(String, String)>(texts);
    assert(listed.contains(listed[k]));
    lemma_same_values(listed, texts, listed[k]);
    let f = crate::json::text_member();
    members.lemma_filter_map_contains(f, listed[k]);
    let m = choose|m: (Seq<char>, JsonView)| members.contains(m) && f(m) == Some(listed[k]);
    assert(m == (listed[k].0, JsonView::Str(listed[k].1)));
    assert forall|j: int| k <= j < listed.len() implies text_leq(
        listed[k].0,
        (#[trigger] listed[j]).0,
    ) by {
        assert(<(String, String) as crate::sort::Sortable>::leq(listed[k], listed[j]));
    }
}

/// A dependency is resolved again where it is named, or none is, and its source is the registry.
pub proof fn a_named_dependency_is_upgraded(
    doc: JsonView,
    packages: Seq<Seq<char>>,
    dep: (Seq<char>, Seq<char>),
)
    ensures
        targets_of(doc, packages).contains(dep) <==> dependencies_of_manifest(doc).contains(dep)
            && (packages.len() == 0 || packages.contains(dep.0)) && leads_to_registry(
            spec_of(dep.1),
        ),
{
    let all = dependencies_of_manifest(doc);
    let p = is_target(packages);
    if all.contains(dep) && p(dep) {
        let i = choose|i: int| 0 <= i < all.len() && all[i] == dep;
        all.lemma_filter_contains(p, i);
    }
    if targets_of(doc, packages).contains(dep) {
        let kept = all.filter(p);
        let k = choose|k: int| 0 <= k < kept.len() && kept[k] == dep;
        all.lemma_filter_pred(p, k);
        all.lemma_filter_contains_rev(p, dep);
    }
}

/// Whether a range is a caret or a tilde with one part behind it.
pub open spec fn floats(range: Seq<char>) -> bool {
    &&& range.len() > 0
    &&& range[0] == '^' || range[0] == '~'
    &&& forall|i: int|
        1 <= i < range.len() ==> !is_space(#[trigger] range[i]) && range[i] != ',' && range[i]
            != '|'
}

proof fn lemma_floats(range: Seq<char>)
    requires
        floats(range),
    ensures
        is_plain_range(range),
{
    let rest = range.skip(1);
    assert forall|i: int| 0 <= i < rest.len() implies !is_space(#[trigger] rest[i]) && rest[i]
        != ',' && rest[i] != '|' by {
        assert(rest[i] == range[i + 1]);
    }
    crate::text::lemma_trimmed_as_is(rest);
    reveal_strlit("||");
    assert("||"@[0] == '|');
    if contains(rest, "||"@) {
        crate::text::lemma_find_from(rest, "||"@, 0);
        let at = choose|at: int| crate::text::occurs_at(rest, "||"@, at);
        assert(rest.subrange(at, at + 2)[0] == rest[at]);
    }
}

/// Each dependency whose range floats moves to the version that was found for it, with the same
/// sign before it, unless it is there already.
pub proof fn each_floating_range_moves(
    targets: Seq<(Seq<char>, Seq<char>)>,
    answers: Seq<Result<VersionView, Seq<char>>>,
    i: int,
    version: VersionView,
)
    requires
        upgrade_plan(targets, answers) is Ok,
        0 <= i < targets.len(),
        floats(targets[i].1),
        answers[i] == Ok::<VersionView, Seq<char>>(version),
        targets[i].1 != seq![targets[i].1[0]] + version_text(version),
    ensures
        upgrade_plan(targets, answers)->Ok_0.contains(
            ChangeView {
                name: targets[i].0,
                from: targets[i].1,
                to: seq![targets[i].1[0]] + version_text(version),
            },
        ),
    decreases targets.len(),
{
    let front = targets.drop_last();
    let before = upgrade_plan(front, answers)->Ok_0;
    let all = upgrade_plan(targets, answers)->Ok_0;
    let change = ChangeView {
        name: targets[i].0,
        from: targets[i].1,
        to: seq![targets[i].1[0]] + version_text(version),
    };
    if i < front.len() {
        assert(front[i] == targets[i]);
        each_floating_range_moves(front, answers, i, version);
        let k = choose|k: int| 0 <= k < before.len() && before[k] == change;
        assert(all[k] == change);
    } else {
        lemma_floats(targets[i].1);
        assert(all[before.len() as int] == change);
    }
}

/// Each change is of a dependency that was to be resolved again, from its range to the version that
/// was found for it, with the same sign before it.
pub proof fn each_change_is_to_what_was_found(
    targets: Seq<(Seq<char>, Seq<char>)>,
    answers: Seq<Result<VersionView, Seq<char>>>,
    k: int,
)
    requires
        upgrade_plan(targets, answers) is Ok,
        0 <= k < upgrade_plan(targets, answers)->Ok_0.len(),
    ensures
        ({
            let change = upgrade_plan(targets, answers)->Ok_0[k];
            exists|i: int|
                0 <= i < targets.len() && (#[trigger] targets[i]) == (change.name, change.from)
                    && (answers[i] matches Ok(version) && change.to == seq![change.from[0]]
                    + version_text(version)) && (change.from[0] == '^' || change.from[0] == '~')
        }),
    decreases targets.len(),
{
    let front = targets.drop_last();
    let before = upgrade_plan(front, answers)->Ok_0;
    let change = upgrade_plan(targets, answers)->Ok_0[k];
    if k < before.len() {
        each_change_is_to_what_was_found(front, answers, k);
        let i = choose|i: int|
            0 <= i < front.len() && (#[trigger] front[i]) == (change.name, change.from) && (
            answers[i] matches Ok(version) && change.to == seq![change.from[0]] + version_text(
                version,
            )) && (change.from[0] == '^' || change.from[0] == '~');
        assert(targets[i] == front[i]);
    } else {
        assert(targets[targets.len() - 1] == (change.name, change.from));
    }
}

/// An upgrade fails just where a range cannot be read or no version was found.
pub proof fn an_upgrade_fails_for_a_reason(
    targets: Seq<(Seq<char>, Seq<char>)>,
    answers: Seq<Result<VersionView, Seq<char>>>,
)
    ensures
        upgrade_plan(targets, answers) is Ok <==> forall|i: int|
            0 <= i < targets.len() ==> range_of((#[trigger] targets[i]).1) is Ok && answers[i]
                is Ok,
    decreases targets.len(),
{
    if targets.len() > 0 {
        let front = targets.drop_last();
        an_upgrade_fails_for_a_reason(front, answers);
        let n = targets.len() - 1;
        if upgrade_plan(targets, answers) is Ok {
            assert forall|i: int| 0 <= i < targets.len() implies range_of(
                (#[trigger] targets[i]).1,
            ) is Ok && answers[i] is Ok by {
                if i < n {
                    assert(front[i] == targets[i]);
                }
            }
        } else if upgrade_plan(front, answers) is Err {
            let i = choose|i: int|
                0 <= i < front.len() && !(range_of((#[trigger] front[i]).1) is Ok && answers[i]
                    is Ok);
            assert(targets[i] == front[i]);
        } else {
            assert(targets[n] == targets.last());
        }
    }
}

/// The version that is found for a dependency is the newest that its range accepts.
pub proof fn the_newest_version_is_found(
    docs: Seq<(Seq<char>, JsonView)>,
    name: Seq<char>,
    range: Seq<Seq<char>>,
    versions: Seq<(Seq<char>, JsonView)>,
    j: int,
)
    requires
        lookup(docs, name) matches Some(doc) && doc.get("versions"@) == Some(
            JsonView::Object(versions),
        ),
        0 <= j < versions.len(),
        semver_version(versions[j].0) is Ok,
        range_accepts(range, semver_version(versions[j].0)->Ok_0),
    ensures
        documented_answer(docs, name, range) matches Ok(found) && version_leq(
            semver_version(versions[j].0)->Ok_0,
            found,
        ) && range_accepts(range, found) && exists|k: int|
            0 <= k < versions.len() && semver_version((#[trigger] versions[k]).0) == Ok::<
                VersionView,
                Seq<char>,
            >(found),
{
    crate::registry::selection_is_newest(versions, range, j);
    let k = crate::registry::selection_is_offered(versions, range);
    assert(versions[k] == versions[k]);
}

/// A manifest asks the registry for each of its dependencies that come from there, under its name
/// and in its range.
pub proof fn each_registry_dependency_is_asked_for(doc: JsonView, dep: (Seq<char>, Seq<char>))
    requires
        asked_of_registry(doc) is Ok,
        dependencies_of_manifest(doc).contains(dep),
        leads_to_registry(spec_of(dep.1)),
    ensures
        range_of(dep.1) matches Ok(range) && asked_of_registry(doc)->Ok_0.contains((dep.0, range)),
{
    a_named_dependency_is_upgraded(doc, Seq::empty(), dep);
    let targets = targets_of(doc, Seq::empty());
    let i = choose|i: int| 0 <= i < targets.len() && targets[i] == dep;
    lemma_range_by_range(targets);
    let asked = asked_of_registry(doc)->Ok_0;
    assert(asked[i].0 == targets[i].0);
    assert(asked[i] == (dep.0, range_of(dep.1)->Ok_0));
}

proof fn lemma_range_by_range(targets: Seq<(Seq<char>, Seq<char>)>)
    requires
        ranges_of(targets) is Ok,
    ensures
        ranges_of(targets)->Ok_0.len() == targets.len(),
        forall|i: int|
            0 <= i < targets.len() ==> (#[trigger] ranges_of(targets)->Ok_0[i]).0 == targets[i].0
                && range_of(targets[i].1) == Ok::<_, crate::package_json::spec::RangeErrorView>(
                ranges_of(targets)->Ok_0[i].1,
            ),
    decreases targets.len(),
{
    if targets.len() > 0 {
        lemma_range_by_range(targets.drop_last());
    }
}

/// Whether the dependencies of a manifest are an object with no key twice.
pub open spec fn has_dependencies(doc: JsonView) -> bool {
    doc matches JsonView::Object(members) && (lookup(members, "dependencies"@) matches Some(
        JsonView::Object(deps),
    ) && distinct_members(deps))
}

/// The range of a dependency in a manifest.
pub open spec fn range_in(doc: JsonView, name: Seq<char>) -> Option<JsonView> {
    match doc.get("dependencies"@) {
        Some(deps) => deps.get(name),
        None => None,
    }
}

proof fn lemma_upserted(doc: JsonView, name: Seq<char>, range: Seq<char>, other: Seq<char>)
    requires
        has_dependencies(doc),
    ensures
        has_dependencies(upserted(doc, name, range)),
        range_in(upserted(doc, name, range), other) == if other == name {
            Some(JsonView::Str(range))
        } else {
            range_in(doc, other)
        },
{
    let members = doc->Object_0;
    let deps = lookup(members, "dependencies"@)->Some_0->Object_0;
    let after = crate::package_json::manifest::with_dependency(deps, name, range);
    crate::json::lemma_with_member(
        members,
        "dependencies"@,
        JsonView::Object(after),
        "dependencies"@,
    );
    crate::package_json::manifest::upsert_sets_one_of_the_list(members, name, range);
    let keys = crate::json::keys_of(after);
    assert(distinct_members(after)) by {
        assert forall|i: int, j: int| 0 <= i < j < after.len() implies #[trigger] after[i].0
            != #[trigger] after[j].0 by {
            assert(keys[i] == after[i].0 && keys[j] == after[j].0);
            assert(keys[i] != keys[j]);
        }
    }
    reveal_strlit("name");
    reveal_strlit("dependencies");
    assert("name"@.len() == 4 && "dependencies"@.len() == 12);
    if other != name {
        crate::package_json::manifest::upsert_sets_one_dependency(
            members,
            name,
            range,
            other,
            "name"@,
        );
    } else {
        let another = name.push('x');
        assert(another.len() != name.len());
        crate::package_json::manifest::upsert_sets_one_dependency(
            members,
            name,
            range,
            another,
            "name"@,
        );
    }
}

/// Once changes are made, each dependency has the range of the last change of it, and one that is
/// not changed has the range that it had.
#[verifier::spinoff_prover]
#[verifier::rlimit(60)]
pub proof fn changes_are_made(doc: JsonView, changes: Seq<ChangeView>, name: Seq<char>)
    requires
        has_dependencies(doc),
    ensures
        has_dependencies(with_changes(doc, changes)),
        (forall|i: int| 0 <= i < changes.len() ==> (#[trigger] changes[i]).name != name)
            ==> range_in(with_changes(doc, changes), name) == range_in(doc, name),
        forall|i: int|
            0 <= i < changes.len() && (#[trigger] changes[i]).name == name && (forall|j: int|
                i < j < changes.len() ==> (#[trigger] changes[j]).name != name) ==> range_in(
                with_changes(doc, changes),
                name,
            ) == Some(JsonView::Str(changes[i].to)),
    decreases changes.len(),
{
    if changes.len() > 0 {
        let front = changes.drop_last();
        let last = changes.last();
        let n = changes.len() - 1;
        changes_are_made(doc, front, name);
        lemma_upserted(with_changes(doc, front), last.name, last.to, name);
        assert(changes[n] == last);
        if forall|i: int| 0 <= i < changes.len() ==> (#[trigger] changes[i]).name != name {
            assert forall|i: int| 0 <= i < front.len() implies (#[trigger] front[i]).name
                != name by {
                assert(front[i] == changes[i]);
            }
        }
        assert forall|i: int|
            0 <= i < changes.len() && (#[trigger] changes[i]).name == name && (forall|j: int|
                i < j < changes.len() ==> (#[trigger] changes[j]).name != name) implies range_in(
            with_changes(doc, changes),
            name,
        ) == Some(JsonView::Str(changes[i].to)) by {
            if i < n {
                assert(changes[n].name != name);
                assert(front[i] == changes[i]);
                assert forall|j: int| i < j < front.len() implies (#[trigger] front[j]).name
                    != name by {
                    assert(front[j] == changes[j]);
                }
            }
        }
    }
}

/// Once dependencies are removed, none of them is there, and each that was there is reported.
pub proof fn removals_are_made(doc: JsonView, names: Seq<Seq<char>>, i: int)
    requires
        has_dependencies(doc),
        0 <= i < names.len(),
    ensures
        range_in(without_dependencies(doc, names).0, names[i]) is None,
        range_in(doc, names[i]) is Some <==> without_dependencies(doc, names).1.contains(names[i]),
{
    lemma_removed(doc, names, names[i]);
    assert(names.contains(names[i]));
}

/// A dependency that is not removed has the range that it had.
pub proof fn other_dependencies_stay(doc: JsonView, names: Seq<Seq<char>>, other: Seq<char>)
    requires
        has_dependencies(doc),
        !names.contains(other),
    ensures
        range_in(without_dependencies(doc, names).0, other) == range_in(doc, other),
        !without_dependencies(doc, names).1.contains(other),
{
    lemma_removed(doc, names, other);
}

proof fn lemma_removed(doc: JsonView, names: Seq<Seq<char>>, name: Seq<char>)
    requires
        has_dependencies(doc),
    ensures
        has_dependencies(without_dependencies(doc, names).0),
        range_in(without_dependencies(doc, names).0, name) == if names.contains(name) {
            None
        } else {
            range_in(doc, name)
        },
        without_dependencies(doc, names).1.contains(name) <==> names.contains(name) && range_in(
            doc,
            name,
        ) is Some,
    decreases names.len(),
{
    if names.len() == 0 {
    } else {
        let front = names.drop_last();
        let last = names.last();
        let n = names.len() - 1;
        lemma_removed(doc, front, name);
        lemma_removed(doc, front, last);
        let (rest, removed) = without_dependencies(doc, front);
        assert(names[n] == last);
        if front.contains(name) {
            let k = choose|k: int| 0 <= k < front.len() && front[k] == name;
            assert(names[k] == name);
        }
        assert(names.contains(name) <==> front.contains(name) || name == last) by {
            if names.contains(name) {
                let k = choose|k: int| 0 <= k < names.len() && names[k] == name;
                if k < n {
                    assert(front[k] == name);
                }
            }
            if name == last {
                assert(names[n] == name);
            }
        }
        if depends_on(rest, last) {
            lemma_dropped(rest, last, name);
            let after = removed.push(last);
            if removed.contains(name) {
                let k = choose|k: int| 0 <= k < removed.len() && removed[k] == name;
                assert(after[k] == name);
            }
            if name == last {
                assert(after[removed.len() as int] == name);
            }
            if after.contains(name) && name != last {
                let k = choose|k: int| 0 <= k < after.len() && after[k] == name;
                assert(removed[k] == name);
            }
        }
    }
}

proof fn lemma_dropped(doc: JsonView, name: Seq<char>, other: Seq<char>)
    requires
        has_dependencies(doc),
        depends_on(doc, name),
    ensures
        has_dependencies(dropped(doc, name)),
        range_in(dropped(doc, name), other) == if other == name {
            None
        } else {
            range_in(doc, other)
        },
{
    let members = doc->Object_0;
    let deps = lookup(members, "dependencies"@)->Some_0->Object_0;
    let keep = |m: (Seq<char>, JsonView)| m.0 != name;
    let after = crate::package_json::manifest::without_member(deps, name);
    crate::json::lemma_with_member(
        members,
        "dependencies"@,
        JsonView::Object(after),
        "dependencies"@,
    );
    lemma_kept_distinct(deps, name);
    reveal_strlit("name");
    reveal_strlit("dependencies");
    assert("name"@.len() == 4 && "dependencies"@.len() == 12);
    let another = name.push('x');
    assert(another.len() != name.len());
    if other != name {
        crate::project::removal_drops_one_dependency(members, deps, name, other, "name"@);
    } else {
        crate::project::removal_drops_one_dependency(members, deps, name, another, "name"@);
    }
}

proof fn lemma_kept_distinct(deps: Seq<(Seq<char>, JsonView)>, name: Seq<char>)
    requires
        distinct_members(deps),
    ensures
        distinct_members(crate::package_json::manifest::without_member(deps, name)),
        forall|i: int|
            0 <= i < crate::package_json::manifest::without_member(deps, name).len()
                ==> deps.contains(
                #[trigger] crate::package_json::manifest::without_member(deps, name)[i],
            ),
    decreases deps.len(),
{
    reveal(Seq::filter);
    let kept = crate::package_json::manifest::without_member(deps, name);
    if deps.len() > 0 {
        let front = deps.drop_last();
        assert(distinct_members(front)) by {
            assert forall|i: int, j: int| 0 <= i < j < front.len() implies #[trigger] front[i].0
                != #[trigger] front[j].0 by {
                assert(deps[i].0 != deps[j].0);
            }
        }
        lemma_kept_distinct(front, name);
        let before = crate::package_json::manifest::without_member(front, name);
        assert forall|i: int| 0 <= i < kept.len() implies deps.contains(#[trigger] kept[i]) by {
            if i < before.len() {
                assert(kept[i] == before[i]);
                let k = choose|k: int| 0 <= k < front.len() && front[k] == before[i];
                assert(deps[k] == kept[i]);
            } else {
                assert(deps[deps.len() - 1] == kept[i]);
            }
        }
        assert forall|i: int, j: int| 0 <= i < j < kept.len() implies #[trigger] kept[i].0
            != #[trigger] kept[j].0 by {
            if j < before.len() {
                assert(before[i].0 != before[j].0);
            } else {
                assert(kept[i] == before[i]);
                let k = choose|k: int| 0 <= k < front.len() && front[k] == before[i];
                assert(deps[k].0 != deps[deps.len() - 1].0);
            }
        }
    }
}

/// A dependency that is taken of a manifest is there for each text member of it, in its order, with
/// its name; its version is what the text pins.
pub proof fn each_dependency_is_taken(members: Seq<(Seq<char>, JsonView)>)
    requires
        dependencies_of_members(members) is Ok,
    ensures
        ({
            let kept = members.filter(|m: (Seq<char>, JsonView)| m.1 is Str);
            let taken = dependencies_of_members(members)->Ok_0;
            &&& taken.len() == kept.len()
            &&& forall|j: int|
                0 <= j < kept.len() ==> (#[trigger] taken[j]).name == kept[j].0
                    && taken[j].version == bare_version(kept[j].1->Str_0) && taken[j].is_git
                    == is_git_source(kept[j].1->Str_0)
        }),
    decreases members.len(),
{
    reveal(Seq::filter);
    if members.len() > 0 {
        each_dependency_is_taken(members.drop_last());
    }
}

/// A caret or a tilde before a version is left out; what stands behind the last `#` of a git source
/// is its version.
pub proof fn a_version_is_bare(version: Seq<char>, source: Seq<char>)
    requires
        version.len() > 0,
        version[0] != '^',
        version[0] != '~',
        forall|i: int| 0 <= i < version.len() ==> #[trigger] version[i] != '#',
    ensures
        !is_git_source("^"@ + version) ==> bare_version("^"@ + version) == version,
        !is_git_source("~"@ + version) ==> bare_version("~"@ + version) == version,
        !is_git_source(version) ==> bare_version(version) == version,
        is_git_source(source + "#"@ + version) ==> bare_version(source + "#"@ + version) == version,
{
    reveal_strlit("^");
    reveal_strlit("~");
    reveal_strlit("#");
    assert("^"@ =~= seq!['^']);
    assert("~"@ =~= seq!['~']);
    assert("#"@ =~= seq!['#']);
    reveal_with_fuel(crate::text::trim_start_where, 3);
    let a = "^"@ + version;
    let b = "~"@ + version;
    assert(a.drop_first() =~= version);
    assert(b.drop_first() =~= version);
    crate::laws::text::a_text_is_cut_at_the_last_separator(source, version, "#"@);
}

/// A dependency is found by its name, the last of several.
pub proof fn a_dependency_is_found_by_name(list: Seq<DependencyView>, name: Seq<char>, i: int)
    requires
        -1 <= i < list.len(),
        i >= 0 ==> list[i].name == name,
        forall|j: int| i < j < list.len() ==> (#[trigger] list[j]).name != name,
    ensures
        dependency_named(list, name) == if i >= 0 {
            Some(list[i])
        } else {
            None
        },
    decreases list.len(),
{
    if i < list.len() - 1 {
        let front = list.drop_last();
        assert(list[list.len() - 1].name != name);
        assert forall|j: int| i < j < front.len() implies (#[trigger] front[j]).name != name by {
            assert(front[j] == list[j]);
        }
        a_dependency_is_found_by_name(front, name, i);
    }
}

/// The tarball of a package is under its name, in a file of its name without the scope.
pub proof fn a_tarball_is_named_without_the_scope(
    base: Seq<char>,
    scope: Seq<char>,
    name: Seq<char>,
    version: Seq<char>,
)
    requires
        forall|i: int| 0 <= i < name.len() ==> #[trigger] name[i] != '/',
    ensures
        tarball_at(base, scope + "/"@ + name, version) == base + "/"@ + (scope + "/"@ + name)
            + "/-/"@ + name + "-"@ + version + ".tgz"@,
        tarball_at(base, name, version) == base + "/"@ + name + "/-/"@ + name + "-"@ + version
            + ".tgz"@,
{
    reveal_strlit("/");
    assert("/"@ =~= seq!['/']);
    crate::laws::text::a_text_is_cut_at_the_last_separator(scope, name, "/"@);
    crate::text::lemma_rfind_from(name, "/"@, name.len() - 1);
    if let Some(at) = crate::text::rfind(name, "/"@) {
        assert(name.subrange(at, at + 1)[0] == name[at]);
    }
}

/// The document of a package is under its name; the slash of a scope is `%2f` there.
pub proof fn a_document_is_at_the_name(base: Seq<char>, scope: Seq<char>, name: Seq<char>)
    requires
        forall|i: int| 0 <= i < scope.len() ==> #[trigger] scope[i] != '/',
        name.len() > 0 ==> name[0] != '@',
    ensures
        packument_at(base, "@"@ + (scope + "/"@ + name)) == base + "/"@ + ("@"@ + (scope + "%2f"@
            + name)),
        packument_at(base, name) == base + "/"@ + name,
{
    reveal_strlit("/");
    reveal_strlit("@");
    assert("/"@ =~= seq!['/']);
    assert("@"@ =~= seq!['@']);
    crate::laws::text::a_prefix_is_stripped("@"@, scope + "/"@ + name);
    crate::laws::text::a_text_is_cut_at_the_first_separator(scope, name, "/"@);
    if "@"@.is_prefix_of(name) {
        assert(name.subrange(0, "@"@.len() as int)[0] == "@"@[0]);
    }
}

/// An install of a lockfile fetches each package of the plan from its source, checks it against its
/// integrity and unpacks it to its key; an install of a tree does so under the names.
pub proof fn an_install_has_a_job_for_each_package(
    plan: Seq<PlannedView>,
    want: Seq<char>,
    tree: Seq<ResolvedView>,
)
    ensures
        ({
            let a = locked_install(plan, want);
            &&& a.base.len() == 0
            &&& a.want == want
            &&& a.jobs.len() == plan.len()
            &&& forall|i: int|
                0 <= i < plan.len() ==> (#[trigger] a.jobs[i]).path == plan[i].key && a.jobs[i].name
                    == plan[i].name && a.jobs[i].url == plan[i].resolved && a.jobs[i].integrity
                    == plan[i].integrity
        }),
        ({
            let b = tree_install(tree);
            &&& b.base == "node_modules"@
            &&& b.jobs.len() == tree.len()
            &&& forall|i: int|
                0 <= i < tree.len() ==> (#[trigger] b.jobs[i]).path == tree[i].name
                    && b.jobs[i].name == tree[i].name && b.jobs[i].url == tree[i].tarball_url
                    && b.jobs[i].integrity == tree[i].integrity
        }),
{
    reveal_strlit("");
    assert(""@.len() == 0);
}

/// Each executable of a planned package that has the name of a file is offered for a link, by its
/// path under `node_modules/`.
pub proof fn each_executable_is_offered(
    plan: Seq<PlannedView>,
    i: int,
    dir: Seq<char>,
    j: int,
    path: Seq<char>,
)
    requires
        0 <= i < plan.len(),
        plan[i].key == "node_modules/"@ + dir,
        0 <= j < plan[i].bin.len(),
        is_file_name(plan[i].bin[j].0),
        !"./"@.is_prefix_of(path),
        plan[i].bin[j].1 == path || plan[i].bin[j].1 == "./"@ + path,
    ensures
        all_bins(plan).contains((plan[i].bin[j].0, dir + "/"@ + path)),
    decreases plan.len(),
{
    let front = plan.drop_last();
    let before = all_bins(front);
    let all = all_bins(plan);
    let link = (plan[i].bin[j].0, dir + "/"@ + path);
    if i < front.len() {
        assert(front[i] == plan[i]);
        each_executable_is_offered(front, i, dir, j, path);
        let k = choose|k: int| 0 <= k < before.len() && before[k] == link;
        assert(all[k] == link);
    } else {
        crate::laws::text::a_prefix_is_stripped("node_modules/"@, dir);
        crate::laws::text::a_prefix_is_stripped("./"@, path);
        reveal_with_fuel(crate::install::without_dots, 2);
        let bins = plan[i].bin;
        let kept = bins.filter(is_linkable());
        bins.lemma_filter_contains(is_linkable(), j);
        let k = choose|k: int| 0 <= k < kept.len() && kept[k] == bins[j];
        let offered = bins_offered(plan[i]);
        assert(offered[k] == link);
        assert(all[before.len() + k] == link);
    }
}

/// A manifest without dependencies has just the one that is put in; one whose dependencies are no
/// object, and what is no manifest, stays as it is.
pub proof fn the_first_dependency_is_put_in(doc: JsonView, name: Seq<char>, range: Seq<char>)
    ensures
        match doc {
            JsonView::Object(members) => match lookup(members, "dependencies"@) {
                None => upserted(doc, name, range).get("dependencies"@) == Some(
                    JsonView::Object(seq![(name, JsonView::Str(range))]),
                ),
                Some(JsonView::Object(_)) => true,
                Some(_) => upserted(doc, name, range) == doc,
            },
            _ => upserted(doc, name, range) == doc,
        },
{
    if let JsonView::Object(members) = doc {
        if lookup(members, "dependencies"@) is None {
            let none = Seq::<(Seq<char>, JsonView)>::empty();
            let one = seq![(name, JsonView::Str(range))];
            let after = crate::package_json::manifest::with_dependency(none, name, range);
            assert(crate::sort::is_sorted::<(String, crate::json::Json)>(one)) by {
                crate::text::lemma_text_total(name, name);
            }
            crate::sort::lemma_sorted_stays::<(String, crate::json::Json)>(one);
            assert(after == one);
            crate::json::lemma_with_member(
                members,
                "dependencies"@,
                JsonView::Object(after),
                "dependencies"@,
            );
        }
    }
}

/// A new manifest has the name and the version, and no dependencies.
pub proof fn a_new_manifest_has_its_name_and_version(name: Seq<char>, version: Seq<char>)
    ensures
        new_manifest(name, version).get("name"@) == Some(JsonView::Str(name)),
        new_manifest(name, version).get("version"@) == Some(JsonView::Str(version)),
        new_manifest(name, version).get("dependencies"@) == Some(JsonView::Object(Seq::empty())),
{
    lemma_lock_keys();
    let members = new_manifest(name, version)->Object_0;
    assert(distinct_members(members));
    crate::json::lemma_distinct_lookup(members, 0);
    crate::json::lemma_distinct_lookup(members, 1);
    crate::json::lemma_distinct_lookup(members, 2);
}

/// Whether a character may stand in the name of a package.
pub open spec fn may_be_in_a_name(c: char) -> bool {
    'a' <= c <= 'z' || 'A' <= c <= 'Z' || '0' <= c <= '9' || c == '.' || c == '-' || c == '_' || c
        == '@' || c == '/'
}

/// Whether a character may stand in a version.
pub open spec fn may_be_in_a_version(c: char) -> bool {
    'a' <= c <= 'z' || 'A' <= c <= 'Z' || '0' <= c <= '9' || c == '.' || c == '-' || c == '+' || c
        == '_'
}

/// A dependency is taken just where its name is of 1 to 200 bytes and its version of 1 to 100, both
/// without `..` and in the characters of names and of versions.
pub proof fn sound_dependencies_are_taken(name: Seq<char>, value: Seq<char>)
    ensures
        dependency_of(name, value) is Ok <==> {
            let version = bare_version(value);
            &&& 0 < name.len() && vstd::utf8::encode_utf8(name).len() <= 200
            &&& !contains(name, ".."@)
            &&& forall|i: int| 0 <= i < name.len() ==> may_be_in_a_name(#[trigger] name[i])
            &&& 0 < version.len() && vstd::utf8::encode_utf8(version).len() <= 100
            &&& !contains(version, ".."@)
            &&& forall|i: int|
                0 <= i < version.len() ==> may_be_in_a_version(#[trigger] version[i])
        },
        dependency_of(name, value) matches Ok(d) ==> d.name == name && d.version == bare_version(
            value,
        ),
{
}

/// An install goes on from step to step: what is there is cleared, then each package is fetched from
/// its source and unpacked to its place, then each link is made, then the marker is written.
pub proof fn an_install_goes_on(install: InstallView, bytes: Seq<u8>, i: int)
    requires
        install.jobs.len() <= usize::MAX,
        install.links.len() <= usize::MAX,
        forall|j: int| 0 <= j < install.jobs.len() ==> is_within((#[trigger] install.jobs[j]).path),
        install.link_failure is None,
    ensures
        0 <= i < install.jobs.len() && (install.stage == Stage::Clearing && i == 0 || install.stage
            == Stage::Unpacking((i - 1) as usize) && i > 0) ==> after_event(
            install,
            EventView::Done,
        ) == Ok::<(Stage, StepView), InstallErrorView>(
            (Stage::Fetching(i as usize), StepView::Fetch { url: install.jobs[i].url }),
        ),
        0 <= i < install.jobs.len() && install.stage == Stage::Fetching(i as usize) ==> match (
        verified_unpacking(install.jobs[i].name, bytes, install.jobs[i].integrity)) {
            Ok(plan) => after_event(install, EventView::Fetched(bytes)) == Ok::<
                (Stage, StepView),
                InstallErrorView,
            >(
                (
                    Stage::Unpacking(i as usize),
                    StepView::Unpack { dir: path_under(install.base, install.jobs[i].path), plan },
                ),
            ),
            Err(e) => after_event(install, EventView::Fetched(bytes)) == Err::<
                (Stage, StepView),
                InstallErrorView,
            >(e),
        },
        0 <= i < install.links.len() && (install.stage == Stage::Linking((i - 1) as usize) && i > 0
            || i == 0 && install.jobs.len() > 0 && install.stage == Stage::Unpacking(
            (install.jobs.len() - 1) as usize,
        )) ==> after_event(install, EventView::Done) == Ok::<(Stage, StepView), InstallErrorView>(
            (Stage::Linking(i as usize), StepView::Link(install.links[i])),
        ),
        install.links.len() > 0 && install.stage == Stage::Linking(
            (install.links.len() - 1) as usize,
        ) || install.links.len() == 0 && install.jobs.len() > 0 && install.stage
            == Stage::Unpacking((install.jobs.len() - 1) as usize) ==> after_event(
            install,
            EventView::Done,
        ) == Ok::<(Stage, StepView), InstallErrorView>(
            (Stage::Marking, StepView::Mark { want: install.want }),
        ),
        install.stage == Stage::Marking ==> after_event(install, EventView::Done) == Ok::<
            (Stage, StepView),
            InstallErrorView,
        >((Stage::Finished, StepView::Finish)),
{
}

} // verus!
