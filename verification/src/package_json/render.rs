//! `package-lock.json` in writing: version 3, for a tree of registry packages.

use super::lock::{
    installs_on, lock_version, locked, locked_member, lockfile_of, LockErrorView, LockedPackage,
    LockedView, LockfileView,
};
use super::manifest::{dependencies, dependencies_of_manifest};
use crate::install::{installed, is_web_url, planned, planned_entry, InstallErrorView};
use crate::json::{
    distinct_members, is_tidy, lemma_lookup_concat, lookup, no_members, normal, object,
    optional_member, pretty_text, put, put_some, reads_as, string_opt, text_json, Json, JsonView,
    Number, NumberView,
};
use crate::registry::{Resolved, ResolvedView};
use crate::sbom::{component_of, components_of, packages_only, Component};
use crate::sort::{is_sorted, lemma_sorted_stays, Sortable};
use crate::text::{contains, joined, last_piece, occurs_at};
use crate::tree::is_flat;
use crate::version::{is_version, version_text};
use vstd::prelude::*;
use vstd::string::*;

verus! {

/// A dependency as a member of an object.
pub open spec fn dependency_member() -> spec_fn((Seq<char>, Seq<char>)) -> (Seq<char>, JsonView) {
    |dep: (Seq<char>, Seq<char>)| (dep.0, JsonView::Str(dep.1))
}

/// The entry of the root project, by its manifest.
pub open spec fn root_entry(manifest: JsonView) -> JsonView {
    JsonView::Object(
        optional_member("name"@, text_json(manifest.text("name"@))) + optional_member(
            "version"@,
            text_json(manifest.text("version"@)),
        ) + seq![
            (
                "dependencies"@,
                JsonView::Object(
                    dependencies_of_manifest(manifest).map_values(dependency_member()),
                ),
            ),
        ],
    )
}

/// The entry of a package: its version, its tarball, and what is known of its integrity and
/// its license.
pub open spec fn package_entry(r: ResolvedView) -> JsonView {
    JsonView::Object(
        seq![
            ("version"@, JsonView::Str(version_text(r.version))),
            ("resolved"@, JsonView::Str(r.tarball_url)),
        ] + optional_member("integrity"@, text_json(r.integrity)) + optional_member(
            "license"@,
            text_json(r.license),
        ),
    )
}

/// A package with its key in the `packages` map.
pub open spec fn package_member() -> spec_fn(ResolvedView) -> (Seq<char>, JsonView) {
    |r: ResolvedView| ("node_modules/"@ + r.name, package_entry(r))
}

/// The `packages` map of a tree.
pub open spec fn packages_map(manifest: JsonView, tree: Seq<ResolvedView>) -> Seq<
    (Seq<char>, JsonView),
> {
    seq![(""@, root_entry(manifest))] + tree.map_values(package_member())
}

/// The lockfile of a manifest and its tree.
pub open spec fn written_lock(manifest: JsonView, tree: Seq<ResolvedView>) -> JsonView {
    JsonView::Object(
        optional_member("name"@, text_json(manifest.text("name"@))) + optional_member(
            "version"@,
            text_json(manifest.text("version"@)),
        ) + seq![
            ("lockfileVersion"@, JsonView::Number(NumberView::Unsigned(3))),
            ("requires"@, JsonView::Bool(true)),
            ("packages"@, JsonView::Object(packages_map(manifest, tree))),
        ],
    )
}

/// A text member of a document as JSON, where it is there.
fn text_of_member(doc: &Json, key: &str) -> (r: Option<Json>)
    ensures
        r.deep_view() == text_json(doc.deep_view().text(key@)),
{
    match doc.text(key) {
        Some(s) => Some(Json::string(s)),
        None => None,
    }
}

/// The entry of the root project, by its manifest.
fn render_root(manifest: &Json) -> (r: Json)
    ensures
        r.deep_view() == root_entry(manifest.deep_view()),
{
    let deps = dependencies(manifest);
    let ghost all = deps.deep_view();
    let mut listed = no_members();
    let mut i: usize = 0;
    assert(listed.deep_view() =~= all.take(0).map_values(dependency_member()));
    while i < deps.len()
        invariant
            i <= deps@.len(),
            all == deps.deep_view(),
            listed.deep_view() == all.take(i as int).map_values(dependency_member()),
        decreases deps@.len() - i,
    {
        let ghost done = listed.deep_view();
        assert(all[i as int] == (deps@[i as int].0@, deps@[i as int].1@));
        put(&mut listed, deps[i].0.as_str(), Json::string(deps[i].1.as_str()));
        assert(all.take(i + 1).map_values(dependency_member()) =~= done.push(
            dependency_member()(all[i as int]),
        ));
        i += 1;
    }
    assert(all.take(all.len() as int) =~= all);
    let mut m = no_members();
    put_some(&mut m, "name", text_of_member(manifest, "name"));
    put_some(&mut m, "version", text_of_member(manifest, "version"));
    put(&mut m, "dependencies", object(listed));
    assert(m.deep_view() =~= root_entry(manifest.deep_view())->Object_0);
    object(m)
}

/// The entry of a package.
fn render_package(r: &Resolved) -> (entry: Json)
    ensures
        entry.deep_view() == package_entry(r.deep_view()),
{
    let mut m = no_members();
    put(&mut m, "version", Json::string(r.version.to_string().as_str()));
    put(&mut m, "resolved", Json::string(r.tarball_url.as_str()));
    put_some(&mut m, "integrity", string_opt(&r.integrity));
    put_some(&mut m, "license", string_opt(&r.license));
    assert(m.deep_view() =~= package_entry(r.deep_view())->Object_0);
    object(m)
}

/// The lockfile of a manifest and its tree, as a document.
pub fn lock_document(manifest: &Json, tree: &Vec<Resolved>) -> (r: Json)
    ensures
        r.deep_view() == written_lock(manifest.deep_view(), tree.deep_view()),
{
    let ghost all = tree.deep_view();
    let ghost m = manifest.deep_view();
    let mut packages = no_members();
    put(&mut packages, "", render_root(manifest));
    let mut i: usize = 0;
    assert(packages.deep_view() =~= packages_map(m, all.take(0)));
    while i < tree.len()
        invariant
            i <= tree@.len(),
            all == tree.deep_view(),
            packages.deep_view() == packages_map(m, all.take(i as int)),
        decreases tree@.len() - i,
    {
        let ghost done = packages.deep_view();
        assert(all[i as int] == tree@[i as int].deep_view());
        let key = joined("node_modules/", tree[i].name.as_str());
        put(&mut packages, key.as_str(), render_package(&tree[i]));
        assert(packages_map(m, all.take(i + 1)) =~= done.push(package_member()(all[i as int])));
        i += 1;
    }
    assert(all.take(all.len() as int) =~= all);
    let mut out = no_members();
    put_some(&mut out, "name", text_of_member(manifest, "name"));
    put_some(&mut out, "version", text_of_member(manifest, "version"));
    put(&mut out, "lockfileVersion", Json::Number(Number::Unsigned(3)));
    put(&mut out, "requires", Json::Bool(true));
    put(&mut out, "packages", object(packages));
    assert(out.deep_view() =~= written_lock(m, all)->Object_0);
    object(out)
}

/// The `package-lock.json` of a manifest and its tree: indented, with a line break at the end.
pub fn render_v3(manifest: &Json, tree: &Vec<Resolved>) -> (r: String)
    ensures
        ({
            let doc = written_lock(manifest.deep_view(), tree.deep_view());
            &&& r@ == pretty_text(normal(doc)) + "\n"@
            &&& is_tidy(doc, 127) ==> reads_as(r@, doc)
        }),
{
    super::manifest::to_pretty(&lock_document(manifest, tree))
}

/// What a lockfile says of a package of the tree it was written for.
pub open spec fn locked_package() -> spec_fn(ResolvedView) -> LockedView {
    |r: ResolvedView|
        LockedView {
            key: "node_modules/"@ + r.name,
            name: r.name,
            version: version_text(r.version),
            resolved: Some(r.tarball_url),
            integrity: r.integrity,
            license: r.license,
            dev: false,
            optional: false,
            dev_optional: false,
            link: false,
            os: Seq::empty(),
            cpu: Seq::empty(),
            bin: Seq::empty(),
        }
}

/// What the entry of a package has under a key.
proof fn lemma_entry_lookup(r: ResolvedView, key: Seq<char>)
    ensures
        package_entry(r).get(key) == (if key == "license"@ && r.license is Some {
            text_json(r.license)
        } else if key == "integrity"@ && r.integrity is Some {
            text_json(r.integrity)
        } else if key == "resolved"@ {
            Some(JsonView::Str(r.tarball_url))
        } else if key == "version"@ {
            Some(JsonView::Str(version_text(r.version)))
        } else {
            None
        }),
{
    let a = seq![
        ("version"@, JsonView::Str(version_text(r.version))),
        ("resolved"@, JsonView::Str(r.tarball_url)),
    ];
    let b = optional_member("integrity"@, text_json(r.integrity));
    let c = optional_member("license"@, text_json(r.license));
    lemma_lookup_concat(a + b, c, key);
    lemma_lookup_concat(a, b, key);
    reveal_with_fuel(lookup, 3);
    assert(a.drop_last().drop_last() =~= Seq::empty());
    assert(b.len() > 0 ==> b.drop_last() =~= Seq::empty());
    assert(c.len() > 0 ==> c.drop_last() =~= Seq::empty());
}

/// What stands behind the last `node_modules/` of the key of a package is its name.
proof fn lemma_key_names_package(name: Seq<char>)
    requires
        !contains(name, "node_modules/"@),
    ensures
        last_piece("node_modules/"@ + name, "node_modules/"@) == name,
{
    let p = "node_modules/"@;
    let key = p + name;
    reveal_strlit("node_modules/");
    assert(p.len() == 13);
    crate::text::lemma_rfind_from(key, p, key.len() - p.len());
    assert(occurs_at(key, p, 0)) by {
        assert(key.subrange(0, p.len() as int) =~= p);
    }
    assert forall|k: int| 0 < k implies !occurs_at(key, p, k) by {
        if occurs_at(key, p, k) {
            assert(key.subrange(k, k + p.len()) == p);
            assert(key.subrange(k, k + p.len())[0] == key[k]);
            if k < 13 {
                assert(key[k] == p[k]);
                assert(p[k] != 'n');
            } else {
                assert(name.subrange(k - 13, k - 13 + p.len()) =~= key.subrange(k, k + p.len()));
                assert(occurs_at(name, p, k - 13));
            }
        }
    }
    assert(key.skip(p.len() as int) =~= name);
}

/// The entry of a package reads as what was written.
proof fn lemma_entry_reads(r: ResolvedView)
    requires
        !contains(r.name, "node_modules/"@),
    ensures
        locked("node_modules/"@ + r.name, package_entry(r)) == locked_package()(r),
{
    lemma_key_names_package(r.name);
    reveal_strlit("version");
    reveal_strlit("resolved");
    reveal_strlit("integrity");
    reveal_strlit("license");
    reveal_strlit("licenses");
    reveal_strlit("dev");
    reveal_strlit("optional");
    reveal_strlit("devOptional");
    reveal_strlit("link");
    reveal_strlit("os");
    reveal_strlit("cpu");
    reveal_strlit("bin");
    assert("version"@.len() == 7 && "resolved"@.len() == 8 && "integrity"@.len() == 9);
    assert("license"@.len() == 7 && "licenses"@.len() == 8 && "dev"@.len() == 3);
    assert("optional"@.len() == 8 && "devOptional"@.len() == 11 && "link"@.len() == 4);
    assert("os"@.len() == 2 && "cpu"@.len() == 3 && "bin"@.len() == 3);
    assert("version"@[0] == 'v' && "license"@[0] == 'l');
    assert("resolved"@[0] == 'r' && "licenses"@[0] == 'l' && "optional"@[0] == 'o');
    lemma_entry_lookup(r, "version"@);
    lemma_entry_lookup(r, "resolved"@);
    lemma_entry_lookup(r, "integrity"@);
    lemma_entry_lookup(r, "license"@);
    lemma_entry_lookup(r, "licenses"@);
    lemma_entry_lookup(r, "dev"@);
    lemma_entry_lookup(r, "optional"@);
    lemma_entry_lookup(r, "devOptional"@);
    lemma_entry_lookup(r, "link"@);
    lemma_entry_lookup(r, "os"@);
    lemma_entry_lookup(r, "cpu"@);
    lemma_entry_lookup(r, "bin"@);
    let l = locked("node_modules/"@ + r.name, package_entry(r));
    assert(l =~= locked_package()(r));
}

/// What a lockfile holds of the tree it was written for: the root project, and the packages.
pub open spec fn locked_tree(manifest: JsonView, tree: Seq<ResolvedView>) -> Seq<LockedView> {
    seq![locked(""@, root_entry(manifest))] + tree.map_values(locked_package())
}

/// The members of the map read as what was written.
proof fn lemma_map_reads(manifest: JsonView, tree: Seq<ResolvedView>)
    requires
        forall|i: int|
            0 <= i < tree.len() ==> !contains((#[trigger] tree[i]).name, "node_modules/"@),
    ensures
        packages_map(manifest, tree).filter_map(locked_member()) == locked_tree(manifest, tree),
    decreases tree.len(),
{
    let map = packages_map(manifest, tree);
    let n = map.len() - 1;
    assert(map.take(map.len() as int) =~= map);
    map.lemma_filter_map_take_succ(locked_member(), n);
    if tree.len() == 0 {
        assert(map.take(0).filter_map(locked_member()) =~= Seq::empty()) by {
            reveal(Seq::filter_map);
        }
        assert(map.filter_map(locked_member()) =~= locked_tree(manifest, tree));
    } else {
        let front = tree.drop_last();
        lemma_map_reads(manifest, front);
        assert(map.take(n) =~= packages_map(manifest, front));
        lemma_entry_reads(tree.last());
        assert(map[n] == package_member()(tree.last()));
        assert(map.filter_map(locked_member()) =~= locked_tree(manifest, tree));
    }
}

/// The root project and the packages of a sorted tree stand in the order of their keys.
proof fn lemma_locked_sorted(manifest: JsonView, tree: Seq<ResolvedView>)
    requires
        is_sorted::<Resolved>(tree),
    ensures
        is_sorted::<LockedPackage>(locked_tree(manifest, tree)),
{
    let entries = locked_tree(manifest, tree);
    reveal_strlit("");
    assert(""@.len() == 0);
    assert forall|i: int, j: int| 0 <= i <= j < entries.len() implies LockedPackage::leq(
        #[trigger] entries[i],
        #[trigger] entries[j],
    ) by {
        if i > 0 {
            assert(Resolved::leq(tree[i - 1], tree[j - 1]));
            crate::text::lemma_text_prefixed(
                "node_modules/"@,
                tree[i - 1].name,
                tree[j - 1].name,
            );
        }
    }
}

/// What a lockfile has under the keys that matter for reading it.
proof fn lemma_lock_fields(manifest: JsonView, tree: Seq<ResolvedView>)
    ensures
        lock_version(written_lock(manifest, tree)) == 3,
        written_lock(manifest, tree).members("packages"@) == Some(packages_map(manifest, tree)),
{
    let a = optional_member("name"@, text_json(manifest.text("name"@))) + optional_member(
        "version"@,
        text_json(manifest.text("version"@)),
    );
    let b = seq![
        ("lockfileVersion"@, JsonView::Number(NumberView::Unsigned(3))),
        ("requires"@, JsonView::Bool(true)),
        ("packages"@, JsonView::Object(packages_map(manifest, tree))),
    ];
    reveal_strlit("lockfileVersion");
    reveal_strlit("requires");
    reveal_strlit("packages");
    assert("lockfileVersion"@.len() == 15);
    assert("requires"@.len() == 8 && "packages"@.len() == 8);
    assert("requires"@[0] == 'r' && "packages"@[0] == 'p');
    lemma_lookup_concat(a, b, "lockfileVersion"@);
    lemma_lookup_concat(a, b, "packages"@);
    reveal_with_fuel(lookup, 4);
    assert(b.drop_last().drop_last().last() == b[0]);
    assert(b.drop_last().last() == b[1]);
}

/// A lockfile that was written for a sorted tree reads as just that tree: the root project and
/// one entry for each package, with its version, tarball, integrity and license.
pub proof fn a_written_lock_reads_back(manifest: JsonView, tree: Seq<ResolvedView>)
    requires
        is_sorted::<Resolved>(tree),
        forall|i: int|
            0 <= i < tree.len() ==> !contains((#[trigger] tree[i]).name, "node_modules/"@),
    ensures
        lockfile_of(written_lock(manifest, tree)) == Ok::<LockfileView, LockErrorView>(
            LockfileView { version: 3, packages: locked_tree(manifest, tree) },
        ),
{
    lemma_lock_fields(manifest, tree);
    lemma_map_reads(manifest, tree);
    lemma_locked_sorted(manifest, tree);
    lemma_sorted_stays::<LockedPackage>(locked_tree(manifest, tree));
}

/// What is installed for a package: all that is known of it but the license.
pub open spec fn as_installed() -> spec_fn(ResolvedView) -> ResolvedView {
    |r: ResolvedView| ResolvedView { license: None, ..r }
}

/// A package of a tree is for every host.
proof fn lemma_package_installs(r: ResolvedView, host_os: Seq<char>, host_arch: Seq<char>)
    ensures
        installs_on(host_os, host_arch)(locked_package()(r)),
{
    let key = "node_modules/"@ + r.name;
    assert(key.subrange(0, "node_modules/"@.len() as int) =~= "node_modules/"@);
}

/// The root project is for no host.
proof fn lemma_root_stays_out(manifest: JsonView, host_os: Seq<char>, host_arch: Seq<char>)
    ensures
        !installs_on(host_os, host_arch)(locked(""@, root_entry(manifest))),
{
    reveal_strlit("");
    reveal_strlit("node_modules/");
    assert(""@.len() == 0 && "node_modules/"@.len() == 13);
}

/// Where every value is kept, nothing is left out.
proof fn lemma_all_are_kept<A>(values: Seq<A>, keep: spec_fn(A) -> bool)
    requires
        forall|i: int| 0 <= i < values.len() ==> keep(#[trigger] values[i]),
    ensures
        values.filter(keep) == values,
    decreases values.len(),
{
    reveal(Seq::filter);
    if values.len() > 0 {
        let front = values.drop_last();
        assert(keep(values[values.len() - 1]));
        assert forall|i: int| 0 <= i < front.len() implies keep(#[trigger] front[i]) by {
            assert(front[i] == values[i]);
        }
        lemma_all_are_kept(front, keep);
        assert(front.push(values.last()) =~= values);
    } else {
        assert(values.filter(keep) =~= values);
    }
}

/// All packages of a tree are installed, as they are known.
proof fn lemma_planned_installs(tree: Seq<ResolvedView>)
    requires
        forall|i: int|
            0 <= i < tree.len() ==> is_version((#[trigger] tree[i]).version) && is_web_url(
                Some(tree[i].tarball_url),
            ),
    ensures
        installed(tree.map_values(locked_package()).filter_map(planned_entry())) == Ok::<
            Seq<ResolvedView>,
            InstallErrorView,
        >(tree.map_values(as_installed())),
    decreases tree.len(),
{
    let entries = tree.map_values(locked_package());
    if tree.len() == 0 {
        reveal(Seq::filter_map);
        assert(entries.filter_map(planned_entry()) =~= Seq::empty());
        assert(tree.map_values(as_installed()) =~= Seq::empty());
    } else {
        let front = tree.drop_last();
        assert forall|i: int| 0 <= i < front.len() implies is_version(
            (#[trigger] front[i]).version,
        ) && is_web_url(Some(front[i].tarball_url)) by {
            assert(front[i] == tree[i]);
        }
        lemma_planned_installs(front);
        let n = entries.len() - 1;
        assert(entries.take(entries.len() as int) =~= entries);
        assert(entries.take(n) =~= front.map_values(locked_package()));
        entries.lemma_filter_map_take_succ(planned_entry(), n);
        let r = tree[tree.len() - 1];
        let plan = entries.filter_map(planned_entry());
        let before = front.map_values(locked_package()).filter_map(planned_entry());
        assert(plan =~= before.push(planned(locked_package()(r))));
        assert(plan.drop_last() =~= before);
        assert(is_version(r.version));
        assert(front.map_values(as_installed()).push(as_installed()(r)) =~= tree.map_values(
            as_installed(),
        ));
    }
}

/// What is installed of a lockfile that was written for a sorted tree is that tree, whatever
/// the host: each package at its version, from its tarball and with its integrity.
pub proof fn a_written_lock_installs_its_tree(
    manifest: JsonView,
    tree: Seq<ResolvedView>,
    host_os: Seq<char>,
    host_arch: Seq<char>,
)
    requires
        is_sorted::<Resolved>(tree),
        forall|i: int|
            0 <= i < tree.len() ==> !contains((#[trigger] tree[i]).name, "node_modules/"@)
                && is_version(tree[i].version) && is_web_url(Some(tree[i].tarball_url)),
    ensures
        lockfile_of(written_lock(manifest, tree)) is Ok,
        ({
            let lock = lockfile_of(written_lock(manifest, tree))->Ok_0;
            installed(
                lock.packages.filter(installs_on(host_os, host_arch)).filter_map(planned_entry()),
            ) == Ok::<Seq<ResolvedView>, InstallErrorView>(tree.map_values(as_installed()))
        }),
{
    a_written_lock_reads_back(manifest, tree);
    let keep = installs_on(host_os, host_arch);
    lemma_root_stays_out(manifest, host_os, host_arch);
    let entries = tree.map_values(locked_package());
    assert forall|i: int| 0 <= i < entries.len() implies keep(#[trigger] entries[i]) by {
        lemma_package_installs(tree[i], host_os, host_arch);
    }
    lemma_all_are_kept(entries, keep);
    entries.lemma_filter_prepend(locked(""@, root_entry(manifest)), keep);
    lemma_planned_installs(tree);
}

/// A lockfile is read back from its print, where no dependency and no package stands in it
/// twice.
pub proof fn a_written_lock_is_tidy(manifest: JsonView, tree: Seq<ResolvedView>)
    requires
        is_flat(tree),
        distinct_members(dependencies_of_manifest(manifest).map_values(dependency_member())),
    ensures
        is_tidy(written_lock(manifest, tree), 127),
{
    reveal_strlit("");
    reveal_strlit("name");
    reveal_strlit("version");
    reveal_strlit("dependencies");
    reveal_strlit("lockfileVersion");
    reveal_strlit("requires");
    reveal_strlit("packages");
    reveal_strlit("node_modules/");
    assert(""@.len() == 0 && "node_modules/"@.len() == 13);
    assert("name"@.len() == 4 && "version"@.len() == 7 && "dependencies"@.len() == 12);
    assert("lockfileVersion"@.len() == 15);
    assert("requires"@.len() == 8 && "packages"@.len() == 8);
    assert("requires"@[0] == 'r' && "packages"@[0] == 'p');
    let deps = dependencies_of_manifest(manifest).map_values(dependency_member());
    crate::json::lemma_tidy_object(deps, 124);
    crate::json::lemma_tidy_object(root_entry(manifest)->Object_0, 125);
    let map = packages_map(manifest, tree);
    assert forall|i: int| 0 <= i < map.len() implies is_tidy((#[trigger] map[i]).1, 125) by {
        if i > 0 {
            lemma_entry_tidy(tree[i - 1]);
        }
    }
    assert forall|i: int, j: int| 0 <= i < j < map.len() implies #[trigger] map[i].0
        != #[trigger] map[j].0 by {
        let prefix = "node_modules/"@;
        if i > 0 {
            assert(tree[i - 1].name != tree[j - 1].name);
            assert(map[i].0.skip(prefix.len() as int) =~= tree[i - 1].name);
            assert(map[j].0.skip(prefix.len() as int) =~= tree[j - 1].name);
        }
    }
    crate::json::lemma_tidy_object(map, 126);
    crate::json::lemma_tidy_object(written_lock(manifest, tree)->Object_0, 127);
}

/// The entry of a package is read back from its print.
proof fn lemma_entry_tidy(r: ResolvedView)
    ensures
        is_tidy(package_entry(r), 125),
{
    reveal_strlit("version");
    reveal_strlit("resolved");
    reveal_strlit("integrity");
    reveal_strlit("license");
    assert("version"@.len() == 7 && "resolved"@.len() == 8);
    assert("integrity"@.len() == 9 && "license"@.len() == 7);
    assert("version"@[0] == 'v' && "license"@[0] == 'l');
    assert(distinct_members(package_entry(r)->Object_0));
    crate::json::lemma_tidy_object(package_entry(r)->Object_0, 125);
}

/// The bill of materials of a lockfile that was written for a tree lists the packages of the
/// tree in order, each with its version, tarball, integrity and license.
pub proof fn a_written_lock_bills_its_tree(manifest: JsonView, tree: Seq<ResolvedView>)
    requires
        is_sorted::<Resolved>(tree),
        is_flat(tree),
        forall|i: int|
            0 <= i < tree.len() ==> !contains((#[trigger] tree[i]).name, "node_modules/"@),
    ensures
        lockfile_of(written_lock(manifest, tree)) is Ok,
        ({
            let bill = components_of(lockfile_of(written_lock(manifest, tree))->Ok_0.packages);
            &&& bill.len() == tree.len()
            &&& forall|i: int|
                0 <= i < tree.len() ==> {
                    let c = #[trigger] bill[i];
                    &&& c.name == tree[i].name
                    &&& c.version == version_text(tree[i].version)
                    &&& c.license == tree[i].license
                    &&& c.resolved == Some(tree[i].tarball_url)
                    &&& c.integrity == tree[i].integrity
                }
        }),
{
    a_written_lock_reads_back(manifest, tree);
    let entries = tree.map_values(locked_package());
    let root = locked(""@, root_entry(manifest));
    let keep = packages_only();
    assert(!keep(root)) by {
        reveal_strlit("");
        reveal_strlit("node_modules/");
        assert(""@.len() == 0 && "node_modules/"@.len() == 13);
    }
    assert forall|i: int| 0 <= i < entries.len() implies keep(#[trigger] entries[i]) by {
        let key = "node_modules/"@ + tree[i].name;
        assert(key.subrange(0, "node_modules/"@.len() as int) =~= "node_modules/"@);
    }
    lemma_all_are_kept(entries, keep);
    entries.lemma_filter_prepend(root, keep);
    let listed = entries.map_values(component_of());
    assert forall|i: int, j: int| 0 <= i <= j < listed.len() implies Component::leq(
        #[trigger] listed[i],
        #[trigger] listed[j],
    ) by {
        assert(Resolved::leq(tree[i], tree[j]));
        if i < j {
            assert(tree[i].name != tree[j].name);
        } else {
            crate::text::lemma_text_total(listed[i].version, listed[i].version);
        }
    }
    lemma_sorted_stays::<Component>(listed);
}

} // verus!
