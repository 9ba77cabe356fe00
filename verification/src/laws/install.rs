//! What is installed of a lockfile, and what a manifest asks for.

use crate::install::{
    first_escape, installed, link_plan, planned_entry, planned_member, planned_tree,
    requirements_in, requirements_of_manifest, InstallErrorView, PlannedPackage, PlannedView,
};
use crate::json::{text_members_of, texts_of, JsonView, NumberView};
use crate::package_json::lock::{
    allows, installs_on, locked, locked_member, lockfile_of, LockedPackage, LockedView,
};
use crate::package_json::license_in;
use crate::package_json::spec::req_of;
use crate::path_safety::{is_within, PathErrorView};
use crate::sort::{lemma_mapped, lemma_same_values, sorting_is_stable};
use crate::text::{contains, last_piece, occurs_at, rfind, text_leq};
use crate::version::semver_version;
use vstd::prelude::*;
use vstd::string::*;

verus! {

/// Whether `npm` is the word of npm for the operating system that Rust calls `host`.
pub open spec fn is_os_word(host: Seq<char>, npm: Seq<char>) -> bool {
    &&& host == "macos"@ ==> npm == "darwin"@
    &&& host == "windows"@ ==> npm == "win32"@
    &&& host != "macos"@ && host != "windows"@ ==> npm == host
}

/// Whether `npm` is the word of npm for the processor that Rust calls `host`.
pub open spec fn is_cpu_word(host: Seq<char>, npm: Seq<char>) -> bool {
    &&& host == "x86_64"@ ==> npm == "x64"@
    &&& host == "aarch64"@ ==> npm == "arm64"@
    &&& host == "x86"@ ==> npm == "ia32"@
    &&& host != "x86_64"@ && host != "aarch64"@ && host != "x86"@ ==> npm == host
}

/// Whether the texts under `key` let a host through: none of them is its word with a `!` before
/// it, and it is one of those without a `!`, where there are such.
pub open spec fn lets_through(entry: JsonView, key: Seq<char>, word: Seq<char>) -> bool {
    match entry.get(key) {
        Some(JsonView::Array(items)) => {
            &&& forall|i: int|
                0 <= i < items.len() ==> #[trigger] items[i] != JsonView::Str("!"@ + word)
            &&& (forall|i: int|
                0 <= i < items.len() && (#[trigger] items[i]) is Str ==> "!"@.is_prefix_of(
                    items[i]->Str_0,
                )) || exists|i: int|
                0 <= i < items.len() && #[trigger] items[i] == JsonView::Str(word)
                    && !"!"@.is_prefix_of(word)
        },
        _ => true,
    }
}

/// Whether an entry of a lockfile is to be installed on a host: it stands under `node_modules/`,
/// its source is on the web, and its constraints let the host through.
pub open spec fn is_wanted(
    key: Seq<char>,
    entry: JsonView,
    os: Seq<char>,
    cpu: Seq<char>,
) -> bool {
    &&& "node_modules/"@.is_prefix_of(key)
    &&& entry is Object
    &&& entry.get("resolved"@) matches Some(JsonView::Str(url)) && ("https://"@.is_prefix_of(url)
        || "http://"@.is_prefix_of(url))
    &&& lets_through(entry, "os"@, os)
    &&& lets_through(entry, "cpu"@, cpu)
}

/// Whether a package of a plan is what an entry of a lockfile says: it goes to just that key, in
/// the version, from the source and with the integrity that stand there.
pub open spec fn is_as_locked(p: PlannedView, key: Seq<char>, entry: JsonView) -> bool {
    &&& p.key == key
    &&& entry.get("resolved"@) == Some(JsonView::Str(p.resolved))
    &&& match entry.get("version"@) {
        Some(JsonView::Str(version)) => p.version == version,
        _ => p.version.len() == 0,
    }
    &&& match entry.get("integrity"@) {
        Some(JsonView::Str(digest)) => p.integrity == Some(digest),
        _ => p.integrity == Some(Seq::<char>::empty()),
    }
}

proof fn lemma_allows(entry: JsonView, key: Seq<char>, word: Seq<char>)
    ensures
        allows(crate::package_json::lock::text_list(entry, key), word) == lets_through(
            entry,
            key,
            word,
        ),
{
    if let Some(JsonView::Array(items)) = entry.get(key) {
        let texts = texts_of(items);
        assert forall|i: int| 0 <= i < items.len() && (#[trigger] items[i]) is Str implies exists|
            j: int,
        |
            0 <= j < texts.len() && #[trigger] texts[j] == items[i]->Str_0 by {
            lemma_text_listed(items, i);
        }
        assert forall|j: int| 0 <= j < texts.len() implies exists|i: int|
            0 <= i < items.len() && #[trigger] items[i] == JsonView::Str(#[trigger] texts[j]) by {
            lemma_listed_text(items, j);
        }
        let c = texts;
        if allows(c, word) {
            assert forall|i: int| 0 <= i < items.len() implies #[trigger] items[i]
                != JsonView::Str("!"@ + word) by {
                if items[i] == JsonView::Str("!"@ + word) {
                    let j = choose|j: int|
                        0 <= j < texts.len() && #[trigger] texts[j] == items[i]->Str_0;
                    assert(c[j] != "!"@ + word);
                }
            }
            if exists|i: int|
                0 <= i < items.len() && (#[trigger] items[i]) is Str && !"!"@.is_prefix_of(
                    items[i]->Str_0,
                ) {
                let i = choose|i: int|
                    0 <= i < items.len() && (#[trigger] items[i]) is Str && !"!"@.is_prefix_of(
                        items[i]->Str_0,
                    );
                let j = choose|j: int|
                    0 <= j < texts.len() && #[trigger] texts[j] == items[i]->Str_0;
                assert(!"!"@.is_prefix_of(c[j]));
                let k = choose|k: int|
                    0 <= k < c.len() && !"!"@.is_prefix_of(c[k]) && #[trigger] c[k] == word;
                assert(texts[k] == word);
            }
        }
        if lets_through(entry, key, word) {
            assert forall|j: int| 0 <= j < c.len() implies #[trigger] c[j] != "!"@ + word by {
                let i = choose|i: int|
                    0 <= i < items.len() && #[trigger] items[i] == JsonView::Str(texts[j]);
                assert(items[i] != JsonView::Str("!"@ + word));
            }
            if exists|j: int| 0 <= j < c.len() && !"!"@.is_prefix_of(#[trigger] c[j]) {
                let j = choose|j: int| 0 <= j < c.len() && !"!"@.is_prefix_of(#[trigger] c[j]);
                let i = choose|i: int|
                    0 <= i < items.len() && #[trigger] items[i] == JsonView::Str(texts[j]);
                assert(items[i] is Str);
                let n = choose|n: int|
                    0 <= n < items.len() && #[trigger] items[n] == JsonView::Str(word)
                        && !"!"@.is_prefix_of(word);
                assert(items[n] is Str);
                let m = choose|m: int|
                    0 <= m < texts.len() && #[trigger] texts[m] == items[n]->Str_0;
                assert(c[m] == word);
            }
        }
    }
}

proof fn lemma_text_listed(items: Seq<JsonView>, i: int) -> (j: int)
    requires
        0 <= i < items.len(),
        items[i] is Str,
    ensures
        0 <= j < texts_of(items).len(),
        texts_of(items)[j] == items[i]->Str_0,
    decreases items.len(),
{
    reveal(Seq::filter_map);
    if i < items.len() - 1 {
        lemma_text_listed(items.drop_last(), i)
    } else {
        texts_of(items).len() - 1
    }
}

proof fn lemma_listed_text(items: Seq<JsonView>, j: int) -> (i: int)
    requires
        0 <= j < texts_of(items).len(),
    ensures
        0 <= i < items.len(),
        items[i] == JsonView::Str(texts_of(items)[j]),
    decreases items.len(),
{
    reveal(Seq::filter_map);
    if items.len() == 0 {
        0
    } else if j < texts_of(items.drop_last()).len() {
        lemma_listed_text(items.drop_last(), j)
    } else {
        items.len() - 1
    }
}

/// All that a lockfile wants on a host is planned, packages below other packages too: each entry
/// that is to be installed has a package in the plan, which goes to just its key.
pub proof fn the_whole_lock_is_planned(
    doc: JsonView,
    host_os: Seq<char>,
    host_arch: Seq<char>,
    os: Seq<char>,
    cpu: Seq<char>,
    packages: Seq<(Seq<char>, JsonView)>,
    i: int,
)
    requires
        planned_tree(doc, host_os, host_arch) is Ok,
        is_os_word(host_os, os),
        is_cpu_word(host_arch, cpu),
        doc.get("packages"@) == Some(JsonView::Object(packages)),
        0 <= i < packages.len(),
        is_wanted(packages[i].0, packages[i].1, os, cpu),
    ensures
        exists|k: int|
            0 <= k < planned_tree(doc, host_os, host_arch)->Ok_0.len() && is_as_locked(
                #[trigger] planned_tree(doc, host_os, host_arch)->Ok_0[k],
                packages[i].0,
                packages[i].1,
            ),
{
    lemma_host_words();
    reveal_strlit("");
    let (key, entry) = packages[i];
    lemma_allows(entry, "os"@, os);
    lemma_allows(entry, "cpu"@, cpu);
    let f = planned_member(host_os, host_arch);
    let found = packages.filter_map(f);
    let plan = planned_tree(doc, host_os, host_arch)->Ok_0;
    assert(f(packages[i]) is Some);
    let p = f(packages[i])->Some_0;
    lemma_mapped(packages, f, i);
    sorting_is_stable::<PlannedPackage>(found);
    lemma_same_values(found, plan, p);
    let k = choose|k: int| 0 <= k < plan.len() && plan[k] == p;
    assert(p.version =~= p.version);
    assert(is_as_locked(plan[k], key, entry)) by {
        assert(""@ =~= Seq::<char>::empty());
    }
}

proof fn lemma_host_words()
    ensures
        "macos"@ != "windows"@,
        "x86_64"@ != "aarch64"@,
        "x86_64"@ != "x86"@,
        "aarch64"@ != "x86"@,
{
    reveal_strlit("macos");
    reveal_strlit("windows");
    reveal_strlit("x86_64");
    reveal_strlit("aarch64");
    reveal_strlit("x86");
    assert("macos"@.len() != "windows"@.len());
    assert("x86_64"@.len() != "aarch64"@.len());
    assert("x86_64"@.len() != "x86"@.len());
    assert("aarch64"@.len() != "x86"@.len());
}

/// Nothing is planned but what a lockfile wants on a host: each package of the plan is for an
/// entry that is to be installed.
pub proof fn only_the_lock_is_planned(
    doc: JsonView,
    host_os: Seq<char>,
    host_arch: Seq<char>,
    os: Seq<char>,
    cpu: Seq<char>,
    packages: Seq<(Seq<char>, JsonView)>,
    k: int,
)
    requires
        planned_tree(doc, host_os, host_arch) is Ok,
        is_os_word(host_os, os),
        is_cpu_word(host_arch, cpu),
        doc.get("packages"@) == Some(JsonView::Object(packages)),
        0 <= k < planned_tree(doc, host_os, host_arch)->Ok_0.len(),
    ensures
        exists|i: int|
            0 <= i < packages.len() && is_wanted(
                (#[trigger] packages[i]).0,
                packages[i].1,
                os,
                cpu,
            ) && is_as_locked(
                planned_tree(doc, host_os, host_arch)->Ok_0[k],
                packages[i].0,
                packages[i].1,
            ),
{
    lemma_host_words();
    reveal_strlit("");
    let f = planned_member(host_os, host_arch);
    let found = packages.filter_map(f);
    let plan = planned_tree(doc, host_os, host_arch)->Ok_0;
    sorting_is_stable::<PlannedPackage>(found);
    assert(plan.contains(plan[k]));
    lemma_same_values(plan, found, plan[k]);
    packages.lemma_filter_map_contains(f, plan[k]);
    let m = choose|m: (Seq<char>, JsonView)| packages.contains(m) && f(m) == Some(plan[k]);
    let i = choose|i: int| 0 <= i < packages.len() && packages[i] == m;
    lemma_allows(m.1, "os"@, os);
    lemma_allows(m.1, "cpu"@, cpu);
    assert(is_as_locked(plan[k], packages[i].0, packages[i].1)) by {
        assert(""@ =~= Seq::<char>::empty());
    }
    assert(is_wanted(packages[i].0, packages[i].1, os, cpu));
}

/// A lockfile is planned just where its version is 2 or more, it has a map of packages, and no
/// key of it under `node_modules/` leads out of the project.
pub proof fn sound_locks_are_planned(doc: JsonView, host_os: Seq<char>, host_arch: Seq<char>)
    ensures
        planned_tree(doc, host_os, host_arch) is Ok <==> (doc.get("lockfileVersion"@) matches Some(
            JsonView::Number(NumberView::Unsigned(n)),
        ) && n >= 2) && (doc.get("packages"@) matches Some(JsonView::Object(packages)) && forall|
            i: int,
        |
            0 <= i < packages.len() && "node_modules/"@.is_prefix_of((#[trigger] packages[i]).0)
                ==> is_within(packages[i].0)),
        lockfile_of(doc) is Ok <==> (doc.get("lockfileVersion"@) matches Some(
            JsonView::Number(NumberView::Unsigned(n)),
        ) && n >= 2) && doc.get("packages"@) matches Some(JsonView::Object(_)),
{
    if let Some(JsonView::Object(packages)) = doc.get("packages"@) {
        lemma_first_escape(packages);
    }
}

proof fn lemma_first_escape(packages: Seq<(Seq<char>, JsonView)>)
    ensures
        first_escape(packages) is None <==> forall|i: int|
            0 <= i < packages.len() && "node_modules/"@.is_prefix_of((#[trigger] packages[i]).0)
                ==> is_within(packages[i].0),
    decreases packages.len(),
{
    if packages.len() > 0 {
        let rest = packages.drop_first();
        lemma_first_escape(rest);
        if first_escape(packages) is None {
            assert forall|i: int|
                0 <= i < packages.len() && "node_modules/"@.is_prefix_of(
                    (#[trigger] packages[i]).0,
                ) implies is_within(packages[i].0) by {
                if i > 0 {
                    assert(rest[i - 1] == packages[i]);
                }
            }
        } else if first_escape(rest) is Some {
            let i = choose|i: int|
                0 <= i < rest.len() && "node_modules/"@.is_prefix_of((#[trigger] rest[i]).0)
                    && !is_within(rest[i].0);
            assert(packages[i + 1] == rest[i]);
        } else {
            assert(packages[0] == packages[0]);
        }
    }
}

/// The name of a package is what stands in its key behind the last `node_modules/`.
pub proof fn names_stand_behind_the_last_directory(
    parents: Seq<char>,
    name: Seq<char>,
    entry: JsonView,
)
    requires
        forall|at: int| 0 <= at ==> !occurs_at(name, "node_modules/"@, at),
        forall|at: int|
            0 < at && at + "node_modules/"@.len() <= ("node_modules/"@ + name).len() ==> !(
            #[trigger] occurs_at("node_modules/"@ + name, "node_modules/"@, at)),
    ensures
        locked(parents + "node_modules/"@ + name, entry).name == name,
        locked(parents + "node_modules/"@ + name, entry).key == parents + "node_modules/"@ + name,
{
    let dir = "node_modules/"@;
    let key = parents + dir + name;
    let n = parents.len() as int;
    crate::text::lemma_rfind_from(key, dir, key.len() - dir.len());
    assert(key.subrange(n, n + dir.len()) =~= dir);
    assert(occurs_at(key, dir, n));
    let at = rfind(key, dir)->Some_0;
    if at > n {
        assert(key.subrange(at, at + dir.len()) =~= (dir + name).subrange(
            at - n,
            at - n + dir.len(),
        ));
        assert(occurs_at(dir + name, dir, at - n));
    }
    assert(key.skip(n + dir.len()) =~= name);
}

/// Whether an entry that was read says what stands in the document.
pub open spec fn is_entry(p: LockedView, key: Seq<char>, entry: JsonView) -> bool {
    &&& p.key == key
    &&& match entry.get("version"@) {
        Some(JsonView::Str(version)) => p.version == version,
        _ => p.version.len() == 0,
    }
    &&& match entry.get("resolved"@) {
        Some(JsonView::Str(source)) => p.resolved == Some(source),
        _ => p.resolved is None,
    }
    &&& match entry.get("integrity"@) {
        Some(JsonView::Str(digest)) => p.integrity == Some(digest),
        _ => p.integrity is None,
    }
    &&& p.license == license_in(entry)
    &&& p.dev == (entry.get("dev"@) == Some(JsonView::Bool(true)))
    &&& p.optional == (entry.get("optional"@) == Some(JsonView::Bool(true)))
    &&& p.dev_optional == (entry.get("devOptional"@) == Some(JsonView::Bool(true)))
    &&& p.link == (entry.get("link"@) == Some(JsonView::Bool(true)))
    &&& match entry.get("bin"@) {
        Some(JsonView::Str(path)) => p.bin.len() == 1 && p.bin[0].1 == path && p.bin[0].0
            == last_piece(p.name, "/"@),
        Some(JsonView::Object(members)) => p.bin == text_members_of(members),
        _ => p.bin.len() == 0,
    }
}

/// Whether an entry that was read is that of an object of the map.
pub open spec fn stands_in(packages: Seq<(Seq<char>, JsonView)>, p: LockedView) -> bool {
    exists|i: int|
        0 <= i < packages.len() && (#[trigger] packages[i]).1 is Object && is_entry(
            p,
            packages[i].0,
            packages[i].1,
        )
}

/// A lockfile that was read holds an entry for each object of its map and no other, by their keys,
/// and each says what stands in the document.
pub proof fn a_lock_holds_its_entries(doc: JsonView, packages: Seq<(Seq<char>, JsonView)>)
    requires
        lockfile_of(doc) is Ok,
        doc.get("packages"@) == Some(JsonView::Object(packages)),
    ensures
        ({
            let entries = lockfile_of(doc)->Ok_0.packages;
            &&& forall|i: int|
                0 <= i < packages.len() && (#[trigger] packages[i]).1 is Object ==> exists|k: int|
                    0 <= k < entries.len() && is_entry(
                        #[trigger] entries[k],
                        packages[i].0,
                        packages[i].1,
                    )
            &&& forall|k: int|
                0 <= k < entries.len() ==> stands_in(packages, #[trigger] entries[k])
            &&& entries.len() == packages.filter(
                |m: (Seq<char>, JsonView)| m.1 is Object,
            ).len()
            &&& forall|i: int, j: int|
                0 <= i <= j < entries.len() ==> text_leq(
                    (#[trigger] entries[i]).key,
                    (#[trigger] entries[j]).key,
                )
        }),
{
    let f = locked_member();
    let found = packages.filter_map(f);
    let entries = lockfile_of(doc)->Ok_0.packages;
    sorting_is_stable::<LockedPackage>(found);
    lemma_count_objects(packages);
    assert forall|m: (Seq<char>, JsonView)| m.1 is Object implies is_entry(
        #[trigger] locked(m.0, m.1),
        m.0,
        m.1,
    ) by {
        lemma_entry(m.0, m.1);
    }
    assert forall|i: int| 0 <= i < packages.len() && (#[trigger] packages[i]).1 is Object implies exists|
        k: int,
    |
        0 <= k < entries.len() && is_entry(
            #[trigger] entries[k],
            packages[i].0,
            packages[i].1,
        ) by {
        lemma_mapped(packages, f, i);
        let p = locked(packages[i].0, packages[i].1);
        lemma_same_values(found, entries, p);
        let k = choose|k: int| 0 <= k < entries.len() && entries[k] == p;
        assert(is_entry(entries[k], packages[i].0, packages[i].1));
    }
    assert forall|k: int| 0 <= k < entries.len() implies stands_in(
        packages,
        #[trigger] entries[k],
    ) by {
        assert(entries.contains(entries[k]));
        lemma_same_values(entries, found, entries[k]);
        packages.lemma_filter_map_contains(f, entries[k]);
        let m = choose|m: (Seq<char>, JsonView)|
            packages.contains(m) && f(m) == Some(entries[k]);
        let i = choose|i: int| 0 <= i < packages.len() && packages[i] == m;
        assert(packages[i].1 is Object);
    }
    assert forall|i: int, j: int| 0 <= i <= j < entries.len() implies text_leq(
        (#[trigger] entries[i]).key,
        (#[trigger] entries[j]).key,
    ) by {
        assert(<LockedPackage as crate::sort::Sortable>::leq(entries[i], entries[j]));
    }
}

proof fn lemma_entry(key: Seq<char>, entry: JsonView)
    ensures
        is_entry(locked(key, entry), key, entry),
{
    reveal_strlit("");
    assert(""@ =~= Seq::<char>::empty());
}

proof fn lemma_count_objects(packages: Seq<(Seq<char>, JsonView)>)
    ensures
        packages.filter_map(locked_member()).len() == packages.filter(
            |m: (Seq<char>, JsonView)| m.1 is Object,
        ).len(),
    decreases packages.len(),
{
    reveal(Seq::filter);
    reveal(Seq::filter_map);
    if packages.len() > 0 {
        lemma_count_objects(packages.drop_last());
    }
}

/// Of the entries of a lockfile those are installed on a host, and all of those, that stand under
/// `node_modules/`, are no links, and whose constraints let the host through.
pub proof fn installs_are_what_the_host_may_have(
    p: LockedView,
    host_os: Seq<char>,
    host_arch: Seq<char>,
    os: Seq<char>,
    cpu: Seq<char>,
    key: Seq<char>,
    entry: JsonView,
)
    requires
        p == locked(key, entry),
        is_os_word(host_os, os),
        is_cpu_word(host_arch, cpu),
    ensures
        installs_on(host_os, host_arch)(p) <==> ("node_modules/"@.is_prefix_of(key) && entry.get(
            "link"@,
        ) != Some(JsonView::Bool(true)) && lets_through(entry, "os"@, os) && lets_through(
            entry,
            "cpu"@,
            cpu,
        )),
{
    lemma_host_words();
    lemma_allows(entry, "os"@, os);
    lemma_allows(entry, "cpu"@, cpu);
}

/// A manifest asks for each text member of its dependencies, in their order, under just that name,
/// and for what the text asks.
pub proof fn a_manifest_asks_for_each_dependency(
    doc: JsonView,
    members: Seq<(Seq<char>, JsonView)>,
)
    requires
        requirements_of_manifest(doc) is Ok,
        doc.get("dependencies"@) == Some(JsonView::Object(members)),
    ensures
        ({
            let kept = members.filter(|m: (Seq<char>, JsonView)| m.1 is Str);
            let asked = requirements_of_manifest(doc)->Ok_0;
            &&& asked.len() == kept.len()
            &&& forall|j: int|
                0 <= j < kept.len() ==> (#[trigger] asked[j]).0 == kept[j].0 && req_of(
                    kept[j].1->Str_0,
                ) == Ok::<Seq<char>, Seq<char>>(asked[j].1)
        }),
{
    crate::laws::json::each_text_member_is_listed(members);
    lemma_asked(text_members_of(members));
}

proof fn lemma_asked(deps: Seq<(Seq<char>, Seq<char>)>)
    ensures
        match requirements_in(deps) {
            Ok(asked) => asked.len() == deps.len() && forall|j: int|
                0 <= j < deps.len() ==> (#[trigger] asked[j]).0 == deps[j].0 && req_of(deps[j].1)
                    == Ok::<Seq<char>, Seq<char>>(asked[j].1),
            Err(e) => e matches InstallErrorView::Requirement { name, spec, problem }
                && deps.contains((name, spec)) && req_of(spec) == Err::<Seq<char>, Seq<char>>(
                problem,
            ),
        },
    decreases deps.len(),
{
    if deps.len() > 0 {
        let front = deps.drop_last();
        lemma_asked(front);
        if let Err(InstallErrorView::Requirement { name, spec, problem }) = requirements_in(front) {
            let k = choose|k: int| 0 <= k < front.len() && front[k] == (name, spec);
            assert(deps[k] == (name, spec));
        } else {
            assert(deps[deps.len() - 1] == deps.last());
        }
    }
}

/// What keeps a manifest from being read as requirements is so: overrides that it has,
/// dependencies that it lacks, or a dependency of it that asks for nothing that can be resolved.
pub proof fn a_manifest_fails_for_a_reason(doc: JsonView)
    requires
        requirements_of_manifest(doc) is Err,
    ensures
        match requirements_of_manifest(doc)->Err_0 {
            InstallErrorView::Overrides => doc.get("overrides"@) matches Some(
                JsonView::Object(members),
            ) && members.len() > 0,
            InstallErrorView::NoDependencies => !(doc.get("dependencies"@) matches Some(
                JsonView::Object(_),
            )),
            InstallErrorView::Requirement { name, spec, problem } => req_of(spec) == Err::<
                Seq<char>,
                Seq<char>,
            >(problem) && (doc.get("dependencies"@) matches Some(JsonView::Object(members))
                && exists|j: int|
                0 <= j < members.len() && (#[trigger] members[j]) == (name, JsonView::Str(spec))),
            _ => false,
        },
{
    if let Some(JsonView::Object(members)) = doc.get("dependencies"@) {
        let deps = text_members_of(members);
        lemma_asked(deps);
        if let Err(InstallErrorView::Requirement { name, spec, problem }) = requirements_of_manifest(
            doc,
        ) {
            let f = crate::json::text_member();
            members.lemma_filter_map_contains(f, (name, spec));
            let m = choose|m: (Seq<char>, JsonView)|
                members.contains(m) && f(m) == Some((name, spec));
            let j = choose|j: int| 0 <= j < members.len() && members[j] == m;
            assert(members[j] == (name, JsonView::Str(spec)));
        }
    }
}

/// What is reported as installed is the plan: each package with its name, the version that its
/// text reads as, its source and its integrity, in the order of the plan.
pub proof fn the_plan_is_reported(plan: Seq<PlannedView>)
    ensures
        match installed(plan) {
            Ok(set) => set.len() == plan.len() && forall|i: int|
                0 <= i < plan.len() ==> (#[trigger] set[i]).name == plan[i].name
                    && semver_version(plan[i].version) == Ok::<_, Seq<char>>(set[i].version)
                    && set[i].tarball_url == plan[i].resolved && set[i].integrity
                    == plan[i].integrity,
            Err(e) => exists|i: int|
                0 <= i < plan.len() && semver_version((#[trigger] plan[i]).version) is Err && (
                e matches InstallErrorView::Version { name, version, .. } && name == plan[i].name
                    && version == plan[i].version),
        },
    decreases plan.len(),
{
    if plan.len() > 0 {
        let front = plan.drop_last();
        the_plan_is_reported(front);
        if let Err(e) = installed(front) {
            let i = choose|i: int|
                0 <= i < front.len() && semver_version((#[trigger] front[i]).version) is Err && (
                e matches InstallErrorView::Version { name, version, .. } && name == front[i].name
                    && version == front[i].version);
            assert(plan[i] == front[i]);
        } else {
            assert(plan[plan.len() - 1] == plan.last());
        }
    }
}

/// What is planned for an entry of a lockfile that was read is what the entry says, where its source
/// is on the web; nothing is planned for any other.
pub proof fn an_entry_is_planned_as_it_is(p: LockedView)
    ensures
        match p.resolved {
            Some(url) => if "https://"@.is_prefix_of(url) || "http://"@.is_prefix_of(url) {
                planned_entry()(p) matches Some(plan) && plan.key == p.key && plan.name == p.name
                    && plan.version == p.version && plan.resolved == url && plan.integrity
                    == p.integrity && plan.bin == p.bin
            } else {
                planned_entry()(p) is None
            },
            None => planned_entry()(p) is None,
        },
{
}

/// Links are made unless a path leads out of `node_modules/`, and that path is then named.
pub proof fn links_fail_for_a_reason(bins: Seq<(Seq<char>, Seq<char>)>)
    ensures
        (forall|i: int| 0 <= i < bins.len() ==> is_within((#[trigger] bins[i]).1)) ==> link_plan(
            bins,
        ).failure is None,
        link_plan(bins).failure matches Some(e) ==> exists|i: int|
            0 <= i < bins.len() && !is_within((#[trigger] bins[i]).1) && e == PathErrorView::Escapes(
                bins[i].1,
            ),
        forall|k: int|
            0 <= k < link_plan(bins).links.len() ==> bins.contains(
                #[trigger] link_plan(bins).links[k],
            ),
    decreases bins.len(),
{
    if bins.len() > 0 {
        let front = bins.drop_last();
        let n = bins.len() - 1;
        links_fail_for_a_reason(front);
        let before = link_plan(front);
        let after = link_plan(bins);
        if forall|i: int| 0 <= i < bins.len() ==> is_within((#[trigger] bins[i]).1) {
            assert forall|i: int| 0 <= i < front.len() implies is_within(
                (#[trigger] front[i]).1,
            ) by {
                assert(front[i] == bins[i]);
            }
            assert(is_within(bins[n].1));
        }
        if let Some(e) = before.failure {
            let i = choose|i: int|
                0 <= i < front.len() && !is_within((#[trigger] front[i]).1) && e
                    == PathErrorView::Escapes(front[i].1);
            assert(bins[i] == front[i]);
        } else if after.failure is Some {
            assert(bins[n] == bins.last());
        }
        assert forall|k: int| 0 <= k < after.links.len() implies bins.contains(
            #[trigger] after.links[k],
        ) by {
            if k < before.links.len() {
                assert(after.links[k] == before.links[k]);
                let j = choose|j: int| 0 <= j < front.len() && front[j] == before.links[k];
                assert(bins[j] == after.links[k]);
            } else {
                assert(bins[n] == after.links[k]);
            }
        }
    }
}

} // verus!
