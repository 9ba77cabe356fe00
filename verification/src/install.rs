//! What an install consists of: which packages of a lockfile or a manifest are wanted, where
//! each is put, what is extracted of its tarball, and which executables are linked.
//!
//! The downloads and the writing are the caller's. Nothing is extracted of a tarball whose
//! integrity has not been checked, and no path leads out of the directory that is installed to.

pub mod run;

use crate::cache::marker_matches;
use crate::extract::{
    action_path, are_chosen, asked_path, failed_plan, is_tar_plan, plan_of, plans_are_contained,
    tar_entries_of, tar_gz, untarred_all, ListedView, Plan, PlanView, Select,
};
use crate::integrity::{
    base64_reading, checked, integrity_error_text, pinned_digest, sha512_of, verify, IntegrityError,
    IntegrityErrorView,
};
use crate::json::{json_reading, text_members, text_members_of, Json, JsonView};
use crate::package_json::lock::{
    installs_on, lock_error_text, lock_version, locked, platform_allows, text_or_empty, LockError,
    LockErrorView, LockedPackage, LockedView, Lockfile,
};
use crate::package_json::spec::{req_of, version_req};
use crate::path_safety::{
    ensure_within, is_within, path_error_text, path_under, safe_join, PathError, PathErrorView,
};
use crate::registry::{Resolved, ResolvedView};
use crate::sort::{lemma_same_values, sort_stable, sorting_is_stable, stable_sort, Sortable};
use crate::text::{
    at_most, contains, copy_opt, cut_at_first, holds, join, join_texts, joined, joined3, quote,
    quoted, same, split_once, starts_with, strip_prefix, stripped, text_leq, trimmed,
};
use crate::version::{semver_version, version_text, Version, VersionReq};
use vstd::prelude::*;
use vstd::string::*;

verus! {

/// Why nothing is installed.
#[derive(Debug, PartialEq, Eq)]
pub enum InstallError {
    /// A document is no JSON; the message is the reader's.
    Json(String),
    /// A document is no lockfile.
    Lock(LockError),
    /// A path would lead out of its directory.
    Path(PathError),
    /// A manifest overrides what its dependencies depend on, which is not supported.
    Overrides,
    /// A manifest has no dependencies.
    NoDependencies,
    /// A dependency of a manifest asks for what cannot be resolved.
    Requirement { name: String, spec: String, problem: String },
    /// A package of a lockfile has no version that can be read.
    Version { name: String, version: String, problem: String },
    /// A tarball is not the one that was pinned.
    Integrity(IntegrityError),
}

/// What an [`InstallError`] holds.
#[verifier::ext_equal]
pub enum InstallErrorView {
    Json(Seq<char>),
    Lock(LockErrorView),
    Path(PathErrorView),
    Overrides,
    NoDependencies,
    Requirement { name: Seq<char>, spec: Seq<char>, problem: Seq<char> },
    Version { name: Seq<char>, version: Seq<char>, problem: Seq<char> },
    Integrity(IntegrityErrorView),
}

impl DeepView for InstallError {
    type V = InstallErrorView;

    open spec fn deep_view(&self) -> InstallErrorView {
        match *self {
            InstallError::Json(m) => InstallErrorView::Json(m@),
            InstallError::Lock(e) => InstallErrorView::Lock(e.deep_view()),
            InstallError::Path(e) => InstallErrorView::Path(e.deep_view()),
            InstallError::Overrides => InstallErrorView::Overrides,
            InstallError::NoDependencies => InstallErrorView::NoDependencies,
            InstallError::Requirement { name, spec, problem } => InstallErrorView::Requirement {
                name: name@,
                spec: spec@,
                problem: problem@,
            },
            InstallError::Version { name, version, problem } => InstallErrorView::Version {
                name: name@,
                version: version@,
                problem: problem@,
            },
            InstallError::Integrity(e) => InstallErrorView::Integrity(e.deep_view()),
        }
    }
}

/// What is said of an install that does not come about.
pub open spec fn install_error_text(e: InstallErrorView) -> Seq<char> {
    match e {
        InstallErrorView::Json(message) => message,
        InstallErrorView::Lock(e) => lock_error_text(e),
        InstallErrorView::Path(e) => path_error_text(e),
        InstallErrorView::Overrides => "`overrides` in package.json is not supported"@,
        InstallErrorView::NoDependencies => "no dependencies section in package.json"@,
        InstallErrorView::Requirement { name, spec, problem } => "dependency `"@ + name
            + "`: unsupported version "@ + quoted(spec) + ": "@ + problem,
        InstallErrorView::Version { name, version, problem } => "package `"@ + name
            + "`: invalid version "@ + quoted(version) + ": "@ + problem,
        InstallErrorView::Integrity(e) => integrity_error_text(e),
    }
}

impl InstallError {
    /// What is said of the error.
    pub fn message(&self) -> (r: String)
        ensures
            r@ == install_error_text(self.deep_view()),
    {
        match self {
            InstallError::Json(message) => message.clone(),
            InstallError::Lock(e) => e.message(),
            InstallError::Path(e) => e.message(),
            InstallError::Overrides => "`overrides` in package.json is not supported".to_owned(),
            InstallError::NoDependencies => "no dependencies section in package.json".to_owned(),
            InstallError::Requirement { name, spec, problem } => {
                let mut out = joined3("dependency `", name.as_str(), "`: unsupported version ");
                out.append(quote(spec.as_str()).as_str());
                out.append(": ");
                out.append(problem.as_str());
                out
            },
            InstallError::Version { name, version, problem } => {
                let mut out = joined3("package `", name.as_str(), "`: invalid version ");
                out.append(quote(version.as_str()).as_str());
                out.append(": ");
                out.append(problem.as_str());
                out
            },
            InstallError::Integrity(e) => e.message(),
        }
    }
}

/// A path without its first segment, where something is left of it.
pub open spec fn without_top(rel: Seq<char>) -> Option<Seq<char>> {
    match cut_at_first(rel, "/"@) {
        Some((_, rest)) => if rest.len() > 0 {
            Some(rest)
        } else {
            None
        },
        None => None,
    }
}

/// The path of a tarball's entry without its first segment, whatever that is named. What has
/// no second segment is left out.
pub fn strip_top_dir(rel: &str) -> (r: Option<String>)
    ensures
        r.deep_view() == without_top(rel@),
{
    match split_once(rel, "/") {
        Some((_, rest)) => if rest.unicode_len() > 0 {
            Some(rest)
        } else {
            None
        },
        None => None,
    }
}

/// The directory of a package, with or without a scope, unless its name could lead out of
/// `node_modules`.
pub fn package_dir(node_modules: &str, name: &str) -> (r: Result<String, PathError>)
    ensures
        match r {
            Ok(path) => is_within(name@) && path@ == path_under(node_modules@, name@),
            Err(e) => !is_within(name@) && e.deep_view() == PathErrorView::Escapes(name@),
        },
{
    safe_join(node_modules, name)
}

/// A package that is to be installed.
#[derive(Debug, Clone, PartialEq, Eq)]
pub struct PlannedPackage {
    /// The path to install to, under the project's directory.
    pub key: String,
    /// The package name: what stands behind the last `node_modules/` of the key.
    pub name: String,
    /// The version as it is written; empty where none is.
    pub version: String,
    /// The URL of the tarball.
    pub resolved: String,
    /// What the tarball is checked against.
    pub integrity: Option<String>,
    /// The executables: names with paths within the package.
    pub bin: Vec<(String, String)>,
}

/// What a [`PlannedPackage`] holds.
#[verifier::ext_equal]
pub struct PlannedView {
    pub key: Seq<char>,
    pub name: Seq<char>,
    pub version: Seq<char>,
    pub resolved: Seq<char>,
    pub integrity: Option<Seq<char>>,
    pub bin: Seq<(Seq<char>, Seq<char>)>,
}

impl DeepView for PlannedPackage {
    type V = PlannedView;

    open spec fn deep_view(&self) -> PlannedView {
        PlannedView {
            key: self.key@,
            name: self.name@,
            version: self.version@,
            resolved: self.resolved@,
            integrity: self.integrity.deep_view(),
            bin: self.bin.deep_view(),
        }
    }
}

impl Sortable for PlannedPackage {
    open spec fn leq(a: PlannedView, b: PlannedView) -> bool {
        text_leq(a.key, b.key)
    }

    proof fn leq_total(a: PlannedView, b: PlannedView) {
        crate::text::lemma_text_total(a.key, b.key);
    }

    proof fn leq_transitive(a: PlannedView, b: PlannedView, c: PlannedView) {
        crate::text::lemma_text_transitive(a.key, b.key, c.key);
    }

    fn may_precede(&self, other: &PlannedPackage) -> (r: bool) {
        at_most(self.key.as_str(), other.key.as_str())
    }
}

impl PlannedPackage {
    /// The directory of the package under `project_root`, unless the key could lead out of it.
    pub fn install_dir(&self, project_root: &str) -> (r: Result<String, PathError>)
        ensures
            match r {
                Ok(path) => is_within(self.deep_view().key) && path@ == path_under(
                    project_root@,
                    self.deep_view().key,
                ),
                Err(e) => !is_within(self.deep_view().key) && e.deep_view()
                    == PathErrorView::Escapes(self.deep_view().key),
            },
    {
        safe_join(project_root, self.key.as_str())
    }
}

/// Whether a source is an http or https URL.
pub open spec fn is_web_url(source: Option<Seq<char>>) -> bool {
    match source {
        Some(url) => "https://"@.is_prefix_of(url) || "http://"@.is_prefix_of(url),
        None => false,
    }
}

/// What is to be installed for an entry of a lockfile.
pub open spec fn planned(p: LockedView) -> PlannedView {
    PlannedView {
        key: p.key,
        name: p.name,
        version: p.version,
        resolved: match p.resolved {
            Some(url) => url,
            None => ""@,
        },
        integrity: p.integrity,
        bin: p.bin,
    }
}

/// What is to be installed for an entry of a lockfile, where its source is a tarball on the
/// web.
pub open spec fn planned_entry() -> spec_fn(LockedView) -> Option<PlannedView> {
    |p: LockedView|
        if is_web_url(p.resolved) {
            Some(planned(p))
        } else {
            None
        }
}

/// Copies pairs of texts.
fn copy_pairs(pairs: &Vec<(String, String)>) -> (r: Vec<(String, String)>)
    ensures
        r.deep_view() == pairs.deep_view(),
{
    let mut out: Vec<(String, String)> = Vec::new();
    let mut i: usize = 0;
    while i < pairs.len()
        invariant
            i <= pairs@.len(),
            out.deep_view() == pairs.deep_view().take(i as int),
        decreases pairs@.len() - i,
    {
        let ghost done = out.deep_view();
        out.push((pairs[i].0.clone(), pairs[i].1.clone()));
        assert(out.deep_view() =~= done.push(pairs.deep_view()[i as int]));
        assert(pairs.deep_view().take(i + 1) =~= done.push(pairs.deep_view()[i as int]));
        i += 1;
    }
    assert(pairs.deep_view().take(pairs@.len() as int) =~= pairs.deep_view());
    out
}

/// What is to be installed for an entry of a lockfile.
fn plan_package(p: &LockedPackage) -> (r: PlannedPackage)
    ensures
        r.deep_view() == planned(p.deep_view()),
{
    PlannedPackage {
        key: p.key.clone(),
        name: p.name.clone(),
        version: p.version.clone(),
        resolved: match &p.resolved {
            Some(url) => url.clone(),
            None => "".to_owned(),
        },
        integrity: copy_opt(&p.integrity),
        bin: copy_pairs(&p.bin),
    }
}

/// What is to be installed of a lockfile on the host: the packages that it lets the host have
/// and whose sources are tarballs on the web, by their keys.
pub fn plan_lockfile(lock: &Lockfile, host_os: &str, host_arch: &str) -> (r: Vec<PlannedPackage>)
    ensures
        r.deep_view() == lock.deep_view().packages.filter(
            installs_on(host_os@, host_arch@),
        ).filter_map(planned_entry()),
{
    let entries = lock.installable(host_os, host_arch);
    let ghost all = entries.deep_view();
    let mut out: Vec<PlannedPackage> = Vec::new();
    let mut i: usize = 0;
    assert(out.deep_view() =~= all.take(0).filter_map(planned_entry())) by {
        reveal(Seq::filter_map);
    }
    while i < entries.len()
        invariant
            i <= entries@.len(),
            all == entries.deep_view(),
            out.deep_view() == all.take(i as int).filter_map(planned_entry()),
        decreases entries@.len() - i,
    {
        let ghost done = out.deep_view();
        proof {
            all.lemma_filter_map_take_succ(planned_entry(), i as int);
            assert(all[i as int] == entries@[i as int].deep_view());
        }
        if entries[i].is_registry_tarball() {
            let p = plan_package(entries[i]);
            let ghost v = p.deep_view();
            out.push(p);
            assert(out.deep_view() =~= done + seq![v]);
        }
        i += 1;
    }
    assert(all.take(all.len() as int) =~= all);
    out
}

/// The first key under `node_modules/` that could lead out of the project's directory.
pub open spec fn first_escape(members: Seq<(Seq<char>, JsonView)>) -> Option<Seq<char>>
    decreases members.len(),
{
    if members.len() == 0 {
        None
    } else if "node_modules/"@.is_prefix_of(members[0].0) && !is_within(members[0].0) {
        Some(members[0].0)
    } else {
        first_escape(members.drop_first())
    }
}

/// What is to be installed for a member of the `packages` map: an entry under `node_modules/`
/// whose source is a tarball on the web and whose constraints let the host through.
pub open spec fn planned_member(host_os: Seq<char>, host_arch: Seq<char>) -> spec_fn(
    (Seq<char>, JsonView),
) -> Option<PlannedView> {
    |m: (Seq<char>, JsonView)|
        {
            let entry = locked(m.0, m.1);
            if "node_modules/"@.is_prefix_of(m.0) && m.1 is Object && is_web_url(entry.resolved)
                && platform_allows(entry, host_os, host_arch) {
                Some(
                    PlannedView {
                        integrity: Some(text_or_empty(m.1, "integrity"@)),
                        ..planned(entry)
                    },
                )
            } else {
                None
            }
        }
}

/// What is to be installed of a lockfile on the host, by their keys.
pub open spec fn planned_tree(doc: JsonView, host_os: Seq<char>, host_arch: Seq<char>) -> Result<
    Seq<PlannedView>,
    InstallErrorView,
> {
    if lock_version(doc) < 2 {
        Err(InstallErrorView::Lock(LockErrorView::Unsupported(lock_version(doc))))
    } else {
        match doc.members("packages"@) {
            None => Err(InstallErrorView::Lock(LockErrorView::NoPackages)),
            Some(packages) => match first_escape(packages) {
                Some(key) => Err(InstallErrorView::Path(PathErrorView::Escapes(key))),
                None => Ok(
                    stable_sort::<PlannedPackage>(
                        packages.filter_map(planned_member(host_os, host_arch)),
                    ),
                ),
            },
        }
    }
}

/// Refuses a map with a key under `node_modules/` that could lead out of the project's
/// directory.
fn check_keys(packages: &Vec<(String, Json)>) -> (r: Result<(), PathError>)
    ensures
        match r {
            Ok(_) => first_escape(packages.deep_view()) is None,
            Err(e) => first_escape(packages.deep_view()) is Some && e.deep_view()
                == PathErrorView::Escapes(first_escape(packages.deep_view())->Some_0),
        },
{
    let ghost all = packages.deep_view();
    let mut i: usize = 0;
    assert(all.skip(0) =~= all);
    while i < packages.len()
        invariant
            i <= packages@.len(),
            all == packages.deep_view(),
            first_escape(all) == first_escape(all.skip(i as int)),
        decreases packages@.len() - i,
    {
        assert(all.skip(i as int).drop_first() =~= all.skip(i + 1));
        assert(all.skip(i as int)[0].0 == packages@[i as int].0@);
        if starts_with(packages[i].0.as_str(), "node_modules/") {
            if let Err(e) = ensure_within(packages[i].0.as_str()) {
                return Err(e);
            }
        }
        i += 1;
    }
    Ok(())
}

/// What is to be installed for a member of the `packages` map.
fn plan_member(key: &str, value: &Json, host_os: &str, host_arch: &str) -> (r: Option<
    PlannedPackage,
>)
    ensures
        r.deep_view() == planned_member(host_os@, host_arch@)((key@, value.deep_view())),
{
    broadcast use {crate::json::lemma_array_view, crate::json::lemma_object_view};

    if !starts_with(key, "node_modules/") {
        return None;
    }
    match value {
        Json::Object(_) => {
            let entry = LockedPackage::from_entry(key, value);
            if !entry.is_registry_tarball() || !entry.matches_platform(host_os, host_arch) {
                return None;
            }
            let mut p = plan_package(&entry);
            p.integrity = match value.text("integrity") {
                Some(s) => Some(s.to_owned()),
                None => Some("".to_owned()),
            };
            Some(p)
        },
        _ => None,
    }
}

/// What is to be installed of a document that is a lockfile, on the host: every entry under
/// `node_modules/` with a tarball on the web that the host may have, by their keys.
pub fn plan_document(doc: &Json, host_os: &str, host_arch: &str) -> (r: Result<
    Vec<PlannedPackage>,
    InstallError,
>)
    ensures
        match r {
            Ok(plan) => planned_tree(doc.deep_view(), host_os@, host_arch@) == Ok::<
                Seq<PlannedView>,
                InstallErrorView,
            >(plan.deep_view()),
            Err(e) => planned_tree(doc.deep_view(), host_os@, host_arch@) == Err::<
                Seq<PlannedView>,
                InstallErrorView,
            >(e.deep_view()),
        },
{
    let version: u64 = match doc.get("lockfileVersion") {
        Some(v) => match v.as_u64() {
            Some(n) => n,
            None => 0,
        },
        None => 0,
    };
    if version < 2 {
        return Err(InstallError::Lock(LockError::Unsupported(version)));
    }
    match doc.members("packages") {
        None => Err(InstallError::Lock(LockError::NoPackages)),
        Some(packages) => {
            if let Err(e) = check_keys(packages) {
                return Err(InstallError::Path(e));
            }
            let ghost all = packages.deep_view();
            let ghost plans = planned_member(host_os@, host_arch@);
            let mut out: Vec<PlannedPackage> = Vec::new();
            let mut i: usize = 0;
            assert(out.deep_view() =~= all.take(0).filter_map(plans)) by {
                reveal(Seq::filter_map);
            }
            while i < packages.len()
                invariant
                    i <= packages@.len(),
                    all == packages.deep_view(),
                    plans == planned_member(host_os@, host_arch@),
                    out.deep_view() == all.take(i as int).filter_map(plans),
                decreases packages@.len() - i,
            {
                let ghost done = out.deep_view();
                proof {
                    all.lemma_filter_map_take_succ(plans, i as int);
                    assert(all[i as int] == (
                        packages@[i as int].0@,
                        packages@[i as int].1.deep_view(),
                    ));
                }
                let p = plan_member(packages[i].0.as_str(), &packages[i].1, host_os, host_arch);
                if let Some(p) = p {
                    let ghost v = p.deep_view();
                    out.push(p);
                    assert(out.deep_view() =~= done + seq![v]);
                }
                i += 1;
            }
            assert(all.take(all.len() as int) =~= all);
            Ok(sort_stable(out))
        },
    }
}

/// What is to be installed of the text of a `package-lock.json`, on the host.
pub fn parse_lockfile(text: &str, host_os: &str, host_arch: &str) -> (r: Result<
    Vec<PlannedPackage>,
    InstallError,
>)
    ensures
        match json_reading(text@) {
            Ok(doc) => match r {
                Ok(plan) => planned_tree(doc, host_os@, host_arch@) == Ok::<
                    Seq<PlannedView>,
                    InstallErrorView,
                >(plan.deep_view()),
                Err(e) => planned_tree(doc, host_os@, host_arch@) == Err::<
                    Seq<PlannedView>,
                    InstallErrorView,
                >(e.deep_view()),
            },
            Err(message) => r is Err && r->Err_0.deep_view() == InstallErrorView::Json(message),
        },
{
    match Json::parse(text) {
        Ok(doc) => plan_document(&doc, host_os, host_arch),
        Err(message) => Err(InstallError::Json(message)),
    }
}

/// What was installed of a lockfile, or the first version among it that cannot be read.
pub open spec fn installed(plan: Seq<PlannedView>) -> Result<Seq<ResolvedView>, InstallErrorView>
    decreases plan.len(),
{
    if plan.len() == 0 {
        Ok(Seq::empty())
    } else {
        match installed(plan.drop_last()) {
            Err(e) => Err(e),
            Ok(done) => {
                let p = plan.last();
                match semver_version(p.version) {
                    Ok(version) => Ok(
                        done.push(
                            ResolvedView {
                                name: p.name,
                                version,
                                tarball_url: p.resolved,
                                integrity: p.integrity,
                                license: None,
                            },
                        ),
                    ),
                    Err(problem) => Err(
                        InstallErrorView::Version { name: p.name, version: p.version, problem },
                    ),
                }
            },
        }
    }
}

/// An error among the first packages is the error of all.
proof fn lemma_installed_fails(plan: Seq<PlannedView>, n: int)
    requires
        0 <= n <= plan.len(),
        installed(plan.take(n)) is Err,
    ensures
        installed(plan) == installed(plan.take(n)),
    decreases plan.len() - n,
{
    if n < plan.len() {
        assert(plan.take(n + 1).drop_last() =~= plan.take(n));
        lemma_installed_fails(plan, n + 1);
    } else {
        assert(plan.take(n) =~= plan);
    }
}

/// What was installed, once all of the plan is in place: each package with its version, in the
/// order of the plan.
pub fn installed_set(plan: &Vec<PlannedPackage>) -> (r: Result<Vec<Resolved>, InstallError>)
    ensures
        match r {
            Ok(set) => installed(plan.deep_view()) == Ok::<Seq<ResolvedView>, InstallErrorView>(
                set.deep_view(),
            ),
            Err(e) => installed(plan.deep_view()) == Err::<Seq<ResolvedView>, InstallErrorView>(
                e.deep_view(),
            ),
        },
{
    let ghost all = plan.deep_view();
    let mut out: Vec<Resolved> = Vec::new();
    let mut i: usize = 0;
    assert(out.deep_view() =~= Seq::<ResolvedView>::empty());
    while i < plan.len()
        invariant
            i <= plan@.len(),
            all == plan.deep_view(),
            installed(all.take(i as int)) == Ok::<Seq<ResolvedView>, InstallErrorView>(
                out.deep_view(),
            ),
        decreases plan@.len() - i,
    {
        let ghost done = out.deep_view();
        let p = &plan[i];
        assert(all.take(i + 1).drop_last() =~= all.take(i as int));
        assert(all[i as int] == p.deep_view());
        match Version::parse(p.version.as_str()) {
            Ok(version) => {
                let resolved = Resolved {
                    name: p.name.clone(),
                    version,
                    tarball_url: p.resolved.clone(),
                    integrity: copy_opt(&p.integrity),
                    license: None,
                };
                let ghost v = resolved.deep_view();
                out.push(resolved);
                assert(out.deep_view() =~= done.push(v));
            },
            Err(problem) => {
                proof {
                    lemma_installed_fails(all, i + 1);
                }
                return Err(
                    InstallError::Version {
                        name: p.name.clone(),
                        version: p.version.clone(),
                        problem,
                    },
                );
            },
        }
        i += 1;
    }
    assert(all.take(all.len() as int) =~= all);
    Ok(out)
}

/// What the dependencies of a manifest ask for, by the notation of each requirement, or the
/// first of them that cannot be resolved.
pub open spec fn requirements_in(deps: Seq<(Seq<char>, Seq<char>)>) -> Result<
    Seq<(Seq<char>, Seq<char>)>,
    InstallErrorView,
>
    decreases deps.len(),
{
    if deps.len() == 0 {
        Ok(Seq::empty())
    } else {
        match requirements_in(deps.drop_last()) {
            Err(e) => Err(e),
            Ok(done) => {
                let (name, spec) = deps.last();
                match req_of(spec) {
                    Ok(req) => Ok(done.push((name, req))),
                    Err(problem) => Err(InstallErrorView::Requirement { name, spec, problem }),
                }
            },
        }
    }
}

/// Whether a manifest overrides what its dependencies depend on: its `overrides` is an object
/// that holds something.
pub open spec fn has_overrides(doc: JsonView) -> bool {
    doc.members("overrides"@) is Some && doc.members("overrides"@)->Some_0.len() > 0
}

/// Whether a manifest overrides what its dependencies depend on.
pub fn overrides_something(doc: &Json) -> (r: bool)
    ensures
        r == has_overrides(doc.deep_view()),
{
    match doc.members("overrides") {
        Some(members) => {
            assert(members.deep_view().len() == members@.len());
            members.len() > 0
        },
        None => false,
    }
}

/// What a manifest asks for: each of its `dependencies` that is a text. One that overrides
/// something is not supported.
pub open spec fn requirements_of_manifest(doc: JsonView) -> Result<
    Seq<(Seq<char>, Seq<char>)>,
    InstallErrorView,
> {
    if has_overrides(doc) {
        Err(InstallErrorView::Overrides)
    } else {
        match doc.members("dependencies"@) {
            Some(members) => requirements_in(text_members_of(members)),
            None => Err(InstallErrorView::NoDependencies),
        }
    }
}

/// An error among the first dependencies is the error of all.
proof fn lemma_requirements_fail(deps: Seq<(Seq<char>, Seq<char>)>, n: int)
    requires
        0 <= n <= deps.len(),
        requirements_in(deps.take(n)) is Err,
    ensures
        requirements_in(deps) == requirements_in(deps.take(n)),
    decreases deps.len() - n,
{
    if n < deps.len() {
        assert(deps.take(n + 1).drop_last() =~= deps.take(n));
        lemma_requirements_fail(deps, n + 1);
    } else {
        assert(deps.take(n) =~= deps);
    }
}

/// What a manifest asks for, in the order of its `dependencies`: a full version is a pin, and
/// what is neither a version nor a range is an error. So is a manifest with `overrides`.
pub fn manifest_requirements(doc: &Json) -> (r: Result<Vec<(String, VersionReq)>, InstallError>)
    ensures
        match r {
            Ok(reqs) => requirements_of_manifest(doc.deep_view()) == Ok::<
                Seq<(Seq<char>, Seq<char>)>,
                InstallErrorView,
            >(reqs.deep_view()),
            Err(e) => requirements_of_manifest(doc.deep_view()) == Err::<
                Seq<(Seq<char>, Seq<char>)>,
                InstallErrorView,
            >(e.deep_view()),
        },
{
    if overrides_something(doc) {
        return Err(InstallError::Overrides);
    }
    match doc.members("dependencies") {
        None => Err(InstallError::NoDependencies),
        Some(members) => {
            let deps = text_members(members);
            let ghost all = deps.deep_view();
            let mut out: Vec<(String, VersionReq)> = Vec::new();
            let mut i: usize = 0;
            assert(out.deep_view() =~= Seq::<(Seq<char>, Seq<char>)>::empty());
            while i < deps.len()
                invariant
                    i <= deps@.len(),
                    all == deps.deep_view(),
                    all == text_members_of(members.deep_view()),
                    !has_overrides(doc.deep_view()),
                    doc.deep_view().members("dependencies"@) == Some(members.deep_view()),
                    requirements_in(all.take(i as int)) == Ok::<
                        Seq<(Seq<char>, Seq<char>)>,
                        InstallErrorView,
                    >(out.deep_view()),
                decreases deps@.len() - i,
            {
                let ghost done = out.deep_view();
                assert(all.take(i + 1).drop_last() =~= all.take(i as int));
                assert(all[i as int] == (deps@[i as int].0@, deps@[i as int].1@));
                let name = &deps[i].0;
                let spec = &deps[i].1;
                match version_req(spec.as_str()) {
                    Ok(req) => {
                        let ghost v = (name@, req.deep_view());
                        out.push((name.clone(), req));
                        assert(out.deep_view() =~= done.push(v));
                    },
                    Err(problem) => {
                        proof {
                            lemma_requirements_fail(all, i + 1);
                        }
                        return Err(
                            InstallError::Requirement {
                                name: name.clone(),
                                spec: spec.clone(),
                                problem,
                            },
                        );
                    },
                }
                i += 1;
            }
            assert(all.take(all.len() as int) =~= all);
            Ok(out)
        },
    }
}

/// What the text of a `package.json` asks for.
pub fn root_requirements(text: &str) -> (r: Result<Vec<(String, VersionReq)>, InstallError>)
    ensures
        match json_reading(text@) {
            Ok(doc) => match r {
                Ok(reqs) => requirements_of_manifest(doc) == Ok::<
                    Seq<(Seq<char>, Seq<char>)>,
                    InstallErrorView,
                >(reqs.deep_view()),
                Err(e) => requirements_of_manifest(doc) == Err::<
                    Seq<(Seq<char>, Seq<char>)>,
                    InstallErrorView,
                >(e.deep_view()),
            },
            Err(message) => r is Err && r->Err_0.deep_view() == InstallErrorView::Json(message),
        },
{
    match Json::parse(text) {
        Ok(doc) => manifest_requirements(&doc),
        Err(message) => Err(InstallError::Json(message)),
    }
}

/// The line of a package in the marker of an install.
pub open spec fn marker_line() -> spec_fn(ResolvedView) -> Seq<char> {
    |r: ResolvedView| r.name + "@"@ + version_text(r.version)
}

/// The marker of an install of `resolved`: the packages with their versions, a line for each.
pub fn tree_marker(resolved: &Vec<Resolved>) -> (r: String)
    ensures
        r@ == join(resolved.deep_view().map_values(marker_line()), "\n"@),
{
    let ghost all = resolved.deep_view();
    let mut lines: Vec<String> = Vec::new();
    let mut i: usize = 0;
    while i < resolved.len()
        invariant
            i <= resolved@.len(),
            all == resolved.deep_view(),
            lines.deep_view() == all.take(i as int).map_values(marker_line()),
        decreases resolved@.len() - i,
    {
        let ghost done = lines.deep_view();
        let p = &resolved[i];
        let line = joined3(p.name.as_str(), "@", p.version.to_string().as_str());
        let ghost v = line@;
        assert(all[i as int] == p.deep_view());
        lines.push(line);
        assert(lines.deep_view() =~= done.push(v));
        assert(all.take(i + 1).map_values(marker_line()) =~= done.push(v));
        i += 1;
    }
    assert(all.take(all.len() as int) =~= all);
    join_texts(&lines, "\n")
}

/// Whether an install is to be left as it is: `node_modules/` holds something, and its marker,
/// if it could be read, is the one that is wanted.
pub fn is_up_to_date(has_content: bool, marker: Option<&str>, want: &str) -> (r: bool)
    ensures
        r == (has_content && marker is Some && trimmed(marker->Some_0@) == want@),
{
    has_content && marker_matches(marker, want)
}

/// Where the entries of a tarball go: each under its path without the first segment.
pub open spec fn unpacked_dests(entries: Seq<ListedView>) -> Seq<Option<Seq<char>>> {
    Seq::new(
        entries.len(),
        |i: int|
            match asked_path(entries[i], None) {
                Some(rel) => without_top(rel),
                None => None,
            },
    )
}

/// What is to be done for the tarball of a package.
pub open spec fn unpacking(bytes: Seq<u8>) -> PlanView {
    match tar_entries_of(bytes) {
        Ok(entries) => plan_of(
            untarred_all(entries),
            None,
            unpacked_dests(untarred_all(entries)),
            false,
        ),
        Err(e) => failed_plan(e),
    }
}

/// What is to be done for the tarball of a package, once it has been checked against its
/// integrity. A package without one is refused.
pub open spec fn verified_unpacking(
    name: Seq<char>,
    bytes: Seq<u8>,
    integrity: Option<Seq<char>>,
) -> Result<PlanView, InstallErrorView> {
    let pinned = match integrity {
        Some(sri) => sri,
        None => ""@,
    };
    match checked(name, bytes, pinned) {
        Ok(_) => Ok(unpacking(bytes)),
        Err(e) => Err(InstallErrorView::Integrity(e)),
    }
}

/// What is to be done for the downloaded tarball of a package: its bytes are checked first,
/// and then each file goes to its path without the first segment, whatever that is named.
pub fn verify_and_plan(name: &str, bytes: &[u8], integrity: Option<&str>) -> (r: Result<
    Plan,
    InstallError,
>)
    ensures
        match r {
            Ok(plan) => verified_unpacking(name@, bytes@, integrity.deep_view()) == Ok::<
                PlanView,
                InstallErrorView,
            >(plan.deep_view()),
            Err(e) => verified_unpacking(name@, bytes@, integrity.deep_view()) == Err::<
                PlanView,
                InstallErrorView,
            >(e.deep_view()),
        },
{
    let pinned = match integrity {
        Some(sri) => sri,
        None => "",
    };
    if let Err(e) = verify(name, bytes, pinned) {
        return Err(InstallError::Integrity(e));
    }
    let select = Select::Matching(strip_top_dir);
    let plan = tar_gz(bytes, None, &select);
    proof {
        assert(is_tar_plan(plan.deep_view(), bytes@, None, select));
        if let Ok(listed) = tar_entries_of(bytes@) {
            let entries = untarred_all(listed);
            let dests = choose|dests: Seq<Option<Seq<char>>>| #[trigger]
                are_chosen(select, entries, None, dests) && plan.deep_view() == plan_of(
                    entries,
                    None,
                    dests,
                    false,
                );
            assert forall|i: int| 0 <= i < entries.len() implies dests[i] == #[trigger]
                unpacked_dests(entries)[i] by {
                assert(entries[i] == entries[i]);
            }
            assert(dests =~= unpacked_dests(entries));
        }
    }
    Ok(plan)
}

/// A path without the `./` before it, however often it stands there.
pub open spec fn without_dots(path: Seq<char>) -> Seq<char>
    decreases path.len(),
    via without_dots_falls
{
    match stripped(path, "./"@) {
        Some(rest) => without_dots(rest),
        None => path,
    }
}

#[via_fn]
proof fn without_dots_falls(path: Seq<char>) {
    reveal_strlit("./");
    assert("./"@.len() == 2);
}

/// A path without the `./` before it, however often it stands there.
fn trim_dots(path: &str) -> (r: String)
    ensures
        r@ == without_dots(path@),
{
    let mut rest = path.to_owned();
    loop
        invariant
            without_dots(rest@) == without_dots(path@),
        decreases rest@.len(),
    {
        proof {
            reveal_strlit("./");
            assert("./"@.len() == 2);
        }
        match strip_prefix(rest.as_str(), "./") {
            Some(shorter) => {
                rest = shorter;
            },
            None => {
                return rest;
            },
        }
    }
}

/// The link to an executable: its name in `node_modules/.bin/`, and the path of the
/// executable under `node_modules/`.
#[derive(Debug, PartialEq, Eq)]
pub struct BinLink {
    pub name: String,
    pub path: String,
}

impl DeepView for BinLink {
    type V = (Seq<char>, Seq<char>);

    open spec fn deep_view(&self) -> (Seq<char>, Seq<char>) {
        (self.name@, self.path@)
    }
}

impl BinLink {
    /// What the link holds: the path of the executable as seen from `node_modules/.bin/`.
    pub fn target(&self) -> (r: String)
        ensures
            r@ == "../"@ + self.deep_view().1,
    {
        joined("../", self.path.as_str())
    }
}

/// The links to make, in order, and the error, if any, that comes after them.
#[derive(Debug)]
pub struct LinkPlan {
    pub links: Vec<BinLink>,
    pub failure: Option<PathError>,
}

/// What a [`LinkPlan`] holds.
#[verifier::ext_equal]
pub struct LinkPlanView {
    pub links: Seq<(Seq<char>, Seq<char>)>,
    pub failure: Option<PathErrorView>,
}

impl DeepView for LinkPlan {
    type V = LinkPlanView;

    open spec fn deep_view(&self) -> LinkPlanView {
        LinkPlanView { links: self.links.deep_view(), failure: self.failure.deep_view() }
    }
}

/// Whether `name` is the name of a single file, so that a link of this name lies in the
/// directory that it is made in.
pub open spec fn is_file_name(name: Seq<char>) -> bool {
    name.len() > 0 && !contains(name, "/"@) && name != "."@ && name != ".."@
}

/// Whether an executable has a name to link it under.
pub open spec fn is_linkable() -> spec_fn((Seq<char>, Seq<char>)) -> bool {
    |bin: (Seq<char>, Seq<char>)| is_file_name(bin.0)
}

/// An executable of the package in the directory `dir`, with its path under `node_modules/`.
pub open spec fn bin_in(dir: Seq<char>) -> spec_fn((Seq<char>, Seq<char>)) -> (
    Seq<char>,
    Seq<char>,
) {
    |bin: (Seq<char>, Seq<char>)| (bin.0, dir + "/"@ + without_dots(bin.1))
}

/// The executables of a package that can be linked, with their paths under `node_modules/`.
pub open spec fn bins_offered(p: PlannedView) -> Seq<(Seq<char>, Seq<char>)> {
    match stripped(p.key, "node_modules/"@) {
        Some(dir) => p.bin.filter(is_linkable()).map_values(bin_in(dir)),
        None => Seq::empty(),
    }
}

/// The executables of all packages that can be linked.
pub open spec fn all_bins(plan: Seq<PlannedView>) -> Seq<(Seq<char>, Seq<char>)>
    decreases plan.len(),
{
    if plan.len() == 0 {
        Seq::empty()
    } else {
        all_bins(plan.drop_last()) + bins_offered(plan.last())
    }
}

/// Whether one of the links has this name.
pub open spec fn is_linked(links: Seq<(Seq<char>, Seq<char>)>, name: Seq<char>) -> bool {
    exists|i: int| 0 <= i < links.len() && #[trigger] links[i].0 == name
}

/// The links to make for executables: of those with the same name the first, up to a path that
/// could lead out of `node_modules/`.
pub open spec fn link_plan(bins: Seq<(Seq<char>, Seq<char>)>) -> LinkPlanView
    decreases bins.len(),
{
    if bins.len() == 0 {
        LinkPlanView { links: Seq::empty(), failure: None }
    } else {
        let before = link_plan(bins.drop_last());
        let (name, path) = bins.last();
        if before.failure is Some || is_linked(before.links, name) {
            before
        } else if is_within(path) {
            LinkPlanView { links: before.links.push((name, path)), failure: None }
        } else {
            LinkPlanView {
                links: before.links,
                failure: Some(PathErrorView::Escapes(path)),
            }
        }
    }
}

/// The executables of a package that can be linked, with their paths under `node_modules/`.
fn offer_bins(p: &PlannedPackage) -> (r: Vec<BinLink>)
    ensures
        r.deep_view() == bins_offered(p.deep_view()),
{
    let mut out: Vec<BinLink> = Vec::new();
    match strip_prefix(p.key.as_str(), "node_modules/") {
        None => {
            assert(out.deep_view() =~= Seq::<(Seq<char>, Seq<char>)>::empty());
        },
        Some(dir) => {
            let ghost all = p.bin.deep_view();
            let ghost in_dir = bin_in(dir@);
            let mut i: usize = 0;
            assert(out.deep_view() =~= all.take(0).filter(is_linkable()).map_values(in_dir)) by {
                reveal(Seq::filter);
            }
            while i < p.bin.len()
                invariant
                    i <= p.bin@.len(),
                    all == p.bin.deep_view(),
                    in_dir == bin_in(dir@),
                    out.deep_view() == all.take(i as int).filter(is_linkable()).map_values(
                        in_dir,
                    ),
                decreases p.bin@.len() - i,
            {
                let ghost done = out.deep_view();
                let ghost kept = all.take(i as int).filter(is_linkable());
                let name = &p.bin[i].0;
                let path = &p.bin[i].1;
                proof {
                    assert(all.take(i + 1) =~= all.take(i as int).push(all[i as int]));
                    all.take(i as int).lemma_filter_push(all[i as int], is_linkable());
                    assert(all[i as int] == (name@, path@));
                }
                if name.unicode_len() > 0 && !holds(name.as_str(), "/") && !same(
                    name.as_str(),
                    ".",
                ) && !same(name.as_str(), "..") {
                    let link = BinLink {
                        name: name.clone(),
                        path: joined3(dir.as_str(), "/", trim_dots(path.as_str()).as_str()),
                    };
                    let ghost v = link.deep_view();
                    out.push(link);
                    assert(out.deep_view() =~= done.push(v));
                    assert(kept.push(all[i as int]).map_values(in_dir) =~= done.push(v));
                }
                i += 1;
            }
            assert(all.take(all.len() as int) =~= all);
        },
    }
    out
}

/// The executables of all packages that can be linked.
fn collect_bins(plan: &Vec<PlannedPackage>) -> (r: Vec<BinLink>)
    ensures
        r.deep_view() == all_bins(plan.deep_view()),
{
    let ghost all = plan.deep_view();
    let mut out: Vec<BinLink> = Vec::new();
    let mut i: usize = 0;
    assert(out.deep_view() =~= Seq::<(Seq<char>, Seq<char>)>::empty());
    while i < plan.len()
        invariant
            i <= plan@.len(),
            all == plan.deep_view(),
            out.deep_view() == all_bins(all.take(i as int)),
        decreases plan@.len() - i,
    {
        let ghost done = out.deep_view();
        assert(all.take(i + 1).drop_last() =~= all.take(i as int));
        assert(all[i as int] == plan@[i as int].deep_view());
        let mut bins = offer_bins(&plan[i]);
        let ghost v = bins.deep_view();
        out.append(&mut bins);
        assert(out.deep_view() =~= done + v);
        i += 1;
    }
    assert(all.take(all.len() as int) =~= all);
    out
}

/// Whether one of the links has this name.
fn is_taken(links: &Vec<BinLink>, name: &str) -> (r: bool)
    ensures
        r == is_linked(links.deep_view(), name@),
{
    let mut i: usize = 0;
    while i < links.len()
        invariant
            i <= links@.len(),
            forall|j: int| 0 <= j < i ==> (#[trigger] links.deep_view()[j]).0 != name@,
        decreases links@.len() - i,
    {
        assert(links.deep_view()[i as int].0 == links@[i as int].name@);
        if same(links[i].name.as_str(), name) {
            return true;
        }
        i += 1;
    }
    false
}

/// An error among the first executables is the error of all.
proof fn lemma_links_fail(bins: Seq<(Seq<char>, Seq<char>)>, n: int)
    requires
        0 <= n <= bins.len(),
        link_plan(bins.take(n)).failure is Some,
    ensures
        link_plan(bins) == link_plan(bins.take(n)),
    decreases bins.len() - n,
{
    if n < bins.len() {
        assert(bins.take(n + 1).drop_last() =~= bins.take(n));
        lemma_links_fail(bins, n + 1);
    } else {
        assert(bins.take(n) =~= bins);
    }
}

/// The links to make in `node_modules/.bin/` for the executables of the packages. Where two
/// have the same name, that of the package that comes first is linked; a name that is no file
/// name is passed over; a path that could lead out of `node_modules/` ends the plan.
pub fn link_bins(plan: &Vec<PlannedPackage>) -> (r: LinkPlan)
    ensures
        r.deep_view() == link_plan(all_bins(plan.deep_view())),
{
    let bins = collect_bins(plan);
    let ghost all = bins.deep_view();
    let mut links: Vec<BinLink> = Vec::new();
    let mut i: usize = 0;
    assert(links.deep_view() =~= Seq::<(Seq<char>, Seq<char>)>::empty());
    while i < bins.len()
        invariant
            i <= bins@.len(),
            all == bins.deep_view(),
            all == all_bins(plan.deep_view()),
            link_plan(all.take(i as int)) == (LinkPlanView {
                links: links.deep_view(),
                failure: None,
            }),
        decreases bins@.len() - i,
    {
        let ghost done = links.deep_view();
        let bin = &bins[i];
        assert(all.take(i + 1).drop_last() =~= all.take(i as int));
        assert(all[i as int] == bin.deep_view());
        if !is_taken(&links, bin.name.as_str()) {
            match ensure_within(bin.path.as_str()) {
                Ok(_) => {
                    links.push(BinLink { name: bin.name.clone(), path: bin.path.clone() });
                    assert(links.deep_view() =~= done.push(bin.deep_view()));
                },
                Err(e) => {
                    proof {
                        lemma_links_fail(all, i + 1);
                    }
                    return LinkPlan { links, failure: Some(e) };
                },
            }
        }
        i += 1;
    }
    assert(all.take(all.len() as int) =~= all);
    LinkPlan { links, failure: None }
}

/// Every executable that can be linked has a file name.
proof fn lemma_bins_have_names(plan: Seq<PlannedView>, i: int)
    requires
        0 <= i < all_bins(plan).len(),
    ensures
        is_file_name(all_bins(plan)[i].0),
    decreases plan.len(),
{
    let front = all_bins(plan.drop_last());
    if i < front.len() {
        lemma_bins_have_names(plan.drop_last(), i);
    } else {
        let p = plan.last();
        let kept = p.bin.filter(is_linkable());
        p.bin.lemma_filter_contains_rev(is_linkable(), kept[i - front.len()]);
        p.bin.lemma_filter_pred(is_linkable(), i - front.len());
    }
}

/// Whatever the executables of packages are called and wherever they are said to lie, each
/// link lies in `node_modules/.bin/` itself under a name of its own and leads to a path within
/// `node_modules/`.
pub proof fn links_stay_inside(plan: Seq<PlannedView>)
    ensures
        ({
            let links = link_plan(all_bins(plan)).links;
            &&& forall|i: int|
                0 <= i < links.len() ==> is_file_name((#[trigger] links[i]).0) && is_within(
                    links[i].1,
                )
            &&& forall|i: int, j: int|
                0 <= i < j < links.len() ==> (#[trigger] links[i]).0 != (#[trigger] links[j]).0
        }),
{
    let bins = all_bins(plan);
    assert forall|i: int| 0 <= i < bins.len() implies is_file_name((#[trigger] bins[i]).0) by {
        lemma_bins_have_names(plan, i);
    }
    lemma_links(bins);
}

/// Links are made under the names of executables, each once, and lead to paths that stay
/// within.
proof fn lemma_links(bins: Seq<(Seq<char>, Seq<char>)>)
    requires
        forall|i: int| 0 <= i < bins.len() ==> is_file_name((#[trigger] bins[i]).0),
    ensures
        ({
            let links = link_plan(bins).links;
            &&& forall|i: int|
                0 <= i < links.len() ==> is_file_name((#[trigger] links[i]).0) && is_within(
                    links[i].1,
                )
            &&& forall|i: int, j: int|
                0 <= i < j < links.len() ==> (#[trigger] links[i]).0 != (#[trigger] links[j]).0
        }),
    decreases bins.len(),
{
    if bins.len() > 0 {
        lemma_links(bins.drop_last());
        assert(is_file_name(bins[bins.len() - 1].0));
    }
}

/// Where every path stays within `node_modules/`, each executable that can be linked is, and
/// under its name stands the path of the first that has it.
pub proof fn the_first_keeps_the_name(bins: Seq<(Seq<char>, Seq<char>)>, i: int)
    requires
        0 <= i < bins.len(),
        link_plan(bins).failure is None,
        forall|j: int| 0 <= j < i ==> (#[trigger] bins[j]).0 != bins[i].0,
    ensures
        link_plan(bins).links.contains(bins[i]),
    decreases bins.len(),
{
    let before = link_plan(bins.drop_last());
    if i == bins.len() - 1 {
        lemma_links_come_from(bins.drop_last());
        assert(!is_linked(before.links, bins[i].0));
        assert(link_plan(bins).links.last() == bins[i]);
        assert(link_plan(bins).links.contains(link_plan(bins).links.last()));
    } else {
        the_first_keeps_the_name(bins.drop_last(), i);
        let k = choose|k: int| 0 <= k < before.links.len() && before.links[k] == bins[i];
        assert(link_plan(bins).links[k] == bins[i]);
    }
}

/// Every link is for one of the executables.
proof fn lemma_links_come_from(bins: Seq<(Seq<char>, Seq<char>)>)
    ensures
        forall|k: int|
            0 <= k < link_plan(bins).links.len() ==> bins.contains(
                #[trigger] link_plan(bins).links[k],
            ),
    decreases bins.len(),
{
    if bins.len() > 0 {
        let front = bins.drop_last();
        lemma_links_come_from(front);
        let before = link_plan(front).links;
        let after = link_plan(bins).links;
        assert forall|k: int| 0 <= k < after.len() implies bins.contains(#[trigger] after[k]) by {
            if k < before.len() {
                assert(after[k] == before[k]);
                let j = choose|j: int| 0 <= j < front.len() && front[j] == before[k];
                assert(bins[j] == before[k]);
            } else {
                assert(bins[bins.len() - 1] == after[k]);
            }
        }
    }
}

/// Nothing is extracted of a tarball but where its integrity pins a sha512 digest, and that
/// digest is the one of its bytes; and what is extracted stays within the package's directory.
pub proof fn nothing_is_unpacked_unverified(
    name: Seq<char>,
    bytes: Seq<u8>,
    integrity: Option<Seq<char>>,
)
    requires
        verified_unpacking(name, bytes, integrity) is Ok,
    ensures
        ({
            let plan = verified_unpacking(name, bytes, integrity)->Ok_0;
            &&& integrity is Some
            &&& pinned_digest(integrity->Some_0) is Some
            &&& base64_reading(pinned_digest(integrity->Some_0)->Some_0) == Ok::<
                Seq<u8>,
                Seq<char>,
            >(sha512_of(bytes))
            &&& forall|i: int|
                0 <= i < plan.actions.len() ==> is_within(action_path(#[trigger] plan.actions[i]))
        }),
{
    reveal_strlit("");
    assert(""@.len() == 0);
    crate::text::lemma_no_words(""@);
    if let Ok(entries) = tar_entries_of(bytes) {
        let entries = untarred_all(entries);
        plans_are_contained(entries, None, unpacked_dests(entries), false);
    }
}

/// Where no key escapes, none does.
proof fn lemma_no_escape(packages: Seq<(Seq<char>, JsonView)>, i: int)
    requires
        first_escape(packages) is None,
        0 <= i < packages.len(),
        "node_modules/"@.is_prefix_of(packages[i].0),
    ensures
        is_within(packages[i].0),
    decreases packages.len(),
{
    if i > 0 {
        assert(packages.drop_first()[i - 1] == packages[i]);
        lemma_no_escape(packages.drop_first(), i - 1);
    }
}

/// Whatever a lockfile holds, what is installed of it goes to directories under
/// `node_modules/` that stay within the project, is fetched from the web, and stands in the
/// order of the keys.
pub proof fn lockfile_installs_stay_inside(
    doc: JsonView,
    host_os: Seq<char>,
    host_arch: Seq<char>,
)
    requires
        planned_tree(doc, host_os, host_arch) is Ok,
    ensures
        ({
            let plan = planned_tree(doc, host_os, host_arch)->Ok_0;
            &&& forall|i: int|
                0 <= i < plan.len() ==> "node_modules/"@.is_prefix_of((#[trigger] plan[i]).key)
                    && is_within(plan[i].key) && is_web_url(Some(plan[i].resolved))
            &&& forall|i: int, j: int|
                0 <= i <= j < plan.len() ==> text_leq((#[trigger] plan[i]).key, (
                #[trigger] plan[j]).key)
        }),
{
    let packages = doc.members("packages"@)->Some_0;
    let found = packages.filter_map(planned_member(host_os, host_arch));
    let plan = stable_sort::<PlannedPackage>(found);
    sorting_is_stable::<PlannedPackage>(found);
    assert forall|i: int| 0 <= i < plan.len() implies "node_modules/"@.is_prefix_of(
        (#[trigger] plan[i]).key,
    ) && is_within(plan[i].key) && is_web_url(Some(plan[i].resolved)) by {
        assert(plan.contains(plan[i]));
        lemma_same_values(plan, found, plan[i]);
        packages.lemma_filter_map_contains(planned_member(host_os, host_arch), plan[i]);
        let k = choose|k: int|
            0 <= k < packages.len() && planned_member(host_os, host_arch)(#[trigger] packages[k])
                == Some(plan[i]);
        lemma_no_escape(packages, k);
    }
    assert forall|i: int, j: int| 0 <= i <= j < plan.len() implies text_leq(
        (#[trigger] plan[i]).key,
        (#[trigger] plan[j]).key,
    ) by {
        assert(PlannedPackage::leq(plan[i], plan[j]));
    }
}

} // verus!
