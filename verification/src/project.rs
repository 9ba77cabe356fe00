//! Changes to a project by its `package.json`: which dependencies move within their ranges, and
//! which are dropped. Reading and writing the files is the caller's.

use crate::install::{has_overrides, overrides_something, InstallError, InstallErrorView};
use crate::json::{
    distinct_keys, json_reading, lemma_with_member, lookup, lookup_member, Json, JsonView,
};
use crate::package_json::manifest::{
    dependencies, dependencies_of_manifest, depends_on, dropped, remove_dependency,
    upsert_dependency, upserted, without_member,
};
use crate::package_json::spec::{
    leads_to_registry, range_error_text, range_of, spec_of, Range, RangeError, RangeErrorView, Spec,
};
use crate::registry::{
    resolve_error_text, selected_version, Registry, ResolveError, ResolveErrorView, Resolved,
};
use crate::text::{
    any_is, chars_of, contains, holds, is_space, joined, joined3, same, space, text_between, text_of,
    trim, trimmed,
};
use crate::version::{version_text, Version, VersionView};
use vstd::prelude::*;
use vstd::string::*;

verus! {

/// A dependency that moves from one range to another.
#[derive(Debug, Clone, PartialEq, Eq)]
pub struct Change {
    /// The name of the dependency.
    pub name: String,
    /// The range as it is written.
    pub from: String,
    /// The range with its floor at the version that was found.
    pub to: String,
}

/// What a [`Change`] holds.
#[verifier::ext_equal]
pub struct ChangeView {
    pub name: Seq<char>,
    pub from: Seq<char>,
    pub to: Seq<char>,
}

impl DeepView for Change {
    type V = ChangeView;

    open spec fn deep_view(&self) -> ChangeView {
        ChangeView { name: self.name@, from: self.from@, to: self.to@ }
    }
}

/// Why a text is no manifest.
#[derive(Debug, PartialEq, Eq)]
pub enum ManifestError {
    /// It is no JSON; the problem is the reader's message.
    Parse { path: String, problem: String },
    /// It is JSON, but no object.
    NotObject { path: String },
}

/// What a [`ManifestError`] holds.
#[verifier::ext_equal]
pub enum ManifestErrorView {
    Parse { path: Seq<char>, problem: Seq<char> },
    NotObject { path: Seq<char> },
}

impl DeepView for ManifestError {
    type V = ManifestErrorView;

    open spec fn deep_view(&self) -> ManifestErrorView {
        match *self {
            ManifestError::Parse { path, problem } => ManifestErrorView::Parse {
                path: path@,
                problem: problem@,
            },
            ManifestError::NotObject { path } => ManifestErrorView::NotObject { path: path@ },
        }
    }
}

/// What is said of a text that is no manifest.
pub open spec fn manifest_error_text(e: ManifestErrorView) -> Seq<char> {
    match e {
        ManifestErrorView::Parse { path, problem } => "parsing "@ + path + ": "@ + problem,
        ManifestErrorView::NotObject { path } => path + " is not a JSON object"@,
    }
}

impl ManifestError {
    /// What is said of the error.
    pub fn message(&self) -> (r: String)
        ensures
            r@ == manifest_error_text(self.deep_view()),
    {
        match self {
            ManifestError::Parse { path, problem } => {
                let mut out = joined3("parsing ", path.as_str(), ": ");
                out.append(problem.as_str());
                out
            },
            ManifestError::NotObject { path } => joined(path.as_str(), " is not a JSON object"),
        }
    }
}

/// The manifest that the text of the file at `path` holds: a JSON object.
pub fn read_manifest(path: &str, text: &str) -> (r: Result<Json, ManifestError>)
    ensures
        match json_reading(text@) {
            Ok(doc) => if doc is Object {
                r is Ok && r->Ok_0.deep_view() == doc && distinct_keys(doc)
            } else {
                r is Err && r->Err_0.deep_view() == (ManifestErrorView::NotObject { path: path@ })
            },
            Err(problem) => r is Err && r->Err_0.deep_view() == (ManifestErrorView::Parse {
                path: path@,
                problem,
            }),
        },
{
    broadcast use {crate::json::lemma_array_view, crate::json::lemma_object_view};

    match Json::parse(text) {
        Ok(doc) => match &doc {
            Json::Object(_) => Ok(doc),
            _ => Err(ManifestError::NotObject { path: path.to_owned() }),
        },
        Err(problem) => Err(ManifestError::Parse { path: path.to_owned(), problem }),
    }
}

/// Whether a text is of several parts: with white space, a comma or `||` between them.
pub open spec fn has_parts(text: Seq<char>) -> bool {
    ||| exists|i: int| 0 <= i < text.len() && (is_space(#[trigger] text[i]) || text[i] == ',')
    ||| contains(text, "||"@)
}

/// Whether a range is plain: it begins with `^` or `~`, and what stands behind is not of several
/// parts. White space between the two and at the end does not count.
pub open spec fn is_plain_range(range: Seq<char>) -> bool {
    &&& range.len() > 0
    &&& range[0] == '^' || range[0] == '~'
    &&& !has_parts(trimmed(range.skip(1)))
}

/// A range with its floor at `version`, where it is plain.
pub open spec fn bumped(range: Seq<char>, version: VersionView) -> Option<Seq<char>> {
    if is_plain_range(range) {
        Some(seq![range[0]] + version_text(version))
    } else {
        None
    }
}

/// Whether a text is of several parts.
fn is_of_parts(text: &str) -> (r: bool)
    ensures
        r == has_parts(text@),
{
    let chars = chars_of(text);
    let mut i: usize = 0;
    while i < chars.len()
        invariant
            i <= chars@.len(),
            chars@ == text@,
            forall|j: int| 0 <= j < i ==> !is_space(#[trigger] text@[j]) && text@[j] != ',',
        decreases chars@.len() - i,
    {
        if space(chars[i]) || chars[i] == ',' {
            assert(is_space(text@[i as int]) || text@[i as int] == ',');
            return true;
        }
        i += 1;
    }
    holds(text, "||")
}

/// A range with its floor at `version`, where it is one `^` or `~` with one part behind it. A
/// pin, a range of several parts and a range of any other shape stay as they are written.
pub fn bump_floor(range: &str, version: &Version) -> (r: Option<String>)
    ensures
        r.deep_view() == bumped(range@, version.deep_view()),
{
    let chars = chars_of(range);
    if chars.len() == 0 {
        return None;
    }
    let sign = chars[0];
    if !(sign == '^' || sign == '~') {
        return None;
    }
    let rest = text_between(&chars, 1, chars.len());
    assert(rest@ =~= range@.skip(1));
    if is_of_parts(trim(rest.as_str()).as_str()) {
        return None;
    }
    let prefix = text_of(&[sign]);
    Some(joined(prefix.as_str(), version.to_string().as_str()))
}

/// Why there is no plan for an upgrade.
#[derive(Debug, PartialEq, Eq)]
pub enum UpgradeError {
    /// A range cannot be read.
    Range(RangeError),
    /// A dependency cannot be resolved; the message is the resolver's.
    Resolve(String),
}

/// What an [`UpgradeError`] holds.
#[verifier::ext_equal]
pub enum UpgradeErrorView {
    Range(RangeErrorView),
    Resolve(Seq<char>),
}

impl DeepView for UpgradeError {
    type V = UpgradeErrorView;

    open spec fn deep_view(&self) -> UpgradeErrorView {
        match *self {
            UpgradeError::Range(e) => UpgradeErrorView::Range(e.deep_view()),
            UpgradeError::Resolve(m) => UpgradeErrorView::Resolve(m@),
        }
    }
}

/// What is said where there is no plan.
pub open spec fn upgrade_error_text(e: UpgradeErrorView) -> Seq<char> {
    match e {
        UpgradeErrorView::Range(e) => range_error_text(e),
        UpgradeErrorView::Resolve(message) => message,
    }
}

impl UpgradeError {
    /// What is said of the error.
    pub fn message(&self) -> (r: String)
        ensures
            r@ == upgrade_error_text(self.deep_view()),
    {
        match self {
            UpgradeError::Range(e) => e.message(),
            UpgradeError::Resolve(message) => message.clone(),
        }
    }
}

/// Whether a dependency is to be resolved again: it is among `packages`, or these are none,
/// and its source is the registry.
pub open spec fn is_target(packages: Seq<Seq<char>>) -> spec_fn((Seq<char>, Seq<char>)) -> bool {
    |dep: (Seq<char>, Seq<char>)|
        (packages.len() == 0 || packages.contains(dep.0)) && leads_to_registry(spec_of(dep.1))
}

/// The dependencies of a manifest that are to be resolved again.
pub open spec fn targets_of(doc: JsonView, packages: Seq<Seq<char>>) -> Seq<
    (Seq<char>, Seq<char>),
> {
    dependencies_of_manifest(doc).filter(is_target(packages))
}

/// The dependencies of a manifest that are to be resolved again, in the order of their names.
pub fn upgrade_targets(doc: &Json, packages: &Vec<String>) -> (r: Vec<(String, String)>)
    ensures
        r.deep_view() == targets_of(doc.deep_view(), packages.deep_view()),
{
    let deps = dependencies(doc);
    let ghost all = deps.deep_view();
    let ghost keep = is_target(packages.deep_view());
    let mut out: Vec<(String, String)> = Vec::new();
    let mut i: usize = 0;
    assert(out.deep_view() =~= all.take(0).filter(keep)) by {
        reveal(Seq::filter);
    }
    while i < deps.len()
        invariant
            i <= deps@.len(),
            all == deps.deep_view(),
            keep == is_target(packages.deep_view()),
            out.deep_view() == all.take(i as int).filter(keep),
        decreases deps@.len() - i,
    {
        let ghost done = out.deep_view();
        let name = &deps[i].0;
        let range = &deps[i].1;
        proof {
            assert(all.take(i + 1) =~= all.take(i as int).push(all[i as int]));
            all.take(i as int).lemma_filter_push(all[i as int], keep);
            assert(all[i as int] == (name@, range@));
        }
        if (packages.len() == 0 || any_is(packages, name.as_str())) && Spec::parse(
            range.as_str(),
        ).is_registry() {
            out.push((name.clone(), range.clone()));
            assert(out.deep_view() =~= done.push((name@, range@)));
        }
        i += 1;
    }
    assert(all.take(all.len() as int) =~= all);
    out
}

/// What the dependencies ask for, or the first of them whose range cannot be read.
pub open spec fn ranges_of(targets: Seq<(Seq<char>, Seq<char>)>) -> Result<
    Seq<(Seq<char>, Seq<Seq<char>>)>,
    InstallErrorView,
>
    decreases targets.len(),
{
    if targets.len() == 0 {
        Ok(Seq::empty())
    } else {
        match ranges_of(targets.drop_last()) {
            Err(e) => Err(e),
            Ok(done) => {
                let (name, spec) = targets.last();
                match range_of(spec) {
                    Ok(range) => Ok(done.push((name, range))),
                    Err(e) => Err(
                        InstallErrorView::Requirement { name, spec, problem: range_error_text(e) },
                    ),
                }
            },
        }
    }
}

/// An error among the first dependencies is the error of all.
proof fn lemma_ranges_fail(targets: Seq<(Seq<char>, Seq<char>)>, n: int)
    requires
        0 <= n <= targets.len(),
        ranges_of(targets.take(n)) is Err,
    ensures
        ranges_of(targets) == ranges_of(targets.take(n)),
    decreases targets.len() - n,
{
    if n < targets.len() {
        assert(targets.take(n + 1).drop_last() =~= targets.take(n));
        lemma_ranges_fail(targets, n + 1);
    } else {
        assert(targets.take(n) =~= targets);
    }
}

/// What a manifest asks of the registry; one that overrides something is not supported.
pub open spec fn asked_of_registry(doc: JsonView) -> Result<
    Seq<(Seq<char>, Seq<Seq<char>>)>,
    InstallErrorView,
> {
    if has_overrides(doc) {
        Err(InstallErrorView::Overrides)
    } else {
        ranges_of(targets_of(doc, Seq::empty()))
    }
}

/// What a manifest asks of the registry, in the order of the names. A dependency from elsewhere
/// asks nothing of it. A manifest with `overrides` is an error.
pub fn registry_requirements(doc: &Json) -> (r: Result<Vec<(String, Range)>, InstallError>)
    ensures
        match r {
            Ok(roots) => asked_of_registry(doc.deep_view()) == Ok::<
                Seq<(Seq<char>, Seq<Seq<char>>)>,
                InstallErrorView,
            >(roots.deep_view()),
            Err(e) => asked_of_registry(doc.deep_view()) == Err::<
                Seq<(Seq<char>, Seq<Seq<char>>)>,
                InstallErrorView,
            >(e.deep_view()),
        },
{
    if overrides_something(doc) {
        return Err(InstallError::Overrides);
    }
    let everything: Vec<String> = Vec::new();
    assert(everything.deep_view() =~= Seq::<Seq<char>>::empty());
    let targets = upgrade_targets(doc, &everything);
    let ghost all = targets.deep_view();
    let mut roots: Vec<(String, Range)> = Vec::new();
    let mut i: usize = 0;
    assert(roots.deep_view() =~= Seq::<(Seq<char>, Seq<Seq<char>>)>::empty());
    while i < targets.len()
        invariant
            i <= targets@.len(),
            all == targets.deep_view(),
            all == targets_of(doc.deep_view(), Seq::empty()),
            !has_overrides(doc.deep_view()),
            ranges_of(all.take(i as int)) == Ok::<
                Seq<(Seq<char>, Seq<Seq<char>>)>,
                InstallErrorView,
            >(roots.deep_view()),
        decreases targets@.len() - i,
    {
        let ghost done = roots.deep_view();
        let name = &targets[i].0;
        let spec = &targets[i].1;
        assert(all.take(i + 1).drop_last() =~= all.take(i as int));
        assert(all[i as int] == (name@, spec@));
        match Range::parse(spec.as_str()) {
            Ok(range) => {
                let ghost v = (name@, range.deep_view());
                roots.push((name.clone(), range));
                assert(roots.deep_view() =~= done.push(v));
            },
            Err(e) => {
                proof {
                    lemma_ranges_fail(all, i + 1);
                }
                return Err(
                    InstallError::Requirement {
                        name: name.clone(),
                        spec: spec.clone(),
                        problem: e.message(),
                    },
                );
            },
        }
        i += 1;
    }
    assert(all.take(all.len() as int) =~= all);
    Ok(roots)
}

/// The change of a dependency for which `version` was found, where its range moves.
pub open spec fn change_of(
    name: Seq<char>,
    range: Seq<char>,
    version: VersionView,
) -> Option<ChangeView> {
    match bumped(range, version) {
        Some(to) => if to != range {
            Some(ChangeView { name, from: range, to })
        } else {
            None
        },
        None => None,
    }
}

/// The change of a dependency for which `version` was found, where its range moves.
pub fn change_for(name: &str, range: &str, version: &Version) -> (r: Option<Change>)
    ensures
        r.deep_view() == change_of(name@, range@, version.deep_view()),
{
    match bump_floor(range, version) {
        Some(to) => if !same(to.as_str(), range) {
            Some(Change { name: name.to_owned(), from: range.to_owned(), to })
        } else {
            None
        },
        None => None,
    }
}

/// What a resolver answered: the version that it found, or its message.
pub open spec fn answer_view(answer: Result<Resolved, String>) -> Result<VersionView, Seq<char>> {
    match answer {
        Ok(resolved) => Ok(resolved.version.deep_view()),
        Err(message) => Err(message@),
    }
}

/// The changes of an upgrade, given the answer for each dependency: one after the other up to
/// the first range that cannot be read or dependency that cannot be resolved.
pub open spec fn upgrade_plan(
    targets: Seq<(Seq<char>, Seq<char>)>,
    answers: Seq<Result<VersionView, Seq<char>>>,
) -> Result<Seq<ChangeView>, UpgradeErrorView>
    decreases targets.len(),
{
    if targets.len() == 0 {
        Ok(Seq::empty())
    } else {
        match upgrade_plan(targets.drop_last(), answers) {
            Err(e) => Err(e),
            Ok(done) => {
                let (name, range) = targets.last();
                match range_of(range) {
                    Err(e) => Err(UpgradeErrorView::Range(e)),
                    Ok(_) => match answers[targets.len() - 1] {
                        Err(message) => Err(UpgradeErrorView::Resolve(message)),
                        Ok(version) => match change_of(name, range, version) {
                            Some(change) => Ok(done.push(change)),
                            None => Ok(done),
                        },
                    },
                }
            },
        }
    }
}

/// Whether the resolver may give this answer for the dependency.
pub open spec fn may_answer<F: Fn(&str, &Range) -> Result<Resolved, String>>(
    resolve: F,
    target: (Seq<char>, Seq<char>),
    answer: Result<VersionView, Seq<char>>,
) -> bool {
    exists|name: &str, range: &Range, a: Result<Resolved, String>| #[trigger]
        call_ensures(resolve, (name, range), a) && name@ == target.0 && range_of(target.1) == Ok::<
            Seq<Seq<char>>,
            RangeErrorView,
        >(range.deep_view()) && answer_view(a) == answer
}

/// Whether `answers` are answers of the resolver for the dependencies, one after the other up
/// to the first for which there is no plan.
pub open spec fn are_answers<F: Fn(&str, &Range) -> Result<Resolved, String>>(
    resolve: F,
    targets: Seq<(Seq<char>, Seq<char>)>,
    answers: Seq<Result<VersionView, Seq<char>>>,
) -> bool {
    &&& answers.len() <= targets.len()
    &&& answers.len() < targets.len() ==> range_of(targets[answers.len() as int].1) is Err
        || upgrade_plan(targets.take(answers.len() as int), answers) is Err
    &&& forall|i: int|
        0 <= i < answers.len() ==> may_answer(resolve, targets[i], #[trigger] answers[i])
}

/// Answers that come later change nothing of an earlier plan.
proof fn lemma_plan_prefix(
    targets: Seq<(Seq<char>, Seq<char>)>,
    a: Seq<Result<VersionView, Seq<char>>>,
    b: Seq<Result<VersionView, Seq<char>>>,
)
    requires
        targets.len() <= a.len(),
        targets.len() <= b.len(),
        forall|i: int| 0 <= i < targets.len() ==> a[i] == b[i],
    ensures
        upgrade_plan(targets, a) == upgrade_plan(targets, b),
    decreases targets.len(),
{
    if targets.len() > 0 {
        lemma_plan_prefix(targets.drop_last(), a, b);
    }
}

/// An error among the first dependencies is the error of all.
proof fn lemma_plan_fails(
    targets: Seq<(Seq<char>, Seq<char>)>,
    answers: Seq<Result<VersionView, Seq<char>>>,
    n: int,
)
    requires
        0 <= n <= targets.len(),
        upgrade_plan(targets.take(n), answers) is Err,
    ensures
        upgrade_plan(targets, answers) == upgrade_plan(targets.take(n), answers),
    decreases targets.len() - n,
{
    if n < targets.len() {
        assert(targets.take(n + 1).drop_last() =~= targets.take(n));
        lemma_plan_fails(targets, answers, n + 1);
    } else {
        assert(targets.take(n) =~= targets);
    }
}

/// Whether `plan` is what a resolver makes of an upgrade of the dependencies.
pub open spec fn is_upgrade<F: Fn(&str, &Range) -> Result<Resolved, String>>(
    plan: Result<Seq<ChangeView>, UpgradeErrorView>,
    targets: Seq<(Seq<char>, Seq<char>)>,
    resolve: F,
) -> bool {
    exists|answers: Seq<Result<VersionView, Seq<char>>>| #[trigger]
        are_answers(resolve, targets, answers) && plan == upgrade_plan(targets, answers)
}

/// What the outcome of a plan holds.
pub open spec fn plan_view(plan: Result<Vec<Change>, UpgradeError>) -> Result<
    Seq<ChangeView>,
    UpgradeErrorView,
> {
    match plan {
        Ok(changes) => Ok(changes.deep_view()),
        Err(e) => Err(e.deep_view()),
    }
}

/// The changes of an upgrade: each selected dependency with its source at the registry is
/// resolved again within its range, and where the range floats (`^`, `~`), its floor is set to
/// the version that was found. No `packages` select every dependency.
pub fn plan_upgrade_with<F: Fn(&str, &Range) -> Result<Resolved, String>>(
    doc: &Json,
    packages: &Vec<String>,
    resolve: &F,
) -> (r: Result<Vec<Change>, UpgradeError>)
    requires
        forall|name: &str, range: &Range| #[trigger] call_requires(*resolve, (name, range)),
    ensures
        is_upgrade(plan_view(r), targets_of(doc.deep_view(), packages.deep_view()), *resolve),
{
    let targets = upgrade_targets(doc, packages);
    let ghost all = targets.deep_view();
    let ghost mut answers: Seq<Result<VersionView, Seq<char>>> = Seq::empty();
    let mut changes: Vec<Change> = Vec::new();
    let mut i: usize = 0;
    assert(changes.deep_view() =~= Seq::<ChangeView>::empty());
    while i < targets.len()
        invariant
            i <= targets@.len(),
            all == targets.deep_view(),
            all == targets_of(doc.deep_view(), packages.deep_view()),
            forall|name: &str, range: &Range| #[trigger] call_requires(*resolve, (name, range)),
            answers.len() == i,
            forall|j: int| 0 <= j < i ==> may_answer(*resolve, all[j], #[trigger] answers[j]),
            upgrade_plan(all.take(i as int), answers) == Ok::<Seq<ChangeView>, UpgradeErrorView>(
                changes.deep_view(),
            ),
        decreases targets@.len() - i,
    {
        let ghost done = changes.deep_view();
        let name = &targets[i].0;
        let range = &targets[i].1;
        assert(all.take(i + 1).drop_last() =~= all.take(i as int));
        assert(all[i as int] == (name@, range@));
        match Range::parse(range.as_str()) {
            Err(e) => {
                proof {
                    lemma_plan_fails(all, answers, i + 1);
                    assert(are_answers(*resolve, all, answers));
                }
                return Err(UpgradeError::Range(e));
            },
            Ok(parsed) => {
                let answer = resolve(name.as_str(), &parsed);
                proof {
                    let before = answers;
                    answers = answers.push(answer_view(answer));
                    lemma_plan_prefix(all.take(i as int), before, answers);
                    assert(may_answer(*resolve, all[i as int], answer_view(answer)));
                    assert forall|j: int| 0 <= j < answers.len() implies may_answer(
                        *resolve,
                        all[j],
                        #[trigger] answers[j],
                    ) by {
                        if j < i {
                            assert(answers[j] == before[j]);
                        }
                    }
                }
                match answer {
                    Err(message) => {
                        proof {
                            lemma_plan_fails(all, answers, i + 1);
                            assert(are_answers(*resolve, all, answers));
                        }
                        return Err(UpgradeError::Resolve(message));
                    },
                    Ok(resolved) => {
                        let change = change_for(name.as_str(), range.as_str(), &resolved.version);
                        if let Some(change) = change {
                            let ghost v = change.deep_view();
                            changes.push(change);
                            assert(changes.deep_view() =~= done.push(v));
                        }
                    },
                }
            },
        }
        i += 1;
    }
    proof {
        assert(all.take(all.len() as int) =~= all);
        assert(are_answers(*resolve, all, answers));
    }
    Ok(changes)
}

/// What the metadata documents in `docs` answer for a dependency.
pub open spec fn documented_answer(
    docs: Seq<(Seq<char>, JsonView)>,
    name: Seq<char>,
    range: Seq<Seq<char>>,
) -> Result<VersionView, Seq<char>> {
    match lookup(docs, name) {
        None => Err(resolve_error_text(ResolveErrorView::NoPackument { name })),
        Some(doc) => match selected_version(doc, range) {
            Some(s) => Ok(s.0),
            None => Err(resolve_error_text(ResolveErrorView::NoMatch { name, range })),
        },
    }
}

/// What the metadata documents in `docs` answer for each of the dependencies.
pub open spec fn documented_answers(
    docs: Seq<(Seq<char>, JsonView)>,
    targets: Seq<(Seq<char>, Seq<char>)>,
) -> Seq<Result<VersionView, Seq<char>>> {
    Seq::new(
        targets.len(),
        |i: int|
            match range_of(targets[i].1) {
                Ok(range) => documented_answer(docs, targets[i].0, range),
                Err(e) => Err(range_error_text(e)),
            },
    )
}

/// What the metadata documents answer for a dependency.
fn answer_from(registry: &Registry, packuments: &Vec<(String, Json)>, name: &str, range: &Range) -> (r:
    Result<Resolved, String>)
    ensures
        answer_view(r) == documented_answer(packuments.deep_view(), name@, range.deep_view()),
{
    match lookup_member(packuments, name) {
        None => {
            let e = ResolveError::NoPackument { name: name.to_owned() };
            Err(e.message())
        },
        Some(doc) => match registry.resolve(name, range, doc) {
            Ok(resolved) => Ok(resolved),
            Err(e) => Err(e.message()),
        },
    }
}

/// The changes of an upgrade by the metadata documents in `packuments`, with nothing written.
pub fn plan_upgrade(
    doc: &Json,
    packages: &Vec<String>,
    registry: &Registry,
    packuments: &Vec<(String, Json)>,
) -> (r: Result<Vec<Change>, UpgradeError>)
    ensures
        ({
            let targets = targets_of(doc.deep_view(), packages.deep_view());
            plan_view(r) == upgrade_plan(
                targets,
                documented_answers(packuments.deep_view(), targets),
            )
        }),
{
    let resolve = |name: &str, range: &Range| -> (a: Result<Resolved, String>)
        ensures
            answer_view(a) == documented_answer(packuments.deep_view(), name@, range.deep_view()),
        { answer_from(registry, packuments, name, range) };
    let plan = plan_upgrade_with(doc, packages, &resolve);
    proof {
        let targets = targets_of(doc.deep_view(), packages.deep_view());
        let documented = documented_answers(packuments.deep_view(), targets);
        let answers = choose|answers: Seq<Result<VersionView, Seq<char>>>| #[trigger]
            are_answers(resolve, targets, answers) && plan_view(plan) == upgrade_plan(
                targets,
                answers,
            );
        let n = answers.len() as int;
        assert forall|i: int| 0 <= i < n implies answers[i] == documented[i] by {
            assert(may_answer(resolve, targets[i], answers[i]));
        }
        lemma_plan_prefix(targets.take(n), answers, documented);
        if n < targets.len() {
            if upgrade_plan(targets.take(n), answers) is Err {
                lemma_plan_fails(targets, answers, n);
                lemma_plan_fails(targets, documented, n);
            } else {
                assert(targets.take(n + 1).drop_last() =~= targets.take(n));
                lemma_plan_fails(targets, answers, n + 1);
                lemma_plan_fails(targets, documented, n + 1);
            }
        } else {
            assert(targets.take(n) =~= targets);
        }
    }
    plan
}

/// A manifest with the changes made, one after the other.
pub open spec fn with_changes(doc: JsonView, changes: Seq<ChangeView>) -> JsonView
    decreases changes.len(),
{
    if changes.len() == 0 {
        doc
    } else {
        upserted(with_changes(doc, changes.drop_last()), changes.last().name, changes.last().to)
    }
}

/// Makes the changes in a manifest. Without any it stays as it is.
pub fn apply_changes(doc: &mut Json, changes: &Vec<Change>)
    ensures
        final(doc).deep_view() == with_changes(old(doc).deep_view(), changes.deep_view()),
{
    let ghost start = doc.deep_view();
    let ghost all = changes.deep_view();
    let mut i: usize = 0;
    while i < changes.len()
        invariant
            i <= changes@.len(),
            all == changes.deep_view(),
            doc.deep_view() == with_changes(start, all.take(i as int)),
        decreases changes@.len() - i,
    {
        assert(all.take(i + 1).drop_last() =~= all.take(i as int));
        assert(all[i as int] == changes@[i as int].deep_view());
        upsert_dependency(doc, changes[i].name.as_str(), changes[i].to.as_str());
        i += 1;
    }
    assert(all.take(all.len() as int) =~= all);
}

/// A manifest without the dependencies, and those of `names` that it had, one after the other.
pub open spec fn without_dependencies(doc: JsonView, names: Seq<Seq<char>>) -> (
    JsonView,
    Seq<Seq<char>>,
)
    decreases names.len(),
{
    if names.len() == 0 {
        (doc, Seq::empty())
    } else {
        let (rest, removed) = without_dependencies(doc, names.drop_last());
        if depends_on(rest, names.last()) {
            (dropped(rest, names.last()), removed.push(names.last()))
        } else {
            (rest, removed)
        }
    }
}

/// Drops dependencies from a manifest, and says which of `names` it had. A name that it does
/// not have is passed over.
pub fn remove(doc: &mut Json, names: &Vec<String>) -> (r: Vec<String>)
    ensures
        (final(doc).deep_view(), r.deep_view()) == without_dependencies(
            old(doc).deep_view(),
            names.deep_view(),
        ),
{
    let ghost start = doc.deep_view();
    let ghost all = names.deep_view();
    let mut removed: Vec<String> = Vec::new();
    let mut i: usize = 0;
    assert(removed.deep_view() =~= Seq::<Seq<char>>::empty());
    while i < names.len()
        invariant
            i <= names@.len(),
            all == names.deep_view(),
            (doc.deep_view(), removed.deep_view()) == without_dependencies(
                start,
                all.take(i as int),
            ),
        decreases names@.len() - i,
    {
        let ghost done = removed.deep_view();
        assert(all.take(i + 1).drop_last() =~= all.take(i as int));
        assert(all[i as int] == names@[i as int]@);
        if remove_dependency(doc, names[i].as_str()) {
            removed.push(names[i].clone());
            assert(removed.deep_view() =~= done.push(all[i as int]));
        }
        i += 1;
    }
    assert(all.take(all.len() as int) =~= all);
    removed
}

/// Only plain ranges that float move: each change is for a dependency that was to be resolved
/// again, from its one `^` or `~` with one part to the same sign with a full version behind it.
/// A pin and every range of several parts or of another shape stays as it is written.
pub proof fn only_floating_ranges_move(
    targets: Seq<(Seq<char>, Seq<char>)>,
    answers: Seq<Result<VersionView, Seq<char>>>,
)
    requires
        upgrade_plan(targets, answers) is Ok,
    ensures
        ({
            let changes = upgrade_plan(targets, answers)->Ok_0;
            forall|i: int|
                0 <= i < changes.len() ==> {
                    let change = #[trigger] changes[i];
                    &&& targets.contains((change.name, change.from))
                    &&& is_plain_range(change.from)
                    &&& change.to != change.from
                    &&& exists|v: VersionView|
                        change.to == seq![change.from[0]] + #[trigger] version_text(v)
                }
        }),
    decreases targets.len(),
{
    if targets.len() > 0 {
        let front = targets.drop_last();
        only_floating_ranges_move(front, answers);
        let before = upgrade_plan(front, answers)->Ok_0;
        let changes = upgrade_plan(targets, answers)->Ok_0;
        assert forall|i: int| 0 <= i < changes.len() implies {
            let change = #[trigger] changes[i];
            &&& targets.contains((change.name, change.from))
            &&& is_plain_range(change.from)
            &&& change.to != change.from
            &&& exists|v: VersionView|
                change.to == seq![change.from[0]] + #[trigger] version_text(v)
        } by {
            if i < before.len() {
                assert(changes[i] == before[i]);
                let k = choose|k: int|
                    0 <= k < front.len() && front[k] == (changes[i].name, changes[i].from);
                assert(targets[k] == front[k]);
            } else {
                assert(targets[targets.len() - 1] == (changes[i].name, changes[i].from));
                let v = answers[targets.len() - 1]->Ok_0;
                assert(changes[i].to == seq![changes[i].from[0]] + version_text(v));
            }
        }
    }
}

/// Once a range has its floor at a version, that version moves it no further.
pub proof fn an_upgrade_settles(name: Seq<char>, range: Seq<char>, version: VersionView)
    requires
        change_of(name, range, version) is Some,
    ensures
        change_of(name, change_of(name, range, version)->Some_0.to, version) is None,
{
    let to = change_of(name, range, version)->Some_0.to;
    assert(to[0] == range[0]);
    assert(bumped(to, version) is None || bumped(to, version) == Some(to));
}

/// A dependency that was dropped is gone, and the others have what they had.
pub proof fn removal_drops_one_dependency(
    members: Seq<(Seq<char>, JsonView)>,
    deps: Seq<(Seq<char>, JsonView)>,
    name: Seq<char>,
    other: Seq<char>,
    field: Seq<char>,
)
    requires
        lookup(members, "dependencies"@) == Some(JsonView::Object(deps)),
        lookup(deps, name) is Some,
        other != name,
        field != "dependencies"@,
    ensures
        !depends_on(dropped(JsonView::Object(members), name), name),
        ({
            let after = dropped(JsonView::Object(members), name);
            &&& after.members("dependencies"@) is Some
            &&& lookup(after.members("dependencies"@)->Some_0, other) == lookup(deps, other)
            &&& after.get(field) == lookup(members, field)
        }),
{
    let value = JsonView::Object(without_member(deps, name));
    lemma_with_member(members, "dependencies"@, value, "dependencies"@);
    lemma_with_member(members, "dependencies"@, value, field);
    lemma_without_member(deps, name, name);
    lemma_without_member(deps, name, other);
}

/// Without the members of one key, every other key has what it had.
proof fn lemma_without_member(
    members: Seq<(Seq<char>, JsonView)>,
    key: Seq<char>,
    other: Seq<char>,
)
    ensures
        lookup(without_member(members, key), other) == (if other == key {
            None
        } else {
            lookup(members, other)
        }),
    decreases members.len(),
{
    reveal(Seq::filter);
    if members.len() > 0 {
        let front = members.drop_last();
        lemma_without_member(front, key, other);
        if members.last().0 != key {
            assert(without_member(members, key) =~= without_member(front, key).push(
                members.last(),
            ));
            assert(without_member(members, key).drop_last() =~= without_member(front, key));
        } else {
            assert(without_member(members, key) =~= without_member(front, key));
        }
    }
}

} // verus!
