//! The report of an audit: which installed packages are affected by which advisories.

use super::advisory::{Advisory, AdvisoryView};
use super::{severity_rank, Severity};
use crate::package_json::spec::{range_accepts, range_of, Range};
use crate::sbom::{Component, ComponentView};
use crate::sort::{
    differ_by, lemma_mapped, lemma_same_values, lemma_sorted_differ, sort_stable,
    sorting_is_stable, stable_sort, Sortable,
};
use crate::text::{same, text_leq};
use crate::version::{semver_version, Version, VersionView};
use vstd::prelude::*;
use vstd::string::*;

verus! {

/// How many advisories there are of each severity; those of none count as `info`.
#[derive(Debug, Clone, PartialEq, Eq)]
pub struct Vulnerabilities {
    pub info: u64,
    pub low: u64,
    pub moderate: u64,
    pub high: u64,
    pub critical: u64,
    pub total: u64,
}

impl Default for Vulnerabilities {
    fn default() -> (r: Vulnerabilities)
        ensures
            r == (Vulnerabilities {
                info: 0,
                low: 0,
                moderate: 0,
                high: 0,
                critical: 0,
                total: 0,
            }),
    {
        Vulnerabilities { info: 0, low: 0, moderate: 0, high: 0, critical: 0, total: 0 }
    }
}

/// An installed package with the advisories that affect its version.
#[derive(Debug, Clone)]
pub struct ComponentAdvisories {
    pub component: Component,
    pub advisories: Vec<Advisory>,
}

/// What a [`ComponentAdvisories`] holds.
#[verifier::ext_equal]
pub struct FindingView {
    pub component: ComponentView,
    pub advisories: Seq<AdvisoryView>,
}

impl DeepView for ComponentAdvisories {
    type V = FindingView;

    open spec fn deep_view(&self) -> FindingView {
        FindingView {
            component: self.component.deep_view(),
            advisories: self.advisories.deep_view(),
        }
    }
}

impl Sortable for ComponentAdvisories {
    open spec fn leq(a: FindingView, b: FindingView) -> bool {
        Component::leq(a.component, b.component)
    }

    proof fn leq_total(a: FindingView, b: FindingView) {
        Component::leq_total(a.component, b.component);
    }

    proof fn leq_transitive(a: FindingView, b: FindingView, c: FindingView) {
        Component::leq_transitive(a.component, b.component, c.component);
    }

    fn may_precede(&self, other: &ComponentAdvisories) -> (r: bool) {
        self.component.may_precede(&other.component)
    }
}

/// The outcome of an audit: the affected packages in the order of their names and then
/// versions, and how many advisories of each severity there are.
#[derive(Debug, Clone)]
pub struct AuditReport {
    pub findings: Vec<ComponentAdvisories>,
    pub vulnerabilities: Vulnerabilities,
}

/// All advisories of the findings, in order.
pub open spec fn all_advisories(findings: Seq<FindingView>) -> Seq<AdvisoryView>
    decreases findings.len(),
{
    if findings.len() == 0 {
        Seq::empty()
    } else {
        all_advisories(findings.drop_last()) + findings.last().advisories
    }
}

/// The advisories of this severity.
pub open spec fn of_severity(severity: Option<Severity>) -> spec_fn(AdvisoryView) -> bool {
    |a: AdvisoryView| a.severity == severity
}

/// A count as far as a counter goes.
pub open spec fn capped(n: nat) -> u64 {
    if n > u64::MAX {
        u64::MAX
    } else {
        n as u64
    }
}

/// Whether the counts are those of the advisories, as far as the counters go.
pub open spec fn counts(v: Vulnerabilities, all: Seq<AdvisoryView>) -> bool {
    &&& v.info == capped(all.filter(of_severity(None)).len())
    &&& v.low == capped(all.filter(of_severity(Some(Severity::Low))).len())
    &&& v.moderate == capped(all.filter(of_severity(Some(Severity::Moderate))).len())
    &&& v.high == capped(all.filter(of_severity(Some(Severity::High))).len())
    &&& v.critical == capped(all.filter(of_severity(Some(Severity::Critical))).len())
    &&& v.total == capped(all.len())
}

/// An advisory as it affects a package of this name and version, where it does: it is of this
/// package, its range can be read, and the range accepts the version.
pub open spec fn hit_by(name: Seq<char>, pinned: Seq<char>, version: VersionView) -> spec_fn(
    AdvisoryView,
) -> Option<AdvisoryView> {
    |a: AdvisoryView|
        if a.package == name {
            match range_of(a.vulnerable_range) {
                Ok(range) => if range_accepts(range, version) {
                    Some(AdvisoryView { matched_version: pinned, ..a })
                } else {
                    None
                },
                Err(_) => None,
            }
        } else {
            None
        }
}

/// The advisories that affect a package; none where its version cannot be read.
pub open spec fn hits_of(advisories: Seq<AdvisoryView>, c: ComponentView) -> Seq<AdvisoryView> {
    match semver_version(c.version) {
        Ok(v) => advisories.filter_map(hit_by(c.name, c.version, v)),
        Err(_) => Seq::empty(),
    }
}

/// Whether one of the components has this name and version.
pub open spec fn is_pinned(
    components: Seq<ComponentView>,
    name: Seq<char>,
    version: Seq<char>,
) -> bool {
    exists|i: int|
        0 <= i < components.len() && (#[trigger] components[i]).name == name
            && components[i].version == version
}

/// The findings in the order of the components: each name and version once, where an advisory
/// affects it.
pub open spec fn findings_of(
    advisories: Seq<AdvisoryView>,
    components: Seq<ComponentView>,
) -> Seq<FindingView>
    decreases components.len(),
{
    if components.len() == 0 {
        Seq::empty()
    } else {
        let before = findings_of(advisories, components.drop_last());
        let c = components.last();
        let hits = hits_of(advisories, c);
        if is_pinned(components.drop_last(), c.name, c.version) || hits.len() == 0 {
            before
        } else {
            before.push(FindingView { component: c, advisories: hits })
        }
    }
}

/// The findings in the order of the names and then versions.
pub open spec fn sorted_findings(
    advisories: Seq<AdvisoryView>,
    components: Seq<ComponentView>,
) -> Seq<FindingView> {
    stable_sort::<ComponentAdvisories>(findings_of(advisories, components))
}

/// Whether the findings stand in the order of the names and then versions, and no name and
/// version twice.
pub open spec fn strictly_ascending(findings: Seq<FindingView>) -> bool {
    forall|i: int, j: int|
        0 <= i < j < findings.len() ==> comes_before(
            (#[trigger] findings[i]).component,
            (#[trigger] findings[j]).component,
        )
}

/// Whether a package comes before another by its name and then its version.
pub open spec fn comes_before(a: ComponentView, b: ComponentView) -> bool {
    if a.name == b.name {
        text_leq(a.version, b.version) && a.version != b.version
    } else {
        text_leq(a.name, b.name)
    }
}

/// The higher of two severities.
pub open spec fn higher(a: Option<Severity>, b: Option<Severity>) -> Option<Severity> {
    match (a, b) {
        (Some(x), Some(y)) => if severity_rank(y) > severity_rank(x) {
            b
        } else {
            a
        },
        (None, _) => b,
        (_, None) => a,
    }
}

/// The highest severity of the advisories.
pub open spec fn highest(all: Seq<AdvisoryView>) -> Option<Severity>
    decreases all.len(),
{
    if all.len() == 0 {
        None
    } else {
        higher(highest(all.drop_last()), all.last().severity)
    }
}

/// Whether an advisory is of this severity or a higher one.
pub open spec fn reaches(all: Seq<AdvisoryView>, level: Severity) -> bool {
    exists|i: int|
        0 <= i < all.len() && (#[trigger] all[i]).severity is Some && severity_rank(
            all[i].severity->Some_0,
        ) >= severity_rank(level)
}

/// One more, as far as a counter goes.
fn one_more(n: u64) -> (r: u64)
    ensures
        r == capped((n + 1) as nat),
{
    if n < u64::MAX {
        n + 1
    } else {
        n
    }
}

/// Counts one more advisory.
fn count_one(v: &mut Vulnerabilities, a: &Advisory, Ghost(all): Ghost<Seq<AdvisoryView>>)
    requires
        counts(*old(v), all),
    ensures
        counts(*final(v), all.push(a.deep_view())),
{
    proof {
        let x = a.deep_view();
        all.lemma_filter_push(x, of_severity(None));
        all.lemma_filter_push(x, of_severity(Some(Severity::Low)));
        all.lemma_filter_push(x, of_severity(Some(Severity::Moderate)));
        all.lemma_filter_push(x, of_severity(Some(Severity::High)));
        all.lemma_filter_push(x, of_severity(Some(Severity::Critical)));
    }
    match a.severity {
        Some(Severity::Low) => v.low = one_more(v.low),
        Some(Severity::Moderate) => v.moderate = one_more(v.moderate),
        Some(Severity::High) => v.high = one_more(v.high),
        Some(Severity::Critical) => v.critical = one_more(v.critical),
        None => v.info = one_more(v.info),
    }
    v.total = one_more(v.total);
}

/// The advisories that affect a package.
fn hits_for(advisories: &[Advisory], c: &Component) -> (r: Vec<Advisory>)
    ensures
        r.deep_view() == hits_of(advisories.deep_view(), c.deep_view()),
{
    let mut hits: Vec<Advisory> = Vec::new();
    match Version::parse(c.version.as_str()) {
        Ok(version) => {
            let ghost all = advisories.deep_view();
            let ghost f = hit_by(c.name@, c.version@, version.deep_view());
            let mut i: usize = 0;
            assert(hits.deep_view() =~= all.take(0).filter_map(f)) by {
                reveal(Seq::filter_map);
            }
            while i < advisories.len()
                invariant
                    i <= advisories.len(),
                    all == advisories.deep_view(),
                    f == hit_by(c.name@, c.version@, version.deep_view()),
                    hits.deep_view() == all.take(i as int).filter_map(f),
                decreases advisories.len() - i,
            {
                let ghost done = hits.deep_view();
                let a = &advisories[i];
                proof {
                    all.lemma_filter_map_take_succ(f, i as int);
                }
                if same(a.package.as_str(), c.name.as_str()) {
                    if let Ok(range) = Range::parse(a.vulnerable_range.as_str()) {
                        if range.matches(&version) {
                            let mut hit = a.copy();
                            hit.matched_version = c.version.clone();
                            let ghost v = hit.deep_view();
                            hits.push(hit);
                            assert(hits.deep_view() =~= done + seq![v]);
                        }
                    }
                }
                i += 1;
            }
            assert(all.take(all.len() as int) =~= all);
        },
        Err(_) => {
            assert(hits.deep_view() =~= Seq::<AdvisoryView>::empty());
        },
    }
    hits
}

/// Whether one of the first `n` components has this name and version.
fn pinned_before(components: &[Component], n: usize, name: &str, version: &str) -> (r: bool)
    requires
        n <= components@.len(),
    ensures
        r == is_pinned(components.deep_view().take(n as int), name@, version@),
{
    let ghost front = components.deep_view().take(n as int);
    let mut i: usize = 0;
    while i < n
        invariant
            i <= n <= components@.len(),
            front == components.deep_view().take(n as int),
            forall|j: int|
                0 <= j < i ==> !((#[trigger] front[j]).name == name@ && front[j].version
                    == version@),
        decreases n - i,
    {
        assert(front[i as int] == components@[i as int].deep_view());
        if same(components[i].name.as_str(), name) && same(
            components[i].version.as_str(),
            version,
        ) {
            return true;
        }
        i += 1;
    }
    false
}

/// Counts the advisories of the findings.
fn count_all(findings: &Vec<ComponentAdvisories>) -> (r: Vulnerabilities)
    ensures
        counts(r, all_advisories(findings.deep_view())),
{
    let ghost all = findings.deep_view();
    let mut totals = Vulnerabilities {
        info: 0,
        low: 0,
        moderate: 0,
        high: 0,
        critical: 0,
        total: 0,
    };
    let mut i: usize = 0;
    proof {
        reveal(Seq::filter);
        assert(all_advisories(all.take(0)) =~= Seq::<AdvisoryView>::empty());
    }
    while i < findings.len()
        invariant
            i <= findings@.len(),
            all == findings.deep_view(),
            counts(totals, all_advisories(all.take(i as int))),
        decreases findings@.len() - i,
    {
        let ghost seen = all_advisories(all.take(i as int));
        let hits = &findings[i].advisories;
        let ghost h = hits.deep_view();
        let mut j: usize = 0;
        assert(seen + h.take(0) =~= seen);
        while j < hits.len()
            invariant
                j <= hits@.len(),
                h == hits.deep_view(),
                counts(totals, seen + h.take(j as int)),
            decreases hits@.len() - j,
        {
            count_one(&mut totals, &hits[j], Ghost(seen + h.take(j as int)));
            assert((seen + h.take(j as int)).push(h[j as int]) =~= seen + h.take(j + 1));
            j += 1;
        }
        proof {
            assert(h.take(h.len() as int) =~= h);
            assert(all.take(i + 1).drop_last() =~= all.take(i as int));
            assert(all.take(i + 1).last() == findings@[i as int].deep_view());
        }
        i += 1;
    }
    assert(all.take(all.len() as int) =~= all);
    totals
}

/// Matches advisories against the installed packages. A package is affected by an advisory of
/// its name whose range accepts its exact version. A name and version that is pinned at
/// several places counts once; a version or a range that cannot be read matches nothing. The
/// findings are in the order of the names and then versions.
pub fn build_report(advisories: &[Advisory], components: &[Component]) -> (r: AuditReport)
    ensures
        r.findings.deep_view() == sorted_findings(advisories.deep_view(), components.deep_view()),
        strictly_ascending(r.findings.deep_view()),
        r.findings.deep_view().to_multiset() == findings_of(
            advisories.deep_view(),
            components.deep_view(),
        ).to_multiset(),
        counts(r.vulnerabilities, all_advisories(r.findings.deep_view())),
{
    let ghost advs = advisories.deep_view();
    let ghost all = components.deep_view();
    let mut findings: Vec<ComponentAdvisories> = Vec::new();
    let mut i: usize = 0;
    assert(findings.deep_view() =~= findings_of(advs, all.take(0)));
    while i < components.len()
        invariant
            i <= components.len(),
            advs == advisories.deep_view(),
            all == components.deep_view(),
            findings.deep_view() == findings_of(advs, all.take(i as int)),
        decreases components.len() - i,
    {
        let c = &components[i];
        let ghost done = findings.deep_view();
        proof {
            assert(all.take(i + 1).drop_last() =~= all.take(i as int));
        }
        if !pinned_before(components, i, c.name.as_str(), c.version.as_str()) {
            let hits = hits_for(advisories, c);
            if hits.len() > 0 {
                let f = ComponentAdvisories { component: c.copy(), advisories: hits };
                let ghost v = f.deep_view();
                findings.push(f);
                assert(findings.deep_view() =~= done.push(v));
            }
        }
        i += 1;
    }
    assert(all.take(all.len() as int) =~= all);
    let sorted = sort_stable(findings);
    proof {
        sorting_is_stable::<ComponentAdvisories>(findings_of(advs, all));
        lemma_ascending(advs, all);
    }
    let vulnerabilities = count_all(&sorted);
    AuditReport { findings: sorted, vulnerabilities }
}

impl AuditReport {
    /// The highest severity of all advisories of the report.
    pub fn max_severity(&self) -> (r: Option<Severity>)
        ensures
            r == highest(all_advisories(self.findings.deep_view())),
    {
        max_of(&self.findings)
    }

    /// Whether an advisory of the report is of the severity `level` or a higher one.
    pub fn exceeds(&self, level: Severity) -> (r: bool)
        ensures
            r == reaches(all_advisories(self.findings.deep_view()), level),
    {
        let top = self.max_severity();
        proof {
            let all = all_advisories(self.findings.deep_view());
            highest_is_highest(all);
            if reaches(all, level) {
                let i = choose|i: int|
                    0 <= i < all.len() && (#[trigger] all[i]).severity is Some && severity_rank(
                        all[i].severity->Some_0,
                    ) >= severity_rank(level);
                assert(all[i].severity is Some);
            }
        }
        match top {
            Some(s) => s.rank() >= level.rank(),
            None => false,
        }
    }
}

/// The highest severity is that of some advisory, and none has a higher one; there is none
/// where no advisory has one.
pub proof fn highest_is_highest(all: Seq<AdvisoryView>)
    ensures
        highest(all) matches Some(s) ==> exists|i: int|
            0 <= i < all.len() && (#[trigger] all[i]).severity == Some(s),
        forall|i: int|
            0 <= i < all.len() && (#[trigger] all[i]).severity is Some ==> highest(all) is Some
                && severity_rank(all[i].severity->Some_0) <= severity_rank(highest(all)->Some_0),
    decreases all.len(),
{
    if all.len() > 0 {
        let front = all.drop_last();
        highest_is_highest(front);
        if let Some(s) = highest(all) {
            if all.last().severity == Some(s) {
                assert(all[all.len() - 1].severity == Some(s));
            } else {
                let i = choose|i: int|
                    0 <= i < front.len() && (#[trigger] front[i]).severity == Some(s);
                assert(all[i].severity == Some(s));
            }
        }
        assert forall|i: int|
            0 <= i < all.len() && (#[trigger] all[i]).severity is Some implies highest(all) is Some
            && severity_rank(all[i].severity->Some_0) <= severity_rank(highest(all)->Some_0) by {
            if i < front.len() {
                assert(front[i].severity is Some);
            }
        }
    }
}

/// The higher of two severities.
pub fn higher_of(a: Option<Severity>, b: Option<Severity>) -> (r: Option<Severity>)
    ensures
        r == higher(a, b),
{
    match (a, b) {
        (Some(x), Some(y)) => if y.rank() > x.rank() {
            b
        } else {
            a
        },
        (None, _) => b,
        (_, None) => a,
    }
}

/// The highest severity of the advisories of the findings.
fn max_of(findings: &Vec<ComponentAdvisories>) -> (r: Option<Severity>)
    ensures
        r == highest(all_advisories(findings.deep_view())),
{
    let ghost all = findings.deep_view();
    let mut top: Option<Severity> = None;
    let mut i: usize = 0;
    while i < findings.len()
        invariant
            i <= findings.len(),
            all == findings.deep_view(),
            top == highest(all_advisories(all.take(i as int))),
        decreases findings.len() - i,
    {
        let ghost seen = all_advisories(all.take(i as int));
        let ghost h = all[i as int].advisories;
        let mut j: usize = 0;
        assert(all.take(i + 1).drop_last() =~= all.take(i as int));
        assert(seen + h.take(0) =~= seen);
        while j < findings[i as usize].advisories.len()
            invariant
                i < findings.len(),
                all == findings.deep_view(),
                h == all[i as int].advisories,
                j <= h.len(),
                top == highest(seen + h.take(j as int)),
            decreases h.len() - j,
        {
            proof {
                let next = seen + h.take(j + 1);
                assert(next.drop_last() =~= seen + h.take(j as int));
                assert(next.last() == h[j as int]);
            }
            top = higher_of(top, findings[i].advisories[j].severity);
            j += 1;
        }
        assert(h.take(h.len() as int) =~= h);
        i += 1;
    }
    assert(all.take(all.len() as int) =~= all);
    top
}

/// Whether an advisory affects a package: it is of its name, and its range accepts its exact
/// version.
pub open spec fn affects(a: AdvisoryView, c: ComponentView) -> bool {
    &&& a.package == c.name
    &&& semver_version(c.version) is Ok
    &&& range_of(a.vulnerable_range) is Ok
    &&& range_accepts(range_of(a.vulnerable_range)->Ok_0, semver_version(c.version)->Ok_0)
}

/// An advisory as it stands in the finding on a package.
pub open spec fn as_found(a: AdvisoryView, c: ComponentView) -> AdvisoryView {
    AdvisoryView { matched_version: c.version, ..a }
}

/// What is found on a package are the advisories that affect it.
proof fn lemma_hits(advisories: Seq<AdvisoryView>, c: ComponentView, a: AdvisoryView)
    ensures
        advisories.contains(a) && affects(a, c) ==> hits_of(advisories, c).contains(as_found(a, c)),
        hits_of(advisories, c).contains(a) ==> exists|i: int|
            0 <= i < advisories.len() && affects(#[trigger] advisories[i], c) && a == as_found(
                advisories[i],
                c,
            ),
{
    if let Ok(v) = semver_version(c.version) {
        let f = hit_by(c.name, c.version, v);
        if advisories.contains(a) && affects(a, c) {
            let i = choose|i: int| 0 <= i < advisories.len() && advisories[i] == a;
            lemma_mapped(advisories, f, i);
        }
        if hits_of(advisories, c).contains(a) {
            advisories.lemma_filter_map_contains(f, a);
            let t = choose|t: AdvisoryView| advisories.contains(t) && f(t) == Some(a);
            let i = choose|i: int| 0 <= i < advisories.len() && advisories[i] == t;
            assert(affects(advisories[i], c));
        }
    }
}

/// What [`findings_are_sound`] says, of the findings in the order of the components.
proof fn lemma_findings_sound(advisories: Seq<AdvisoryView>, components: Seq<ComponentView>)
    ensures
        ({
            let findings = findings_of(advisories, components);
            &&& forall|k: int|
                0 <= k < findings.len() ==> {
                    let f = #[trigger] findings[k];
                    &&& components.contains(f.component)
                    &&& f.advisories.len() > 0
                    &&& f.advisories == hits_of(advisories, f.component)
                }
            &&& forall|k: int, l: int|
                0 <= k < l < findings.len() ==> (#[trigger] findings[k]).component.name != (
                #[trigger] findings[l]).component.name || findings[k].component.version
                    != findings[l].component.version
        }),
    decreases components.len(),
{
    let findings = findings_of(advisories, components);
    if components.len() > 0 {
        let front = components.drop_last();
        lemma_findings_sound(advisories, front);
        let before = findings_of(advisories, front);
        let c = components.last();
        assert forall|k: int| 0 <= k < findings.len() implies {
            let f = #[trigger] findings[k];
            &&& components.contains(f.component)
            &&& f.advisories.len() > 0
            &&& f.advisories == hits_of(advisories, f.component)
        } by {
            if k < before.len() {
                assert(findings[k] == before[k]);
                let j = choose|j: int| 0 <= j < front.len() && front[j] == before[k].component;
                assert(components[j] == front[j]);
            } else {
                assert(components[components.len() - 1] == c);
            }
        }
        assert forall|k: int, l: int| 0 <= k < l < findings.len() implies (
        #[trigger] findings[k]).component.name != (#[trigger] findings[l]).component.name
            || findings[k].component.version != findings[l].component.version by {
            if l < before.len() {
                assert(findings[k] == before[k] && findings[l] == before[l]);
            } else {
                assert(findings[k] == before[k]);
                let j = choose|j: int| 0 <= j < front.len() && front[j] == before[k].component;
                assert(front[j].name == before[k].component.name);
            }
        }
    }
}

/// In order, the findings ascend strictly.
proof fn lemma_ascending(advisories: Seq<AdvisoryView>, components: Seq<ComponentView>)
    ensures
        strictly_ascending(sorted_findings(advisories, components)),
{
    let given = findings_of(advisories, components);
    let sorted = sorted_findings(advisories, components);
    let key = |f: FindingView| (f.component.name, f.component.version);
    lemma_findings_sound(advisories, components);
    sorting_is_stable::<ComponentAdvisories>(given);
    assert(differ_by(given, key)) by {
        assert forall|i: int, j: int| 0 <= i < j < given.len() implies key(#[trigger] given[i])
            != key(#[trigger] given[j]) by {
            assert(given[i].component.name != given[j].component.name || given[i].component.version
                != given[j].component.version);
        }
    }
    lemma_sorted_differ::<ComponentAdvisories, (Seq<char>, Seq<char>)>(given, key);
    assert forall|i: int, j: int| 0 <= i < j < sorted.len() implies comes_before(
        (#[trigger] sorted[i]).component,
        (#[trigger] sorted[j]).component,
    ) by {
        assert(ComponentAdvisories::leq(sorted[i], sorted[j]));
        assert(key(sorted[i]) != key(sorted[j]));
    }
}

/// Every finding is on an installed package, and each name and version is found once at most.
/// What stands in it are advisories that affect the package.
pub proof fn findings_are_sound(advisories: Seq<AdvisoryView>, components: Seq<ComponentView>)
    ensures
        strictly_ascending(sorted_findings(advisories, components)),
        ({
            let findings = sorted_findings(advisories, components);
            &&& forall|k: int|
                0 <= k < findings.len() ==> {
                    let f = #[trigger] findings[k];
                    &&& components.contains(f.component)
                    &&& f.advisories.len() > 0
                    &&& f.advisories == hits_of(advisories, f.component)
                }
            &&& forall|k: int, h: AdvisoryView|
                0 <= k < findings.len() && #[trigger] findings[k].advisories.contains(h)
                    ==> exists|i: int|
                    0 <= i < advisories.len() && affects(
                        #[trigger] advisories[i],
                        findings[k].component,
                    ) && h == as_found(advisories[i], findings[k].component)
        }),
{
    let given = findings_of(advisories, components);
    let findings = sorted_findings(advisories, components);
    lemma_findings_sound(advisories, components);
    lemma_ascending(advisories, components);
    sorting_is_stable::<ComponentAdvisories>(given);
    assert forall|k: int| 0 <= k < findings.len() implies {
        let f = #[trigger] findings[k];
        &&& components.contains(f.component)
        &&& f.advisories.len() > 0
        &&& f.advisories == hits_of(advisories, f.component)
    } by {
        assert(findings.contains(findings[k]));
        lemma_same_values(findings, given, findings[k]);
        let j = choose|j: int| 0 <= j < given.len() && given[j] == findings[k];
        assert(components.contains(given[j].component));
    }
    assert forall|k: int, h: AdvisoryView|
        0 <= k < findings.len() && #[trigger] findings[k].advisories.contains(h) implies exists|
        i: int,
    |
        0 <= i < advisories.len() && affects(#[trigger] advisories[i], findings[k].component) && h
            == as_found(advisories[i], findings[k].component) by {
        lemma_hits(advisories, findings[k].component, h);
    }
}

/// What [`findings_are_complete`] says, of the findings in the order of the components.
proof fn lemma_findings_complete(
    advisories: Seq<AdvisoryView>,
    components: Seq<ComponentView>,
    c: ComponentView,
    a: AdvisoryView,
) -> (k: int)
    requires
        components.contains(c),
        advisories.contains(a),
        affects(a, c),
    ensures
        ({
            let findings = findings_of(advisories, components);
            &&& 0 <= k < findings.len()
            &&& findings[k].component.name == c.name
            &&& findings[k].component.version == c.version
            &&& findings[k].advisories.contains(as_found(a, c))
        }),
    decreases components.len(),
{
    let front = components.drop_last();
    let before = findings_of(advisories, front);
    let findings = findings_of(advisories, components);
    let last = components.last();
    let i = choose|i: int| 0 <= i < components.len() && components[i] == c;
    if is_pinned(front, c.name, c.version) {
        let j = choose|j: int|
            0 <= j < front.len() && (#[trigger] front[j]).name == c.name && front[j].version
                == c.version;
        assert(front.contains(front[j]));
        let k = lemma_findings_complete(advisories, front, front[j], a);
        assert(findings[k] == before[k]);
        k
    } else {
        if i < front.len() {
            assert(front[i] == c);
        }
        assert(last == c);
        lemma_hits(advisories, c, a);
        before.len() as int
    }
}

/// No installed package that an advisory affects is missed: there is a finding on its name and
/// version, and the advisory stands in it.
pub proof fn findings_are_complete(
    advisories: Seq<AdvisoryView>,
    components: Seq<ComponentView>,
    c: ComponentView,
    a: AdvisoryView,
) -> (k: int)
    requires
        components.contains(c),
        advisories.contains(a),
        affects(a, c),
    ensures
        ({
            let findings = sorted_findings(advisories, components);
            &&& 0 <= k < findings.len()
            &&& findings[k].component.name == c.name
            &&& findings[k].component.version == c.version
            &&& findings[k].advisories.contains(as_found(a, c))
        }),
{
    let given = findings_of(advisories, components);
    let findings = sorted_findings(advisories, components);
    let j = lemma_findings_complete(advisories, components, c, a);
    sorting_is_stable::<ComponentAdvisories>(given);
    assert(given.contains(given[j]));
    lemma_same_values(given, findings, given[j]);
    choose|k: int| 0 <= k < findings.len() && findings[k] == given[j]
}

} // verus!
