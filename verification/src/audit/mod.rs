//! The check of installed packages against advisories.

pub mod advisory;
pub mod cvss;
pub mod npm;
pub mod osv;
pub mod render;
pub mod report;

use crate::sbom::{Component, ComponentView};
use crate::text::{ascii_lower, lowered, same, trim, trimmed};
use advisory::{deduped, AdvisoryView};
use report::{all_advisories, counts, sorted_findings, strictly_ascending};
use vstd::prelude::*;

pub use advisory::{dedup_advisories, Advisory};
pub use cvss::{severity_from_cvss, Score};
pub use render::{render_json, render_summary};
pub use report::{build_report, AuditReport, ComponentAdvisories, Vulnerabilities};

verus! {

/// How severe an advisory is, from low to critical.
#[derive(Debug, Clone, Copy, PartialEq, Eq, PartialOrd, Ord, Structural)]
pub enum Severity {
    Low,
    Moderate,
    High,
    Critical,
}

/// The word of a severity.
pub open spec fn severity_word(s: Severity) -> Seq<char> {
    match s {
        Severity::Low => "low"@,
        Severity::Moderate => "moderate"@,
        Severity::High => "high"@,
        Severity::Critical => "critical"@,
    }
}

/// The rank of a severity among the others.
pub open spec fn severity_rank(s: Severity) -> int {
    match s {
        Severity::Low => 1,
        Severity::Moderate => 2,
        Severity::High => 3,
        Severity::Critical => 4,
    }
}

/// The severity that a word names in any case, with white space around it or not; `medium` is
/// moderate, and words for less than low name none.
pub open spec fn severity_named(s: Seq<char>) -> Option<Severity> {
    let word = lowered(trimmed(s));
    if word == "low"@ {
        Some(Severity::Low)
    } else if word == "moderate"@ || word == "medium"@ {
        Some(Severity::Moderate)
    } else if word == "high"@ {
        Some(Severity::High)
    } else if word == "critical"@ {
        Some(Severity::Critical)
    } else {
        None
    }
}

impl Severity {
    /// The severity that a word names.
    pub fn from_str_loose(s: &str) -> (r: Option<Severity>)
        ensures
            r == severity_named(s@),
    {
        let word = ascii_lower(trim(s).as_str());
        if same(word.as_str(), "low") {
            Some(Severity::Low)
        } else if same(word.as_str(), "moderate") || same(word.as_str(), "medium") {
            Some(Severity::Moderate)
        } else if same(word.as_str(), "high") {
            Some(Severity::High)
        } else if same(word.as_str(), "critical") {
            Some(Severity::Critical)
        } else {
            None
        }
    }

    /// The word of the severity.
    pub fn as_str(self) -> (r: &'static str)
        ensures
            r@ == severity_word(self),
    {
        match self {
            Severity::Low => "low",
            Severity::Moderate => "moderate",
            Severity::High => "high",
            Severity::Critical => "critical",
        }
    }

    /// The rank of the severity among the others.
    pub fn rank(self) -> (r: u8)
        ensures
            r == severity_rank(self),
    {
        match self {
            Severity::Low => 1,
            Severity::Moderate => 2,
            Severity::High => 3,
            Severity::Critical => 4,
        }
    }
}

/// What a source answered: advisories, or the message of an error.
pub type AnswerView = Result<Seq<AdvisoryView>, Seq<char>>;

/// What an answer holds.
pub open spec fn answer_view(answer: Result<Vec<Advisory>, String>) -> AnswerView {
    match answer {
        Ok(advisories) => Ok(advisories.deep_view()),
        Err(message) => Err(message@),
    }
}

/// A source of advisories.
///
/// A source that cannot be reached should answer with no advisories; an error is for what can
/// never work.
pub trait AdvisorySource {
    /// Whether the source may have this name. A source may say more than nothing of it.
    open spec fn may_be_named(&self, name: Seq<char>) -> bool {
        true
    }

    /// Whether the source may give this answer for the components. A source may say more than
    /// nothing of it.
    open spec fn may_answer(&self, components: Seq<ComponentView>, answer: AnswerView) -> bool {
        true
    }

    /// A short name that does not change.
    fn name(&self) -> (r: &'static str)
        ensures
            self.may_be_named(r@),
    ;

    /// The advisories that affect the components.
    fn query(&self, components: &[Component]) -> (r: Result<Vec<Advisory>, String>)
        ensures
            self.may_answer(components.deep_view(), answer_view(r)),
    ;
}

/// The advisories of all answers, in order.
pub open spec fn answered(answers: Seq<Seq<AdvisoryView>>) -> Seq<AdvisoryView>
    decreases answers.len(),
{
    if answers.len() == 0 {
        Seq::empty()
    } else {
        answered(answers.drop_last()) + answers.last()
    }
}

/// Whether `report` is the report of what the sources answered: the same vulnerability made
/// one, matched against the components, in the order of their names and then versions.
pub open spec fn is_report_of(
    report: AuditReport,
    answers: Seq<Seq<AdvisoryView>>,
    components: Seq<ComponentView>,
) -> bool {
    &&& report.findings.deep_view() == sorted_findings(deduped(answered(answers)), components)
    &&& strictly_ascending(report.findings.deep_view())
    &&& counts(report.vulnerabilities, all_advisories(report.findings.deep_view()))
}

/// The report of what the sources answered.
pub fn report_of(answers: Vec<Vec<Advisory>>, components: &[Component]) -> (r: AuditReport)
    ensures
        is_report_of(r, answers.deep_view(), components.deep_view()),
{
    let ghost lists = answers.deep_view();
    let mut all: Vec<Advisory> = Vec::new();
    let mut i: usize = 0;
    assert(all.deep_view() =~= answered(lists.take(0)));
    while i < answers.len()
        invariant
            i <= answers.len(),
            lists == answers.deep_view(),
            all.deep_view() == answered(lists.take(i as int)),
        decreases answers.len() - i,
    {
        let ghost done = all.deep_view();
        assert(lists.take(i + 1).drop_last() =~= lists.take(i as int));
        let mut j: usize = 0;
        assert(done + lists[i as int].take(0) =~= done);
        while j < answers[i as usize].len()
            invariant
                i < answers.len(),
                lists == answers.deep_view(),
                j <= lists[i as int].len(),
                all.deep_view() =~= done + lists[i as int].take(j as int),
            decreases lists[i as int].len() - j,
        {
            let ghost now = all.deep_view();
            let a = answers[i][j].copy();
            let ghost v = a.deep_view();
            all.push(a);
            assert(all.deep_view() =~= now.push(v));
            j += 1;
        }
        assert(lists[i as int].take(lists[i as int].len() as int) =~= lists[i as int]);
        i += 1;
    }
    assert(lists.take(lists.len() as int) =~= lists);
    let deduped = dedup_advisories(all);
    build_report(&deduped, components)
}

/// The advisories of the sources that answered, in order.
pub open spec fn good_answers(answers: Seq<AnswerView>) -> Seq<Seq<AdvisoryView>>
    decreases answers.len(),
{
    if answers.len() == 0 {
        Seq::empty()
    } else {
        match answers.last() {
            Ok(advisories) => good_answers(answers.drop_last()).push(advisories),
            Err(_) => good_answers(answers.drop_last()),
        }
    }
}

/// The names and messages of the sources that failed, in order.
pub open spec fn failed_answers(labels: Seq<Seq<char>>, answers: Seq<AnswerView>) -> Seq<
    (Seq<char>, Seq<char>),
>
    decreases answers.len(),
{
    if answers.len() == 0 {
        Seq::empty()
    } else {
        match answers.last() {
            Ok(_) => failed_answers(labels, answers.drop_last()),
            Err(message) => failed_answers(labels, answers.drop_last()).push(
                (labels[answers.len() - 1], message),
            ),
        }
    }
}

/// Whether each of the sources may give its answer, and those that fail may have their names.
pub open spec fn may_all_answer(
    sources: Seq<Box<dyn AdvisorySource>>,
    components: Seq<ComponentView>,
    labels: Seq<Seq<char>>,
    answers: Seq<AnswerView>,
) -> bool {
    &&& answers.len() == sources.len()
    &&& labels.len() == sources.len()
    &&& forall|i: int|
        0 <= i < answers.len() ==> sources[i].may_answer(components, #[trigger] answers[i]) && (
        answers[i] is Err ==> sources[i].may_be_named(labels[i]))
}

/// The name of a source at a place does not matter for what failed before it.
proof fn lemma_failed_before(
    labels: Seq<Seq<char>>,
    others: Seq<Seq<char>>,
    answers: Seq<AnswerView>,
)
    requires
        labels.len() >= answers.len(),
        others.len() >= answers.len(),
        forall|i: int| 0 <= i < answers.len() ==> labels[i] == others[i],
    ensures
        failed_answers(labels, answers) == failed_answers(others, answers),
    decreases answers.len(),
{
    if answers.len() > 0 {
        lemma_failed_before(labels, others, answers.drop_last());
    }
}

/// Asks every source once, in order, and reports what they answered. A source that fails is
/// left out; its name and message are returned beside the report.
pub fn run_audit(components: &[Component], sources: &[Box<dyn AdvisorySource>]) -> (r: (
    AuditReport,
    Vec<(String, String)>,
))
    ensures
        exists|labels: Seq<Seq<char>>, answers: Seq<AnswerView>| #[trigger]
            may_all_answer(sources@, components.deep_view(), labels, answers) && is_report_of(
                r.0,
                good_answers(answers),
                components.deep_view(),
            ) && r.1.deep_view() == failed_answers(labels, answers),
{
    let ghost asked = components.deep_view();
    let ghost mut labels: Seq<Seq<char>> = Seq::empty();
    let ghost mut given: Seq<AnswerView> = Seq::empty();
    let mut answers: Vec<Vec<Advisory>> = Vec::new();
    let mut failures: Vec<(String, String)> = Vec::new();
    let mut i: usize = 0;
    assert(answers.deep_view() =~= good_answers(given));
    assert(failures.deep_view() =~= failed_answers(labels, given));
    while i < sources.len()
        invariant
            i <= sources@.len(),
            asked == components.deep_view(),
            given.len() == i,
            labels.len() == i,
            forall|j: int|
                0 <= j < i ==> sources@[j].may_answer(asked, #[trigger] given[j]) && (given[j]
                    is Err ==> sources@[j].may_be_named(labels[j])),
            answers.deep_view() == good_answers(given),
            failures.deep_view() == failed_answers(labels, given),
        decreases sources@.len() - i,
    {
        let ghost before = given;
        let ghost good = answers.deep_view();
        let ghost failed = failures.deep_view();
        let answer = sources[i].query(components);
        proof {
            given = given.push(answer_view(answer));
            assert(given.drop_last() =~= before);
        }
        match answer {
            Ok(advisories) => {
                let ghost v = advisories.deep_view();
                answers.push(advisories);
                proof {
                    let known = labels;
                    labels = labels.push(""@);
                    lemma_failed_before(known, labels, before);
                }
                assert(answers.deep_view() =~= good.push(v));
            },
            Err(message) => {
                let label = sources[i].name().to_owned();
                let ghost v = (label@, message@);
                proof {
                    let known = labels;
                    labels = labels.push(label@);
                    lemma_failed_before(known, labels, before);
                }
                failures.push((label, message));
                assert(failures.deep_view() =~= failed.push(v));
            },
        }
        i += 1;
    }
    let report = report_of(answers, components);
    let outcome = (report, failures);
    assert(may_all_answer(sources@, components.deep_view(), labels, given));
    outcome
}

} // verus!
