//! An install, step by step: what is there is looked at first; unless it is what is wanted, it
//! is cleared, each package is fetched, checked and unpacked, the executables are linked, and
//! only then the marker is written.
//!
//! [`Install`] says what to do next; the caller does it and says what came of it.

use super::{
    all_bins, is_up_to_date, link_bins, link_plan, marker_line, tree_marker, verified_unpacking,
    verify_and_plan, BinLink, InstallError, InstallErrorView, PlannedPackage, PlannedView,
};
use crate::extract::{Plan, PlanView};
use crate::path_safety::{
    is_within, path_under, safe_join, PathError, PathErrorView,
};
use crate::registry::{Resolved, ResolvedView};
use crate::text::{copy_opt, join, trimmed};
use vstd::prelude::*;
use vstd::string::*;

verus! {

/// A package to fetch, check and unpack.
#[derive(Debug)]
pub struct Job {
    /// The path to unpack to, under the base of the install.
    pub path: String,
    /// The package name.
    pub name: String,
    /// The URL of the tarball.
    pub url: String,
    /// What the tarball is checked against.
    pub integrity: Option<String>,
}

/// What a [`Job`] holds.
#[verifier::ext_equal]
pub struct JobView {
    pub path: Seq<char>,
    pub name: Seq<char>,
    pub url: Seq<char>,
    pub integrity: Option<Seq<char>>,
}

impl DeepView for Job {
    type V = JobView;

    open spec fn deep_view(&self) -> JobView {
        JobView {
            path: self.path@,
            name: self.name@,
            url: self.url@,
            integrity: self.integrity.deep_view(),
        }
    }
}

/// Where an install stands.
#[derive(Debug, Clone, Copy, PartialEq, Eq, Structural)]
pub enum Stage {
    /// What is there is being looked at.
    Checking,
    /// What is there is being cleared.
    Clearing,
    /// The tarball of the package with this index is being fetched.
    Fetching(usize),
    /// The package with this index is being unpacked.
    Unpacking(usize),
    /// The link with this index is being made.
    Linking(usize),
    /// The marker is being written.
    Marking,
    /// Nothing is left to do.
    Finished,
}

/// An install.
#[derive(Debug)]
pub struct Install {
    /// The directory that the paths of the packages lie under, seen from the project.
    base: String,
    jobs: Vec<Job>,
    links: Vec<BinLink>,
    /// The error, if any, that comes after the links.
    link_failure: Option<PathError>,
    /// The marker that is wanted.
    want: String,
    stage: Stage,
}

/// What an [`Install`] holds.
#[verifier::ext_equal]
pub struct InstallView {
    pub base: Seq<char>,
    pub jobs: Seq<JobView>,
    pub links: Seq<(Seq<char>, Seq<char>)>,
    pub link_failure: Option<PathErrorView>,
    pub want: Seq<char>,
    pub stage: Stage,
}

impl DeepView for Install {
    type V = InstallView;

    closed spec fn deep_view(&self) -> InstallView {
        InstallView {
            base: self.base@,
            jobs: self.jobs.deep_view(),
            links: self.links.deep_view(),
            link_failure: self.link_failure.deep_view(),
            want: self.want@,
            stage: self.stage,
        }
    }
}

/// What came of a step.
#[derive(Debug)]
pub enum Event {
    /// Whether `node_modules/` holds anything, and its marker, if that could be read.
    Checked { has_content: bool, marker: Option<String> },
    /// The bytes that were fetched.
    Fetched(Vec<u8>),
    /// What was to be done is done.
    Done,
}

/// What an [`Event`] holds.
#[verifier::ext_equal]
pub enum EventView {
    Checked { has_content: bool, marker: Option<Seq<char>> },
    Fetched(Seq<u8>),
    Done,
}

impl DeepView for Event {
    type V = EventView;

    open spec fn deep_view(&self) -> EventView {
        match *self {
            Event::Checked { has_content, marker } => EventView::Checked {
                has_content,
                marker: marker.deep_view(),
            },
            Event::Fetched(bytes) => EventView::Fetched(bytes@),
            Event::Done => EventView::Done,
        }
    }
}

/// What is to be done next.
#[derive(Debug)]
pub enum Step {
    /// Clear `node_modules/`.
    Clear,
    /// Fetch this URL.
    Fetch { url: String },
    /// Unpack the tarball that was fetched into this directory of the project.
    Unpack { dir: String, plan: Plan },
    /// Make this link in `node_modules/.bin/`.
    Link(BinLink),
    /// Write this marker.
    Mark { want: String },
    /// Nothing: the install is complete.
    Finish,
}

/// What a [`Step`] holds.
#[verifier::ext_equal]
pub enum StepView {
    Clear,
    Fetch { url: Seq<char> },
    Unpack { dir: Seq<char>, plan: PlanView },
    Link((Seq<char>, Seq<char>)),
    Mark { want: Seq<char> },
    Finish,
}

impl DeepView for Step {
    type V = StepView;

    open spec fn deep_view(&self) -> StepView {
        match *self {
            Step::Clear => StepView::Clear,
            Step::Fetch { url } => StepView::Fetch { url: url@ },
            Step::Unpack { dir, plan } => StepView::Unpack { dir: dir@, plan: plan.deep_view() },
            Step::Link(link) => StepView::Link(link.deep_view()),
            Step::Mark { want } => StepView::Mark { want: want@ },
            Step::Finish => StepView::Finish,
        }
    }
}

/// Whether an event can come of what is being done.
pub open spec fn event_fits(stage: Stage, event: EventView) -> bool {
    match stage {
        Stage::Checking => event is Checked,
        Stage::Fetching(_) => event is Fetched,
        Stage::Finished => false,
        _ => event is Done,
    }
}

/// Whether the place of an install is one that it has.
pub open spec fn stage_fits(install: InstallView) -> bool {
    match install.stage {
        Stage::Fetching(i) => i < install.jobs.len(),
        Stage::Unpacking(i) => i < install.jobs.len(),
        Stage::Linking(k) => k < install.links.len(),
        _ => true,
    }
}

/// The outcome of a step: the next place and what is to be done there, or an error.
pub type StepOutcome = Result<(Stage, StepView), InstallErrorView>;

/// What comes when the first `k` links are made.
pub open spec fn after_links(install: InstallView, k: int) -> StepOutcome {
    if k < install.links.len() {
        Ok((Stage::Linking(k as usize), StepView::Link(install.links[k])))
    } else {
        match install.link_failure {
            Some(e) => Err(InstallErrorView::Path(e)),
            None => Ok((Stage::Marking, StepView::Mark { want: install.want })),
        }
    }
}

/// What comes when the first `i` packages are unpacked.
pub open spec fn after_packages(install: InstallView, i: int) -> StepOutcome {
    if i < install.jobs.len() {
        let job = install.jobs[i];
        if is_within(job.path) {
            Ok((Stage::Fetching(i as usize), StepView::Fetch { url: job.url }))
        } else {
            Err(InstallErrorView::Path(PathErrorView::Escapes(job.path)))
        }
    } else {
        after_links(install, 0)
    }
}

/// What comes of an event.
pub open spec fn after_event(install: InstallView, event: EventView) -> StepOutcome {
    match (install.stage, event) {
        (Stage::Checking, EventView::Checked { has_content, marker }) => if has_content && marker
            is Some && trimmed(marker->Some_0) == install.want {
            Ok((Stage::Finished, StepView::Finish))
        } else {
            Ok((Stage::Clearing, StepView::Clear))
        },
        (Stage::Clearing, _) => after_packages(install, 0),
        (Stage::Fetching(i), EventView::Fetched(bytes)) => {
            let job = install.jobs[i as int];
            match verified_unpacking(job.name, bytes, job.integrity) {
                Ok(plan) => Ok(
                    (
                        Stage::Unpacking(i),
                        StepView::Unpack { dir: path_under(install.base, job.path), plan },
                    ),
                ),
                Err(e) => Err(e),
            }
        },
        (Stage::Unpacking(i), _) => after_packages(install, i + 1),
        (Stage::Linking(k), _) => after_links(install, k + 1),
        _ => Ok((Stage::Finished, StepView::Finish)),
    }
}

/// The job of a package of a lockfile.
pub open spec fn locked_job() -> spec_fn(PlannedView) -> JobView {
    |p: PlannedView|
        JobView { path: p.key, name: p.name, url: p.resolved, integrity: p.integrity }
}

/// The job of a package of a tree.
pub open spec fn tree_job() -> spec_fn(ResolvedView) -> JobView {
    |r: ResolvedView|
        JobView { path: r.name, name: r.name, url: r.tarball_url, integrity: r.integrity }
}

/// The install of a plan: the packages go where their keys say, and their executables are
/// linked.
pub open spec fn locked_install(plan: Seq<PlannedView>, want: Seq<char>) -> InstallView {
    let links = link_plan(all_bins(plan));
    InstallView {
        base: ""@,
        jobs: plan.map_values(locked_job()),
        links: links.links,
        link_failure: links.failure,
        want,
        stage: Stage::Checking,
    }
}

/// The install of a tree: the packages go into `node_modules/` under their names.
pub open spec fn tree_install(tree: Seq<ResolvedView>) -> InstallView {
    InstallView {
        base: "node_modules"@,
        jobs: tree.map_values(tree_job()),
        links: Seq::empty(),
        link_failure: None,
        want: join(tree.map_values(marker_line()), "\n"@),
        stage: Stage::Checking,
    }
}

impl Install {
    #[verifier::type_invariant]
    closed spec fn well_formed(self) -> bool {
        stage_fits(self.deep_view())
    }

    /// The install of a plan, with `want` as its marker: what is there is to be looked at.
    pub fn from_lockfile(plan: &Vec<PlannedPackage>, want: &str) -> (r: Install)
        ensures
            r.deep_view() == locked_install(plan.deep_view(), want@),
    {
        let ghost all = plan.deep_view();
        let mut jobs: Vec<Job> = Vec::new();
        let mut i: usize = 0;
        assert(jobs.deep_view() =~= all.take(0).map_values(locked_job()));
        while i < plan.len()
            invariant
                i <= plan@.len(),
                all == plan.deep_view(),
                jobs.deep_view() == all.take(i as int).map_values(locked_job()),
            decreases plan@.len() - i,
        {
            let ghost done = jobs.deep_view();
            let p = &plan[i];
            assert(all[i as int] == p.deep_view());
            let job = Job {
                path: p.key.clone(),
                name: p.name.clone(),
                url: p.resolved.clone(),
                integrity: copy_opt(&p.integrity),
            };
            let ghost v = job.deep_view();
            jobs.push(job);
            assert(jobs.deep_view() =~= done.push(v));
            assert(all.take(i + 1).map_values(locked_job()) =~= done.push(v));
            i += 1;
        }
        assert(all.take(all.len() as int) =~= all);
        let links = link_bins(plan);
        Install {
            base: "".to_owned(),
            jobs,
            links: links.links,
            link_failure: links.failure,
            want: want.to_owned(),
            stage: Stage::Checking,
        }
    }

    /// The install of a tree: what is there is to be looked at.
    pub fn node_modules(tree: &Vec<Resolved>) -> (r: Install)
        ensures
            r.deep_view() == tree_install(tree.deep_view()),
    {
        let ghost all = tree.deep_view();
        let mut jobs: Vec<Job> = Vec::new();
        let mut i: usize = 0;
        assert(jobs.deep_view() =~= all.take(0).map_values(tree_job()));
        while i < tree.len()
            invariant
                i <= tree@.len(),
                all == tree.deep_view(),
                jobs.deep_view() == all.take(i as int).map_values(tree_job()),
            decreases tree@.len() - i,
        {
            let ghost done = jobs.deep_view();
            let p = &tree[i];
            assert(all[i as int] == p.deep_view());
            let job = Job {
                path: p.name.clone(),
                name: p.name.clone(),
                url: p.tarball_url.clone(),
                integrity: copy_opt(&p.integrity),
            };
            let ghost v = job.deep_view();
            jobs.push(job);
            assert(jobs.deep_view() =~= done.push(v));
            assert(all.take(i + 1).map_values(tree_job()) =~= done.push(v));
            i += 1;
        }
        assert(all.take(all.len() as int) =~= all);
        let links: Vec<BinLink> = Vec::new();
        assert(links.deep_view() =~= Seq::<(Seq<char>, Seq<char>)>::empty());
        Install {
            base: "node_modules".to_owned(),
            jobs,
            links,
            link_failure: None,
            want: tree_marker(tree),
            stage: Stage::Checking,
        }
    }

    /// Where the install stands.
    pub fn stage(&self) -> (r: Stage)
        ensures
            r == self.deep_view().stage,
    {
        self.stage
    }

    /// What comes when the first `k` links are made.
    fn next_link(&self, k: usize) -> (r: Result<(Stage, Step), InstallError>)
        ensures
            outcome_view(r) == after_links(self.deep_view(), k as int),
            r is Ok ==> stage_fits(InstallView { stage: r->Ok_0.0, ..self.deep_view() }),
    {
        if k < self.links.len() {
            let link = &self.links[k];
            assert(self.links.deep_view()[k as int] == link.deep_view());
            Ok(
                (
                    Stage::Linking(k),
                    Step::Link(BinLink { name: link.name.clone(), path: link.path.clone() }),
                ),
            )
        } else {
            match &self.link_failure {
                Some(e) => Err(InstallError::Path(e.copy())),
                None => Ok((Stage::Marking, Step::Mark { want: self.want.clone() })),
            }
        }
    }

    /// What comes when the first `i` packages are unpacked.
    fn next_package(&self, i: usize) -> (r: Result<(Stage, Step), InstallError>)
        ensures
            outcome_view(r) == after_packages(self.deep_view(), i as int),
            r is Ok ==> stage_fits(InstallView { stage: r->Ok_0.0, ..self.deep_view() }),
    {
        if i < self.jobs.len() {
            let job = &self.jobs[i];
            assert(self.jobs.deep_view()[i as int] == job.deep_view());
            match safe_join(self.base.as_str(), job.path.as_str()) {
                Ok(_) => Ok((Stage::Fetching(i), Step::Fetch { url: job.url.clone() })),
                Err(e) => Err(InstallError::Path(e)),
            }
        } else {
            self.next_link(0)
        }
    }

    /// What comes of an event.
    fn outcome(&self, event: Event) -> (r: Result<(Stage, Step), InstallError>)
        requires
            event_fits(self.deep_view().stage, event.deep_view()),
        ensures
            outcome_view(r) == after_event(self.deep_view(), event.deep_view()),
            r is Ok ==> stage_fits(InstallView { stage: r->Ok_0.0, ..self.deep_view() }),
    {
        proof {
            use_type_invariant(self);
        }
        assert(self.jobs.len() == self.jobs.deep_view().len());
        assert(self.links.len() == self.links.deep_view().len());
        match (self.stage, event) {
            (Stage::Checking, Event::Checked { has_content, marker }) => {
                let found = match &marker {
                    Some(text) => Some(text.as_str()),
                    None => None,
                };
                if is_up_to_date(has_content, found, self.want.as_str()) {
                    Ok((Stage::Finished, Step::Finish))
                } else {
                    Ok((Stage::Clearing, Step::Clear))
                }
            },
            (Stage::Clearing, _) => self.next_package(0),
            (Stage::Fetching(i), Event::Fetched(bytes)) => {
                let job = &self.jobs[i];
                assert(self.jobs.deep_view()[i as int] == job.deep_view());
                let integrity = match &job.integrity {
                    Some(sri) => Some(sri.as_str()),
                    None => None,
                };
                match verify_and_plan(job.name.as_str(), &bytes, integrity) {
                    Ok(plan) => Ok(
                        (
                            Stage::Unpacking(i),
                            Step::Unpack {
                                dir: crate::path_safety::join_path(
                                    self.base.as_str(),
                                    job.path.as_str(),
                                ),
                                plan,
                            },
                        ),
                    ),
                    Err(e) => Err(e),
                }
            },
            (Stage::Unpacking(i), _) => self.next_package(i + 1),
            (Stage::Linking(k), _) => self.next_link(k + 1),
            _ => Ok((Stage::Finished, Step::Finish)),
        }
    }

    /// Takes what came of the last step, and says what is to be done next. After an error the
    /// install stays where it was.
    pub fn next(&mut self, event: Event) -> (r: Result<Step, InstallError>)
        requires
            event_fits(old(self).deep_view().stage, event.deep_view()),
        ensures
            match after_event(old(self).deep_view(), event.deep_view()) {
                Ok((stage, step)) => r is Ok && r->Ok_0.deep_view() == step
                    && final(self).deep_view() == (InstallView { stage, ..old(self).deep_view() }),
                Err(e) => r is Err && r->Err_0.deep_view() == e && final(self).deep_view() == old(
                    self,
                ).deep_view(),
            },
    {
        match self.outcome(event) {
            Ok((stage, step)) => {
                self.stage = stage;
                Ok(step)
            },
            Err(e) => Err(e),
        }
    }
}

/// What the outcome of a step holds.
pub open spec fn outcome_view(r: Result<(Stage, Step), InstallError>) -> StepOutcome {
    match r {
        Ok((stage, step)) => Ok((stage, step.deep_view())),
        Err(e) => Err(e.deep_view()),
    }
}

/// Where a row of events leads, and the steps that are taken on the way; nothing where one of
/// the events cannot come there or ends in an error.
pub open spec fn run_of(start: InstallView, events: Seq<EventView>) -> Option<
    (InstallView, Seq<StepView>),
>
    decreases events.len(),
{
    if events.len() == 0 {
        Some((start, Seq::empty()))
    } else {
        match run_of(start, events.drop_last()) {
            None => None,
            Some((at, steps)) => if !event_fits(at.stage, events.last()) {
                None
            } else {
                match after_event(at, events.last()) {
                    Ok((stage, step)) => Some((InstallView { stage, ..at }, steps.push(step))),
                    Err(_) => None,
                }
            },
        }
    }
}

/// Whether a plan is for bytes that were checked against what the job pins.
pub open spec fn is_checked(job: JobView, plan: PlanView) -> bool {
    exists|bytes: Seq<u8>| #[trigger]
        verified_unpacking(job.name, bytes, job.integrity) == Ok::<PlanView, InstallErrorView>(
            plan,
        )
}

/// Whether the package of a job was unpacked: to its path, and from checked bytes.
#[verifier::opaque]
pub open spec fn is_unpacked(base: Seq<char>, job: JobView, steps: Seq<StepView>) -> bool {
    is_within(job.path) && exists|k: int|
        0 <= k < steps.len() && (#[trigger] steps[k] matches StepView::Unpack { dir, plan } && dir
            == path_under(base, job.path) && is_checked(job, plan))
}

/// How many packages are unpacked, or about to be.
pub open spec fn unpacked_at(install: InstallView) -> int {
    match install.stage {
        Stage::Fetching(i) => i as int,
        Stage::Unpacking(i) => i + 1,
        Stage::Linking(_) => install.jobs.len() as int,
        Stage::Marking => install.jobs.len() as int,
        _ => 0,
    }
}

/// How many links are made, or about to be.
pub open spec fn linked_at(install: InstallView) -> int {
    match install.stage {
        Stage::Linking(k) => k + 1,
        Stage::Marking => install.links.len() as int,
        _ => 0,
    }
}

/// A package that was unpacked stays so.
proof fn lemma_unpacked_stays(base: Seq<char>, job: JobView, steps: Seq<StepView>, step: StepView)
    requires
        is_unpacked(base, job, steps),
    ensures
        is_unpacked(base, job, steps.push(step)),
{
    reveal(is_unpacked);
    let k = choose|k: int|
        0 <= k < steps.len() && (#[trigger] steps[k] matches StepView::Unpack { dir, plan } && dir
            == path_under(base, job.path) && is_checked(job, plan));
    assert(steps.push(step)[k] == steps[k]);
}

/// What holds of every place that an install comes to.
proof fn lemma_run(start: InstallView, events: Seq<EventView>)
    requires
        start.stage == Stage::Checking,
        start.jobs.len() <= usize::MAX,
        start.links.len() <= usize::MAX,
        run_of(start, events) is Some,
    ensures
        ({
            let (at, steps) = run_of(start, events)->Some_0;
            &&& at == (InstallView { stage: at.stage, ..start })
            &&& stage_fits(at)
            &&& steps.len() == events.len()
            &&& at.stage == Stage::Checking <==> events.len() == 0
            &&& at.stage != Stage::Checking && at.stage != Stage::Finished ==> steps[0]
                == StepView::Clear
            &&& forall|j: int|
                0 <= j < unpacked_at(at) ==> is_unpacked(
                    start.base,
                    #[trigger] start.jobs[j],
                    steps,
                )
            &&& forall|j: int|
                0 <= j < linked_at(at) ==> steps.contains(StepView::Link(#[trigger] start.links[j]))
            &&& (match at.stage {
                Stage::Fetching(i) => is_within(start.jobs[i as int].path),
                Stage::Unpacking(i) => is_within(start.jobs[i as int].path),
                Stage::Marking => start.link_failure is None,
                _ => true,
            })
        }),
    decreases events.len(),
{
    if events.len() > 0 {
        let front = events.drop_last();
        lemma_run(start, front);
        let (before, taken) = run_of(start, front)->Some_0;
        let (at, steps) = run_of(start, events)->Some_0;
        let step = steps.last();
        assert(steps =~= taken.push(step));
        assert forall|j: int| 0 <= j < unpacked_at(at) implies is_unpacked(
            start.base,
            #[trigger] start.jobs[j],
            steps,
        ) by {
            if j < unpacked_at(before) {
                lemma_unpacked_stays(start.base, start.jobs[j], taken, step);
            } else {
                reveal(is_unpacked);
                assert(steps[steps.len() - 1] == step);
                let bytes = events.last()->Fetched_0;
                assert(verified_unpacking(start.jobs[j].name, bytes, start.jobs[j].integrity)
                    is Ok);
            }
        }
        assert forall|j: int| 0 <= j < linked_at(at) implies steps.contains(
            StepView::Link(#[trigger] start.links[j]),
        ) by {
            if j < linked_at(before) {
                let k = choose|k: int|
                    0 <= k < taken.len() && taken[k] == StepView::Link(start.links[j]);
                assert(steps[k] == taken[k]);
            } else {
                assert(steps[steps.len() - 1] == StepView::Link(start.links[j]));
            }
        }
        if taken.len() > 0 {
            assert(steps[0] == taken[0]);
        }
    }
}

/// An install is marked as complete only once what was there was cleared, every package was
/// unpacked to its own path within the project from bytes that match what it pins, and every
/// executable was linked.
pub proof fn a_marked_install_is_verified(start: InstallView, events: Seq<EventView>)
    requires
        start.stage == Stage::Checking,
        start.jobs.len() <= usize::MAX,
        start.links.len() <= usize::MAX,
        run_of(start, events) is Some,
        run_of(start, events)->Some_0.0.stage == Stage::Marking,
    ensures
        ({
            let steps = run_of(start, events)->Some_0.1;
            &&& steps.last() == (StepView::Mark { want: start.want })
            &&& steps[0] == StepView::Clear
            &&& start.link_failure is None
            &&& forall|j: int|
                0 <= j < start.jobs.len() ==> is_unpacked(
                    start.base,
                    #[trigger] start.jobs[j],
                    steps,
                )
            &&& forall|j: int|
                0 <= j < start.links.len() ==> steps.contains(
                    StepView::Link(#[trigger] start.links[j]),
                )
        }),
{
    lemma_run(start, events);
    lemma_run(start, events.drop_last());
}

/// What is there already and has the wanted marker is left as it is; everything else is
/// cleared.
pub proof fn an_install_is_redone_unless_marked(
    start: InstallView,
    has_content: bool,
    marker: Option<Seq<char>>,
)
    requires
        start.stage == Stage::Checking,
    ensures
        after_event(start, EventView::Checked { has_content, marker }) == (if has_content && marker
            is Some && trimmed(marker->Some_0) == start.want {
            Ok::<(Stage, StepView), InstallErrorView>((Stage::Finished, StepView::Finish))
        } else {
            Ok::<(Stage, StepView), InstallErrorView>((Stage::Clearing, StepView::Clear))
        }),
{
}

} // verus!
