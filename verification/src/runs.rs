//! Bookkeeping for a run over a list of jobs that are started in order, finish in
//! any order and may be cancelled.

use crate::text;
use vstd::prelude::*;

verus! {

/// How far one job of a run has come.
#[derive(Clone, Copy, Debug, PartialEq, Eq, Structural)]
pub enum Stage {
    /// Not yet looked at.
    Waiting,
    /// Taken up and not yet settled.
    Running,
    /// Done with success.
    Done,
    /// Found not to need doing.
    Skipped,
    /// Failed.
    Failed,
    /// Given up because the run was cancelled.
    Abandoned,
}

/// What is reported when a job has been settled.
#[derive(Debug, PartialEq, Eq)]
pub struct Progress {
    /// The job's place in the list, counted from one.
    pub current: usize,
    pub total: usize,
    pub title: String,
    pub status: String,
}

/// How many jobs are at the given stage.
pub open spec fn count_at(stages: Seq<Stage>, at: Stage) -> nat
    decreases stages.len(),
{
    if stages.len() == 0 {
        0
    } else {
        count_at(stages.drop_last(), at) + if stages.last() == at {
            1nat
        } else {
            0nat
        }
    }
}

/// Moving one job changes the counts of the stages it leaves and enters.
pub proof fn lemma_count_update(stages: Seq<Stage>, i: int, to: Stage, at: Stage)
    requires
        0 <= i < stages.len(),
    ensures
        count_at(stages.update(i, to), at) + if stages[i] == at {
            1int
        } else {
            0int
        } == count_at(stages, at) + if to == at {
            1int
        } else {
            0int
        },
    decreases stages.len(),
{
    let after = stages.update(i, to);
    if i == stages.len() - 1 {
        assert(after.drop_last() =~= stages.drop_last());
    } else {
        assert(after.drop_last() =~= stages.drop_last().update(i, to));
        lemma_count_update(stages.drop_last(), i, to, at);
    }
}

/// The counts of all stages add up to the number of jobs.
pub proof fn lemma_counts_add_up(stages: Seq<Stage>)
    ensures
        count_at(stages, Stage::Waiting) + count_at(stages, Stage::Running) + count_at(
            stages,
            Stage::Done,
        ) + count_at(stages, Stage::Skipped) + count_at(stages, Stage::Failed) + count_at(
            stages,
            Stage::Abandoned,
        ) == stages.len(),
    decreases stages.len(),
{
    if stages.len() > 0 {
        lemma_counts_add_up(stages.drop_last());
    }
}

/// No job is at a stage that is counted zero times.
pub proof fn lemma_count_none(stages: Seq<Stage>, at: Stage)
    ensures
        count_at(stages, at) == 0 <==> forall|i: int|
            0 <= i < stages.len() ==> #[trigger] stages[i] != at,
    decreases stages.len(),
{
    if stages.len() > 0 {
        let init = stages.drop_last();
        lemma_count_none(init, at);
        if forall|i: int| 0 <= i < stages.len() ==> #[trigger] stages[i] != at {
            assert(forall|i: int| 0 <= i < init.len() ==> #[trigger] init[i] == stages[i]);
        }
        if count_at(stages, at) == 0 {
            assert forall|i: int| 0 <= i < stages.len() implies #[trigger] stages[i] != at by {
                if i < init.len() {
                    assert(init[i] == stages[i]);
                }
            }
        }
    }
}

/// A run over a list of jobs.
pub struct Run {
    stages: Vec<Stage>,
    next: usize,
    running: usize,
    done: usize,
    skipped: usize,
    failed: usize,
}

/// What a [`Run`] holds: the stage of each job, and how many were taken up.
#[verifier::ext_equal]
pub struct RunView {
    pub stages: Seq<Stage>,
    pub next: nat,
}

impl RunView {
    /// Jobs are taken up in order.
    pub open spec fn in_order(self) -> bool {
        &&& self.next <= self.stages.len()
        &&& forall|i: int|
            0 <= i < self.stages.len() ==> (#[trigger] self.stages[i] == Stage::Waiting <==> i
                >= self.next)
    }

    /// The run after the next job has been taken up.
    pub open spec fn taken(self) -> RunView {
        RunView {
            stages: self.stages.update(self.next as int, Stage::Running),
            next: self.next + 1,
        }
    }

    /// The run after job `i` has been settled.
    pub open spec fn settled(self, i: int, to: Stage) -> RunView {
        RunView { stages: self.stages.update(i, to), next: self.next }
    }

    /// No job is left to be taken up or settled, and none was given up.
    pub open spec fn is_complete(self) -> bool {
        forall|i: int|
            0 <= i < self.stages.len() ==> (#[trigger] self.stages[i] == Stage::Done
                || self.stages[i] == Stage::Skipped || self.stages[i] == Stage::Failed)
    }
}

/// The run before any job is taken up.
pub open spec fn fresh_run(total: nat) -> RunView {
    RunView { stages: Seq::new(total, |i: int| Stage::Waiting), next: 0 }
}

impl View for Run {
    type V = RunView;

    closed spec fn view(&self) -> RunView {
        RunView { stages: self.stages@, next: self.next as nat }
    }
}

impl Run {
    /// The counters agree with the stages of the jobs.
    pub closed spec fn wf(&self) -> bool {
        &&& self@.in_order()
        &&& self.running == count_at(self.stages@, Stage::Running)
        &&& self.done == count_at(self.stages@, Stage::Done)
        &&& self.skipped == count_at(self.stages@, Stage::Skipped)
        &&& self.failed == count_at(self.stages@, Stage::Failed)
    }

    /// A run over `total` jobs, none of them taken up.
    pub fn new(total: usize) -> (r: Self)
        ensures
            r.wf(),
            r@ == fresh_run(total as nat),
    {
        let mut stages: Vec<Stage> = Vec::new();
        let mut i: usize = 0;
        while i < total
            invariant
                i <= total,
                stages@ == Seq::new(i as nat, |j: int| Stage::Waiting),
                count_at(stages@, Stage::Running) == 0,
                count_at(stages@, Stage::Done) == 0,
                count_at(stages@, Stage::Skipped) == 0,
                count_at(stages@, Stage::Failed) == 0,
            decreases total - i,
        {
            let ghost before = stages@;
            stages.push(Stage::Waiting);
            assert(stages@.drop_last() =~= before);
            i += 1;
        }
        Run { stages, next: 0, running: 0, done: 0, skipped: 0, failed: 0 }
    }

    /// How many jobs there are.
    pub fn total(&self) -> (r: usize)
        ensures
            r == self@.stages.len(),
    {
        self.stages.len()
    }

    /// How many jobs were taken up and are not yet settled.
    pub fn running(&self) -> (r: usize)
        requires
            self.wf(),
        ensures
            r == count_at(self@.stages, Stage::Running),
    {
        self.running
    }

    /// How many jobs were done with success.
    pub fn done(&self) -> (r: usize)
        requires
            self.wf(),
        ensures
            r == count_at(self@.stages, Stage::Done),
    {
        self.done
    }

    /// How many jobs were found not to need doing.
    pub fn skipped(&self) -> (r: usize)
        requires
            self.wf(),
        ensures
            r == count_at(self@.stages, Stage::Skipped),
    {
        self.skipped
    }

    /// How many jobs failed.
    pub fn failed(&self) -> (r: usize)
        requires
            self.wf(),
        ensures
            r == count_at(self@.stages, Stage::Failed),
    {
        self.failed
    }

    /// Whether a job is left that was not taken up.
    pub fn is_waiting(&self) -> (r: bool)
        requires
            self.wf(),
        ensures
            r == (self@.next < self@.stages.len()),
    {
        self.next < self.stages.len()
    }

    /// The job that is taken up next, if one is left.
    pub fn next(&self) -> (r: usize)
        ensures
            r == self@.next,
    {
        self.next
    }

    /// Takes up the next job; none when the run is cancelled or no job is waiting.
    pub fn take_next(&mut self, cancelled: bool) -> (r: Option<usize>)
        requires
            old(self).wf(),
        ensures
            final(self).wf(),
            final(self)@.in_order(),
            match r {
                None => {
                    &&& cancelled || old(self)@.next == old(self)@.stages.len()
                    &&& final(self)@ == old(self)@
                },
                Some(i) => {
                    &&& !cancelled
                    &&& i == old(self)@.next < old(self)@.stages.len()
                    &&& final(self)@ == old(self)@.taken()
                },
            },
    {
        if cancelled || self.next == self.stages.len() {
            return None;
        }
        let i = self.next;
        proof {
            lemma_count_update(self.stages@, i as int, Stage::Running, Stage::Running);
            lemma_counts_add_up(self.stages@.update(i as int, Stage::Running));
            lemma_count_update(self.stages@, i as int, Stage::Running, Stage::Done);
            lemma_count_update(self.stages@, i as int, Stage::Running, Stage::Skipped);
            lemma_count_update(self.stages@, i as int, Stage::Running, Stage::Failed);
        }
        let n = self.stages.len();
        self.stages.set(i, Stage::Running);
        assert(n == self.stages@.len());
        self.running = self.running + 1;
        self.next = i + 1;
        Some(i)
    }

    /// Settles a job that was taken up.
    pub fn settle(&mut self, i: usize, to: Stage)
        requires
            old(self).wf(),
            i < old(self)@.stages.len(),
            old(self)@.stages[i as int] == Stage::Running,
            to == Stage::Done || to == Stage::Skipped || to == Stage::Failed || to
                == Stage::Abandoned,
        ensures
            final(self).wf(),
            final(self)@.in_order(),
            final(self)@ == old(self)@.settled(i as int, to),
    {
        proof {
            lemma_count_update(self.stages@, i as int, to, Stage::Running);
            lemma_count_update(self.stages@, i as int, to, Stage::Done);
            lemma_count_update(self.stages@, i as int, to, Stage::Skipped);
            lemma_count_update(self.stages@, i as int, to, Stage::Failed);
            lemma_counts_add_up(self.stages@.update(i as int, to));
        }
        let n = self.stages.len();
        self.stages.set(i, to);
        self.running = self.running - 1;
        if to == Stage::Done {
            self.done = self.done + 1;
        } else if to == Stage::Skipped {
            self.skipped = self.skipped + 1;
        } else if to == Stage::Failed {
            self.failed = self.failed + 1;
        }
        assert(n == self.stages@.len());
    }
}

/// A run that was not cancelled and in which every job has been settled counts each
/// job once: as done, as skipped or as failed.
pub proof fn law_complete_run_counts_every_job(run: RunView)
    requires
        run.is_complete(),
    ensures
        count_at(run.stages, Stage::Done) + count_at(run.stages, Stage::Skipped) + count_at(
            run.stages,
            Stage::Failed,
        ) == run.stages.len(),
{
    lemma_counts_add_up(run.stages);
    lemma_count_none(run.stages, Stage::Waiting);
    lemma_count_none(run.stages, Stage::Running);
    lemma_count_none(run.stages, Stage::Abandoned);
}

/// A cancelled run never counts more jobs than there are.
pub proof fn law_run_counts_no_job_twice(run: RunView)
    ensures
        count_at(run.stages, Stage::Done) + count_at(run.stages, Stage::Skipped) + count_at(
            run.stages,
            Stage::Failed,
        ) <= run.stages.len(),
{
    lemma_counts_add_up(run.stages);
}

/// A report on job `i` of `total`.
pub open spec fn reports(
    p: Progress,
    i: int,
    total: int,
    title: Seq<char>,
    status: Seq<char>,
) -> bool {
    &&& p.current == i + 1
    &&& p.total == total
    &&& p.title@ == title
    &&& p.status@ == status
}

/// A run over jobs that are reported by title.
pub struct JobRun {
    titles: Vec<String>,
    run: Run,
}

/// What a [`JobRun`] holds.
#[verifier::ext_equal]
pub struct JobRunView {
    pub titles: Seq<Seq<char>>,
    pub run: RunView,
}

impl View for JobRun {
    type V = JobRunView;

    closed spec fn view(&self) -> JobRunView {
        JobRunView { titles: text::views(self.titles@), run: self.run@ }
    }
}

impl JobRun {
    /// There is a title for each job, and the counters agree with the stages.
    pub closed spec fn wf(&self) -> bool {
        &&& self.run.wf()
        &&& self.run@.in_order()
        &&& self.run@.stages.len() == self.titles@.len()
    }

    /// Job `i` is taken up and not settled.
    pub open spec fn is_running(&self, i: int) -> bool {
        0 <= i < self@.run.stages.len() && self@.run.stages[i] == Stage::Running
    }

    /// A run over the jobs with the given titles, none of them taken up.
    pub fn new(titles: Vec<String>) -> (r: Self)
        ensures
            r.wf(),
            r@ == (JobRunView {
                titles: text::views(titles@),
                run: fresh_run(titles@.len()),
            }),
    {
        let run = Run::new(titles.len());
        JobRun { titles, run }
    }

    /// How many jobs there are.
    pub fn total(&self) -> (r: usize)
        requires
            self.wf(),
        ensures
            r == self@.run.stages.len() == self@.titles.len(),
    {
        self.titles.len()
    }

    /// How many jobs were taken up and are not yet settled.
    pub fn running(&self) -> (r: usize)
        requires
            self.wf(),
        ensures
            r == count_at(self@.run.stages, Stage::Running),
    {
        self.run.running()
    }

    /// Whether a job is left that was not taken up.
    pub fn is_waiting(&self) -> (r: bool)
        requires
            self.wf(),
        ensures
            r == (self@.run.next < self@.run.stages.len()),
            self@.run.in_order(),
    {
        self.run.is_waiting()
    }

    /// The job that is taken up next, if one is left.
    pub fn next(&self) -> (r: usize)
        ensures
            r == self@.run.next,
    {
        self.run.next()
    }

    /// How many jobs were done with success.
    pub fn done(&self) -> (r: usize)
        requires
            self.wf(),
        ensures
            r == count_at(self@.run.stages, Stage::Done),
    {
        self.run.done()
    }

    /// How many jobs were found not to need doing.
    pub fn skipped(&self) -> (r: usize)
        requires
            self.wf(),
        ensures
            r == count_at(self@.run.stages, Stage::Skipped),
    {
        self.run.skipped()
    }

    /// How many jobs failed.
    pub fn failed(&self) -> (r: usize)
        requires
            self.wf(),
        ensures
            r == count_at(self@.run.stages, Stage::Failed),
    {
        self.run.failed()
    }

    /// Takes up the next job; none when the run is cancelled or no job is waiting.
    pub fn start(&mut self, cancelled: bool) -> (r: Option<usize>)
        requires
            old(self).wf(),
        ensures
            final(self).wf(),
            final(self)@.titles == old(self)@.titles,
            match r {
                None => {
                    &&& cancelled || old(self)@.run.next == old(self)@.run.stages.len()
                    &&& final(self)@.run == old(self)@.run
                },
                Some(i) => {
                    &&& !cancelled
                    &&& i == old(self)@.run.next < old(self)@.run.stages.len()
                    &&& old(self)@.run.stages[i as int] == Stage::Waiting
                    &&& final(self)@.run == old(self)@.run.taken()
                    &&& final(self).is_running(i as int)
                },
            },
    {
        self.run.take_next(cancelled)
    }

    /// Settles job `i` and reports it with the given status.
    pub fn report(&mut self, i: usize, to: Stage, status: String) -> (p: Progress)
        requires
            old(self).wf(),
            old(self).is_running(i as int),
            to == Stage::Done || to == Stage::Skipped || to == Stage::Failed,
        ensures
            final(self).wf(),
            final(self)@.titles == old(self)@.titles,
            final(self)@.run == old(self)@.run.settled(i as int, to),
            reports(
                p,
                i as int,
                old(self)@.run.stages.len() as int,
                old(self)@.titles[i as int],
                status@,
            ),
    {
        let total = self.titles.len();
        let title = self.titles[i].clone();
        self.run.settle(i, to);
        Progress { current: i + 1, total, title, status }
    }

    /// Settles job `i` as failed and reports the reason.
    pub fn report_error(&mut self, i: usize, reason: &str) -> (p: Progress)
        requires
            old(self).wf(),
            old(self).is_running(i as int),
        ensures
            final(self).wf(),
            final(self)@.titles == old(self)@.titles,
            final(self)@.run == old(self)@.run.settled(i as int, Stage::Failed),
            reports(
                p,
                i as int,
                old(self)@.run.stages.len() as int,
                old(self)@.titles[i as int],
                "error: "@ + reason@,
            ),
    {
        let status = "error: ".to_string().concat(reason);
        self.report(i, Stage::Failed, status)
    }

    /// Gives job `i` up because the run was cancelled; nothing is reported.
    pub fn abandon(&mut self, i: usize)
        requires
            old(self).wf(),
            old(self).is_running(i as int),
        ensures
            final(self).wf(),
            final(self)@.titles == old(self)@.titles,
            final(self)@.run == old(self)@.run.settled(i as int, Stage::Abandoned),
    {
        self.run.settle(i, Stage::Abandoned);
    }
}

/// As many jobs are at a stage as a look through the list finds there.
pub proof fn law_counts_are_of_the_list(stages: Seq<Stage>, at: Stage)
    ensures
        count_at(stages, at) == stages.filter(|s: Stage| s == at).len(),
    decreases stages.len(),
{
    reveal(Seq::filter);
    if stages.len() > 0 {
        law_counts_are_of_the_list(stages.drop_last(), at);
    }
}

/// A run begins with all jobs waiting. Taking one up, and settling one, changes that job's
/// stage and no other's; settling takes up no job.
pub proof fn law_one_job_at_a_time(run: RunView, total: nat, i: int, to: Stage, k: int)
    requires
        run.next < run.stages.len(),
        0 <= i < run.stages.len(),
        0 <= k < run.stages.len(),
    ensures
        fresh_run(total).stages.len() == total,
        fresh_run(total).next == 0,
        forall|j: int| 0 <= j < total ==> #[trigger] fresh_run(total).stages[j] == Stage::Waiting,
        run.taken().next == run.next + 1,
        run.taken().stages.len() == run.stages.len(),
        run.taken().stages[k] == if k == run.next {
            Stage::Running
        } else {
            run.stages[k]
        },
        run.settled(i, to).next == run.next,
        run.settled(i, to).stages.len() == run.stages.len(),
        run.settled(i, to).stages[k] == if k == i {
            to
        } else {
            run.stages[k]
        },
{
}

/// Settling a job that runs makes room for another, and counts it where it was settled.
pub proof fn law_settling_moves_one_job(run: RunView, i: int, to: Stage)
    requires
        0 <= i < run.stages.len(),
        run.stages[i] == Stage::Running,
        to != Stage::Running,
    ensures
        count_at(run.settled(i, to).stages, Stage::Running) == count_at(run.stages, Stage::Running)
            - 1,
        count_at(run.settled(i, to).stages, to) == count_at(run.stages, to) + 1,
        forall|at: Stage|
            at != to && at != Stage::Running ==> #[trigger] count_at(
                run.settled(i, to).stages,
                at,
            ) == count_at(run.stages, at),
{
    lemma_count_update(run.stages, i, to, Stage::Running);
    lemma_count_update(run.stages, i, to, to);
    assert forall|at: Stage| at != to && at != Stage::Running implies #[trigger] count_at(
        run.settled(i, to).stages,
        at,
    ) == count_at(run.stages, at) by {
        lemma_count_update(run.stages, i, to, at);
    }
}

/// A report counts jobs from one: the first of the list is reported as the first, and the
/// last with the number of all.
pub proof fn law_reports_count_from_one(
    p: Progress,
    i: int,
    total: int,
    title: Seq<char>,
    status: Seq<char>,
)
    requires
        reports(p, i, total, title, status),
    ensures
        i == 0 ==> p.current == 1,
        i == total - 1 ==> p.current == p.total,
        p.current == i + 1,
        p.total == total,
        p.title@ == title,
        p.status@ == status,
{
}

} // verus!
