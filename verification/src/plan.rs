//! Work on the books of a list: which of them need it, and a run that does it.

use crate::books;
use crate::books::{Book, BookView};
use crate::runs;
use crate::runs::{JobRun, Progress, RunView, Stage};
use crate::text;
use vstd::prelude::*;

verus! {

/// The books with a repository name for which nothing is there yet, in order.
pub open spec fn wanted(list: Seq<BookView>, there: Seq<bool>) -> Seq<BookView>
    decreases list.len(),
{
    if list.len() == 0 {
        Seq::empty()
    } else {
        let before = wanted(list.drop_last(), there);
        let b = list.last();
        if b.name().len() > 0 && !there[list.len() - 1] {
            before.push(b)
        } else {
            before
        }
    }
}

/// How many books with a repository name have something there already.
pub open spec fn count_there(list: Seq<BookView>, there: Seq<bool>) -> nat
    decreases list.len(),
{
    if list.len() == 0 {
        0
    } else {
        count_there(list.drop_last(), there) + if list.last().name().len() > 0
            && there[list.len() - 1] {
            1nat
        } else {
            0nat
        }
    }
}

/// How many books have no repository name.
pub open spec fn count_nameless(list: Seq<BookView>) -> nat
    decreases list.len(),
{
    if list.len() == 0 {
        0
    } else {
        count_nameless(list.drop_last()) + if list.last().name().len() == 0 {
            1nat
        } else {
            0nat
        }
    }
}

/// The books there is work to do on, and how many need none: `there` says of each
/// book whether what the work makes is there already. Books without a repository
/// name are passed over.
pub fn plan_work(list: &Vec<Book>, there: &Vec<bool>) -> (r: (Vec<Book>, usize))
    requires
        there@.len() == list@.len(),
    ensures
        books::views(r.0@) == wanted(books::views(list@), there@),
        r.1 == count_there(books::views(list@), there@),
{
    let ghost all = books::views(list@);
    let mut jobs: Vec<Book> = Vec::new();
    let mut done: usize = 0;
    let mut i: usize = 0;
    assert(books::views(jobs@) =~= wanted(all.take(0), there@));
    while i < list.len()
        invariant
            i <= list@.len() == there@.len(),
            all == books::views(list@),
            books::views(jobs@) == wanted(all.take(i as int), there@),
            done == count_there(all.take(i as int), there@) <= i,
        decreases list@.len() - i,
    {
        let rn = books::repo_name(&list[i]);
        let ghost before = jobs@;
        assert(all.take(i + 1).drop_last() =~= all.take(i as int));
        assert(all.take(i + 1).last() == list@[i as int]@);
        if !rn.as_str().is_empty() {
            if there[i] {
                done += 1;
            } else {
                jobs.push(list[i].clone());
                assert(books::views(jobs@) =~= books::views(before).push(list@[i as int]@));
            }
        }
        i += 1;
    }
    assert(all.take(i as int) =~= all);
    (jobs, done)
}

/// Every book is accounted for once: there is work to do on it, it needs none, or it
/// has no repository to work from.
pub proof fn law_every_book_is_planned(list: Seq<BookView>, there: Seq<bool>)
    ensures
        wanted(list, there).len() + count_there(list, there) + count_nameless(list) == list.len(),
    decreases list.len(),
{
    if list.len() > 0 {
        law_every_book_is_planned(list.drop_last(), there);
    }
}

/// There is work to do on exactly the named books for which nothing is there.
pub proof fn law_wanted_books(list: Seq<BookView>, there: Seq<bool>)
    ensures
        forall|b: BookView| #[trigger]
            wanted(list, there).contains(b) <==> exists|i: int|
                0 <= i < list.len() && #[trigger] list[i] == b && b.name().len() > 0 && !there[i],
    decreases list.len(),
{
    if list.len() > 0 {
        let init = list.drop_last();
        let before = wanted(init, there);
        law_wanted_books(init, there);
        assert forall|b: BookView| #[trigger]
            wanted(list, there).contains(b) <==> exists|i: int|
                0 <= i < list.len() && #[trigger] list[i] == b && b.name().len() > 0
                    && !there[i] by {
            if wanted(list, there).contains(b) {
                let k = choose|k: int|
                    0 <= k < wanted(list, there).len() && wanted(list, there)[k] == b;
                if k < before.len() {
                    assert(before[k] == b);
                    assert(before.contains(b));
                    let i = choose|i: int|
                        0 <= i < init.len() && #[trigger] init[i] == b && b.name().len() > 0
                            && !there[i];
                    assert(list[i] == b);
                } else {
                    assert(list[list.len() - 1] == b);
                }
            }
            if exists|i: int|
                0 <= i < list.len() && #[trigger] list[i] == b && b.name().len() > 0
                    && !there[i] {
                let i = choose|i: int|
                    0 <= i < list.len() && #[trigger] list[i] == b && b.name().len() > 0
                        && !there[i];
                if i < init.len() {
                    assert(init[i] == b);
                    assert(before.contains(b));
                    let k = choose|k: int| 0 <= k < before.len() && before[k] == b;
                    assert(wanted(list, there)[k] == b);
                } else {
                    assert(wanted(list, there)[before.len() as int] == b);
                }
            }
        }
    }
}

/// What became of the work on one book.
pub enum JobOutcome {
    /// The run was cancelled before the work began.
    Cancelled,
    /// It was done.
    Done,
    /// It failed, for the reason given.
    Failed(String),
}

/// What a run has to do next.
#[derive(Clone, Copy, Debug, PartialEq, Eq)]
pub enum Turn {
    /// To work on the book with that number.
    Job(usize),
    /// To wait until the work on some book has ended: as many are worked on as may be.
    Full,
    /// To take up nothing more.
    Over,
}

/// A run of work on the books of a list that need it.
pub struct BookRun {
    list: Ghost<Seq<BookView>>,
    on_hand: Ghost<Seq<bool>>,
    jobs: Vec<Book>,
    there: usize,
    status: String,
    limit: usize,
    run: JobRun,
}

/// What a [`BookRun`] holds.
#[verifier::ext_equal]
pub struct BookRunView {
    /// The books that the run was begun with.
    pub list: Seq<BookView>,
    /// Whether what the work makes was there already, of each of them.
    pub on_hand: Seq<bool>,
    /// The books that are worked on.
    pub jobs: Seq<BookView>,
    /// How many books needed no work.
    pub there: nat,
    /// What is reported of work that was done.
    pub status: Seq<char>,
    /// How many books may be worked on at once.
    pub limit: nat,
    /// How far the work has come.
    pub run: RunView,
}

/// The run before any work has begun.
pub open spec fn fresh_book_run(
    list: Seq<BookView>,
    there: Seq<bool>,
    status: Seq<char>,
    limit: nat,
) -> BookRunView {
    BookRunView {
        list,
        on_hand: there,
        jobs: wanted(list, there),
        there: count_there(list, there),
        status,
        limit,
        run: runs::fresh_run(wanted(list, there).len()),
    }
}

impl View for BookRun {
    type V = BookRunView;

    closed spec fn view(&self) -> BookRunView {
        BookRunView {
            list: self.list@,
            on_hand: self.on_hand@,
            jobs: books::views(self.jobs@),
            there: self.there as nat,
            status: self.status@,
            limit: self.limit as nat,
            run: self.run@.run,
        }
    }
}

impl BookRun {
    /// There is a job for each book that is worked on, under the book's title. Those
    /// are the books that need work, no job is passed over, and no more books are worked
    /// on than may be.
    pub closed spec fn wf(&self) -> bool {
        &&& self@.jobs == wanted(self@.list, self@.on_hand)
        &&& runs::count_at(self@.run.stages, Stage::Running) <= self@.limit
        &&& self@.there == count_there(self@.list, self@.on_hand)
        &&& forall|i: int|
            0 <= i < self@.run.stages.len() ==> #[trigger] self@.run.stages[i] != Stage::Skipped
        &&& self.run.wf()
        &&& self.run@.run.stages.len() == self.jobs@.len()
        &&& self.run@.titles.len() == self.jobs@.len()
        &&& forall|i: int|
            0 <= i < self.jobs@.len() ==> #[trigger] self.run@.titles[i] == self.jobs@[i].title@
    }

    /// Book `i` is being worked on.
    pub open spec fn is_running(&self, i: int) -> bool {
        &&& 0 <= i < self@.run.stages.len()
        &&& i < self@.jobs.len()
        &&& self@.run.stages[i] == Stage::Running
    }

    /// A run over the books of a list that need work. `there` says of each book
    /// whether what the work makes is there already, `status` is what is reported of
    /// work that was done, and `limit` is how many books may be worked on at once.
    pub fn new(list: &Vec<Book>, there: &Vec<bool>, status: &str, limit: usize) -> (r: Self)
        requires
            there@.len() == list@.len(),
        ensures
            r.wf(),
            r@ == fresh_book_run(books::views(list@), there@, status@, limit as nat),
    {
        let (jobs, done) = plan_work(list, there);
        let titles = books::titles_of(&jobs);
        assert(text::views(titles@).len() == books::views(jobs@).len());
        let run = JobRun::new(titles);
        assert forall|i: int| 0 <= i < jobs@.len() implies #[trigger] run@.titles[i]
            == jobs@[i].title@ by {
            assert(books::views(jobs@)[i] == jobs@[i]@);
        }
        proof {
            runs::lemma_count_none(run@.run.stages, Stage::Running);
        }
        BookRun {
            list: Ghost(books::views(list@)),
            on_hand: Ghost(there@),
            jobs,
            there: done,
            status: status.to_string(),
            limit,
            run,
        }
    }

    /// Takes up the next book, unless the run is cancelled, no book is left or as many
    /// are worked on as may be.
    pub fn start(&mut self, cancelled: bool) -> (r: Turn)
        requires
            old(self).wf(),
        ensures
            final(self).wf(),
            ({
                let run = old(self)@.run;
                if cancelled || run.next == run.stages.len() {
                    &&& r is Over
                    &&& final(self)@ == old(self)@
                } else if runs::count_at(run.stages, Stage::Running) == old(self)@.limit {
                    &&& r is Full
                    &&& final(self)@ == old(self)@
                } else {
                    &&& r matches Turn::Job(i) && i == run.next < run.stages.len()
                    &&& final(self)@ == (BookRunView { run: run.taken(), ..old(self)@ })
                    &&& final(self).is_running(run.next as int)
                }
            }),
    {
        if cancelled || !self.run.is_waiting() {
            return Turn::Over;
        }
        if self.run.running() >= self.limit {
            return Turn::Full;
        }
        proof {
            let run = self@.run;
            runs::lemma_count_update(
                run.stages,
                run.next as int,
                Stage::Running,
                Stage::Running,
            );
        }
        match self.run.start(false) {
            Some(i) => Turn::Job(i),
            None => Turn::Over,
        }
    }

    /// A copy of book `i` of those that are worked on.
    pub fn job(&self, i: usize) -> (b: Book)
        requires
            i < self@.jobs.len(),
        ensures
            b@ == self@.jobs[i as int],
    {
        self.jobs[i].clone()
    }

    /// Takes over what became of the work on book `i`, and reports it unless the run
    /// was cancelled.
    pub fn settle(&mut self, i: usize, outcome: JobOutcome) -> (r: Option<Progress>)
        requires
            old(self).wf(),
            old(self).is_running(i as int),
        ensures
            final(self).wf(),
            ({
                let before = old(self)@;
                let total = before.run.stages.len() as int;
                let title = before.jobs[i as int].title;
                match outcome {
                    JobOutcome::Cancelled => {
                        &&& r is None
                        &&& final(self)@ == (BookRunView {
                            run: before.run.settled(i as int, Stage::Abandoned),
                            ..before
                        })
                    },
                    JobOutcome::Done => {
                        &&& r matches Some(p) && runs::reports(
                            p,
                            i as int,
                            total,
                            title,
                            before.status,
                        )
                        &&& final(self)@ == (BookRunView {
                            run: before.run.settled(i as int, Stage::Done),
                            ..before
                        })
                    },
                    JobOutcome::Failed(e) => {
                        &&& r matches Some(p) && runs::reports(
                            p,
                            i as int,
                            total,
                            title,
                            "error: "@ + e@,
                        )
                        &&& final(self)@ == (BookRunView {
                            run: before.run.settled(i as int, Stage::Failed),
                            ..before
                        })
                    },
                }
            }),
    {
        proof {
            let stages = self@.run.stages;
            runs::lemma_count_update(stages, i as int, Stage::Abandoned, Stage::Running);
            runs::lemma_count_update(stages, i as int, Stage::Done, Stage::Running);
            runs::lemma_count_update(stages, i as int, Stage::Failed, Stage::Running);
        }
        match outcome {
            JobOutcome::Cancelled => {
                self.run.abandon(i);
                None
            },
            JobOutcome::Done => {
                let status = self.status.clone();
                Some(self.run.report(i, Stage::Done, status))
            },
            JobOutcome::Failed(e) => Some(self.run.report_error(i, e.as_str())),
        }
    }

    /// How many books were worked on with success.
    pub fn done(&self) -> (r: usize)
        requires
            self.wf(),
        ensures
            r == runs::count_at(self@.run.stages, Stage::Done),
    {
        self.run.done()
    }

    /// How many books needed no work.
    pub fn there(&self) -> (r: usize)
        ensures
            r == self@.there,
    {
        self.there
    }

    /// How many books the work failed on.
    pub fn failed(&self) -> (r: usize)
        requires
            self.wf(),
        ensures
            r == runs::count_at(self@.run.stages, Stage::Failed),
    {
        self.run.failed()
    }
}

/// A run that was not cancelled and in which every job has been settled accounts for
/// every book with a repository name once: it needed no work, was worked on with
/// success, or the work on it failed.
pub proof fn law_complete_run_accounts_for_every_book(run: BookRun)
    requires
        run.wf(),
        run@.run.is_complete(),
    ensures
        run@.there + runs::count_at(run@.run.stages, Stage::Done) + runs::count_at(
            run@.run.stages,
            Stage::Failed,
        ) == run@.list.len() - count_nameless(run@.list),
{
    runs::law_complete_run_counts_every_job(run@.run);
    runs::lemma_count_none(run@.run.stages, Stage::Skipped);
    law_every_book_is_planned(run@.list, run@.on_hand);
}

/// At every moment no more books are worked on than may be.
pub proof fn law_work_is_bounded(run: BookRun)
    requires
        run.wf(),
    ensures
        runs::count_at(run@.run.stages, Stage::Running) <= run@.limit,
{
}

proof fn lemma_plan_prefix(list: Seq<BookView>, a: Seq<bool>, b: Seq<bool>)
    requires
        forall|i: int| 0 <= i < list.len() ==> #[trigger] a[i] == b[i],
    ensures
        wanted(list, a) == wanted(list, b),
        count_there(list, a) == count_there(list, b),
    decreases list.len(),
{
    if list.len() > 0 {
        lemma_plan_prefix(list.drop_last(), a, b);
        assert(a[list.len() - 1] == b[list.len() - 1]);
    }
}

/// Each book is planned by itself, behind those ahead of it: one with a name is worked on
/// if nothing is there for it, and else counted as there; one without is neither.
pub proof fn law_each_book_is_planned_by_itself(
    list: Seq<BookView>,
    there: Seq<bool>,
    b: BookView,
    made: bool,
)
    requires
        there.len() == list.len(),
    ensures
        b.name().len() > 0 && !made ==> wanted(list.push(b), there.push(made)) == wanted(
            list,
            there,
        ).push(b) && count_there(list.push(b), there.push(made)) == count_there(list, there),
        b.name().len() > 0 && made ==> wanted(list.push(b), there.push(made)) == wanted(list, there)
            && count_there(list.push(b), there.push(made)) == count_there(list, there) + 1,
        b.name().len() == 0 ==> wanted(list.push(b), there.push(made)) == wanted(list, there)
            && count_there(list.push(b), there.push(made)) == count_there(list, there),
        wanted(Seq::empty(), there) == Seq::<BookView>::empty(),
        count_there(Seq::empty(), there) == 0,
{
    let longer = list.push(b);
    assert(longer.drop_last() =~= list);
    lemma_plan_prefix(list, there.push(made), there);
}

/// A run begins with a job for each book that is to be worked on, none of them taken up.
pub proof fn law_run_begins_with_the_plan(
    list: Seq<BookView>,
    there: Seq<bool>,
    status: Seq<char>,
    limit: nat,
)
    ensures
        ({
            let r = fresh_book_run(list, there, status, limit);
            &&& r.list == list
            &&& r.on_hand == there
            &&& r.jobs == wanted(list, there)
            &&& r.there == count_there(list, there)
            &&& r.status == status
            &&& r.limit == limit
            &&& r.run.next == 0
            &&& r.run.stages.len() == r.jobs.len()
            &&& forall|i: int|
                0 <= i < r.jobs.len() ==> #[trigger] r.run.stages[i] == Stage::Waiting
        }),
{
}

} // verus!
