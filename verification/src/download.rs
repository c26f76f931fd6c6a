//! Downloads: completing metadata beforehand, planning, and checking a checkout.

use crate::books;
use crate::books::{Book, BookView};
use crate::enrich;
use crate::opf::OpfMeta;
use crate::plan;
use crate::plan::BookRun;
use crate::runs;
use crate::runs::Stage;
use crate::store;
use crate::store::Found;
use crate::text;
use vstd::prelude::*;

verus! {

/// A book with a repository name and no categories, which it needs for its folder.
pub open spec fn lacks_categories(b: BookView) -> bool {
    b.categories.len() == 0 && b.name().len() > 0
}

/// The repository to ask for a book's metadata, if the book has no categories.
pub fn missing_metadata(b: &Book) -> (r: Option<String>)
    ensures
        match r {
            Some(repo) => lacks_categories(b@) && repo@ == b@.name(),
            None => !lacks_categories(b@),
        },
{
    if b.categories.len() != 0 {
        return None;
    }
    let repo = books::repo_name(b);
    if repo.as_str().is_empty() {
        None
    } else {
        Some(repo)
    }
}

/// The first book from place `i` on that lacks categories.
pub open spec fn next_lacking(list: Seq<BookView>, i: int) -> Option<int>
    decreases list.len() - i,
{
    if i < 0 || i >= list.len() {
        None
    } else if lacks_categories(list[i]) {
        Some(i)
    } else {
        next_lacking(list, i + 1)
    }
}

/// No book that lacks categories is passed over.
pub proof fn law_next_lacking(list: Seq<BookView>, i: int)
    requires
        0 <= i,
    ensures
        match next_lacking(list, i) {
            Some(j) => {
                &&& i <= j < list.len()
                &&& lacks_categories(list[j])
                &&& forall|k: int| i <= k < j ==> !lacks_categories(#[trigger] list[k])
            },
            None => forall|k: int| i <= k < list.len() ==> !lacks_categories(#[trigger] list[k]),
        },
    decreases list.len() - i,
{
    if i < list.len() && !lacks_categories(list[i]) {
        law_next_lacking(list, i + 1);
    }
}

/// A pass over a list of books that completes the metadata of those that lack
/// categories.
pub struct Completion {
    books: Vec<Book>,
    next: usize,
    asked: bool,
}

/// What a [`Completion`] holds.
#[verifier::ext_equal]
pub struct CompletionView {
    pub books: Seq<BookView>,
    /// The place of the next book to be looked at.
    pub next: nat,
    /// Whether any book's metadata was asked for.
    pub asked: bool,
}

impl View for Completion {
    type V = CompletionView;

    closed spec fn view(&self) -> CompletionView {
        CompletionView {
            books: books::views(self.books@),
            next: self.next as nat,
            asked: self.asked,
        }
    }
}

impl Completion {
    /// A pass over the given books.
    pub fn new(list: Vec<Book>) -> (r: Self)
        ensures
            r@ == (CompletionView { books: books::views(list@), next: 0, asked: false }),
    {
        Completion { books: list, next: 0, asked: false }
    }

    /// The next book whose metadata is to be asked for, and its repository; none when
    /// the pass is cancelled or no book is left that lacks categories.
    pub fn step(&mut self, cancelled: bool) -> (r: Option<(usize, String)>)
        ensures
            final(self)@.books == old(self)@.books,
            match r {
                Some((i, repo)) => {
                    &&& !cancelled
                    &&& next_lacking(old(self)@.books, old(self)@.next as int) == Some(i as int)
                    &&& i < old(self)@.books.len()
                    &&& lacks_categories(old(self)@.books[i as int])
                    &&& repo@ == old(self)@.books[i as int].name()
                    &&& final(self)@.next == i + 1
                    &&& final(self)@.asked
                },
                None => {
                    &&& cancelled || next_lacking(
                        old(self)@.books,
                        old(self)@.next as int,
                    ) is None
                    &&& final(self)@.asked == old(self)@.asked
                    &&& final(self)@.next == if cancelled || old(self)@.next
                        >= old(self)@.books.len() {
                        old(self)@.next
                    } else {
                        old(self)@.books.len()
                    }
                },
            },
    {
        if cancelled {
            return None;
        }
        let ghost list = self@.books;
        while self.next < self.books.len()
            invariant
                !cancelled,
                list == old(self)@.books,
                self@.books == list,
                self@.asked == old(self)@.asked,
                old(self)@.next <= self@.next,
                self@.next <= old(self)@.next || self@.next <= list.len(),
                next_lacking(list, old(self)@.next as int) == next_lacking(
                    list,
                    self@.next as int,
                ),
            decreases self.books@.len() - self.next,
        {
            let i = self.next;
            assert(list[i as int] == self.books@[i as int]@);
            self.next = i + 1;
            match missing_metadata(&self.books[i]) {
                Some(repo) => {
                    self.asked = true;
                    return Some((i, repo));
                },
                None => {},
            }
        }
        None
    }

    /// Takes over the metadata of book `i`: nothing is changed when there is none.
    /// With the metadata comes, for each of its entries, the number its text writes.
    pub fn settle(&mut self, i: usize, meta: Option<(OpfMeta, Vec<Option<u64>>)>)
        requires
            i < old(self)@.books.len(),
        ensures
            final(self)@ == match meta {
                None => old(self)@,
                Some((m, readings)) => CompletionView {
                    books: old(self)@.books.update(
                        i as int,
                        enrich::enriched(old(self)@.books[i as int], m@, readings@),
                    ),
                    ..old(self)@
                },
            },
    {
        match meta {
            None => {},
            Some((m, readings)) => {
                let ghost list = self@.books;
                let mut b = self.books[i].clone();
                enrich::apply_metadata(&mut b, &m, &readings);
                self.books.set(i, b);
                assert(self@.books =~= list.update(
                    i as int,
                    enrich::enriched(list[i as int], m@, readings@),
                ));
            },
        }
    }

    /// The books as they are now, and whether any metadata was asked for.
    pub fn finish(self) -> (r: (Vec<Book>, bool))
        ensures
            books::views(r.0@) == self@.books,
            r.1 == self@.asked,
    {
        (self.books, self.asked)
    }
}

/// What a look at the disk found of each book's epub, in either place.
pub open spec fn presences(found: Seq<Found>) -> Seq<bool> {
    found.map_values(|f: Found| store::is_present(f))
}

/// A run that downloads the books whose epub is not there: `found` says of each book
/// what the disk holds, and `limit` how many are built at once.
pub fn download_run(list: &Vec<Book>, found: &Vec<Found>, limit: usize) -> (r: BookRun)
    requires
        found@.len() == list@.len(),
    ensures
        r.wf(),
        r@ == plan::fresh_book_run(
            books::views(list@),
            presences(found@),
            "downloaded"@,
            limit as nat,
        ),
{
    let mut there: Vec<bool> = Vec::new();
    let mut i: usize = 0;
    while i < found.len()
        invariant
            i <= found@.len(),
            there@ == presences(found@.take(i as int)),
        decreases found@.len() - i,
    {
        there.push(found[i].organized || found[i].flat);
        assert(there@ =~= presences(found@.take(i + 1)));
        i += 1;
    }
    assert(found@.take(i as int) =~= found@);
    BookRun::new(list, &there, "downloaded", limit)
}

/// A run of downloads builds exactly the named books of which the disk holds no epub, in
/// either place: one that is there is never built again.
pub proof fn law_books_on_disk_are_not_built(
    list: Seq<BookView>,
    found: Seq<Found>,
    status: Seq<char>,
    limit: nat,
)
    requires
        found.len() == list.len(),
    ensures
        forall|b: BookView| #[trigger]
            plan::fresh_book_run(list, presences(found), status, limit).jobs.contains(b)
                <==> exists|i: int|
                0 <= i < list.len() && #[trigger] list[i] == b && b.name().len() > 0
                    && !store::is_present(found[i]),
{
    let there = presences(found);
    plan::law_wanted_books(list, there);
    assert forall|b: BookView| #[trigger]
        plan::fresh_book_run(list, there, status, limit).jobs.contains(b) <==> exists|i: int|
            0 <= i < list.len() && #[trigger] list[i] == b && b.name().len() > 0
                && !store::is_present(found[i]) by {
        assert(forall|i: int|
            0 <= i < list.len() ==> #[trigger] there[i] == store::is_present(found[i]));
        if plan::wanted(list, there).contains(b) {
            let i = choose|i: int|
                0 <= i < list.len() && #[trigger] list[i] == b && b.name().len() > 0 && !there[i];
            assert(list[i] == b && !store::is_present(found[i]));
        }
        if exists|i: int|
            0 <= i < list.len() && #[trigger] list[i] == b && b.name().len() > 0
                && !store::is_present(found[i]) {
            let i = choose|i: int|
                0 <= i < list.len() && #[trigger] list[i] == b && b.name().len() > 0
                    && !store::is_present(found[i]);
            assert(list[i] == b && !there[i]);
        }
    }
}

/// What a run of downloads came to.
#[derive(Clone, Copy, Debug, PartialEq, Eq)]
pub struct DownloadResult {
    pub succeeded: usize,
    pub skipped: usize,
    pub failed: usize,
}

/// What a run of downloads came to.
pub fn download_result(run: &BookRun) -> (r: DownloadResult)
    requires
        run.wf(),
    ensures
        r.succeeded == runs::count_at(run@.run.stages, Stage::Done),
        r.skipped == run@.there,
        r.failed == runs::count_at(run@.run.stages, Stage::Failed),
{
    DownloadResult { succeeded: run.done(), skipped: run.there(), failed: run.failed() }
}

/// The place of the first book with the given repository name.
pub open spec fn first_named(list: Seq<BookView>, repo: Seq<char>) -> Option<int>
    decreases list.len(),
{
    if list.len() == 0 {
        None
    } else {
        match first_named(list.drop_last(), repo) {
            Some(i) => Some(i),
            None => if list.last().name() == repo {
                Some(list.len() - 1)
            } else {
                None
            },
        }
    }
}

/// The place of the first book with the given repository name.
pub fn find_book(list: &Vec<Book>, repo: &str) -> (r: Option<usize>)
    ensures
        match r {
            Some(i) => i < list@.len() && first_named(books::views(list@), repo@) == Some(i as int),
            None => first_named(books::views(list@), repo@) is None,
        },
{
    let ghost all = books::views(list@);
    let mut i: usize = 0;
    while i < list.len()
        invariant
            i <= list@.len(),
            all == books::views(list@),
            first_named(all.take(i as int), repo@) is None,
        decreases list@.len() - i,
    {
        let rn = books::repo_name(&list[i]);
        assert(all.take(i + 1).drop_last() =~= all.take(i as int));
        assert(all.take(i + 1).last() == list@[i as int]@);
        if text::same(rn.as_str(), repo) {
            proof {
                lemma_first_named_prefix(all, repo@, i + 1);
            }
            return Some(i);
        }
        i += 1;
    }
    assert(all.take(i as int) =~= all);
    None
}

/// What is first among the first books is first of all.
proof fn lemma_first_named_prefix(list: Seq<BookView>, repo: Seq<char>, n: int)
    requires
        0 <= n <= list.len(),
        first_named(list.take(n), repo) is Some,
    ensures
        first_named(list, repo) == first_named(list.take(n), repo),
    decreases list.len(),
{
    if n == list.len() {
        assert(list.take(n) =~= list);
    } else {
        assert(list.drop_last().take(n) =~= list.take(n));
        lemma_first_named_prefix(list.drop_last(), repo, n);
    }
}

/// The place of the book to complete before it is downloaded on its own: the first
/// one with the repository name, if it has no categories.
pub fn single_to_complete(list: &Vec<Book>, repo: &str) -> (r: Option<usize>)
    ensures
        match r {
            Some(i) => {
                &&& i < list@.len()
                &&& first_named(books::views(list@), repo@) == Some(i as int)
                &&& list@[i as int]@.categories.len() == 0
            },
            None => first_named(books::views(list@), repo@) matches Some(i)
                ==> list@[i]@.categories.len() > 0,
        },
{
    match find_book(list, repo) {
        Some(i) => if list[i].categories.len() == 0 {
            Some(i)
        } else {
            None
        },
        None => None,
    }
}

/// Where the epub of a single book goes: the parts of the path below the epub folder.
/// A repository that no book names goes to the books without category.
pub open spec fn single_parts(list: Seq<BookView>, repo: Seq<char>) -> Option<Seq<Seq<char>>> {
    match first_named(list, repo) {
        Some(i) => books::epub_parts(list[i]),
        None => Some(seq!["Uncategorized"@, repo + ".epub"@]),
    }
}

/// Where the epub of a single book goes.
pub fn single_destination(list: &Vec<Book>, repo: &str) -> (r: Option<Vec<String>>)
    ensures
        match r {
            Some(parts) => single_parts(books::views(list@), repo@) == Some(text::views(parts@)),
            None => single_parts(books::views(list@), repo@) is None,
        },
{
    match find_book(list, repo) {
        Some(i) => books::epub_path(&list[i]),
        None => {
            let mut parts: Vec<String> = Vec::new();
            parts.push("Uncategorized".to_string());
            parts.push(store::flat_epub_name(repo));
            assert(text::views(parts@) =~= seq!["Uncategorized"@, repo@ + ".epub"@]);
            Some(parts)
        },
    }
}

/// The address that a repository is cloned from.
pub fn clone_url(repo: &str) -> (r: String)
    ensures
        r@ == "https://github.com/standardebooks/"@ + repo@ + ".git"@,
{
    let mut r = "https://github.com/standardebooks/".to_string();
    r.append(repo);
    r.append(".git");
    r
}

/// What became of cloning a repository.
#[derive(Debug)]
pub enum Checkout {
    /// The command could not be run, for the reason given.
    NotRun(String),
    /// It failed; this is what it printed.
    Refused(String),
    /// It succeeded.
    Cloned {
        /// Whether there is a source folder.
        has_src: bool,
        /// Whether there is a file `mimetype` in the source folder.
        has_mimetype: bool,
    },
}

/// Why no epub can be made of a checkout, if none can.
pub open spec fn checkout_failure(repo: Seq<char>, checkout: Checkout) -> Option<Seq<char>> {
    match checkout {
        Checkout::NotRun(e) => Some("git clone spawn: "@ + e@),
        Checkout::Refused(e) => Some("clone failed: "@ + e@),
        Checkout::Cloned { has_src, has_mimetype } => if !has_src {
            Some("no src/ directory in "@ + repo)
        } else if !has_mimetype {
            Some("no mimetype file in "@ + repo + "/src/"@)
        } else {
            None
        },
    }
}

/// Whether an epub can be made of a checkout.
pub fn check_checkout(repo: &str, checkout: Checkout) -> (r: Result<(), String>)
    ensures
        match r {
            Ok(()) => checkout_failure(repo@, checkout) is None,
            Err(m) => checkout_failure(repo@, checkout) == Some(m@),
        },
{
    match checkout {
        Checkout::NotRun(e) => Err("git clone spawn: ".to_string().concat(e.as_str())),
        Checkout::Refused(e) => Err("clone failed: ".to_string().concat(e.as_str())),
        Checkout::Cloned { has_src, has_mimetype } => {
            if !has_src {
                Err("no src/ directory in ".to_string().concat(repo))
            } else if !has_mimetype {
                let mut m = "no mimetype file in ".to_string();
                m.append(repo);
                m.append("/src/");
                Err(m)
            } else {
                Ok(())
            }
        },
    }
}

/// Completing a book's metadata does not change which book is found by name.
pub proof fn law_completing_keeps_the_book(
    list: Seq<BookView>,
    repo: Seq<char>,
    i: int,
    meta: crate::opf::OpfView,
    readings: Seq<Option<u64>>,
)
    requires
        0 <= i < list.len(),
    ensures
        first_named(list.update(i, enrich::enriched(list[i], meta, readings)), repo)
            == first_named(list, repo),
    decreases list.len(),
{
    let after = list.update(i, enrich::enriched(list[i], meta, readings));
    enrich::law_enriched_keeps_identity(list[i], meta, readings);
    if i == list.len() - 1 {
        assert(after.drop_last() =~= list.drop_last());
    } else {
        assert(after.drop_last() =~= list.drop_last().update(
            i,
            enrich::enriched(list.drop_last()[i], meta, readings),
        ));
        law_completing_keeps_the_book(list.drop_last(), repo, i, meta, readings);
    }
}

/// The first book of a name is found, whatever comes behind it; where no book has the name,
/// none is.
pub proof fn law_first_of_a_name_is_found(
    before: Seq<BookView>,
    b: BookView,
    after: Seq<BookView>,
    repo: Seq<char>,
)
    requires
        forall|k: int| 0 <= k < before.len() ==> (#[trigger] before[k]).name() != repo,
    ensures
        first_named(before, repo) is None,
        b.name() == repo ==> first_named(before + seq![b] + after, repo) == Some(
            before.len() as int,
        ),
        b.name() == repo ==> single_parts(before + seq![b] + after, repo) == books::epub_parts(b),
        single_parts(before, repo) == Some(seq!["Uncategorized"@, repo + ".epub"@]),
{
    lemma_none_named(before, repo);
    if b.name() == repo {
        let all = before + seq![b] + after;
        let upto = before + seq![b];
        let n = before.len() + 1int;
        assert(all.take(n) =~= upto);
        assert(upto.drop_last() =~= before);
        assert(upto.last() == b);
        lemma_first_named_prefix(all, repo, n);
        assert(all[before.len() as int] == b);
    }
}

proof fn lemma_none_named(list: Seq<BookView>, repo: Seq<char>)
    requires
        forall|k: int| 0 <= k < list.len() ==> (#[trigger] list[k]).name() != repo,
    ensures
        first_named(list, repo) is None,
    decreases list.len(),
{
    if list.len() > 0 {
        let init = list.drop_last();
        assert(forall|k: int| 0 <= k < init.len() ==> #[trigger] init[k] == list[k]);
        lemma_none_named(init, repo);
        assert(list[list.len() - 1] == list.last());
    }
}

/// The metadata of the first book that has a name and no category are asked for; where
/// every book has a category or no name, none are.
pub proof fn law_books_without_category_are_completed(list: Seq<BookView>, i: int, j: int)
    requires
        0 <= i <= j <= list.len(),
        forall|k: int|
            i <= k < j ==> (#[trigger] list[k]).categories.len() > 0 || list[k].name().len() == 0,
    ensures
        j < list.len() && list[j].categories.len() == 0 && list[j].name().len() > 0
            ==> next_lacking(list, i) == Some(j),
        j == list.len() ==> next_lacking(list, i) is None,
{
    law_next_lacking(list, i);
    match next_lacking(list, i) {
        Some(k) => {
            if k < j {
                assert(list[k].categories.len() > 0 || list[k].name().len() == 0);
            } else if j < k {
                assert(!lacks_categories(list[j]));
            }
        },
        None => {
            if j < list.len() {
                assert(!lacks_categories(list[j]));
            }
        },
    }
}

/// An epub counts as there if it is in its folder or in the epub folder itself.
pub proof fn law_either_place_will_do(found: Seq<Found>, i: int)
    requires
        0 <= i < found.len(),
    ensures
        presences(found).len() == found.len(),
        presences(found)[i] <==> found[i].organized || found[i].flat,
{
}

/// An epub can be made of a checkout exactly if cloning succeeded and there are a source
/// folder and a file `mimetype` in it. Each thing that is amiss is told in its own words,
/// a missing source folder ahead of a missing file.
pub proof fn law_checkouts_need_source_and_mimetype(
    repo: Seq<char>,
    e: String,
    has_src: bool,
    has_mimetype: bool,
)
    ensures
        checkout_failure(repo, Checkout::NotRun(e)) == Some("git clone spawn: "@ + e@),
        checkout_failure(repo, Checkout::Refused(e)) == Some("clone failed: "@ + e@),
        checkout_failure(repo, Checkout::Cloned { has_src, has_mimetype }) is None <==> has_src
            && has_mimetype,
        checkout_failure(repo, Checkout::Cloned { has_src: false, has_mimetype }) == Some(
            "no src/ directory in "@ + repo,
        ),
        checkout_failure(repo, Checkout::Cloned { has_src: true, has_mimetype: false }) == Some(
            "no mimetype file in "@ + repo + "/src/"@,
        ),
{
}

} // verus!
