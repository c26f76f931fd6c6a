//! The application's state: the store, the operation that is running, and the answers
//! to what the user interface asks.

use crate::books;
use crate::books::{Book, BookView};
use crate::store;
use crate::store::{BookStore, StoreView};
use crate::text;
use vstd::prelude::*;

verus! {

/// A book together with whether its epub is downloaded.
pub struct BookWithStatus {
    pub book: Book,
    pub downloaded: bool,
}

/// What a [`BookWithStatus`] holds.
#[verifier::ext_equal]
pub struct StatusView {
    pub book: BookView,
    pub downloaded: bool,
}

impl View for BookWithStatus {
    type V = StatusView;

    open spec fn view(&self) -> StatusView {
        StatusView { book: self.book@, downloaded: self.downloaded }
    }
}

/// What a list of books with their status holds.
pub open spec fn status_views(v: Seq<BookWithStatus>) -> Seq<StatusView> {
    Seq::new(v.len(), |i: int| v[i]@)
}

/// Books with their status, given the repository names that are downloaded.
pub open spec fn with_status(list: Seq<BookView>, downloaded: Set<Seq<char>>) -> Seq<StatusView> {
    list.map_values(
        |b: BookView| StatusView { book: b, downloaded: downloaded.contains(b.name()) },
    )
}

/// One page of the list of books.
pub struct BooksResponse {
    pub books: Vec<BookWithStatus>,
    pub total: usize,
    pub page: usize,
    pub per_page: usize,
    pub pages: usize,
}

/// The books that answer a search.
pub struct SearchResponse {
    pub books: Vec<BookWithStatus>,
    pub total: usize,
}

/// How many books there are, how many of them are downloaded, and what is running.
pub struct StatsResponse {
    pub total: usize,
    pub downloaded: usize,
    pub operation: Option<String>,
}

/// The answer to a wish to cancel.
pub struct CancelResponse {
    pub status: String,
    pub operation: Option<String>,
}

/// The number of books on a page: fifty unless told otherwise.
pub open spec fn page_size(per_page: nat) -> nat {
    if per_page == 0 {
        50
    } else {
        per_page
    }
}

/// The number of a page: the first unless told otherwise.
pub open spec fn page_number(page: nat) -> nat {
    if page == 0 {
        1
    } else {
        page
    }
}

/// How many pages a list takes.
pub open spec fn page_count(total: nat, per_page: nat) -> nat {
    (total + per_page - 1) as nat / per_page
}

/// The place at which a page begins.
pub open spec fn page_start(page: nat, per_page: nat) -> nat {
    ((page - 1) * per_page) as nat
}

/// What stands on a page.
pub open spec fn page_of<T>(list: Seq<T>, page: nat, per_page: nat) -> Seq<T> {
    let start = page_start(page, per_page);
    if start >= list.len() {
        Seq::empty()
    } else if start + per_page <= list.len() {
        list.subrange(start as int, (start + per_page) as int)
    } else {
        list.skip(start as int)
    }
}

/// The first `n` pages one after the other.
pub open spec fn pages_up_to<T>(list: Seq<T>, per_page: nat, n: nat) -> Seq<T>
    decreases n,
{
    if n == 0 {
        Seq::empty()
    } else {
        pages_up_to(list, per_page, (n - 1) as nat) + page_of(list, n, per_page)
    }
}

/// How many pages a list takes.
fn count_pages(total: usize, per_page: usize) -> (r: usize)
    requires
        per_page > 0,
    ensures
        r == page_count(total as nat, per_page as nat),
{
    let full = total / per_page;
    let rest = total % per_page;
    proof {
        let q = full as int;
        let d = per_page as int;
        let m = rest as int;
        assert(total == d * q + m && 0 <= m < d) by {
            vstd::arithmetic::div_mod::lemma_fundamental_div_mod(total as int, d);
            vstd::arithmetic::div_mod::lemma_mod_bound(total as int, d);
        }
        if m == 0 {
            assert(total + d - 1 == q * d + (d - 1)) by (nonlinear_arith)
                requires
                    total == d * q + m,
                    m == 0,
            ;
            vstd::arithmetic::div_mod::lemma_fundamental_div_mod_converse(
                total + d - 1,
                d,
                q,
                d - 1,
            );
        } else {
            assert(total + d - 1 == (q + 1) * d + (m - 1)) by (nonlinear_arith)
                requires
                    total == d * q + m,
            ;
            vstd::arithmetic::div_mod::lemma_fundamental_div_mod_converse(
                total + d - 1,
                d,
                q + 1,
                m - 1,
            );
            assert(q < total) by (nonlinear_arith)
                requires
                    total == d * q + m,
                    m > 0,
                    d > 0,
                    q >= 0,
            ;
        }
    }
    if rest == 0 {
        full
    } else {
        full + 1
    }
}

/// The pages one after the other are the list.
pub proof fn law_pages_make_up_the_list<T>(list: Seq<T>, per_page: nat)
    requires
        per_page > 0,
    ensures
        pages_up_to(list, per_page, page_count(list.len(), per_page)) == list,
{
    let n = page_count(list.len(), per_page);
    lemma_pages_up_to(list, per_page, n);
    assert(n * per_page >= list.len()) by (nonlinear_arith)
        requires
            per_page > 0,
            n == (list.len() + per_page - 1) as nat / per_page,
    ;
    assert(list.take(list.len() as int) =~= list);
}

/// The first `n` pages are the beginning of the list.
proof fn lemma_pages_up_to<T>(list: Seq<T>, per_page: nat, n: nat)
    requires
        per_page > 0,
    ensures
        pages_up_to(list, per_page, n) == if n * per_page <= list.len() {
            list.take((n * per_page) as int)
        } else {
            list
        },
    decreases n,
{
    if n == 0 {
        assert(0 * per_page == 0) by (nonlinear_arith);
        assert(list.take(0) =~= Seq::empty());
    } else {
        let m = (n - 1) as nat;
        lemma_pages_up_to(list, per_page, m);
        assert(n * per_page == m * per_page + per_page) by (nonlinear_arith)
            requires
                n == m + 1,
        ;
        assert(page_start(n, per_page) == m * per_page);
        let start = m * per_page;
        if start >= list.len() {
            assert(list.take(list.len() as int) =~= list);
            assert(list + Seq::<T>::empty() =~= list);
        } else if start + per_page <= list.len() {
            assert(list.take(start as int) + list.subrange(
                start as int,
                (start + per_page) as int,
            ) =~= list.take((start + per_page) as int));
        } else {
            assert(list.take(start as int) + list.skip(start as int) =~= list);
        }
    }
}

/// A page behind the last one is empty.
pub proof fn law_no_page_behind_the_last<T>(list: Seq<T>, page: nat, per_page: nat)
    requires
        per_page > 0,
        page > page_count(list.len(), per_page),
    ensures
        page_of(list, page, per_page) == Seq::<T>::empty(),
{
    let n = page_count(list.len(), per_page);
    assert((page - 1) * per_page >= list.len()) by (nonlinear_arith)
        requires
            per_page > 0,
            n == (list.len() + per_page - 1) as nat / per_page,
            page > n,
    ;
}

/// An operation's name, if one is running.
pub open spec fn op_view(op: Option<String>) -> Option<Seq<char>> {
    match op {
        Some(s) => Some(s@),
        None => None,
    }
}

/// The debugging form of an optional text, as [`std::fmt::Debug`] gives it.
pub uninterp spec fn debugged(op: Option<Seq<char>>) -> Seq<char>;

/// A text of lower-case ASCII letters only.
pub open spec fn is_plain_word(s: Seq<char>) -> bool {
    forall|i: int| 0 <= i < s.len() ==> 'a' <= #[trigger] s[i] <= 'z'
}

/// Calls [`format!`] with `{:?}` on an optional text, whose result depends on the text
/// alone. A word of lower-case letters is put between quotes as it is.
#[verifier::external_body]
fn debug_text(op: &Option<String>) -> (r: String)
    ensures
        r@ == debugged(op_view(*op)),
        op is None ==> r@ == "None"@,
        op matches Some(s) ==> is_plain_word(s@) ==> r@ == "Some(\""@ + s@ + "\")"@,
{
    format!("{op:?}")
}

/// What is answered when an operation is asked for while another one is running.
pub fn busy_message(op: &Option<String>) -> (r: String)
    ensures
        r@ == "operation "@ + debugged(op_view(*op)) + " already running"@,
        op matches Some(s) ==> is_plain_word(s@) ==> r@ == "operation "@ + ("Some(\""@ + s@
            + "\")"@) + " already running"@,
{
    let mut r = "operation ".to_string();
    let name = debug_text(op);
    r.append(name.as_str());
    r.append(" already running");
    r
}

/// Whether a report on job `current` of `total` is passed on when only some are:
/// every fifth and the last.
pub fn passes_throttle(current: usize, total: usize) -> (r: bool)
    ensures
        r == (current % 5 == 0 || current == total),
{
    current % 5 == 0 || current == total
}

/// The places to look for a book's epub: its folder, for each book with the repository
/// name, and then the epub folder itself. Each is given by the parts of the path below
/// the epub folder.
pub open spec fn candidates_in(list: Seq<BookView>, repo: Seq<char>) -> Seq<Seq<Seq<char>>>
    decreases list.len(),
{
    if list.len() == 0 {
        Seq::empty()
    } else {
        let before = candidates_in(list.drop_last(), repo);
        match books::epub_parts(list.last()) {
            Some(parts) => if list.last().name() == repo {
                before.push(parts)
            } else {
                before
            },
            None => before,
        }
    }
}

/// What a list of paths holds.
pub open spec fn paths_view(v: Seq<Vec<String>>) -> Seq<Seq<Seq<char>>> {
    Seq::new(v.len(), |i: int| text::views(v[i]@))
}

/// The places to look for a book's epub, in order.
pub fn epub_candidates(list: &Vec<Book>, repo: &str) -> (r: Vec<Vec<String>>)
    ensures
        paths_view(r@) == candidates_in(books::views(list@), repo@).push(seq![repo@ + ".epub"@]),
{
    let ghost all = books::views(list@);
    let mut r: Vec<Vec<String>> = Vec::new();
    let mut i: usize = 0;
    assert(paths_view(r@) =~= candidates_in(all.take(0), repo@));
    while i < list.len()
        invariant
            i <= list@.len(),
            all == books::views(list@),
            paths_view(r@) == candidates_in(all.take(i as int), repo@),
        decreases list@.len() - i,
    {
        let ghost before = r@;
        assert(all.take(i + 1).drop_last() =~= all.take(i as int));
        assert(all.take(i + 1).last() == list@[i as int]@);
        let rn = books::repo_name(&list[i]);
        if text::same(rn.as_str(), repo) {
            match books::epub_path(&list[i]) {
                Some(parts) => {
                    let ghost p = text::views(parts@);
                    r.push(parts);
                    assert(paths_view(r@) =~= paths_view(before).push(p));
                },
                None => {},
            }
        }
        i += 1;
    }
    assert(all.take(i as int) =~= all);
    let mut flat: Vec<String> = Vec::new();
    flat.push(store::flat_epub_name(repo));
    let ghost before = r@;
    assert(text::views(flat@) =~= seq![repo@ + ".epub"@]);
    r.push(flat);
    assert(paths_view(r@) =~= paths_view(before).push(seq![repo@ + ".epub"@]));
    r
}

/// The first place at which something was found.
pub fn first_found(found: &Vec<bool>) -> (r: Result<usize, String>)
    ensures
        match r {
            Ok(i) => {
                &&& i < found@.len() && found@[i as int]
                &&& forall|k: int| 0 <= k < i ==> !#[trigger] found@[k]
            },
            Err(m) => {
                &&& m@ == "epub not found"@
                &&& forall|k: int| 0 <= k < found@.len() ==> !#[trigger] found@[k]
            },
        },
{
    let mut i: usize = 0;
    while i < found.len()
        invariant
            i <= found@.len(),
            forall|k: int| 0 <= k < i ==> !#[trigger] found@[k],
        decreases found@.len() - i,
    {
        if found[i] {
            return Ok(i);
        }
        i += 1;
    }
    Err("epub not found".to_string())
}

/// The store, the operation that is running and whether it is to be cancelled.
pub struct AppState {
    store: BookStore,
    operation: Option<String>,
    cancel: bool,
}

/// What an [`AppState`] holds.
#[verifier::ext_equal]
pub struct AppView {
    pub store: StoreView,
    pub operation: Option<Seq<char>>,
    pub cancel: bool,
}

impl View for AppState {
    type V = AppView;

    closed spec fn view(&self) -> AppView {
        AppView { store: self.store@, operation: op_view(self.operation), cancel: self.cancel }
    }
}

impl AppView {
    /// The state after an operation was asked for: it is taken up unless another one
    /// is running.
    pub open spec fn started(self, name: Seq<char>) -> AppView {
        if self.operation is Some {
            self
        } else {
            AppView { operation: Some(name), cancel: false, ..self }
        }
    }

    /// The state after the operation has ended.
    pub open spec fn finished(self) -> AppView {
        AppView { operation: None, ..self }
    }

    /// The state after a wish to cancel.
    pub open spec fn cancelled(self) -> AppView {
        if self.operation is Some {
            AppView { cancel: true, ..self }
        } else {
            self
        }
    }
}

/// Of two operations asked for one after the other only the first is taken up, until
/// it has ended.
pub proof fn law_one_operation_at_a_time(s: AppView, first: Seq<char>, second: Seq<char>)
    ensures
        s.started(first).started(second) == s.started(first),
        s.started(first).finished().started(second).operation == Some(second),
{
}

/// A wish to cancel does not outlive the operation it was meant for.
pub proof fn law_start_clears_cancel(s: AppView, name: Seq<char>)
    ensures
        !s.cancelled().finished().started(name).cancel,
{
}

impl AppState {
    /// The state in which nothing is running.
    pub fn new(store: BookStore) -> (s: Self)
        ensures
            s@ == (AppView { store: store@, operation: None, cancel: false }),
    {
        AppState { store, operation: None, cancel: false }
    }

    /// The store.
    pub fn store(&self) -> (s: &BookStore)
        ensures
            s@ == self@.store,
    {
        &self.store
    }

    /// The store, to be changed.
    pub fn store_mut(&mut self) -> (s: &mut BookStore)
        ensures
            s@ == old(self)@.store,
            final(self)@ == (AppView { store: final(s)@, ..old(self)@ }),
    {
        &mut self.store
    }

    /// Takes up an operation, unless another one is running.
    pub fn start_op(&mut self, name: &str) -> (r: bool)
        ensures
            r == (old(self)@.operation is None),
            final(self)@ == old(self)@.started(name@),
    {
        if self.operation.is_some() {
            return false;
        }
        self.cancel = false;
        self.operation = Some(name.to_string());
        true
    }

    /// Ends the operation.
    pub fn finish_op(&mut self)
        ensures
            final(self)@ == old(self)@.finished(),
    {
        self.operation = None;
    }

    /// The operation that is running.
    pub fn current_op(&self) -> (r: Option<String>)
        ensures
            op_view(r) == self@.operation,
    {
        match &self.operation {
            Some(name) => Some(name.clone()),
            None => None,
        }
    }

    /// Whether the operation is to be cancelled.
    pub fn is_cancelled(&self) -> (r: bool)
        ensures
            r == self@.cancel,
    {
        self.cancel
    }

    /// Marks the operation that is running as to be cancelled.
    pub fn cancel_operation(&mut self) -> (r: CancelResponse)
        ensures
            final(self)@ == old(self)@.cancelled(),
            op_view(r.operation) == old(self)@.operation,
            r.status@ == if old(self)@.operation is Some {
                "cancelling"@
            } else {
                "nothing running"@
            },
    {
        let operation = self.current_op();
        if operation.is_none() {
            return CancelResponse { status: "nothing running".to_string(), operation };
        }
        self.cancel = true;
        CancelResponse { status: "cancelling".to_string(), operation }
    }

    /// Books with their status.
    fn add_status(&self, list: &Vec<Book>, from: usize, to: usize) -> (r: Vec<BookWithStatus>)
        requires
            from <= to <= list@.len(),
        ensures
            status_views(r@) == with_status(
                books::views(list@).subrange(from as int, to as int),
                self@.store.downloaded,
            ),
    {
        let ghost part = books::views(list@).subrange(from as int, to as int);
        let mut r: Vec<BookWithStatus> = Vec::new();
        let mut i: usize = from;
        while i < to
            invariant
                from <= i <= to <= list@.len(),
                part == books::views(list@).subrange(from as int, to as int),
                r@.len() == i - from,
                forall|k: int|
                    0 <= k < r@.len() ==> (#[trigger] r@[k])@ == with_status(
                        part,
                        self@.store.downloaded,
                    )[k],
            decreases to - i,
        {
            let downloaded = self.store.is_downloaded(&list[i]);
            r.push(BookWithStatus { book: list[i].clone(), downloaded });
            assert(part[i - from] == list@[i as int]@);
            i += 1;
        }
        assert(status_views(r@) =~= with_status(part, self@.store.downloaded));
        r
    }

    /// One page of the list of books. No size means fifty books to the page, no number
    /// the first page.
    pub fn get_books(&self, page: usize, per_page: usize) -> (r: BooksResponse)
        ensures
            r.total == self@.store.books.len(),
            r.page == page_number(page as nat),
            r.per_page == page_size(per_page as nat),
            r.pages == page_count(r.total as nat, r.per_page as nat),
            status_views(r.books@) == with_status(
                page_of(self@.store.books, r.page as nat, r.per_page as nat),
                self@.store.downloaded,
            ),
    {
        let per_page: usize = if per_page == 0 {
            50
        } else {
            per_page
        };
        let page: usize = if page == 0 {
            1
        } else {
            page
        };
        let list = self.store.all();
        let ghost all = books::views(list@);
        let total = list.len();
        let pages = count_pages(total, per_page);
        let start: usize = match (page - 1).checked_mul(per_page) {
            Some(start) => start,
            None => usize::MAX,
        };
        assert(start >= total <==> page_start(page as nat, per_page as nat) >= total);
        if start >= total {
            let none: Vec<BookWithStatus> = Vec::new();
            assert(status_views(none@) =~= with_status(
                Seq::<BookView>::empty(),
                self@.store.downloaded,
            ));
            return BooksResponse { books: none, total, page, per_page, pages };
        }
        let end = if per_page <= total - start {
            start + per_page
        } else {
            total
        };
        proof {
            if start + per_page > total {
                assert(all.skip(start as int) =~= all.subrange(start as int, end as int));
            }
        }
        let books = self.add_status(&list, start, end);
        BooksResponse { books, total, page, per_page, pages }
    }

    /// The books whose title or author holds the query, in any case of letters; none
    /// for an empty query.
    pub fn search_books(&self, query: &str) -> (r: SearchResponse)
        ensures
            r.total == r.books@.len(),
            query@.len() > 0 ==> store::lowers_ascii(query@) && forall|i: int|
                0 <= i < self@.store.books.len() ==> store::lowers_ascii(
                    (#[trigger] self@.store.books[i]).title,
                ) && store::lowers_ascii(self@.store.books[i].author),
            status_views(r.books@) == if query@.len() == 0 {
                Seq::empty()
            } else {
                with_status(
                    self@.store.books.filter(store::answering(store::lowercase(query@))),
                    self@.store.downloaded,
                )
            },
    {
        if query.is_empty() {
            let none: Vec<BookWithStatus> = Vec::new();
            assert(status_views(none@) =~= Seq::empty());
            return SearchResponse { books: none, total: 0 };
        }
        let results = self.store.search(query);
        let ghost all = books::views(results@);
        let total = results.len();
        let books = self.add_status(&results, 0, total);
        assert(all.subrange(0, total as int) =~= all);
        assert(status_views(books@).len() == all.len());
        SearchResponse { books, total }
    }

    /// How many books there are, how many are downloaded, and what is running.
    pub fn get_stats(&self) -> (r: StatsResponse)
        ensures
            r.total == self@.store.books.len(),
            r.downloaded == self@.store.downloaded.len(),
            op_view(r.operation) == self@.operation,
    {
        StatsResponse {
            total: self.store.count(),
            downloaded: self.store.count_downloaded(),
            operation: self.current_op(),
        }
    }
}

/// The books of a page, place by place: a page holds as many as there are left, at most a
/// page full, and begins where the pages ahead of it end.
pub proof fn law_page_by_places<T>(list: Seq<T>, page: nat, per_page: nat, start: nat)
    requires
        page > 0,
        per_page > 0,
        start == (page - 1) * per_page,
    ensures
        start >= list.len() ==> page_of(list, page, per_page).len() == 0,
        start < list.len() && start + per_page <= list.len() ==> page_of(
            list,
            page,
            per_page,
        ).len() == per_page,
        start < list.len() && start + per_page > list.len() ==> page_of(list, page, per_page).len()
            == list.len() - start,
        forall|k: int|
            0 <= k < page_of(list, page, per_page).len() ==> #[trigger] page_of(
                list,
                page,
                per_page,
            )[k] == list[start + k],
{
}

/// There are just enough pages for the list. Without a size a page holds fifty books, and
/// without a number the first page is meant.
pub proof fn law_just_enough_pages(total: nat, per_page: nat, page: nat)
    requires
        per_page > 0,
    ensures
        page_count(total, per_page) * per_page >= total,
        total > 0 ==> page_count(total, per_page) > 0 && (page_count(total, per_page) - 1)
            * per_page < total,
        total == 0 ==> page_count(total, per_page) == 0,
        page_size(per_page) == per_page,
        page_size(0) == 50,
        page > 0 ==> page_number(page) == page,
        page_number(0) == 1,
{
    let n = page_count(total, per_page) as int;
    let d = per_page as int;
    let x = total + d - 1;
    vstd::arithmetic::div_mod::lemma_fundamental_div_mod(x, d);
    vstd::arithmetic::div_mod::lemma_mod_bound(x, d);
    assert(n * d == d * n) by (nonlinear_arith);
    assert((n - 1) * d == n * d - d) by (nonlinear_arith);
    if total > 0 {
        assert(n > 0) by (nonlinear_arith)
            requires
                n * d >= total,
                total > 0,
                d > 0,
        ;
    } else {
        assert(n == 0) by (nonlinear_arith)
            requires
                n * d - d < 0,
                n >= 0,
                d > 0,
        ;
    }
}

/// The status of a book says whether its name is among those that are downloaded; the
/// books themselves, and their order, stay.
pub proof fn law_status_is_of_each_book(list: Seq<BookView>, downloaded: Set<Seq<char>>, i: int)
    requires
        0 <= i < list.len(),
    ensures
        with_status(list, downloaded).len() == list.len(),
        with_status(list, downloaded)[i].book == list[i],
        with_status(list, downloaded)[i].downloaded <==> downloaded.contains(list[i].name()),
{
}

/// The places to look for an epub are those of all books with the repository's name, in
/// the order of the list.
pub proof fn law_every_book_of_the_name_is_looked_for(list: Seq<BookView>, repo: Seq<char>)
    ensures
        candidates_in(list, repo) == list.filter(
            |b: BookView| b.name() == repo && repo.len() > 0,
        ).map_values(|b: BookView| books::epub_parts(b)->0),
    decreases list.len(),
{
    reveal(Seq::filter);
    let p = |b: BookView| b.name() == repo && repo.len() > 0;
    let f = |b: BookView| books::epub_parts(b)->0;
    if list.len() > 0 {
        law_every_book_of_the_name_is_looked_for(list.drop_last(), repo);
        let b = list.last();
        let init = list.drop_last().filter(p);
        books::law_epub_path_is_by_category_and_author(b);
        assert(init.push(b).map_values(f) =~= init.map_values(f).push(f(b)));
        assert(candidates_in(list, repo) =~= list.filter(p).map_values(f));
    } else {
        assert(candidates_in(list, repo) =~= list.filter(p).map_values(f));
    }
}

/// An operation is taken up, with no wish to cancel it, exactly if none is running; while
/// one is, only that one can be cancelled. Nothing of this touches the store, and an end
/// leaves no operation.
pub proof fn law_operations_come_and_go(s: AppView, name: Seq<char>)
    ensures
        s.operation is None ==> s.started(name).operation == Some(name) && !s.started(name).cancel,
        s.operation is Some ==> s.started(name) == s,
        s.started(name).store == s.store,
        s.finished().operation is None,
        s.finished().cancel == s.cancel,
        s.finished().store == s.store,
        s.operation is Some ==> s.cancelled().cancel,
        s.operation is None ==> s.cancelled() == s,
        s.cancelled().operation == s.operation,
        s.cancelled().store == s.store,
{
}

} // verus!
