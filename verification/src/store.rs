//! The book store: the list of books, which of them are downloaded, and search.

use crate::books;
use crate::books::{Book, BookView};
use crate::text;
use std::path::PathBuf;
use vstd::hash_set::StringHashSet;
use vstd::prelude::*;

verus! {

/// A file system path, which the library only carries.
#[verifier::external_type_specification]
#[verifier::external_body]
pub struct ExPathBuf(std::path::PathBuf);

/// The lower-case form of a text, as [`str::to_lowercase`] gives it.
pub uninterp spec fn lowercase(s: Seq<char>) -> Seq<char>;

/// The lower-case form of an ASCII letter; any other character as it is.
pub open spec fn ascii_lower(c: char) -> char {
    if 'A' <= c <= 'Z' {
        (c as u32 + 32) as char
    } else {
        c
    }
}

/// A text with each ASCII letter in lower case.
pub open spec fn lowered(s: Seq<char>) -> Seq<char> {
    s.map_values(|c: char| ascii_lower(c))
}

/// Calls [`str::to_lowercase`], whose result depends on the text alone. Of an
/// ASCII text it maps `A` to `Z` to `a` to `z` and keeps the rest.
#[verifier::external_body]
fn to_lowercase(s: &str) -> (r: String)
    ensures
        r@ == lowercase(s@),
        vstd::utf8::is_ascii_chars(s@) ==> r@ == lowered(s@),
{
    s.to_lowercase()
}

/// What a look at the disk found of one book's epub.
#[derive(Clone, Copy, Debug, PartialEq, Eq)]
pub struct Found {
    /// It is in its folder by category and author.
    pub organized: bool,
    /// It is in the epub folder itself, under the repository's name.
    pub flat: bool,
}

/// What reading the file of books gave.
pub enum BooksFile {
    /// There is no such file.
    Missing,
    /// It cannot be read, for the reason given.
    Unreadable(String),
    /// It does not hold a list of books, for the reason given.
    Malformed(String),
    /// It holds these books.
    Books(Vec<Book>),
}

/// The file name of an epub that is kept without folders.
pub fn flat_epub_name(repo: &str) -> (r: String)
    ensures
        r@ == repo@ + ".epub"@,
{
    repo.to_string().concat(".epub")
}

/// A book counts as downloaded when its epub is in either place.
pub open spec fn is_present(f: Found) -> bool {
    f.organized || f.flat
}

/// The repository names of the books whose epub was found.
pub open spec fn present_names(books: Seq<BookView>, found: Seq<Found>) -> Set<Seq<char>>
    decreases books.len(),
{
    if books.len() == 0 {
        Set::empty()
    } else {
        let before = present_names(books.drop_last(), found);
        let name = books.last().name();
        if name.len() > 0 && is_present(found[books.len() - 1]) {
            before.insert(name)
        } else {
            before
        }
    }
}

/// A name is among those exactly if some book with that name was found.
pub proof fn law_downloaded_means_found(books: Seq<BookView>, found: Seq<Found>)
    ensures
        present_names(books, found).finite(),
        present_names(books, found).len() <= books.len(),
        forall|n: Seq<char>| #[trigger]
            present_names(books, found).contains(n) <==> n.len() > 0 && exists|i: int|
                0 <= i < books.len() && (#[trigger] books[i]).name() == n && is_present(found[i]),
    decreases books.len(),
{
    if books.len() > 0 {
        let init = books.drop_last();
        law_downloaded_means_found(init, found);
        assert forall|n: Seq<char>| #[trigger]
            present_names(books, found).contains(n) <==> n.len() > 0 && exists|i: int|
                0 <= i < books.len() && (#[trigger] books[i]).name() == n && is_present(
                    found[i],
                ) by {
            if present_names(init, found).contains(n) {
                let i = choose|i: int|
                    0 <= i < init.len() && (#[trigger] init[i]).name() == n && is_present(found[i]);
                assert(books[i] == init[i]);
            }
            if n.len() > 0 && exists|i: int|
                0 <= i < books.len() && (#[trigger] books[i]).name() == n && is_present(found[i]) {
                let i = choose|i: int|
                    0 <= i < books.len() && (#[trigger] books[i]).name() == n && is_present(
                        found[i],
                    );
                if i < init.len() {
                    assert(init[i] == books[i]);
                }
            }
            assert(books[books.len() - 1] == books.last());
        }
    }
}

/// The repository names of the books whose epub was found.
fn collect_present(list: &Vec<Book>, found: &Vec<Found>) -> (r: StringHashSet)
    requires
        found@.len() == list@.len(),
    ensures
        r@ == present_names(books::views(list@), found@),
{
    let mut r = StringHashSet::new();
    let mut i: usize = 0;
    let ghost all = books::views(list@);
    while i < list.len()
        invariant
            i <= list@.len() == found@.len(),
            all == books::views(list@),
            r@ == present_names(all.take(i as int), found@),
        decreases list@.len() - i,
    {
        let rn = books::repo_name(&list[i]);
        assert(all.take(i + 1).drop_last() =~= all.take(i as int));
        assert(all.take(i + 1).last() == list@[i as int]@);
        if !rn.as_str().is_empty() && (found[i].organized || found[i].flat) {
            r.insert(rn);
        }
        i += 1;
    }
    assert(all.take(i as int) =~= all);
    r
}

/// Whether a book answers a query, all three texts in lower case.
pub open spec fn answers(title: Seq<char>, author: Seq<char>, query: Seq<char>) -> bool {
    text::has(title, query) || text::has(author, query)
}

/// Whether a book's title or author holds the query, all three given in lower case.
pub fn matches_query(title: &str, author: &str, query: &str) -> (r: bool)
    ensures
        r == answers(title@, author@, query@),
        r <==> (exists|i: int| #[trigger] reads_at(title@, query@, i)) || (exists|i: int|
            #[trigger] reads_at(author@, query@, i)),
{
    proof {
        law_answers_by_characters(title@, author@, query@);
    }
    text::contains(title, query) || text::contains(author, query)
}

/// The lower-case form of this text, if it is ASCII, has each letter in lower case.
pub open spec fn lowers_ascii(s: Seq<char>) -> bool {
    vstd::utf8::is_ascii_chars(s) ==> lowercase(s) == lowered(s)
}

/// The books that answer a query given in lower case.
pub open spec fn answering(query: Seq<char>) -> spec_fn(BookView) -> bool {
    |b: BookView| answers(lowercase(b.title), lowercase(b.author), query)
}

/// The list of books with what is known of their downloads.
pub struct BookStore {
    books: Vec<Book>,
    downloaded: StringHashSet,
    path: PathBuf,
    pub epubs_dir: PathBuf,
    pub covers_dir: PathBuf,
}

/// What a [`BookStore`] holds.
#[verifier::ext_equal]
pub struct StoreView {
    pub books: Seq<BookView>,
    pub downloaded: Set<Seq<char>>,
    pub path: PathBuf,
    pub epubs_dir: PathBuf,
    pub covers_dir: PathBuf,
}

impl View for BookStore {
    type V = StoreView;

    closed spec fn view(&self) -> StoreView {
        StoreView {
            books: books::views(self.books@),
            downloaded: self.downloaded@,
            path: self.path,
            epubs_dir: self.epubs_dir,
            covers_dir: self.covers_dir,
        }
    }
}

impl BookStore {
    /// An empty store that belongs to the given file and folders.
    pub fn new(json_path: PathBuf, epubs_dir: PathBuf, covers_dir: PathBuf) -> (s: Self)
        ensures
            s@.books == Seq::<BookView>::empty(),
            s@.downloaded == Set::<Seq<char>>::empty(),
            s@.path == json_path,
            s@.epubs_dir == epubs_dir,
            s@.covers_dir == covers_dir,
    {
        let s = BookStore {
            books: Vec::new(),
            downloaded: StringHashSet::new(),
            path: json_path,
            epubs_dir,
            covers_dir,
        };
        assert(s@.books =~= Seq::empty());
        s
    }

    /// The file that the store is read from and written to.
    pub fn json_path(&self) -> (p: &PathBuf)
        ensures
            *p == self@.path,
    {
        &self.path
    }

    /// Takes over what reading the file of books gave. A missing file leaves the
    /// store as it is; `found` says what the disk holds of each book read.
    pub fn load(&mut self, file: BooksFile, found: &Vec<Found>) -> (r: Result<(), String>)
        requires
            file matches BooksFile::Books(list) ==> found@.len() == list@.len(),
        ensures
            match file {
                BooksFile::Missing => r is Ok && final(self)@ == old(self)@,
                BooksFile::Unreadable(e) => {
                    &&& r matches Err(m) && m@ == "read books.json: "@ + e@
                    &&& final(self)@ == old(self)@
                },
                BooksFile::Malformed(e) => {
                    &&& r matches Err(m) && m@ == "parse books.json: "@ + e@
                    &&& final(self)@ == old(self)@
                },
                BooksFile::Books(list) => {
                    &&& r is Ok
                    &&& final(self)@ == (StoreView {
                        books: books::views(list@),
                        downloaded: present_names(books::views(list@), found@),
                        ..old(self)@
                    })
                },
            },
    {
        match file {
            BooksFile::Missing => Ok(()),
            BooksFile::Unreadable(e) => Err("read books.json: ".to_string().concat(e.as_str())),
            BooksFile::Malformed(e) => Err("parse books.json: ".to_string().concat(e.as_str())),
            BooksFile::Books(list) => {
                self.downloaded = collect_present(&list, found);
                self.books = list;
                Ok(())
            },
        }
    }

    /// A copy of all books.
    pub fn all(&self) -> (r: Vec<Book>)
        ensures
            books::views(r@) == self@.books,
    {
        books::copy_books(&self.books)
    }

    /// The books whose title or author holds the query, in any case of letters.
    pub fn search(&self, query: &str) -> (r: Vec<Book>)
        ensures
            books::views(r@) == self@.books.filter(answering(lowercase(query@))),
            lowers_ascii(query@),
            forall|i: int|
                0 <= i < self@.books.len() ==> lowers_ascii((#[trigger] self@.books[i]).title)
                    && lowers_ascii(self@.books[i].author),
    {
        let q = to_lowercase(query);
        let mut r: Vec<Book> = Vec::new();
        let mut i: usize = 0;
        let ghost all = books::views(self.books@);
        let ghost p = answering(lowercase(query@));
        proof {
            reveal(Seq::filter);
            assert(books::views(r@) =~= all.take(0).filter(p));
        }
        while i < self.books.len()
            invariant
                i <= self.books@.len(),
                all == books::views(self.books@),
                q@ == lowercase(query@),
                p == answering(lowercase(query@)),
                books::views(r@) == all.take(i as int).filter(p),
                forall|j: int|
                    0 <= j < i ==> lowers_ascii((#[trigger] all[j]).title) && lowers_ascii(
                        all[j].author,
                    ),
            decreases self.books@.len() - i,
        {
            let b = &self.books[i];
            let ghost before = r@;
            proof {
                reveal(Seq::filter);
                assert(all.take(i + 1).drop_last() =~= all.take(i as int));
                assert(all.take(i + 1).last() == b@);
                assert(all[i as int] == b@);
            }
            let title = to_lowercase(b.title.as_str());
            let author = to_lowercase(b.author.as_str());
            if matches_query(title.as_str(), author.as_str(), q.as_str()) {
                r.push(b.clone());
                assert(books::views(r@) =~= books::views(before).push(b@));
            }
            i += 1;
        }
        assert(all.take(i as int) =~= all);
        r
    }

    /// Whether the book's epub was found at the last look.
    pub fn is_downloaded(&self, b: &Book) -> (r: bool)
        ensures
            r == self@.downloaded.contains(b@.name()),
    {
        let rn = books::repo_name(b);
        self.downloaded.contains(rn.as_str())
    }

    /// How many repositories have their epub downloaded.
    pub fn count_downloaded(&self) -> (r: usize)
        ensures
            r == self@.downloaded.len(),
    {
        self.downloaded.len()
    }

    /// How many books there are.
    pub fn count(&self) -> (r: usize)
        ensures
            r == self@.books.len(),
    {
        self.books.len()
    }

    /// Replaces the list of books; what is known of downloads stays.
    pub fn set_books(&mut self, list: Vec<Book>)
        ensures
            final(self)@ == (StoreView { books: books::views(list@), ..old(self)@ }),
    {
        self.books = list;
    }

    /// Takes over what the disk holds of each book's epub.
    pub fn refresh_download_status(&mut self, found: &Vec<Found>)
        requires
            found@.len() == old(self)@.books.len(),
        ensures
            final(self)@ == (StoreView {
                downloaded: present_names(old(self)@.books, found@),
                ..old(self)@
            }),
    {
        self.downloaded = collect_present(&self.books, found);
    }
}

/// Every book whose epub is in one of the two places counts as downloaded, and no name
/// counts that is not the name of such a book.
pub proof fn law_either_place_counts(books: Seq<BookView>, found: Seq<Found>, n: Seq<char>)
    ensures
        forall|i: int|
            0 <= i < books.len() && (#[trigger] books[i]).name().len() > 0 && (found[i].organized
                || found[i].flat) ==> present_names(books, found).contains(books[i].name()),
        present_names(books, found).contains(n) ==> n.len() > 0 && exists|i: int|
            0 <= i < books.len() && (#[trigger] books[i]).name() == n && (found[i].organized
                || found[i].flat),
{
    law_downloaded_means_found(books, found);
    assert(present_names(books, found).contains(n) <==> n.len() > 0 && exists|i: int|
        0 <= i < books.len() && (#[trigger] books[i]).name() == n && is_present(found[i]));
    assert forall|i: int|
        0 <= i < books.len() && (#[trigger] books[i]).name().len() > 0 && (found[i].organized
            || found[i].flat) implies present_names(books, found).contains(books[i].name()) by {
        assert(is_present(found[i]));
    }
}

/// A book answers every part of its title, wherever it stands in it, and every part of its
/// author.
pub proof fn law_every_part_is_answered(
    a: Seq<char>,
    query: Seq<char>,
    b: Seq<char>,
    other: Seq<char>,
)
    ensures
        answers(a + query + b, other, query),
        answers(other, a + query + b, query),
{
    text::law_found_in_the_middle(a, query, b);
}

/// The query stands in the text, character by character, from position `i` on.
pub open spec fn reads_at(s: Seq<char>, query: Seq<char>, i: int) -> bool {
    &&& 0 <= i
    &&& i + query.len() <= s.len()
    &&& forall|j: int| 0 <= j < query.len() ==> s[i + j] == #[trigger] query[j]
}

/// A book answers a query exactly if the query stands, character by character, somewhere
/// in its title or somewhere in its author.
pub proof fn law_answers_by_characters(title: Seq<char>, author: Seq<char>, query: Seq<char>)
    ensures
        answers(title, author, query) <==> (exists|i: int| #[trigger] reads_at(title, query, i)) || (
        exists|i: int| #[trigger] reads_at(author, query, i)),
{
    assert forall|s: Seq<char>|
        text::has(s, query) <==> exists|i: int| #[trigger] reads_at(s, query, i) by {
        if text::has(s, query) {
            let i = choose|i: int| text::occurs_at(s, query, i);
            text::law_occurrence_by_characters(s, query, i);
            assert(reads_at(s, query, i));
        }
        if exists|i: int| #[trigger] reads_at(s, query, i) {
            let i = choose|i: int| #[trigger] reads_at(s, query, i);
            text::law_occurrence_by_characters(s, query, i);
        }
    }
    assert(text::has(title, query) <==> exists|i: int| #[trigger] reads_at(title, query, i));
    assert(text::has(author, query) <==> exists|i: int| #[trigger] reads_at(author, query, i));
}

/// A search takes each book by itself: a book is in the result, in its place, exactly if
/// the query in lower case stands in its title or in its author in lower case.
pub proof fn law_search_takes_each_book_by_itself(
    before: Seq<BookView>,
    b: BookView,
    after: Seq<BookView>,
    query: Seq<char>,
)
    ensures
        (before + seq![b] + after).filter(answering(query)) == before.filter(answering(query)) + (
        if (exists|i: int| #[trigger] reads_at(lowercase(b.title), query, i)) || (exists|i: int|
            #[trigger] reads_at(lowercase(b.author), query, i)) {
            seq![b]
        } else {
            Seq::empty()
        }) + after.filter(answering(query)),
    decreases after.len(),
{
    reveal(Seq::filter);
    let p = answering(query);
    let all = before + seq![b] + after;
    law_answers_by_characters(lowercase(b.title), lowercase(b.author), query);
    let one = if p(b) {
        seq![b]
    } else {
        Seq::empty()
    };
    if after.len() == 0 {
        assert(all.drop_last() =~= before);
        assert(all.filter(p) =~= before.filter(p) + one + after.filter(p));
    } else {
        law_search_takes_each_book_by_itself(before, b, after.drop_last(), query);
        assert(all.drop_last() =~= before + seq![b] + after.drop_last());
        assert(all.last() == after.last());
        assert(all.filter(p) =~= before.filter(p) + one + after.filter(p));
    }
}

/// A book is found by every part of its title and of its author, in whatever case the
/// letters of either are: two texts are alike that differ in the case of ASCII letters only.
pub proof fn law_found_in_any_case(
    a: Seq<char>,
    part: Seq<char>,
    b: Seq<char>,
    asked: Seq<char>,
    book: BookView,
)
    requires
        vstd::utf8::is_ascii_chars(a + part + b),
        vstd::utf8::is_ascii_chars(asked),
        lowers_ascii(a + part + b),
        lowers_ascii(asked),
        asked.len() == part.len(),
        forall|i: int|
            0 <= i < part.len() ==> ascii_lower(#[trigger] asked[i]) == ascii_lower(part[i]),
    ensures
        book.title == a + part + b ==> answering(lowercase(asked))(book),
        book.author == a + part + b ==> answering(lowercase(asked))(book),
{
    assert(lowered(a + part + b) =~= lowered(a) + lowered(part) + lowered(b));
    assert(lowered(asked) =~= lowered(part)) by {
        assert forall|i: int| 0 <= i < part.len() implies lowered(asked)[i] == lowered(part)[i] by {
            assert(ascii_lower(asked[i]) == ascii_lower(part[i]));
        }
    }
    law_every_part_is_answered(lowered(a), lowered(part), lowered(b), lowercase(book.author));
    law_every_part_is_answered(lowered(a), lowered(part), lowered(b), lowercase(book.title));
}

} // verus!
