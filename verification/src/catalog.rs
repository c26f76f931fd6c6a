//! The catalog: from repository descriptions to books, and merging a fresh catalog
//! into the books that are known.

use crate::books;
use crate::books::{Book, BookView};
use crate::store::{BookStore, StoreView};
use crate::text;
use vstd::hash_map::StringHashMap;
use vstd::hash_set::StringHashSet;
use vstd::prelude::*;

verus! {

/// The upper-case form of a character, as [`char::to_uppercase`] gives it.
pub uninterp spec fn uppercase(c: char) -> Seq<char>;

/// The upper-case form of an ASCII letter; any other character as it is.
pub open spec fn ascii_upper(c: char) -> char {
    if 'a' <= c <= 'z' {
        (c as u32 - 32) as char
    } else {
        c
    }
}

/// Calls [`char::to_uppercase`] and collects what it yields, which depends on the
/// character alone. An ASCII letter gives its capital, any other ASCII character
/// itself.
#[verifier::external_body]
fn to_uppercase(c: char) -> (r: String)
    ensures
        r@ == uppercase(c),
        (c as u32) < 128 ==> r@ == seq![ascii_upper(c)],
{
    c.to_uppercase().collect()
}

/// A word with its first character in upper case.
pub open spec fn capitalized(word: Seq<char>) -> Seq<char> {
    if word.len() == 0 {
        word
    } else {
        uppercase(word[0]) + word.skip(1)
    }
}

/// Each word of a list with its first character in upper case.
pub open spec fn all_capitalized(words: Seq<Seq<char>>) -> Seq<Seq<char>> {
    Seq::new(words.len(), |i: int| capitalized(words[i]))
}

/// The title that a slug stands for: its words, parted by hyphens, capitalized.
pub open spec fn slug_title(slug: Seq<char>) -> Seq<char> {
    text::joined(all_capitalized(text::pieces(slug, '-')), " "@)
}

/// Joining up to a last word.
proof fn lemma_joined_push(init: Seq<Seq<char>>, word: Seq<char>, sep: Seq<char>)
    ensures
        text::joined(init.push(word), sep) == if init.len() == 0 {
            word
        } else {
            text::joined(init, sep) + sep + word
        },
{
    assert(init.push(word).drop_last() =~= init);
}

/// The upper-case form of this character, if it is ASCII, is the capital letter.
pub open spec fn raises_ascii(c: char) -> bool {
    (c as u32) < 128 ==> uppercase(c) == seq![ascii_upper(c)]
}

/// Character `i` of a slug begins a word.
pub open spec fn begins_word(slug: Seq<char>, i: int) -> bool {
    0 <= i < slug.len() && slug[i] != '-' && (i == 0 || slug[i - 1] == '-')
}

/// The title that a slug stands for.
pub fn slug_to_title(slug: &str) -> (r: String)
    ensures
        r@ == slug_title(slug@),
        forall|i: int| #[trigger] begins_word(slug@, i) ==> raises_ascii(slug@[i]),
{
    let v = text::chars_of(slug);
    let mut out = String::new();
    let mut at_start = true;
    let mut i: usize = 0;
    proof {
        let none = text::pieces(v@.take(0), '-');
        assert(all_capitalized(none) =~= seq![Seq::empty()]);
    }
    while i < v.len()
        invariant
            i <= v@.len(),
            out@ == text::joined(all_capitalized(text::pieces(v@.take(i as int), '-')), " "@),
            at_start == (text::pieces(v@.take(i as int), '-').last().len() == 0),
            v@ == slug@,
            i == 0 ==> at_start,
            i > 0 && v@[i - 1] == '-' ==> at_start,
            forall|j: int| j < i && #[trigger] begins_word(slug@, j) ==> raises_ascii(slug@[j]),
        decreases v@.len() - i,
    {
        let c = v[i];
        let ghost words = text::pieces(v@.take(i as int), '-');
        let ghost caps = all_capitalized(words);
        let ghost before = out@;
        proof {
            assert(v@.take(i + 1).drop_last() =~= v@.take(i as int));
            text::lemma_pieces_nonempty(v@.take(i as int), '-');
        }
        if c == '-' {
            out.append(" ");
            at_start = true;
            proof {
                assert(all_capitalized(words.push(Seq::empty())) =~= caps.push(Seq::empty()));
                lemma_joined_push(caps, Seq::empty(), " "@);
                assert(out@ =~= before + " "@ + Seq::<char>::empty());
            }
        } else {
            let ghost init = caps.drop_last();
            let ghost word = words.last();
            if at_start {
                out.append(to_uppercase(c).as_str());
            } else {
                out.push(c);
            }
            proof {
                let now = words.drop_last().push(word.push(c));
                assert(all_capitalized(now) =~= init.push(capitalized(word.push(c))));
                lemma_joined_push(init, capitalized(word.push(c)), " "@);
                lemma_joined_push(init, capitalized(word), " "@);
                assert(init.push(capitalized(word)) =~= caps);
                if at_start {
                    assert(capitalized(word.push(c)) =~= uppercase(c));
                    assert(capitalized(word) =~= Seq::empty());
                } else {
                    assert(word.push(c).skip(1) =~= word.skip(1).push(c));
                    assert(capitalized(word.push(c)) =~= capitalized(word).push(c));
                }
                assert(out@ =~= text::joined(all_capitalized(now), " "@));
                assert(now.last() == word.push(c));
            }
            at_start = false;
        }
        i += 1;
    }
    assert(v@.take(i as int) =~= v@);
    out
}

/// The author in what follows `, by ` in a description: up to the first of the
/// credits that is given, else without the dots at the end.
pub open spec fn author_part(rest: Seq<char>) -> Seq<char> {
    match text::first_at(rest, ". Translated by"@) {
        Some(i) => rest.take(i),
        None => match text::first_at(rest, ". Illustrated by"@) {
            Some(i) => rest.take(i),
            None => match text::first_at(rest, ". Edited by"@) {
                Some(i) => rest.take(i),
                None => text::drop_end_while(rest, text::only('.')),
            },
        },
    }
}

/// Title and author by a repository's description; both empty where it does not
/// speak of an edition.
pub open spec fn described(desc: Seq<char>) -> (Seq<char>, Seq<char>) {
    match text::first_at(desc, "edition of "@) {
        None => (Seq::empty(), Seq::empty()),
        Some(i) => {
            let after = desc.skip(i + "edition of "@.len());
            match text::first_at(after, ", by "@) {
                Some(k) => (
                    text::trimmed(after.take(k)),
                    text::trimmed(author_part(after.skip(k + ", by "@.len()))),
                ),
                None => (
                    text::trimmed(text::drop_end_while(after, text::only('.'))),
                    Seq::empty(),
                ),
            }
        },
    }
}

/// The author in what follows `, by ` in a description.
fn cut_author(rest: &str) -> (r: String)
    ensures
        r@ == author_part(rest@),
{
    if let Some(i) = text::find(rest, ". Translated by") {
        return text::head(rest, i);
    }
    if let Some(i) = text::find(rest, ". Illustrated by") {
        return text::head(rest, i);
    }
    if let Some(i) = text::find(rest, ". Edited by") {
        return text::head(rest, i);
    }
    text::trim_end_char(rest, '.')
}

/// Title and author by a repository's description.
pub fn parse_description(desc: &str) -> (r: (String, String))
    ensures
        (r.0@, r.1@) == described(desc@),
{
    let marker = "edition of ";
    let i = match text::find(desc, marker) {
        Some(i) => i,
        None => {
            return (String::new(), String::new());
        },
    };
    let after = text::tail(desc, i + marker.unicode_len());
    let by = ", by ";
    match text::find(after.as_str(), by) {
        Some(k) => {
            let title = text::head(after.as_str(), k);
            let rest = text::tail(after.as_str(), k + by.unicode_len());
            let author = cut_author(rest.as_str());
            (text::trim(title.as_str()), text::trim(author.as_str()))
        },
        None => {
            let title = text::trim_end_char(after.as_str(), '.');
            (text::trim(title.as_str()), String::new())
        },
    }
}

/// A repository of the organization.
#[derive(Debug)]
pub struct Repo {
    pub name: String,
    pub description: Option<String>,
}

/// What a [`Repo`] holds.
#[verifier::ext_equal]
pub struct RepoView {
    pub name: Seq<char>,
    pub description: Option<Seq<char>>,
}

impl View for Repo {
    type V = RepoView;

    open spec fn view(&self) -> RepoView {
        RepoView {
            name: self.name@,
            description: match self.description {
                Some(d) => Some(d@),
                None => None,
            },
        }
    }
}

/// What a list of repositories holds.
pub open spec fn repo_views(v: Seq<Repo>) -> Seq<RepoView> {
    Seq::new(v.len(), |i: int| v[i]@)
}

impl RepoView {
    /// The description; empty where there is none.
    pub open spec fn about(self) -> Seq<char> {
        match self.description {
            Some(d) => d,
            None => Seq::empty(),
        }
    }

    /// The repository holds a book.
    pub open spec fn is_ebook(self) -> bool {
        text::has(self.about(), "Standard Ebooks edition"@)
    }
}

/// What stands before the first underscore.
pub open spec fn first_segment(s: Seq<char>) -> Seq<char> {
    match text::first_at(s, "_"@) {
        Some(i) => s.take(i),
        None => s,
    }
}

/// The book that a repository holds: by its description, and by its name where the
/// description leaves the title or the author open.
pub open spec fn book_of(r: RepoView) -> BookView {
    let told = described(r.about());
    let author = if told.1.len() == 0 {
        slug_title(first_segment(r.name))
    } else {
        told.1
    };
    let guess = match text::first_at(r.name, "_"@) {
        Some(i) if told.0.len() == 0 => slug_title(first_segment(r.name.skip(i + 1))),
        _ => told.0,
    };
    BookView {
        title: if guess.len() == 0 {
            r.name
        } else {
            guess
        },
        author,
        url: "https://standardebooks.org/ebooks/"@ + text::replaced(r.name, '_', "/"@),
        repo: "https://github.com/standardebooks/"@ + r.name,
        repo_name: r.name,
        ..books::blank_book()
    }
}

/// The books of a list of repositories, in order.
pub open spec fn catalog_of(repos: Seq<RepoView>) -> Seq<BookView>
    decreases repos.len(),
{
    if repos.len() == 0 {
        Seq::empty()
    } else {
        let before = catalog_of(repos.drop_last());
        if repos.last().is_ebook() {
            before.push(book_of(repos.last()))
        } else {
            before
        }
    }
}

/// What stands before the first underscore.
fn cut_segment(s: &str) -> (r: String)
    ensures
        r@ == first_segment(s@),
{
    match text::find(s, "_") {
        Some(i) => text::head(s, i),
        None => s.to_string(),
    }
}

/// The book that a repository with the given name and description holds.
pub fn book_from_repo(name: &str, about: &str) -> (r: Book)
    ensures
        r@ == book_of(RepoView { name: name@, description: Some(about@) }),
{
    let (mut title, mut author) = parse_description(about);
    if author.as_str().is_empty() {
        author = slug_to_title(cut_segment(name).as_str());
    }
    if title.as_str().is_empty() {
        proof {
            reveal_strlit("_");
        }
        if let Some(i) = text::find(name, "_") {
            let rest = text::tail(name, i + 1);
            title = slug_to_title(cut_segment(rest.as_str()).as_str());
        }
    }
    if title.as_str().is_empty() {
        title = name.to_string();
    }
    let path = text::replace_char(name, '_', "/");
    let blank: Book = Default::default();
    let b = Book {
        title,
        author,
        url: "https://standardebooks.org/ebooks/".to_string().concat(path.as_str()),
        repo: "https://github.com/standardebooks/".to_string().concat(name),
        repo_name: name.to_string(),
        ..blank
    };
    assert(b@ =~= book_of(RepoView { name: name@, description: Some(about@) }));
    b
}

/// The books of a list of repositories: those whose description speaks of a Standard
/// Ebooks edition.
pub fn books_from_repos(repos: &Vec<Repo>) -> (r: Vec<Book>)
    ensures
        books::views(r@) == catalog_of(repo_views(repos@)),
{
    let ghost all = repo_views(repos@);
    let mut r: Vec<Book> = Vec::new();
    let mut i: usize = 0;
    assert(books::views(r@) =~= catalog_of(all.take(0)));
    while i < repos.len()
        invariant
            i <= repos@.len(),
            all == repo_views(repos@),
            books::views(r@) == catalog_of(all.take(i as int)),
        decreases repos@.len() - i,
    {
        let repo = &repos[i];
        let ghost before = r@;
        assert(all.take(i + 1).drop_last() =~= all.take(i as int));
        assert(all.take(i + 1).last() == repo@);
        let about = match &repo.description {
            Some(d) => d.clone(),
            None => String::new(),
        };
        assert(about@ =~= repo@.about());
        if text::contains(about.as_str(), "Standard Ebooks edition") {
            let b = book_from_repo(repo.name.as_str(), about.as_str());
            assert(b@ =~= book_of(repo@));
            r.push(b);
            assert(books::views(r@) =~= books::views(before).push(book_of(repo@)));
        }
        i += 1;
    }
    assert(all.take(i as int) =~= all);
    r
}

/// Why the answer to a request for a page is no page: `status` is the answer's status
/// line. None if it is one.
pub fn catalog_refusal(success: bool, status: &str) -> (r: Option<String>)
    ensures
        success ==> r is None,
        !success ==> (r matches Some(m) && m@ == "GitHub API HTTP "@ + status@),
{
    if success {
        None
    } else {
        Some("GitHub API HTTP ".to_string().concat(status))
    }
}

/// The repositories of the organization, as they come in page by page.
pub struct CatalogFetch {
    repos: Vec<Repo>,
    page: u32,
}

/// What a [`CatalogFetch`] holds: the repositories so far, and the page to ask for.
#[verifier::ext_equal]
pub struct FetchView {
    pub repos: Seq<RepoView>,
    pub page: nat,
}

impl View for CatalogFetch {
    type V = FetchView;

    closed spec fn view(&self) -> FetchView {
        FetchView { repos: repo_views(self.repos@), page: self.page as nat }
    }
}

impl CatalogFetch {
    /// No page has come in; the first is to be asked for.
    pub fn new() -> (r: Self)
        ensures
            r@.repos == Seq::<RepoView>::empty(),
            r@.page == 1,
    {
        let r = CatalogFetch { repos: Vec::new(), page: 1 };
        assert(r@.repos =~= Seq::empty());
        r
    }

    /// The address of the page to ask for.
    pub fn url(&self) -> (r: String)
        ensures
            r@ == "https://api.github.com/orgs/standardebooks/repos?per_page=100&page="@
                + text::decimal_of(self@.page),
    {
        let number = text::decimal(self.page as u64);
        "https://api.github.com/orgs/standardebooks/repos?per_page=100&page=".to_string().concat(
            number.as_str(),
        )
    }

    /// The address of the page to ask for next; none when the sync is cancelled.
    pub fn next_page(&self, cancelled: bool) -> (r: Option<String>)
        ensures
            cancelled ==> r is None,
            !cancelled ==> (r matches Some(u) && u@
                == "https://api.github.com/orgs/standardebooks/repos?per_page=100&page="@
                + text::decimal_of(self@.page)),
    {
        if cancelled {
            None
        } else {
            Some(self.url())
        }
    }

    /// The number of the page to ask for.
    pub fn page(&self) -> (r: u32)
        ensures
            r == self@.page,
    {
        self.page
    }

    /// Takes over a page. An empty page is the last; after any other the number of
    /// repositories so far is reported and the next page is to be asked for.
    pub fn receive(&mut self, batch: Vec<Repo>) -> (r: Option<String>)
        requires
            old(self)@.page < u32::MAX,
        ensures
            batch@.len() == 0 ==> r is None && final(self)@ == old(self)@,
            batch@.len() > 0 ==> {
                &&& r matches Some(m) && m@ == "Fetched "@ + text::decimal_of(
                    final(self)@.repos.len(),
                ) + " repos..."@
                &&& final(self)@.repos == old(self)@.repos + repo_views(batch@)
                &&& final(self)@.page == old(self)@.page + 1
            },
    {
        if batch.len() == 0 {
            return None;
        }
        let ghost before = self@.repos;
        let ghost incoming = repo_views(batch@);
        let mut batch = batch;
        self.repos.append(&mut batch);
        assert(self@.repos =~= before + incoming);
        self.page = self.page + 1;
        let mut m = "Fetched ".to_string();
        m.append(text::decimal(self.repos.len() as u64).as_str());
        m.append(" repos...");
        Some(m)
    }

    /// The books among the repositories that came in.
    pub fn books(&self) -> (r: Vec<Book>)
        ensures
            books::views(r@) == catalog_of(self@.repos),
    {
        books_from_repos(&self.repos)
    }
}

/// What merging a fresh catalog came to.
#[derive(Clone, Copy, Debug, PartialEq, Eq)]
pub struct SyncSummary {
    /// Books that were not known before.
    pub new: usize,
    /// Repositories that are no longer in the catalog.
    pub removed: usize,
    /// Books after the merge.
    pub total: usize,
}

/// The last book of the list with the given repository name.
pub open spec fn last_named(list: Seq<BookView>, name: Seq<char>) -> Option<BookView>
    decreases list.len(),
{
    if list.len() == 0 || name.len() == 0 {
        None
    } else if list.last().name() == name {
        Some(list.last())
    } else {
        last_named(list.drop_last(), name)
    }
}

/// The fresh catalog with each book that was known before as it was known.
pub open spec fn merged(existing: Seq<BookView>, fresh: Seq<BookView>) -> Seq<BookView> {
    Seq::new(
        fresh.len(),
        |i: int|
            match last_named(existing, fresh[i].repo_name) {
                Some(b) => b,
                None => fresh[i],
            },
    )
}

/// How many books of the fresh catalog were not known before.
pub open spec fn count_new(existing: Seq<BookView>, fresh: Seq<BookView>) -> nat
    decreases fresh.len(),
{
    if fresh.len() == 0 {
        0
    } else {
        count_new(existing, fresh.drop_last()) + if last_named(
            existing,
            fresh.last().repo_name,
        ) is None {
            1nat
        } else {
            0nat
        }
    }
}

/// The catalog has a book for the given repository.
pub open spec fn has_repo(fresh: Seq<BookView>, name: Seq<char>) -> bool {
    exists|i: int| 0 <= i < fresh.len() && (#[trigger] fresh[i]).repo_name == name
}

/// The repository names of known books that the fresh catalog lacks.
pub open spec fn removed_names(existing: Seq<BookView>, fresh: Seq<BookView>) -> Set<Seq<char>>
    decreases existing.len(),
{
    if existing.len() == 0 {
        Set::empty()
    } else {
        let before = removed_names(existing.drop_last(), fresh);
        let name = existing.last().name();
        if name.len() > 0 && !has_repo(fresh, name) {
            before.insert(name)
        } else {
            before
        }
    }
}

/// The map leads from each repository name to the last book of the list with it.
pub open spec fn is_index(m: Map<Seq<char>, usize>, list: Seq<BookView>) -> bool {
    &&& forall|n: Seq<char>| #[trigger] m.contains_key(n) <==> last_named(list, n) is Some
    &&& forall|n: Seq<char>| #[trigger]
        m.contains_key(n) ==> m[n] < list.len() && Some(list[m[n] as int]) == last_named(list, n)
}

/// Where in `list` the last book with each repository name stands.
fn index_by_name(list: &Vec<Book>) -> (r: StringHashMap<usize>)
    ensures
        is_index(r@, books::views(list@)),
{
    let ghost all = books::views(list@);
    let mut r: StringHashMap<usize> = StringHashMap::new();
    let mut i: usize = 0;
    while i < list.len()
        invariant
            i <= list@.len(),
            all == books::views(list@),
            is_index(r@, all.take(i as int)),
        decreases list@.len() - i,
    {
        let rn = books::repo_name(&list[i]);
        let ghost before = r@;
        let ghost part = all.take(i as int);
        let ghost longer = all.take(i + 1);
        assert(longer.drop_last() =~= part);
        assert(longer.last() == list@[i as int]@);
        if !rn.as_str().is_empty() {
            r.insert(rn, i);
        }
        assert forall|n: Seq<char>| #[trigger] r@.contains_key(n) <==> last_named(
            longer,
            n,
        ) is Some by {
            assert(before.contains_key(n) <==> last_named(part, n) is Some);
        }
        assert forall|n: Seq<char>| #[trigger] r@.contains_key(n) implies r@[n] < longer.len()
            && Some(longer[r@[n] as int]) == last_named(longer, n) by {
            if n != longer.last().name() {
                assert(before.contains_key(n));
                assert(longer[before[n] as int] == part[before[n] as int]);
            }
        }
        i += 1;
    }
    assert(all.take(i as int) =~= all);
    r
}

/// The fresh catalog with each book that was known before as it was known, and what
/// the merge came to.
pub fn merge_catalog(existing: &Vec<Book>, fresh: &Vec<Book>) -> (r: (Vec<Book>, SyncSummary))
    ensures
        books::views(r.0@) == merged(books::views(existing@), books::views(fresh@)),
        r.1.new == count_new(books::views(existing@), books::views(fresh@)),
        r.1.removed == removed_names(books::views(existing@), books::views(fresh@)).len(),
        r.1.total == fresh@.len(),
{
    let ghost old_list = books::views(existing@);
    let ghost new_list = books::views(fresh@);
    let known = index_by_name(existing);
    let mut names = StringHashSet::new();
    let mut updated: Vec<Book> = Vec::new();
    let mut count: usize = 0;
    let mut i: usize = 0;
    while i < fresh.len()
        invariant
            i <= fresh@.len(),
            old_list == books::views(existing@),
            new_list == books::views(fresh@),
            is_index(known@, old_list),
            updated@.len() == i,
            forall|j: int|
                0 <= j < i ==> (#[trigger] updated@[j])@ == merged(old_list, new_list)[j],
            count == count_new(old_list, new_list.take(i as int)) <= i,
            forall|n: Seq<char>| #[trigger]
                names@.contains(n) <==> has_repo(new_list.take(i as int), n),
        decreases fresh@.len() - i,
    {
        let book = &fresh[i];
        let ghost before = new_list.take(i as int);
        let ghost after = new_list.take(i + 1);
        let ghost seen = names@;
        assert(after.drop_last() =~= before);
        assert(after.last() == book@);
        assert(new_list[i as int] == book@);
        match known.get(book.repo_name.as_str()) {
            Some(k) => {
                assert(old_list[*k as int] == existing@[*k as int]@);
                updated.push(existing[*k].clone());
            },
            None => {
                count += 1;
                updated.push(book.clone());
            },
        }
        names.insert(book.repo_name.clone());
        assert forall|n: Seq<char>| #[trigger] names@.contains(n) <==> has_repo(after, n) by {
            assert(seen.contains(n) <==> has_repo(before, n));
            if has_repo(before, n) {
                let j = choose|j: int| 0 <= j < before.len() && (#[trigger] before[j]).repo_name == n;
                assert(after[j] == before[j]);
            }
            if n == book.repo_name@ {
                assert(after[i as int].repo_name == n);
            }
            if has_repo(after, n) {
                let j = choose|j: int| 0 <= j < after.len() && (#[trigger] after[j]).repo_name == n;
                if j < i {
                    assert(before[j] == after[j]);
                }
            }
        }
        i += 1;
    }
    assert(new_list.take(i as int) =~= new_list);
    assert(books::views(updated@) =~= merged(old_list, new_list));
    let mut gone = StringHashSet::new();
    let mut k: usize = 0;
    while k < existing.len()
        invariant
            k <= existing@.len(),
            old_list == books::views(existing@),
            forall|n: Seq<char>| #[trigger] names@.contains(n) <==> has_repo(new_list, n),
            gone@ == removed_names(old_list.take(k as int), new_list),
        decreases existing@.len() - k,
    {
        let rn = books::repo_name(&existing[k]);
        assert(old_list.take(k + 1).drop_last() =~= old_list.take(k as int));
        assert(old_list.take(k + 1).last() == existing@[k as int]@);
        if !rn.as_str().is_empty() && !names.contains(rn.as_str()) {
            gone.insert(rn);
        }
        k += 1;
    }
    assert(old_list.take(k as int) =~= old_list);
    let summary = SyncSummary { new: count, removed: gone.len(), total: updated.len() };
    (updated, summary)
}

/// Merges a fresh catalog into the store, where `existing` are the books that the
/// store held before the catalog was fetched.
pub fn sync_catalog(store: &mut BookStore, existing: &Vec<Book>, fresh: &Vec<Book>) -> (r:
    SyncSummary)
    ensures
        final(store)@ == (StoreView {
            books: merged(books::views(existing@), books::views(fresh@)),
            ..old(store)@
        }),
        r.new == count_new(books::views(existing@), books::views(fresh@)),
        r.removed == removed_names(books::views(existing@), books::views(fresh@)).len(),
        r.total == fresh@.len(),
{
    let (updated, summary) = merge_catalog(existing, fresh);
    store.set_books(updated);
    summary
}

/// The line that reports how many books a fresh catalog holds.
pub fn found_message(count: usize) -> (r: String)
    ensures
        r@ == "Found "@ + text::decimal_of(count as nat) + " books on GitHub."@,
{
    let mut m = "Found ".to_string();
    m.append(text::decimal(count as u64).as_str());
    m.append(" books on GitHub.");
    m
}

/// The line that reports what merging a fresh catalog came to.
pub fn sync_message(s: &SyncSummary) -> (r: String)
    ensures
        r@ == "Sync complete: "@ + text::decimal_of(s.new as nat) + " new, "@ + text::decimal_of(
            s.removed as nat,
        ) + " removed, "@ + text::decimal_of(s.total as nat) + " total"@,
{
    let mut m = "Sync complete: ".to_string();
    m.append(text::decimal(s.new as u64).as_str());
    m.append(" new, ");
    m.append(text::decimal(s.removed as u64).as_str());
    m.append(" removed, ");
    m.append(text::decimal(s.total as u64).as_str());
    m.append(" total");
    m
}

/// The last book with a name is found exactly where a book with that name is.
pub proof fn lemma_last_named(list: Seq<BookView>, name: Seq<char>)
    ensures
        match last_named(list, name) {
            Some(b) => {
                &&& name.len() > 0
                &&& b.name() == name
                &&& exists|k: int| 0 <= k < list.len() && #[trigger] list[k] == b
            },
            None => name.len() == 0 || forall|k: int|
                0 <= k < list.len() ==> (#[trigger] list[k]).name() != name,
        },
    decreases list.len(),
{
    if list.len() > 0 && name.len() > 0 {
        let init = list.drop_last();
        if list.last().name() == name {
            assert(list[list.len() - 1] == list.last());
        } else {
            lemma_last_named(init, name);
            if let Some(b) = last_named(init, name) {
                let k = choose|k: int| 0 <= k < init.len() && #[trigger] init[k] == b;
                assert(list[k] == b);
            } else {
                assert forall|k: int| 0 <= k < list.len() implies (#[trigger] list[k]).name()
                    != name by {
                    if k < init.len() {
                        assert(init[k] == list[k]);
                    }
                }
            }
        }
    }
}

/// Some book of the list has the given repository name.
pub open spec fn knows(list: Seq<BookView>, name: Seq<char>) -> bool {
    exists|k: int| 0 <= k < list.len() && (#[trigger] list[k]).name() == name
}

/// After a sync the list holds the books of the catalog and no others, in the order
/// of the catalog. A book that was known is kept as it was known; any other is as the
/// catalog has it.
pub proof fn law_sync_follows_catalog(existing: Seq<BookView>, fresh: Seq<BookView>, i: int)
    requires
        0 <= i < fresh.len(),
        fresh[i].repo_name.len() > 0,
    ensures
        merged(existing, fresh).len() == fresh.len(),
        merged(existing, fresh)[i].name() == fresh[i].repo_name,
        knows(existing, fresh[i].repo_name) ==> existing.contains(merged(existing, fresh)[i]),
        !knows(existing, fresh[i].repo_name) ==> merged(existing, fresh)[i] == fresh[i],
{
    lemma_last_named(existing, fresh[i].repo_name);
}

/// New books and books that were known make up the whole list.
pub proof fn law_sync_counts(existing: Seq<BookView>, fresh: Seq<BookView>)
    requires
        forall|i: int| 0 <= i < fresh.len() ==> (#[trigger] fresh[i]).repo_name.len() > 0,
    ensures
        count_new(existing, fresh) == fresh.filter(
            |b: BookView| !knows(existing, b.repo_name),
        ).len(),
        count_new(existing, fresh) <= fresh.len(),
    decreases fresh.len(),
{
    reveal(Seq::filter);
    if fresh.len() > 0 {
        let init = fresh.drop_last();
        assert forall|i: int| 0 <= i < init.len() implies (#[trigger] init[i]).repo_name.len()
            > 0 by {
            assert(init[i] == fresh[i]);
        }
        law_sync_counts(existing, init);
        assert(fresh[fresh.len() - 1].repo_name.len() > 0);
        lemma_last_named(existing, fresh.last().repo_name);
    }
}

/// A name counts as removed exactly if a known book has it and the catalog lacks it.
pub proof fn law_removed_names(existing: Seq<BookView>, fresh: Seq<BookView>, name: Seq<char>)
    ensures
        removed_names(existing, fresh).finite(),
        removed_names(existing, fresh).contains(name) <==> name.len() > 0 && knows(
            existing,
            name,
        ) && !has_repo(fresh, name),
    decreases existing.len(),
{
    if existing.len() > 0 {
        let init = existing.drop_last();
        law_removed_names(init, fresh, name);
        if knows(init, name) {
            let k = choose|k: int| 0 <= k < init.len() && (#[trigger] init[k]).name() == name;
            assert(existing[k] == init[k]);
        }
        if knows(existing, name) {
            let k = choose|k: int| 0 <= k < existing.len() && (#[trigger] existing[k]).name() == name;
            if k < init.len() {
                assert(init[k] == existing[k]);
            }
        }
        assert(existing[existing.len() - 1] == existing.last());
    }
}

proof fn lemma_nothing_new(existing: Seq<BookView>, fresh: Seq<BookView>)
    requires
        forall|i: int|
            0 <= i < fresh.len() ==> last_named(existing, (#[trigger] fresh[i]).repo_name) is Some,
    ensures
        count_new(existing, fresh) == 0,
    decreases fresh.len(),
{
    if fresh.len() > 0 {
        let init = fresh.drop_last();
        assert forall|i: int| 0 <= i < init.len() implies last_named(
            existing,
            (#[trigger] init[i]).repo_name,
        ) is Some by {
            assert(init[i] == fresh[i]);
        }
        lemma_nothing_new(existing, init);
        assert(last_named(existing, fresh[fresh.len() - 1].repo_name) is Some);
    }
}

/// Syncing once more with the same catalog finds nothing new and removes nothing; if
/// the catalog names no repository twice, it leaves the list as it is.
pub proof fn law_sync_again(existing: Seq<BookView>, fresh: Seq<BookView>)
    requires
        forall|i: int| 0 <= i < fresh.len() ==> (#[trigger] fresh[i]).repo_name.len() > 0,
    ensures
        count_new(merged(existing, fresh), fresh) == 0,
        removed_names(merged(existing, fresh), fresh) == Set::<Seq<char>>::empty(),
        (forall|i: int, j: int|
            0 <= i < j < fresh.len() ==> (#[trigger] fresh[i]).repo_name != (
            #[trigger] fresh[j]).repo_name) ==> merged(merged(existing, fresh), fresh) == merged(
            existing,
            fresh,
        ),
{
    let m = merged(existing, fresh);
    assert forall|i: int| 0 <= i < fresh.len() implies (#[trigger] m[i]).name()
        == fresh[i].repo_name by {
        law_sync_follows_catalog(existing, fresh, i);
    }
    assert forall|i: int| 0 <= i < fresh.len() implies last_named(
        m,
        (#[trigger] fresh[i]).repo_name,
    ) is Some by {
        lemma_last_named(m, fresh[i].repo_name);
        assert(m[i].name() == fresh[i].repo_name);
    }
    lemma_nothing_new(m, fresh);
    assert forall|n: Seq<char>| !removed_names(m, fresh).contains(n) by {
        law_removed_names(m, fresh, n);
        if knows(m, n) {
            let k = choose|k: int| 0 <= k < m.len() && (#[trigger] m[k]).name() == n;
            assert(fresh[k].repo_name == n);
        }
    }
    assert(removed_names(m, fresh) =~= Set::<Seq<char>>::empty());
    if forall|i: int, j: int|
        0 <= i < j < fresh.len() ==> (#[trigger] fresh[i]).repo_name != (
        #[trigger] fresh[j]).repo_name {
        assert forall|i: int| 0 <= i < fresh.len() implies #[trigger] merged(m, fresh)[i]
            == m[i] by {
            lemma_last_named(m, fresh[i].repo_name);
            assert(last_named(m, fresh[i].repo_name) is Some);
            let b = last_named(m, fresh[i].repo_name)->0;
            let k = choose|k: int| 0 <= k < m.len() && #[trigger] m[k] == b;
            assert(m[k].name() == fresh[k].repo_name);
            assert(k == i);
        }
        assert(merged(m, fresh) =~= m);
    }
}

/// The address of a book in the catalog names its repository: where no name is
/// stored, it is found again in the address. This needs a name without `/` that does
/// not end with `_`.
pub proof fn law_address_names_repository(r: RepoView)
    requires
        forall|i: int| 0 <= i < r.name.len() ==> #[trigger] r.name[i] != '/',
        r.name.len() > 0 ==> r.name.last() != '_',
    ensures
        (BookView { repo_name: Seq::empty(), ..book_of(r) }).name() == r.name,
{
    let site = "https://standardebooks.org/ebooks/"@;
    let marker = "/ebooks/"@;
    let path = text::replaced(r.name, '_', "/"@);
    let url = site + path;
    reveal_strlit("https://standardebooks.org/ebooks/");
    reveal_strlit("/ebooks/");
    reveal_strlit("/");
    reveal_strlit("_");
    assert("/"@ =~= seq!['/']);
    assert("_"@ =~= seq!['_']);
    assert(site.len() == 34 && marker.len() == 8);
    assert(url.subrange(26, 34) =~= marker);
    assert forall|j: int| 0 <= j < 26 implies !text::occurs_at(url, marker, j) by {
        assert(url.subrange(j, j + 8)[0] == site[j]);
        assert(url.subrange(j, j + 8)[1] == site[j + 1]);
        assert(marker[0] == '/' && marker[1] == 'e');
        assert(site[j] == '/' ==> j == 6 || j == 7);
    }
    text::lemma_first_at_is(url, marker, 26);
    assert(url.skip(34) =~= path);
    text::lemma_replaced_one(r.name, '_', '/');
    if path.len() > 0 {
        assert(path.last() == path[path.len() - 1]);
        assert(r.name[r.name.len() - 1] != '/');
        assert(path.last() != '/');
    }
    assert(text::drop_end_while(path, text::only('/')) == path);
    text::lemma_replaced_one(path, '/', '_');
    assert(text::replaced(path, '/', "_"@) =~= r.name);
}

/// A book of the catalog is known under its repository's name.
pub proof fn law_catalog_book_is_named(r: RepoView)
    requires
        r.name.len() > 0,
    ensures
        book_of(r).name() == r.name,
        book_of(r).title.len() > 0,
{
}

/// The catalog is made of the repositories that hold an ebook, each in its place.
pub proof fn law_catalog_holds_the_ebooks(repos: Seq<RepoView>)
    ensures
        catalog_of(repos) == repos.filter(|r: RepoView| r.is_ebook()).map_values(
            |r: RepoView| book_of(r),
        ),
    decreases repos.len(),
{
    reveal(Seq::filter);
    let p = |r: RepoView| r.is_ebook();
    let f = |r: RepoView| book_of(r);
    if repos.len() > 0 {
        law_catalog_holds_the_ebooks(repos.drop_last());
        let before = repos.drop_last().filter(p);
        assert(before.push(repos.last()).map_values(f) =~= before.map_values(f).push(
            book_of(repos.last()),
        ));
        assert(catalog_of(repos) =~= repos.filter(p).map_values(f));
    } else {
        assert(catalog_of(repos) =~= repos.filter(p).map_values(f));
    }
}

/// A description that names a title and an author gives both, without white space around
/// them: the whole author, dots and spaces inside it and all. The dots that end the
/// sentence belong to neither.
pub proof fn law_description_reads_back(
    pre: Seq<char>,
    title: Seq<char>,
    author: Seq<char>,
    dots: nat,
)
    requires
        !text::has(pre, "edition of "@),
        !text::has(title, ", by "@),
        !text::has(author + Seq::new(dots, |i: int| '.'), ". Translated by"@),
        !text::has(author + Seq::new(dots, |i: int| '.'), ". Illustrated by"@),
        !text::has(author + Seq::new(dots, |i: int| '.'), ". Edited by"@),
        author.len() > 0 ==> author.last() != '.',
    ensures
        ({
            let r = described(
                pre + "edition of "@ + title + ", by "@ + author + Seq::new(dots, |i: int| '.'),
            );
            &&& r.0 == text::trimmed(title)
            &&& r.1 == text::trimmed(author)
            &&& author.len() > 0 && !text::is_space(author[0]) && !text::is_space(author.last())
                ==> r.1 == author
        }),
{
    let run = Seq::new(dots, |i: int| '.');
    let rest = author + run;
    lemma_description_parts(pre, title, rest);
    assert(pre + "edition of "@ + title + ", by "@ + rest =~= pre + "edition of "@ + title
        + ", by "@ + author + run);
    text::lemma_has(rest, ". Translated by"@);
    text::lemma_has(rest, ". Illustrated by"@);
    text::lemma_has(rest, ". Edited by"@);
    text::law_one_character_is_stripped(author, '.', dots);
    if author.len() > 0 && !text::is_space(author[0]) && !text::is_space(author.last()) {
        text::law_trimming_strips_the_ends(Seq::empty(), author, Seq::empty());
        assert(Seq::<char>::empty() + author + Seq::<char>::empty() =~= author);
    }
}

/// Where a description credits a translator, an illustrator or an editor, the author ends
/// where the credit begins, and keeps a dot of their own ahead of it.
pub proof fn law_credits_are_left_out(
    pre: Seq<char>,
    title: Seq<char>,
    author: Seq<char>,
    credit: Seq<char>,
    more: Seq<char>,
)
    requires
        !text::has(pre, "edition of "@),
        !text::has(title, ", by "@),
        credit == ". Translated by"@ || credit == ". Illustrated by"@ || credit == ". Edited by"@,
        !text::has(author, credit),
        credit != ". Translated by"@ ==> !text::has(author + credit + more, ". Translated by"@),
        credit == ". Edited by"@ ==> !text::has(author + credit + more, ". Illustrated by"@),
    ensures
        described(pre + "edition of "@ + title + ", by "@ + (author + credit + more)) == (
            text::trimmed(title),
            text::trimmed(author),
        ),
{
    let rest = author + credit + more;
    lemma_description_parts(pre, title, rest);
    text::lemma_has(rest, ". Translated by"@);
    text::lemma_has(rest, ". Illustrated by"@);
    reveal_strlit(". Translated by");
    reveal_strlit(". Illustrated by");
    reveal_strlit(". Edited by");
    assert(". Translated by"@.len() == 15 && ". Illustrated by"@.len() == 16
        && ". Edited by"@.len() == 11);
    text::law_found_behind(author, credit, more);
}

/// A description that names no author gives the title, without the dots that end the
/// sentence; one that speaks of no edition gives nothing.
pub proof fn law_description_without_author(pre: Seq<char>, title: Seq<char>, dots: nat)
    requires
        !text::has(pre, "edition of "@),
    ensures
        described(pre) == (Seq::<char>::empty(), Seq::<char>::empty()),
        (title.len() == 0 || title.last() != '.') && !text::has(
            title + Seq::new(dots, |i: int| '.'),
            ", by "@,
        ) ==> described(pre + "edition of "@ + title + Seq::new(dots, |i: int| '.')) == (
            text::trimmed(title),
            Seq::<char>::empty(),
        ),
{
    let after = title + Seq::new(dots, |i: int| '.');
    text::lemma_has(pre, "edition of "@);
    reveal_strlit("edition of ");
    text::law_found_behind(pre, "edition of "@, after);
    assert(pre + "edition of "@ + after =~= pre + "edition of "@ + title + Seq::new(
        dots,
        |i: int| '.',
    ));
    text::lemma_has(after, ", by "@);
    if title.len() == 0 || title.last() != '.' {
        text::law_one_character_is_stripped(title, '.', dots);
    }
}

proof fn lemma_description_parts(pre: Seq<char>, title: Seq<char>, rest: Seq<char>)
    requires
        !text::has(pre, "edition of "@),
        !text::has(title, ", by "@),
    ensures
        described(pre + "edition of "@ + title + ", by "@ + rest) == (
            text::trimmed(title),
            text::trimmed(author_part(rest)),
        ),
{
    let after = title + ", by "@ + rest;
    reveal_strlit("edition of ");
    reveal_strlit(", by ");
    text::law_found_behind(pre, "edition of "@, after);
    text::law_found_behind(title, ", by "@, rest);
    assert(pre + "edition of "@ + after =~= pre + "edition of "@ + title + ", by "@ + rest);
}

/// The title of a slug goes word by word: a hyphen becomes a space, and a word keeps
/// everything behind its first character, which is put in upper case.
pub proof fn law_slug_goes_by_words(a: Seq<char>, b: Seq<char>, c: char, rest: Seq<char>)
    requires
        c != '-',
        forall|i: int| 0 <= i < rest.len() ==> #[trigger] rest[i] != '-',
    ensures
        slug_title(a + seq!['-'] + b) == slug_title(a) + seq![' '] + slug_title(b),
        slug_title(Seq::empty()) == Seq::<char>::empty(),
        slug_title(seq![c] + rest) == uppercase(c) + rest,
    decreases b.len(),
{
    reveal_strlit(" ");
    assert(" "@ =~= seq![' ']);
    let pa = text::pieces(a, '-');
    let pb = text::pieces(b, '-');
    lemma_pieces_of_two(a, b);
    text::lemma_pieces_nonempty(a, '-');
    text::lemma_pieces_nonempty(b, '-');
    assert(all_capitalized(pa + pb) =~= all_capitalized(pa) + all_capitalized(pb));
    text::law_joining_in_two_parts(all_capitalized(pa), all_capitalized(pb), " "@);
    assert(slug_title(Seq::empty()) =~= Seq::<char>::empty()) by {
        let none = text::pieces(Seq::empty(), '-');
        assert(all_capitalized(none) =~= seq![Seq::empty()]);
    }
    let word = seq![c] + rest;
    lemma_one_piece(word);
    assert(all_capitalized(seq![word]) =~= seq![capitalized(word)]);
    assert(word.skip(1) =~= rest);
}

proof fn lemma_pieces_of_two(a: Seq<char>, b: Seq<char>)
    ensures
        text::pieces(a + seq!['-'] + b, '-') == text::pieces(a, '-') + text::pieces(b, '-'),
    decreases b.len(),
{
    let s = a + seq!['-'] + b;
    let pa = text::pieces(a, '-');
    text::lemma_pieces_nonempty(a, '-');
    if b.len() == 0 {
        assert(s.drop_last() =~= a);
        assert(text::pieces(s, '-') =~= pa + text::pieces(b, '-'));
    } else {
        let before = text::pieces(b.drop_last(), '-');
        lemma_pieces_of_two(a, b.drop_last());
        text::lemma_pieces_nonempty(b.drop_last(), '-');
        assert(s.drop_last() =~= a + seq!['-'] + b.drop_last());
        assert((pa + before).drop_last() =~= pa + before.drop_last());
        assert((pa + before).last() == before.last());
        assert(text::pieces(s, '-') =~= pa + text::pieces(b, '-'));
    }
}

proof fn lemma_one_piece(word: Seq<char>)
    requires
        forall|i: int| 0 <= i < word.len() ==> #[trigger] word[i] != '-',
    ensures
        text::pieces(word, '-') == seq![word],
    decreases word.len(),
{
    if word.len() == 0 {
        assert(word =~= Seq::empty());
    } else {
        let init = word.drop_last();
        assert forall|i: int| 0 <= i < init.len() implies #[trigger] init[i] != '-' by {
            assert(init[i] == word[i]);
        }
        lemma_one_piece(init);
        assert(word[word.len() - 1] != '-');
        assert(init.push(word.last()) =~= word);
        assert(text::pieces(word, '-') =~= seq![word]);
    }
}

/// A repository holds a book exactly if its description has the words that every ebook's
/// description has.
pub proof fn law_ebooks_are_told_by_their_description(
    name: Seq<char>,
    a: Seq<char>,
    b: Seq<char>,
    other: Seq<char>,
)
    ensures
        (RepoView { name, description: Some(a + "Standard Ebooks edition"@ + b) }).is_ebook(),
        !(RepoView { name, description: None }).is_ebook(),
        (RepoView { name, description: Some(other) }).about() == other,
        (RepoView { name, description: None }).about().len() == 0,
        (RepoView { name, description: Some(other) }).is_ebook() ==> exists|i: int|
            0 <= i <= other.len() && other == #[trigger] other.take(i) + "Standard Ebooks edition"@
                + other.skip(i + "Standard Ebooks edition"@.len()),
{
    let words = "Standard Ebooks edition"@;
    text::law_found_in_the_middle(a, words, b);
    text::law_search_finds_the_first(Seq::empty(), words);
    reveal_strlit("Standard Ebooks edition");
    if text::has(other, words) {
        text::law_search_finds_the_first(other, words);
        let k = text::first_at(other, words)->0;
        assert(other == other.take(k) + words + other.skip(k + words.len()));
    }
}

/// A book of the catalog has the title and the author that the description names. Where
/// it names none, they are made of the repository's name: the author of what stands ahead
/// of the first underscore, the title of what stands between it and the next. Its
/// addresses are made of the name, and all else is blank.
pub proof fn law_book_is_described_or_named(
    r: RepoView,
    author: Seq<char>,
    title: Seq<char>,
    more: Seq<char>,
)
    requires
        forall|i: int| 0 <= i < author.len() ==> #[trigger] author[i] != '_',
        forall|i: int| 0 <= i < title.len() ==> #[trigger] title[i] != '_',
        more.len() > 0 ==> more[0] == '_',
    ensures
        described(r.about()).0.len() > 0 ==> book_of(r).title == described(r.about()).0,
        described(r.about()).1.len() > 0 ==> book_of(r).author == described(r.about()).1,
        described(r.about()).1.len() == 0 && r.name == author + seq!['_'] + title + more
            ==> book_of(r).author == slug_title(author),
        described(r.about()).0.len() == 0 && r.name == author + seq!['_'] + title + more
            && slug_title(title).len() > 0 ==> book_of(r).title == slug_title(title),
        described(r.about()).0.len() == 0 && r.name == author + seq!['_'] + title + more
            && slug_title(title).len() == 0 ==> book_of(r).title == r.name,
        described(r.about()).1.len() == 0 && r.name == author ==> book_of(r).author == slug_title(
            author,
        ),
        described(r.about()).0.len() == 0 && r.name == author ==> book_of(r).title == author,
        book_of(r) == (BookView {
            title: book_of(r).title,
            author: book_of(r).author,
            url: "https://standardebooks.org/ebooks/"@ + text::replaced(r.name, '_', "/"@),
            repo: "https://github.com/standardebooks/"@ + r.name,
            repo_name: r.name,
            cover: Seq::empty(),
            epub: Seq::empty(),
            description: Seq::empty(),
            long_description: Seq::empty(),
            language: Seq::empty(),
            se_published: Seq::empty(),
            word_count: 0,
            reading_ease: 0,
            reading_time: Seq::empty(),
            wikipedia: Seq::empty(),
            categories: Seq::empty(),
            collections: Seq::empty(),
            series: Seq::empty(),
            series_position: 0,
            subjects: Seq::empty(),
            sources: Seq::empty(),
        }),
{
    reveal_strlit("_");
    assert("_"@ =~= seq!['_']);
    text::law_one_character_is_found(author, '_');
    text::law_one_character_is_found(title, '_');
    let tail = title + more;
    text::law_found_behind(author, "_"@, tail);
    assert(author + seq!['_'] + title + more =~= author + "_"@ + tail);
    text::lemma_has(author, "_"@);
    text::lemma_has(title, "_"@);
    if more.len() > 0 {
        let last = more.skip(1);
        assert(tail =~= title + "_"@ + last);
        text::law_found_behind(title, "_"@, last);
    } else {
        assert(tail =~= title);
    }
    assert(first_segment(tail) == title);
}

/// A book of the catalog without a repository name is taken as it is, and counts as new;
/// every other counts as new exactly if no known book has its name.
pub proof fn law_new_books_are_the_unknown(existing: Seq<BookView>, fresh: Seq<BookView>)
    ensures
        count_new(existing, fresh) == fresh.filter(
            |b: BookView| b.repo_name.len() == 0 || !knows(existing, b.repo_name),
        ).len(),
        forall|i: int|
            0 <= i < fresh.len() && (#[trigger] fresh[i]).repo_name.len() == 0 ==> merged(
                existing,
                fresh,
            )[i] == fresh[i],
    decreases fresh.len(),
{
    reveal(Seq::filter);
    if fresh.len() > 0 {
        law_new_books_are_the_unknown(existing, fresh.drop_last());
        lemma_last_named(existing, fresh.last().repo_name);
    }
}

/// Of several known books with one name, a sync keeps the last.
pub proof fn law_sync_keeps_the_last(
    before: Seq<BookView>,
    known: BookView,
    after: Seq<BookView>,
    fresh: Seq<BookView>,
    i: int,
)
    requires
        0 <= i < fresh.len(),
        fresh[i].repo_name.len() > 0,
        known.name() == fresh[i].repo_name,
        forall|k: int|
            0 <= k < after.len() ==> (#[trigger] after[k]).name() != fresh[i].repo_name,
    ensures
        merged(before + seq![known] + after, fresh)[i] == known,
    decreases after.len(),
{
    let all = before + seq![known] + after;
    if after.len() == 0 {
        assert(all.last() == known);
    } else {
        let init = after.drop_last();
        assert forall|k: int| 0 <= k < init.len() implies (#[trigger] init[k]).name()
            != fresh[i].repo_name by {
            assert(init[k] == after[k]);
        }
        law_sync_keeps_the_last(before, known, init, fresh, i);
        assert(all.drop_last() =~= before + seq![known] + init);
        assert(all.last() == after[after.len() - 1]);
    }
}

} // verus!
