//! The book model, and the names and places of a book's files.

use crate::text;
use vstd::prelude::*;

verus! {

/// One book of the catalog.
#[derive(Debug, PartialEq)]
pub struct Book {
    pub title: String,
    pub author: String,
    pub url: String,
    pub repo: String,
    pub repo_name: String,
    pub cover: String,
    pub epub: String,
    pub description: String,
    pub long_description: String,
    pub language: String,
    pub se_published: String,
    pub word_count: i64,
    /// The Flesch reading ease, as the bits of a double-precision number.
    pub reading_ease: u64,
    pub reading_time: String,
    pub wikipedia: String,
    pub categories: Vec<String>,
    pub collections: Vec<String>,
    pub series: String,
    pub series_position: i64,
    pub subjects: Vec<String>,
    pub sources: Vec<String>,
}

/// What a [`Book`] holds.
#[verifier::ext_equal]
pub struct BookView {
    pub title: Seq<char>,
    pub author: Seq<char>,
    pub url: Seq<char>,
    pub repo: Seq<char>,
    pub repo_name: Seq<char>,
    pub cover: Seq<char>,
    pub epub: Seq<char>,
    pub description: Seq<char>,
    pub long_description: Seq<char>,
    pub language: Seq<char>,
    pub se_published: Seq<char>,
    pub word_count: i64,
    pub reading_ease: u64,
    pub reading_time: Seq<char>,
    pub wikipedia: Seq<char>,
    pub categories: Seq<Seq<char>>,
    pub collections: Seq<Seq<char>>,
    pub series: Seq<char>,
    pub series_position: i64,
    pub subjects: Seq<Seq<char>>,
    pub sources: Seq<Seq<char>>,
}

impl View for Book {
    type V = BookView;

    open spec fn view(&self) -> BookView {
        BookView {
            title: self.title@,
            author: self.author@,
            url: self.url@,
            repo: self.repo@,
            repo_name: self.repo_name@,
            cover: self.cover@,
            epub: self.epub@,
            description: self.description@,
            long_description: self.long_description@,
            language: self.language@,
            se_published: self.se_published@,
            word_count: self.word_count,
            reading_ease: self.reading_ease,
            reading_time: self.reading_time@,
            wikipedia: self.wikipedia@,
            categories: text::views(self.categories@),
            collections: text::views(self.collections@),
            series: self.series@,
            series_position: self.series_position,
            subjects: text::views(self.subjects@),
            sources: text::views(self.sources@),
        }
    }
}

/// The book of which nothing is known.
pub open spec fn blank_book() -> BookView {
    BookView {
        title: Seq::empty(),
        author: Seq::empty(),
        url: Seq::empty(),
        repo: Seq::empty(),
        repo_name: Seq::empty(),
        cover: Seq::empty(),
        epub: Seq::empty(),
        description: Seq::empty(),
        long_description: Seq::empty(),
        language: Seq::empty(),
        se_published: Seq::empty(),
        word_count: 0,
        reading_ease: 0,
        reading_time: Seq::empty(),
        wikipedia: Seq::empty(),
        categories: Seq::empty(),
        collections: Seq::empty(),
        series: Seq::empty(),
        series_position: 0,
        subjects: Seq::empty(),
        sources: Seq::empty(),
    }
}

impl Default for Book {
    fn default() -> (b: Self)
        ensures
            b@ == blank_book(),
    {
        Book {
            title: String::new(),
            author: String::new(),
            url: String::new(),
            repo: String::new(),
            repo_name: String::new(),
            cover: String::new(),
            epub: String::new(),
            description: String::new(),
            long_description: String::new(),
            language: String::new(),
            se_published: String::new(),
            word_count: 0,
            reading_ease: 0,
            reading_time: String::new(),
            wikipedia: String::new(),
            categories: Vec::new(),
            collections: Vec::new(),
            series: String::new(),
            series_position: 0,
            subjects: Vec::new(),
            sources: Vec::new(),
        }
    }
}

impl Clone for Book {
    fn clone(&self) -> (b: Self)
        ensures
            b@ == self@,
    {
        Book {
            title: self.title.clone(),
            author: self.author.clone(),
            url: self.url.clone(),
            repo: self.repo.clone(),
            repo_name: self.repo_name.clone(),
            cover: self.cover.clone(),
            epub: self.epub.clone(),
            description: self.description.clone(),
            long_description: self.long_description.clone(),
            language: self.language.clone(),
            se_published: self.se_published.clone(),
            word_count: self.word_count,
            reading_ease: self.reading_ease,
            reading_time: self.reading_time.clone(),
            wikipedia: self.wikipedia.clone(),
            categories: text::copy_all(&self.categories),
            collections: text::copy_all(&self.collections),
            series: self.series.clone(),
            series_position: self.series_position,
            subjects: text::copy_all(&self.subjects),
            sources: text::copy_all(&self.sources),
        }
    }
}

/// What a list of books holds.
pub open spec fn views(v: Seq<Book>) -> Seq<BookView> {
    Seq::new(v.len(), |i: int| v[i]@)
}

/// A copy of a list of books.
pub fn copy_books(v: &Vec<Book>) -> (r: Vec<Book>)
    ensures
        views(r@) == views(v@),
{
    let mut r: Vec<Book> = Vec::new();
    let mut i: usize = 0;
    while i < v.len()
        invariant
            i <= v@.len(),
            r@.len() == i,
            forall|j: int| 0 <= j < i ==> (#[trigger] r@[j])@ == v@[j]@,
        decreases v@.len() - i,
    {
        r.push(v[i].clone());
        i += 1;
    }
    assert(views(r@) =~= views(v@));
    r
}

/// The titles of a list of books.
pub fn titles_of(list: &Vec<Book>) -> (r: Vec<String>)
    ensures
        text::views(r@) == views(list@).map_values(|b: BookView| b.title),
{
    let mut r: Vec<String> = Vec::new();
    let mut i: usize = 0;
    while i < list.len()
        invariant
            i <= list@.len(),
            r@.len() == i,
            forall|j: int| 0 <= j < i ==> (#[trigger] r@[j])@ == list@[j].title@,
        decreases list@.len() - i,
    {
        r.push(list[i].title.clone());
        i += 1;
    }
    assert(text::views(r@) =~= views(list@).map_values(|b: BookView| b.title));
    r
}

/// Whether a number is left out of the stored form of a book.
pub fn is_zero(v: &i64) -> (r: bool)
    ensures
        r == (*v == 0),
{
    *v == 0
}

/// Whether a double, given by its bits, is zero: of either sign.
pub fn is_zero_f64(bits: &u64) -> (r: bool)
    ensures
        r == (*bits == 0 || *bits == 0x8000_0000_0000_0000),
{
    *bits == 0 || *bits == 0x8000_0000_0000_0000
}

impl BookView {
    /// The name of the book's repository: the stored name or, where there is none,
    /// the path behind `/ebooks/` in the address, with `_` for `/`.
    pub open spec fn name(self) -> Seq<char> {
        if self.repo_name.len() > 0 {
            self.repo_name
        } else {
            match text::first_at(self.url, "/ebooks/"@) {
                Some(i) => text::replaced(
                    text::drop_end_while(self.url.skip(i + "/ebooks/"@.len()), text::only('/')),
                    '/',
                    "_"@,
                ),
                None => Seq::empty(),
            }
        }
    }
}

/// Derives the name of the book's repository from its stored name or its address.
pub fn repo_name(b: &Book) -> (r: String)
    ensures
        r@ == b@.name(),
{
    if !b.repo_name.as_str().is_empty() {
        return b.repo_name.clone();
    }
    let marker = "/ebooks/";
    match text::find(b.url.as_str(), marker) {
        Some(i) => {
            let rest = text::tail(b.url.as_str(), i + marker.unicode_len());
            let path = text::trim_end_char(rest.as_str(), '/');
            text::replace_char(path.as_str(), '/', "_")
        },
        None => String::new(),
    }
}

/// What stands for a character in the name of a file or folder.
pub open spec fn safe_text(c: char) -> Seq<char> {
    if c == '/' || c == '\\' || c == '|' {
        seq!['-']
    } else if c == ':' {
        seq![' ', '-']
    } else if c == '*' || c == '?' || c == '<' || c == '>' {
        Seq::empty()
    } else if c == '"' {
        seq!['\'']
    } else {
        seq![c]
    }
}

/// `s` with each character replaced by what stands for it in a file name.
pub open spec fn substituted(s: Seq<char>) -> Seq<char>
    decreases s.len(),
{
    if s.len() == 0 {
        s
    } else {
        substituted(s.drop_last()) + safe_text(s.last())
    }
}

/// `r` with `c` behind it, unless that would put one space behind another.
pub open spec fn squeeze_push(r: Seq<char>, c: char) -> Seq<char> {
    if c == ' ' && r.len() > 0 && r.last() == ' ' {
        r
    } else {
        r.push(c)
    }
}

/// `s` with one space for every run of spaces.
pub open spec fn squeezed(s: Seq<char>) -> Seq<char>
    decreases s.len(),
{
    if s.len() == 0 {
        s
    } else {
        squeeze_push(squeezed(s.drop_last()), s.last())
    }
}

/// The characters that a file name does not end with.
pub open spec fn dot_or_space() -> spec_fn(char) -> bool {
    |c: char| c == '.' || c == ' '
}

/// `s` as the name of a file or folder.
pub open spec fn sanitized(s: Seq<char>) -> Seq<char> {
    text::drop_end_while(squeezed(substituted(text::trimmed(s))), dot_or_space())
}

/// Appends `c` unless that would put one space behind another.
fn push_squeezed(out: &mut Vec<char>, c: char)
    ensures
        final(out)@ == squeeze_push(old(out)@, c),
{
    let n = out.len();
    if c == ' ' && n > 0 && out[n - 1] == ' ' {
        return;
    }
    out.push(c);
}

/// Squeezing goes from left to right, one character at a time.
proof fn lemma_squeezed_push(s: Seq<char>, c: char)
    ensures
        squeezed(s.push(c)) == squeeze_push(squeezed(s), c),
{
    assert(s.push(c).drop_last() =~= s);
}

/// Removes the characters that are unsafe in the names of files and folders.
pub fn sanitize_path(s: &str) -> (r: String)
    ensures
        r@ == sanitized(s@),
{
    let trimmed = text::trim(s);
    let v = text::chars_of(trimmed.as_str());
    let mut out: Vec<char> = Vec::new();
    let mut i: usize = 0;
    while i < v.len()
        invariant
            i <= v@.len(),
            out@ == squeezed(substituted(v@.take(i as int))),
        decreases v@.len() - i,
    {
        let c = v[i];
        let ghost done = substituted(v@.take(i as int));
        assert(v@.take(i + 1).drop_last() =~= v@.take(i as int));
        assert(substituted(v@.take(i + 1)) == done + safe_text(c));
        if c == '/' || c == '\\' || c == '|' {
            push_squeezed(&mut out, '-');
            proof {
                lemma_squeezed_push(done, '-');
                assert(done + safe_text(c) =~= done.push('-'));
            }
        } else if c == ':' {
            push_squeezed(&mut out, ' ');
            push_squeezed(&mut out, '-');
            proof {
                lemma_squeezed_push(done, ' ');
                lemma_squeezed_push(done.push(' '), '-');
                assert(done + safe_text(c) =~= done.push(' ').push('-'));
            }
        } else if c == '*' || c == '?' || c == '<' || c == '>' {
            assert(done + safe_text(c) =~= done);
        } else if c == '"' {
            push_squeezed(&mut out, '\'');
            proof {
                lemma_squeezed_push(done, '\'');
                assert(done + safe_text(c) =~= done.push('\''));
            }
        } else {
            push_squeezed(&mut out, c);
            proof {
                lemma_squeezed_push(done, c);
                assert(done + safe_text(c) =~= done.push(c));
            }
        }
        i += 1;
    }
    assert(v@.take(i as int) =~= v@);
    let mut end = out.len();
    assert(out@.take(end as int) =~= out@);
    while 0 < end && (out[end - 1] == '.' || out[end - 1] == ' ')
        invariant
            end <= out@.len(),
            text::drop_end_while(out@, dot_or_space()) == text::drop_end_while(
                out@.take(end as int),
                dot_or_space(),
            ),
        decreases end,
    {
        proof {
            text::lemma_drop_end_step(out@, dot_or_space(), end as int);
        }
        end -= 1;
    }
    proof {
        if 0 < end {
            text::lemma_drop_end_step(out@, dot_or_space(), end as int);
        }
        assert(out@.take(end as int) =~= out@.subrange(0, end as int));
    }
    text::string_of(&out, 0, end)
}

/// The folders and the file name of a book's epub, from the outermost folder in;
/// none for a book without a repository name.
pub open spec fn epub_parts(b: BookView) -> Option<Seq<Seq<char>>> {
    let category = if b.categories.len() == 0 {
        "Uncategorized"@
    } else {
        sanitized(b.categories[0])
    };
    let author = if b.author.len() == 0 {
        "Unknown"@
    } else {
        sanitized(b.author)
    };
    let title = if b.title.len() == 0 {
        b.name()
    } else {
        sanitized(b.title)
    };
    let file = title + "_"@ + author + " (Standard Ebooks)"@ + ".epub"@;
    if b.name().len() == 0 {
        None
    } else if b.series.len() == 0 {
        Some(seq![category, author, file])
    } else {
        Some(seq![category, author, sanitized(b.series), file])
    }
}

/// Where a book's epub is kept below the epub folder:
/// category, author, series if there is one, and the file.
pub fn epub_path(b: &Book) -> (r: Option<Vec<String>>)
    ensures
        match r {
            Some(parts) => epub_parts(b@) == Some(text::views(parts@)),
            None => epub_parts(b@) is None,
        },
{
    let rn = repo_name(b);
    if rn.as_str().is_empty() {
        return None;
    }
    let category = if b.categories.len() == 0 {
        "Uncategorized".to_string()
    } else {
        sanitize_path(b.categories[0].as_str())
    };
    let author = if b.author.as_str().is_empty() {
        "Unknown".to_string()
    } else {
        sanitize_path(b.author.as_str())
    };
    let mut file = if b.title.as_str().is_empty() {
        rn
    } else {
        sanitize_path(b.title.as_str())
    };
    file.append("_");
    file.append(author.as_str());
    file.append(" (Standard Ebooks)");
    file.append(".epub");
    let mut parts: Vec<String> = Vec::new();
    parts.push(category);
    parts.push(author);
    if !b.series.as_str().is_empty() {
        parts.push(sanitize_path(b.series.as_str()));
    }
    parts.push(file);
    proof {
        if b@.series.len() == 0 {
            assert(text::views(parts@) =~= epub_parts(b@)->0);
        } else {
            assert(text::views(parts@) =~= epub_parts(b@)->0);
        }
    }
    Some(parts)
}

/// The characters that no file name may hold.
pub open spec fn is_unsafe(c: char) -> bool {
    c == '/' || c == '\\' || c == ':' || c == '*' || c == '?' || c == '"' || c == '<' || c == '>'
        || c == '|'
}

/// A text without characters that no file name may hold.
pub open spec fn all_safe(s: Seq<char>) -> bool {
    forall|i: int| 0 <= i < s.len() ==> !is_unsafe(#[trigger] s[i])
}

/// A text in which no two spaces stand side by side.
pub open spec fn single_spaced(s: Seq<char>) -> bool {
    forall|i: int, j: int|
        0 <= i && j == i + 1 && j < s.len() ==> !(#[trigger] s[i] == ' ' && #[trigger] s[j] == ' ')
}

/// The name of a file or folder that stays within the folder it is put in.
pub open spec fn is_plain_name(s: Seq<char>) -> bool {
    &&& all_safe(s)
    &&& s != "."@
    &&& s != ".."@
}

proof fn lemma_substituted_safe(s: Seq<char>)
    ensures
        all_safe(substituted(s)),
        all_safe(s) ==> substituted(s) == s,
    decreases s.len(),
{
    if s.len() > 0 {
        lemma_substituted_safe(s.drop_last());
        let before = substituted(s.drop_last());
        let r = substituted(s);
        assert forall|i: int| 0 <= i < r.len() implies !is_unsafe(#[trigger] r[i]) by {
            if i < before.len() {
                assert(r[i] == before[i]);
            } else {
                assert(r[i] == safe_text(s.last())[i - before.len()]);
            }
        }
        if all_safe(s) {
            assert(all_safe(s.drop_last()));
            assert(!is_unsafe(s[s.len() - 1]));
            assert(r =~= s);
        }
    }
}

proof fn lemma_squeezed(s: Seq<char>)
    ensures
        single_spaced(squeezed(s)),
        all_safe(s) ==> all_safe(squeezed(s)),
        single_spaced(s) ==> squeezed(s) == s,
        s.len() > 0 ==> squeezed(s).len() > 0 && squeezed(s).last() == s.last(),
    decreases s.len(),
{
    if s.len() > 0 {
        lemma_squeezed(s.drop_last());
        let before = squeezed(s.drop_last());
        let r = squeezed(s);
        if all_safe(s) {
            assert(all_safe(s.drop_last()));
            assert(!is_unsafe(s[s.len() - 1]));
        }
        if single_spaced(s) {
            assert(single_spaced(s.drop_last()));
            assert(before == s.drop_last());
            if s.len() > 1 {
                assert(!(s[s.len() - 2] == ' ' && s[s.len() - 1] == ' '));
            }
            assert(r =~= s);
        }
    }
}

/// A sanitized name holds none of the characters `/ \\ : * ? " < > |`, no two
/// spaces side by side, and ends neither with a dot nor with a space.
pub proof fn law_sanitized_is_safe(s: Seq<char>)
    ensures
        all_safe(sanitized(s)),
        single_spaced(sanitized(s)),
        sanitized(s).len() > 0 ==> sanitized(s).last() != '.' && sanitized(s).last() != ' ',
        is_plain_name(sanitized(s)),
{
    let t = substituted(text::trimmed(s));
    lemma_substituted_safe(text::trimmed(s));
    lemma_squeezed(t);
    text::lemma_drop_end_while(squeezed(t), dot_or_space());
    let r = sanitized(s);
    assert(r.len() > 0 ==> !dot_or_space()(r.last()));
    reveal_strlit(".");
    reveal_strlit("..");
}

/// Sanitizing a sanitized name changes nothing, provided that white space stands
/// neither at its start nor at its end.
pub proof fn law_sanitized_again(s: Seq<char>)
    requires
        text::trimmed(sanitized(s)) == sanitized(s),
    ensures
        sanitized(sanitized(s)) == sanitized(s),
{
    let r = sanitized(s);
    law_sanitized_is_safe(s);
    lemma_substituted_safe(r);
    lemma_squeezed(r);
}

/// Every folder on the way to an epub, and the epub itself where the book has a
/// title or its repository name is safe, has a name that stays within the epub
/// folder; the file name ends with `.epub`.
pub proof fn law_epub_path_is_safe(b: BookView)
    requires
        epub_parts(b) is Some,
    ensures
        ({
            let parts = epub_parts(b)->0;
            &&& parts.len() == if b.series.len() == 0 {
                3int
            } else {
                4int
            }
            &&& forall|i: int| 0 <= i < parts.len() - 1 ==> is_plain_name(#[trigger] parts[i])
            &&& b.title.len() > 0 || all_safe(b.name()) ==> is_plain_name(parts.last())
            &&& text::occurs_at(parts.last(), ".epub"@, parts.last().len() - ".epub"@.len())
        }),
{
    let parts = epub_parts(b)->0;
    reveal_strlit("Uncategorized");
    reveal_strlit("Unknown");
    reveal_strlit("_");
    reveal_strlit(" (Standard Ebooks)");
    reveal_strlit(".epub");
    reveal_strlit(".");
    reveal_strlit("..");
    law_sanitized_is_safe(b.author);
    law_sanitized_is_safe(b.title);
    law_sanitized_is_safe(b.series);
    if b.categories.len() > 0 {
        law_sanitized_is_safe(b.categories[0]);
    }
    let file = parts.last();
    let author = parts[1];
    let title = if b.title.len() == 0 {
        b.name()
    } else {
        sanitized(b.title)
    };
    assert(file == title + "_"@ + author + " (Standard Ebooks)"@ + ".epub"@);
    let n = file.len() - ".epub"@.len();
    assert(file.subrange(n, n + ".epub"@.len()) =~= ".epub"@);
    assert(".epub"@.len() == 5 && "."@.len() == 1 && ".."@.len() == 2);
    assert(is_plain_name("Uncategorized"@));
    assert(is_plain_name("Unknown"@));
    assert(is_plain_name(parts[0]) && is_plain_name(author));
    if b.title.len() > 0 || all_safe(b.name()) {
        assert(all_safe(title) && all_safe("_"@) && all_safe(author));
        assert(all_safe(" (Standard Ebooks)"@) && all_safe(".epub"@));
        assert(all_safe(title + "_"@ + author));
        assert(all_safe(title + "_"@ + author + " (Standard Ebooks)"@));
        assert(all_safe(file));
    }
    assert forall|i: int| 0 <= i < parts.len() - 1 implies is_plain_name(#[trigger] parts[i]) by {
        assert(i == 0 || i == 1 || (i == 2 && parts[2] == sanitized(b.series)));
    }
}

/// A stored name is the book's name. Without one it is the path behind `/ebooks/` in the
/// address, without slashes at its end and with `_` for the others; an address without
/// `/ebooks/` gives none.
pub proof fn law_name_is_stored_or_in_the_address(
    b: BookView,
    site: Seq<char>,
    path: Seq<char>,
    slashes: nat,
)
    requires
        !text::has(site + "/ebooks"@, "/ebooks/"@),
        path.len() > 0 ==> path.last() != '/',
    ensures
        b.repo_name.len() > 0 ==> b.name() == b.repo_name,
        b.repo_name.len() == 0 && !text::has(b.url, "/ebooks/"@) ==> b.name().len() == 0,
        b.repo_name.len() == 0 && b.url == site + "/ebooks/"@ + path + Seq::new(
            slashes,
            |i: int| '/',
        ) ==> {
            &&& b.name().len() == path.len()
            &&& forall|i: int|
                0 <= i < path.len() ==> #[trigger] b.name()[i] == if path[i] == '/' {
                    '_'
                } else {
                    path[i]
                }
        },
{
    let marker = "/ebooks/"@;
    let tail = path + Seq::new(slashes, |i: int| '/');
    reveal_strlit("/ebooks/");
    reveal_strlit("/ebooks");
    reveal_strlit("_");
    assert("_"@ =~= seq!['_']);
    assert(marker.drop_last() =~= "/ebooks"@);
    text::lemma_has(b.url, marker);
    text::law_found_first(site, marker, tail);
    assert(site + marker + path + Seq::new(slashes, |i: int| '/') =~= site + marker + tail);
    text::law_one_character_is_stripped(path, '/', slashes);
    text::lemma_replaced_one(path, '/', '_');
}

proof fn lemma_substituted_parts(a: Seq<char>, b: Seq<char>)
    ensures
        substituted(a + b) == substituted(a) + substituted(b),
    decreases b.len(),
{
    if b.len() == 0 {
        assert(a + b =~= a);
        assert(substituted(a) + substituted(b) =~= substituted(a));
    } else {
        lemma_substituted_parts(a, b.drop_last());
        assert((a + b).drop_last() =~= a + b.drop_last());
        assert((a + b).last() == b.last());
        assert(substituted(a + b) =~= substituted(a) + substituted(b));
    }
}

proof fn lemma_substituted_one(c: char)
    ensures
        substituted(seq![c]) == safe_text(c),
{
    assert(seq![c].drop_last() =~= Seq::empty());
    assert(substituted(Seq::empty()) =~= Seq::empty());
    assert(substituted(seq![c]) =~= safe_text(c));
}

/// A name that is safe already, without white space at its ends, without two spaces side
/// by side and without a dot at its end, is kept as it is.
pub proof fn law_safe_names_are_kept(s: Seq<char>)
    requires
        forall|i: int|
            0 <= i < s.len() ==> (#[trigger] s[i]) != '/' && s[i] != '\\' && s[i] != ':' && s[i]
                != '*' && s[i] != '?' && s[i] != '"' && s[i] != '<' && s[i] != '>' && s[i] != '|',
        forall|i: int| 0 < i < s.len() ==> (#[trigger] s[i]) != ' ' || s[i - 1] != ' ',
        s.len() > 0 ==> !text::is_space(s[0]) && !text::is_space(s.last()) && s.last() != '.',
    ensures
        sanitized(s) == s,
{
    let e = Seq::<char>::empty();
    text::law_trimming_strips_the_ends(e, s, e);
    assert(e + s + e =~= s);
    lemma_substituted_safe(s);
    assert(all_safe(s));
    assert(single_spaced(s));
    lemma_squeezed(s);
    if s.len() > 0 {
        assert(text::is_space(' '));
    }
}

/// What stands for an unsafe character inside a name: a hyphen for a slash, a backslash or
/// a bar; a hyphen behind a space for a colon; an apostrophe for a quotation mark; nothing
/// for an asterisk, a question mark or an angle bracket.
pub proof fn law_unsafe_characters_are_replaced(a: Seq<char>, b: Seq<char>)
    requires
        a.len() > 0,
        !text::is_space(a[0]),
        !text::is_space((a + b).last()),
    ensures
        sanitized(a + seq!['/'] + b) == sanitized(a + seq!['-'] + b),
        sanitized(a + seq!['\\'] + b) == sanitized(a + seq!['-'] + b),
        sanitized(a + seq!['|'] + b) == sanitized(a + seq!['-'] + b),
        sanitized(a + seq![':'] + b) == sanitized(a + seq![' ', '-'] + b),
        sanitized(a + seq!['"'] + b) == sanitized(a + seq!['\''] + b),
        sanitized(a + seq!['*'] + b) == sanitized(a + b),
        sanitized(a + seq!['?'] + b) == sanitized(a + b),
        sanitized(a + seq!['<'] + b) == sanitized(a + b),
        sanitized(a + seq!['>'] + b) == sanitized(a + b),
{
    lemma_substituted_alike(a, '/', seq!['-'], b);
    lemma_substituted_alike(a, '\\', seq!['-'], b);
    lemma_substituted_alike(a, '|', seq!['-'], b);
    lemma_substituted_alike(a, ':', seq![' ', '-'], b);
    lemma_substituted_alike(a, '"', seq!['\''], b);
    lemma_substituted_alike(a, '*', Seq::empty(), b);
    lemma_substituted_alike(a, '?', Seq::empty(), b);
    lemma_substituted_alike(a, '<', Seq::empty(), b);
    lemma_substituted_alike(a, '>', Seq::empty(), b);
    assert(a + Seq::<char>::empty() + b =~= a + b);
}

proof fn lemma_substituted_alike(a: Seq<char>, c: char, t: Seq<char>, b: Seq<char>)
    requires
        a.len() > 0,
        !text::is_space(a[0]),
        !text::is_space((a + b).last()),
        !text::is_space(c),
        t == safe_text(c),
        t.len() > 0 ==> !text::is_space(t.last()),
    ensures
        sanitized(a + seq![c] + b) == sanitized(a + t + b),
{
    let e = Seq::<char>::empty();
    let x = a + seq![c] + b;
    let y = a + t + b;
    text::law_trimming_strips_the_ends(e, x, e);
    assert(e + x + e =~= x);
    assert(!text::is_space(y.last())) by {
        if b.len() > 0 {
            assert(y.last() == b.last());
        } else if t.len() > 0 {
            assert(y.last() == t.last());
        } else {
            assert(y =~= a + b);
        }
    }
    text::law_trimming_strips_the_ends(e, y, e);
    assert(e + y + e =~= y);
    lemma_substituted_parts(a + seq![c], b);
    lemma_substituted_parts(a, seq![c]);
    lemma_substituted_one(c);
    lemma_substituted_parts(a + t, b);
    lemma_substituted_parts(a, t);
    lemma_substituted_safe(t);
    assert(all_safe(t));
}

/// White space around a name does not count, two spaces inside it count as one, and dots
/// and spaces at its end are left out.
pub proof fn law_spaces_and_dots_are_left_out(a: Seq<char>, b: Seq<char>, w: Seq<char>)
    requires
        a.len() > 0,
        b.len() > 0,
        !text::is_space(a[0]),
        !text::is_space(a.last()),
        !text::is_space(b.last()),
        forall|i: int| 0 <= i < w.len() ==> text::is_space(#[trigger] w[i]),
    ensures
        sanitized(w + a) == sanitized(a),
        sanitized(a + w) == sanitized(a),
        sanitized(a + seq![' ', ' '] + b) == sanitized(a + seq![' '] + b),
        sanitized(a + seq!['.']) == sanitized(a),
        sanitized(a + seq![' ', '.']) == sanitized(a),
{
    let e = Seq::<char>::empty();
    text::law_trimming_strips_the_ends(w, a, e);
    text::law_trimming_strips_the_ends(e, a, w);
    text::law_trimming_strips_the_ends(e, a, e);
    assert(w + a + e =~= w + a);
    assert(e + a + w =~= a + w);
    assert(e + a + e =~= a);
    let x = a + seq![' ', ' '] + b;
    let y = a + seq![' '] + b;
    text::law_trimming_strips_the_ends(e, x, e);
    text::law_trimming_strips_the_ends(e, y, e);
    assert(e + x + e =~= x);
    assert(e + y + e =~= y);
    lemma_substituted_parts(a + seq![' ', ' '], b);
    lemma_substituted_parts(a, seq![' ', ' ']);
    lemma_substituted_parts(a + seq![' '], b);
    lemma_substituted_parts(a, seq![' ']);
    lemma_substituted_one(' ');
    lemma_substituted_parts(seq![' '], seq![' ']);
    assert(seq![' '] + seq![' '] =~= seq![' ', ' ']);
    lemma_squeezed_twice(substituted(a), substituted(b));
    let z = a + seq!['.'];
    text::law_trimming_strips_the_ends(e, z, e);
    assert(e + z + e =~= z);
    lemma_substituted_parts(a, seq!['.']);
    lemma_substituted_one('.');
    let t = substituted(a);
    assert(t + seq!['.'] =~= t.push('.'));
    lemma_squeezed_push(t, '.');
    assert(squeezed(t).push('.').drop_last() =~= squeezed(t));
    let u = a + seq![' ', '.'];
    text::law_trimming_strips_the_ends(e, u, e);
    assert(e + u + e =~= u);
    lemma_substituted_parts(a, seq![' ', '.']);
    lemma_substituted_parts(seq![' '], seq!['.']);
    assert(seq![' '] + seq!['.'] =~= seq![' ', '.']);
    assert(t + seq![' ', '.'] =~= t.push(' ').push('.'));
    lemma_squeezed_push(t.push(' '), '.');
    lemma_squeezed_push(t, ' ');
    let q = squeezed(t.push(' '));
    assert(q.push('.').drop_last() =~= q);
    assert(squeezed(t).push(' ').drop_last() =~= squeezed(t));
    assert(q.last() == ' ');
    assert(text::drop_end_while(q.push('.'), dot_or_space()) == text::drop_end_while(
        q,
        dot_or_space(),
    ));
    if squeezed(t).len() > 0 && squeezed(t).last() == ' ' {
        assert(q == squeezed(t));
    } else {
        assert(q == squeezed(t).push(' '));
    }
}

proof fn lemma_squeezed_twice(x: Seq<char>, y: Seq<char>)
    ensures
        squeezed(x + seq![' ', ' '] + y) == squeezed(x + seq![' '] + y),
    decreases y.len(),
{
    let two = x + seq![' ', ' '] + y;
    let one = x + seq![' '] + y;
    if y.len() == 0 {
        assert(two =~= one.push(' '));
        assert(one =~= x.push(' '));
        lemma_squeezed_push(one, ' ');
        lemma_squeezed_push(x, ' ');
    } else {
        lemma_squeezed_twice(x, y.drop_last());
        assert(two.drop_last() =~= x + seq![' ', ' '] + y.drop_last());
        assert(one.drop_last() =~= x + seq![' '] + y.drop_last());
        assert(two.last() == y.last() && one.last() == y.last());
    }
}

/// The way to a book's epub: the folder of its first category, that of its author, that of
/// its series if it has one, and the file, which bears the title and the author. A book
/// without a name has none.
pub proof fn law_epub_path_is_by_category_and_author(b: BookView)
    ensures
        epub_parts(b) is None <==> b.name().len() == 0,
        epub_parts(b) matches Some(parts) ==> {
            &&& parts[0] == if b.categories.len() > 0 {
                sanitized(b.categories[0])
            } else {
                "Uncategorized"@
            }
            &&& parts[1] == if b.author.len() > 0 {
                sanitized(b.author)
            } else {
                "Unknown"@
            }
            &&& b.series.len() > 0 ==> parts.len() == 4 && parts[2] == sanitized(b.series)
            &&& b.series.len() == 0 ==> parts.len() == 3
            &&& b.title.len() > 0 ==> parts.last() == sanitized(b.title) + "_"@ + parts[1]
                + " (Standard Ebooks).epub"@
            &&& b.title.len() == 0 ==> parts.last() == b.name() + "_"@ + parts[1]
                + " (Standard Ebooks).epub"@
        },
{
    reveal_strlit(" (Standard Ebooks)");
    reveal_strlit(".epub");
    reveal_strlit(" (Standard Ebooks).epub");
    assert(" (Standard Ebooks)"@ + ".epub"@ =~= " (Standard Ebooks).epub"@);
    if let Some(parts) = epub_parts(b) {
        let author = parts[1];
        let title = if b.title.len() == 0 {
            b.name()
        } else {
            sanitized(b.title)
        };
        assert(title + "_"@ + author + " (Standard Ebooks)"@ + ".epub"@ =~= title + "_"@ + author
            + (" (Standard Ebooks)"@ + ".epub"@));
    }
}

/// A text is made safe character by character: each is replaced, left out or kept by what
/// it is itself.
pub proof fn law_substitution_goes_by_characters(a: Seq<char>, b: Seq<char>, c: char)
    ensures
        substituted(a + b) == substituted(a) + substituted(b),
        c == '/' || c == '\\' || c == '|' ==> substituted(seq![c]) == seq!['-'],
        c == ':' ==> substituted(seq![c]) == seq![' ', '-'],
        c == '"' ==> substituted(seq![c]) == seq!['\''],
        c == '*' || c == '?' || c == '<' || c == '>' ==> substituted(seq![c]) == Seq::<
            char,
        >::empty(),
        c != '/' && c != '\\' && c != '|' && c != ':' && c != '"' && c != '*' && c != '?' && c
            != '<' && c != '>' ==> substituted(seq![c]) == seq![c],
{
    lemma_substituted_parts(a, b);
    lemma_substituted_one(c);
}

/// Squeezing makes one space of two, and keeps a text in which no two stand side by side.
pub proof fn law_squeezing_makes_one_space_of_two(a: Seq<char>, b: Seq<char>)
    ensures
        squeezed(a + seq![' ', ' '] + b) == squeezed(a + seq![' '] + b),
        (forall|i: int| 0 < i < a.len() ==> (#[trigger] a[i]) != ' ' || a[i - 1] != ' ')
            ==> squeezed(a) == a,
{
    lemma_squeezed_twice(a, b);
    if forall|i: int| 0 < i < a.len() ==> (#[trigger] a[i]) != ' ' || a[i - 1] != ' ' {
        assert(single_spaced(a));
        lemma_squeezed(a);
    }
}

/// A name is made of a text by trimming it, making it safe, squeezing its spaces and
/// leaving out the dots and spaces that are then at its end: `core` is what remains.
pub proof fn law_sanitizing_in_steps(s: Seq<char>, core: Seq<char>, end: Seq<char>)
    requires
        squeezed(substituted(text::trimmed(s))) == core + end,
        forall|i: int| 0 <= i < end.len() ==> #[trigger] end[i] == '.' || end[i] == ' ',
        core.len() > 0 ==> core.last() != '.' && core.last() != ' ',
    ensures
        sanitized(s) == core,
{
    text::lemma_drop_suffix(core, end, dot_or_space());
}

} // verus!
