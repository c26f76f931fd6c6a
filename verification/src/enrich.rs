//! Enriching books with the metadata of their package documents.

use crate::books;
use crate::books::{Book, BookView};
use crate::opf;
use crate::opf::{EntryView, MetaEntry, OpfMeta, OpfView};
use crate::runs;
use crate::runs::{JobRun, Progress, RunView, Stage};
use crate::text;
use vstd::prelude::*;

verus! {

/// What an entry says, without surrounding white space.
pub open spec fn value(m: EntryView) -> Seq<char> {
    text::trimmed(m.text)
}

/// An entry that says something of the given property.
pub open spec fn tells(m: EntryView, property: Seq<char>) -> bool {
    m.property == property && value(m).len() > 0
}

/// The last that the entries say of a property; `default` where they say nothing.
pub open spec fn last_value(
    metas: Seq<EntryView>,
    property: Seq<char>,
    default: Seq<char>,
) -> Seq<char>
    decreases metas.len(),
{
    if metas.len() == 0 {
        default
    } else if tells(metas.last(), property) {
        value(metas.last())
    } else {
        last_value(metas.drop_last(), property, default)
    }
}

/// The last number that the entries give for a property; `default` where they give none.
pub open spec fn last_number(metas: Seq<EntryView>, property: Seq<char>, default: i64) -> i64
    decreases metas.len(),
{
    if metas.len() == 0 {
        default
    } else if tells(metas.last(), property) && text::number_of(value(metas.last())) is Some {
        text::number_of(value(metas.last()))->0 as i64
    } else {
        last_number(metas.drop_last(), property, default)
    }
}

/// The reading of the text of entry `i`, where it has one.
pub open spec fn reading_at(readings: Seq<Option<u64>>, i: int) -> Option<u64> {
    if 0 <= i < readings.len() {
        readings[i]
    } else {
        None
    }
}

/// The last reading among those of the entries that tell the reading ease.
pub open spec fn last_ease(
    metas: Seq<EntryView>,
    readings: Seq<Option<u64>>,
    default: u64,
) -> u64
    decreases metas.len(),
{
    if metas.len() == 0 {
        default
    } else if tells(metas.last(), "se:reading-ease.flesch"@) && reading_at(
        readings,
        metas.len() - 1,
    ) is Some {
        reading_at(readings, metas.len() - 1)->0
    } else {
        last_ease(metas.drop_last(), readings, default)
    }
}

/// The last Wikipedia address that is said of the book itself.
pub open spec fn last_wikipedia(metas: Seq<EntryView>, default: Seq<char>) -> Seq<char>
    decreases metas.len(),
{
    if metas.len() == 0 {
        default
    } else if tells(metas.last(), "se:url.encyclopedia.wikipedia"@) && metas.last().refines.len()
        == 0 {
        value(metas.last())
    } else {
        last_wikipedia(metas.drop_last(), default)
    }
}

/// All that the entries say of a property, in order.
pub open spec fn all_values(metas: Seq<EntryView>, property: Seq<char>) -> Seq<Seq<char>>
    decreases metas.len(),
{
    if metas.len() == 0 {
        Seq::empty()
    } else {
        let before = all_values(metas.drop_last(), property);
        if tells(metas.last(), property) {
            before.push(value(metas.last()))
        } else {
            before
        }
    }
}

/// An entry that says something of the entry with the given identifier.
pub open spec fn refers_to(m: EntryView, id: Seq<char>) -> bool {
    m.refines.len() > 0 && text::skip_while(m.refines, text::only('#')) == id
}

/// An entry that declares the collection with the given identifier a series.
pub open spec fn declares_series(m: EntryView, id: Seq<char>) -> bool {
    refers_to(m, id) && m.property == "collection-type"@ && value(m) == "series"@
}

/// Some entry declares the collection with the given identifier a series.
pub open spec fn is_series(metas: Seq<EntryView>, id: Seq<char>) -> bool {
    exists|i: int| 0 <= i < metas.len() && declares_series(#[trigger] metas[i], id)
}

/// The last position that the entries give within the collection with the given
/// identifier; zero where they give none.
pub open spec fn position_in(metas: Seq<EntryView>, id: Seq<char>) -> i64
    decreases metas.len(),
{
    if metas.len() == 0 {
        0
    } else {
        let m = metas.last();
        if refers_to(m, id) && m.property == "group-position"@ && text::number_of(value(m)) is Some {
            text::number_of(value(m))->0 as i64
        } else {
            position_in(metas.drop_last(), id)
        }
    }
}

/// A collection that the book belongs to and that is declared a series.
pub open spec fn tells_series(m: EntryView, all: Seq<EntryView>) -> bool {
    tells(m, "belongs-to-collection"@) && m.id.len() > 0 && is_series(all, m.id)
}

/// The first series among the collections in `metas`, with the book's position in it.
pub open spec fn first_series(metas: Seq<EntryView>, all: Seq<EntryView>) -> Option<
    (Seq<char>, i64),
>
    decreases metas.len(),
{
    if metas.len() == 0 {
        None
    } else {
        let before = first_series(metas.drop_last(), all);
        if before is Some || !tells_series(metas.last(), all) {
            before
        } else {
            Some((value(metas.last()), position_in(all, metas.last().id)))
        }
    }
}

/// How long a number of words takes to read, at 250 words a minute.
pub open spec fn reading_time_of(words: nat) -> Seq<char> {
    let minutes = words / 250;
    if minutes / 60 > 0 {
        text::decimal_of(minutes / 60) + "h "@ + text::decimal_of(minutes % 60) + "m"@
    } else {
        text::decimal_of(minutes % 60) + "m"@
    }
}

/// `new` where it is not empty, else `old_value`.
pub open spec fn or_kept<T>(new: Seq<T>, old_value: Seq<T>) -> Seq<T> {
    if new.len() > 0 {
        new
    } else {
        old_value
    }
}

/// The book with what the entries in `metas` say of it, where `all` are the entries
/// that declare series and positions.
pub open spec fn noted(
    b: BookView,
    metas: Seq<EntryView>,
    all: Seq<EntryView>,
    readings: Seq<Option<u64>>,
) -> BookView {
    let series = if b.series.len() > 0 {
        None
    } else {
        first_series(metas, all)
    };
    BookView {
        long_description: last_value(metas, "se:long-description"@, b.long_description),
        word_count: last_number(metas, "se:word-count"@, b.word_count),
        reading_ease: last_ease(metas, readings, b.reading_ease),
        wikipedia: last_wikipedia(metas, b.wikipedia),
        categories: b.categories + all_values(metas, "se:subject"@),
        collections: b.collections + all_values(metas, "belongs-to-collection"@),
        series: match series {
            Some(s) => s.0,
            None => b.series,
        },
        series_position: match series {
            Some(s) => s.1,
            None => b.series_position,
        },
        ..b
    }
}

/// The book with what its package document says of it. `readings[i]` is the number
/// that the text of entry `i` writes, as the bits of a double-precision number.
pub open spec fn enriched(b: BookView, meta: OpfView, readings: Seq<Option<u64>>) -> BookView {
    let described = BookView {
        description: or_kept(meta.description, b.description),
        language: or_kept(meta.language, b.language),
        se_published: or_kept(meta.date, b.se_published),
        subjects: or_kept(meta.subjects, b.subjects),
        sources: or_kept(meta.sources, b.sources),
        ..b
    };
    let told = noted(described, meta.metas, meta.metas, readings);
    BookView {
        reading_time: if told.word_count > 0 {
            reading_time_of(told.word_count as nat)
        } else {
            told.reading_time
        },
        ..told
    }
}

/// How long a number of words takes to read, at 250 words a minute.
pub fn reading_time(words: i64) -> (r: String)
    requires
        words > 0,
    ensures
        r@ == reading_time_of(words as nat),
{
    let minutes: u64 = (words / 250) as u64;
    let hours: u64 = minutes / 60;
    let mins: u64 = minutes % 60;
    if hours > 0 {
        let mut r = text::decimal(hours);
        r.append("h ");
        r.append(text::decimal(mins).as_str());
        r.append("m");
        r
    } else {
        text::decimal(mins).concat("m")
    }
}

/// Whether the collection with the given identifier is declared a series, and the
/// book's position in it.
fn series_of(metas: &Vec<MetaEntry>, id: &str) -> (r: (bool, i64))
    ensures
        r.0 == is_series(opf::entry_views(metas@), id@),
        r.1 == position_in(opf::entry_views(metas@), id@),
{
    let ghost all = opf::entry_views(metas@);
    let mut declared = false;
    let mut position: i64 = 0;
    let mut i: usize = 0;
    while i < metas.len()
        invariant
            i <= metas@.len(),
            all == opf::entry_views(metas@),
            declared == exists|j: int| 0 <= j < i && declares_series(#[trigger] all[j], id@),
            position == position_in(all.take(i as int), id@),
        decreases metas@.len() - i,
    {
        let m = &metas[i];
        let ghost was = declared;
        assert(all[i as int] == m@);
        assert(all.take(i + 1).drop_last() =~= all.take(i as int));
        assert(all.take(i + 1).last() == m@);
        proof {
            reveal_strlit("collection-type");
            reveal_strlit("group-position");
            assert("collection-type"@.len() != "group-position"@.len());
        }
        if !m.refines.as_str().is_empty() {
            let target = text::trim_start_char(m.refines.as_str(), '#');
            if text::same(target.as_str(), id) {
                let val = text::trim(m.text.as_str());
                if text::same(m.property.as_str(), "collection-type") {
                    if text::same(val.as_str(), "series") {
                        declared = true;
                        assert(declares_series(all[i as int], id@));
                    }
                } else if text::same(m.property.as_str(), "group-position") {
                    if let Some(n) = text::parse_i64(val.as_str()) {
                        position = n;
                    }
                }
            }
        }
        proof {
            if was {
                let j = choose|j: int| 0 <= j < i && declares_series(#[trigger] all[j], id@);
                assert(0 <= j < i + 1 && declares_series(all[j], id@));
            }
        }
        i += 1;
    }
    assert(all.take(i as int) =~= all);
    (declared, position)
}

/// A series has a name.
proof fn lemma_series_named(metas: Seq<EntryView>, all: Seq<EntryView>)
    ensures
        first_series(metas, all) matches Some(s) ==> s.0.len() > 0,
    decreases metas.len(),
{
    if metas.len() > 0 {
        lemma_series_named(metas.drop_last(), all);
    }
}

/// Adds what one entry says to what the ones before said.
fn note_entry(
    book: &mut Book,
    m: &MetaEntry,
    reading: Option<u64>,
    metas: &Vec<MetaEntry>,
    Ghost(b): Ghost<BookView>,
    Ghost(before): Ghost<Seq<EntryView>>,
    Ghost(readings): Ghost<Seq<Option<u64>>>,
)
    requires
        old(book)@ == noted(b, before, opf::entry_views(metas@), readings),
        reading == reading_at(readings, before.len() as int),
    ensures
        final(book)@ == noted(b, before.push(m@), opf::entry_views(metas@), readings),
{
    let ghost all = opf::entry_views(metas@);
    let ghost after = before.push(m@);
    let ghost start = book@;
    proof {
        assert(after.drop_last() =~= before);
        assert(after.last() == m@);
        assert(after.len() - 1 == before.len());
        lemma_series_named(before, all);
        reveal_strlit("se:long-description");
        reveal_strlit("se:word-count");
        reveal_strlit("se:reading-ease.flesch");
        reveal_strlit("se:url.encyclopedia.wikipedia");
        reveal_strlit("se:subject");
        reveal_strlit("belongs-to-collection");
        assert("se:long-description"@.len() == 19);
        assert("se:word-count"@.len() == 13);
        assert("se:reading-ease.flesch"@.len() == 22);
        assert("se:url.encyclopedia.wikipedia"@.len() == 29);
        assert("se:subject"@.len() == 10);
        assert("belongs-to-collection"@.len() == 21);
        if !tells(m@, "se:subject"@) {
            assert(all_values(after, "se:subject"@) == all_values(before, "se:subject"@));
        }
        if !tells(m@, "belongs-to-collection"@) {
            assert(all_values(after, "belongs-to-collection"@) == all_values(
                before,
                "belongs-to-collection"@,
            ));
            assert(first_series(after, all) == first_series(before, all));
        }
    }
    let val = text::trim(m.text.as_str());
    if val.as_str().is_empty() {
        assert(book@ =~= noted(b, after, all, readings));
        return;
    }
    let property = m.property.as_str();
    if text::same(property, "se:long-description") {
        book.long_description = val;
    } else if text::same(property, "se:word-count") {
        if let Some(n) = text::parse_i64(val.as_str()) {
            book.word_count = n;
        }
    } else if text::same(property, "se:reading-ease.flesch") {
        if let Some(f) = reading {
            book.reading_ease = f;
        }
    } else if text::same(property, "se:url.encyclopedia.wikipedia") {
        if m.refines.as_str().is_empty() {
            book.wikipedia = val;
        }
    } else if text::same(property, "se:subject") {
        book.categories.push(val);
        proof {
            assert(text::views(book.categories@) =~= start.categories.push(value(m@)));
            assert(start.categories.push(value(m@)) =~= b.categories + all_values(
                after,
                "se:subject"@,
            ));
        }
    } else if text::same(property, "belongs-to-collection") {
        book.collections.push(val.clone());
        proof {
            assert(text::views(book.collections@) =~= start.collections.push(value(m@)));
            assert(start.collections.push(value(m@)) =~= b.collections + all_values(
                after,
                "belongs-to-collection"@,
            ));
        }
        if !m.id.as_str().is_empty() {
            let (declared, position) = series_of(metas, m.id.as_str());
            if declared && book.series.as_str().is_empty() {
                book.series = val;
                book.series_position = position;
            }
        }
    }
    assert(book@ =~= noted(b, after, all, readings));
}

/// Writes into the book what its package document says of it. `readings[i]` is the
/// number that the text of entry `i` writes, as the bits of a double-precision
/// number, where it writes one.
pub fn apply_metadata(book: &mut Book, meta: &OpfMeta, readings: &Vec<Option<u64>>)
    ensures
        final(book)@ == enriched(old(book)@, meta@, readings@),
{
    let ghost b = book@;
    if !meta.description.as_str().is_empty() {
        book.description = meta.description.clone();
    }
    if !meta.language.as_str().is_empty() {
        book.language = meta.language.clone();
    }
    if !meta.date.as_str().is_empty() {
        book.se_published = meta.date.clone();
    }
    if meta.subjects.len() > 0 {
        book.subjects = text::copy_all(&meta.subjects);
    }
    if meta.sources.len() > 0 {
        book.sources = text::copy_all(&meta.sources);
    }
    let ghost start = book@;
    let ghost all = opf::entry_views(meta.metas@);
    assert(start =~= (BookView {
        description: or_kept(meta@.description, b.description),
        language: or_kept(meta@.language, b.language),
        se_published: or_kept(meta@.date, b.se_published),
        subjects: or_kept(meta@.subjects, b.subjects),
        sources: or_kept(meta@.sources, b.sources),
        ..b
    }));
    assert(start =~= noted(start, all.take(0), all, readings@));
    let mut i: usize = 0;
    while i < meta.metas.len()
        invariant
            i <= meta.metas@.len(),
            all == opf::entry_views(meta.metas@),
            book@ == noted(start, all.take(i as int), all, readings@),
        decreases meta.metas@.len() - i,
    {
        let reading = if i < readings.len() {
            readings[i]
        } else {
            None
        };
        assert(all.take(i + 1) =~= all.take(i as int).push(meta.metas@[i as int]@));
        note_entry(
            book,
            &meta.metas[i],
            reading,
            &meta.metas,
            Ghost(start),
            Ghost(all.take(i as int)),
            Ghost(readings@),
        );
        i += 1;
    }
    assert(all.take(i as int) =~= all);
    if book.word_count > 0 {
        book.reading_time = reading_time(book.word_count);
    }
    assert(book@ =~= enriched(b, meta@, readings@));
}

/// Enriching a book keeps its title, its author, its addresses and its repository
/// name, and adds to its categories and collections without touching those it has.
pub proof fn law_enriched_keeps_identity(
    b: BookView,
    meta: OpfView,
    readings: Seq<Option<u64>>,
)
    ensures
        ({
            let e = enriched(b, meta, readings);
            &&& e.title == b.title
            &&& e.author == b.author
            &&& e.url == b.url
            &&& e.repo == b.repo
            &&& e.repo_name == b.repo_name
            &&& e.cover == b.cover
            &&& e.epub == b.epub
            &&& e.name() == b.name()
            &&& b.categories.is_prefix_of(e.categories)
            &&& b.collections.is_prefix_of(e.collections)
            &&& b.series.len() > 0 ==> e.series == b.series && e.series_position
                == b.series_position
        }),
{
}

proof fn lemma_last_again(
    metas: Seq<EntryView>,
    readings: Seq<Option<u64>>,
    property: Seq<char>,
    text: Seq<char>,
    number: i64,
    ease: u64,
)
    ensures
        last_value(metas, property, last_value(metas, property, text)) == last_value(
            metas,
            property,
            text,
        ),
        last_number(metas, property, last_number(metas, property, number)) == last_number(
            metas,
            property,
            number,
        ),
        last_ease(metas, readings, last_ease(metas, readings, ease)) == last_ease(
            metas,
            readings,
            ease,
        ),
        last_wikipedia(metas, last_wikipedia(metas, text)) == last_wikipedia(metas, text),
{
    lemma_last_settled(
        metas,
        readings,
        property,
        last_value(metas, property, text),
        text,
        last_number(metas, property, number),
        number,
        last_ease(metas, readings, ease),
        ease,
        last_wikipedia(metas, text),
    );
}

/// What the entries do not say stays at its default, whatever that is.
proof fn lemma_last_settled(
    metas: Seq<EntryView>,
    readings: Seq<Option<u64>>,
    property: Seq<char>,
    text1: Seq<char>,
    text0: Seq<char>,
    number1: i64,
    number0: i64,
    ease1: u64,
    ease0: u64,
    wikipedia1: Seq<char>,
)
    ensures
        last_value(metas, property, text1) == text1 || last_value(metas, property, text1)
            == last_value(metas, property, text0),
        last_number(metas, property, number1) == number1 || last_number(metas, property, number1)
            == last_number(metas, property, number0),
        last_ease(metas, readings, ease1) == ease1 || last_ease(metas, readings, ease1)
            == last_ease(metas, readings, ease0),
        last_wikipedia(metas, wikipedia1) == wikipedia1 || last_wikipedia(metas, wikipedia1)
            == last_wikipedia(metas, text0),
    decreases metas.len(),
{
    if metas.len() > 0 {
        lemma_last_settled(
            metas.drop_last(),
            readings,
            property,
            text1,
            text0,
            number1,
            number0,
            ease1,
            ease0,
            wikipedia1,
        );
    }
}

/// Enriching a book once more from the same document changes nothing, except that
/// the categories and collections of the document are added once more.
pub proof fn law_enriched_again(b: BookView, meta: OpfView, readings: Seq<Option<u64>>)
    ensures
        ({
            let once = enriched(b, meta, readings);
            enriched(once, meta, readings) == (BookView {
                categories: once.categories + all_values(meta.metas, "se:subject"@),
                collections: once.collections + all_values(
                    meta.metas,
                    "belongs-to-collection"@,
                ),
                ..once
            })
        }),
{
    let once = enriched(b, meta, readings);
    lemma_last_again(
        meta.metas,
        readings,
        "se:long-description"@,
        b.long_description,
        0,
        b.reading_ease,
    );
    lemma_last_again(meta.metas, readings, "se:word-count"@, b.wikipedia, b.word_count, 0);
    lemma_series_named(meta.metas, meta.metas);
    assert(enriched(once, meta, readings) =~= (BookView {
        categories: once.categories + all_values(meta.metas, "se:subject"@),
        collections: once.collections + all_values(meta.metas, "belongs-to-collection"@),
        ..once
    }));
}

/// The address of a book's package document.
pub fn opf_url(repo: &str) -> (r: String)
    ensures
        r@ == "https://raw.githubusercontent.com/standardebooks/"@ + repo@
            + "/master/src/epub/content.opf"@,
{
    let mut r = "https://raw.githubusercontent.com/standardebooks/".to_string();
    r.append(repo);
    r.append("/master/src/epub/content.opf");
    r
}

/// The metadata in the answer to a request for a package document: `status` is the
/// answer's status line and `body` its text.
pub fn opf_from_response(success: bool, status: &str, body: &str) -> (r: Result<OpfMeta, String>)
    ensures
        !success ==> (r matches Err(m) && m@ == "HTTP "@ + status@),
        success ==> match opf::xml_document(body@) {
            Err(e) => r matches Err(m) && m@ == "XML parse: "@ + e,
            Ok(nodes) => match opf::opf_of(nodes) {
                Some(meta) => r matches Ok(m) && m@ == meta,
                None => r matches Err(m) && m@ == "no metadata element"@,
            },
        },
{
    if !success {
        return Err("HTTP ".to_string().concat(status));
    }
    opf::parse_opf_xml(body)
}

/// What a run of enrichment came to.
#[derive(Clone, Copy, Debug, PartialEq, Eq)]
pub struct EnrichResult {
    pub enriched: usize,
    pub skipped: usize,
    pub errors: usize,
}

/// What is to be done next in a run of enrichment.
pub enum EnrichStep {
    /// No further book is taken up.
    Finished,
    /// A book was settled at once.
    Report(Progress),
    /// The package document of the repository is to be fetched for a book.
    Fetch(usize, String),
    /// As many package documents are being fetched as may be; one has to come in first.
    Full,
}

/// What became of fetching a package document.
pub enum Outcome {
    /// The run was cancelled before the request was sent.
    Cancelled,
    /// The metadata, and for each of its entries the number that its text writes.
    Fetched(OpfMeta, Vec<Option<u64>>),
    /// The request failed, for the reason given.
    Failed(String),
}

/// A run of enrichment over a list of books.
pub struct EnrichRun {
    start: Ghost<Seq<BookView>>,
    books: Vec<Book>,
    limit: usize,
    jobs: JobRun,
}

/// What an [`EnrichRun`] holds.
#[verifier::ext_equal]
pub struct EnrichView {
    /// The books that the run was begun with.
    pub start: Seq<BookView>,
    /// The books as they are now.
    pub books: Seq<BookView>,
    /// How many package documents may be fetched at once.
    pub limit: nat,
    /// How far the run has come.
    pub run: RunView,
}

/// `after` is the book `before`, enriched by what some package document tells.
pub open spec fn is_enrichment(before: BookView, after: BookView) -> bool {
    exists|meta: OpfView, readings: Seq<Option<u64>>|
        after == #[trigger] enriched(before, meta, readings)
}

/// How many books have a word count.
pub open spec fn count_worded(list: Seq<BookView>) -> nat
    decreases list.len(),
{
    if list.len() == 0 {
        0
    } else {
        count_worded(list.drop_last()) + if list.last().word_count > 0 {
            1nat
        } else {
            0nat
        }
    }
}

impl EnrichView {
    /// The books whose job is done have been enriched, and no others have changed. The
    /// books that were passed over are those with a word count, and package documents are
    /// fetched only for books with a repository name.
    pub open spec fn is_sound(self) -> bool {
        &&& self.books.len() == self.start.len()
        &&& self.run.stages.len() == self.start.len()
        &&& forall|i: int|
            0 <= i < self.start.len() ==> if #[trigger] self.run.stages[i] == Stage::Done {
                is_enrichment(self.start[i], self.books[i])
            } else {
                self.books[i] == self.start[i]
            }
        &&& forall|i: int|
            0 <= i < self.start.len() && #[trigger] self.run.stages[i] != Stage::Waiting ==> (
            self.run.stages[i] == Stage::Skipped <==> self.start[i].word_count > 0)
        &&& forall|i: int|
            0 <= i < self.start.len() && (#[trigger] self.run.stages[i] == Stage::Running
                || self.run.stages[i] == Stage::Done || self.run.stages[i] == Stage::Abandoned)
                ==> self.start[i].name().len() > 0
    }
}

impl View for EnrichRun {
    type V = EnrichView;

    closed spec fn view(&self) -> EnrichView {
        EnrichView {
            start: self.start@,
            books: books::views(self.books@),
            limit: self.limit as nat,
            run: self.jobs@.run,
        }
    }
}

impl EnrichRun {
    /// There is a job for each book, under the book's title, the books are as the jobs
    /// have left them, and no more package documents are fetched than may be.
    pub closed spec fn wf(&self) -> bool {
        &&& self@.is_sound()
        &&& runs::count_at(self@.run.stages, Stage::Running) <= self@.limit
        &&& self.jobs.wf()
        &&& self.jobs@.run.stages.len() == self.books@.len()
        &&& self.jobs@.titles.len() == self.books@.len()
        &&& forall|i: int|
            0 <= i < self.books@.len() ==> #[trigger] self.jobs@.titles[i] == self.books@[i].title@
    }

    /// The package document for book `i` is being fetched.
    pub open spec fn is_fetching(&self, i: int) -> bool {
        0 <= i < self@.run.stages.len() && self@.run.stages[i] == Stage::Running
    }

    /// A run over the given books, which fetches at most `limit` package documents at
    /// once.
    pub fn new(list: Vec<Book>, limit: usize) -> (r: Self)
        ensures
            r.wf(),
            r@ == (EnrichView {
                start: books::views(list@),
                books: books::views(list@),
                limit: limit as nat,
                run: runs::fresh_run(list@.len()),
            }),
    {
        let jobs = JobRun::new(books::titles_of(&list));
        assert(jobs@.titles =~= books::views(list@).map_values(|b: BookView| b.title));
        proof {
            runs::lemma_count_none(jobs@.run.stages, Stage::Running);
        }
        EnrichRun { start: Ghost(books::views(list@)), books: list, limit, jobs }
    }

    /// Takes up the next book, unless the run is cancelled or no book is left. A book
    /// with a word count is skipped; one without a repository name is an error; any other
    /// has to wait while as many package documents are fetched as may be.
    pub fn step(&mut self, cancelled: bool) -> (r: EnrichStep)
        requires
            old(self).wf(),
        ensures
            final(self).wf(),
            final(self)@.start == old(self)@.start,
            final(self)@.books == old(self)@.books,
            final(self)@.limit == old(self)@.limit,
            ({
                let run = old(self)@.run;
                let i = run.next as int;
                let total = run.stages.len() as int;
                let b = old(self)@.books[i];
                if cancelled || i == total {
                    &&& r is Finished
                    &&& final(self)@.run == run
                } else if b.word_count > 0 {
                    &&& r matches EnrichStep::Report(p) && runs::reports(
                        p,
                        i,
                        total,
                        b.title,
                        "skipped"@,
                    )
                    &&& final(self)@.run == run.taken().settled(i, Stage::Skipped)
                } else if b.name().len() == 0 {
                    &&& r matches EnrichStep::Report(p) && runs::reports(
                        p,
                        i,
                        total,
                        b.title,
                        "no repo"@,
                    )
                    &&& final(self)@.run == run.taken().settled(i, Stage::Failed)
                } else if runs::count_at(run.stages, Stage::Running) == old(self)@.limit {
                    &&& r is Full
                    &&& final(self)@.run == run
                } else {
                    &&& r matches EnrichStep::Fetch(n, repo) && n == i && repo@ == b.name()
                    &&& final(self)@.run == run.taken()
                    &&& final(self).is_fetching(i)
                }
            }),
    {
        if cancelled || !self.jobs.is_waiting() {
            return EnrichStep::Finished;
        }
        let i: usize = self.jobs.next();
        let worded = self.books[i].word_count > 0;
        let repo = books::repo_name(&self.books[i]);
        let fetched = !worded && !repo.as_str().is_empty();
        if fetched && self.jobs.running() >= self.limit {
            return EnrichStep::Full;
        }
        let ghost stages = self@.run.stages;
        proof {
            runs::lemma_count_update(stages, i as int, Stage::Running, Stage::Running);
            let taken = stages.update(i as int, Stage::Running);
            runs::lemma_count_update(taken, i as int, Stage::Skipped, Stage::Running);
            runs::lemma_count_update(taken, i as int, Stage::Failed, Stage::Running);
        }
        let _ = self.jobs.start(false);
        if worded {
            EnrichStep::Report(self.jobs.report(i, Stage::Skipped, "skipped".to_string()))
        } else if !fetched {
            EnrichStep::Report(self.jobs.report(i, Stage::Failed, "no repo".to_string()))
        } else {
            EnrichStep::Fetch(i, repo)
        }
    }

    /// Takes over what became of fetching the package document for book `i`.
    pub fn settle(&mut self, i: usize, outcome: Outcome) -> (r: Option<Progress>)
        requires
            old(self).wf(),
            old(self).is_fetching(i as int),
        ensures
            final(self).wf(),
            ({
                let run = old(self)@.run;
                let total = run.stages.len() as int;
                let list = old(self)@.books;
                let b = list[i as int];
                match outcome {
                    Outcome::Cancelled => {
                        &&& r is None
                        &&& final(self)@ == (EnrichView {
                            run: run.settled(i as int, Stage::Abandoned),
                            ..old(self)@
                        })
                    },
                    Outcome::Fetched(meta, readings) => {
                        &&& r matches Some(p) && runs::reports(
                            p,
                            i as int,
                            total,
                            b.title,
                            "enriched"@,
                        )
                        &&& final(self)@ == (EnrichView {
                            books: list.update(i as int, enriched(b, meta@, readings@)),
                            run: run.settled(i as int, Stage::Done),
                            ..old(self)@
                        })
                    },
                    Outcome::Failed(e) => {
                        &&& r matches Some(p) && runs::reports(
                            p,
                            i as int,
                            total,
                            b.title,
                            "error: "@ + e@,
                        )
                        &&& final(self)@ == (EnrichView {
                            run: run.settled(i as int, Stage::Failed),
                            ..old(self)@
                        })
                    },
                }
            }),
    {
        proof {
            let stages = self@.run.stages;
            runs::lemma_count_update(stages, i as int, Stage::Abandoned, Stage::Running);
            runs::lemma_count_update(stages, i as int, Stage::Done, Stage::Running);
            runs::lemma_count_update(stages, i as int, Stage::Failed, Stage::Running);
        }
        match outcome {
            Outcome::Cancelled => {
                self.jobs.abandon(i);
                None
            },
            Outcome::Fetched(meta, readings) => {
                let ghost list = self@.books;
                let mut b = self.books[i].clone();
                apply_metadata(&mut b, &meta, &readings);
                self.books.set(i, b);
                assert(self@.books =~= list.update(
                    i as int,
                    enriched(list[i as int], meta@, readings@),
                ));
                Some(self.jobs.report(i, Stage::Done, "enriched".to_string()))
            },
            Outcome::Failed(e) => Some(self.jobs.report_error(i, e.as_str())),
        }
    }

    /// The books as they are now, and what the run came to.
    pub fn finish(self) -> (r: (Vec<Book>, EnrichResult))
        requires
            self.wf(),
        ensures
            books::views(r.0@) == self@.books,
            r.1.enriched == runs::count_at(self@.run.stages, Stage::Done),
            r.1.skipped == runs::count_at(self@.run.stages, Stage::Skipped),
            r.1.errors == runs::count_at(self@.run.stages, Stage::Failed),
    {
        let result = EnrichResult {
            enriched: self.jobs.done(),
            skipped: self.jobs.skipped(),
            errors: self.jobs.failed(),
        };
        (self.books, result)
    }
}

/// What a run did that was not cancelled and in which every job has been settled: the
/// books that were skipped are those that had a word count, the three counts add up to
/// the list, and the books whose job is done have been enriched once while the others are
/// as they were.
pub proof fn law_complete_run_enriches_the_list(run: EnrichRun)
    requires
        run.wf(),
        run@.run.is_complete(),
    ensures
        runs::count_at(run@.run.stages, Stage::Skipped) == count_worded(run@.start),
        runs::count_at(run@.run.stages, Stage::Done) + runs::count_at(
            run@.run.stages,
            Stage::Skipped,
        ) + runs::count_at(run@.run.stages, Stage::Failed) == run@.start.len(),
        run@.books.len() == run@.start.len(),
        forall|i: int|
            0 <= i < run@.start.len() ==> if run@.run.stages[i] == Stage::Done {
                is_enrichment(run@.start[i], #[trigger] run@.books[i])
            } else {
                run@.books[i] == run@.start[i]
            },
        forall|i: int|
            0 <= i < run@.start.len() ==> (run@.run.stages[i] == Stage::Skipped
                <==> #[trigger] run@.start[i].word_count > 0),
{
    runs::law_complete_run_counts_every_job(run@.run);
    lemma_skipped_are_worded(run@.run.stages, run@.start);
    assert forall|i: int| 0 <= i < run@.start.len() implies if run@.run.stages[i] == Stage::Done {
        is_enrichment(run@.start[i], #[trigger] run@.books[i])
    } else {
        run@.books[i] == run@.start[i]
    } by {
        assert(run@.run.stages[i] != Stage::Waiting);
    }
}

/// At every moment no more package documents are fetched than may be, and in every state,
/// whether the run was cancelled or not, exactly the books whose job is done have been
/// enriched.
pub proof fn law_run_is_bounded_and_sound(run: EnrichRun)
    requires
        run.wf(),
    ensures
        runs::count_at(run@.run.stages, Stage::Running) <= run@.limit,
        run@.is_sound(),
{
}

proof fn lemma_skipped_are_worded(stages: Seq<Stage>, list: Seq<BookView>)
    requires
        stages.len() == list.len(),
        forall|i: int|
            0 <= i < stages.len() ==> (#[trigger] stages[i] == Stage::Skipped <==> list[i].word_count
                > 0),
    ensures
        runs::count_at(stages, Stage::Skipped) == count_worded(list),
    decreases stages.len(),
{
    if stages.len() > 0 {
        let init = stages.drop_last();
        assert forall|i: int| 0 <= i < init.len() implies (#[trigger] init[i] == Stage::Skipped
            <==> list.drop_last()[i].word_count > 0) by {
            assert(init[i] == stages[i]);
        }
        lemma_skipped_are_worded(init, list.drop_last());
        assert(stages[stages.len() - 1] == stages.last());
    }
}

proof fn lemma_last_of(
    before: Seq<EntryView>,
    m: EntryView,
    after: Seq<EntryView>,
    property: Seq<char>,
    text0: Seq<char>,
    number0: i64,
    ease0: u64,
    readings: Seq<Option<u64>>,
)
    ensures
        tells(m, property) && (forall|k: int|
            0 <= k < after.len() ==> !tells(#[trigger] after[k], property)) ==> last_value(
            before + seq![m] + after,
            property,
            text0,
        ) == value(m),
        tells(m, property) && text::number_of(value(m)) is Some && (forall|k: int|
            0 <= k < after.len() ==> !(tells(#[trigger] after[k], property) && text::number_of(
                value(after[k]),
            ) is Some)) ==> last_number(before + seq![m] + after, property, number0)
            == text::number_of(value(m))->0,
        tells(m, "se:reading-ease.flesch"@) && reading_at(readings, before.len() as int) is Some && (
        forall|k: int|
            0 <= k < after.len() ==> !(tells(#[trigger] after[k], "se:reading-ease.flesch"@)
                && reading_at(readings, before.len() + 1 + k) is Some)) ==> last_ease(
            before + seq![m] + after,
            readings,
            ease0,
        ) == reading_at(readings, before.len() as int)->0,
        tells(m, "se:url.encyclopedia.wikipedia"@) && m.refines.len() == 0 && (forall|k: int|
            0 <= k < after.len() ==> !(tells(
                #[trigger] after[k],
                "se:url.encyclopedia.wikipedia"@,
            ) && after[k].refines.len() == 0)) ==> last_wikipedia(
            before + seq![m] + after,
            text0,
        ) == value(m),
    decreases after.len(),
{
    let all = before + seq![m] + after;
    if after.len() == 0 {
        assert(all.last() == m);
        assert(all.len() - 1 == before.len());
        if text::number_of(value(m)) is Some {
            lemma_number_in_range(value(m));
        }
    } else {
        let init = after.drop_last();
        let n = after.len() - 1;
        lemma_last_of(before, m, init, property, text0, number0, ease0, readings);
        assert(all.drop_last() =~= before + seq![m] + init);
        assert(all.last() == after[n]);
        assert(all.len() - 1 == before.len() + 1 + n);
        assert(forall|k: int| 0 <= k < init.len() ==> #[trigger] init[k] == after[k]);
    }
}

proof fn lemma_number_in_range(s: Seq<char>)
    ensures
        text::number_of(s) matches Some(n) ==> i64::MIN <= n <= i64::MAX,
{
}

proof fn lemma_none_of(
    metas: Seq<EntryView>,
    property: Seq<char>,
    text0: Seq<char>,
    number0: i64,
    ease0: u64,
    readings: Seq<Option<u64>>,
)
    ensures
        (forall|k: int| 0 <= k < metas.len() ==> !tells(#[trigger] metas[k], property))
            ==> last_value(metas, property, text0) == text0,
        (forall|k: int|
            0 <= k < metas.len() ==> !(tells(#[trigger] metas[k], property) && text::number_of(
                value(metas[k]),
            ) is Some)) ==> last_number(metas, property, number0) == number0,
        (forall|k: int|
            0 <= k < metas.len() ==> !(tells(#[trigger] metas[k], "se:reading-ease.flesch"@)
                && reading_at(readings, k) is Some)) ==> last_ease(metas, readings, ease0) == ease0,
        (forall|k: int|
            0 <= k < metas.len() ==> !(tells(
                #[trigger] metas[k],
                "se:url.encyclopedia.wikipedia"@,
            ) && metas[k].refines.len() == 0)) ==> last_wikipedia(metas, text0) == text0,
    decreases metas.len(),
{
    if metas.len() > 0 {
        let init = metas.drop_last();
        let n = metas.len() - 1;
        lemma_none_of(init, property, text0, number0, ease0, readings);
        assert(metas.last() == metas[n]);
        assert(forall|k: int| 0 <= k < init.len() ==> #[trigger] init[k] == metas[k]);
    }
}

/// The description, the language, the date, the subjects and the sources of the document
/// take the place of the book's own where the document has any; else the book keeps them.
pub proof fn law_document_replaces_what_it_has(
    b: BookView,
    meta: OpfView,
    readings: Seq<Option<u64>>,
)
    ensures
        ({
            let e = enriched(b, meta, readings);
            &&& meta.description.len() > 0 ==> e.description == meta.description
            &&& meta.description.len() == 0 ==> e.description == b.description
            &&& meta.language.len() > 0 ==> e.language == meta.language
            &&& meta.language.len() == 0 ==> e.language == b.language
            &&& meta.date.len() > 0 ==> e.se_published == meta.date
            &&& meta.date.len() == 0 ==> e.se_published == b.se_published
            &&& meta.subjects.len() > 0 ==> e.subjects == meta.subjects
            &&& meta.subjects.len() == 0 ==> e.subjects == b.subjects
            &&& meta.sources.len() > 0 ==> e.sources == meta.sources
            &&& meta.sources.len() == 0 ==> e.sources == b.sources
        }),
{
}

/// The long description is that of the last entry that holds one, without white space
/// around it, whatever it refines; without one the book keeps its own.
pub proof fn law_last_long_description_wins(
    b: BookView,
    meta: OpfView,
    readings: Seq<Option<u64>>,
    before: Seq<EntryView>,
    m: EntryView,
    after: Seq<EntryView>,
)
    requires
        meta.metas == before + seq![m] + after,
        forall|k: int|
            0 <= k < after.len() ==> (#[trigger] after[k]).property != "se:long-description"@
                || text::trimmed(after[k].text).len() == 0,
    ensures
        m.property == "se:long-description"@ && text::trimmed(m.text).len() > 0 ==> enriched(
            b,
            meta,
            readings,
        ).long_description == text::trimmed(m.text),
        (forall|k: int|
            0 <= k < meta.metas.len() ==> (#[trigger] meta.metas[k]).property
                != "se:long-description"@ || text::trimmed(meta.metas[k].text).len() == 0)
            ==> enriched(b, meta, readings).long_description == b.long_description,
{
    let p = "se:long-description"@;
    lemma_last_of(before, m, after, p, b.long_description, 0, 0, readings);
    lemma_none_of(meta.metas, p, b.long_description, 0, 0, readings);
}

/// The word count is the number of the last entry that gives one: entries that give none
/// are passed over. Without one the book keeps its own.
pub proof fn law_last_word_count_wins(
    b: BookView,
    meta: OpfView,
    readings: Seq<Option<u64>>,
    before: Seq<EntryView>,
    m: EntryView,
    after: Seq<EntryView>,
)
    requires
        meta.metas == before + seq![m] + after,
        forall|k: int|
            0 <= k < after.len() ==> (#[trigger] after[k]).property != "se:word-count"@
                || text::number_of(text::trimmed(after[k].text)) is None,
    ensures
        m.property == "se:word-count"@ && text::number_of(text::trimmed(m.text)) is Some
            ==> text::number_of(text::trimmed(m.text)) == Some(
            enriched(b, meta, readings).word_count as int,
        ),
        (forall|k: int|
            0 <= k < meta.metas.len() ==> (#[trigger] meta.metas[k]).property != "se:word-count"@
                || text::number_of(text::trimmed(meta.metas[k].text)) is None) ==> enriched(
            b,
            meta,
            readings,
        ).word_count == b.word_count,
{
    let p = "se:word-count"@;
    lemma_last_of(before, m, after, p, b.long_description, b.word_count, 0, readings);
    lemma_none_of(meta.metas, p, b.long_description, b.word_count, 0, readings);
}

/// The reading ease is the reading of the last entry for it that has one. Without one the
/// book keeps its own.
pub proof fn law_last_reading_ease_wins(
    b: BookView,
    meta: OpfView,
    readings: Seq<Option<u64>>,
    i: int,
)
    requires
        0 <= i < meta.metas.len(),
        forall|k: int|
            i < k < meta.metas.len() ==> (#[trigger] meta.metas[k]).property
                != "se:reading-ease.flesch"@ || text::trimmed(meta.metas[k].text).len() == 0 || k
                >= readings.len() || readings[k] is None,
    ensures
        meta.metas[i].property == "se:reading-ease.flesch"@ && text::trimmed(
            meta.metas[i].text,
        ).len() > 0 && i < readings.len() && readings[i] is Some ==> readings[i] == Some(
            enriched(b, meta, readings).reading_ease,
        ),
        (forall|k: int|
            0 <= k < meta.metas.len() ==> (#[trigger] meta.metas[k]).property
                != "se:reading-ease.flesch"@ || text::trimmed(meta.metas[k].text).len() == 0 || k
                >= readings.len() || readings[k] is None) ==> enriched(
            b,
            meta,
            readings,
        ).reading_ease == b.reading_ease,
{
    let before = meta.metas.take(i);
    let m = meta.metas[i];
    let after = meta.metas.skip(i + 1);
    assert(meta.metas =~= before + seq![m] + after);
    assert forall|k: int| 0 <= k < after.len() implies !(tells(
        #[trigger] after[k],
        "se:reading-ease.flesch"@,
    ) && reading_at(readings, before.len() + 1 + k) is Some) by {
        assert(after[k] == meta.metas[i + 1 + k]);
    }
    let p = "se:reading-ease.flesch"@;
    lemma_last_of(before, m, after, p, b.long_description, 0, b.reading_ease, readings);
    lemma_none_of(meta.metas, p, b.long_description, 0, b.reading_ease, readings);
}

/// The Wikipedia address is that of the last entry that gives one and refines nothing.
/// Without one the book keeps its own.
pub proof fn law_last_wikipedia_wins(
    b: BookView,
    meta: OpfView,
    readings: Seq<Option<u64>>,
    before: Seq<EntryView>,
    m: EntryView,
    after: Seq<EntryView>,
)
    requires
        meta.metas == before + seq![m] + after,
        forall|k: int|
            0 <= k < after.len() ==> (#[trigger] after[k]).property
                != "se:url.encyclopedia.wikipedia"@ || text::trimmed(after[k].text).len() == 0
                || after[k].refines.len() > 0,
    ensures
        m.property == "se:url.encyclopedia.wikipedia"@ && text::trimmed(m.text).len() > 0
            && m.refines.len() == 0 ==> enriched(b, meta, readings).wikipedia == text::trimmed(
            m.text,
        ),
        (forall|k: int|
            0 <= k < meta.metas.len() ==> (#[trigger] meta.metas[k]).property
                != "se:url.encyclopedia.wikipedia"@ || text::trimmed(meta.metas[k].text).len() == 0
                || meta.metas[k].refines.len() > 0) ==> enriched(b, meta, readings).wikipedia
            == b.wikipedia,
{
    let p = "se:url.encyclopedia.wikipedia"@;
    lemma_last_of(before, m, after, p, b.wikipedia, 0, 0, readings);
    lemma_none_of(meta.metas, p, b.wikipedia, 0, 0, readings);
}

/// Entries that refine something, the author's own address among them, have no bearing on
/// the book's Wikipedia address: it is the same as without them.
pub proof fn law_wikipedia_is_of_the_book_itself(
    b: BookView,
    meta: OpfView,
    readings: Seq<Option<u64>>,
)
    ensures
        enriched(b, meta, readings).wikipedia == enriched(
            b,
            OpfView {
                metas: meta.metas.filter(|m: EntryView| m.refines.len() == 0),
                ..meta
            },
            readings,
        ).wikipedia,
{
    lemma_wikipedia_filtered(meta.metas, b.wikipedia);
}

proof fn lemma_wikipedia_filtered(metas: Seq<EntryView>, text0: Seq<char>)
    ensures
        last_wikipedia(metas, text0) == last_wikipedia(
            metas.filter(|m: EntryView| m.refines.len() == 0),
            text0,
        ),
    decreases metas.len(),
{
    reveal(Seq::filter);
    let p = |m: EntryView| m.refines.len() == 0;
    if metas.len() > 0 {
        lemma_wikipedia_filtered(metas.drop_last(), text0);
        let init = metas.drop_last().filter(p);
        if p(metas.last()) {
            assert(metas.filter(p) =~= init.push(metas.last()));
            assert(init.push(metas.last()).drop_last() =~= init);
        }
    } else {
        assert(metas.filter(p) =~= metas);
    }
}

/// The categories of the document come behind those of the book, each entry's in its
/// place and without white space around it, blank ones left out; the collections likewise.
pub proof fn law_categories_and_collections_are_added(
    b: BookView,
    meta: OpfView,
    readings: Seq<Option<u64>>,
)
    ensures
        enriched(b, meta, readings).categories == b.categories + meta.metas.filter(
            |m: EntryView| m.property == "se:subject"@ && text::trimmed(m.text).len() > 0,
        ).map_values(|m: EntryView| text::trimmed(m.text)),
        enriched(b, meta, readings).collections == b.collections + meta.metas.filter(
            |m: EntryView| m.property == "belongs-to-collection"@ && text::trimmed(m.text).len() > 0,
        ).map_values(|m: EntryView| text::trimmed(m.text)),
{
    lemma_all_values_filtered(meta.metas, "se:subject"@);
    lemma_all_values_filtered(meta.metas, "belongs-to-collection"@);
}

proof fn lemma_all_values_filtered(metas: Seq<EntryView>, property: Seq<char>)
    ensures
        all_values(metas, property) == metas.filter(
            |m: EntryView| m.property == property && text::trimmed(m.text).len() > 0,
        ).map_values(|m: EntryView| text::trimmed(m.text)),
    decreases metas.len(),
{
    reveal(Seq::filter);
    let p = |m: EntryView| m.property == property && text::trimmed(m.text).len() > 0;
    let f = |m: EntryView| text::trimmed(m.text);
    if metas.len() > 0 {
        lemma_all_values_filtered(metas.drop_last(), property);
        let init = metas.drop_last().filter(p);
        assert(init.push(metas.last()).map_values(f) =~= init.map_values(f).push(f(metas.last())));
        assert(all_values(metas, property) =~= metas.filter(p).map_values(f));
    } else {
        assert(all_values(metas, property) =~= metas.filter(p).map_values(f));
    }
}

/// The entry refines what has the given identifier: it names it, with or without `#` ahead
/// of it.
pub open spec fn points_to(m: EntryView, id: Seq<char>) -> bool {
    &&& id.len() > 0
    &&& id[0] != '#'
    &&& exists|k: int|
        {
            &&& 0 <= k <= m.refines.len()
            &&& #[trigger] m.refines.skip(k) == id
            &&& forall|i: int| 0 <= i < k ==> #[trigger] m.refines[i] == '#'
        }
}

/// Some entry declares the collection with the given identifier a series.
pub open spec fn is_declared(metas: Seq<EntryView>, id: Seq<char>) -> bool {
    exists|j: int|
        0 <= j < metas.len() && points_to(#[trigger] metas[j], id) && metas[j].property
            == "collection-type"@ && text::trimmed(metas[j].text) == "series"@
}

proof fn lemma_points_to(m: EntryView, id: Seq<char>)
    requires
        id.len() > 0,
    ensures
        refers_to(m, id) <==> points_to(m, id),
{
    lemma_hashes(m.refines);
    if refers_to(m, id) {
        let k = m.refines.len() - id.len();
        assert(m.refines.skip(k) =~= id);
    }
    if points_to(m, id) {
        let k = choose|k: int|
            {
                &&& 0 <= k <= m.refines.len()
                &&& #[trigger] m.refines.skip(k) == id
                &&& forall|i: int| 0 <= i < k ==> #[trigger] m.refines[i] == '#'
            };
        text::law_one_character_is_stripped(id, '#', k as nat);
        assert(m.refines =~= Seq::new(k as nat, |i: int| '#') + id);
        assert(m.refines.len() > 0);
    }
}

proof fn lemma_hashes(s: Seq<char>)
    ensures
        ({
            let rest = text::skip_while(s, text::only('#'));
            &&& rest.len() <= s.len()
            &&& rest.len() > 0 ==> rest[0] != '#'
            &&& s == Seq::new((s.len() - rest.len()) as nat, |i: int| '#') + rest
        }),
    decreases s.len(),
{
    let rest = text::skip_while(s, text::only('#'));
    if s.len() > 0 && s[0] == '#' {
        lemma_hashes(s.drop_first());
        let n = (s.len() - rest.len()) as nat;
        let run = Seq::new((s.len() - 1 - rest.len()) as nat, |i: int| '#');
        assert(s =~= seq!['#'] + s.drop_first());
        assert(Seq::new(n, |i: int| '#') + rest =~= seq!['#'] + (run + rest));
    } else {
        assert(s =~= Seq::new(0nat, |i: int| '#') + s);
    }
}

proof fn lemma_declared(metas: Seq<EntryView>, id: Seq<char>)
    requires
        id.len() > 0,
    ensures
        is_series(metas, id) <==> is_declared(metas, id),
{
    if is_series(metas, id) {
        let j = choose|j: int| 0 <= j < metas.len() && declares_series(#[trigger] metas[j], id);
        lemma_points_to(metas[j], id);
        assert(points_to(metas[j], id));
    }
    if is_declared(metas, id) {
        let j = choose|j: int|
            0 <= j < metas.len() && points_to(#[trigger] metas[j], id) && metas[j].property
                == "collection-type"@ && text::trimmed(metas[j].text) == "series"@;
        lemma_points_to(metas[j], id);
        assert(declares_series(metas[j], id));
    }
}

/// The entry names a collection that the book belongs to and that some entry declares a
/// series.
pub open spec fn names_series(m: EntryView, metas: Seq<EntryView>) -> bool {
    &&& m.property == "belongs-to-collection"@
    &&& text::trimmed(m.text).len() > 0
    &&& is_declared(metas, m.id)
}

proof fn lemma_names_series(m: EntryView, metas: Seq<EntryView>)
    ensures
        tells_series(m, metas) <==> names_series(m, metas),
{
    if m.id.len() > 0 {
        lemma_declared(metas, m.id);
    }
}

/// A book without a series gets the first collection that is declared one, under the name
/// that the collection has. A book that has a series keeps it, and so does one whose
/// document declares none.
pub proof fn law_first_series_is_taken(
    b: BookView,
    meta: OpfView,
    readings: Seq<Option<u64>>,
    before: Seq<EntryView>,
    m: EntryView,
    after: Seq<EntryView>,
)
    requires
        meta.metas == before + seq![m] + after,
        forall|k: int|
            0 <= k < before.len() ==> !names_series(#[trigger] before[k], meta.metas),
    ensures
        b.series.len() == 0 && names_series(m, meta.metas) ==> enriched(b, meta, readings).series
            == text::trimmed(m.text),
        b.series.len() > 0 ==> enriched(b, meta, readings).series == b.series && enriched(
            b,
            meta,
            readings,
        ).series_position == b.series_position,
        (forall|k: int|
            0 <= k < meta.metas.len() ==> !names_series(#[trigger] meta.metas[k], meta.metas))
            ==> enriched(b, meta, readings).series == b.series && enriched(
            b,
            meta,
            readings,
        ).series_position == b.series_position,
{
    let all = meta.metas;
    lemma_names_series(m, all);
    assert forall|k: int| 0 <= k < before.len() implies !tells_series(#[trigger] before[k], all) by {
        lemma_names_series(before[k], all);
    }
    if tells_series(m, all) {
        lemma_first_series_is(before, m, after, all);
    }
    if forall|k: int| 0 <= k < all.len() ==> !names_series(#[trigger] all[k], all) {
        assert forall|k: int| 0 <= k < all.len() implies !tells_series(#[trigger] all[k], all) by {
            lemma_names_series(all[k], all);
        }
        lemma_no_series(all, all);
    }
}

/// The entry gives a position in the collection with the given identifier.
pub open spec fn gives_position(m: EntryView, id: Seq<char>) -> bool {
    &&& points_to(m, id)
    &&& m.property == "group-position"@
    &&& text::number_of(text::trimmed(m.text)) is Some
}

/// The position in a series that is taken is the last that some entry gives for it,
/// wherever in the document the entry stands; zero where none does.
pub proof fn law_last_position_is_taken(
    b: BookView,
    meta: OpfView,
    readings: Seq<Option<u64>>,
    before: Seq<EntryView>,
    m: EntryView,
    after: Seq<EntryView>,
    i: int,
)
    requires
        b.series.len() == 0,
        meta.metas == before + seq![m] + after,
        names_series(m, meta.metas),
        forall|k: int|
            0 <= k < before.len() ==> !names_series(#[trigger] before[k], meta.metas),
        0 <= i < meta.metas.len(),
        forall|k: int|
            i < k < meta.metas.len() ==> !gives_position(#[trigger] meta.metas[k], m.id),
    ensures
        gives_position(meta.metas[i], m.id) ==> text::number_of(text::trimmed(meta.metas[i].text))
            == Some(enriched(b, meta, readings).series_position as int),
        (forall|k: int|
            0 <= k < meta.metas.len() ==> !gives_position(#[trigger] meta.metas[k], m.id))
            ==> enriched(b, meta, readings).series_position == 0,
{
    let all = meta.metas;
    lemma_names_series(m, all);
    assert forall|k: int| 0 <= k < before.len() implies !tells_series(#[trigger] before[k], all) by {
        lemma_names_series(before[k], all);
    }
    lemma_first_series_is(before, m, after, all);
    lemma_position_is(all, m.id, i, all.len() as int);
    assert(all.take(all.len() as int) =~= all);
}

proof fn lemma_position_is(metas: Seq<EntryView>, id: Seq<char>, i: int, n: int)
    requires
        id.len() > 0,
        0 <= i < metas.len(),
        0 <= n <= metas.len(),
        forall|k: int| i < k < metas.len() ==> !gives_position(#[trigger] metas[k], id),
    ensures
        n > i && gives_position(metas[i], id) ==> text::number_of(text::trimmed(metas[i].text))
            == Some(position_in(metas.take(n), id) as int),
        (forall|k: int| 0 <= k < metas.len() ==> !gives_position(#[trigger] metas[k], id))
            ==> position_in(metas.take(n), id) == 0,
    decreases n,
{
    if n > 0 {
        let m = metas[n - 1];
        lemma_position_is(metas, id, i, n - 1);
        lemma_points_to(m, id);
        lemma_number_in_range(value(m));
        assert(metas.take(n).drop_last() =~= metas.take(n - 1));
        assert(metas.take(n).last() == m);
    }
}

proof fn lemma_first_series_is(
    before: Seq<EntryView>,
    m: EntryView,
    after: Seq<EntryView>,
    all: Seq<EntryView>,
)
    requires
        tells_series(m, all),
        forall|k: int| 0 <= k < before.len() ==> !tells_series(#[trigger] before[k], all),
    ensures
        first_series(before + seq![m] + after, all) == Some((value(m), position_in(all, m.id))),
    decreases after.len(),
{
    let whole = before + seq![m] + after;
    if after.len() == 0 {
        assert(whole.drop_last() =~= before);
        assert(whole.last() == m);
        lemma_no_series(before, all);
    } else {
        assert(whole.drop_last() =~= before + seq![m] + after.drop_last());
        lemma_first_series_is(before, m, after.drop_last(), all);
    }
}

proof fn lemma_no_series(metas: Seq<EntryView>, all: Seq<EntryView>)
    requires
        forall|k: int| 0 <= k < metas.len() ==> !tells_series(#[trigger] metas[k], all),
    ensures
        first_series(metas, all) is None,
    decreases metas.len(),
{
    if metas.len() > 0 {
        let init = metas.drop_last();
        assert(forall|k: int| 0 <= k < init.len() ==> #[trigger] init[k] == metas[k]);
        lemma_no_series(init, all);
        assert(metas.last() == metas[metas.len() - 1]);
    }
}

/// A book with words takes an hour for each fifteen thousand of them and a minute for each
/// further two hundred and fifty; what is left below a minute does not count. Hours are
/// told only where there are any. A book without words keeps its reading time.
pub proof fn law_reading_time(
    b: BookView,
    meta: OpfView,
    readings: Seq<Option<u64>>,
    hours: nat,
    minutes: nat,
    rest: nat,
)
    requires
        minutes < 60,
        rest < 250,
    ensures
        ({
            let e = enriched(b, meta, readings);
            &&& e.word_count > 0 && e.word_count == 15000 * hours + 250 * minutes + rest && hours
                > 0 ==> e.reading_time == text::decimal_of(hours) + "h "@ + text::decimal_of(
                minutes,
            ) + "m"@
            &&& e.word_count > 0 && e.word_count == 250 * minutes + rest ==> e.reading_time
                == text::decimal_of(minutes) + "m"@
            &&& e.word_count <= 0 ==> e.reading_time == b.reading_time
        }),
{
}

/// Whatever became of a run, a package document was fetched only for books that have a
/// repository name and no word count; a book that has neither fails once it is taken up.
pub proof fn law_only_named_books_are_fetched(run: EnrichRun, i: int)
    requires
        run.wf(),
        0 <= i < run@.start.len(),
    ensures
        run@.run.stages[i] == Stage::Running || run@.run.stages[i] == Stage::Done
            || run@.run.stages[i] == Stage::Abandoned ==> run@.start[i].word_count <= 0
            && run@.start[i].name().len() > 0,
        run@.run.stages[i] == Stage::Skipped ==> run@.start[i].word_count > 0,
        run@.run.stages[i] != Stage::Waiting && run@.start[i].word_count <= 0
            && run@.start[i].name().len() == 0 ==> run@.run.stages[i] == Stage::Failed,
{
}

} // verus!
