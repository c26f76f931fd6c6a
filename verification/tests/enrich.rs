use ebook_manager::books::Book;
use ebook_manager::enrich::{
    apply_metadata, opf_from_response, opf_url, reading_time, EnrichResult, EnrichRun, EnrichStep,
    Outcome,
};
use ebook_manager::opf::{parse_opf_nodes, parse_opf_xml, MetaEntry, OpfMeta, XmlNode};
use ebook_manager::runs::Progress;

const PACKAGE: &str = r##"<?xml version="1.0" encoding="utf-8"?>
<package xmlns="http://www.idpf.org/2007/opf" xmlns:dc="http://purl.org/dc/elements/1.1/">
  <metadata>
    <dc:description> A novel. </dc:description>
    <dc:description>Second</dc:description>
    <dc:language>en-GB</dc:language>
    <dc:date>   </dc:date>
    <dc:date>2015-01-01T00:00:00Z</dc:date>
    <dc:subject>Detective stories</dc:subject>
    <dc:subject></dc:subject>
    <dc:subject>England &amp; Wales</dc:subject>
    <dc:source>https://example.org/1</dc:source>
    <!-- note -->
    <meta property="se:long-description">Long.</meta>
    <meta property="se:word-count">56000</meta>
    <meta property="se:word-count">many</meta>
    <meta property="se:reading-ease.flesch">81.5</meta>
    <meta property="se:url.encyclopedia.wikipedia" refines="#author">https://wiki/author</meta>
    <meta property="se:url.encyclopedia.wikipedia">https://wiki/book</meta>
    <meta property="se:subject">Fiction</meta>
    <meta property="se:subject">Mystery</meta>
    <meta id="collection-1" property="belongs-to-collection">Best Books</meta>
    <meta property="collection-type" refines="#collection-1">set</meta>
    <meta id="collection-2" property="belongs-to-collection">Poirot</meta>
    <meta property="collection-type" refines="#collection-2">series</meta>
    <meta property="group-position" refines="#collection-2">1</meta>
    <meta name="old" content="x"/>
    <meta property="">none</meta>
  </metadata>
  <manifest><meta property="se:subject">Elsewhere</meta></manifest>
</package>"##;

fn readings(meta: &OpfMeta) -> Vec<Option<u64>> {
    meta.metas.iter().map(|m| m.text.trim().parse::<f64>().ok().map(f64::to_bits)).collect()
}

fn entry(id: &str, property: &str, refines: &str, text: &str) -> MetaEntry {
    MetaEntry {
        id: id.to_string(),
        property: property.to_string(),
        refines: refines.to_string(),
        text: text.to_string(),
    }
}

fn only_entries(metas: Vec<MetaEntry>) -> OpfMeta {
    OpfMeta {
        description: String::new(),
        language: String::new(),
        date: String::new(),
        subjects: vec![],
        sources: vec![],
        metas,
    }
}

fn enriched(b: &Book, meta: &OpfMeta) -> Book {
    let mut b = b.clone();
    apply_metadata(&mut b, meta, &readings(meta));
    b
}

#[test]
fn a_package_document_is_read() {
    let meta = parse_opf_xml(PACKAGE).unwrap();
    assert_eq!(meta.description, "A novel.");
    assert_eq!(meta.language, "en-GB");
    assert_eq!(meta.date, "2015-01-01T00:00:00Z");
    assert_eq!(meta.subjects, vec!["Detective stories", "England & Wales"]);
    assert_eq!(meta.sources, vec!["https://example.org/1"]);
    assert_eq!(meta.metas.len(), 13);
    assert_eq!(meta.metas[12].property, "group-position");
    assert_eq!(meta.metas[12].refines, "#collection-2");
    assert_eq!(meta.metas[12].text, "1");
    assert_eq!(meta.metas[10].id, "collection-2");
}

#[test]
fn a_document_without_metadata_is_refused() {
    assert_eq!(parse_opf_xml("<package/>").unwrap_err(), "no metadata element");
    assert_eq!(parse_opf_nodes(&vec![]).unwrap_err(), "no metadata element");
}

#[test]
fn what_is_not_xml_is_refused() {
    let m = parse_opf_xml("<package>").unwrap_err();
    assert!(m.starts_with("XML parse: "), "{m}");
    assert!(m.len() > "XML parse: ".len());
}

#[test]
fn only_children_of_the_first_metadata_element_count() {
    let node = |parent: Option<usize>, tag: &str, text: Option<&str>| XmlNode {
        parent,
        element: !tag.is_empty(),
        tag: tag.to_string(),
        text: text.map(|t| t.to_string()),
        attributes: vec![],
    };
    let nodes = vec![
        node(None, "", None),
        node(Some(0), "metadata", None),
        node(Some(1), "language", Some(" en ")),
        node(Some(2), "", Some("en")),
        node(Some(1), "group", None),
        node(Some(4), "date", Some("inner")),
        node(Some(0), "metadata", None),
        node(Some(6), "date", Some("later")),
    ];
    let meta = parse_opf_nodes(&nodes).unwrap();
    assert_eq!(meta.language, "en");
    assert_eq!(meta.date, "");
}

#[test]
fn metadata_is_taken_over() {
    let meta = parse_opf_xml(PACKAGE).unwrap();
    let start = Book { title: "Styles".to_string(), repo_name: "r".to_string(), ..Book::default() };
    let b = enriched(&start, &meta);
    assert_eq!(b.title, "Styles");
    assert_eq!(b.description, "A novel.");
    assert_eq!(b.language, "en-GB");
    assert_eq!(b.se_published, "2015-01-01T00:00:00Z");
    assert_eq!(b.long_description, "Long.");
    assert_eq!(b.word_count, 56000);
    assert_eq!(f64::from_bits(b.reading_ease), 81.5);
    assert_eq!(b.reading_time, "3h 44m");
    assert_eq!(b.wikipedia, "https://wiki/book");
    assert_eq!(b.categories, vec!["Fiction", "Mystery"]);
    assert_eq!(b.collections, vec!["Best Books", "Poirot"]);
    assert_eq!(b.series, "Poirot");
    assert_eq!(b.series_position, 1);
    assert_eq!(b.subjects, vec!["Detective stories", "England & Wales"]);
    assert_eq!(b.sources, vec!["https://example.org/1"]);
}

#[test]
fn what_the_document_leaves_out_is_kept() {
    let start = Book {
        description: "kept".to_string(),
        subjects: vec!["kept".to_string()],
        word_count: 250,
        ..Book::default()
    };
    let b = enriched(&start, &only_entries(vec![entry("", "se:word-count", "", "x")]));
    assert_eq!(b.description, "kept");
    assert_eq!(b.subjects, vec!["kept"]);
    assert_eq!(b.word_count, 250);
    assert_eq!(b.reading_time, "1m");
}

#[test]
fn the_last_number_that_reads_counts() {
    let meta = only_entries(vec![
        entry("", "se:word-count", "", "100"),
        entry("", "se:word-count", "", " +200 "),
        entry("", "se:word-count", "", "3e5"),
        entry("", "se:reading-ease.flesch", "", "12.25"),
        entry("", "se:reading-ease.flesch", "", "easy"),
    ]);
    let b = enriched(&Book::default(), &meta);
    assert_eq!(b.word_count, 200);
    assert_eq!(f64::from_bits(b.reading_ease), 12.25);
}

#[test]
fn the_first_series_wins_and_the_last_position_counts() {
    let meta = only_entries(vec![
        entry("a", "belongs-to-collection", "", "A"),
        entry("b", "belongs-to-collection", "", "B"),
        entry("", "collection-type", "##b", " series "),
        entry("", "group-position", "#b", "2"),
        entry("", "group-position", "b", "5"),
        entry("", "collection-type", "#c", "series"),
        entry("c", "belongs-to-collection", "", "C"),
    ]);
    let b = enriched(&Book::default(), &meta);
    assert_eq!(b.collections, vec!["A", "B", "C"]);
    assert_eq!(b.series, "B");
    assert_eq!(b.series_position, 5);
    let known = Book { series: "S".to_string(), series_position: 9, ..Book::default() };
    let b = enriched(&known, &meta);
    assert_eq!(b.series, "S");
    assert_eq!(b.series_position, 9);
}

#[test]
fn enriching_keeps_who_the_book_is() {
    let meta = parse_opf_xml(PACKAGE).unwrap();
    let start = Book {
        title: "t".to_string(),
        author: "a".to_string(),
        url: "u".to_string(),
        repo: "p".to_string(),
        repo_name: "r".to_string(),
        cover: "c".to_string(),
        epub: "e".to_string(),
        categories: vec!["First".to_string()],
        ..Book::default()
    };
    let b = enriched(&start, &meta);
    assert_eq!(
        (b.title, b.author, b.url, b.repo, b.repo_name, b.cover, b.epub),
        (start.title, start.author, start.url, start.repo, start.repo_name, start.cover, start.epub)
    );
    assert_eq!(b.categories, vec!["First", "Fiction", "Mystery"]);
}

#[test]
fn enriching_again_only_repeats_the_lists() {
    let meta = parse_opf_xml(PACKAGE).unwrap();
    let once = enriched(&Book::default(), &meta);
    let mut twice = enriched(&once, &meta);
    assert_eq!(twice.categories, vec!["Fiction", "Mystery", "Fiction", "Mystery"]);
    assert_eq!(twice.collections.len(), 4);
    twice.categories = once.categories.clone();
    twice.collections = once.collections.clone();
    assert_eq!(twice, once);
}

#[test]
fn reading_times_are_written_in_hours_and_minutes() {
    assert_eq!(reading_time(1), "0m");
    assert_eq!(reading_time(249), "0m");
    assert_eq!(reading_time(250), "1m");
    assert_eq!(reading_time(250 * 59), "59m");
    assert_eq!(reading_time(250 * 60), "1h 0m");
    assert_eq!(reading_time(587_287), "39h 9m");
    let minutes = i64::MAX / 250;
    assert_eq!(reading_time(i64::MAX), format!("{}h {}m", minutes / 60, minutes % 60));
}

#[test]
fn the_answer_to_a_request_is_read() {
    assert_eq!(
        opf_url("jane-austen_emma"),
        "https://raw.githubusercontent.com/standardebooks/jane-austen_emma/master/src/epub/content.opf"
    );
    assert_eq!(opf_from_response(false, "404 Not Found", PACKAGE).unwrap_err(), "HTTP 404 Not Found");
    assert_eq!(opf_from_response(true, "200 OK", PACKAGE).unwrap().language, "en-GB");
    assert_eq!(opf_from_response(true, "200 OK", "<a/>").unwrap_err(), "no metadata element");
}

fn progress(current: usize, total: usize, title: &str, status: &str) -> Progress {
    Progress { current, total, title: title.to_string(), status: status.to_string() }
}

fn listed(title: &str, repo: &str, words: i64) -> Book {
    Book {
        title: title.to_string(),
        repo_name: repo.to_string(),
        word_count: words,
        ..Book::default()
    }
}

fn expect_fetch(step: EnrichStep, at: usize, repo: &str) {
    match step {
        EnrichStep::Fetch(i, r) => {
            assert_eq!(i, at);
            assert_eq!(r, repo);
        }
        _ => panic!("a document is to be fetched"),
    }
}

fn expect_report(step: EnrichStep, p: Progress) {
    match step {
        EnrichStep::Report(q) => assert_eq!(q, p),
        _ => panic!("a book is to be reported"),
    }
}

#[test]
fn a_run_settles_every_book_once() {
    let start = vec![
        listed("done", "r0", 10),
        listed("nameless", "", 0),
        listed("good", "r2", 0),
        listed("bad", "r3", 0),
    ];
    let mut run = EnrichRun::new(start.clone(), 10);
    expect_report(run.step(false), progress(1, 4, "done", "skipped"));
    expect_report(run.step(false), progress(2, 4, "nameless", "no repo"));
    expect_fetch(run.step(false), 2, "r2");
    expect_fetch(run.step(false), 3, "r3");
    assert!(matches!(run.step(false), EnrichStep::Finished));
    assert_eq!(
        run.settle(3, Outcome::Failed("HTTP 500".to_string())),
        Some(progress(4, 4, "bad", "error: HTTP 500"))
    );
    let meta = parse_opf_xml(PACKAGE).unwrap();
    let numbers = readings(&meta);
    let mut good = start[2].clone();
    apply_metadata(&mut good, &meta, &numbers);
    assert_eq!(
        run.settle(2, Outcome::Fetched(meta, numbers)),
        Some(progress(3, 4, "good", "enriched"))
    );
    let (list, result) = run.finish();
    assert_eq!(result, EnrichResult { enriched: 1, skipped: 1, errors: 2 });
    assert_eq!(result.enriched + result.skipped + result.errors, list.len());
    assert_eq!(result.skipped, start.iter().filter(|b| b.word_count > 0).count());
    assert_eq!(good.word_count, 56000);
    assert_eq!(list, vec![start[0].clone(), start[1].clone(), good, start[3].clone()]);
}

#[test]
fn a_cancelled_run_stops() {
    let mut run = EnrichRun::new(vec![listed("a", "r0", 0), listed("b", "r1", 0)], 10);
    expect_fetch(run.step(false), 0, "r0");
    assert!(matches!(run.step(true), EnrichStep::Finished));
    assert_eq!(run.settle(0, Outcome::Cancelled), None);
    let (list, result) = run.finish();
    assert_eq!(result, EnrichResult { enriched: 0, skipped: 0, errors: 0 });
    assert_eq!(list.len(), 2);
}

#[test]
fn no_more_documents_are_fetched_at_once_than_may_be() {
    let list = vec![
        listed("a", "r0", 0),
        listed("b", "r1", 7),
        listed("c", "", 0),
        listed("d", "r3", 0),
    ];
    let mut run = EnrichRun::new(list, 1);
    expect_fetch(run.step(false), 0, "r0");
    // Books that need no document do not wait.
    expect_report(run.step(false), progress(2, 4, "b", "skipped"));
    expect_report(run.step(false), progress(3, 4, "c", "no repo"));
    assert!(matches!(run.step(false), EnrichStep::Full));
    assert!(matches!(run.step(true), EnrichStep::Finished));
    run.settle(0, Outcome::Failed("e".to_string()));
    expect_fetch(run.step(false), 3, "r3");
    assert!(matches!(run.step(false), EnrichStep::Finished));
}
