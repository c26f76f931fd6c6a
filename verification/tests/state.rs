use ebook_manager::books::Book;
use ebook_manager::runs::{JobRun, Progress, Run, Stage};
use ebook_manager::state::{
    busy_message, epub_candidates, first_found, passes_throttle, AppState, BooksResponse,
};
use ebook_manager::store::{BookStore, Found};
use std::path::PathBuf;

fn book(title: &str, repo: &str) -> Book {
    Book { title: title.to_string(), repo_name: repo.to_string(), ..Book::default() }
}

fn state_of(n: usize) -> AppState {
    let mut store = BookStore::new(PathBuf::from("j"), PathBuf::from("e"), PathBuf::from("c"));
    store.set_books((0..n).map(|i| book(&format!("t{i}"), &format!("r{i}"))).collect());
    AppState::new(store)
}

fn titles(r: &BooksResponse) -> Vec<String> {
    r.books.iter().map(|b| b.book.title.clone()).collect()
}

#[test]
fn one_operation_runs_at_a_time() {
    let mut s = state_of(0);
    assert_eq!(s.current_op(), None);
    assert!(s.start_op("sync"));
    assert!(!s.start_op("enrich"));
    assert_eq!(s.current_op(), Some("sync".to_string()));
    assert_eq!(busy_message(&s.current_op()), "operation Some(\"sync\") already running");
    s.finish_op();
    assert_eq!(s.current_op(), None);
    assert!(s.start_op("enrich"));
    assert_eq!(s.current_op(), Some("enrich".to_string()));
}

#[test]
fn a_busy_message_without_operation_says_so() {
    assert_eq!(busy_message(&None), "operation None already running");
    assert_eq!(
        busy_message(&Some("a\"b\n".to_string())),
        "operation Some(\"a\\\"b\\n\") already running"
    );
}

#[test]
fn a_wish_to_cancel_ends_with_its_operation() {
    let mut s = state_of(0);
    let r = s.cancel_operation();
    assert_eq!((r.status.as_str(), r.operation), ("nothing running", None));
    assert!(!s.is_cancelled());
    assert!(s.start_op("download"));
    let r = s.cancel_operation();
    assert_eq!((r.status.as_str(), r.operation), ("cancelling", Some("download".to_string())));
    assert!(s.is_cancelled());
    s.finish_op();
    assert!(s.is_cancelled());
    assert!(s.start_op("sync"));
    assert!(!s.is_cancelled());
}

#[test]
fn a_refused_start_changes_nothing() {
    let mut s = state_of(0);
    assert!(s.start_op("covers"));
    s.cancel_operation();
    assert!(!s.start_op("sync"));
    assert!(s.is_cancelled());
    assert_eq!(s.current_op(), Some("covers".to_string()));
}

#[test]
fn books_come_by_the_page() {
    let s = state_of(5);
    let r = s.get_books(2, 2);
    assert_eq!(titles(&r), vec!["t2", "t3"]);
    assert_eq!((r.total, r.page, r.per_page, r.pages), (5, 2, 2, 3));
    assert_eq!(titles(&s.get_books(3, 2)), vec!["t4"]);
    assert!(titles(&s.get_books(4, 2)).is_empty());
    assert_eq!(s.get_books(1, 5).pages, 1);
    assert_eq!(state_of(0).get_books(1, 5).pages, 0);
}

#[test]
fn a_page_has_fifty_books_unless_told_otherwise() {
    let s = state_of(120);
    let r = s.get_books(0, 0);
    assert_eq!(r.books.len(), 50);
    assert_eq!((r.total, r.page, r.per_page, r.pages), (120, 1, 50, 3));
    assert_eq!(titles(&s.get_books(3, 0)).len(), 20);
    assert_eq!(s.get_books(1, usize::MAX).books.len(), 120);
    assert_eq!(s.get_books(2, usize::MAX).books.len(), 0);
    assert_eq!(s.get_books(1, usize::MAX).pages, 1);
    assert_eq!(s.get_books(usize::MAX, 1).books.len(), 0);
}

#[test]
fn the_pages_make_up_the_list() {
    for n in 0..=20 {
        let s = state_of(n);
        let all: Vec<String> = s.store().all().into_iter().map(|b| b.title).collect();
        for per_page in 1..=8 {
            let pages = s.get_books(1, per_page).pages;
            let mut together = Vec::new();
            for page in 1..=pages {
                together.extend(titles(&s.get_books(page, per_page)));
            }
            assert_eq!(together, all);
            assert!(s.get_books(pages + 1, per_page).books.is_empty());
            assert_eq!(pages, n.div_ceil(per_page));
        }
    }
}

#[test]
fn answers_tell_what_is_downloaded() {
    let mut s = state_of(3);
    let nothing = Found { organized: false, flat: false };
    s.store_mut().refresh_download_status(&vec![
        nothing,
        Found { organized: true, flat: false },
        nothing,
    ]);
    let r = s.get_books(1, 10);
    let flags: Vec<bool> = r.books.iter().map(|b| b.downloaded).collect();
    assert_eq!(flags, vec![false, true, false]);
    let r = s.search_books("T1");
    assert_eq!(r.total, 1);
    assert!(r.books[0].downloaded);
    assert_eq!(s.search_books("").total, 0);
    assert_eq!(s.search_books("t").total, 3);
    assert!(s.start_op("sync"));
    let stats = s.get_stats();
    assert_eq!(
        (stats.total, stats.downloaded, stats.operation),
        (3, 1, Some("sync".to_string()))
    );
}

#[test]
fn an_epub_is_looked_for_in_both_places() {
    let mut first = book("Emma", "r");
    first.author = "Austen".to_string();
    let list = vec![first, book("x", "other"), book("Two", "r")];
    assert_eq!(
        epub_candidates(&list, "r"),
        vec![
            vec!["Uncategorized", "Austen", "Emma_Austen (Standard Ebooks).epub"],
            vec!["Uncategorized", "Unknown", "Two_Unknown (Standard Ebooks).epub"],
            vec!["r.epub"],
        ]
    );
    assert_eq!(epub_candidates(&vec![book("n", "")], ""), vec![vec![".epub"]]);
    assert_eq!(first_found(&vec![false, true, true]), Ok(1));
    assert_eq!(first_found(&vec![false, false]), Err("epub not found".to_string()));
}

#[test]
fn some_reports_are_held_back() {
    let passed: Vec<usize> = (1..=12).filter(|c| passes_throttle(*c, 12)).collect();
    assert_eq!(passed, vec![5, 10, 12]);
}

#[test]
fn a_complete_run_counts_every_job() {
    let mut run = Run::new(4);
    for _ in 0..4 {
        assert!(run.take_next(false).is_some());
    }
    assert_eq!(run.take_next(false), None);
    run.settle(2, Stage::Done);
    run.settle(0, Stage::Skipped);
    run.settle(3, Stage::Failed);
    run.settle(1, Stage::Done);
    assert_eq!((run.done(), run.skipped(), run.failed()), (2, 1, 1));
    assert_eq!(run.done() + run.skipped() + run.failed(), run.total());
}

#[test]
fn a_cancelled_run_counts_no_job_twice() {
    let mut run = JobRun::new(vec!["a".to_string(), "b".to_string(), "c".to_string()]);
    assert_eq!(run.start(false), Some(0));
    assert_eq!(run.start(false), Some(1));
    assert_eq!(run.start(true), None);
    run.abandon(0);
    assert_eq!(
        run.report_error(1, "x"),
        Progress { current: 2, total: 3, title: "b".to_string(), status: "error: x".to_string() }
    );
    assert_eq!((run.done(), run.skipped(), run.failed(), run.total()), (0, 0, 1, 3));
}
