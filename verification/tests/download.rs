use ebook_manager::books::Book;
use ebook_manager::download::{
    check_checkout, clone_url, download_result, download_run, find_book, missing_metadata,
    single_destination, single_to_complete, Checkout, Completion, DownloadResult,
};
use ebook_manager::opf::{MetaEntry, OpfMeta};
use ebook_manager::plan::{plan_work, JobOutcome, Turn};
use ebook_manager::runs::Progress;
use ebook_manager::store::Found;

fn book(title: &str, repo: &str, category: &str) -> Book {
    let categories =
        if category.is_empty() { vec![] } else { vec![category.to_string()] };
    Book { title: title.to_string(), repo_name: repo.to_string(), categories, ..Book::default() }
}

fn category(name: &str) -> OpfMeta {
    OpfMeta {
        description: String::new(),
        language: String::new(),
        date: String::new(),
        subjects: vec![],
        sources: vec![],
        metas: vec![MetaEntry {
            id: String::new(),
            property: "se:subject".to_string(),
            refines: String::new(),
            text: name.to_string(),
        }],
    }
}

#[test]
fn books_without_category_are_completed() {
    assert_eq!(missing_metadata(&book("a", "r", "")), Some("r".to_string()));
    assert_eq!(missing_metadata(&book("a", "r", "Fiction")), None);
    assert_eq!(missing_metadata(&book("a", "", "")), None);
}

#[test]
fn a_pass_asks_for_each_lacking_book_once() {
    let mut pass = Completion::new(vec![
        book("a", "r0", "Fiction"),
        book("b", "r1", ""),
        book("c", "", ""),
        book("d", "r3", ""),
    ]);
    assert_eq!(pass.step(false), Some((1, "r1".to_string())));
    pass.settle(1, Some((category("Poetry"), vec![None])));
    assert_eq!(pass.step(false), Some((3, "r3".to_string())));
    pass.settle(3, None);
    assert_eq!(pass.step(false), None);
    let (list, asked) = pass.finish();
    assert!(asked);
    assert_eq!(list[1].categories, vec!["Poetry"]);
    assert!(list[3].categories.is_empty());
    assert_eq!(list[0].categories, vec!["Fiction"]);
}

#[test]
fn a_cancelled_pass_asks_for_nothing() {
    let mut pass = Completion::new(vec![book("a", "r0", "")]);
    assert_eq!(pass.step(true), None);
    assert!(!pass.finish().1);
    let mut pass = Completion::new(vec![book("a", "r0", "Fiction")]);
    assert_eq!(pass.step(false), None);
    assert!(!pass.finish().1);
}

#[test]
fn epubs_that_are_there_are_skipped() {
    let list = vec![
        book("a", "r0", ""),
        book("b", "r1", ""),
        book("c", "r2", ""),
        book("d", "", ""),
        book("e", "r4", ""),
    ];
    let nothing = Found { organized: false, flat: false };
    let found = vec![
        Found { organized: true, flat: false },
        Found { organized: false, flat: true },
        nothing,
        nothing,
        nothing,
    ];
    let mut run = download_run(&list, &found, 3);
    assert_eq!(run.start(false), Turn::Job(0));
    assert_eq!(run.job(0), list[2]);
    assert_eq!(run.start(false), Turn::Job(1));
    assert_eq!(
        run.settle(0, JobOutcome::Done),
        Some(Progress { current: 1, total: 2, title: "c".to_string(), status: "downloaded".to_string() })
    );
    assert_eq!(
        run.settle(1, JobOutcome::Failed("clone failed: x".to_string())),
        Some(Progress {
            current: 2,
            total: 2,
            title: "e".to_string(),
            status: "error: clone failed: x".to_string()
        })
    );
    assert_eq!(run.start(false), Turn::Over);
    assert_eq!(download_result(&run), DownloadResult { succeeded: 1, skipped: 2, failed: 1 });
}

#[test]
fn every_book_is_planned_for() {
    let list = vec![book("a", "r0", ""), book("b", "", ""), book("c", "r2", ""), book("d", "r3", "")];
    let (jobs, there) = plan_work(&list, &vec![false, true, true, false]);
    assert_eq!(jobs, vec![list[0].clone(), list[3].clone()]);
    assert_eq!(there, 1);
    assert_eq!(jobs.len() + there + 1, list.len());
}

#[test]
fn a_single_book_is_found_by_its_repository() {
    let list = vec![book("a", "r0", "Fiction"), book("b", "r1", ""), book("c", "r1", "Poetry")];
    assert_eq!(find_book(&list, "r1"), Some(1));
    assert_eq!(find_book(&list, "r2"), None);
    assert_eq!(single_to_complete(&list, "r1"), Some(1));
    assert_eq!(single_to_complete(&list, "r0"), None);
    assert_eq!(single_to_complete(&list, "r2"), None);
}

#[test]
fn completing_a_book_keeps_it_in_its_place() {
    let list = vec![book("a", "r0", ""), book("b", "r1", "")];
    let mut pass = Completion::new(list.clone());
    pass.settle(1, Some((category("Poetry"), vec![None])));
    let (after, _) = pass.finish();
    assert_eq!(find_book(&after, "r1"), find_book(&list, "r1"));
    assert_eq!(find_book(&after, "r0"), find_book(&list, "r0"));
}

#[test]
fn a_single_book_goes_where_all_go() {
    let mut b = book("Emma", "jane-austen_emma", "Fiction");
    b.author = "Jane Austen".to_string();
    let list = vec![b, book("nameless", "", "")];
    assert_eq!(
        single_destination(&list, "jane-austen_emma").unwrap(),
        vec!["Fiction", "Jane Austen", "Emma_Jane Austen (Standard Ebooks).epub"]
    );
    assert_eq!(single_destination(&list, "other").unwrap(), vec!["Uncategorized", "other.epub"]);
    assert_eq!(single_destination(&list, ""), None);
}

#[test]
fn a_checkout_must_hold_an_epub() {
    assert_eq!(
        check_checkout("r", Checkout::NotRun("no git".to_string())),
        Err("git clone spawn: no git".to_string())
    );
    assert_eq!(
        check_checkout("r", Checkout::Refused("fatal".to_string())),
        Err("clone failed: fatal".to_string())
    );
    assert_eq!(
        check_checkout("r", Checkout::Cloned { has_src: false, has_mimetype: false }),
        Err("no src/ directory in r".to_string())
    );
    assert_eq!(
        check_checkout("r", Checkout::Cloned { has_src: true, has_mimetype: false }),
        Err("no mimetype file in r/src/".to_string())
    );
    assert_eq!(check_checkout("r", Checkout::Cloned { has_src: true, has_mimetype: true }), Ok(()));
}

#[test]
fn repositories_are_cloned_from_the_organization() {
    assert_eq!(
        clone_url("jane-austen_emma"),
        "https://github.com/standardebooks/jane-austen_emma.git"
    );
}

#[test]
fn no_more_books_are_built_at_once_than_may_be() {
    let list: Vec<Book> = (0..7).map(|i| book("t", &format!("r{i}"), "")).collect();
    let found: Vec<Found> = (0..7).map(|i| Found { organized: i == 2, flat: i == 5 }).collect();
    let mut run = download_run(&list, &found, 3);
    for i in 0..3 {
        assert_eq!(run.start(false), Turn::Job(i));
    }
    assert_eq!(run.job(2).repo_name, "r3");
    assert_eq!(run.start(false), Turn::Full);
    assert_eq!(run.start(true), Turn::Over);
    run.settle(1, JobOutcome::Done);
    assert_eq!(run.start(false), Turn::Job(3));
    assert_eq!(run.start(false), Turn::Full);
    for i in [3, 0, 2] {
        run.settle(i, JobOutcome::Failed("e".to_string()));
    }
    assert_eq!(run.start(false), Turn::Job(4));
    assert_eq!(run.job(4).repo_name, "r6");
    run.settle(4, JobOutcome::Done);
    assert_eq!(run.start(false), Turn::Over);
    assert_eq!(download_result(&run), DownloadResult { succeeded: 2, skipped: 2, failed: 3 });
}
