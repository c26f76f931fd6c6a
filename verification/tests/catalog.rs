use ebook_manager::books::{repo_name, Book};
use ebook_manager::catalog::{
    book_from_repo, books_from_repos, catalog_refusal, found_message, merge_catalog, parse_description,
    slug_to_title, sync_catalog, sync_message, CatalogFetch, Repo, SyncSummary,
};
use ebook_manager::store::BookStore;
use std::path::PathBuf;

fn repo(name: &str, description: &str) -> Repo {
    Repo { name: name.to_string(), description: Some(description.to_string()) }
}

fn named(repo: &str, title: &str) -> Book {
    Book { repo_name: repo.to_string(), title: title.to_string(), ..Book::default() }
}

fn pair(a: &str, b: &str) -> (String, String) {
    (a.to_string(), b.to_string())
}

#[test]
fn descriptions_tell_title_and_author() {
    assert_eq!(
        parse_description("Epub source for the Standard Ebooks edition of Emma, by Jane Austen"),
        pair("Emma", "Jane Austen")
    );
    assert_eq!(
        parse_description("The Standard Ebooks edition of The Idiot, by Fyodor Dostoevsky. Translated by Eva Martin."),
        pair("The Idiot", "Fyodor Dostoevsky")
    );
    assert_eq!(
        parse_description("edition of A, by B. Edited by C. Illustrated by D"),
        pair("A", "B. Edited by C")
    );
    assert_eq!(parse_description("edition of A, by B. Edited by C"), pair("A", "B"));
    assert_eq!(parse_description("edition of A ,  by B"), pair("A ,  by B", ""));
    assert_eq!(parse_description("edition of Beowulf..."), pair("Beowulf", ""));
    assert_eq!(parse_description("edition of A, by B, by C.."), pair("A", "B, by C"));
    assert_eq!(parse_description("nothing of the kind"), pair("", ""));
    assert_eq!(parse_description("edition of "), pair("", ""));
    assert_eq!(parse_description("edition of é, by ü."), pair("é", "ü"));
}

#[test]
fn slugs_become_titles() {
    assert_eq!(slug_to_title("jane-austen"), "Jane Austen");
    assert_eq!(slug_to_title("a--b-"), "A  B ");
    assert_eq!(slug_to_title(""), "");
    assert_eq!(slug_to_title("émile-ßx"), "Émile SSx");
    assert_eq!(slug_to_title("20-000-leagues"), "20 000 Leagues");
}

#[test]
fn a_repository_becomes_a_book() {
    let b = book_from_repo("jane-austen_emma", "The Standard Ebooks edition of Emma, by Jane Austen");
    assert_eq!(b.title, "Emma");
    assert_eq!(b.author, "Jane Austen");
    assert_eq!(b.url, "https://standardebooks.org/ebooks/jane-austen/emma");
    assert_eq!(b.repo, "https://github.com/standardebooks/jane-austen_emma");
    assert_eq!(b.repo_name, "jane-austen_emma");
    assert_eq!(b.word_count, 0);
    assert_eq!(b.cover, "");
}

#[test]
fn the_name_of_the_repository_fills_in() {
    let b = book_from_repo("fyodor-dostoevsky_the-idiot_eva-martin", "Standard Ebooks edition");
    assert_eq!(b.author, "Fyodor Dostoevsky");
    assert_eq!(b.title, "The Idiot");
    let b = book_from_repo("manual", "Standard Ebooks edition");
    assert_eq!(b.author, "Manual");
    assert_eq!(b.title, "manual");
    let b = book_from_repo("x_", "Standard Ebooks edition");
    assert_eq!(b.title, "x_");
}

#[test]
fn the_catalog_holds_the_ebooks_in_order() {
    let repos = vec![
        repo("tools", "The toolset"),
        repo("a_b", "Standard Ebooks edition of B, by A"),
        Repo { name: "none".to_string(), description: None },
        repo("c_d", "Epub source for the Standard Ebooks edition of D, by C"),
    ];
    let list = books_from_repos(&repos);
    let names: Vec<&str> = list.iter().map(|b| b.repo_name.as_str()).collect();
    assert_eq!(names, vec!["a_b", "c_d"]);
    assert_eq!(list[1].title, "D");
}

#[test]
fn a_catalog_book_is_found_under_its_name() {
    let mut b = book_from_repo("jane-austen_emma", "Standard Ebooks edition of Emma, by Jane Austen");
    assert_eq!(repo_name(&b), "jane-austen_emma");
    b.repo_name = String::new();
    assert_eq!(repo_name(&b), "jane-austen_emma");
}

#[test]
fn pages_are_asked_for_until_one_is_empty() {
    let mut fetch = CatalogFetch::new();
    assert_eq!(
        fetch.url(),
        "https://api.github.com/orgs/standardebooks/repos?per_page=100&page=1"
    );
    assert_eq!((fetch.page(), fetch.next_page(false)), (1, Some(fetch.url())));
    let first = vec![repo("a_b", "Standard Ebooks edition of B, by A"), repo("x", "")];
    assert_eq!(fetch.receive(first), Some("Fetched 2 repos...".to_string()));
    assert_eq!(
        fetch.url(),
        "https://api.github.com/orgs/standardebooks/repos?per_page=100&page=2"
    );
    let second = vec![repo("c_d", "Standard Ebooks edition of D, by C")];
    assert_eq!(fetch.receive(second), Some("Fetched 3 repos...".to_string()));
    assert_eq!(fetch.receive(vec![]), None);
    let list = fetch.books();
    assert_eq!(list.len(), 2);
    assert_eq!(found_message(list.len()), "Found 2 books on GitHub.");
}

#[test]
fn a_cancelled_sync_asks_for_no_further_page() {
    let mut fetch = CatalogFetch::new();
    assert_eq!(fetch.next_page(true), None);
    fetch.receive(vec![repo("x", "")]);
    assert_eq!(fetch.page(), 2);
    assert_eq!(fetch.next_page(true), None);
    assert_eq!(
        fetch.next_page(false).unwrap(),
        "https://api.github.com/orgs/standardebooks/repos?per_page=100&page=2"
    );
}

#[test]
fn an_answer_without_success_is_no_page() {
    assert_eq!(catalog_refusal(true, "200 OK"), None);
    assert_eq!(catalog_refusal(false, "403 Forbidden").unwrap(), "GitHub API HTTP 403 Forbidden");
}

#[test]
fn merging_keeps_what_is_known() {
    let mut known = named("r1", "old title");
    known.word_count = 1000;
    let existing = vec![known.clone(), named("gone", "g"), named("", "nameless"), named("gone", "g2")];
    let fresh = vec![named("r2", "new"), named("r1", "new title")];
    let (merged, summary) = merge_catalog(&existing, &fresh);
    assert_eq!(merged, vec![named("r2", "new"), known]);
    assert_eq!(summary, SyncSummary { new: 1, removed: 1, total: 2 });
    assert_eq!(sync_message(&summary), "Sync complete: 1 new, 1 removed, 2 total");
}

#[test]
fn of_two_known_books_the_later_is_kept() {
    let existing = vec![named("r", "first"), named("r", "second")];
    let (merged, summary) = merge_catalog(&existing, &vec![named("r", "fresh")]);
    assert_eq!(merged, vec![named("r", "second")]);
    assert_eq!(summary, SyncSummary { new: 0, removed: 0, total: 1 });
}

#[test]
fn a_known_book_is_recognised_by_its_address() {
    let mut known = named("", "by address");
    known.url = "https://standardebooks.org/ebooks/a/b".to_string();
    let (merged, summary) = merge_catalog(&vec![known.clone()], &vec![named("a_b", "fresh")]);
    assert_eq!(merged, vec![known]);
    assert_eq!(summary, SyncSummary { new: 0, removed: 0, total: 1 });
}

#[test]
fn merging_again_brings_nothing_new() {
    let existing = vec![named("r1", "one"), named("r3", "three")];
    let fresh = vec![named("r1", "x"), named("r2", "y")];
    let (once, _) = merge_catalog(&existing, &fresh);
    let (twice, summary) = merge_catalog(&once, &fresh);
    assert_eq!(twice, once);
    assert_eq!(summary, SyncSummary { new: 0, removed: 0, total: 2 });
}

#[test]
fn the_counts_of_a_merge_agree() {
    let existing = vec![named("a", ""), named("b", ""), named("c", "")];
    let fresh = vec![named("b", ""), named("d", ""), named("e", ""), named("f", "")];
    let (merged, s) = merge_catalog(&existing, &fresh);
    assert_eq!(s.total, merged.len());
    assert_eq!(s.new, 3);
    assert_eq!(s.removed, 2);
    assert_eq!(existing.len() - s.removed + s.new, s.total);
}

#[test]
fn the_store_takes_over_the_merge() {
    let mut store =
        BookStore::new(PathBuf::from("j"), PathBuf::from("e"), PathBuf::from("c"));
    store.set_books(vec![named("r1", "kept")]);
    let existing = store.all();
    let summary = sync_catalog(&mut store, &existing, &vec![named("r1", "x"), named("r2", "y")]);
    assert_eq!(summary, SyncSummary { new: 1, removed: 0, total: 2 });
    assert_eq!(store.all(), vec![named("r1", "kept"), named("r2", "y")]);
}
