use ebook_manager::books::Book;
use ebook_manager::store::{flat_epub_name, matches_query, BookStore, BooksFile, Found};
use std::path::PathBuf;

const NOTHING: Found = Found { organized: false, flat: false };

fn book(title: &str, author: &str, repo: &str) -> Book {
    Book {
        title: title.to_string(),
        author: author.to_string(),
        repo_name: repo.to_string(),
        ..Book::default()
    }
}

fn empty_store() -> BookStore {
    BookStore::new(PathBuf::from("books.json"), PathBuf::from("epubs"), PathBuf::from("covers"))
}

fn titles(list: &[Book]) -> Vec<&str> {
    list.iter().map(|b| b.title.as_str()).collect()
}

#[test]
fn a_new_store_is_empty() {
    let s = empty_store();
    assert_eq!(s.count(), 0);
    assert_eq!(s.count_downloaded(), 0);
    assert!(s.all().is_empty());
    assert_eq!(s.json_path(), &PathBuf::from("books.json"));
    assert_eq!(s.epubs_dir, PathBuf::from("epubs"));
    assert_eq!(s.covers_dir, PathBuf::from("covers"));
}

#[test]
fn a_missing_file_changes_nothing() {
    let mut s = empty_store();
    s.set_books(vec![book("t", "a", "r")]);
    assert_eq!(s.load(BooksFile::Missing, &vec![]), Ok(()));
    assert_eq!(s.count(), 1);
}

#[test]
fn a_file_that_cannot_be_used_is_reported() {
    let mut s = empty_store();
    assert_eq!(
        s.load(BooksFile::Unreadable("denied".to_string()), &vec![]),
        Err("read books.json: denied".to_string())
    );
    assert_eq!(
        s.load(BooksFile::Malformed("EOF".to_string()), &vec![]),
        Err("parse books.json: EOF".to_string())
    );
    assert_eq!(s.count(), 0);
}

#[test]
fn loading_takes_over_books_and_downloads() {
    let mut s = empty_store();
    let list = vec![
        book("one", "a", "r1"),
        book("two", "b", "r2"),
        book("three", "c", "r3"),
        book("nameless", "d", ""),
        book("one again", "a", "r1"),
    ];
    let found = vec![
        Found { organized: true, flat: false },
        Found { organized: false, flat: true },
        NOTHING,
        Found { organized: true, flat: true },
        NOTHING,
    ];
    assert_eq!(s.load(BooksFile::Books(list), &found), Ok(()));
    assert_eq!(s.count(), 5);
    assert_eq!(s.count_downloaded(), 2);
    let all = s.all();
    assert!(s.is_downloaded(&all[0]));
    assert!(s.is_downloaded(&all[1]));
    assert!(!s.is_downloaded(&all[2]));
    assert!(!s.is_downloaded(&all[3]));
    assert!(s.is_downloaded(&all[4]));
}

#[test]
fn the_download_status_follows_the_disk() {
    let mut s = empty_store();
    s.set_books(vec![book("one", "a", "r1"), book("two", "b", "r2")]);
    assert_eq!(s.count_downloaded(), 0);
    s.refresh_download_status(&vec![NOTHING, Found { organized: true, flat: false }]);
    assert_eq!(s.count_downloaded(), 1);
    assert!(s.is_downloaded(&book("", "", "r2")));
    s.refresh_download_status(&vec![NOTHING, NOTHING]);
    assert_eq!(s.count_downloaded(), 0);
}

#[test]
fn replacing_the_books_keeps_the_download_status() {
    let mut s = empty_store();
    s.set_books(vec![book("one", "a", "r1")]);
    s.refresh_download_status(&vec![Found { organized: false, flat: true }]);
    s.set_books(vec![]);
    assert_eq!(s.count(), 0);
    assert_eq!(s.count_downloaded(), 1);
}

#[test]
fn search_looks_at_title_and_author_in_any_case() {
    let mut s = empty_store();
    s.set_books(vec![
        book("Emma", "Jane Austen", "r1"),
        book("Dubliners", "James Joyce", "r2"),
        book("Émile", "Jean-Jacques Rousseau", "r3"),
        book("JANE EYRE", "Charlotte Brontë", "r4"),
    ]);
    assert_eq!(titles(&s.search("jane")), vec!["Emma", "JANE EYRE"]);
    assert_eq!(titles(&s.search("JOYCE")), vec!["Dubliners"]);
    assert_eq!(titles(&s.search("émile")), vec!["Émile"]);
    assert_eq!(titles(&s.search("BRONTË")), vec!["JANE EYRE"]);
    assert_eq!(titles(&s.search("")).len(), 4);
    assert!(s.search("xyzzy").is_empty());
}

#[test]
fn a_query_is_held_against_both_texts() {
    assert!(matches_query("emma", "jane austen", "mm"));
    assert!(matches_query("emma", "jane austen", "aust"));
    assert!(!matches_query("emma", "jane austen", "emma jane"));
}

#[test]
fn an_epub_without_folders_is_named_by_its_repository() {
    assert_eq!(flat_epub_name("jane-austen_emma"), "jane-austen_emma.epub");
}
