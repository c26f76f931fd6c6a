use ebook_manager::books::{epub_path, is_zero, is_zero_f64, repo_name, sanitize_path, titles_of, Book};
use ebook_manager::text;

fn book(title: &str, author: &str, repo: &str) -> Book {
    Book {
        title: title.to_string(),
        author: author.to_string(),
        repo_name: repo.to_string(),
        ..Book::default()
    }
}

fn parts(b: &Book) -> Vec<String> {
    epub_path(b).expect("the book has a repository")
}

/// The rule for file names, written with the standard library.
fn plain_sanitize(s: &str) -> String {
    let mut r = s
        .trim()
        .replace(['/', '\\'], "-")
        .replace(':', " -")
        .replace(['*', '?'], "")
        .replace('"', "'")
        .replace(['<', '>'], "")
        .replace('|', "-");
    while r.contains("  ") {
        r = r.replace("  ", " ");
    }
    r.trim_end_matches(['.', ' ']).to_string()
}

/// Texts over an alphabet, by counting.
fn words(alphabet: &[char], longest: u32) -> Vec<String> {
    let mut all = Vec::new();
    for len in 0..=longest {
        for code in 0..alphabet.len().pow(len) {
            let mut n = code;
            let mut w = String::new();
            for _ in 0..len {
                w.push(alphabet[n % alphabet.len()]);
                n /= alphabet.len();
            }
            all.push(w);
        }
    }
    all
}

#[test]
fn a_book_goes_to_category_and_author() {
    let mut b = book("Dubliners", "James Joyce", "james-joyce_dubliners");
    b.categories = vec!["Fiction".to_string(), "Shorts".to_string()];
    assert_eq!(
        parts(&b),
        vec!["Fiction", "James Joyce", "Dubliners_James Joyce (Standard Ebooks).epub"]
    );
}

#[test]
fn a_series_gets_a_folder_of_its_own() {
    let mut b = book("The Mysterious Affair at Styles", "Agatha Christie", "agatha-christie_styles");
    b.categories = vec!["Fiction".to_string()];
    b.series = "Poirot".to_string();
    assert_eq!(
        parts(&b),
        vec![
            "Fiction",
            "Agatha Christie",
            "Poirot",
            "The Mysterious Affair at Styles_Agatha Christie (Standard Ebooks).epub"
        ]
    );
}

#[test]
fn missing_parts_have_stand_ins() {
    let b = book("", "", "some_repo");
    assert_eq!(
        parts(&b),
        vec!["Uncategorized", "Unknown", "some_repo_Unknown (Standard Ebooks).epub"]
    );
}

#[test]
fn a_book_without_repository_has_no_path() {
    assert_eq!(epub_path(&book("Title", "Author", "")), None);
}

#[test]
fn the_repository_is_read_from_the_address() {
    let mut b = book("t", "a", "");
    b.url = "https://standardebooks.org/ebooks/jane-austen/emma//".to_string();
    assert_eq!(repo_name(&b), "jane-austen_emma");
    b.url = "https://standardebooks.org/jane-austen".to_string();
    assert_eq!(repo_name(&b), "");
    b.repo_name = "kept".to_string();
    assert_eq!(repo_name(&b), "kept");
    b.repo_name = String::new();
    b.url = "x/ebooks//ebooks/y".to_string();
    assert_eq!(repo_name(&b), "_ebooks_y");
}

#[test]
fn names_are_cleaned() {
    assert_eq!(sanitize_path("  Either/Or: A \"Fragment\" of Life?  "), "Either-Or - A 'Fragment' of Life");
    assert_eq!(sanitize_path("a\\b|c<d>e*f"), "a-b-cdef");
    assert_eq!(sanitize_path("Etc. . ."), "Etc");
    assert_eq!(sanitize_path("..."), "");
    assert_eq!(sanitize_path("a    b"), "a b");
    assert_eq!(sanitize_path(""), "");
}

#[test]
fn names_are_cleaned_as_by_replacing() {
    for w in words(&['a', ' ', '.', ':', '/', '*', '"'], 5) {
        assert_eq!(sanitize_path(&w), plain_sanitize(&w), "{w:?}");
    }
    for w in words(&['\\', '|', '<', '>', '?', '\u{3000}', '\n', 'é'], 4) {
        assert_eq!(sanitize_path(&w), plain_sanitize(&w), "{w:?}");
    }
}

#[test]
fn a_cleaned_name_is_safe() {
    let clean = sanitize_path(" <A/B>: \\ \"x\" | y?* . ");
    for c in ['/', '\\', ':', '*', '?', '"', '<', '>', '|'] {
        assert!(!clean.contains(c));
    }
    assert!(!clean.contains("  "));
    assert!(!clean.ends_with('.') && !clean.ends_with(' '));
}

#[test]
fn cleaning_again_changes_nothing() {
    let once = sanitize_path("Dr. Jekyll: and Mr. Hyde...");
    assert_eq!(once, "Dr. Jekyll - and Mr. Hyde");
    assert_eq!(sanitize_path(&once), once);
    let colon = sanitize_path(":abc");
    assert_eq!(colon, " -abc");
    assert_eq!(sanitize_path(&colon), "-abc");
}

#[test]
fn every_part_of_a_path_is_a_plain_name() {
    let mut b = book("A/B: \"C\"", "D\\E", "r");
    b.categories = vec!["F|G".to_string()];
    b.series = "H?I".to_string();
    assert_eq!(parts(&b), vec!["F-G", "D-E", "HI", "A-B - 'C'_D-E (Standard Ebooks).epub"]);
}

#[test]
fn a_new_book_is_blank() {
    let b = Book::default();
    assert_eq!(b.title, "");
    assert_eq!(b.word_count, 0);
    assert_eq!(f64::from_bits(b.reading_ease), 0.0);
    assert!(b.categories.is_empty());
    assert_eq!(b.clone(), b);
}

#[test]
fn a_copy_holds_the_same() {
    let mut b = book("t", "a", "r");
    b.sources = vec!["s".to_string()];
    b.series_position = -3;
    b.reading_ease = 71.5f64.to_bits();
    assert_eq!(b.clone(), b);
}

#[test]
fn zeros_are_told_apart() {
    assert!(is_zero(&0));
    assert!(!is_zero(&-1));
    for x in [0.0, -0.0, 1.5, f64::MIN_POSITIVE, f64::NAN] {
        assert_eq!(is_zero_f64(&x.to_bits()), x == 0.0);
    }
}

#[test]
fn titles_come_in_order() {
    assert_eq!(titles_of(&vec![book("b", "", ""), book("a", "", "")]), vec!["b", "a"]);
}

#[test]
fn white_space_is_that_of_unicode() {
    for u in 0..=0x10_FFFFu32 {
        if let Some(c) = char::from_u32(u) {
            let s = format!("{c}x{c}");
            if u < 0x3100 || u % 97 == 0 {
                assert_eq!(text::trim(&s), s.trim(), "{u:x}");
            }
        }
    }
}

#[test]
fn text_is_searched_like_the_standard_library_does() {
    for s in words(&['a', 'b'], 6) {
        for p in words(&['a', 'b'], 3) {
            assert_eq!(text::contains(&s, &p), s.contains(&p));
            assert_eq!(text::find(&s, &p), s.find(&p));
        }
        assert_eq!(text::trim_end_char(&s, 'a'), s.trim_end_matches('a'));
        assert_eq!(text::trim_start_char(&s, 'a'), s.trim_start_matches('a'));
        assert_eq!(text::replace_char(&s, 'a', "xyz"), s.replace('a', "xyz"));
    }
}

#[test]
fn numbers_are_read_like_the_standard_library_does() {
    for s in words(&['0', '7', '-', '+', 'x'], 4) {
        assert_eq!(text::parse_i64(&s), s.parse::<i64>().ok(), "{s:?}");
    }
    for s in [
        "9223372036854775807",
        "9223372036854775808",
        "-9223372036854775808",
        "-9223372036854775809",
        "00000000000000000000000000000012",
        "340282366920938463463374607431768211456",
    ] {
        assert_eq!(text::parse_i64(s), s.parse::<i64>().ok(), "{s:?}");
    }
}

#[test]
fn a_written_number_reads_back() {
    for n in [0u64, 7, 10, 99, 12345, i64::MAX as u64] {
        let s = text::decimal(n);
        assert_eq!(s, n.to_string());
        assert_eq!(text::parse_i64(&s), Some(n as i64));
    }
    assert_eq!(text::decimal(u64::MAX), u64::MAX.to_string());
}
