use ebook_manager::archive::{build_epub, file_order, is_before, SourceFile};
use std::io::Read;
use std::path::PathBuf;

fn path(text: &str) -> Vec<Vec<u8>> {
    text.split('/').map(|p| p.as_bytes().to_vec()).collect()
}

fn file(name: &str, data: &[u8]) -> SourceFile {
    SourceFile { path: path(name), name: name.to_string(), content: Ok(data.to_vec()) }
}

fn mimetype() -> Result<Vec<u8>, String> {
    Ok(b"application/epub+zip".to_vec())
}

fn read_all(bytes: &[u8]) -> Vec<(String, zip::CompressionMethod, Vec<u8>)> {
    let mut archive = zip::ZipArchive::new(std::io::Cursor::new(bytes)).unwrap();
    let mut all = Vec::new();
    for i in 0..archive.len() {
        let mut entry = archive.by_index(i).unwrap();
        let mut data = Vec::new();
        entry.read_to_end(&mut data).unwrap();
        all.push((entry.name().to_string(), entry.compression(), data));
    }
    all
}

#[test]
fn an_epub_starts_with_its_type() {
    let files = vec![
        file("mimetype", b"application/epub+zip"),
        file("epub/text/b.xhtml", b"bbbbbbbbbbbbbbbbbbbbbbbbbbbbbbbb"),
        file("epub/content.opf", b"<package/>"),
        file("META-INF/container.xml", b"<container/>"),
    ];
    let bytes = build_epub(&mimetype(), &files).unwrap();
    let stored = zip::CompressionMethod::Stored;
    let deflated = zip::CompressionMethod::Deflated;
    assert_eq!(
        read_all(&bytes),
        vec![
            ("mimetype".to_string(), stored, b"application/epub+zip".to_vec()),
            ("META-INF/container.xml".to_string(), deflated, b"<container/>".to_vec()),
            ("epub/content.opf".to_string(), deflated, b"<package/>".to_vec()),
            ("epub/text/b.xhtml".to_string(), deflated, b"bbbbbbbbbbbbbbbbbbbbbbbbbbbbbbbb".to_vec()),
        ]
    );
    assert_eq!(&bytes[30..58], b"mimetypeapplication/epub+zip");
}

#[test]
fn a_folder_without_files_makes_an_epub_of_one_entry() {
    let bytes = build_epub(&mimetype(), &vec![]).unwrap();
    assert_eq!(read_all(&bytes).len(), 1);
}

#[test]
fn backslashes_become_slashes() {
    let f = SourceFile {
        path: vec![b"a\\b".to_vec()],
        name: "a\\b".to_string(),
        content: Ok(b"x".to_vec()),
    };
    let bytes = build_epub(&mimetype(), &vec![f]).unwrap();
    assert_eq!(read_all(&bytes)[1].0, "a/b");
}

#[test]
fn what_cannot_be_read_is_reported() {
    let refused: Result<Vec<u8>, String> = Err("denied".to_string());
    assert_eq!(build_epub(&refused, &vec![]), Err("read mimetype: denied".to_string()));
    let mut bad = file("epub/a.css", b"");
    bad.content = Err("gone".to_string());
    let mut worse = file("epub/b.css", b"");
    worse.content = Err("never seen".to_string());
    assert_eq!(
        build_epub(&mimetype(), &vec![worse, bad, file("epub/0.css", b"")]),
        Err("read epub/a.css: gone".to_string())
    );
}

#[test]
fn a_name_is_used_once() {
    let twin = SourceFile {
        path: vec![b"x".to_vec()],
        name: "mimetype".to_string(),
        content: Ok(vec![]),
    };
    let m = build_epub(&mimetype(), &vec![twin]).unwrap_err();
    assert!(m.starts_with("zip mimetype: ") && m.contains("Duplicate"), "{m}");
}

#[test]
fn files_are_ordered_like_paths() {
    let names = [
        "b", "a/b", "a", "a.b", "a-b", "a/b/c", "a/B", "a/b.c", "a/b-c", "mimetype/x", "z", "é", "a b", "A",
        "a/mimetype", "mimetypes",
    ];
    let mut sorted: Vec<PathBuf> = names.iter().map(PathBuf::from).collect();
    sorted.sort();
    let files: Vec<SourceFile> = names.iter().map(|n| file(n, b"")).collect();
    let order: Vec<PathBuf> =
        file_order(&files).into_iter().map(|i| PathBuf::from(names[i])).collect();
    assert_eq!(order, sorted);
    for a in names {
        for b in names {
            assert_eq!(is_before(&path(a), &path(b)), PathBuf::from(a) < PathBuf::from(b), "{a} {b}");
        }
    }
}

#[test]
fn every_file_but_the_type_is_listed_once() {
    let files = vec![file("c", b""), file("mimetype", b""), file("a", b""), file("b", b""), file("a", b"")];
    assert_eq!(file_order(&files), vec![2, 4, 3, 0]);
}
