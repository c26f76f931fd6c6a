# ebook_manager

The rules of a desktop manager for the Standard Ebooks catalog, written in Verus: what
each function returns is stated in its contract and proved.

- `src/text.rs` – searching, trimming, splitting and reading numbers, over sequences of
  characters
- `src/books.rs` – the book model, repository names, file names, and where an epub is kept
- `src/store.rs` – the list of books, which of them are downloaded, and search
- `src/catalog.rs` – from repository descriptions to books, and merging a fresh catalog
- `src/opf.rs`, `src/enrich.rs` – reading a package document and enriching a book with it
- `src/covers.rs`, `src/thumbnail.rs` – the JPEG in a cover's SVG, and its thumbnail
- `src/jpeg.rs`, `src/frame.rs` – a JPEG's headers, and which frames the image decoder can take
- `src/archive.rs` – the epub: `mimetype` first and stored, everything else sorted and
  compressed
- `src/download.rs` – completing metadata, planning downloads, checking a checkout
- `src/runs.rs`, `src/plan.rs` – runs over many jobs, so many at once, that can be cancelled
- `src/state.rs` – the operation that is running, pages, search and statistics

Public proof functions whose names begin with `law_` state what holds across functions.

Functions marked `external_body` call into `base64`, `image`, `roxmltree`, `zip` and the
standard library; each says in its comment what is taken for granted of the call.

`app/` is the Tauri program around the library: files, network, `git` and the JSON forms of
the library's types. Floating-point numbers stand there too; the library holds a reading ease
as the bits of a double and computes the size of a thumbnail in integers.
