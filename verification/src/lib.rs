//! The rules of a Standard Ebooks library manager: the book model, catalog
//! merging, metadata enrichment, cover extraction and epub planning.

pub mod archive;
pub mod books;
pub mod catalog;
pub mod covers;
pub mod download;
pub mod enrich;
pub mod frame;
pub mod jpeg;
pub mod opf;
pub mod plan;
pub mod runs;
pub mod state;
pub mod store;
pub mod text;
pub mod thumbnail;
