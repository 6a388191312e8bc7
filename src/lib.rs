//! Extraction of linear narrative text and ruby readings from EPUB containers.
pub mod bytes;
pub mod error;
pub mod xhtml;
pub mod iter;
pub mod yomi;
pub mod gaiji;
pub mod doc;
mod text;
pub mod zip;
pub mod epub;
pub mod heuristics;
pub mod chapters;
pub mod txt;
pub mod books;
pub mod meta;
pub mod global_str;
