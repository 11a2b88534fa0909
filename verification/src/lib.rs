//! Verified core of a book-renewing pipeline: page text is grouped into
//! episodes and formatted as Typst.
pub mod text;
pub mod fence;
pub mod document;
pub mod book;
pub mod organizer;
pub mod files;
pub mod typst;
pub mod extract;
