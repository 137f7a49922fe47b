//! Extraction of hyperlinks from markdown documents.
//!
//! [`parser::extract_links`] parses a markdown text and returns one
//! [`parser::Link`] for each link of the document, in document order, with
//! the text found inside the link as its description.
//!
//! The document tree is modelled in [`tree`], written out flat in
//! [`traversal`] and [`nesting`], held in memory by [`document`], and
//! obtained from markdown text in [`markdown`]. [`laws`] states what holds
//! of extraction on every tree.

pub mod document;
pub mod laws;
pub mod markdown;
pub mod nesting;
pub mod parser;
pub mod traversal;
pub mod tree;
