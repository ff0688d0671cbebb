//! A term-frequency index over a corpus of text and markup documents, ranked
//! against free-text queries with TF-IDF.
pub mod chars;
pub mod case_insensitive_string;
pub mod tokenizer;
pub mod counts;
pub mod index;

pub use crate::index::{Document, Index};

pub use crate::case_insensitive_string::CaseInsensitiveString;
