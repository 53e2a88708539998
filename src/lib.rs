//! An embeddable text-search index: documents are staged, built once into an
//! inverted index of roaring postings lists, and queried with AND semantics.
//! Beside it, `markdown` holds rendering settings and the HTML output of a
//! parsed markdown tree.
pub mod document;
pub mod index;
pub mod inverted_index;
pub mod markdown;
pub mod postings;
pub mod tokenizer;
