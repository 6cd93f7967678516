//! A compact approximate-membership search index over a corpus of text
//! documents.
//!
//! Each document is represented by a probabilistic set of its tokens that
//! answers membership queries with no false negatives for tokens actually
//! indexed and a bounded false-positive rate. The crate covers tokenization,
//! per-document filter construction, a length-prefixed binary persistence
//! format for the whole document collection, and a scoring primitive that
//! counts how many query terms a document's filter reports as present.

pub mod codec;
pub mod filter;
pub mod score;
pub mod storage;
pub mod tokenizer;
