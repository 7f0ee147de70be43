//! Splitting free-form text into chunks of whole sentences.
//!
//! A text is cut into its whitespace-separated words, and the words are
//! grouped into consecutive chunks. A chunk is closed once it holds the
//! target number of words and a sentence end has been reached; the last
//! chunk of a text takes whatever is left.

pub mod chunking;
pub mod laws;
pub mod splitter;
pub mod words;
