//! A line-oriented substring search library.
//!
//! Given a query string and the full text of a file, the library returns the
//! lines that contain the query: unchanged, with every occurrence of the query
//! highlighted, case-insensitively, or prefixed with the line index and the
//! first matched span highlighted.

pub mod config;
pub mod laws;
pub mod search;
pub mod text;

pub use search::search_comprehensive;
