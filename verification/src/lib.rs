//! A verified line-search library.
//!
//! Given a query string and a document, the library returns every line of the
//! document that contains the query as a substring, either exactly
//! ([`search::search`]) or up to ASCII case folding
//! ([`search::search_case_insensitive`]). Returned lines are slices into the
//! original document, in document order, with their original casing.

pub mod config;
pub mod lines;
pub mod matching;
pub mod search;

pub use config::Config;
pub use config::ConfigError;
pub use search::search;
pub use search::search_case_insensitive;
