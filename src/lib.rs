//! Full-text line search: a numbered store of lines, an inverted index from
//! space-separated words to the lines that hold them, and a resolver that
//! collects the lines matching any of a list of query terms.

pub mod config;
pub mod index;
pub mod line_store;
pub mod query;
pub mod tokens;

pub use config::Config;
pub use index::{InvertedIndex, tokenize_words};
pub use line_store::{LineStore, index_file_lines};
pub use query::{QueryResult, get_query_match, resolve_queries};
pub use tokens::split_spaces;
