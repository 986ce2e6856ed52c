//! A minimal line-oriented substring search library.
//!
//! Two pieces: a configuration resolver that turns command-line tokens and an
//! environment default into a validated [`Config`], and a line filter that
//! returns, in order, every line of a text that contains a query, either
//! exactly ([`search`]) or after lowercasing both sides
//! ([`search_case_insensitive`]).

mod config;
mod filter;

pub use config::Config;
pub use config::matching_lines;
pub use config::MSG_BAD_IGNORE_CASE;
pub use config::MSG_ILLEGAL;
pub use config::MSG_NO_PATH;
pub use config::MSG_NO_QUERY;
pub use filter::search;
pub use filter::search_case_insensitive;
