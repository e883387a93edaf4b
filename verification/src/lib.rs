//! Line search in a text: the lines of a file's contents that hold a query,
//! with case or without, and the configuration of a run resolved from the
//! arguments of the program.
//!
//! The search works on the bytes of the text and is stated over its
//! characters; `encoding` holds what joins the two.
pub mod config;
pub mod encoding;
pub mod fold;
pub mod scan;
pub mod search;
pub mod text;
pub mod trim;

pub use config::Config;
pub use search::{_search2, run, search, search_case_insensitive};
