//! A small line-oriented text search: split a text into lines and keep the
//! lines that contain a query, with or without regard to letter case.
//!
//! A string slice is viewed as its `Seq<char>`. Every exec function here has
//! a contract over such views and is proved against it; the one thing taken
//! on trust is the standard library's lowercase mapping, in `fold`.

pub mod config;
pub mod encoding;
pub mod fold;
pub mod lines;
pub mod search;
pub mod selection;
pub mod substring;

pub use config::Config;
pub use search::{search_case_insensitive, search_case_sensitive};
