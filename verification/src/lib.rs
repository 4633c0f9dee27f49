//! Core logic of a small flat-file tracker for TV series.
//!
//! A store is a plain-text file: a fixed header line followed by one record
//! line per tracked series, every line terminated by a newline.  A record
//! line holds three fields joined by `", "`: the numeric series id, the
//! title, and the air date of the latest episode.
//!
//! This crate holds the verified content-level logic: rendering the header
//! and record lines, and rewriting a whole file's content with every record
//! of a given id removed.  Reading and writing the file itself is left to
//! the caller, which hands content in and out as strings.

pub mod decimal;
pub mod fields;
pub mod lines;
pub mod store;

pub use decimal::int_string;
pub use store::StoreError;
pub use store::append_content;
pub use store::initialize_content;
pub use store::record_line;
pub use store::remove_content;
