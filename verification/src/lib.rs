//! A poll-driven watcher for a display-scale factor kept in a compositor
//! configuration file.
//!
//! The library holds the logic of the watch-and-reparse cycle: deciding when a
//! re-read is due (by comparing modification timestamps), extracting
//! output/scale declarations from the file's lines, and reducing the
//! discovered values to one answer (the maximum across all declared outputs).
//! Reading the file itself is left to the caller, who hands the bytes in.

pub mod scale;
pub mod parse;
pub mod watcher;

pub use scale::Scale;
pub use watcher::{Config, Mtime};
