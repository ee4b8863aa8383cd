//! Finding duplicated files by name, by size or by content.
pub mod cache;
pub mod contents;
pub mod counting;
pub mod digest;
pub mod finder;
pub mod grouping;
pub mod groups;
pub mod hashing;
pub mod laws;
pub mod listing;
pub mod model;
pub mod narrowing;
pub mod progress;
pub mod removal;
pub mod report;
pub mod reuse;
pub mod scan;
pub mod text;
pub mod textmap;
pub mod walk;
pub mod work;
