//! Verified core of Kindle Glean: parsing of Kindle exports and rendering of
//! Obsidian-friendly Markdown.

pub mod datetime;
pub mod device;
pub mod digest;
pub mod pattern;
pub mod text;
pub mod models;
pub mod parsers;
pub mod paths;
pub mod generator;
pub mod records;
pub mod session;
pub mod sync;
pub mod viewer;
