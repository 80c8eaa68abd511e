//! Parse loosely structured version strings (`ruby-3.2.0-preview2`),
//! order them, match underspecified queries against a catalog of
//! releases, and select the best matching release.

pub mod text;
pub mod version;
pub mod version_id;
pub mod ruby_version;
pub mod catalog;
pub mod cli;
