//! Changelog-to-upgrade-plan pipeline.
//!
//! The library parses a semi-structured changelog document into version
//! entries, selects the versions lying in an upgrade window, extracts the
//! embedded upgrade shell command from each selected release's notes, and
//! folds the commands' options into one deduplicated, order-preserving
//! upgrade invocation.

pub mod text;
pub mod version;
pub mod matcher;
pub mod changelog;
pub mod release;
pub mod options;
pub mod plan;
