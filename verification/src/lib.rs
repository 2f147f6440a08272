//! Audit library for rsync-style backup exclusion rules.
//!
//! The crate compiles rsync-style glob patterns, matches them against
//! relative paths, classifies filesystem entries against an exclude list
//! and a vetted list, and serialises the resulting classification tree.
//! All filesystem access is left to the caller; the functions here are
//! pure byte-level logic with verified contracts.

pub mod classify;
pub mod config;
pub mod output;
pub mod rsync_compile;
pub mod rsync_pattern;
