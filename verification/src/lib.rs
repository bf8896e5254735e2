//! Checks and fixes Nerd Font icon names in source files.
//!
//! The crate keeps a database of icon records, scans source text for
//! icon-shaped names, resolves each name against the database and builds
//! byte-exact patches for the names that have one safe replacement.

pub mod bytes;
pub mod cache;
pub mod db;
pub mod distance;
pub mod error;
pub mod matcher;
pub mod parser;
pub mod patch;
pub mod ranking;
pub mod runtime;
pub mod scanner;
pub mod text;
