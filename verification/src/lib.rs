//! Verified core of a configuration assistant for the Ghostty terminal:
//! parsing and re-rendering of config files, targeted edits, value
//! validation, option search and include-tree resolution.

pub mod text;
pub mod config;
pub mod keyed;
pub mod data;
pub mod search;
pub mod tools;
pub mod server;
