//! Disk usage analysis: the state and the rules behind an interactive
//! directory browser.
//!
//! Everything here works on plain values. Reading directories, hashing file
//! contents, drawing and moving entries to the Trash happen outside; the
//! functions of this library decide what is to be done and what it means.
use vstd::prelude::*;

pub mod text;
pub mod lists;
pub mod order;
pub mod path;
pub mod tree;
pub mod sums;
pub mod scanner;
pub mod table;
pub mod analytics;
pub mod indexing;
pub mod digest;
pub mod duplicates;
pub mod portable_path;
pub mod snapshot;
pub mod watcher;
pub mod cache;
pub mod quantity;
pub mod filter;
pub mod format;
pub mod theme;
pub mod worker;
pub mod delete;
pub mod app;
pub mod rows;
pub mod cli;
pub mod config;
pub mod headless;
pub mod release;
pub mod ui;
