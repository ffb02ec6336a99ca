//! Verified core of `cutler`: declarative management of macOS user defaults.
//!
//! The library holds the decisions of every command (which settings differ from the
//! configuration, what a snapshot records, how an apply is undone, which Homebrew
//! packages are missing, whether an update is available); the program around it
//! performs the reads, writes and process launches that those decisions ask for.

pub mod apply;
pub mod batch;
pub mod brew;
pub mod cli;
pub mod config;
pub mod domains;
pub mod executor;
pub mod logging;
pub mod reset;
pub mod snapshot;
pub mod status;
pub mod text;
pub mod unapply;
pub mod update;
