//! Core of a service that exposes named directory roots of text files: the
//! visibility gate, logical/physical path handling, tree listing, file reads,
//! change detection and the server-side decisions around them.

use vstd::prelude::*;

pub mod text;
pub mod config;
pub mod path;
pub mod glob;
pub mod visibility;
pub mod events;
pub mod poll;
pub mod dispatch;
pub mod watch;
pub mod scan;
pub mod read;
pub mod time_fmt;
pub mod config_file;
pub mod server;

verus! {

/// The library's error type; the server maps each variant to an HTTP status.
#[derive(Debug, Clone)]
pub enum Error {
    /// No root carries the given name.
    RootNotFound(String),
    /// The path tries to leave its root.
    PathTraversal(String),
    /// Nothing visible exists at the given logical path.
    NotFound(String),
    /// The file is larger than the configured read limit.
    TooLarge { size: u64, limit: u64 },
    /// The file exists inside its root, but the visibility gate (the allow
    /// list or the global filter rules) keeps it hidden.
    NotVisible(String),
    /// The path names something other than a regular file.
    NotAFile(String),
    /// A configured glob pattern does not compile.
    InvalidGlob(String),
    /// The file system watcher reported an error (its message).
    Watch(String),
    /// An I/O operation failed (its message).
    Io(String),
}

} // verus!
