//! The contents of `config.toml`. Every field is optional; what is missing
//! falls back to the command line, the environment or a built-in default.

use vstd::prelude::*;

use crate::text::owned;

verus! {

/// Where and how change events are forwarded to a supervisor service:
/// `POST {base_url}{events_path}` with `Authorization: Bearer <access_token>`.
pub struct SupervisorConfig {
    /// Base address, such as `https://supervisor.example.com`.
    pub base_url: String,
    /// Path of the report endpoint; `/api/v1/finder/events` by default.
    pub events_path: String,
    /// The bearer credential.
    pub access_token: String,
    /// Whether forwarding is on; `true` by default.
    pub enabled: bool,
}

/// One `[[roots]]` table.
pub struct RootEntry {
    pub name: String,
    pub path: String,
    /// `true` by default.
    pub read_only: bool,
    /// Empty by default.
    pub expose: Vec<String>,
}

/// The whole file.
pub struct ConfigFile {
    pub port: Option<u16>,
    pub include_ext: Option<Vec<String>>,
    pub include_globs: Option<Vec<String>>,
    pub ignore_globs: Option<Vec<String>>,
    pub poll_interval_ms: Option<u64>,
    pub debounce_ms: Option<u64>,
    pub max_file_bytes: Option<u64>,
    /// Empty by default.
    pub roots: Vec<RootEntry>,
    /// Absent: nothing is forwarded.
    pub supervisor: Option<SupervisorConfig>,
}

impl Default for ConfigFile {
    /// A file that sets nothing (what a missing file stands for).
    fn default() -> (c: Self)
        ensures
            c.port is None,
            c.include_ext is None,
            c.include_globs is None,
            c.ignore_globs is None,
            c.poll_interval_ms is None,
            c.debounce_ms is None,
            c.max_file_bytes is None,
            c.roots@.len() == 0,
            c.supervisor is None,
    {
        ConfigFile {
            port: None,
            include_ext: None,
            include_globs: None,
            ignore_globs: None,
            poll_interval_ms: None,
            debounce_ms: None,
            max_file_bytes: None,
            roots: Vec::new(),
            supervisor: None,
        }
    }
}

/// The default report path, `/api/v1/finder/events`.
pub fn default_events_path() -> (r: String)
    ensures
        r@ == "/api/v1/finder/events"@,
{
    owned("/api/v1/finder/events")
}

/// The default of the boolean settings that default to on.
pub fn default_true() -> (r: bool)
    ensures
        r,
{
    true
}

} // verus!
