//! The runtime configuration: the named roots and the global filter rules.
//! The server builds it from `config.toml`, the command line and the
//! environment.

use vstd::prelude::*;

use crate::text::owned;

verus! {

/// A named root directory. Clients see only its name, never the host path.
pub struct Root {
    /// The logical name, such as `workspace`.
    pub name: String,
    /// The host path of the directory.
    pub path: String,
    pub read_only: bool,
    /// Per-root allow list. Empty: the global rules apply. Not empty: only
    /// these entries are visible; each is a path inside the root, a file
    /// (matched exactly) or a directory (matched with everything below it).
    pub expose: Vec<String>,
}

/// The runtime configuration.
pub struct Config {
    pub roots: Vec<Root>,
    /// Empty: any extension.
    pub include_extensions: Vec<String>,
    pub include_globs: Vec<String>,
    pub ignore_globs: Vec<String>,
    /// `None`: no polling fallback, native watching only.
    pub poll_interval_ms: Option<u64>,
    /// Debounce window of the native watcher, in milliseconds.
    pub debounce_ms: u64,
    /// Largest file a read returns; larger ones give `TooLarge`.
    pub max_file_bytes: u64,
    pub follow_symlinks: bool,
}

/// The ignore globs of the default configuration.
pub open spec fn default_ignore_globs() -> Seq<Seq<char>> {
    seq!["**/.git/**"@, ".git/**"@, "**/node_modules/**"@]
}

impl Default for Config {
    /// No roots; Markdown files only; `.git` and `node_modules` ignored;
    /// polling every 3 s; 300 ms debounce; 10 MiB read limit; symbolic
    /// links not followed.
    fn default() -> (c: Self)
        ensures
            c.roots@.len() == 0,
            c.include_extensions@.len() == 1,
            c.include_extensions@[0]@ == "md"@,
            c.include_globs@.len() == 0,
            c.ignore_globs@.len() == 3,
            c.ignore_globs@[0]@ == default_ignore_globs()[0],
            c.ignore_globs@[1]@ == default_ignore_globs()[1],
            c.ignore_globs@[2]@ == default_ignore_globs()[2],
            c.poll_interval_ms == Some(3000u64),
            c.debounce_ms == 300,
            c.max_file_bytes == 10 * 1024 * 1024,
            !c.follow_symlinks,
    {
        let mut include_extensions: Vec<String> = Vec::new();
        include_extensions.push(owned("md"));
        let mut ignore_globs: Vec<String> = Vec::new();
        ignore_globs.push(owned("**/.git/**"));
        ignore_globs.push(owned(".git/**"));
        ignore_globs.push(owned("**/node_modules/**"));
        Config {
            roots: Vec::new(),
            include_extensions,
            include_globs: Vec::new(),
            ignore_globs,
            poll_interval_ms: Some(3000),
            debounce_ms: 300,
            max_file_bytes: 10 * 1024 * 1024,
            follow_symlinks: false,
        }
    }
}

} // verus!

verus! {

/// A root as plain values.
pub struct RootView {
    pub name: Seq<char>,
    pub path: Seq<char>,
    pub read_only: bool,
    pub expose: Seq<Seq<char>>,
}

impl View for Root {
    type V = RootView;

    open spec fn view(&self) -> RootView {
        RootView {
            name: self.name@,
            path: self.path@,
            read_only: self.read_only,
            expose: crate::text::strings(self.expose@),
        }
    }
}

/// A configuration as plain values.
pub struct ConfigView {
    pub roots: Seq<RootView>,
    pub include_extensions: Seq<Seq<char>>,
    pub include_globs: Seq<Seq<char>>,
    pub ignore_globs: Seq<Seq<char>>,
    pub poll_interval_ms: Option<u64>,
    pub debounce_ms: u64,
    pub max_file_bytes: u64,
    pub follow_symlinks: bool,
}

/// The views of a list of roots.
pub open spec fn root_views(v: Seq<Root>) -> Seq<RootView> {
    Seq::new(v.len(), |i: int| v[i]@)
}

impl View for Config {
    type V = ConfigView;

    open spec fn view(&self) -> ConfigView {
        ConfigView {
            roots: root_views(self.roots@),
            include_extensions: crate::text::strings(self.include_extensions@),
            include_globs: crate::text::strings(self.include_globs@),
            ignore_globs: crate::text::strings(self.ignore_globs@),
            poll_interval_ms: self.poll_interval_ms,
            debounce_ms: self.debounce_ms,
            max_file_bytes: self.max_file_bytes,
            follow_symlinks: self.follow_symlinks,
        }
    }
}

} // verus!
