//! Decisions of the HTTP server around the library: the configuration it
//! builds from the command line and `config.toml`, the status codes of
//! errors, conditional requests, and the supervisor's report address.

use vstd::prelude::*;

use crate::config::{default_ignore_globs, Config, ConfigView, Root, RootView, root_views};
use crate::config_file::{ConfigFile, RootEntry, SupervisorConfig};
use crate::text::{lemma_split_once, split_once_spec, chars_of, first_index_of, owned, split_char, split_spec, str_eq, strings, trim, trim_spec};
use crate::Error;

verus! {

/// The command-line options (each may also come from the environment).
pub struct Cli {
    /// Path of `config.toml`.
    pub config: String,
    /// Roots as `name=path`; when given, they replace those of the file.
    pub roots: Vec<String>,
    /// Comma-separated extensions; replaces `include_ext` of the file.
    pub include_ext: Option<String>,
    /// Replaces `port` of the file.
    pub port: Option<u16>,
    /// Polling interval in milliseconds, 0 to turn polling off; replaces
    /// `poll_interval_ms` of the file.
    pub poll_interval_ms: Option<u64>,
}

/// Why no configuration could be built.
#[derive(Debug, Clone)]
pub enum ConfigError {
    /// A `--roots` item without `=`.
    InvalidRoot(String),
    /// Neither the command line nor the file names a root.
    NoRoots,
}

/// A `name=path` item split at its first `=`, both sides trimmed; `None`
/// without `=`.
pub open spec fn root_arg_spec(s: Seq<char>) -> Option<(Seq<char>, Seq<char>)> {
    match split_once_spec(s, '=') {
        Some((name, path)) => Some((trim_spec(name), trim_spec(path))),
        None => None,
    }
}

/// The roots of the `--roots` items, or the first item without `=`.
pub open spec fn cli_roots_spec(args: Seq<Seq<char>>) -> Result<Seq<RootView>, Seq<char>>
    decreases args.len(),
{
    if args.len() == 0 {
        Ok(Seq::empty())
    } else {
        match cli_roots_spec(args.drop_last()) {
            Err(e) => Err(e),
            Ok(prev) => match root_arg_spec(args.last()) {
                None => Err(args.last()),
                Some((name, path)) => Ok(prev.push(RootView { name, path, read_only: true, expose: Seq::empty() })),
            },
        }
    }
}

/// The trimmed, non-empty pieces of a comma-separated list.
pub open spec fn nonempty_trimmed(pieces: Seq<Seq<char>>) -> Seq<Seq<char>>
    decreases pieces.len(),
{
    if pieces.len() == 0 {
        Seq::empty()
    } else {
        let prev = nonempty_trimmed(pieces.drop_last());
        let t = trim_spec(pieces.last());
        if t.len() > 0 {
            prev.push(t)
        } else {
            prev
        }
    }
}

/// The view of a `[[roots]]` table as a root.
pub open spec fn entry_root(e: RootEntry) -> RootView {
    RootView { name: e.name@, path: e.path@, read_only: e.read_only, expose: strings(e.expose@) }
}

/// The roots of the file's tables.
pub open spec fn file_roots(v: Seq<RootEntry>) -> Seq<RootView> {
    Seq::new(v.len(), |i: int| entry_root(v[i]))
}

/// The roots: from the command line when it names any, else from the file;
/// `Err(None)` when neither does, `Err(Some(item))` for a bad item.
pub open spec fn roots_spec(cli_roots: Seq<Seq<char>>, entries: Seq<RootEntry>) -> Result<Seq<RootView>, Option<Seq<char>>> {
    if cli_roots.len() > 0 {
        match cli_roots_spec(cli_roots) {
            Ok(r) => Ok(r),
            Err(e) => Err(Some(e)),
        }
    } else if entries.len() > 0 {
        Ok(file_roots(entries))
    } else {
        Err(None)
    }
}

/// An optional list of strings as plain values.
pub open spec fn opt_strings(v: Option<Vec<String>>) -> Option<Seq<Seq<char>>> {
    match v {
        Some(x) => Some(strings(x@)),
        None => None,
    }
}

/// The configuration and port that the command line and the file give
/// together (see [`build_config`]).
pub open spec fn build_config_spec(cli: Cli, file: ConfigFile) -> Result<(ConfigView, u16), Option<Seq<char>>> {
    match roots_spec(strings(cli.roots@), file.roots@) {
        Err(e) => Err(e),
        Ok(roots) => {
            let port: u16 = match cli.port {
                Some(p) => p,
                None => match file.port {
                    Some(p) => p,
                    None => 8080,
                },
            };
            let include_extensions = match cli.include_ext {
                Some(e) => nonempty_trimmed(split_spec(e@, ',')),
                None => match opt_strings(file.include_ext) {
                    Some(x) => x,
                    None => seq!["md"@],
                },
            };
            let poll = match cli.poll_interval_ms {
                Some(ms) => Some(ms),
                None => file.poll_interval_ms,
            };
            let poll_interval_ms = match poll {
                Some(ms) => if ms == 0 {
                    None
                } else {
                    Some(ms)
                },
                None => Some(3000u64),
            };
            Ok((ConfigView {
                roots,
                include_extensions,
                include_globs: match opt_strings(file.include_globs) {
                    Some(x) => x,
                    None => Seq::empty(),
                },
                ignore_globs: match opt_strings(file.ignore_globs) {
                    Some(x) => x,
                    None => default_ignore_globs(),
                },
                poll_interval_ms,
                debounce_ms: match file.debounce_ms {
                    Some(d) => d,
                    None => 300,
                },
                max_file_bytes: match file.max_file_bytes {
                    Some(m) => m,
                    None => 10485760u64,
                },
                follow_symlinks: false,
            }, port))
        },
    }
}

/// One `--roots` item `name=path` as a read-only root without allow list.
pub fn parse_root_arg(s: &str) -> (r: Result<Root, ConfigError>)
    ensures
        match root_arg_spec(s@) {
            Some((name, path)) => r matches Ok(root) && root@ == (RootView { name, path, read_only: true, expose: Seq::empty() }),
            None => r matches Err(ConfigError::InvalidRoot(m)) && m@ == s@,
        },
{
    let v = chars_of(s);
    match first_index_of(&v, '=') {
        None => Err(ConfigError::InvalidRoot(owned(s))),
        Some(k) => {
            assert(k < v.len());
            proof {
                lemma_split_once(s@, '=', k as int);
            }
            let name = trim(s.substring_char(0, k));
            let path = trim(s.substring_char(k + 1, v.len()));
            assert(s@.subrange(0, k as int) =~= s@.take(k as int));
            assert(s@.subrange(k + 1, v@.len() as int) =~= s@.skip(k + 1));
            let root = Root { name: owned(name), path: owned(path), read_only: true, expose: Vec::new() };
            assert(root@.expose =~= Seq::<Seq<char>>::empty());
            Ok(root)
        },
    }
}

/// The trimmed, non-empty items of a comma-separated list.
fn extension_list(s: &str) -> (r: Vec<String>)
    ensures
        strings(r@) == nonempty_trimmed(split_spec(s@, ',')),
{
    let pieces = split_char(s, ',');
    let ghost pv = strings(pieces@);
    let mut out: Vec<String> = Vec::new();
    let mut i: usize = 0;
    assert(pv.take(0) =~= Seq::<Seq<char>>::empty());
    assert(strings(out@) =~= Seq::<Seq<char>>::empty());
    while i < pieces.len()
        invariant
            i <= pieces@.len(),
            pv == strings(pieces@),
            strings(out@) == nonempty_trimmed(pv.take(i as int)),
        decreases pieces.len() - i,
    {
        assert(pv.take(i + 1).drop_last() =~= pv.take(i as int));
        assert(pv.take(i + 1).last() == pieces@[i as int]@);
        let t = trim(pieces[i].as_str());
        if t.unicode_len() > 0 {
            let ghost before = strings(out@);
            out.push(owned(t));
            assert(strings(out@) =~= before.push(t@));
        }
        i += 1;
    }
    assert(pv.take(pieces@.len() as int) =~= pv);
    out
}

/// A copy of a list of strings.
fn copy_strings(v: &Vec<String>) -> (r: Vec<String>)
    ensures
        strings(r@) == strings(v@),
{
    let mut out: Vec<String> = Vec::new();
    let mut j: usize = 0;
    while j < v.len()
        invariant
            j <= v@.len(),
            strings(out@) == strings(v@).take(j as int),
        decreases v.len() - j,
    {
        let ghost before = strings(out@);
        out.push(owned(v[j].as_str()));
        assert(strings(out@) =~= before.push(v@[j as int]@));
        assert(strings(v@).take(j + 1) =~= strings(v@).take(j as int).push(v@[j as int]@));
        j += 1;
    }
    assert(strings(v@).take(v@.len() as int) =~= strings(v@));
    out
}

/// The roots of the `--roots` items (see [`cli_roots_spec`]).
fn roots_from_args(cli_roots: &Vec<String>) -> (r: Result<Vec<Root>, ConfigError>)
    ensures
        match cli_roots_spec(strings(cli_roots@)) {
            Ok(rv) => r matches Ok(roots) && root_views(roots@) == rv,
            Err(item) => r matches Err(ConfigError::InvalidRoot(m)) && m@ == item,
        },
{
    let mut roots: Vec<Root> = Vec::new();
    let ghost args = strings(cli_roots@);
    let mut i: usize = 0;
    assert(args.take(0) =~= Seq::<Seq<char>>::empty());
    assert(root_views(roots@) =~= Seq::<RootView>::empty());
    while i < cli_roots.len()
        invariant
            i <= cli_roots@.len(),
            args == strings(cli_roots@),
            cli_roots_spec(args.take(i as int)) == Ok::<Seq<RootView>, Seq<char>>(root_views(roots@)),
        decreases cli_roots.len() - i,
    {
        assert(args.take(i + 1).drop_last() =~= args.take(i as int));
        assert(args.take(i + 1).last() == cli_roots@[i as int]@);
        match parse_root_arg(cli_roots[i].as_str()) {
            Ok(root) => {
                let ghost before = root_views(roots@);
                let ghost rv = root@;
                roots.push(root);
                assert(root_views(roots@) =~= before.push(rv));
            },
            Err(e) => {
                proof {
                    lemma_cli_roots_err_extends(args, i + 1);
                }
                return Err(e);
            },
        }
        i += 1;
    }
    assert(args.take(cli_roots@.len() as int) =~= args);
    Ok(roots)
}

/// The roots of the file's tables.
fn roots_from_entries(entries: &Vec<RootEntry>) -> (roots: Vec<Root>)
    ensures
        root_views(roots@) == file_roots(entries@),
{
    let mut roots: Vec<Root> = Vec::new();
    let mut i: usize = 0;
    assert(root_views(roots@) =~= file_roots(entries@).take(0));
    while i < entries.len()
        invariant
            i <= entries@.len(),
            root_views(roots@) == file_roots(entries@).take(i as int),
        decreases entries.len() - i,
    {
        let e = &entries[i];
        let expose = copy_strings(&e.expose);
        let root = Root { name: owned(e.name.as_str()), path: owned(e.path.as_str()), read_only: e.read_only, expose };
        let ghost before = root_views(roots@);
        let ghost rv = root@;
        assert(rv == entry_root(entries@[i as int]));
        roots.push(root);
        assert(root_views(roots@) =~= before.push(rv));
        assert(file_roots(entries@).take(i + 1) =~= file_roots(entries@).take(i as int).push(entry_root(entries@[i as int])));
        i += 1;
    }
    assert(file_roots(entries@).take(entries@.len() as int) =~= file_roots(entries@));
    roots
}

/// The roots of the configuration (see [`roots_spec`]).
pub fn config_roots(cli_roots: &Vec<String>, entries: &Vec<RootEntry>) -> (r: Result<Vec<Root>, ConfigError>)
    ensures
        match roots_spec(strings(cli_roots@), entries@) {
            Ok(rv) => r matches Ok(roots) && root_views(roots@) == rv,
            Err(None) => r matches Err(ConfigError::NoRoots),
            Err(Some(item)) => r matches Err(ConfigError::InvalidRoot(m)) && m@ == item,
        },
{
    if cli_roots.len() > 0 {
        roots_from_args(cli_roots)
    } else if entries.len() > 0 {
        Ok(roots_from_entries(entries))
    } else {
        Err(ConfigError::NoRoots)
    }
}

/// Builds the runtime configuration and the port from the command line and
/// the file (see [`build_config_spec`]): command-line roots replace those
/// of the file, and a root is required; the port defaults to 8080; the
/// extensions come from the command line, the file, or default to `md`;
/// a polling interval of 0 turns polling off, and the default is 3 s; the
/// other settings come from the file or the defaults of [`Config`].
pub fn build_config(cli: Cli, file: ConfigFile) -> (r: Result<(Config, u16), ConfigError>)
    ensures
        match build_config_spec(cli, file) {
            Ok((cv, port)) => r matches Ok((c, p)) && c@ == cv && p == port,
            Err(None) => r matches Err(ConfigError::NoRoots),
            Err(Some(item)) => r matches Err(ConfigError::InvalidRoot(m)) && m@ == item,
        },
{
    let roots = config_roots(&cli.roots, &file.roots)?;
    let the_port: u16 = match cli.port {
        Some(p) => p,
        None => match file.port {
            Some(p) => p,
            None => 8080,
        },
    };
    let defaults = Config::default();
    proof {
        assert(strings(defaults.include_extensions@) =~= seq!["md"@]);
        assert(strings(defaults.include_globs@) =~= Seq::<Seq<char>>::empty());
        assert(strings(defaults.ignore_globs@) =~= default_ignore_globs());
    }
    let include_extensions: Vec<String> = match &cli.include_ext {
        Some(e) => extension_list(e.as_str()),
        None => match &file.include_ext {
            Some(x) => copy_strings(x),
            None => defaults.include_extensions,
        },
    };
    let poll = match cli.poll_interval_ms {
        Some(ms) => Some(ms),
        None => file.poll_interval_ms,
    };
    let poll_ms: Option<u64> = match poll {
        Some(ms) => if ms == 0 {
            None
        } else {
            Some(ms)
        },
        None => Some(3000),
    };
    let include_globs = match &file.include_globs {
        Some(x) => copy_strings(x),
        None => defaults.include_globs,
    };
    let ignore_globs = match &file.ignore_globs {
        Some(x) => copy_strings(x),
        None => defaults.ignore_globs,
    };
    let debounce_ms = match file.debounce_ms {
        Some(d) => d,
        None => defaults.debounce_ms,
    };
    let max_file_bytes = match file.max_file_bytes {
        Some(m) => m,
        None => defaults.max_file_bytes,
    };
    let config = Config {
        roots,
        include_extensions,
        include_globs,
        ignore_globs,
        poll_interval_ms: poll_ms,
        debounce_ms,
        max_file_bytes,
        follow_symlinks: false,
    };
    Ok((config, the_port))
}

proof fn lemma_cli_roots_err_extends(args: Seq<Seq<char>>, k: int)
    requires
        0 <= k <= args.len(),
        cli_roots_spec(args.take(k)) is Err,
    ensures
        cli_roots_spec(args) == cli_roots_spec(args.take(k)),
    decreases args.len() - k,
{
    if k < args.len() {
        assert(args.take(k + 1).drop_last() =~= args.take(k));
        lemma_cli_roots_err_extends(args, k + 1);
    } else {
        assert(args.take(k) =~= args);
    }
}

} // verus!

verus! {

/// The HTTP status of each error: 404 for a missing root or file, 403 for
/// path traversal, 413 for a file over the limit, 415 for something that is
/// not a regular file, 500 otherwise.
pub open spec fn status_spec(e: Error) -> u16 {
    match e {
        Error::RootNotFound(_) => 404,
        Error::NotFound(_) => 404,
        Error::PathTraversal(_) | Error::NotVisible(_) => 403,
        Error::TooLarge { .. } => 413,
        Error::NotAFile(_) => 415,
        _ => 500,
    }
}

/// The HTTP status of an error (see [`status_spec`]).
pub fn status_code(e: &Error) -> (r: u16)
    ensures
        r == status_spec(*e),
{
    match e {
        Error::RootNotFound(_) | Error::NotFound(_) => 404,
        Error::PathTraversal(_) | Error::NotVisible(_) => 403,
        Error::TooLarge { .. } => 413,
        Error::NotAFile(_) => 415,
        _ => 500,
    }
}

/// The text of an error, as the response body carries it.
pub open spec fn message_spec(e: Error) -> Seq<char> {
    match e {
        Error::RootNotFound(s) => "root not found: "@ + s@,
        Error::PathTraversal(s) => "path traversal: "@ + s@,
        Error::NotFound(s) => "not found: "@ + s@,
        Error::TooLarge { size, limit } => "file too large: "@ + crate::read::decimal(size as nat) + " bytes (limit "@
            + crate::read::decimal(limit as nat) + ")"@,
        Error::NotVisible(s) => "not visible: "@ + s@,
        Error::NotAFile(s) => "not a regular file: "@ + s@,
        Error::InvalidGlob(s) => "invalid glob: "@ + s@,
        Error::Watch(s) => "watch error: "@ + s@,
        Error::Io(s) => s@,
    }
}

/// The text of an error (see [`message_spec`]).
pub fn error_message(e: &Error) -> (r: String)
    ensures
        r@ == message_spec(*e),
{
    match e {
        Error::RootNotFound(s) => crate::text::concat2("root not found: ", s.as_str()),
        Error::PathTraversal(s) => crate::text::concat2("path traversal: ", s.as_str()),
        Error::NotFound(s) => crate::text::concat2("not found: ", s.as_str()),
        Error::TooLarge { size, limit } => {
            let mut r = owned("file too large: ");
            r.append(crate::read::decimal_text(*size as u128).as_str());
            r.append(" bytes (limit ");
            r.append(crate::read::decimal_text(*limit as u128).as_str());
            r.append(")");
            r
        },
        Error::NotVisible(s) => crate::text::concat2("not visible: ", s.as_str()),
        Error::NotAFile(s) => crate::text::concat2("not a regular file: ", s.as_str()),
        Error::InvalidGlob(s) => crate::text::concat2("invalid glob: ", s.as_str()),
        Error::Watch(s) => crate::text::concat2("watch error: ", s.as_str()),
        Error::Io(s) => owned(s.as_str()),
    }
}

/// Whether a conditional request is answered with 304: the file has an
/// ETag and the request's `If-None-Match` is exactly that text.
pub fn not_modified(etag: Option<&str>, if_none_match: Option<&str>) -> (r: bool)
    ensures
        r == (etag is Some && if_none_match is Some && etag->0@ == if_none_match->0@),
{
    match (etag, if_none_match) {
        (Some(e), Some(h)) => str_eq(e, h),
        _ => false,
    }
}

/// `s` without its trailing `c` characters (`trim_end_matches`).
pub open spec fn trim_end_char(s: Seq<char>, c: char) -> Seq<char>
    decreases s.len(),
{
    if s.len() > 0 && s.last() == c {
        trim_end_char(s.drop_last(), c)
    } else {
        s
    }
}

/// `s` without its leading `c` characters (`trim_start_matches`).
pub open spec fn trim_start_char(s: Seq<char>, c: char) -> Seq<char>
    decreases s.len(),
{
    if s.len() > 0 && s[0] == c {
        trim_start_char(s.drop_first(), c)
    } else {
        s
    }
}

/// The supervisor to forward change events to: the configured one when
/// forwarding is on, none when it is off or not configured.
pub fn forwarding_target(supervisor: Option<SupervisorConfig>) -> (r: Option<SupervisorConfig>)
    ensures
        match supervisor {
            Some(s) => if s.enabled {
                r == Some(s)
            } else {
                r is None
            },
            None => r is None,
        },
{
    match supervisor {
        Some(s) => if s.enabled {
            Some(s)
        } else {
            None
        },
        None => None,
    }
}

/// The address change events are forwarded to: the base address without
/// trailing `'/'`, followed by the report path.
pub fn supervisor_url(config: &SupervisorConfig) -> (r: String)
    ensures
        r@ == trim_end_char(config.base_url@, '/') + config.events_path@,
{
    let s = config.base_url.as_str();
    let v = chars_of(s);
    let mut b = v.len();
    assert(s@.subrange(0, b as int) =~= s@);
    while b > 0 && v[b - 1] == '/'
        invariant
            b <= v@.len(),
            v@ == s@,
            trim_end_char(s@, '/') == trim_end_char(s@.subrange(0, b as int), '/'),
        decreases b,
    {
        assert(s@.subrange(0, b as int).drop_last() =~= s@.subrange(0, b - 1));
        b -= 1;
    }
    crate::text::concat2(s.substring_char(0, b), config.events_path.as_str())
}

/// The embedded file a request path names: the path without its leading
/// `'/'` characters, or `index.html` when nothing is left.
pub open spec fn asset_path_spec(uri_path: Seq<char>) -> Seq<char> {
    let raw = trim_start_char(uri_path, '/');
    if raw.len() == 0 {
        "index.html"@
    } else {
        raw
    }
}

/// The embedded file a request path names (see [`asset_path_spec`]).
pub fn asset_path(uri_path: &str) -> (r: String)
    ensures
        r@ == asset_path_spec(uri_path@),
{
    let v = chars_of(uri_path);
    let n = v.len();
    let mut a: usize = 0;
    assert(uri_path@.subrange(0, n as int) =~= uri_path@);
    while a < n && v[a] == '/'
        invariant
            a <= n == v@.len(),
            v@ == uri_path@,
            trim_start_char(uri_path@, '/') == trim_start_char(uri_path@.subrange(a as int, n as int), '/'),
        decreases n - a,
    {
        assert(uri_path@.subrange(a as int, n as int).drop_first() =~= uri_path@.subrange(a + 1, n as int));
        a += 1;
    }
    if a == n {
        assert(uri_path@.subrange(a as int, n as int) =~= Seq::<char>::empty());
        owned("index.html")
    } else {
        owned(uri_path.substring_char(a, n))
    }
}

/// The MIME type `mime_guess` gives a path (from its extension), or
/// `application/octet-stream` when it knows none.
pub uninterp spec fn mime_for_path(path: Seq<char>) -> Seq<char>;

/// Calls `mime_guess::from_path` and `MimeGuess::first_or_octet_stream`,
/// and spells the type as text.
#[verifier::external_body]
fn guess_mime(path: &str) -> (r: String)
    ensures
        r@ == mime_for_path(path@),
{
    mime_guess::from_path(path).first_or_octet_stream().to_string()
}

/// The content type of an embedded file.
pub fn asset_content_type(path: &str) -> (r: String)
    ensures
        r@ == mime_for_path(path@),
{
    guess_mime(path)
}

/// The `id` of a server-sent event: the milliseconds since the Unix epoch
/// in decimal, or the empty text when the clock is before the epoch.
pub fn event_id(since_epoch_ms: Option<u128>) -> (r: String)
    ensures
        match since_epoch_ms {
            Some(ms) => r@ == crate::read::decimal(ms as nat),
            None => r@ == Seq::<char>::empty(),
        },
{
    match since_epoch_ms {
        Some(ms) => crate::read::decimal_text(ms),
        None => String::new(),
    }
}

} // verus!

verus! {

/// The name of an error's kind, as error responses carry it.
pub open spec fn error_name_spec(e: Error) -> Seq<char> {
    match e {
        Error::RootNotFound(_) => "RootNotFound"@,
        Error::PathTraversal(_) => "PathTraversal"@,
        Error::NotFound(_) => "NotFound"@,
        Error::TooLarge { .. } => "TooLarge"@,
        Error::NotVisible(_) => "NotVisible"@,
        Error::NotAFile(_) => "NotAFile"@,
        Error::InvalidGlob(_) => "InvalidGlob"@,
        Error::Watch(_) => "Watch"@,
        Error::Io(_) => "Io"@,
    }
}

/// The name of an error's kind (see [`error_name_spec`]).
pub fn error_name(e: &Error) -> (r: String)
    ensures
        r@ == error_name_spec(*e),
{
    match e {
        Error::RootNotFound(_) => owned("RootNotFound"),
        Error::PathTraversal(_) => owned("PathTraversal"),
        Error::NotFound(_) => owned("NotFound"),
        Error::TooLarge { .. } => owned("TooLarge"),
        Error::NotVisible(_) => owned("NotVisible"),
        Error::NotAFile(_) => owned("NotAFile"),
        Error::InvalidGlob(_) => owned("InvalidGlob"),
        Error::Watch(_) => owned("Watch"),
        Error::Io(_) => owned("Io"),
    }
}

/// The query of `GET /api/files`: the name of the root to list, or none
/// for every root.
pub struct FilesQuery {
    pub root: Option<String>,
}

/// The query of `GET /api/file`: the logical path of the file to read.
pub struct FileQuery {
    pub path: String,
}

/// A library error on its way to an HTTP response.
pub struct AppError(pub Error);

impl AppError {
    /// The response's status (see [`status_spec`]).
    pub fn status(&self) -> (r: u16)
        ensures
            r == status_spec(self.0),
    {
        status_code(&self.0)
    }

    /// The response's error kind and message.
    pub fn body(&self) -> (r: (String, String))
        ensures
            r.0@ == error_name_spec(self.0),
            r.1@ == message_spec(self.0),
    {
        (error_name(&self.0), error_message(&self.0))
    }
}

/// Each setting comes from the command line when it gives one, else from
/// `config.toml`, else from the default: the port (8080), the polling
/// interval (3000 ms; an interval of 0 from either source turns polling
/// off), the debounce delay (300 ms) and the read limit (10 MiB).
pub proof fn settings_follow_precedence(cli: Cli, file: ConfigFile)
    ensures
        build_config_spec(cli, file) matches Ok((c, port)) ==> {
            &&& cli.port is Some ==> port == cli.port->0
            &&& (cli.port is None && file.port is Some) ==> port == file.port->0
            &&& (cli.port is None && file.port is None) ==> port == 8080
            &&& (cli.poll_interval_ms is Some && cli.poll_interval_ms->0 > 0) ==> c.poll_interval_ms
                == cli.poll_interval_ms
            &&& (cli.poll_interval_ms is None && file.poll_interval_ms is Some && file.poll_interval_ms->0 > 0)
                ==> c.poll_interval_ms == file.poll_interval_ms
            &&& (cli.poll_interval_ms == Some(0u64) || (cli.poll_interval_ms is None && file.poll_interval_ms
                == Some(0u64))) ==> c.poll_interval_ms is None
            &&& (cli.poll_interval_ms is None && file.poll_interval_ms is None) ==> c.poll_interval_ms == Some(3000u64)
            &&& file.debounce_ms is Some ==> c.debounce_ms == file.debounce_ms->0
            &&& file.debounce_ms is None ==> c.debounce_ms == 300
            &&& file.max_file_bytes is Some ==> c.max_file_bytes == file.max_file_bytes->0
            &&& file.max_file_bytes is None ==> c.max_file_bytes == 10485760
        },
{
}

} // verus!
