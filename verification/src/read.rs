//! Reading one file by logical path: the path checks, the visibility gate,
//! the size limit and the ETag.
//!
//! A read alternates file-system work with decisions. The caller does the
//! work and hands each result to the next step: [`read`] locates the root,
//! [`ReadStart::with_root`] takes the canonical root path,
//! [`ReadResolved::with_target`] the canonical target path,
//! [`ReadChecked::with_meta`] the target's metadata and
//! [`ReadSized::with_text`] its contents. Each step is a distinct type, so
//! no step can be skipped or taken out of order.

use vstd::prelude::*;

use crate::config::Config;
use crate::glob::strict_glob_set;
use crate::path::{assert_within, escapes_root, join, join_spec, path_starts_with, relative_text, relative_text_spec, split_logical};
use crate::scan::{find_root, first_root_named, ScanFilters};
use crate::text::{lemma_split_once, split_once_spec, chars_of, concat3, contains_dot_dot, owned, string_from_chars, strings};
use crate::visibility::{exposed, is_exposed};
use crate::Error;

verus! {

/// The result of a read.
#[derive(Debug)]
pub struct FileContent {
    /// The logical path that was read.
    pub path: String,
    /// The text of the file (UTF-8).
    pub content: String,
    /// Size on disk in bytes (not the number of characters).
    pub size: u64,
    /// Modification time in nanoseconds since the Unix epoch, when known.
    pub modified_at: Option<i128>,
    /// The ETag (quotes included), for `If-None-Match`.
    pub etag: Option<String>,
}

/// What the caller learned about the target: whether it is a regular file,
/// its size and its modification time (if the platform gives one).
pub struct FileMeta {
    pub is_file: bool,
    pub size: u64,
    pub modified_at: Option<i128>,
}

/// The character of a decimal digit.
pub open spec fn digit_char(d: nat) -> char {
    ((d + 48) as u8) as char
}

/// The decimal spelling of `n`.
pub open spec fn decimal(n: nat) -> Seq<char>
    decreases n,
{
    if n < 10 {
        seq![digit_char(n)]
    } else {
        decimal(n / 10).push(digit_char(n % 10))
    }
}

/// The ETag of a file modified at `t` (nanoseconds since the epoch): its
/// time in nanoseconds, in decimal, between double quotes; none for a time
/// before the epoch.
pub open spec fn etag_spec(t: i128) -> Option<Seq<char>> {
    if t >= 0 {
        Some(seq!['"'] + decimal(t as nat) + seq!['"'])
    } else {
        None
    }
}

/// The decimal spelling of `n` (see [`decimal`]).
pub fn decimal_text(n: u128) -> (r: String)
    ensures
        r@ == decimal(n as nat),
{
    let mut q = n;
    let mut out: Vec<char> = Vec::new();
    loop
        invariant
            decimal(n as nat) == decimal(q as nat) + out@,
        decreases q,
    {
        let d = (q % 10) as u8;
        let c = (48u8 + d) as char;
        assert(c == digit_char((q % 10) as nat));
        if q < 10 {
            out.insert(0, c);
            assert(out@ =~= seq![c] + (out@.drop_first()));
            assert(decimal(q as nat) == seq![c]);
            assert(decimal(n as nat) =~= out@);
            return string_from_chars(&out);
        }
        let ghost before = out@;
        out.insert(0, c);
        assert(out@ =~= seq![c] + before);
        assert(decimal(q as nat) == decimal((q / 10) as nat).push(c));
        assert(decimal((q / 10) as nat).push(c) + before =~= decimal((q / 10) as nat) + out@);
        q = q / 10;
    }
}

/// The ETag of a modification time (see [`etag_spec`]).
pub fn etag_for(modified_at: Option<i128>) -> (r: Option<String>)
    ensures
        match modified_at {
            Some(t) => match etag_spec(t) {
                Some(e) => r matches Some(s) && s@ == e,
                None => r is None,
            },
            None => r is None,
        },
{
    match modified_at {
        Some(t) => {
            if t >= 0 {
                let digits = decimal_text(t as u128);
                proof {
                    reveal_strlit("\"");
                }
                Some(concat3("\"", digits.as_str(), "\""))
            } else {
                None
            }
        },
        None => None,
    }
}

/// A read whose root is known: the caller canonicalizes the root's path
/// next and passes the outcome to [`ReadStart::with_root`].
pub struct ReadStart {
    logical: String,
    root: usize,
    relative: String,
    config: Ghost<Config>,
}

/// A read whose target path is known: the caller canonicalizes
/// [`ReadResolved::target`] next and passes the outcome to
/// [`ReadResolved::with_target`].
pub struct ReadResolved {
    logical: String,
    root: usize,
    canonical_root: String,
    target: String,
    config: Ghost<Config>,
}

/// A read whose target passed the path and visibility checks: the caller
/// reads the metadata of [`ReadChecked::canonical`] next and passes it to
/// [`ReadChecked::with_meta`].
pub struct ReadChecked {
    logical: String,
    root: usize,
    canonical_root: String,
    canonical: String,
    relative: String,
    config: Ghost<Config>,
}

/// A read of a regular file within the size limit: the caller reads the
/// text of [`ReadSized::canonical`] next and passes it to
/// [`ReadSized::with_text`].
pub struct ReadSized {
    logical: String,
    canonical: String,
    size: u64,
    modified_at: Option<i128>,
}

/// A logical path made of a root name without `'/'`, a `'/'` and a rest splits
/// back into exactly that root name and rest.
pub proof fn lemma_split(logical: Seq<char>, a: Seq<char>, b: Seq<char>)
    requires
        a + seq!['/'] + b == logical,
        !a.contains('/'),
    ensures
        split_once_spec(logical, '/') == Some((a, b)),
{
    let k = a.len() as int;
    assert(logical[k] == '/');
    assert(logical.take(k) =~= a);
    assert(logical.skip(k + 1) =~= b);
    lemma_split_once(logical, '/', k);
}

impl ReadStart {
    /// The configuration the read was started with; every later step is
    /// judged under it.
    pub closed spec fn config(self) -> Config {
        self.config@
    }

    pub closed spec fn logical(self) -> Seq<char> {
        self.logical@
    }

    pub closed spec fn root(self) -> int {
        self.root as int
    }

    pub closed spec fn relative(self) -> Seq<char> {
        self.relative@
    }

    /// The index of the root in the configuration.
    pub fn root_index(&self) -> (r: usize)
        ensures
            r == self.root(),
    {
        self.root
    }

    /// With the root's canonical path (or the I/O error's message): the
    /// path of the target inside it.
    pub fn with_root(self, canonical_root: Result<String, String>) -> (r: Result<ReadResolved, Error>)
        ensures
            match canonical_root {
                Err(msg) => r matches Err(Error::Io(m)) && m@ == msg@,
                Ok(cr) => r matches Ok(next) && next.logical() == self.logical() && next.root() == self.root()
                    && next.canonical_root() == cr@ && next.target() == join_spec(cr@, self.relative())
                    && next.config() == self.config(),
            },
    {
        match canonical_root {
            Err(msg) => Err(Error::Io(msg)),
            Ok(cr) => {
                let target = join(cr.as_str(), self.relative.as_str());
                Ok(ReadResolved { logical: self.logical, root: self.root, canonical_root: cr, target, config: self.config })
            },
        }
    }
}

impl ReadResolved {
    /// The configuration the read was started with; every later step is
    /// judged under it.
    pub closed spec fn config(self) -> Config {
        self.config@
    }

    pub closed spec fn logical(self) -> Seq<char> {
        self.logical@
    }

    pub closed spec fn root(self) -> int {
        self.root as int
    }

    pub closed spec fn canonical_root(self) -> Seq<char> {
        self.canonical_root@
    }

    pub closed spec fn target(self) -> Seq<char> {
        self.target@
    }

    /// The path to canonicalize.
    pub fn target_path(&self) -> (r: &str)
        ensures
            r@ == self.target(),
    {
        self.target.as_str()
    }

    /// With the target's canonical path (`None` when it could not be
    /// resolved, for instance because nothing exists there): checks that it
    /// lies inside the root and that it is visible.
    pub fn with_target(self, config: &Config, canonical: Option<String>) -> (r: Result<ReadChecked, Error>)
        requires
            *config == self.config(),
            self.root() < config.roots@.len(),
        ensures
            match canonical {
                None => r matches Err(Error::NotFound(m)) && m@ == self.logical(),
                Some(c) => if !path_starts_with(c@, self.canonical_root()) {
                    r matches Err(Error::PathTraversal(m)) && m@ == c@
                } else {
                    match strict_glob_set(strings(config.ignore_globs@)) {
                        Err(msg) => r matches Err(Error::InvalidGlob(m)) && m@ == msg,
                        Ok(ig) => if config.include_globs@.len() > 0 && strict_glob_set(strings(config.include_globs@)) is Err {
                            r matches Err(Error::InvalidGlob(m)) && m@ == strict_glob_set(strings(config.include_globs@))->Err_0
                        } else {
                            let inc = if config.include_globs@.len() > 0 {
                                Some(strict_glob_set(strings(config.include_globs@))->Ok_0)
                            } else {
                                None
                            };
                            let rel = relative_text_spec(c@, self.canonical_root())->0;
                            if exposed(strings(config.roots@[self.root()].expose@), rel, strings(config.include_extensions@), ig, inc) {
                                r matches Ok(next) && next.logical() == self.logical() && next.root() == self.root()
                                    && next.canonical_root() == self.canonical_root() && next.canonical() == c@
                                    && next.relative() == rel && next.config() == self.config()
                            } else {
                                r matches Err(Error::NotVisible(m)) && m@ == self.logical()
                            }
                        },
                    }
                },
            },
    {
        let c = match canonical {
            None => return Err(Error::NotFound(self.logical)),
            Some(c) => c,
        };
        assert_within(self.canonical_root.as_str(), c.as_str())?;
        let relative = match relative_text(c.as_str(), self.canonical_root.as_str()) {
            Some(rel) => rel,
            None => return Err(Error::PathTraversal(self.logical)),
        };
        let filters = ScanFilters::new(config)?;
        let root = &config.roots[self.root];
        if !is_exposed(&root.expose, relative.as_str(), &config.include_extensions, &filters.ignore_set, filters.include_glob_set.as_ref()) {
            return Err(Error::NotVisible(self.logical));
        }
        Ok(ReadChecked { logical: self.logical, root: self.root, canonical_root: self.canonical_root, canonical: c, relative, config: self.config })
    }
}

impl ReadChecked {
    /// The configuration the read was started with; every later step is
    /// judged under it.
    pub closed spec fn config(self) -> Config {
        self.config@
    }

    pub closed spec fn logical(self) -> Seq<char> {
        self.logical@
    }

    pub closed spec fn root(self) -> int {
        self.root as int
    }

    pub closed spec fn canonical_root(self) -> Seq<char> {
        self.canonical_root@
    }

    pub closed spec fn canonical(self) -> Seq<char> {
        self.canonical@
    }

    pub closed spec fn relative(self) -> Seq<char> {
        self.relative@
    }

    /// The path whose metadata is read.
    pub fn canonical_path(&self) -> (r: &str)
        ensures
            r@ == self.canonical(),
    {
        self.canonical.as_str()
    }

    /// With the target's metadata (`None` when it could not be read):
    /// refuses anything but a regular file, and files over the size limit.
    pub fn with_meta(self, config: &Config, meta: Option<FileMeta>) -> (r: Result<ReadSized, Error>)
        requires
            *config == self.config(),
        ensures
            match meta {
                None => r matches Err(Error::NotFound(m)) && m@ == self.logical(),
                Some(fm) => if !fm.is_file {
                    r matches Err(Error::NotAFile(m)) && m@ == self.logical()
                } else if fm.size > config.max_file_bytes {
                    r == Err::<ReadSized, Error>(Error::TooLarge { size: fm.size, limit: config.max_file_bytes })
                } else {
                    r matches Ok(next) && next.logical() == self.logical() && next.canonical() == self.canonical()
                        && next.size() == fm.size && next.modified_at() == fm.modified_at
                },
            },
    {
        let fm = match meta {
            None => return Err(Error::NotFound(self.logical)),
            Some(fm) => fm,
        };
        if !fm.is_file {
            return Err(Error::NotAFile(self.logical));
        }
        if fm.size > config.max_file_bytes {
            return Err(Error::TooLarge { size: fm.size, limit: config.max_file_bytes });
        }
        Ok(ReadSized { logical: self.logical, canonical: self.canonical, size: fm.size, modified_at: fm.modified_at })
    }
}

impl ReadSized {
    pub closed spec fn logical(self) -> Seq<char> {
        self.logical@
    }

    pub closed spec fn canonical(self) -> Seq<char> {
        self.canonical@
    }

    pub closed spec fn size(self) -> u64 {
        self.size
    }

    pub closed spec fn modified_at(self) -> Option<i128> {
        self.modified_at
    }

    /// The path whose text is read.
    pub fn canonical_path(&self) -> (r: &str)
        ensures
            r@ == self.canonical(),
    {
        self.canonical.as_str()
    }

    /// With the file's text (or the I/O error's message, which includes
    /// text that is not UTF-8): the read's result.
    pub fn with_text(self, text: Result<String, String>) -> (r: Result<FileContent, Error>)
        ensures
            match text {
                Err(msg) => r matches Err(Error::Io(m)) && m@ == msg@,
                Ok(t) => r matches Ok(fc) && fc.path@ == self.logical() && fc.content@ == t@
                    && fc.size == self.size() && fc.modified_at == self.modified_at()
                    && match self.modified_at() {
                        Some(mt) => match etag_spec(mt) {
                            Some(e) => fc.etag matches Some(s) && s@ == e,
                            None => fc.etag is None,
                        },
                        None => fc.etag is None,
                    },
            },
    {
        match text {
            Err(msg) => Err(Error::Io(msg)),
            Ok(content) => {
                let etag = etag_for(self.modified_at);
                Ok(FileContent { path: self.logical, content, size: self.size, modified_at: self.modified_at, etag })
            },
        }
    }
}

/// Starts reading `logical_path` (`"root/relative"`): finds the root and
/// refuses a relative part that contains `".."` or is absolute. Errors: `NotFound` without a `'/'`,
/// `RootNotFound` with the root name, `PathTraversal` with the relative part.
pub fn read(config: &Config, logical_path: &str) -> (r: Result<ReadStart, Error>)
    ensures
        match split_once_spec(logical_path@, '/') {
            None => r matches Err(Error::NotFound(m)) && m@ == logical_path@,
            Some((name, rel)) => match first_root_named(config.roots@, name, 0) {
                None => r matches Err(Error::RootNotFound(m)) && m@ == name,
                Some(i) => if escapes_root(rel) {
                    r matches Err(Error::PathTraversal(m)) && m@ == rel
                } else {
                    r matches Ok(s) && s.logical() == logical_path@ && s.root() == i && s.relative() == rel
                        && s.config() == *config
                },
            },
        },
{
    let (root_name, relative) = match split_logical(logical_path) {
        Some(parts) => parts,
        None => return Err(Error::NotFound(owned(logical_path))),
    };
    proof {
        lemma_split(logical_path@, root_name@, relative@);
    }
    let root = match find_root(config, root_name) {
        Some(i) => i,
        None => return Err(Error::RootNotFound(owned(root_name))),
    };
    let rv = chars_of(relative);
    if contains_dot_dot(&rv) || (rv.len() > 0 && rv[0] == '/') {
        return Err(Error::PathTraversal(owned(relative)));
    }
    Ok(ReadStart { logical: owned(logical_path), root, relative: owned(relative), config: Ghost(*config) })
}

} // verus!
