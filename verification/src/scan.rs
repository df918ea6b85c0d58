//! File trees of the roots, for listing.
//!
//! The directory walk itself is file-system work done by the caller: it
//! reads each directory into a [`RawEntry`] list, descending only into
//! directories that [`ScanFilters::descend`] allows. This module orders the
//! entries by name and decides, through the visibility gate, what the tree
//! shows: file nodes carry a logical path, size and time; directory nodes
//! carry their children.

use vstd::prelude::*;

use globset::GlobSet;

use crate::config::{Config, Root};
use crate::glob::{build_glob_set, glob_set_is_match, set_matches, set_patterns, strict_glob_set};
use crate::path::forward_slashes;
use crate::text::{chars_of, concat3, owned, slash, str_eq, string_from_chars, strings};
use crate::visibility::{exposed, is_exposed};
use crate::Error;

verus! {

/// What a tree node is.
#[derive(Debug, Clone, Copy, PartialEq, Eq, Structural)]
pub enum NodeKind {
    File,
    Dir,
}

/// A node of a file tree. File nodes have `path`, `size` and `modified_at`;
/// directory nodes have `children`.
#[derive(Debug)]
pub struct FileNode {
    pub name: String,
    pub kind: NodeKind,
    /// Logical path `root/relative` (files only).
    pub path: Option<String>,
    /// Size in bytes (files only).
    pub size: Option<u64>,
    /// Modification time in nanoseconds since the Unix epoch (files only,
    /// when known).
    pub modified_at: Option<i128>,
    /// The directory's visible contents (directories only).
    pub children: Option<Vec<FileNode>>,
}

/// The file tree of one root.
#[derive(Debug)]
pub struct FileTree {
    pub root: String,
    pub tree: Vec<FileNode>,
}

/// A tree node as plain values.
pub struct FileNodeView {
    pub name: Seq<char>,
    pub kind: NodeKind,
    pub path: Option<Seq<char>>,
    pub size: Option<u64>,
    pub modified_at: Option<i128>,
    pub children: Option<Seq<FileNodeView>>,
}

/// The plain value of a node, children included.
pub open spec fn node_view(n: FileNode) -> FileNodeView
    decreases n,
{
    FileNodeView {
        name: n.name@,
        kind: n.kind,
        path: match n.path {
            Some(p) => Some(p@),
            None => None,
        },
        size: n.size,
        modified_at: n.modified_at,
        children: match n.children {
            Some(v) => Some(Seq::new(v@.len(), |i: int| if 0 <= i < v@.len() {
                node_view(v@[i])
            } else {
                FileNodeView { name: Seq::empty(), kind: NodeKind::File, path: None, size: None, modified_at: None, children: None }
            })),
            None => None,
        },
    }
}

/// The plain values of a list of nodes.
pub open spec fn node_views(v: Seq<FileNode>) -> Seq<FileNodeView> {
    Seq::new(v.len(), |i: int| node_view(v[i]))
}

/// A directory entry as the walk found it.
pub enum RawKind {
    /// A directory, with its entries when the walk descended into it.
    Dir(Option<Vec<RawEntry>>),
    /// A regular file.
    File { size: u64, modified_at: Option<i128> },
    /// Anything else (symbolic links are not followed).
    Other,
}

/// One directory entry: its name and what it is.
pub struct RawEntry {
    pub name: String,
    pub kind: RawKind,
}

/// Strict code-point order of two names (that of `OsStr` for UTF-8 names).
pub open spec fn name_lt(a: Seq<char>, b: Seq<char>) -> bool
    decreases a.len(),
{
    if a.len() == 0 {
        b.len() > 0
    } else if b.len() == 0 {
        false
    } else if a[0] != b[0] {
        (a[0] as u32) < (b[0] as u32)
    } else {
        name_lt(a.drop_first(), b.drop_first())
    }
}

/// Inserts index `k` into the name-ordered index list `s`: after every index
/// whose name is not greater, so equal names keep their order.
pub open spec fn insert_by_name(names: Seq<Seq<char>>, s: Seq<int>, k: int) -> Seq<int>
    decreases s.len(),
{
    if s.len() == 0 {
        seq![k]
    } else if name_lt(names[k], names[s[0]]) {
        seq![k] + s
    } else {
        seq![s[0]] + insert_by_name(names, s.drop_first(), k)
    }
}

/// The indices `0..n` ordered by name, stably (insertion sort).
pub open spec fn sort_order(names: Seq<Seq<char>>, n: int) -> Seq<int>
    decreases n,
{
    if n <= 0 {
        Seq::empty()
    } else {
        insert_by_name(names, sort_order(names, n - 1), n - 1)
    }
}

/// The names of a list of entries.
pub open spec fn entry_names(es: Seq<RawEntry>) -> Seq<Seq<char>> {
    Seq::new(es.len(), |i: int| es[i].name@)
}

/// The order in which the entries of a directory are visited: by name.
pub open spec fn visit_order(es: Seq<RawEntry>) -> Seq<int> {
    sort_order(entry_names(es), es.len() as int)
}

/// What a scan needs besides the entries: the root's name and allow list,
/// and the global rules.
pub struct ScanCtx {
    pub root: Seq<char>,
    pub expose: Seq<Seq<char>>,
    pub extensions: Seq<Seq<char>>,
    pub ignore: Seq<Seq<char>>,
    pub required: Option<Seq<Seq<char>>>,
}

/// The path, relative to the root, of entry `name` of the directory at
/// `prefix` (the empty text for the root itself), with forward slashes.
pub open spec fn child_rel(prefix: Seq<char>, name: Seq<char>) -> Seq<char> {
    if prefix.len() == 0 {
        forward_slashes(name)
    } else {
        prefix + seq!['/'] + forward_slashes(name)
    }
}

/// The node an entry becomes, if any: an invisible file gives none, and so
/// does a directory that an ignore glob matches when the root has no allow
/// list (an allow list replaces the global rules, ignore globs included),
/// and anything that is neither file nor directory.
pub open spec fn node_spec(e: RawEntry, prefix: Seq<char>, ctx: ScanCtx) -> Option<FileNodeView>
    decreases e, 0nat,
{
    let rel = child_rel(prefix, e.name@);
    match e.kind {
        RawKind::Dir(children) => if ctx.expose.len() == 0 && set_matches(ctx.ignore, rel) {
            None
        } else {
            let kids = match children {
                Some(v) => nodes_spec(v@, visit_order(v@), rel, ctx),
                None => Seq::empty(),
            };
            Some(FileNodeView { name: e.name@, kind: NodeKind::Dir, path: None, size: None, modified_at: None, children: Some(kids) })
        },
        RawKind::File { size, modified_at } => if exposed(ctx.expose, rel, ctx.extensions, ctx.ignore, ctx.required) {
            Some(FileNodeView {
                name: e.name@,
                kind: NodeKind::File,
                path: Some(ctx.root + seq!['/'] + rel),
                size: Some(size),
                modified_at,
                children: None,
            })
        } else {
            None
        },
        RawKind::Other => None,
    }
}

/// The nodes of the entries `es` visited in `order`.
pub open spec fn nodes_spec(es: Seq<RawEntry>, order: Seq<int>, prefix: Seq<char>, ctx: ScanCtx) -> Seq<FileNodeView>
    decreases es, order.len(),
{
    if order.len() == 0 {
        Seq::empty()
    } else {
        let before = nodes_spec(es, order.drop_last(), prefix, ctx);
        let k = order.last();
        if 0 <= k < es.len() {
            match node_spec(es[k], prefix, ctx) {
                Some(n) => before.push(n),
                None => before,
            }
        } else {
            before
        }
    }
}

/// The compiled global rules of a configuration.
pub struct ScanFilters {
    pub ignore_set: GlobSet,
    pub include_glob_set: Option<GlobSet>,
}

/// The scan context of a root under a configuration and its filters.
pub open spec fn scan_ctx(root: Root, config: Config, filters: ScanFilters) -> ScanCtx {
    ScanCtx {
        root: root.name@,
        expose: strings(root.expose@),
        extensions: strings(config.include_extensions@),
        ignore: set_patterns(filters.ignore_set),
        required: match filters.include_glob_set {
            Some(s) => Some(set_patterns(s)),
            None => None,
        },
    }
}

impl ScanFilters {
    /// Compiles the ignore globs, then the include globs (when there are
    /// any); the first failure is the result.
    pub fn new(config: &Config) -> (r: Result<ScanFilters, Error>)
        ensures
            match strict_glob_set(strings(config.ignore_globs@)) {
                Err(msg) => r matches Err(Error::InvalidGlob(m)) && m@ == msg,
                Ok(ig) => if config.include_globs@.len() == 0 {
                    r matches Ok(f) && set_patterns(f.ignore_set) == ig && f.include_glob_set is None
                } else {
                    match strict_glob_set(strings(config.include_globs@)) {
                        Err(msg) => r matches Err(Error::InvalidGlob(m)) && m@ == msg,
                        Ok(inc) => r matches Ok(f) && set_patterns(f.ignore_set) == ig
                            && (f.include_glob_set matches Some(s) && set_patterns(s) == inc),
                    }
                },
            },
    {
        let ignore_set = build_glob_set(&config.ignore_globs)?;
        let include_glob_set = if config.include_globs.len() == 0 {
            None
        } else {
            Some(build_glob_set(&config.include_globs)?)
        };
        Ok(ScanFilters { ignore_set, include_glob_set })
    }

    /// Whether the walk enters the directory of `root` at `relative`:
    /// without an allow list, ignored directories are skipped without being
    /// read; with one, every directory is entered.
    pub fn descend(&self, root: &Root, relative: &str) -> (r: bool)
        ensures
            r == (root.expose@.len() > 0 || !set_matches(set_patterns(self.ignore_set), relative@)),
    {
        root.expose.len() > 0 || !glob_set_is_match(&self.ignore_set, relative)
    }
}

/// The relative path of entry `name` of the directory at `prefix` (see
/// [`child_rel`]).
pub fn child_relative(prefix: &str, name: &str) -> (r: String)
    ensures
        r@ == child_rel(prefix@, name@),
{
    let mut v = chars_of(name);
    let ghost orig = v@;
    let mut k: usize = 0;
    while k < v.len()
        invariant
            k <= v@.len(),
            v@.len() == orig.len(),
            forall|m: int| 0 <= m < k ==> v@[m] == (if orig[m] == '\\' { '/' } else { orig[m] }),
            forall|m: int| k <= m < v@.len() ==> v@[m] == orig[m],
        decreases v.len() - k,
    {
        if v[k] == '\\' {
            v.set(k, '/');
        }
        k += 1;
    }
    assert(v@ =~= forward_slashes(name@));
    let fixed = string_from_chars(&v);
    if prefix.unicode_len() == 0 {
        fixed
    } else {
        concat3(prefix, slash(), fixed.as_str())
    }
}

/// `name_lt` on character vectors.
fn chars_lt(a: &Vec<char>, b: &Vec<char>) -> (r: bool)
    ensures
        r == name_lt(a@, b@),
{
    let mut i: usize = 0;
    assert(a@.skip(0) =~= a@);
    assert(b@.skip(0) =~= b@);
    while i < a.len() && i < b.len()
        invariant
            i <= a@.len(),
            i <= b@.len(),
            name_lt(a@, b@) == name_lt(a@.skip(i as int), b@.skip(i as int)),
        decreases a.len() - i,
    {
        assert(a@.skip(i as int)[0] == a@[i as int]);
        assert(b@.skip(i as int)[0] == b@[i as int]);
        if a[i] != b[i] {
            return (a[i] as u32) < (b[i] as u32);
        }
        assert(a@.skip(i as int).drop_first() =~= a@.skip(i + 1));
        assert(b@.skip(i as int).drop_first() =~= b@.skip(i + 1));
        i += 1;
    }
    b.len() > i && a.len() == i
}

/// The int view of a list of indices.
pub open spec fn index_view(v: Seq<usize>) -> Seq<int> {
    Seq::new(v.len(), |i: int| v[i] as int)
}

proof fn lemma_insert_at(names: Seq<Seq<char>>, s: Seq<int>, k: int, p: int)
    requires
        0 <= p <= s.len(),
        forall|j: int| 0 <= j < p ==> !name_lt(names[k], names[#[trigger] s[j]]),
        p < s.len() ==> name_lt(names[k], names[s[p]]),
    ensures
        insert_by_name(names, s, k) == s.take(p) + seq![k] + s.skip(p),
    decreases s.len(),
{
    if s.len() == 0 {
        assert(s.take(p) + seq![k] + s.skip(p) =~= seq![k]);
    } else if p == 0 {
        assert(s.take(p) + seq![k] + s.skip(p) =~= seq![k] + s);
    } else {
        let t = s.drop_first();
        assert forall|j: int| 0 <= j < p - 1 implies !name_lt(names[k], names[#[trigger] t[j]]) by {
            assert(t[j] == s[j + 1]);
        }
        if p - 1 < t.len() {
            assert(t[p - 1] == s[p]);
        }
        lemma_insert_at(names, t, k, p - 1);
        assert(!name_lt(names[k], names[s[0]]));
        assert(seq![s[0]] + (t.take(p - 1) + seq![k] + t.skip(p - 1)) =~= s.take(p) + seq![k] + s.skip(p));
    }
}

/// The visiting order of the entries (see [`visit_order`]).
fn order_entries(es: &Vec<RawEntry>) -> (r: Vec<usize>)
    ensures
        index_view(r@) == visit_order(es@),
        forall|i: int| 0 <= i < r@.len() ==> #[trigger] r@[i] < es@.len(),
{
    let ghost names = entry_names(es@);
    let mut name_chars: Vec<Vec<char>> = Vec::new();
    let mut i: usize = 0;
    while i < es.len()
        invariant
            i <= es@.len(),
            names == entry_names(es@),
            name_chars@.len() == i,
            forall|j: int| 0 <= j < i ==> #[trigger] name_chars@[j]@ == names[j],
        decreases es.len() - i,
    {
        name_chars.push(chars_of(es[i].name.as_str()));
        i += 1;
    }
    let mut sorted: Vec<usize> = Vec::new();
    let mut k: usize = 0;
    assert(index_view(sorted@) =~= sort_order(names, 0));
    while k < es.len()
        invariant
            k <= es@.len(),
            names == entry_names(es@),
            name_chars@.len() == es@.len(),
            forall|j: int| 0 <= j < es@.len() ==> #[trigger] name_chars@[j]@ == names[j],
            index_view(sorted@) == sort_order(names, k as int),
            forall|j: int| 0 <= j < sorted@.len() ==> #[trigger] sorted@[j] < k,
        decreases es.len() - k,
    {
        let ghost s = index_view(sorted@);
        let mut p: usize = 0;
        while p < sorted.len() && !chars_lt(&name_chars[k], &name_chars[sorted[p]])
            invariant
                p <= sorted@.len(),
                k < es@.len(),
                s == index_view(sorted@),
                name_chars@.len() == es@.len(),
                forall|j: int| 0 <= j < es@.len() ==> #[trigger] name_chars@[j]@ == names[j],
                forall|j: int| 0 <= j < sorted@.len() ==> #[trigger] sorted@[j] < k,
                forall|j: int| 0 <= j < p ==> !name_lt(names[k as int], names[#[trigger] s[j]]),
            decreases sorted.len() - p,
        {
            assert(s[p as int] == sorted@[p as int] as int);
            p += 1;
        }
        proof {
            if p < sorted@.len() {
                assert(s[p as int] == sorted@[p as int] as int);
            }
            lemma_insert_at(names, s, k as int, p as int);
        }
        sorted.insert(p, k);
        assert(index_view(sorted@) =~= s.take(p as int) + seq![k as int] + s.skip(p as int));
        k += 1;
    }
    sorted
}

/// The node of one entry (see [`node_spec`]).
fn scan_entry(e: &RawEntry, prefix: &str, root: &Root, config: &Config, filters: &ScanFilters) -> (r: Option<FileNode>)
    ensures
        match node_spec(*e, prefix@, scan_ctx(*root, *config, *filters)) {
            Some(v) => r matches Some(n) && node_view(n) == v,
            None => r is None,
        },
    decreases *e, 0nat,
{
    let rel = child_relative(prefix, e.name.as_str());
    match &e.kind {
        RawKind::Dir(children) => {
            if root.expose.len() == 0 && glob_set_is_match(&filters.ignore_set, rel.as_str()) {
                return None;
            }
            let kids = match children {
                Some(v) => scan_dir(v, rel.as_str(), root, config, filters),
                None => {
                    let none: Vec<FileNode> = Vec::new();
                    assert(node_views(none@) =~= Seq::<FileNodeView>::empty());
                    none
                },
            };
            let n = FileNode {
                name: owned(e.name.as_str()),
                kind: NodeKind::Dir,
                path: None,
                size: None,
                modified_at: None,
                children: Some(kids),
            };
            assert(node_view(n).children->0 =~= node_views(kids@));
            Some(n)
        },
        RawKind::File { size, modified_at } => {
            if is_exposed(&root.expose, rel.as_str(), &config.include_extensions, &filters.ignore_set, filters.include_glob_set.as_ref()) {
                Some(FileNode {
                    name: owned(e.name.as_str()),
                    kind: NodeKind::File,
                    path: Some(concat3(root.name.as_str(), slash(), rel.as_str())),
                    size: Some(*size),
                    modified_at: *modified_at,
                    children: None,
                })
            } else {
                None
            }
        },
        RawKind::Other => None,
    }
}

/// The nodes of a directory's entries, in name order, without the ignored
/// directories and the invisible files (see [`nodes_spec`]). `prefix` is the
/// directory's path relative to the root (empty for the root). At every
/// depth, entries come in name order.
pub fn scan_dir(entries: &Vec<RawEntry>, prefix: &str, root: &Root, config: &Config, filters: &ScanFilters) -> (r: Vec<FileNode>)
    ensures
        node_views(r@) == nodes_spec(entries@, visit_order(entries@), prefix@, scan_ctx(*root, *config, *filters)),
        nodes_in_name_order(node_views(r@)),
    decreases *entries, 1nat,
{
    let order = order_entries(entries);
    let ghost ov = index_view(order@);
    let ghost ctx = scan_ctx(*root, *config, *filters);
    let mut nodes: Vec<FileNode> = Vec::new();
    let mut j: usize = 0;
    assert(ov.take(0) =~= Seq::<int>::empty());
    assert(node_views(nodes@) =~= Seq::<FileNodeView>::empty());
    while j < order.len()
        invariant
            j <= order@.len(),
            ov == index_view(order@),
            ov == visit_order(entries@),
            ctx == scan_ctx(*root, *config, *filters),
            forall|i: int| 0 <= i < order@.len() ==> #[trigger] order@[i] < entries@.len(),
            node_views(nodes@) == nodes_spec(entries@, ov.take(j as int), prefix@, ctx),
        decreases order.len() - j,
    {
        let k = order[j];
        assert(ov.take(j + 1).drop_last() =~= ov.take(j as int));
        assert(ov.take(j + 1).last() == k as int);
        let ghost before = node_views(nodes@);
        match scan_entry(&entries[k], prefix, root, config, filters) {
            Some(n) => {
                let ghost nv = node_view(n);
                nodes.push(n);
                assert(node_views(nodes@) =~= before.push(nv));
            },
            None => {},
        }
        j += 1;
    }
    assert(ov.take(order@.len() as int) =~= ov);
    proof {
        listed_trees_are_in_name_order(entries@, prefix@, ctx);
    }
    nodes
}

/// The file tree of `root` from the entries the walk found in its directory.
pub fn scan_root(root: &Root, config: &Config, filters: &ScanFilters, entries: &Vec<RawEntry>) -> (t: FileTree)
    ensures
        t.root@ == root.name@,
        node_views(t.tree@) == nodes_spec(entries@, visit_order(entries@), Seq::empty(), scan_ctx(*root, *config, *filters)),
        nodes_in_name_order(node_views(t.tree@)),
{
    let empty = "";
    proof {
        reveal_strlit("");
    }
    assert(empty@ =~= Seq::<char>::empty());
    let tree = scan_dir(entries, empty, root, config, filters);
    FileTree { root: owned(root.name.as_str()), tree }
}

} // verus!

verus! {

/// The first root named `name`, from index `i` on.
pub open spec fn first_root_named(roots: Seq<Root>, name: Seq<char>, i: int) -> Option<int>
    decreases roots.len() - i,
{
    if i < 0 || i >= roots.len() {
        None
    } else if roots[i].name@ == name {
        Some(i)
    } else {
        first_root_named(roots, name, i + 1)
    }
}

/// The index of the first root of `config` named `name`.
pub fn find_root(config: &Config, name: &str) -> (r: Option<usize>)
    ensures
        match r {
            Some(j) => first_root_named(config.roots@, name@, 0) == Some(j as int),
            None => first_root_named(config.roots@, name@, 0) is None,
        },
{
    let mut i: usize = 0;
    while i < config.roots.len()
        invariant
            i <= config.roots@.len(),
            first_root_named(config.roots@, name@, 0) == first_root_named(config.roots@, name@, i as int),
        decreases config.roots.len() - i,
    {
        if str_eq(config.roots[i].name.as_str(), name) {
            return Some(i);
        }
        i += 1;
    }
    None
}

/// The roots a listing covers, in order: every root when no name is given,
/// else the first root with that name; `Err` with the name when there is none.
pub open spec fn listed_roots(roots: Seq<Root>, name: Option<Seq<char>>) -> Result<Seq<int>, Seq<char>> {
    match name {
        None => Ok(Seq::new(roots.len(), |i: int| i)),
        Some(n) => match first_root_named(roots, n, 0) {
            Some(i) => Ok(seq![i]),
            None => Err(n),
        },
    }
}

/// A listing in progress: the roots still to scan and the trees so far.
pub struct Listing {
    roots: Vec<usize>,
    trees: Vec<FileTree>,
}

/// What the caller does next for a listing.
pub enum ListAction {
    /// Walk the root with this index and hand its tree to [`Listing::add`].
    ScanRoot(usize),
    /// The listing is complete.
    Finished(Vec<FileTree>),
}

impl Listing {
    /// No more trees than roots.
    #[verifier::type_invariant]
    closed spec fn wf(self) -> bool {
        self.trees@.len() <= self.roots@.len()
    }

    /// The indices of the roots not scanned yet, in order.
    pub closed spec fn pending(self) -> Seq<int> {
        index_view(self.roots@).skip(self.trees@.len() as int)
    }

    /// The trees gathered so far.
    pub closed spec fn trees(self) -> Seq<FileTree> {
        self.trees@
    }

    /// The next thing to do: scan the next root, or hand out the trees.
    pub fn next_action(self) -> (r: (Listing, ListAction))
        ensures
            self.pending().len() > 0 ==> (r.1 matches ListAction::ScanRoot(i) && i == self.pending()[0]
                && r.0.pending() == self.pending() && r.0.trees() == self.trees()),
            self.pending().len() == 0 ==> (r.1 matches ListAction::Finished(ts) && ts@ == self.trees()),
    {
        proof {
            use_type_invariant(&self);
        }
        if self.trees.len() < self.roots.len() {
            let i = self.roots[self.trees.len()];
            proof {
                assert(self.pending()[0] == index_view(self.roots@)[self.trees@.len() as int]);
            }
            (self, ListAction::ScanRoot(i))
        } else {
            let Listing { roots, trees } = self;
            let done = Listing { roots: Vec::new(), trees: Vec::new() };
            (done, ListAction::Finished(trees))
        }
    }

    /// Records the tree of the root that [`Listing::next_action`] asked for.
    pub fn add(&mut self, tree: FileTree)
        requires
            old(self).pending().len() > 0,
        ensures
            final(self).trees() == old(self).trees().push(tree),
            final(self).pending() == old(self).pending().drop_first(),
    {
        proof {
            use_type_invariant(&*self);
        }
        let ghost before = self.pending();
        let ghost rv = index_view(self.roots@);
        let ghost t: int = self.trees@.len() as int;
        let mut trees: Vec<FileTree> = Vec::new();
        std::mem::swap(&mut trees, &mut self.trees);
        trees.push(tree);
        self.trees = trees;
        assert(self.pending() =~= rv.skip(t + 1int));
        assert(rv.skip(t + 1int) =~= rv.skip(t).drop_first());
    }
}

/// Starts listing the file trees: of every root when `root_name` is `None`,
/// else of the first root with that name (`RootNotFound` when there is
/// none). The caller then follows [`Listing::next_action`].
pub fn list(config: &Config, root_name: Option<&str>) -> (r: Result<Listing, Error>)
    ensures
        match listed_roots(config.roots@, match root_name { Some(n) => Some(n@), None => None }) {
            Ok(ids) => r matches Ok(l) && l.pending() == ids && l.trees().len() == 0,
            Err(n) => r matches Err(Error::RootNotFound(m)) && m@ == n,
        },
{
    let mut roots: Vec<usize> = Vec::new();
    match root_name {
        Some(name) => match find_root(config, name) {
            Some(i) => {
                roots.push(i);
            },
            None => return Err(Error::RootNotFound(owned(name))),
        },
        None => {
            let mut i: usize = 0;
            while i < config.roots.len()
                invariant
                    i <= config.roots@.len(),
                    index_view(roots@) == Seq::new(i as nat, |j: int| j),
                decreases config.roots.len() - i,
            {
                let ghost before = index_view(roots@);
                roots.push(i);
                assert(index_view(roots@) =~= before.push(i as int));
                assert(before.push(i as int) =~= Seq::new((i + 1) as nat, |j: int| j));
                i += 1;
            }
        },
    }
    let l = Listing { roots, trees: Vec::new() };
    assert(l.pending() =~= index_view(l.roots@));
    assert(root_name is None ==> index_view(l.roots@) =~= Seq::new(config.roots@.len(), |j: int| j));
    assert(root_name is Some ==> index_view(l.roots@) =~= seq![l.roots@[0] as int]);
    Ok(l)
}

} // verus!

verus! {

/// A file appears in a listing only with its logical path `root/relative`
/// and only when the visibility gate lets its relative path through; for a
/// root without an allow list, a directory appears only when no ignore glob
/// matches it.
pub proof fn listed_entries_pass_the_gate(e: RawEntry, prefix: Seq<char>, ctx: ScanCtx)
    ensures
        node_spec(e, prefix, ctx) matches Some(n) ==> (n.kind == NodeKind::File ==> n.path == Some(
            ctx.root + seq!['/'] + child_rel(prefix, e.name@),
        ) && exposed(ctx.expose, child_rel(prefix, e.name@), ctx.extensions, ctx.ignore, ctx.required)),
        node_spec(e, prefix, ctx) matches Some(n) ==> (n.kind == NodeKind::Dir && ctx.expose.len() == 0
            ==> !set_matches(ctx.ignore, child_rel(prefix, e.name@))),
{
}

/// For a root with an allow list, which replaces the global rules, no
/// directory is left out: the files the allow list names under a directory
/// that an ignore glob matches are still reached.
pub proof fn allow_list_keeps_every_directory(e: RawEntry, prefix: Seq<char>, ctx: ScanCtx)
    requires
        ctx.expose.len() > 0,
        e.kind is Dir,
    ensures
        node_spec(e, prefix, ctx) matches Some(n) && n.kind == NodeKind::Dir,
{
}

/// Every file node of a tree, at any depth, carries a logical path
/// `root/relative` whose relative part passes the visibility gate.
pub open spec fn node_files_visible(n: FileNodeView, ctx: ScanCtx) -> bool
    decreases n, 0nat,
{
    match n.kind {
        NodeKind::File => exists|rel: Seq<char>|
            n.path == Some(ctx.root + seq!['/'] + rel) && #[trigger] exposed(ctx.expose, rel, ctx.extensions, ctx.ignore, ctx.required),
        NodeKind::Dir => match n.children {
            Some(c) => nodes_files_visible(c, ctx),
            None => true,
        },
    }
}

/// [`node_files_visible`] for each node of a list.
pub open spec fn nodes_files_visible(s: Seq<FileNodeView>, ctx: ScanCtx) -> bool
    decreases s, s.len(),
{
    if s.len() == 0 {
        true
    } else {
        nodes_files_visible(s.drop_last(), ctx) && node_files_visible(s.last(), ctx)
    }
}

proof fn lemma_node_visible(e: RawEntry, prefix: Seq<char>, ctx: ScanCtx)
    ensures
        node_spec(e, prefix, ctx) matches Some(n) ==> node_files_visible(n, ctx),
    decreases e, 0nat,
{
    let rel = child_rel(prefix, e.name@);
    match e.kind {
        RawKind::Dir(children) => {
            if !(ctx.expose.len() == 0 && set_matches(ctx.ignore, rel)) {
                match children {
                    Some(v) => {
                        lemma_nodes_visible(v@, visit_order(v@), rel, ctx);
                    },
                    None => {},
                }
            }
        },
        RawKind::File { size, modified_at } => {
            if exposed(ctx.expose, rel, ctx.extensions, ctx.ignore, ctx.required) {
                let n = node_spec(e, prefix, ctx)->0;
                assert(n.path == Some(ctx.root + seq!['/'] + rel));
            }
        },
        RawKind::Other => {},
    }
}

proof fn lemma_nodes_visible(es: Seq<RawEntry>, order: Seq<int>, prefix: Seq<char>, ctx: ScanCtx)
    ensures
        nodes_files_visible(nodes_spec(es, order, prefix, ctx), ctx),
    decreases es, order.len(),
{
    if order.len() > 0 {
        lemma_nodes_visible(es, order.drop_last(), prefix, ctx);
        let before = nodes_spec(es, order.drop_last(), prefix, ctx);
        let k = order.last();
        if 0 <= k < es.len() {
            lemma_node_visible(es[k], prefix, ctx);
            match node_spec(es[k], prefix, ctx) {
                Some(n) => {
                    assert(before.push(n).drop_last() =~= before);
                },
                None => {},
            }
        }
    }
}

/// Every file of a listed tree, however deep, passes the visibility gate:
/// the listing shows nothing that a read would refuse as invisible.
pub proof fn listed_trees_show_only_visible_files(es: Seq<RawEntry>, ctx: ScanCtx)
    ensures
        nodes_files_visible(nodes_spec(es, visit_order(es), Seq::empty(), ctx), ctx),
{
    lemma_nodes_visible(es, visit_order(es), Seq::empty(), ctx);
}

} // verus!

verus! {

/// `name_lt` is asymmetric.
proof fn lemma_name_lt_asym(a: Seq<char>, b: Seq<char>)
    ensures
        name_lt(a, b) ==> !name_lt(b, a),
    decreases a.len(),
{
    if a.len() > 0 && b.len() > 0 && a[0] == b[0] {
        lemma_name_lt_asym(a.drop_first(), b.drop_first());
    }
}

/// `name_lt` is transitive.
proof fn lemma_name_lt_trans(a: Seq<char>, b: Seq<char>, c: Seq<char>)
    ensures
        name_lt(a, b) && name_lt(b, c) ==> name_lt(a, c),
    decreases a.len(),
{
    if a.len() > 0 && b.len() > 0 && c.len() > 0 && a[0] == b[0] && b[0] == c[0] {
        lemma_name_lt_trans(a.drop_first(), b.drop_first(), c.drop_first());
    }
}

/// The indices of `s` come in name order.
pub open spec fn order_sorted(names: Seq<Seq<char>>, s: Seq<int>) -> bool {
    forall|i: int, j: int| 0 <= i < j < s.len() ==> !name_lt(names[#[trigger] s[j]], names[#[trigger] s[i]])
}

/// Inserting keeps every index and adds `k`.
proof fn lemma_insert_elems(names: Seq<Seq<char>>, s: Seq<int>, k: int)
    ensures
        insert_by_name(names, s, k).len() == s.len() + 1,
        forall|x: int| #[trigger] insert_by_name(names, s, k).contains(x) <==> (x == k || s.contains(x)),
    decreases s.len(),
{
    let r = insert_by_name(names, s, k);
    if s.len() == 0 {
        assert(r =~= seq![k]);
        assert forall|x: int| #[trigger] r.contains(x) <==> (x == k || s.contains(x)) by {
            if r.contains(x) {
                let i = choose|i: int| 0 <= i < r.len() && r[i] == x;
                assert(i == 0);
            }
            if x == k {
                assert(r[0] == k);
            }
        }
    } else if name_lt(names[k], names[s[0]]) {
        assert forall|x: int| #[trigger] r.contains(x) <==> (x == k || s.contains(x)) by {
            if r.contains(x) {
                let i = choose|i: int| 0 <= i < r.len() && r[i] == x;
                if i > 0 {
                    assert(s[i - 1] == x);
                }
            }
            if x == k {
                assert(r[0] == k);
            }
            if s.contains(x) {
                let i = choose|i: int| 0 <= i < s.len() && s[i] == x;
                assert(r[i + 1] == x);
            }
        }
    } else {
        let t = s.drop_first();
        lemma_insert_elems(names, t, k);
        let rt = insert_by_name(names, t, k);
        assert(r == seq![s[0]] + rt);
        assert forall|x: int| #[trigger] r.contains(x) <==> (x == k || s.contains(x)) by {
            if r.contains(x) {
                let i = choose|i: int| 0 <= i < r.len() && r[i] == x;
                if i == 0 {
                    assert(s[0] == x);
                } else {
                    assert(rt[i - 1] == x);
                    assert(rt.contains(x));
                    if x != k {
                        let j = choose|j: int| 0 <= j < t.len() && t[j] == x;
                        assert(s[j + 1] == x);
                    }
                }
            }
            if x == k {
                assert(rt.contains(k));
                let j = choose|j: int| 0 <= j < rt.len() && rt[j] == k;
                assert(r[j + 1] == k);
            }
            if s.contains(x) {
                let i = choose|i: int| 0 <= i < s.len() && s[i] == x;
                if i == 0 {
                    assert(r[0] == x);
                } else {
                    assert(t[i - 1] == x);
                    assert(t.contains(x));
                    assert(rt.contains(x));
                    let j = choose|j: int| 0 <= j < rt.len() && rt[j] == x;
                    assert(r[j + 1] == x);
                }
            }
        }
    }
}

/// Inserting into a name-ordered list keeps it name-ordered.
proof fn lemma_insert_sorted(names: Seq<Seq<char>>, s: Seq<int>, k: int)
    requires
        order_sorted(names, s),
    ensures
        order_sorted(names, insert_by_name(names, s, k)),
    decreases s.len(),
{
    let r = insert_by_name(names, s, k);
    if s.len() == 0 {
        assert(r =~= seq![k]);
    } else if name_lt(names[k], names[s[0]]) {
        assert(r == seq![k] + s);
        assert forall|i: int, j: int| 0 <= i < j < r.len() implies !name_lt(names[#[trigger] r[j]], names[#[trigger] r[i]]) by {
            if i == 0 {
                assert(r[j] == s[j - 1]);
                lemma_name_lt_asym(names[k], names[s[0]]);
                if j - 1 > 0 {
                    assert(!name_lt(names[s[j - 1]], names[s[0]]));
                    lemma_name_lt_trans(names[s[j - 1]], names[k], names[s[0]]);
                }
            } else {
                assert(r[i] == s[i - 1] && r[j] == s[j - 1]);
            }
        }
    } else {
        let t = s.drop_first();
        assert(order_sorted(names, t)) by {
            assert forall|i: int, j: int| 0 <= i < j < t.len() implies !name_lt(names[#[trigger] t[j]], names[#[trigger] t[i]]) by {
                assert(t[i] == s[i + 1] && t[j] == s[j + 1]);
            }
        }
        lemma_insert_sorted(names, t, k);
        lemma_insert_elems(names, t, k);
        let rt = insert_by_name(names, t, k);
        assert(r == seq![s[0]] + rt);
        assert forall|i: int, j: int| 0 <= i < j < r.len() implies !name_lt(names[#[trigger] r[j]], names[#[trigger] r[i]]) by {
            if i == 0 {
                let x = r[j];
                assert(rt[j - 1] == x);
                assert(rt.contains(x));
                if x != k {
                    let m = choose|m: int| 0 <= m < t.len() && t[m] == x;
                    assert(s[m + 1] == x);
                    assert(!name_lt(names[s[m + 1]], names[s[0]]));
                }
            } else {
                assert(r[i] == rt[i - 1] && r[j] == rt[j - 1]);
            }
        }
    }
}

/// The visiting order is name order.
proof fn lemma_sort_order_sorted(names: Seq<Seq<char>>, n: int)
    ensures
        order_sorted(names, sort_order(names, n)),
    decreases n,
{
    if n > 0 {
        lemma_sort_order_sorted(names, n - 1);
        lemma_insert_sorted(names, sort_order(names, n - 1), n - 1);
    }
}

/// The entries of every directory of a tree come in name order.
pub open spec fn node_in_name_order(n: FileNodeView) -> bool
    decreases n, 0nat,
{
    match n.children {
        Some(c) => nodes_in_name_order(c),
        None => true,
    }
}

/// [`node_in_name_order`] for a list of nodes, which itself comes in name
/// order: no node's name is less than that of a node before it.
pub open spec fn nodes_in_name_order(s: Seq<FileNodeView>) -> bool
    decreases s, s.len(),
{
    if s.len() == 0 {
        true
    } else {
        &&& nodes_in_name_order(s.drop_last())
        &&& node_in_name_order(s.last())
        &&& forall|i: int| 0 <= i < s.len() - 1 ==> !name_lt(s.last().name, #[trigger] s[i].name)
    }
}

/// Every node of `nodes_spec` is named after an entry that `order` visits.
proof fn lemma_nodes_named(es: Seq<RawEntry>, order: Seq<int>, prefix: Seq<char>, ctx: ScanCtx)
    ensures
        forall|a: int| 0 <= a < nodes_spec(es, order, prefix, ctx).len() ==> exists|m: int| #![trigger order[m]]
            0 <= m < order.len() && 0 <= order[m] < es.len() && (#[trigger] nodes_spec(es, order, prefix, ctx)[a]).name
                == es[order[m]].name@,
    decreases order.len(),
{
    if order.len() > 0 {
        let o = order.drop_last();
        lemma_nodes_named(es, o, prefix, ctx);
        let before = nodes_spec(es, o, prefix, ctx);
        let now = nodes_spec(es, order, prefix, ctx);
        assert forall|a: int| 0 <= a < now.len() implies exists|m: int| #![trigger order[m]]
            0 <= m < order.len() && 0 <= order[m] < es.len() && (#[trigger] now[a]).name == es[order[m]].name@ by {
            if a < before.len() {
                assert(now[a] == before[a]);
                let m = choose|m: int| 0 <= m < o.len() && 0 <= o[m] < es.len() && before[a].name == es[o[m]].name@;
                assert(order[m] == o[m]);
            } else {
                let m = order.len() - 1;
                let k = order[m];
                assert(order.last() == k);
                assert(0 <= k < es.len());
                assert(now[a] == node_spec(es[k], prefix, ctx)->0);
                assert(now[a].name == es[k].name@);
            }
        }
    }
}

proof fn lemma_node_ordered(e: RawEntry, prefix: Seq<char>, ctx: ScanCtx)
    ensures
        node_spec(e, prefix, ctx) matches Some(n) ==> node_in_name_order(n) && n.name == e.name@,
    decreases e, 0nat,
{
    let rel = child_rel(prefix, e.name@);
    match e.kind {
        RawKind::Dir(children) => {
            match children {
                Some(v) => {
                    lemma_sort_order_sorted(entry_names(v@), v@.len() as int);
                    lemma_nodes_ordered(v@, visit_order(v@), rel, ctx);
                },
                None => {},
            }
        },
        _ => {},
    }
}

proof fn lemma_nodes_ordered(es: Seq<RawEntry>, order: Seq<int>, prefix: Seq<char>, ctx: ScanCtx)
    requires
        order_sorted(entry_names(es), order),
    ensures
        nodes_in_name_order(nodes_spec(es, order, prefix, ctx)),
    decreases es, order.len(),
{
    if order.len() > 0 {
        let o = order.drop_last();
        assert(order_sorted(entry_names(es), o)) by {
            assert forall|i: int, j: int| 0 <= i < j < o.len() implies !name_lt(entry_names(es)[#[trigger] o[j]], entry_names(es)[#[trigger] o[i]]) by {
                assert(o[i] == order[i] && o[j] == order[j]);
            }
        }
        lemma_nodes_ordered(es, o, prefix, ctx);
        let before = nodes_spec(es, o, prefix, ctx);
        let k = order.last();
        if 0 <= k < es.len() {
            lemma_node_ordered(es[k], prefix, ctx);
            match node_spec(es[k], prefix, ctx) {
                Some(n) => {
                    let now = before.push(n);
                    assert(now.drop_last() =~= before);
                    lemma_nodes_named(es, o, prefix, ctx);
                    assert forall|i: int| 0 <= i < now.len() - 1 implies !name_lt(now.last().name, #[trigger] now[i].name) by {
                        assert(now[i] == before[i]);
                        assert(before[i] == before[i]);
                        let m = choose|m: int| 0 <= m < o.len() && 0 <= o[m] < es.len() && before[i].name == es[o[m]].name@;
                        assert(o[m] == order[m]);
                        assert(m < order.len() - 1);
                        assert(order[order.len() - 1] == k);
                        assert(!name_lt(entry_names(es)[order[order.len() - 1]], entry_names(es)[order[m]]));
                    }
                },
                None => {},
            }
        }
    }
}

/// The entries of every directory of a listing come in name order (the
/// code-point order of their names), at every depth.
pub proof fn listed_trees_are_in_name_order(es: Seq<RawEntry>, prefix: Seq<char>, ctx: ScanCtx)
    ensures
        nodes_in_name_order(nodes_spec(es, visit_order(es), prefix, ctx)),
{
    lemma_sort_order_sorted(entry_names(es), es.len() as int);
    lemma_nodes_ordered(es, visit_order(es), prefix, ctx);
}

proof fn lemma_prefix_first(a: Seq<char>, b: Seq<char>)
    requires
        a.len() < b.len(),
        b.take(a.len() as int) == a,
    ensures
        name_lt(a, b),
    decreases a.len(),
{
    if a.len() > 0 {
        assert(b.take(a.len() as int)[0] == b[0]);
        assert(b.drop_first().take(a.len() - 1) =~= a.drop_first());
        lemma_prefix_first(a.drop_first(), b.drop_first());
    }
}

proof fn lemma_first_difference(a: Seq<char>, b: Seq<char>, k: int)
    requires
        0 <= k < a.len(),
        k < b.len(),
        a.take(k) == b.take(k),
        (a[k] as u32) < (b[k] as u32),
    ensures
        name_lt(a, b),
    decreases k,
{
    if k > 0 {
        assert(a.take(k)[0] == a[0] && b.take(k)[0] == b[0]);
        assert(a.drop_first().take(k - 1) =~= a.take(k).drop_first());
        assert(b.drop_first().take(k - 1) =~= b.take(k).drop_first());
        lemma_first_difference(a.drop_first(), b.drop_first(), k - 1);
    }
}

proof fn lemma_name_lt_irreflexive(a: Seq<char>)
    ensures
        !name_lt(a, a),
    decreases a.len(),
{
    if a.len() > 0 {
        lemma_name_lt_irreflexive(a.drop_first());
    }
}

/// Names are ordered lexicographically by code point, whatever their
/// lengths: a proper prefix comes before the longer name, and otherwise the
/// name with the smaller code point at the first difference comes first
/// (so `"alpha.md"` comes before `"zeta.md"`). The order is strict:
/// no name comes before itself, and of two names at most one comes first.
pub proof fn name_order_is_lexicographic(a: Seq<char>, b: Seq<char>, k: int)
    ensures
        (a.len() < b.len() && b.take(a.len() as int) == a) ==> name_lt(a, b),
        (0 <= k < a.len() && k < b.len() && a.take(k) == b.take(k) && (a[k] as u32) < (b[k] as u32)) ==> name_lt(a, b),
        !name_lt(a, a),
        name_lt(a, b) ==> !name_lt(b, a),
{
    if a.len() < b.len() && b.take(a.len() as int) == a {
        lemma_prefix_first(a, b);
    }
    if 0 <= k < a.len() && k < b.len() && a.take(k) == b.take(k) && (a[k] as u32) < (b[k] as u32) {
        lemma_first_difference(a, b, k);
    }
    lemma_name_lt_irreflexive(a);
    lemma_name_lt_asym(a, b);
}

} // verus!
