//! Turning native file-system notifications into change events: the kind of
//! the notification decides the kind of change, physical paths become
//! logical ones, and only visible files are reported.

use vstd::prelude::*;

use globset::GlobSet;

use crate::events::{ChangeEvent, ChangeEventView, ChangeKind};
use crate::glob::set_patterns;
use crate::path::{relative_text, relative_text_spec};
use crate::text::{concat3, first_index_of, chars_of, lemma_split_once, owned, slash, split_once_spec, str_eq, strings};
use crate::visibility::{exposed, is_exposed, opt_set_patterns};

verus! {

/// How a rename was reported.
#[derive(Debug, Clone, Copy, PartialEq, Eq, Structural)]
pub enum RenameModeModel {
    Any,
    To,
    From,
    Both,
    Other,
}

/// What kind of modification was reported.
#[derive(Debug, Clone, Copy, PartialEq, Eq, Structural)]
pub enum ModifyKindModel {
    Any,
    Data,
    Metadata,
    Name(RenameModeModel),
    Other,
}

/// The kind of a debounced notification, as the watcher reports it (the
/// finer sub-kinds that no decision reads are left out).
#[derive(Debug, Clone, Copy, PartialEq, Eq, Structural)]
pub enum EventKindModel {
    Any,
    Access,
    Create,
    Modify(ModifyKindModel),
    Remove,
    Other,
}

/// A debounced notification: its kind and the physical paths it concerns
/// (for a rename with both ends known: the old path, then the new one).
pub struct FsEvent {
    pub kind: EventKindModel,
    pub paths: Vec<String>,
}

/// A watched root, with its path already canonicalized.
pub struct CanonicalRoot {
    pub name: String,
    pub canonical: String,
    pub expose: Vec<String>,
}

/// A change found in a notification, before the file's modification time is
/// read: `stat_path` is the physical path to read it from (`None` for a
/// deletion).
pub struct PendingChange {
    pub kind: ChangeKind,
    pub path: String,
    pub from: Option<String>,
    pub stat_path: Option<String>,
}

/// A pending change as plain values.
pub struct PendingView {
    pub kind: ChangeKind,
    pub path: Seq<char>,
    pub from: Option<Seq<char>>,
    pub stat_path: Option<Seq<char>>,
}

impl View for PendingChange {
    type V = PendingView;

    open spec fn view(&self) -> PendingView {
        PendingView {
            kind: self.kind,
            path: self.path@,
            from: match self.from {
                Some(f) => Some(f@),
                None => None,
            },
            stat_path: match self.stat_path {
                Some(s) => Some(s@),
                None => None,
            },
        }
    }
}

/// The views of a list of pending changes.
pub open spec fn pending_views(v: Seq<PendingChange>) -> Seq<PendingView> {
    Seq::new(v.len(), |i: int| v[i]@)
}

/// The logical path of `physical` under the first root (from index `i` on)
/// that contains it: `"<root name>/<relative text>"`.
pub open spec fn logical_from(physical: Seq<char>, roots: Seq<CanonicalRoot>, i: int) -> Option<Seq<char>>
    decreases roots.len() - i,
{
    if i < 0 || i >= roots.len() {
        None
    } else {
        match relative_text_spec(physical, roots[i].canonical@) {
            Some(rel) => Some(roots[i].name@ + seq!['/'] + rel),
            None => logical_from(physical, roots, i + 1),
        }
    }
}

/// The logical path of `physical`: under the first root that contains it.
pub open spec fn logical_spec(physical: Seq<char>, roots: Seq<CanonicalRoot>) -> Option<Seq<char>> {
    logical_from(physical, roots, 0)
}

/// Physical path → logical path `"<root name>/<relative path>"`; `None` when
/// no root contains it.
pub fn logical(physical: &str, canonical_roots: &Vec<CanonicalRoot>) -> (r: Option<String>)
    ensures
        match logical_spec(physical@, canonical_roots@) {
            Some(l) => r matches Some(s) && s@ == l,
            None => r is None,
        },
{
    let mut i: usize = 0;
    while i < canonical_roots.len()
        invariant
            i <= canonical_roots@.len(),
            logical_spec(physical@, canonical_roots@) == logical_from(physical@, canonical_roots@, i as int),
        decreases canonical_roots.len() - i,
    {
        let cr = &canonical_roots[i];
        match relative_text(physical, cr.canonical.as_str()) {
            Some(rel) => {
                return Some(concat3(cr.name.as_str(), slash(), rel.as_str()));
            },
            None => {},
        }
        i += 1;
    }
    None
}

/// The path at `i`, if there is one.
pub open spec fn path_at(paths: Seq<String>, i: int) -> Option<Seq<char>> {
    if 0 <= i < paths.len() {
        Some(paths[i]@)
    } else {
        None
    }
}

/// A change from the first path: `kind`, logical path, and whether the file
/// is read for its time afterwards.
pub open spec fn first_path_change(event: FsEvent, roots: Seq<CanonicalRoot>, kind: ChangeKind, stat: bool) -> Option<PendingView> {
    match path_at(event.paths@, 0) {
        None => None,
        Some(p0) => match logical_spec(p0, roots) {
            None => None,
            Some(l) => Some(PendingView { kind, path: l, from: None, stat_path: if stat { Some(p0) } else { None } }),
        },
    }
}

/// The change a notification stands for: creations and modifications of
/// content, removals and renames; access and metadata notifications give
/// none. A rename that lost its new end counts as a deletion, one that lost
/// its old end as a creation. Paths outside every root give none.
pub open spec fn change_spec(event: FsEvent, roots: Seq<CanonicalRoot>) -> Option<PendingView> {
    match event.kind {
        EventKindModel::Create => first_path_change(event, roots, ChangeKind::Created, true),
        EventKindModel::Remove => first_path_change(event, roots, ChangeKind::Deleted, false),
        EventKindModel::Modify(ModifyKindModel::Name(RenameModeModel::Both)) => {
            match path_at(event.paths@, 0) {
                None => None,
                Some(p0) => match logical_spec(p0, roots) {
                    None => None,
                    Some(from) => match path_at(event.paths@, 1) {
                        None => None,
                        Some(p1) => match logical_spec(p1, roots) {
                            None => None,
                            Some(to) => Some(PendingView { kind: ChangeKind::Renamed, path: to, from: Some(from), stat_path: Some(p1) }),
                        },
                    },
                },
            }
        },
        EventKindModel::Modify(ModifyKindModel::Name(RenameModeModel::From)) =>
            first_path_change(event, roots, ChangeKind::Deleted, false),
        EventKindModel::Modify(ModifyKindModel::Name(RenameModeModel::To)) =>
            first_path_change(event, roots, ChangeKind::Created, true),
        EventKindModel::Modify(ModifyKindModel::Data) => first_path_change(event, roots, ChangeKind::Modified, true),
        EventKindModel::Modify(ModifyKindModel::Any) => first_path_change(event, roots, ChangeKind::Modified, true),
        EventKindModel::Modify(ModifyKindModel::Other) => first_path_change(event, roots, ChangeKind::Modified, true),
        _ => None,
    }
}

/// A change of `kind` from the first path of `event`.
fn change_from_first(event: &FsEvent, canonical_roots: &Vec<CanonicalRoot>, kind: ChangeKind, stat: bool) -> (r: Option<PendingChange>)
    ensures
        match first_path_change(*event, canonical_roots@, kind, stat) {
            Some(v) => r matches Some(c) && c@ == v,
            None => r is None,
        },
{
    if event.paths.len() == 0 {
        return None;
    }
    let p0 = event.paths[0].as_str();
    match logical(p0, canonical_roots) {
        None => None,
        Some(l) => {
            let stat_path = if stat { Some(owned(p0)) } else { None };
            Some(PendingChange { kind, path: l, from: None, stat_path })
        },
    }
}

/// Notification → pending change (see [`change_spec`]).
pub fn to_change_event(event: &FsEvent, canonical_roots: &Vec<CanonicalRoot>) -> (r: Option<PendingChange>)
    ensures
        match change_spec(*event, canonical_roots@) {
            Some(v) => r matches Some(c) && c@ == v,
            None => r is None,
        },
{
    match event.kind {
        EventKindModel::Create => change_from_first(event, canonical_roots, ChangeKind::Created, true),
        EventKindModel::Remove => change_from_first(event, canonical_roots, ChangeKind::Deleted, false),
        EventKindModel::Modify(ModifyKindModel::Name(RenameModeModel::Both)) => {
            if event.paths.len() == 0 {
                return None;
            }
            let from = match logical(event.paths[0].as_str(), canonical_roots) {
                Some(f) => f,
                None => return None,
            };
            if event.paths.len() < 2 {
                return None;
            }
            let p1 = event.paths[1].as_str();
            match logical(p1, canonical_roots) {
                None => None,
                Some(to) => Some(PendingChange { kind: ChangeKind::Renamed, path: to, from: Some(from), stat_path: Some(owned(p1)) }),
            }
        },
        EventKindModel::Modify(ModifyKindModel::Name(RenameModeModel::From)) =>
            change_from_first(event, canonical_roots, ChangeKind::Deleted, false),
        EventKindModel::Modify(ModifyKindModel::Name(RenameModeModel::To)) =>
            change_from_first(event, canonical_roots, ChangeKind::Created, true),
        EventKindModel::Modify(ModifyKindModel::Data) => change_from_first(event, canonical_roots, ChangeKind::Modified, true),
        EventKindModel::Modify(ModifyKindModel::Any) => change_from_first(event, canonical_roots, ChangeKind::Modified, true),
        EventKindModel::Modify(ModifyKindModel::Other) => change_from_first(event, canonical_roots, ChangeKind::Modified, true),
        _ => None,
    }
}

impl PendingChange {
    /// The change event, with the modification time that was read (if any).
    pub fn into_event(self, modified_at: Option<i128>) -> (e: ChangeEvent)
        ensures
            e@ == (ChangeEventView { kind: self@.kind, path: self@.path, from: self@.from, modified_at }),
    {
        ChangeEvent { kind: self.kind, path: self.path, from: self.from, modified_at }
    }
}

/// The first root named `name`, from index `i` on.
pub open spec fn root_named_from(roots: Seq<CanonicalRoot>, name: Seq<char>, i: int) -> Option<int>
    decreases roots.len() - i,
{
    if i < 0 || i >= roots.len() {
        None
    } else if roots[i].name@ == name {
        Some(i)
    } else {
        root_named_from(roots, name, i + 1)
    }
}

/// Whether a logical path is visible: its root (the text before the first
/// `'/'`) is a watched root, and the rest passes that root's gate.
pub open spec fn visible_spec(
    logical_path: Seq<char>,
    roots: Seq<CanonicalRoot>,
    extensions: Seq<Seq<char>>,
    ignore: Seq<Seq<char>>,
    required: Option<Seq<Seq<char>>>,
) -> bool {
    match split_once_spec(logical_path, '/') {
        None => false,
        Some((name, rel)) => match root_named_from(roots, name, 0) {
            None => false,
            Some(i) => exposed(strings(roots[i].expose@), rel, extensions, ignore, required),
        },
    }
}

/// Whether the change at `logical_path` may be reported (see [`visible_spec`]).
pub fn is_visible(
    logical_path: &str,
    canonical_roots: &Vec<CanonicalRoot>,
    include_extensions: &Vec<String>,
    ignore_set: &GlobSet,
    include_glob_set: Option<&GlobSet>,
) -> (r: bool)
    ensures
        r == visible_spec(
            logical_path@,
            canonical_roots@,
            strings(include_extensions@),
            set_patterns(*ignore_set),
            opt_set_patterns(include_glob_set),
        ),
{
    let v = chars_of(logical_path);
    let k = match first_index_of(&v, '/') {
        Some(k) => k,
        None => return false,
    };
    proof {
        lemma_split_once(logical_path@, '/', k as int);
    }
    assert(k < v.len());
    let root_name = logical_path.substring_char(0, k);
    let relative = logical_path.substring_char(k + 1, v.len());
    assert(root_name@ =~= logical_path@.take(k as int));
    assert(relative@ =~= logical_path@.skip(k + 1));
    let ghost want = match root_named_from(canonical_roots@, root_name@, 0) {
        None => false,
        Some(j) => exposed(
            strings(canonical_roots@[j].expose@),
            relative@,
            strings(include_extensions@),
            set_patterns(*ignore_set),
            opt_set_patterns(include_glob_set),
        ),
    };
    assert(want == visible_spec(
        logical_path@,
        canonical_roots@,
        strings(include_extensions@),
        set_patterns(*ignore_set),
        opt_set_patterns(include_glob_set),
    ));
    let mut i: usize = 0;
    while i < canonical_roots.len()
        invariant
            i <= canonical_roots@.len(),
            want == match root_named_from(canonical_roots@, root_name@, 0) {
                None => false,
                Some(j) => exposed(
                    strings(canonical_roots@[j].expose@),
                    relative@,
                    strings(include_extensions@),
                    set_patterns(*ignore_set),
                    opt_set_patterns(include_glob_set),
                ),
            },
            want == visible_spec(
                logical_path@,
                canonical_roots@,
                strings(include_extensions@),
                set_patterns(*ignore_set),
                opt_set_patterns(include_glob_set),
            ),
            root_named_from(canonical_roots@, root_name@, 0) == root_named_from(canonical_roots@, root_name@, i as int),
        decreases canonical_roots.len() - i,
    {
        let cr = &canonical_roots[i];
        if str_eq(cr.name.as_str(), root_name) {
            return is_exposed(&cr.expose, relative, include_extensions, ignore_set, include_glob_set);
        }
        i += 1;
    }
    false
}

/// A change reveals only visible paths: its path and, for a rename, the old
/// path too.
pub open spec fn change_visible(
    c: PendingView,
    roots: Seq<CanonicalRoot>,
    extensions: Seq<Seq<char>>,
    ignore: Seq<Seq<char>>,
    required: Option<Seq<Seq<char>>>,
) -> bool {
    &&& visible_spec(c.path, roots, extensions, ignore, required)
    &&& match c.from {
        Some(f) => visible_spec(f, roots, extensions, ignore, required),
        None => true,
    }
}

/// The changes of a batch of notifications that are reported, in order:
/// those that stand for a change (see [`change_spec`]) and reveal only
/// visible paths (see [`change_visible`]); a rename from or to a hidden
/// path is not reported.
pub open spec fn reported_changes(
    events: Seq<FsEvent>,
    roots: Seq<CanonicalRoot>,
    extensions: Seq<Seq<char>>,
    ignore: Seq<Seq<char>>,
    required: Option<Seq<Seq<char>>>,
) -> Seq<PendingView>
    decreases events.len(),
{
    if events.len() == 0 {
        Seq::empty()
    } else {
        let before = reported_changes(events.drop_last(), roots, extensions, ignore, required);
        match change_spec(events.last(), roots) {
            Some(c) => if change_visible(c, roots, extensions, ignore, required) {
                before.push(c)
            } else {
                before
            },
            None => before,
        }
    }
}

/// Handles a batch of debounced notifications: the pending changes to
/// report, in order (see [`reported_changes`]).
pub fn dispatch(
    events: &Vec<FsEvent>,
    canonical_roots: &Vec<CanonicalRoot>,
    include_extensions: &Vec<String>,
    ignore_set: &GlobSet,
    include_glob_set: Option<&GlobSet>,
) -> (r: Vec<PendingChange>)
    ensures
        pending_views(r@) == reported_changes(
            events@,
            canonical_roots@,
            strings(include_extensions@),
            set_patterns(*ignore_set),
            opt_set_patterns(include_glob_set),
        ),
{
    let ghost xs = strings(include_extensions@);
    let ghost ig = set_patterns(*ignore_set);
    let ghost inc = opt_set_patterns(include_glob_set);
    let mut out: Vec<PendingChange> = Vec::new();
    let mut i: usize = 0;
    assert(events@.take(0) =~= Seq::<FsEvent>::empty());
    assert(pending_views(out@) =~= Seq::<PendingView>::empty());
    while i < events.len()
        invariant
            i <= events@.len(),
            xs == strings(include_extensions@),
            ig == set_patterns(*ignore_set),
            inc == opt_set_patterns(include_glob_set),
            pending_views(out@) == reported_changes(events@.take(i as int), canonical_roots@, xs, ig, inc),
        decreases events.len() - i,
    {
        assert(events@.take(i + 1).drop_last() =~= events@.take(i as int));
        assert(events@.take(i + 1).last() == events@[i as int]);
        match to_change_event(&events[i], canonical_roots) {
            Some(change) => {
                let shown = is_visible(change.path.as_str(), canonical_roots, include_extensions, ignore_set, include_glob_set)
                    && match &change.from {
                    Some(f) => is_visible(f.as_str(), canonical_roots, include_extensions, ignore_set, include_glob_set),
                    None => true,
                };
                if shown {
                    let ghost before = pending_views(out@);
                    let ghost cv = change@;
                    out.push(change);
                    assert(pending_views(out@) =~= before.push(cv));
                }
            },
            None => {},
        }
        i += 1;
    }
    assert(events@.take(events@.len() as int) =~= events@);
    out
}

} // verus!

verus! {

/// Every change that is reported names only visible paths, the old path of
/// a rename included: events pass the same gate as listing and reading.
pub proof fn reported_changes_are_visible(
    events: Seq<FsEvent>,
    roots: Seq<CanonicalRoot>,
    extensions: Seq<Seq<char>>,
    ignore: Seq<Seq<char>>,
    required: Option<Seq<Seq<char>>>,
)
    ensures
        forall|k: int| 0 <= k < reported_changes(events, roots, extensions, ignore, required).len()
            ==> visible_spec(#[trigger] reported_changes(events, roots, extensions, ignore, required)[k].path, roots, extensions, ignore, required),
        forall|k: int| 0 <= k < reported_changes(events, roots, extensions, ignore, required).len()
            ==> (#[trigger] reported_changes(events, roots, extensions, ignore, required)[k].from matches Some(f)
                ==> visible_spec(f, roots, extensions, ignore, required)),
    decreases events.len(),
{
    if events.len() > 0 {
        reported_changes_are_visible(events.drop_last(), roots, extensions, ignore, required);
        let before = reported_changes(events.drop_last(), roots, extensions, ignore, required);
        let now = reported_changes(events, roots, extensions, ignore, required);
        assert forall|k: int| 0 <= k < now.len() implies change_visible(#[trigger] now[k], roots, extensions, ignore, required) by {
            if k < before.len() {
                assert(now[k] == before[k]);
                assert(visible_spec(before[k].path, roots, extensions, ignore, required));
                assert(before[k].from matches Some(f) ==> visible_spec(f, roots, extensions, ignore, required));
            }
        }
    }
}

/// A logical path made of a root name without `'/'` and a relative path is
/// split back into exactly those two parts, so that an event's path leads
/// back to its root and relative path.
pub proof fn logical_path_splits_back(name: Seq<char>, rel: Seq<char>)
    requires
        !name.contains('/'),
    ensures
        crate::text::split_once_spec(name + seq!['/'] + rel, '/') == Some((name, rel)),
{
    crate::read::lemma_split(name + seq!['/'] + rel, name, rel);
}

} // verus!

verus! {

/// The global rules as the watchers use them: patterns that do not compile
/// are skipped rather than refused.
pub struct WatchFilters {
    pub include_extensions: Vec<String>,
    pub ignore_set: GlobSet,
    pub include_glob_set: Option<GlobSet>,
}

impl WatchFilters {
    /// The rules of `config`, compiled leniently (see
    /// [`crate::glob::lenient_glob_set`]); no include set when no include
    /// globs are configured.
    pub fn new(config: &crate::config::Config) -> (f: WatchFilters)
        ensures
            strings(f.include_extensions@) == strings(config.include_extensions@),
            set_patterns(f.ignore_set) == crate::glob::lenient_glob_set(strings(config.ignore_globs@)),
            config.include_globs@.len() == 0 ==> f.include_glob_set is None,
            config.include_globs@.len() > 0 ==> (f.include_glob_set matches Some(s) && set_patterns(s)
                == crate::glob::lenient_glob_set(strings(config.include_globs@))),
    {
        let mut include_extensions: Vec<String> = Vec::new();
        let mut j: usize = 0;
        while j < config.include_extensions.len()
            invariant
                j <= config.include_extensions@.len(),
                strings(include_extensions@) == strings(config.include_extensions@).take(j as int),
            decreases config.include_extensions.len() - j,
        {
            let ghost before = strings(include_extensions@);
            include_extensions.push(owned(config.include_extensions[j].as_str()));
            assert(strings(include_extensions@) =~= before.push(config.include_extensions@[j as int]@));
            assert(strings(config.include_extensions@).take(j + 1) =~= strings(config.include_extensions@).take(j as int).push(config.include_extensions@[j as int]@));
            j += 1;
        }
        assert(strings(config.include_extensions@).take(config.include_extensions@.len() as int) =~= strings(config.include_extensions@));
        let ignore_set = crate::glob::build_glob_set_lenient(&config.ignore_globs);
        let include_glob_set = if config.include_globs.len() == 0 {
            None
        } else {
            Some(crate::glob::build_glob_set_lenient(&config.include_globs))
        };
        WatchFilters { include_extensions, ignore_set, include_glob_set }
    }

    /// Whether the polling walk enters the directory of `root` at
    /// `relative`: without an allow list, ignored directories are skipped;
    /// with one, every directory is entered.
    pub fn descend(&self, root: &CanonicalRoot, relative: &str) -> (r: bool)
        ensures
            r == (root.expose@.len() > 0 || !crate::glob::set_matches(set_patterns(self.ignore_set), relative@)),
    {
        root.expose.len() > 0 || !crate::glob::glob_set_is_match(&self.ignore_set, relative)
    }

    /// Whether a file of `root` at `relative` is visible under these rules.
    pub fn file_visible(&self, root: &CanonicalRoot, relative: &str) -> (r: bool)
        ensures
            r == exposed(
                strings(root.expose@),
                relative@,
                strings(self.include_extensions@),
                set_patterns(self.ignore_set),
                crate::glob::owned_set_patterns(self.include_glob_set),
            ),
    {
        is_exposed(&root.expose, relative, &self.include_extensions, &self.ignore_set, self.include_glob_set.as_ref())
    }
}

/// Every notification that stands for a change revealing only visible
/// paths is reported: the report drops nothing but invisible changes and
/// notifications that stand for none.
pub proof fn visible_changes_are_reported(
    events: Seq<FsEvent>,
    roots: Seq<CanonicalRoot>,
    extensions: Seq<Seq<char>>,
    ignore: Seq<Seq<char>>,
    required: Option<Seq<Seq<char>>>,
    i: int,
)
    requires
        0 <= i < events.len(),
        change_spec(events[i], roots) is Some,
        change_visible(change_spec(events[i], roots)->0, roots, extensions, ignore, required),
    ensures
        reported_changes(events, roots, extensions, ignore, required).contains(change_spec(events[i], roots)->0),
    decreases events.len(),
{
    let c = change_spec(events[i], roots)->0;
    let t = events.drop_last();
    let before = reported_changes(t, roots, extensions, ignore, required);
    let now = reported_changes(events, roots, extensions, ignore, required);
    if i == events.len() - 1 {
        assert(events.last() == events[i]);
        assert(now == before.push(c));
        assert(now[before.len() as int] == c);
    } else {
        assert(t[i] == events[i]);
        visible_changes_are_reported(t, roots, extensions, ignore, required, i);
        let k = choose|k: int| 0 <= k < before.len() && before[k] == c;
        match change_spec(events.last(), roots) {
            Some(d) => if change_visible(d, roots, extensions, ignore, required) {
                assert(now == before.push(d));
                assert(now[k] == c);
            } else {
                assert(now[k] == c);
            },
            None => {
                assert(now[k] == c);
            },
        }
    }
}

/// A notification of a creation, of a change of content, or of a removal,
/// whose first path lies inside a root, stands for a change of that kind at
/// the path's logical form: `Created` and `Modified` read the file's time
/// from that path afterwards, `Deleted` does not.
pub proof fn notifications_classify(event: FsEvent, roots: Seq<CanonicalRoot>)
    requires
        event.paths@.len() > 0,
        logical_spec(event.paths@[0]@, roots) is Some,
    ensures
        ({
            let l = logical_spec(event.paths@[0]@, roots)->0;
            let p0 = event.paths@[0]@;
            &&& event.kind == EventKindModel::Create ==> change_spec(event, roots) == Some(
                PendingView { kind: ChangeKind::Created, path: l, from: None, stat_path: Some(p0) },
            )
            &&& (event.kind == EventKindModel::Modify(ModifyKindModel::Data) || event.kind == EventKindModel::Modify(
                ModifyKindModel::Any,
            ) || event.kind == EventKindModel::Modify(ModifyKindModel::Other)) ==> change_spec(event, roots) == Some(
                PendingView { kind: ChangeKind::Modified, path: l, from: None, stat_path: Some(p0) },
            )
            &&& event.kind == EventKindModel::Remove ==> change_spec(event, roots) == Some(
                PendingView { kind: ChangeKind::Deleted, path: l, from: None, stat_path: None },
            )
        }),
{
}

} // verus!
