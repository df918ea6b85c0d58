//! Polling fallback: where native file watching does not work (Docker
//! Desktop, NFS, ...), successive snapshots of every visible file's
//! modification time and size are compared to find the changes.

use vstd::prelude::*;

use crate::events::{ChangeEvent, ChangeEventView, ChangeKind, event_views};
use crate::text::{str_eq, owned};

verus! {

/// One file of a snapshot.
pub struct SnapshotEntry {
    /// The logical path `root/relative`.
    pub path: String,
    /// Modification time, in nanoseconds since the Unix epoch.
    pub modified_at: i128,
    /// Size in bytes.
    pub size: u64,
}

/// Logical path → (modification time, size), for every visible file. No
/// path occurs twice; entries keep the order in which paths were first
/// inserted.
pub struct Snapshot {
    entries: Vec<SnapshotEntry>,
}

/// The entries of a snapshot as plain values, in order.
pub open spec fn entry_rows(v: Seq<SnapshotEntry>) -> Seq<(Seq<char>, (i128, u64))> {
    Seq::new(v.len(), |i: int| (v[i].path@, (v[i].modified_at, v[i].size)))
}

/// The map that a sequence of distinct-keyed entries describes.
pub open spec fn rows_map(s: Seq<(Seq<char>, (i128, u64))>) -> Map<Seq<char>, (i128, u64)>
    decreases s.len(),
{
    if s.len() == 0 {
        Map::empty()
    } else {
        rows_map(s.drop_last()).insert(s.last().0, s.last().1)
    }
}

/// No path occurs twice.
pub open spec fn distinct_paths(s: Seq<(Seq<char>, (i128, u64))>) -> bool {
    forall|i: int, j: int| 0 <= i < j < s.len() ==> #[trigger] s[i].0 != #[trigger] s[j].0
}

proof fn lemma_rows_map(s: Seq<(Seq<char>, (i128, u64))>)
    requires
        distinct_paths(s),
    ensures
        forall|p: Seq<char>| #[trigger] rows_map(s).contains_key(p) <==> exists|i: int| 0 <= i < s.len() && #[trigger] s[i].0 == p,
        forall|i: int| 0 <= i < s.len() ==> #[trigger] rows_map(s)[s[i].0] == s[i].1,
        rows_map(s).dom().finite(),
    decreases s.len(),
{
    if s.len() > 0 {
        let t = s.drop_last();
        assert(distinct_paths(t));
        lemma_rows_map(t);
        assert forall|p: Seq<char>| #[trigger] rows_map(s).contains_key(p) <==> exists|i: int| 0 <= i < s.len() && #[trigger] s[i].0 == p by {
            if rows_map(s).contains_key(p) && p != s.last().0 {
                let i = choose|i: int| 0 <= i < t.len() && #[trigger] t[i].0 == p;
                assert(s[i].0 == p);
            }
            if exists|i: int| 0 <= i < s.len() && #[trigger] s[i].0 == p {
                let i = choose|i: int| 0 <= i < s.len() && #[trigger] s[i].0 == p;
                if i < s.len() - 1 {
                    assert(t[i].0 == p);
                }
            }
        }
        assert forall|i: int| 0 <= i < s.len() implies #[trigger] rows_map(s)[s[i].0] == s[i].1 by {
            if i < s.len() - 1 {
                assert(t[i] == s[i]);
                assert(s[i].0 != s[s.len() - 1].0);
            }
        }
    }
}

impl Snapshot {
    /// The entries, in order.
    pub closed spec fn rows(self) -> Seq<(Seq<char>, (i128, u64))> {
        entry_rows(self.entries@)
    }

    /// Well-formedness: no path occurs twice. Every snapshot value that code
    /// holds satisfies it.
    #[verifier::type_invariant]
    pub closed spec fn wf(self) -> bool {
        distinct_paths(self.rows())
    }

    /// The snapshot as a map.
    pub open spec fn map(self) -> Map<Seq<char>, (i128, u64)> {
        rows_map(self.rows())
    }

    /// The snapshot's paths are distinct and its map holds exactly its
    /// entries.
    pub proof fn lemma_map(self)
        requires
            self.wf(),
        ensures
            distinct_paths(self.rows()),
            forall|p: Seq<char>| #[trigger] self.map().contains_key(p) <==> exists|i: int|
                0 <= i < self.rows().len() && #[trigger] self.rows()[i].0 == p,
            forall|i: int| 0 <= i < self.rows().len() ==> #[trigger] self.map()[self.rows()[i].0]
                == self.rows()[i].1,
            self.map().dom().finite(),
    {
        lemma_rows_map(self.rows());
    }

    /// An empty snapshot.
    pub fn new() -> (s: Snapshot)
        ensures
            s.rows() == Seq::<(Seq<char>, (i128, u64))>::empty(),
            s.map() == Map::<Seq<char>, (i128, u64)>::empty(),
    {
        let s = Snapshot { entries: Vec::new() };
        assert(s.rows() =~= Seq::<(Seq<char>, (i128, u64))>::empty());
        s
    }

    /// The number of files.
    pub fn len(&self) -> (n: usize)
        ensures
            n == self.rows().len(),
    {
        self.entries.len()
    }

    /// The position of `path`, if the snapshot holds it.
    fn find(&self, path: &str) -> (r: Option<usize>)
        ensures
            match r {
                Some(i) => i < self.rows().len() && self.rows()[i as int].0 == path@,
                None => forall|i: int| 0 <= i < self.rows().len() ==> #[trigger] self.rows()[i].0 != path@,
            },
    {
        let mut i: usize = 0;
        while i < self.entries.len()
            invariant
                i <= self.entries@.len(),
                forall|j: int| 0 <= j < i ==> #[trigger] self.rows()[j].0 != path@,
            decreases self.entries.len() - i,
        {
            if str_eq(self.entries[i].path.as_str(), path) {
                return Some(i);
            }
            i += 1;
        }
        None
    }

    /// The modification time and size recorded for `path`.
    pub fn get(&self, path: &str) -> (r: Option<(i128, u64)>)
        ensures
            self.map().contains_key(path@) ==> r == Some(self.map()[path@]),
            !self.map().contains_key(path@) ==> r is None,
    {
        proof {
            use_type_invariant(self);
            self.lemma_map();
        }
        match self.find(path) {
            Some(i) => Some((self.entries[i].modified_at, self.entries[i].size)),
            None => None,
        }
    }

    /// Whether the snapshot holds `path`.
    pub fn contains_key(&self, path: &str) -> (r: bool)
        ensures
            r == self.map().contains_key(path@),
    {
        proof {
            use_type_invariant(self);
            self.lemma_map();
        }
        self.find(path).is_some()
    }

    /// Records `path`; an existing entry for it is replaced in place.
    pub fn insert(&mut self, path: String, modified_at: i128, size: u64)
        ensures
            final(self).map() == old(self).map().insert(path@, (modified_at, size)),
            old(self).map().contains_key(path@) ==> exists|i: int|
                0 <= i < old(self).rows().len() && old(self).rows()[i].0 == path@
                && final(self).rows() == old(self).rows().update(i, (path@, (modified_at, size))),
            !old(self).map().contains_key(path@) ==> final(self).rows() == old(self).rows().push((path@, (modified_at, size))),
    {
        proof {
            use_type_invariant(&*self);
            self.lemma_map();
        }
        let ghost old_rows = self.rows();
        match self.find(path.as_str()) {
            Some(i) => {
                let ghost row = (path@, (modified_at, size));
                let mut entries: Vec<SnapshotEntry> = Vec::new();
                std::mem::swap(&mut entries, &mut self.entries);
                entries.set(i, SnapshotEntry { path, modified_at, size });
                assert(entry_rows(entries@) =~= old_rows.update(i as int, row));
                proof {
                    lemma_rows_map_update(old_rows, i as int, row);
                }
                self.entries = entries;
            },
            None => {
                let ghost row = (path@, (modified_at, size));
                let mut entries: Vec<SnapshotEntry> = Vec::new();
                std::mem::swap(&mut entries, &mut self.entries);
                entries.push(SnapshotEntry { path, modified_at, size });
                assert(entry_rows(entries@) =~= old_rows.push(row));
                assert(old_rows.push(row).drop_last() =~= old_rows);
                self.entries = entries;
            },
        }
    }

    /// The entry at `i`.
    pub fn entry(&self, i: usize) -> (e: &SnapshotEntry)
        requires
            i < self.rows().len(),
        ensures
            (e.path@, (e.modified_at, e.size)) == self.rows()[i as int],
    {
        &self.entries[i]
    }
}

proof fn lemma_rows_map_update(s: Seq<(Seq<char>, (i128, u64))>, i: int, row: (Seq<char>, (i128, u64)))
    requires
        distinct_paths(s),
        0 <= i < s.len(),
        s[i].0 == row.0,
    ensures
        distinct_paths(s.update(i, row)),
        rows_map(s.update(i, row)) == rows_map(s).insert(row.0, row.1),
{
    let u = s.update(i, row);
    assert(distinct_paths(u)) by {
        assert forall|a: int, b: int| 0 <= a < b < u.len() implies #[trigger] u[a].0 != #[trigger] u[b].0 by {
            assert(s[a].0 != s[b].0);
        }
    }
    lemma_rows_map(s);
    lemma_rows_map(u);
    assert(rows_map(u) =~= rows_map(s).insert(row.0, row.1)) by {
        assert forall|p: Seq<char>| #[trigger] rows_map(u).contains_key(p) <==> rows_map(s).insert(row.0, row.1).contains_key(p) by {
            if rows_map(u).contains_key(p) {
                let k = choose|k: int| 0 <= k < u.len() && #[trigger] u[k].0 == p;
                if k != i {
                    assert(s[k].0 == p);
                }
            }
            if rows_map(s).contains_key(p) {
                let k = choose|k: int| 0 <= k < s.len() && #[trigger] s[k].0 == p;
                assert(u[k].0 == p);
            }
        }
        assert forall|p: Seq<char>| #[trigger] rows_map(u).contains_key(p) implies rows_map(u)[p] == rows_map(s).insert(row.0, row.1)[p] by {
            let k = choose|k: int| 0 <= k < u.len() && #[trigger] u[k].0 == p;
            if k != i {
                assert(s[k] == u[k]);
            }
        }
    }
}

/// The events a file of the new snapshot gives rise to, given the old
/// snapshot: created when it is new, modified when its time or size changed.
pub open spec fn curr_events(curr: Seq<(Seq<char>, (i128, u64))>, prev: Map<Seq<char>, (i128, u64)>) -> Seq<ChangeEventView>
    decreases curr.len(),
{
    if curr.len() == 0 {
        Seq::empty()
    } else {
        let before = curr_events(curr.drop_last(), prev);
        let (p, (m, sz)) = curr.last();
        if !prev.contains_key(p) {
            before.push(ChangeEventView { kind: ChangeKind::Created, path: p, from: None, modified_at: Some(m) })
        } else if prev[p] != (m, sz) {
            before.push(ChangeEventView { kind: ChangeKind::Modified, path: p, from: None, modified_at: Some(m) })
        } else {
            before
        }
    }
}

/// A deletion event for each file of the old snapshot that the new one lacks.
pub open spec fn deleted_events(prev: Seq<(Seq<char>, (i128, u64))>, curr: Map<Seq<char>, (i128, u64)>) -> Seq<ChangeEventView>
    decreases prev.len(),
{
    if prev.len() == 0 {
        Seq::empty()
    } else {
        let before = deleted_events(prev.drop_last(), curr);
        let p = prev.last().0;
        if !curr.contains_key(p) {
            before.push(ChangeEventView { kind: ChangeKind::Deleted, path: p, from: None, modified_at: None })
        } else {
            before
        }
    }
}

/// The events that lead from snapshot `prev` to snapshot `curr`: first those
/// of the files of `curr`, in its order, then the deletions, in the order of
/// `prev`.
pub open spec fn diff_spec(prev: Snapshot, curr: Snapshot) -> Seq<ChangeEventView> {
    curr_events(curr.rows(), prev.map()) + deleted_events(prev.rows(), curr.map())
}

/// Compares two snapshots: a changed time or size gives `Modified`, a new
/// path `Created`, a vanished path `Deleted` (see [`diff_spec`]).
pub fn diff(prev: &Snapshot, curr: &Snapshot) -> (events: Vec<ChangeEvent>)
    ensures
        event_views(events@) == diff_spec(*prev, *curr),
{
    let mut events: Vec<ChangeEvent> = Vec::new();
    let n = curr.len();
    let ghost cr = curr.rows();
    let ghost pm = prev.map();
    let mut i: usize = 0;
    assert(cr.take(0) =~= Seq::<(Seq<char>, (i128, u64))>::empty());
    while i < n
        invariant
            i <= n == cr.len(),
            cr == curr.rows(),
            pm == prev.map(),
            event_views(events@) == curr_events(cr.take(i as int), pm),
        decreases n - i,
    {
        let e = curr.entry(i);
        assert(cr.take(i + 1).drop_last() =~= cr.take(i as int));
        assert(cr.take(i + 1).last() == cr[i as int]);
        let ghost before = event_views(events@);
        match prev.get(e.path.as_str()) {
            None => {
                events.push(ChangeEvent { kind: ChangeKind::Created, path: owned(e.path.as_str()), from: None, modified_at: Some(e.modified_at) });
                assert(event_views(events@) =~= curr_events(cr.take(i + 1), pm));
            },
            Some((pm_time, pm_size)) => {
                if pm_time != e.modified_at || pm_size != e.size {
                    events.push(ChangeEvent { kind: ChangeKind::Modified, path: owned(e.path.as_str()), from: None, modified_at: Some(e.modified_at) });
                    assert(event_views(events@) =~= curr_events(cr.take(i + 1), pm));
                } else {
                    assert(event_views(events@) =~= curr_events(cr.take(i + 1), pm));
                }
            },
        }
        i += 1;
    }
    assert(cr.take(n as int) =~= cr);
    let ghost first = event_views(events@);
    let m = prev.len();
    let ghost pr = prev.rows();
    let ghost cm = curr.map();
    let mut j: usize = 0;
    assert(pr.take(0) =~= Seq::<(Seq<char>, (i128, u64))>::empty());
    while j < m
        invariant
            j <= m == pr.len(),
            pr == prev.rows(),
            cm == curr.map(),
            event_views(events@) == first + deleted_events(pr.take(j as int), cm),
        decreases m - j,
    {
        let e = prev.entry(j);
        assert(pr.take(j + 1).drop_last() =~= pr.take(j as int));
        assert(pr.take(j + 1).last() == pr[j as int]);
        if !curr.contains_key(e.path.as_str()) {
            let ghost before = event_views(events@);
            let ghost x = deleted_events(pr.take(j as int), cm);
            let ev = ChangeEvent { kind: ChangeKind::Deleted, path: owned(e.path.as_str()), from: None, modified_at: None };
            events.push(ev);
            assert(event_views(events@) =~= before.push(ev@));
            assert((first + x).push(ev@) =~= first + x.push(ev@));
            assert(event_views(events@) =~= first + deleted_events(pr.take(j + 1), cm));
        } else {
            assert(event_views(events@) =~= first + deleted_events(pr.take(j + 1), cm));
        }
        j += 1;
    }
    assert(pr.take(m as int) =~= pr);
    events
}

} // verus!

verus! {

/// Some event of `ev` has this kind and path.
pub open spec fn has_event(ev: Seq<ChangeEventView>, kind: ChangeKind, p: Seq<char>) -> bool {
    exists|k: int| 0 <= k < ev.len() && (#[trigger] ev[k]).kind == kind && ev[k].path == p
}

proof fn lemma_has_event_push(ev: Seq<ChangeEventView>, x: ChangeEventView, kind: ChangeKind, p: Seq<char>)
    ensures
        has_event(ev.push(x), kind, p) <==> (has_event(ev, kind, p) || (x.kind == kind && x.path == p)),
{
    let e2 = ev.push(x);
    if has_event(e2, kind, p) {
        let k = choose|k: int| 0 <= k < e2.len() && (#[trigger] e2[k]).kind == kind && e2[k].path == p;
        if k < ev.len() {
            assert(ev[k] == e2[k]);
        }
    }
    if has_event(ev, kind, p) {
        let k = choose|k: int| 0 <= k < ev.len() && (#[trigger] ev[k]).kind == kind && ev[k].path == p;
        assert(e2[k] == ev[k]);
    }
    if x.kind == kind && x.path == p {
        assert(e2[ev.len() as int] == x);
    }
}

proof fn lemma_has_event_concat(a: Seq<ChangeEventView>, b: Seq<ChangeEventView>, kind: ChangeKind, p: Seq<char>)
    ensures
        has_event(a + b, kind, p) <==> (has_event(a, kind, p) || has_event(b, kind, p)),
{
    let c = a + b;
    if has_event(c, kind, p) {
        let k = choose|k: int| 0 <= k < c.len() && (#[trigger] c[k]).kind == kind && c[k].path == p;
        if k < a.len() {
            assert(a[k] == c[k]);
        } else {
            assert(b[k - a.len()] == c[k]);
        }
    }
    if has_event(a, kind, p) {
        let k = choose|k: int| 0 <= k < a.len() && (#[trigger] a[k]).kind == kind && a[k].path == p;
        assert(c[k] == a[k]);
    }
    if has_event(b, kind, p) {
        let k = choose|k: int| 0 <= k < b.len() && (#[trigger] b[k]).kind == kind && b[k].path == p;
        assert(c[k + a.len()] == b[k]);
    }
}

/// Some row of `s` has path `p`.
pub open spec fn has_row(s: Seq<(Seq<char>, (i128, u64))>, p: Seq<char>) -> bool {
    exists|i: int| 0 <= i < s.len() && (#[trigger] s[i]).0 == p
}

/// Some row of `s` has path `p` and a value other than `v`.
pub open spec fn has_row_not(s: Seq<(Seq<char>, (i128, u64))>, p: Seq<char>, v: (i128, u64)) -> bool {
    exists|i: int| 0 <= i < s.len() && (#[trigger] s[i]).0 == p && s[i].1 != v
}

proof fn lemma_row_push(s: Seq<(Seq<char>, (i128, u64))>, x: (Seq<char>, (i128, u64)), p: Seq<char>, v: (i128, u64))
    ensures
        has_row(s.push(x), p) <==> (has_row(s, p) || x.0 == p),
        has_row_not(s.push(x), p, v) <==> (has_row_not(s, p, v) || (x.0 == p && x.1 != v)),
{
    let t = s.push(x);
    if has_row(t, p) {
        let i = choose|i: int| 0 <= i < t.len() && (#[trigger] t[i]).0 == p;
        if i < s.len() {
            assert(s[i] == t[i]);
        }
    }
    if has_row(s, p) {
        let i = choose|i: int| 0 <= i < s.len() && (#[trigger] s[i]).0 == p;
        assert(t[i] == s[i]);
    }
    if has_row_not(t, p, v) {
        let i = choose|i: int| 0 <= i < t.len() && (#[trigger] t[i]).0 == p && t[i].1 != v;
        if i < s.len() {
            assert(s[i] == t[i]);
        }
    }
    if has_row_not(s, p, v) {
        let i = choose|i: int| 0 <= i < s.len() && (#[trigger] s[i]).0 == p && s[i].1 != v;
        assert(t[i] == s[i]);
    }
    assert(t[s.len() as int] == x);
}

proof fn lemma_curr_events(s: Seq<(Seq<char>, (i128, u64))>, pm: Map<Seq<char>, (i128, u64)>, p: Seq<char>)
    ensures
        has_event(curr_events(s, pm), ChangeKind::Created, p) <==> (has_row(s, p) && !pm.contains_key(p)),
        has_event(curr_events(s, pm), ChangeKind::Modified, p) <==> (pm.contains_key(p) && has_row_not(s, p, pm[p])),
        !has_event(curr_events(s, pm), ChangeKind::Deleted, p),
        !has_event(curr_events(s, pm), ChangeKind::Renamed, p),
    decreases s.len(),
{
    if s.len() == 0 {
    } else {
        let t = s.drop_last();
        lemma_curr_events(t, pm, p);
        assert(t.push(s.last()) =~= s);
        lemma_row_push(t, s.last(), p, pm[p]);
        let before = curr_events(t, pm);
        let (q, (m, sz)) = s.last();
        if !pm.contains_key(q) {
            let x = ChangeEventView { kind: ChangeKind::Created, path: q, from: None, modified_at: Some(m) };
            lemma_has_event_push(before, x, ChangeKind::Created, p);
            lemma_has_event_push(before, x, ChangeKind::Modified, p);
            lemma_has_event_push(before, x, ChangeKind::Deleted, p);
            lemma_has_event_push(before, x, ChangeKind::Renamed, p);
        } else if pm[q] != (m, sz) {
            let x = ChangeEventView { kind: ChangeKind::Modified, path: q, from: None, modified_at: Some(m) };
            lemma_has_event_push(before, x, ChangeKind::Created, p);
            lemma_has_event_push(before, x, ChangeKind::Modified, p);
            lemma_has_event_push(before, x, ChangeKind::Deleted, p);
            lemma_has_event_push(before, x, ChangeKind::Renamed, p);
        }
    }
}

proof fn lemma_deleted_events(s: Seq<(Seq<char>, (i128, u64))>, cm: Map<Seq<char>, (i128, u64)>, p: Seq<char>)
    ensures
        has_event(deleted_events(s, cm), ChangeKind::Deleted, p) <==> (has_row(s, p) && !cm.contains_key(p)),
        !has_event(deleted_events(s, cm), ChangeKind::Created, p),
        !has_event(deleted_events(s, cm), ChangeKind::Modified, p),
        !has_event(deleted_events(s, cm), ChangeKind::Renamed, p),
    decreases s.len(),
{
    if s.len() > 0 {
        let t = s.drop_last();
        lemma_deleted_events(t, cm, p);
        assert(t.push(s.last()) =~= s);
        lemma_row_push(t, s.last(), p, (0, 0));
        let before = deleted_events(t, cm);
        let q = s.last().0;
        if !cm.contains_key(q) {
            let x = ChangeEventView { kind: ChangeKind::Deleted, path: q, from: None, modified_at: None };
            lemma_has_event_push(before, x, ChangeKind::Created, p);
            lemma_has_event_push(before, x, ChangeKind::Modified, p);
            lemma_has_event_push(before, x, ChangeKind::Deleted, p);
            lemma_has_event_push(before, x, ChangeKind::Renamed, p);
        }
    }
}

/// For every path, the events from `prev` to `curr` say exactly how it
/// changed: `Created` when only `curr` holds it, `Modified` when both hold it
/// with a different time or size, `Deleted` when only `prev` holds it, and
/// never `Renamed`.
pub proof fn diff_classifies(prev: Snapshot, curr: Snapshot, p: Seq<char>)
    requires
        prev.wf(),
        curr.wf(),
    ensures
        has_event(diff_spec(prev, curr), ChangeKind::Created, p) <==> (curr.map().contains_key(p)
            && !prev.map().contains_key(p)),
        has_event(diff_spec(prev, curr), ChangeKind::Modified, p) <==> (curr.map().contains_key(p)
            && prev.map().contains_key(p) && curr.map()[p] != prev.map()[p]),
        has_event(diff_spec(prev, curr), ChangeKind::Deleted, p) <==> (prev.map().contains_key(p)
            && !curr.map().contains_key(p)),
        !has_event(diff_spec(prev, curr), ChangeKind::Renamed, p),
{
    prev.lemma_map();
    curr.lemma_map();
    let a = curr_events(curr.rows(), prev.map());
    let b = deleted_events(prev.rows(), curr.map());
    lemma_curr_events(curr.rows(), prev.map(), p);
    lemma_deleted_events(prev.rows(), curr.map(), p);
    lemma_has_event_concat(a, b, ChangeKind::Created, p);
    lemma_has_event_concat(a, b, ChangeKind::Modified, p);
    lemma_has_event_concat(a, b, ChangeKind::Deleted, p);
    lemma_has_event_concat(a, b, ChangeKind::Renamed, p);
    let cr = curr.rows();
    if has_row(cr, p) {
        let i = choose|i: int| 0 <= i < cr.len() && (#[trigger] cr[i]).0 == p;
        assert(curr.map()[cr[i].0] == cr[i].1);
        if prev.map().contains_key(p) && curr.map()[p] != prev.map()[p] {
            assert(has_row_not(cr, p, prev.map()[p]));
        }
    }
    if has_row_not(cr, p, prev.map()[p]) {
        let i = choose|i: int| 0 <= i < cr.len() && (#[trigger] cr[i]).0 == p && cr[i].1 != prev.map()[p];
        assert(curr.map()[cr[i].0] == cr[i].1);
    }
    let pr = prev.rows();
    if prev.map().contains_key(p) {
        let i = choose|i: int| 0 <= i < pr.len() && (#[trigger] pr[i]).0 == p;
        assert(has_row(pr, p));
    }
}

/// Comparing a snapshot with itself yields no event.
pub proof fn diff_of_same_is_empty(s: Snapshot)
    requires
        s.wf(),
    ensures
        diff_spec(s, s).len() == 0,
{
    let ev = diff_spec(s, s);
    if ev.len() > 0 {
        let p = ev[0].path;
        diff_classifies(s, s, p);
        assert(has_event(ev, ev[0].kind, p));
    }
}

/// Each event a file of the new snapshot gives rise to is a creation or a
/// modification of a path of that snapshot, with the time recorded there.
proof fn lemma_curr_event_times(s: Seq<(Seq<char>, (i128, u64))>, pm: Map<Seq<char>, (i128, u64)>)
    ensures
        forall|k: int| 0 <= k < curr_events(s, pm).len() ==> {
            let ev = #[trigger] curr_events(s, pm)[k];
            &&& (ev.kind == ChangeKind::Created || ev.kind == ChangeKind::Modified)
            &&& ev.from is None
            &&& exists|i: int| 0 <= i < s.len() && (#[trigger] s[i]).0 == ev.path && ev.modified_at == Some(s[i].1.0)
        },
    decreases s.len(),
{
    if s.len() > 0 {
        let t = s.drop_last();
        lemma_curr_event_times(t, pm);
        let before = curr_events(t, pm);
        let now = curr_events(s, pm);
        assert forall|k: int| 0 <= k < now.len() implies {
            let ev = #[trigger] now[k];
            &&& (ev.kind == ChangeKind::Created || ev.kind == ChangeKind::Modified)
            &&& ev.from is None
            &&& exists|i: int| 0 <= i < s.len() && (#[trigger] s[i]).0 == ev.path && ev.modified_at == Some(s[i].1.0)
        } by {
            if k < before.len() {
                assert(now[k] == before[k]);
                let ev = before[k];
                let i = choose|i: int| 0 <= i < t.len() && (#[trigger] t[i]).0 == ev.path && ev.modified_at == Some(t[i].1.0);
                assert(s[i] == t[i]);
            } else {
                let i = s.len() - 1;
                assert(s[i] == s.last());
            }
        }
    }
}

/// Each event for a file the new snapshot lacks is a deletion without time.
proof fn lemma_deleted_event_times(s: Seq<(Seq<char>, (i128, u64))>, cm: Map<Seq<char>, (i128, u64)>)
    ensures
        forall|k: int| 0 <= k < deleted_events(s, cm).len() ==> {
            let ev = #[trigger] deleted_events(s, cm)[k];
            ev.kind == ChangeKind::Deleted && ev.from is None && ev.modified_at is None && !cm.contains_key(ev.path)
        },
    decreases s.len(),
{
    if s.len() > 0 {
        let t = s.drop_last();
        lemma_deleted_event_times(t, cm);
        let before = deleted_events(t, cm);
        let now = deleted_events(s, cm);
        assert forall|k: int| 0 <= k < now.len() implies {
            let ev = #[trigger] now[k];
            ev.kind == ChangeKind::Deleted && ev.from is None && ev.modified_at is None && !cm.contains_key(ev.path)
        } by {
            if k < before.len() {
                assert(now[k] == before[k]);
            }
        }
    }
}

/// Every creation or modification that a comparison reports carries the
/// modification time that the new snapshot records for its path; a deletion
/// concerns a path the new snapshot lacks and carries no time; no event is a
/// rename with an old path.
pub proof fn diff_events_carry_new_times(prev: Snapshot, curr: Snapshot)
    requires
        prev.wf(),
        curr.wf(),
    ensures
        forall|k: int| 0 <= k < diff_spec(prev, curr).len() ==> {
            let ev = #[trigger] diff_spec(prev, curr)[k];
            &&& ev.from is None
            &&& (ev.kind == ChangeKind::Created || ev.kind == ChangeKind::Modified) ==> curr.map().contains_key(ev.path)
                && ev.modified_at == Some(curr.map()[ev.path].0)
            &&& ev.kind == ChangeKind::Deleted ==> !curr.map().contains_key(ev.path) && ev.modified_at is None
        },
{
    curr.lemma_map();
    let a = curr_events(curr.rows(), prev.map());
    let b = deleted_events(prev.rows(), curr.map());
    lemma_curr_event_times(curr.rows(), prev.map());
    lemma_deleted_event_times(prev.rows(), curr.map());
    let d = diff_spec(prev, curr);
    assert(d == a + b);
    assert forall|k: int| 0 <= k < d.len() implies {
        let ev = #[trigger] d[k];
        &&& ev.from is None
        &&& (ev.kind == ChangeKind::Created || ev.kind == ChangeKind::Modified) ==> curr.map().contains_key(ev.path)
            && ev.modified_at == Some(curr.map()[ev.path].0)
        &&& ev.kind == ChangeKind::Deleted ==> !curr.map().contains_key(ev.path) && ev.modified_at is None
    } by {
        if k < a.len() {
            assert(d[k] == a[k]);
            let ev = a[k];
            let cr = curr.rows();
            let i = choose|i: int| 0 <= i < cr.len() && (#[trigger] cr[i]).0 == ev.path && ev.modified_at == Some(cr[i].1.0);
            assert(curr.map()[cr[i].0] == cr[i].1);
            assert(curr.map().contains_key(cr[i].0));
        } else {
            assert(d[k] == b[k - a.len()]);
        }
    }
}

} // verus!
