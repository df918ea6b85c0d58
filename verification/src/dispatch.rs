//! Duplicate suppression for change events: the native watcher and the
//! polling fallback both report into one channel, and within a time window
//! an event with the same `(kind, path)` is delivered only once.

use vstd::prelude::*;

use crate::config::Config;
use crate::events::{ChangeKind, kind_number, kind_tag};
use crate::text::{owned, str_eq};

verus! {

/// A remembered delivery: kind number, logical path, and when it happened.
pub type SeenKey = (u8, Seq<char>);

/// Nanoseconds from `t` to `now`, or zero when `t` is later
/// (`Instant::duration_since` saturates).
pub open spec fn elapsed(now: u64, t: u64) -> int {
    if now >= t {
        now - t
    } else {
        0
    }
}

/// The remembered deliveries that are still inside the window at `now`, in
/// order.
pub open spec fn fresh(seen: Seq<(u8, Seq<char>, u64)>, window: u64, now: u64) -> Seq<(u8, Seq<char>, u64)>
    decreases seen.len(),
{
    if seen.len() == 0 {
        Seq::empty()
    } else {
        let before = fresh(seen.drop_last(), window, now);
        if elapsed(now, seen.last().2) < window {
            before.push(seen.last())
        } else {
            before
        }
    }
}

/// Some remembered delivery has this kind number and path.
pub open spec fn remembers(seen: Seq<(u8, Seq<char>, u64)>, tag: u8, path: Seq<char>) -> bool {
    exists|i: int| 0 <= i < seen.len() && (#[trigger] seen[i]).0 == tag && seen[i].1 == path
}

/// One delivery decision: expired entries are forgotten, then the event
/// passes unless its `(kind, path)` is still remembered; a passing event is
/// remembered with time `now`. Yields whether it passes and the new memory.
pub open spec fn delivery_spec(
    seen: Seq<(u8, Seq<char>, u64)>,
    window: u64,
    tag: u8,
    path: Seq<char>,
    now: u64,
) -> (bool, Seq<(u8, Seq<char>, u64)>) {
    let kept = fresh(seen, window, now);
    if remembers(kept, tag, path) {
        (false, kept)
    } else {
        (true, kept.push((tag, path, now)))
    }
}

/// The window, in milliseconds, for the watchers of `config`: long enough to
/// cover both the debounce delay and the polling interval, so that a change
/// that both watchers see is delivered once.
pub open spec fn window_ms_spec(config: Config) -> u64 {
    let poll: u64 = match config.poll_interval_ms {
        Some(ms) => ms,
        None => 0,
    };
    if poll > config.debounce_ms {
        poll
    } else {
        config.debounce_ms
    }
}

/// The duplicate window for the watchers of `config` (see [`window_ms_spec`]).
pub fn window_ms(config: &Config) -> (r: u64)
    ensures
        r == window_ms_spec(*config),
{
    let poll: u64 = match config.poll_interval_ms {
        Some(ms) => ms,
        None => 0,
    };
    if poll > config.debounce_ms {
        poll
    } else {
        config.debounce_ms
    }
}

/// A remembered delivery.
pub struct SeenEntry {
    pub tag: u8,
    pub path: String,
    pub at: u64,
}

/// The memory of recent deliveries, with the length of the window, and the
/// events decided so far (kept for the proofs only).
pub struct DedupWindow {
    window: u64,
    seen: Vec<SeenEntry>,
    history: Ghost<Seq<(u8, Seq<char>, u64)>>,
}

/// The remembered deliveries as plain values.
pub open spec fn seen_rows(v: Seq<SeenEntry>) -> Seq<(u8, Seq<char>, u64)> {
    Seq::new(v.len(), |i: int| (v[i].tag, v[i].path@, v[i].at))
}

impl DedupWindow {
    /// The remembered deliveries, oldest first.
    pub closed spec fn seen(self) -> Seq<(u8, Seq<char>, u64)> {
        seen_rows(self.seen@)
    }

    /// The window's length in nanoseconds.
    pub closed spec fn window(self) -> u64 {
        self.window
    }

    /// Every event decided so far, `(kind number, path, time)`, in order.
    pub closed spec fn history(self) -> Seq<(u8, Seq<char>, u64)> {
        self.history@
    }

    /// The decisions made so far, one per event of the history, in order.
    pub open spec fn decisions(self) -> Seq<bool> {
        run(self.window(), self.history()).0
    }

    /// The memory is what deciding the history from an empty memory leaves.
    #[verifier::type_invariant]
    closed spec fn follows_history(self) -> bool {
        seen_rows(self.seen@) == run(self.window, self.history@).1
    }

    /// A filter that remembers nothing yet, with a window of
    /// `window_nanos` nanoseconds.
    pub fn new(window_nanos: u64) -> (d: DedupWindow)
        ensures
            d.window() == window_nanos,
            d.seen() == Seq::<(u8, Seq<char>, u64)>::empty(),
            d.history() == Seq::<(u8, Seq<char>, u64)>::empty(),
            d.decisions() == Seq::<bool>::empty(),
    {
        let seen: Vec<SeenEntry> = Vec::new();
        assert(seen_rows(seen@) =~= Seq::<(u8, Seq<char>, u64)>::empty());
        assert(run(window_nanos, Seq::empty()).1 == Seq::<(u8, Seq<char>, u64)>::empty());
        DedupWindow { window: window_nanos, seen, history: Ghost(Seq::empty()) }
    }

    /// Decides whether an event of `kind` on `path` at time `now` (in
    /// nanoseconds on a monotonic clock) is delivered (see [`delivery_spec`]).
    /// The event joins the history and the answer joins the decisions, so a
    /// filter's answers over a run of calls are those of [`run`], of which
    /// [`delivered_iff_no_recent_delivery`] gives the law.
    pub fn should_deliver(&mut self, kind: &ChangeKind, path: &str, now: u64) -> (r: bool)
        ensures
            final(self).window() == old(self).window(),
            (r, final(self).seen()) == delivery_spec(old(self).seen(), old(self).window(), kind_number(*kind), path@, now),
            final(self).history() == old(self).history().push((kind_number(*kind), path@, now)),
            final(self).decisions() == old(self).decisions().push(r),
    {
        proof {
            use_type_invariant(&*self);
        }
        let tag = kind_tag(kind);
        let ghost s = self.seen();
        let ghost hist = self.history@;
        let window = self.window;
        let mut kept: Vec<SeenEntry> = Vec::new();
        let mut found = false;
        let mut i: usize = 0;
        assert(s.take(0) =~= Seq::<(u8, Seq<char>, u64)>::empty());
        assert(seen_rows(kept@) =~= Seq::<(u8, Seq<char>, u64)>::empty());
        while i < self.seen.len()
            invariant
                i <= self.seen@.len(),
                s == seen_rows(self.seen@),
                window == self.window,
                seen_rows(kept@) == fresh(s.take(i as int), window, now),
                found == remembers(seen_rows(kept@), tag, path@),
            decreases self.seen.len() - i,
        {
            let e = &self.seen[i];
            assert(s.take(i + 1).drop_last() =~= s.take(i as int));
            assert(s.take(i + 1).last() == s[i as int]);
            let age: u64 = if now >= e.at { now - e.at } else { 0 };
            if age < window {
                let ghost before = seen_rows(kept@);
                let same = e.tag == tag && str_eq(e.path.as_str(), path);
                kept.push(SeenEntry { tag: e.tag, path: owned(e.path.as_str()), at: e.at });
                assert(seen_rows(kept@) =~= before.push(s[i as int]));
                proof {
                    let after = seen_rows(kept@);
                    if remembers(before, tag, path@) {
                        let k = choose|k: int| 0 <= k < before.len() && (#[trigger] before[k]).0 == tag && before[k].1 == path@;
                        assert(after[k] == before[k]);
                    }
                    if remembers(after, tag, path@) && !same {
                        let k = choose|k: int| 0 <= k < after.len() && (#[trigger] after[k]).0 == tag && after[k].1 == path@;
                        assert(before[k] == after[k]);
                    }
                    if same {
                        assert(after[before.len() as int] == s[i as int]);
                    }
                }
                found = found || same;
            }
            i += 1;
        }
        assert(s.take(s.len() as int) =~= s);
        let ghost new_hist = hist.push((tag, path@, now));
        proof {
            assert(new_hist.drop_last() =~= hist);
            assert(new_hist.last() == (tag, path@, now));
        }
        if found {
            *self = DedupWindow { window, seen: kept, history: Ghost(new_hist) };
            false
        } else {
            let ghost before = seen_rows(kept@);
            kept.push(SeenEntry { tag, path: owned(path), at: now });
            assert(seen_rows(kept@) =~= before.push((tag, path@, now)));
            *self = DedupWindow { window, seen: kept, history: Ghost(new_hist) };
            true
        }
    }
}

/// The answers of a filter made by [`DedupWindow::new`] to any run of calls
/// whose times never go back obey the law of
/// [`delivered_iff_no_recent_delivery`]: a call delivers exactly when no
/// earlier delivered call with the same kind and path lies less than the
/// window before it.
pub proof fn window_answers_follow_the_law(d: DedupWindow)
    requires
        times_ordered(d.history()),
    ensures
        d.decisions().len() == d.history().len(),
        forall|i: int| 0 <= i < d.history().len() ==> (#[trigger] d.decisions()[i] <==> !exists|j: int|
            #[trigger] delivered_before(d.history(), d.decisions(), d.window(), j, i)),
{
    delivered_iff_no_recent_delivery(d.window(), d.history());
}

/// Within the window, a second event with the same kind and path as one that
/// was just delivered is suppressed.
pub proof fn duplicate_in_window_is_suppressed(
    seen: Seq<(u8, Seq<char>, u64)>,
    window: u64,
    tag: u8,
    path: Seq<char>,
    t0: u64,
    t1: u64,
)
    requires
        delivery_spec(seen, window, tag, path, t0).0,
        t0 <= t1,
        t1 - t0 < window,
    ensures
        !delivery_spec(delivery_spec(seen, window, tag, path, t0).1, window, tag, path, t1).0,
{
    let after = delivery_spec(seen, window, tag, path, t0).1;
    let kept = fresh(seen, window, t0);
    assert(after == kept.push((tag, path, t0)));
    assert(after.drop_last() =~= kept);
    let again = fresh(after, window, t1);
    assert(again == fresh(kept, window, t1).push((tag, path, t0)));
    assert(again[again.len() - 1] == (tag, path, t0));
}

/// Once the window has passed since every remembered delivery with the
/// same kind and path, the event is delivered again.
pub proof fn delivered_again_after_window(
    seen: Seq<(u8, Seq<char>, u64)>,
    window: u64,
    tag: u8,
    path: Seq<char>,
    now: u64,
)
    requires
        forall|i: int| 0 <= i < seen.len() && (#[trigger] seen[i]).0 == tag && seen[i].1 == path
            ==> elapsed(now, seen[i].2) >= window,
    ensures
        delivery_spec(seen, window, tag, path, now).0,
{
    lemma_fresh_within(seen, window, now);
    let kept = fresh(seen, window, now);
    if remembers(kept, tag, path) {
        let k = choose|k: int| 0 <= k < kept.len() && (#[trigger] kept[k]).0 == tag && kept[k].1 == path;
        assert(elapsed(now, kept[k].2) < window && in_memory(seen, kept[k]));
        let j = choose|j: int| 0 <= j < seen.len() && seen[j] == kept[k];
        assert(seen[j].0 == tag && seen[j].1 == path);
    }
}

/// `e` is one of the remembered deliveries.
pub open spec fn in_memory(seen: Seq<(u8, Seq<char>, u64)>, e: (u8, Seq<char>, u64)) -> bool {
    exists|j: int| 0 <= j < seen.len() && seen[j] == e
}

/// Every entry that survives expiry comes from the memory and is inside the
/// window.
proof fn lemma_fresh_within(seen: Seq<(u8, Seq<char>, u64)>, window: u64, now: u64)
    ensures
        forall|k: int| 0 <= k < fresh(seen, window, now).len() ==> elapsed(now, #[trigger] fresh(seen, window, now)[k].2) < window
            && in_memory(seen, fresh(seen, window, now)[k]),
    decreases seen.len(),
{
    if seen.len() > 0 {
        let t = seen.drop_last();
        lemma_fresh_within(t, window, now);
        let f = fresh(seen, window, now);
        let g = fresh(t, window, now);
        assert forall|k: int| 0 <= k < f.len() implies elapsed(now, #[trigger] f[k].2) < window
            && in_memory(seen, f[k]) by {
            if k < g.len() {
                assert(f[k] == g[k]);
                assert(elapsed(now, g[k].2) < window && in_memory(t, g[k]));
                let j = choose|j: int| 0 <= j < t.len() && t[j] == g[k];
                assert(seen[j] == t[j]);
            } else {
                assert(f[k] == seen.last());
                assert(seen[seen.len() - 1] == f[k]);
            }
        }
    }
}

proof fn lemma_fresh_idempotent(seen: Seq<(u8, Seq<char>, u64)>, window: u64, now: u64)
    ensures
        fresh(fresh(seen, window, now), window, now) == fresh(seen, window, now),
    decreases seen.len(),
{
    if seen.len() > 0 {
        let t = seen.drop_last();
        lemma_fresh_idempotent(t, window, now);
        let f = fresh(t, window, now);
        if elapsed(now, seen.last().2) < window {
            assert(f.push(seen.last()).drop_last() =~= f);
        }
    }
}

/// Delivering an event does not change whether an event with another kind
/// or path is delivered at the same moment: distinct paths pass
/// independently.
pub proof fn distinct_keys_are_independent(
    seen: Seq<(u8, Seq<char>, u64)>,
    window: u64,
    tag1: u8,
    path1: Seq<char>,
    tag2: u8,
    path2: Seq<char>,
    now: u64,
)
    requires
        window > 0,
        tag1 != tag2 || path1 != path2,
    ensures
        delivery_spec(delivery_spec(seen, window, tag1, path1, now).1, window, tag2, path2, now).0
            == delivery_spec(seen, window, tag2, path2, now).0,
{
    let kept = fresh(seen, window, now);
    let after = delivery_spec(seen, window, tag1, path1, now).1;
    lemma_fresh_idempotent(seen, window, now);
    if !remembers(kept, tag1, path1) {
        assert(after == kept.push((tag1, path1, now)));
        assert(after.drop_last() =~= kept);
        assert(fresh(after, window, now) == kept.push((tag1, path1, now)));
        let again = fresh(after, window, now);
        if remembers(again, tag2, path2) {
            let k = choose|k: int| 0 <= k < again.len() && (#[trigger] again[k]).0 == tag2 && again[k].1 == path2;
            assert(k < kept.len());
            assert(kept[k] == again[k]);
        }
        if remembers(kept, tag2, path2) {
            let k = choose|k: int| 0 <= k < kept.len() && (#[trigger] kept[k]).0 == tag2 && kept[k].1 == path2;
            assert(again[k] == kept[k]);
        }
    }
}

} // verus!

verus! {

/// The decisions that a filter with an empty memory makes for a sequence of
/// events `(kind number, path, time)`, one [`delivery_spec`] step per event,
/// and the memory it ends with. A [`DedupWindow`] made by
/// [`DedupWindow::new`] and fed the events through
/// [`DedupWindow::should_deliver`] decides exactly so.
pub open spec fn run(window: u64, evs: Seq<(u8, Seq<char>, u64)>) -> (Seq<bool>, Seq<(u8, Seq<char>, u64)>)
    decreases evs.len(),
{
    if evs.len() == 0 {
        (Seq::empty(), Seq::empty())
    } else {
        let prev = run(window, evs.drop_last());
        let e = evs.last();
        let step = delivery_spec(prev.1, window, e.0, e.1, e.2);
        (prev.0.push(step.0), step.1)
    }
}

/// The events' times never go back.
pub open spec fn times_ordered(evs: Seq<(u8, Seq<char>, u64)>) -> bool {
    forall|i: int, j: int| 0 <= i <= j < evs.len() ==> #[trigger] evs[i].2 <= #[trigger] evs[j].2
}

/// Event `j` came before event `i`, was delivered, has the same kind and
/// path, and lies less than the window before it.
pub open spec fn delivered_before(
    evs: Seq<(u8, Seq<char>, u64)>,
    ds: Seq<bool>,
    window: u64,
    j: int,
    i: int,
) -> bool {
    &&& 0 <= j < i
    &&& ds[j]
    &&& evs[j].0 == evs[i].0
    &&& evs[j].1 == evs[i].1
    &&& evs[i].2 - evs[j].2 < window
}

/// Every remembered entry is a delivered event.
spec fn memory_from_deliveries(evs: Seq<(u8, Seq<char>, u64)>, ds: Seq<bool>, mem: Seq<(u8, Seq<char>, u64)>) -> bool {
    forall|k: int| #![trigger mem[k]] 0 <= k < mem.len() ==> exists|j: int| 0 <= j < evs.len() && ds[j] && #[trigger] evs[j] == mem[k]
}

/// Every delivered event is still remembered, or had expired by the time
/// of the last event.
spec fn deliveries_remembered(evs: Seq<(u8, Seq<char>, u64)>, ds: Seq<bool>, mem: Seq<(u8, Seq<char>, u64)>, window: u64) -> bool {
    forall|j: int| 0 <= j < evs.len() && #[trigger] ds[j] ==> in_memory(mem, evs[j]) || elapsed(evs.last().2, evs[j].2) >= window
}

/// A remembered entry that is still inside the window survives expiry.
proof fn lemma_fresh_keeps(seen: Seq<(u8, Seq<char>, u64)>, window: u64, now: u64, e: (u8, Seq<char>, u64))
    requires
        in_memory(seen, e),
        elapsed(now, e.2) < window,
    ensures
        in_memory(fresh(seen, window, now), e),
    decreases seen.len(),
{
    let t = seen.drop_last();
    let f = fresh(t, window, now);
    if seen.last() == e {
        assert(fresh(seen, window, now) == f.push(e));
        assert(fresh(seen, window, now)[f.len() as int] == e);
    } else {
        let j = choose|j: int| 0 <= j < seen.len() && seen[j] == e;
        assert(t[j] == e);
        lemma_fresh_keeps(t, window, now, e);
        let k = choose|k: int| 0 <= k < f.len() && f[k] == e;
        if elapsed(now, seen.last().2) < window {
            assert(fresh(seen, window, now)[k] == f[k]);
        }
    }
}

proof fn lemma_run(window: u64, evs: Seq<(u8, Seq<char>, u64)>)
    requires
        times_ordered(evs),
    ensures
        run(window, evs).0.len() == evs.len(),
        memory_from_deliveries(evs, run(window, evs).0, run(window, evs).1),
        deliveries_remembered(evs, run(window, evs).0, run(window, evs).1, window),
        forall|i: int| 0 <= i < evs.len() ==> (#[trigger] run(window, evs).0[i] <==> !exists|j: int|
            #[trigger] delivered_before(evs, run(window, evs).0, window, j, i)),
    decreases evs.len(),
{
    if evs.len() > 0 {
        let t = evs.drop_last();
        assert forall|i: int, j: int| 0 <= i <= j < t.len() implies #[trigger] t[i].2 <= #[trigger] t[j].2 by {
            assert(evs[i].2 <= evs[j].2);
        }
        lemma_run(window, t);
        let ds0 = run(window, t).0;
        let mem0 = run(window, t).1;
        let n = t.len() as int;
        let e = evs.last();
        assert(e == evs[n]);
        let now = e.2;
        let kept = fresh(mem0, window, now);
        lemma_fresh_within(mem0, window, now);
        let ds = run(window, evs).0;
        let mem = run(window, evs).1;
        assert(ds == ds0.push(delivery_spec(mem0, window, e.0, e.1, now).0));
        assert forall|j: int| 0 <= j < n implies evs[j] == #[trigger] t[j] && ds[j] == ds0[j] by {}
        // The step: the memory remembers the key exactly when an earlier
        // delivery of it lies inside the window.
        if remembers(kept, e.0, e.1) {
            let k = choose|k: int| 0 <= k < kept.len() && (#[trigger] kept[k]).0 == e.0 && kept[k].1 == e.1;
            lemma_fresh_within(mem0, window, now);
            assert(0 <= k < fresh(mem0, window, now).len());
            assert(elapsed(now, fresh(mem0, window, now)[k].2) < window);
            assert(in_memory(mem0, kept[k]));
            let m = choose|m: int| 0 <= m < mem0.len() && mem0[m] == kept[k];
            let j = choose|j: int| 0 <= j < t.len() && ds0[j] && #[trigger] t[j] == mem0[m];
            assert(evs[j] == t[j]);
            assert(evs[j].2 <= evs[n].2);
            assert(delivered_before(evs, ds, window, j, n));
        }
        if exists|j: int| #[trigger] delivered_before(evs, ds, window, j, n) {
            let j = choose|j: int| #[trigger] delivered_before(evs, ds, window, j, n);
            assert(evs[j] == t[j] && ds[j] == ds0[j]);
            assert(evs[j].2 <= evs[n].2);
            if n > 0 {
                assert(t.last() == t[n - 1]);
                assert(t[j].2 <= t[n - 1].2);
            }
            assert(in_memory(mem0, t[j]));
            lemma_fresh_keeps(mem0, window, now, t[j]);
            let k = choose|k: int| 0 <= k < kept.len() && kept[k] == t[j];
            assert(kept[k].0 == e.0 && kept[k].1 == e.1);
            assert(remembers(kept, e.0, e.1));
        }
        assert(ds[n] <==> !exists|j: int| #[trigger] delivered_before(evs, ds, window, j, n));
        // Earlier decisions keep their reasons.
        assert forall|i: int| 0 <= i < evs.len() implies (#[trigger] ds[i] <==> !exists|j: int|
            #[trigger] delivered_before(evs, ds, window, j, i)) by {
            if i < n {
                assert(ds[i] == ds0[i] && evs[i] == t[i]);
                assert(ds0[i] <==> !exists|j: int| #[trigger] delivered_before(t, ds0, window, j, i));
                if exists|j: int| #[trigger] delivered_before(evs, ds, window, j, i) {
                    let j = choose|j: int| #[trigger] delivered_before(evs, ds, window, j, i);
                    assert(evs[j] == t[j] && ds[j] == ds0[j]);
                    assert(delivered_before(t, ds0, window, j, i));
                }
                if exists|j: int| #[trigger] delivered_before(t, ds0, window, j, i) {
                    let j = choose|j: int| #[trigger] delivered_before(t, ds0, window, j, i);
                    assert(evs[j] == t[j] && ds[j] == ds0[j]);
                    assert(delivered_before(evs, ds, window, j, i));
                }
            }
        }
        // The memory holds delivered events only.
        assert forall|k: int| #![trigger mem[k]] 0 <= k < mem.len() implies exists|j: int| 0 <= j < evs.len() && ds[j] && #[trigger] evs[j] == mem[k] by {
            if k < kept.len() {
                assert(mem[k] == kept[k]);
                lemma_fresh_within(mem0, window, now);
                assert(0 <= k < fresh(mem0, window, now).len());
                assert(elapsed(now, fresh(mem0, window, now)[k].2) < window);
                assert(in_memory(mem0, kept[k]));
                let m = choose|m: int| 0 <= m < mem0.len() && mem0[m] == kept[k];
                let j = choose|j: int| 0 <= j < t.len() && ds0[j] && #[trigger] t[j] == mem0[m];
                assert(evs[j] == t[j] && ds[j] == ds0[j]);
            } else {
                assert(mem[k] == e);
                assert(ds[n]);
                assert(evs[n] == mem[k]);
            }
        }
        // Every delivery is remembered until it expires.
        assert forall|j: int| 0 <= j < evs.len() && #[trigger] ds[j] implies in_memory(mem, evs[j])
            || elapsed(evs.last().2, evs[j].2) >= window by {
            if j < n {
                assert(evs[j] == t[j] && ds0[j]);
                assert(t.last() == t[n - 1]);
                assert(t[j].2 <= t[n - 1].2 && t[n - 1].2 <= now) by {
                    assert(evs[n - 1] == t[n - 1]);
                }
                if elapsed(now, t[j].2) < window {
                    assert(in_memory(mem0, t[j]));
                    lemma_fresh_keeps(mem0, window, now, t[j]);
                    let k = choose|k: int| 0 <= k < kept.len() && kept[k] == t[j];
                    if ds[n] {
                        assert(mem == kept.push(e));
                        assert(mem[k] == kept[k]);
                    }
                }
            } else {
                assert(mem == kept.push(e));
                assert(mem[kept.len() as int] == e);
            }
        }
    }
}

/// Over any sequence of events whose times never go back, a filter that
/// starts empty delivers an event exactly when no earlier delivered event
/// with the same kind and path lies less than the window before it: a
/// suppressed duplicate does not extend the window, and the same path with
/// another kind is no duplicate.
pub proof fn delivered_iff_no_recent_delivery(window: u64, evs: Seq<(u8, Seq<char>, u64)>)
    requires
        times_ordered(evs),
    ensures
        run(window, evs).0.len() == evs.len(),
        forall|i: int| 0 <= i < evs.len() ==> (#[trigger] run(window, evs).0[i] <==> !exists|j: int|
            #[trigger] delivered_before(evs, run(window, evs).0, window, j, i)),
{
    lemma_run(window, evs);
}

} // verus!
