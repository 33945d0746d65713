use vstd::prelude::*;
use crate::database::Database;
use crate::ledger::{
    distinct_ids, entries_view, index_of, kept, lemma_index_of_bounds, lemma_index_of_unique,
    lemma_kept_origin, lemma_recorded_lookup, lemma_recorded_all_distinct, pruned, purged,
    recent_of, recorded_all, survives, timestamps_of, visit_times, EntryView, VisitEntry,
};

verus! {

/// The instants of `ts` after the watermark `w`, in order.
pub open spec fn after(ts: Seq<u64>, w: u64) -> Seq<u64>
    decreases ts.len(),
{
    if ts.len() == 0 {
        Seq::empty()
    } else if ts.last() > w {
        after(ts.drop_last(), w).push(ts.last())
    } else {
        after(ts.drop_last(), w)
    }
}

/// What a sync at watermark `w` still has to write: each record with its instants
/// cut to those after `w` and its count set to how many remain; records with none
/// left are dropped.
pub open spec fn pending(s: Seq<EntryView>, w: u64) -> Seq<EntryView>
    decreases s.len(),
{
    if s.len() == 0 {
        Seq::empty()
    } else {
        let r = pending(s.drop_last(), w);
        let ts = after(s.last().2, w);
        if ts.len() > 0 {
            r.push((s.last().0, ts.len() as u64, ts))
        } else {
            r
        }
    }
}

/// One row per instant: `(identifier, instant)`, record by record.
pub open spec fn rows_of(s: Seq<EntryView>) -> Seq<(Seq<char>, u64)>
    decreases s.len(),
{
    if s.len() == 0 {
        Seq::empty()
    } else {
        rows_of(s.drop_last()) + s.last().2.map_values(|t: u64| (s.last().0, t))
    }
}

/// The rows of `v`, as the contracts see them.
pub open spec fn rows_view(v: Seq<(String, u64)>) -> Seq<(Seq<char>, u64)> {
    v.map_values(|r: (String, u64)| (r.0@, r.1))
}

/// Every instant recorded in `s` is at most `w`.
pub open spec fn all_at_most(s: Seq<EntryView>, w: u64) -> bool {
    forall|i: int, j: int| 0 <= i < s.len() && 0 <= j < s[i].2.len() ==> s[i].2[j] <= w
}

/// Every visit of `calls` lies in the interval `(lo, hi]`.
pub open spec fn calls_within(calls: Seq<(Seq<char>, u64)>, lo: u64, hi: u64) -> bool {
    forall|i: int| 0 <= i < calls.len() ==> lo < #[trigger] calls[i].1 <= hi
}

/// The records of `snapshot` cut to what a sync at `watermark` still has to write.
pub fn pending_since(snapshot: &Vec<VisitEntry>, watermark: u64) -> (r: Vec<VisitEntry>)
    ensures
        entries_view(r@) == pending(entries_view(snapshot@), watermark),
{
    let ghost s = entries_view(snapshot@);
    let mut out: Vec<VisitEntry> = Vec::new();
    let mut i: usize = 0;
    while i < snapshot.len()
        invariant
            s == entries_view(snapshot@),
            i <= s.len(),
            entries_view(out@) == pending(s.take(i as int), watermark),
        decreases s.len() - i,
    {
        let e = &snapshot[i];
        assert(s.take(i + 1).drop_last() =~= s.take(i as int));
        assert(s.take(i + 1).last() == s[i as int]);
        let mut ts: Vec<u64> = Vec::new();
        let mut j: usize = 0;
        while j < e.timestamps.len()
            invariant
                i < s.len(),
                e@ == s[i as int],
                j <= e.timestamps@.len(),
                ts@ == after(e.timestamps@.take(j as int), watermark),
            decreases e.timestamps@.len() - j,
        {
            assert(e.timestamps@.take(j + 1).drop_last() =~= e.timestamps@.take(j as int));
            if e.timestamps[j] > watermark {
                ts.push(e.timestamps[j]);
            }
            j += 1;
        }
        assert(e.timestamps@.take(e.timestamps@.len() as int) =~= e.timestamps@);
        if ts.len() > 0 {
            let ghost before = entries_view(out@);
            let n = ts.len() as u64;
            out.push(VisitEntry { id: e.id.clone(), count: n, timestamps: ts });
            assert(entries_view(out@) =~= before.push((s[i as int].0, n, after(s[i as int].2, watermark))));
        }
        i += 1;
    }
    assert(s.take(s.len() as int) =~= s);
    out
}

/// One row `(identifier, instant)` per instant of `entries`, record by record.
pub fn flatten_rows(entries: &Vec<VisitEntry>) -> (r: Vec<(String, u64)>)
    ensures
        rows_view(r@) == rows_of(entries_view(entries@)),
{
    let ghost s = entries_view(entries@);
    let mut out: Vec<(String, u64)> = Vec::new();
    let mut i: usize = 0;
    while i < entries.len()
        invariant
            s == entries_view(entries@),
            i <= s.len(),
            rows_view(out@) == rows_of(s.take(i as int)),
        decreases s.len() - i,
    {
        let e = &entries[i];
        assert(s.take(i + 1).drop_last() =~= s.take(i as int));
        assert(s.take(i + 1).last() == s[i as int]);
        let ghost base = rows_view(out@);
        let mut j: usize = 0;
        while j < e.timestamps.len()
            invariant
                i < s.len(),
                e@ == s[i as int],
                j <= e.timestamps@.len(),
                rows_view(out@) == base + e.timestamps@.take(j as int).map_values(|t: u64| (s[i as int].0, t)),
            decreases e.timestamps@.len() - j,
        {
            let ghost prev = rows_view(out@);
            out.push((e.id.clone(), e.timestamps[j]));
            j += 1;
            assert(rows_view(out@) =~= prev.push((s[i as int].0, e.timestamps@[j - 1])));
            assert(base + e.timestamps@.take(j as int).map_values(|t: u64| (s[i as int].0, t)) =~=
                (base + e.timestamps@.take(j - 1).map_values(|t: u64| (s[i as int].0, t))).push((s[i as int].0, e.timestamps@[j - 1])));
        }
        assert(e.timestamps@.take(e.timestamps@.len() as int) =~= e.timestamps@);
        i += 1;
    }
    assert(s.take(s.len() as int) =~= s);
    out
}


/// The sync loop's state: the watermark below which every visit is durably stored.
pub struct SyncScheduler {
    watermark: u64,
}

impl SyncScheduler {
    /// The watermark as the contracts see it.
    pub closed spec fn watermark_spec(&self) -> u64 {
        self.watermark
    }

    /// A scheduler whose first cycle writes only visits after `start`.
    pub fn new(start: u64) -> (r: SyncScheduler)
        ensures
            r.watermark_spec() == start,
    {
        SyncScheduler { watermark: start }
    }

    /// The current watermark.
    pub fn watermark(&self) -> (r: u64)
        ensures
            r == self.watermark_spec(),
    {
        self.watermark
    }

    /// Starts a cycle at instant `now`: purges `db` and returns the rows that the
    /// durable store still lacks, one per visit after the watermark, taken from the
    /// ledger as it stood before the purge.
    pub fn begin_cycle(&self, db: &mut Database, now: u64) -> (r: Vec<(String, u64)>)
        requires
            old(db).wf(),
        ensures
            final(db).wf(),
            final(db).ledger_view() == purged(old(db).ledger_view(), now, old(db).window_spec(), old(db).top_n_spec()),
            final(db).recent_view() == old(db).recent_view(),
            final(db).last_n_spec() == old(db).last_n_spec(),
            final(db).top_n_spec() == old(db).top_n_spec(),
            final(db).window_spec() == old(db).window_spec(),
            rows_view(r@) == rows_of(pending(old(db).ledger_view(), self.watermark_spec())),
    {
        let (_, snapshot) = db.purge_db_at(now);
        let delta = pending_since(&snapshot, self.watermark);
        flatten_rows(&delta)
    }

    /// Ends the cycle started at `now`: the watermark moves to `now` when the rows
    /// were written, and stays where it was when the write failed.
    pub fn finish_cycle(&mut self, now: u64, written: bool)
        ensures
            final(self).watermark_spec() == if written { now } else { old(self).watermark_spec() },
    {
        if written {
            self.watermark = now;
        }
    }
}

proof fn lemma_after_concat(a: Seq<u64>, b: Seq<u64>, w: u64)
    ensures
        after(a + b, w) == after(a, w) + after(b, w),
    decreases b.len(),
{
    if b.len() == 0 {
        assert(a + b =~= a);
        assert(after(a, w) + after(b, w) =~= after(a, w));
    } else {
        lemma_after_concat(a, b.drop_last(), w);
        assert((a + b).drop_last() =~= a + b.drop_last());
        assert((a + b).last() == b.last());
        if b.last() > w {
            assert(after(a, w) + after(b.drop_last(), w).push(b.last()) =~= (after(a, w) + after(b.drop_last(), w)).push(b.last()));
        }
    }
}

proof fn lemma_after_bounds(a: Seq<u64>, w: u64)
    ensures
        (forall|i: int| 0 <= i < a.len() ==> a[i] <= w) ==> after(a, w) == Seq::<u64>::empty(),
        (forall|i: int| 0 <= i < a.len() ==> a[i] > w) ==> after(a, w) == a,
    decreases a.len(),
{
    if a.len() > 0 {
        let p = a.drop_last();
        lemma_after_bounds(p, w);
        if forall|i: int| 0 <= i < a.len() ==> a[i] <= w {
            assert(forall|i: int| 0 <= i < p.len() ==> p[i] == a[i]);
            assert(a[a.len() - 1] == a.last());
        }
        if forall|i: int| 0 <= i < a.len() ==> a[i] > w {
            assert(forall|i: int| 0 <= i < p.len() ==> p[i] == a[i]);
            assert(a[a.len() - 1] == a.last());
            assert(p.push(a.last()) =~= a);
        }
    }
}

proof fn lemma_visit_times_concat(a: Seq<(Seq<char>, u64)>, b: Seq<(Seq<char>, u64)>, id: Seq<char>)
    ensures
        visit_times(a + b, id) == visit_times(a, id) + visit_times(b, id),
    decreases b.len(),
{
    if b.len() == 0 {
        assert(a + b =~= a);
        assert(visit_times(a, id) + visit_times(b, id) =~= visit_times(a, id));
    } else {
        lemma_visit_times_concat(a, b.drop_last(), id);
        assert((a + b).drop_last() =~= a + b.drop_last());
        assert((a + b).last() == b.last());
        if b.last().0 == id {
            assert(visit_times(a, id) + visit_times(b.drop_last(), id).push(b.last().1)
                =~= (visit_times(a, id) + visit_times(b.drop_last(), id)).push(b.last().1));
        }
    }
}

proof fn lemma_visit_times_within(calls: Seq<(Seq<char>, u64)>, id: Seq<char>, lo: u64, hi: u64)
    requires
        calls_within(calls, lo, hi),
    ensures
        forall|i: int| 0 <= i < visit_times(calls, id).len() ==> lo < #[trigger] visit_times(calls, id)[i] <= hi,
    decreases calls.len(),
{
    if calls.len() > 0 {
        let p = calls.drop_last();
        assert forall|i: int| 0 <= i < p.len() implies lo < #[trigger] p[i].1 <= hi by {
            assert(p[i] == calls[i]);
        }
        lemma_visit_times_within(p, id, lo, hi);
        assert(calls[calls.len() - 1] == calls.last());
        let v = visit_times(calls, id);
        let vp = visit_times(p, id);
        assert forall|i: int| 0 <= i < v.len() implies lo < #[trigger] v[i] <= hi by {
            if i < vp.len() {
                assert(v[i] == vp[i]);
            }
        }
    }
}

proof fn lemma_timestamps_after_calls(m: Seq<EntryView>, calls: Seq<(Seq<char>, u64)>, id: Seq<char>)
    requires
        distinct_ids(m),
    ensures
        timestamps_of(recorded_all(m, calls), id) == timestamps_of(m, id) + visit_times(calls, id),
    decreases calls.len(),
{
    if calls.len() == 0 {
        assert(timestamps_of(m, id) + Seq::<u64>::empty() =~= timestamps_of(m, id));
    } else {
        let p = calls.drop_last();
        lemma_timestamps_after_calls(m, p, id);
        lemma_recorded_all_distinct(m, p);
        lemma_recorded_lookup(recorded_all(m, p), calls.last().0, calls.last().1, id);
        if calls.last().0 == id {
            assert(timestamps_of(m, id) + visit_times(p, id).push(calls.last().1)
                =~= (timestamps_of(m, id) + visit_times(p, id)).push(calls.last().1));
        }
    }
}

proof fn lemma_pending_lookup(s: Seq<EntryView>, w: u64, id: Seq<char>)
    requires
        distinct_ids(s),
    ensures
        timestamps_of(pending(s, w), id) == after(timestamps_of(s, id), w),
        forall|j: int| 0 <= j < pending(s, w).len() ==> exists|m: int| 0 <= m < s.len() && #[trigger] pending(s, w)[j].0 == s[m].0,
    decreases s.len(),
{
    if s.len() == 0 {
        assert(index_of(pending(s, w), id) == -1);
        assert(index_of(s, id) == -1);
    } else {
        let p = s.drop_last();
        assert(distinct_ids(p));
        lemma_pending_lookup(p, w, id);
        let r = pending(p, w);
        let q = pending(s, w);
        let ts = after(s.last().2, w);
        assert forall|j: int| 0 <= j < q.len() implies exists|m: int| 0 <= m < s.len() && #[trigger] q[j].0 == s[m].0 by {
            if j < r.len() {
                assert(q[j] == r[j]);
                let m = choose|m: int| 0 <= m < p.len() && #[trigger] r[j].0 == p[m].0;
                assert(s[m] == p[m]);
            } else {
                assert(q[j].0 == s[s.len() - 1].0);
            }
        }
        lemma_index_of_bounds(p, id);
        lemma_index_of_bounds(r, id);
        if s.last().0 == id {
            lemma_index_of_unique(s, id, s.len() - 1);
            if index_of(p, id) >= 0 {
                assert(p[index_of(p, id)] == s[index_of(p, id)]);
            }
            assert(timestamps_of(p, id) == Seq::<u64>::empty());
            if ts.len() > 0 {
                assert(q.last().0 == id);
            } else {
                assert(after(Seq::<u64>::empty(), w) == Seq::<u64>::empty());
            }
        } else {
            assert(index_of(s, id) == index_of(p, id));
            if index_of(p, id) >= 0 {
                assert(p[index_of(p, id)] == s[index_of(p, id)]);
            }
            if ts.len() > 0 {
                assert(q.drop_last() =~= r);
                assert(index_of(q, id) == index_of(r, id));
                if index_of(r, id) >= 0 {
                    assert(q[index_of(r, id)] == r[index_of(r, id)]);
                }
            }
        }
    }
}

proof fn lemma_recent_of_at_most(ts: Seq<u64>, now: u64, window: u64)
    ensures
        forall|i: int| 0 <= i < recent_of(ts, now, window).len() ==> #[trigger] recent_of(ts, now, window)[i] <= now,
    decreases ts.len(),
{
    if ts.len() > 0 {
        lemma_recent_of_at_most(ts.drop_last(), now, window);
        let v = recent_of(ts, now, window);
        let vp = recent_of(ts.drop_last(), now, window);
        assert forall|i: int| 0 <= i < v.len() implies #[trigger] v[i] <= now by {
            if i < vp.len() {
                assert(v[i] == vp[i]);
            }
        }
    }
}

proof fn lemma_kept_shape(all: Seq<EntryView>, s: Seq<EntryView>, now: u64, window: u64, k: usize)
    requires
        distinct_ids(s),
    ensures
        distinct_ids(kept(all, s, now, window, k)),
        all_at_most(kept(all, s, now, window, k), now),
    decreases s.len(),
{
    let q = kept(all, s, now, window, k);
    if s.len() > 0 {
        let p = s.drop_last();
        assert(distinct_ids(p));
        lemma_kept_shape(all, p, now, window, k);
        let r = kept(all, p, now, window, k);
        assert forall|a: int, b: int| 0 <= a < q.len() && 0 <= b < q.len() && a != b implies q[a].0 != q[b].0 by {
            if a < r.len() && b < r.len() {
                assert(q[a] == r[a] && q[b] == r[b]);
            } else if a < r.len() {
                lemma_kept_origin(all, p, now, window, k, a);
                let m = choose|m: int| 0 <= m < p.len() && survives(all, #[trigger] p[m], now, window, k) && r[a] == pruned(p[m], now, window);
                assert(q[a] == r[a]);
                assert(s[m] == p[m]);
                assert(s[s.len() - 1] == s.last());
            } else if b < r.len() {
                lemma_kept_origin(all, p, now, window, k, b);
                let m = choose|m: int| 0 <= m < p.len() && survives(all, #[trigger] p[m], now, window, k) && r[b] == pruned(p[m], now, window);
                assert(q[b] == r[b]);
                assert(s[m] == p[m]);
                assert(s[s.len() - 1] == s.last());
            }
        }
        assert forall|i: int, j: int| 0 <= i < q.len() && 0 <= j < q[i].2.len() implies q[i].2[j] <= now by {
            if i < r.len() {
                assert(q[i] == r[i]);
            } else {
                lemma_recent_of_at_most(s.last().2, now, window);
            }
        }
    }
}

/// Two successful sync cycles, the first at `w1` after starting at `start` and the
/// second at `w2`, write between them exactly the visits made after `start` up to
/// `w2`: for each identifier, the instants written by the first cycle followed by
/// those written by the second are the instants of its visits, in order. The first
/// cycle writes only instants up to `w1` and the second only instants after it, so
/// no visit is written twice. Here the ledger at `start` holds nothing after
/// `start`, `vs1` are the visits up to the first cycle and `vs2` those between the
/// cycles, each stamped with the clock, which does not run backwards.
pub proof fn lemma_two_cycles(
    m0: Seq<EntryView>,
    vs1: Seq<(Seq<char>, u64)>,
    vs2: Seq<(Seq<char>, u64)>,
    start: u64,
    w1: u64,
    w2: u64,
    window: u64,
    k: usize,
    id: Seq<char>,
)
    requires
        distinct_ids(m0),
        all_at_most(m0, start),
        start <= w1 <= w2,
        calls_within(vs1, start, w1),
        calls_within(vs2, w1, w2),
    ensures
        ({
            let m1 = recorded_all(m0, vs1);
            let m2 = recorded_all(purged(m1, w1, window, k), vs2);
            let first = timestamps_of(pending(m1, start), id);
            let second = timestamps_of(pending(m2, w1), id);
            &&& first + second == visit_times(vs1 + vs2, id)
            &&& forall|i: int| 0 <= i < first.len() ==> start < #[trigger] first[i] <= w1
            &&& forall|i: int| 0 <= i < second.len() ==> w1 < #[trigger] second[i] <= w2
        }),
{
    let m1 = recorded_all(m0, vs1);
    let purged_first = purged(m1, w1, window, k);
    let m2 = recorded_all(purged_first, vs2);
    lemma_recorded_all_distinct(m0, vs1);
    lemma_kept_shape(m1, m1, w1, window, k);
    lemma_recorded_all_distinct(purged_first, vs2);

    lemma_pending_lookup(m1, start, id);
    lemma_timestamps_after_calls(m0, vs1, id);
    lemma_after_concat(timestamps_of(m0, id), visit_times(vs1, id), start);
    lemma_index_of_bounds(m0, id);
    lemma_after_bounds(timestamps_of(m0, id), start);
    lemma_visit_times_within(vs1, id, start, w1);
    lemma_after_bounds(visit_times(vs1, id), start);
    assert(Seq::<u64>::empty() + visit_times(vs1, id) =~= visit_times(vs1, id));

    lemma_pending_lookup(m2, w1, id);
    lemma_timestamps_after_calls(purged_first, vs2, id);
    lemma_after_concat(timestamps_of(purged_first, id), visit_times(vs2, id), w1);
    lemma_index_of_bounds(purged_first, id);
    lemma_after_bounds(timestamps_of(purged_first, id), w1);
    lemma_visit_times_within(vs2, id, w1, w2);
    lemma_after_bounds(visit_times(vs2, id), w1);
    assert(Seq::<u64>::empty() + visit_times(vs2, id) =~= visit_times(vs2, id));

    lemma_visit_times_concat(vs1, vs2, id);
}

} // verus!
