use vstd::prelude::*;

verus! {

/// One identifier's state as the contracts see it:
/// (identifier, all-time count, recent visit instants in milliseconds).
pub type EntryView = (Seq<char>, u64, Seq<u64>);

/// One identifier's record in a ledger or in a snapshot of it.
#[derive(Clone)]
pub struct VisitEntry {
    pub id: String,
    pub count: u64,
    pub timestamps: Vec<u64>,
}

impl View for VisitEntry {
    type V = EntryView;

    open spec fn view(&self) -> EntryView {
        (self.id@, self.count, self.timestamps@)
    }
}

/// The views of a sequence of entries.
pub open spec fn entries_view(v: Seq<VisitEntry>) -> Seq<EntryView> {
    v.map_values(|e: VisitEntry| e@)
}

/// No identifier occurs twice.
pub open spec fn distinct_ids(s: Seq<EntryView>) -> bool {
    forall|i: int, j: int| 0 <= i < s.len() && 0 <= j < s.len() && i != j ==> s[i].0 != s[j].0
}

/// Position of `id` in `s`, or -1 when it is absent.
pub open spec fn index_of(s: Seq<EntryView>, id: Seq<char>) -> int
    decreases s.len(),
{
    if s.len() == 0 {
        -1
    } else if s.last().0 == id {
        s.len() - 1
    } else {
        index_of(s.drop_last(), id)
    }
}

/// The all-time count of `id`, zero when it has no record.
pub open spec fn count_of(s: Seq<EntryView>, id: Seq<char>) -> nat {
    let i = index_of(s, id);
    if i >= 0 {
        s[i].1 as nat
    } else {
        0
    }
}

/// The recorded instants of `id`, empty when it has no record.
pub open spec fn timestamps_of(s: Seq<EntryView>, id: Seq<char>) -> Seq<u64> {
    let i = index_of(s, id);
    if i >= 0 {
        s[i].2
    } else {
        Seq::empty()
    }
}

/// Count after one more visit; it stays at the largest `u64`.
pub open spec fn bumped(c: u64) -> u64 {
    if c < u64::MAX {
        (c + 1) as u64
    } else {
        c
    }
}

/// The ledger after a visit by `id` at instant `now`: an existing record has its
/// count raised and `now` appended; otherwise a record `(id, 1, [now])` is added.
pub open spec fn recorded(s: Seq<EntryView>, id: Seq<char>, now: u64) -> Seq<EntryView> {
    let i = index_of(s, id);
    if i >= 0 {
        s.update(i, (id, bumped(s[i].1), s[i].2.push(now)))
    } else {
        s.push((id, 1u64, seq![now]))
    }
}

/// The ledger after the visits of `calls`, in order, each an identifier and an instant.
pub open spec fn recorded_all(s: Seq<EntryView>, calls: Seq<(Seq<char>, u64)>) -> Seq<EntryView>
    decreases calls.len(),
{
    if calls.len() == 0 {
        s
    } else {
        let prev = recorded_all(s, calls.drop_last());
        recorded(prev, calls.last().0, calls.last().1)
    }
}

/// How many of `calls` were made by `id`.
pub open spec fn visits_by(calls: Seq<(Seq<char>, u64)>, id: Seq<char>) -> nat
    decreases calls.len(),
{
    if calls.len() == 0 {
        0
    } else {
        visits_by(calls.drop_last(), id) + if calls.last().0 == id {
            1nat
        } else {
            0nat
        }
    }
}

/// The instants of the visits of `calls` made by `id`, in order.
pub open spec fn visit_times(calls: Seq<(Seq<char>, u64)>, id: Seq<char>) -> Seq<u64>
    decreases calls.len(),
{
    if calls.len() == 0 {
        Seq::empty()
    } else if calls.last().0 == id {
        visit_times(calls.drop_last(), id).push(calls.last().1)
    } else {
        visit_times(calls.drop_last(), id)
    }
}

/// `index_of` gives -1 or a position that holds `id`, and -1 only when no position
/// holds it.
pub proof fn lemma_index_of_bounds(s: Seq<EntryView>, id: Seq<char>)
    ensures
        -1 <= index_of(s, id) < s.len(),
        index_of(s, id) >= 0 ==> s[index_of(s, id)].0 == id,
        index_of(s, id) < 0 ==> forall|j: int| 0 <= j < s.len() ==> s[j].0 != id,
    decreases s.len(),
{
    if s.len() > 0 {
        lemma_index_of_bounds(s.drop_last(), id);
        if s.last().0 != id && index_of(s, id) < 0 {
            assert forall|j: int| 0 <= j < s.len() implies s[j].0 != id by {
                if j < s.len() - 1 {
                    assert(s[j] == s.drop_last()[j]);
                }
            }
        }
    }
}

/// In a ledger without repeated identifiers, the record of `id` is the one at any
/// position that holds `id`.
pub proof fn lemma_index_of_unique(s: Seq<EntryView>, id: Seq<char>, i: int)
    requires
        distinct_ids(s),
        0 <= i < s.len(),
        s[i].0 == id,
    ensures
        index_of(s, id) == i,
    decreases s.len(),
{
    if i < s.len() - 1 {
        assert(s.drop_last()[i] == s[i]);
        lemma_index_of_unique(s.drop_last(), id, i);
    }
}

/// Where `id` stands after a visit.
pub proof fn lemma_recorded_index(s: Seq<EntryView>, id: Seq<char>, now: u64, other: Seq<char>)
    requires
        distinct_ids(s),
    ensures
        distinct_ids(recorded(s, id, now)),
        recorded(s, id, now).len() >= s.len(),
        other != id ==> index_of(recorded(s, id, now), other) == index_of(s, other),
        index_of(recorded(s, id, now), id) >= 0,
{
    let r = recorded(s, id, now);
    lemma_index_of_bounds(s, id);
    lemma_index_of_bounds(s, other);
    let i = index_of(s, id);
    if i < 0 {
        assert(r.last().0 == id);
        assert(r.drop_last() =~= s);
    }
    assert(distinct_ids(r));
    if i >= 0 {
        lemma_index_of_unique(r, id, i);
    } else {
        lemma_index_of_unique(r, id, s.len() as int);
    }
    lemma_index_of_bounds(r, id);
    lemma_index_of_bounds(r, other);
    if other != id {
        let k = index_of(s, other);
        if k >= 0 {
            lemma_index_of_unique(r, other, k);
        } else {
            let rk = index_of(r, other);
            if rk >= 0 {
                assert(r[rk].0 == other);
                if rk < s.len() {
                    assert(s[rk].0 == other);
                }
            }
        }
    }
}

/// Lookup after a visit: the visitor's count is raised and `now` is appended to its
/// instants; every other identifier keeps its record.
pub proof fn lemma_recorded_lookup(s: Seq<EntryView>, id: Seq<char>, now: u64, other: Seq<char>)
    requires
        distinct_ids(s),
    ensures
        count_of(recorded(s, id, now), other) == if other == id {
            bumped(count_of(s, id) as u64) as nat
        } else {
            count_of(s, other)
        },
        timestamps_of(recorded(s, id, now), other) == if other == id {
            timestamps_of(s, id).push(now)
        } else {
            timestamps_of(s, other)
        },
{
    lemma_recorded_index(s, id, now, other);
    lemma_index_of_bounds(s, id);
    let r = recorded(s, id, now);
    let i = index_of(s, id);
    if other == id {
        if i >= 0 {
            lemma_index_of_unique(r, id, i);
        } else {
            lemma_index_of_unique(r, id, s.len() as int);
        }
    } else {
        lemma_index_of_bounds(s, other);
        let k = index_of(s, other);
        if k >= 0 {
            assert(r[k] == s[k]);
        }
    }
}

/// Replaying visits keeps identifiers distinct.
pub proof fn lemma_recorded_all_distinct(s: Seq<EntryView>, calls: Seq<(Seq<char>, u64)>)
    requires
        distinct_ids(s),
    ensures
        distinct_ids(recorded_all(s, calls)),
    decreases calls.len(),
{
    if calls.len() > 0 {
        lemma_recorded_all_distinct(s, calls.drop_last());
        lemma_recorded_index(recorded_all(s, calls.drop_last()), calls.last().0, calls.last().1, calls.last().0);
    }
}

/// Starting from an empty ledger, after any sequence of visits (fewer than the
/// largest `u64`, so no count saturates) the all-time count of an identifier is the
/// number of visits it made, and its instants are those of its visits in order.
pub proof fn lemma_count_is_visits(calls: Seq<(Seq<char>, u64)>, id: Seq<char>)
    requires
        calls.len() < u64::MAX,
    ensures
        count_of(recorded_all(Seq::empty(), calls), id) == visits_by(calls, id),
        timestamps_of(recorded_all(Seq::empty(), calls), id) == visit_times(calls, id),
    decreases calls.len(),
{
    if calls.len() > 0 {
        let prev = calls.drop_last();
        lemma_count_is_visits(prev, id);
        lemma_visits_by_bound(prev, id);
        lemma_recorded_all_distinct(Seq::empty(), prev);
        lemma_recorded_lookup(recorded_all(Seq::empty(), prev), calls.last().0, calls.last().1, id);
    } else {
        assert(index_of(Seq::<EntryView>::empty(), id) == -1);
    }
}

proof fn lemma_visits_by_bound(calls: Seq<(Seq<char>, u64)>, id: Seq<char>)
    ensures
        visits_by(calls, id) <= calls.len(),
    decreases calls.len(),
{
    if calls.len() > 0 {
        lemma_visits_by_bound(calls.drop_last(), id);
    }
}


/// `t` lies in the trailing window of length `window` that ends at `now`.
/// An instant after `now` lies outside it.
pub open spec fn in_window(t: u64, now: u64, window: u64) -> bool {
    t <= now && now - t <= window
}

/// The instants of `ts` that lie in the window, in order.
pub open spec fn recent_of(ts: Seq<u64>, now: u64, window: u64) -> Seq<u64>
    decreases ts.len(),
{
    if ts.len() == 0 {
        Seq::empty()
    } else {
        let r = recent_of(ts.drop_last(), now, window);
        if in_window(ts.last(), now, window) {
            r.push(ts.last())
        } else {
            r
        }
    }
}

/// How many records of `s` have an all-time count above `c`.
pub open spec fn count_above(s: Seq<EntryView>, c: u64) -> nat
    decreases s.len(),
{
    if s.len() == 0 {
        0
    } else {
        count_above(s.drop_last(), c) + if s.last().1 > c {
            1nat
        } else {
            0nat
        }
    }
}

/// A count reaches the `k`-th largest all-time count of `s` (duplicates counted
/// one by one): fewer than `k` records lie strictly above it. When `k` exceeds the
/// number of records every count reaches it; when `k` is zero none does.
pub open spec fn in_top(s: Seq<EntryView>, c: u64, k: usize) -> bool {
    count_above(s, c) < k
}

/// Retention rule: a record stays in memory when it keeps a recent instant or its
/// all-time count reaches the `k`-th largest of the ledger `all`.
pub open spec fn survives(all: Seq<EntryView>, e: EntryView, now: u64, window: u64, k: usize) -> bool {
    recent_of(e.2, now, window).len() > 0 || in_top(all, e.1, k)
}

/// A record with its instants cut down to the window.
pub open spec fn pruned(e: EntryView, now: u64, window: u64) -> EntryView {
    (e.0, e.1, recent_of(e.2, now, window))
}

/// The pruned survivors among `s`, judged against the whole ledger `all`, in order.
pub open spec fn kept(all: Seq<EntryView>, s: Seq<EntryView>, now: u64, window: u64, k: usize) -> Seq<EntryView>
    decreases s.len(),
{
    if s.len() == 0 {
        Seq::empty()
    } else {
        let r = kept(all, s.drop_last(), now, window, k);
        if survives(all, s.last(), now, window, k) {
            r.push(pruned(s.last(), now, window))
        } else {
            r
        }
    }
}

/// The ledger after a purge at `now`.
pub open spec fn purged(s: Seq<EntryView>, now: u64, window: u64, k: usize) -> Seq<EntryView> {
    kept(s, s, now, window, k)
}

/// How many records of `s` have an all-time count of at least `c`.
pub open spec fn count_at_least(s: Seq<EntryView>, c: u64) -> nat
    decreases s.len(),
{
    if s.len() == 0 {
        0
    } else {
        count_at_least(s.drop_last(), c) + if s.last().1 >= c {
            1nat
        } else {
            0nat
        }
    }
}

/// `c` is the `k`-th largest all-time count of `s`, duplicates counted one by one.
pub open spec fn is_kth_largest(s: Seq<EntryView>, c: u64, k: usize) -> bool {
    count_above(s, c) < k <= count_at_least(s, c)
}

proof fn lemma_recent_of_idempotent(ts: Seq<u64>, now: u64, window: u64)
    ensures
        recent_of(recent_of(ts, now, window), now, window) == recent_of(ts, now, window),
    decreases ts.len(),
{
    if ts.len() > 0 {
        lemma_recent_of_idempotent(ts.drop_last(), now, window);
        let r = recent_of(ts.drop_last(), now, window);
        if in_window(ts.last(), now, window) {
            assert(r.push(ts.last()).drop_last() =~= r);
        }
    }
}

proof fn lemma_kept_count_above(all: Seq<EntryView>, s: Seq<EntryView>, now: u64, window: u64, k: usize, c: u64)
    ensures
        count_above(kept(all, s, now, window, k), c) <= count_above(s, c),
    decreases s.len(),
{
    if s.len() > 0 {
        lemma_kept_count_above(all, s.drop_last(), now, window, k, c);
        let r = kept(all, s.drop_last(), now, window, k);
        if survives(all, s.last(), now, window, k) {
            assert(r.push(pruned(s.last(), now, window)).drop_last() =~= r);
        }
    }
}

pub(crate) proof fn lemma_kept_origin(all: Seq<EntryView>, s: Seq<EntryView>, now: u64, window: u64, k: usize, j: int)
    requires
        0 <= j < kept(all, s, now, window, k).len(),
    ensures
        exists|m: int|
            0 <= m < s.len() && survives(all, #[trigger] s[m], now, window, k)
                && kept(all, s, now, window, k)[j] == pruned(s[m], now, window),
    decreases s.len(),
{
    let p = s.drop_last();
    let r = kept(all, p, now, window, k);
    let q = kept(all, s, now, window, k);
    if j < r.len() {
        lemma_kept_origin(all, p, now, window, k, j);
        assert(q[j] == r[j]);
        let m = choose|m: int| 0 <= m < p.len() && survives(all, #[trigger] p[m], now, window, k) && r[j] == pruned(p[m], now, window);
        assert(s[m] == p[m]);
    } else {
        let m = s.len() - 1;
        assert(s[m] == s.last());
        assert(q[j] == pruned(s[m], now, window));
    }
}

proof fn lemma_kept_contains(all: Seq<EntryView>, s: Seq<EntryView>, now: u64, window: u64, k: usize, m: int)
    requires
        0 <= m < s.len(),
        survives(all, s[m], now, window, k),
    ensures
        exists|j: int| 0 <= j < kept(all, s, now, window, k).len() && #[trigger] kept(all, s, now, window, k)[j].0 == s[m].0,
    decreases s.len(),
{
    let r = kept(all, s.drop_last(), now, window, k);
    let q = kept(all, s, now, window, k);
    if m == s.len() - 1 {
        assert(q[q.len() - 1].0 == s[m].0);
    } else {
        assert(s.drop_last()[m] == s[m]);
        lemma_kept_contains(all, s.drop_last(), now, window, k, m);
        let j = choose|j: int| 0 <= j < r.len() && #[trigger] r[j].0 == s[m].0;
        assert(q[j] == r[j]);
    }
}

proof fn lemma_kept_fixed(all: Seq<EntryView>, t: Seq<EntryView>, now: u64, window: u64, k: usize)
    requires
        forall|j: int| 0 <= j < t.len() ==> survives(all, #[trigger] t[j], now, window, k) && pruned(t[j], now, window) == t[j],
    ensures
        kept(all, t, now, window, k) == t,
    decreases t.len(),
{
    if t.len() > 0 {
        assert forall|j: int| 0 <= j < t.drop_last().len() implies survives(all, #[trigger] t.drop_last()[j], now, window, k)
            && pruned(t.drop_last()[j], now, window) == t.drop_last()[j] by {
            assert(t.drop_last()[j] == t[j]);
        }
        lemma_kept_fixed(all, t.drop_last(), now, window, k);
        assert(t.last() == t[t.len() - 1]);
        assert(t.drop_last().push(t.last()) =~= t);
    }
}

/// A second purge at the same instant changes nothing: instants already cut to the
/// window stay as they are, and every record that survived the first purge survives
/// the second.
pub proof fn lemma_purge_idempotent(s: Seq<EntryView>, now: u64, window: u64, k: usize)
    ensures
        purged(purged(s, now, window, k), now, window, k) == purged(s, now, window, k),
{
    let p = purged(s, now, window, k);
    assert forall|j: int| 0 <= j < p.len() implies survives(p, #[trigger] p[j], now, window, k) && pruned(p[j], now, window) == p[j] by {
        lemma_kept_origin(s, s, now, window, k, j);
        let m = choose|m: int| 0 <= m < s.len() && survives(s, #[trigger] s[m], now, window, k) && p[j] == pruned(s[m], now, window);
        lemma_recent_of_idempotent(s[m].2, now, window);
        lemma_kept_count_above(s, s, now, window, k, s[m].1);
    }
    lemma_kept_fixed(p, p, now, window, k);
}

/// Records that share the `k`-th largest all-time count all survive a purge, so the
/// survivors may outnumber `k`.
pub proof fn lemma_ties_survive(s: Seq<EntryView>, now: u64, window: u64, k: usize, a: int, b: int)
    requires
        0 <= a < s.len(),
        0 <= b < s.len(),
        s[a].1 == s[b].1,
        is_kth_largest(s, s[a].1, k),
    ensures
        index_of(purged(s, now, window, k), s[a].0) >= 0,
        index_of(purged(s, now, window, k), s[b].0) >= 0,
{
    let p = purged(s, now, window, k);
    lemma_kept_contains(s, s, now, window, k, a);
    lemma_kept_contains(s, s, now, window, k, b);
    lemma_index_of_bounds(p, s[a].0);
    lemma_index_of_bounds(p, s[b].0);
}

/// The ledger with the all-time count of `id` set to `c`; a record `(id, c, [])` is
/// added when there is none.
pub open spec fn with_count(s: Seq<EntryView>, id: Seq<char>, c: u64) -> Seq<EntryView> {
    let i = index_of(s, id);
    if i >= 0 {
        s.update(i, (id, c, s[i].2))
    } else {
        s.push((id, c, Seq::empty()))
    }
}

/// The ledger with instant `t` appended to the record of `id`, its count unchanged;
/// a record `(id, 0, [t])` is added when there is none.
pub open spec fn with_timestamp(s: Seq<EntryView>, id: Seq<char>, t: u64) -> Seq<EntryView> {
    let i = index_of(s, id);
    if i >= 0 {
        s.update(i, (id, s[i].1, s[i].2.push(t)))
    } else {
        s.push((id, 0u64, seq![t]))
    }
}

/// The mapping from identifier to visit record, kept in order of first visit.
pub struct Ledger {
    entries: Vec<VisitEntry>,
}

impl View for Ledger {
    type V = Seq<EntryView>;

    closed spec fn view(&self) -> Seq<EntryView> {
        entries_view(self.entries@)
    }
}

impl VisitEntry {
    /// A copy of this record.
    pub fn duplicate(&self) -> (r: VisitEntry)
        ensures
            r@ == self@,
    {
        let mut ts: Vec<u64> = Vec::new();
        let mut i: usize = 0;
        while i < self.timestamps.len()
            invariant
                i <= self.timestamps@.len(),
                ts@ == self.timestamps@.take(i as int),
            decreases self.timestamps@.len() - i,
        {
            ts.push(self.timestamps[i]);
            i += 1;
            assert(ts@ =~= self.timestamps@.take(i as int));
        }
        assert(ts@ =~= self.timestamps@);
        VisitEntry { id: self.id.clone(), count: self.count, timestamps: ts }
    }
}

/// Copies every record of `v`.
pub fn copy_entries(v: &Vec<VisitEntry>) -> (r: Vec<VisitEntry>)
    ensures
        entries_view(r@) == entries_view(v@),
{
    let mut out: Vec<VisitEntry> = Vec::new();
    let mut i: usize = 0;
    while i < v.len()
        invariant
            i <= v@.len(),
            out@.len() == i,
            forall|j: int| 0 <= j < i ==> #[trigger] out@[j]@ == v@[j]@,
        decreases v@.len() - i,
    {
        let e = v[i].duplicate();
        out.push(e);
        i += 1;
    }
    assert(entries_view(out@) =~= entries_view(v@));
    out
}

/// The instants of `ts` that lie in the window ending at `now`.
pub fn recent_timestamps(ts: &Vec<u64>, now: u64, window: u64) -> (r: Vec<u64>)
    ensures
        r@ == recent_of(ts@, now, window),
{
    let mut out: Vec<u64> = Vec::new();
    let mut i: usize = 0;
    while i < ts.len()
        invariant
            i <= ts@.len(),
            out@ == recent_of(ts@.take(i as int), now, window),
        decreases ts@.len() - i,
    {
        let t = ts[i];
        assert(ts@.take(i + 1).drop_last() =~= ts@.take(i as int));
        if t <= now && now - t <= window {
            out.push(t);
        }
        i += 1;
    }
    assert(ts@.take(ts@.len() as int) =~= ts@);
    out
}

impl Ledger {
    /// Every identifier has at most one record.
    pub closed spec fn wf(&self) -> bool {
        distinct_ids(self@)
    }

    /// An empty ledger.
    pub fn new() -> (r: Ledger)
        ensures
            r.wf(),
            r@ == Seq::<EntryView>::empty(),
    {
        let r = Ledger { entries: Vec::new() };
        assert(r@ =~= Seq::<EntryView>::empty());
        r
    }

    /// A copy of every record, in order.
    pub fn snapshot(&self) -> (r: Vec<VisitEntry>)
        ensures
            entries_view(r@) == self@,
    {
        copy_entries(&self.entries)
    }

    /// The position of the record of `id`.
    fn find(&self, id: &String) -> (r: Option<usize>)
        requires
            self.wf(),
        ensures
            r matches Some(i) ==> i < self@.len() && index_of(self@, id@) == i,
            r is None ==> index_of(self@, id@) < 0,
    {
        let n = self.entries.len();
        let mut i: usize = 0;
        while i < n
            invariant
                n == self.entries@.len(),
                i <= n,
                self.wf(),
                forall|j: int| 0 <= j < i ==> self.entries@[j].id@ != id@,
            decreases n - i,
        {
            if self.entries[i].id == *id {
                proof {
                    assert(self@[i as int].0 == id@);
                    lemma_index_of_unique(self@, id@, i as int);
                }
                return Some(i);
            }
            i += 1;
        }
        proof {
            lemma_index_of_bounds(self@, id@);
            if index_of(self@, id@) >= 0 {
                assert(self@[index_of(self@, id@)].0 == self.entries@[index_of(self@, id@)].id@);
            }
        }
        None
    }

    /// The all-time count of `id`, zero when it has no record.
    pub fn count_for(&self, id: &String) -> (r: u64)
        requires
            self.wf(),
        ensures
            r == count_of(self@, id@),
    {
        match self.find(id) {
            Some(i) => self.entries[i].count,
            None => 0,
        }
    }

    /// Sets the all-time count of `id` to `count`, adding a record without instants
    /// when there is none.
    pub fn set_count(&mut self, id: String, count: u64)
        requires
            old(self).wf(),
        ensures
            final(self).wf(),
            final(self)@ == with_count(old(self)@, id@, count),
    {
        let ghost s = self@;
        proof {
            lemma_index_of_bounds(s, id@);
        }
        match self.find(&id) {
            Some(i) => {
                let e = &mut self.entries[i];
                e.count = count;
                assert(self@ =~= with_count(s, id@, count));
            },
            None => {
                self.entries.push(VisitEntry { id, count, timestamps: Vec::new() });
                assert(self@ =~= with_count(s, id@, count));
            },
        }
        proof {
            let r = self@;
            assert forall|a: int, b: int| 0 <= a < r.len() && 0 <= b < r.len() && a != b implies r[a].0 != r[b].0 by {
                if a < s.len() && b < s.len() {
                    assert(r[a].0 == s[a].0 && r[b].0 == s[b].0);
                } else if a < s.len() {
                    assert(r[a].0 == s[a].0);
                } else if b < s.len() {
                    assert(r[b].0 == s[b].0);
                }
            }
        }
    }

    /// Appends instant `t` to the record of `id`, adding a record with count zero
    /// when there is none.
    pub fn add_timestamp(&mut self, id: String, t: u64)
        requires
            old(self).wf(),
        ensures
            final(self).wf(),
            final(self)@ == with_timestamp(old(self)@, id@, t),
    {
        let ghost s = self@;
        proof {
            lemma_index_of_bounds(s, id@);
        }
        match self.find(&id) {
            Some(i) => {
                let e = &mut self.entries[i];
                e.timestamps.push(t);
                assert(self@ =~= with_timestamp(s, id@, t));
            },
            None => {
                let mut ts: Vec<u64> = Vec::new();
                ts.push(t);
                self.entries.push(VisitEntry { id, count: 0, timestamps: ts });
                assert(self@ =~= with_timestamp(s, id@, t));
            },
        }
        proof {
            let r = self@;
            assert forall|a: int, b: int| 0 <= a < r.len() && 0 <= b < r.len() && a != b implies r[a].0 != r[b].0 by {
                if a < s.len() && b < s.len() {
                    assert(r[a].0 == s[a].0 && r[b].0 == s[b].0);
                } else if a < s.len() {
                    assert(r[a].0 == s[a].0);
                } else if b < s.len() {
                    assert(r[b].0 == s[b].0);
                }
            }
        }
    }

    /// Records a visit by `id` at instant `now` and returns a copy of the whole
    /// ledger as it stands afterwards.
    pub fn record_visit_at(&mut self, id: String, now: u64) -> (r: Vec<VisitEntry>)
        requires
            old(self).wf(),
        ensures
            final(self).wf(),
            final(self)@ == recorded(old(self)@, id@, now),
            entries_view(r@) == final(self)@,
    {
        proof {
            lemma_recorded_index(self@, id@, now, id@);
            lemma_index_of_bounds(self@, id@);
        }
        let ghost s = self@;
        match self.find(&id) {
            Some(i) => {
                let c = self.entries[i].count;
                let e = &mut self.entries[i];
                e.count = if c < u64::MAX { c + 1 } else { c };
                e.timestamps.push(now);
                assert(self@ =~= recorded(s, id@, now));
            },
            None => {
                let mut ts: Vec<u64> = Vec::new();
                ts.push(now);
                self.entries.push(VisitEntry { id, count: 1, timestamps: ts });
                assert(self@ =~= recorded(s, id@, now));
            },
        }
        copy_entries(&self.entries)
    }

    /// How many records have an all-time count above `c`.
    fn count_above_exec(&self, c: u64) -> (r: usize)
        ensures
            r == count_above(self@, c),
    {
        let mut n: usize = 0;
        let mut i: usize = 0;
        while i < self.entries.len()
            invariant
                i <= self.entries@.len(),
                n == count_above(self@.take(i as int), c),
                n <= i,
            decreases self.entries@.len() - i,
        {
            assert(self@.take(i + 1).drop_last() =~= self@.take(i as int));
            if self.entries[i].count > c {
                n += 1;
            }
            i += 1;
        }
        assert(self@.take(self@.len() as int) =~= self@);
        n
    }

    /// Purges the ledger at `now`: instants outside the window are dropped, then a
    /// record stays only if it keeps an instant or its all-time count reaches the
    /// `top_k`-th largest. Returns a copy of the ledger taken before the purge.
    pub fn purge_at(&mut self, now: u64, window: u64, top_k: usize) -> (r: Vec<VisitEntry>)
        requires
            old(self).wf(),
        ensures
            final(self).wf(),
            final(self)@ == purged(old(self)@, now, window, top_k),
            entries_view(r@) == old(self)@,
    {
        let snapshot = copy_entries(&self.entries);
        let ghost s = self@;
        let mut out: Vec<VisitEntry> = Vec::new();
        let mut i: usize = 0;
        while i < self.entries.len()
            invariant
                s == self@,
                distinct_ids(s),
                i <= s.len(),
                entries_view(out@) == kept(s, s.take(i as int), now, window, top_k),
                distinct_ids(entries_view(out@)),
                forall|j: int| 0 <= j < out@.len() ==> exists|m: int| 0 <= m < i && #[trigger] out@[j].id@ == s[m].0,
            decreases s.len() - i,
        {
            let e = &self.entries[i];
            assert(s.take(i + 1).drop_last() =~= s.take(i as int));
            assert(s.take(i + 1).last() == s[i as int]);
            let recent = recent_timestamps(&e.timestamps, now, window);
            let keep = if recent.len() > 0 {
                true
            } else {
                self.count_above_exec(e.count) < top_k
            };
            if keep {
                let ghost before = out@;
                out.push(VisitEntry { id: e.id.clone(), count: e.count, timestamps: recent });
                assert(entries_view(out@) =~= entries_view(before).push(pruned(s[i as int], now, window)));
                assert forall|j: int| 0 <= j < before.len() implies before[j].id@ != s[i as int].0 by {
                    let m = choose|m: int| 0 <= m < i && #[trigger] before[j].id@ == s[m].0;
                    assert(out@[j] == before[j]);
                }
                assert forall|j: int| 0 <= j < out@.len() implies exists|m: int| 0 <= m < i + 1 && #[trigger] out@[j].id@ == s[m].0 by {
                    if j == out@.len() - 1 {
                        assert(out@[j].id@ == s[i as int].0);
                    } else {
                        assert(out@[j] == before[j]);
                    }
                }
            }
            i += 1;
        }
        assert(s.take(s.len() as int) =~= s);
        self.entries = out;
        snapshot
    }
}

} // verus!
