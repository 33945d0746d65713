use vstd::prelude::*;
use crate::ledger::{count_of, entries_view, purged, recorded, with_count, with_timestamp, EntryView, Ledger, VisitEntry};
use crate::recent::{ids_view, touched, RecentQueue};

verus! {

/// Milliseconds in one minute.
pub const MILLIS_PER_MINUTE: u64 = 60000;

/// Relies on std::time::SystemTime::now for the wall-clock time, read as
/// milliseconds since the Unix epoch (0 for a clock set before it).
#[verifier::external_body]
pub(crate) fn now_millis() -> (r: u64) {
    std::time::SystemTime::now().duration_since(std::time::UNIX_EPOCH).map_or(0, |d| d.as_millis() as u64)
}

/// The visitor ledger and the queue of last distinct visitors, with the settings of
/// both.
pub struct Database {
    ledger: Ledger,
    last_five: RecentQueue,
    last_n: usize,
    top_n: usize,
    minutes: u64,
    window: u64,
}

impl Database {
    /// The records of every visitor held in memory.
    pub closed spec fn ledger_view(&self) -> Seq<EntryView> {
        self.ledger@
    }

    /// The last distinct visitors, most recent first.
    pub closed spec fn recent_view(&self) -> Seq<Seq<char>> {
        self.last_five@
    }

    /// How many distinct visitors the recent list keeps.
    pub closed spec fn last_n_spec(&self) -> nat {
        self.last_n as nat
    }

    /// How many of the highest all-time counts a purge keeps.
    pub closed spec fn top_n_spec(&self) -> usize {
        self.top_n
    }

    /// The length of the recent window, in milliseconds.
    pub closed spec fn window_spec(&self) -> u64 {
        self.window
    }

    /// The length of the recent window, in minutes.
    pub closed spec fn minutes_spec(&self) -> u64 {
        self.minutes
    }

    /// The ledger and the recent list are well formed, the list keeps `last_n`
    /// items, and the window in milliseconds matches the one in minutes.
    pub closed spec fn wf(&self) -> bool {
        &&& self.ledger.wf()
        &&& self.last_five.wf()
        &&& self.last_five.cap() == self.last_n
        &&& self.window == self.minutes * MILLIS_PER_MINUTE
    }

    /// An empty database that lists the last `last_n` distinct visitors, keeps the
    /// `top_n` highest all-time counts on a purge, and treats the last
    /// `last_n_minutes` minutes as recent.
    pub fn new(last_n: usize, top_n: usize, last_n_minutes: u64) -> (r: Database)
        requires
            last_n_minutes <= u64::MAX / MILLIS_PER_MINUTE,
        ensures
            r.wf(),
            r.ledger_view() == Seq::<EntryView>::empty(),
            r.recent_view() == Seq::<Seq<char>>::empty(),
            r.last_n_spec() == last_n,
            r.top_n_spec() == top_n,
            r.window_spec() == last_n_minutes * MILLIS_PER_MINUTE,
            r.minutes_spec() == last_n_minutes,
    {
        Database {
            ledger: Ledger::new(),
            last_five: RecentQueue::new(last_n),
            last_n,
            top_n,
            minutes: last_n_minutes,
            window: last_n_minutes * MILLIS_PER_MINUTE,
        }
    }

    /// The length of the recent window, in milliseconds.
    pub fn window_millis(&self) -> (r: u64)
        ensures
            r == self.window_spec(),
    {
        self.window
    }

    /// The length of the recent window, in minutes.
    pub fn last_n_minutes(&self) -> (r: u64)
        ensures
            r == self.minutes_spec(),
    {
        self.minutes
    }

    /// How many distinct visitors the recent list keeps.
    pub fn last_n(&self) -> (r: usize)
        ensures
            r == self.last_n_spec(),
    {
        self.last_n
    }

    /// How many of the highest all-time counts a purge keeps.
    pub fn top_n(&self) -> (r: usize)
        ensures
            r == self.top_n_spec(),
    {
        self.top_n
    }

    /// A copy of every record in memory.
    pub fn snapshot(&self) -> (r: Vec<VisitEntry>)
        ensures
            entries_view(r@) == self.ledger_view(),
    {
        self.ledger.snapshot()
    }

    /// The last distinct visitors, most recent first.
    pub fn last_visitors(&self) -> (r: Vec<String>)
        ensures
            ids_view(r@) == self.recent_view(),
    {
        self.last_five.contents()
    }

    /// The all-time count of `ip`, zero when it has no record.
    pub fn get_all_time_hits(&self, ip: &String) -> (r: u64)
        requires
            self.wf(),
        ensures
            r == count_of(self.ledger_view(), ip@),
    {
        self.ledger.count_for(ip)
    }

    /// Sets the all-time count of `ip`, as read back from the durable log.
    pub fn set_all_time_hits(&mut self, ip: String, count: u64)
        requires
            old(self).wf(),
        ensures
            final(self).wf(),
            final(self).ledger_view() == with_count(old(self).ledger_view(), ip@, count),
            final(self).recent_view() == old(self).recent_view(),
            final(self).last_n_spec() == old(self).last_n_spec(),
            final(self).top_n_spec() == old(self).top_n_spec(),
            final(self).window_spec() == old(self).window_spec(),
            final(self).minutes_spec() == old(self).minutes_spec(),
    {
        self.ledger.set_count(ip, count);
    }

    /// Adds the instant `timestamp` of a visit by `ip`, as read back from the durable
    /// log; the all-time count is left as it is.
    pub fn insert_timestamp(&mut self, ip: String, timestamp: u64)
        requires
            old(self).wf(),
        ensures
            final(self).wf(),
            final(self).ledger_view() == with_timestamp(old(self).ledger_view(), ip@, timestamp),
            final(self).recent_view() == old(self).recent_view(),
            final(self).last_n_spec() == old(self).last_n_spec(),
            final(self).top_n_spec() == old(self).top_n_spec(),
            final(self).window_spec() == old(self).window_spec(),
            final(self).minutes_spec() == old(self).minutes_spec(),
    {
        self.ledger.add_timestamp(ip, timestamp);
    }

    /// Moves `ip` to the front of the recent list, as when replaying the last
    /// visitors from the durable log; returns the list.
    pub fn update_last_five(&mut self, ip: String) -> (r: Vec<String>)
        requires
            old(self).wf(),
        ensures
            final(self).wf(),
            final(self).ledger_view() == old(self).ledger_view(),
            final(self).recent_view() == touched(old(self).recent_view(), ip@, old(self).last_n_spec()),
            final(self).last_n_spec() == old(self).last_n_spec(),
            final(self).top_n_spec() == old(self).top_n_spec(),
            final(self).window_spec() == old(self).window_spec(),
            final(self).minutes_spec() == old(self).minutes_spec(),
            ids_view(r@) == final(self).recent_view(),
    {
        self.last_five.touch(ip)
    }

    /// Records a visit by `ip` at instant `now` (milliseconds) in the ledger and in the
    /// recent list; returns a copy of the ledger and the recent list afterwards.
    pub fn new_hit_at(&mut self, ip: String, now: u64) -> (r: (Vec<VisitEntry>, Vec<String>))
        requires
            old(self).wf(),
        ensures
            final(self).wf(),
            final(self).ledger_view() == recorded(old(self).ledger_view(), ip@, now),
            final(self).recent_view() == touched(old(self).recent_view(), ip@, old(self).last_n_spec()),
            final(self).last_n_spec() == old(self).last_n_spec(),
            final(self).top_n_spec() == old(self).top_n_spec(),
            final(self).window_spec() == old(self).window_spec(),
            final(self).minutes_spec() == old(self).minutes_spec(),
            entries_view(r.0@) == final(self).ledger_view(),
            ids_view(r.1@) == final(self).recent_view(),
    {
        let counts = self.ledger.record_visit_at(ip.clone(), now);
        let last = self.last_five.touch(ip);
        (counts, last)
    }

    /// Records a visit by `ip` at the current time; as `new_hit_at`, for the instant
    /// that the clock gave.
    pub fn new_hit(&mut self, ip: String) -> (r: (Vec<VisitEntry>, Vec<String>))
        requires
            old(self).wf(),
        ensures
            final(self).wf(),
            exists|now: u64| final(self).ledger_view() == recorded(old(self).ledger_view(), ip@, now),
            final(self).recent_view() == touched(old(self).recent_view(), ip@, old(self).last_n_spec()),
            final(self).last_n_spec() == old(self).last_n_spec(),
            final(self).top_n_spec() == old(self).top_n_spec(),
            final(self).window_spec() == old(self).window_spec(),
            final(self).minutes_spec() == old(self).minutes_spec(),
            entries_view(r.0@) == final(self).ledger_view(),
            ids_view(r.1@) == final(self).recent_view(),
    {
        let now = now_millis();
        self.new_hit_at(ip, now)
    }

    /// Purges the ledger at instant `now` under the database's window and top-N
    /// setting; returns `now` and a copy of the ledger taken before the purge.
    pub fn purge_db_at(&mut self, now: u64) -> (r: (u64, Vec<VisitEntry>))
        requires
            old(self).wf(),
        ensures
            final(self).wf(),
            final(self).ledger_view() == purged(old(self).ledger_view(), now, old(self).window_spec(), old(self).top_n_spec()),
            final(self).recent_view() == old(self).recent_view(),
            final(self).last_n_spec() == old(self).last_n_spec(),
            final(self).top_n_spec() == old(self).top_n_spec(),
            final(self).window_spec() == old(self).window_spec(),
            final(self).minutes_spec() == old(self).minutes_spec(),
            r.0 == now,
            entries_view(r.1@) == old(self).ledger_view(),
    {
        let snapshot = self.ledger.purge_at(now, self.window, self.top_n);
        (now, snapshot)
    }

    /// Purges the ledger at the current time; as `purge_db_at`, for the instant that
    /// the clock gave, which is returned.
    pub fn purge_db(&mut self) -> (r: (u64, Vec<VisitEntry>))
        requires
            old(self).wf(),
        ensures
            final(self).wf(),
            final(self).ledger_view() == purged(old(self).ledger_view(), r.0, old(self).window_spec(), old(self).top_n_spec()),
            final(self).recent_view() == old(self).recent_view(),
            final(self).last_n_spec() == old(self).last_n_spec(),
            final(self).top_n_spec() == old(self).top_n_spec(),
            final(self).window_spec() == old(self).window_spec(),
            final(self).minutes_spec() == old(self).minutes_spec(),
            entries_view(r.1@) == old(self).ledger_view(),
    {
        let now = now_millis();
        self.purge_db_at(now)
    }
}

} // verus!
