use vstd::prelude::*;
use crate::cowsay::{cow_says, Cowsay};
use crate::database::{now_millis, Database};
use crate::ledger::{entries_view, recorded};
use crate::recent::{ids_view, touched};
use crate::report::{
    all_time_pairs, first_n, is_ranking, recent_pairs, report_lines, report_view, summarize,
};

verus! {

/// How many visitors the ranking by recent visits lists.
pub const TOP_N_LAST_MINUTES: usize = 10;

/// The lines shown for the state of `db` at `now`, given a ranking of its all-time
/// counts and one of its recent counts.
pub open spec fn visit_report(db: Database, now: u64, all_time: Seq<(Seq<char>, u64)>, recent: Seq<(Seq<char>, u64)>) -> Seq<Seq<char>> {
    report_view(
        db.recent_view(),
        first_n(all_time, db.top_n_spec() as nat),
        first_n(recent, TOP_N_LAST_MINUTES as nat),
        db.last_n_spec() as usize,
        db.top_n_spec(),
        TOP_N_LAST_MINUTES,
        db.minutes_spec(),
    )
}

/// The rankings are those of `db`'s ledger at `now`.
pub open spec fn ranks_of(db: Database, now: u64, all_time: Seq<(Seq<char>, u64)>, recent: Seq<(Seq<char>, u64)>) -> bool {
    is_ranking(all_time, all_time_pairs(db.ledger_view()))
        && is_ranking(recent, recent_pairs(db.ledger_view(), now, db.window_spec()))
}

/// Records a visit by `ip` at `now` and returns the lines shown to the visitor.
pub fn handle_request_at(ip: String, db: &mut Database, now: u64) -> (r: Vec<String>)
    requires
        old(db).wf(),
    ensures
        final(db).wf(),
        final(db).ledger_view() == recorded(old(db).ledger_view(), ip@, now),
        final(db).recent_view() == touched(old(db).recent_view(), ip@, old(db).last_n_spec()),
        final(db).last_n_spec() == old(db).last_n_spec(),
        final(db).top_n_spec() == old(db).top_n_spec(),
        final(db).window_spec() == old(db).window_spec(),
        final(db).minutes_spec() == old(db).minutes_spec(),
        exists|a: Seq<(Seq<char>, u64)>, b: Seq<(Seq<char>, u64)>|
            ranks_of(*final(db), now, a, b) && ids_view(r@) == visit_report(*final(db), now, a, b),
{
    let (counts, last) = db.new_hit_at(ip, now);
    let summary = summarize(&counts, last, now, db.window_millis(), db.top_n(), TOP_N_LAST_MINUTES);
    let lines = report_lines(&summary, db.last_n(), db.top_n(), TOP_N_LAST_MINUTES, db.last_n_minutes());
    proof {
        let a = choose|a: Seq<(Seq<char>, u64)>| is_ranking(a, all_time_pairs(entries_view(counts@)))
            && crate::report::pairs_view(summary.all_time@) == first_n(a, db.top_n_spec() as nat);
        let b = choose|b: Seq<(Seq<char>, u64)>| is_ranking(b, recent_pairs(entries_view(counts@), now, db.window_spec()))
            && crate::report::pairs_view(summary.recent@) == first_n(b, TOP_N_LAST_MINUTES as nat);
        assert(ids_view(lines@) =~= lines@.map_values(|s: String| s@));
        assert(ranks_of(*db, now, a, b) && ids_view(lines@) == visit_report(*db, now, a, b));
    }
    lines
}

/// Records a visit by `ip` at the current time and returns the lines shown to the
/// visitor inside a speech bubble, with one of `cowsay`'s cows below when it has any.
pub fn handle_request(ip: String, db: &mut Database, cowsay: &Cowsay) -> (r: String)
    requires
        old(db).wf(),
    ensures
        final(db).wf(),
        exists|now: u64| final(db).ledger_view() == recorded(old(db).ledger_view(), ip@, now),
        final(db).recent_view() == touched(old(db).recent_view(), ip@, old(db).last_n_spec()),
        final(db).last_n_spec() == old(db).last_n_spec(),
        final(db).top_n_spec() == old(db).top_n_spec(),
        final(db).window_spec() == old(db).window_spec(),
        final(db).minutes_spec() == old(db).minutes_spec(),
        exists|now: u64, a: Seq<(Seq<char>, u64)>, b: Seq<(Seq<char>, u64)>|
            ranks_of(*final(db), now, a, b) && {
                let lines = visit_report(*final(db), now, a, b);
                ||| cowsay@.len() == 0 && r@ == cow_says(lines, None)
                ||| exists|i: int| 0 <= i < cowsay@.len() && r@ == cow_says(lines, Some(cowsay@[i]))
            },
{
    let now = now_millis();
    let lines = handle_request_at(ip, db, now);
    proof {
        let (a, b) = choose|a: Seq<(Seq<char>, u64)>, b: Seq<(Seq<char>, u64)>|
            ranks_of(*db, now, a, b) && ids_view(lines@) == visit_report(*db, now, a, b);
        assert(ids_view(lines@).len() == lines@.len());
        assert(visit_report(*db, now, a, b).len() >= 2);
    }
    let r = cowsay.say_random_cow(lines);
    proof {
        assert(crate::cowsay::strings_view(lines@) =~= ids_view(lines@));
    }
    r
}

} // verus!
