use hitcount::database::Database;
use hitcount::handler::handle_request_at;
use hitcount::ledger::{Ledger, VisitEntry};
use hitcount::recent::RecentQueue;
use hitcount::report::{count_recent_hits, rank_by_count, summarize};

const MINUTE: u64 = 60000;

fn find<'a>(snapshot: &'a [VisitEntry], id: &str) -> Option<&'a VisitEntry> {
    snapshot.iter().find(|e| e.id == id)
}

#[test]
fn scenario_counts_and_last_visitors() {
    let mut db = Database::new(5, 10, 10);
    let now = 1_000_000;
    db.new_hit_at("1.1.1.1".to_string(), now);
    db.new_hit_at("1.1.1.1".to_string(), now + 1);
    db.new_hit_at("1.1.1.1".to_string(), now + 2);
    let (counts, last) = db.new_hit_at("2.2.2.2".to_string(), now + 3);
    let summary = summarize(&counts, last, now + 3, db.window_millis(), 10, 10);
    assert_eq!(
        summary.all_time,
        vec![("1.1.1.1".to_string(), 3), ("2.2.2.2".to_string(), 1)]
    );
    assert_eq!(summary.last_visitors, vec!["2.2.2.2".to_string(), "1.1.1.1".to_string()]);
}

#[test]
fn scenario_top_one_purge_with_tie() {
    let mut db = Database::new(5, 1, 10);
    let now = 100 * MINUTE;
    db.set_all_time_hits("a".to_string(), 5);
    db.insert_timestamp("a".to_string(), now - 50 * MINUTE);
    db.set_all_time_hits("b".to_string(), 3);
    db.insert_timestamp("b".to_string(), now - MINUTE);
    db.set_all_time_hits("c".to_string(), 3);
    db.insert_timestamp("c".to_string(), now - 20 * MINUTE);
    let (t, before) = db.purge_db_at(now);
    assert_eq!(t, now);
    assert_eq!(before.len(), 3);
    let after = db.snapshot();
    assert_eq!(after.len(), 2);
    let a = find(&after, "a").unwrap();
    assert_eq!(a.count, 5);
    assert!(a.timestamps.is_empty());
    let b = find(&after, "b").unwrap();
    assert_eq!(b.timestamps, vec![now - MINUTE]);
    assert!(find(&after, "c").is_none());
}

#[test]
fn count_equals_number_of_visits() {
    let mut ledger = Ledger::new();
    let ids = ["x", "y", "x", "z", "x", "y"];
    let mut snapshot = Vec::new();
    for (i, id) in ids.iter().enumerate() {
        snapshot = ledger.record_visit_at(id.to_string(), 10 + i as u64);
    }
    assert_eq!(snapshot.len(), 3);
    assert_eq!(find(&snapshot, "x").unwrap().count, 3);
    assert_eq!(find(&snapshot, "x").unwrap().timestamps, vec![10, 12, 14]);
    assert_eq!(find(&snapshot, "y").unwrap().count, 2);
    assert_eq!(find(&snapshot, "z").unwrap().count, 1);
    assert_eq!(snapshot[0].id, "x");
    assert_eq!(snapshot[2].id, "z");
}

#[test]
fn queue_dedups_and_bounds() {
    let mut q = RecentQueue::new(3);
    q.touch("a".to_string());
    q.touch("b".to_string());
    let r = q.touch("c".to_string());
    assert_eq!(r, vec!["c", "b", "a"]);
    let r = q.touch("a".to_string());
    assert_eq!(r, vec!["a", "c", "b"]);
    let r = q.touch("d".to_string());
    assert_eq!(r, vec!["d", "a", "c"]);
    let r = q.touch("c".to_string());
    assert_eq!(r, vec!["c", "d", "a"]);
    assert_eq!(q.contents().len(), 3);
}

#[test]
fn queue_of_capacity_zero_stays_empty() {
    let mut q = RecentQueue::new(0);
    assert!(q.touch("a".to_string()).is_empty());
}

#[test]
fn queue_touch_present_keeps_length() {
    let mut q = RecentQueue::new(5);
    q.touch("a".to_string());
    q.touch("b".to_string());
    let r = q.touch("a".to_string());
    assert_eq!(r, vec!["a", "b"]);
}

#[test]
fn purge_twice_changes_nothing() {
    let mut ledger = Ledger::new();
    let now = 50 * MINUTE;
    ledger.record_visit_at("a".to_string(), now - 30 * MINUTE);
    ledger.record_visit_at("a".to_string(), now - MINUTE);
    ledger.record_visit_at("b".to_string(), now - 40 * MINUTE);
    ledger.record_visit_at("c".to_string(), now + MINUTE);
    ledger.purge_at(now, 10 * MINUTE, 1);
    let first = ledger.snapshot();
    ledger.purge_at(now, 10 * MINUTE, 1);
    let second = ledger.snapshot();
    assert_eq!(first.len(), second.len());
    for (x, y) in first.iter().zip(second.iter()) {
        assert_eq!(x.id, y.id);
        assert_eq!(x.count, y.count);
        assert_eq!(x.timestamps, y.timestamps);
    }
    let a = find(&first, "a").unwrap();
    assert_eq!(a.timestamps, vec![now - MINUTE]);
}

#[test]
fn purge_window_bounds() {
    let mut ledger = Ledger::new();
    let now = 50 * MINUTE;
    ledger.record_visit_at("edge".to_string(), now - 10 * MINUTE);
    ledger.record_visit_at("old".to_string(), now - 10 * MINUTE - 1);
    ledger.record_visit_at("future".to_string(), now + 1);
    let before = ledger.purge_at(now, 10 * MINUTE, 0);
    assert_eq!(before.len(), 3);
    let after = ledger.snapshot();
    assert_eq!(after.len(), 1);
    assert_eq!(after[0].id, "edge");
}

#[test]
fn tied_counts_both_survive() {
    let mut ledger = Ledger::new();
    for _ in 0..4 {
        ledger.record_visit_at("top".to_string(), 1);
    }
    for _ in 0..2 {
        ledger.record_visit_at("tie1".to_string(), 1);
        ledger.record_visit_at("tie2".to_string(), 1);
    }
    ledger.record_visit_at("low".to_string(), 1);
    ledger.purge_at(100 * MINUTE, MINUTE, 2);
    let after = ledger.snapshot();
    assert_eq!(after.len(), 3);
    assert!(find(&after, "tie1").is_some());
    assert!(find(&after, "tie2").is_some());
    assert!(find(&after, "low").is_none());
}

#[test]
fn top_k_larger_than_ledger_keeps_all() {
    let mut ledger = Ledger::new();
    ledger.record_visit_at("a".to_string(), 1);
    ledger.record_visit_at("b".to_string(), 1);
    ledger.purge_at(100 * MINUTE, MINUTE, 10);
    assert_eq!(ledger.snapshot().len(), 2);
}

#[test]
fn purge_of_empty_ledger() {
    let mut ledger = Ledger::new();
    assert!(ledger.purge_at(5, 1, 3).is_empty());
    assert!(ledger.snapshot().is_empty());
}

#[test]
fn recent_hits_counted_in_window_and_future() {
    let now = 100 * MINUTE;
    let ts = vec![now - 11 * MINUTE, now - 10 * MINUTE, now - MINUTE, now + 5];
    assert_eq!(count_recent_hits(&ts, now, 10 * MINUTE), 3);
    assert_eq!(count_recent_hits(&Vec::new(), now, 10 * MINUTE), 0);
}

#[test]
fn ranking_by_count() {
    let items = vec![
        ("a".to_string(), 1),
        ("b".to_string(), 7),
        ("c".to_string(), 3),
        ("d".to_string(), 7),
    ];
    let r = rank_by_count(&items);
    let counts: Vec<u64> = r.iter().map(|p| p.1).collect();
    assert_eq!(counts, vec![7, 7, 3, 1]);
    assert_eq!(r[2].0, "c");
    assert_eq!(r[3].0, "a");
}

#[test]
fn handler_lines() {
    let mut db = Database::new(5, 10, 10);
    let now = 100 * MINUTE;
    handle_request_at("1.1.1.1".to_string(), &mut db, now - 20 * MINUTE);
    handle_request_at("1.1.1.1".to_string(), &mut db, now - 15 * MINUTE);
    let lines = handle_request_at("2.2.2.2".to_string(), &mut db, now);
    let expected: Vec<String> = [
        "Last 5",
        "------",
        "2.2.2.2",
        "1.1.1.1",
        "",
        "Top 10",
        "------",
        "1.1.1.1: 2",
        "2.2.2.2: 1",
        "",
        "Top 10 in last 10 min",
        "---------------------",
        "2.2.2.2: 1",
    ]
    .iter()
    .map(|s| s.to_string())
    .collect();
    assert_eq!(lines, expected);
}

#[test]
fn count_stays_at_largest_value() {
    let mut db = Database::new(5, 10, 10);
    db.set_all_time_hits("a".to_string(), u64::MAX);
    let (snapshot, _) = db.new_hit_at("a".to_string(), 3);
    assert_eq!(snapshot[0].count, u64::MAX);
    assert_eq!(snapshot[0].timestamps, vec![3]);
}

#[test]
fn top_zero_keeps_only_recent_visitors() {
    let mut db = Database::new(5, 0, 1);
    let now = 100 * MINUTE;
    db.new_hit_at("old".to_string(), now - 2 * MINUTE);
    db.new_hit_at("new".to_string(), now);
    db.purge_db_at(now);
    let after = db.snapshot();
    assert_eq!(after.len(), 1);
    assert_eq!(after[0].id, "new");
    assert_eq!(db.last_visitors(), vec!["new", "old"]);
}
