use hitcount::cowsay::{say_with_cow, speech_bubble, Cowsay};
use hitcount::database::Database;
use hitcount::ledger::VisitEntry;
use hitcount::sync::{flatten_rows, pending_since, SyncScheduler};

const MINUTE: u64 = 60000;

fn lines(v: &[&str]) -> Vec<String> {
    v.iter().map(|s| s.to_string()).collect()
}

#[test]
fn pending_keeps_only_instants_after_watermark() {
    let snapshot = vec![
        VisitEntry { id: "a".to_string(), count: 9, timestamps: vec![5, 10, 11, 20] },
        VisitEntry { id: "b".to_string(), count: 2, timestamps: vec![1, 10] },
        VisitEntry { id: "c".to_string(), count: 1, timestamps: vec![30] },
    ];
    let p = pending_since(&snapshot, 10);
    assert_eq!(p.len(), 2);
    assert_eq!(p[0].id, "a");
    assert_eq!(p[0].count, 2);
    assert_eq!(p[0].timestamps, vec![11, 20]);
    assert_eq!(p[1].id, "c");
    assert_eq!(p[1].count, 1);
    let rows = flatten_rows(&p);
    assert_eq!(
        rows,
        vec![("a".to_string(), 11), ("a".to_string(), 20), ("c".to_string(), 30)]
    );
}

#[test]
fn two_cycles_write_each_visit_once() {
    let start = 10 * MINUTE;
    let mut db = Database::new(5, 10, 10);
    let mut sched = SyncScheduler::new(start);
    db.new_hit_at("a".to_string(), start + 1);
    db.new_hit_at("b".to_string(), start + 2);
    let w1 = start + MINUTE;
    let rows1 = sched.begin_cycle(&mut db, w1);
    sched.finish_cycle(w1, true);
    assert_eq!(sched.watermark(), w1);
    db.new_hit_at("a".to_string(), w1 + 5);
    let w2 = w1 + MINUTE;
    let rows2 = sched.begin_cycle(&mut db, w2);
    sched.finish_cycle(w2, true);
    assert_eq!(rows1, vec![("a".to_string(), start + 1), ("b".to_string(), start + 2)]);
    assert_eq!(rows2, vec![("a".to_string(), w1 + 5)]);
    let rows3 = sched.begin_cycle(&mut db, w2 + MINUTE);
    assert!(rows3.is_empty());
}

#[test]
fn failed_write_keeps_watermark() {
    let mut db = Database::new(5, 10, 10);
    let mut sched = SyncScheduler::new(0);
    db.new_hit_at("a".to_string(), 100);
    let rows1 = sched.begin_cycle(&mut db, 200);
    sched.finish_cycle(200, false);
    assert_eq!(sched.watermark(), 0);
    db.new_hit_at("b".to_string(), 300);
    let rows2 = sched.begin_cycle(&mut db, 400);
    assert_eq!(rows1, vec![("a".to_string(), 100)]);
    assert_eq!(rows2, vec![("a".to_string(), 100), ("b".to_string(), 300)]);
}

#[test]
fn bubble_pads_to_longest_line() {
    let r = speech_bubble(lines(&["ab", "c"]));
    assert_eq!(r, " ____\n/ ab \\\n\\ c  /\n ----");
}

#[test]
fn bubble_with_middle_lines() {
    let r = speech_bubble(lines(&["x", "long", ""]));
    assert_eq!(r, " ______\n/ x    \\\n| long |\n\\      /\n ------");
}

#[test]
fn cow_goes_below_bubble() {
    let r = say_with_cow(lines(&["a", "b"]), Some("(oo)".to_string()));
    assert_eq!(r, " ___\n/ a \\\n\\ b /\n ---\n(oo)");
    let r = say_with_cow(lines(&["a", "b"]), None);
    assert_eq!(r, " ___\n/ a \\\n\\ b /\n ---");
}

#[test]
fn random_cow_is_one_of_the_cows() {
    let mut cowsay = Cowsay::new();
    assert_eq!(cowsay.say_random_cow(lines(&["a", "b"])), " ___\n/ a \\\n\\ b /\n ---");
    cowsay.add_cow("(oo)".to_string());
    assert_eq!(cowsay.say_random_cow(lines(&["a", "b"])), " ___\n/ a \\\n\\ b /\n ---\n(oo)");
    cowsay.add_cow("(^^)".to_string());
    let r = cowsay.say_random_cow(lines(&["a", "b"]));
    assert!(r.ends_with("\n(oo)") || r.ends_with("\n(^^)"));
}

#[test]
fn rehydration_sets_counts_and_instants() {
    let mut db = Database::new(2, 10, 10);
    assert_eq!(db.get_all_time_hits(&"a".to_string()), 0);
    db.insert_timestamp("a".to_string(), 7);
    assert_eq!(db.get_all_time_hits(&"a".to_string()), 0);
    db.set_all_time_hits("a".to_string(), 42);
    assert_eq!(db.get_all_time_hits(&"a".to_string()), 42);
    let snap = db.snapshot();
    assert_eq!(snap.len(), 1);
    assert_eq!(snap[0].timestamps, vec![7]);
    db.update_last_five("x".to_string());
    db.update_last_five("y".to_string());
    let r = db.update_last_five("z".to_string());
    assert_eq!(r, vec!["z", "y"]);
    assert_eq!(db.last_visitors(), vec!["z", "y"]);
}
