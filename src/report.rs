use vstd::prelude::*;
use vstd::string::*;
use crate::ledger::{entries_view, EntryView, VisitEntry};

verus! {

broadcast use vstd::seq_lib::group_to_multiset_ensures;

/// A visit at `t` counts as recent at `now`: it lies in the window, or after `now`.
pub open spec fn is_recent_hit(t: u64, now: u64, window: u64) -> bool {
    t > now || now - t <= window
}

/// How many instants of `ts` count as recent.
pub open spec fn recent_count(ts: Seq<u64>, now: u64, window: u64) -> nat
    decreases ts.len(),
{
    if ts.len() == 0 {
        0
    } else {
        recent_count(ts.drop_last(), now, window) + if is_recent_hit(ts.last(), now, window) {
            1nat
        } else {
            0nat
        }
    }
}

/// `(identifier, count)` pairs as the contracts see them.
pub open spec fn pairs_view(v: Seq<(String, u64)>) -> Seq<(Seq<char>, u64)> {
    v.map_values(|p: (String, u64)| (p.0@, p.1))
}

/// Counts never rise along `s`.
pub open spec fn sorted_desc(s: Seq<(Seq<char>, u64)>) -> bool {
    forall|i: int, j: int| 0 <= i < j < s.len() ==> s[i].1 >= s[j].1
}

/// `r` holds the pairs of `s`, by count from high to low.
pub open spec fn is_ranking(r: Seq<(Seq<char>, u64)>, s: Seq<(Seq<char>, u64)>) -> bool {
    sorted_desc(r) && r.to_multiset() == s.to_multiset()
}

/// The first `n` items of `s`, or all of them when there are fewer.
pub open spec fn first_n<A>(s: Seq<A>, n: nat) -> Seq<A> {
    if s.len() <= n {
        s
    } else {
        s.take(n as int)
    }
}

/// Each record's identifier with its all-time count.
pub open spec fn all_time_pairs(s: Seq<EntryView>) -> Seq<(Seq<char>, u64)> {
    s.map_values(|e: EntryView| (e.0, e.1))
}

/// Each record that has recent visits, with how many.
pub open spec fn recent_pairs(s: Seq<EntryView>, now: u64, window: u64) -> Seq<(Seq<char>, u64)>
    decreases s.len(),
{
    if s.len() == 0 {
        Seq::empty()
    } else {
        let r = recent_pairs(s.drop_last(), now, window);
        let c = recent_count(s.last().2, now, window);
        if c > 0 {
            r.push((s.last().0, c as u64))
        } else {
            r
        }
    }
}

/// How many of `timestamps` count as recent at `curr_time` for a window of `window`
/// milliseconds; instants after `curr_time` count too.
pub fn count_recent_hits(timestamps: &Vec<u64>, curr_time: u64, window: u64) -> (r: u64)
    ensures
        r == recent_count(timestamps@, curr_time, window),
{
    let mut n: u64 = 0;
    let mut i: usize = 0;
    while i < timestamps.len()
        invariant
            i <= timestamps@.len(),
            n == recent_count(timestamps@.take(i as int), curr_time, window),
            n <= i,
        decreases timestamps@.len() - i,
    {
        assert(timestamps@.take(i + 1).drop_last() =~= timestamps@.take(i as int));
        let t = timestamps[i];
        if t > curr_time || curr_time - t <= window {
            n += 1;
        }
        i += 1;
    }
    assert(timestamps@.take(timestamps@.len() as int) =~= timestamps@);
    n
}

proof fn lemma_insert_multiset(s: Seq<(Seq<char>, u64)>, j: int, x: (Seq<char>, u64))
    requires
        0 <= j <= s.len(),
    ensures
        s.insert(j, x).to_multiset() == s.to_multiset().insert(x),
{
    let t = s.insert(j, x);
    assert(t.remove(j) =~= s);
    assert(t[j] == x);
    assert(t.contains(x));
    assert(t.to_multiset() =~= s.to_multiset().insert(x));
}

/// The pairs of `items`, by count from high to low; equal counts keep their order.
pub fn rank_by_count(items: &Vec<(String, u64)>) -> (r: Vec<(String, u64)>)
    ensures
        is_ranking(pairs_view(r@), pairs_view(items@)),
{
    let ghost s = pairs_view(items@);
    let mut out: Vec<(String, u64)> = Vec::new();
    let mut i: usize = 0;
    while i < items.len()
        invariant
            s == pairs_view(items@),
            i <= s.len(),
            sorted_desc(pairs_view(out@)),
            pairs_view(out@).to_multiset() == s.take(i as int).to_multiset(),
        decreases s.len() - i,
    {
        let c = items[i].1;
        let mut j: usize = 0;
        while j < out.len() && out[j].1 >= c
            invariant
                j <= out@.len(),
                forall|m: int| 0 <= m < j ==> #[trigger] out@[m].1 >= c,
            decreases out@.len() - j,
        {
            j += 1;
        }
        let ghost before = pairs_view(out@);
        let x = (items[i].0.clone(), c);
        out.insert(j, x);
        assert(pairs_view(out@) =~= before.insert(j as int, s[i as int]));
        proof {
            lemma_insert_multiset(before, j as int, s[i as int]);
            assert(s.take(i + 1) =~= s.take(i as int).push(s[i as int]));
            let now = pairs_view(out@);
            assert forall|a: int, b: int| 0 <= a < b < now.len() implies now[a].1 >= now[b].1 by {
                if b < j {
                    assert(now[a] == before[a] && now[b] == before[b]);
                } else if b == j {
                    assert(now[a] == before[a]);
                } else if a == j {
                    assert(now[b] == before[b - 1]);
                    assert(before[j as int].1 < c);
                } else if a < j {
                    assert(now[a] == before[a] && now[b] == before[b - 1]);
                } else {
                    assert(now[a] == before[a - 1] && now[b] == before[b - 1]);
                }
            }
        }
        i += 1;
    }
    assert(s.take(s.len() as int) =~= s);
    out
}

/// The first `n` pairs of `v`.
pub fn take_pairs(v: &Vec<(String, u64)>, n: usize) -> (r: Vec<(String, u64)>)
    ensures
        pairs_view(r@) == first_n(pairs_view(v@), n as nat),
{
    let mut out: Vec<(String, u64)> = Vec::new();
    let mut i: usize = 0;
    while i < v.len() && i < n
        invariant
            i <= v@.len(),
            i <= n,
            pairs_view(out@) == pairs_view(v@).take(i as int),
        decreases v@.len() - i,
    {
        let ghost before = out@;
        out.push((v[i].0.clone(), v[i].1));
        assert(pairs_view(out@) =~= pairs_view(before).push(pairs_view(v@)[i as int]));
        assert(pairs_view(v@).take(i + 1) =~= pairs_view(v@).take(i as int).push(pairs_view(v@)[i as int]));
        i += 1;
    }
    assert(pairs_view(v@).take(pairs_view(v@).len() as int) =~= pairs_view(v@));
    out
}

/// What a visitor is shown: the highest all-time counts, the highest recent counts
/// (visitors without recent visits left out), and the last distinct visitors.
pub struct Summary {
    pub all_time: Vec<(String, u64)>,
    pub recent: Vec<(String, u64)>,
    pub last_visitors: Vec<String>,
}

/// Builds the summary of the ledger copy `counts` at `now`: at most `top_n` pairs in
/// each ranking, and `last_visitors` as given.
pub fn summarize(
    counts: &Vec<VisitEntry>,
    last_visitors: Vec<String>,
    now: u64,
    window: u64,
    top_n: usize,
    top_recent: usize,
) -> (r: Summary)
    ensures
        exists|ranked: Seq<(Seq<char>, u64)>|
            is_ranking(ranked, all_time_pairs(entries_view(counts@)))
                && pairs_view(r.all_time@) == first_n(ranked, top_n as nat),
        exists|ranked: Seq<(Seq<char>, u64)>|
            is_ranking(ranked, recent_pairs(entries_view(counts@), now, window))
                && pairs_view(r.recent@) == first_n(ranked, top_recent as nat),
        r.last_visitors == last_visitors,
{
    let ghost s = entries_view(counts@);
    let mut totals: Vec<(String, u64)> = Vec::new();
    let mut recents: Vec<(String, u64)> = Vec::new();
    let mut i: usize = 0;
    while i < counts.len()
        invariant
            s == entries_view(counts@),
            i <= s.len(),
            pairs_view(totals@) == all_time_pairs(s.take(i as int)),
            pairs_view(recents@) == recent_pairs(s.take(i as int), now, window),
        decreases s.len() - i,
    {
        let e = &counts[i];
        assert(s.take(i + 1).drop_last() =~= s.take(i as int));
        assert(s.take(i + 1).last() == s[i as int]);
        let ghost before = totals@;
        totals.push((e.id.clone(), e.count));
        assert(pairs_view(totals@) =~= pairs_view(before).push((s[i as int].0, s[i as int].1)));
        assert(all_time_pairs(s.take(i + 1)) =~= all_time_pairs(s.take(i as int)).push((s[i as int].0, s[i as int].1)));
        let c = count_recent_hits(&e.timestamps, now, window);
        if c > 0 {
            recents.push((e.id.clone(), c));
            assert(pairs_view(recents@) =~= recent_pairs(s.take(i as int), now, window).push((s[i as int].0, c)));
        }
        i += 1;
    }
    assert(s.take(s.len() as int) =~= s);
    let ranked_totals = rank_by_count(&totals);
    let ranked_recents = rank_by_count(&recents);
    Summary {
        all_time: take_pairs(&ranked_totals, top_n),
        recent: take_pairs(&ranked_recents, top_recent),
        last_visitors,
    }
}


/// The character of the decimal digit `d`.
pub open spec fn digit_char(d: nat) -> char {
    if d == 0 { '0' }
    else if d == 1 { '1' }
    else if d == 2 { '2' }
    else if d == 3 { '3' }
    else if d == 4 { '4' }
    else if d == 5 { '5' }
    else if d == 6 { '6' }
    else if d == 7 { '7' }
    else if d == 8 { '8' }
    else { '9' }
}

/// The decimal digits of `n`, without leading zeros.
pub open spec fn decimal_of(n: nat) -> Seq<char>
    decreases n,
{
    if n < 10 {
        seq![digit_char(n)]
    } else {
        decimal_of(n / 10).push(digit_char(n % 10))
    }
}

/// Relies on `ToString` through u64's `Display`: the decimal digits of `n`, with no
/// sign and no leading zeros.
#[verifier::external_body]
fn decimal_string(n: u64) -> (r: String)
    ensures
        r@ == decimal_of(n as nat),
{
    n.to_string()
}

/// The line `identifier: count`.
pub open spec fn pair_line(p: (Seq<char>, u64)) -> Seq<char> {
    p.0 + ": "@ + decimal_of(p.1 as nat)
}

/// One line per pair.
pub open spec fn pair_lines(s: Seq<(Seq<char>, u64)>) -> Seq<Seq<char>> {
    s.map_values(|p: (Seq<char>, u64)| pair_line(p))
}

/// The lines shown to a visitor: the last distinct visitors, the highest all-time
/// counts and the highest recent counts, each under a heading.
pub open spec fn report_view(
    last: Seq<Seq<char>>,
    all_time: Seq<(Seq<char>, u64)>,
    recent: Seq<(Seq<char>, u64)>,
    last_n: usize,
    top_n: usize,
    top_recent: usize,
    minutes: u64,
) -> Seq<Seq<char>> {
    seq!["Last "@ + decimal_of(last_n as nat), "------"@] + last
        + seq![""@, "Top "@ + decimal_of(top_n as nat), "------"@] + pair_lines(all_time)
        + seq![""@, "Top "@ + decimal_of(top_recent as nat) + " in last "@ + decimal_of(minutes as nat) + " min"@,
            "---------------------"@] + pair_lines(recent)
}

/// The line `identifier: count`.
fn format_pair(p: &(String, u64)) -> (r: String)
    ensures
        r@ == pair_line((p.0@, p.1)),
{
    let mut l = p.0.clone();
    proof {
        reveal_strlit(": ");
    }
    l.append(": ");
    let d = decimal_string(p.1);
    l.append(d.as_str());
    l
}

/// Appends one line per pair of `v` to `lines`.
fn push_pair_lines(lines: &mut Vec<String>, v: &Vec<(String, u64)>)
    ensures
        final(lines)@.map_values(|s: String| s@) == old(lines)@.map_values(|s: String| s@) + pair_lines(pairs_view(v@)),
{
    let ghost start = old(lines)@.map_values(|s: String| s@);
    let mut i: usize = 0;
    while i < v.len()
        invariant
            i <= v@.len(),
            lines@.map_values(|s: String| s@) == start + pair_lines(pairs_view(v@).take(i as int)),
        decreases v@.len() - i,
    {
        let ghost before = lines@.map_values(|s: String| s@);
        let l = format_pair(&v[i]);
        lines.push(l);
        assert(lines@.map_values(|s: String| s@) =~= before.push(pair_line(pairs_view(v@)[i as int])));
        assert(pair_lines(pairs_view(v@).take(i + 1)) =~= pair_lines(pairs_view(v@).take(i as int)).push(pair_line(pairs_view(v@)[i as int])));
        assert(start + pair_lines(pairs_view(v@).take(i as int)).push(pair_line(pairs_view(v@)[i as int])) =~= (start + pair_lines(pairs_view(v@).take(i as int))).push(pair_line(pairs_view(v@)[i as int])));
        i += 1;
    }
    assert(pairs_view(v@).take(v@.len() as int) =~= pairs_view(v@));
}

/// Appends the string literal's text as a new line.
fn push_line(lines: &mut Vec<String>, text: &str)
    ensures
        final(lines)@.map_values(|s: String| s@) == old(lines)@.map_values(|s: String| s@).push(text@),
{
    let l = String::from_str(text);
    lines.push(l);
    assert(lines@.map_values(|s: String| s@) =~= old(lines)@.map_values(|s: String| s@).push(text@));
}

/// The lines shown to a visitor for `summary`.
pub fn report_lines(summary: &Summary, last_n: usize, top_n: usize, top_recent: usize, minutes: u64) -> (r: Vec<String>)
    ensures
        r@.map_values(|s: String| s@) == report_view(
            summary.last_visitors@.map_values(|s: String| s@),
            pairs_view(summary.all_time@),
            pairs_view(summary.recent@),
            last_n,
            top_n,
            top_recent,
            minutes,
        ),
{
    proof {
        reveal_strlit("Last ");
        reveal_strlit("------");
        reveal_strlit("");
        reveal_strlit("Top ");
        reveal_strlit(" in last ");
        reveal_strlit(" min");
        reveal_strlit("---------------------");
    }
    let ghost last = summary.last_visitors@.map_values(|s: String| s@);
    let ghost all = pair_lines(pairs_view(summary.all_time@));
    let ghost rec_lines = pair_lines(pairs_view(summary.recent@));
    let mut lines: Vec<String> = Vec::new();
    let mut head = String::from_str("Last ");
    head.append(decimal_string(last_n as u64).as_str());
    let ghost a = head@;
    lines.push(head);
    assert(lines@.map_values(|s: String| s@) =~= seq![a]);
    push_line(&mut lines, "------");
    let mut i: usize = 0;
    let ghost base = lines@.map_values(|s: String| s@);
    while i < summary.last_visitors.len()
        invariant
            i <= summary.last_visitors@.len(),
            lines@.map_values(|s: String| s@) == base + summary.last_visitors@.take(i as int).map_values(|s: String| s@),
        decreases summary.last_visitors@.len() - i,
    {
        let ghost before = lines@.map_values(|s: String| s@);
        lines.push(summary.last_visitors[i].clone());
        i += 1;
        assert(lines@.map_values(|s: String| s@) =~= before.push(summary.last_visitors@[i - 1]@));
        assert(base + summary.last_visitors@.take(i as int).map_values(|s: String| s@) =~=
            (base + summary.last_visitors@.take(i - 1).map_values(|s: String| s@)).push(summary.last_visitors@[i - 1]@));
    }
    assert(summary.last_visitors@.take(summary.last_visitors@.len() as int) =~= summary.last_visitors@);
    let ghost part1 = seq![a, "------"@] + last;
    assert(lines@.map_values(|s: String| s@) =~= part1);
    push_line(&mut lines, "");
    let mut top = String::from_str("Top ");
    top.append(decimal_string(top_n as u64).as_str());
    let ghost b = top@;
    let ghost v0 = lines@.map_values(|s: String| s@);
    lines.push(top);
    assert(lines@.map_values(|s: String| s@) =~= v0.push(b));
    push_line(&mut lines, "------");
    let ghost part2 = part1 + seq![""@, b, "------"@];
    assert(lines@.map_values(|s: String| s@) =~= part2);
    push_pair_lines(&mut lines, &summary.all_time);
    push_line(&mut lines, "");
    let mut rec = String::from_str("Top ");
    rec.append(decimal_string(top_recent as u64).as_str());
    rec.append(" in last ");
    rec.append(decimal_string(minutes).as_str());
    rec.append(" min");
    let ghost c = rec@;
    let ghost v1 = lines@.map_values(|s: String| s@);
    lines.push(rec);
    assert(lines@.map_values(|s: String| s@) =~= v1.push(c));
    push_line(&mut lines, "---------------------");
    let ghost part3 = part2 + all + seq![""@, c, "---------------------"@];
    assert(lines@.map_values(|s: String| s@) =~= part3);
    push_pair_lines(&mut lines, &summary.recent);
    assert(part3 + rec_lines =~= report_view(last, pairs_view(summary.all_time@), pairs_view(summary.recent@), last_n, top_n, top_recent, minutes));
    lines
}

} // verus!
