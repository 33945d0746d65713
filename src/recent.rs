use vstd::prelude::*;

verus! {

/// `q` without the occurrences of `id`, in order.
pub open spec fn without(q: Seq<Seq<char>>, id: Seq<char>) -> Seq<Seq<char>>
    decreases q.len(),
{
    if q.len() == 0 {
        Seq::empty()
    } else if q.last() == id {
        without(q.drop_last(), id)
    } else {
        without(q.drop_last(), id).push(q.last())
    }
}

/// The first `n` items of `s`, or all of them when there are fewer.
pub open spec fn prefix(s: Seq<Seq<char>>, n: nat) -> Seq<Seq<char>> {
    if s.len() <= n {
        s
    } else {
        s.take(n as int)
    }
}

/// The queue after `id` is touched: `id` moves (or is added) to the front, and the
/// list is cut to `capacity` items from the back.
pub open spec fn touched(q: Seq<Seq<char>>, id: Seq<char>, capacity: nat) -> Seq<Seq<char>> {
    prefix(seq![id] + without(q, id), capacity)
}

/// No identifier occurs twice.
pub open spec fn all_distinct(q: Seq<Seq<char>>) -> bool {
    forall|i: int, j: int| 0 <= i < q.len() && 0 <= j < q.len() && i != j ==> q[i] != q[j]
}

/// The identifiers of `v`, as the contracts see them.
pub open spec fn ids_view(v: Seq<String>) -> Seq<Seq<char>> {
    v.map_values(|s: String| s@)
}

/// The last distinct visitors, most recent first, at most `capacity` of them.
pub struct RecentQueue {
    items: Vec<String>,
    capacity: usize,
}

impl View for RecentQueue {
    type V = Seq<Seq<char>>;

    closed spec fn view(&self) -> Seq<Seq<char>> {
        ids_view(self.items@)
    }
}

proof fn lemma_without_facts(q: Seq<Seq<char>>, id: Seq<char>)
    requires
        all_distinct(q),
    ensures
        all_distinct(without(q, id)),
        forall|j: int| 0 <= j < without(q, id).len() ==> #[trigger] without(q, id)[j] != id && q.contains(without(q, id)[j]),
        q.contains(id) ==> without(q, id).len() + 1 == q.len(),
        !q.contains(id) ==> without(q, id).len() == q.len(),
    decreases q.len(),
{
    if q.len() > 0 {
        let p = q.drop_last();
        assert(all_distinct(p));
        lemma_without_facts(p, id);
        let w = without(p, id);
        assert forall|j: int| 0 <= j < without(q, id).len() implies #[trigger] without(q, id)[j] != id && q.contains(without(q, id)[j]) by {
            if j < w.len() {
                assert(without(q, id)[j] == w[j]);
                let m = choose|m: int| 0 <= m < p.len() && p[m] == w[j];
                assert(q[m] == p[m]);
            } else {
                assert(q[q.len() - 1] == q.last());
            }
        }
        if q.last() != id {
            assert forall|a: int, b: int| 0 <= a < without(q, id).len() && 0 <= b < without(q, id).len() && a != b implies
                without(q, id)[a] != without(q, id)[b] by {
                if a < w.len() && b == w.len() {
                    let m = choose|m: int| 0 <= m < p.len() && p[m] == w[a];
                    assert(q[m] == p[m]);
                    assert(q[q.len() - 1] == q.last());
                } else if b < w.len() && a == w.len() {
                    let m = choose|m: int| 0 <= m < p.len() && p[m] == w[b];
                    assert(q[m] == p[m]);
                    assert(q[q.len() - 1] == q.last());
                }
            }
        }
        if q.contains(id) {
            let m = choose|m: int| 0 <= m < q.len() && q[m] == id;
            if q.last() != id {
                assert(p[m] == q[m]);
            } else {
                assert forall|i: int| 0 <= i < p.len() implies p[i] != id by {
                    assert(p[i] == q[i]);
                    assert(q[q.len() - 1] == q.last());
                }
            }
        } else {
            assert forall|i: int| 0 <= i < p.len() implies p[i] != id by {
                assert(p[i] == q[i]);
            }
        }
    }
}

/// Touching an identifier that is already queued moves it to the front and leaves
/// the length as it was; whatever is touched, the queue stays within its capacity
/// and holds each identifier at most once.
pub proof fn lemma_touch_laws(q: Seq<Seq<char>>, id: Seq<char>, capacity: nat)
    requires
        all_distinct(q),
        q.len() <= capacity,
    ensures
        touched(q, id, capacity).len() <= capacity,
        all_distinct(touched(q, id, capacity)),
        capacity > 0 ==> touched(q, id, capacity)[0] == id,
        q.contains(id) ==> touched(q, id, capacity).len() == q.len(),
        !q.contains(id) ==> touched(q, id, capacity).len() == if q.len() < capacity { q.len() + 1 } else { capacity },
{
    lemma_without_facts(q, id);
    let w = without(q, id);
    let full = seq![id] + w;
    assert forall|a: int, b: int| 0 <= a < full.len() && 0 <= b < full.len() && a != b implies full[a] != full[b] by {
        if a > 0 && b > 0 {
            assert(full[a] == w[a - 1]);
            assert(full[b] == w[b - 1]);
        } else if a == 0 {
            assert(full[b] == w[b - 1]);
        } else {
            assert(full[a] == w[a - 1]);
        }
    }
}

impl RecentQueue {
    /// At most `capacity` items, none repeated.
    pub closed spec fn wf(&self) -> bool {
        self@.len() <= self.capacity && all_distinct(self@)
    }

    /// The most items the queue holds.
    pub closed spec fn cap(&self) -> nat {
        self.capacity as nat
    }

    /// An empty queue that keeps at most `capacity` identifiers.
    pub fn new(capacity: usize) -> (r: RecentQueue)
        ensures
            r.wf(),
            r@ == Seq::<Seq<char>>::empty(),
            r.cap() == capacity,
    {
        let r = RecentQueue { items: Vec::new(), capacity };
        assert(r@ =~= Seq::<Seq<char>>::empty());
        r
    }

    /// Moves `id` to the front, dropping an earlier occurrence of it, or the last
    /// item when the queue is full. Returns the queue, front to back.
    pub fn touch(&mut self, id: String) -> (r: Vec<String>)
        requires
            old(self).wf(),
        ensures
            final(self).wf(),
            final(self).cap() == old(self).cap(),
            final(self)@ == touched(old(self)@, id@, old(self).cap()),
            ids_view(r@) == final(self)@,
    {
        let ghost q = self@;
        let ghost cap = self.capacity as nat;
        proof {
            lemma_touch_laws(q, id@, cap);
        }
        let mut out: Vec<String> = Vec::new();
        if self.capacity > 0 {
            out.push(id.clone());
        }
        let mut i: usize = 0;
        while i < self.items.len()
            invariant
                q == self@,
                cap == self.capacity,
                i <= q.len(),
                ids_view(out@) == prefix(seq![id@] + without(q.take(i as int), id@), cap),
            decreases q.len() - i,
        {
            let ghost before = ids_view(out@);
            let ghost w = without(q.take(i as int), id@);
            assert(q.take(i + 1).drop_last() =~= q.take(i as int));
            assert(q.take(i + 1).last() == q[i as int]);
            if self.items[i] != id && out.len() < self.capacity {
                out.push(self.items[i].clone());
                assert(ids_view(out@) =~= before.push(q[i as int]));
                assert(seq![id@] + w.push(q[i as int]) =~= (seq![id@] + w).push(q[i as int]));
            } else if self.items[i] != id {
                assert((seq![id@] + w.push(q[i as int])).take(cap as int) =~= (seq![id@] + w).take(cap as int));
            }
            i += 1;
        }
        assert(q.take(q.len() as int) =~= q);
        self.items = out;
        let r = self.items.clone();
        assert(ids_view(r@) =~= ids_view(self.items@));
        r
    }

    /// The queued identifiers, front to back.
    pub fn contents(&self) -> (r: Vec<String>)
        ensures
            ids_view(r@) == self@,
    {
        let r = self.items.clone();
        assert(ids_view(r@) =~= ids_view(self.items@));
        r
    }
}


/// The queue after touching each of `calls` in order.
pub open spec fn touched_all(q: Seq<Seq<char>>, calls: Seq<Seq<char>>, capacity: nat) -> Seq<Seq<char>>
    decreases calls.len(),
{
    if calls.len() == 0 {
        q
    } else {
        touched(touched_all(q, calls.drop_last(), capacity), calls.last(), capacity)
    }
}

/// The distinct identifiers of `calls`, ordered by their last occurrence, latest
/// first.
pub open spec fn by_recency(calls: Seq<Seq<char>>) -> Seq<Seq<char>>
    decreases calls.len(),
{
    if calls.len() == 0 {
        Seq::empty()
    } else {
        seq![calls.last()] + without(by_recency(calls.drop_last()), calls.last())
    }
}

proof fn lemma_without_take_prefix(r: Seq<Seq<char>>, x: Seq<char>, k: int)
    requires
        0 <= k <= r.len(),
    ensures
        without(r.take(k), x).len() <= without(r, x).len(),
        without(r, x).take(without(r.take(k), x).len() as int) == without(r.take(k), x),
    decreases r.len(),
{
    if k == r.len() {
        assert(r.take(k) =~= r);
        assert(without(r, x).take(without(r, x).len() as int) =~= without(r, x));
    } else {
        let p = r.drop_last();
        assert(r.take(k) =~= p.take(k));
        lemma_without_take_prefix(p, x, k);
        let a = without(p.take(k), x);
        let b = without(p, x);
        if r.last() != x {
            assert(b.push(r.last()).take(a.len() as int) =~= b.take(a.len() as int));
        }
    }
}

proof fn lemma_prefix_agree(a: Seq<Seq<char>>, b: Seq<Seq<char>>, n: nat)
    requires
        a.len() <= b.len(),
        b.take(a.len() as int) == a,
        a.len() >= n || a.len() == b.len(),
    ensures
        prefix(a, n) == prefix(b, n),
{
    if a.len() == b.len() {
        assert(b.take(b.len() as int) =~= b);
    } else {
        assert(b.take(n as int) =~= a.take(n as int));
    }
}

/// Starting from an empty queue, after any sequence of touches the queue holds the
/// distinct identifiers touched, the most recently touched first, cut to its
/// capacity.
pub proof fn lemma_touch_sequence(calls: Seq<Seq<char>>, capacity: nat)
    ensures
        touched_all(Seq::empty(), calls, capacity) == prefix(by_recency(calls), capacity),
        all_distinct(by_recency(calls)),
    decreases calls.len(),
{
    if calls.len() == 0 {
        assert(all_distinct(Seq::<Seq<char>>::empty()));
    } else {
        let x = calls.last();
        let r = by_recency(calls.drop_last());
        lemma_touch_sequence(calls.drop_last(), capacity);
        lemma_touch_laws(r, x, r.len() + 1);
        assert(prefix(seq![x] + without(r, x), r.len() + 1) == seq![x] + without(r, x)) by {
            lemma_without_facts(r, x);
        }
        let q = prefix(r, capacity);
        if r.len() <= capacity {
            assert(q == r);
        } else {
            let k = capacity as int;
            assert(q == r.take(k));
            let t = r.take(k);
            assert(all_distinct(t)) by {
                assert forall|i: int, j: int| 0 <= i < t.len() && 0 <= j < t.len() && i != j implies t[i] != t[j] by {
                    assert(t[i] == r[i] && t[j] == r[j]);
                }
            }
            lemma_without_take_prefix(r, x, k);
            lemma_without_facts(t, x);
            let a = seq![x] + without(t, x);
            let b = seq![x] + without(r, x);
            assert(b.take(a.len() as int) =~= a);
            lemma_prefix_agree(a, b, capacity);
        }
    }
}

} // verus!
