//! The query over one monthly partition: keep the rows whose pickup time is
//! at or after the request's lower bound, order them by pickup time
//! ascending, and cap the count at the requested limit.

use vstd::prelude::*;
use vstd::relations::sorted_by;
use vstd::seq_lib::lemma_multiset_commutative;
use vstd::seq_lib::group_to_multiset_ensures;
use vstd::multiset::Multiset;
use vstd::math::min;

verus! {

/// One row of a monthly partition. Timestamps are UTC instants at
/// nanosecond resolution, as the partition files store them; the distance
/// and fare columns pass through untouched as the raw bits of their
/// 64-bit floating-point values.
#[derive(PartialEq, Eq, Structural, Clone, Copy, Debug)]
pub struct Trip {
    pub pickup_ns: i64,
    pub dropoff_ns: i64,
    pub distance_bits: u64,
    pub fare_bits: u64,
}

/// The lower bound in nanoseconds: the request's milliseconds scaled by 10^6.
pub open spec fn pickup_bound_ns(from_ms: int) -> int {
    from_ms * 1_000_000
}

/// A row qualifies when its pickup time is at or after the bound.
pub open spec fn qualifies(t: Trip, from_ms: int) -> bool {
    t.pickup_ns >= pickup_bound_ns(from_ms)
}

/// `qualifies`, curried on the bound, as the filter predicate.
pub open spec fn qual_pred(from_ms: int) -> spec_fn(Trip) -> bool {
    |t: Trip| qualifies(t, from_ms)
}

/// The qualifying rows of `s`, in their order in `s`.
pub open spec fn qualifying(s: Seq<Trip>, from_ms: int) -> Seq<Trip> {
    s.filter(qual_pred(from_ms))
}

/// Ascending pickup order.
pub open spec fn pickup_le() -> spec_fn(Trip, Trip) -> bool {
    |a: Trip, b: Trip| a.pickup_ns <= b.pickup_ns
}

/// The row cap: the requested count narrowed to the 32-bit width the
/// query takes it at, a plain truncation of the request parameter.
pub open spec fn result_limit(n_results: i64) -> int {
    (n_results as u32) as int
}

/// Whether `t` is at or after the bound, decided without overflowing:
/// a bound beyond the range of the column's clock admits no row or all rows.
pub fn trip_qualifies(t: &Trip, from_ms: i64) -> (b: bool)
    ensures
        b == qualifies(*t, from_ms as int),
{
    if from_ms >= 0 {
        if from_ms > 9_223_372_036_854i64 {
            false
        } else {
            t.pickup_ns >= from_ms * 1_000_000
        }
    } else {
        if from_ms < -9_223_372_036_854i64 {
            true
        } else {
            t.pickup_ns >= from_ms * 1_000_000
        }
    }
}

/// Inserting an element anywhere adds exactly it to the sequence's contents.
proof fn lemma_insert_to_multiset(s: Seq<Trip>, i: int, v: Trip)
    requires
        0 <= i <= s.len(),
    ensures
        s.insert(i, v).to_multiset() == s.to_multiset().insert(v),
{
    broadcast use group_to_multiset_ensures;

    let a = s.subrange(0, i);
    let b = s.subrange(i, s.len() as int);
    assert(s =~= a + b);
    lemma_multiset_commutative(a.push(v), b);
    lemma_multiset_commutative(a, b);
    assert(a.push(v).to_multiset() =~= a.to_multiset().insert(v));
    assert(s.insert(i, v).to_multiset() =~= s.to_multiset().insert(v));
}

/// Keep the qualifying rows of `trips`, in order.
fn filter_qualifying(trips: &Vec<Trip>, from_ms: i64) -> (q: Vec<Trip>)
    ensures
        q@ == qualifying(trips@, from_ms as int),
{
    broadcast use Seq::lemma_filter_push;

    let mut q: Vec<Trip> = Vec::new();
    let mut i: usize = 0;
    proof {
        assert(trips@.take(0).filter(qual_pred(from_ms as int)) =~= Seq::<Trip>::empty());
    }
    while i < trips.len()
        invariant
            0 <= i <= trips@.len(),
            q@ == trips@.take(i as int).filter(qual_pred(from_ms as int)),
        decreases trips@.len() - i,
    {
        let t = trips[i];
        proof {
            let pred = qual_pred(from_ms as int);
            assert(trips@.take(i as int + 1) =~= trips@.take(i as int).push(trips@[i as int]));
            trips@.take(i as int).lemma_filter_push(trips@[i as int], pred);
            assert(pred(trips@[i as int]) == qualifies(trips@[i as int], from_ms as int));
        }
        if trip_qualifies(&t, from_ms) {
            q.push(t);
        }
        i = i + 1;
    }
    proof {
        assert(trips@.take(trips@.len() as int) =~= trips@);
    }
    q
}

/// Order the rows by pickup time ascending (insertion into position).
fn sort_by_pickup(q: Vec<Trip>) -> (s: Vec<Trip>)
    ensures
        sorted_by(s@, pickup_le()),
        s@.to_multiset() == q@.to_multiset(),
        s@.len() == q@.len(),
{
    broadcast use group_to_multiset_ensures;

    let mut out: Vec<Trip> = Vec::new();
    let mut k: usize = 0;
    proof {
        assert(q@.take(0) =~= Seq::<Trip>::empty());
        assert(out@.to_multiset() =~= q@.take(0).to_multiset());
    }
    while k < q.len()
        invariant
            0 <= k <= q@.len(),
            out@.len() == k,
            out@.to_multiset() == q@.take(k as int).to_multiset(),
            sorted_by(out@, pickup_le()),
        decreases q@.len() - k,
    {
        let key = q[k];
        let mut j: usize = 0;
        while j < out.len() && out[j].pickup_ns <= key.pickup_ns
            invariant
                0 <= j <= out@.len(),
                forall|jj: int| 0 <= jj < j ==> out@[jj].pickup_ns <= key.pickup_ns,
            decreases out@.len() - j,
        {
            j = j + 1;
        }
        proof {
            broadcast use group_to_multiset_ensures;

            lemma_insert_to_multiset(out@, j as int, key);
            assert(q@.take(k as int + 1) =~= q@.take(k as int).push(q@[k as int]));
            assert(q@.take(k as int).push(q@[k as int]).to_multiset() =~= q@.take(
                k as int,
            ).to_multiset().insert(q@[k as int]));
            assert(q@.take(k as int + 1).to_multiset() == q@.take(
                k as int,
            ).to_multiset().insert(q@[k as int]));
            let newseq = out@.insert(j as int, key);
            assert forall|a: int, b: int| 0 <= a < b < newseq.len() implies pickup_le()(
                newseq[a],
                newseq[b],
            ) by {
                if b < j {
                    assert(newseq[a] == out@[a] && newseq[b] == out@[b]);
                    assert(pickup_le()(out@[a], out@[b]));
                } else if b == j {
                    assert(newseq[a] == out@[a]);
                    assert(newseq[b] == key);
                    assert(out@[a].pickup_ns <= key.pickup_ns);
                } else {
                    assert(newseq[b] == out@[b - 1]);
                    if a < j {
                        assert(newseq[a] == out@[a]);
                        if a < b - 1 {
                            assert(pickup_le()(out@[a], out@[b - 1]));
                        }
                    } else if a == j {
                        assert(newseq[a] == key);
                        assert(key.pickup_ns < out@[j as int].pickup_ns);
                        if j < b - 1 {
                            assert(pickup_le()(out@[j as int], out@[b - 1]));
                        }
                    } else {
                        assert(newseq[a] == out@[a - 1]);
                        assert(pickup_le()(out@[a - 1], out@[b - 1]));
                    }
                }
            };
        }
        out.insert(j, key);
        k = k + 1;
    }
    proof {
        assert(q@.take(q@.len() as int) =~= q@);
        assert(out@.len() == out@.to_multiset().len());
        assert(q@.len() == q@.to_multiset().len());
    }
    out
}

/// The qualifying rows of a three-row partition with one row before the
/// bound and two at or after it.
proof fn lemma_filter_three(a: Trip, b: Trip, c: Trip, from_ms: int)
    ensures
        !qualifies(a, from_ms) && qualifies(b, from_ms) && qualifies(c, from_ms) ==> qualifying(
            seq![a, b, c],
            from_ms,
        ) == seq![b, c],
        qualifies(a, from_ms) && qualifies(b, from_ms) && qualifies(c, from_ms) ==> qualifying(
            seq![a, b, c],
            from_ms,
        ) == seq![a, b, c],
{
    broadcast use Seq::lemma_filter_push;

    let pred = qual_pred(from_ms);
    let e = Seq::<Trip>::empty();
    reveal(Seq::filter);
    assert(e.filter(pred) == e);
    assert(seq![a, b, c] =~= e.push(a).push(b).push(c));
    assert(pred(a) == qualifies(a, from_ms));
    assert(pred(b) == qualifies(b, from_ms));
    assert(pred(c) == qualifies(c, from_ms));
    if !qualifies(a, from_ms) && qualifies(b, from_ms) && qualifies(c, from_ms) {
        assert(e.push(a).filter(pred) == e);
        assert(e.push(a).push(b).filter(pred) == e.push(b));
        assert(e.push(a).push(b).push(c).filter(pred) == e.push(b).push(c));
        assert(e.push(b).push(c) =~= seq![b, c]);
    }
    if qualifies(a, from_ms) && qualifies(b, from_ms) && qualifies(c, from_ms) {
        assert(e.push(a).filter(pred) == e.push(a));
        assert(e.push(a).push(b).filter(pred) == e.push(a).push(b));
        assert(e.push(a).push(b).push(c).filter(pred) == e.push(a).push(b).push(c));
    }
}

/// The contents of a two-element sequence, counted.
proof fn lemma_two_elem_counts(s: Seq<Trip>, x: Trip, y: Trip)
    requires
        s == seq![x, y],
        x != y,
    ensures
        s.to_multiset().count(x) == 1,
        s.to_multiset().count(y) == 1,
        forall|t: Trip| t != x && t != y ==> #[trigger] s.to_multiset().count(t) == 0,
{
    broadcast use group_to_multiset_ensures;
    broadcast use vstd::multiset::group_multiset_axioms;

    let e = Seq::<Trip>::empty();
    assert(s =~= e.push(x).push(y));
    assert(e.push(x).to_multiset() =~= e.to_multiset().insert(x));
    assert(e.push(x).push(y).to_multiset() =~= e.push(x).to_multiset().insert(y));
    assert(e.to_multiset() =~= Multiset::<Trip>::empty());
}

/// Law: a query result that meets the contract over a partition holding
/// rows at pickups t1 < t2 < t3, with the bound between t1 and t2 and room
/// for at least two rows, is exactly the two late rows, earliest first.
pub proof fn lemma_query_pins_two_rows(
    rows: Seq<Trip>,
    from_ms: int,
    r: Seq<Trip>,
    limit: int,
    a: Trip,
    b: Trip,
    c: Trip,
)
    requires
        rows == seq![a, b, c],
        !qualifies(a, from_ms),
        qualifies(b, from_ms),
        qualifies(c, from_ms),
        b.pickup_ns < c.pickup_ns,
        limit >= 2,
        sorted_by(r, pickup_le()),
        r.len() == min(limit, qualifying(rows, from_ms).len() as int),
        forall|t: Trip| #[trigger] r.to_multiset().count(t) <= qualifying(
            rows,
            from_ms,
        ).to_multiset().count(t),
    ensures
        r == seq![b, c],
{
    broadcast use group_to_multiset_ensures;
    broadcast use vstd::multiset::group_multiset_axioms;

    lemma_filter_three(a, b, c, from_ms);
    let qual = qualifying(rows, from_ms);
    assert(qual == seq![b, c]);
    lemma_two_elem_counts(qual, b, c);
    assert(r.len() == 2);
    let e = Seq::<Trip>::empty();
    assert(r =~= seq![r[0], r[1]]);
    assert(r =~= e.push(r[0]).push(r[1]));
    assert(e.push(r[0]).to_multiset() =~= e.to_multiset().insert(r[0]));
    assert(e.push(r[0]).push(r[1]).to_multiset() =~= e.push(r[0]).to_multiset().insert(r[1]));
    if r[0] == r[1] {
        assert(r.to_multiset().count(r[0]) == 2);
        assert(false);
    }
    lemma_two_elem_counts(r, r[0], r[1]);
    assert(r.to_multiset().count(r[0]) >= 1);
    assert(r.to_multiset().count(r[1]) >= 1);
    assert(r[0] == b || r[0] == c);
    assert(r[1] == b || r[1] == c);
    assert(pickup_le()(r[0], r[1]));
    assert(r == seq![b, c]);
}

/// Law: a query result that meets the contract with a cap of one row, over
/// a partition of three qualifying rows in ascending pickup order, is
/// exactly the earliest row.
pub proof fn lemma_query_pins_earliest(
    rows: Seq<Trip>,
    from_ms: int,
    r: Seq<Trip>,
    a: Trip,
    b: Trip,
    c: Trip,
)
    requires
        rows == seq![a, b, c],
        qualifies(a, from_ms),
        qualifies(b, from_ms),
        qualifies(c, from_ms),
        a.pickup_ns < b.pickup_ns < c.pickup_ns,
        sorted_by(r, pickup_le()),
        r.len() == min(1, qualifying(rows, from_ms).len() as int),
        forall|t: Trip| #[trigger] r.to_multiset().count(t) <= qualifying(
            rows,
            from_ms,
        ).to_multiset().count(t),
        forall|i: int, t: Trip|
            #![trigger r[i], qualifying(rows, from_ms).to_multiset().count(t)]
            0 <= i < r.len() && qualifying(rows, from_ms).to_multiset().count(t)
                > r.to_multiset().count(t) ==> r[i].pickup_ns <= t.pickup_ns,
    ensures
        r == seq![a],
{
    broadcast use group_to_multiset_ensures;
    broadcast use vstd::multiset::group_multiset_axioms;

    lemma_filter_three(a, b, c, from_ms);
    let qual = qualifying(rows, from_ms);
    assert(qual == seq![a, b, c]);
    let e = Seq::<Trip>::empty();
    assert(qual =~= e.push(a).push(b).push(c));
    assert(e.push(a).to_multiset() =~= e.to_multiset().insert(a));
    assert(e.push(a).push(b).to_multiset() =~= e.push(a).to_multiset().insert(b));
    assert(e.push(a).push(b).push(c).to_multiset() =~= e.push(a).push(b).to_multiset().insert(c));
    assert(qual.to_multiset().count(a) == 1);
    assert(r.len() == 1);
    assert(r =~= e.push(r[0]));
    assert(e.push(r[0]).to_multiset() =~= e.to_multiset().insert(r[0]));
    assert(r.to_multiset().count(r[0]) == 1);
    assert(qual.to_multiset().count(r[0]) >= 1);
    assert(r[0] == a || r[0] == b || r[0] == c);
    if r[0] != a {
        assert(r.to_multiset().count(a) == 0);
        assert(qual.to_multiset().count(a) > r.to_multiset().count(a));
        assert(r[0].pickup_ns <= a.pickup_ns);
        assert(false);
    }
    assert(r == seq![a]);
}

/// The query over one partition's rows: the rows at or after the bound,
/// ascending by pickup time, capped at the truncated requested count.
/// The result is a shortest-first prefix: it holds only qualifying rows,
/// and every qualifying row that was left out has a pickup time no earlier
/// than any row returned.
pub fn get_trips(trips: &Vec<Trip>, from_ms: i64, n_results: i64) -> (r: Vec<Trip>)
    ensures
        sorted_by(r@, pickup_le()),
        r@.len() == min(result_limit(n_results), qualifying(trips@, from_ms as int).len() as int),
        forall|t: Trip| #[trigger] r@.to_multiset().count(t) <= qualifying(
            trips@,
            from_ms as int,
        ).to_multiset().count(t),
        forall|i: int, t: Trip|
            #![trigger r@[i], qualifying(trips@, from_ms as int).to_multiset().count(t)]
            0 <= i < r@.len() && qualifying(trips@, from_ms as int).to_multiset().count(t)
                > r@.to_multiset().count(t) ==> r@[i].pickup_ns <= t.pickup_ns,
        forall|i: int| 0 <= i < r@.len() ==> qualifies(#[trigger] r@[i], from_ms as int),
{
    broadcast use group_to_multiset_ensures;
    broadcast use Seq::lemma_filter_pred;

    let q = filter_qualifying(trips, from_ms);
    let mut s = sort_by_pickup(q);
    let ghost qual = qualifying(trips@, from_ms as int);
    let ghost full = s@;
    let limit: u32 = #[verifier::truncate] (n_results as u32);
    let limit_usize: usize = limit as usize;
    if s.len() > limit_usize {
        s.truncate(limit_usize);
    }
    proof {
        assert(s@ =~= full.take(min(result_limit(n_results), full.len() as int)));
        let kept = s@;
        let cut = full.skip(kept.len() as int);
        assert(full =~= kept + cut);
        lemma_multiset_commutative(kept, cut);
        assert forall|t: Trip| #[trigger] kept.to_multiset().count(t) <= qual.to_multiset().count(
            t,
        ) by {
            assert(full.to_multiset().count(t) == kept.to_multiset().count(t)
                + cut.to_multiset().count(t));
        };
        assert forall|i: int, t: Trip|
            #![trigger kept[i], qual.to_multiset().count(t)]
            0 <= i < kept.len() && qual.to_multiset().count(t) > kept.to_multiset().count(t)
                implies kept[i].pickup_ns <= t.pickup_ns by {
            assert(full.to_multiset().count(t) == kept.to_multiset().count(t)
                + cut.to_multiset().count(t));
            assert(cut.to_multiset().count(t) > 0);
            assert(cut.contains(t));
            let w = choose|w: int| 0 <= w < cut.len() && cut[w] == t;
            assert(full[kept.len() + w] == t);
            assert(full[i] == kept[i]);
            assert(pickup_le()(full[i], full[kept.len() + w]));
        };
        assert forall|i: int| 0 <= i < kept.len() implies qualifies(
            kept[i],
            from_ms as int,
        ) by {
            assert(kept.contains(kept[i]));
            assert(kept.to_multiset().count(kept[i]) > 0);
            assert(qual.to_multiset().count(kept[i]) > 0);
            assert(qual.contains(kept[i]));
            let w = choose|w: int| 0 <= w < qual.len() && qual[w] == kept[i];
            assert(qual_pred(from_ms as int)(qual[w]));
        };
    }
    s
}

} // verus!
