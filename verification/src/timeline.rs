//! Putting observations in the order of their timestamps.

use vstd::prelude::*;
use crate::observation::Observation;

verus! {

/// Readings in non-decreasing order of timestamp.
pub open spec fn sorted_by_timestamp(s: Seq<Observation>) -> bool {
    forall|i: int, j: int| 0 <= i < j < s.len() ==> #[trigger] s[i].timestamp <= #[trigger] s[j].timestamp
}

/// Whether a reading was taken at tick `t`.
pub open spec fn at_tick(t: u64) -> spec_fn(Observation) -> bool {
    |o: Observation| o.timestamp == t
}

/// `output` is `input` sorted by timestamp, readings with equal timestamps
/// keeping the order in which they arrived (a stable sort).
pub open spec fn stably_sorted(input: Seq<Observation>, output: Seq<Observation>) -> bool {
    &&& output.len() == input.len()
    &&& sorted_by_timestamp(output)
    &&& forall|t: u64| #[trigger] output.filter(at_tick(t)) == input.filter(at_tick(t))
}

/// Filtering a sequence with one more element.
pub proof fn lemma_filter_push(s: Seq<Observation>, x: Observation, p: spec_fn(Observation) -> bool)
    ensures
        s.push(x).filter(p) == (if p(x) {
            s.filter(p).push(x)
        } else {
            s.filter(p)
        }),
{
    reveal(Seq::filter);
    assert(s.push(x).drop_last() =~= s);
}

/// Filtering keeps nothing when no element passes.
pub proof fn lemma_filter_none(s: Seq<Observation>, p: spec_fn(Observation) -> bool)
    requires
        forall|i: int| 0 <= i < s.len() ==> !p(#[trigger] s[i]),
    ensures
        s.filter(p) == Seq::<Observation>::empty(),
    decreases s.len(),
{
    reveal(Seq::filter);
    if s.len() > 0 {
        lemma_filter_none(s.drop_last(), p);
    }
}

/// Inserting `x` after every reading no later than it, and before every
/// later one, keeps a sorted sequence stably sorted.
proof fn lemma_insert_in_order(input: Seq<Observation>, r: Seq<Observation>, x: Observation, p: int)
    requires
        stably_sorted(input, r),
        0 <= p <= r.len(),
        forall|j: int| 0 <= j < p ==> #[trigger] r[j].timestamp <= x.timestamp,
        forall|j: int| p <= j < r.len() ==> #[trigger] r[j].timestamp > x.timestamp,
    ensures
        stably_sorted(input.push(x), r.insert(p, x)),
{
    let m = r.insert(p, x);
    assert(m =~= r.take(p) + seq![x] + r.skip(p));
    assert(r =~= r.take(p) + r.skip(p));
    assert(sorted_by_timestamp(m)) by {
        assert forall|i: int, j: int| 0 <= i < j < m.len() implies #[trigger] m[i].timestamp
            <= #[trigger] m[j].timestamp by {
            if i < p && j < p {
                assert(r[i].timestamp <= r[j].timestamp);
            } else if i < p && j == p {
                assert(r[i].timestamp <= x.timestamp);
            } else if i < p {
                assert(m[j] == r[j - 1]);
                assert(r[i].timestamp <= r[j - 1].timestamp);
            } else if i == p {
                assert(m[j] == r[j - 1]);
                assert(r[j - 1].timestamp > x.timestamp);
            } else {
                assert(m[i] == r[i - 1]);
                assert(m[j] == r[j - 1]);
                assert(r[i - 1].timestamp <= r[j - 1].timestamp);
            }
        }
    }
    assert forall|t: u64| #[trigger] m.filter(at_tick(t)) == input.push(x).filter(at_tick(t)) by {
        let f = at_tick(t);
        lemma_filter_push(input, x, f);
        Seq::filter_distributes_over_add(r.take(p) + seq![x], r.skip(p), f);
        Seq::filter_distributes_over_add(r.take(p), seq![x], f);
        Seq::filter_distributes_over_add(r.take(p), r.skip(p), f);
        lemma_filter_push(Seq::<Observation>::empty(), x, f);
        assert(Seq::<Observation>::empty().push(x) =~= seq![x]);
        lemma_filter_none(Seq::<Observation>::empty(), f);
        if x.timestamp == t {
            assert forall|i: int| 0 <= i < r.skip(p).len() implies !f(#[trigger] r.skip(p)[i]) by {
                assert(r.skip(p)[i] == r[p + i]);
            }
            lemma_filter_none(r.skip(p), f);
            assert(m.filter(f) =~= r.filter(f).push(x));
        } else {
            assert(m.filter(f) =~= r.filter(f));
        }
    }
}

/// `observations` sorted by timestamp, equal timestamps in arrival order.
pub fn order_by_timestamp(observations: &[Observation]) -> (ordered: Vec<Observation>)
    ensures
        stably_sorted(observations@, ordered@),
{
    let mut ordered: Vec<Observation> = Vec::new();
    let n = observations.len();
    let mut k: usize = 0;
    assert(observations@.take(0) =~= Seq::<Observation>::empty());
    assert forall|t: u64| #[trigger] ordered@.filter(at_tick(t)) == observations@.take(0).filter(
        at_tick(t),
    ) by {
        lemma_filter_none(ordered@, at_tick(t));
        lemma_filter_none(observations@.take(0), at_tick(t));
    }
    while k < n
        invariant
            n == observations@.len(),
            k <= n,
            stably_sorted(observations@.take(k as int), ordered@),
        decreases n - k,
    {
        let x = observations[k].clone();
        let mut p: usize = ordered.len();
        while p > 0 && ordered[p - 1].timestamp > x.timestamp
            invariant
                p <= ordered.len(),
                sorted_by_timestamp(ordered@),
                forall|j: int| p <= j < ordered.len() ==> #[trigger] ordered@[j].timestamp
                    > x.timestamp,
            decreases p,
        {
            p = p - 1;
        }
        proof {
            assert forall|j: int| 0 <= j < p implies #[trigger] ordered@[j].timestamp
                <= x.timestamp by {
                if p > 0 {
                    assert(ordered@[j].timestamp <= ordered@[p - 1].timestamp);
                }
            }
            lemma_insert_in_order(observations@.take(k as int), ordered@, x, p as int);
            assert(observations@.take(k + 1) =~= observations@.take(k as int).push(x));
        }
        ordered.insert(p, x);
        k = k + 1;
    }
    assert(observations@.take(n as int) =~= observations@);
    ordered
}

/// A sorted sequence holds a reading from each tick at which it has one,
/// and the last reading is from its latest tick.
proof fn lemma_latest_tick(y: Seq<Observation>, t: u64)
    requires
        sorted_by_timestamp(y),
        y.filter(at_tick(t)).len() > 0,
    ensures
        y.len() > 0,
        t <= y.last().timestamp,
{
    let f = at_tick(t);
    let e = y.filter(f)[0];
    y.lemma_filter_pred(f, 0);
    assert(y.filter(f).contains(e));
    y.lemma_filter_contains_rev(f, e);
    let i = choose|i: int| 0 <= i < y.len() && y[i] == e;
    if i < y.len() - 1 {
        assert(y[i].timestamp <= y[y.len() - 1].timestamp);
    }
}

/// Two sorted sequences that hold the same readings at every tick, in the
/// same order, are the same sequence.
proof fn lemma_sorted_unique(x: Seq<Observation>, y: Seq<Observation>)
    requires
        sorted_by_timestamp(x),
        sorted_by_timestamp(y),
        forall|t: u64| #[trigger] x.filter(at_tick(t)) == y.filter(at_tick(t)),
    ensures
        x == y,
    decreases x.len() + y.len(),
{
    if x.len() == 0 && y.len() == 0 {
        assert(x =~= y);
    } else if x.len() == 0 {
        let t = y.last().timestamp;
        assert(y =~= y.drop_last().push(y.last()));
        lemma_filter_push(y.drop_last(), y.last(), at_tick(t));
        lemma_filter_none(x, at_tick(t));
        assert(x.filter(at_tick(t)) == y.filter(at_tick(t)));
    } else if y.len() == 0 {
        let t = x.last().timestamp;
        assert(x =~= x.drop_last().push(x.last()));
        lemma_filter_push(x.drop_last(), x.last(), at_tick(t));
        lemma_filter_none(y, at_tick(t));
        assert(x.filter(at_tick(t)) == y.filter(at_tick(t)));
    } else {
        let tx = x.last().timestamp;
        let ty = y.last().timestamp;
        let xs = x.drop_last();
        let ys = y.drop_last();
        assert(x =~= xs.push(x.last()));
        assert(y =~= ys.push(y.last()));
        lemma_filter_push(xs, x.last(), at_tick(tx));
        lemma_filter_push(ys, y.last(), at_tick(ty));
        assert(x.filter(at_tick(tx)) == y.filter(at_tick(tx)));
        assert(x.filter(at_tick(ty)) == y.filter(at_tick(ty)));
        lemma_latest_tick(y, tx);
        lemma_latest_tick(x, ty);
        assert(tx == ty);
        assert(x.last() == y.last()) by {
            let fx = x.filter(at_tick(tx));
            assert(fx.last() == x.last());
        }
        assert forall|t: u64| #[trigger] xs.filter(at_tick(t)) == ys.filter(at_tick(t)) by {
            lemma_filter_push(xs, x.last(), at_tick(t));
            lemma_filter_push(ys, y.last(), at_tick(t));
            assert(x.filter(at_tick(t)) == y.filter(at_tick(t)));
            if t == tx {
                assert(xs.filter(at_tick(t)) =~= x.filter(at_tick(t)).drop_last());
                assert(ys.filter(at_tick(t)) =~= y.filter(at_tick(t)).drop_last());
            }
        }
        assert(sorted_by_timestamp(xs)) by {
            assert forall|i: int, j: int| 0 <= i < j < xs.len() implies #[trigger] xs[i].timestamp
                <= #[trigger] xs[j].timestamp by {
                assert(x[i].timestamp <= x[j].timestamp);
            }
        }
        assert(sorted_by_timestamp(ys)) by {
            assert forall|i: int, j: int| 0 <= i < j < ys.len() implies #[trigger] ys[i].timestamp
                <= #[trigger] ys[j].timestamp by {
                assert(y[i].timestamp <= y[j].timestamp);
            }
        }
        lemma_sorted_unique(xs, ys);
    }
}

/// Readings that already arrive in timestamp order keep that order.
pub proof fn lemma_sorted_input_kept(input: Seq<Observation>, output: Seq<Observation>)
    requires
        sorted_by_timestamp(input),
        stably_sorted(input, output),
    ensures
        output == input,
{
    lemma_sorted_unique(output, input);
}

/// Arrival order does not matter: two batches that hold the same readings
/// at every tick, in the same order, sort to the same timeline, however
/// readings of different ticks were interleaved when they arrived.
pub proof fn lemma_arrival_order_irrelevant(
    a: Seq<Observation>,
    b: Seq<Observation>,
    sorted_a: Seq<Observation>,
    sorted_b: Seq<Observation>,
)
    requires
        forall|t: u64| #[trigger] a.filter(at_tick(t)) == b.filter(at_tick(t)),
        stably_sorted(a, sorted_a),
        stably_sorted(b, sorted_b),
    ensures
        sorted_a == sorted_b,
{
    assert forall|t: u64| #[trigger] sorted_a.filter(at_tick(t)) == sorted_b.filter(at_tick(t)) by {
        assert(sorted_a.filter(at_tick(t)) == a.filter(at_tick(t)));
        assert(sorted_b.filter(at_tick(t)) == b.filter(at_tick(t)));
        assert(a.filter(at_tick(t)) == b.filter(at_tick(t)));
    }
    lemma_sorted_unique(sorted_a, sorted_b);
}

} // verus!
