//! Mathematical model of compressed sparse storage: a matrix is a sequence of
//! outer lanes (rows for CSR, columns for CSC), each lane a strictly
//! increasing sequence of (inner index, value) pairs.
use vstd::prelude::*;

verus! {

/// One outer lane of a compressed matrix: (inner index, value) pairs.
pub type Lane<N> = Seq<(nat, N)>;

/// The lane holds inner indices below `inner`, in strictly increasing order.
pub open spec fn lane_valid<N>(lane: Lane<N>, inner: nat) -> bool {
    &&& forall|t: int| 0 <= t < lane.len() ==> #[trigger] lane[t].0 < inner
    &&& forall|s: int, t: int| 0 <= s < t < lane.len() ==> #[trigger] lane[s].0 < #[trigger] lane[t].0
}

/// The value stored in the lane at inner index `n`, if any.
pub open spec fn lane_lookup<N>(lane: Lane<N>, n: int) -> Option<N>
    decreases lane.len(),
{
    if lane.len() == 0 {
        None
    } else if lane.last().0 == n {
        Some(lane.last().1)
    } else {
        lane_lookup(lane.drop_last(), n)
    }
}

/// A lane with no entry at index `n` has nothing to look up there.
pub proof fn lemma_lookup_absent<N>(lane: Lane<N>, n: int)
    requires
        forall|t: int| 0 <= t < lane.len() ==> #[trigger] lane[t].0 != n,
    ensures
        lane_lookup(lane, n) == None::<N>,
    decreases lane.len(),
{
    if lane.len() > 0 {
        let d = lane.drop_last();
        assert forall|t: int| 0 <= t < d.len() implies #[trigger] d[t].0 != n by {
            assert(d[t] == lane[t]);
        }
        lemma_lookup_absent(d, n);
    }
}

/// In a lane with strictly increasing indices, looking up the index of
/// position `t` yields the value at position `t`.
pub proof fn lemma_lookup_present<N>(lane: Lane<N>, t: int)
    requires
        0 <= t < lane.len(),
        forall|s: int, u: int| 0 <= s < u < lane.len() ==> #[trigger] lane[s].0 < #[trigger] lane[u].0,
    ensures
        lane_lookup(lane, lane[t].0 as int) == Some(lane[t].1),
    decreases lane.len(),
{
    if t < lane.len() - 1 {
        let d = lane.drop_last();
        assert(lane[t].0 < lane[lane.len() - 1].0);
        assert forall|s: int, u: int| 0 <= s < u < d.len() implies #[trigger] d[s].0 < #[trigger] d[u].0 by {
            assert(d[s] == lane[s] && d[u] == lane[u]);
        }
        lemma_lookup_present(d, t);
        assert(d[t] == lane[t]);
    }
}

/// Two valid lanes that hold the same value at every index are the same lane.
pub proof fn lemma_lanes_equal_by_lookup<N>(a: Lane<N>, b: Lane<N>, inner: nat)
    requires
        lane_valid(a, inner),
        lane_valid(b, inner),
        forall|n: int| lane_lookup(a, n) == lane_lookup(b, n),
    ensures
        a == b,
    decreases a.len() + b.len(),
{
    if a.len() == 0 && b.len() == 0 {
        assert(a =~= b);
    } else if a.len() == 0 {
        lemma_lookup_present(b, b.len() - 1);
        assert(lane_lookup(a, b.last().0 as int) == None::<N>);
    } else if b.len() == 0 {
        lemma_lookup_present(a, a.len() - 1);
        assert(lane_lookup(b, a.last().0 as int) == None::<N>);
    } else {
        let x = a.last().0;
        let y = b.last().0;
        lemma_lookup_present(a, a.len() - 1);
        lemma_lookup_present(b, b.len() - 1);
        if x < y {
            assert forall|t: int| 0 <= t < a.len() implies #[trigger] a[t].0 != y by {
                if t < a.len() - 1 {
                    assert(a[t].0 < a[a.len() - 1].0);
                }
            }
            lemma_lookup_absent(a, y as int);
        } else if y < x {
            assert forall|t: int| 0 <= t < b.len() implies #[trigger] b[t].0 != x by {
                if t < b.len() - 1 {
                    assert(b[t].0 < b[b.len() - 1].0);
                }
            }
            lemma_lookup_absent(b, x as int);
        } else {
            let da = a.drop_last();
            let db = b.drop_last();
            assert forall|t: int| 0 <= t < da.len() implies #[trigger] da[t].0 != x by {
                assert(da[t] == a[t]);
                assert(a[t].0 < a[a.len() - 1].0);
            }
            assert forall|t: int| 0 <= t < db.len() implies #[trigger] db[t].0 != x by {
                assert(db[t] == b[t]);
                assert(b[t].0 < b[b.len() - 1].0);
            }
            lemma_lookup_absent(da, x as int);
            lemma_lookup_absent(db, x as int);
            assert forall|n: int| lane_lookup(da, n) == lane_lookup(db, n) by {
                if n != x {
                    assert(lane_lookup(a, n) == lane_lookup(da, n));
                    assert(lane_lookup(b, n) == lane_lookup(db, n));
                }
            }
            assert(lane_valid(da, inner)) by {
                assert forall|t: int| 0 <= t < da.len() implies #[trigger] da[t].0 < inner by {
                    assert(da[t] == a[t]);
                }
                assert forall|s: int, t: int| 0 <= s < t < da.len() implies #[trigger] da[s].0 < #[trigger] da[t].0 by {
                    assert(da[s] == a[s] && da[t] == a[t]);
                }
            }
            assert(lane_valid(db, inner)) by {
                assert forall|t: int| 0 <= t < db.len() implies #[trigger] db[t].0 < inner by {
                    assert(db[t] == b[t]);
                }
                assert forall|s: int, t: int| 0 <= s < t < db.len() implies #[trigger] db[s].0 < #[trigger] db[t].0 by {
                    assert(db[s] == b[s] && db[t] == b[t]);
                }
            }
            lemma_lanes_equal_by_lookup(da, db, inner);
            assert(a =~= da.push(a.last()));
            assert(b =~= db.push(b.last()));
        }
    }
}

/// The entries of `lanes` that sit at inner index `n`, taken from the first
/// `upto` lanes in lane order, each as (lane number, value).  These are the
/// lanes of the same matrix stored in the other orientation.
pub open spec fn cross_lane<N>(lanes: Seq<Lane<N>>, n: int, upto: int) -> Lane<N>
    decreases upto,
{
    if upto <= 0 {
        Seq::empty()
    } else {
        let prev = cross_lane(lanes, n, upto - 1);
        match lane_lookup(lanes[upto - 1], n) {
            Some(v) => prev.push(((upto - 1) as nat, v)),
            None => prev,
        }
    }
}

/// A cross lane lists lane numbers below `upto`, in strictly increasing order.
pub proof fn lemma_cross_lane_valid<N>(lanes: Seq<Lane<N>>, n: int, upto: int)
    requires
        0 <= upto,
    ensures
        lane_valid(cross_lane(lanes, n, upto), upto as nat),
    decreases upto,
{
    if upto > 0 {
        lemma_cross_lane_valid(lanes, n, upto - 1);
    }
}

/// Looking up lane number `o` in a cross lane gives the entry of lane `o` at `n`.
pub proof fn lemma_cross_lane_lookup<N>(lanes: Seq<Lane<N>>, n: int, upto: int, o: int)
    requires
        0 <= upto,
    ensures
        lane_lookup(cross_lane(lanes, n, upto), o) == (if 0 <= o < upto {
            lane_lookup(lanes[o], n)
        } else {
            None
        }),
    decreases upto,
{
    if upto > 0 {
        lemma_cross_lane_lookup(lanes, n, upto - 1, o);
        let prev = cross_lane(lanes, n, upto - 1);
        match lane_lookup(lanes[upto - 1], n) {
            Some(v) => {
                assert(prev.push(((upto - 1) as nat, v)).drop_last() =~= prev);
            },
            None => {},
        }
    } else {
        assert(cross_lane(lanes, n, upto).len() == 0);
    }
}

/// Total number of entries over a sequence of lanes.
pub open spec fn lanes_nnz<N>(lanes: Seq<Lane<N>>) -> nat
    decreases lanes.len(),
{
    if lanes.len() == 0 {
        0
    } else {
        lanes_nnz(lanes.drop_last()) + lanes.last().len()
    }
}

} // verus!
