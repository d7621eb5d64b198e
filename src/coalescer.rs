//! The range coalescer: one pass over the input that keeps, in a hash map, the
//! maximal runs of consecutive values seen so far.
use std::collections::HashMap;
use vstd::prelude::*;

use crate::missing::{
    is_smallest_missing, lemma_covered_prefix_fits, lemma_occurs_push, lemma_smallest_missing_unique,
    occurs, smallest_missing,
};

verus! {

/// The inclusive extent `[low, high]` of a run of consecutive values.
pub struct RangeInclusive {
    pub low: u32,
    pub high: u32,
}

impl RangeInclusive {
    pub fn new(low: u32, high: u32) -> (r: RangeInclusive)
        ensures
            r.low == low,
            r.high == high,
    {
        RangeInclusive { low, high }
    }
}

/// What the coalescer records for a value it has seen.
pub enum RangeDef {
    /// The value lies strictly inside a run.
    MidRange,
    /// The value is the lowest or the highest of the run it belongs to.
    EdgeVal(RangeInclusive),
}

/// The marks record the value `x`.
pub open spec fn holds(m: Map<u32, RangeDef>, x: int) -> bool {
    0 <= x <= u32::MAX && m.contains_key(x as u32)
}

/// `[lo, hi]` is a maximal run of recorded values.
pub open spec fn is_run(m: Map<u32, RangeDef>, lo: int, hi: int) -> bool {
    &&& lo <= hi
    &&& forall|j: int| lo <= j <= hi ==> holds(m, j)
    &&& !holds(m, lo - 1)
    &&& !holds(m, hi + 1)
}

/// The mark `d` is a boundary whose run is `[lo, hi]`.
pub open spec fn is_edge(d: RangeDef, lo: int, hi: int) -> bool {
    match d {
        RangeDef::EdgeVal(r) => r.low == lo && r.high == hi,
        RangeDef::MidRange => false,
    }
}

/// The first value of each maximal run is marked with the run's extent.
#[verifier::opaque]
pub open spec fn starts_marked(m: Map<u32, RangeDef>) -> bool {
    forall|k: u32|
        #[trigger] m.contains_key(k) && !holds(m, k - 1) ==> exists|hi: int|
            is_edge(m[k], k as int, hi) && is_run(m, k as int, hi)
}

/// The last value of each maximal run is marked with the run's extent.
#[verifier::opaque]
pub open spec fn ends_marked(m: Map<u32, RangeDef>) -> bool {
    forall|k: u32|
        #[trigger] m.contains_key(k) && !holds(m, k + 1) ==> exists|lo: int|
            is_edge(m[k], lo, k as int) && is_run(m, lo, k as int)
}

/// Both ends of every maximal run carry the run's extent.
pub open spec fn marks_runs(m: Map<u32, RangeDef>) -> bool {
    starts_marked(m) && ends_marked(m)
}

/// With nothing recorded there is no run to mark.
proof fn lemma_no_marks()
    ensures
        marks_runs(Map::<u32, RangeDef>::empty()),
{
    reveal(starts_marked);
    reveal(ends_marked);
}

/// Two maximal runs that share an end are the same run.
proof fn lemma_run_unique(m: Map<u32, RangeDef>, lo1: int, lo2: int, hi1: int, hi2: int)
    requires
        is_run(m, lo1, hi1),
        is_run(m, lo2, hi2),
        lo1 == lo2 || hi1 == hi2,
    ensures
        lo1 == lo2 && hi1 == hi2,
{
    if lo1 < lo2 {
        assert(holds(m, lo2 - 1));
    } else if lo2 < lo1 {
        assert(holds(m, lo1 - 1));
    } else if hi1 < hi2 {
        assert(holds(m, hi1 + 1));
    } else if hi2 < hi1 {
        assert(holds(m, hi2 + 1));
    }
}

/// A recorded value whose lower neighbour is not recorded is marked as the
/// start of its run; the run's last value is returned.
proof fn lemma_start_mark(m: Map<u32, RangeDef>, k: u32) -> (hi: int)
    requires
        starts_marked(m),
        m.contains_key(k),
        !holds(m, k - 1),
    ensures
        is_edge(m[k], k as int, hi),
        is_run(m, k as int, hi),
{
    reveal(starts_marked);
    choose|hi: int| is_edge(m[k], k as int, hi) && is_run(m, k as int, hi)
}

/// A recorded value whose upper neighbour is not recorded is marked as the end
/// of its run; the run's first value is returned.
proof fn lemma_end_mark(m: Map<u32, RangeDef>, k: u32) -> (lo: int)
    requires
        ends_marked(m),
        m.contains_key(k),
        !holds(m, k + 1),
    ensures
        is_edge(m[k], lo, k as int),
        is_run(m, lo, k as int),
{
    reveal(ends_marked);
    choose|lo: int| is_edge(m[k], lo, k as int) && is_run(m, lo, k as int)
}

/// Recording a new value `v` that joins the run `[l, v - 1]` (if any) and the run
/// `[v + 1, u]` (if any) into `[l, u]` keeps every run's ends marked, provided
/// `l` and `u` carry the merged extent and no mark outside `[l, u]` changes.
proof fn lemma_merge_keeps_marks(
    m: Map<u32, RangeDef>,
    m2: Map<u32, RangeDef>,
    v: u32,
    l: u32,
    u: u32,
)
    requires
        marks_runs(m),
        !m.contains_key(v),
        l <= v <= u,
        l == v && !holds(m, v - 1) || l < v && is_run(m, l as int, v - 1),
        u == v && !holds(m, v + 1) || v < u && is_run(m, v + 1, u as int),
        m2.dom() == m.dom().insert(v),
        is_edge(m2[l], l as int, u as int),
        is_edge(m2[u], l as int, u as int),
        forall|k: u32| #[trigger] m2.contains_key(k) && (k < l || u < k) ==> m2[k] == m[k],
    ensures
        marks_runs(m2),
        is_run(m2, l as int, u as int),
{
    reveal(starts_marked);
    reveal(ends_marked);
    assert forall|j: int| holds(m2, j) <==> holds(m, j) || j == v by {}
    assert(is_run(m2, l as int, u as int));
    assert forall|k: u32| #[trigger] m2.contains_key(k) && !holds(m2, k - 1) implies exists|hi: int|
        is_edge(m2[k], k as int, hi) && is_run(m2, k as int, hi) by {
        if l <= k <= u {
            if k > l {
                assert(holds(m2, k - 1));
            }
            assert(is_edge(m2[k], k as int, u as int));
        } else {
            assert(m.contains_key(k));
            let hi = choose|hi: int| is_edge(m[k], k as int, hi) && is_run(m, k as int, hi);
            if hi + 1 == v {
                lemma_run_unique(m, l as int, k as int, v - 1, hi);
            }
            assert(is_run(m2, k as int, hi));
        }
    }
    assert forall|k: u32| #[trigger] m2.contains_key(k) && !holds(m2, k + 1) implies exists|lo: int|
        is_edge(m2[k], lo, k as int) && is_run(m2, lo, k as int) by {
        if l <= k <= u {
            if k < u {
                assert(holds(m2, k + 1));
            }
            assert(is_edge(m2[k], l as int, k as int));
        } else {
            assert(m.contains_key(k));
            let lo = choose|lo: int| is_edge(m[k], lo, k as int) && is_run(m, lo, k as int);
            if lo - 1 == v {
                lemma_run_unique(m, v + 1, lo, u as int, k as int);
            }
            assert(is_run(m2, lo, k as int));
        }
    }
}

/// Records a value not seen before: it joins the run ending just below it and
/// the run starting just above it, and the ends of the merged run are marked.
fn record_new_value(consecutives: &mut HashMap<u32, RangeDef>, val: u32)
    requires
        marks_runs(old(consecutives)@),
        !old(consecutives)@.contains_key(val),
    ensures
        marks_runs(final(consecutives)@),
        final(consecutives)@.dom() == old(consecutives)@.dom().insert(val),
{
    let ghost m = consecutives@;
    // `val` is new, so a recorded `val + 1` starts its run and a recorded
    // `val - 1` ends its run: both carry their run's extent.
    let u_bound = if val < u32::MAX {
        match consecutives.get(&(val + 1)) {
            Some(range_def) => match range_def {
                RangeDef::MidRange => val,
                RangeDef::EdgeVal(r) => r.high,
            },
            None => val,
        }
    } else {
        val
    };
    let l_bound = if val == 0 {
        0
    } else {
        match consecutives.get(&(val - 1)) {
            Some(range_def) => match range_def {
                RangeDef::MidRange => val,
                RangeDef::EdgeVal(r) => r.low,
            },
            None => val,
        }
    };
    proof {
        if holds(m, val + 1) {
            lemma_start_mark(m, (val + 1) as u32);
        }
        if holds(m, val - 1) {
            lemma_end_mark(m, (val - 1) as u32);
        }
        if u_bound != val {
            assert(holds(m, u_bound as int));
        }
        if l_bound != val {
            assert(holds(m, l_bound as int));
        }
        if val + 1 < u_bound {
            assert(holds(m, val + 1));
        }
        if 0 < val && l_bound < val - 1 {
            assert(holds(m, val - 1));
        }
    }
    consecutives.insert(u_bound, RangeDef::EdgeVal(RangeInclusive::new(l_bound, u_bound)));
    consecutives.insert(l_bound, RangeDef::EdgeVal(RangeInclusive::new(l_bound, u_bound)));
    if val < u32::MAX && val + 1 < u_bound {
        consecutives.insert(val + 1, RangeDef::MidRange);
    }
    if val > 0 && val - 1 > l_bound {
        consecutives.insert(val - 1, RangeDef::MidRange);
    }
    if val > l_bound && val < u_bound {
        consecutives.insert(val, RangeDef::MidRange);
    }
    proof {
        assert(consecutives@.dom() =~= m.dom().insert(val));
        lemma_merge_keeps_marks(m, consecutives@, val, l_bound, u_bound);
    }
}

/// The smallest non-negative integer that is not among `vals`, found in one pass
/// that coalesces the values seen into maximal runs of consecutive integers.
///
/// A value equal to `u32::MAX` has no right neighbour. The answer fits in a
/// `u32` because a list can only hold all of `0..n` if it has `n` entries.
pub fn get_min_not_in_list_via_hash(vals: &Vec<u32>) -> (r: u32)
    requires
        vals.len() <= u32::MAX,
    ensures
        r == smallest_missing(vals@),
{
    let mut curr_min: u32 = u32::MAX;
    let mut consecutives: HashMap<u32, RangeDef> = HashMap::with_capacity(vals.len());
    let mut i: usize = 0;
    proof {
        lemma_no_marks();
    }
    while i < vals.len()
        invariant
            i <= vals.len(),
            marks_runs(consecutives@),
            forall|x: int| holds(consecutives@, x) <==> occurs(vals@.subrange(0, i as int), x),
            forall|j: int| 0 <= j < i ==> curr_min <= vals[j],
            curr_min == u32::MAX || occurs(vals@.subrange(0, i as int), curr_min as int),
        decreases vals.len() - i,
    {
        let val = vals[i];
        let ghost seen = vals@.subrange(0, i as int);
        let ghost old_min = curr_min;
        proof {
            lemma_occurs_push(seen, val);
            assert(vals@.subrange(0, i + 1) =~= seen.push(val));
        }
        if curr_min > val {
            curr_min = val;
        }
        if !consecutives.contains_key(&val) {
            let ghost m = consecutives@;
            record_new_value(&mut consecutives, val);
            proof {
                assert forall|x: int| holds(consecutives@, x) <==> occurs(seen.push(val), x) by {
                    assert(holds(consecutives@, x) <==> holds(m, x) || x == val);
                    assert(holds(m, x) <==> occurs(seen, x));
                    assert(occurs(seen.push(val), x) <==> occurs(seen, x) || x == val);
                }
            }
        } else {
            proof {
                assert(holds(consecutives@, val as int));
                assert forall|x: int| holds(consecutives@, x) <==> occurs(seen.push(val), x) by {}
            }
        }
        proof {
            if curr_min != u32::MAX {
                if curr_min != val {
                    assert(curr_min == old_min);
                    assert(occurs(seen, curr_min as int));
                } else {
                    assert(seen.push(val)[seen.len() as int] == val);
                }
                assert(occurs(seen.push(val), curr_min as int));
            }
        }
        i += 1;
    }
    proof {
        assert(vals@.subrange(0, vals.len() as int) =~= vals@);
    }
    if curr_min > 0 {
        proof {
            assert(is_smallest_missing(vals@, 0));
            lemma_smallest_missing_unique(vals@, 0);
        }
        0
    } else {
        proof {
            assert(occurs(vals@, 0));
            assert(holds(consecutives@, 0));
            lemma_start_mark(consecutives@, 0);
        }
        match consecutives.get(&0) {
            Some(RangeDef::EdgeVal(r)) => {
                proof {
                            assert forall|k: int| 0 <= k < r.high + 1 implies occurs(vals@, k) by {
                        assert(holds(consecutives@, k));
                    }
                    lemma_covered_prefix_fits(vals@, r.high + 1);
                    assert(is_smallest_missing(vals@, r.high + 1));
                    lemma_smallest_missing_unique(vals@, r.high + 1);
                }
                r.high + 1
            },
            _ => {
                // The run holding 0 starts at 0, so its first value is a boundary.
                proof {
                    assert(false);
                }
                0
            },
        }
    }
}

} // verus!
