//! The sort-based baseline: sort a copy, then walk it up to the first gap.
use vstd::prelude::*;

use crate::missing::{
    is_smallest_missing, lemma_occurs_same_elements, lemma_smallest_missing_exists,
    lemma_smallest_missing_unique, occurs, smallest_missing,
};

verus! {

/// The elements of `t` never decrease.
pub open spec fn ascending(t: Seq<u32>) -> bool {
    forall|i: int, j: int| 0 <= i <= j < t.len() ==> t[i] <= t[j]
}

/// Walking the ascending list `t` from index `i` while each step rises by at
/// most one: the element where the walk stops.
pub open spec fn walk_end(t: Seq<u32>, i: int) -> int
    decreases t.len() - i,
{
    if 0 <= i && i + 1 < t.len() && t[i + 1] - t[i] <= 1 {
        walk_end(t, i + 1)
    } else {
        t[i] as int
    }
}

/// What the baseline reads off an ascending list: `0` when it is empty or does
/// not start at `0`, else one past the element before its first gap wider than one.
pub open spec fn gap_scan(t: Seq<u32>) -> int {
    if t.len() == 0 || t[0] > 0 {
        0
    } else {
        walk_end(t, 0) + 1
    }
}

/// Walking from index `i`, where everything up to `t[i]` occurs, stops at an
/// element `e` such that everything up to `e` occurs and `e + 1` does not.
proof fn lemma_walk_end(t: Seq<u32>, i: int)
    requires
        ascending(t),
        0 <= i < t.len(),
        forall|k: int| 0 <= k <= t[i] ==> occurs(t, k),
    ensures
        t[i] <= walk_end(t, i),
        forall|k: int| 0 <= k <= walk_end(t, i) ==> occurs(t, k),
        !occurs(t, walk_end(t, i) + 1),
    decreases t.len() - i,
{
    if i + 1 < t.len() && t[i + 1] - t[i] <= 1 {
        assert forall|k: int| 0 <= k <= t[i + 1] implies occurs(t, k) by {
            if k > t[i] {
                assert(t[i + 1] as int == k);
            }
        }
        lemma_walk_end(t, i + 1);
    } else {
        assert forall|j: int| 0 <= j < t.len() implies t[j] as int != t[i] + 1 by {
            if j > i {
                assert(t[i + 1] <= t[j]);
            }
        }
    }
}

/// The baseline agrees with the coalescer: for every list `s`, the gap scan of
/// any ascending arrangement of `s` is the smallest value missing from `s`.
pub proof fn lemma_gap_scan_is_smallest_missing(s: Seq<u32>, t: Seq<u32>)
    requires
        ascending(t),
        t.to_multiset() == s.to_multiset(),
    ensures
        gap_scan(t) == smallest_missing(s),
{
    lemma_occurs_same_elements(s, t);
    if t.len() == 0 || t[0] > 0 {
        assert forall|j: int| 0 <= j < t.len() implies t[j] != 0 by {
            assert(t[0] <= t[j]);
        }
        assert(!occurs(t, 0));
    } else {
        lemma_walk_end(t, 0);
    }
    assert(is_smallest_missing(t, gap_scan(t)));
    assert(is_smallest_missing(s, gap_scan(t)));
    lemma_smallest_missing_unique(s, gap_scan(t));
}

/// Relies on `slice::sort`: the elements end in ascending order, each kept as
/// often as it was there.
#[verifier::external_body]
fn sort_ascending(v: &mut Vec<u32>)
    ensures
        final(v)@.to_multiset() == old(v)@.to_multiset(),
        ascending(final(v)@),
{
    v.sort();
}

/// The smallest non-negative integer that is not among `vals`, found by
/// sorting a copy and walking it up to the first gap.
pub fn get_min_not_in_list_via_sort(vals: &Vec<u32>) -> (r: u32)
    requires
        vals.len() <= u32::MAX,
    ensures
        r == smallest_missing(vals@),
{
    let mut sorted = vals.clone();
    sort_ascending(&mut sorted);
    proof {
        lemma_gap_scan_is_smallest_missing(vals@, sorted@);
        lemma_smallest_missing_exists(vals@);
    }
    if sorted.len() == 0 || sorted[0] > 0 {
        0
    } else {
        let mut i: usize = 0;
        while i + 1 < sorted.len() && sorted[i + 1] - sorted[i] <= 1
            invariant
                i < sorted.len(),
                ascending(sorted@),
                walk_end(sorted@, i as int) == walk_end(sorted@, 0),
            decreases sorted.len() - i,
        {
            i += 1;
        }
        sorted[i] + 1
    }
}

} // verus!
