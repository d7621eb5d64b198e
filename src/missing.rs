//! What "the smallest missing value" of a list is, and the facts about it that
//! both algorithms rely on.
use vstd::prelude::*;
use vstd::set_lib::*;

verus! {

/// `x` is one of the values of `s`.
pub open spec fn occurs(s: Seq<u32>, x: int) -> bool {
    exists|i: int| 0 <= i < s.len() && s[i] as int == x
}

/// `n` is absent from `s`, and every non-negative integer below `n` occurs in it.
pub open spec fn is_smallest_missing(s: Seq<u32>, n: int) -> bool {
    &&& 0 <= n
    &&& !occurs(s, n)
    &&& forall|k: int| 0 <= k < n ==> occurs(s, k)
}

/// The smallest non-negative integer that is not a value of `s`.
pub open spec fn smallest_missing(s: Seq<u32>) -> int {
    choose|n: int| is_smallest_missing(s, n)
}

/// A list that holds every integer of `0..n` has at least `n` entries.
pub proof fn lemma_covered_prefix_fits(s: Seq<u32>, n: int)
    requires
        0 <= n,
        forall|k: int| 0 <= k < n ==> occurs(s, k),
    ensures
        n <= s.len(),
{
    broadcast use vstd::seq_lib::group_seq_properties;

    let values = s.map_values(|x: u32| x as int);
    let range = set_int_range(0, n);
    assert forall|k: int| range.contains(k) implies values.to_set().contains(k) by {
        assert(0 <= k < n);
        assert(occurs(s, k));
        let i = choose|i: int| 0 <= i < s.len() && s[i] as int == k;
        assert(values[i] == k);
        assert(values.contains(k));
    }
    values.lemma_cardinality_of_set();
    lemma_int_range(0, n);
    lemma_len_subset(range, values.to_set());
}

/// Only one integer can be the smallest missing value of a list.
pub proof fn lemma_smallest_missing_unique(s: Seq<u32>, n: int)
    requires
        is_smallest_missing(s, n),
    ensures
        smallest_missing(s) == n,
{
    lemma_smallest_missing_exists(s);
    let m = smallest_missing(s);
    if m < n {
        assert(occurs(s, m));
    } else if n < m {
        assert(occurs(s, n));
    }
}

/// Every list has a smallest missing value, and it is at most the list's length.
pub proof fn lemma_smallest_missing_exists(s: Seq<u32>)
    ensures
        is_smallest_missing(s, smallest_missing(s)),
        smallest_missing(s) <= s.len(),
{
    let n = lemma_search_from(s, 0);
    lemma_covered_prefix_fits(s, n);
    let m = smallest_missing(s);
    if m < n {
        assert(occurs(s, m));
    } else if n < m {
        assert(occurs(s, n));
    }
}

/// Counting up from `n`, below which everything occurs, reaches a missing value.
proof fn lemma_search_from(s: Seq<u32>, n: int) -> (m: int)
    requires
        0 <= n,
        forall|k: int| 0 <= k < n ==> occurs(s, k),
    ensures
        is_smallest_missing(s, m),
    decreases s.len() + 1 - n,
{
    lemma_covered_prefix_fits(s, n);
    if occurs(s, n) {
        lemma_covered_prefix_fits(s, n + 1);
        lemma_search_from(s, n + 1)
    } else {
        n
    }
}

/// Appending `v` to a list adds exactly `v` to the values that occur in it.
pub proof fn lemma_occurs_push(s: Seq<u32>, v: u32)
    ensures
        forall|x: int| occurs(s.push(v), x) <==> occurs(s, x) || x == v,
{
    assert forall|x: int| occurs(s.push(v), x) <==> occurs(s, x) || x == v by {
        if occurs(s, x) {
            let i = choose|i: int| 0 <= i < s.len() && s[i] as int == x;
            assert(s.push(v)[i] == s[i]);
        }
        if x == v {
            assert(s.push(v)[s.len() as int] == v);
        }
        if occurs(s.push(v), x) && x != v {
            let i = choose|i: int| 0 <= i < s.len() + 1 && s.push(v)[i] as int == x;
            assert(s[i] == s.push(v)[i]);
        }
    }
}

/// Two lists with the same elements, counted with multiplicity, have the same values.
pub proof fn lemma_occurs_same_elements(s: Seq<u32>, t: Seq<u32>)
    requires
        s.to_multiset() == t.to_multiset(),
    ensures
        forall|x: int| occurs(s, x) <==> occurs(t, x),
{
    s.to_multiset_ensures();
    t.to_multiset_ensures();
    assert forall|x: int| occurs(s, x) implies occurs(t, x) by {
        let i = choose|i: int| 0 <= i < s.len() && s[i] as int == x;
        assert(s.contains(s[i]));
        assert(s.to_multiset().count(s[i]) > 0);
        assert(t.contains(s[i]));
        let j = choose|j: int| 0 <= j < t.len() && t[j] == s[i];
        assert(t[j] as int == x);
    }
    assert forall|x: int| occurs(t, x) implies occurs(s, x) by {
        let i = choose|i: int| 0 <= i < t.len() && t[i] as int == x;
        assert(t.contains(t[i]));
        assert(t.to_multiset().count(t[i]) > 0);
        assert(s.contains(t[i]));
        let j = choose|j: int| 0 <= j < s.len() && s[j] == t[i];
        assert(s[j] as int == x);
    }
}

/// Lists with the same values have the same smallest missing value.
proof fn lemma_same_values(s: Seq<u32>, t: Seq<u32>)
    requires
        forall|x: int| occurs(s, x) <==> occurs(t, x),
    ensures
        smallest_missing(s) == smallest_missing(t),
{
    lemma_smallest_missing_exists(s);
    assert(is_smallest_missing(t, smallest_missing(s)));
    lemma_smallest_missing_unique(t, smallest_missing(s));
}

/// The empty list misses `0`.
pub proof fn lemma_empty_misses_zero()
    ensures
        smallest_missing(Seq::<u32>::empty()) == 0,
{
    assert(is_smallest_missing(Seq::<u32>::empty(), 0));
    lemma_smallest_missing_unique(Seq::<u32>::empty(), 0);
}

/// A list of one value `v` misses `1` when `v` is `0`, and `0` otherwise.
pub proof fn lemma_single_value(v: u32)
    ensures
        smallest_missing(seq![v]) == if v == 0 { 1int } else { 0int },
{
    let s = seq![v];
    if v == 0 {
        assert(occurs(s, 0)) by {
            assert(s[0] == 0);
        }
        assert(is_smallest_missing(s, 1));
        lemma_smallest_missing_unique(s, 1);
    } else {
        assert(is_smallest_missing(s, 0));
        lemma_smallest_missing_unique(s, 0);
    }
}

/// Repeating a list after itself does not change its smallest missing value.
pub proof fn lemma_duplication_invariant(s: Seq<u32>)
    ensures
        smallest_missing(s + s) == smallest_missing(s),
{
    assert forall|x: int| occurs(s + s, x) <==> occurs(s, x) by {
        if occurs(s, x) {
            let i = choose|i: int| 0 <= i < s.len() && s[i] as int == x;
            assert((s + s)[i] == s[i]);
        }
        if occurs(s + s, x) {
            let i = choose|i: int| 0 <= i < 2 * s.len() && (s + s)[i] as int == x;
            if i < s.len() {
                assert((s + s)[i] == s[i]);
            } else {
                assert((s + s)[i] == s[i - s.len()]);
            }
        }
    }
    lemma_same_values(s + s, s);
}

/// Rearranging a list does not change its smallest missing value: lists with
/// the same elements, counted with multiplicity, have the same answer.
pub proof fn lemma_order_invariant(s: Seq<u32>, t: Seq<u32>)
    requires
        s.to_multiset() == t.to_multiset(),
    ensures
        smallest_missing(s) == smallest_missing(t),
{
    lemma_occurs_same_elements(s, t);
    lemma_same_values(s, t);
}

} // verus!
