//! The extent of a list of keys, used to size a chart's axes.
use vstd::prelude::*;

verus! {

/// The least and the greatest of `keys`, or `None` when there are none.
pub fn key_range(keys: &Vec<u64>) -> (r: Option<(u64, u64)>)
    ensures
        r is None <==> keys.len() == 0,
        r matches Some((lo, hi)) ==> {
            &&& keys@.contains(lo)
            &&& keys@.contains(hi)
            &&& forall|i: int| 0 <= i < keys.len() ==> lo <= #[trigger] keys[i] <= hi
        },
{
    if keys.len() == 0 {
        return None;
    }
    let mut lo: u64 = keys[0];
    let mut hi: u64 = keys[0];
    let mut i: usize = 1;
    while i < keys.len()
        invariant
            1 <= i <= keys.len(),
            keys@.contains(lo),
            keys@.contains(hi),
            forall|j: int| 0 <= j < i ==> lo <= #[trigger] keys[j] <= hi,
        decreases keys.len() - i,
    {
        if keys[i] < lo {
            lo = keys[i];
        }
        if keys[i] > hi {
            hi = keys[i];
        }
        i += 1;
    }
    Some((lo, hi))
}

} // verus!
