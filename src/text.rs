//! Small string helpers.
use vstd::prelude::*;
use vstd::string::StringExecFns;

verus! {

/// `a` followed by `b`, as a new string.
pub fn concat_str(a: &str, b: &str) -> (r: String)
    ensures
        r@ == a@ + b@,
{
    let mut out = String::from_str(a);
    out.append(b);
    out
}

} // verus!
