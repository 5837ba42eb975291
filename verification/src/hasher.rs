//! What the tree asks of the two-to-one combiner that it is built with.

use vstd::prelude::*;

verus! {

/// The function that a combiner computes: for each pair of arguments, the
/// one result that its contract allows.
pub open spec fn hash_fn_of<F, H: Fn(F, F) -> F>(h: H) -> spec_fn(F, F) -> F {
    |left: F, right: F| choose|out: F| h.ensures((left, right), out)
}

/// A combiner is usable where it accepts every pair of elements and its
/// contract fixes the result for each pair: it is a total, deterministic
/// function.
pub open spec fn is_hash_fn<F, H: Fn(F, F) -> F>(h: H) -> bool {
    &&& forall|left: F, right: F| #[trigger] h.requires((left, right))
    &&& forall|left: F, right: F, a: F, b: F|
        #![trigger h.ensures((left, right), a), h.ensures((left, right), b)]
        h.ensures((left, right), a) && h.ensures((left, right), b) ==> a == b
}

/// Calls the combiner and names its result.
pub fn combine<F, H: Fn(F, F) -> F>(h: &H, left: F, right: F) -> (out: F)
    requires
        is_hash_fn(*h),
    ensures
        out == hash_fn_of(*h)(left, right),
{
    let out = h(left, right);
    out
}

} // verus!
