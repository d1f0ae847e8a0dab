//! Normalized collider pairs for contact caches.
use vstd::prelude::*;

use crate::handles::ColliderHandle;

verus! {

/// The pair with the smaller handle first.
pub open spec fn ordered_pair_spec(a: ColliderHandle, b: ColliderHandle) -> (
    ColliderHandle,
    ColliderHandle,
) {
    if a@ <= b@ {
        (a, b)
    } else {
        (b, a)
    }
}

/// Orders a collider pair so that the smaller handle comes first.
pub fn ordered_pair(a: ColliderHandle, b: ColliderHandle) -> (r: (ColliderHandle, ColliderHandle))
    ensures
        r == ordered_pair_spec(a, b),
{
    if a.raw() <= b.raw() {
        (a, b)
    } else {
        (b, a)
    }
}

/// Ordering a pair forgets which collider came first: both orders give the same key, whose
/// first handle is no larger than its second.
pub proof fn lemma_ordered_pair_symmetric(a: ColliderHandle, b: ColliderHandle)
    ensures
        ordered_pair_spec(a, b) == ordered_pair_spec(b, a),
        ordered_pair_spec(a, b).0@ <= ordered_pair_spec(a, b).1@,
{
    if a@ == b@ {
        ColliderHandle::lemma_view_eq(a, b);
    }
}

} // verus!
