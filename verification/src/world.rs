//! Errors reported by world operations.
use vstd::prelude::*;

use crate::handles::BodyHandle;

verus! {

/// A descriptor or patch field failed validation.
#[derive(Clone, Copy, Debug, PartialEq, Eq)]
pub enum ValidationError {
    /// A body descriptor field is invalid.
    BodyDesc { field: &'static str },
    /// A body patch field is invalid.
    BodyPatch { field: &'static str },
    /// A collider descriptor field is invalid.
    ColliderDesc { field: &'static str },
    /// A collider patch field is invalid.
    ColliderPatch { field: &'static str },
}

/// A handle did not resolve to a live world entry.
#[derive(Clone, Copy, Debug, PartialEq, Eq, Structural)]
pub enum HandleError {
    /// The body handle names no live body.
    MissingBody { handle: BodyHandle },
}

/// Any error reported by a world operation.
#[derive(Clone, Copy, Debug, PartialEq, Eq)]
pub enum WorldError {
    /// A handle did not resolve.
    Handle(HandleError),
    /// An input failed validation.
    Validation(ValidationError),
}

/// Returns whether two strings hold the same characters.
pub fn str_equals(a: &str, b: &str) -> (r: bool)
    ensures
        r == (a@ == b@),
{
    let n = a.unicode_len();
    if n != b.unicode_len() {
        return false;
    }
    let mut i: usize = 0;
    while i < n
        invariant
            0 <= i <= n,
            n == a@.len(),
            n == b@.len(),
            forall|j: int| 0 <= j < i ==> a@[j] == b@[j],
        decreases n - i,
    {
        if a.get_char(i) != b.get_char(i) {
            return false;
        }
        i = i + 1;
    }
    proof {
        assert(a@ =~= b@);
    }
    true
}

} // verus!
