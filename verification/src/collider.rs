//! Collision filtering bits shared by broadphase pairing and queries.
use vstd::prelude::*;

use crate::world::{str_equals, ValidationError};

verus! {

/// Bitmask-based collision filter used by broadphase and queries.
#[derive(Clone, Copy, Debug, PartialEq, Eq, Structural, Hash)]
pub struct CollisionFilter {
    /// Membership bits contributed by this collider.
    pub memberships: u64,
    /// Mask bits that this collider is willing to interact with.
    pub collides_with: u64,
}

/// Two filters interact when each one's memberships meet the other's mask.
pub open spec fn filters_interact(a: CollisionFilter, b: CollisionFilter) -> bool {
    (a.memberships & b.collides_with) != 0 && (b.memberships & a.collides_with) != 0
}

impl CollisionFilter {
    /// Returns `true` when two filters may interact.
    pub fn allows(&self, other: &Self) -> (r: bool)
        ensures
            r == filters_interact(*self, *other),
    {
        (self.memberships & other.collides_with) != 0 && (other.memberships & self.collides_with)
            != 0
    }
}

impl Default for CollisionFilter {
    /// The fully permissive filter: every bit set in both masks.
    fn default() -> (r: Self)
        ensures
            r.memberships == u64::MAX,
            r.collides_with == u64::MAX,
    {
        CollisionFilter { memberships: u64::MAX, collides_with: u64::MAX }
    }
}

/// Interaction is symmetric: `a` allows `b` exactly when `b` allows `a`.
pub proof fn lemma_filters_interact_symmetric(a: CollisionFilter, b: CollisionFilter)
    ensures
        filters_interact(a, b) == filters_interact(b, a),
{
}

/// A filter with no membership bits, or with an empty mask, interacts with nothing.
pub proof fn lemma_empty_filter_interacts_with_nothing(a: CollisionFilter, b: CollisionFilter)
    requires
        a.memberships == 0 || a.collides_with == 0,
    ensures
        !filters_interact(a, b),
{
    assert(0u64 & b.collides_with == 0) by (bit_vector);
    assert(b.memberships & 0u64 == 0) by (bit_vector);
}

/// The fully permissive filter interacts with every filter that has a membership bit
/// in common with its own mask and some mask bit at all.
pub proof fn lemma_default_filter_interacts(b: CollisionFilter)
    requires
        b.memberships != 0,
        b.collides_with != 0,
    ensures
        filters_interact(
            CollisionFilter { memberships: u64::MAX, collides_with: u64::MAX },
            b,
        ),
{
    let m = b.memberships;
    let c = b.collides_with;
    assert(c != 0 ==> 0xffff_ffff_ffff_ffffu64 & c != 0) by (bit_vector);
    assert(m != 0 ==> m & 0xffff_ffff_ffff_ffffu64 != 0) by (bit_vector);
}

/// The error reported when derived mass properties are invalid: a patch error for the
/// `"patch"` scope and a descriptor error otherwise.
pub fn collider_mass_properties_error(field_scope: &str) -> (e: ValidationError)
    ensures
        field_scope@ == "patch"@ ==> e == (ValidationError::ColliderPatch {
            field: "mass_properties",
        }),
        field_scope@ != "patch"@ ==> e == (ValidationError::ColliderDesc {
            field: "mass_properties",
        }),
{
    if str_equals(field_scope, "patch") {
        ValidationError::ColliderPatch { field: "mass_properties" }
    } else {
        ValidationError::ColliderDesc { field: "mass_properties" }
    }
}

} // verus!
