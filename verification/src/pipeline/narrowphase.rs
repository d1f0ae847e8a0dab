//! Stable contact feature identities.
use vstd::prelude::*;

use crate::events::{GenericConvexFallbackReason, GenericConvexTrace};
use crate::handles::{packed, ContactFeatureId};

verus! {

/// The slot-index part of a contact feature id: the contact kind in the top byte, the
/// reference edge in the next 12 bits and the incident edge in the low 12 bits, each
/// truncated to 32 bits first.
pub open spec fn feature_index(kind: usize, reference_edge: usize, incident_edge: usize) -> u32 {
    ((kind as u32) << 24u32) | ((reference_edge as u32) << 12u32) | (incident_edge as u32)
}

/// Builds the stable feature id of one contact point.
pub fn feature_id(
    kind: usize,
    reference_edge: usize,
    incident_edge: usize,
    point_slot: usize,
) -> (id: ContactFeatureId)
    ensures
        id@ == packed(
            feature_index(kind, reference_edge, incident_edge),
            #[verifier::truncate] (point_slot as u32),
        ),
{
    let k = kind as u32;
    let r = reference_edge as u32;
    let i = incident_edge as u32;
    ContactFeatureId::from_raw_parts((k << 24u32) | (r << 12u32) | i, point_slot as u32)
}

/// Within the field widths, the feature index is the sum of the shifted fields, so distinct
/// (kind, reference edge, incident edge) triples give distinct indices.
pub proof fn lemma_feature_index_fields(kind: u32, reference_edge: u32, incident_edge: u32)
    requires
        kind < 256,
        reference_edge < 4096,
        incident_edge < 4096,
    ensures
        (kind << 24u32) | (reference_edge << 12u32) | incident_edge == kind * 0x100_0000
            + reference_edge * 0x1000 + incident_edge,
        ((kind << 24u32) | (reference_edge << 12u32) | incident_edge) >> 24u32 == kind,
        (((kind << 24u32) | (reference_edge << 12u32) | incident_edge) >> 12u32) & 0xfffu32
            == reference_edge,
        ((kind << 24u32) | (reference_edge << 12u32) | incident_edge) & 0xfffu32 == incident_edge,
{
    assert((kind << 24u32) | (reference_edge << 12u32) | incident_edge == kind * 0x100_0000
        + reference_edge * 0x1000 + incident_edge) by (bit_vector)
        requires
            kind < 256,
            reference_edge < 4096,
            incident_edge < 4096,
    ;
    assert(((kind << 24u32) | (reference_edge << 12u32) | incident_edge) >> 24u32 == kind)
        by (bit_vector)
        requires
            kind < 256,
            reference_edge < 4096,
            incident_edge < 4096,
    ;
    assert((((kind << 24u32) | (reference_edge << 12u32) | incident_edge) >> 12u32) & 0xfffu32
        == reference_edge) by (bit_vector)
        requires
            kind < 256,
            reference_edge < 4096,
            incident_edge < 4096,
    ;
    assert(((kind << 24u32) | (reference_edge << 12u32) | incident_edge) & 0xfffu32
        == incident_edge) by (bit_vector)
        requires
            kind < 256,
            reference_edge < 4096,
            incident_edge < 4096,
    ;
}

/// Returns the smaller of two feature ids.
pub fn min_feature_id(a: ContactFeatureId, b: ContactFeatureId) -> (r: ContactFeatureId)
    ensures
        r == if a@ <= b@ {
            a
        } else {
            b
        },
{
    if a.raw() <= b.raw() {
        a
    } else {
        b
    }
}

/// The smaller feature id is one of the two, no larger than either, and does not depend on
/// the argument order.
pub proof fn lemma_min_feature_id(a: ContactFeatureId, b: ContactFeatureId)
    ensures
        (if a@ <= b@ {
            a
        } else {
            b
        })@ <= a@,
        (if a@ <= b@ {
            a
        } else {
            b
        })@ <= b@,
        (if a@ <= b@ {
            a
        } else {
            b
        })@ == (if b@ <= a@ {
            b
        } else {
            a
        })@,
{
}

/// The kind of a collider shape, without its geometry.
#[derive(Clone, Copy, Debug, PartialEq, Eq, Structural)]
pub enum ShapeKind {
    /// A circle.
    Circle,
    /// An axis-aligned rectangle in local space.
    Rect,
    /// A regular polygon.
    RegularPolygon,
    /// A convex polygon.
    ConvexPolygon,
    /// A concave polygon.
    ConcavePolygon,
    /// A line segment.
    Segment,
}

/// The number a shape kind contributes to feature ids.
pub open spec fn shape_kind_number(kind: ShapeKind) -> usize {
    match kind {
        ShapeKind::Circle => 0,
        ShapeKind::Rect => 1,
        ShapeKind::RegularPolygon => 2,
        ShapeKind::ConvexPolygon => 3,
        ShapeKind::ConcavePolygon => 4,
        ShapeKind::Segment => 5,
    }
}

/// Returns the number a shape kind contributes to feature ids.
pub fn shape_feature_kind(kind: ShapeKind) -> (n: usize)
    ensures
        n == shape_kind_number(kind),
{
    match kind {
        ShapeKind::Circle => 0,
        ShapeKind::Rect => 1,
        ShapeKind::RegularPolygon => 2,
        ShapeKind::ConvexPolygon => 3,
        ShapeKind::ConcavePolygon => 4,
        ShapeKind::Segment => 5,
    }
}

/// The feature id of a contact from the generic convex fallback: contact kind 7 when the
/// EPA failure was contained and 6 otherwise, the two shape kinds as edges, point slot 0.
pub fn generic_convex_feature_id(
    shape_a: ShapeKind,
    shape_b: ShapeKind,
    trace: GenericConvexTrace,
) -> (id: ContactFeatureId)
    ensures
        id@ == packed(
            feature_index(
                if trace.fallback_reason == GenericConvexFallbackReason::EpaFailureContained {
                    7
                } else {
                    6
                },
                shape_kind_number(shape_a),
                shape_kind_number(shape_b),
            ),
            0,
        ),
{
    let kind = match trace.fallback_reason {
        GenericConvexFallbackReason::EpaFailureContained => 7,
        _ => 6,
    };
    feature_id(kind, shape_feature_kind(shape_a), shape_feature_kind(shape_b), 0)
}

} // verus!
