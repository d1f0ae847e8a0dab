//! Joint kinds and the bodies a joint connects.
use vstd::prelude::*;

use crate::handles::BodyHandle;

verus! {

/// Stable joint kind used by read-only views and debug outputs.
#[derive(Clone, Copy, Debug, PartialEq, Eq, Structural, Hash)]
pub enum JointKind {
    /// Distance-preserving body pair joint.
    Distance,
    /// Body-to-world anchor joint.
    WorldAnchor,
}

/// The bodies a joint connects, by joint kind.
#[derive(Clone, Copy, Debug, PartialEq, Eq, Structural)]
pub enum JointEndpoints {
    /// A distance joint between two bodies.
    Distance { body_a: BodyHandle, body_b: BodyHandle },
    /// A joint from one body to a fixed world anchor.
    WorldAnchor { body: BodyHandle },
}

/// The distinct bodies of a joint: both bodies of a distance joint unless they are the same
/// body, and the one body of a world-anchor joint.
pub open spec fn joint_bodies_spec(joint: JointEndpoints) -> Seq<BodyHandle> {
    match joint {
        JointEndpoints::Distance { body_a, body_b } => if body_a == body_b {
            seq![body_a]
        } else {
            seq![body_a, body_b]
        },
        JointEndpoints::WorldAnchor { body } => seq![body],
    }
}

impl JointEndpoints {
    /// Returns the stable joint kind.
    pub fn kind(&self) -> (k: JointKind)
        ensures
            k == match *self {
                JointEndpoints::Distance { .. } => JointKind::Distance,
                JointEndpoints::WorldAnchor { .. } => JointKind::WorldAnchor,
            },
    {
        match self {
            JointEndpoints::Distance { .. } => JointKind::Distance,
            JointEndpoints::WorldAnchor { .. } => JointKind::WorldAnchor,
        }
    }

    /// Returns the distinct bodies the joint connects.
    pub fn body_handles(&self) -> (bodies: Vec<BodyHandle>)
        ensures
            bodies@ == joint_bodies_spec(*self),
    {
        match self {
            JointEndpoints::Distance { body_a, body_b } => {
                if *body_a == *body_b {
                    vec![*body_a]
                } else {
                    vec![*body_a, *body_b]
                }
            },
            JointEndpoints::WorldAnchor { body } => vec![*body],
        }
    }
}

} // verus!
