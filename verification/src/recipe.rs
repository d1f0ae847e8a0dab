//! Named collision-layer presets and the structured results of batch world commands.
use vstd::prelude::*;

use crate::collider::{filters_interact, CollisionFilter};
use crate::handles::{BodyHandle, ColliderHandle, JointHandle};
use crate::pipeline::island::JointSolveInput;
use crate::world::{HandleError, WorldError};

verus! {

/// Named material presets for scenario recipes and examples.
#[derive(Clone, Copy, Debug, PartialEq, Eq, Structural, Hash)]
pub enum MaterialPreset {
    /// Matches the default material.
    Default,
    /// Low-friction surface.
    Ice,
    /// Higher-friction surface for stack and resting-contact scenes.
    Rough,
    /// Restitution-heavy material for bounce examples.
    Bouncy,
    /// Very high friction and no bounce.
    Sticky,
}

impl Default for MaterialPreset {
    fn default() -> (r: Self)
        ensures
            r == MaterialPreset::Default,
    {
        MaterialPreset::Default
    }
}

/// Common collision layer bits used by recipe presets.
pub struct CollisionLayers;

impl CollisionLayers {
    /// Static level geometry such as floors and walls.
    pub const STATIC_GEOMETRY: u64 = 1;
    /// Dynamic simulated bodies.
    pub const DYNAMIC_BODY: u64 = 2;
    /// Sensor-only trigger colliders.
    pub const SENSOR: u64 = 4;
    /// Query-only helper colliders.
    pub const QUERY_ONLY: u64 = 8;
    /// All current and future layer bits.
    pub const ALL: u64 = 0xffff_ffff_ffff_ffff;
}

/// Named collision-layer presets for recipes and example scenes.
#[derive(Clone, Copy, Debug, PartialEq, Eq, Structural, Hash)]
pub enum CollisionLayerPreset {
    /// Fully permissive filter, matching the default filter.
    Default,
    /// Static geometry collides with dynamic bodies and sensors.
    StaticGeometry,
    /// Dynamic bodies collide with static and dynamic geometry.
    DynamicBody,
    /// Filter bits commonly used by trigger colliders.
    Sensor,
    /// Query helpers do not participate in default simulation pairs.
    QueryOnly,
}

impl Default for CollisionLayerPreset {
    fn default() -> (r: Self)
        ensures
            r == CollisionLayerPreset::Default,
    {
        CollisionLayerPreset::Default
    }
}

/// The filter bits of each layer preset.
pub open spec fn preset_filter(preset: CollisionLayerPreset) -> CollisionFilter {
    match preset {
        CollisionLayerPreset::Default => CollisionFilter {
            memberships: 0xffff_ffff_ffff_ffff,
            collides_with: 0xffff_ffff_ffff_ffff,
        },
        CollisionLayerPreset::StaticGeometry => CollisionFilter {
            memberships: 1,
            collides_with: 6u64,
        },
        CollisionLayerPreset::DynamicBody => CollisionFilter {
            memberships: 2,
            collides_with: 7u64,
        },
        CollisionLayerPreset::Sensor => CollisionFilter {
            memberships: 4,
            collides_with: 7u64,
        },
        CollisionLayerPreset::QueryOnly => CollisionFilter { memberships: 8, collides_with: 0 },
    }
}

impl CollisionFilter {
    /// Builds a filter from explicit bitmasks.
    pub fn from_bits(memberships: u64, collides_with: u64) -> (r: Self)
        ensures
            r.memberships == memberships,
            r.collides_with == collides_with,
    {
        CollisionFilter { memberships, collides_with }
    }

    /// Converts a named layer preset into concrete collision bitmasks.
    pub fn preset(preset: CollisionLayerPreset) -> (r: Self)
        ensures
            r == preset_filter(preset),
    {
        assert(2u64 | 4u64 == 6u64) by (bit_vector);
        assert(1u64 | 2u64 | 4u64 == 7u64) by (bit_vector);
        match preset {
            CollisionLayerPreset::Default => CollisionFilter {
                memberships: CollisionLayers::ALL,
                collides_with: CollisionLayers::ALL,
            },
            CollisionLayerPreset::StaticGeometry => CollisionFilter {
                memberships: CollisionLayers::STATIC_GEOMETRY,
                collides_with: CollisionLayers::DYNAMIC_BODY | CollisionLayers::SENSOR,
            },
            CollisionLayerPreset::DynamicBody => CollisionFilter {
                memberships: CollisionLayers::DYNAMIC_BODY,
                collides_with: CollisionLayers::STATIC_GEOMETRY | CollisionLayers::DYNAMIC_BODY
                    | CollisionLayers::SENSOR,
            },
            CollisionLayerPreset::Sensor => CollisionFilter {
                memberships: CollisionLayers::SENSOR,
                collides_with: CollisionLayers::STATIC_GEOMETRY | CollisionLayers::DYNAMIC_BODY
                    | CollisionLayers::SENSOR,
            },
            CollisionLayerPreset::QueryOnly => CollisionFilter {
                memberships: CollisionLayers::QUERY_ONLY,
                collides_with: 0,
            },
        }
    }
}

/// The documented preset interactions: static geometry meets dynamic bodies and sensors but
/// not other static geometry; dynamic bodies meet each other; sensors meet sensors; query
/// helpers meet no preset at all.
pub proof fn lemma_preset_interactions(p: CollisionLayerPreset)
    ensures
        filters_interact(
            preset_filter(CollisionLayerPreset::StaticGeometry),
            preset_filter(CollisionLayerPreset::DynamicBody),
        ),
        filters_interact(
            preset_filter(CollisionLayerPreset::StaticGeometry),
            preset_filter(CollisionLayerPreset::Sensor),
        ),
        !filters_interact(
            preset_filter(CollisionLayerPreset::StaticGeometry),
            preset_filter(CollisionLayerPreset::StaticGeometry),
        ),
        filters_interact(
            preset_filter(CollisionLayerPreset::DynamicBody),
            preset_filter(CollisionLayerPreset::DynamicBody),
        ),
        filters_interact(
            preset_filter(CollisionLayerPreset::Sensor),
            preset_filter(CollisionLayerPreset::Sensor),
        ),
        !filters_interact(preset_filter(CollisionLayerPreset::QueryOnly), preset_filter(p)),
{
    assert((1u64 & 7u64) != 0) by (bit_vector);
    assert((2u64 & 6u64) != 0) by (bit_vector);
    assert((4u64 & 6u64) != 0) by (bit_vector);
    assert((1u64 & 6u64) == 0) by (bit_vector);
    assert((2u64 & 7u64) != 0) by (bit_vector);
    assert((4u64 & 7u64) != 0) by (bit_vector);
    let m = preset_filter(p).memberships;
    assert(m & 0u64 == 0) by (bit_vector);
}

/// Stable command kind attached to command errors.
#[derive(Clone, Copy, Debug, PartialEq, Eq, Structural, Hash)]
pub enum WorldCommandKind {
    /// Body creation failed.
    CreateBody,
    /// Nested collider creation failed.
    CreateCollider,
    /// Joint creation failed.
    CreateJoint,
    /// Body patch failed.
    PatchBody,
    /// Collider patch failed.
    PatchCollider,
    /// Joint patch failed.
    PatchJoint,
    /// Body destroy failed.
    DestroyBody,
    /// Collider destroy failed.
    DestroyCollider,
    /// Joint destroy failed.
    DestroyJoint,
}

/// Structured command failure.
#[derive(Clone, Copy, Debug, PartialEq, Eq)]
pub struct WorldCommandError {
    /// Index of the top-level command in the rejected batch.
    pub command_index: usize,
    /// Nested collider index for body bundle collider failures.
    pub collider_index: Option<usize>,
    /// Command kind that failed.
    pub kind: WorldCommandKind,
    /// Underlying world validation or handle error.
    pub error: WorldError,
}

/// Structured command event returned by successful batch commands.
#[derive(Clone, Copy, Debug, PartialEq, Eq, Structural, Hash)]
pub enum WorldCommandEvent {
    /// A body was created.
    BodyCreated { body: BodyHandle },
    /// A collider was created and attached to a body.
    ColliderCreated { body: BodyHandle, collider: ColliderHandle },
    /// A joint was created.
    JointCreated { joint: JointHandle },
    /// A body was patched.
    BodyPatched { body: BodyHandle },
    /// A collider was patched.
    ColliderPatched { collider: ColliderHandle },
    /// A joint was patched.
    JointPatched { joint: JointHandle },
    /// A body was destroyed.
    BodyDestroyed { body: BodyHandle },
    /// A collider was destroyed.
    ColliderDestroyed { collider: ColliderHandle },
    /// A joint was destroyed.
    JointDestroyed { joint: JointHandle },
}

/// Structured success report returned by batch commands.
#[derive(Clone, Debug, PartialEq, Eq)]
pub struct WorldCommandReport {
    /// Body handles created by the batch, in creation order.
    pub body_handles: Vec<BodyHandle>,
    /// Collider handles created by nested bundles, in creation order.
    pub collider_handles: Vec<ColliderHandle>,
    /// Joint handles created by the batch, in creation order.
    pub joint_handles: Vec<JointHandle>,
    /// High-level command events in application order.
    pub events: Vec<WorldCommandEvent>,
}

impl Default for WorldCommandReport {
    /// An empty report.
    fn default() -> (r: Self)
        ensures
            r.body_handles@.len() == 0,
            r.collider_handles@.len() == 0,
            r.joint_handles@.len() == 0,
            r.events@.len() == 0,
    {
        WorldCommandReport {
            body_handles: Vec::new(),
            collider_handles: Vec::new(),
            joint_handles: Vec::new(),
            events: Vec::new(),
        }
    }
}

/// Builds a command error from its parts.
pub fn command_error(
    command_index: usize,
    collider_index: Option<usize>,
    kind: WorldCommandKind,
    error: WorldError,
) -> (e: WorldCommandError)
    ensures
        e == (WorldCommandError { command_index, collider_index, kind, error }),
{
    WorldCommandError { command_index, collider_index, kind, error }
}

/// Resolves a recipe body index to the handle created for it; an index past the created
/// bodies reports a missing body with the sentinel handle.
pub fn resolve_recipe_body(index: usize, body_handles: &[BodyHandle]) -> (r: Result<
    BodyHandle,
    WorldError,
>)
    ensures
        index < body_handles@.len() ==> r == Ok::<BodyHandle, WorldError>(body_handles@[index as int]),
        index >= body_handles@.len() ==> (r matches Err(
            WorldError::Handle(HandleError::MissingBody { handle }),
        ) && handle@ == crate::handles::INVALID_RAW),
{
    if index < body_handles.len() {
        Ok(body_handles[index])
    } else {
        Err(WorldError::Handle(HandleError::MissingBody { handle: BodyHandle::invalid() }))
    }
}


/// A joint of a recipe whose bodies are named by their index among the recipe's bodies;
/// `D` and `W` are the distance and world-anchor joint descriptions.
pub enum JointBundle<D, W> {
    /// A distance joint between two recipe bodies.
    Distance { body_a: usize, body_b: usize, desc: D },
    /// A world-anchor joint attached to one recipe body.
    WorldAnchor { body: usize, desc: W },
}

/// The outcome of resolving a recipe joint against the handles created for the recipe's
/// bodies: each index becomes its handle, and the first index past the created bodies
/// (the first body of a distance joint before the second) is reported missing.
pub open spec fn resolved_joint<D, W>(bundle: JointBundle<D, W>, body_handles: Seq<BodyHandle>) -> Option<
    JointSolveInput<D, W>,
> {
    match bundle {
        JointBundle::Distance { body_a, body_b, desc } => if body_a < body_handles.len()
            && body_b < body_handles.len() {
            Some(
                JointSolveInput::Distance {
                    body_a: body_handles[body_a as int],
                    body_b: body_handles[body_b as int],
                    desc,
                },
            )
        } else {
            None
        },
        JointBundle::WorldAnchor { body, desc } => if body < body_handles.len() {
            Some(JointSolveInput::WorldAnchor { body: body_handles[body as int], desc })
        } else {
            None
        },
    }
}

impl<D, W> JointBundle<D, W> {
    /// Resolves the recipe body indices of this joint to the handles created for them.
    pub fn resolve(self, body_handles: &[BodyHandle]) -> (r: Result<JointSolveInput<D, W>, WorldError>)
        ensures
            resolved_joint(self, body_handles@) matches Some(joint) ==> r == Ok::<
                JointSolveInput<D, W>,
                WorldError,
            >(joint),
            resolved_joint(self, body_handles@) is None ==> (r matches Err(
                WorldError::Handle(HandleError::MissingBody { handle }),
            ) && handle@ == crate::handles::INVALID_RAW),
    {
        match self {
            JointBundle::Distance { body_a, body_b, desc } => {
                let a = resolve_recipe_body(body_a, body_handles)?;
                let b = resolve_recipe_body(body_b, body_handles)?;
                Ok(JointSolveInput::Distance { body_a: a, body_b: b, desc })
            },
            JointBundle::WorldAnchor { body, desc } => {
                let b = resolve_recipe_body(body, body_handles)?;
                Ok(JointSolveInput::WorldAnchor { body: b, desc })
            },
        }
    }
}

} // verus!
