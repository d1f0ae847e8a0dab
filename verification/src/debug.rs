//! Debug read-model options, colors, joint kinds and snapshot counters.
use vstd::prelude::*;

use crate::pipeline::StepStats;

verus! {

/// Stable statistics exported with a debug snapshot.
#[derive(Clone, Copy, Debug, PartialEq, Eq, Structural)]
pub struct DebugStats {
    /// Monotonic step number seen by the world.
    pub step_index: u64,
    /// Number of bodies known to the world.
    pub active_body_count: usize,
    /// Number of colliders known to the world.
    pub active_collider_count: usize,
    /// Number of joints known to the world.
    pub active_joint_count: usize,
    /// Number of broadphase candidates considered in the last step.
    pub broadphase_candidate_count: usize,
    /// Number of broadphase proxy insert/remove/reinsert updates in the last step.
    pub broadphase_update_count: usize,
    /// Number of stale broadphase proxies dropped in the last step.
    pub broadphase_stale_proxy_drop_count: usize,
    /// Number of broadphase candidates dropped because both colliders belong to one body.
    pub broadphase_same_body_drop_count: usize,
    /// Number of broadphase candidates dropped by collision filters.
    pub broadphase_filter_drop_count: usize,
    /// Number of broadphase candidates rejected by narrowphase geometry.
    pub broadphase_narrowphase_drop_count: usize,
    /// Number of broadphase tree rebuilds in the last step.
    pub broadphase_rebuild_count: usize,
    /// Broadphase tree depth after the last step.
    pub broadphase_tree_depth: usize,
    /// Number of contacts in the last step.
    pub contact_count: usize,
    /// Number of active manifolds in the last step.
    pub manifold_count: usize,
}

/// The larger of two counts.
pub open spec fn max_count(a: usize, b: usize) -> usize {
    if a >= b {
        a
    } else {
        b
    }
}

fn max_usize(a: usize, b: usize) -> (r: usize)
    ensures
        r == max_count(a, b),
{
    if a >= b {
        a
    } else {
        b
    }
}

impl DebugStats {
    /// The counters of a snapshot: the step's counters, where each entity count is raised to
    /// the number of entries the snapshot actually lists.
    pub fn from_step_stats(
        step_index: u64,
        stats: &StepStats,
        body_count: usize,
        collider_count: usize,
        joint_count: usize,
        contact_count: usize,
        manifold_count: usize,
    ) -> (r: Self)
        ensures
            r == (DebugStats {
                step_index,
                active_body_count: max_count(stats.body_count, body_count),
                active_collider_count: max_count(stats.collider_count, collider_count),
                active_joint_count: max_count(stats.joint_count, joint_count),
                broadphase_candidate_count: stats.broadphase_candidate_count,
                broadphase_update_count: stats.broadphase_update_count,
                broadphase_stale_proxy_drop_count: stats.broadphase_stale_proxy_drop_count,
                broadphase_same_body_drop_count: stats.broadphase_same_body_drop_count,
                broadphase_filter_drop_count: stats.broadphase_filter_drop_count,
                broadphase_narrowphase_drop_count: stats.broadphase_narrowphase_drop_count,
                broadphase_rebuild_count: stats.broadphase_rebuild_count,
                broadphase_tree_depth: stats.broadphase_tree_depth,
                contact_count: max_count(stats.contact_count, contact_count),
                manifold_count: max_count(stats.manifold_count, manifold_count),
            }),
    {
        DebugStats {
            step_index,
            active_body_count: max_usize(stats.body_count, body_count),
            active_collider_count: max_usize(stats.collider_count, collider_count),
            active_joint_count: max_usize(stats.joint_count, joint_count),
            broadphase_candidate_count: stats.broadphase_candidate_count,
            broadphase_update_count: stats.broadphase_update_count,
            broadphase_stale_proxy_drop_count: stats.broadphase_stale_proxy_drop_count,
            broadphase_same_body_drop_count: stats.broadphase_same_body_drop_count,
            broadphase_filter_drop_count: stats.broadphase_filter_drop_count,
            broadphase_narrowphase_drop_count: stats.broadphase_narrowphase_drop_count,
            broadphase_rebuild_count: stats.broadphase_rebuild_count,
            broadphase_tree_depth: stats.broadphase_tree_depth,
            contact_count: max_usize(stats.contact_count, contact_count),
            manifold_count: max_usize(stats.manifold_count, manifold_count),
        }
    }
}

impl Default for DebugStats {
    /// All counters zero.
    fn default() -> (r: Self)
        ensures
            r == (DebugStats {
                step_index: 0,
                active_body_count: 0,
                active_collider_count: 0,
                active_joint_count: 0,
                broadphase_candidate_count: 0,
                broadphase_update_count: 0,
                broadphase_stale_proxy_drop_count: 0,
                broadphase_same_body_drop_count: 0,
                broadphase_filter_drop_count: 0,
                broadphase_narrowphase_drop_count: 0,
                broadphase_rebuild_count: 0,
                broadphase_tree_depth: 0,
                contact_count: 0,
                manifold_count: 0,
            }),
    {
        DebugStats {
            step_index: 0,
            active_body_count: 0,
            active_collider_count: 0,
            active_joint_count: 0,
            broadphase_candidate_count: 0,
            broadphase_update_count: 0,
            broadphase_stale_proxy_drop_count: 0,
            broadphase_same_body_drop_count: 0,
            broadphase_filter_drop_count: 0,
            broadphase_narrowphase_drop_count: 0,
            broadphase_rebuild_count: 0,
            broadphase_tree_depth: 0,
            contact_count: 0,
            manifold_count: 0,
        }
    }
}

/// Stable joint kinds reflected in debug snapshots.
#[derive(Clone, Copy, Debug, PartialEq, Eq, Structural, Hash)]
pub enum DebugJointKind {
    /// A distance-preserving joint between two bodies.
    Distance,
    /// A body tied to a world-space anchor.
    WorldAnchor,
}

/// Stable primitive color.
#[derive(Clone, Copy, Debug, PartialEq, Eq, Structural, Hash)]
pub struct DebugColor {
    /// Red channel.
    pub r: u8,
    /// Green channel.
    pub g: u8,
    /// Blue channel.
    pub b: u8,
    /// Alpha channel.
    pub a: u8,
}

impl DebugColor {
    /// Constructs an RGBA color.
    pub fn rgba(r: u8, g: u8, b: u8, a: u8) -> (c: Self)
        ensures
            c == (DebugColor { r, g, b, a }),
    {
        DebugColor { r, g, b, a }
    }
}

impl Default for DebugColor {
    /// Opaque white.
    fn default() -> (c: Self)
        ensures
            c == (DebugColor { r: 255, g: 255, b: 255, a: 255 }),
    {
        Self::rgba(255, 255, 255, 255)
    }
}

/// Options that control which layers a debug snapshot should include.
#[derive(Clone, Copy, Debug, PartialEq, Eq, Structural, Hash)]
pub struct DebugSnapshotOptions {
    /// Include contact facts.
    pub include_contacts: bool,
    /// Include manifold facts.
    pub include_manifolds: bool,
    /// Include draw primitives.
    pub include_primitives: bool,
    /// Sanitize non-finite numeric values before returning the snapshot.
    pub sanitize_non_finite: bool,
}

impl DebugSnapshotOptions {
    /// Options tuned for query cache construction: structured facts only, sanitized.
    pub fn for_query() -> (o: Self)
        ensures
            o == (DebugSnapshotOptions {
                include_contacts: false,
                include_manifolds: false,
                include_primitives: false,
                sanitize_non_finite: true,
            }),
    {
        DebugSnapshotOptions {
            include_contacts: false,
            include_manifolds: false,
            include_primitives: false,
            sanitize_non_finite: true,
        }
    }
}

impl Default for DebugSnapshotOptions {
    /// Every layer, sanitized.
    fn default() -> (o: Self)
        ensures
            o == (DebugSnapshotOptions {
                include_contacts: true,
                include_manifolds: true,
                include_primitives: true,
                sanitize_non_finite: true,
            }),
    {
        DebugSnapshotOptions {
            include_contacts: true,
            include_manifolds: true,
            include_primitives: true,
            sanitize_non_finite: true,
        }
    }
}

} // verus!
