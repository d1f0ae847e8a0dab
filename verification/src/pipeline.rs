//! The step pipeline's integer bookkeeping: sleep islands, solve plans and counters.
use vstd::prelude::*;

pub mod broadphase;
pub mod contacts;
pub mod island;
pub mod joints;
pub mod narrowphase;
pub mod sleep;

verus! {

/// Stable high-level counters returned after each simulation step.
#[derive(Clone, Copy, Debug, PartialEq, Eq, Structural)]
pub struct StepStats {
    /// Monotonic step number assigned by the pipeline.
    pub step_index: u64,
    /// Total number of bodies visible to the world.
    pub body_count: usize,
    /// Total number of colliders visible to the world.
    pub collider_count: usize,
    /// Total number of joints visible to the world.
    pub joint_count: usize,
    /// Number of active bodies processed during the step.
    pub active_body_count: usize,
    /// Number of broadphase candidate pairs considered during the step.
    pub broadphase_candidate_count: usize,
    /// Number of broadphase proxy insert/remove/reinsert updates during the step.
    pub broadphase_update_count: usize,
    /// Number of stale broadphase proxies dropped because their collider handle disappeared.
    pub broadphase_stale_proxy_drop_count: usize,
    /// Number of broadphase candidates dropped because both colliders belong to one body.
    pub broadphase_same_body_drop_count: usize,
    /// Number of broadphase candidates dropped by collision filters.
    pub broadphase_filter_drop_count: usize,
    /// Number of broadphase candidates rejected by narrowphase geometry.
    pub broadphase_narrowphase_drop_count: usize,
    /// Number of broadphase tree rebuilds used to restore a bounded tree depth.
    pub broadphase_rebuild_count: usize,
    /// Current broadphase tree depth after proxy synchronization.
    pub broadphase_tree_depth: usize,
    /// Number of active contacts emitted during the step.
    pub contact_count: usize,
    /// Number of active manifolds after refresh.
    pub manifold_count: usize,
    /// Number of contacts that reused trusted warm-start cache facts.
    pub warm_start_hit_count: usize,
    /// Number of contacts that had no matching warm-start cache entry.
    pub warm_start_miss_count: usize,
    /// Number of contacts whose matching cache entry was rejected as unsafe.
    pub warm_start_drop_count: usize,
    /// Number of velocity iterations used for the step.
    pub velocity_iterations: u16,
    /// Number of position iterations used for the step.
    pub position_iterations: u16,
    /// Number of sleep-state transitions observed during the step.
    pub sleep_transition_count: usize,
    /// Number of internal non-finite situations detected and contained.
    pub numeric_warnings: usize,
}

impl Default for StepStats {
    /// All counters zero.
    fn default() -> (r: Self)
        ensures
            r.step_index == 0,
            r.body_count == 0,
            r.collider_count == 0,
            r.joint_count == 0,
            r.active_body_count == 0,
            r.broadphase_candidate_count == 0,
            r.broadphase_update_count == 0,
            r.broadphase_stale_proxy_drop_count == 0,
            r.broadphase_same_body_drop_count == 0,
            r.broadphase_filter_drop_count == 0,
            r.broadphase_narrowphase_drop_count == 0,
            r.broadphase_rebuild_count == 0,
            r.broadphase_tree_depth == 0,
            r.contact_count == 0,
            r.manifold_count == 0,
            r.warm_start_hit_count == 0,
            r.warm_start_miss_count == 0,
            r.warm_start_drop_count == 0,
            r.velocity_iterations == 0,
            r.position_iterations == 0,
            r.sleep_transition_count == 0,
            r.numeric_warnings == 0,
    {
        StepStats {
            step_index: 0,
            body_count: 0,
            collider_count: 0,
            joint_count: 0,
            active_body_count: 0,
            broadphase_candidate_count: 0,
            broadphase_update_count: 0,
            broadphase_stale_proxy_drop_count: 0,
            broadphase_same_body_drop_count: 0,
            broadphase_filter_drop_count: 0,
            broadphase_narrowphase_drop_count: 0,
            broadphase_rebuild_count: 0,
            broadphase_tree_depth: 0,
            contact_count: 0,
            manifold_count: 0,
            warm_start_hit_count: 0,
            warm_start_miss_count: 0,
            warm_start_drop_count: 0,
            velocity_iterations: 0,
            position_iterations: 0,
            sleep_transition_count: 0,
            numeric_warnings: 0,
        }
    }
}

impl StepStats {
    /// The counters a step reports: the world's counters, stamped with the pipeline's step
    /// index and the configured iteration counts.
    pub fn stamped(self, step_index: u64, velocity_iterations: u16, position_iterations: u16) -> (r:
        Self)
        ensures
            r == (StepStats { step_index, velocity_iterations, position_iterations, ..self }),
    {
        StepStats { step_index, velocity_iterations, position_iterations, ..self }
    }
}

} // verus!
