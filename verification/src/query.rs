//! Query filtering and deterministic query counters.
use vstd::prelude::*;

use crate::collider::{filters_interact, CollisionFilter};
use crate::handles::{BodyHandle, ColliderHandle};
use crate::pipeline::broadphase::TreeQueryStats;

verus! {

/// Coarse filtering applied to point, AABB, and ray queries.
#[derive(Clone, Copy, Debug, PartialEq, Eq, Structural)]
pub struct QueryFilter {
    /// Restrict the query to a single body.
    pub body: Option<BodyHandle>,
    /// Exclude a body from the query.
    pub exclude_body: Option<BodyHandle>,
    /// Restrict the query to a single collider.
    pub collider: Option<ColliderHandle>,
    /// Exclude a collider from the query.
    pub exclude_collider: Option<ColliderHandle>,
    /// Restrict the query to colliders that can interact with this filter.
    pub interaction_filter: Option<CollisionFilter>,
    /// Whether sensors should be included.
    pub include_sensors: bool,
}

/// The collider facts a query filter reads.
#[derive(Clone, Copy, Debug, PartialEq, Eq, Structural)]
pub struct QueryCandidate {
    /// The collider's handle.
    pub handle: ColliderHandle,
    /// The collider's parent body.
    pub body: BodyHandle,
    /// Whether the collider is a sensor.
    pub is_sensor: bool,
    /// The collider's collision filter.
    pub filter: CollisionFilter,
}

/// Whether a query filter keeps a candidate collider: sensors only when included, and every
/// restriction or exclusion that is set must hold.
pub open spec fn filter_matches(f: QueryFilter, c: QueryCandidate) -> bool {
    &&& f.include_sensors || !c.is_sensor
    &&& (f.body matches Some(b) ==> c.body == b)
    &&& (f.exclude_body matches Some(b) ==> c.body != b)
    &&& (f.collider matches Some(h) ==> c.handle == h)
    &&& (f.exclude_collider matches Some(h) ==> c.handle != h)
    &&& (f.interaction_filter matches Some(g) ==> filters_interact(c.filter, g))
}

impl Default for QueryFilter {
    /// No restriction, sensors excluded.
    fn default() -> (r: Self)
        ensures
            r.body is None,
            r.exclude_body is None,
            r.collider is None,
            r.exclude_collider is None,
            r.interaction_filter is None,
            !r.include_sensors,
    {
        QueryFilter {
            body: None,
            exclude_body: None,
            collider: None,
            exclude_collider: None,
            interaction_filter: None,
            include_sensors: false,
        }
    }
}

impl QueryFilter {
    /// Restricts the query to a single body.
    pub fn with_body(self, body: BodyHandle) -> (r: Self)
        ensures
            r == (QueryFilter { body: Some(body), ..self }),
    {
        QueryFilter { body: Some(body), ..self }
    }

    /// Excludes a body from the query.
    pub fn excluding_body(self, body: BodyHandle) -> (r: Self)
        ensures
            r == (QueryFilter { exclude_body: Some(body), ..self }),
    {
        QueryFilter { exclude_body: Some(body), ..self }
    }

    /// Restricts the query to a single collider.
    pub fn with_collider(self, collider: ColliderHandle) -> (r: Self)
        ensures
            r == (QueryFilter { collider: Some(collider), ..self }),
    {
        QueryFilter { collider: Some(collider), ..self }
    }

    /// Excludes a collider from the query.
    pub fn excluding_collider(self, collider: ColliderHandle) -> (r: Self)
        ensures
            r == (QueryFilter { exclude_collider: Some(collider), ..self }),
    {
        QueryFilter { exclude_collider: Some(collider), ..self }
    }

    /// Restricts results to colliders whose collision groups interact with the filter.
    pub fn colliding_with(self, filter: CollisionFilter) -> (r: Self)
        ensures
            r == (QueryFilter { interaction_filter: Some(filter), ..self }),
    {
        QueryFilter { interaction_filter: Some(filter), ..self }
    }

    /// Includes sensors in query results.
    pub fn including_sensors(self) -> (r: Self)
        ensures
            r == (QueryFilter { include_sensors: true, ..self }),
    {
        QueryFilter { include_sensors: true, ..self }
    }

    /// Returns whether the filter keeps the candidate collider.
    pub fn matches(&self, collider: &QueryCandidate) -> (r: bool)
        ensures
            r == filter_matches(*self, *collider),
    {
        if !self.include_sensors && collider.is_sensor {
            return false;
        }
        if let Some(body) = self.body {
            if collider.body != body {
                return false;
            }
        }
        if let Some(body) = self.exclude_body {
            if collider.body == body {
                return false;
            }
        }
        if let Some(handle) = self.collider {
            if collider.handle != handle {
                return false;
            }
        }
        if let Some(handle) = self.exclude_collider {
            if collider.handle == handle {
                return false;
            }
        }
        if let Some(filter) = self.interaction_filter {
            if !collider.filter.allows(&filter) {
                return false;
            }
        }
        true
    }
}

/// The default filter keeps exactly the colliders that are not sensors; including sensors
/// keeps every collider.
pub proof fn lemma_default_filter_keeps_non_sensors(f: QueryFilter, c: QueryCandidate)
    requires
        f.body is None,
        f.exclude_body is None,
        f.collider is None,
        f.exclude_collider is None,
        f.interaction_filter is None,
    ensures
        filter_matches(f, c) == (f.include_sensors || !c.is_sensor),
{
}

/// A body restriction keeps only colliders of that body, and a body exclusion drops them
/// all; the same holds for collider restrictions and exclusions.
pub proof fn lemma_restrictions_hold(f: QueryFilter, c: QueryCandidate)
    requires
        filter_matches(f, c),
    ensures
        f.body matches Some(b) ==> c.body == b,
        f.exclude_body matches Some(b) ==> c.body != b,
        f.collider matches Some(h) ==> c.handle == h,
        f.exclude_collider matches Some(h) ==> c.handle != h,
{
}

/// A query with an interaction filter keeps a collider only when the two filters interact
/// both ways: the collider's memberships meet the query's mask, and the query's memberships
/// meet the collider's mask. A non-sensor collider that meets both, under no other
/// restriction, is kept.
pub proof fn lemma_interaction_filter_needs_both_masks(f: QueryFilter, c: QueryCandidate, g: CollisionFilter)
    requires
        f.interaction_filter == Some(g),
    ensures
        filter_matches(f, c) ==> (c.filter.memberships & g.collides_with) != 0
            && (g.memberships & c.filter.collides_with) != 0,
        (f.body is None && f.exclude_body is None && f.collider is None
            && f.exclude_collider is None && !c.is_sensor
            && (c.filter.memberships & g.collides_with) != 0
            && (g.memberships & c.filter.collides_with) != 0) ==> filter_matches(f, c),
{
}

/// Stable public error for invalid or unsupported query-shape input.
#[derive(Clone, Copy, Debug, PartialEq, Eq)]
pub enum QueryShapeError {
    /// The input shape contained non-finite or degenerate geometry.
    InvalidShape { kind: &'static str, reason: &'static str },
    /// The shape kind is not supported by the public query surface.
    UnsupportedShape { kind: &'static str },
}

/// Deterministic counters for the most recent query call.
#[derive(Clone, Copy, Debug, PartialEq, Eq, Structural)]
pub struct QueryStats {
    /// Number of query tree nodes visited by the traversal.
    pub traversal_count: usize,
    /// Number of leaf candidates returned by the tree before public filtering.
    pub candidate_count: usize,
    /// Number of tree nodes rejected by coarse query bounds.
    pub pruned_count: usize,
    /// Number of candidates rejected by the query filter.
    pub filter_drop_count: usize,
    /// Number of public hits returned by the query.
    pub hit_count: usize,
}

impl Default for QueryStats {
    /// All counters zero.
    fn default() -> (r: Self)
        ensures
            r.traversal_count == 0,
            r.candidate_count == 0,
            r.pruned_count == 0,
            r.filter_drop_count == 0,
            r.hit_count == 0,
    {
        QueryStats {
            traversal_count: 0,
            candidate_count: 0,
            pruned_count: 0,
            filter_drop_count: 0,
            hit_count: 0,
        }
    }
}

/// Starts a query's counters from the tree traversal counters; filter drops and hits are
/// counted afterwards.
pub fn query_stats_from_tree(stats: TreeQueryStats) -> (r: QueryStats)
    ensures
        r == (QueryStats {
            traversal_count: stats.traversal_count,
            candidate_count: stats.candidate_count,
            pruned_count: stats.pruned_count,
            filter_drop_count: 0,
            hit_count: 0,
        }),
{
    QueryStats {
        traversal_count: stats.traversal_count,
        candidate_count: stats.candidate_count,
        pruned_count: stats.pruned_count,
        filter_drop_count: 0,
        hit_count: 0,
    }
}

} // verus!
