use picea::debug::{DebugColor, DebugSnapshotOptions, DebugStats};
use picea::events::{SleepTransitionReason, WarmStartCacheReason};
use picea::handles::{BodyHandle, ColliderHandle, ContactFeatureId};
use picea::joint::{JointEndpoints, JointKind};
use picea::math::matrix::Matrix;
use picea::pipeline::broadphase::balanced_depth_budget;
use picea::pipeline::contacts::ordered_pair;
use picea::events::{GenericConvexFallbackReason, GenericConvexTrace};
use picea::pipeline::narrowphase::{
    feature_id, generic_convex_feature_id, min_feature_id, shape_feature_kind, ShapeKind,
};
use picea::pipeline::sleep::wake_reason_priority;
use picea::pipeline::StepStats;
use picea::scene::IDDispatcher;

#[test]
fn balanced_depth_budget_is_leaf_depth_plus_two() {
    assert_eq!(balanced_depth_budget(0), 2);
    assert_eq!(balanced_depth_budget(1), 2);
    assert_eq!(balanced_depth_budget(2), 3);
    assert_eq!(balanced_depth_budget(3), 4);
    assert_eq!(balanced_depth_budget(4), 4);
    assert_eq!(balanced_depth_budget(5), 5);
    assert_eq!(balanced_depth_budget(1024), 12);
    assert_eq!(balanced_depth_budget(1025), 13);
    assert_eq!(balanced_depth_budget(usize::MAX), 66);
}

#[test]
fn feature_ids_pack_kind_edges_and_slot() {
    let id = feature_id(2, 5, 9, 1);
    assert_eq!(id, ContactFeatureId::from_raw_parts((2 << 24) | (5 << 12) | 9, 1));
    assert_eq!(id.index(), Some(((2usize << 24) | (5 << 12) | 9) as usize));
    assert_eq!(id.generation(), Some(1));
    let lower = feature_id(1, 0, 0, 0);
    assert_eq!(min_feature_id(id, lower), lower);
    assert_eq!(min_feature_id(lower, id), lower);
}

#[test]
fn ordered_pairs_put_the_smaller_handle_first() {
    let a = ColliderHandle::from_raw_parts(4, 0);
    let b = ColliderHandle::from_raw_parts(2, 1);
    assert_eq!(ordered_pair(a, b), (a, b));
    assert_eq!(ordered_pair(b, a), (a, b));
    assert_eq!(ordered_pair(a, a), (a, a));
}

#[test]
fn debug_stats_raise_counts_to_listed_entries() {
    let mut stats = StepStats::default();
    stats.body_count = 3;
    stats.collider_count = 1;
    stats.broadphase_candidate_count = 11;
    stats.broadphase_tree_depth = 4;
    let debug = DebugStats::from_step_stats(9, &stats, 2, 5, 0, 1, 0);
    assert_eq!(debug.step_index, 9);
    assert_eq!(debug.active_body_count, 3);
    assert_eq!(debug.active_collider_count, 5);
    assert_eq!(debug.active_joint_count, 0);
    assert_eq!(debug.contact_count, 1);
    assert_eq!(debug.broadphase_candidate_count, 11);
    assert_eq!(debug.broadphase_tree_depth, 4);
    assert_eq!(DebugStats::default().step_index, 0);
}

#[test]
fn debug_options_and_colors() {
    let query = DebugSnapshotOptions::for_query();
    assert!(!query.include_contacts && !query.include_manifolds && !query.include_primitives);
    assert!(query.sanitize_non_finite);
    let full = DebugSnapshotOptions::default();
    assert!(full.include_contacts && full.include_manifolds && full.include_primitives);
    let color = DebugColor::rgba(1, 2, 3, 4);
    assert_eq!((color.r, color.g, color.b, color.a), (1, 2, 3, 4));
    assert_eq!(DebugColor::default(), DebugColor::rgba(255, 255, 255, 255));
}

#[test]
fn id_dispatcher_counts_from_one_and_resets() {
    let mut ids = IDDispatcher::new();
    assert_eq!(ids.gen_id(), 1);
    assert_eq!(ids.gen_id(), 2);
    ids.reset();
    assert_eq!(ids.gen_id(), 1);
    let mut fresh = IDDispatcher::default();
    assert_eq!(fresh.gen_id(), 1);
}

#[test]
fn warm_start_reasons_fall_in_exactly_one_class() {
    let all = [
        WarmStartCacheReason::Hit,
        WarmStartCacheReason::MissNoPrevious,
        WarmStartCacheReason::MissFeatureId,
        WarmStartCacheReason::MissPreviousSensor,
        WarmStartCacheReason::SkippedSensor,
        WarmStartCacheReason::DroppedNormalMismatch,
        WarmStartCacheReason::DroppedPointDrift,
        WarmStartCacheReason::DroppedInvalidImpulse,
    ];
    for reason in all {
        let classes = [reason.is_hit(), reason.is_miss(), reason.is_drop()];
        assert_eq!(classes.iter().filter(|c| **c).count(), 1);
    }
    assert!(WarmStartCacheReason::SkippedSensor.is_miss());
    assert!(WarmStartCacheReason::DroppedPointDrift.is_drop());
    assert_eq!(WarmStartCacheReason::default(), WarmStartCacheReason::MissNoPrevious);
}

#[test]
fn wake_reason_priorities_are_ordered() {
    assert_eq!(wake_reason_priority(SleepTransitionReason::Unknown), 0);
    assert_eq!(wake_reason_priority(SleepTransitionReason::StabilityWindow), 1);
    assert_eq!(wake_reason_priority(SleepTransitionReason::SleepDisabled), 2);
    assert_eq!(wake_reason_priority(SleepTransitionReason::JointCorrection), 3);
    assert_eq!(wake_reason_priority(SleepTransitionReason::ContactImpulse), 4);
    assert_eq!(wake_reason_priority(SleepTransitionReason::Impact), 5);
    assert_eq!(wake_reason_priority(SleepTransitionReason::UserPatch), 6);
    assert_eq!(wake_reason_priority(SleepTransitionReason::TransformEdit), 7);
    assert_eq!(wake_reason_priority(SleepTransitionReason::VelocityEdit), 8);
}

#[test]
fn joints_report_kind_and_distinct_bodies() {
    let a = BodyHandle::from_raw_parts(1, 0);
    let b = BodyHandle::from_raw_parts(2, 0);
    let distance = JointEndpoints::Distance { body_a: a, body_b: b };
    assert_eq!(distance.kind(), JointKind::Distance);
    assert_eq!(distance.body_handles(), vec![a, b]);
    let looped = JointEndpoints::Distance { body_a: a, body_b: a };
    assert_eq!(looped.body_handles(), vec![a]);
    let anchor = JointEndpoints::WorldAnchor { body: b };
    assert_eq!(anchor.kind(), JointKind::WorldAnchor);
    assert_eq!(anchor.body_handles(), vec![b]);
}

#[test]
fn matrix_calls_its_constructor_once() {
    let calls = std::cell::Cell::new(0);
    let _matrix: Matrix<u8, 2, 3> = Matrix::new(|| {
        calls.set(calls.get() + 1);
        7u8
    });
    assert_eq!(calls.get(), 1);
}

#[test]
fn generic_convex_feature_ids_name_the_fallback_and_shape_kinds() {
    let mut trace = GenericConvexTrace::default();
    assert_eq!(
        generic_convex_feature_id(ShapeKind::Segment, ShapeKind::Rect, trace),
        feature_id(6, 5, 1, 0)
    );
    trace.fallback_reason = GenericConvexFallbackReason::EpaFailureContained;
    assert_eq!(
        generic_convex_feature_id(ShapeKind::Circle, ShapeKind::ConcavePolygon, trace),
        feature_id(7, 0, 4, 0)
    );
    assert_eq!(shape_feature_kind(ShapeKind::RegularPolygon), 2);
    assert_eq!(shape_feature_kind(ShapeKind::ConvexPolygon), 3);
}
