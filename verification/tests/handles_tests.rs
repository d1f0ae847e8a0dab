use picea::handles::{
    BodyHandle, ColliderHandle, ContactFeatureId, ContactId, JointHandle, ManifoldId,
    WorldRevision, INVALID_RAW,
};

#[test]
fn handles_round_trip_index_and_generation() {
    let body = BodyHandle::from_raw_parts(7, 3);
    assert_eq!(body.index(), Some(7));
    assert_eq!(body.generation(), Some(3));
    assert!(body.is_valid());
    assert_eq!(body.raw(), (3u64 << 32) | 7);

    let collider = ColliderHandle::from_raw_parts(u32::MAX, 0);
    assert_eq!(collider.index(), Some(u32::MAX as usize));
    assert_eq!(collider.generation(), Some(0));

    let joint = JointHandle::from_raw_parts(0, u32::MAX);
    assert_eq!(joint.index(), Some(0));
    assert_eq!(joint.generation(), Some(u32::MAX));
}

#[test]
fn invalid_handles_report_no_parts() {
    assert_eq!(BodyHandle::invalid().raw(), INVALID_RAW);
    assert!(!BodyHandle::invalid().is_valid());
    assert_eq!(BodyHandle::invalid().index(), None);
    assert_eq!(ContactId::invalid().generation(), None);
    assert_eq!(BodyHandle::default(), BodyHandle::invalid());
    assert_eq!(ManifoldId::default().raw(), INVALID_RAW);
    assert_eq!(ContactFeatureId::default().raw(), INVALID_RAW);
}

#[test]
fn all_ones_parts_pack_to_the_sentinel() {
    let handle = BodyHandle::from_raw_parts(u32::MAX, u32::MAX);
    assert_eq!(handle, BodyHandle::invalid());
    assert!(!handle.is_valid());
}

#[test]
fn distinct_parts_give_distinct_handles_ordered_by_generation_then_index() {
    let a = BodyHandle::from_raw_parts(5, 1);
    let b = BodyHandle::from_raw_parts(6, 0);
    assert_ne!(a, b);
    assert!(b < a);
}

#[test]
fn world_revision_advances_and_saturates() {
    let revision = WorldRevision::from_raw(41);
    assert_eq!(revision.next().get(), 42);
    assert_eq!(WorldRevision::from_raw(u64::MAX).next().get(), u64::MAX);
}
