use picea::body::{
    normalize_motion_for_body_type, BodyAttachments, BodyFlags, BodyFlagsPatch, BodyType,
};
use picea::handles::{ColliderHandle, JointHandle};

#[test]
fn colliders_attach_in_order_and_detach_every_occurrence() {
    let a = ColliderHandle::from_raw_parts(1, 0);
    let b = ColliderHandle::from_raw_parts(2, 0);
    let mut attachments = BodyAttachments::new();
    attachments.attach_collider(a);
    attachments.attach_collider(b);
    attachments.attach_collider(a);
    assert_eq!(attachments.collider_handles(), vec![a, b, a]);
    attachments.detach_collider(a);
    assert_eq!(attachments.collider_handles(), vec![b]);
    attachments.detach_collider(a);
    assert_eq!(attachments.collider_handles(), vec![b]);
}

#[test]
fn joints_attach_once_and_detach() {
    let j = JointHandle::from_raw_parts(3, 1);
    let k = JointHandle::from_raw_parts(4, 0);
    let mut attachments = BodyAttachments::new();
    attachments.attach_joint(j);
    attachments.attach_joint(k);
    attachments.attach_joint(j);
    assert_eq!(attachments.joint_handles(), vec![j, k]);
    attachments.detach_joint(j);
    assert_eq!(attachments.joint_handles(), vec![k]);
    assert!(attachments.collider_handles().is_empty());
}

fn no_patch() -> BodyFlagsPatch {
    BodyFlagsPatch {
        body_type: None,
        can_sleep: None,
        sleeping: None,
        user_data: None,
        wake: false,
        replaces_pose: false,
        replaces_linear_velocity: false,
        replaces_angular_velocity: false,
    }
}

fn sleeping_dynamic() -> BodyFlags {
    BodyFlags {
        body_type: BodyType::Dynamic,
        can_sleep: true,
        sleeping: true,
        user_data: 7,
    }
}

#[test]
fn static_bodies_start_awake_and_frozen() {
    let outcome = BodyFlags::from_desc(BodyType::Static, true, true, 3);
    assert!(!outcome.flags.sleeping);
    assert!(outcome.freeze_motion);
    assert!(outcome.reset_idle);
    let dynamic = BodyFlags::from_desc(BodyType::Dynamic, true, true, 3);
    assert!(dynamic.flags.sleeping);
    assert!(!dynamic.freeze_motion);
    assert_eq!(dynamic.flags.user_data, 3);
}

#[test]
fn empty_patch_keeps_flags_and_idle_time() {
    let outcome = sleeping_dynamic().apply_patch(no_patch());
    assert_eq!(outcome.flags, sleeping_dynamic());
    assert!(!outcome.reset_idle);
    assert!(!outcome.freeze_motion);
}

#[test]
fn waking_or_moving_patches_reset_idle_time() {
    let mut wake = no_patch();
    wake.wake = true;
    let woken = sleeping_dynamic().apply_patch(wake);
    assert!(!woken.flags.sleeping);
    assert!(woken.reset_idle);

    let mut moved = no_patch();
    moved.replaces_linear_velocity = true;
    let outcome = sleeping_dynamic().apply_patch(moved);
    assert!(outcome.flags.sleeping);
    assert!(outcome.reset_idle);

    let mut payload = no_patch();
    payload.user_data = Some(9);
    let outcome = sleeping_dynamic().apply_patch(payload);
    assert_eq!(outcome.flags.user_data, 9);
    assert!(!outcome.reset_idle);

    let mut keep_asleep = no_patch();
    keep_asleep.sleeping = Some(true);
    keep_asleep.wake = true;
    assert!(!sleeping_dynamic().apply_patch(keep_asleep).flags.sleeping);
}

#[test]
fn patching_to_static_freezes_the_body() {
    let mut to_static = no_patch();
    to_static.body_type = Some(BodyType::Static);
    let outcome = sleeping_dynamic().apply_patch(to_static);
    assert_eq!(outcome.flags.body_type, BodyType::Static);
    assert!(!outcome.flags.sleeping);
    assert!(outcome.freeze_motion);
    let again = outcome.flags.apply_patch(to_static);
    assert_eq!(again.flags, outcome.flags);
    assert!(normalize_motion_for_body_type(sleeping_dynamic(), false).flags.sleeping);
}
