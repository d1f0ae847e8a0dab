use picea::body::BodyType;
use picea::body_map::BodyMap;
use picea::events::SleepTransitionReason;
use picea::handles::BodyHandle;
use picea::pipeline::sleep::{
    build_active_solver_islands, build_islands_from_pairs, expand_wake_reasons, island_can_sleep,
    record_wake_reason, wake_reason_priority, BodySleepFacts, UnionFind,
};

#[test]
fn stronger_wake_reason_wins() {
    let body = BodyHandle::from_raw_parts(1, 0);
    let mut reasons = BodyMap::new();

    record_wake_reason(&mut reasons, body, SleepTransitionReason::JointCorrection);
    record_wake_reason(&mut reasons, body, SleepTransitionReason::Impact);

    assert_eq!(reasons.get(body), Some(&SleepTransitionReason::Impact));
}

fn facts(index: u32, body_type: BodyType) -> BodySleepFacts {
    BodySleepFacts {
        handle: BodyHandle::from_raw_parts(index, 0),
        body_type,
        sleeping: false,
        can_sleep: true,
    }
}

#[test]
fn static_contact_does_not_join_dynamic_islands() {
    let static_body = facts(0, BodyType::Static);
    let left = facts(1, BodyType::Dynamic);
    let right = facts(2, BodyType::Dynamic);
    let bodies = vec![static_body, left, right];
    let contacts = vec![
        (static_body.handle, left.handle),
        (static_body.handle, right.handle),
    ];

    let islands = build_islands_from_pairs(&bodies, &contacts, &Vec::new());

    assert_eq!(islands.len(), 2);
    assert!(islands.iter().any(|island| island.bodies == vec![left.handle]));
    assert!(islands.iter().any(|island| island.bodies == vec![right.handle]));
}

#[test]
fn weaker_wake_reason_does_not_replace_stronger() {
    let body = BodyHandle::from_raw_parts(3, 1);
    let mut reasons = BodyMap::new();
    record_wake_reason(&mut reasons, body, SleepTransitionReason::VelocityEdit);
    record_wake_reason(&mut reasons, body, SleepTransitionReason::Unknown);
    assert_eq!(reasons.get(body), Some(&SleepTransitionReason::VelocityEdit));
    assert_eq!(reasons.len(), 1);
}

#[test]
fn wake_reason_order_does_not_matter() {
    let body = BodyHandle::from_raw_parts(4, 0);
    let mut first = BodyMap::new();
    record_wake_reason(&mut first, body, SleepTransitionReason::UserPatch);
    record_wake_reason(&mut first, body, SleepTransitionReason::ContactImpulse);
    let mut second = BodyMap::new();
    record_wake_reason(&mut second, body, SleepTransitionReason::ContactImpulse);
    record_wake_reason(&mut second, body, SleepTransitionReason::UserPatch);
    assert_eq!(first.get(body), second.get(body));
    assert_eq!(first.get(body), Some(&SleepTransitionReason::UserPatch));
}

#[test]
fn wake_reason_priorities_follow_the_table() {
    assert_eq!(wake_reason_priority(SleepTransitionReason::Unknown), 0);
    assert_eq!(wake_reason_priority(SleepTransitionReason::StabilityWindow), 1);
    assert_eq!(wake_reason_priority(SleepTransitionReason::SleepDisabled), 2);
    assert_eq!(wake_reason_priority(SleepTransitionReason::JointCorrection), 3);
    assert_eq!(wake_reason_priority(SleepTransitionReason::ContactImpulse), 4);
    assert_eq!(wake_reason_priority(SleepTransitionReason::Impact), 5);
    assert_eq!(wake_reason_priority(SleepTransitionReason::UserPatch), 6);
    assert_eq!(wake_reason_priority(SleepTransitionReason::TransformEdit), 7);
    assert_eq!(wake_reason_priority(SleepTransitionReason::VelocityEdit), 8);
}

#[test]
fn union_find_represents_classes_by_smallest_handle() {
    let handles: Vec<BodyHandle> = (0..5).map(|i| BodyHandle::from_raw_parts(i, 0)).collect();
    let mut union = UnionFind::new(&handles);
    union.union(handles[4], handles[2]);
    union.union(handles[2], handles[3]);
    assert_eq!(union.find(handles[4]), handles[2]);
    assert_eq!(union.find(handles[3]), handles[2]);
    assert_eq!(union.find(handles[0]), handles[0]);
    union.union(handles[3], handles[0]);
    assert_eq!(union.find(handles[4]), handles[0]);
    let stranger = BodyHandle::from_raw_parts(9, 0);
    assert_eq!(union.find(stranger), stranger);
    union.union(stranger, handles[1]);
    assert_eq!(union.find(handles[1]), handles[1]);
}

#[test]
fn islands_follow_contacts_and_two_body_joints() {
    let bodies = vec![
        facts(7, BodyType::Dynamic),
        facts(3, BodyType::Dynamic),
        facts(5, BodyType::Kinematic),
        facts(1, BodyType::Dynamic),
        facts(9, BodyType::Static),
    ];
    let h = |i: u32| BodyHandle::from_raw_parts(i, 0);
    let contacts = vec![(h(7), h(3)), (h(9), h(1))];
    let joints = vec![vec![h(5), h(1)], vec![h(3)]];
    let islands = build_islands_from_pairs(&bodies, &contacts, &joints);
    assert_eq!(islands.len(), 2);
    assert_eq!(islands[0].id, 0);
    assert_eq!(islands[0].bodies, vec![h(1), h(5)]);
    assert_eq!(islands[1].id, 1);
    assert_eq!(islands[1].bodies, vec![h(3), h(7)]);
}

#[test]
fn solver_islands_are_active_when_awake_or_woken() {
    let mut sleeping = facts(1, BodyType::Dynamic);
    sleeping.sleeping = true;
    let mut also_sleeping = facts(2, BodyType::Dynamic);
    also_sleeping.sleeping = true;
    let awake = facts(3, BodyType::Dynamic);
    let bodies = vec![sleeping, also_sleeping, awake];
    let mut wake = BodyMap::new();
    record_wake_reason(&mut wake, also_sleeping.handle, SleepTransitionReason::Impact);
    let islands = build_active_solver_islands(&bodies, &Vec::new(), &Vec::new(), &wake);
    assert_eq!(islands.len(), 3);
    assert!(!islands[0].active);
    assert!(islands[1].active);
    assert!(islands[2].active);
}

#[test]
fn island_can_sleep_needs_dynamic_sleepy_bodies() {
    let mut no_sleep = facts(2, BodyType::Dynamic);
    no_sleep.can_sleep = false;
    let bodies = vec![facts(1, BodyType::Dynamic), no_sleep, facts(3, BodyType::Kinematic)];
    let islands = build_islands_from_pairs(&bodies, &Vec::new(), &Vec::new());
    assert!(island_can_sleep(&bodies, &islands[0]));
    assert!(!island_can_sleep(&bodies, &islands[1]));
    assert!(!island_can_sleep(&bodies, &islands[2]));
}

#[test]
fn island_wake_reason_is_strongest_member_reason() {
    let bodies = vec![facts(1, BodyType::Dynamic), facts(2, BodyType::Dynamic)];
    let contacts = vec![(bodies[0].handle, bodies[1].handle)];
    let islands = build_islands_from_pairs(&bodies, &contacts, &Vec::new());
    let mut wake = BodyMap::new();
    record_wake_reason(&mut wake, bodies[0].handle, SleepTransitionReason::JointCorrection);
    record_wake_reason(&mut wake, bodies[1].handle, SleepTransitionReason::TransformEdit);
    let reasons = expand_wake_reasons(&islands, &wake);
    assert_eq!(reasons.len(), 1);
    assert_eq!(reasons.get(&0), Some(&SleepTransitionReason::TransformEdit));
}
