use picea::body::BodyType;
use picea::events::{SleepEvent, SleepTransitionReason};
use picea::handles::BodyHandle;
use picea::pipeline::sleep::refresh::{
    force_island_awake, members_may_sleep, members_settled, refresh_island_sleep, IdleUpdate,
    SleepRefreshBody,
};

fn member(index: u32, was_sleeping: bool, low_motion: bool, idle: bool) -> SleepRefreshBody {
    SleepRefreshBody {
        handle: BodyHandle::from_raw_parts(index, 0),
        body_type: BodyType::Dynamic,
        can_sleep: true,
        was_sleeping,
        low_motion,
        idle_window_reached: idle,
    }
}

#[test]
fn settled_island_falls_asleep_and_reports_stability() {
    let bodies = vec![member(1, false, true, true), member(2, true, true, false)];
    let outcome = refresh_island_sleep(4, &bodies, None, true);
    assert!(outcome.updates.iter().all(|u| u.sleeping));
    assert!(outcome
        .updates
        .iter()
        .all(|u| u.idle == IdleUpdate::Saturate));
    assert_eq!(
        outcome.events,
        vec![SleepEvent {
            body: BodyHandle::from_raw_parts(1, 0),
            is_sleeping: true,
            island_id: 4,
            reason: SleepTransitionReason::StabilityWindow,
        }]
    );
    assert_eq!(outcome.active_body_count, 0);
    assert_eq!(outcome.transitions, 1);
}

#[test]
fn one_moving_member_keeps_the_island_awake() {
    let bodies = vec![member(1, true, true, true), member(2, false, false, false)];
    let outcome = refresh_island_sleep(0, &bodies, None, true);
    assert!(outcome.updates.iter().all(|u| !u.sleeping));
    assert_eq!(outcome.updates[0].idle, IdleUpdate::Accumulate);
    assert_eq!(outcome.updates[1].idle, IdleUpdate::Reset);
    assert_eq!(
        outcome.events,
        vec![SleepEvent {
            body: BodyHandle::from_raw_parts(1, 0),
            is_sleeping: false,
            island_id: 0,
            reason: SleepTransitionReason::Unknown,
        }]
    );
    assert_eq!(outcome.active_body_count, 2);
    assert_eq!(outcome.transitions, 1);
}

#[test]
fn wake_reason_forces_the_island_awake_without_counting_transitions() {
    let bodies = vec![member(1, true, true, true), member(2, false, true, true)];
    let outcome = refresh_island_sleep(3, &bodies, Some(SleepTransitionReason::Impact), true);
    assert!(outcome
        .updates
        .iter()
        .all(|u| !u.sleeping && u.idle == IdleUpdate::Reset));
    assert_eq!(
        outcome.events,
        vec![SleepEvent {
            body: BodyHandle::from_raw_parts(1, 0),
            is_sleeping: false,
            island_id: 3,
            reason: SleepTransitionReason::Impact,
        }]
    );
    assert_eq!(outcome.active_body_count, 2);
    assert_eq!(outcome.transitions, 0);
}

#[test]
fn disabled_sleep_and_unsleepable_members_force_wakes() {
    let bodies = vec![member(1, true, true, true)];
    let disabled = refresh_island_sleep(0, &bodies, None, false);
    assert_eq!(
        disabled.events[0].reason,
        SleepTransitionReason::SleepDisabled
    );

    let mut kinematic = member(2, true, true, true);
    kinematic.body_type = BodyType::Kinematic;
    let mixed = vec![member(1, true, true, true), kinematic];
    assert!(!members_may_sleep(&mixed));
    let outcome = refresh_island_sleep(0, &mixed, None, true);
    assert_eq!(outcome.events.len(), 2);
    assert!(outcome
        .events
        .iter()
        .all(|e| e.reason == SleepTransitionReason::Unknown && !e.is_sleeping));
}

#[test]
fn forced_wake_counts_only_non_static_members() {
    let mut fixed = member(5, false, true, true);
    fixed.body_type = BodyType::Static;
    let bodies = vec![member(1, false, true, true), fixed];
    let outcome = force_island_awake(1, &bodies, SleepTransitionReason::UserPatch);
    assert_eq!(outcome.active_body_count, 1);
    assert!(outcome.events.is_empty());
    assert!(members_settled(&vec![member(1, true, true, false)]));
    assert!(!members_settled(&vec![member(1, false, true, false)]));
}
