//! The per-island sleep decision of a step: who sleeps, who wakes, and what is reported.
use vstd::prelude::*;

use crate::body::BodyType;
use crate::events::{SleepEvent, SleepTransitionReason};
use crate::handles::BodyHandle;

verus! {

/// What the sleep refresh reads of one island member. The motion facts are measured by
/// the caller: `low_motion` when both velocities are under the sleep thresholds, and
/// `idle_window_reached` when the body's idle time plus the step reaches the stability
/// window.
#[derive(Clone, Copy, Debug, PartialEq, Eq, Structural)]
pub struct SleepRefreshBody {
    /// The body's handle.
    pub handle: BodyHandle,
    /// The body's simulation category.
    pub body_type: BodyType,
    /// Whether the body may sleep.
    pub can_sleep: bool,
    /// Whether the body slept before this step.
    pub was_sleeping: bool,
    /// Whether the body moves slower than the sleep thresholds.
    pub low_motion: bool,
    /// Whether the body's idle time reaches the stability window this step.
    pub idle_window_reached: bool,
}

/// How a body's idle time changes.
#[derive(Clone, Copy, Debug, PartialEq, Eq, Structural)]
pub enum IdleUpdate {
    /// Back to zero.
    Reset,
    /// Plus the step, capped at the stability window.
    Accumulate,
    /// Set to the stability window.
    Saturate,
}

/// The new sleep state of one island member.
#[derive(Clone, Copy, Debug, PartialEq, Eq, Structural)]
pub struct SleepRefreshUpdate {
    /// The body's handle.
    pub handle: BodyHandle,
    /// Whether the body sleeps after the step.
    pub sleeping: bool,
    /// How its idle time changes.
    pub idle: IdleUpdate,
}

/// The outcome of the sleep refresh of one island.
pub struct IslandSleepOutcome {
    /// One update per member, in member order.
    pub updates: Vec<SleepRefreshUpdate>,
    /// The sleep transitions to report, in member order.
    pub events: Vec<SleepEvent>,
    /// The members that are awake and not static after the step.
    pub active_body_count: usize,
    /// The transitions counted by the stability path; forced wakes count none.
    pub transitions: usize,
}

/// Every member is dynamic and allowed to sleep.
pub open spec fn all_may_sleep(bodies: Seq<SleepRefreshBody>) -> bool {
    forall|i: int|
        0 <= i < bodies.len() ==> (#[trigger] bodies[i]).body_type == BodyType::Dynamic
            && bodies[i].can_sleep
}

/// Every member is dynamic, moves slowly, and either slept already or has been idle for
/// the stability window.
pub open spec fn all_settled(bodies: Seq<SleepRefreshBody>) -> bool {
    forall|i: int|
        0 <= i < bodies.len() ==> (#[trigger] bodies[i]).body_type == BodyType::Dynamic
            && bodies[i].low_motion && (bodies[i].was_sleeping || bodies[i].idle_window_reached)
}

/// The reason the island is forced awake, if it is: a pending wake reason first, then
/// sleep being disabled, then a member that may not sleep.
pub open spec fn forced_wake(
    bodies: Seq<SleepRefreshBody>,
    wake_reason: Option<SleepTransitionReason>,
    sleep_enabled: bool,
) -> Option<SleepTransitionReason> {
    match wake_reason {
        Some(reason) => Some(reason),
        None => if !sleep_enabled {
            Some(SleepTransitionReason::SleepDisabled)
        } else if !all_may_sleep(bodies) {
            Some(SleepTransitionReason::Unknown)
        } else {
            None
        },
    }
}

/// The island falls asleep: nothing forces it awake and every member has settled.
pub open spec fn island_sleeps(
    bodies: Seq<SleepRefreshBody>,
    wake_reason: Option<SleepTransitionReason>,
    sleep_enabled: bool,
) -> bool {
    forced_wake(bodies, wake_reason, sleep_enabled) is None && all_settled(bodies)
}

/// The update of one member: a forced wake or a stay-awake resets or advances its idle
/// time and leaves it awake; falling asleep saturates it.
pub open spec fn refreshed_body(
    body: SleepRefreshBody,
    forced: Option<SleepTransitionReason>,
    sleeps: bool,
) -> SleepRefreshUpdate {
    if forced is Some {
        SleepRefreshUpdate { handle: body.handle, sleeping: false, idle: IdleUpdate::Reset }
    } else if sleeps {
        SleepRefreshUpdate { handle: body.handle, sleeping: true, idle: IdleUpdate::Saturate }
    } else {
        SleepRefreshUpdate {
            handle: body.handle,
            sleeping: false,
            idle: if body.low_motion {
                IdleUpdate::Accumulate
            } else {
                IdleUpdate::Reset
            },
        }
    }
}

/// The event a member reports, if any: a forced wake reports each member that slept, with
/// the forcing reason; otherwise a member whose state changes reports it, as reaching the
/// stability window when it falls asleep.
pub open spec fn refresh_event(
    island_id: u32,
    body: SleepRefreshBody,
    forced: Option<SleepTransitionReason>,
    sleeps: bool,
) -> Option<SleepEvent> {
    match forced {
        Some(reason) => if body.was_sleeping {
            Some(SleepEvent { body: body.handle, is_sleeping: false, island_id, reason })
        } else {
            None
        },
        None => if sleeps != body.was_sleeping {
            Some(
                SleepEvent {
                    body: body.handle,
                    is_sleeping: sleeps,
                    island_id,
                    reason: if sleeps {
                        SleepTransitionReason::StabilityWindow
                    } else {
                        SleepTransitionReason::Unknown
                    },
                },
            )
        } else {
            None
        },
    }
}

/// The events of the members, in member order.
pub open spec fn refresh_events(
    island_id: u32,
    bodies: Seq<SleepRefreshBody>,
    forced: Option<SleepTransitionReason>,
    sleeps: bool,
) -> Seq<SleepEvent>
    decreases bodies.len(),
{
    if bodies.len() == 0 {
        Seq::empty()
    } else {
        let earlier = refresh_events(island_id, bodies.drop_last(), forced, sleeps);
        match refresh_event(island_id, bodies.last(), forced, sleeps) {
            Some(event) => earlier.push(event),
            None => earlier,
        }
    }
}

/// The number of members that are not static.
pub open spec fn non_static_count(bodies: Seq<SleepRefreshBody>) -> nat
    decreases bodies.len(),
{
    if bodies.len() == 0 {
        0
    } else {
        non_static_count(bodies.drop_last()) + if bodies.last().body_type == BodyType::Static {
            0nat
        } else {
            1nat
        }
    }
}

/// Returns whether every member is dynamic and allowed to sleep.
pub fn members_may_sleep(bodies: &Vec<SleepRefreshBody>) -> (r: bool)
    ensures
        r == all_may_sleep(bodies@),
{
    let mut i: usize = 0;
    while i < bodies.len()
        invariant
            i <= bodies.len(),
            forall|j: int|
                0 <= j < i ==> (#[trigger] bodies@[j]).body_type == BodyType::Dynamic
                    && bodies@[j].can_sleep,
        decreases bodies.len() - i,
    {
        if !(bodies[i].body_type.is_dynamic() && bodies[i].can_sleep) {
            return false;
        }
        i = i + 1;
    }
    true
}

/// Returns whether every member is dynamic, moves slowly, and slept already or has been
/// idle for the stability window.
pub fn members_settled(bodies: &Vec<SleepRefreshBody>) -> (r: bool)
    ensures
        r == all_settled(bodies@),
{
    let mut i: usize = 0;
    while i < bodies.len()
        invariant
            i <= bodies.len(),
            forall|j: int|
                0 <= j < i ==> (#[trigger] bodies@[j]).body_type == BodyType::Dynamic
                    && bodies@[j].low_motion && (bodies@[j].was_sleeping
                    || bodies@[j].idle_window_reached),
        decreases bodies.len() - i,
    {
        let body = bodies[i];
        if !(body.body_type.is_dynamic() && body.low_motion && (body.was_sleeping
            || body.idle_window_reached)) {
            return false;
        }
        i = i + 1;
    }
    true
}

/// Wakes every member of an island: none sleeps, idle times reset, and each member that
/// slept reports the reason.
pub fn force_island_awake(
    island_id: u32,
    bodies: &Vec<SleepRefreshBody>,
    reason: SleepTransitionReason,
) -> (outcome: IslandSleepOutcome)
    ensures
        outcome.updates@ == bodies@.map_values(
            |b: SleepRefreshBody| refreshed_body(b, Some(reason), false),
        ),
        outcome.events@ == refresh_events(island_id, bodies@, Some(reason), false),
        outcome.active_body_count == non_static_count(bodies@),
        outcome.transitions == 0,
{
    let mut updates: Vec<SleepRefreshUpdate> = Vec::new();
    let mut events: Vec<SleepEvent> = Vec::new();
    let mut active: usize = 0;
    let mut i: usize = 0;
    while i < bodies.len()
        invariant
            i <= bodies.len(),
            updates@ == bodies@.take(i as int).map_values(
                |b: SleepRefreshBody| refreshed_body(b, Some(reason), false),
            ),
            events@ == refresh_events(island_id, bodies@.take(i as int), Some(reason), false),
            active == non_static_count(bodies@.take(i as int)),
            active <= i,
        decreases bodies.len() - i,
    {
        let body = bodies[i];
        proof {
            assert(bodies@.take(i + 1).drop_last() =~= bodies@.take(i as int));
            assert(bodies@.take(i + 1).last() == body);
        }
        if !body.body_type.is_static() {
            active = active + 1;
        }
        updates.push(SleepRefreshUpdate { handle: body.handle, sleeping: false, idle: IdleUpdate::Reset });
        if body.was_sleeping {
            events.push(SleepEvent { body: body.handle, is_sleeping: false, island_id, reason });
        }
        proof {
            assert(updates@ =~= bodies@.take(i + 1).map_values(
                |b: SleepRefreshBody| refreshed_body(b, Some(reason), false),
            ));
        }
        i = i + 1;
    }
    proof {
        assert(bodies@.take(i as int) =~= bodies@);
    }
    IslandSleepOutcome { updates, events, active_body_count: active, transitions: 0 }
}

/// Decides the sleep state of one island for this step.
///
/// A pending wake reason, disabled sleep, or a member that may not sleep forces the island
/// awake. Otherwise the island falls asleep as a whole once every member has settled;
/// if one has not, every member stays awake and its idle time advances while it moves
/// slowly.
pub fn refresh_island_sleep(
    island_id: u32,
    bodies: &Vec<SleepRefreshBody>,
    wake_reason: Option<SleepTransitionReason>,
    sleep_enabled: bool,
) -> (outcome: IslandSleepOutcome)
    ensures
        outcome.updates@ == bodies@.map_values(
            |b: SleepRefreshBody|
                refreshed_body(
                    b,
                    forced_wake(bodies@, wake_reason, sleep_enabled),
                    island_sleeps(bodies@, wake_reason, sleep_enabled),
                ),
        ),
        outcome.events@ == refresh_events(
            island_id,
            bodies@,
            forced_wake(bodies@, wake_reason, sleep_enabled),
            island_sleeps(bodies@, wake_reason, sleep_enabled),
        ),
        outcome.active_body_count == if forced_wake(bodies@, wake_reason, sleep_enabled) is Some {
            non_static_count(bodies@) as int
        } else if island_sleeps(bodies@, wake_reason, sleep_enabled) {
            0
        } else {
            bodies.len() as int
        },
        outcome.transitions == if forced_wake(bodies@, wake_reason, sleep_enabled) is Some {
            0
        } else {
            outcome.events.len()
        },
{
    let forced = match wake_reason {
        Some(reason) => Some(reason),
        None => if !sleep_enabled {
            Some(SleepTransitionReason::SleepDisabled)
        } else if !members_may_sleep(bodies) {
            Some(SleepTransitionReason::Unknown)
        } else {
            None
        },
    };
    if let Some(reason) = forced {
        return force_island_awake(island_id, bodies, reason);
    }
    let sleeps = members_settled(bodies);
    let mut updates: Vec<SleepRefreshUpdate> = Vec::new();
    let mut events: Vec<SleepEvent> = Vec::new();
    let mut active: usize = 0;
    let mut transitions: usize = 0;
    let mut i: usize = 0;
    while i < bodies.len()
        invariant
            i <= bodies.len(),
            updates@ == bodies@.take(i as int).map_values(
                |b: SleepRefreshBody| refreshed_body(b, None, sleeps),
            ),
            events@ == refresh_events(island_id, bodies@.take(i as int), None, sleeps),
            active == if sleeps {
                0
            } else {
                i as int
            },
            transitions == events.len(),
            events.len() <= i,
        decreases bodies.len() - i,
    {
        let body = bodies[i];
        proof {
            assert(bodies@.take(i + 1).drop_last() =~= bodies@.take(i as int));
            assert(bodies@.take(i + 1).last() == body);
        }
        let update = if sleeps {
            SleepRefreshUpdate { handle: body.handle, sleeping: true, idle: IdleUpdate::Saturate }
        } else {
            active = active + 1;
            SleepRefreshUpdate {
                handle: body.handle,
                sleeping: false,
                idle: if body.low_motion {
                    IdleUpdate::Accumulate
                } else {
                    IdleUpdate::Reset
                },
            }
        };
        updates.push(update);
        if sleeps != body.was_sleeping {
            transitions = transitions + 1;
            let reason = if sleeps {
                SleepTransitionReason::StabilityWindow
            } else {
                SleepTransitionReason::Unknown
            };
            events.push(SleepEvent { body: body.handle, is_sleeping: sleeps, island_id, reason });
        }
        proof {
            assert(updates@ =~= bodies@.take(i + 1).map_values(
                |b: SleepRefreshBody| refreshed_body(b, None, sleeps),
            ));
        }
        i = i + 1;
    }
    proof {
        assert(bodies@.take(i as int) =~= bodies@);
    }
    IslandSleepOutcome { updates, events, active_body_count: active, transitions }
}

/// An island moves as one: after the refresh every member sleeps, or none does.
pub proof fn lemma_island_moves_as_one(
    bodies: Seq<SleepRefreshBody>,
    wake_reason: Option<SleepTransitionReason>,
    sleep_enabled: bool,
    i: int,
    j: int,
)
    requires
        0 <= i < bodies.len(),
        0 <= j < bodies.len(),
    ensures
        refreshed_body(
            bodies[i],
            forced_wake(bodies, wake_reason, sleep_enabled),
            island_sleeps(bodies, wake_reason, sleep_enabled),
        ).sleeping == refreshed_body(
            bodies[j],
            forced_wake(bodies, wake_reason, sleep_enabled),
            island_sleeps(bodies, wake_reason, sleep_enabled),
        ).sleeping,
{
}

/// An island falls asleep only when no wake reason is pending, sleep is enabled, and every
/// member is dynamic, allowed to sleep, slow, and slept already or idled for the window.
pub proof fn lemma_sleep_needs_settled_members(
    bodies: Seq<SleepRefreshBody>,
    wake_reason: Option<SleepTransitionReason>,
    sleep_enabled: bool,
)
    requires
        island_sleeps(bodies, wake_reason, sleep_enabled),
    ensures
        wake_reason is None,
        sleep_enabled,
        forall|i: int|
            0 <= i < bodies.len() ==> (#[trigger] bodies[i]).body_type == BodyType::Dynamic
                && bodies[i].can_sleep && bodies[i].low_motion && (bodies[i].was_sleeping
                || bodies[i].idle_window_reached),
{
    assert forall|i: int| 0 <= i < bodies.len() implies (#[trigger] bodies[i]).body_type
        == BodyType::Dynamic && bodies[i].can_sleep && bodies[i].low_motion && (
    bodies[i].was_sleeping || bodies[i].idle_window_reached) by {
        assert(all_may_sleep(bodies));
        assert(all_settled(bodies));
    }
}

/// A member reports an event exactly when its sleep state changes, and the event carries
/// the member, its new state and the island.
pub proof fn lemma_event_iff_state_changes(
    island_id: u32,
    body: SleepRefreshBody,
    forced: Option<SleepTransitionReason>,
    sleeps: bool,
)
    ensures
        refresh_event(island_id, body, forced, sleeps) is Some <==> refreshed_body(
            body,
            forced,
            sleeps,
        ).sleeping != body.was_sleeping,
        refresh_event(island_id, body, forced, sleeps) matches Some(e) ==> e.body == body.handle
            && e.island_id == island_id && e.is_sleeping == refreshed_body(
            body,
            forced,
            sleeps,
        ).sleeping,
{
}

/// An island with a pending wake reason ends fully awake, and every event it reports is a
/// wake with that reason.
pub proof fn lemma_wake_reason_wakes_island(
    island_id: u32,
    bodies: Seq<SleepRefreshBody>,
    reason: SleepTransitionReason,
    sleep_enabled: bool,
)
    ensures
        forall|i: int|
            0 <= i < bodies.len() ==> !(#[trigger] refreshed_body(
                bodies[i],
                forced_wake(bodies, Some(reason), sleep_enabled),
                island_sleeps(bodies, Some(reason), sleep_enabled),
            )).sleeping,
        forall|k: int|
            0 <= k < refresh_events(
                island_id,
                bodies,
                forced_wake(bodies, Some(reason), sleep_enabled),
                island_sleeps(bodies, Some(reason), sleep_enabled),
            ).len() ==> #[trigger] refresh_events(
                island_id,
                bodies,
                forced_wake(bodies, Some(reason), sleep_enabled),
                island_sleeps(bodies, Some(reason), sleep_enabled),
            )[k].reason == reason && !refresh_events(
                island_id,
                bodies,
                forced_wake(bodies, Some(reason), sleep_enabled),
                island_sleeps(bodies, Some(reason), sleep_enabled),
            )[k].is_sleeping,
{
    lemma_forced_events_are_wakes(island_id, bodies, reason, island_sleeps(bodies, Some(reason), sleep_enabled));
}

proof fn lemma_forced_events_are_wakes(
    island_id: u32,
    bodies: Seq<SleepRefreshBody>,
    reason: SleepTransitionReason,
    sleeps: bool,
)
    ensures
        forall|k: int|
            0 <= k < refresh_events(island_id, bodies, Some(reason), sleeps).len()
                ==> #[trigger] refresh_events(island_id, bodies, Some(reason), sleeps)[k].reason
                == reason && !refresh_events(island_id, bodies, Some(reason), sleeps)[k].is_sleeping,
    decreases bodies.len(),
{
    if bodies.len() > 0 {
        lemma_forced_events_are_wakes(island_id, bodies.drop_last(), reason, sleeps);
    }
}


/// In an island that nothing forces awake (no pending wake reason, sleep enabled, every
/// member dynamic and allowed to sleep) but that does not fall asleep because some member
/// has not settled, every member stays awake, and a slow member accumulates idle time
/// whether or not it slept before, while a fast one resets it.
pub proof fn lemma_unsettled_island_accumulates_slow_members(
    bodies: Seq<SleepRefreshBody>,
    i: int,
    unsettled: int,
)
    requires
        0 <= i < bodies.len(),
        forall|j: int|
            0 <= j < bodies.len() ==> (#[trigger] bodies[j]).body_type == BodyType::Dynamic
                && bodies[j].can_sleep,
        0 <= unsettled < bodies.len(),
        !(bodies[unsettled].low_motion && (bodies[unsettled].was_sleeping
            || bodies[unsettled].idle_window_reached)),
    ensures
        refreshed_body(
            bodies[i],
            forced_wake(bodies, None, true),
            island_sleeps(bodies, None, true),
        ) == (SleepRefreshUpdate {
            handle: bodies[i].handle,
            sleeping: false,
            idle: if bodies[i].low_motion {
                IdleUpdate::Accumulate
            } else {
                IdleUpdate::Reset
            },
        }),
{
    assert(all_may_sleep(bodies));
    assert(!all_settled(bodies)) by {
        if all_settled(bodies) {
            assert(bodies[unsettled].low_motion);
        }
    }
}

/// Once every member of an island that nothing forces awake is slow and has slept already
/// or idled for the stability window, every member falls asleep with its idle time
/// saturated; members that were awake report falling asleep at the stability window.
pub proof fn lemma_settled_island_falls_asleep(
    island_id: u32,
    bodies: Seq<SleepRefreshBody>,
    i: int,
)
    requires
        0 <= i < bodies.len(),
        forall|j: int|
            0 <= j < bodies.len() ==> (#[trigger] bodies[j]).body_type == BodyType::Dynamic
                && bodies[j].can_sleep && bodies[j].low_motion && (bodies[j].was_sleeping
                || bodies[j].idle_window_reached),
    ensures
        refreshed_body(
            bodies[i],
            forced_wake(bodies, None, true),
            island_sleeps(bodies, None, true),
        ) == (SleepRefreshUpdate {
            handle: bodies[i].handle,
            sleeping: true,
            idle: IdleUpdate::Saturate,
        }),
        !bodies[i].was_sleeping ==> refresh_event(
            island_id,
            bodies[i],
            forced_wake(bodies, None, true),
            island_sleeps(bodies, None, true),
        ) == Some(
            SleepEvent {
                body: bodies[i].handle,
                is_sleeping: true,
                island_id,
                reason: SleepTransitionReason::StabilityWindow,
            },
        ),
{
    assert(all_may_sleep(bodies));
    assert(all_settled(bodies));
}

} // verus!
