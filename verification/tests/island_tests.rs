use picea::body_map::BodyMap;
use picea::handles::BodyHandle;
use picea::pipeline::island::{
    build_island_solve_plan, contact_target_island, ContactSolvePlanRow, JointSolveInput,
    JointSolvePlanRow, SolverStepStats,
};
use picea::pipeline::joints::joint_solve_batches;
use picea::pipeline::sleep::SolverIsland;

#[derive(Clone, Debug, PartialEq)]
struct DistanceDesc {
    local_anchor_a: (f32, f32),
    local_anchor_b: (f32, f32),
    rest_length: f32,
    stiffness: f32,
    damping: f32,
    user_data: u128,
}

#[derive(Clone, Debug, PartialEq)]
struct AnchorDesc {
    local_anchor: (f32, f32),
    world_anchor: (f32, f32),
    stiffness: f32,
    damping: f32,
    user_data: u128,
}

fn distance_desc() -> DistanceDesc {
    DistanceDesc {
        local_anchor_a: (0.0, 0.0),
        local_anchor_b: (0.0, 0.0),
        rest_length: 1.0,
        stiffness: 1.0,
        damping: 0.0,
        user_data: 0,
    }
}

fn anchor_desc() -> AnchorDesc {
    AnchorDesc {
        local_anchor: (0.0, 0.0),
        world_anchor: (0.0, 0.0),
        stiffness: 1.0,
        damping: 0.0,
        user_data: 0,
    }
}

#[test]
fn dense_plan_keeps_deterministic_island_order_and_slots() {
    let dynamic_a = BodyHandle::from_raw_parts(10, 0);
    let dynamic_b = BodyHandle::from_raw_parts(20, 0);
    let static_body = BodyHandle::from_raw_parts(1, 0);
    let dynamic_c = BodyHandle::from_raw_parts(30, 0);
    let joints: Vec<JointSolveInput<DistanceDesc, AnchorDesc>> = vec![JointSolveInput::Distance {
        body_a: dynamic_a,
        body_b: static_body,
        desc: distance_desc(),
    }];
    let plan = build_island_solve_plan(
        &[
            SolverIsland {
                id: 7,
                bodies: vec![dynamic_a, dynamic_b],
                active: true,
            },
            SolverIsland {
                id: 9,
                bodies: vec![dynamic_c],
                active: true,
            },
        ],
        vec![
            (4usize, dynamic_b, static_body),
            (2usize, dynamic_a, dynamic_b),
            (8usize, dynamic_c, static_body),
        ],
        joints,
    );

    assert_eq!(plan.islands.len(), 2);
    assert_eq!(plan.islands[0].island_id, 7);
    assert_eq!(
        plan.islands[0].body_slots,
        vec![dynamic_a, dynamic_b, static_body]
    );
    assert_eq!(
        plan.islands[0].contact_rows,
        vec![
            ContactSolvePlanRow {
                contact_index: 4,
                body_a_slot: 1,
                body_b_slot: 2,
            },
            ContactSolvePlanRow {
                contact_index: 2,
                body_a_slot: 0,
                body_b_slot: 1,
            },
        ]
    );
    assert_eq!(plan.islands[1].island_id, 9);
    assert_eq!(plan.islands[1].body_slots, vec![dynamic_c, static_body]);
    assert_eq!(
        plan.islands[1].contact_rows,
        vec![ContactSolvePlanRow {
            contact_index: 8,
            body_a_slot: 0,
            body_b_slot: 1,
        }]
    );
    assert_eq!(plan.islands[1].joint_rows.len(), 0);
    assert_eq!(plan.islands[0].joint_rows.len(), 1);
}

#[test]
fn sleeping_islands_do_not_allocate_hot_rows() {
    let sleeping_body = BodyHandle::from_raw_parts(40, 0);
    let awake_body = BodyHandle::from_raw_parts(50, 0);
    let static_body = BodyHandle::from_raw_parts(1, 0);

    let joints: Vec<JointSolveInput<DistanceDesc, AnchorDesc>> =
        vec![JointSolveInput::WorldAnchor {
            body: sleeping_body,
            desc: anchor_desc(),
        }];
    let plan = build_island_solve_plan(
        &[
            SolverIsland {
                id: 1,
                bodies: vec![sleeping_body],
                active: false,
            },
            SolverIsland {
                id: 2,
                bodies: vec![awake_body],
                active: true,
            },
        ],
        vec![
            (0usize, sleeping_body, static_body),
            (1usize, awake_body, static_body),
        ],
        joints,
    );

    assert_eq!(plan.islands.len(), 1);
    assert_eq!(plan.islands[0].island_id, 2);
    assert_eq!(plan.islands[0].contact_rows.len(), 1);
    assert!(plan.islands[0].joint_rows.is_empty());
    assert_eq!(plan.islands[0].body_slots, vec![awake_body, static_body]);
}

#[test]
fn joint_rows_carry_their_description_and_slots() {
    let a = BodyHandle::from_raw_parts(3, 0);
    let b = BodyHandle::from_raw_parts(4, 0);
    let outside = BodyHandle::from_raw_parts(9, 1);
    let mut far = distance_desc();
    far.rest_length = 2.5;
    let joints: Vec<JointSolveInput<DistanceDesc, AnchorDesc>> = vec![
        JointSolveInput::WorldAnchor {
            body: b,
            desc: anchor_desc(),
        },
        JointSolveInput::Distance {
            body_a: outside,
            body_b: a,
            desc: far.clone(),
        },
    ];
    let plan = build_island_solve_plan(
        &[SolverIsland {
            id: 0,
            bodies: vec![a, b],
            active: true,
        }],
        Vec::new(),
        joints,
    );
    assert_eq!(plan.islands.len(), 1);
    assert_eq!(plan.islands[0].body_slots, vec![a, b, outside]);
    assert_eq!(plan.islands[0].joint_rows.len(), 2);
    match &plan.islands[0].joint_rows[0] {
        JointSolvePlanRow::WorldAnchor { desc, body_slot } => {
            assert_eq!(*body_slot, 1);
            assert_eq!(*desc, anchor_desc());
        }
        JointSolvePlanRow::Distance { .. } => panic!("expected a world-anchor row"),
    }
    match &plan.islands[0].joint_rows[1] {
        JointSolvePlanRow::Distance {
            desc,
            body_a_slot,
            body_b_slot,
        } => {
            assert_eq!((*body_a_slot, *body_b_slot), (2, 0));
            assert_eq!(*desc, far);
        }
        JointSolvePlanRow::WorldAnchor { .. } => panic!("expected a distance row"),
    }
}

#[test]
fn rows_spanning_two_islands_are_dropped() {
    let a = BodyHandle::from_raw_parts(1, 0);
    let b = BodyHandle::from_raw_parts(2, 0);
    let joints: Vec<JointSolveInput<DistanceDesc, AnchorDesc>> = vec![JointSolveInput::Distance {
        body_a: a,
        body_b: b,
        desc: distance_desc(),
    }];
    let plan = build_island_solve_plan(
        &[
            SolverIsland {
                id: 0,
                bodies: vec![a],
                active: true,
            },
            SolverIsland {
                id: 1,
                bodies: vec![b],
                active: true,
            },
        ],
        vec![(0usize, a, b)],
        joints,
    );
    assert_eq!(plan.islands.len(), 2);
    assert!(plan.islands[0].contact_rows.is_empty());
    assert!(plan.islands[1].contact_rows.is_empty());
    assert!(plan.islands[0].joint_rows.is_empty());
    assert_eq!(plan.islands[0].body_slots, vec![a]);
    assert_eq!(plan.islands[1].body_slots, vec![b]);
}

#[test]
fn target_island_prefers_the_shared_or_only_island() {
    let a = BodyHandle::from_raw_parts(1, 0);
    let b = BodyHandle::from_raw_parts(2, 0);
    let c = BodyHandle::from_raw_parts(3, 0);
    let free = BodyHandle::from_raw_parts(4, 0);
    let mut islands = BodyMap::new();
    islands.insert(a, 5u32);
    islands.insert(b, 5u32);
    islands.insert(c, 6u32);
    assert_eq!(contact_target_island(a, b, &islands), Some(5));
    assert_eq!(contact_target_island(a, c, &islands), None);
    assert_eq!(contact_target_island(free, c, &islands), Some(6));
    assert_eq!(contact_target_island(c, free, &islands), Some(6));
    assert_eq!(contact_target_island(free, free, &islands), None);
}

#[test]
fn solver_step_stats_accumulate_field_by_field() {
    let mut total = SolverStepStats::default();
    let step = SolverStepStats {
        island_count: 3,
        active_island_count: 2,
        sleeping_island_skip_count: 1,
        body_slot_count: 7,
        contact_row_count: 5,
        joint_row_count: 1,
    };
    total.accumulate(step);
    total.accumulate(step);
    assert_eq!(
        total,
        SolverStepStats {
            island_count: 6,
            active_island_count: 4,
            sleeping_island_skip_count: 2,
            body_slot_count: 14,
            contact_row_count: 10,
            joint_row_count: 2,
        }
    );
}

#[test]
fn joint_batches_keep_islands_with_joint_rows_and_count_their_slots() {
    let a = BodyHandle::from_raw_parts(1, 0);
    let b = BodyHandle::from_raw_parts(2, 0);
    let c = BodyHandle::from_raw_parts(3, 0);
    let d = BodyHandle::from_raw_parts(4, 0);
    let fixed = BodyHandle::from_raw_parts(100, 0);
    let joints: Vec<JointSolveInput<DistanceDesc, AnchorDesc>> = vec![
        JointSolveInput::Distance {
            body_a: a,
            body_b: fixed,
            desc: distance_desc(),
        },
        JointSolveInput::WorldAnchor {
            body: c,
            desc: anchor_desc(),
        },
        JointSolveInput::WorldAnchor {
            body: b,
            desc: anchor_desc(),
        },
    ];
    let islands = [
        SolverIsland {
            id: 0,
            bodies: vec![a, b],
            active: true,
        },
        SolverIsland {
            id: 1,
            bodies: vec![c],
            active: false,
        },
        SolverIsland {
            id: 2,
            bodies: vec![d],
            active: true,
        },
    ];
    let (batches, stats) = joint_solve_batches(&islands, joints);
    assert_eq!(batches.len(), 1);
    assert_eq!(batches[0].body_slots, vec![a, b, fixed]);
    assert_eq!(batches[0].rows.len(), 2);
    assert_eq!(
        stats,
        SolverStepStats {
            island_count: 0,
            active_island_count: 0,
            sleeping_island_skip_count: 0,
            body_slot_count: 3,
            contact_row_count: 0,
            joint_row_count: 2,
        }
    );
}
