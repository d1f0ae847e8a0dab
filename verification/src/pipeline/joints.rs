//! Joint solve batches: the joint rows of the active islands with their body slots.
use vstd::prelude::*;

use crate::handles::BodyHandle;
use crate::pipeline::island::{
    active_islands, batch_of, body_island, body_island_map, build_island_solve_plan,
    initial_batches, lemma_batch_of_in_range, lemma_with_slot, plan_contacts, plan_joint,
    plan_joints, solve_plan, target_island, with_slot, IslandSolveBatchView, JointSolveInput,
    JointSolvePlanRow, SolverStepStats,
};
use crate::pipeline::sleep::SolverIsland;

verus! {

/// The joint work of one island: its body slots and joint rows.
pub struct JointSolveBatch<A, W> {
    /// Bodies by island-local slot.
    pub body_slots: Vec<BodyHandle>,
    /// Joint rows in input order.
    pub rows: Vec<JointSolvePlanRow<A, W>>,
}

/// The batches that have joint rows, in island order.
pub open spec fn joint_batches<A, W>(plan: Seq<IslandSolveBatchView<A, W>>) -> Seq<
    IslandSolveBatchView<A, W>,
>
    decreases plan.len(),
{
    if plan.len() == 0 {
        Seq::empty()
    } else if plan.last().joint_rows.len() > 0 {
        joint_batches(plan.drop_last()).push(plan.last())
    } else {
        joint_batches(plan.drop_last())
    }
}

/// The number of body slots over the batches.
pub open spec fn slot_total<A, W>(batches: Seq<IslandSolveBatchView<A, W>>) -> nat
    decreases batches.len(),
{
    if batches.len() == 0 {
        0
    } else {
        slot_total(batches.drop_last()) + batches.last().body_slots.len()
    }
}

/// The number of joint rows over the batches.
pub open spec fn row_total<A, W>(batches: Seq<IslandSolveBatchView<A, W>>) -> nat
    decreases batches.len(),
{
    if batches.len() == 0 {
        0
    } else {
        row_total(batches.drop_last()) + batches.last().joint_rows.len()
    }
}

/// The number of member bodies over the islands.
pub open spec fn member_total(islands: Seq<SolverIsland>) -> nat
    decreases islands.len(),
{
    if islands.len() == 0 {
        0
    } else {
        member_total(islands.drop_last()) + islands.last().bodies@.len()
    }
}

/// Replacing one batch changes each total by the difference it brings.
pub proof fn lemma_totals_update<A, W>(
    batches: Seq<IslandSolveBatchView<A, W>>,
    k: int,
    batch: IslandSolveBatchView<A, W>,
)
    requires
        0 <= k < batches.len(),
    ensures
        slot_total(batches.update(k, batch)) == slot_total(batches) - batches[k].body_slots.len()
            + batch.body_slots.len(),
        row_total(batches.update(k, batch)) == row_total(batches) - batches[k].joint_rows.len()
            + batch.joint_rows.len(),
    decreases batches.len(),
{
    let updated = batches.update(k, batch);
    if k == batches.len() - 1 {
        assert(updated.drop_last() =~= batches.drop_last());
    } else {
        assert(updated.drop_last() =~= batches.drop_last().update(k, batch));
        lemma_totals_update(batches.drop_last(), k, batch);
    }
}

/// Planning joints adds at most two slots and exactly one row per routed joint.
proof fn lemma_plan_joints_totals<A, W>(
    batches: Seq<IslandSolveBatchView<A, W>>,
    active: Seq<SolverIsland>,
    joints: Seq<JointSolveInput<A, W>>,
)
    requires
        batches.len() == active.len(),
    ensures
        plan_joints(batches, active, joints).len() == batches.len(),
        slot_total(plan_joints(batches, active, joints)) <= slot_total(batches) + 2 * joints.len(),
        row_total(plan_joints(batches, active, joints)) <= row_total(batches) + joints.len(),
    decreases joints.len(),
{
    if joints.len() > 0 {
        let before = plan_joints(batches, active, joints.drop_last());
        lemma_plan_joints_totals(batches, active, joints.drop_last());
        let after = plan_joints(batches, active, joints);
        assert(after == plan_joint(before, active, joints.last()));
        match joints.last() {
            JointSolveInput::Distance { body_a, body_b, desc } => {
                let island = target_island(body_island_map(active), body_a@, body_b@);
                lemma_batch_of_in_range(active, island);
                if let Some(k) = batch_of(active, island) {
                    let slots = before[k].body_slots;
                    lemma_with_slot(slots, body_a);
                    lemma_with_slot(with_slot(slots, body_a), body_b);
                    lemma_totals_update(before, k, after[k]);
                    assert(after == before.update(k, after[k]));
                }
            },
            JointSolveInput::WorldAnchor { body, desc } => {
                let island = body_island(body_island_map(active), body@);
                lemma_batch_of_in_range(active, island);
                if let Some(k) = batch_of(active, island) {
                    lemma_with_slot(before[k].body_slots, body);
                    lemma_totals_update(before, k, after[k]);
                    assert(after == before.update(k, after[k]));
                }
            },
        }
    }
}

/// The initial batches hold the members of the active islands and no rows.
proof fn lemma_initial_totals<A, W>(active: Seq<SolverIsland>)
    ensures
        slot_total(initial_batches::<A, W>(active)) == member_total(active),
        row_total(initial_batches::<A, W>(active)) == 0,
    decreases active.len(),
{
    if active.len() > 0 {
        lemma_initial_totals::<A, W>(active.drop_last());
        assert(initial_batches::<A, W>(active).drop_last() =~= initial_batches::<A, W>(
            active.drop_last(),
        ));
    }
}

/// The active islands hold no more members than all islands.
proof fn lemma_active_member_total(islands: Seq<SolverIsland>)
    ensures
        member_total(active_islands(islands)) <= member_total(islands),
    decreases islands.len(),
{
    if islands.len() > 0 {
        lemma_active_member_total(islands.drop_last());
        if islands.last().active {
            assert(active_islands(islands).drop_last() =~= active_islands(islands.drop_last()));
        }
    }
}

/// Keeping the batches with joint rows keeps every row and no more slots.
proof fn lemma_joint_batches_totals<A, W>(plan: Seq<IslandSolveBatchView<A, W>>)
    ensures
        slot_total(joint_batches(plan)) <= slot_total(plan),
        row_total(joint_batches(plan)) == row_total(plan),
    decreases plan.len(),
{
    if plan.len() > 0 {
        lemma_joint_batches_totals(plan.drop_last());
        if plan.last().joint_rows.len() > 0 {
            assert(joint_batches(plan).drop_last() =~= joint_batches(plan.drop_last()));
        }
    }
}

/// The totals of the batches kept from a prefix of the plan are at most those of the plan.
proof fn lemma_joint_batches_prefix<A, W>(plan: Seq<IslandSolveBatchView<A, W>>, i: int)
    requires
        0 <= i <= plan.len(),
    ensures
        slot_total(joint_batches(plan.take(i))) <= slot_total(joint_batches(plan)),
        row_total(joint_batches(plan.take(i))) <= row_total(joint_batches(plan)),
    decreases plan.len(),
{
    if i == plan.len() {
        assert(plan.take(i) =~= plan);
    } else {
        assert(plan.take(i) =~= plan.drop_last().take(i));
        lemma_joint_batches_prefix(plan.drop_last(), i);
        if plan.last().joint_rows.len() > 0 {
            assert(joint_batches(plan).drop_last() =~= joint_batches(plan.drop_last()));
        }
    }
}

/// Plans the joint rows of a step on the active islands and keeps the islands that have
/// joint rows, with their body slots; the counters give the slots of the kept islands and
/// the joint rows. Contacts take no part here.
pub fn joint_solve_batches<A, W>(
    islands: &[SolverIsland],
    joints: Vec<JointSolveInput<A, W>>,
) -> (r: (Vec<JointSolveBatch<A, W>>, SolverStepStats))
    requires
        member_total(islands@) + 2 * joints.len() <= usize::MAX,
    ensures
        ({
            let kept = joint_batches(solve_plan(islands@, Seq::empty(), joints@));
            &&& r.0@.len() == kept.len()
            &&& forall|i: int|
                0 <= i < kept.len() ==> (#[trigger] r.0@[i]).body_slots@ == kept[i].body_slots
                    && r.0@[i].rows@ == kept[i].joint_rows
            &&& r.1 == SolverStepStats {
                island_count: 0,
                active_island_count: 0,
                sleeping_island_skip_count: 0,
                body_slot_count: slot_total(kept) as usize,
                contact_row_count: 0,
                joint_row_count: row_total(kept) as usize,
            }
        }),
{
    let ghost joint_seq = joints@;
    let plan = build_island_solve_plan(islands, Vec::new(), joints);
    let ghost planned = plan@;
    let ghost active = active_islands(islands@);
    proof {
        let initial = initial_batches::<A, W>(active);
        assert(plan_contacts(initial, active, Seq::empty()) == initial);
        lemma_initial_totals::<A, W>(active);
        lemma_active_member_total(islands@);
        lemma_plan_joints_totals(initial, active, joint_seq);
        lemma_joint_batches_totals(planned);
        assert(planned == solve_plan(islands@, Seq::<(usize, BodyHandle, BodyHandle)>::empty(), joint_seq));
    }
    let mut batches: Vec<JointSolveBatch<A, W>> = Vec::new();
    let mut body_slot_count: usize = 0;
    let mut joint_row_count: usize = 0;
    for batch in it: plan.islands.into_iter()
        invariant
            it.seq().map_values(|b: crate::pipeline::island::IslandSolveBatch<A, W>| b@) == planned,
            slot_total(joint_batches(planned)) <= usize::MAX,
            row_total(joint_batches(planned)) <= usize::MAX,
            batches@.len() == joint_batches(planned.take(it.index() as int)).len(),
            forall|i: int|
                0 <= i < batches@.len() ==> (#[trigger] batches@[i]).body_slots@ == joint_batches(
                    planned.take(it.index() as int),
                )[i].body_slots && batches@[i].rows@ == joint_batches(
                    planned.take(it.index() as int),
                )[i].joint_rows,
            body_slot_count == slot_total(joint_batches(planned.take(it.index() as int))),
            joint_row_count == row_total(joint_batches(planned.take(it.index() as int))),
    {
        let ghost n = it.index();
        let ghost prev = planned.take(n as int);
        let ghost next = planned.take(n + 1);
        let ghost before = batches@;
        proof {
            assert(next.drop_last() =~= prev);
            assert(it.seq().map_values(|b: crate::pipeline::island::IslandSolveBatch<A, W>| b@)[n as int] == planned[n as int]);
            assert(next.last() == batch@);
            lemma_joint_batches_prefix(planned, n + 1);
        }
        if batch.joint_rows.len() > 0 {
            proof {
                assert(joint_batches(next) == joint_batches(prev).push(next.last()));
                assert(joint_batches(next).drop_last() =~= joint_batches(prev));
                assert(slot_total(joint_batches(next)) == body_slot_count + batch.body_slots@.len());
                assert(row_total(joint_batches(next)) == joint_row_count + batch.joint_rows@.len());
            }
            body_slot_count = body_slot_count + batch.body_slots.len();
            joint_row_count = joint_row_count + batch.joint_rows.len();
            batches.push(JointSolveBatch { body_slots: batch.body_slots, rows: batch.joint_rows });
            proof {
                assert(joint_batches(next) == joint_batches(prev).push(next.last()));
                assert forall|i: int| 0 <= i < batches@.len() implies (#[trigger] batches@[i]).body_slots@
                    == joint_batches(next)[i].body_slots && batches@[i].rows@ == joint_batches(
                    next,
                )[i].joint_rows by {
                    if i < before.len() {
                        assert(batches@[i] == before[i]);
                    }
                }
            }
        } else {
            proof {
                assert(joint_batches(next) == joint_batches(prev));
            }
        }
    }
    proof {
        assert(planned.take(planned.len() as int) =~= planned);
    }
    let stats = SolverStepStats {
        island_count: 0,
        active_island_count: 0,
        sleeping_island_skip_count: 0,
        body_slot_count,
        contact_row_count: 0,
        joint_row_count,
    };
    (batches, stats)
}

} // verus!
