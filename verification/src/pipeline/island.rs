//! Island solve planning: per-island body slots and solver rows.
use vstd::prelude::*;

use std::collections::BTreeMap;

use crate::body_map::BodyMap;
use crate::handles::BodyHandle;
use crate::pipeline::sleep::SolverIsland;

verus! {

/// Counters describing the island solve work of one step.
#[derive(Clone, Copy, Debug, PartialEq, Eq, Structural)]
pub struct SolverStepStats {
    /// Number of islands considered.
    pub island_count: usize,
    /// Number of islands solved.
    pub active_island_count: usize,
    /// Number of sleeping islands skipped.
    pub sleeping_island_skip_count: usize,
    /// Number of body slots allocated.
    pub body_slot_count: usize,
    /// Number of contact rows solved.
    pub contact_row_count: usize,
    /// Number of joint rows solved.
    pub joint_row_count: usize,
}

impl Default for SolverStepStats {
    fn default() -> (r: Self)
        ensures
            r.island_count == 0,
            r.active_island_count == 0,
            r.sleeping_island_skip_count == 0,
            r.body_slot_count == 0,
            r.contact_row_count == 0,
            r.joint_row_count == 0,
    {
        SolverStepStats {
            island_count: 0,
            active_island_count: 0,
            sleeping_island_skip_count: 0,
            body_slot_count: 0,
            contact_row_count: 0,
            joint_row_count: 0,
        }
    }
}

impl SolverStepStats {
    /// Adds another set of counters to these, field by field.
    pub fn accumulate(&mut self, other: Self)
        requires
            old(self).island_count + other.island_count <= usize::MAX,
            old(self).active_island_count + other.active_island_count <= usize::MAX,
            old(self).sleeping_island_skip_count + other.sleeping_island_skip_count <= usize::MAX,
            old(self).body_slot_count + other.body_slot_count <= usize::MAX,
            old(self).contact_row_count + other.contact_row_count <= usize::MAX,
            old(self).joint_row_count + other.joint_row_count <= usize::MAX,
        ensures
            final(self).island_count == old(self).island_count + other.island_count,
            final(self).active_island_count == old(self).active_island_count
                + other.active_island_count,
            final(self).sleeping_island_skip_count == old(self).sleeping_island_skip_count
                + other.sleeping_island_skip_count,
            final(self).body_slot_count == old(self).body_slot_count + other.body_slot_count,
            final(self).contact_row_count == old(self).contact_row_count + other.contact_row_count,
            final(self).joint_row_count == old(self).joint_row_count + other.joint_row_count,
    {
        self.island_count = self.island_count + other.island_count;
        self.active_island_count = self.active_island_count + other.active_island_count;
        self.sleeping_island_skip_count = self.sleeping_island_skip_count
            + other.sleeping_island_skip_count;
        self.body_slot_count = self.body_slot_count + other.body_slot_count;
        self.contact_row_count = self.contact_row_count + other.contact_row_count;
        self.joint_row_count = self.joint_row_count + other.joint_row_count;
    }
}

/// The island a row between two bodies belongs to: the common island of both bodies, or
/// the island of the only body that has one; rows spanning two islands, or no island,
/// belong nowhere.
pub open spec fn target_island(body_islands: Map<u64, u32>, a: u64, b: u64) -> Option<u32> {
    if body_islands.contains_key(a) && body_islands.contains_key(b) {
        if body_islands[a] == body_islands[b] {
            Some(body_islands[a])
        } else {
            None
        }
    } else if body_islands.contains_key(a) {
        Some(body_islands[a])
    } else if body_islands.contains_key(b) {
        Some(body_islands[b])
    } else {
        None
    }
}

/// Returns the island that a row between two bodies belongs to.
pub fn contact_target_island(
    body_a: BodyHandle,
    body_b: BodyHandle,
    body_islands: &BodyMap<u32>,
) -> (r: Option<u32>)
    ensures
        r == target_island(body_islands@, body_a@, body_b@),
{
    let a = match body_islands.get(body_a) {
        Some(id) => Some(*id),
        None => None,
    };
    let b = match body_islands.get(body_b) {
        Some(id) => Some(*id),
        None => None,
    };
    match (a, b) {
        (Some(a), Some(b)) => if a == b {
            Some(a)
        } else {
            None
        },
        (Some(a), None) => Some(a),
        (None, Some(b)) => Some(b),
        (None, None) => None,
    }
}

/// A row's island does not depend on which of its two bodies is named first.
pub proof fn lemma_target_island_symmetric(body_islands: Map<u64, u32>, a: u64, b: u64)
    ensures
        target_island(body_islands, a, b) == target_island(body_islands, b, a),
{
}

/// A contact row of the solve plan: the contact it solves and the island-local slots of
/// its two bodies.
#[derive(Clone, Copy, Debug, PartialEq, Eq, Structural)]
pub struct ContactSolvePlanRow {
    /// Index of the contact in the step's contact list.
    pub contact_index: usize,
    /// Slot of the first body in the island batch.
    pub body_a_slot: usize,
    /// Slot of the second body in the island batch.
    pub body_b_slot: usize,
}

/// A joint handed to the solve planner: the bodies it connects and its solver description.
pub enum JointSolveInput<A, W> {
    /// A distance joint between two bodies.
    Distance { body_a: BodyHandle, body_b: BodyHandle, desc: A },
    /// A joint from one body to a fixed world anchor.
    WorldAnchor { body: BodyHandle, desc: W },
}

/// A joint row of the solve plan: the joint description and the slots of its bodies.
pub enum JointSolvePlanRow<A, W> {
    /// A distance joint row.
    Distance { desc: A, body_a_slot: usize, body_b_slot: usize },
    /// A world-anchor joint row.
    WorldAnchor { desc: W, body_slot: usize },
}

/// The solver work of one active island: its body slots and the rows that use them.
pub struct IslandSolveBatch<A, W> {
    /// Id of the island.
    pub island_id: u32,
    /// Bodies by island-local slot: the island's members first, then the other bodies
    /// that its rows touch, in the order they were first needed.
    pub body_slots: Vec<BodyHandle>,
    /// Contact rows in input order.
    pub contact_rows: Vec<ContactSolvePlanRow>,
    /// Joint rows in input order.
    pub joint_rows: Vec<JointSolvePlanRow<A, W>>,
}

/// The solver work of one step: one batch per active island, in island order.
pub struct IslandSolvePlan<A, W> {
    /// The batches.
    pub islands: Vec<IslandSolveBatch<A, W>>,
}

/// The mathematical content of an island batch.
#[verifier::ext_equal]
pub struct IslandSolveBatchView<A, W> {
    pub island_id: u32,
    pub body_slots: Seq<BodyHandle>,
    pub contact_rows: Seq<ContactSolvePlanRow>,
    pub joint_rows: Seq<JointSolvePlanRow<A, W>>,
}

impl<A, W> View for IslandSolveBatch<A, W> {
    type V = IslandSolveBatchView<A, W>;

    open spec fn view(&self) -> IslandSolveBatchView<A, W> {
        IslandSolveBatchView {
            island_id: self.island_id,
            body_slots: self.body_slots@,
            contact_rows: self.contact_rows@,
            joint_rows: self.joint_rows@,
        }
    }
}

impl<A, W> View for IslandSolvePlan<A, W> {
    type V = Seq<IslandSolveBatchView<A, W>>;

    open spec fn view(&self) -> Seq<IslandSolveBatchView<A, W>> {
        self.islands@.map_values(|b: IslandSolveBatch<A, W>| b@)
    }
}

/// The last position of `x` in `s`, or -1 when `x` does not occur.
pub open spec fn last_index<T>(s: Seq<T>, x: T) -> int
    decreases s.len(),
{
    if s.len() == 0 {
        -1
    } else if s.last() == x {
        s.len() - 1
    } else {
        last_index(s.drop_last(), x)
    }
}

/// `last_index` names an occurrence, and no later one exists.
pub proof fn lemma_last_index<T>(s: Seq<T>, x: T)
    ensures
        -1 <= last_index(s, x) < s.len(),
        last_index(s, x) >= 0 ==> s[last_index(s, x)] == x,
        forall|j: int| last_index(s, x) < j < s.len() ==> s[j] != x,
    decreases s.len(),
{
    if s.len() > 0 && s.last() != x {
        let t = s.drop_last();
        lemma_last_index(t, x);
        assert forall|j: int| last_index(s, x) < j < s.len() implies s[j] != x by {
            if j < t.len() {
                assert(s[j] == t[j]);
            }
        }
    }
}

/// After a push, the pushed value is last; other values keep their last position.
pub proof fn lemma_last_index_push<T>(s: Seq<T>, x: T, c: T)
    ensures
        last_index(s.push(x), c) == if c == x {
            s.len() as int
        } else {
            last_index(s, c)
        },
{
    assert(s.push(x).drop_last() =~= s);
}

/// The islands that are solved this step, in order.
pub open spec fn active_islands(islands: Seq<SolverIsland>) -> Seq<SolverIsland>
    decreases islands.len(),
{
    if islands.len() == 0 {
        Seq::empty()
    } else if islands.last().active {
        active_islands(islands.drop_last()).push(islands.last())
    } else {
        active_islands(islands.drop_last())
    }
}

/// The ids of a sequence of islands.
pub open spec fn island_ids(islands: Seq<SolverIsland>) -> Seq<u32> {
    islands.map_values(|island: SolverIsland| island.id)
}

/// `m` with every body of `bodies` mapped to `id`.
pub open spec fn map_members(m: Map<u64, u32>, bodies: Seq<BodyHandle>, id: u32) -> Map<u64, u32>
    decreases bodies.len(),
{
    if bodies.len() == 0 {
        m
    } else {
        map_members(m, bodies.drop_last(), id).insert(bodies.last()@, id)
    }
}

/// The island of each member body of the given islands; a body listed by several islands
/// belongs to the last of them.
pub open spec fn body_island_map(islands: Seq<SolverIsland>) -> Map<u64, u32>
    decreases islands.len(),
{
    if islands.len() == 0 {
        Map::empty()
    } else {
        map_members(
            body_island_map(islands.drop_last()),
            islands.last().bodies@,
            islands.last().id,
        )
    }
}

/// The batch position of the island with the given id: the last active island with it.
pub open spec fn batch_of(active: Seq<SolverIsland>, island: Option<u32>) -> Option<int> {
    match island {
        Some(id) => if last_index(island_ids(active), id) >= 0 {
            Some(last_index(island_ids(active), id))
        } else {
            None
        },
        None => None,
    }
}

/// The slot of `body`: its existing slot, or the next free one.
pub open spec fn slot_of(slots: Seq<BodyHandle>, body: BodyHandle) -> int {
    if last_index(slots, body) >= 0 {
        last_index(slots, body)
    } else {
        slots.len() as int
    }
}

/// The slots once `body` has one.
pub open spec fn with_slot(slots: Seq<BodyHandle>, body: BodyHandle) -> Seq<BodyHandle> {
    if last_index(slots, body) >= 0 {
        slots
    } else {
        slots.push(body)
    }
}

/// The empty batch of each active island, its members in their given order.
pub open spec fn initial_batches<A, W>(active: Seq<SolverIsland>) -> Seq<
    IslandSolveBatchView<A, W>,
> {
    active.map_values(
        |island: SolverIsland|
            IslandSolveBatchView {
                island_id: island.id,
                body_slots: island.bodies@,
                contact_rows: Seq::empty(),
                joint_rows: Seq::empty(),
            },
    )
}

/// The batches once one contact row is planned: the row goes to the batch of its target
/// island, after its bodies get slots there; a row without such a batch is dropped.
pub open spec fn plan_contact<A, W>(
    batches: Seq<IslandSolveBatchView<A, W>>,
    active: Seq<SolverIsland>,
    row: (usize, BodyHandle, BodyHandle),
) -> Seq<IslandSolveBatchView<A, W>> {
    match batch_of(active, target_island(body_island_map(active), row.1@, row.2@)) {
        Some(k) => {
            let batch = batches[k];
            let slots_a = with_slot(batch.body_slots, row.1);
            let planned = ContactSolvePlanRow {
                contact_index: row.0,
                body_a_slot: slot_of(batch.body_slots, row.1) as usize,
                body_b_slot: slot_of(slots_a, row.2) as usize,
            };
            batches.update(
                k,
                IslandSolveBatchView {
                    body_slots: with_slot(slots_a, row.2),
                    contact_rows: batch.contact_rows.push(planned),
                    ..batch
                },
            )
        },
        None => batches,
    }
}

/// The batches once the contact rows are planned in order.
pub open spec fn plan_contacts<A, W>(
    batches: Seq<IslandSolveBatchView<A, W>>,
    active: Seq<SolverIsland>,
    rows: Seq<(usize, BodyHandle, BodyHandle)>,
) -> Seq<IslandSolveBatchView<A, W>>
    decreases rows.len(),
{
    if rows.len() == 0 {
        batches
    } else {
        plan_contact(plan_contacts(batches, active, rows.drop_last()), active, rows.last())
    }
}

/// The island of a single body.
pub open spec fn body_island(body_islands: Map<u64, u32>, body: u64) -> Option<u32> {
    if body_islands.contains_key(body) {
        Some(body_islands[body])
    } else {
        None
    }
}

/// The batches once one joint is planned, as a contact row is: a distance joint goes to
/// the target island of its two bodies, a world-anchor joint to the island of its body.
pub open spec fn plan_joint<A, W>(
    batches: Seq<IslandSolveBatchView<A, W>>,
    active: Seq<SolverIsland>,
    joint: JointSolveInput<A, W>,
) -> Seq<IslandSolveBatchView<A, W>> {
    match joint {
        JointSolveInput::Distance { body_a, body_b, desc } => {
            match batch_of(active, target_island(body_island_map(active), body_a@, body_b@)) {
                Some(k) => {
                    let batch = batches[k];
                    let slots_a = with_slot(batch.body_slots, body_a);
                    let planned = JointSolvePlanRow::Distance {
                        desc,
                        body_a_slot: slot_of(batch.body_slots, body_a) as usize,
                        body_b_slot: slot_of(slots_a, body_b) as usize,
                    };
                    batches.update(
                        k,
                        IslandSolveBatchView {
                            body_slots: with_slot(slots_a, body_b),
                            joint_rows: batch.joint_rows.push(planned),
                            ..batch
                        },
                    )
                },
                None => batches,
            }
        },
        JointSolveInput::WorldAnchor { body, desc } => {
            match batch_of(active, body_island(body_island_map(active), body@)) {
                Some(k) => {
                    let batch = batches[k];
                    let planned = JointSolvePlanRow::WorldAnchor {
                        desc,
                        body_slot: slot_of(batch.body_slots, body) as usize,
                    };
                    batches.update(
                        k,
                        IslandSolveBatchView {
                            body_slots: with_slot(batch.body_slots, body),
                            joint_rows: batch.joint_rows.push(planned),
                            ..batch
                        },
                    )
                },
                None => batches,
            }
        },
    }
}

/// The batches once the joints are planned in order.
pub open spec fn plan_joints<A, W>(
    batches: Seq<IslandSolveBatchView<A, W>>,
    active: Seq<SolverIsland>,
    joints: Seq<JointSolveInput<A, W>>,
) -> Seq<IslandSolveBatchView<A, W>>
    decreases joints.len(),
{
    if joints.len() == 0 {
        batches
    } else {
        plan_joint(plan_joints(batches, active, joints.drop_last()), active, joints.last())
    }
}

/// The solve plan of a step: a batch per active island, then the contact rows planned in
/// order, then the joints.
pub open spec fn solve_plan<A, W>(
    islands: Seq<SolverIsland>,
    contacts: Seq<(usize, BodyHandle, BodyHandle)>,
    joints: Seq<JointSolveInput<A, W>>,
) -> Seq<IslandSolveBatchView<A, W>> {
    let active = active_islands(islands);
    plan_joints(plan_contacts(initial_batches(active), active, contacts), active, joints)
}

/// `t` begins with `s`.
pub open spec fn extends<T>(s: Seq<T>, t: Seq<T>) -> bool {
    s.len() <= t.len() && forall|i: int| 0 <= i < s.len() ==> #[trigger] t[i] == s[i]
}

/// Giving a body a slot keeps the earlier slots, names the body at its slot, and adds
/// no second slot for a body.
pub proof fn lemma_with_slot(slots: Seq<BodyHandle>, body: BodyHandle)
    ensures
        extends(slots, with_slot(slots, body)),
        with_slot(slots, body).len() <= slots.len() + 1,
        0 <= slot_of(slots, body) < with_slot(slots, body).len(),
        with_slot(slots, body)[slot_of(slots, body)] == body,
        slots.no_duplicates() ==> with_slot(slots, body).no_duplicates(),
{
    lemma_last_index(slots, body);
}

/// Every body with a slot is keyed by its packed handle with its slot.
pub open spec fn slots_indexed(slot_map: Map<u64, usize>, slots: Seq<BodyHandle>) -> bool {
    forall|c: BodyHandle|
        #![trigger slot_map.contains_key(c@)]
        #![trigger last_index(slots, c)]
        (slot_map.contains_key(c@) <==> last_index(slots, c) >= 0) && (slot_map.contains_key(c@)
            ==> slot_map[c@] == last_index(slots, c))
}

/// Gives `body` a slot in the batch if it has none, and returns its slot.
fn ensure_slot(slots: &mut Vec<BodyHandle>, slot_map: &mut BodyMap<usize>, body: BodyHandle) -> (slot:
    usize)
    requires
        slots_indexed(old(slot_map)@, old(slots)@),
    ensures
        slot == slot_of(old(slots)@, body),
        final(slots)@ == with_slot(old(slots)@, body),
        slots_indexed(final(slot_map)@, final(slots)@),
{
    proof {
        lemma_last_index(slots@, body);
    }
    if let Some(slot) = slot_map.get(body) {
        return *slot;
    }
    let slot = slots.len();
    proof {
        let old_slots = slots@;
        let new_slots = old_slots.push(body);
        assert(new_slots.drop_last() =~= old_slots);
        assert forall|c: BodyHandle| #[trigger] last_index(new_slots, c) == if c == body {
            old_slots.len() as int
        } else {
            last_index(old_slots, c)
        } by {}
    }
    slots.push(body);
    slot_map.insert(body, slot);
    proof {
        assert forall|c: BodyHandle| #[trigger] slot_map@.contains_key(c@) == (c@ == body@
            || old(slot_map)@.contains_key(c@)) by {}
        assert forall|c: BodyHandle| c@ == body@ <==> c == body by {
            BodyHandle::lemma_view_eq(c, body);
        }
    }
    slot
}

/// Copies an island's members as its first slots, indexed by handle.
fn index_members(bodies: &Vec<BodyHandle>) -> (r: (Vec<BodyHandle>, BodyMap<usize>))
    ensures
        r.0@ == bodies@,
        slots_indexed(r.1@, r.0@),
{
    let mut slots: Vec<BodyHandle> = Vec::new();
    let mut slot_map: BodyMap<usize> = BodyMap::new();
    let mut i: usize = 0;
    while i < bodies.len()
        invariant
            i <= bodies.len(),
            slots@ == bodies@.take(i as int),
            slots_indexed(slot_map@, slots@),
        decreases bodies.len() - i,
    {
        let body = bodies[i];
        proof {
            let old_slots = slots@;
            let new_slots = old_slots.push(body);
            assert(new_slots.drop_last() =~= old_slots);
            assert forall|c: BodyHandle| #[trigger] last_index(new_slots, c) == if c == body {
                old_slots.len() as int
            } else {
                last_index(old_slots, c)
            } by {}
            assert forall|c: BodyHandle| c@ == body@ <==> c == body by {
                BodyHandle::lemma_view_eq(c, body);
            }
        }
        slot_map.insert(body, i);
        slots.push(body);
        proof {
            assert(slots@ =~= bodies@.take(i + 1));
        }
        i = i + 1;
    }
    proof {
        assert(slots@ =~= bodies@);
    }
    (slots, slot_map)
}

/// Maps every member body of the batches to the batch's island.
fn map_batch_members<A, W>(
    batches: &Vec<IslandSolveBatch<A, W>>,
    Ghost(active): Ghost<Seq<SolverIsland>>,
) -> (body_islands: BodyMap<u32>)
    requires
        batches.len() == active.len(),
        batches@.map_values(|b: IslandSolveBatch<A, W>| b@) =~~= initial_batches::<A, W>(active),
    ensures
        body_islands@ == body_island_map(active),
{
    let mut body_islands: BodyMap<u32> = BodyMap::new();
    let mut k: usize = 0;
    while k < batches.len()
        invariant
            k <= batches.len(),
            batches.len() == active.len(),
            batches@.map_values(|b: IslandSolveBatch<A, W>| b@) =~~= initial_batches::<A, W>(
                active,
            ),
            body_islands@ == body_island_map(active.take(k as int)),
        decreases batches.len() - k,
    {
        let ghost start = body_islands@;
        let ghost members = active[k as int].bodies@;
        proof {
            assert(batches@.map_values(|b: IslandSolveBatch<A, W>| b@)[k as int]
                == initial_batches::<A, W>(active)[k as int]);
            assert(active.take(k + 1).drop_last() =~= active.take(k as int));
            assert(members.take(0) =~= Seq::<BodyHandle>::empty());
        }
        let id = batches[k].island_id;
        let mut j: usize = 0;
        while j < batches[k].body_slots.len()
            invariant
                k < batches.len(),
                j <= batches@[k as int].body_slots.len(),
                batches@[k as int].body_slots@ == members,
                body_islands@ == map_members(start, members.take(j as int), id),
            decreases batches@[k as int].body_slots.len() - j,
        {
            proof {
                assert(members.take(j + 1).drop_last() =~= members.take(j as int));
            }
            body_islands.insert(batches[k].body_slots[j], id);
            j = j + 1;
        }
        proof {
            assert(members.take(j as int) =~= members);
        }
        k = k + 1;
    }
    proof {
        assert(active.take(k as int) =~= active);
    }
    body_islands
}

/// Splits the step's solver work into one batch per active island, in island order.
///
/// Each batch starts with the island's members as its body slots. Contact rows, then
/// joints, are routed in input order to the batch of their target island; a body a row
/// touches that has no slot yet gets the next one. Rows of sleeping islands, and rows
/// spanning two islands, are left out.
pub fn build_island_solve_plan<A, W>(
    islands: &[SolverIsland],
    contact_rows: Vec<(usize, BodyHandle, BodyHandle)>,
    joints: Vec<JointSolveInput<A, W>>,
) -> (plan: IslandSolvePlan<A, W>)
    ensures
        plan@ == solve_plan(islands@, contact_rows@, joints@),
{
    let ghost active = active_islands(islands@);
    let mut batches: Vec<IslandSolveBatch<A, W>> = Vec::new();
    let mut slot_maps: Vec<BodyMap<usize>> = Vec::new();
    let mut batch_index: BTreeMap<u32, usize> = BTreeMap::new();
    let mut i: usize = 0;
    while i < islands.len()
        invariant
            i <= islands.len(),
            batches.len() == slot_maps.len(),
            batches.len() == active_islands(islands@.take(i as int)).len(),
            batches@.map_values(|b: IslandSolveBatch<A, W>| b@) =~~= initial_batches::<A, W>(
                active_islands(islands@.take(i as int)),
            ),
            forall|k: int|
                0 <= k < batches.len() ==> slots_indexed(
                    #[trigger] slot_maps@[k]@,
                    batches@[k].body_slots@,
                ),
            forall|id: u32|
                #![trigger batch_index@.contains_key(id)]
                (batch_index@.contains_key(id) <==> last_index(
                    island_ids(active_islands(islands@.take(i as int))),
                    id,
                ) >= 0) && (batch_index@.contains_key(id) ==> batch_index@[id] == last_index(
                    island_ids(active_islands(islands@.take(i as int))),
                    id,
                )),
        decreases islands.len() - i,
    {
        let ghost prefix = islands@.take(i as int);
        let ghost next = islands@.take(i + 1);
        let ghost before = batches@;
        proof {
            assert(next.drop_last() =~= prefix);
            assert(next.last() == islands@[i as int]);
        }
        if islands[i].active {
            let (slots, slot_map) = index_members(&islands[i].bodies);
            let k = batches.len();
            batches.push(
                IslandSolveBatch {
                    island_id: islands[i].id,
                    body_slots: slots,
                    contact_rows: Vec::new(),
                    joint_rows: Vec::new(),
                },
            );
            slot_maps.push(slot_map);
            batch_index.insert(islands[i].id, k);
            proof {
                let isl = islands@[i as int];
                assert(active_islands(next) == active_islands(prefix).push(isl));
                assert(island_ids(active_islands(next)) =~= island_ids(active_islands(prefix)).push(
                    isl.id,
                ));
                assert forall|id: u32| #[trigger]
                    last_index(island_ids(active_islands(next)), id) == if id == isl.id {
                        k as int
                    } else {
                        last_index(island_ids(active_islands(prefix)), id)
                    } by {
                    lemma_last_index_push(island_ids(active_islands(prefix)), isl.id, id);
                }
                assert(batches@ =~= before.push(batches@[k as int]));
                assert(initial_batches::<A, W>(active_islands(next)) =~= initial_batches::<A, W>(
                    active_islands(prefix),
                ).push(initial_batches::<A, W>(active_islands(next))[k as int]));
                assert(batches@.map_values(|b: IslandSolveBatch<A, W>| b@) =~~= initial_batches::<
                    A,
                    W,
                >(active_islands(next)));
            }
        } else {
            proof {
                assert(active_islands(next) == active_islands(prefix));
            }
        }
        i = i + 1;
    }
    proof {
        assert(islands@.take(islands.len() as int) =~= islands@);
    }
    let ghost initial = initial_batches::<A, W>(active);
    let body_islands = map_batch_members(&batches, Ghost(active));
    let mut c: usize = 0;
    while c < contact_rows.len()
        invariant
            c <= contact_rows.len(),
            batches.len() == slot_maps.len(),
            batches.len() == active.len(),
            batches@.map_values(|b: IslandSolveBatch<A, W>| b@) =~~= plan_contacts(
                initial,
                active,
                contact_rows@.take(c as int),
            ),
            forall|k: int|
                0 <= k < batches.len() ==> slots_indexed(
                    #[trigger] slot_maps@[k]@,
                    batches@[k].body_slots@,
                ),
            forall|id: u32|
                #![trigger batch_index@.contains_key(id)]
                (batch_index@.contains_key(id) <==> last_index(island_ids(active), id) >= 0) && (
                batch_index@.contains_key(id) ==> batch_index@[id] == last_index(
                    island_ids(active),
                    id,
                )),
            body_islands@ == body_island_map(active),
        decreases contact_rows.len() - c,
    {
        let ghost before = batches@;
        let ghost done = plan_contacts(initial, active, contact_rows@.take(c as int));
        proof {
            assert(contact_rows@.take(c + 1).drop_last() =~= contact_rows@.take(c as int));
            assert(contact_rows@.take(c + 1).last() == contact_rows@[c as int]);
        }
        let (contact_index, body_a, body_b) = contact_rows[c];
        let target = contact_target_island(body_a, body_b, &body_islands);
        if let Some(id) = target {
            if let Some(slot_ref) = batch_index.get(&id) {
                let k = *slot_ref;
                proof {
                    lemma_last_index(island_ids(active), id);
                }
                let body_a_slot = ensure_slot(&mut batches[k].body_slots, &mut slot_maps[k], body_a);
                let body_b_slot = ensure_slot(&mut batches[k].body_slots, &mut slot_maps[k], body_b);
                batches[k].contact_rows.push(
                    ContactSolvePlanRow { contact_index, body_a_slot, body_b_slot },
                );
                proof {
                    assert(batches@ =~= before.update(k as int, batches@[k as int]));
                    assert(batches@.map_values(|b: IslandSolveBatch<A, W>| b@) =~~= plan_contacts(
                        initial,
                        active,
                        contact_rows@.take(c + 1),
                    ));
                }
            }
        }
        c = c + 1;
    }
    proof {
        assert(contact_rows@.take(c as int) =~= contact_rows@);
    }
    let ghost contacted = plan_contacts(initial, active, contact_rows@);
    let ghost joint_seq = joints@;
    for joint in it: joints.into_iter()
        invariant
            batches.len() == slot_maps.len(),
            batches.len() == active.len(),
            it.seq() == joint_seq,
            batches@.map_values(|b: IslandSolveBatch<A, W>| b@) =~~= plan_joints(
                contacted,
                active,
                joint_seq.take(it.index() as int),
            ),
            forall|k: int|
                0 <= k < batches.len() ==> slots_indexed(
                    #[trigger] slot_maps@[k]@,
                    batches@[k].body_slots@,
                ),
            forall|id: u32|
                #![trigger batch_index@.contains_key(id)]
                (batch_index@.contains_key(id) <==> last_index(island_ids(active), id) >= 0) && (
                batch_index@.contains_key(id) ==> batch_index@[id] == last_index(
                    island_ids(active),
                    id,
                )),
            body_islands@ == body_island_map(active),
    {
        let ghost before = batches@;
        let ghost n = it.index();
        proof {
            assert(joint_seq.take(n + 1).drop_last() =~= joint_seq.take(n as int));
            assert(joint_seq.take(n + 1).last() == joint_seq[n as int]);
        }
        match joint {
            JointSolveInput::Distance { body_a, body_b, desc } => {
                let target = contact_target_island(body_a, body_b, &body_islands);
                if let Some(id) = target {
                    if let Some(slot_ref) = batch_index.get(&id) {
                        let k = *slot_ref;
                        proof {
                            lemma_last_index(island_ids(active), id);
                        }
                        let body_a_slot = ensure_slot(
                            &mut batches[k].body_slots,
                            &mut slot_maps[k],
                            body_a,
                        );
                        let body_b_slot = ensure_slot(
                            &mut batches[k].body_slots,
                            &mut slot_maps[k],
                            body_b,
                        );
                        batches[k].joint_rows.push(
                            JointSolvePlanRow::Distance { desc, body_a_slot, body_b_slot },
                        );
                        proof {
                            assert(batches@ =~= before.update(k as int, batches@[k as int]));
                        }
                    }
                }
            },
            JointSolveInput::WorldAnchor { body, desc } => {
                let target = match body_islands.get(body) {
                    Some(id) => Some(*id),
                    None => None,
                };
                if let Some(id) = target {
                    if let Some(slot_ref) = batch_index.get(&id) {
                        let k = *slot_ref;
                        proof {
                            lemma_last_index(island_ids(active), id);
                        }
                        let body_slot = ensure_slot(
                            &mut batches[k].body_slots,
                            &mut slot_maps[k],
                            body,
                        );
                        batches[k].joint_rows.push(JointSolvePlanRow::WorldAnchor { desc, body_slot });
                        proof {
                            assert(batches@ =~= before.update(k as int, batches@[k as int]));
                        }
                    }
                }
            },
        }
        proof {
            assert(batches@.map_values(|b: IslandSolveBatch<A, W>| b@) =~~= plan_joints(
                contacted,
                active,
                joint_seq.take(n + 1),
            ));
        }
    }
    proof {
        assert(joint_seq.take(joint_seq.len() as int) =~= joint_seq);
    }
    let plan = IslandSolvePlan { islands: batches };
    proof {
        assert(plan@ =~~= solve_plan(islands@, contact_rows@, joints@));
    }
    plan
}

/// Each batch belongs to the active island at its position and begins with its members.
pub open spec fn batches_follow<A, W>(
    batches: Seq<IslandSolveBatchView<A, W>>,
    active: Seq<SolverIsland>,
) -> bool {
    &&& batches.len() == active.len()
    &&& forall|k: int|
        0 <= k < batches.len() ==> #[trigger] batches[k].island_id == active[k].id && extends(
            active[k].bodies@,
            batches[k].body_slots,
        )
}

/// The batch a row is routed to is one of the batches.
pub proof fn lemma_batch_of_in_range(active: Seq<SolverIsland>, island: Option<u32>)
    ensures
        batch_of(active, island) matches Some(k) ==> 0 <= k < active.len(),
{
    if let Some(id) = island {
        lemma_last_index(island_ids(active), id);
    }
}

proof fn lemma_update_follows<A, W>(
    batches: Seq<IslandSolveBatchView<A, W>>,
    active: Seq<SolverIsland>,
    k: int,
    batch: IslandSolveBatchView<A, W>,
)
    requires
        batches_follow(batches, active),
        0 <= k < batches.len(),
        batch.island_id == batches[k].island_id,
        extends(batches[k].body_slots, batch.body_slots),
    ensures
        batches_follow(batches.update(k, batch), active),
{
    let after = batches.update(k, batch);
    assert forall|j: int| 0 <= j < after.len() implies #[trigger] after[j].island_id
        == active[j].id && extends(active[j].bodies@, after[j].body_slots) by {
        if j == k {
            assert(extends(active[j].bodies@, batches[j].body_slots));
            assert forall|i: int| 0 <= i < active[j].bodies@.len() implies #[trigger] batch.body_slots[i]
                == active[j].bodies@[i] by {
                assert(batch.body_slots[i] == batches[j].body_slots[i]);
            }
        } else {
            assert(after[j] == batches[j]);
            assert(batches[j].island_id == active[j].id);
        }
    }
}

proof fn lemma_with_two_slots(slots: Seq<BodyHandle>, a: BodyHandle, b: BodyHandle)
    ensures
        extends(slots, with_slot(with_slot(slots, a), b)),
        with_slot(with_slot(slots, a), b).len() <= slots.len() + 2,
{
    lemma_with_slot(slots, a);
    lemma_with_slot(with_slot(slots, a), b);
    let s1 = with_slot(slots, a);
    let s2 = with_slot(s1, b);
    assert forall|i: int| 0 <= i < slots.len() implies #[trigger] s2[i] == slots[i] by {
        assert(s2[i] == s1[i]);
    }
}

proof fn lemma_plan_contacts_follow<A, W>(
    batches: Seq<IslandSolveBatchView<A, W>>,
    active: Seq<SolverIsland>,
    rows: Seq<(usize, BodyHandle, BodyHandle)>,
)
    requires
        batches_follow(batches, active),
    ensures
        batches_follow(plan_contacts(batches, active, rows), active),
    decreases rows.len(),
{
    if rows.len() > 0 {
        let row = rows.last();
        let before = plan_contacts(batches, active, rows.drop_last());
        lemma_plan_contacts_follow(batches, active, rows.drop_last());
        let island = target_island(body_island_map(active), row.1@, row.2@);
        lemma_batch_of_in_range(active, island);
        if let Some(k) = batch_of(active, island) {
            lemma_with_two_slots(before[k].body_slots, row.1, row.2);
            let after = plan_contacts(batches, active, rows);
            lemma_update_follows(before, active, k, after[k]);
            assert(after == before.update(k, after[k]));
        }
    }
}

proof fn lemma_plan_joints_follow<A, W>(
    batches: Seq<IslandSolveBatchView<A, W>>,
    active: Seq<SolverIsland>,
    joints: Seq<JointSolveInput<A, W>>,
)
    requires
        batches_follow(batches, active),
    ensures
        batches_follow(plan_joints(batches, active, joints), active),
    decreases joints.len(),
{
    if joints.len() > 0 {
        let before = plan_joints(batches, active, joints.drop_last());
        lemma_plan_joints_follow(batches, active, joints.drop_last());
        let after = plan_joints(batches, active, joints);
        assert(after == plan_joint(before, active, joints.last()));
        match joints.last() {
            JointSolveInput::Distance { body_a, body_b, desc } => {
                let island = target_island(body_island_map(active), body_a@, body_b@);
                lemma_batch_of_in_range(active, island);
                if let Some(k) = batch_of(active, island) {
                    lemma_with_two_slots(before[k].body_slots, body_a, body_b);
                    lemma_update_follows(before, active, k, after[k]);
                    assert(after == before.update(k, after[k]));
                }
            },
            JointSolveInput::WorldAnchor { body, desc } => {
                let island = body_island(body_island_map(active), body@);
                lemma_batch_of_in_range(active, island);
                if let Some(k) = batch_of(active, island) {
                    lemma_with_slot(before[k].body_slots, body);
                    lemma_update_follows(before, active, k, after[k]);
                    assert(after == before.update(k, after[k]));
                }
            },
        }
    }
}

/// The active islands are exactly the islands marked active, in their order.
pub proof fn lemma_active_islands_filter(islands: Seq<SolverIsland>)
    ensures
        active_islands(islands) == islands.filter(|island: SolverIsland| island.active),
    decreases islands.len(),
{
    reveal_with_fuel(Seq::<SolverIsland>::filter, 1);
    if islands.len() > 0 {
        lemma_active_islands_filter(islands.drop_last());
    }
}

/// A plan has one batch per active island, in island order and with the island's id;
/// sleeping islands get none. Each batch's first slots are its island's members, in their
/// given order.
pub proof fn lemma_solve_plan_batches<A, W>(
    islands: Seq<SolverIsland>,
    contacts: Seq<(usize, BodyHandle, BodyHandle)>,
    joints: Seq<JointSolveInput<A, W>>,
)
    ensures
        ({
            let plan = solve_plan(islands, contacts, joints);
            let active = islands.filter(|island: SolverIsland| island.active);
            &&& plan.len() == active.len()
            &&& forall|k: int|
                0 <= k < plan.len() ==> #[trigger] plan[k].island_id == active[k].id
                    && active[k].bodies@.len() <= plan[k].body_slots.len() && forall|i: int|
                    0 <= i < active[k].bodies@.len() ==> plan[k].body_slots[i]
                        == active[k].bodies@[i]
        }),
{
    let active = active_islands(islands);
    lemma_active_islands_filter(islands);
    let initial = initial_batches::<A, W>(active);
    assert(batches_follow(initial, active));
    lemma_plan_contacts_follow(initial, active, contacts);
    lemma_plan_joints_follow(plan_contacts(initial, active, contacts), active, joints);
}

/// A contact row names, by its slots, the two bodies of an input contact with its index.
pub open spec fn contact_row_resolves(
    slots: Seq<BodyHandle>,
    row: ContactSolvePlanRow,
    contacts: Seq<(usize, BodyHandle, BodyHandle)>,
) -> bool {
    &&& row.body_a_slot < slots.len()
    &&& row.body_b_slot < slots.len()
    &&& exists|j: int|
        0 <= j < contacts.len() && #[trigger] contacts[j] == (
            row.contact_index,
            slots[row.body_a_slot as int],
            slots[row.body_b_slot as int],
        )
}

/// A joint row names, by its slots, the bodies of an input joint of its kind, and carries
/// that joint's description.
pub open spec fn joint_row_resolves<A, W>(
    slots: Seq<BodyHandle>,
    row: JointSolvePlanRow<A, W>,
    joints: Seq<JointSolveInput<A, W>>,
) -> bool {
    match row {
        JointSolvePlanRow::Distance { desc, body_a_slot, body_b_slot } => {
            &&& body_a_slot < slots.len()
            &&& body_b_slot < slots.len()
            &&& exists|j: int|
                0 <= j < joints.len() && #[trigger] joints[j] == JointSolveInput::<A, W>::Distance {
                    body_a: slots[body_a_slot as int],
                    body_b: slots[body_b_slot as int],
                    desc,
                }
        },
        JointSolvePlanRow::WorldAnchor { desc, body_slot } => {
            &&& body_slot < slots.len()
            &&& exists|j: int|
                0 <= j < joints.len() && #[trigger] joints[j]
                    == JointSolveInput::<A, W>::WorldAnchor { body: slots[body_slot as int], desc }
        },
    }
}

/// Every row of every batch resolves against the given inputs.
pub open spec fn batches_resolve<A, W>(
    batches: Seq<IslandSolveBatchView<A, W>>,
    contacts: Seq<(usize, BodyHandle, BodyHandle)>,
    joints: Seq<JointSolveInput<A, W>>,
) -> bool {
    &&& forall|k: int, r: int|
        0 <= k < batches.len() && 0 <= r < batches[k].contact_rows.len() ==> contact_row_resolves(
            batches[k].body_slots,
            #[trigger] batches[k].contact_rows[r],
            contacts,
        )
    &&& forall|k: int, r: int|
        0 <= k < batches.len() && 0 <= r < batches[k].joint_rows.len() ==> joint_row_resolves(
            batches[k].body_slots,
            #[trigger] batches[k].joint_rows[r],
            joints,
        )
}

proof fn lemma_contact_row_resolves_mono(
    slots: Seq<BodyHandle>,
    slots2: Seq<BodyHandle>,
    row: ContactSolvePlanRow,
    contacts: Seq<(usize, BodyHandle, BodyHandle)>,
    contacts2: Seq<(usize, BodyHandle, BodyHandle)>,
)
    requires
        contact_row_resolves(slots, row, contacts),
        extends(slots, slots2),
        extends(contacts, contacts2),
    ensures
        contact_row_resolves(slots2, row, contacts2),
{
    let j = choose|j: int|
        0 <= j < contacts.len() && #[trigger] contacts[j] == (
            row.contact_index,
            slots[row.body_a_slot as int],
            slots[row.body_b_slot as int],
        );
    assert(contacts2[j] == contacts[j]);
    assert(slots2[row.body_a_slot as int] == slots[row.body_a_slot as int]);
    assert(slots2[row.body_b_slot as int] == slots[row.body_b_slot as int]);
}

proof fn lemma_joint_row_resolves_mono<A, W>(
    slots: Seq<BodyHandle>,
    slots2: Seq<BodyHandle>,
    row: JointSolvePlanRow<A, W>,
    joints: Seq<JointSolveInput<A, W>>,
    joints2: Seq<JointSolveInput<A, W>>,
)
    requires
        joint_row_resolves(slots, row, joints),
        extends(slots, slots2),
        extends(joints, joints2),
    ensures
        joint_row_resolves(slots2, row, joints2),
{
    match row {
        JointSolvePlanRow::Distance { desc, body_a_slot, body_b_slot } => {
            let j = choose|j: int|
                0 <= j < joints.len() && #[trigger] joints[j] == JointSolveInput::<A, W>::Distance {
                    body_a: slots[body_a_slot as int],
                    body_b: slots[body_b_slot as int],
                    desc,
                };
            assert(joints2[j] == joints[j]);
            assert(slots2[body_a_slot as int] == slots[body_a_slot as int]);
            assert(slots2[body_b_slot as int] == slots[body_b_slot as int]);
        },
        JointSolvePlanRow::WorldAnchor { desc, body_slot } => {
            let j = choose|j: int|
                0 <= j < joints.len() && #[trigger] joints[j]
                    == JointSolveInput::<A, W>::WorldAnchor { body: slots[body_slot as int], desc };
            assert(joints2[j] == joints[j]);
            assert(slots2[body_slot as int] == slots[body_slot as int]);
        },
    }
}

/// Replacing one batch by one whose slots extend it and whose rows extend its rows by rows
/// that resolve keeps every row resolving, against inputs that extend the earlier ones.
proof fn lemma_update_resolves<A, W>(
    batches: Seq<IslandSolveBatchView<A, W>>,
    k: int,
    batch: IslandSolveBatchView<A, W>,
    contacts: Seq<(usize, BodyHandle, BodyHandle)>,
    contacts2: Seq<(usize, BodyHandle, BodyHandle)>,
    joints: Seq<JointSolveInput<A, W>>,
    joints2: Seq<JointSolveInput<A, W>>,
)
    requires
        batches_resolve(batches, contacts, joints),
        0 <= k < batches.len(),
        extends(batches[k].body_slots, batch.body_slots),
        extends(batches[k].contact_rows, batch.contact_rows),
        extends(batches[k].joint_rows, batch.joint_rows),
        extends(contacts, contacts2),
        extends(joints, joints2),
        forall|r: int|
            batches[k].contact_rows.len() <= r < batch.contact_rows.len() ==> contact_row_resolves(
                batch.body_slots,
                #[trigger] batch.contact_rows[r],
                contacts2,
            ),
        forall|r: int|
            batches[k].joint_rows.len() <= r < batch.joint_rows.len() ==> joint_row_resolves(
                batch.body_slots,
                #[trigger] batch.joint_rows[r],
                joints2,
            ),
    ensures
        batches_resolve(batches.update(k, batch), contacts2, joints2),
{
    let after = batches.update(k, batch);
    assert forall|i: int, r: int|
        0 <= i < after.len() && 0 <= r < after[i].contact_rows.len() implies contact_row_resolves(
        after[i].body_slots,
        #[trigger] after[i].contact_rows[r],
        contacts2,
    ) by {
        if i == k {
            if r < batches[k].contact_rows.len() {
                assert(batch.contact_rows[r] == batches[k].contact_rows[r]);
                lemma_contact_row_resolves_mono(
                    batches[k].body_slots,
                    batch.body_slots,
                    batches[k].contact_rows[r],
                    contacts,
                    contacts2,
                );
            }
        } else {
            assert(after[i] == batches[i]);
            assert(extends(batches[i].body_slots, batches[i].body_slots));
            lemma_contact_row_resolves_mono(
                batches[i].body_slots,
                batches[i].body_slots,
                batches[i].contact_rows[r],
                contacts,
                contacts2,
            );
        }
    }
    assert forall|i: int, r: int|
        0 <= i < after.len() && 0 <= r < after[i].joint_rows.len() implies joint_row_resolves(
        after[i].body_slots,
        #[trigger] after[i].joint_rows[r],
        joints2,
    ) by {
        if i == k {
            if r < batches[k].joint_rows.len() {
                assert(batch.joint_rows[r] == batches[k].joint_rows[r]);
                lemma_joint_row_resolves_mono(
                    batches[k].body_slots,
                    batch.body_slots,
                    batches[k].joint_rows[r],
                    joints,
                    joints2,
                );
            }
        } else {
            assert(after[i] == batches[i]);
            assert(extends(batches[i].body_slots, batches[i].body_slots));
            lemma_joint_row_resolves_mono(
                batches[i].body_slots,
                batches[i].body_slots,
                batches[i].joint_rows[r],
                joints,
                joints2,
            );
        }
    }
}

/// Every batch has room for `n` more slots below `usize::MAX`.
pub open spec fn slot_room<A, W>(batches: Seq<IslandSolveBatchView<A, W>>, n: int) -> bool {
    forall|k: int| 0 <= k < batches.len() ==> #[trigger] batches[k].body_slots.len() + n <= usize::MAX
}

proof fn lemma_extends_refl<T>(s: Seq<T>)
    ensures
        extends(s, s),
{
}

proof fn lemma_extends_push<T>(s: Seq<T>, x: T)
    ensures
        extends(s, s.push(x)),
{
}

proof fn lemma_plan_contacts_resolve<A, W>(
    batches: Seq<IslandSolveBatchView<A, W>>,
    active: Seq<SolverIsland>,
    rows: Seq<(usize, BodyHandle, BodyHandle)>,
    joints: Seq<JointSolveInput<A, W>>,
)
    requires
        batches_follow(batches, active),
        batches_resolve(batches, Seq::empty(), joints),
        slot_room(batches, 2 * rows.len() as int),
    ensures
        batches_resolve(plan_contacts(batches, active, rows), rows, joints),
        forall|k: int|
            0 <= k < batches.len() ==> #[trigger] plan_contacts(batches, active, rows)[k].body_slots.len()
                <= batches[k].body_slots.len() + 2 * rows.len(),
    decreases rows.len(),
{
    if rows.len() == 0 {
        assert(rows =~= Seq::<(usize, BodyHandle, BodyHandle)>::empty());
    } else {
        let prev = rows.drop_last();
        let row = rows.last();
        let before = plan_contacts(batches, active, prev);
        assert forall|k: int| 0 <= k < batches.len() implies #[trigger] batches[k].body_slots.len() + 2
            * prev.len() <= usize::MAX by {}
        lemma_plan_contacts_resolve(batches, active, prev, joints);
        lemma_plan_contacts_follow(batches, active, prev);
        let island = target_island(body_island_map(active), row.1@, row.2@);
        lemma_batch_of_in_range(active, island);
        let after = plan_contacts(batches, active, rows);
        match batch_of(active, island) {
            Some(k) => {
                let batch = before[k];
                let slots = batch.body_slots;
                let s1 = with_slot(slots, row.1);
                let s2 = with_slot(s1, row.2);
                lemma_with_slot(slots, row.1);
                lemma_with_slot(s1, row.2);
                lemma_with_two_slots(slots, row.1, row.2);
                let nb = after[k];
                assert(after == before.update(k, nb));
                assert(nb.body_slots == s2);
                let planned = nb.contact_rows.last();
                assert(s2[slot_of(slots, row.1)] == s1[slot_of(slots, row.1)]);
                assert(rows[rows.len() - 1] == (planned.contact_index, s2[
                    planned.body_a_slot as int], s2[planned.body_b_slot as int]));
                assert(contact_row_resolves(s2, planned, rows));
                assert(prev.push(row) =~= rows);
                lemma_extends_push(prev, row);
                lemma_extends_push(batch.contact_rows, planned);
                lemma_extends_refl(batch.joint_rows);
                lemma_extends_refl(joints);
                lemma_update_resolves(before, k, nb, prev, rows, joints, joints);
                assert forall|j: int| 0 <= j < batches.len() implies #[trigger] after[j].body_slots.len()
                    <= batches[j].body_slots.len() + 2 * rows.len() by {
                    assert(before[j].body_slots.len() <= batches[j].body_slots.len() + 2 * prev.len());
                    if j != k {
                        assert(after[j] == before[j]);
                    }
                }
            },
            None => {
                assert(after == before);
                assert forall|j: int| 0 <= j < batches.len() implies #[trigger] after[j].body_slots.len()
                    <= batches[j].body_slots.len() + 2 * rows.len() by {
                    assert(before[j].body_slots.len() <= batches[j].body_slots.len() + 2 * prev.len());
                }
                assert(prev.push(row) =~= rows);
                lemma_extends_push(prev, row);
                lemma_extends_refl(joints);
                assert forall|i: int, r: int|
                    0 <= i < after.len() && 0 <= r < after[i].contact_rows.len() implies contact_row_resolves(
                    after[i].body_slots,
                    #[trigger] after[i].contact_rows[r],
                    rows,
                ) by {
                    lemma_extends_refl(after[i].body_slots);
                    lemma_contact_row_resolves_mono(
                        after[i].body_slots,
                        after[i].body_slots,
                        after[i].contact_rows[r],
                        prev,
                        rows,
                    );
                }
            },
        }
    }
}

proof fn lemma_plan_joints_resolve<A, W>(
    batches: Seq<IslandSolveBatchView<A, W>>,
    active: Seq<SolverIsland>,
    contacts: Seq<(usize, BodyHandle, BodyHandle)>,
    joints: Seq<JointSolveInput<A, W>>,
)
    requires
        batches_follow(batches, active),
        batches_resolve(batches, contacts, Seq::empty()),
        slot_room(batches, 2 * joints.len() as int),
    ensures
        batches_resolve(plan_joints(batches, active, joints), contacts, joints),
        forall|k: int|
            0 <= k < batches.len() ==> #[trigger] plan_joints(batches, active, joints)[k].body_slots.len()
                <= batches[k].body_slots.len() + 2 * joints.len(),
    decreases joints.len(),
{
    if joints.len() == 0 {
        assert(joints =~= Seq::<JointSolveInput<A, W>>::empty());
    } else {
        let prev = joints.drop_last();
        let joint = joints.last();
        let before = plan_joints(batches, active, prev);
        assert forall|k: int| 0 <= k < batches.len() implies #[trigger] batches[k].body_slots.len() + 2
            * prev.len() <= usize::MAX by {}
        lemma_plan_joints_resolve(batches, active, contacts, prev);
        lemma_plan_joints_follow(batches, active, prev);
        let after = plan_joints(batches, active, joints);
        assert(after == plan_joint(before, active, joint));
        assert(prev.push(joint) =~= joints);
        lemma_extends_push(prev, joint);
        lemma_extends_refl(contacts);
        let routed = match joint {
            JointSolveInput::Distance { body_a, body_b, desc } => batch_of(
                active,
                target_island(body_island_map(active), body_a@, body_b@),
            ),
            JointSolveInput::WorldAnchor { body, desc } => batch_of(
                active,
                body_island(body_island_map(active), body@),
            ),
        };
        match joint {
            JointSolveInput::Distance { body_a, body_b, desc } => {
                lemma_batch_of_in_range(
                    active,
                    target_island(body_island_map(active), body_a@, body_b@),
                );
            },
            JointSolveInput::WorldAnchor { body, desc } => {
                lemma_batch_of_in_range(active, body_island(body_island_map(active), body@));
            },
        }
        match routed {
            Some(k) => {
                let batch = before[k];
                let slots = batch.body_slots;
                let nb = after[k];
                assert(after == before.update(k, nb));
                let planned = nb.joint_rows.last();
                match joint {
                    JointSolveInput::Distance { body_a, body_b, desc } => {
                        let s1 = with_slot(slots, body_a);
                        let s2 = with_slot(s1, body_b);
                        lemma_with_slot(slots, body_a);
                        lemma_with_slot(s1, body_b);
                        lemma_with_two_slots(slots, body_a, body_b);
                        assert(nb.body_slots == s2);
                        assert(s2[slot_of(slots, body_a)] == s1[slot_of(slots, body_a)]);
                        assert(joints[joints.len() - 1] == JointSolveInput::<A, W>::Distance {
                            body_a: s2[slot_of(slots, body_a)],
                            body_b: s2[slot_of(s1, body_b)],
                            desc,
                        });
                        assert(joint_row_resolves(s2, planned, joints));
                    },
                    JointSolveInput::WorldAnchor { body, desc } => {
                        lemma_with_slot(slots, body);
                        assert(nb.body_slots == with_slot(slots, body));
                        assert(joints[joints.len() - 1] == JointSolveInput::<A, W>::WorldAnchor {
                            body: with_slot(slots, body)[slot_of(slots, body)],
                            desc,
                        });
                        assert(joint_row_resolves(with_slot(slots, body), planned, joints));
                    },
                }
                lemma_extends_push(batch.joint_rows, planned);
                lemma_extends_refl(batch.contact_rows);
                lemma_update_resolves(before, k, nb, contacts, contacts, prev, joints);
                assert forall|j: int| 0 <= j < batches.len() implies #[trigger] after[j].body_slots.len()
                    <= batches[j].body_slots.len() + 2 * joints.len() by {
                    assert(before[j].body_slots.len() <= batches[j].body_slots.len() + 2 * prev.len());
                    if j != k {
                        assert(after[j] == before[j]);
                    }
                }
            },
            None => {
                assert(after == before);
                assert forall|j: int| 0 <= j < batches.len() implies #[trigger] after[j].body_slots.len()
                    <= batches[j].body_slots.len() + 2 * joints.len() by {
                    assert(before[j].body_slots.len() <= batches[j].body_slots.len() + 2 * prev.len());
                }
                assert forall|i: int, r: int|
                    0 <= i < after.len() && 0 <= r < after[i].joint_rows.len() implies joint_row_resolves(
                    after[i].body_slots,
                    #[trigger] after[i].joint_rows[r],
                    joints,
                ) by {
                    lemma_extends_refl(after[i].body_slots);
                    lemma_joint_row_resolves_mono(
                        after[i].body_slots,
                        after[i].body_slots,
                        after[i].joint_rows[r],
                        prev,
                        joints,
                    );
                }
            },
        }
    }
}

proof fn lemma_active_islands_from(islands: Seq<SolverIsland>)
    ensures
        forall|k: int|
            0 <= k < active_islands(islands).len() ==> exists|i: int|
                0 <= i < islands.len() && #[trigger] active_islands(islands)[k] == islands[i],
    decreases islands.len(),
{
    if islands.len() > 0 {
        let prev = islands.drop_last();
        lemma_active_islands_from(prev);
        let a = active_islands(islands);
        assert forall|k: int| 0 <= k < a.len() implies exists|i: int|
            0 <= i < islands.len() && #[trigger] a[k] == islands[i] by {
            if k < active_islands(prev).len() {
                let i = choose|i: int| 0 <= i < prev.len() && active_islands(prev)[k] == prev[i];
                assert(islands[i] == prev[i]);
            } else {
                assert(a[k] == islands[islands.len() - 1]);
            }
        }
    }
}

/// Every row of a plan resolves: its slots lie in its batch and name the bodies of an
/// input row of its kind (a contact with the same index, or a joint with the same
/// description), so a solver reading the slots acts on the bodies the row was made for.
/// Slots are `usize`, so every island leaves room for two new slots per input row.
pub proof fn lemma_solve_plan_rows_resolve<A, W>(
    islands: Seq<SolverIsland>,
    contacts: Seq<(usize, BodyHandle, BodyHandle)>,
    joints: Seq<JointSolveInput<A, W>>,
)
    requires
        forall|i: int|
            0 <= i < islands.len() ==> #[trigger] islands[i].bodies@.len() + 2 * (contacts.len()
                + joints.len()) <= usize::MAX,
    ensures
        batches_resolve(solve_plan(islands, contacts, joints), contacts, joints),
{
    let active = active_islands(islands);
    let initial = initial_batches::<A, W>(active);
    lemma_active_islands_from(islands);
    assert forall|k: int| 0 <= k < initial.len() implies #[trigger] initial[k].body_slots.len() + 2
        * contacts.len() <= usize::MAX by {
        let i = choose|i: int| 0 <= i < islands.len() && active[k] == islands[i];
        assert(islands[i].bodies@.len() + 2 * (contacts.len() + joints.len()) <= usize::MAX);
    }
    assert(batches_follow(initial, active));
    lemma_plan_contacts_resolve(initial, active, contacts, Seq::empty());
    lemma_plan_contacts_follow(initial, active, contacts);
    let contacted = plan_contacts(initial, active, contacts);
    assert forall|k: int| 0 <= k < contacted.len() implies #[trigger] contacted[k].body_slots.len() + 2
        * joints.len() <= usize::MAX by {
        let i = choose|i: int| 0 <= i < islands.len() && active[k] == islands[i];
        assert(islands[i].bodies@.len() + 2 * (contacts.len() + joints.len()) <= usize::MAX);
        assert(contacted[k].body_slots.len() <= initial[k].body_slots.len() + 2 * contacts.len());
    }
    lemma_plan_joints_resolve(contacted, active, contacts, joints);
}

/// Every batch's slots are distinct when every island lists its members once: a body
/// is never given a second slot.
pub proof fn lemma_solve_plan_slots_distinct<A, W>(
    islands: Seq<SolverIsland>,
    contacts: Seq<(usize, BodyHandle, BodyHandle)>,
    joints: Seq<JointSolveInput<A, W>>,
)
    requires
        forall|i: int| 0 <= i < islands.len() ==> (#[trigger] islands[i].bodies@).no_duplicates(),
    ensures
        forall|k: int|
            0 <= k < solve_plan(islands, contacts, joints).len() ==> (
            #[trigger] solve_plan(islands, contacts, joints)[k]).body_slots.no_duplicates(),
{
    let active = active_islands(islands);
    let initial = initial_batches::<A, W>(active);
    lemma_active_islands_from(islands);
    assert forall|k: int| 0 <= k < initial.len() implies (#[trigger] initial[k]).body_slots.no_duplicates() by {
        let i = choose|i: int| 0 <= i < islands.len() && active[k] == islands[i];
        assert(islands[i].bodies@.no_duplicates());
    }
    assert(batches_follow(initial, active));
    lemma_plan_contacts_distinct(initial, active, contacts);
    lemma_plan_contacts_follow(initial, active, contacts);
    lemma_plan_joints_distinct(plan_contacts(initial, active, contacts), active, joints);
}

/// Every batch's slots are distinct.
pub open spec fn batches_distinct<A, W>(batches: Seq<IslandSolveBatchView<A, W>>) -> bool {
    forall|k: int| 0 <= k < batches.len() ==> (#[trigger] batches[k]).body_slots.no_duplicates()
}

proof fn lemma_plan_contacts_distinct<A, W>(
    batches: Seq<IslandSolveBatchView<A, W>>,
    active: Seq<SolverIsland>,
    rows: Seq<(usize, BodyHandle, BodyHandle)>,
)
    requires
        batches_follow(batches, active),
        batches_distinct(batches),
    ensures
        batches_distinct(plan_contacts(batches, active, rows)),
    decreases rows.len(),
{
    if rows.len() > 0 {
        let row = rows.last();
        let before = plan_contacts(batches, active, rows.drop_last());
        lemma_plan_contacts_distinct(batches, active, rows.drop_last());
        lemma_plan_contacts_follow(batches, active, rows.drop_last());
        let island = target_island(body_island_map(active), row.1@, row.2@);
        lemma_batch_of_in_range(active, island);
        if let Some(k) = batch_of(active, island) {
            lemma_with_slot(before[k].body_slots, row.1);
            lemma_with_slot(with_slot(before[k].body_slots, row.1), row.2);
            let after = plan_contacts(batches, active, rows);
            assert(after == before.update(k, after[k]));
            assert forall|j: int| 0 <= j < after.len() implies (
            #[trigger] after[j]).body_slots.no_duplicates() by {
                if j != k {
                    assert(after[j] == before[j]);
                }
            }
        }
    }
}

proof fn lemma_plan_joints_distinct<A, W>(
    batches: Seq<IslandSolveBatchView<A, W>>,
    active: Seq<SolverIsland>,
    joints: Seq<JointSolveInput<A, W>>,
)
    requires
        batches_follow(batches, active),
        batches_distinct(batches),
    ensures
        batches_distinct(plan_joints(batches, active, joints)),
    decreases joints.len(),
{
    if joints.len() > 0 {
        let before = plan_joints(batches, active, joints.drop_last());
        lemma_plan_joints_distinct(batches, active, joints.drop_last());
        lemma_plan_joints_follow(batches, active, joints.drop_last());
        let after = plan_joints(batches, active, joints);
        assert(after == plan_joint(before, active, joints.last()));
        let routed = match joints.last() {
            JointSolveInput::Distance { body_a, body_b, desc } => batch_of(
                active,
                target_island(body_island_map(active), body_a@, body_b@),
            ),
            JointSolveInput::WorldAnchor { body, desc } => batch_of(
                active,
                body_island(body_island_map(active), body@),
            ),
        };
        match joints.last() {
            JointSolveInput::Distance { body_a, body_b, desc } => {
                lemma_batch_of_in_range(
                    active,
                    target_island(body_island_map(active), body_a@, body_b@),
                );
            },
            JointSolveInput::WorldAnchor { body, desc } => {
                lemma_batch_of_in_range(active, body_island(body_island_map(active), body@));
            },
        }
        if let Some(k) = routed {
            match joints.last() {
                JointSolveInput::Distance { body_a, body_b, desc } => {
                    lemma_with_slot(before[k].body_slots, body_a);
                    lemma_with_slot(with_slot(before[k].body_slots, body_a), body_b);
                },
                JointSolveInput::WorldAnchor { body, desc } => {
                    lemma_with_slot(before[k].body_slots, body);
                },
            }
            assert(after == before.update(k, after[k]));
            assert forall|j: int| 0 <= j < after.len() implies (
            #[trigger] after[j]).body_slots.no_duplicates() by {
                if j != k {
                    assert(after[j] == before[j]);
                }
            }
        }
    }
}

} // verus!
