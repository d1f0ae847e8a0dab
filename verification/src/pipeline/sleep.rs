//! Sleep bookkeeping: wake-reason priorities and deterministic islands of bodies.
use std::collections::BTreeMap;

use vstd::prelude::*;

use crate::body::BodyType;
use crate::body_map::BodyMap;
use crate::events::SleepTransitionReason;
use crate::handles::BodyHandle;

pub mod refresh;

verus! {

/// The priority of a wake reason: when several reasons apply to one body or island,
/// the one with the higher priority is kept.
pub open spec fn wake_priority(reason: SleepTransitionReason) -> u8 {
    match reason {
        SleepTransitionReason::Unknown => 0,
        SleepTransitionReason::StabilityWindow => 1,
        SleepTransitionReason::SleepDisabled => 2,
        SleepTransitionReason::JointCorrection => 3,
        SleepTransitionReason::ContactImpulse => 4,
        SleepTransitionReason::Impact => 5,
        SleepTransitionReason::UserPatch => 6,
        SleepTransitionReason::TransformEdit => 7,
        SleepTransitionReason::VelocityEdit => 8,
    }
}

/// The reason kept after recording `reason` where `current` was recorded before:
/// the new reason replaces the current one only when its priority is strictly higher.
pub open spec fn stronger_reason(
    current: Option<SleepTransitionReason>,
    reason: SleepTransitionReason,
) -> SleepTransitionReason {
    match current {
        Some(c) => if wake_priority(reason) > wake_priority(c) {
            reason
        } else {
            c
        },
        None => reason,
    }
}

/// The map of wake reasons after recording `reason` for the body whose packed value is `key`.
pub open spec fn record_wake_reason_spec<K>(
    reasons: Map<K, SleepTransitionReason>,
    key: K,
    reason: SleepTransitionReason,
) -> Map<K, SleepTransitionReason> {
    let current = if reasons.contains_key(key) {
        Some(reasons[key])
    } else {
        None
    };
    reasons.insert(key, stronger_reason(current, reason))
}

/// Returns the priority of a wake reason.
pub fn wake_reason_priority(reason: SleepTransitionReason) -> (p: u8)
    ensures
        p == wake_priority(reason),
{
    match reason {
        SleepTransitionReason::Unknown => 0,
        SleepTransitionReason::StabilityWindow => 1,
        SleepTransitionReason::SleepDisabled => 2,
        SleepTransitionReason::JointCorrection => 3,
        SleepTransitionReason::ContactImpulse => 4,
        SleepTransitionReason::Impact => 5,
        SleepTransitionReason::UserPatch => 6,
        SleepTransitionReason::TransformEdit => 7,
        SleepTransitionReason::VelocityEdit => 8,
    }
}

/// Records a wake reason for a body, keeping the stronger of the new and any recorded reason.
pub fn record_wake_reason(
    wake_reasons: &mut BodyMap<SleepTransitionReason>,
    body: BodyHandle,
    reason: SleepTransitionReason,
)
    ensures
        final(wake_reasons)@ == record_wake_reason_spec(old(wake_reasons)@, body@, reason),
{
    let current = match wake_reasons.get(body) {
        Some(current) => Some(*current),
        None => None,
    };
    let kept = match current {
        Some(c) => if wake_reason_priority(reason) > wake_reason_priority(c) {
            reason
        } else {
            c
        },
        None => reason,
    };
    wake_reasons.insert(body, kept);
}

/// Distinct wake reasons have distinct priorities, so "the stronger reason" is never a tie.
pub proof fn lemma_wake_priority_injective(a: SleepTransitionReason, b: SleepTransitionReason)
    ensures
        wake_priority(a) == wake_priority(b) <==> a == b,
{
}

/// The kept reason has the highest priority of all reasons recorded so far.
pub proof fn lemma_stronger_reason_is_maximum(
    current: Option<SleepTransitionReason>,
    reason: SleepTransitionReason,
)
    ensures
        wake_priority(stronger_reason(current, reason)) >= wake_priority(reason),
        current matches Some(c) ==> wake_priority(stronger_reason(current, reason))
            >= wake_priority(c),
        stronger_reason(current, reason) == reason || current == Some(
            stronger_reason(current, reason),
        ),
{
}

/// Recording two wake reasons gives the same map in either order, for the same body or for
/// different bodies: the outcome of a step does not depend on the order in which phases
/// report wake reasons.
pub proof fn lemma_record_wake_reason_commutes<K>(
    reasons: Map<K, SleepTransitionReason>,
    key_a: K,
    reason_a: SleepTransitionReason,
    key_b: K,
    reason_b: SleepTransitionReason,
)
    ensures
        record_wake_reason_spec(record_wake_reason_spec(reasons, key_a, reason_a), key_b, reason_b)
            == record_wake_reason_spec(
            record_wake_reason_spec(reasons, key_b, reason_b),
            key_a,
            reason_a,
        ),
{
    let left = record_wake_reason_spec(
        record_wake_reason_spec(reasons, key_a, reason_a),
        key_b,
        reason_b,
    );
    let right = record_wake_reason_spec(
        record_wake_reason_spec(reasons, key_b, reason_b),
        key_a,
        reason_a,
    );
    assert(left =~= right);
}

/// Recording the same wake reason twice for a body is the same as recording it once.
pub proof fn lemma_record_wake_reason_idempotent<K>(
    reasons: Map<K, SleepTransitionReason>,
    key: K,
    reason: SleepTransitionReason,
)
    ensures
        record_wake_reason_spec(record_wake_reason_spec(reasons, key, reason), key, reason)
            == record_wake_reason_spec(reasons, key, reason),
{
    assert(record_wake_reason_spec(record_wake_reason_spec(reasons, key, reason), key, reason)
        =~= record_wake_reason_spec(reasons, key, reason));
}


/// A parent map is well formed when every parent is itself a key and no parent is larger
/// than its child; roots are the keys that are their own parent.
pub open spec fn parents_wf(m: Map<u64, u64>) -> bool {
    forall|k: u64| #[trigger] m.contains_key(k) ==> m.contains_key(m[k]) && m[k] <= k
}

/// The root reached from `k` by following parents; a key without an entry is its own root.
pub open spec fn root_of(m: Map<u64, u64>, k: u64) -> u64
    decreases k,
{
    if m.contains_key(k) && m[k] < k {
        root_of(m, m[k])
    } else {
        k
    }
}

/// The representative of every key: the root of its tree.
pub open spec fn reps_of(m: Map<u64, u64>) -> Map<u64, u64> {
    Map::new(|k: u64| m.contains_key(k), |k: u64| root_of(m, k))
}

/// The representatives after joining the classes of `a` and `b`: when both are known, every
/// member of either class is represented by the smaller of the two representatives;
/// otherwise nothing changes.
pub open spec fn merge_reps(rep: Map<u64, u64>, a: u64, b: u64) -> Map<u64, u64> {
    if rep.contains_key(a) && rep.contains_key(b) {
        let ra = rep[a];
        let rb = rep[b];
        let lo = if ra <= rb {
            ra
        } else {
            rb
        };
        Map::new(
            |k: u64| rep.contains_key(k),
            |k: u64|
                if rep[k] == ra || rep[k] == rb {
                    lo
                } else {
                    rep[k]
                },
        )
    } else {
        rep
    }
}

/// Representatives are canonical: every key is represented by a key no larger than itself
/// that represents itself.
pub open spec fn canonical_reps(rep: Map<u64, u64>) -> bool {
    forall|k: u64|
        #[trigger] rep.contains_key(k) ==> rep[k] <= k && rep.contains_key(rep[k]) && rep[rep[k]]
            == rep[k]
}

/// Representatives of singleton classes over a set of keys.
pub open spec fn singleton_reps(keys: Set<u64>) -> Map<u64, u64> {
    Map::new(|k: u64| keys.contains(k), |k: u64| k)
}

proof fn lemma_root_props(m: Map<u64, u64>, k: u64)
    requires
        parents_wf(m),
    ensures
        root_of(m, k) <= k,
        m.contains_key(k) ==> m.contains_key(root_of(m, k)) && m[root_of(m, k)] == root_of(m, k),
        !m.contains_key(k) ==> root_of(m, k) == k,
    decreases k,
{
    if m.contains_key(k) && m[k] < k {
        lemma_root_props(m, m[k]);
    }
}

proof fn lemma_reps_of_canonical(m: Map<u64, u64>)
    requires
        parents_wf(m),
    ensures
        canonical_reps(reps_of(m)),
{
    assert forall|k: u64| #[trigger] reps_of(m).contains_key(k) implies reps_of(m)[k] <= k
        && reps_of(m).contains_key(reps_of(m)[k]) && reps_of(m)[reps_of(m)[k]]
        == reps_of(m)[k] by {
        lemma_root_props(m, k);
        lemma_root_props(m, root_of(m, k));
    }
}

proof fn lemma_compress_preserves_roots(m: Map<u64, u64>, x: u64, k: u64)
    requires
        parents_wf(m),
        m.contains_key(x),
    ensures
        parents_wf(m.insert(x, root_of(m, x))),
        root_of(m.insert(x, root_of(m, x)), k) == root_of(m, k),
    decreases k,
{
    let r = root_of(m, x);
    let m2 = m.insert(x, r);
    lemma_root_props(m, x);
    assert(parents_wf(m2));
    if k == x {
        if r < x {
            assert(m2[r] == r);
            assert(root_of(m2, r) == r);
        }
    } else if m.contains_key(k) && m[k] < k {
        lemma_compress_preserves_roots(m, x, m[k]);
    }
}

proof fn lemma_link_roots(m: Map<u64, u64>, c: u64, r: u64, k: u64)
    requires
        parents_wf(m),
        m.contains_key(c),
        m.contains_key(r),
        m[c] == c,
        m[r] == r,
        r < c,
    ensures
        parents_wf(m.insert(c, r)),
        root_of(m.insert(c, r), k) == if root_of(m, k) == c {
            r
        } else {
            root_of(m, k)
        },
    decreases k,
{
    let m2 = m.insert(c, r);
    assert(parents_wf(m2));
    if k == c {
        assert(root_of(m2, r) == r);
    } else if m.contains_key(k) && m[k] < k {
        lemma_link_roots(m, c, r, m[k]);
    }
}

/// Disjoint sets of bodies with path compression. Each class is represented by its
/// smallest body handle, so the grouping does not depend on the order of unions.
pub struct UnionFind {
    parents: BTreeMap<u64, u64>,
}

impl View for UnionFind {
    type V = Map<u64, u64>;

    closed spec fn view(&self) -> Map<u64, u64> {
        self.parents@
    }
}

impl UnionFind {
    /// The parent map is well formed.
    pub closed spec fn wf(&self) -> bool {
        parents_wf(self.parents@)
    }

    /// The representative of each known body, keyed by packed handle value.
    pub closed spec fn reps(&self) -> Map<u64, u64> {
        reps_of(self.parents@)
    }

    /// A well-formed union-find has canonical representatives.
    pub proof fn lemma_wf_canonical(&self)
        requires
            self.wf(),
        ensures
            canonical_reps(self.reps()),
    {
        lemma_reps_of_canonical(self.parents@);
    }

    /// Creates singleton classes for the given bodies.
    pub fn new(bodies: &Vec<BodyHandle>) -> (uf: Self)
        ensures
            uf.reps() == singleton_reps(handle_keys(bodies@)),
            canonical_reps(uf.reps()),
            uf.wf(),
    {
        let mut parents: BTreeMap<u64, u64> = BTreeMap::new();
        let mut i: usize = 0;
        proof {
            assert(handle_keys(bodies@.subrange(0, 0)) =~= Set::empty());
            assert(parents@ =~= singleton_reps(handle_keys(bodies@.subrange(0, 0))));
        }
        while i < bodies.len()
            invariant
                0 <= i <= bodies.len(),
                parents@ == singleton_reps(handle_keys(bodies@.subrange(0, i as int))),
            decreases bodies.len() - i,
        {
            let key = bodies[i].raw();
            parents.insert(key, key);
            proof {
                assert(bodies@.subrange(0, i + 1) == bodies@.subrange(0, i as int).push(bodies@[i as int]));
                lemma_handle_keys_push(bodies@.subrange(0, i as int), bodies@[i as int]);
                assert(singleton_reps(handle_keys(bodies@.subrange(0, i + 1))) =~= parents@);
            }
            i = i + 1;
        }
        proof {
            assert(bodies@.subrange(0, i as int) == bodies@);
        }
        let uf = UnionFind { parents };
        proof {
            assert(reps_of(uf.parents@) =~= uf.parents@);
            lemma_reps_of_canonical(uf.parents@);
        }
        uf
    }

    /// Returns the representative of a body (a body never added represents itself),
    /// compressing the path it walked.
    pub fn find(&mut self, body: BodyHandle) -> (root: BodyHandle)
        requires
            old(self).wf(),
        ensures
            final(self).wf(),
            final(self).reps() == old(self).reps(),
            canonical_reps(final(self).reps()),
            old(self).reps().contains_key(body@) ==> root@ == old(self).reps()[body@],
            !old(self).reps().contains_key(body@) ==> root@ == body@,
        decreases body@,
    {
        proof {
        }
        let ghost m0 = self.parents@;
        let key = body.raw();
        let parent = match self.parents.get(&key) {
            Some(p) => *p,
            None => key,
        };
        if parent == key {
            proof {
                assert(root_of(m0, key) == key);
                lemma_reps_of_canonical(m0);
            }
            return body;
        }
        let root = self.find(BodyHandle::from_raw(parent));
        proof {
            let m1 = self.parents@;
            assert(reps_of(m1) == reps_of(m0));
            assert(reps_of(m0).contains_key(key));
            assert(reps_of(m1).contains_key(key));
            assert(m1.contains_key(key));
            assert(root_of(m1, key) == reps_of(m1)[key]);
            assert(root_of(m0, key) == root_of(m0, parent));
            assert forall|k: u64| #[trigger] reps_of(m1.insert(key, root_of(m1, key))).contains_key(k)
                implies reps_of(m1.insert(key, root_of(m1, key)))[k] == reps_of(m1)[k] by {
                lemma_compress_preserves_roots(m1, key, k);
            }
            lemma_compress_preserves_roots(m1, key, key);
            assert(reps_of(m1.insert(key, root_of(m1, key))) =~= reps_of(m1));
            lemma_reps_of_canonical(m1.insert(key, root_of(m1, key)));
        }
        self.parents.insert(key, root.raw());
        root
    }

    /// Joins the classes of two known bodies; does nothing when either is unknown.
    pub fn union(&mut self, a: BodyHandle, b: BodyHandle)
        requires
            old(self).wf(),
        ensures
            final(self).wf(),
            final(self).reps() == merge_reps(old(self).reps(), a@, b@),
            canonical_reps(final(self).reps()),
    {
        let ka = a.raw();
        let kb = b.raw();
        if !self.parents.contains_key(&ka) || !self.parents.contains_key(&kb) {
            proof {
                lemma_reps_of_canonical(self.parents@);
            }
            return;
        }
        let ghost rep0 = self.reps();
        let root_a = self.find(a);
        let root_b = self.find(b);
        let ra = root_a.raw();
        let rb = root_b.raw();
        if ra == rb {
            proof {
                assert(merge_reps(rep0, a@, b@) =~= rep0);
                lemma_reps_of_canonical(self.parents@);
            }
            return;
        }
        let (root, child) = if ra <= rb {
            (ra, rb)
        } else {
            (rb, ra)
        };
        proof {
            let m = self.parents@;
            lemma_root_props(m, ka);
            lemma_root_props(m, kb);
            assert forall|k: u64| #[trigger] reps_of(m.insert(child, root)).contains_key(k)
                implies reps_of(m.insert(child, root))[k] == merge_reps(rep0, a@, b@)[k] by {
                lemma_link_roots(m, child, root, k);
            }
            lemma_link_roots(m, child, root, child);
            assert(reps_of(m.insert(child, root)) =~= merge_reps(rep0, a@, b@));
            lemma_reps_of_canonical(m.insert(child, root));
        }
        self.parents.insert(child, root);
    }
}

/// Joining the classes of `a` and `b` gives them one representative.
pub proof fn lemma_merge_joins(rep: Map<u64, u64>, a: u64, b: u64)
    requires
        rep.contains_key(a),
        rep.contains_key(b),
    ensures
        merge_reps(rep, a, b)[a] == merge_reps(rep, a, b)[b],
        merge_reps(rep, a, b).dom() == rep.dom(),
{
    assert(merge_reps(rep, a, b).dom() =~= rep.dom());
}

/// Joining is symmetric: joining `a` with `b` is joining `b` with `a`.
pub proof fn lemma_merge_commutes(rep: Map<u64, u64>, a: u64, b: u64)
    ensures
        merge_reps(rep, a, b) == merge_reps(rep, b, a),
{
    assert(merge_reps(rep, a, b) =~= merge_reps(rep, b, a));
}

/// Bodies outside the two joined classes keep their representative.
pub proof fn lemma_merge_leaves_other_classes(rep: Map<u64, u64>, a: u64, b: u64, k: u64)
    requires
        rep.contains_key(a),
        rep.contains_key(b),
        rep.contains_key(k),
        rep[k] != rep[a],
        rep[k] != rep[b],
    ensures
        merge_reps(rep, a, b)[k] == rep[k],
{
}

/// The facts of a body record that the sleep and island logic read.
#[derive(Clone, Copy, Debug, PartialEq, Eq, Structural)]
pub struct BodySleepFacts {
    /// The body's handle.
    pub handle: BodyHandle,
    /// The body's simulation category.
    pub body_type: BodyType,
    /// Whether the body is sleeping.
    pub sleeping: bool,
    /// Whether the body may sleep.
    pub can_sleep: bool,
}

/// The record of the body whose packed handle is `key`: the first entry with that handle.
pub open spec fn lookup_body(bodies: Seq<BodySleepFacts>, key: u64) -> Option<BodySleepFacts>
    decreases bodies.len(),
{
    if bodies.len() == 0 {
        None
    } else if bodies[0].handle@ == key {
        Some(bodies[0])
    } else {
        lookup_body(bodies.drop_first(), key)
    }
}

/// No two records share a handle.
pub open spec fn distinct_handles(bodies: Seq<BodySleepFacts>) -> bool {
    forall|i: int, j: int|
        0 <= i < bodies.len() && 0 <= j < bodies.len() && i != j ==> #[trigger] bodies[i].handle@
            != #[trigger] bodies[j].handle@
}

/// The body has a record and it is not static.
pub open spec fn is_non_static_body(bodies: Seq<BodySleepFacts>, key: u64) -> bool {
    lookup_body(bodies, key) matches Some(r) && r.body_type != BodyType::Static
}

/// Two bodies can share an island: they differ and neither is static nor unknown.
pub open spec fn can_connect(bodies: Seq<BodySleepFacts>, a: u64, b: u64) -> bool {
    a != b && is_non_static_body(bodies, a) && is_non_static_body(bodies, b)
}

/// The packed handles of the non-static bodies.
pub open spec fn non_static_keys(bodies: Seq<BodySleepFacts>) -> Set<u64> {
    Set::new(|k: u64| is_non_static_body(bodies, k))
}

proof fn lemma_lookup_suffix(bodies: Seq<BodySleepFacts>, i: int, key: u64)
    requires
        0 <= i < bodies.len(),
    ensures
        lookup_body(bodies.subrange(i, bodies.len() as int), key) == if bodies[i].handle@ == key {
            Some(bodies[i])
        } else {
            lookup_body(bodies.subrange(i + 1, bodies.len() as int), key)
        },
{
    assert(bodies.subrange(i, bodies.len() as int).drop_first() =~= bodies.subrange(
        i + 1,
        bodies.len() as int,
    ));
}

proof fn lemma_lookup_none(bodies: Seq<BodySleepFacts>, key: u64)
    requires
        forall|i: int| 0 <= i < bodies.len() ==> #[trigger] bodies[i].handle@ != key,
    ensures
        lookup_body(bodies, key) is None,
    decreases bodies.len(),
{
    if bodies.len() > 0 {
        assert forall|i: int| 0 <= i < bodies.drop_first().len() implies #[trigger] bodies.drop_first()[i].handle@
            != key by {
            assert(bodies.drop_first()[i] == bodies[i + 1]);
        }
        lemma_lookup_none(bodies.drop_first(), key);
    }
}

proof fn lemma_lookup_distinct(bodies: Seq<BodySleepFacts>, i: int)
    requires
        distinct_handles(bodies),
        0 <= i < bodies.len(),
    ensures
        lookup_body(bodies, bodies[i].handle@) == Some(bodies[i]),
    decreases bodies.len(),
{
    if i > 0 {
        let rest = bodies.drop_first();
        assert(rest[i - 1] == bodies[i]);
        assert forall|x: int, y: int|
            0 <= x < rest.len() && 0 <= y < rest.len() && x != y implies #[trigger] rest[x].handle@
                != #[trigger] rest[y].handle@ by {
            assert(rest[x] == bodies[x + 1]);
            assert(rest[y] == bodies[y + 1]);
        }
        lemma_lookup_distinct(rest, i - 1);
        assert(bodies[0].handle@ != bodies[i].handle@);
    }
}

/// Returns the record of a body, if there is one.
pub fn find_body(bodies: &Vec<BodySleepFacts>, body: BodyHandle) -> (r: Option<BodySleepFacts>)
    ensures
        r == lookup_body(bodies@, body@),
{
    let key = body.raw();
    let mut i: usize = 0;
    proof {
        assert(bodies@.subrange(0, bodies@.len() as int) =~= bodies@);
    }
    while i < bodies.len()
        invariant
            0 <= i <= bodies.len(),
            key == body@,
            lookup_body(bodies@, key) == lookup_body(
                bodies@.subrange(i as int, bodies@.len() as int),
                key,
            ),
        decreases bodies.len() - i,
    {
        proof {
            lemma_lookup_suffix(bodies@, i as int, key);
        }
        if bodies[i].handle.raw() == key {
            let found = bodies[i];
            assert(found == bodies@[i as int]);

            return Some(found);
        }
        i = i + 1;
    }
    proof {
        assert(bodies@.subrange(i as int, bodies@.len() as int).len() == 0);
    }
    None
}

/// Joins the islands of two bodies when both are known, distinct and not static.
pub fn union_if_non_static(
    bodies: &Vec<BodySleepFacts>,
    union: &mut UnionFind,
    body_a: BodyHandle,
    body_b: BodyHandle,
)
    requires
        old(union).wf(),
    ensures
        final(union).wf(),
        canonical_reps(final(union).reps()),
        final(union).reps() == if can_connect(bodies@, body_a@, body_b@) {
            merge_reps(old(union).reps(), body_a@, body_b@)
        } else {
            old(union).reps()
        },
{
    if body_a.raw() == body_b.raw() {
        proof {
            union.lemma_wf_canonical();
        }
        return;
    }
    let a_ok = match find_body(bodies, body_a) {
        Some(record) => !record.body_type.is_static(),
        None => false,
    };
    let b_ok = match find_body(bodies, body_b) {
        Some(record) => !record.body_type.is_static(),
        None => false,
    };
    if a_ok && b_ok {
        union.union(body_a, body_b);
    } else {
        proof {
            union.lemma_wf_canonical();
        }
    }
}

/// Representatives after joining the bodies of each contact pair, in order, where a pair
/// joins only bodies that can share an island.
pub open spec fn connect_contacts(
    rep: Map<u64, u64>,
    bodies: Seq<BodySleepFacts>,
    pairs: Seq<(BodyHandle, BodyHandle)>,
) -> Map<u64, u64>
    decreases pairs.len(),
{
    if pairs.len() == 0 {
        rep
    } else {
        let prev = connect_contacts(rep, bodies, pairs.drop_last());
        let a = pairs.last().0@;
        let b = pairs.last().1@;
        if can_connect(bodies, a, b) {
            merge_reps(prev, a, b)
        } else {
            prev
        }
    }
}

/// Representatives after joining the two bodies of each two-body joint, in order.
pub open spec fn connect_joints(
    rep: Map<u64, u64>,
    bodies: Seq<BodySleepFacts>,
    joints: Seq<Vec<BodyHandle>>,
) -> Map<u64, u64>
    decreases joints.len(),
{
    if joints.len() == 0 {
        rep
    } else {
        let prev = connect_joints(rep, bodies, joints.drop_last());
        let j = joints.last()@;
        if j.len() == 2 && can_connect(bodies, j[0]@, j[1]@) {
            merge_reps(prev, j[0]@, j[1]@)
        } else {
            prev
        }
    }
}

/// The island representative of every non-static body: start from singletons, join contact
/// pairs, then join two-body joints.
pub open spec fn island_reps(
    bodies: Seq<BodySleepFacts>,
    pairs: Seq<(BodyHandle, BodyHandle)>,
    joints: Seq<Vec<BodyHandle>>,
) -> Map<u64, u64> {
    connect_joints(
        connect_contacts(singleton_reps(non_static_keys(bodies)), bodies, pairs),
        bodies,
        joints,
    )
}

/// Handles in strictly increasing order.
pub open spec fn strictly_increasing(s: Seq<BodyHandle>) -> bool {
    forall|i: int, j: int| 0 <= i < j < s.len() ==> #[trigger] s[i]@ < #[trigger] s[j]@
}

/// The sequence holds a handle whose packed value is `k`.
pub open spec fn has_key(s: Seq<BodyHandle>, k: u64) -> bool {
    exists|i: int| 0 <= i < s.len() && #[trigger] s[i]@ == k
}

/// The packed values of the handles.
pub open spec fn handle_keys(s: Seq<BodyHandle>) -> Set<u64> {
    Set::new(|k: u64| has_key(s, k))
}

/// Groups of bodies that partition the keys of `rep` into its classes: each group is one
/// whole class, listed in increasing order and starting with its representative, and the
/// groups are ordered by representative.
pub open spec fn groups_partition(groups: Seq<Seq<BodyHandle>>, rep: Map<u64, u64>) -> bool {
    &&& forall|g: int| 0 <= g < groups.len() ==> #[trigger] groups[g].len() > 0
    &&& forall|g: int| 0 <= g < groups.len() ==> strictly_increasing(#[trigger] groups[g])
    &&& forall|g1: int, g2: int|
        0 <= g1 < g2 < groups.len() ==> #[trigger] groups[g1][0]@ < #[trigger] groups[g2][0]@
    &&& forall|g: int, t: int|
        0 <= g < groups.len() && 0 <= t < groups[g].len() ==> rep.contains_key(
            #[trigger] groups[g][t]@,
        ) && rep[groups[g][t]@] == groups[g][0]@
    &&& forall|k: u64|
        #[trigger] rep.contains_key(k) ==> exists|g: int, t: int|
            0 <= g < groups.len() && 0 <= t < groups[g].len() && #[trigger] groups[g][t]@ == k
}

/// A deterministic group of non-static bodies linked by contacts or joints.
#[derive(Clone, Debug)]
pub struct Island {
    /// Island id: its position in the island list.
    pub id: u32,
    /// Member bodies in increasing handle order.
    pub bodies: Vec<BodyHandle>,
}

/// The member lists of a sequence of islands.
pub open spec fn island_groups(islands: Seq<Island>) -> Seq<Seq<BodyHandle>> {
    islands.map_values(|island: Island| island.bodies@)
}

/// Islands numbered by position whose member lists partition the classes of `rep`.
pub open spec fn islands_match(islands: Seq<Island>, rep: Map<u64, u64>) -> bool {
    &&& forall|i: int| 0 <= i < islands.len() ==> #[trigger] islands[i].id == i as u32
    &&& groups_partition(island_groups(islands), rep)
}

proof fn lemma_handle_keys_push(s: Seq<BodyHandle>, x: BodyHandle)
    ensures
        handle_keys(s.push(x)) == handle_keys(s).insert(x@),
{
    let t = s.push(x);
    assert forall|k: u64| has_key(t, k) <==> has_key(s, k) || k == x@ by {
        if has_key(t, k) {
            let w = choose|w: int| 0 <= w < t.len() && #[trigger] t[w]@ == k;
            if w < s.len() {
                assert(t[w] == s[w]);
            }
        }
        if has_key(s, k) {
            let w = choose|w: int| 0 <= w < s.len() && #[trigger] s[w]@ == k;
            assert(t[w] == s[w]);
        }
        if k == x@ {
            assert(t[s.len() as int] == x);
        }
    }
    assert(handle_keys(t) =~= handle_keys(s).insert(x@));
}

/// Returns the handles in increasing order; they must be distinct.
pub fn sorted_handles(handles: &Vec<BodyHandle>) -> (out: Vec<BodyHandle>)
    requires
        forall|i: int, j: int|
            0 <= i < j < handles.len() ==> #[trigger] handles@[i]@ != #[trigger] handles@[j]@,
    ensures
        strictly_increasing(out@),
        handle_keys(out@) == handle_keys(handles@),
        out.len() == handles.len(),
{
    let mut out: Vec<BodyHandle> = Vec::new();
    let mut i: usize = 0;
    while i < handles.len()
        invariant
            0 <= i <= handles.len(),
            out.len() == i,
            strictly_increasing(out@),
            forall|k: u64| has_key(out@, k) <==> has_key(handles@.subrange(0, i as int), k),
            forall|a: int, b: int|
                0 <= a < b < handles.len() ==> #[trigger] handles@[a]@ != #[trigger] handles@[b]@,
        decreases handles.len() - i,
    {
        let x = handles[i];
        let key = x.raw();
        let mut p: usize = 0;
        while p < out.len() && out[p].raw() <= key
            invariant
                0 <= p <= out.len(),
                key == x@,
                forall|q: int| 0 <= q < p ==> #[trigger] out@[q]@ <= key,
            decreases out.len() - p,
        {
            p = p + 1;
        }
        proof {
            assert(!has_key(out@, key)) by {
                if has_key(out@, key) {
                    assert(has_key(handles@.subrange(0, i as int), key));
                    let w = choose|w: int| 0 <= w < i && #[trigger] handles@.subrange(0, i as int)[w]@ == key;
                    assert(handles@[w]@ == handles@[i as int]@);
                }
            }
            assert forall|q: int| 0 <= q < p implies #[trigger] out@[q]@ < key by {
                if out@[q]@ == key {
                    assert(has_key(out@, key));
                }
            }
            assert forall|q: int| p <= q < out@.len() implies #[trigger] out@[q]@ > key by {
                if p < out@.len() {
                    assert(out@[p as int]@ > key);
                    if q > p {
                        assert(out@[p as int]@ < out@[q]@);
                    }
                }
            }
        }
        let ghost old_out = out@;
        out.insert(p, x);
        proof {
            let new_out = out@;
            assert(new_out == old_out.insert(p as int, x));
            assert forall|a: int, b: int| 0 <= a < b < new_out.len() implies #[trigger] new_out[a]@
                < #[trigger] new_out[b]@ by {
                if a < p && b < p {
                    assert(old_out[a]@ < old_out[b]@);
                } else if a < p && b == p {
                } else if a < p && b > p {
                    assert(old_out[a]@ < key);
                    assert(old_out[b - 1]@ > key);
                } else if a == p {
                    assert(old_out[b - 1]@ > key);
                } else {
                    assert(old_out[a - 1]@ < old_out[b - 1]@);
                }
            }
            let pre = handles@.subrange(0, i as int);
            let post = handles@.subrange(0, i + 1);
            assert forall|k: u64| has_key(new_out, k) <==> has_key(post, k) by {
                if has_key(new_out, k) {
                    let w = choose|w: int| 0 <= w < new_out.len() && #[trigger] new_out[w]@ == k;
                    if w < p {
                        assert(old_out[w]@ == k);
                        assert(has_key(old_out, k));
                        let v = choose|v: int| 0 <= v < pre.len() && #[trigger] pre[v]@ == k;
                        assert(post[v] == pre[v]);
                    } else if w == p {
                        assert(post[i as int] == x);
                    } else {
                        assert(old_out[w - 1]@ == k);
                        assert(has_key(old_out, k));
                        let v = choose|v: int| 0 <= v < pre.len() && #[trigger] pre[v]@ == k;
                        assert(post[v] == pre[v]);
                    }
                }
                if has_key(post, k) {
                    let v = choose|v: int| 0 <= v < post.len() && #[trigger] post[v]@ == k;
                    if v < i {
                        assert(pre[v] == post[v]);
                        assert(has_key(pre, k));
                        assert(has_key(old_out, k));
                        let w = choose|w: int| 0 <= w < old_out.len() && #[trigger] old_out[w]@ == k;
                        if w < p {
                            assert(new_out[w] == old_out[w]);
                        } else {
                            assert(new_out[w + 1] == old_out[w]);
                        }
                    } else {
                        assert(new_out[p as int] == x);
                    }
                }
            }
        }
        i = i + 1;
    }
    proof {
        assert(handles@.subrange(0, handles.len() as int) == handles@);
        assert(handle_keys(out@) =~= handle_keys(handles@));
    }
    out
}

/// Handles of the non-static bodies, in record order.
fn non_static_handles(bodies: &Vec<BodySleepFacts>) -> (out: Vec<BodyHandle>)
    requires
        distinct_handles(bodies@),
    ensures
        handle_keys(out@) == non_static_keys(bodies@),
        forall|a: int, b: int| 0 <= a < b < out.len() ==> #[trigger] out@[a]@ != #[trigger] out@[b]@,
{
    let mut out: Vec<BodyHandle> = Vec::new();
    let ghost mut src: Seq<int> = Seq::empty();
    let mut i: usize = 0;
    while i < bodies.len()
        invariant
            0 <= i <= bodies.len(),
            distinct_handles(bodies@),
            src.len() == out.len(),
            forall|t: int|
                0 <= t < out.len() ==> 0 <= #[trigger] src[t] < i && bodies@[src[t]].handle
                    == out@[t] && bodies@[src[t]].body_type != BodyType::Static,
            forall|a: int, b: int| 0 <= a < b < out.len() ==> #[trigger] src[a] < #[trigger] src[b],
            forall|q: int|
                0 <= q < i && bodies@[q].body_type != BodyType::Static ==> has_key(
                    out@,
                    #[trigger] bodies@[q].handle@,
                ),
        decreases bodies.len() - i,
    {
        if !bodies[i].body_type.is_static() {
            let h = bodies[i].handle;
            let ghost before = out@;
            out.push(h);
            proof {
                src = src.push(i as int);
                assert forall|q: int|
                    0 <= q <= i && bodies@[q].body_type != BodyType::Static implies has_key(
                    out@,
                    #[trigger] bodies@[q].handle@,
                ) by {
                    if q < i {
                        let w = choose|w: int| 0 <= w < before.len() && #[trigger] before[w]@
                            == bodies@[q].handle@;
                        assert(out@[w] == before[w]);
                    } else {
                        assert(out@[before.len() as int] == h);
                    }
                }
            }
        }
        i = i + 1;
    }
    proof {
        assert forall|a: int, b: int| 0 <= a < b < out.len() implies #[trigger] out@[a]@
            != #[trigger] out@[b]@ by {
            assert(src[a] < src[b]);
            assert(bodies@[src[a]].handle@ != bodies@[src[b]].handle@);
        }
        assert forall|k: u64| has_key(out@, k) <==> is_non_static_body(bodies@, k) by {
            if has_key(out@, k) {
                let w = choose|w: int| 0 <= w < out.len() && #[trigger] out@[w]@ == k;
                lemma_lookup_distinct(bodies@, src[w]);
            }
            if is_non_static_body(bodies@, k) {
                if forall|q: int| 0 <= q < bodies.len() ==> #[trigger] bodies@[q].handle@ != k {
                    lemma_lookup_none(bodies@, k);
                } else {
                    let q = choose|q: int| 0 <= q < bodies.len() && #[trigger] bodies@[q].handle@ == k;
                    lemma_lookup_distinct(bodies@, q);
                }
            }
        }
        assert(handle_keys(out@) =~= non_static_keys(bodies@));
    }
    out
}

/// Joins the islands of every contact pair and every two-body joint.
fn connect_all(
    bodies: &Vec<BodySleepFacts>,
    union: &mut UnionFind,
    contact_pairs: &Vec<(BodyHandle, BodyHandle)>,
    joint_bodies: &Vec<Vec<BodyHandle>>,
)
    requires
        old(union).wf(),
    ensures
        final(union).wf(),
        canonical_reps(final(union).reps()),
        final(union).reps() == connect_joints(
            connect_contacts(old(union).reps(), bodies@, contact_pairs@),
            bodies@,
            joint_bodies@,
        ),
{
    let ghost rep0 = union.reps();
    let mut i: usize = 0;
    proof {
        assert(contact_pairs@.subrange(0, 0).len() == 0);
    }
    while i < contact_pairs.len()
        invariant
            0 <= i <= contact_pairs.len(),
            union.wf(),
            union.reps() == connect_contacts(rep0, bodies@, contact_pairs@.subrange(0, i as int)),
        decreases contact_pairs.len() - i,
    {
        let (a, b) = contact_pairs[i];
        union_if_non_static(bodies, union, a, b);
        proof {
            let next = contact_pairs@.subrange(0, i + 1);
            assert(next.drop_last() == contact_pairs@.subrange(0, i as int));
            assert(next.last() == contact_pairs@[i as int]);
        }
        i = i + 1;
    }
    proof {
        assert(contact_pairs@.subrange(0, i as int) == contact_pairs@);
    }
    let ghost rep1 = union.reps();
    let mut j: usize = 0;
    proof {
        assert(joint_bodies@.subrange(0, 0).len() == 0);
    }
    while j < joint_bodies.len()
        invariant
            0 <= j <= joint_bodies.len(),
            union.wf(),
            union.reps() == connect_joints(rep1, bodies@, joint_bodies@.subrange(0, j as int)),
        decreases joint_bodies.len() - j,
    {
        let joint = &joint_bodies[j];
        if joint.len() == 2 {
            union_if_non_static(bodies, union, joint[0], joint[1]);
        }
        proof {
            let next = joint_bodies@.subrange(0, j + 1);
            assert(next.drop_last() == joint_bodies@.subrange(0, j as int));
            assert(next.last() == joint_bodies@[j as int]);
        }
        j = j + 1;
    }
    proof {
        assert(joint_bodies@.subrange(0, j as int) == joint_bodies@);
        union.lemma_wf_canonical();
    }
}

/// Groups sorted bodies into islands by representative.
fn group_islands(union: &mut UnionFind, sorted: &Vec<BodyHandle>) -> (islands: Vec<Island>)
    requires
        old(union).wf(),
        strictly_increasing(sorted@),
        old(union).reps().dom() == handle_keys(sorted@),
        canonical_reps(old(union).reps()),
    ensures
        final(union).wf(),
        final(union).reps() == old(union).reps(),
        islands_match(islands@, old(union).reps()),
{
    let ghost rep = union.reps();
    let mut islands: Vec<Island> = Vec::new();
    let mut index: BTreeMap<u64, usize> = BTreeMap::new();
    let ghost mut loc: Seq<(int, int)> = Seq::empty();
    let mut j: usize = 0;
    while j < sorted.len()
        invariant
            0 <= j <= sorted.len(),
            union.wf(),
            union.reps() == rep,
            canonical_reps(rep),
            rep.dom() == handle_keys(sorted@),
            strictly_increasing(sorted@),
            loc.len() == j,
            forall|g: int| 0 <= g < islands.len() ==> #[trigger] islands@[g].id == g as u32,
            forall|g: int| 0 <= g < islands.len() ==> #[trigger] islands@[g].bodies@.len() > 0,
            forall|g: int|
                0 <= g < islands.len() ==> strictly_increasing(#[trigger] islands@[g].bodies@),
            forall|g1: int, g2: int|
                0 <= g1 < g2 < islands.len() ==> #[trigger] islands@[g1].bodies@[0]@
                    < #[trigger] islands@[g2].bodies@[0]@,
            forall|g: int, t: int|
                0 <= g < islands.len() && 0 <= t < islands@[g].bodies@.len() ==> rep.contains_key(
                    #[trigger] islands@[g].bodies@[t]@,
                ) && rep[islands@[g].bodies@[t]@] == islands@[g].bodies@[0]@,
            j < sorted.len() ==> forall|g: int, t: int|
                0 <= g < islands.len() && 0 <= t < islands@[g].bodies@.len()
                    ==> #[trigger] islands@[g].bodies@[t]@ < sorted@[j as int]@,
            forall|k: u64|
                #[trigger] index@.contains_key(k) ==> index@[k] < islands.len()
                    && islands@[index@[k] as int].bodies@[0]@ == k,
            forall|g: int|
                0 <= g < islands.len() ==> #[trigger] index@.contains_key(
                    islands@[g].bodies@[0]@,
                ),
            forall|q: int|
                0 <= q < j ==> {
                    let (g, t) = #[trigger] loc[q];
                    0 <= g < islands.len() && 0 <= t < islands@[g].bodies@.len()
                        && islands@[g].bodies@[t]@ == sorted@[q]@
                },
        decreases sorted.len() - j,
    {
        let body = sorted[j];
        let root = union.find(body);
        proof {
            assert(has_key(sorted@, body@));
            assert(rep.contains_key(body@));
        }
        if root.raw() == body.raw() {
            let id = islands.len();
            let ghost before = islands@;
            let mut members: Vec<BodyHandle> = Vec::new();
            members.push(body);
            islands.push(Island { id: id as u32, bodies: members });
            index.insert(body.raw(), id);
            proof {
                loc = loc.push((id as int, 0int));
                assert forall|g: int| 0 <= g < islands.len() implies #[trigger] index@.contains_key(
                    islands@[g].bodies@[0]@,
                ) by {
                    if g < id {
                        assert(islands@[g] == before[g]);
                    }
                }
                assert forall|g1: int, g2: int|
                    0 <= g1 < g2 < islands.len() implies #[trigger] islands@[g1].bodies@[0]@
                        < #[trigger] islands@[g2].bodies@[0]@ by {
                    assert(islands@[g1] == before[g1]);
                    if g2 < id {
                        assert(islands@[g2] == before[g2]);
                    } else {
                        assert(before[g1].bodies@[0]@ < sorted@[j as int]@);
                    }
                }
                assert forall|k: u64| #[trigger] index@.contains_key(k) implies index@[k]
                    < islands.len() && islands@[index@[k] as int].bodies@[0]@ == k by {
                    if k != body@ {
                        assert(islands@[index@[k] as int] == before[index@[k] as int]);
                    }
                }
                assert forall|q: int| 0 <= q < j + 1 implies {
                    let (g, t) = #[trigger] loc[q];
                    0 <= g < islands.len() && 0 <= t < islands@[g].bodies@.len()
                        && islands@[g].bodies@[t]@ == sorted@[q]@
                } by {
                    if q < j {
                        let (g, t) = loc[q];
                        assert(islands@[g] == before[g]);
                    }
                }
                if j + 1 < sorted.len() {
                    assert forall|g: int, t: int|
                        0 <= g < islands.len() && 0 <= t < islands@[g].bodies@.len()
                            implies #[trigger] islands@[g].bodies@[t]@ < sorted@[j + 1]@ by {
                        assert(sorted@[j as int]@ < sorted@[j + 1]@);
                        if g < id {
                            assert(islands@[g] == before[g]);
                        }
                    }
                }
                assert forall|g: int, t: int|
                    0 <= g < islands.len() && 0 <= t < islands@[g].bodies@.len()
                        implies rep.contains_key(#[trigger] islands@[g].bodies@[t]@)
                        && rep[islands@[g].bodies@[t]@] == islands@[g].bodies@[0]@ by {
                    if g < id {
                        assert(islands@[g] == before[g]);
                    }
                }
            }
        } else {
            let ghost r = root@;
            proof {
                assert(r < body@);
                assert(rep.contains_key(r));
                assert(has_key(sorted@, r));
                let q = choose|q: int| 0 <= q < sorted@.len() && #[trigger] sorted@[q]@ == r;
                if q >= j {
                    if q > j {
                        assert(sorted@[j as int]@ < sorted@[q]@);
                    }
                }
                assert(q < j);
                let (g, t) = loc[q];
                assert(islands@[g].bodies@[t]@ == r);
                assert(rep[r] == r);
                assert(islands@[g].bodies@[0]@ == r);
                assert(index@.contains_key(r));
            }
            let slot = *index.get(&root.raw()).unwrap();
            let ghost before = islands@;
            islands[slot].bodies.push(body);
            proof {
                loc = loc.push((slot as int, before[slot as int].bodies@.len() as int));
                assert forall|g: int| 0 <= g < islands.len() implies islands@[g].bodies@
                    == if g == slot {
                    before[g].bodies@.push(body)
                } else {
                    before[g].bodies@
                } by {}
                assert forall|g: int|
                    0 <= g < islands.len() implies strictly_increasing(
                    #[trigger] islands@[g].bodies@,
                ) by {
                    if g == slot {
                        let old_b = before[g].bodies@;
                        let new_b = islands@[g].bodies@;
                        assert forall|a: int, b: int| 0 <= a < b < new_b.len() implies #[trigger] new_b[a]@
                            < #[trigger] new_b[b]@ by {
                            assert(new_b[a] == old_b[a]);
                            if b < old_b.len() {
                                assert(new_b[b] == old_b[b]);
                            } else {
                                assert(old_b[a]@ < sorted@[j as int]@);
                            }
                        }
                    }
                }
                assert forall|g: int, t: int|
                    0 <= g < islands.len() && 0 <= t < islands@[g].bodies@.len()
                        implies rep.contains_key(#[trigger] islands@[g].bodies@[t]@)
                        && rep[islands@[g].bodies@[t]@] == islands@[g].bodies@[0]@ by {
                    if g == slot && t == before[g].bodies@.len() {
                        assert(islands@[g].bodies@[0] == before[g].bodies@[0]);
                    } else if g == slot {
                        assert(islands@[g].bodies@[t] == before[g].bodies@[t]);
                        assert(islands@[g].bodies@[0] == before[g].bodies@[0]);
                    }
                }
                assert forall|g1: int, g2: int|
                    0 <= g1 < g2 < islands.len() implies #[trigger] islands@[g1].bodies@[0]@
                        < #[trigger] islands@[g2].bodies@[0]@ by {
                    assert(before[g1].bodies@[0]@ < before[g2].bodies@[0]@);
                    if g1 == slot {
                        assert(islands@[g1].bodies@[0] == before[g1].bodies@[0]);
                    }
                    if g2 == slot {
                        assert(islands@[g2].bodies@[0] == before[g2].bodies@[0]);
                    }
                }
                assert forall|k: u64| #[trigger] index@.contains_key(k) implies index@[k]
                    < islands.len() && islands@[index@[k] as int].bodies@[0]@ == k by {
                    if index@[k] == slot {
                        assert(islands@[slot as int].bodies@[0] == before[slot as int].bodies@[0]);
                    }
                }
                assert forall|g: int| 0 <= g < islands.len() implies #[trigger] index@.contains_key(
                    islands@[g].bodies@[0]@,
                ) by {
                    if g == slot {
                        assert(islands@[g].bodies@[0] == before[g].bodies@[0]);
                    }
                }
                assert forall|q: int| 0 <= q < j + 1 implies {
                    let (g, t) = #[trigger] loc[q];
                    0 <= g < islands.len() && 0 <= t < islands@[g].bodies@.len()
                        && islands@[g].bodies@[t]@ == sorted@[q]@
                } by {
                    if q < j {
                        let (g, t) = loc[q];
                        if g == slot {
                            assert(islands@[g].bodies@[t] == before[g].bodies@[t]);
                        }
                    }
                }
                if j + 1 < sorted.len() {
                    assert forall|g: int, t: int|
                        0 <= g < islands.len() && 0 <= t < islands@[g].bodies@.len()
                            implies #[trigger] islands@[g].bodies@[t]@ < sorted@[j + 1]@ by {
                        assert(sorted@[j as int]@ < sorted@[j + 1]@);
                        if g == slot && t < before[g].bodies@.len() {
                            assert(islands@[g].bodies@[t] == before[g].bodies@[t]);
                        }
                    }
                }
            }
        }
        j = j + 1;
    }
    proof {
        let groups = island_groups(islands@);
        assert forall|k: u64| #[trigger] rep.contains_key(k) implies exists|g: int, t: int|
            0 <= g < groups.len() && 0 <= t < groups[g].len() && #[trigger] groups[g][t]@ == k by {
            assert(has_key(sorted@, k));
            let q = choose|q: int| 0 <= q < sorted@.len() && #[trigger] sorted@[q]@ == k;
            let (g, t) = loc[q];
            assert(groups[g] == islands@[g].bodies@);
        }
        assert forall|g: int| 0 <= g < groups.len() implies #[trigger] groups[g].len() > 0 by {
            assert(groups[g] == islands@[g].bodies@);
        }
        assert forall|g: int| 0 <= g < groups.len() implies strictly_increasing(#[trigger] groups[g]) by {
            assert(groups[g] == islands@[g].bodies@);
        }
        assert forall|g1: int, g2: int|
            0 <= g1 < g2 < groups.len() implies #[trigger] groups[g1][0]@ < #[trigger] groups[g2][0]@ by {
            assert(groups[g1] == islands@[g1].bodies@);
            assert(groups[g2] == islands@[g2].bodies@);
        }
        assert forall|g: int, t: int|
            0 <= g < groups.len() && 0 <= t < groups[g].len() implies rep.contains_key(
            #[trigger] groups[g][t]@,
        ) && rep[groups[g][t]@] == groups[g][0]@ by {
            assert(groups[g] == islands@[g].bodies@);
        }
    }
    islands
}

proof fn lemma_connect_contacts_dom(
    rep: Map<u64, u64>,
    bodies: Seq<BodySleepFacts>,
    pairs: Seq<(BodyHandle, BodyHandle)>,
)
    ensures
        connect_contacts(rep, bodies, pairs).dom() == rep.dom(),
    decreases pairs.len(),
{
    if pairs.len() > 0 {
        let prev = connect_contacts(rep, bodies, pairs.drop_last());
        lemma_connect_contacts_dom(rep, bodies, pairs.drop_last());
        assert(merge_reps(prev, pairs.last().0@, pairs.last().1@).dom() =~= prev.dom());
    }
}

proof fn lemma_connect_joints_dom(
    rep: Map<u64, u64>,
    bodies: Seq<BodySleepFacts>,
    joints: Seq<Vec<BodyHandle>>,
)
    ensures
        connect_joints(rep, bodies, joints).dom() == rep.dom(),
    decreases joints.len(),
{
    if joints.len() > 0 {
        let prev = connect_joints(rep, bodies, joints.drop_last());
        lemma_connect_joints_dom(rep, bodies, joints.drop_last());
        let j = joints.last()@;
        if j.len() == 2 {
            assert(merge_reps(prev, j[0]@, j[1]@).dom() =~= prev.dom());
        }
    }
}

/// Groups the non-static bodies into islands: bodies joined, directly or through other
/// bodies, by a contact pair or a two-body joint share an island. Islands come in increasing
/// order of their smallest body, numbered from zero, each listing its bodies in increasing
/// handle order. Static and unknown bodies never join islands.
pub fn build_islands_from_pairs(
    bodies: &Vec<BodySleepFacts>,
    contact_pairs: &Vec<(BodyHandle, BodyHandle)>,
    joint_bodies: &Vec<Vec<BodyHandle>>,
) -> (islands: Vec<Island>)
    requires
        distinct_handles(bodies@),
    ensures
        islands_match(islands@, island_reps(bodies@, contact_pairs@, joint_bodies@)),
{
    let non_static = non_static_handles(bodies);
    let mut union = UnionFind::new(&non_static);
    let ghost rep0 = union.reps();
    connect_all(bodies, &mut union, contact_pairs, joint_bodies);
    let sorted = sorted_handles(&non_static);
    proof {
        lemma_connect_contacts_dom(rep0, bodies@, contact_pairs@);
        lemma_connect_joints_dom(
            connect_contacts(rep0, bodies@, contact_pairs@),
            bodies@,
            joint_bodies@,
        );
        assert(rep0.dom() =~= handle_keys(non_static@));
    }
    group_islands(&mut union, &sorted)
}

/// An island's solve state: its bodies and whether it must be solved this step.
#[derive(Clone, Debug)]
pub struct SolverIsland {
    /// Island id.
    pub id: u32,
    /// Member bodies in increasing handle order.
    pub bodies: Vec<BodyHandle>,
    /// Whether some member is awake or has a pending wake reason.
    pub active: bool,
}

/// Some member of the island has a record that is awake or has a pending wake reason.
pub open spec fn island_is_active(
    bodies: Seq<BodySleepFacts>,
    wake: Map<u64, SleepTransitionReason>,
    members: Seq<BodyHandle>,
) -> bool {
    exists|t: int|
        0 <= t < members.len() && (lookup_body(bodies, #[trigger] members[t]@) matches Some(r) && (
        !r.sleeping || wake.contains_key(members[t]@)))
}

/// Every member of the island is a known dynamic body allowed to sleep.
pub open spec fn island_may_sleep(bodies: Seq<BodySleepFacts>, members: Seq<BodyHandle>) -> bool {
    forall|t: int|
        0 <= t < members.len() ==> (lookup_body(bodies, #[trigger] members[t]@) matches Some(r)
            && r.body_type == BodyType::Dynamic && r.can_sleep)
}

fn island_has_awake_body(
    bodies: &Vec<BodySleepFacts>,
    members: &Vec<BodyHandle>,
    wake_reasons: &BodyMap<SleepTransitionReason>,
) -> (r: bool)
    ensures
        r == island_is_active(bodies@, wake_reasons@, members@),
{
    let mut t: usize = 0;
    while t < members.len()
        invariant
            0 <= t <= members.len(),
            forall|u: int|
                0 <= u < t ==> !(lookup_body(bodies@, #[trigger] members@[u]@) matches Some(r) && (
                !r.sleeping || wake_reasons@.contains_key(members@[u]@))),
        decreases members.len() - t,
    {
        let body = members[t];
        let awake = match find_body(bodies, body) {
            Some(record) => !record.sleeping || wake_reasons.contains_key(body),
            None => false,
        };
        if awake {
            return true;
        }
        t = t + 1;
    }
    false
}

/// An island is active as soon as one member's record is awake or has a pending wake
/// reason, whatever the other members are; it is inactive when every member is unknown,
/// or asleep with no pending wake reason.
pub proof fn lemma_one_awake_member_activates_island(
    bodies: Seq<BodySleepFacts>,
    wake: Map<u64, SleepTransitionReason>,
    members: Seq<BodyHandle>,
    t: int,
    j: int,
)
    requires
        distinct_handles(bodies),
        0 <= t < members.len(),
        0 <= j < bodies.len(),
        bodies[j].handle == members[t],
        !bodies[j].sleeping || wake.contains_key(members[t]@),
    ensures
        island_is_active(bodies, wake, members),
{
    lemma_lookup_distinct(bodies, j);
}

/// An island whose members are all unknown, or asleep with no pending wake reason, is
/// inactive.
pub proof fn lemma_sleeping_island_is_inactive(
    bodies: Seq<BodySleepFacts>,
    wake: Map<u64, SleepTransitionReason>,
    members: Seq<BodyHandle>,
)
    requires
        distinct_handles(bodies),
        forall|t: int, j: int|
            0 <= t < members.len() && 0 <= j < bodies.len() && #[trigger] bodies[j].handle
                == #[trigger] members[t] ==> bodies[j].sleeping && !wake.contains_key(members[t]@),
    ensures
        !island_is_active(bodies, wake, members),
{
    if island_is_active(bodies, wake, members) {
        let t = choose|t: int|
            0 <= t < members.len() && (lookup_body(bodies, #[trigger] members[t]@) matches Some(r)
                && (!r.sleeping || wake.contains_key(members[t]@)));
        lemma_lookup_found(bodies, members[t]@);
        let j = choose|j: int| 0 <= j < bodies.len() && bodies[j].handle@ == members[t]@ && lookup_body(bodies, members[t]@) == Some(bodies[j]);
        BodyHandle::lemma_view_eq(bodies[j].handle, members[t]);
        assert(bodies[j].handle == members[t]);
    }
}

proof fn lemma_lookup_found(bodies: Seq<BodySleepFacts>, key: u64)
    requires
        lookup_body(bodies, key) is Some,
    ensures
        exists|j: int|
            0 <= j < bodies.len() && bodies[j].handle@ == key && lookup_body(bodies, key) == Some(
                bodies[j],
            ),
    decreases bodies.len(),
{
    if bodies[0].handle@ == key {
        assert(bodies[0].handle@ == key);
    } else {
        lemma_lookup_found(bodies.drop_first(), key);
        let j = choose|j: int|
            0 <= j < bodies.drop_first().len() && bodies.drop_first()[j].handle@ == key
                && lookup_body(bodies.drop_first(), key) == Some(bodies.drop_first()[j]);
        assert(bodies[j + 1] == bodies.drop_first()[j]);
    }
}

/// Returns whether every body of the island is a known dynamic body allowed to sleep.
pub fn island_can_sleep(bodies: &Vec<BodySleepFacts>, island: &Island) -> (r: bool)
    ensures
        r == island_may_sleep(bodies@, island.bodies@),
{
    let mut t: usize = 0;
    while t < island.bodies.len()
        invariant
            0 <= t <= island.bodies.len(),
            forall|u: int|
                0 <= u < t ==> (lookup_body(bodies@, #[trigger] island.bodies@[u]@) matches Some(r)
                    && r.body_type == BodyType::Dynamic && r.can_sleep),
        decreases island.bodies.len() - t,
    {
        let ok = match find_body(bodies, island.bodies[t]) {
            Some(record) => record.body_type.is_dynamic() && record.can_sleep,
            None => false,
        };
        if !ok {
            return false;
        }
        t = t + 1;
    }
    true
}

/// Builds the islands of this step and marks each island active when some member is awake
/// or has a pending wake reason; inactive islands are skipped by the solver.
pub fn build_active_solver_islands(
    bodies: &Vec<BodySleepFacts>,
    contact_pairs: &Vec<(BodyHandle, BodyHandle)>,
    joint_bodies: &Vec<Vec<BodyHandle>>,
    wake_reasons: &BodyMap<SleepTransitionReason>,
) -> (solver_islands: Vec<SolverIsland>)
    requires
        distinct_handles(bodies@),
    ensures
        forall|i: int|
            0 <= i < solver_islands.len() ==> #[trigger] solver_islands@[i].id == #[verifier::truncate] (
            i as u32),
        groups_partition(
            solver_islands@.map_values(|island: SolverIsland| island.bodies@),
            island_reps(bodies@, contact_pairs@, joint_bodies@),
        ),
        forall|i: int|
            0 <= i < solver_islands.len() ==> #[trigger] solver_islands@[i].active
                == island_is_active(bodies@, wake_reasons@, solver_islands@[i].bodies@),
{
    let islands = build_islands_from_pairs(bodies, contact_pairs, joint_bodies);
    let mut out: Vec<SolverIsland> = Vec::new();
    let mut i: usize = 0;
    while i < islands.len()
        invariant
            0 <= i <= islands.len(),
            out.len() == i,
            forall|g: int| 0 <= g < i ==> #[trigger] out@[g].id == islands@[g].id,
            forall|g: int| 0 <= g < i ==> #[trigger] out@[g].bodies@ == islands@[g].bodies@,
            forall|g: int|
                0 <= g < i ==> #[trigger] out@[g].active == island_is_active(
                    bodies@,
                    wake_reasons@,
                    islands@[g].bodies@,
                ),
        decreases islands.len() - i,
    {
        let members = islands[i].bodies.clone();
        proof {
            assert(members@ =~= islands@[i as int].bodies@);
        }
        let active = island_has_awake_body(bodies, &members, wake_reasons);
        let ghost before = out@;
        out.push(SolverIsland { id: islands[i].id, bodies: members, active });
        proof {
            assert(out@[i as int].bodies@ == islands@[i as int].bodies@);
            assert forall|g: int| 0 <= g < i implies out@[g] == before[g] by {}
        }
        i = i + 1;
    }
    proof {
        let a = out@.map_values(|island: SolverIsland| island.bodies@);
        let b = island_groups(islands@);
        assert forall|g: int| 0 <= g < a.len() implies a[g] == b[g] by {
            assert(out@[g].bodies@ == islands@[g].bodies@);
        }
        assert(a =~= b);
        assert forall|g: int| 0 <= g < out.len() implies #[trigger] out@[g].active
            == island_is_active(bodies@, wake_reasons@, out@[g].bodies@) by {
            assert(out@[g].bodies@ == islands@[g].bodies@);
        }
    }
    out
}

/// Records a wake reason for an island, keeping the stronger reason.
pub open spec fn expand_members(
    acc: Map<u32, SleepTransitionReason>,
    id: u32,
    members: Seq<BodyHandle>,
    wake: Map<u64, SleepTransitionReason>,
) -> Map<u32, SleepTransitionReason>
    decreases members.len(),
{
    if members.len() == 0 {
        acc
    } else {
        let prev = expand_members(acc, id, members.drop_last(), wake);
        let b = members.last()@;
        if wake.contains_key(b) {
            record_wake_reason_spec(prev, id, wake[b])
        } else {
            prev
        }
    }
}

/// The wake reason of each island: the strongest reason of its bodies, visiting islands and
/// bodies in order.
pub open spec fn expand_wake_reasons_spec(
    islands: Seq<Island>,
    wake: Map<u64, SleepTransitionReason>,
) -> Map<u32, SleepTransitionReason>
    decreases islands.len(),
{
    if islands.len() == 0 {
        Map::empty()
    } else {
        expand_members(
            expand_wake_reasons_spec(islands.drop_last(), wake),
            islands.last().id,
            islands.last().bodies@,
            wake,
        )
    }
}

/// Gives each island the strongest wake reason recorded for any of its bodies.
pub fn expand_wake_reasons(
    islands: &Vec<Island>,
    wake_reasons: &BodyMap<SleepTransitionReason>,
) -> (island_reasons: BTreeMap<u32, SleepTransitionReason>)
    ensures
        island_reasons@ == expand_wake_reasons_spec(islands@, wake_reasons@),
{
    let mut island_reasons: BTreeMap<u32, SleepTransitionReason> = BTreeMap::new();
    let mut i: usize = 0;
    while i < islands.len()
        invariant
            0 <= i <= islands.len(),
            island_reasons@ == expand_wake_reasons_spec(islands@.subrange(0, i as int), wake_reasons@),
        decreases islands.len() - i,
    {
        let island = &islands[i];
        let ghost acc0 = island_reasons@;
        let mut t: usize = 0;
        while t < island.bodies.len()
            invariant
                0 <= t <= island.bodies.len(),
                island == islands@[i as int],
                island_reasons@ == expand_members(
                    acc0,
                    island.id,
                    island.bodies@.subrange(0, t as int),
                    wake_reasons@,
                ),
            decreases island.bodies.len() - t,
        {
            let body = island.bodies[t];
            match wake_reasons.get(body) {
                Some(reason) => {
                    let reason = *reason;
                    let current = match island_reasons.get(&island.id) {
                        Some(c) => Some(*c),
                        None => None,
                    };
                    let kept = match current {
                        Some(c) => if wake_reason_priority(reason) > wake_reason_priority(c) {
                            reason
                        } else {
                            c
                        },
                        None => reason,
                    };
                    island_reasons.insert(island.id, kept);
                },
                None => {},
            }
            proof {
                let next = island.bodies@.subrange(0, t + 1);
                assert(next.drop_last() == island.bodies@.subrange(0, t as int));
                assert(next.last() == body);
            }
            t = t + 1;
        }
        proof {
            assert(island.bodies@.subrange(0, t as int) == island.bodies@);
            let next = islands@.subrange(0, i + 1);
            assert(next.drop_last() == islands@.subrange(0, i as int));
            assert(next.last() == islands@[i as int]);
        }
        i = i + 1;
    }
    proof {
        assert(islands@.subrange(0, i as int) == islands@);
    }
    island_reasons
}


/// Some member of `members` has a recorded wake reason.
pub open spec fn some_member_has_reason(
    members: Seq<BodyHandle>,
    wake: Map<u64, SleepTransitionReason>,
) -> bool {
    exists|t: int| 0 <= t < members.len() && wake.contains_key(#[trigger] members[t]@)
}

proof fn lemma_expand_members_facts(
    acc: Map<u32, SleepTransitionReason>,
    id: u32,
    members: Seq<BodyHandle>,
    wake: Map<u64, SleepTransitionReason>,
)
    ensures
        ({
            let res = expand_members(acc, id, members, wake);
            &&& forall|k: u32| k != id ==> (#[trigger] res.contains_key(k) == acc.contains_key(k)
                && (acc.contains_key(k) ==> res[k] == acc[k]))
            &&& res.contains_key(id) == (acc.contains_key(id) || some_member_has_reason(
                members,
                wake,
            ))
            &&& res.contains_key(id) ==> ((acc.contains_key(id) && res[id] == acc[id]) || exists|
                t: int,
            |
                0 <= t < members.len() && wake.contains_key(#[trigger] members[t]@) && res[id]
                    == wake[members[t]@])
            &&& acc.contains_key(id) ==> wake_priority(res[id]) >= wake_priority(acc[id])
            &&& forall|t: int|
                0 <= t < members.len() && wake.contains_key(#[trigger] members[t]@)
                    ==> wake_priority(res[id]) >= wake_priority(wake[members[t]@])
        }),
    decreases members.len(),
{
    if members.len() > 0 {
        let init = members.drop_last();
        lemma_expand_members_facts(acc, id, init, wake);
        let prev = expand_members(acc, id, init, wake);
        let res = expand_members(acc, id, members, wake);
        let last = members.len() - 1;
        let b = members.last()@;
        assert(members[last]@ == b);
        assert forall|t: int| 0 <= t < init.len() implies #[trigger] init[t] == members[t] by {}
        if some_member_has_reason(init, wake) {
            let t = choose|t: int| 0 <= t < init.len() && wake.contains_key(#[trigger] init[t]@);
            assert(init[t] == members[t]);
        }
        if some_member_has_reason(members, wake) && !wake.contains_key(b) {
            let t = choose|t: int| 0 <= t < members.len() && wake.contains_key(#[trigger] members[t]@);
            assert(t < last);
            assert(init[t] == members[t]);
        }
        if res.contains_key(id) && !(acc.contains_key(id) && res[id] == acc[id]) {
            if wake.contains_key(b) && res[id] == wake[b] {
                assert(wake.contains_key(members[last]@) && res[id] == wake[members[last]@]);
            } else {
                assert(res[id] == prev[id]);
                let t = choose|t: int|
                    0 <= t < init.len() && wake.contains_key(#[trigger] init[t]@) && prev[id]
                        == wake[init[t]@];
                assert(init[t] == members[t]);
            }
        }
        assert forall|t: int|
            0 <= t < members.len() && wake.contains_key(#[trigger] members[t]@) implies wake_priority(
            res[id]) >= wake_priority(wake[members[t]@]) by {
            if t < last {
                assert(init[t] == members[t]);
            }
        }
    } else {
        assert(!some_member_has_reason(members, wake));
    }
}

proof fn lemma_expand_wake_reasons_dom(
    islands: Seq<Island>,
    wake: Map<u64, SleepTransitionReason>,
    id: u32,
)
    requires
        forall|k: int| 0 <= k < islands.len() ==> #[trigger] islands[k].id != id,
    ensures
        !expand_wake_reasons_spec(islands, wake).contains_key(id),
    decreases islands.len(),
{
    if islands.len() > 0 {
        let init = islands.drop_last();
        assert forall|k: int| 0 <= k < init.len() implies #[trigger] init[k].id != id by {
            assert(init[k] == islands[k]);
        }
        lemma_expand_wake_reasons_dom(init, wake, id);
        assert(islands[islands.len() - 1].id != id);
        lemma_expand_members_facts(
            expand_wake_reasons_spec(init, wake),
            islands.last().id,
            islands.last().bodies@,
            wake,
        );
    }
}

/// With distinct island ids, an island gets a wake reason exactly when one of its bodies
/// has one, and then it gets one of its bodies' reasons whose priority is at least that of
/// every reason recorded for its bodies: the strongest one.
pub proof fn lemma_island_gets_strongest_member_reason(
    islands: Seq<Island>,
    wake: Map<u64, SleepTransitionReason>,
    k: int,
)
    requires
        0 <= k < islands.len(),
        forall|a: int, b: int|
            0 <= a < islands.len() && 0 <= b < islands.len() && a != b ==> #[trigger] islands[a].id
                != #[trigger] islands[b].id,
    ensures
        ({
            let id = islands[k].id;
            let members = islands[k].bodies@;
            let r = expand_wake_reasons_spec(islands, wake);
            &&& r.contains_key(id) == exists|t: int|
                0 <= t < members.len() && wake.contains_key(#[trigger] members[t]@)
            &&& r.contains_key(id) ==> exists|t: int|
                0 <= t < members.len() && wake.contains_key(#[trigger] members[t]@) && r[id]
                    == wake[members[t]@]
            &&& forall|t: int|
                0 <= t < members.len() && wake.contains_key(#[trigger] members[t]@)
                    ==> wake_priority(r[id]) >= wake_priority(wake[members[t]@])
        }),
    decreases islands.len(),
{
    let init = islands.drop_last();
    let last = islands.len() - 1;
    let acc = expand_wake_reasons_spec(init, wake);
    lemma_expand_members_facts(acc, islands[last].id, islands[last].bodies@, wake);
    if k == last {
        assert forall|a: int| 0 <= a < init.len() implies #[trigger] init[a].id != islands[k].id by {
            assert(init[a] == islands[a]);
        }
        lemma_expand_wake_reasons_dom(init, wake, islands[k].id);
    } else {
        assert forall|a: int, b: int|
            0 <= a < init.len() && 0 <= b < init.len() && a != b implies #[trigger] init[a].id
            != #[trigger] init[b].id by {
            assert(init[a] == islands[a]);
            assert(init[b] == islands[b]);
        }
        assert(init[k] == islands[k]);
        lemma_island_gets_strongest_member_reason(init, wake, k);
        assert(islands[k].id != islands[last].id);
    }
}

} // verus!
