//! Contact pair lifecycle across collision passes.
//!
//! Each contact pair remembers whether it touched in this pass and in the previous one,
//! and holds back the contact points of a continuing pair until the solver has warm
//! started from the previous points. The solver constraint itself is owned by the caller,
//! which applies the [`ContactPointUpdate`] each call hands back.
use std::collections::BTreeMap;

use vstd::prelude::*;

use crate::element::ID;
use vstd::std_specs::iter::IteratorSpec;

verus! {

/// The lifecycle facts of one contact pair.
pub struct PairLifecycle<P> {
    /// The pair touched in the current pass.
    pub is_active: bool,
    /// The pair touched in the previous pass.
    pub was_active_last_pass: bool,
    /// Contact points waiting for the warm-start refresh.
    pub pending: Option<Seq<P>>,
}

/// What the caller's solver constraint for a pair must do with contact points.
pub enum ContactPointUpdate<P> {
    /// Create the pair's constraint, active, with these points and no cached impulses.
    Create(Vec<P>),
    /// Replace the constraint's points, dropping cached impulses.
    Replace(Vec<P>),
    /// Append these points to the constraint's points.
    Extend(Vec<P>),
    /// Replace the constraint's points, carrying cached impulses over to matching points.
    ReplaceKeepingImpulses(Vec<P>),
    /// Nothing yet: the points wait for the warm-start refresh.
    Deferred,
}

/// The mathematical content of a [`ContactPointUpdate`].
pub enum ContactPointUpdateView<P> {
    Create(Seq<P>),
    Replace(Seq<P>),
    Extend(Seq<P>),
    ReplaceKeepingImpulses(Seq<P>),
    Deferred,
}

impl<P> View for ContactPointUpdate<P> {
    type V = ContactPointUpdateView<P>;

    open spec fn view(&self) -> ContactPointUpdateView<P> {
        match self {
            ContactPointUpdate::Create(points) => ContactPointUpdateView::Create(points@),
            ContactPointUpdate::Replace(points) => ContactPointUpdateView::Replace(points@),
            ContactPointUpdate::Extend(points) => ContactPointUpdateView::Extend(points@),
            ContactPointUpdate::ReplaceKeepingImpulses(points) => {
                ContactPointUpdateView::ReplaceKeepingImpulses(points@)
            },
            ContactPointUpdate::Deferred => ContactPointUpdateView::Deferred,
        }
    }
}

struct ContactManifoldEntry<P> {
    is_active: bool,
    was_active_last_pass: bool,
    pending: Option<Vec<P>>,
}

impl<P> View for ContactManifoldEntry<P> {
    type V = PairLifecycle<P>;

    closed spec fn view(&self) -> PairLifecycle<P> {
        PairLifecycle {
            is_active: self.is_active,
            was_active_last_pass: self.was_active_last_pass,
            pending: match self.pending {
                Some(points) => Some(points@),
                None => None,
            },
        }
    }
}

/// The lifecycle after a new collision pass starts: nothing touches yet, what touched
/// last pass is remembered, and no points wait.
pub open spec fn begun<P>(entry: PairLifecycle<P>) -> PairLifecycle<P> {
    PairLifecycle { is_active: false, was_active_last_pass: entry.is_active, pending: None }
}

/// The lifecycle of a new pair that touches.
pub open spec fn fresh_pair<P>() -> PairLifecycle<P> {
    PairLifecycle { is_active: true, was_active_last_pass: false, pending: None }
}

/// The lifecycle after the pair reports contact points: a pair touching already extends its
/// waiting points, if any; a pair that touched last pass starts waiting with the new
/// points; any other pair just becomes active.
pub open spec fn ingested<P>(entry: PairLifecycle<P>, points: Seq<P>) -> PairLifecycle<P> {
    if entry.is_active {
        match entry.pending {
            Some(waiting) => PairLifecycle { pending: Some(waiting + points), ..entry },
            None => entry,
        }
    } else if entry.was_active_last_pass {
        PairLifecycle { is_active: true, was_active_last_pass: true, pending: Some(points) }
    } else {
        PairLifecycle { is_active: true, ..entry }
    }
}

/// The lifecycles after a pair reports points: a known pair is ingested, an unknown one
/// created touching.
pub open spec fn after_ingest<P>(
    pairs: Map<(ID, ID), PairLifecycle<P>>,
    pair: (ID, ID),
    points: Seq<P>,
) -> Map<(ID, ID), PairLifecycle<P>> {
    if pairs.contains_key(pair) {
        pairs.insert(pair, ingested(pairs[pair], points))
    } else {
        pairs.insert(pair, fresh_pair())
    }
}

/// What the pair's constraint does with reported points.
pub open spec fn ingest_result<P>(
    pairs: Map<(ID, ID), PairLifecycle<P>>,
    pair: (ID, ID),
    points: Seq<P>,
) -> ContactPointUpdateView<P> {
    if pairs.contains_key(pair) {
        ingest_update(pairs[pair], points)
    } else {
        ContactPointUpdateView::Create(points)
    }
}

/// What the constraint of a known pair does with reported points.
pub open spec fn ingest_update<P>(entry: PairLifecycle<P>, points: Seq<P>) -> ContactPointUpdateView<
    P,
> {
    if entry.is_active {
        match entry.pending {
            Some(_) => ContactPointUpdateView::Deferred,
            None => ContactPointUpdateView::Extend(points),
        }
    } else if entry.was_active_last_pass {
        ContactPointUpdateView::Deferred
    } else {
        ContactPointUpdateView::Replace(points)
    }
}

/// The pair has points waiting for the warm-start refresh while it touches.
pub open spec fn refresh_due<P>(entry: PairLifecycle<P>) -> bool {
    entry.is_active && entry.pending is Some
}

/// The lifecycle after the warm-start refresh: due points are handed over.
pub open spec fn refreshed<P>(entry: PairLifecycle<P>) -> PairLifecycle<P> {
    if refresh_due(entry) {
        PairLifecycle { pending: None, ..entry }
    } else {
        entry
    }
}

/// What the constraint of a due pair does at the refresh: a pair that also touched last
/// pass keeps its impulses; others start fresh.
pub open spec fn refresh_update<P>(entry: PairLifecycle<P>) -> ContactPointUpdateView<P> {
    if entry.was_active_last_pass && entry.is_active {
        ContactPointUpdateView::ReplaceKeepingImpulses(entry.pending->0)
    } else {
        ContactPointUpdateView::Replace(entry.pending->0)
    }
}

/// `a` comes before `b`: by the first id, then by the second.
pub open spec fn pair_precedes(a: (ID, ID), b: (ID, ID)) -> bool {
    a.0 < b.0 || (a.0 == b.0 && a.1 < b.1)
}

/// A map's keys come out in increasing pair order.
proof fn lemma_keys_in_order<V>(m: &BTreeMap<(ID, ID), V>)
    ensures
        forall|i: int, j: int|
            0 <= i < j < m.keys().remaining().len() ==> pair_precedes(
                *#[trigger] m.keys().remaining()[i],
                *#[trigger] m.keys().remaining()[j],
            ),
{
    let all = m.keys().remaining();
    vstd::std_specs::btree::axiom_spec_keys_iter(m);
    broadcast use vstd::laws_cmp::group_laws_cmp;
    vstd::std_specs::btree::axiom_increasing_seq_meaning(all);
    assert forall|i: int, j: int| 0 <= i < j < all.len() implies pair_precedes(
        *#[trigger] all[i],
        *#[trigger] all[j],
    ) by {
        assert(vstd::std_specs::cmp::OrdSpec::cmp_spec(&all[i], &all[j]) is Less);
    }
}

/// Lifecycle bookkeeping of every contact pair, keyed by the ordered pair of element ids.
pub struct ContactManager<P> {
    map: BTreeMap<(ID, ID), ContactManifoldEntry<P>>,
}

impl<P> View for ContactManager<P> {
    type V = Map<(ID, ID), PairLifecycle<P>>;

    closed spec fn view(&self) -> Map<(ID, ID), PairLifecycle<P>> {
        self.map@.map_values(|entry: ContactManifoldEntry<P>| entry@)
    }
}

impl<P> ContactManager<P> {
    /// Creates a manager with no pairs.
    pub fn new() -> (m: Self)
        ensures
            m@ == Map::<(ID, ID), PairLifecycle<P>>::empty(),
    {
        let m = ContactManager { map: BTreeMap::new() };
        proof {
            assert(m@ =~= Map::<(ID, ID), PairLifecycle<P>>::empty());
        }
        m
    }

    /// Returns the number of pairs.
    pub fn len(&self) -> (n: usize)
        ensures
            n == self@.len(),
    {
        proof {
            assert(self@.dom() =~= self.map@.dom());
        }
        self.map.len()
    }

    /// Returns whether no pair is known.
    pub fn is_empty(&self) -> (r: bool)
        ensures
            r == (self@.len() == 0),
    {
        self.len() == 0
    }

    /// Returns whether the pair is known.
    pub fn contains_key(&self, pair: &(ID, ID)) -> (r: bool)
        ensures
            r == self@.contains_key(*pair),
    {
        self.map.contains_key(pair)
    }

    /// Forgets every pair.
    pub fn clear(&mut self)
        ensures
            final(self)@ == Map::<(ID, ID), PairLifecycle<P>>::empty(),
    {
        self.map.clear();
        proof {
            assert(self@ =~= Map::<(ID, ID), PairLifecycle<P>>::empty());
        }
    }

    /// Returns whether the pair touches in the current pass.
    pub fn is_pair_active(&self, pair: (ID, ID)) -> (r: bool)
        ensures
            r == (self@.contains_key(pair) && self@[pair].is_active),
    {
        match self.map.get(&pair) {
            Some(entry) => entry.is_active,
            None => false,
        }
    }

    /// Returns whether the pair's solver may warm start from last pass's impulses: it
    /// touches now and touched in the previous pass.
    pub fn can_warm_start_pair(&self, pair: (ID, ID)) -> (r: bool)
        ensures
            r == (self@.contains_key(pair) && self@[pair].is_active
                && self@[pair].was_active_last_pass),
    {
        match self.map.get(&pair) {
            Some(entry) => entry.is_active && entry.was_active_last_pass,
            None => false,
        }
    }

    /// Returns whether the pair has points waiting for the warm-start refresh.
    pub fn has_pending_refresh(&self, pair: (ID, ID)) -> (r: bool)
        ensures
            r == (self@.contains_key(pair) && self@[pair].pending is Some),
    {
        match self.map.get(&pair) {
            Some(entry) => entry.pending.is_some(),
            None => false,
        }
    }

    /// Returns the pairs in increasing order.
    pub fn keys(&self) -> (keys: Vec<(ID, ID)>)
        ensures
            keys@.to_set() == self@.dom(),
            keys@.no_duplicates(),
            forall|i: int, j: int|
                0 <= i < j < keys@.len() ==> pair_precedes(#[trigger] keys@[i], #[trigger] keys@[j]),
    {
        let mut keys: Vec<(ID, ID)> = Vec::new();
        let ghost all = self.map.keys().remaining();
        for k in it: self.map.keys()
            invariant
                it.seq() == all,
                keys@ == all.take(it.index() as int).unref(),
        {
            keys.push(*k);
            proof {
                assert(keys@ =~= all.take(it.index() + 1).unref());
            }
        }
        proof {
            vstd::std_specs::btree::axiom_spec_keys_iter(&self.map);
            assert(keys@ =~= all.unref());
            assert(self@.dom() =~= self.map@.dom());
            lemma_keys_in_order(&self.map);
        }
        keys
    }
}

impl<P> ContactManager<P> {
    /// Starts a collision pass: every pair stops touching, remembers whether it touched in
    /// the pass that ends, and drops any points still waiting.
    pub fn begin_collision_pass(&mut self)
        ensures
            final(self)@ == old(self)@.map_values(|entry: PairLifecycle<P>| begun(entry)),
    {
        let keys = self.keys();
        let ghost start = self@;
        let mut i: usize = 0;
        while i < keys.len()
            invariant
                i <= keys.len(),
                keys@.to_set() == start.dom(),
                keys@.no_duplicates(),
                self@.dom() == start.dom(),
                forall|k: (ID, ID)|
                    #![trigger self@[k]]
                    start.contains_key(k) ==> self@[k] == if keys@.take(i as int).contains(k) {
                        begun(start[k])
                    } else {
                        start[k]
                    },
            decreases keys.len() - i,
        {
            let key = keys[i];
            let ghost before = self@;
            proof {
                assert(keys@.to_set().contains(key));
                assert(!keys@.take(i as int).contains(key)) by {
                    if keys@.take(i as int).contains(key) {
                        let w = choose|w: int| 0 <= w < i && keys@.take(i as int)[w] == key;
                        assert(keys@[w] == keys@[i as int]);
                    }
                }
            }
            match self.map.remove(&key) {
                Some(mut entry) => {
                    proof {
                        assert(entry@ == before[key]);
                    }
                    entry.pending = None;
                    entry.was_active_last_pass = entry.is_active;
                    entry.is_active = false;
                    self.map.insert(key, entry);
                    proof {
                        assert(self@[key] == begun(before[key]));
                    }
                },
                None => {},
            }
            proof {
                assert(self@.dom() =~= before.dom());
                assert forall|k: (ID, ID)| start.contains_key(k) implies #[trigger] self@[k]
                    == if keys@.take(i + 1).contains(k) {
                    begun(start[k])
                } else {
                    start[k]
                } by {
                    let next = keys@.take(i + 1);
                    let prev = keys@.take(i as int);
                    assert(next =~= prev.push(key));
                    if k != key {
                        assert(self@[k] == before[k]);
                        assert(next.contains(k) == prev.contains(k)) by {
                            if next.contains(k) {
                                let w = choose|w: int| 0 <= w < next.len() && next[w] == k;
                                assert(w < prev.len());
                                assert(prev[w] == k);
                            }
                            if prev.contains(k) {
                                let w = choose|w: int| 0 <= w < prev.len() && prev[w] == k;
                                assert(next[w] == k);
                            }
                        }
                    } else {
                        assert(next[i as int] == key);
                        assert(next.contains(key));
                        assert(before[key] == start[key]);
                    }
                }
            }
            i = i + 1;
        }
        proof {
            assert(keys@.take(i as int) =~= keys@);
            assert forall|k: (ID, ID)| start.contains_key(k) implies keys@.contains(k) by {
                assert(keys@.to_set().contains(k));
            }
            assert(self@ =~= start.map_values(|entry: PairLifecycle<P>| begun(entry)));
        }
    }
}

impl<P> ContactManager<P> {
    /// Takes the contact points a pair reports in the current pass, and returns what the
    /// pair's constraint must do with them. A new pair is created touching; a pair that
    /// touched last pass holds its points back until the warm-start refresh.
    pub fn ingest_contact_point_pairs(&mut self, obj_id_a: ID, obj_id_b: ID, points: Vec<P>) -> (update:
        ContactPointUpdate<P>)
        ensures
            final(self)@ == after_ingest(old(self)@, (obj_id_a, obj_id_b), points@),
            update@ == ingest_result(old(self)@, (obj_id_a, obj_id_b), points@),
    {
        let pair = (obj_id_a, obj_id_b);
        let ghost before = self@;
        match self.map.remove(&pair) {
            None => {
                let entry = ContactManifoldEntry {
                    is_active: true,
                    was_active_last_pass: false,
                    pending: None,
                };
                self.map.insert(pair, entry);
                proof {
                    assert(self@ =~= before.insert(pair, fresh_pair()));
                }
                ContactPointUpdate::Create(points)
            },
            Some(mut entry) => {
                proof {
                    assert(entry@ == before[pair]);
                }
                let ghost incoming = points@;
                let update = if entry.is_active {
                    match entry.pending.take() {
                        Some(mut waiting) => {
                            let mut points = points;
                            waiting.append(&mut points);
                            entry.pending = Some(waiting);
                            ContactPointUpdate::Deferred
                        },
                        None => ContactPointUpdate::Extend(points),
                    }
                } else {
                    entry.is_active = true;
                    if entry.was_active_last_pass {
                        entry.pending = Some(points);
                        ContactPointUpdate::Deferred
                    } else {
                        ContactPointUpdate::Replace(points)
                    }
                };
                proof {
                    assert(entry@ == ingested(before[pair], incoming));
                }
                self.map.insert(pair, entry);
                proof {
                    assert(self@ =~= before.insert(pair, ingested(before[pair], incoming)));
                }
                update
            },
        }
    }
}

impl<P> ContactManager<P> {
    /// After the solver has warm started, hands over the points that touching pairs held
    /// back: one update per such pair, in increasing pair order; a pair that also touched
    /// last pass keeps its cached impulses.
    pub fn refresh_contact_point_pairs_after_warm_start(&mut self) -> (updates: Vec<
        ((ID, ID), ContactPointUpdate<P>),
    >)
        ensures
            final(self)@ == old(self)@.map_values(|entry: PairLifecycle<P>| refreshed(entry)),
            updates@.map_values(|u: ((ID, ID), ContactPointUpdate<P>)| u.0).no_duplicates(),
            forall|k: (ID, ID)|
                updates@.map_values(|u: ((ID, ID), ContactPointUpdate<P>)| u.0).contains(k) <==> (
                old(self)@.contains_key(k) && refresh_due(old(self)@[k])),
            forall|j: int|
                0 <= j < updates@.len() ==> (#[trigger] updates@[j]).1@ == refresh_update(
                    old(self)@[updates@[j].0],
                ),
            forall|a: int, b: int|
                0 <= a < b < updates@.len() ==> pair_precedes(
                    (#[trigger] updates@[a]).0,
                    (#[trigger] updates@[b]).0,
                ),
    {
        let keys = self.keys();
        let ghost start = self@;
        let mut updates: Vec<((ID, ID), ContactPointUpdate<P>)> = Vec::new();
        let mut i: usize = 0;
        while i < keys.len()
            invariant
                i <= keys.len(),
                keys@.to_set() == start.dom(),
                keys@.no_duplicates(),
                self@.dom() == start.dom(),
                forall|k: (ID, ID)|
                    #![trigger self@[k]]
                    start.contains_key(k) ==> self@[k] == if keys@.take(i as int).contains(k) {
                        refreshed(start[k])
                    } else {
                        start[k]
                    },
                forall|j: int|
                    0 <= j < updates@.len() ==> keys@.take(i as int).contains(
                        (#[trigger] updates@[j]).0,
                    ) && refresh_due(start[updates@[j].0]) && updates@[j].1@ == refresh_update(
                        start[updates@[j].0],
                    ),
                forall|k: (ID, ID)|
                    keys@.take(i as int).contains(k) && refresh_due(start[k]) ==> exists|j: int|
                        0 <= j < updates@.len() && (#[trigger] updates@[j]).0 == k,
                forall|a: int, b: int|
                    0 <= a < updates@.len() && 0 <= b < updates@.len() && a != b ==> (
                    #[trigger] updates@[a]).0 != (#[trigger] updates@[b]).0,
                forall|a: int, b: int|
                    0 <= a < b < keys@.len() ==> pair_precedes(#[trigger] keys@[a], #[trigger] keys@[b]),
                forall|a: int, b: int|
                    0 <= a < b < updates@.len() ==> pair_precedes(
                        (#[trigger] updates@[a]).0,
                        (#[trigger] updates@[b]).0,
                    ),
            decreases keys.len() - i,
        {
            let key = keys[i];
            let ghost before = self@;
            let ghost before_updates = updates@;
            let ghost prev = keys@.take(i as int);
            let ghost next = keys@.take(i + 1);
            proof {
                assert(keys@.to_set().contains(key));
                assert(next =~= prev.push(key));
                assert(!prev.contains(key)) by {
                    if prev.contains(key) {
                        let w = choose|w: int| 0 <= w < prev.len() && prev[w] == key;
                        assert(keys@[w] == keys@[i as int]);
                    }
                }
                assert forall|k: (ID, ID)| k != key implies next.contains(k) == prev.contains(k) by {
                    if next.contains(k) {
                        let w = choose|w: int| 0 <= w < next.len() && next[w] == k;
                        assert(w < prev.len());
                        assert(prev[w] == k);
                    }
                    if prev.contains(k) {
                        let w = choose|w: int| 0 <= w < prev.len() && prev[w] == k;
                        assert(next[w] == k);
                    }
                }
                assert(next[i as int] == key);
                assert(before[key] == start[key]);
            }
            match self.map.remove(&key) {
                Some(mut entry) => {
                    proof {
                        assert(entry@ == start[key]);
                    }
                    if entry.is_active {
                        if let Some(points) = entry.pending.take() {
                            let update = if entry.was_active_last_pass && entry.is_active {
                                ContactPointUpdate::ReplaceKeepingImpulses(points)
                            } else {
                                ContactPointUpdate::Replace(points)
                            };
                            updates.push((key, update));
                        }
                    }
                    proof {
                        assert(entry@ == refreshed(start[key]));
                    }
                    self.map.insert(key, entry);
                },
                None => {},
            }
            proof {
                assert(self@.dom() =~= before.dom());
                assert forall|k: (ID, ID)| start.contains_key(k) implies #[trigger] self@[k]
                    == if next.contains(k) {
                    refreshed(start[k])
                } else {
                    start[k]
                } by {
                    if k != key {
                        assert(self@[k] == before[k]);
                    }
                }
                assert forall|j: int| 0 <= j < updates@.len() implies next.contains(
                    (#[trigger] updates@[j]).0,
                ) && refresh_due(start[updates@[j].0]) && updates@[j].1@ == refresh_update(
                    start[updates@[j].0],
                ) by {
                    if j < before_updates.len() {
                        assert(updates@[j] == before_updates[j]);
                    }
                }
                assert forall|k: (ID, ID)|
                    next.contains(k) && refresh_due(start[k]) implies exists|j: int|
                    0 <= j < updates@.len() && (#[trigger] updates@[j]).0 == k by {
                    if k == key {
                        assert(updates@[before_updates.len() as int].0 == key);
                    } else {
                        let j = choose|j: int|
                            0 <= j < before_updates.len() && (#[trigger] before_updates[j]).0 == k;
                        assert(updates@[j] == before_updates[j]);
                    }
                }
                assert forall|a: int, b: int| 0 <= a < b < updates@.len() implies pair_precedes(
                    (#[trigger] updates@[a]).0,
                    (#[trigger] updates@[b]).0,
                ) by {
                    if b >= before_updates.len() {
                        assert(updates@[a] == before_updates[a]);
                        assert(prev.contains(updates@[a].0));
                        let w = choose|w: int| 0 <= w < prev.len() && prev[w] == updates@[a].0;
                        assert(keys@[w] == prev[w]);
                        assert(updates@[b].0 == key);
                    } else {
                        assert(updates@[a] == before_updates[a]);
                        assert(updates@[b] == before_updates[b]);
                    }
                }
                assert forall|a: int, b: int|
                    0 <= a < updates@.len() && 0 <= b < updates@.len() && a != b implies (
                    #[trigger] updates@[a]).0 != (#[trigger] updates@[b]).0 by {
                    if a < before_updates.len() && b < before_updates.len() {
                        assert(updates@[a] == before_updates[a]);
                        assert(updates@[b] == before_updates[b]);
                    } else if a < before_updates.len() {
                        assert(updates@[a] == before_updates[a]);
                        assert(prev.contains(updates@[a].0));
                    } else if b < before_updates.len() {
                        assert(updates@[b] == before_updates[b]);
                        assert(prev.contains(updates@[b].0));
                    }
                }
            }
            i = i + 1;
        }
        proof {
            assert(keys@.take(i as int) =~= keys@);
            assert forall|k: (ID, ID)| start.contains_key(k) implies keys@.contains(k) by {
                assert(keys@.to_set().contains(k));
            }
            assert(self@ =~= start.map_values(|entry: PairLifecycle<P>| refreshed(entry)));
            let pairs = updates@.map_values(|u: ((ID, ID), ContactPointUpdate<P>)| u.0);
            assert forall|a: int, b: int|
                0 <= a < pairs.len() && 0 <= b < pairs.len() && a != b implies pairs[a]
                != pairs[b] by {
                assert(pairs[a] == updates@[a].0);
                assert(pairs[b] == updates@[b].0);
            }
            assert forall|k: (ID, ID)| pairs.contains(k) <==> (start.contains_key(k) && refresh_due(start[k])) by {
                if pairs.contains(k) {
                    let w = choose|w: int| 0 <= w < pairs.len() && pairs[w] == k;
                    assert(updates@[w].0 == k);
                    assert(keys@.contains(k));
                    assert(keys@.to_set().contains(k));
                }
                if start.contains_key(k) && refresh_due(start[k]) {
                    assert(keys@.contains(k));
                    let j = choose|j: int| 0 <= j < updates@.len() && (#[trigger] updates@[j]).0 == k;
                    assert(pairs[j] == k);
                }
            }
        }
        updates
    }
}

/// The pair touches now, and also touched last pass when warm starts are asked for.
pub open spec fn selected<P>(entry: PairLifecycle<P>, warm_start_only: bool) -> bool {
    entry.is_active && (!warm_start_only || entry.was_active_last_pass)
}

impl<P> ContactManager<P> {
    /// Returns the pairs that touch in the current pass, in increasing order.
    pub fn active_pairs(&self) -> (pairs: Vec<(ID, ID)>)
        ensures
            pairs@.no_duplicates(),
            forall|a: int, b: int|
                0 <= a < b < pairs@.len() ==> pair_precedes(#[trigger] pairs@[a], #[trigger] pairs@[b]),
            forall|k: (ID, ID)|
                pairs@.contains(k) <==> (self@.contains_key(k) && self@[k].is_active),
    {
        self.select_pairs(false)
    }

    /// Returns the pairs whose solver may warm start: they touch now and touched in the
    /// previous pass. In increasing order.
    pub fn warm_start_pairs(&self) -> (pairs: Vec<(ID, ID)>)
        ensures
            pairs@.no_duplicates(),
            forall|a: int, b: int|
                0 <= a < b < pairs@.len() ==> pair_precedes(#[trigger] pairs@[a], #[trigger] pairs@[b]),
            forall|k: (ID, ID)|
                pairs@.contains(k) <==> (self@.contains_key(k) && self@[k].is_active
                    && self@[k].was_active_last_pass),
    {
        self.select_pairs(true)
    }

    #[verifier::spinoff_prover]
    fn select_pairs(&self, warm_start_only: bool) -> (pairs: Vec<(ID, ID)>)
        ensures
            pairs@.no_duplicates(),
            forall|a: int, b: int|
                0 <= a < b < pairs@.len() ==> pair_precedes(#[trigger] pairs@[a], #[trigger] pairs@[b]),
            forall|k: (ID, ID)|
                pairs@.contains(k) <==> (self@.contains_key(k) && selected(
                    self@[k],
                    warm_start_only,
                )),
    {
        let keys = self.keys();
        let mut pairs: Vec<(ID, ID)> = Vec::new();
        let mut i: usize = 0;
        while i < keys.len()
            invariant
                i <= keys.len(),
                keys@.to_set() == self@.dom(),
                keys@.no_duplicates(),
                forall|a: int, b: int|
                    0 <= a < b < keys@.len() ==> pair_precedes(#[trigger] keys@[a], #[trigger] keys@[b]),
                pairs@.no_duplicates(),
                forall|a: int, b: int|
                    0 <= a < b < pairs@.len() ==> pair_precedes(#[trigger] pairs@[a], #[trigger] pairs@[b]),
                forall|k: (ID, ID)|
                    pairs@.contains(k) <==> (keys@.take(i as int).contains(k) && selected(
                        self@[k],
                        warm_start_only,
                    )),
            decreases keys.len() - i,
        {
            let key = keys[i];
            let ghost prev = keys@.take(i as int);
            let ghost next = keys@.take(i + 1);
            let ghost before = pairs@;
            proof {
                assert(keys@.to_set().contains(key));
                assert(next =~= prev.push(key));
                assert(!prev.contains(key)) by {
                    if prev.contains(key) {
                        let w = choose|w: int| 0 <= w < prev.len() && prev[w] == key;
                        assert(keys@[w] == keys@[i as int]);
                    }
                }
            }
            let chosen = if warm_start_only {
                self.can_warm_start_pair(key)
            } else {
                self.is_pair_active(key)
            };
            if chosen {
                pairs.push(key);
            }
            proof {
                assert forall|k: (ID, ID)|
                    pairs@.contains(k) <==> (next.contains(k) && selected(
                        self@[k],
                        warm_start_only,
                    )) by {
                    if k != key {
                        assert(next.contains(k) == prev.contains(k)) by {
                            if next.contains(k) {
                                let w = choose|w: int| 0 <= w < next.len() && next[w] == k;
                                assert(prev[w] == k);
                            }
                            if prev.contains(k) {
                                let w = choose|w: int| 0 <= w < prev.len() && prev[w] == k;
                                assert(next[w] == k);
                            }
                        }
                        assert(pairs@.contains(k) == before.contains(k)) by {
                            if pairs@.contains(k) {
                                let w = choose|w: int| 0 <= w < pairs@.len() && pairs@[w] == k;
                                assert(w < before.len());
                                assert(before[w] == k);
                            }
                            if before.contains(k) {
                                let w = choose|w: int| 0 <= w < before.len() && before[w] == k;
                                assert(pairs@[w] == k);
                            }
                        }
                    } else {
                        assert(next[i as int] == key);
                        assert(!before.contains(key));
                        if pairs@.contains(key) {
                            let w = choose|w: int| 0 <= w < pairs@.len() && pairs@[w] == key;
                            if w < before.len() {
                                assert(before[w] == key);
                            }
                        }
                        if selected(self@[key], warm_start_only) {
                            assert(pairs@[pairs@.len() - 1] == key);
                        }
                    }
                }
                assert forall|a: int, b: int| 0 <= a < b < pairs@.len() implies pair_precedes(
                    #[trigger] pairs@[a],
                    #[trigger] pairs@[b],
                ) by {
                    if b >= before.len() {
                        assert(pairs@[a] == before[a]);
                        assert(before.contains(before[a]));
                        assert(prev.contains(before[a]));
                        let w = choose|w: int| 0 <= w < prev.len() && prev[w] == before[a];
                        assert(keys@[w] == prev[w]);
                        assert(pairs@[b] == key);
                    } else {
                        assert(pairs@[a] == before[a]);
                        assert(pairs@[b] == before[b]);
                    }
                }
                assert forall|a: int, b: int|
                    0 <= a < pairs@.len() && 0 <= b < pairs@.len() && a != b implies pairs@[a]
                    != pairs@[b] by {
                    if a < before.len() && b < before.len() {
                        assert(pairs@[a] == before[a]);
                        assert(pairs@[b] == before[b]);
                    } else if a < before.len() {
                        assert(pairs@[a] == before[a]);
                        assert(before.contains(before[a]));
                    } else if b < before.len() {
                        assert(pairs@[b] == before[b]);
                        assert(before.contains(before[b]));
                    }
                }
            }
            i = i + 1;
        }
        proof {
            assert(keys@.take(i as int) =~= keys@);
            assert forall|k: (ID, ID)|
                pairs@.contains(k) <==> (self@.contains_key(k) && selected(
                    self@[k],
                    warm_start_only,
                )) by {
                if self@.contains_key(k) {
                    assert(keys@.to_set().contains(k));
                }
            }
        }
        pairs
    }
}

/// After a pass begins, no pair touches, none may warm start, and none holds points; each
/// remembers whether it touched before.
pub proof fn lemma_begin_pass_resets_touching<P>(
    pairs: Map<(ID, ID), PairLifecycle<P>>,
    pair: (ID, ID),
)
    requires
        pairs.contains_key(pair),
    ensures
        ({
            let begun_pairs = pairs.map_values(|entry: PairLifecycle<P>| begun(entry));
            &&& begun_pairs.contains_key(pair)
            &&& !begun_pairs[pair].is_active
            &&& begun_pairs[pair].pending is None
            &&& begun_pairs[pair].was_active_last_pass == pairs[pair].is_active
        }),
{
}

/// A pair may warm start in a pass exactly when it was touching as the pass began and
/// reports points again: then its points wait for the refresh; a known pair that was not
/// touching has its points replaced at once, and an unknown pair is created.
pub proof fn lemma_warm_start_iff_continuing<P>(
    pairs: Map<(ID, ID), PairLifecycle<P>>,
    pair: (ID, ID),
    points: Seq<P>,
)
    ensures
        ({
            let begun_pairs = pairs.map_values(|entry: PairLifecycle<P>| begun(entry));
            let next = after_ingest(begun_pairs, pair, points);
            let continuing = pairs.contains_key(pair) && pairs[pair].is_active;
            &&& next.contains_key(pair)
            &&& next[pair].is_active
            &&& next[pair].was_active_last_pass == continuing
            &&& (next[pair].pending is Some) == continuing
            &&& ingest_result(begun_pairs, pair, points) == if continuing {
                ContactPointUpdateView::<P>::Deferred
            } else if pairs.contains_key(pair) {
                ContactPointUpdateView::Replace(points)
            } else {
                ContactPointUpdateView::Create(points)
            }
        }),
{
}

/// The points a continuing pair held back are handed over at the refresh unchanged, with
/// its cached impulses kept; afterwards nothing waits.
pub proof fn lemma_refresh_hands_over_held_points<P>(
    pairs: Map<(ID, ID), PairLifecycle<P>>,
    pair: (ID, ID),
    points: Seq<P>,
)
    requires
        pairs.contains_key(pair),
        pairs[pair].is_active,
    ensures
        ({
            let begun_pairs = pairs.map_values(|entry: PairLifecycle<P>| begun(entry));
            let next = after_ingest(begun_pairs, pair, points);
            &&& refresh_due(next[pair])
            &&& refresh_update(next[pair]) == ContactPointUpdateView::ReplaceKeepingImpulses(
                points,
            )
            &&& refreshed(next[pair]).pending is None
            &&& refreshed(next[pair]).is_active
        }),
{
}

/// After the refresh no pair holds points, and pairs keep whether they touch.
pub proof fn lemma_refresh_clears_pending<P>(entry: PairLifecycle<P>)
    ensures
        !refresh_due(refreshed(entry)),
        refreshed(entry).is_active == entry.is_active,
        refreshed(entry).was_active_last_pass == entry.was_active_last_pass,
{
}

} // verus!
