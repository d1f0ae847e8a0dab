//! An insertion-ordered element store with an id index and a sort-order cache.
use std::collections::BTreeMap;

use vstd::prelude::*;

use super::ID;

verus! {

/// Some entry carries the id.
pub open spec fn has_id<E>(entries: Seq<(ID, E)>, id: ID) -> bool {
    exists|i: int| 0 <= i < entries.len() && #[trigger] entries[i].0 == id
}

/// The position of the entry carrying the id.
pub open spec fn position_of<E>(entries: Seq<(ID, E)>, id: ID) -> int {
    choose|i: int| 0 <= i < entries.len() && #[trigger] entries[i].0 == id
}

/// The entries without the one carrying the id.
pub open spec fn without_id<E>(entries: Seq<(ID, E)>, id: ID) -> Seq<(ID, E)> {
    if has_id(entries, id) {
        entries.remove(position_of(entries, id))
    } else {
        entries
    }
}

/// The position of a value in a sequence.
pub open spec fn position_of_value(s: Seq<ID>, id: ID) -> int {
    choose|i: int| 0 <= i < s.len() && #[trigger] s[i] == id
}

/// The sequence without the value.
pub open spec fn without_value(s: Seq<ID>, id: ID) -> Seq<ID> {
    if s.contains(id) {
        s.remove(position_of_value(s, id))
    } else {
        s
    }
}

/// No two entries carry the same id.
pub open spec fn ids_distinct<E>(entries: Seq<(ID, E)>) -> bool {
    forall|i: int, j: int|
        0 <= i < entries.len() && 0 <= j < entries.len() && i != j ==> #[trigger] entries[i].0
            != #[trigger] entries[j].0
}

/// In entries with distinct ids, the entry carrying an id is at the one position holding it.
pub proof fn lemma_position_of_unique<E>(entries: Seq<(ID, E)>, id: ID, i: int)
    requires
        ids_distinct(entries),
        0 <= i < entries.len(),
        entries[i].0 == id,
    ensures
        has_id(entries, id),
        position_of(entries, id) == i,
{
    let p = position_of(entries, id);
    assert(entries[p].0 == id);
}

/// Removing an id keeps the other entries in order: the entries before its position, then
/// those after it.
proof fn lemma_without_id_index<E>(entries: Seq<(ID, E)>, id: ID, j: int)
    requires
        has_id(entries, id),
        0 <= j < entries.len() - 1,
    ensures
        without_id(entries, id)[j] == if j < position_of(entries, id) {
            entries[j]
        } else {
            entries[j + 1]
        },
{
}

/// After a push, the id is found with the pushed element; every other id is found exactly
/// when it was before, with the same element; and the count grows only for a new id.
pub proof fn lemma_push_then_get<E>(entries: Seq<(ID, E)>, id: ID, element: E, other: ID)
    requires
        ids_distinct(entries),
        other != id,
    ensures
        ({
            let pushed = without_id(entries, id).push((id, element));
            &&& ids_distinct(pushed)
            &&& has_id(pushed, id)
            &&& pushed[position_of(pushed, id)] == (id, element)
            &&& has_id(pushed, other) == has_id(entries, other)
            &&& has_id(entries, other) ==> pushed[position_of(pushed, other)] == entries[position_of(
                entries,
                other,
            )]
            &&& pushed.len() == if has_id(entries, id) {
                entries.len()
            } else {
                entries.len() + 1
            }
        }),
{
    let rest = without_id(entries, id);
    let pushed = rest.push((id, element));
    lemma_remove_then_absent(entries, id, other);
    assert(!has_id(rest, id));
    assert forall|i: int, j: int|
        0 <= i < pushed.len() && 0 <= j < pushed.len() && i != j implies #[trigger] pushed[i].0
        != #[trigger] pushed[j].0 by {
        if i < rest.len() && j < rest.len() {
            assert(pushed[i] == rest[i]);
            assert(pushed[j] == rest[j]);
        } else if i < rest.len() {
            assert(pushed[i] == rest[i]);
            assert(rest[i].0 != id);
        } else if j < rest.len() {
            assert(pushed[j] == rest[j]);
            assert(rest[j].0 != id);
        }
    }
    lemma_position_of_unique(pushed, id, rest.len() as int);
    if has_id(entries, other) {
        let q = position_of(rest, other);
        assert(rest[q].0 == other);
        assert(pushed[q] == rest[q]);
        lemma_position_of_unique(pushed, other, q);
    }
    if has_id(pushed, other) {
        let q = choose|q: int| 0 <= q < pushed.len() && #[trigger] pushed[q].0 == other;
        assert(q < rest.len());
        assert(pushed[q] == rest[q]);
    }
}

/// After a removal, the id is gone; every other id is found exactly when it was before,
/// with the same element.
pub proof fn lemma_remove_then_absent<E>(entries: Seq<(ID, E)>, id: ID, other: ID)
    requires
        ids_distinct(entries),
        other != id,
    ensures
        ({
            let rest = without_id(entries, id);
            &&& ids_distinct(rest)
            &&& !has_id(rest, id)
            &&& has_id(rest, other) == has_id(entries, other)
            &&& has_id(entries, other) ==> rest[position_of(rest, other)] == entries[position_of(
                entries,
                other,
            )]
        }),
{
    let rest = without_id(entries, id);
    if has_id(entries, id) {
        let p = position_of(entries, id);
        assert(entries[p].0 == id);
        assert forall|j: int| 0 <= j < rest.len() implies #[trigger] rest[j] == if j < p {
            entries[j]
        } else {
            entries[j + 1]
        } by {
            lemma_without_id_index(entries, id, j);
        }
        assert forall|i: int, j: int|
            0 <= i < rest.len() && 0 <= j < rest.len() && i != j implies #[trigger] rest[i].0
            != #[trigger] rest[j].0 by {
            let oi = if i < p { i } else { i + 1 };
            let oj = if j < p { j } else { j + 1 };
            assert(rest[i] == entries[oi]);
            assert(rest[j] == entries[oj]);
        }
        if has_id(rest, id) {
            let w = choose|w: int| 0 <= w < rest.len() && #[trigger] rest[w].0 == id;
            let ow = if w < p { w } else { w + 1 };
            assert(rest[w] == entries[ow]);
        }
        if has_id(entries, other) {
            let q = position_of(entries, other);
            assert(entries[q].0 == other);
            assert(q != p);
            let nq = if q < p { q } else { q - 1 };
            assert(rest[nq] == entries[q]);
            lemma_position_of_unique(rest, other, nq);
        }
        if has_id(rest, other) {
            let w = choose|w: int| 0 <= w < rest.len() && #[trigger] rest[w].0 == other;
            let ow = if w < p { w } else { w + 1 };
            assert(rest[w] == entries[ow]);
        }
    }
}

/// The element stored under an id.
pub open spec fn element_of<E>(entries: Seq<(ID, E)>, id: ID) -> E {
    entries[position_of(entries, id)].1
}

/// `ids` are sorted by keys that the key function may return for their elements.
pub open spec fn sorted_by_key<E, F: Fn(&E) -> i64>(
    entries: Seq<(ID, E)>,
    ids: Seq<ID>,
    key: F,
    keys: Seq<i64>,
) -> bool {
    &&& keys.len() == ids.len()
    &&& forall|p: int|
        0 <= p < ids.len() ==> call_ensures(key, (&element_of(entries, #[trigger] ids[p]),), keys[p])
    &&& forall|p: int, q: int| 0 <= p < q < keys.len() ==> #[trigger] keys[p] <= #[trigger] keys[q]
}

/// The index maps each id to its entry's position, ids are distinct, and the cache lists
/// each id once.
pub open spec fn store_wf<E>(elements: Seq<(ID, E)>, map: Map<ID, usize>, cache: Seq<ID>) -> bool {
    &&& ids_distinct(elements)
    &&& forall|i: int|
        0 <= i < elements.len() ==> map.contains_key(#[trigger] elements[i].0) && map[elements[i].0]
            == i
    &&& forall|k: ID|
        #[trigger] map.contains_key(k) ==> map[k] < elements.len() && elements[map[k] as int].0
            == k
    &&& cache.no_duplicates()
    &&& forall|k: ID| #[trigger] cache.contains(k) <==> has_id(elements, k)
}

/// Elements kept in insertion order, found by id through an index, with a cache of ids in
/// the order of the last sort.
pub struct ElementStore<E> {
    elements: Vec<(ID, E)>,
    region_sort_result: Vec<ID>,
    map: BTreeMap<ID, usize>,
    is_sorted: bool,
}

impl<E: Clone> Clone for ElementStore<E> {
    /// Copies the store: the same ids in the same insertion and sort orders, each element
    /// cloned, and the index rebuilt from the copied entries.
    fn clone(&self) -> (r: Self)
        ensures
            self.wf() ==> r.wf(),
            r.sort_order() == self.sort_order(),
            r.entries().len() == self.entries().len(),
            forall|i: int|
                0 <= i < self.entries().len() ==> (#[trigger] r.entries()[i]).0
                    == self.entries()[i].0 && cloned::<E>(self.entries()[i].1, r.entries()[i].1),
    {
        let n = self.elements.len();
        let mut elements: Vec<(ID, E)> = Vec::with_capacity(n);
        let mut map: BTreeMap<ID, usize> = BTreeMap::new();
        let mut i: usize = 0;
        while i < n
            invariant
                n == self.elements@.len(),
                i <= n,
                elements@.len() == i,
                forall|j: int|
                    0 <= j < i ==> (#[trigger] elements@[j]).0 == self.elements@[j].0 && cloned::<
                        E,
                    >(self.elements@[j].1, elements@[j].1),
                self.wf() ==> forall|j: int|
                    0 <= j < i ==> map@.contains_key(#[trigger] self.elements@[j].0)
                        && map@[self.elements@[j].0] == j,
                self.wf() ==> forall|k: ID|
                    #[trigger] map@.contains_key(k) ==> map@[k] < i && self.elements@[map@[k] as int].0
                        == k,
            decreases n - i,
        {
            let id = self.elements[i].0;
            let element = self.elements[i].1.clone();
            elements.push((id, element));
            map.insert(id, i);
            proof {
                if self.wf() {
                    assert forall|j: int| 0 <= j < i + 1 implies map@.contains_key(
                        #[trigger] self.elements@[j].0,
                    ) && map@[self.elements@[j].0] == j by {
                        if j < i {
                            assert(self.elements@[j].0 != self.elements@[i as int].0);
                        }
                    }
                }
            }
            i = i + 1;
        }
        let mut cache: Vec<ID> = Vec::with_capacity(self.region_sort_result.len());
        let mut k: usize = 0;
        while k < self.region_sort_result.len()
            invariant
                k <= self.region_sort_result@.len(),
                cache@ == self.region_sort_result@.take(k as int),
            decreases self.region_sort_result@.len() - k,
        {
            cache.push(self.region_sort_result[k]);
            proof {
                assert(cache@ =~= self.region_sort_result@.take(k + 1));
            }
            k = k + 1;
        }
        proof {
            assert(cache@ =~= self.region_sort_result@);
        }
        let r = ElementStore { elements, region_sort_result: cache, map, is_sorted: self.is_sorted };
        proof {
            if self.wf() {
                let re = r.elements@;
                let se = self.elements@;
                assert forall|a: int, b: int|
                    0 <= a < re.len() && 0 <= b < re.len() && a != b implies #[trigger] re[a].0
                    != #[trigger] re[b].0 by {
                    assert(se[a].0 != se[b].0);
                }
                assert forall|a: int| 0 <= a < re.len() implies r.map@.contains_key(
                    #[trigger] re[a].0,
                ) && r.map@[re[a].0] == a by {
                    assert(re[a].0 == se[a].0);
                }
                assert forall|key: ID| #[trigger] r.map@.contains_key(key) implies r.map@[key]
                    < re.len() && re[r.map@[key] as int].0 == key by {
                    assert(re[r.map@[key] as int].0 == se[r.map@[key] as int].0);
                }
                assert forall|key: ID| #[trigger] r.region_sort_result@.contains(key) <==> has_id(re, key) by {
                    if has_id(se, key) {
                        let w = choose|w: int| 0 <= w < se.len() && #[trigger] se[w].0 == key;
                        assert(re[w].0 == key);
                    }
                    if has_id(re, key) {
                        let w = choose|w: int| 0 <= w < re.len() && #[trigger] re[w].0 == key;
                        assert(se[w].0 == key);
                    }
                }
            }
        }
        r
    }
}

impl<E> ElementStore<E> {
    /// The stored `(id, element)` entries in insertion order.
    pub closed spec fn entries(&self) -> Seq<(ID, E)> {
        self.elements@
    }

    /// The ids in the order of the sort cache.
    pub closed spec fn sort_order(&self) -> Seq<ID> {
        self.region_sort_result@
    }

    /// The index, the entries and the sort cache agree: ids are distinct, the index maps
    /// each id to its entry's position, and the cache lists each id once.
    pub closed spec fn wf(&self) -> bool {
        store_wf(self.elements@, self.map@, self.region_sort_result@)
    }

    /// Creates an empty store.
    pub fn with_capacity(capacity: usize) -> (store: Self)
        ensures
            store.wf(),
            store.entries().len() == 0,
            store.sort_order().len() == 0,
    {
        ElementStore {
            elements: Vec::with_capacity(capacity),
            region_sort_result: Vec::with_capacity(capacity),
            map: BTreeMap::new(),
            is_sorted: false,
        }
    }

    /// Returns the number of stored elements.
    pub fn size(&self) -> (n: usize)
        ensures
            n == self.entries().len(),
    {
        self.elements.len()
    }

    /// Returns the ids of the stored elements in insertion order.
    pub fn ids(&self) -> (ids: Vec<ID>)
        ensures
            ids@ == self.entries().map_values(|entry: (ID, E)| entry.0),
    {
        let mut ids: Vec<ID> = Vec::new();
        let mut i: usize = 0;
        while i < self.elements.len()
            invariant
                i <= self.elements.len(),
                ids@ == self.elements@.take(i as int).map_values(|entry: (ID, E)| entry.0),
            decreases self.elements.len() - i,
        {
            ids.push(self.elements[i].0);
            proof {
                assert(ids@ =~= self.elements@.take(i + 1).map_values(|entry: (ID, E)| entry.0));
            }
            i = i + 1;
        }
        proof {
            assert(self.elements@.take(i as int) =~= self.elements@);
        }
        ids
    }

    /// Returns the stored elements in insertion order.
    pub fn elements(&self) -> (elements: Vec<&E>)
        ensures
            elements@.len() == self.entries().len(),
            forall|i: int| 0 <= i < elements@.len() ==> *#[trigger] elements@[i] == self.entries()[i].1,
    {
        let mut out: Vec<&E> = Vec::new();
        let mut i: usize = 0;
        while i < self.elements.len()
            invariant
                i <= self.elements.len(),
                out@.len() == i,
                forall|j: int| 0 <= j < i ==> *#[trigger] out@[j] == self.elements@[j].1,
            decreases self.elements.len() - i,
        {
            out.push(&self.elements[i].1);
            i = i + 1;
        }
        out
    }

    /// Returns the ids in the order of the sort cache.
    pub fn sorted_ids(&self) -> (ids: Vec<ID>)
        ensures
            ids@ == self.sort_order(),
    {
        let mut ids: Vec<ID> = Vec::new();
        let mut i: usize = 0;
        while i < self.region_sort_result.len()
            invariant
                i <= self.region_sort_result.len(),
                ids@ == self.region_sort_result@.take(i as int),
            decreases self.region_sort_result.len() - i,
        {
            ids.push(self.region_sort_result[i]);
            proof {
                assert(ids@ =~= self.region_sort_result@.take(i + 1));
            }
            i = i + 1;
        }
        proof {
            assert(self.region_sort_result@.take(i as int) =~= self.region_sort_result@);
        }
        ids
    }

    /// Sorts the sort cache by the key of each element, smallest first. The elements and
    /// their insertion order are unchanged. The first sort after a change starts from
    /// insertion order; later ones re-sort the cache as it stands.
    pub fn sort_by_key(&mut self, key: impl Fn(&E) -> i64)
        requires
            old(self).wf(),
            forall|e: &E| call_requires(key, (e,)),
        ensures
            final(self).wf(),
            final(self).entries() == old(self).entries(),
            exists|keys: Seq<i64>|
                sorted_by_key(final(self).entries(), final(self).sort_order(), key, keys),
    {
        let base = if self.is_sorted {
            self.sorted_ids()
        } else {
            self.ids()
        };
        proof {
            if !self.is_sorted {
                assert forall|k: ID| #[trigger] base@.contains(k) <==> has_id(self.elements@, k) by {
                    if base@.contains(k) {
                        let w = choose|w: int| 0 <= w < base@.len() && base@[w] == k;
                        assert(self.elements@[w].0 == k);
                    }
                    if has_id(self.elements@, k) {
                        let w = choose|w: int|
                            0 <= w < self.elements@.len() && #[trigger] self.elements@[w].0 == k;
                        assert(base@[w] == k);
                    }
                }
                assert forall|i: int, j: int|
                    0 <= i < base@.len() && 0 <= j < base@.len() && i != j implies base@[i]
                    != base@[j] by {
                    assert(base@[i] == self.elements@[i].0);
                    assert(base@[j] == self.elements@[j].0);
                }
            }
        }
        let mut sorted: Vec<(i64, ID)> = Vec::new();
        let mut i: usize = 0;
        while i < base.len()
            invariant
                self.wf(),
                i <= base.len(),
                base@.no_duplicates(),
                forall|k: ID| #[trigger] base@.contains(k) <==> has_id(self.elements@, k),
                forall|e: &E| call_requires(key, (e,)),
                sorted@.len() == i,
                forall|p: int, q: int|
                    0 <= p < q < sorted@.len() ==> #[trigger] sorted@[p].0 <= #[trigger] sorted@[q].0,
                forall|p: int|
                    0 <= p < sorted@.len() ==> call_ensures(
                        key,
                        (&element_of(self.elements@, (#[trigger] sorted@[p]).1),),
                        sorted@[p].0,
                    ),
                forall|k: ID|
                    (exists|p: int| 0 <= p < sorted@.len() && #[trigger] sorted@[p].1 == k)
                        <==> base@.take(i as int).contains(k),
                forall|p: int, q: int|
                    0 <= p < sorted@.len() && 0 <= q < sorted@.len() && p != q ==> (
                    #[trigger] sorted@[p]).1 != (#[trigger] sorted@[q]).1,
            decreases base.len() - i,
        {
            let ghost prev_ids = base@.take(i as int);
            let ghost next_ids = base@.take(i + 1);
            let id = base[i];
            proof {
                assert(base@.contains(id));
            }
            let index = match self.map.get(&id) {
                Some(index) => *index,
                None => {
                    proof {
                        let w = choose|w: int|
                            0 <= w < self.elements@.len() && #[trigger] self.elements@[w].0 == id;
                        assert(self.map@.contains_key(self.elements@[w].0));
                    }
                    0
                },
            };
            proof {
                lemma_position_of_unique(self.elements@, id, index as int);
            }
            let k = key(&self.elements[index].1);
            let mut pos: usize = sorted.len();
            while pos > 0 && sorted[pos - 1].0 > k
                invariant
                    pos <= sorted@.len(),
                    forall|q: int| pos <= q < sorted@.len() ==> #[trigger] sorted@[q].0 > k,
                decreases pos,
            {
                pos = pos - 1;
            }
            let ghost before = sorted@;
            proof {
                assert(!prev_ids.contains(id)) by {
                    if prev_ids.contains(id) {
                        let w = choose|w: int| 0 <= w < i && prev_ids[w] == id;
                        assert(base@[w] == base@[i as int]);
                    }
                }
                assert(next_ids =~= prev_ids.push(id));
            }
            sorted.insert(pos, (k, id));
            proof {
                let after = sorted@;
                assert(after =~= before.insert(pos as int, (k, id)));
                assert forall|q: int| 0 <= q < after.len() implies #[trigger] after[q] == if q
                    < pos {
                    before[q]
                } else if q == pos {
                    (k, id)
                } else {
                    before[q - 1]
                } by {}
                assert forall|p: int, q: int| 0 <= p < q < after.len() implies #[trigger] after[p].0
                    <= #[trigger] after[q].0 by {
                    if p < pos && q > pos {
                        assert(before[p].0 <= before[q - 1].0 || p == q - 1);
                    }
                    if pos > 0 && p < pos && q == pos {
                        assert(before[p].0 <= before[pos - 1].0 || p == pos - 1);
                    }
                }
                assert forall|kk: ID|
                    (exists|p: int| 0 <= p < after.len() && #[trigger] after[p].1 == kk)
                        <==> next_ids.contains(kk) by {
                    if exists|p: int| 0 <= p < after.len() && #[trigger] after[p].1 == kk {
                        let p = choose|p: int| 0 <= p < after.len() && #[trigger] after[p].1 == kk;
                        if p < pos {
                            assert(before[p].1 == kk);
                        } else if p > pos {
                            assert(before[p - 1].1 == kk);
                        }
                        if kk != id {
                            assert(prev_ids.contains(kk));
                            let w = choose|w: int| 0 <= w < i && prev_ids[w] == kk;
                            assert(next_ids[w] == kk);
                        } else {
                            assert(next_ids[i as int] == kk);
                        }
                    }
                    if next_ids.contains(kk) {
                        if kk == id {
                            assert(after[pos as int].1 == kk);
                        } else {
                            let w = choose|w: int| 0 <= w < i + 1 && next_ids[w] == kk;
                            assert(prev_ids[w] == kk);
                            assert(prev_ids.contains(kk));
                            let p = choose|p: int| 0 <= p < before.len() && #[trigger] before[p].1 == kk;
                            if p < pos {
                                assert(after[p].1 == kk);
                            } else {
                                assert(after[p + 1].1 == kk);
                            }
                        }
                    }
                }
                assert forall|p: int, q: int|
                    0 <= p < after.len() && 0 <= q < after.len() && p != q implies (
                    #[trigger] after[p]).1 != (#[trigger] after[q]).1 by {
                    if p != pos && q != pos {
                        let op = if p < pos { p } else { p - 1 };
                        let oq = if q < pos { q } else { q - 1 };
                        assert(after[p] == before[op]);
                        assert(after[q] == before[oq]);
                    } else if p == pos {
                        let oq = if q < pos { q } else { q - 1 };
                        assert(after[q] == before[oq]);
                        assert(!(exists|r: int| 0 <= r < before.len() && #[trigger] before[r].1 == id));
                    } else {
                        let op = if p < pos { p } else { p - 1 };
                        assert(after[p] == before[op]);
                        assert(!(exists|r: int| 0 <= r < before.len() && #[trigger] before[r].1 == id));
                    }
                }
            }
            i = i + 1;
        }
        let mut cache: Vec<ID> = Vec::new();
        let mut j: usize = 0;
        while j < sorted.len()
            invariant
                j <= sorted@.len(),
                cache@ == sorted@.take(j as int).map_values(|x: (i64, ID)| x.1),
            decreases sorted.len() - j,
        {
            cache.push(sorted[j].1);
            proof {
                assert(cache@ =~= sorted@.take(j + 1).map_values(|x: (i64, ID)| x.1));
            }
            j = j + 1;
        }
        proof {
            assert(sorted@.take(j as int) =~= sorted@);
            assert(base@.take(i as int) =~= base@);
            let keys = sorted@.map_values(|x: (i64, ID)| x.0);
            assert(sorted_by_key(self.elements@, cache@, key, keys));
            assert forall|a: int, b: int|
                0 <= a < cache@.len() && 0 <= b < cache@.len() && a != b implies cache@[a]
                != cache@[b] by {
                assert(cache@[a] == sorted@[a].1);
                assert(cache@[b] == sorted@[b].1);
            }
            assert forall|k: ID| #[trigger] cache@.contains(k) <==> has_id(self.elements@, k) by {
                if cache@.contains(k) {
                    let w = choose|w: int| 0 <= w < cache@.len() && cache@[w] == k;
                    assert(sorted@[w].1 == k);
                    assert(base@.take(i as int).contains(k));
                }
                if has_id(self.elements@, k) {
                    assert(base@.contains(k));
                    assert(base@.take(i as int).contains(k));
                    let p = choose|p: int| 0 <= p < sorted@.len() && #[trigger] sorted@[p].1 == k;
                    assert(cache@[p] == k);
                }
            }
        }
        self.region_sort_result = cache;
        self.is_sorted = true;
        proof {
            let keys = sorted@.map_values(|x: (i64, ID)| x.0);
            assert(sorted_by_key(self.entries(), self.sort_order(), key, keys));
        }
    }

    /// Returns whether an element with the id is stored.
    pub fn has_element(&self, id: ID) -> (r: bool)
        requires
            self.wf(),
        ensures
            r == has_id(self.entries(), id),
    {
        let r = self.map.contains_key(&id);
        proof {
            if has_id(self.elements@, id) {
                let i = choose|i: int| 0 <= i < self.elements@.len() && #[trigger] self.elements@[i].0 == id;
                assert(self.map@.contains_key(self.elements@[i].0));
            }
            if self.map@.contains_key(id) {
                assert(self.elements@[self.map@[id] as int].0 == id);
            }
        }
        r
    }

    /// Returns the element with the id, if stored.
    pub fn get_element_by_id(&self, id: ID) -> (r: Option<&E>)
        requires
            self.wf(),
        ensures
            match r {
                Some(e) => has_id(self.entries(), id) && *e == self.entries()[position_of(
                    self.entries(),
                    id,
                )].1,
                None => !has_id(self.entries(), id),
            },
    {
        match self.map.get(&id) {
            Some(index) => {
                let index = *index;
                proof {
                    assert(self.elements@[index as int].0 == id);
                    let p = position_of(self.elements@, id);
                    assert(self.elements@[p].0 == id);
                }
                Some(&self.elements[index].1)
            },
            None => {
                proof {
                    if has_id(self.elements@, id) {
                        let i = choose|i: int|
                            0 <= i < self.elements@.len() && #[trigger] self.elements@[i].0 == id;
                        assert(self.map@.contains_key(self.elements@[i].0));
                    }
                }
                None
            },
        }
    }

    /// Returns the element with the id for mutation, if stored; the store's ids, order
    /// and sort cache stay as they are.
    pub fn get_mut_element_by_id(&mut self, id: ID) -> (r: Option<&mut E>)
        requires
            old(self).wf(),
        ensures
            final(self).wf(),
            final(self).sort_order() == old(self).sort_order(),
            match r {
                Some(e) => {
                    &&& has_id(old(self).entries(), id)
                    &&& *e == old(self).entries()[position_of(old(self).entries(), id)].1
                    &&& final(self).entries() == old(self).entries().update(
                        position_of(old(self).entries(), id),
                        (id, *final(e)),
                    )
                },
                None => {
                    &&& !has_id(old(self).entries(), id)
                    &&& final(self).entries() == old(self).entries()
                },
            },
    {
        match self.map.get(&id) {
            Some(index) => {
                let index = *index;
                proof {
                    assert(self.elements@[index as int].0 == id);
                    let p = position_of(self.elements@, id);
                    assert(self.elements@[p].0 == id);
                }
                proof {
                    let old_elements = self.elements@;
                    assert forall|v: E| #[trigger]
                        store_wf(
                            old_elements.update(index as int, (id, v)),
                            self.map@,
                            self.region_sort_result@,
                        ) by {
                        let ne = old_elements.update(index as int, (id, v));
                        assert forall|i: int| 0 <= i < ne.len() implies #[trigger] ne[i].0
                            == old_elements[i].0 by {}
                        assert forall|i: int, j: int|
                            0 <= i < ne.len() && 0 <= j < ne.len() && i != j implies #[trigger] ne[i].0
                            != #[trigger] ne[j].0 by {
                            assert(ne[i].0 == old_elements[i].0);
                            assert(ne[j].0 == old_elements[j].0);
                        }
                        assert forall|i: int| 0 <= i < ne.len() implies self.map@.contains_key(
                            #[trigger] ne[i].0,
                        ) && self.map@[ne[i].0] == i by {
                            assert(ne[i].0 == old_elements[i].0);
                        }
                        assert forall|k: ID| #[trigger] self.region_sort_result@.contains(k)
                            <==> has_id(ne, k) by {
                            if has_id(ne, k) {
                                let w = choose|w: int| 0 <= w < ne.len() && #[trigger] ne[w].0 == k;
                                assert(old_elements[w].0 == k);
                            }
                            if has_id(old_elements, k) {
                                let w = choose|w: int|
                                    0 <= w < old_elements.len() && #[trigger] old_elements[w].0 == k;
                                assert(ne[w].0 == k);
                            }
                        }
                    }
                }
                Some(&mut self.elements[index].1)
            },
            None => {
                proof {
                    if has_id(self.elements@, id) {
                        let i = choose|i: int|
                            0 <= i < self.elements@.len() && #[trigger] self.elements@[i].0 == id;
                        assert(self.map@.contains_key(self.elements@[i].0));
                    }
                }
                None
            },
        }
    }

    /// Returns two distinct stored elements for mutation at once, or `None` when the ids
    /// are equal or one is not stored.
    pub fn get_pair_mut_by_id(&mut self, id_a: ID, id_b: ID) -> (r: Option<(&mut E, &mut E)>)
        requires
            old(self).wf(),
        ensures
            final(self).wf(),
            r is Some <==> (id_a != id_b && has_id(old(self).entries(), id_a) && has_id(
                old(self).entries(),
                id_b,
            )),
            final(self).sort_order() == old(self).sort_order(),
            r is None ==> final(self).entries() == old(self).entries(),
            r is Some ==> {
                &&& *r.unwrap().0 == element_of(old(self).entries(), id_a)
                &&& *r.unwrap().1 == element_of(old(self).entries(), id_b)
                &&& final(self).entries() == old(self).entries().update(
                    position_of(old(self).entries(), id_a),
                    (id_a, *final(r.unwrap().0)),
                ).update(position_of(old(self).entries(), id_b), (id_b, *final(r.unwrap().1)))
            },
    {
        if id_a == id_b {
            return None;
        }
        let index_a = match self.map.get(&id_a) {
            Some(index) => *index,
            None => {
                proof {
                    if has_id(self.elements@, id_a) {
                        let i = choose|i: int|
                            0 <= i < self.elements@.len() && #[trigger] self.elements@[i].0 == id_a;
                        assert(self.map@.contains_key(self.elements@[i].0));
                    }
                }
                return None;
            },
        };
        let index_b = match self.map.get(&id_b) {
            Some(index) => *index,
            None => {
                proof {
                    if has_id(self.elements@, id_b) {
                        let i = choose|i: int|
                            0 <= i < self.elements@.len() && #[trigger] self.elements@[i].0 == id_b;
                        assert(self.map@.contains_key(self.elements@[i].0));
                    }
                }
                return None;
            },
        };
        let ghost old_elements = self.elements@;
        let ghost old_map = self.map@;
        let ghost old_cache = self.region_sort_result@;
        proof {
            lemma_position_of_unique(self.elements@, id_a, index_a as int);
            lemma_position_of_unique(self.elements@, id_b, index_b as int);
            assert forall|va: E, vb: E| #[trigger]
                store_wf(
                    old_elements.update(index_a as int, (id_a, va)).update(index_b as int, (id_b, vb)),
                    old_map,
                    old_cache,
                ) by {
                let ne = old_elements.update(index_a as int, (id_a, va)).update(
                    index_b as int,
                    (id_b, vb),
                );
                assert forall|i: int| 0 <= i < ne.len() implies #[trigger] ne[i].0
                    == old_elements[i].0 by {}
                assert forall|i: int, j: int|
                    0 <= i < ne.len() && 0 <= j < ne.len() && i != j implies #[trigger] ne[i].0
                    != #[trigger] ne[j].0 by {
                    assert(ne[i].0 == old_elements[i].0);
                    assert(ne[j].0 == old_elements[j].0);
                }
                assert forall|i: int| 0 <= i < ne.len() implies old_map.contains_key(
                    #[trigger] ne[i].0,
                ) && old_map[ne[i].0] == i by {
                    assert(ne[i].0 == old_elements[i].0);
                }
                assert forall|k: ID| #[trigger] old_cache.contains(k) <==> has_id(ne, k) by {
                    if has_id(ne, k) {
                        let w = choose|w: int| 0 <= w < ne.len() && #[trigger] ne[w].0 == k;
                        assert(old_elements[w].0 == k);
                    }
                    if has_id(old_elements, k) {
                        let w = choose|w: int|
                            0 <= w < old_elements.len() && #[trigger] old_elements[w].0 == k;
                        assert(ne[w].0 == k);
                    }
                }
            }
        }
        let slice = self.elements.as_mut_slice();
        let ghost final_elements = final(slice)@;
        if index_a < index_b {
            let (left, right) = slice.split_at_mut(index_b);
            let (_, middle) = left.split_at_mut(index_a);
            let first = middle.first_mut();
            let second = right.first_mut();
            match (first, second) {
                (Some(entry_a), Some(entry_b)) => {
                    let r = Some((&mut entry_a.1, &mut entry_b.1));
                    proof {
                        assert(final_elements =~= old_elements.update(
                            position_of(old_elements, id_a),
                            (id_a, *final(r.unwrap().0)),
                        ).update(position_of(old_elements, id_b), (id_b, *final(r.unwrap().1))));
                        assert(store_wf(final_elements, old_map, old_cache));
                    }
                    r
                },
                _ => None,
            }
        } else {
            let (left, right) = slice.split_at_mut(index_a);
            let (_, middle) = left.split_at_mut(index_b);
            let first = right.first_mut();
            let second = middle.first_mut();
            match (first, second) {
                (Some(entry_a), Some(entry_b)) => {
                    let r = Some((&mut entry_a.1, &mut entry_b.1));
                    proof {
                        assert(final_elements =~= old_elements.update(
                            position_of(old_elements, id_a),
                            (id_a, *final(r.unwrap().0)),
                        ).update(position_of(old_elements, id_b), (id_b, *final(r.unwrap().1))));
                        assert(store_wf(final_elements, old_map, old_cache));
                    }
                    r
                },
                _ => None,
            }
        }
    }

    /// Removes every element.
    pub fn clear(&mut self)
        ensures
            final(self).wf(),
            final(self).entries().len() == 0,
            final(self).sort_order().len() == 0,
    {
        self.elements.clear();
        self.region_sort_result.clear();
        self.map.clear();
        self.is_sorted = false;
    }

    /// Removes the element with the id, keeping the order of the others; nothing happens
    /// when no element has the id.
    pub fn remove_element(&mut self, id: ID)
        requires
            old(self).wf(),
        ensures
            final(self).wf(),
            final(self).entries() == without_id(old(self).entries(), id),
            final(self).sort_order() == without_value(old(self).sort_order(), id),
    {
        let ghost old_elements = self.elements@;
        let ghost old_cache = self.region_sort_result@;
        let index = match self.map.remove(&id) {
            Some(index) => index,
            None => {
                proof {
                    if has_id(old_elements, id) {
                        let i = choose|i: int|
                            0 <= i < old_elements.len() && #[trigger] old_elements[i].0 == id;
                        assert(old(self).map@.contains_key(old_elements[i].0));
                    }
                    assert(!old_cache.contains(id));
                }
                return;
            },
        };
        proof {
            assert(old_elements[index as int].0 == id);
            let p = position_of(old_elements, id);
            assert(old_elements[p].0 == id);
            assert(p == index);
            assert(old_cache.contains(id));
        }
        self.elements.remove(index);
        let mut c: usize = 0;
        while c < self.region_sort_result.len() && self.region_sort_result[c] != id
            invariant
                0 <= c <= self.region_sort_result.len(),
                self.region_sort_result@ == old_cache,
                old_cache.contains(id),
                forall|q: int| 0 <= q < c ==> #[trigger] old_cache[q] != id,
            decreases self.region_sort_result.len() - c,
        {
            c = c + 1;
        }
        proof {
            if c == self.region_sort_result.len() {
                let w = choose|w: int| 0 <= w < old_cache.len() && old_cache[w] == id;
                assert(old_cache[w] != id);
            }
            let pc = position_of_value(old_cache, id);
            assert(old_cache[pc] == id);
            assert(old_cache[c as int] == id);
            assert(pc == c);
        }
        self.region_sort_result.remove(c);
        let ghost new_elements = self.elements@;
        proof {
            assert(new_elements == old_elements.remove(index as int));
            assert forall|key: ID| #[trigger] self.map@.contains_key(key) implies has_id(
                new_elements,
                key,
            ) by {
                assert(old(self).map@.contains_key(key));
                let op = old(self).map@[key] as int;
                assert(old_elements[op].0 == key);
                assert(key != id);
                assert(op != index);
                let np = if op < index { op } else { op - 1 };
                assert(new_elements[np] == old_elements[op]);
            }
        }
        let mut k: usize = index;
        while k < self.elements.len()
            invariant
                index <= k <= self.elements.len(),
                self.elements@ == new_elements,
                new_elements == old_elements.remove(index as int),
                index < old_elements.len(),
                self.region_sort_result@ == old_cache.remove(c as int),
                ids_distinct(old_elements),
                old_elements[index as int].0 == id,
                !self.map@.contains_key(id),
                forall|p: int|
                    0 <= p < new_elements.len() ==> self.map@.contains_key(
                        #[trigger] new_elements[p].0,
                    ) && self.map@[new_elements[p].0] == if p < k {
                        p
                    } else {
                        p + 1
                    },
                forall|key: ID|
                    #[trigger] self.map@.contains_key(key) ==> has_id(new_elements, key),
            decreases self.elements.len() - k,
        {
            let key = self.elements[k].0;
            self.map.insert(key, k);
            proof {
                assert forall|p: int| 0 <= p < new_elements.len() implies self.map@.contains_key(
                    #[trigger] new_elements[p].0,
                ) && self.map@[new_elements[p].0] == if p < k + 1 {
                    p
                } else {
                    p + 1
                } by {
                    if p != k {
                        assert(new_elements[p].0 != new_elements[k as int].0) by {
                            let op = if p < index { p } else { p + 1 };
                            let ok = k + 1;
                            assert(new_elements[p] == old_elements[op]);
                            assert(new_elements[k as int] == old_elements[ok]);
                        }
                    }
                }
                assert forall|key2: ID| #[trigger] self.map@.contains_key(key2) implies has_id(
                    new_elements,
                    key2,
                ) by {
                    if key2 == key {
                        assert(new_elements[k as int].0 == key);
                    }
                }
            }
            k = k + 1;
        }
        self.is_sorted = false;
        proof {
            let ne = self.elements@;
            let nc = self.region_sort_result@;
            assert forall|i: int, j: int|
                0 <= i < ne.len() && 0 <= j < ne.len() && i != j implies #[trigger] ne[i].0
                    != #[trigger] ne[j].0 by {
                let oi = if i < index { i } else { i + 1 };
                let oj = if j < index { j } else { j + 1 };
                assert(ne[i] == old_elements[oi]);
                assert(ne[j] == old_elements[oj]);
            }
            assert forall|key: ID| #[trigger] self.map@.contains_key(key) implies self.map@[key]
                < ne.len() && ne[self.map@[key] as int].0 == key by {
                let w = choose|w: int| 0 <= w < ne.len() && #[trigger] ne[w].0 == key;
                assert(self.map@[ne[w].0] == w);
            }
            assert(nc == old_cache.remove(c as int));
            assert forall|key: ID| #[trigger] nc.contains(key) <==> has_id(ne, key) by {
                if nc.contains(key) {
                    let w = choose|w: int| 0 <= w < nc.len() && nc[w] == key;
                    let ow = if w < c { w } else { w + 1 };
                    assert(old_cache[ow] == key);
                    assert(old_cache.contains(key));
                    assert(has_id(old_elements, key));
                    let oi = choose|oi: int| 0 <= oi < old_elements.len() && #[trigger] old_elements[oi].0 == key;
                    assert(key != id) by {
                        if key == id {
                            assert(old_cache[c as int] == id);
                            assert(ow != c);
                        }
                    }
                    assert(oi != index);
                    let ni = if oi < index { oi } else { oi - 1 };
                    assert(ne[ni] == old_elements[oi]);
                }
                if has_id(ne, key) {
                    let w = choose|w: int| 0 <= w < ne.len() && #[trigger] ne[w].0 == key;
                    let ow = if w < index { w } else { w + 1 };
                    assert(ne[w] == old_elements[ow]);
                    assert(has_id(old_elements, key));
                    assert(old_cache.contains(key));
                    let cw = choose|cw: int| 0 <= cw < old_cache.len() && old_cache[cw] == key;
                    assert(key != id) by {
                        if key == id {
                            assert(old_elements[index as int].0 == id);
                            assert(ow != index);
                        }
                    }
                    assert(cw != c);
                    let ncw = if cw < c { cw } else { cw - 1 };
                    assert(nc[ncw] == key);
                }
            }
            assert forall|i: int, j: int|
                0 <= i < nc.len() && 0 <= j < nc.len() && i != j implies nc[i] != nc[j] by {
                let oi = if i < c { i } else { i + 1 };
                let oj = if j < c { j } else { j + 1 };
                assert(nc[i] == old_cache[oi]);
                assert(nc[j] == old_cache[oj]);
            }
        }
    }

    /// Stores an element under an id, replacing any element stored under that id; the
    /// element becomes the last in insertion order and in the sort cache.
    pub fn push(&mut self, id: ID, element: E)
        requires
            old(self).wf(),
            old(self).entries().len() < usize::MAX,
        ensures
            final(self).wf(),
            final(self).entries() == without_id(old(self).entries(), id).push((id, element)),
            final(self).sort_order() == without_value(old(self).sort_order(), id).push(id),
    {
        if self.has_element(id) {
            self.remove_element(id);
        }
        let ghost before = self.elements@;
        let ghost before_cache = self.region_sort_result@;
        assert(self.wf());
        proof {
            if has_id(before, id) {
                assert(before == without_id(old(self).entries(), id));
                let p = position_of(old(self).entries(), id);
                let w = choose|w: int| 0 <= w < before.len() && #[trigger] before[w].0 == id;
                let ow = if w < p { w } else { w + 1 };
                assert(old(self).entries()[ow] == before[w]);
                assert(old(self).entries()[p].0 == id);
            }
            assert(!before_cache.contains(id));
        }
        let index = self.elements.len();
        self.elements.push((id, element));
        self.region_sort_result.push(id);
        self.map.insert(id, index);
        self.is_sorted = false;
        proof {
            let ne = self.elements@;
            let nc = self.region_sort_result@;
            assert forall|i: int, j: int|
                0 <= i < ne.len() && 0 <= j < ne.len() && i != j implies #[trigger] ne[i].0
                    != #[trigger] ne[j].0 by {
                if i < index && j < index {
                    assert(ne[i] == before[i]);
                    assert(ne[j] == before[j]);
                } else if i < index {
                    assert(ne[i] == before[i]);
                } else if j < index {
                    assert(ne[j] == before[j]);
                }
            }
            assert forall|i: int| 0 <= i < ne.len() implies self.map@.contains_key(
                #[trigger] ne[i].0,
            ) && self.map@[ne[i].0] == i by {
                if i < index {
                    assert(ne[i] == before[i]);
                    assert(before[i].0 != id);
                }
            }
            assert forall|k: ID| #[trigger] self.map@.contains_key(k) implies self.map@[k]
                < ne.len() && ne[self.map@[k] as int].0 == k by {
                if k != id {
                    assert(ne[self.map@[k] as int] == before[self.map@[k] as int]);
                }
            }
            assert forall|k: ID| #[trigger] nc.contains(k) <==> has_id(ne, k) by {
                if nc.contains(k) {
                    let w = choose|w: int| 0 <= w < nc.len() && nc[w] == k;
                    if w < before_cache.len() {
                        assert(before_cache[w] == k);
                        assert(before_cache.contains(k));
                        let v = choose|v: int| 0 <= v < before.len() && #[trigger] before[v].0 == k;
                        assert(ne[v] == before[v]);
                    } else {
                        assert(ne[index as int].0 == id);
                    }
                }
                if has_id(ne, k) {
                    let w = choose|w: int| 0 <= w < ne.len() && #[trigger] ne[w].0 == k;
                    if w < index {
                        assert(ne[w] == before[w]);
                        assert(has_id(before, k));
                        assert(before_cache.contains(k));
                        let v = choose|v: int| 0 <= v < before_cache.len() && before_cache[v] == k;
                        assert(nc[v] == k);
                    } else {
                        assert(nc[before_cache.len() as int] == id);
                    }
                }
            }
        }
    }
}

} // verus!
