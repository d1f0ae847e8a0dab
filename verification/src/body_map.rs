//! An ordered map keyed by body handle, ordered as the handles themselves are.
use std::collections::BTreeMap;

use vstd::prelude::*;

use crate::handles::BodyHandle;

verus! {

/// A map from body handles to values. Its view is keyed by each handle's packed value,
/// which orders keys exactly as the handles order themselves.
pub struct BodyMap<V> {
    map: BTreeMap<u64, V>,
}

impl<V> View for BodyMap<V> {
    type V = Map<u64, V>;

    closed spec fn view(&self) -> Map<u64, V> {
        self.map@
    }
}

impl<V> BodyMap<V> {
    /// Creates an empty map.
    pub fn new() -> (m: Self)
        ensures
            m@ == Map::<u64, V>::empty(),
    {
        BodyMap { map: BTreeMap::new() }
    }

    /// Returns the number of bodies with an entry.
    pub fn len(&self) -> (n: usize)
        ensures
            n == self@.len(),
    {
        self.map.len()
    }

    /// Returns whether the body has an entry.
    pub fn contains_key(&self, body: BodyHandle) -> (r: bool)
        ensures
            r == self@.contains_key(body@),
    {
        let key = body.raw();
        self.map.contains_key(&key)
    }

    /// Returns the entry of the body, if any.
    pub fn get(&self, body: BodyHandle) -> (r: Option<&V>)
        ensures
            match r {
                Some(v) => self@.contains_key(body@) && *v == self@[body@],
                None => !self@.contains_key(body@),
            },
    {
        let key = body.raw();
        self.map.get(&key)
    }

    /// Sets the entry of the body, returning the value it replaced.
    pub fn insert(&mut self, body: BodyHandle, value: V) -> (r: Option<V>)
        ensures
            final(self)@ == old(self)@.insert(body@, value),
            match r {
                Some(v) => old(self)@.contains_key(body@) && v == old(self)@[body@],
                None => !old(self)@.contains_key(body@),
            },
    {
        let key = body.raw();
        self.map.insert(key, value)
    }
}

} // verus!
