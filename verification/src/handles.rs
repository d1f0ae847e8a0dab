//! Typed opaque handles: a slot index and a generation packed into one `u64`.
use vstd::prelude::*;

verus! {

/// Raw value reserved for the sentinel handle that names no world slot.
pub const INVALID_RAW: u64 = 0xffff_ffff_ffff_ffff;

/// The raw value of a handle built from a slot index and a generation:
/// the generation fills the high 32 bits and the index the low 32 bits.
pub open spec fn packed(index: u32, generation: u32) -> u64 {
    (generation as int * 0x1_0000_0000 + index as int) as u64
}

/// The slot index stored in a raw handle value, `None` for the sentinel.
pub open spec fn raw_index_spec(raw: u64) -> Option<usize> {
    if raw == INVALID_RAW {
        None
    } else {
        Some((raw % 0x1_0000_0000) as usize)
    }
}

/// The generation stored in a raw handle value, `None` for the sentinel.
pub open spec fn raw_generation_spec(raw: u64) -> Option<u32> {
    if raw == INVALID_RAW {
        None
    } else {
        Some((raw / 0x1_0000_0000) as u32)
    }
}


/// A handle built from a slot index and a generation gives both back, and is not the
/// sentinel, for every pair except the all-ones pair, whose packing is the sentinel value.
pub proof fn lemma_raw_parts_round_trip(index: u32, generation: u32)
    requires
        !(index == u32::MAX && generation == u32::MAX),
    ensures
        packed(index, generation) != INVALID_RAW,
        raw_index_spec(packed(index, generation)) == Some(index as usize),
        raw_generation_spec(packed(index, generation)) == Some(generation),
{
    let v: int = generation as int * 0x1_0000_0000 + index as int;
    assert(0 <= v < 0x1_0000_0000_0000_0000) by (nonlinear_arith)
        requires
            v == generation as int * 0x1_0000_0000 + index as int,
            0 <= index < 0x1_0000_0000,
            0 <= generation < 0x1_0000_0000,
    ;
    assert(v % 0x1_0000_0000 == index as int && v / 0x1_0000_0000 == generation as int)
        by (nonlinear_arith)
        requires
            v == generation as int * 0x1_0000_0000 + index as int,
            0 <= index < 0x1_0000_0000,
    ;
    if v == INVALID_RAW as int {
        assert(false) by (nonlinear_arith)
            requires
                v == generation as int * 0x1_0000_0000 + index as int,
                v == 0xffff_ffff_ffff_ffff,
                0 <= index < 0x1_0000_0000,
                0 <= generation < 0x1_0000_0000,
                !(index == 0xffff_ffff && generation == 0xffff_ffff),
        ;
    }
}

/// Distinct (index, generation) pairs pack to distinct handle values.
pub proof fn lemma_packed_injective(i1: u32, g1: u32, i2: u32, g2: u32)
    requires
        packed(i1, g1) == packed(i2, g2),
    ensures
        i1 == i2,
        g1 == g2,
{
    assert(i1 == i2 && g1 == g2) by (nonlinear_arith)
        requires
            g1 as int * 0x1_0000_0000 + i1 as int == g2 as int * 0x1_0000_0000 + i2 as int,
            0 <= i1 < 0x1_0000_0000,
            0 <= i2 < 0x1_0000_0000,
            0 <= g1 < 0x1_0000_0000,
            0 <= g2 < 0x1_0000_0000,
    ;
}

/// The all-ones pair packs to the sentinel value, so such a handle reads as invalid.
pub proof fn lemma_all_ones_parts_are_sentinel()
    ensures
        packed(u32::MAX, u32::MAX) == INVALID_RAW,
        raw_index_spec(packed(u32::MAX, u32::MAX)) is None,
{
}

fn pack_raw(index: u32, generation: u32) -> (raw: u64)
    ensures
        raw == packed(index, generation),
{
    let raw = ((generation as u64) << 32u64) | (index as u64);
    assert(((generation as u64) << 32u64) | (index as u64) == generation as u64 * 0x1_0000_0000u64
        + index as u64) by (bit_vector);
    raw
}

fn unpack_index(raw: u64) -> (index: Option<usize>)
    ensures
        index == raw_index_spec(raw),
{
    if raw == INVALID_RAW {
        None
    } else {
        let low = raw & 0xffff_ffffu64;
        assert(raw & 0xffff_ffffu64 == raw % 0x1_0000_0000u64) by (bit_vector);
        Some(low as u32 as usize)
    }
}

fn unpack_generation(raw: u64) -> (generation: Option<u32>)
    ensures
        generation == raw_generation_spec(raw),
{
    if raw == INVALID_RAW {
        None
    } else {
        let high = raw >> 32u64;
        assert(raw >> 32u64 == raw / 0x1_0000_0000u64) by (bit_vector);
        Some(high as u32)
    }
}

/// Opaque identifier for a body owned by a world.
#[derive(Clone, Copy, Debug, PartialEq, Eq, Structural, PartialOrd, Ord, Hash)]
pub struct BodyHandle(u64);

impl View for BodyHandle {
    type V = u64;

    closed spec fn view(&self) -> u64 {
        self.0
    }
}

impl BodyHandle {
    /// Sentinel handle used before a real world-owned handle is assigned.
    pub fn invalid() -> (h: Self)
        ensures
            h@ == INVALID_RAW,
    {
        BodyHandle(INVALID_RAW)
    }

    /// Packs a slot index and a generation into a handle.
    pub fn from_raw_parts(index: u32, generation: u32) -> (h: Self)
        ensures
            h@ == packed(index, generation),
    {
        BodyHandle(pack_raw(index, generation))
    }

    /// Returns the raw packed value.
    pub fn raw(self) -> (r: u64)
        ensures
            r == self@,
    {
        self.0
    }

    /// Rebuilds a handle from a raw packed value produced by [`Self::raw`].
    pub(crate) fn from_raw(raw: u64) -> (h: Self)
        ensures
            h@ == raw,
    {
        BodyHandle(raw)
    }

    /// Two handles are equal exactly when their packed values are.
    pub proof fn lemma_view_eq(a: Self, b: Self)
        ensures
            (a == b) <==> a@ == b@,
    {
    }

    /// Returns the slot index, or `None` for the sentinel handle.
    pub fn index(self) -> (r: Option<usize>)
        ensures
            r == raw_index_spec(self@),
    {
        unpack_index(self.0)
    }

    /// Returns the generation, or `None` for the sentinel handle.
    pub fn generation(self) -> (r: Option<u32>)
        ensures
            r == raw_generation_spec(self@),
    {
        unpack_generation(self.0)
    }

    /// Returns `true` when the handle refers to a world-managed slot.
    pub fn is_valid(self) -> (r: bool)
        ensures
            r == (self@ != INVALID_RAW),
    {
        self.0 != INVALID_RAW
    }
}

impl Default for BodyHandle {
    /// The sentinel handle.
    fn default() -> (h: Self)
        ensures
            h@ == INVALID_RAW,
    {
        BodyHandle(INVALID_RAW)
    }
}

/// Opaque identifier for a collider owned by a world.
#[derive(Clone, Copy, Debug, PartialEq, Eq, Structural, PartialOrd, Ord, Hash)]
pub struct ColliderHandle(u64);

impl View for ColliderHandle {
    type V = u64;

    closed spec fn view(&self) -> u64 {
        self.0
    }
}

impl ColliderHandle {
    /// Sentinel handle used before a real world-owned handle is assigned.
    pub fn invalid() -> (h: Self)
        ensures
            h@ == INVALID_RAW,
    {
        ColliderHandle(INVALID_RAW)
    }

    /// Packs a slot index and a generation into a handle.
    pub fn from_raw_parts(index: u32, generation: u32) -> (h: Self)
        ensures
            h@ == packed(index, generation),
    {
        ColliderHandle(pack_raw(index, generation))
    }

    /// Returns the raw packed value.
    pub fn raw(self) -> (r: u64)
        ensures
            r == self@,
    {
        self.0
    }

    /// Rebuilds a handle from a raw packed value produced by [`Self::raw`].
    pub(crate) fn from_raw(raw: u64) -> (h: Self)
        ensures
            h@ == raw,
    {
        ColliderHandle(raw)
    }

    /// Two handles are equal exactly when their packed values are.
    pub proof fn lemma_view_eq(a: Self, b: Self)
        ensures
            (a == b) <==> a@ == b@,
    {
    }

    /// Returns the slot index, or `None` for the sentinel handle.
    pub fn index(self) -> (r: Option<usize>)
        ensures
            r == raw_index_spec(self@),
    {
        unpack_index(self.0)
    }

    /// Returns the generation, or `None` for the sentinel handle.
    pub fn generation(self) -> (r: Option<u32>)
        ensures
            r == raw_generation_spec(self@),
    {
        unpack_generation(self.0)
    }

    /// Returns `true` when the handle refers to a world-managed slot.
    pub fn is_valid(self) -> (r: bool)
        ensures
            r == (self@ != INVALID_RAW),
    {
        self.0 != INVALID_RAW
    }
}

impl Default for ColliderHandle {
    /// The sentinel handle.
    fn default() -> (h: Self)
        ensures
            h@ == INVALID_RAW,
    {
        ColliderHandle(INVALID_RAW)
    }
}

/// Opaque identifier for a joint owned by a world.
#[derive(Clone, Copy, Debug, PartialEq, Eq, Structural, PartialOrd, Ord, Hash)]
pub struct JointHandle(u64);

impl View for JointHandle {
    type V = u64;

    closed spec fn view(&self) -> u64 {
        self.0
    }
}

impl JointHandle {
    /// Sentinel handle used before a real world-owned handle is assigned.
    pub fn invalid() -> (h: Self)
        ensures
            h@ == INVALID_RAW,
    {
        JointHandle(INVALID_RAW)
    }

    /// Packs a slot index and a generation into a handle.
    pub fn from_raw_parts(index: u32, generation: u32) -> (h: Self)
        ensures
            h@ == packed(index, generation),
    {
        JointHandle(pack_raw(index, generation))
    }

    /// Returns the raw packed value.
    pub fn raw(self) -> (r: u64)
        ensures
            r == self@,
    {
        self.0
    }

    /// Rebuilds a handle from a raw packed value produced by [`Self::raw`].
    pub(crate) fn from_raw(raw: u64) -> (h: Self)
        ensures
            h@ == raw,
    {
        JointHandle(raw)
    }

    /// Two handles are equal exactly when their packed values are.
    pub proof fn lemma_view_eq(a: Self, b: Self)
        ensures
            (a == b) <==> a@ == b@,
    {
    }

    /// Returns the slot index, or `None` for the sentinel handle.
    pub fn index(self) -> (r: Option<usize>)
        ensures
            r == raw_index_spec(self@),
    {
        unpack_index(self.0)
    }

    /// Returns the generation, or `None` for the sentinel handle.
    pub fn generation(self) -> (r: Option<u32>)
        ensures
            r == raw_generation_spec(self@),
    {
        unpack_generation(self.0)
    }

    /// Returns `true` when the handle refers to a world-managed slot.
    pub fn is_valid(self) -> (r: bool)
        ensures
            r == (self@ != INVALID_RAW),
    {
        self.0 != INVALID_RAW
    }
}

impl Default for JointHandle {
    /// The sentinel handle.
    fn default() -> (h: Self)
        ensures
            h@ == INVALID_RAW,
    {
        JointHandle(INVALID_RAW)
    }
}

/// Opaque identifier for a contact in debug and event streams.
#[derive(Clone, Copy, Debug, PartialEq, Eq, Structural, PartialOrd, Ord, Hash)]
pub struct ContactId(u64);

impl View for ContactId {
    type V = u64;

    closed spec fn view(&self) -> u64 {
        self.0
    }
}

impl ContactId {
    /// Sentinel handle used before a real world-owned handle is assigned.
    pub fn invalid() -> (h: Self)
        ensures
            h@ == INVALID_RAW,
    {
        ContactId(INVALID_RAW)
    }

    /// Packs a slot index and a generation into a handle.
    pub fn from_raw_parts(index: u32, generation: u32) -> (h: Self)
        ensures
            h@ == packed(index, generation),
    {
        ContactId(pack_raw(index, generation))
    }

    /// Returns the raw packed value.
    pub fn raw(self) -> (r: u64)
        ensures
            r == self@,
    {
        self.0
    }

    /// Rebuilds a handle from a raw packed value produced by [`Self::raw`].
    pub(crate) fn from_raw(raw: u64) -> (h: Self)
        ensures
            h@ == raw,
    {
        ContactId(raw)
    }

    /// Two handles are equal exactly when their packed values are.
    pub proof fn lemma_view_eq(a: Self, b: Self)
        ensures
            (a == b) <==> a@ == b@,
    {
    }

    /// Returns the slot index, or `None` for the sentinel handle.
    pub fn index(self) -> (r: Option<usize>)
        ensures
            r == raw_index_spec(self@),
    {
        unpack_index(self.0)
    }

    /// Returns the generation, or `None` for the sentinel handle.
    pub fn generation(self) -> (r: Option<u32>)
        ensures
            r == raw_generation_spec(self@),
    {
        unpack_generation(self.0)
    }

    /// Returns `true` when the handle refers to a world-managed slot.
    pub fn is_valid(self) -> (r: bool)
        ensures
            r == (self@ != INVALID_RAW),
    {
        self.0 != INVALID_RAW
    }
}

impl Default for ContactId {
    /// The sentinel handle.
    fn default() -> (h: Self)
        ensures
            h@ == INVALID_RAW,
    {
        ContactId(INVALID_RAW)
    }
}

/// Opaque identifier for one contact point feature inside a collider-pair manifold.
#[derive(Clone, Copy, Debug, PartialEq, Eq, Structural, PartialOrd, Ord, Hash)]
pub struct ContactFeatureId(u64);

impl View for ContactFeatureId {
    type V = u64;

    closed spec fn view(&self) -> u64 {
        self.0
    }
}

impl ContactFeatureId {
    /// Sentinel handle used before a real world-owned handle is assigned.
    pub fn invalid() -> (h: Self)
        ensures
            h@ == INVALID_RAW,
    {
        ContactFeatureId(INVALID_RAW)
    }

    /// Packs a slot index and a generation into a handle.
    pub fn from_raw_parts(index: u32, generation: u32) -> (h: Self)
        ensures
            h@ == packed(index, generation),
    {
        ContactFeatureId(pack_raw(index, generation))
    }

    /// Returns the raw packed value.
    pub fn raw(self) -> (r: u64)
        ensures
            r == self@,
    {
        self.0
    }

    /// Rebuilds a handle from a raw packed value produced by [`Self::raw`].
    pub(crate) fn from_raw(raw: u64) -> (h: Self)
        ensures
            h@ == raw,
    {
        ContactFeatureId(raw)
    }

    /// Two handles are equal exactly when their packed values are.
    pub proof fn lemma_view_eq(a: Self, b: Self)
        ensures
            (a == b) <==> a@ == b@,
    {
    }

    /// Returns the slot index, or `None` for the sentinel handle.
    pub fn index(self) -> (r: Option<usize>)
        ensures
            r == raw_index_spec(self@),
    {
        unpack_index(self.0)
    }

    /// Returns the generation, or `None` for the sentinel handle.
    pub fn generation(self) -> (r: Option<u32>)
        ensures
            r == raw_generation_spec(self@),
    {
        unpack_generation(self.0)
    }

    /// Returns `true` when the handle refers to a world-managed slot.
    pub fn is_valid(self) -> (r: bool)
        ensures
            r == (self@ != INVALID_RAW),
    {
        self.0 != INVALID_RAW
    }
}

impl Default for ContactFeatureId {
    /// The sentinel handle.
    fn default() -> (h: Self)
        ensures
            h@ == INVALID_RAW,
    {
        ContactFeatureId(INVALID_RAW)
    }
}

/// Opaque identifier for a contact manifold in debug and event streams.
#[derive(Clone, Copy, Debug, PartialEq, Eq, Structural, PartialOrd, Ord, Hash)]
pub struct ManifoldId(u64);

impl View for ManifoldId {
    type V = u64;

    closed spec fn view(&self) -> u64 {
        self.0
    }
}

impl ManifoldId {
    /// Sentinel handle used before a real world-owned handle is assigned.
    pub fn invalid() -> (h: Self)
        ensures
            h@ == INVALID_RAW,
    {
        ManifoldId(INVALID_RAW)
    }

    /// Packs a slot index and a generation into a handle.
    pub fn from_raw_parts(index: u32, generation: u32) -> (h: Self)
        ensures
            h@ == packed(index, generation),
    {
        ManifoldId(pack_raw(index, generation))
    }

    /// Returns the raw packed value.
    pub fn raw(self) -> (r: u64)
        ensures
            r == self@,
    {
        self.0
    }

    /// Rebuilds a handle from a raw packed value produced by [`Self::raw`].
    pub(crate) fn from_raw(raw: u64) -> (h: Self)
        ensures
            h@ == raw,
    {
        ManifoldId(raw)
    }

    /// Two handles are equal exactly when their packed values are.
    pub proof fn lemma_view_eq(a: Self, b: Self)
        ensures
            (a == b) <==> a@ == b@,
    {
    }

    /// Returns the slot index, or `None` for the sentinel handle.
    pub fn index(self) -> (r: Option<usize>)
        ensures
            r == raw_index_spec(self@),
    {
        unpack_index(self.0)
    }

    /// Returns the generation, or `None` for the sentinel handle.
    pub fn generation(self) -> (r: Option<u32>)
        ensures
            r == raw_generation_spec(self@),
    {
        unpack_generation(self.0)
    }

    /// Returns `true` when the handle refers to a world-managed slot.
    pub fn is_valid(self) -> (r: bool)
        ensures
            r == (self@ != INVALID_RAW),
    {
        self.0 != INVALID_RAW
    }
}

impl Default for ManifoldId {
    /// The sentinel handle.
    fn default() -> (h: Self)
        ensures
            h@ == INVALID_RAW,
    {
        ManifoldId(INVALID_RAW)
    }
}

/// Monotonic world revision used by read-only caches such as queries and debug outputs.
#[derive(Clone, Copy, Debug, PartialEq, Eq, Structural, PartialOrd, Ord, Hash)]
pub struct WorldRevision(u64);

impl View for WorldRevision {
    type V = u64;

    closed spec fn view(&self) -> u64 {
        self.0
    }
}

impl WorldRevision {
    /// Creates a revision from its raw counter value.
    pub fn from_raw(raw: u64) -> (r: Self)
        ensures
            r@ == raw,
    {
        WorldRevision(raw)
    }

    /// Advances the revision by one, saturating at the maximum value.
    pub fn next(self) -> (r: Self)
        ensures
            r@ == if self@ == u64::MAX { u64::MAX as int } else { self@ + 1 },
    {
        WorldRevision(self.0.saturating_add(1))
    }

    /// Returns the raw monotonically increasing revision number.
    pub fn get(self) -> (r: u64)
        ensures
            r == self@,
    {
        self.0
    }
}

} // verus!
