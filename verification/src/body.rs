//! Body simulation categories and the colliders and joints attached to a body.
use vstd::prelude::*;

use crate::handles::{ColliderHandle, JointHandle};

verus! {

/// Stable body simulation category.
#[derive(Clone, Copy, Debug, PartialEq, Eq, Structural, Hash)]
pub enum BodyType {
    /// Bodies that never integrate velocity and never receive solver write-back.
    Static,
    /// Bodies that fully participate in force integration and constraint solving.
    Dynamic,
    /// Bodies that are moved by the user but still act as collidable world geometry.
    Kinematic,
}

impl Default for BodyType {
    /// Bodies are dynamic unless stated otherwise.
    fn default() -> (r: Self)
        ensures
            r == BodyType::Dynamic,
    {
        BodyType::Dynamic
    }
}

impl BodyType {
    /// Returns `true` for static bodies.
    pub fn is_static(self) -> (r: bool)
        ensures
            r == (self == BodyType::Static),
    {
        matches!(self, BodyType::Static)
    }

    /// Returns `true` for dynamic bodies.
    pub fn is_dynamic(self) -> (r: bool)
        ensures
            r == (self == BodyType::Dynamic),
    {
        matches!(self, BodyType::Dynamic)
    }

    /// Returns `true` for kinematic bodies.
    pub fn is_kinematic(self) -> (r: bool)
        ensures
            r == (self == BodyType::Kinematic),
    {
        matches!(self, BodyType::Kinematic)
    }
}

/// Every body type answers `true` to exactly one of the three category predicates.
pub proof fn lemma_body_type_exactly_one_category(t: BodyType)
    ensures
        (t == BodyType::Static) || (t == BodyType::Dynamic) || (t == BodyType::Kinematic),
        !((t == BodyType::Static) && (t == BodyType::Dynamic)),
        !((t == BodyType::Static) && (t == BodyType::Kinematic)),
        !((t == BodyType::Dynamic) && (t == BodyType::Kinematic)),
{
}

/// The state of a body record that is not motion: its category, sleep flags and payload.
#[derive(Clone, Copy, Debug, PartialEq, Eq, Structural)]
pub struct BodyFlags {
    /// Simulation category.
    pub body_type: BodyType,
    /// Whether the body may sleep.
    pub can_sleep: bool,
    /// Whether the body sleeps.
    pub sleeping: bool,
    /// User-owned opaque payload.
    pub user_data: u64,
}

/// The part of a body patch that is not motion, and which motion fields it replaces.
#[derive(Clone, Copy, Debug, PartialEq, Eq, Structural)]
pub struct BodyFlagsPatch {
    /// Replaces the body type when present.
    pub body_type: Option<BodyType>,
    /// Replaces the sleep eligibility when present.
    pub can_sleep: Option<bool>,
    /// Sets the sleeping state when present.
    pub sleeping: Option<bool>,
    /// Replaces the user payload when present.
    pub user_data: Option<u64>,
    /// Clears sleeping even if the patch does not set it.
    pub wake: bool,
    /// The patch replaces the pose.
    pub replaces_pose: bool,
    /// The patch replaces the linear velocity.
    pub replaces_linear_velocity: bool,
    /// The patch replaces the angular velocity.
    pub replaces_angular_velocity: bool,
}

/// What a body record becomes besides its replaced fields.
#[derive(Clone, Copy, Debug, PartialEq, Eq, Structural)]
pub struct BodyFlagsOutcome {
    /// The new flags.
    pub flags: BodyFlags,
    /// The idle time goes back to zero.
    pub reset_idle: bool,
    /// The body is static, so its velocities are zeroed.
    pub freeze_motion: bool,
}

/// A static body is frozen: it never sleeps and its idle time and velocities are zeroed.
pub open spec fn normalized_flags(flags: BodyFlags, reset_idle: bool) -> BodyFlagsOutcome {
    if flags.body_type == BodyType::Static {
        BodyFlagsOutcome {
            flags: BodyFlags { sleeping: false, ..flags },
            reset_idle: true,
            freeze_motion: true,
        }
    } else {
        BodyFlagsOutcome { flags, reset_idle, freeze_motion: false }
    }
}

/// The flags after a patch: present fields replace, a wake clears sleeping, and the idle
/// time resets when the patch changes the type or the motion, forbids sleep, clears
/// sleeping, or wakes.
pub open spec fn patched_flags(flags: BodyFlags, patch: BodyFlagsPatch) -> BodyFlagsOutcome {
    let body_type = match patch.body_type {
        Some(t) => t,
        None => flags.body_type,
    };
    let can_sleep = match patch.can_sleep {
        Some(c) => c,
        None => flags.can_sleep,
    };
    let set_sleeping = match patch.sleeping {
        Some(s) => s,
        None => flags.sleeping,
    };
    let user_data = match patch.user_data {
        Some(u) => u,
        None => flags.user_data,
    };
    let reset_idle = patch.body_type is Some || patch.replaces_pose
        || patch.replaces_linear_velocity || patch.replaces_angular_velocity || patch.can_sleep
        == Some(false) || patch.sleeping == Some(false) || patch.wake;
    normalized_flags(
        BodyFlags {
            body_type,
            can_sleep,
            sleeping: set_sleeping && !patch.wake,
            user_data,
        },
        reset_idle,
    )
}

impl BodyFlags {
    /// The flags of a new body: a static body starts awake and frozen.
    pub fn from_desc(body_type: BodyType, can_sleep: bool, sleeping: bool, user_data: u64) -> (r:
        BodyFlagsOutcome)
        ensures
            r == normalized_flags(BodyFlags { body_type, can_sleep, sleeping, user_data }, true),
    {
        normalize_motion_for_body_type(BodyFlags { body_type, can_sleep, sleeping, user_data }, true)
    }

    /// Applies the non-motion part of a body patch.
    pub fn apply_patch(self, patch: BodyFlagsPatch) -> (r: BodyFlagsOutcome)
        ensures
            r == patched_flags(self, patch),
    {
        let body_type = match patch.body_type {
            Some(t) => t,
            None => self.body_type,
        };
        let can_sleep = match patch.can_sleep {
            Some(c) => c,
            None => self.can_sleep,
        };
        let mut sleeping = match patch.sleeping {
            Some(s) => s,
            None => self.sleeping,
        };
        let user_data = match patch.user_data {
            Some(u) => u,
            None => self.user_data,
        };
        let reset_idle = patch.body_type.is_some() || patch.replaces_pose
            || patch.replaces_linear_velocity || patch.replaces_angular_velocity || match patch.can_sleep {
            Some(c) => !c,
            None => false,
        } || match patch.sleeping {
            Some(s) => !s,
            None => false,
        } || patch.wake;
        if patch.wake {
            sleeping = false;
        }
        normalize_motion_for_body_type(BodyFlags { body_type, can_sleep, sleeping, user_data }, reset_idle)
    }
}

/// Freezes a static body; other bodies keep their flags.
pub fn normalize_motion_for_body_type(flags: BodyFlags, reset_idle: bool) -> (r: BodyFlagsOutcome)
    ensures
        r == normalized_flags(flags, reset_idle),
{
    if flags.body_type.is_static() {
        BodyFlagsOutcome {
            flags: BodyFlags { sleeping: false, ..flags },
            reset_idle: true,
            freeze_motion: true,
        }
    } else {
        BodyFlagsOutcome { flags, reset_idle, freeze_motion: false }
    }
}

/// A patch that wakes, and any static body, ends awake.
pub proof fn lemma_patch_wakes(flags: BodyFlags, patch: BodyFlagsPatch)
    ensures
        patch.wake ==> !patched_flags(flags, patch).flags.sleeping,
        patched_flags(flags, patch).flags.body_type == BodyType::Static ==> !patched_flags(
            flags,
            patch,
        ).flags.sleeping && patched_flags(flags, patch).freeze_motion,
{
}

/// Applying the same patch twice gives the flags that applying it once gives.
pub proof fn lemma_patch_idempotent(flags: BodyFlags, patch: BodyFlagsPatch)
    ensures
        patched_flags(patched_flags(flags, patch).flags, patch).flags == patched_flags(
            flags,
            patch,
        ).flags,
{
}

/// Each field a patch carries replaces the old one, and each field it leaves out is kept:
/// the type, the sleep eligibility and the payload. The body sleeps afterwards exactly
/// when it is not static, the patch does not wake it, and the patch's sleeping value (or
/// else the old one) is true. Forbidding sleep resets the idle time.
pub proof fn lemma_patch_replaces_present_fields(flags: BodyFlags, patch: BodyFlagsPatch)
    ensures
        patch.body_type matches Some(t) ==> patched_flags(flags, patch).flags.body_type == t,
        patch.body_type is None ==> patched_flags(flags, patch).flags.body_type == flags.body_type,
        patch.can_sleep matches Some(c) ==> patched_flags(flags, patch).flags.can_sleep == c,
        patch.can_sleep is None ==> patched_flags(flags, patch).flags.can_sleep == flags.can_sleep,
        patch.user_data matches Some(u) ==> patched_flags(flags, patch).flags.user_data == u,
        patch.user_data is None ==> patched_flags(flags, patch).flags.user_data == flags.user_data,
        patched_flags(flags, patch).flags.sleeping == (patched_flags(flags, patch).flags.body_type
            != BodyType::Static && !patch.wake && match patch.sleeping {
            Some(s) => s,
            None => flags.sleeping,
        }),
        patch.can_sleep == Some(false) ==> patched_flags(flags, patch).reset_idle,
{
}

/// The colliders and joints attached to one body, in attachment order.
pub struct BodyAttachments {
    colliders: Vec<ColliderHandle>,
    joints: Vec<JointHandle>,
}

/// `s` without any occurrence of `x`, order kept.
pub open spec fn without<T>(s: Seq<T>, x: T) -> Seq<T>
    decreases s.len(),
{
    if s.len() == 0 {
        s
    } else if s.last() != x {
        without(s.drop_last(), x).push(s.last())
    } else {
        without(s.drop_last(), x)
    }
}

proof fn lemma_without_step<T>(s: Seq<T>, x: T, i: int)
    requires
        0 <= i < s.len(),
    ensures
        without(s.take(i + 1), x) == if s[i] != x {
            without(s.take(i), x).push(s[i])
        } else {
            without(s.take(i), x)
        },
{
    assert(s.take(i + 1).drop_last() =~= s.take(i));
}

fn remove_collider(items: &Vec<ColliderHandle>, x: ColliderHandle) -> (kept: Vec<ColliderHandle>)
    ensures
        kept@ == without(items@, x),
{
    let mut kept: Vec<ColliderHandle> = Vec::new();
    let mut i: usize = 0;
    while i < items.len()
        invariant
            i <= items.len(),
            kept@ == without(items@.take(i as int), x),
        decreases items.len() - i,
    {
        proof {
            lemma_without_step(items@, x, i as int);
        }
        if items[i] != x {
            kept.push(items[i]);
        }
        i = i + 1;
    }
    proof {
        assert(items@.take(i as int) =~= items@);
    }
    kept
}

fn remove_joint(items: &Vec<JointHandle>, x: JointHandle) -> (kept: Vec<JointHandle>)
    ensures
        kept@ == without(items@, x),
{
    let mut kept: Vec<JointHandle> = Vec::new();
    let mut i: usize = 0;
    while i < items.len()
        invariant
            i <= items.len(),
            kept@ == without(items@.take(i as int), x),
        decreases items.len() - i,
    {
        proof {
            lemma_without_step(items@, x, i as int);
        }
        if items[i] != x {
            kept.push(items[i]);
        }
        i = i + 1;
    }
    proof {
        assert(items@.take(i as int) =~= items@);
    }
    kept
}

impl BodyAttachments {
    /// The attached colliders, in attachment order.
    pub closed spec fn colliders(&self) -> Seq<ColliderHandle> {
        self.colliders@
    }

    /// The attached joints, in attachment order.
    pub closed spec fn joints(&self) -> Seq<JointHandle> {
        self.joints@
    }

    /// Creates an empty attachment list.
    pub fn new() -> (a: Self)
        ensures
            a.colliders() == Seq::<ColliderHandle>::empty(),
            a.joints() == Seq::<JointHandle>::empty(),
    {
        BodyAttachments { colliders: Vec::new(), joints: Vec::new() }
    }

    /// Attaches a collider.
    pub fn attach_collider(&mut self, handle: ColliderHandle)
        ensures
            final(self).colliders() == old(self).colliders().push(handle),
            final(self).joints() == old(self).joints(),
    {
        self.colliders.push(handle);
    }

    /// Detaches every attachment of a collider.
    pub fn detach_collider(&mut self, handle: ColliderHandle)
        ensures
            final(self).colliders() == without(old(self).colliders(), handle),
            final(self).joints() == old(self).joints(),
    {
        self.colliders = remove_collider(&self.colliders, handle);
    }

    /// Attaches a joint unless it is attached already.
    pub fn attach_joint(&mut self, handle: JointHandle)
        ensures
            final(self).joints() == if old(self).joints().contains(handle) {
                old(self).joints()
            } else {
                old(self).joints().push(handle)
            },
            final(self).colliders() == old(self).colliders(),
    {
        let mut i: usize = 0;
        while i < self.joints.len()
            invariant
                i <= self.joints.len(),
                forall|j: int| 0 <= j < i ==> self.joints@[j] != handle,
            decreases self.joints.len() - i,
        {
            if self.joints[i] == handle {
                proof {
                    assert(self.joints@[i as int] == handle);
                }
                return;
            }
            i = i + 1;
        }
        self.joints.push(handle);
    }

    /// Detaches a joint.
    pub fn detach_joint(&mut self, handle: JointHandle)
        ensures
            final(self).joints() == without(old(self).joints(), handle),
            final(self).colliders() == old(self).colliders(),
    {
        self.joints = remove_joint(&self.joints, handle);
    }

    /// Returns the attached colliders.
    pub fn collider_handles(&self) -> (handles: Vec<ColliderHandle>)
        ensures
            handles@ == self.colliders(),
    {
        self.colliders.clone()
    }

    /// Returns the attached joints.
    pub fn joint_handles(&self) -> (handles: Vec<JointHandle>)
        ensures
            handles@ == self.joints(),
    {
        self.joints.clone()
    }
}

/// Attaching a joint twice attaches it once, and detaching it then leaves no trace of it.
pub proof fn lemma_joint_attach_idempotent(joints: Seq<JointHandle>, handle: JointHandle)
    ensures
        ({
            let once = if joints.contains(handle) {
                joints
            } else {
                joints.push(handle)
            };
            &&& once.contains(handle)
            &&& (if once.contains(handle) {
                once
            } else {
                once.push(handle)
            }) == once
            &&& !without(once, handle).contains(handle)
        }),
{
    let once = if joints.contains(handle) {
        joints
    } else {
        joints.push(handle)
    };
    if !joints.contains(handle) {
        assert(once[joints.len() as int] == handle);
    }
    lemma_without_drops(once, handle);
}

/// Detaching keeps every other handle in order and drops every occurrence of the handle.
pub proof fn lemma_without_drops<T>(s: Seq<T>, x: T)
    ensures
        !without(s, x).contains(x),
        forall|y: T| y != x ==> (without(s, x).contains(y) <==> s.contains(y)),
    decreases s.len(),
{
    if s.len() > 0 {
        lemma_without_drops(s.drop_last(), x);
        let prev = without(s.drop_last(), x);
        assert forall|y: T| y != x implies (without(s, x).contains(y) <==> s.contains(y)) by {
            if s.contains(y) {
                let w = choose|w: int| 0 <= w < s.len() && s[w] == y;
                if w < s.len() - 1 {
                    assert(s.drop_last()[w] == y);
                    assert(s.drop_last().contains(y));
                }
            }
            if s.drop_last().contains(y) {
                let w = choose|w: int| 0 <= w < s.drop_last().len() && s.drop_last()[w] == y;
                assert(s[w] == y);
            }
            if without(s, x).contains(y) && s.last() != x {
                let w = choose|w: int| 0 <= w < without(s, x).len() && without(s, x)[w] == y;
                if w < prev.len() {
                    assert(prev[w] == y);
                }
            }
            if s.last() != x && s.last() == y {
                assert(without(s, x)[prev.len() as int] == y);
            }
            if prev.contains(y) && s.last() != x {
                let w = choose|w: int| 0 <= w < prev.len() && prev[w] == y;
                assert(without(s, x)[w] == y);
            }
        }
        if without(s, x).contains(x) {
            let w = choose|w: int| 0 <= w < without(s, x).len() && without(s, x)[w] == x;
            if w < prev.len() {
                assert(prev[w] == x);
            }
        }
    }
}

} // verus!
