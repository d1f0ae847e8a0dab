//! Typed facts emitted by the simulation pipeline: reasons, traces and sleep events.
use vstd::prelude::*;

use crate::handles::BodyHandle;

verus! {

/// Stable explanation for how a contact manifold was reduced to exported points.
#[derive(Clone, Copy, Debug, PartialEq, Eq, Structural, Hash)]
pub enum ContactReductionReason {
    /// A shape pair naturally produced one contact point.
    SinglePoint,
    /// Edge clipping produced the exported 1-2 manifold points.
    Clipped,
    /// Near-duplicate clipped points were merged to keep the manifold stable.
    DuplicateReduced,
    /// The pair is outside the convex path and used the legacy fallback.
    NonM2Fallback,
    /// A convex pair outside the specialized SAT/analytic paths used GJK/EPA.
    GenericConvexFallback,
}

impl Default for ContactReductionReason {
    fn default() -> (r: Self)
        ensures
            r == ContactReductionReason::SinglePoint,
    {
        ContactReductionReason::SinglePoint
    }
}

/// Stable termination fact for the internal GJK convex query.
#[derive(Clone, Copy, Debug, PartialEq, Eq, Structural, Hash)]
pub enum GjkTerminationReason {
    /// Older payloads did not include a reason.
    Unknown,
    /// The simplex could not pass the origin, so the shapes are separated.
    Separated,
    /// The closest simplex distance collapsed to zero without a stable penetration triangle.
    Touching,
    /// A triangle simplex contained the origin.
    Intersect,
    /// The search direction was too small or ambiguous to continue safely.
    DegenerateDirection,
    /// The iteration budget was exhausted and the query was contained.
    MaxIterations,
    /// A shape could not produce a finite support point.
    InvalidSupport,
}

impl Default for GjkTerminationReason {
    fn default() -> (r: Self)
        ensures
            r == GjkTerminationReason::Unknown,
    {
        GjkTerminationReason::Unknown
    }
}

/// Stable termination fact for the internal EPA penetration query.
#[derive(Clone, Copy, Debug, PartialEq, Eq, Structural, Hash)]
pub enum EpaTerminationReason {
    /// Older payloads did not include a reason.
    Unknown,
    /// EPA converged on a finite penetration face.
    Converged,
    /// GJK did not provide an intersecting simplex.
    GjkDidNotIntersect,
    /// The polytope edge was too small to define a stable 2D face.
    DegenerateEdge,
    /// The iteration budget was exhausted and the failure was contained.
    MaxIterations,
    /// A shape could not produce a finite support point.
    InvalidSupport,
}

impl Default for EpaTerminationReason {
    fn default() -> (r: Self)
        ensures
            r == EpaTerminationReason::Unknown,
    {
        EpaTerminationReason::Unknown
    }
}

/// Why the generic convex fallback was selected or contained.
#[derive(Clone, Copy, Debug, PartialEq, Eq, Structural, Hash)]
pub enum GenericConvexFallbackReason {
    /// No generic fallback was involved.
    NoFallback,
    /// Specialized SAT/analytic paths were unavailable, so GJK/EPA owned the answer.
    GenericConvexFallback,
    /// GJK intersected but EPA could not produce a stable face, so the failure stayed contained.
    EpaFailureContained,
}

impl Default for GenericConvexFallbackReason {
    fn default() -> (r: Self)
        ensures
            r == GenericConvexFallbackReason::NoFallback,
    {
        GenericConvexFallbackReason::NoFallback
    }
}

/// Compact trace facts for generic convex fallback contacts.
#[derive(Clone, Copy, Debug, PartialEq, Eq, Structural, Hash)]
pub struct GenericConvexTrace {
    /// Why the generic convex path contributed this contact or contained failure.
    pub fallback_reason: GenericConvexFallbackReason,
    /// GJK termination reason.
    pub gjk_termination: GjkTerminationReason,
    /// EPA termination reason.
    pub epa_termination: EpaTerminationReason,
    /// Number of GJK iterations used.
    pub gjk_iterations: usize,
    /// Number of EPA iterations used.
    pub epa_iterations: usize,
    /// Final GJK simplex size.
    pub simplex_len: usize,
}

impl Default for GenericConvexTrace {
    fn default() -> (r: Self)
        ensures
            r.fallback_reason == GenericConvexFallbackReason::NoFallback,
            r.gjk_termination == GjkTerminationReason::Unknown,
            r.epa_termination == EpaTerminationReason::Unknown,
            r.gjk_iterations == 0,
            r.epa_iterations == 0,
            r.simplex_len == 0,
    {
        GenericConvexTrace {
            fallback_reason: GenericConvexFallbackReason::NoFallback,
            gjk_termination: GjkTerminationReason::Unknown,
            epa_termination: EpaTerminationReason::Unknown,
            gjk_iterations: 0,
            epa_iterations: 0,
            simplex_len: 0,
        }
    }
}

/// Why a contact did or did not reuse the previous step's impulse cache.
#[derive(Clone, Copy, Debug, PartialEq, Eq, Structural, Hash)]
pub enum WarmStartCacheReason {
    /// Previous cache entry matched this contact and passed the conservative validity checks.
    Hit,
    /// No previous contact for the normalized collider pair was active last step.
    MissNoPrevious,
    /// The pair existed last step, but the point-level feature id did not match.
    MissFeatureId,
    /// The previous matching contact was sensor-only and had no solver impulse cache.
    MissPreviousSensor,
    /// The contact is a sensor-only overlap, so solver impulses are intentionally ignored.
    SkippedSensor,
    /// The feature id matched, but the current normal points in a different direction.
    DroppedNormalMismatch,
    /// The feature id matched, but the contact point moved farther than the drift threshold.
    DroppedPointDrift,
    /// The previous cached impulse was non-finite and was not transferred.
    DroppedInvalidImpulse,
}

impl Default for WarmStartCacheReason {
    fn default() -> (r: Self)
        ensures
            r == WarmStartCacheReason::MissNoPrevious,
    {
        WarmStartCacheReason::MissNoPrevious
    }
}

/// The reasons under which previous cached impulses were transferred.
pub open spec fn is_hit_reason(r: WarmStartCacheReason) -> bool {
    r is Hit
}

/// The reasons under which no matching cache entry existed.
pub open spec fn is_miss_reason(r: WarmStartCacheReason) -> bool {
    r is MissNoPrevious || r is MissFeatureId || r is MissPreviousSensor || r is SkippedSensor
}

/// The reasons under which a matching cache entry was found but rejected as unsafe.
pub open spec fn is_drop_reason(r: WarmStartCacheReason) -> bool {
    r is DroppedNormalMismatch || r is DroppedPointDrift || r is DroppedInvalidImpulse
}

impl WarmStartCacheReason {
    /// Returns true when previous cached impulses were transferred to this step's facts.
    pub fn is_hit(self) -> (r: bool)
        ensures
            r == is_hit_reason(self),
    {
        matches!(self, WarmStartCacheReason::Hit)
    }

    /// Returns true when no matching cache entry existed for this contact.
    pub fn is_miss(self) -> (r: bool)
        ensures
            r == is_miss_reason(self),
    {
        matches!(
            self,
            WarmStartCacheReason::MissNoPrevious | WarmStartCacheReason::MissFeatureId
                | WarmStartCacheReason::MissPreviousSensor | WarmStartCacheReason::SkippedSensor
        )
    }

    /// Returns true when a matching cache entry was found but rejected as unsafe.
    pub fn is_drop(self) -> (r: bool)
        ensures
            r == is_drop_reason(self),
    {
        matches!(
            self,
            WarmStartCacheReason::DroppedNormalMismatch | WarmStartCacheReason::DroppedPointDrift
                | WarmStartCacheReason::DroppedInvalidImpulse
        )
    }
}

/// Every warm-start decision is exactly one of hit, miss or drop, so the three step
/// counters that tally them partition the contacts.
pub proof fn lemma_warm_start_reasons_partition(r: WarmStartCacheReason)
    ensures
        is_hit_reason(r) || is_miss_reason(r) || is_drop_reason(r),
        !(is_hit_reason(r) && is_miss_reason(r)),
        !(is_hit_reason(r) && is_drop_reason(r)),
        !(is_miss_reason(r) && is_drop_reason(r)),
{
}

/// Stable reason attached to sleep/wake transitions.
#[derive(Clone, Copy, Debug, PartialEq, Eq, Structural, PartialOrd, Ord, Hash)]
pub enum SleepTransitionReason {
    /// Older payloads did not include a reason.
    Unknown,
    /// The full island stayed below motion thresholds for the configured stability window.
    StabilityWindow,
    /// A non-sensor contact solver row produced a normal impulse against a sleeping body.
    Impact,
    /// Residual contact position correction moved a sleeping body.
    ContactImpulse,
    /// A joint constraint correction moved a sleeping body.
    JointCorrection,
    /// User code edited a sleeping body's transform.
    TransformEdit,
    /// User code edited a sleeping body's velocity.
    VelocityEdit,
    /// User code explicitly woke or otherwise patched a sleeping body.
    UserPatch,
    /// Sleep was disabled at the world or step level.
    SleepDisabled,
}

impl Default for SleepTransitionReason {
    fn default() -> (r: Self)
        ensures
            r == SleepTransitionReason::Unknown,
    {
        SleepTransitionReason::Unknown
    }
}

/// Sleep or wake transitions for a body.
#[derive(Clone, Copy, Debug, PartialEq, Eq, Structural, Hash)]
pub struct SleepEvent {
    /// Stable handle for the affected body.
    pub body: BodyHandle,
    /// The body's sleep state after the step completed.
    pub is_sleeping: bool,
    /// Deterministic island id assigned during this step's sleep phase.
    pub island_id: u32,
    /// Why this body changed sleep state.
    pub reason: SleepTransitionReason,
}

impl Default for SleepEvent {
    fn default() -> (r: Self)
        ensures
            r.body@ == crate::handles::INVALID_RAW,
            !r.is_sleeping,
            r.island_id == 0,
            r.reason == SleepTransitionReason::Unknown,
    {
        SleepEvent {
            body: BodyHandle::invalid(),
            is_sleeping: false,
            island_id: 0,
            reason: SleepTransitionReason::Unknown,
        }
    }
}

/// Explicit notice that the pipeline detected and contained non-finite math.
#[derive(Clone, Debug, PartialEq, Eq)]
pub struct NumericsWarningEvent {
    /// Broad pipeline phase that detected the invalid numeric value.
    pub phase: String,
    /// Short stable reason string for downstream debugging.
    pub detail: String,
}

} // verus!
