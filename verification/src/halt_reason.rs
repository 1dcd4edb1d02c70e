//! Why a core stops.

use vstd::prelude::*;

verus! {

/// All reasons for which a core leaves its run loop, those that only the emulator
/// itself acts on included.
#[derive(Clone, Copy, PartialEq, Eq, Structural, Debug)]
pub struct HaltReasonInner {
    pub bits: u32,
}

/// The reasons that are reported to whoever runs the core.
#[derive(Clone, Copy, PartialEq, Eq, Structural, Debug)]
pub struct HaltReason {
    pub bits: u32,
}

impl HaltReasonInner {
    /// The instruction cache has to be invalidated.
    pub const INVALIDATE_INSN_CACHE: u32 = 0b01;

    /// One instruction was asked for.
    pub const STEP: u32 = 0b10;

    /// The reasons that only the emulator itself acts on.
    pub const INTERNAL: u32 = 0b11;

    /// No reason.
    pub fn empty() -> (r: Self)
        ensures
            r.bits == 0,
    {
        HaltReasonInner { bits: 0 }
    }

    /// Whether there is no reason.
    pub fn is_empty(&self) -> (r: bool)
        ensures
            r == (self.bits == 0),
    {
        self.bits == 0
    }

    /// The reason `flag` is among them.
    pub open spec fn has(self, flag: u32) -> bool {
        self.bits & flag == flag
    }

    /// Whether the reason `flag` is among them.
    pub fn contains(&self, flag: u32) -> (r: bool)
        ensures
            r == self.has(flag),
    {
        self.bits & flag == flag
    }

    /// Adds reasons.
    pub fn add_reasons(&mut self, reasons: HaltReasonInner)
        ensures
            final(self).bits == old(self).bits | reasons.bits,
    {
        self.bits = self.bits | reasons.bits;
    }
}

/// What is reported of `inner`.
pub open spec fn reported(inner: HaltReasonInner) -> Option<HaltReason> {
    if inner.bits & !HaltReasonInner::INTERNAL == 0 {
        None
    } else {
        Some(HaltReason { bits: inner.bits & !HaltReasonInner::INTERNAL })
    }
}

impl HaltReason {
    /// What is reported of `inner`: nothing, where only the emulator itself acts on it.
    pub fn from_inner(inner: HaltReasonInner) -> (r: Option<HaltReason>)
        ensures
            r == reported(inner),
    {
        let bits: u32 = inner.bits & !HaltReasonInner::INTERNAL;
        if bits == 0 {
            None
        } else {
            Some(HaltReason { bits })
        }
    }

    /// The reasons as the emulator keeps them.
    pub fn into_inner(self) -> (r: HaltReasonInner)
        ensures
            r.bits == self.bits,
    {
        HaltReasonInner { bits: self.bits }
    }
}

/// A reason that was added is among the reasons, and so are those that were there.
pub proof fn added_reasons_stay(before: HaltReasonInner, added: HaltReasonInner, flag: u32)
    ensures
        ({
            let after = HaltReasonInner { bits: before.bits | added.bits };
            (before.has(flag) || added.has(flag)) ==> after.has(flag)
        }),
{
    let a = before.bits;
    let b = added.bits;
    assert((a & flag == flag || b & flag == flag) ==> (a | b) & flag == flag) by (bit_vector);
}

/// Of a set of reasons everything is reported but the lowest two, which are the emulator's
/// own, and nothing where there is no other.
pub proof fn all_but_internal_reasons_are_reported(inner: HaltReasonInner, r: Option<HaltReason>)
    requires
        call_ensures(HaltReason::from_inner, (inner,), r),
    ensures
        r is None <==> inner.bits < 4,
        r matches Some(reason) ==> reason.bits == inner.bits - inner.bits % 4,
{
    let b = inner.bits;
    assert(b & !3u32 == b - b % 4 && (b & !3u32 == 0u32 <==> b < 4)) by (bit_vector);
}

/// What was reported can be handed back: it is reported as it was.
pub proof fn reports_are_stable(
    inner: HaltReasonInner,
    reported: HaltReason,
    back: HaltReasonInner,
    again: Option<HaltReason>,
)
    requires
        call_ensures(HaltReason::from_inner, (inner,), Some(reported)),
        call_ensures(HaltReason::into_inner, (reported,), back),
        call_ensures(HaltReason::from_inner, (back,), again),
    ensures
        again == Some(reported),
{
    all_but_internal_reasons_are_reported(inner, Some(reported));
    all_but_internal_reasons_are_reported(back, again);
}

/// After reasons were added, a reason is among them exactly if it was before or was added.
pub proof fn added_reasons_are_contained(
    before: HaltReasonInner,
    added: HaltReasonInner,
    after: HaltReasonInner,
    k: u32,
    was: bool,
    comes: bool,
    now: bool,
)
    requires
        k < 32,
        exists|reasons: &mut HaltReasonInner|
            *reasons == before && *final(reasons) == after && #[trigger] call_ensures(
                HaltReasonInner::add_reasons,
                (reasons, added),
                (),
            ),
        call_ensures(HaltReasonInner::contains, (&before, 1u32 << k), was),
        call_ensures(HaltReasonInner::contains, (&added, 1u32 << k), comes),
        call_ensures(HaltReasonInner::contains, (&after, 1u32 << k), now),
    ensures
        now == (was || comes),
        was == ((before.bits / (1u32 << k)) % 2 == 1),
{
    let a = before.bits;
    let b = added.bits;
    let f = 1u32 << k;
    assert(k < 32 && f == 1u32 << k ==> f != 0 && ((a | b) & f == f <==> a & f == f || b & f == f)
        && (a & f == f <==> (a / f) % 2 == 1)) by (bit_vector);
}

/// No reason at all is empty, and nothing else is.
pub proof fn only_no_reason_is_empty(none: HaltReasonInner, some: HaltReasonInner, r: bool)
    requires
        call_ensures(HaltReasonInner::empty, (), none),
        call_ensures(HaltReasonInner::is_empty, (&some,), r),
    ensures
        none.bits == 0,
        r <==> some.bits == 0,
        HaltReasonInner::INVALIDATE_INSN_CACHE == 1,
        HaltReasonInner::STEP == 2,
        HaltReasonInner::INTERNAL == 3,
{
}

} // verus!
