//! The ARMv9 core.

use vstd::prelude::*;
use crate::halt_reason;
use crate::halt_reason::{HaltReason, HaltReasonInner};
use crate::io_mmu::IoMMU;

verus! {

/// A vector register.
#[derive(Clone, Copy, PartialEq, Eq, Structural, Debug)]
pub struct Vector(pub u128);

/// The registers of the core.
pub struct ProcessorState {
    pub sp: u64,
    pub pc: u64,
    pub x_registers: [u64; 31],
    pub pstate: u32,
    pub fpsr: u32,
    pub fpcr: u32,
    pub vectors: [Vector; 32],
}

impl ProcessorState {
    /// All registers are zero.
    pub open spec fn is_initial(self) -> bool {
        &&& self.sp == 0
        &&& self.pc == 0
        &&& forall|i: int| 0 <= i < 31 ==> #[trigger] self.x_registers@[i] == 0
        &&& self.pstate == 0
        &&& self.fpsr == 0
        &&& self.fpcr == 0
        &&& forall|i: int| 0 <= i < 32 ==> #[trigger] self.vectors@[i] == Vector(0)
    }

    /// The registers at reset.
    pub fn initial() -> (r: Self)
        ensures
            r.is_initial(),
    {
        ProcessorState {
            sp: 0,
            pc: 0,
            x_registers: [0u64; 31],
            pstate: 0,
            fpsr: 0,
            fpcr: 0,
            vectors: [Vector(0); 32],
        }
    }
}

/// What the run loop does once the code cache has returned.
#[derive(Clone, Copy, PartialEq, Eq, Structural, Debug)]
pub struct AfterRun {
    /// Invalidate what the MMU says was changed, before anything else.
    pub invalidate: bool,
    pub next: Next,
}

/// How the run loop goes on.
#[derive(Clone, Copy, PartialEq, Eq, Structural, Debug)]
pub enum Next {
    RunAgain,
    Stop(Option<HaltReason>),
}

/// What the run loop does after a run that ended for the reasons `halt_reason`.
pub open spec fn spec_after_run(halt_reason: HaltReasonInner, step: bool) -> AfterRun {
    let invalidate = halt_reason.has(HaltReasonInner::INVALIDATE_INSN_CACHE);
    let only_invalidate = invalidate && halt_reason.bits ^ HaltReasonInner::INVALIDATE_INSN_CACHE
        == 0;
    let reason = halt_reason::reported(halt_reason);
    AfterRun {
        invalidate,
        next: if !only_invalidate && (reason is Some || step) {
            Next::Stop(reason)
        } else {
            Next::RunAgain
        },
    }
}

/// An ARMv9 core.
pub struct Armv9CpuCore {
    pub mmu: IoMMU,
    pub halt_reason: HaltReasonInner,
    pub processor_state: ProcessorState,
}

impl Armv9CpuCore {
    /// A core at reset.
    pub fn new(mmu: IoMMU) -> (r: Self)
        ensures
            r.mmu == mmu,
            r.halt_reason.bits == 0,
            r.processor_state.is_initial(),
    {
        Armv9CpuCore {
            mmu,
            halt_reason: HaltReasonInner::empty(),
            processor_state: ProcessorState::initial(),
        }
    }

    /// The core's memory.
    pub fn mmu(&self) -> (r: &IoMMU)
        ensures
            *r == self.mmu,
    {
        &self.mmu
    }

    /// The core's memory, to be changed.
    pub fn mmu_mut(&mut self) -> (r: &mut IoMMU)
        ensures
            *r == old(self).mmu,
            *final(self) == (Armv9CpuCore { mmu: *final(r), ..*old(self) }),
    {
        &mut self.mmu
    }

    /// Asks the core to halt for `reason`.
    pub fn halt(&mut self, reason: HaltReason)
        ensures
            final(self).halt_reason.bits == old(self).halt_reason.bits | reason.bits,
            final(self).mmu == old(self).mmu,
            final(self).processor_state == old(self).processor_state,
    {
        self.halt_reason.add_reasons(reason.into_inner());
    }

    /// Asks the core to halt after one instruction.
    pub fn request_step(&mut self)
        ensures
            final(self).halt_reason.bits == old(self).halt_reason.bits | HaltReasonInner::STEP,
            final(self).mmu == old(self).mmu,
            final(self).processor_state == old(self).processor_state,
    {
        self.halt_reason.add_reasons(HaltReasonInner { bits: HaltReasonInner::STEP });
    }

    /// Decides what the run loop does after a run that ended for the reasons
    /// `halt_reason`; `step` says whether one instruction was asked for.
    ///
    /// A run that ended only to have the instruction cache invalidated goes on. Any
    /// other run ends the loop if there is something to report, or if one
    /// instruction was asked for.
    pub fn after_run(halt_reason: HaltReasonInner, step: bool) -> (r: AfterRun)
        ensures
            r == spec_after_run(halt_reason, step),
    {
        let invalidate = halt_reason.contains(HaltReasonInner::INVALIDATE_INSN_CACHE);
        if invalidate && halt_reason.bits ^ HaltReasonInner::INVALIDATE_INSN_CACHE == 0 {
            return AfterRun { invalidate, next: Next::RunAgain };
        }
        let reason = HaltReason::from_inner(halt_reason);
        if reason.is_some() || step {
            AfterRun { invalidate, next: Next::Stop(reason) }
        } else {
            AfterRun { invalidate, next: Next::RunAgain }
        }
    }
}

/// A core that runs freely never stops without a reason to report.
pub proof fn resuming_always_reports(halt_reason: HaltReasonInner)
    ensures
        spec_after_run(halt_reason, false).next matches Next::Stop(reason) ==> reason is Some,
{
}

/// A reason to report always stops the core, and is reported as it is.
pub proof fn reasons_are_reported(halt_reason: HaltReasonInner, step: bool)
    requires
        halt_reason::reported(halt_reason) is Some,
    ensures
        spec_after_run(halt_reason, step).next == Next::Stop(halt_reason::reported(halt_reason)),
{
    let b = halt_reason.bits;
    assert(b & !3u32 != 0 ==> b ^ 1u32 != 0) by (bit_vector);
}

/// What a run that ended for the reasons `halt_reason` leads to, said of the reasons alone.
///
/// The lowest two reasons, to invalidate the instruction cache and to stop after one
/// instruction, are the emulator's own, so there is something to report exactly where the
/// number of the reasons is four or more.
/// - Where one instruction was asked for, the loop goes on exactly if the invalidation is the
///   only reason. With any other set of reasons, one that holds the step and the invalidation
///   too, it stops.
/// - Where the core runs freely, the loop goes on exactly if there is nothing to report.
/// - The instruction cache is invalidated exactly if that is among the reasons.
/// - What is reported is all reasons but the emulator's own.
pub proof fn stepping_stops_unless_only_invalidated(
    halt_reason: HaltReasonInner,
    step: bool,
    r: AfterRun,
)
    requires
        call_ensures(Armv9CpuCore::after_run, (halt_reason, step), r),
    ensures
        r.invalidate == (halt_reason.bits % 2 == 1),
        step ==> (r.next is RunAgain <==> halt_reason.bits == 1),
        !step ==> (r.next is RunAgain <==> halt_reason.bits < 4),
        r.next matches Next::Stop(reported) ==> match reported {
            Some(reason) => halt_reason.bits >= 4 && reason.bits == halt_reason.bits
                - halt_reason.bits % 4,
            None => step && halt_reason.bits < 4,
        },
{
    let b = halt_reason.bits;
    assert((b & 1u32 == 1u32 <==> b % 2 == 1) && (b ^ 1u32 == 0u32 <==> b == 1) && b & !3u32 == b - b
        % 4 && (b & !3u32 == 0u32 <==> b < 4)) by (bit_vector);
}

/// A step ends after a run that ended because one instruction was done, whatever else was
/// asked for meanwhile: adding reasons to the step never makes the loop go on.
pub proof fn a_step_is_over_once_done(halt_reason: HaltReasonInner, r: AfterRun)
    requires
        halt_reason.bits & HaltReasonInner::STEP == HaltReasonInner::STEP,
        call_ensures(Armv9CpuCore::after_run, (halt_reason, true), r),
    ensures
        r.next is Stop,
{
    let b = halt_reason.bits;
    assert(b & 2u32 == 2u32 ==> b != 1) by (bit_vector);
    stepping_stops_unless_only_invalidated(halt_reason, true, r);
}

/// A core that was asked to halt for a reason stops once it has run, and reports that reason
/// and all the others that it was asked to halt for.
pub proof fn halting_stops_the_core(
    before: Armv9CpuCore,
    after: Armv9CpuCore,
    reason: HaltReason,
    step: bool,
    r: AfterRun,
)
    requires
        exists|core: &mut Armv9CpuCore|
            *core == before && *final(core) == after && #[trigger] call_ensures(
                Armv9CpuCore::halt,
                (core, reason),
                (),
            ),
        reason.bits >= 4,
        call_ensures(Armv9CpuCore::after_run, (after.halt_reason, step), r),
    ensures
        r.next matches Next::Stop(Some(reported)) && forall|flag: u32|
            4 <= flag && flag % 4 == 0 ==> (#[trigger] (reported.bits & flag) == flag <==> (
            before.halt_reason.bits | reason.bits) & flag == flag),
        after.mmu == before.mmu,
        after.processor_state == before.processor_state,
{
    let a = before.halt_reason.bits;
    let b = reason.bits;
    let c = after.halt_reason.bits;
    assert(c == a | b);
    assert(b >= 4 ==> (a | b) >= 4) by (bit_vector);
    stepping_stops_unless_only_invalidated(after.halt_reason, step, r);
    let d = r.next->Stop_0->0.bits;
    assert forall|flag: u32| 4 <= flag && flag % 4 == 0 implies (#[trigger] (d & flag) == flag <==> (a
        | b) & flag == flag) by {
        assert(flag % 4 == 0 && d == c - c % 4 ==> d & flag == c & flag) by (bit_vector);
    }
}

/// A fresh core has been asked for nothing, has the memory that it was given, and all its
/// registers are zero.
pub proof fn cores_start_at_zero(mmu: IoMMU, r: Armv9CpuCore)
    requires
        call_ensures(Armv9CpuCore::new, (mmu,), r),
    ensures
        r.mmu == mmu,
        r.halt_reason.bits == 0,
        r.processor_state.sp == 0,
        r.processor_state.pc == 0,
        r.processor_state.pstate == 0,
        r.processor_state.fpsr == 0,
        r.processor_state.fpcr == 0,
        forall|i: int| 0 <= i < 31 ==> #[trigger] r.processor_state.x_registers@[i] == 0,
        forall|i: int| 0 <= i < 32 ==> (#[trigger] r.processor_state.vectors@[i]).0 == 0,
{
}

/// A core that was asked for one instruction has the step among its reasons, besides those that
/// it had, and nothing else has changed. Once it has run, the step is over.
pub proof fn steps_are_requested(
    before: Armv9CpuCore,
    after: Armv9CpuCore,
    r: AfterRun,
)
    requires
        exists|core: &mut Armv9CpuCore|
            *core == before && *final(core) == after && #[trigger] call_ensures(
                Armv9CpuCore::request_step,
                (core,),
                (),
            ),
        call_ensures(Armv9CpuCore::after_run, (after.halt_reason, true), r),
    ensures
        after.halt_reason.bits == if before.halt_reason.bits / 2 % 2 == 1 {
            before.halt_reason.bits as int
        } else {
            before.halt_reason.bits + 2
        },
        after.mmu == before.mmu,
        after.processor_state == before.processor_state,
        r.next is Stop,
{
    let b = before.halt_reason.bits;
    assert((b | 2u32) & 2u32 == 2u32 && (b | 2u32) != 1 && (if b / 2 % 2 == 1 {
        (b | 2u32) == b
    } else {
        (b | 2u32) - b == 2
    })) by (bit_vector);
    stepping_stops_unless_only_invalidated(after.halt_reason, true, r);
}

} // verus!
