//! The 64-bit core.

use vstd::prelude::*;
use crate::a64::VAddr;
use crate::cpu_fabric::CpuFabric;
use crate::halt_reason::{HaltReason, HaltReasonInner};
use crate::mmu::MMU;

verus! {

/// A vector register.
#[derive(Clone, Copy, PartialEq, Eq, Structural, Debug)]
pub struct Vector(pub u128);

/// The registers of the core.
pub struct ExecutingData {
    pub sp: u64,
    pub pc: u64,
    pub x_registers: [u64; 31],
    pub pstate: u32,
    pub fpsr: u32,
    pub fpcr: u32,
    pub vectors: [Vector; 32],
}

impl ExecutingData {
    /// All registers are zero.
    pub open spec fn is_initial(self) -> bool {
        &&& self.sp == 0
        &&& self.pc == 0
        &&& forall|i: int| 0 <= i < 31 ==> #[trigger] self.x_registers@[i] == 0
        &&& self.pstate == 0
        &&& self.fpsr == 0
        &&& self.fpcr == 0
        &&& forall|i: int| 0 <= i < 32 ==> #[trigger] self.vectors@[i] == Vector(0)
    }
}

/// What the run loop does once a run has ended.
#[derive(Clone, Copy, PartialEq, Eq, Structural, Debug)]
pub struct AfterRun {
    /// Clear the instruction cache, before anything else.
    pub clear_instruction_cache: bool,
    /// The reasons to stop for; none where the core runs on.
    pub stop: Option<HaltReasonInner>,
}

/// A 64-bit core.
pub struct Arm64CpuCore {
    pub mmu: MMU<VAddr>,
    pub fabric: CpuFabric<VAddr>,
    pub halt_reason: HaltReasonInner,
    pub executing: ExecutingData,
}

impl Arm64CpuCore {
    /// A core at reset.
    pub fn new(mmu: MMU<VAddr>, fabric: CpuFabric<VAddr>) -> (r: Self)
        ensures
            r.mmu == mmu,
            r.fabric == fabric,
            r.halt_reason.bits == 0,
            r.executing.is_initial(),
    {
        Arm64CpuCore {
            mmu,
            fabric,
            halt_reason: HaltReasonInner::empty(),
            executing: ExecutingData {
                sp: 0,
                pc: 0,
                x_registers: [0u64; 31],
                pstate: 0,
                fpsr: 0,
                fpcr: 0,
                vectors: [Vector(0); 32],
            },
        }
    }

    /// The core's memory.
    pub fn mmu(&self) -> (r: &MMU<VAddr>)
        ensures
            *r == self.mmu,
    {
        &self.mmu
    }

    /// The core's memory, to be changed.
    pub fn mmu_mut(&mut self) -> (r: &mut MMU<VAddr>)
        ensures
            *r == old(self).mmu,
            *final(self) == (Arm64CpuCore { mmu: *final(r), ..*old(self) }),
    {
        &mut self.mmu
    }

    /// Decides what the run loop does after a run that ended for the reasons
    /// `halt_reason`: a run that ended only to have the instruction cache cleared goes
    /// on, and any other run ends the loop.
    pub fn after_run(halt_reason: HaltReasonInner) -> (r: AfterRun)
        ensures
            r.clear_instruction_cache == halt_reason.has(HaltReasonInner::INVALIDATE_INSN_CACHE),
            r.stop == if halt_reason.bits == HaltReasonInner::INVALIDATE_INSN_CACHE {
                None
            } else {
                Some(halt_reason)
            },
    {
        let clear_instruction_cache = halt_reason.contains(
            HaltReasonInner::INVALIDATE_INSN_CACHE,
        );
        proof {
            let b = halt_reason.bits;
            assert((b & 1u32 == 1u32 && b ^ 1u32 == 0) <==> b == 1u32) by (bit_vector);
        }
        if clear_instruction_cache && halt_reason.bits ^ HaltReasonInner::INVALIDATE_INSN_CACHE
            == 0 {
            return AfterRun { clear_instruction_cache, stop: None };
        }
        AfterRun { clear_instruction_cache, stop: Some(halt_reason) }
    }

    /// Asks the core to halt for `reason`.
    pub fn halt(&mut self, reason: HaltReason)
        ensures
            *final(self) == (Arm64CpuCore {
                halt_reason: HaltReasonInner {
                    bits: old(self).halt_reason.bits | reason.bits,
                },
                ..*old(self)
            }),
    {
        self.halt_reason.add_reasons(reason.into_inner());
    }
}

/// The loop goes on exactly if the only reason was to have the instruction cache cleared. It
/// stops with any other set of reasons, and then hands on all of them.
pub proof fn only_clearing_the_cache_goes_on(halt_reason: HaltReasonInner, r: AfterRun)
    requires
        call_ensures(Arm64CpuCore::after_run, (halt_reason,), r),
    ensures
        r.stop is None <==> halt_reason.bits == 1,
        r.stop matches Some(reasons) ==> reasons.bits == halt_reason.bits,
        r.clear_instruction_cache <==> halt_reason.bits % 2 == 1,
{
    let b = halt_reason.bits;
    assert(b & 1u32 == 1u32 <==> b % 2 == 1) by (bit_vector);
}

/// A core that was asked to halt for some reason stops once it has run, and hands that reason
/// on. Its memory and its registers are left alone.
pub proof fn halting_stops_the_core(
    before: Arm64CpuCore,
    after: Arm64CpuCore,
    reason: HaltReason,
    r: AfterRun,
)
    requires
        exists|core: &mut Arm64CpuCore|
            *core == before && *final(core) == after && #[trigger] call_ensures(
                Arm64CpuCore::halt,
                (core, reason),
                (),
            ),
        call_ensures(Arm64CpuCore::after_run, (after.halt_reason,), r),
    ensures
        reason.bits > 1 ==> r.stop is Some,
        r.stop matches Some(reasons) ==> reasons.bits & reason.bits == reason.bits
            && reasons.bits & before.halt_reason.bits == before.halt_reason.bits && reasons.bits & !(
        reason.bits | before.halt_reason.bits) == 0,
        after.mmu == before.mmu,
        after.fabric == before.fabric,
        after.executing == before.executing,
{
    let a = before.halt_reason.bits;
    let b = reason.bits;
    assert((b > 1 ==> a | b != 1) && (a | b) & b == b && (a | b) & a == a && (a | b) & !(b | a) == 0)
        by (bit_vector);
    only_clearing_the_cache_goes_on(after.halt_reason, r);
}

/// A fresh core has been asked for nothing, has the memory and the fabric that it was given, and
/// all its registers are zero.
pub proof fn cores_start_at_zero(mmu: MMU<VAddr>, fabric: CpuFabric<VAddr>, r: Arm64CpuCore)
    requires
        call_ensures(Arm64CpuCore::new, (mmu, fabric), r),
    ensures
        r.mmu == mmu,
        r.fabric == fabric,
        r.halt_reason.bits == 0,
        r.executing.sp == 0,
        r.executing.pc == 0,
        r.executing.pstate == 0,
        r.executing.fpsr == 0,
        r.executing.fpcr == 0,
        forall|i: int| 0 <= i < 31 ==> #[trigger] r.executing.x_registers@[i] == 0,
        forall|i: int| 0 <= i < 32 ==> (#[trigger] r.executing.vectors@[i]).0 == 0,
{
}

} // verus!
