//! Cores, registers, and raw memory.

use rapid_arm_emu::a64::{u64_to_usize, Arm64CpuCore};
use rapid_arm_emu::armv9::{AfterRun, Armv9CpuCore, Next, ProcessorState, Vector};
use rapid_arm_emu::cpu_fabric::CpuFabric;
use rapid_arm_emu::emu_abi::exec_state::{ExecState, PState};
use rapid_arm_emu::emu_abi::internal_traits::InitInPlace;
use rapid_arm_emu::halt_reason::{HaltReason, HaltReasonInner};
use rapid_arm_emu::host_memory::HostMemory;
use rapid_arm_emu::io_mmu::IoMMU;
use rapid_arm_emu::le::to_le_bytes;
use rapid_arm_emu::mmu::MMU;
use rapid_arm_emu::tear_mem_ops::{
    load_le_16_aligned, load_le_32_aligned, load_le_64_aligned, load_le_8_aligned,
    store_le_16_aligned, store_le_32_aligned, store_le_64_aligned, store_le_8_aligned,
};
use rapid_arm_emu::vaddr::VAddr;

const INVALIDATE: u32 = HaltReasonInner::INVALIDATE_INSN_CACHE;
const STEP: u32 = HaltReasonInner::STEP;
const BREAKPOINT: u32 = 0b100;

fn reasons(bits: u32) -> HaltReasonInner {
    HaltReasonInner { bits }
}

fn after_run(bits: u32, step: bool) -> AfterRun {
    Armv9CpuCore::after_run(reasons(bits), step)
}

#[test]
fn a_core_starts_with_zero_registers() {
    let state = ProcessorState::initial();
    assert_eq!((state.sp, state.pc), (0, 0));
    assert_eq!(state.x_registers, [0; 31]);
    assert_eq!((state.pstate, state.fpsr, state.fpcr), (0, 0, 0));
    assert_eq!(state.vectors, [Vector(0); 32]);

    let state = ExecState::initial();
    assert_eq!((state.sp, state.pc, state.pstate), (0, 0, PState(0)));
    assert_eq!(state.x_registers, [0; 31]);
    assert_eq!(PState::default(), PState(0));
    assert_eq!(PState::N | PState::Z | PState::C | PState::V, PState::NZCV_MASK);
}

#[test]
fn invalidation_alone_does_not_stop_a_core() {
    let again = AfterRun { invalidate: true, next: Next::RunAgain };
    assert_eq!(after_run(INVALIDATE, false), again);
    assert_eq!(after_run(INVALIDATE, true), again);
}

#[test]
fn reasons_stop_a_core() {
    let breakpoint = Some(HaltReason { bits: BREAKPOINT });
    assert_eq!(
        after_run(BREAKPOINT, false),
        AfterRun { invalidate: false, next: Next::Stop(breakpoint) }
    );
    assert_eq!(
        after_run(BREAKPOINT | INVALIDATE | STEP, true),
        AfterRun { invalidate: true, next: Next::Stop(breakpoint) }
    );
}

#[test]
fn a_step_stops_without_a_reason_to_report() {
    assert_eq!(
        after_run(STEP, true),
        AfterRun { invalidate: false, next: Next::Stop(None) }
    );
    assert_eq!(
        after_run(STEP, false),
        AfterRun { invalidate: false, next: Next::RunAgain }
    );
}

#[test]
fn halting_adds_reasons() {
    let mut core = Armv9CpuCore::new(IoMMU { mmu: MMU::new(), generation: 7 });
    assert_eq!(core.mmu().get_generation(), 7);
    core.mmu_mut().generation = 8;
    assert_eq!(core.mmu().get_generation(), 8);
    assert!(core.halt_reason.is_empty());
    core.halt(HaltReason { bits: BREAKPOINT });
    core.request_step();
    assert_eq!(core.halt_reason, reasons(BREAKPOINT | STEP));
    assert!(core.halt_reason.contains(STEP));
    assert!(!core.halt_reason.contains(INVALIDATE));
}

#[test]
fn the_64_bit_core_stops_unless_only_its_cache_is_stale() {
    let decided = Arm64CpuCore::after_run(reasons(INVALIDATE));
    assert!(decided.clear_instruction_cache);
    assert_eq!(decided.stop, None);

    let decided = Arm64CpuCore::after_run(reasons(INVALIDATE | BREAKPOINT));
    assert!(decided.clear_instruction_cache);
    assert_eq!(decided.stop, Some(reasons(INVALIDATE | BREAKPOINT)));

    let decided = Arm64CpuCore::after_run(reasons(BREAKPOINT));
    assert!(!decided.clear_instruction_cache);
    assert_eq!(decided.stop, Some(reasons(BREAKPOINT)));
}

#[test]
fn the_64_bit_core_holds_its_memory() {
    let mut core = Arm64CpuCore::new(MMU::new(), CpuFabric::new());
    assert_eq!(core.executing.x_registers, [0; 31]);
    assert!(core.mmu().pages.is_empty());
    core.mmu_mut().pages.push(rapid_arm_emu::mmu::Page::unmapped());
    assert_eq!(core.mmu().pages.len(), 1);
    core.halt(HaltReason { bits: BREAKPOINT });
    assert_eq!(core.halt_reason, reasons(BREAKPOINT));
}

#[test]
fn values_are_put_in_place() {
    let mut place: Option<PState> = Some(PState(9));
    *PState::init(&mut place) = PState(4);
    assert_eq!(place, Some(PState(4)));
    let mut place: Option<PState> = None;
    assert_eq!(*PState::init(&mut place), PState(0));
}

#[test]
fn aligned_accesses_are_little_endian() {
    let mut memory = HostMemory::new(32);
    store_le_64_aligned(&mut memory, 8, 0x0123_4567_89ab_cdef);
    assert_eq!(memory.bytes[8..16], 0x0123_4567_89ab_cdef_u64.to_le_bytes());
    assert_eq!(load_le_64_aligned(&memory, 8), 0x0123_4567_89ab_cdef);
    assert_eq!(load_le_32_aligned(&memory, 12), 0x0123_4567);
    assert_eq!(load_le_16_aligned(&memory, 10), 0x89ab);
    assert_eq!(load_le_8_aligned(&memory, 15), 0x01);

    store_le_32_aligned(&mut memory, 16, 0xdead_beef);
    store_le_16_aligned(&mut memory, 20, 0x1234);
    store_le_8_aligned(&mut memory, 22, 0x56);
    assert_eq!(memory.bytes[16..24], [0xef, 0xbe, 0xad, 0xde, 0x34, 0x12, 0x56, 0]);
}

#[test]
fn values_are_taken_apart_into_bytes() {
    assert_eq!(to_le_bytes(0x0123_4567_89ab_cdef, 8), 0x0123_4567_89ab_cdef_u64.to_le_bytes());
    assert_eq!(to_le_bytes(0xbeef, 2), [0xef, 0xbe]);
}

#[test]
fn addresses_know_their_page() {
    assert_eq!(0x1_2345u64.div_rem_page_size(), (0x12, 0x345));
    assert!(VAddr::is_page_aligned(0x2000u64));
    assert!(!VAddr::is_page_aligned(0x2001u64));
    assert_eq!(5u64.add_offset(7), Some(12));
    assert_eq!(u64::MAX.add_offset(1), None);
    assert_eq!(u64::MAX.add_addr(1), None);
    assert_eq!(VAddr::inc(6u64), Some(7));
    assert_eq!(VAddr::inc(u64::MAX), None);
    assert!(VAddr::is_multiple_of(12u64, 4));
    assert!(VAddr::is_multiple_of(0u64, 0));
    assert!(!VAddr::is_multiple_of(1u64, 0));
    assert_eq!(u64_to_usize(123_456), Some(123_456));
}
