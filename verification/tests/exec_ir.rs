//! Compilation and the memory accesses of compiled code.

use rapid_arm_emu::emu_abi::exec_state::ExecState;
use rapid_arm_emu::emu_abi::memory::{PageNumber, Tlb, TlbEntry};
use rapid_arm_emu::exec_ir::compiler::{
    Backend, CompileTier, CompiledExecChunk, ExecIrCompiler, ExecStateExtra, MemFaultMetadata,
};
use rapid_arm_emu::exec_ir::ffi_support::{
    io_mmu_load16_le, io_mmu_load32_le, io_mmu_load64_le, io_mmu_load_byte, io_mmu_store16_le,
    io_mmu_store32_le, io_mmu_store64_le, io_mmu_store_byte, IoMmuStatus,
};
use rapid_arm_emu::host_memory::HostMemory;
use rapid_arm_emu::io_mmu::IoMMU;
use rapid_arm_emu::mmu::flags::{MemoryProtections, PageFlags};
use rapid_arm_emu::mmu::MMU;
use std::sync::atomic::{AtomicU32, Ordering};

#[test]
fn every_compilation_has_a_name_of_its_own() {
    let mut compiler = ExecIrCompiler::default();
    let mut names = vec![];
    for _ in 0..12 {
        names.push(compiler.next_options().function_name);
    }
    assert_eq!(names[0], "exec_chunk_0");
    assert_eq!(names[9], "exec_chunk_9");
    assert_eq!(names[10], "exec_chunk_10");
    assert_eq!(names[11], "exec_chunk_11");
}

#[test]
fn the_largest_number_is_written_out_and_wraps() {
    let mut compiler = ExecIrCompiler { next_function_id: usize::MAX, show_disasm: false };
    assert_eq!(
        compiler.next_options().function_name,
        format!("exec_chunk_{}", usize::MAX)
    );
    assert_eq!(compiler.next_options().function_name, "exec_chunk_0");
}

#[test]
fn tiers_pick_backends() {
    assert_eq!(
        ExecIrCompiler::backend(CompileTier::Tier1),
        Backend::Cranelift { optimized: false }
    );
    assert_eq!(
        ExecIrCompiler::backend(CompileTier::Tier2),
        Backend::Cranelift { optimized: true }
    );
    assert_eq!(ExecIrCompiler::backend(CompileTier::GccJit), Backend::GccJit);
    assert_eq!(ExecIrCompiler::backend(CompileTier::LLVM), Backend::LLVM);
}

fn extra(was_real_memory_trap: bool) -> ExecStateExtra {
    ExecStateExtra { mem_fault_metadata: MemFaultMetadata { was_real_memory_trap } }
}

#[test]
fn the_backend_gets_ir_and_options_and_its_result_comes_back() {
    let mut compiler = ExecIrCompiler::default().with_show_disassmbly();
    let chunk = compiler.compile(4u64, CompileTier::Tier2, |backend, options, ir| {
        assert_eq!(backend, Backend::Cranelift { optimized: true });
        assert_eq!(options.function_name, "exec_chunk_0");
        assert!(options.show_disasm);
        Ok::<_, String>(CompiledExecChunk {
            ffi: move |state: &mut ExecState,
                       _extra: &mut ExecStateExtra,
                       tlb: &mut Tlb,
                       halt_reason: &AtomicU32,
                       io_mmu: &mut IoMMU,
                       host: &mut HostMemory| {
                state.pc += ir;
                io_mmu_store_byte(io_mmu, host, tlb, 3, 0x42);
                halt_reason.fetch_or(2, Ordering::Relaxed)
            },
        })
    });
    let mut m = machine(READ_WRITE);
    let mut state = ExecState::initial();
    let halt_reason = AtomicU32::new(9);
    let code = chunk.call(
        &mut state,
        &mut extra(false),
        &mut m.tlb,
        &halt_reason,
        &mut m.io_mmu,
        &mut m.host,
    );
    assert_eq!(state.pc, 4);
    assert_eq!(m.host.bytes[3], 0x42);
    assert_eq!(m.tlb.entries[0], remembered(0, 0, READ_WRITE));
    assert_eq!(code, 9);
    // What the code writes to the shared cell stays there.
    assert_eq!(halt_reason.into_inner(), 11);

    let failed = compiler.try_compile(4u64, CompileTier::LLVM, |backend, options, _| {
        assert_eq!(backend, Backend::LLVM);
        assert_eq!(options.function_name, "exec_chunk_1");
        Err::<CompiledExecChunk<()>, _>("no such backend")
    });
    assert!(matches!(failed, Err("no such backend")));
    assert_eq!(compiler.next_function_id, 2);
}

#[test]
fn a_pending_fault_keeps_a_chunk_from_running() {
    assert!(CompiledExecChunk::<()>::may_call(&extra(false)));
    assert!(!CompiledExecChunk::<()>::may_call(&extra(true)));
}

const PAGE: u64 = 4096;

struct Machine {
    io_mmu: IoMMU,
    host: HostMemory,
    tlb: Tlb,
}

fn machine(protections: u8) -> Machine {
    let mut mmu = MMU::<u64>::new();
    mmu.map_memory(0, 0, 2 * PAGE, MemoryProtections::from_bits_retain(protections))
        .unwrap();
    Machine {
        io_mmu: IoMMU { mmu, generation: 5 },
        host: HostMemory::new(2 * PAGE as usize),
        tlb: Tlb { entries: vec![TlbEntry::empty(); 4] },
    }
}

const READ_WRITE: u8 = MemoryProtections::READ | MemoryProtections::WRITE;

fn remembered(page: u64, ptr: usize, page_flags: u8) -> TlbEntry {
    TlbEntry { generation: 5, page_number: PageNumber(page), ptr: Some(ptr), page_flags }
}

#[test]
fn bytes_are_stored_loaded_and_remembered() {
    let mut m = machine(READ_WRITE);
    assert_eq!(
        io_mmu_store_byte(&mut m.io_mmu, &mut m.host, &mut m.tlb, PAGE + 3, 0x7f),
        IoMmuStatus::Success
    );
    let mut out = 0;
    assert_eq!(
        io_mmu_load_byte(&m.io_mmu, &m.host, &mut m.tlb, PAGE + 3, &mut out),
        IoMmuStatus::Success
    );
    assert_eq!(out, 0x7f);
    assert_eq!(m.tlb.entries[1], remembered(1, PAGE as usize, READ_WRITE));
    assert_eq!(m.tlb.entries[0], TlbEntry::empty());
}

#[test]
fn words_across_pages_are_loaded_and_both_pages_remembered() {
    let mut m = machine(READ_WRITE);
    let addr = PAGE - 3;
    assert_eq!(
        io_mmu_store64_le(&mut m.io_mmu, &mut m.host, &mut m.tlb, addr, 0x0123_4567_89ab_cdef),
        IoMmuStatus::Success
    );
    assert_eq!(m.tlb.entries[0], remembered(0, 0, READ_WRITE));
    assert_eq!(m.tlb.entries[1], remembered(1, PAGE as usize, READ_WRITE));

    let mut out64 = 0;
    assert_eq!(
        io_mmu_load64_le(&m.io_mmu, &m.host, &mut m.tlb, addr, &mut out64),
        IoMmuStatus::Success
    );
    assert_eq!(out64, 0x0123_4567_89ab_cdef);
    let mut out32 = 0;
    assert_eq!(
        io_mmu_load32_le(&m.io_mmu, &m.host, &mut m.tlb, addr, &mut out32),
        IoMmuStatus::Success
    );
    assert_eq!(out32, 0x89ab_cdef);
    let mut out16 = 0;
    assert_eq!(
        io_mmu_load16_le(&m.io_mmu, &m.host, &mut m.tlb, addr, &mut out16),
        IoMmuStatus::Success
    );
    assert_eq!(out16, 0xcdef);
}

#[test]
fn narrow_stores_write_only_their_bytes() {
    let mut m = machine(READ_WRITE);
    assert_eq!(
        io_mmu_store32_le(&mut m.io_mmu, &mut m.host, &mut m.tlb, 8, 0xdead_beef),
        IoMmuStatus::Success
    );
    assert_eq!(
        io_mmu_store16_le(&mut m.io_mmu, &mut m.host, &mut m.tlb, 10, 0x1234),
        IoMmuStatus::Success
    );
    assert_eq!(m.host.bytes[8..13], [0xef, 0xbe, 0x34, 0x12, 0]);
}

#[test]
fn faulting_accesses_change_nothing() {
    let mut m = machine(MemoryProtections::READ);
    assert_eq!(
        io_mmu_store_byte(&mut m.io_mmu, &mut m.host, &mut m.tlb, 0, 1),
        IoMmuStatus::Fault
    );
    let mut out = 0x55;
    assert_eq!(
        io_mmu_load_byte(&m.io_mmu, &m.host, &mut m.tlb, 2 * PAGE, &mut out),
        IoMmuStatus::Fault
    );
    assert_eq!(out, 0x55);
    let mut out = 0x77;
    assert_eq!(
        io_mmu_load64_le(&m.io_mmu, &m.host, &mut m.tlb, 2 * PAGE - 1, &mut out),
        IoMmuStatus::Fault
    );
    assert_eq!(out, 0x77);
    assert_eq!(m.host.bytes[0], 0);
    assert!(m.tlb.entries.iter().all(|entry| *entry == TlbEntry::empty()));
}

#[test]
fn the_low_bits_of_a_page_number_pick_its_entry() {
    let mut mmu = MMU::<u64>::new();
    mmu.map_memory(6 * PAGE, 0, PAGE, MemoryProtections::from_bits_retain(READ_WRITE))
        .unwrap();
    let io_mmu = IoMMU { mmu, generation: 5 };
    let host = HostMemory::new(PAGE as usize);
    let mut tlb = Tlb { entries: vec![TlbEntry::empty(); 4] };
    let mut out = 0;
    assert_eq!(
        io_mmu_load_byte(&io_mmu, &host, &mut tlb, 6 * PAGE, &mut out),
        IoMmuStatus::Success
    );
    assert_eq!(tlb.entries[2], remembered(6, 0, READ_WRITE));
}

#[test]
fn a_store_to_code_is_remembered_as_dirty() {
    let mut m = machine(READ_WRITE | MemoryProtections::EXECUTE);
    assert_eq!(
        io_mmu_store_byte(&mut m.io_mmu, &mut m.host, &mut m.tlb, 0, 1),
        IoMmuStatus::Success
    );
    assert!(m.io_mmu.mmu.pages[0].load_flags().contains(PageFlags::INSN_DIRTY));
}

#[test]
fn compiled_code_reads_zero_for_success() {
    assert_eq!(IoMmuStatus::Success.code(), 0);
    assert_eq!(IoMmuStatus::Fault.code(), 1);
}
