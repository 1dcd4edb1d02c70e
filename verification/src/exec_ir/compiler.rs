//! The front door of the compiler: names, options and the choice of a backend.

use vstd::prelude::*;
use vstd::string::StringExecFns;
use crate::decimal;
use crate::emu_abi::exec_state::ExecState;
use crate::emu_abi::memory::Tlb;
use crate::host_memory::HostMemory;
use crate::io_mmu::IoMMU;

verus! {

/// The symbol of the compiled chunk with the number `id`.
pub open spec fn chunk_name(id: usize) -> Seq<char> {
    "exec_chunk_"@ + decimal::decimal(id as nat)
}

/// How much work goes into a compilation, and who does it.
#[derive(Debug, Copy, Clone, Eq, PartialEq, Structural, Hash)]
pub enum CompileTier {
    Tier1,
    Tier2,
    GccJit,
    LLVM,
}

/// The compilers that may do the work.
#[derive(Debug, Copy, Clone, Eq, PartialEq, Structural, Hash)]
pub enum Backend {
    Cranelift { optimized: bool },
    GccJit,
    LLVM,
}

/// The backend of a tier.
pub open spec fn backend_of(tier: CompileTier) -> Backend {
    match tier {
        CompileTier::Tier1 => Backend::Cranelift { optimized: false },
        CompileTier::Tier2 => Backend::Cranelift { optimized: true },
        CompileTier::GccJit => Backend::GccJit,
        CompileTier::LLVM => Backend::LLVM,
    }
}

/// What a backend is told besides the IR.
pub struct CompileBlockOptions {
    pub function_name: String,
    pub show_disasm: bool,
}

/// Hands compilations to the backends. Every compilation gets a name of its own.
pub struct ExecIrCompiler {
    pub next_function_id: usize,
    pub show_disasm: bool,
}

impl Default for ExecIrCompiler {
    fn default() -> (r: Self)
        ensures
            r.next_function_id == 0,
            r.show_disasm == false,
    {
        ExecIrCompiler { next_function_id: 0, show_disasm: false }
    }
}

/// `r` is what `compile` returned for a chunk of the compiler `before`.
pub open spec fn compiled_by<F, I, R>(
    before: ExecIrCompiler,
    compile: F,
    exec_ir: I,
    tier: CompileTier,
    r: R,
) -> bool where F: FnOnce(Backend, CompileBlockOptions, I) -> R {
    exists|options: CompileBlockOptions| #[trigger]
        compile.ensures((backend_of(tier), options, exec_ir), r) && options.function_name@
            == chunk_name(before.next_function_id) && options.show_disasm == before.show_disasm
}

/// `compile` compiles `exec_ir` for `tier`, whatever the options.
pub open spec fn never_fails<F, I, C, E>(compile: F, exec_ir: I, tier: CompileTier) -> bool where
    F: FnOnce(Backend, CompileBlockOptions, I) -> Result<CompiledExecChunk<C>, E>,
 {
    forall|options: CompileBlockOptions, result: Result<CompiledExecChunk<C>, E>| #[trigger]
        compile.ensures((backend_of(tier), options, exec_ir), result) ==> result is Ok
}

impl ExecIrCompiler {
    /// Has the backends print what they produce.
    pub fn with_show_disassmbly(self) -> (r: Self)
        ensures
            r.show_disasm,
            r.next_function_id == self.next_function_id,
    {
        ExecIrCompiler { show_disasm: true, ..self }
    }

    /// The options of the next compilation. The numbers of compilations wrap around.
    pub fn next_options(&mut self) -> (r: CompileBlockOptions)
        ensures
            r.function_name@ == chunk_name(old(self).next_function_id),
            r.show_disasm == old(self).show_disasm,
            final(self).next_function_id == old(self).next_function_id.wrapping_add(1),
            final(self).show_disasm == old(self).show_disasm,
    {
        let id: usize = self.next_function_id;
        self.next_function_id = id.wrapping_add(1);
        let mut function_name: String = String::from_str("exec_chunk_");
        decimal::append_decimal(&mut function_name, id as u64);
        CompileBlockOptions { function_name, show_disasm: self.show_disasm }
    }

    /// The backend that compiles for `tier`.
    pub fn backend(tier: CompileTier) -> (r: Backend)
        ensures
            r == backend_of(tier),
    {
        match tier {
            CompileTier::Tier1 => Backend::Cranelift { optimized: false },
            CompileTier::Tier2 => Backend::Cranelift { optimized: true },
            CompileTier::GccJit => Backend::GccJit,
            CompileTier::LLVM => Backend::LLVM,
        }
    }

    /// Compiles `exec_ir` with the backend of `tier`, which `compile` calls, and
    /// returns what the backend returns.
    pub fn try_compile<
        I,
        C,
        E,
        F: FnOnce(Backend, CompileBlockOptions, I) -> Result<CompiledExecChunk<C>, E>,
    >(&mut self, exec_ir: I, tier: CompileTier, compile: F) -> (r: Result<CompiledExecChunk<C>, E>)
        requires
            forall|options: CompileBlockOptions| #[trigger]
                compile.requires((backend_of(tier), options, exec_ir)),
        ensures
            compiled_by(*old(self), compile, exec_ir, tier, r),
            final(self).next_function_id == old(self).next_function_id.wrapping_add(1),
            final(self).show_disasm == old(self).show_disasm,
    {
        let options = self.next_options();
        compile(Self::backend(tier), options, exec_ir)
    }

    /// Compiles `exec_ir` with a backend that does not fail.
    pub fn compile<
        I,
        C,
        E,
        F: FnOnce(Backend, CompileBlockOptions, I) -> Result<CompiledExecChunk<C>, E>,
    >(&mut self, exec_ir: I, tier: CompileTier, compile: F) -> (r: CompiledExecChunk<C>)
        requires
            forall|options: CompileBlockOptions| #[trigger]
                compile.requires((backend_of(tier), options, exec_ir)),
            never_fails(compile, exec_ir, tier),
        ensures
            compiled_by(*old(self), compile, exec_ir, tier, Ok::<CompiledExecChunk<C>, E>(r)),
            final(self).next_function_id == old(self).next_function_id.wrapping_add(1),
            final(self).show_disasm == old(self).show_disasm,
    {
        self.try_compile(exec_ir, tier, compile).ok().unwrap()
    }
}

/// Where a backend never fails, so that [`ExecIrCompiler::compile`] may be asked,
/// [`ExecIrCompiler::try_compile`] gives a chunk, and `compile` may give the same one.
pub proof fn compile_gives_what_try_compile_gives<F, I, C, E>(
    before: ExecIrCompiler,
    compile: F,
    exec_ir: I,
    tier: CompileTier,
    tried: Result<CompiledExecChunk<C>, E>,
) where F: FnOnce(Backend, CompileBlockOptions, I) -> Result<CompiledExecChunk<C>, E>
    requires
        never_fails(compile, exec_ir, tier),
        compiled_by(before, compile, exec_ir, tier, tried),
    ensures
        tried matches Ok(chunk) && compiled_by(
            before,
            compile,
            exec_ir,
            tier,
            Ok::<CompiledExecChunk<C>, E>(chunk),
        ),
{
}

/// Two chunks have the same name only if they have the same number.
pub proof fn chunk_names_are_distinct(a: usize, b: usize)
    requires
        chunk_name(a) == chunk_name(b),
    ensures
        a == b,
{
    let prefix = "exec_chunk_"@;
    let x = decimal::decimal(a as nat);
    let y = decimal::decimal(b as nat);
    assert(x =~= (prefix + x).skip(prefix.len() as int));
    assert(y =~= (prefix + y).skip(prefix.len() as int));
    decimal::decimals_are_distinct(a as nat, b as nat);
}

/// What compiled code knows of a fault that is still to be handled.
pub struct MemFaultMetadata {
    pub was_real_memory_trap: bool,
}

/// The state that compiled code works on besides the registers.
pub struct ExecStateExtra {
    pub mem_fault_metadata: MemFaultMetadata,
}

/// A compiled chunk: the code, with what keeps it alive.
pub struct CompiledExecChunk<C> {
    pub ffi: C,
}

impl<C> CompiledExecChunk<C> {
    /// Whether the chunk may be run: a fault that is still to be handled must be
    /// handled first.
    pub fn may_call(extra: &ExecStateExtra) -> (r: bool)
        ensures
            r == !extra.mem_fault_metadata.was_real_memory_trap,
    {
        !extra.mem_fault_metadata.was_real_memory_trap
    }

    /// Runs the chunk on the registers, on what is known of a pending fault, on the
    /// cache of page lookups, and on the guest's memory.
    ///
    /// The reasons to halt are handed on as the cell `halt_reason` that others share, so
    /// that the code can look at it while it runs, and write to it.
    pub fn call<H>(
        &self,
        exec_state: &mut ExecState,
        extra: &mut ExecStateExtra,
        tlb: &mut Tlb,
        halt_reason: &H,
        io_mmu: &mut IoMMU,
        host: &mut HostMemory,
    ) -> (r: u32) where
        C: Fn(
            &mut ExecState,
            &mut ExecStateExtra,
            &mut Tlb,
            &H,
            &mut IoMMU,
            &mut HostMemory,
        ) -> u32,

        requires
            !old(extra).mem_fault_metadata.was_real_memory_trap,
            forall|
                s: &mut ExecState,
                x: &mut ExecStateExtra,
                t: &mut Tlb,
                m: &mut IoMMU,
                h: &mut HostMemory,
            |
                *s == *old(exec_state) && *x == *old(extra) && *t == *old(tlb) && *m == *old(io_mmu)
                    && *h == *old(host) ==> #[trigger] self.ffi.requires(
                    (s, x, t, halt_reason, m, h),
                ),
        ensures
            exists|
                s: &mut ExecState,
                x: &mut ExecStateExtra,
                t: &mut Tlb,
                m: &mut IoMMU,
                h: &mut HostMemory,
            |
                {
                    &&& #[trigger] self.ffi.ensures((s, x, t, halt_reason, m, h), r)
                    &&& *s == *old(exec_state) && *final(s) == *final(exec_state)
                    &&& *x == *old(extra) && *final(x) == *final(extra)
                    &&& *t == *old(tlb) && *final(t) == *final(tlb)
                    &&& *m == *old(io_mmu) && *final(m) == *final(io_mmu)
                    &&& *h == *old(host) && *final(h) == *final(host)
                },
    {
        (self.ffi)(exec_state, extra, tlb, halt_reason, io_mmu, host)
    }
}

/// The name of a compilation is `exec_chunk_` and the number of the compilation in decimal. The
/// next one has the next number, or zero behind the last one, and what is printed stays as it
/// was asked for.
pub proof fn chunks_are_numbered(
    before: ExecIrCompiler,
    after: ExecIrCompiler,
    r: CompileBlockOptions,
)
    requires
        exists|compiler: &mut ExecIrCompiler|
            *compiler == before && *final(compiler) == after && #[trigger] call_ensures(
                ExecIrCompiler::next_options,
                (compiler,),
                r,
            ),
    ensures
        r.function_name@.len() > "exec_chunk_"@.len(),
        r.function_name@.take("exec_chunk_"@.len() as int) == "exec_chunk_"@,
        decimal::read(r.function_name@.skip("exec_chunk_"@.len() as int))
            == before.next_function_id,
        before.next_function_id > 0 ==> r.function_name@["exec_chunk_"@.len() as int] != '0',
        r.show_disasm == before.show_disasm,
        after.show_disasm == before.show_disasm,
        after.next_function_id == if before.next_function_id == usize::MAX {
            0
        } else {
            before.next_function_id + 1
        },
{
    let digits = decimal::decimal(before.next_function_id as nat);
    let name = r.function_name@;
    decimal::decimals_read_back(before.next_function_id as nat);
    assert(name.take("exec_chunk_"@.len() as int) =~= "exec_chunk_"@);
    assert(name.skip("exec_chunk_"@.len() as int) =~= digits);
}

/// The compilations that follow each other have different names, where the numbers do not wrap
/// around.
pub proof fn following_names_differ(
    compilers: Seq<ExecIrCompiler>,
    options: Seq<CompileBlockOptions>,
    i: int,
    j: int,
)
    requires
        compilers.len() == options.len() + 1,
        forall|k: int|
            0 <= k < options.len() ==> (#[trigger] compilers[k]).next_function_id < usize::MAX
                && exists|compiler: &mut ExecIrCompiler|
                *compiler == compilers[k] && *final(compiler) == compilers[k + 1]
                    && #[trigger] call_ensures(
                    ExecIrCompiler::next_options,
                    (compiler,),
                    options[k],
                ),
        0 <= i < j < options.len(),
    ensures
        options[i].function_name@ != options[j].function_name@,
{
    lemma_numbers_grow(compilers, options, i, j);
    chunks_are_numbered(compilers[i], compilers[i + 1], options[i]);
    chunks_are_numbered(compilers[j], compilers[j + 1], options[j]);
}

proof fn lemma_numbers_grow(
    compilers: Seq<ExecIrCompiler>,
    options: Seq<CompileBlockOptions>,
    i: int,
    j: int,
)
    requires
        compilers.len() == options.len() + 1,
        forall|k: int|
            0 <= k < options.len() ==> (#[trigger] compilers[k]).next_function_id < usize::MAX
                && exists|compiler: &mut ExecIrCompiler|
                *compiler == compilers[k] && *final(compiler) == compilers[k + 1]
                    && #[trigger] call_ensures(
                    ExecIrCompiler::next_options,
                    (compiler,),
                    options[k],
                ),
        0 <= i <= j < options.len(),
    ensures
        compilers[j].next_function_id == compilers[i].next_function_id + (j - i),
    decreases j - i,
{
    if i < j {
        lemma_numbers_grow(compilers, options, i, j - 1);
        chunks_are_numbered(compilers[j - 1], compilers[j - 1 + 1], options[j - 1]);
    }
}

/// The two tiers go to the same compiler, which optimizes for the second one; the other choices
/// name the compiler themselves.
pub proof fn tiers_have_their_backends(tier: CompileTier, r: Backend)
    requires
        call_ensures(ExecIrCompiler::backend, (tier,), r),
    ensures
        tier is Tier1 <==> r == (Backend::Cranelift { optimized: false }),
        tier is Tier2 <==> r == (Backend::Cranelift { optimized: true }),
        tier is GccJit <==> r is GccJit,
        tier is LLVM <==> r is LLVM,
{
}

/// A compilation is handed to the backend of its tier, with the options that are due, and gives
/// what the backend gives. The compiler is then as after the options were made.
pub proof fn backends_are_asked<
    I,
    C,
    E,
    F: FnOnce(Backend, CompileBlockOptions, I) -> Result<CompiledExecChunk<C>, E>,
>(
    before: ExecIrCompiler,
    after: ExecIrCompiler,
    exec_ir: I,
    tier: CompileTier,
    compile: F,
    r: Result<CompiledExecChunk<C>, E>,
)
    requires
        exists|compiler: &mut ExecIrCompiler|
            *compiler == before && *final(compiler) == after && #[trigger] call_ensures(
                ExecIrCompiler::try_compile::<I, C, E, F>,
                (compiler, exec_ir, tier, compile),
                r,
            ),
    ensures
        exists|backend: Backend, options: CompileBlockOptions|
            {
                &&& #[trigger] compile.ensures((backend, options, exec_ir), r)
                &&& backend is Cranelift <==> tier is Tier1 || tier is Tier2
                &&& backend == (Backend::Cranelift { optimized: true }) <==> tier is Tier2
                &&& backend is GccJit <==> tier is GccJit
                &&& backend is LLVM <==> tier is LLVM
                &&& options.show_disasm == before.show_disasm
                &&& options.function_name@.len() > "exec_chunk_"@.len()
                &&& options.function_name@.take("exec_chunk_"@.len() as int) == "exec_chunk_"@
                &&& decimal::read(options.function_name@.skip("exec_chunk_"@.len() as int))
                    == before.next_function_id
            },
        after.show_disasm == before.show_disasm,
        after.next_function_id == if before.next_function_id == usize::MAX {
            0
        } else {
            before.next_function_id + 1
        },
{
    let options = choose|options: CompileBlockOptions| #[trigger]
        compile.ensures((backend_of(tier), options, exec_ir), r) && options.function_name@
            == chunk_name(before.next_function_id) && options.show_disasm == before.show_disasm;
    let digits = decimal::decimal(before.next_function_id as nat);
    let name = options.function_name@;
    decimal::decimals_read_back(before.next_function_id as nat);
    assert(name.take("exec_chunk_"@.len() as int) =~= "exec_chunk_"@);
    assert(name.skip("exec_chunk_"@.len() as int) =~= digits);
    assert(compile.ensures((backend_of(tier), options, exec_ir), r));
}

/// A fresh compiler numbers from zero and prints nothing, and one that was asked to print does
/// so, with the same numbers.
pub proof fn compilers_print_when_asked(fresh: ExecIrCompiler, asked: ExecIrCompiler)
    requires
        call_ensures(ExecIrCompiler::default, (), fresh),
        call_ensures(ExecIrCompiler::with_show_disassmbly, (fresh,), asked),
    ensures
        fresh.next_function_id == 0,
        !fresh.show_disasm,
        asked.next_function_id == 0,
        asked.show_disasm,
{
}

/// A chunk may be run exactly if no fault is still to be handled.
pub proof fn pending_faults_come_first<C>(extra: ExecStateExtra, r: bool)
    requires
        call_ensures(CompiledExecChunk::<C>::may_call, (&extra,), r),
    ensures
        r <==> !extra.mem_fault_metadata.was_real_memory_trap,
{
}

/// A compilation that cannot fail is handed to the same backend with the same options, and
/// gives the chunk that the backend gives.
pub proof fn backends_are_asked_for_chunks<
    I,
    C,
    E,
    F: FnOnce(Backend, CompileBlockOptions, I) -> Result<CompiledExecChunk<C>, E>,
>(
    before: ExecIrCompiler,
    after: ExecIrCompiler,
    exec_ir: I,
    tier: CompileTier,
    compile: F,
    r: CompiledExecChunk<C>,
)
    requires
        exists|compiler: &mut ExecIrCompiler|
            *compiler == before && *final(compiler) == after && #[trigger] call_ensures(
                ExecIrCompiler::compile::<I, C, E, F>,
                (compiler, exec_ir, tier, compile),
                r,
            ),
    ensures
        exists|backend: Backend, options: CompileBlockOptions|
            {
                &&& #[trigger] compile.ensures(
                    (backend, options, exec_ir),
                    Ok::<CompiledExecChunk<C>, E>(r),
                )
                &&& backend is Cranelift <==> tier is Tier1 || tier is Tier2
                &&& backend == (Backend::Cranelift { optimized: true }) <==> tier is Tier2
                &&& backend is GccJit <==> tier is GccJit
                &&& backend is LLVM <==> tier is LLVM
                &&& options.show_disasm == before.show_disasm
                &&& options.function_name@.len() > "exec_chunk_"@.len()
                &&& options.function_name@.take("exec_chunk_"@.len() as int) == "exec_chunk_"@
                &&& decimal::read(options.function_name@.skip("exec_chunk_"@.len() as int))
                    == before.next_function_id
            },
        after.show_disasm == before.show_disasm,
        after.next_function_id == if before.next_function_id == usize::MAX {
            0
        } else {
            before.next_function_id + 1
        },
{
    let given = Ok::<CompiledExecChunk<C>, E>(r);
    let options = choose|options: CompileBlockOptions| #[trigger]
        compile.ensures((backend_of(tier), options, exec_ir), given) && options.function_name@
            == chunk_name(before.next_function_id) && options.show_disasm == before.show_disasm;
    let digits = decimal::decimal(before.next_function_id as nat);
    let name = options.function_name@;
    decimal::decimals_read_back(before.next_function_id as nat);
    assert(name.take("exec_chunk_"@.len() as int) =~= "exec_chunk_"@);
    assert(name.skip("exec_chunk_"@.len() as int) =~= digits);
    assert(compile.ensures((backend_of(tier), options, exec_ir), given));
}

/// A chunk that is run has its code called once, on the registers, the pending fault, the cache,
/// the cell of reasons, and the memory that it is run on, and gives what the code gives.
pub proof fn chunks_run_their_code<C, H>(
    chunk: CompiledExecChunk<C>,
    registers: (ExecState, ExecState),
    extras: (ExecStateExtra, ExecStateExtra),
    caches: (Tlb, Tlb),
    halt_reason: &H,
    memories: (IoMMU, IoMMU),
    hosts: (HostMemory, HostMemory),
    r: u32,
) where
    C: Fn(&mut ExecState, &mut ExecStateExtra, &mut Tlb, &H, &mut IoMMU, &mut HostMemory) -> u32,

    requires
        exists|
            s: &mut ExecState,
            x: &mut ExecStateExtra,
            t: &mut Tlb,
            m: &mut IoMMU,
            h: &mut HostMemory,
        |
            {
                &&& #[trigger] call_ensures(
                    CompiledExecChunk::<C>::call::<H>,
                    (&chunk, s, x, t, halt_reason, m, h),
                    r,
                )
                &&& *s == registers.0 && *final(s) == registers.1
                &&& *x == extras.0 && *final(x) == extras.1
                &&& *t == caches.0 && *final(t) == caches.1
                &&& *m == memories.0 && *final(m) == memories.1
                &&& *h == hosts.0 && *final(h) == hosts.1
            },
    ensures
        exists|
            s: &mut ExecState,
            x: &mut ExecStateExtra,
            t: &mut Tlb,
            m: &mut IoMMU,
            h: &mut HostMemory,
        |
            {
                &&& #[trigger] chunk.ffi.ensures((s, x, t, halt_reason, m, h), r)
                &&& *s == registers.0 && *final(s) == registers.1
                &&& *x == extras.0 && *final(x) == extras.1
                &&& *t == caches.0 && *final(t) == caches.1
                &&& *m == memories.0 && *final(m) == memories.1
                &&& *h == hosts.0 && *final(h) == hosts.1
            },
{
}

} // verus!
