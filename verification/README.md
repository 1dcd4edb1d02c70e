# rapid_arm_emu

Building blocks of an ARM emulator, verified with Verus.

- `mmu`, `aligned_mmu`: guest virtual memory mapped page by page onto host memory,
  with permissions, byte-range and little-endian scalar accesses, and dirty pages.
  `mmu::laws` states what holds of mappings, loads and stores together.
- `host_memory`, `tear_mem_ops`, `le`, `paging`, `vaddr`, `a64`: the memory below the
  MMU, little-endian values, page arithmetic, and address types.
- `decimal`: numbers in decimal, for names and messages.
- `cpu_fabric`: the exclusive monitor behind load-exclusive and store-exclusive.
- `io_mmu`: device-backed memory: faults, and the queue of pages that wait to be written
  back to their devices.
- `exec_ir`: compilation options and backends, and the memory accesses of compiled code
  with the cache of page lookups.
- `ir`: control flow graphs, strongly connected components, and the pass that inserts
  halt checks. `ir::halt_spec` says where they go, `ir::halt_laws` what that achieves.
- `armv9`, `a64::cpu_core`, `halt_reason`, `emu_abi`: cores, registers, and why a core
  stops.

`app/` holds what runs around the library: threads and locks, errors and register files
with the traits of other crates, and the C interface of compiled code.
