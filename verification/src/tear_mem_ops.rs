//! Little-endian load/store primitives on naturally aligned host pointers.
//!
//! - Values are interpreted as little-endian.
//! - A later read observes exactly the bytes written by an earlier store.

use vstd::arithmetic::power::pow;
use vstd::prelude::*;
use crate::host_memory::HostMemory;
use crate::le;

verus! {

/// Loads an aligned little-endian `u64`.
pub fn load_le_64_aligned(memory: &HostMemory, ptr: usize) -> (r: u64)
    requires
        ptr % 8 == 0,
        ptr + 8 <= memory@.len(),
    ensures
        r == le::value_of(memory@.subrange(ptr as int, ptr + 8)),
{
    memory.load64_le(ptr)
}

/// Stores an aligned little-endian `u64`.
pub fn store_le_64_aligned(memory: &mut HostMemory, ptr: usize, value: u64)
    requires
        ptr % 8 == 0,
        ptr + 8 <= old(memory)@.len(),
    ensures
        final(memory)@ == le::write_at(old(memory)@, ptr as int, le::bytes_of(value as nat, 8)),
{
    memory.store64_le(ptr, value);
}

/// Loads an aligned little-endian `u32`.
pub fn load_le_32_aligned(memory: &HostMemory, ptr: usize) -> (r: u32)
    requires
        ptr % 4 == 0,
        ptr + 4 <= memory@.len(),
    ensures
        r == le::value_of(memory@.subrange(ptr as int, ptr + 4)),
{
    memory.load32_le(ptr)
}

/// Stores an aligned little-endian `u32`.
pub fn store_le_32_aligned(memory: &mut HostMemory, ptr: usize, value: u32)
    requires
        ptr % 4 == 0,
        ptr + 4 <= old(memory)@.len(),
    ensures
        final(memory)@ == le::write_at(old(memory)@, ptr as int, le::bytes_of(value as nat, 4)),
{
    memory.store32_le(ptr, value);
}

/// Loads an aligned little-endian `u16`.
pub fn load_le_16_aligned(memory: &HostMemory, ptr: usize) -> (r: u16)
    requires
        ptr % 2 == 0,
        ptr + 2 <= memory@.len(),
    ensures
        r == le::value_of(memory@.subrange(ptr as int, ptr + 2)),
{
    memory.load16_le(ptr)
}

/// Stores an aligned little-endian `u16`.
pub fn store_le_16_aligned(memory: &mut HostMemory, ptr: usize, value: u16)
    requires
        ptr % 2 == 0,
        ptr + 2 <= old(memory)@.len(),
    ensures
        final(memory)@ == le::write_at(old(memory)@, ptr as int, le::bytes_of(value as nat, 2)),
{
    memory.store16_le(ptr, value);
}

/// Loads a single byte.
pub fn load_le_8_aligned(memory: &HostMemory, ptr: usize) -> (r: u8)
    requires
        ptr < memory@.len(),
    ensures
        r == memory@[ptr as int],
{
    memory.load_byte(ptr)
}

/// Stores a single byte.
pub fn store_le_8_aligned(memory: &mut HostMemory, ptr: usize, value: u8)
    requires
        ptr < old(memory)@.len(),
    ensures
        final(memory)@ == old(memory)@.update(ptr as int, value),
{
    memory.store_byte(ptr, value);
}

/// A load observes exactly what an earlier store wrote, and a store changes no other
/// byte.
pub proof fn loads_observe_stores(memory: Seq<u8>, ptr: int, value: nat, n: nat)
    requires
        0 <= ptr,
        ptr + n <= memory.len(),
        value < le::pow256(n),
    ensures
        ({
            let after = le::write_at(memory, ptr, le::bytes_of(value, n));
            &&& after.len() == memory.len()
            &&& le::value_of(after.subrange(ptr, ptr + n)) == value
            &&& forall|i: int|
                0 <= i < memory.len() && !(ptr <= i < ptr + n) ==> #[trigger] after[i] == memory[i]
        }),
{
    le::bytes_of_len(value, n);
    le::value_of_bytes_of(value, n);
    let after = le::write_at(memory, ptr, le::bytes_of(value, n));
    assert(after.subrange(ptr, ptr + n) =~= le::bytes_of(value, n));
}

/// A scalar that is read has the bytes from the pointer on as its digits to the base 256, lowest
/// first.
pub proof fn aligned_loads_read_the_bytes(memory: HostMemory, ptr: usize)
    ensures
        forall|r: u16|
            ptr % 2 == 0 && ptr + 2 <= memory@.len() && #[trigger] call_ensures(load_le_16_aligned, (&memory, ptr), r)
                ==> le::has_digits(memory@, ptr as int, 2, r as int),
        forall|r: u32|
            ptr % 4 == 0 && ptr + 4 <= memory@.len() && #[trigger] call_ensures(load_le_32_aligned, (&memory, ptr), r)
                ==> le::has_digits(memory@, ptr as int, 4, r as int),
        forall|r: u64|
            ptr % 8 == 0 && ptr + 8 <= memory@.len() && #[trigger] call_ensures(load_le_64_aligned, (&memory, ptr), r)
                ==> le::has_digits(memory@, ptr as int, 8, r as int),
        forall|r: u8|
            ptr < memory@.len() && #[trigger] call_ensures(load_le_8_aligned, (&memory, ptr), r) ==> r
                == memory@[ptr as int],
{
    assert forall|r: u16|
        ptr % 2 == 0 && ptr + 2 <= memory@.len() && #[trigger] call_ensures(
            load_le_16_aligned,
            (&memory, ptr),
            r,
        ) implies le::has_digits(memory@, ptr as int, 2, r as int) by {
        le::values_have_their_bytes(memory@.subrange(ptr as int, ptr + 2));
    }
    assert forall|r: u32|
        ptr % 4 == 0 && ptr + 4 <= memory@.len() && #[trigger] call_ensures(
            load_le_32_aligned,
            (&memory, ptr),
            r,
        ) implies le::has_digits(memory@, ptr as int, 4, r as int) by {
        le::values_have_their_bytes(memory@.subrange(ptr as int, ptr + 4));
    }
    assert forall|r: u64|
        ptr % 8 == 0 && ptr + 8 <= memory@.len() && #[trigger] call_ensures(
            load_le_64_aligned,
            (&memory, ptr),
            r,
        ) implies le::has_digits(memory@, ptr as int, 8, r as int) by {
        le::values_have_their_bytes(memory@.subrange(ptr as int, ptr + 8));
    }
}

/// A `u16` that is written has the bytes from the pointer on as its digits to the base 256, lowest
/// first, and no other byte has changed.
pub proof fn aligned_stores_of_u16_write_the_bytes(
    before: HostMemory,
    after: HostMemory,
    ptr: usize,
    value: u16,
)
    requires
        ptr % 2 == 0,
        ptr + 2 <= before@.len(),
        exists|memory: &mut HostMemory|
            *memory == before && *final(memory) == after && #[trigger] call_ensures(
                store_le_16_aligned,
                (memory, ptr, value),
                (),
            ),
    ensures
        after@.len() == before@.len(),
        le::has_digits(after@, ptr as int, 2, value as int),
        forall|i: int|
            0 <= i < before@.len() && !(ptr <= i < ptr + 2) ==> #[trigger] after@[i] == before@[i],
{
    le::bytes_of_len(value as nat, 2);
    le::pow256_values();
    le::value_of_bytes_of(value as nat, 2);
    le::values_have_their_bytes(le::bytes_of(value as nat, 2));
    assert forall|i: nat| i < 2 implies (value as int / #[trigger] pow(256, i)) % 256 == after@[ptr
        + i] by {
        assert(after@[ptr + i] == le::bytes_of(value as nat, 2)[i as int]);
    }
}

/// A `u32` that is written has the bytes from the pointer on as its digits to the base 256, lowest
/// first, and no other byte has changed.
pub proof fn aligned_stores_of_u32_write_the_bytes(
    before: HostMemory,
    after: HostMemory,
    ptr: usize,
    value: u32,
)
    requires
        ptr % 4 == 0,
        ptr + 4 <= before@.len(),
        exists|memory: &mut HostMemory|
            *memory == before && *final(memory) == after && #[trigger] call_ensures(
                store_le_32_aligned,
                (memory, ptr, value),
                (),
            ),
    ensures
        after@.len() == before@.len(),
        le::has_digits(after@, ptr as int, 4, value as int),
        forall|i: int|
            0 <= i < before@.len() && !(ptr <= i < ptr + 4) ==> #[trigger] after@[i] == before@[i],
{
    le::bytes_of_len(value as nat, 4);
    le::pow256_values();
    le::value_of_bytes_of(value as nat, 4);
    le::values_have_their_bytes(le::bytes_of(value as nat, 4));
    assert forall|i: nat| i < 4 implies (value as int / #[trigger] pow(256, i)) % 256 == after@[ptr
        + i] by {
        assert(after@[ptr + i] == le::bytes_of(value as nat, 4)[i as int]);
    }
}

/// A `u64` that is written has the bytes from the pointer on as its digits to the base 256, lowest
/// first, and no other byte has changed.
pub proof fn aligned_stores_of_u64_write_the_bytes(
    before: HostMemory,
    after: HostMemory,
    ptr: usize,
    value: u64,
)
    requires
        ptr % 8 == 0,
        ptr + 8 <= before@.len(),
        exists|memory: &mut HostMemory|
            *memory == before && *final(memory) == after && #[trigger] call_ensures(
                store_le_64_aligned,
                (memory, ptr, value),
                (),
            ),
    ensures
        after@.len() == before@.len(),
        le::has_digits(after@, ptr as int, 8, value as int),
        forall|i: int|
            0 <= i < before@.len() && !(ptr <= i < ptr + 8) ==> #[trigger] after@[i] == before@[i],
{
    le::bytes_of_len(value as nat, 8);
    le::pow256_values();
    le::value_of_bytes_of(value as nat, 8);
    le::values_have_their_bytes(le::bytes_of(value as nat, 8));
    assert forall|i: nat| i < 8 implies (value as int / #[trigger] pow(256, i)) % 256 == after@[ptr
        + i] by {
        assert(after@[ptr + i] == le::bytes_of(value as nat, 8)[i as int]);
    }
}

/// A byte that is written stands at the pointer, and no other one has changed.
pub proof fn aligned_stores_of_u8_write_the_bytes(
    before: HostMemory,
    after: HostMemory,
    ptr: usize,
    value: u8,
)
    requires
        ptr < before@.len(),
        exists|memory: &mut HostMemory|
            *memory == before && *final(memory) == after && #[trigger] call_ensures(
                store_le_8_aligned,
                (memory, ptr, value),
                (),
            ),
    ensures
        after@.len() == before@.len(),
        after@[ptr as int] == value,
        forall|i: int| 0 <= i < before@.len() && i != ptr ==> #[trigger] after@[i] == before@[i],
{
}

} // verus!
