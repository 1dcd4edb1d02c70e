//! The host memory that guest pages are mapped onto.
//!
//! A [`HostMemory`] is a contiguous region of bytes. A host pointer is an offset
//! into it. The scalar operations read and write little-endian values.

use vstd::arithmetic::power::pow;
use vstd::prelude::*;
use crate::le;

verus! {

/// A region of host memory.
pub struct HostMemory {
    pub bytes: Vec<u8>,
}

impl View for HostMemory {
    type V = Seq<u8>;

    open spec fn view(&self) -> Seq<u8> {
        self.bytes@
    }
}

impl HostMemory {
    /// A region of `len` zero bytes.
    pub fn new(len: usize) -> (r: Self)
        ensures
            r@ == Seq::new(len as nat, |i: int| 0u8),
    {
        let bytes = vec![0u8; len];
        assert(bytes@ =~= Seq::new(len as nat, |i: int| 0u8));
        HostMemory { bytes }
    }

    /// The number of bytes in the region.
    pub fn len(&self) -> (r: usize)
        ensures
            r == self@.len(),
    {
        self.bytes.len()
    }

    /// Reads one byte.
    pub fn load_byte(&self, ptr: usize) -> (r: u8)
        requires
            ptr < self@.len(),
        ensures
            r == self@[ptr as int],
    {
        self.bytes[ptr]
    }

    /// Writes one byte.
    pub fn store_byte(&mut self, ptr: usize, value: u8)
        requires
            ptr < old(self)@.len(),
        ensures
            final(self)@ == old(self)@.update(ptr as int, value),
    {
        self.bytes[ptr] = value;
    }

    /// Reads a little-endian value of `n` bytes.
    fn load_le(&self, ptr: usize, n: usize) -> (r: u64)
        requires
            n <= 8,
            ptr + n <= self@.len(),
        ensures
            r == le::value_of(self@.subrange(ptr as int, ptr + n)),
            r < le::pow256(n as nat),
    {
        let total: usize = self.bytes.len();
        let mut value: u64 = 0;
        let mut i: usize = n;
        let ghost s = self@.subrange(ptr as int, ptr + n);
        while i > 0
            invariant
                i <= n <= 8,
                ptr + n <= total == self@.len(),
                s == self@.subrange(ptr as int, ptr + n),
                value == le::value_of(s.subrange(i as int, n as int)),
            decreases i,
        {
            i = i - 1;
            proof {
                le::value_of_step(s, i as int, n as int);
                le::value_of_bound(s.subrange(i as int, n as int));
                le::pow256_values();
            }
            value = value * 256 + self.bytes[ptr + i] as u64;
        }
        proof {
            assert(s.subrange(0, n as int) =~= s);
            le::value_of_bound(s);
        }
        value
    }

    /// Writes the lowest `n` bytes of a value, lowest byte first.
    fn store_le(&mut self, ptr: usize, value: u64, n: usize)
        requires
            n <= 8,
            ptr + n <= old(self)@.len(),
        ensures
            final(self)@ == le::write_at(old(self)@, ptr as int, le::bytes_of(value as nat, n as nat)),
    {
        let total: usize = self.bytes.len();
        let bytes = le::to_le_bytes(value, n);
        proof {
            le::bytes_of_len(value as nat, n as nat);
        }
        let mut i: usize = 0;
        while i < n
            invariant
                i <= n,
                bytes@.len() == n,
                ptr + n <= total == old(self)@.len(),
                self@ == le::write_at(old(self)@, ptr as int, bytes@.take(i as int)),
            decreases n - i,
        {
            self.bytes[ptr + i] = bytes[i];
            i = i + 1;
            assert(self@ =~= le::write_at(old(self)@, ptr as int, bytes@.take(i as int)));
        }
        assert(bytes@.take(n as int) =~= bytes@);
    }

    /// Reads a little-endian `u16`.
    pub fn load16_le(&self, ptr: usize) -> (r: u16)
        requires
            ptr + 2 <= self@.len(),
        ensures
            r == le::value_of(self@.subrange(ptr as int, ptr + 2)),
    {
        proof {
            le::pow256_values();
        }
        self.load_le(ptr, 2) as u16
    }

    /// Writes a little-endian `u16`.
    pub fn store16_le(&mut self, ptr: usize, value: u16)
        requires
            ptr + 2 <= old(self)@.len(),
        ensures
            final(self)@ == le::write_at(old(self)@, ptr as int, le::bytes_of(value as nat, 2)),
    {
        self.store_le(ptr, value as u64, 2);
    }

    /// Reads a little-endian `u32`.
    pub fn load32_le(&self, ptr: usize) -> (r: u32)
        requires
            ptr + 4 <= self@.len(),
        ensures
            r == le::value_of(self@.subrange(ptr as int, ptr + 4)),
    {
        proof {
            le::pow256_values();
        }
        self.load_le(ptr, 4) as u32
    }

    /// Writes a little-endian `u32`.
    pub fn store32_le(&mut self, ptr: usize, value: u32)
        requires
            ptr + 4 <= old(self)@.len(),
        ensures
            final(self)@ == le::write_at(old(self)@, ptr as int, le::bytes_of(value as nat, 4)),
    {
        self.store_le(ptr, value as u64, 4);
    }

    /// Reads a little-endian `u64`.
    pub fn load64_le(&self, ptr: usize) -> (r: u64)
        requires
            ptr + 8 <= self@.len(),
        ensures
            r == le::value_of(self@.subrange(ptr as int, ptr + 8)),
    {
        proof {
            le::pow256_values();
        }
        self.load_le(ptr, 8)
    }

    /// Writes a little-endian `u64`.
    pub fn store64_le(&mut self, ptr: usize, value: u64)
        requires
            ptr + 8 <= old(self)@.len(),
        ensures
            final(self)@ == le::write_at(old(self)@, ptr as int, le::bytes_of(value as nat, 8)),
    {
        self.store_le(ptr, value, 8);
    }
}

/// A scalar that is read has the bytes from the pointer on as its digits to the base 256, lowest
/// first.
pub proof fn loads_read_the_bytes(memory: HostMemory, ptr: usize)
    ensures
        forall|r: u16|
            ptr + 2 <= memory@.len() && #[trigger] call_ensures(HostMemory::load16_le, (&memory, ptr), r)
                ==> le::has_digits(memory@, ptr as int, 2, r as int),
        forall|r: u32|
            ptr + 4 <= memory@.len() && #[trigger] call_ensures(HostMemory::load32_le, (&memory, ptr), r)
                ==> le::has_digits(memory@, ptr as int, 4, r as int),
        forall|r: u64|
            ptr + 8 <= memory@.len() && #[trigger] call_ensures(HostMemory::load64_le, (&memory, ptr), r)
                ==> le::has_digits(memory@, ptr as int, 8, r as int),
        forall|r: u8|
            ptr < memory@.len() && #[trigger] call_ensures(HostMemory::load_byte, (&memory, ptr), r) ==> r
                == memory@[ptr as int],
{
    assert forall|r: u16|
        ptr + 2 <= memory@.len() && #[trigger] call_ensures(
            HostMemory::load16_le,
            (&memory, ptr),
            r,
        ) implies le::has_digits(memory@, ptr as int, 2, r as int) by {
        le::values_have_their_bytes(memory@.subrange(ptr as int, ptr + 2));
    }
    assert forall|r: u32|
        ptr + 4 <= memory@.len() && #[trigger] call_ensures(
            HostMemory::load32_le,
            (&memory, ptr),
            r,
        ) implies le::has_digits(memory@, ptr as int, 4, r as int) by {
        le::values_have_their_bytes(memory@.subrange(ptr as int, ptr + 4));
    }
    assert forall|r: u64|
        ptr + 8 <= memory@.len() && #[trigger] call_ensures(
            HostMemory::load64_le,
            (&memory, ptr),
            r,
        ) implies le::has_digits(memory@, ptr as int, 8, r as int) by {
        le::values_have_their_bytes(memory@.subrange(ptr as int, ptr + 8));
    }
}

/// A `u16` that is written has the bytes from the pointer on as its digits to the base 256, lowest
/// first, and no other byte has changed.
pub proof fn stores_of_u16_write_the_bytes(
    before: HostMemory,
    after: HostMemory,
    ptr: usize,
    value: u16,
)
    requires
        ptr + 2 <= before@.len(),
        exists|memory: &mut HostMemory|
            *memory == before && *final(memory) == after && #[trigger] call_ensures(
                HostMemory::store16_le,
                (memory, ptr, value),
                (),
            ),
    ensures
        after@.len() == before@.len(),
        le::has_digits(after@, ptr as int, 2, value as int),
        forall|i: int|
            0 <= i < before@.len() && !(ptr <= i < ptr + 2) ==> #[trigger] after@[i] == before@[i],
{
    le::bytes_of_len(value as nat, 2);
    le::pow256_values();
    le::value_of_bytes_of(value as nat, 2);
    le::values_have_their_bytes(le::bytes_of(value as nat, 2));
    assert forall|i: nat| i < 2 implies (value as int / #[trigger] pow(256, i)) % 256 == after@[ptr
        + i] by {
        assert(after@[ptr + i] == le::bytes_of(value as nat, 2)[i as int]);
    }
}

/// A `u32` that is written has the bytes from the pointer on as its digits to the base 256, lowest
/// first, and no other byte has changed.
pub proof fn stores_of_u32_write_the_bytes(
    before: HostMemory,
    after: HostMemory,
    ptr: usize,
    value: u32,
)
    requires
        ptr + 4 <= before@.len(),
        exists|memory: &mut HostMemory|
            *memory == before && *final(memory) == after && #[trigger] call_ensures(
                HostMemory::store32_le,
                (memory, ptr, value),
                (),
            ),
    ensures
        after@.len() == before@.len(),
        le::has_digits(after@, ptr as int, 4, value as int),
        forall|i: int|
            0 <= i < before@.len() && !(ptr <= i < ptr + 4) ==> #[trigger] after@[i] == before@[i],
{
    le::bytes_of_len(value as nat, 4);
    le::pow256_values();
    le::value_of_bytes_of(value as nat, 4);
    le::values_have_their_bytes(le::bytes_of(value as nat, 4));
    assert forall|i: nat| i < 4 implies (value as int / #[trigger] pow(256, i)) % 256 == after@[ptr
        + i] by {
        assert(after@[ptr + i] == le::bytes_of(value as nat, 4)[i as int]);
    }
}

/// A `u64` that is written has the bytes from the pointer on as its digits to the base 256, lowest
/// first, and no other byte has changed.
pub proof fn stores_of_u64_write_the_bytes(
    before: HostMemory,
    after: HostMemory,
    ptr: usize,
    value: u64,
)
    requires
        ptr + 8 <= before@.len(),
        exists|memory: &mut HostMemory|
            *memory == before && *final(memory) == after && #[trigger] call_ensures(
                HostMemory::store64_le,
                (memory, ptr, value),
                (),
            ),
    ensures
        after@.len() == before@.len(),
        le::has_digits(after@, ptr as int, 8, value as int),
        forall|i: int|
            0 <= i < before@.len() && !(ptr <= i < ptr + 8) ==> #[trigger] after@[i] == before@[i],
{
    le::bytes_of_len(value as nat, 8);
    le::pow256_values();
    le::value_of_bytes_of(value as nat, 8);
    le::values_have_their_bytes(le::bytes_of(value as nat, 8));
    assert forall|i: nat| i < 8 implies (value as int / #[trigger] pow(256, i)) % 256 == after@[ptr
        + i] by {
        assert(after@[ptr + i] == le::bytes_of(value as nat, 8)[i as int]);
    }
}

/// A byte that is written stands at the pointer, and no other one has changed.
pub proof fn stores_of_u8_write_the_bytes(
    before: HostMemory,
    after: HostMemory,
    ptr: usize,
    value: u8,
)
    requires
        ptr < before@.len(),
        exists|memory: &mut HostMemory|
            *memory == before && *final(memory) == after && #[trigger] call_ensures(
                HostMemory::store_byte,
                (memory, ptr, value),
                (),
            ),
    ensures
        after@.len() == before@.len(),
        after@[ptr as int] == value,
        forall|i: int| 0 <= i < before@.len() && i != ptr ==> #[trigger] after@[i] == before@[i],
{
}

/// A fresh region holds as many bytes as were asked for, all of them zero.
pub proof fn fresh_regions_are_zero(len: usize, r: HostMemory, counted: usize)
    requires
        call_ensures(HostMemory::new, (len,), r),
        call_ensures(HostMemory::len, (&r,), counted),
    ensures
        counted == len,
        r@.len() == len,
        forall|i: int| 0 <= i < len ==> #[trigger] r@[i] == 0,
{
}

} // verus!
