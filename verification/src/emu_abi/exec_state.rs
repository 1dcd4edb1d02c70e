//! The registers of an emulated core.

use vstd::prelude::*;

verus! {

/// A vector register.
#[derive(Clone, Copy, PartialEq, Eq, Structural, Debug)]
pub struct Vector(pub u128);

/// How many general registers there are.
pub const X_REGISTER_COUNT: u8 = 31;

/// The processor state flags.
#[derive(Clone, Copy, PartialEq, Eq, Structural, Debug)]
pub struct PState(pub u32);

impl PState {
    pub const NEGATIVE: u32 = 0x8000_0000;

    pub const ZERO: u32 = 0x4000_0000;

    pub const CARRY: u32 = 0x2000_0000;

    pub const OVERFLOW: u32 = 0x1000_0000;

    pub const N: u32 = 0x8000_0000;

    pub const Z: u32 = 0x4000_0000;

    pub const C: u32 = 0x2000_0000;

    pub const V: u32 = 0x1000_0000;

    pub const NZCV_MASK: u32 = 0xf000_0000;
}

/// The condition flags are the four highest bits, in the order of their names, and
/// the mask holds all of them.
pub proof fn condition_flags_are_the_highest_bits()
    ensures
        PState::N == 1u32 << 31u32,
        PState::Z == 1u32 << 30u32,
        PState::C == 1u32 << 29u32,
        PState::V == 1u32 << 28u32,
        PState::NZCV_MASK == PState::N | PState::Z | PState::C | PState::V,
        PState::NEGATIVE == PState::N && PState::ZERO == PState::Z && PState::CARRY == PState::C
            && PState::OVERFLOW == PState::V,
{
    assert(0x8000_0000u32 == 1u32 << 31u32 && 0x4000_0000u32 == 1u32 << 30u32 && 0x2000_0000u32
        == 1u32 << 29u32 && 0x1000_0000u32 == 1u32 << 28u32 && 0xf000_0000u32 == 0x8000_0000u32
        | 0x4000_0000u32 | 0x2000_0000u32 | 0x1000_0000u32) by (bit_vector);
}

impl Default for PState {
    fn default() -> (r: Self)
        ensures
            r == PState(0),
    {
        PState(0)
    }
}

/// The registers that compiled code works on.
pub struct ExecState {
    pub pc: u64,
    pub x_registers: [u64; 31],
    pub sp: u64,
    pub pstate: PState,
    pub fpsr: u32,
    pub fpcr: u32,
    pub vectors: [Vector; 32],
}

impl ExecState {
    /// The registers at reset: all zero.
    pub fn initial() -> (r: Self)
        ensures
            r.pc == 0,
            r.sp == 0,
            r.pstate == PState(0),
            r.fpsr == 0,
            r.fpcr == 0,
            forall|i: int| 0 <= i < X_REGISTER_COUNT ==> #[trigger] r.x_registers@[i] == 0,
            forall|i: int| 0 <= i < 32 ==> #[trigger] r.vectors@[i] == Vector(0),
    {
        ExecState {
            pc: 0,
            x_registers: [0u64; 31],
            sp: 0,
            pstate: PState(0),
            fpsr: 0,
            fpcr: 0,
            vectors: [Vector(0); 32],
        }
    }
}

/// At reset all registers are zero, and no flag is set.
pub proof fn registers_start_at_zero(r: ExecState, flags: PState)
    requires
        call_ensures(ExecState::initial, (), r),
        call_ensures(PState::default, (), flags),
    ensures
        r.pc == 0,
        r.sp == 0,
        r.pstate.0 == 0,
        r.fpsr == 0,
        r.fpcr == 0,
        forall|i: int| 0 <= i < 31 ==> #[trigger] r.x_registers@[i] == 0,
        forall|i: int| 0 <= i < 32 ==> (#[trigger] r.vectors@[i]).0 == 0,
        flags.0 == 0,
        X_REGISTER_COUNT == 31,
{
}

} // verus!
