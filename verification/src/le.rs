//! Little-endian values.
//!
//! [`value_of`] is the number that a byte sequence denotes, lowest byte first.
//! [`bytes_of`] is the inverse: the bytes of a number at a given width.

use vstd::arithmetic::power::pow;
use vstd::prelude::*;

verus! {

/// The number of values that `n` bytes can hold.
pub open spec fn pow256(n: nat) -> nat
    decreases n,
{
    if n == 0 {
        1
    } else {
        256 * pow256((n - 1) as nat)
    }
}

/// The number that `s` denotes, lowest byte first.
pub open spec fn value_of(s: Seq<u8>) -> nat
    decreases s.len(),
{
    if s.len() == 0 {
        0
    } else {
        s[0] as nat + 256 * value_of(s.drop_first())
    }
}

/// The lowest `n` bytes of `v`, lowest byte first.
pub open spec fn bytes_of(v: nat, n: nat) -> Seq<u8>
    decreases n,
{
    if n == 0 {
        Seq::empty()
    } else {
        seq![(v % 256) as u8] + bytes_of(v / 256, (n - 1) as nat)
    }
}

/// `s` with the bytes of `data` written over it from position `at` on.
pub open spec fn write_at(s: Seq<u8>, at: int, data: Seq<u8>) -> Seq<u8> {
    Seq::new(s.len(), |i: int| if at <= i < at + data.len() { data[i - at] } else { s[i] })
}

/// `bytes_of` yields as many bytes as were asked for.
pub proof fn bytes_of_len(v: nat, n: nat)
    ensures
        bytes_of(v, n).len() == n,
    decreases n,
{
    if n > 0 {
        bytes_of_len(v / 256, (n - 1) as nat);
    }
}

/// A sequence of `n` bytes denotes a number below `pow256(n)`.
pub proof fn value_of_bound(s: Seq<u8>)
    ensures
        value_of(s) < pow256(s.len()),
    decreases s.len(),
{
    if s.len() > 0 {
        value_of_bound(s.drop_first());
    }
}

/// Reading back the bytes of a number gives the number, as far as the width holds it.
pub proof fn value_of_bytes_of(v: nat, n: nat)
    requires
        v < pow256(n),
    ensures
        value_of(bytes_of(v, n)) == v,
    decreases n,
{
    if n > 0 {
        let rest = bytes_of(v / 256, (n - 1) as nat);
        value_of_bytes_of(v / 256, (n - 1) as nat);
        assert(bytes_of(v, n).drop_first() =~= rest);
    }
}

/// The bytes of the number that a sequence denotes are the sequence.
pub proof fn bytes_of_value_of(s: Seq<u8>)
    ensures
        bytes_of(value_of(s), s.len()) == s,
    decreases s.len(),
{
    if s.len() > 0 {
        let rest = s.drop_first();
        bytes_of_value_of(rest);
        let v = value_of(s);
        assert(v % 256 == s[0] as nat && v / 256 == value_of(rest));
        assert(seq![s[0]] + rest =~= s);
    }
}

/// The value of a concatenation, by parts.
pub(crate) proof fn value_of_concat(a: Seq<u8>, b: Seq<u8>)
    ensures
        value_of(a + b) == value_of(a) + pow256(a.len()) * value_of(b),
    decreases a.len(),
{
    if a.len() == 0 {
        assert(a + b =~= b);
        assert(1 * value_of(b) == value_of(b));
    } else {
        value_of_concat(a.drop_first(), b);
        assert((a + b).drop_first() =~= a.drop_first() + b);
        let p = pow256((a.len() - 1) as nat);
        let x = value_of(b);
        assert(256 * (p * x) == (256 * p) * x) by (nonlinear_arith);
    }
}

/// Cutting a sequence after `k` bytes divides its value by `pow256(k)`.
pub(crate) proof fn value_of_split(s: Seq<u8>, k: nat)
    requires
        k <= s.len(),
    ensures
        value_of(s.take(k as int)) == value_of(s) % pow256(k),
        value_of(s.skip(k as int)) == value_of(s) / pow256(k),
{
    let lo = s.take(k as int);
    let hi = s.skip(k as int);
    assert(lo + hi =~= s);
    value_of_concat(lo, hi);
    value_of_bound(lo);
    vstd::arithmetic::mul::lemma_mul_is_commutative(pow256(k) as int, value_of(hi) as int);
    vstd::arithmetic::div_mod::lemma_fundamental_div_mod_converse(
        value_of(s) as int,
        pow256(k) as int,
        value_of(hi) as int,
        value_of(lo) as int,
    );
}

/// One byte further up: how a value grows when a byte is put in front.
pub(crate) proof fn value_of_step(s: Seq<u8>, i: int, n: int)
    requires
        0 <= i < n <= s.len(),
    ensures
        value_of(s.subrange(i, n)) == s[i] as nat + 256 * value_of(s.subrange(i + 1, n)),
{
    assert(s.subrange(i, n).drop_first() =~= s.subrange(i + 1, n));
}

/// Appending one byte to a little-endian rendering.
pub(crate) proof fn bytes_of_push(v: nat, n: nat)
    ensures
        bytes_of(v, n + 1) == bytes_of(v, n).push(((v / pow256(n)) % 256) as u8),
    decreases n,
{
    if n == 0 {
        assert(v / 1 == v);
        assert(bytes_of(v / 256, 0) =~= Seq::empty());
        assert(bytes_of(v, 1) =~= bytes_of(v, 0).push((v % 256) as u8));
    } else {
        bytes_of_push(v / 256, (n - 1) as nat);
        let p = pow256((n - 1) as nat);
        pow256_pos((n - 1) as nat);
        assert(v / (256 * p) == (v / 256) / p) by {
            vstd::arithmetic::div_mod::lemma_div_denominator(v as int, 256, p as int);
        }
        assert(bytes_of(v, n + 1) =~= bytes_of(v, n).push(((v / pow256(n)) % 256) as u8));
    }
}

/// The lowest `n` bytes of `value`, lowest byte first.
pub fn to_le_bytes(value: u64, n: usize) -> (r: Vec<u8>)
    requires
        n <= 8,
    ensures
        r@ == bytes_of(value as nat, n as nat),
{
    let mut bytes: Vec<u8> = Vec::new();
    let mut rest: u64 = value;
    assert(value as nat / 1 == value);
    let mut i: usize = 0;
    while i < n
        invariant
            i <= n <= 8,
            rest as nat == value as nat / pow256(i as nat),
            bytes@ == bytes_of(value as nat, i as nat),
        decreases n - i,
    {
        proof {
            bytes_of_push(value as nat, i as nat);
            pow256_pos(i as nat);
            vstd::arithmetic::div_mod::lemma_div_denominator(
                value as int,
                pow256(i as nat) as int,
                256,
            );
            assert(pow256(i as nat) * 256 == pow256((i + 1) as nat));
        }
        bytes.push((rest % 256) as u8);
        rest = rest / 256;
        i = i + 1;
    }
    bytes
}

pub(crate) proof fn pow256_pos(n: nat)
    ensures
        pow256(n) > 0,
    decreases n,
{
    if n > 0 {
        pow256_pos((n - 1) as nat);
    }
}

/// The powers that the scalar widths need.
pub(crate) proof fn pow256_values()
    ensures
        pow256(0) == 1,
        pow256(1) == 0x100,
        pow256(2) == 0x1_0000,
        pow256(3) == 0x100_0000,
        pow256(4) == 0x1_0000_0000,
        pow256(5) == 0x100_0000_0000,
        pow256(6) == 0x1_0000_0000_0000,
        pow256(7) == 0x100_0000_0000_0000,
        pow256(8) == 0x1_0000_0000_0000_0000,
{
    reveal_with_fuel(pow256, 9);
}

/// `value` is the number whose digits, to the base 256 and lowest first, are the `n` bytes of
/// `s` from `at` on.
pub open spec fn has_digits(s: Seq<u8>, at: int, n: nat, value: int) -> bool {
    &&& 0 <= value < pow(256, n)
    &&& forall|i: nat| i < n ==> (value / #[trigger] pow(256, i)) % 256 == s[at + i]
}

proof fn pow256_is_pow(n: nat)
    ensures
        pow256(n) == pow(256, n),
    decreases n,
{
    reveal(pow);
    if n > 0 {
        pow256_is_pow((n - 1) as nat);
    }
}

/// The bytes that a number is read from are its digits to the base 256.
pub proof fn values_have_their_bytes(s: Seq<u8>)
    ensures
        has_digits(s, 0, s.len(), value_of(s) as int),
{
    let v = value_of(s) as int;
    value_of_bound(s);
    pow256_is_pow(s.len());
    assert forall|i: nat| i < s.len() implies (v / #[trigger] pow(256, i)) % 256 == s[i as int] by {
        pow256_is_pow(i);
        value_of_split(s, i);
        let hi = s.skip(i as int);
        assert(hi[0] == s[i as int]);
        assert(value_of(hi) % 256 == hi[0]);
    }
}

/// The bytes that a number is written as are its digits to the base 256.
pub proof fn bytes_are_digits(value: u64, n: usize, r: Vec<u8>)
    requires
        n <= 8,
        call_ensures(to_le_bytes, (value, n), r),
    ensures
        r@.len() == n,
        forall|i: nat| i < n ==> (value as int / #[trigger] pow(256, i)) % 256 == r@[i as int],
{
    bytes_of_len(value as nat, n as nat);
    assert forall|i: nat| i < n implies (value as int / #[trigger] pow(256, i)) % 256
        == r@[i as int] by {
        pow256_is_pow(i);
        byte_of(value as nat, n as nat, i);
    }
}

/// Byte `i` of a number.
pub(crate) proof fn byte_of(v: nat, n: nat, i: nat)
    requires
        i < n,
    ensures
        bytes_of(v, n).len() == n,
        bytes_of(v, n)[i as int] == (v as int / pow(256, i)) % 256,
    decreases n,
{
    bytes_of_len(v, n);
    reveal(pow);
    if i > 0 {
        byte_of(v / 256, (n - 1) as nat, (i - 1) as nat);
        pow256_is_pow((i - 1) as nat);
        pow256_pos((i - 1) as nat);
        vstd::arithmetic::div_mod::lemma_div_denominator(
            v as int,
            256,
            pow(256, (i - 1) as nat),
        );
    } else {
        assert(v as int / 1 == v);
    }
}

} // verus!
