//! Numbers in decimal.

use vstd::prelude::*;
use vstd::string::StringExecFns;

verus! {

/// The digit `d`.
pub open spec fn digit(d: nat) -> char {
    if d == 0 {
        '0'
    } else if d == 1 {
        '1'
    } else if d == 2 {
        '2'
    } else if d == 3 {
        '3'
    } else if d == 4 {
        '4'
    } else if d == 5 {
        '5'
    } else if d == 6 {
        '6'
    } else if d == 7 {
        '7'
    } else if d == 8 {
        '8'
    } else {
        '9'
    }
}

/// A number in decimal, without leading zeros.
pub open spec fn decimal(value: nat) -> Seq<char>
    decreases value,
{
    if value < 10 {
        seq![digit(value)]
    } else {
        decimal(value / 10).push(digit(value % 10))
    }
}

/// Appends a digit.
fn append_digit(text: &mut String, d: u64)
    requires
        d < 10,
    ensures
        final(text)@ == old(text)@.push(digit(d as nat)),
{
    let s = if d == 0 {
        "0"
    } else if d == 1 {
        "1"
    } else if d == 2 {
        "2"
    } else if d == 3 {
        "3"
    } else if d == 4 {
        "4"
    } else if d == 5 {
        "5"
    } else if d == 6 {
        "6"
    } else if d == 7 {
        "7"
    } else if d == 8 {
        "8"
    } else {
        "9"
    };
    proof {
        reveal_strlit("0");
        reveal_strlit("1");
        reveal_strlit("2");
        reveal_strlit("3");
        reveal_strlit("4");
        reveal_strlit("5");
        reveal_strlit("6");
        reveal_strlit("7");
        reveal_strlit("8");
        reveal_strlit("9");
        assert(s@ =~= seq![digit(d as nat)]);
    }
    let ghost before = text@;
    text.append(s);
    assert(text@ =~= before.push(digit(d as nat)));
}

/// Appends a number in decimal.
pub(crate) fn append_decimal(text: &mut String, value: u64)
    ensures
        final(text)@ == old(text)@ + decimal(value as nat),
    decreases value,
{
    let ghost before = text@;
    if value < 10 {
        append_digit(text, value);
    } else {
        append_decimal(text, value / 10);
        append_digit(text, value % 10);
    }
    assert(text@ =~= before + decimal(value as nat));
}

/// No two numbers are written alike.
pub proof fn decimals_are_distinct(a: nat, b: nat)
    requires
        decimal(a) == decimal(b),
    ensures
        a == b,
    decreases a,
{
    lemma_decimal_len(a);
    lemma_decimal_len(b);
    let s = decimal(a);
    if a >= 10 && b >= 10 {
        assert(decimal(a / 10) =~= s.drop_last());
        assert(decimal(b / 10) =~= s.drop_last());
        decimals_are_distinct(a / 10, b / 10);
        assert(s.last() == digit(a % 10) && s.last() == digit(b % 10));
    } else if a < 10 && b < 10 {
        assert(s[0] == digit(a) && s[0] == digit(b));
    } else if a >= 10 {
        lemma_decimal_len(a / 10);
    } else {
        lemma_decimal_len(b / 10);
    }
}

proof fn lemma_decimal_len(v: nat)
    ensures
        decimal(v).len() > 0,
        v >= 10 ==> decimal(v).len() == decimal(v / 10).len() + 1,
{
}

/// The number that digits denote, highest digit first.
pub open spec fn read(s: Seq<char>) -> nat
    decreases s.len(),
{
    if s.len() == 0 {
        0
    } else {
        (10 * read(s.drop_last()) + (s.last() as u32 - '0' as u32)) as nat
    }
}

/// A number in decimal is made of digits that denote it, and its first digit is zero only where
/// it is the only one.
pub proof fn decimals_read_back(value: nat)
    ensures
        decimal(value).len() > 0,
        forall|i: int|
            0 <= i < decimal(value).len() ==> '0' as u32 <= #[trigger] decimal(value)[i] as u32
                && decimal(value)[i] as u32 <= '9' as u32,
        read(decimal(value)) == value,
        decimal(value)[0] == '0' ==> decimal(value).len() == 1,
        value > 0 ==> decimal(value)[0] != '0',
    decreases value,
{
    let s = decimal(value);
    if value < 10 {
        assert(s.drop_last() =~= Seq::empty());
        assert(read(s.drop_last()) == 0);
    } else {
        decimals_read_back(value / 10);
        let d = digit(value % 10);
        assert('0' as u32 <= d as u32 <= '9' as u32);
        assert(d as u32 - '0' as u32 == value % 10);
        assert(s.drop_last() =~= decimal(value / 10));
        assert(s[0] == decimal(value / 10)[0]);
        assert forall|i: int| 0 <= i < s.len() implies '0' as u32 <= #[trigger] s[i] as u32
            && s[i] as u32 <= '9' as u32 by {
            if i < s.len() - 1 {
                assert(s[i] == decimal(value / 10)[i]);
            }
        }
    }
}

} // verus!
