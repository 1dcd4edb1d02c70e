//! Arithmetic of pages: which page an address lies in, and where.

use vstd::prelude::*;

verus! {

/// An address is its page's first address plus its offset.
pub proof fn lemma_page_parts(a: nat, ps: nat)
    requires
        ps > 0,
    ensures
        a == (a / ps) * ps + a % ps,
        a % ps < ps,
{
    vstd::arithmetic::div_mod::lemma_fundamental_div_mod(a as int, ps as int);
    vstd::arithmetic::mul::lemma_mul_is_commutative(ps as int, (a / ps) as int);
}

/// The addresses `p * ps .. (p + 1) * ps` are those of page `p`.
pub proof fn lemma_page_of(a: nat, p: nat, ps: nat)
    requires
        ps > 0,
        p * ps <= a < p * ps + ps,
    ensures
        a / ps == p,
        a % ps == a - p * ps,
{
    vstd::arithmetic::div_mod::lemma_fundamental_div_mod_converse(
        a as int,
        ps as int,
        p as int,
        a - p * ps,
    );
}

/// Pages keep the order of addresses.
pub proof fn lemma_page_order(a: nat, b: nat, ps: nat)
    requires
        ps > 0,
        a <= b,
    ensures
        a / ps <= b / ps,
{
    vstd::arithmetic::div_mod::lemma_div_is_ordered(a as int, b as int, ps as int);
}

/// A page that starts after another starts at least a page size later.
pub proof fn lemma_page_starts(p: nat, q: nat, ps: nat)
    requires
        p < q,
    ensures
        p * ps + ps <= q * ps,
{
    assert(p * ps + ps == (p + 1) * ps) by (nonlinear_arith);
    vstd::arithmetic::mul::lemma_mul_inequality((p + 1) as int, q as int, ps as int);
}

/// A page-aligned start and a page-aligned size give a page-aligned end.
pub proof fn lemma_aligned_sum(a: nat, b: nat, ps: nat)
    requires
        ps > 0,
        a % ps == 0,
        b % ps == 0,
    ensures
        (a + b) % ps == 0,
        (a + b) / ps == a / ps + b / ps,
{
    lemma_page_parts(a, ps);
    lemma_page_parts(b, ps);
    let q = a / ps + b / ps;
    assert((a / ps) * ps + (b / ps) * ps == q * ps) by (nonlinear_arith)
        requires
            q == a / ps + b / ps,
    ;
    lemma_page_of(a + b, q, ps);
}

} // verus!
