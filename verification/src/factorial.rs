//! Factorials and the partial products they are made of.

use vstd::prelude::*;

verus! {

/// `n!`, the product of the integers from 1 to `n`.
pub open spec fn factorial(n: nat) -> nat
    decreases n,
{
    if n == 0 {
        1
    } else {
        n * factorial((n - 1) as nat)
    }
}

/// The product of the integers above `lo` up to and including `hi`, that is
/// `hi! / lo!`; 1 when there is no such integer.
pub open spec fn product_above(lo: nat, hi: nat) -> nat
    decreases hi,
{
    if hi <= lo {
        1
    } else {
        hi * product_above(lo, (hi - 1) as nat)
    }
}

/// The factorials that matter for sixty-four bits: `20!` fits and `21!` does
/// not.
pub proof fn lemma_factorial_values()
    ensures
        factorial(10) == 3628800,
        factorial(19) == 121645100408832000,
        factorial(20) == 2432902008176640000,
        factorial(21) > u64::MAX,
{
    assert(factorial(0) == 1);
    assert(factorial(1) == 1) by {
        assert(factorial(1) == 1 * factorial(0));
    }
    assert(factorial(2) == 2) by {
        assert(factorial(2) == 2 * factorial(1));
    }
    assert(factorial(3) == 6) by {
        assert(factorial(3) == 3 * factorial(2));
    }
    assert(factorial(4) == 24) by {
        assert(factorial(4) == 4 * factorial(3));
    }
    assert(factorial(5) == 120) by {
        assert(factorial(5) == 5 * factorial(4));
    }
    assert(factorial(6) == 720) by {
        assert(factorial(6) == 6 * factorial(5));
    }
    assert(factorial(7) == 5040) by {
        assert(factorial(7) == 7 * factorial(6));
    }
    assert(factorial(8) == 40320) by {
        assert(factorial(8) == 8 * factorial(7));
    }
    assert(factorial(9) == 362880) by {
        assert(factorial(9) == 9 * factorial(8));
    }
    assert(factorial(10) == 3628800) by {
        assert(factorial(10) == 10 * factorial(9));
    }
    assert(factorial(11) == 39916800) by {
        assert(factorial(11) == 11 * factorial(10));
    }
    assert(factorial(12) == 479001600) by {
        assert(factorial(12) == 12 * factorial(11));
    }
    assert(factorial(13) == 6227020800) by {
        assert(factorial(13) == 13 * factorial(12));
    }
    assert(factorial(14) == 87178291200) by {
        assert(factorial(14) == 14 * factorial(13));
    }
    assert(factorial(15) == 1307674368000) by {
        assert(factorial(15) == 15 * factorial(14));
    }
    assert(factorial(16) == 20922789888000) by {
        assert(factorial(16) == 16 * factorial(15));
    }
    assert(factorial(17) == 355687428096000) by {
        assert(factorial(17) == 17 * factorial(16));
    }
    assert(factorial(18) == 6402373705728000) by {
        assert(factorial(18) == 18 * factorial(17));
    }
    assert(factorial(19) == 121645100408832000) by {
        assert(factorial(19) == 19 * factorial(18));
    }
    assert(factorial(20) == 2432902008176640000) by {
        assert(factorial(20) == 20 * factorial(19));
    }
    assert(factorial(21) == 21 * factorial(20));
}

/// A factorial is never zero.
pub proof fn lemma_factorial_positive(n: nat)
    ensures
        factorial(n) >= 1,
    decreases n,
{
    if n > 0 {
        lemma_factorial_positive((n - 1) as nat);
        assert(n * factorial((n - 1) as nat) >= 1) by (nonlinear_arith)
            requires
                n >= 1,
                factorial((n - 1) as nat) >= 1,
        ;
    }
}

/// From 3 on, a factorial is larger than its argument.
pub proof fn lemma_factorial_exceeds(n: nat)
    requires
        n >= 3,
    ensures
        factorial(n) > n,
    decreases n,
{
    if n == 3 {
        assert(factorial(3) == 6) by {
            reveal_with_fuel(factorial, 4);
        }
    } else {
        lemma_factorial_exceeds((n - 1) as nat);
        assert(n * factorial((n - 1) as nat) > n) by (nonlinear_arith)
            requires
                n >= 4,
                factorial((n - 1) as nat) > n - 1,
        ;
    }
}

/// Factorials do not decrease.
pub proof fn lemma_factorial_monotonic(m: nat, n: nat)
    requires
        m <= n,
    ensures
        factorial(m) <= factorial(n),
    decreases n,
{
    if m < n {
        lemma_factorial_monotonic(m, (n - 1) as nat);
        lemma_factorial_positive((n - 1) as nat);
        assert(n * factorial((n - 1) as nat) >= factorial((n - 1) as nat)) by (nonlinear_arith)
            requires
                n >= 1,
        ;
    }
}

/// A partial product is never zero.
pub proof fn lemma_product_above_positive(lo: nat, hi: nat)
    ensures
        product_above(lo, hi) >= 1,
    decreases hi,
{
    if hi > lo {
        lemma_product_above_positive(lo, (hi - 1) as nat);
        assert(hi * product_above(lo, (hi - 1) as nat) >= 1) by (nonlinear_arith)
            requires
                hi >= 1,
                product_above(lo, (hi - 1) as nat) >= 1,
        ;
    }
}

/// A partial product is at most the whole factorial.
pub proof fn lemma_product_above_within_factorial(lo: nat, hi: nat)
    ensures
        product_above(lo, hi) <= factorial(hi),
    decreases hi,
{
    lemma_factorial_positive(hi);
    if hi > lo {
        lemma_product_above_within_factorial(lo, (hi - 1) as nat);
        let p = product_above(lo, (hi - 1) as nat);
        let f = factorial((hi - 1) as nat);
        assert(hi * p <= hi * f) by (nonlinear_arith)
            requires
                p <= f,
        ;
    }
}

/// The product of everything above 0 is the factorial.
pub proof fn lemma_product_above_zero(hi: nat)
    ensures
        product_above(0, hi) == factorial(hi),
    decreases hi,
{
    if hi > 0 {
        lemma_product_above_zero((hi - 1) as nat);
    }
}

/// Lowering the bound by one brings in one more factor.
pub proof fn lemma_product_above_lower(lo: nat, hi: nat)
    requires
        1 <= lo <= hi,
    ensures
        product_above((lo - 1) as nat, hi) == lo * product_above(lo, hi),
    decreases hi,
{
    if hi == lo {
        assert(product_above(lo, hi) == 1);
        assert(product_above((lo - 1) as nat, (hi - 1) as nat) == 1);
    } else {
        lemma_product_above_lower(lo, (hi - 1) as nat);
        let p = product_above(lo, (hi - 1) as nat);
        assert(hi * (lo * p) == lo * (hi * p)) by (nonlinear_arith);
    }
}

} // verus!
