//! The places of a number in the factorial number system, and the text that
//! writes them.
//!
//! Place `i` (counted from 0 at the least significant end) has radix `i + 1`
//! and weight `i!`, so place 0 is always 0.

use vstd::prelude::*;
use vstd::arithmetic::div_mod::{lemma_div_decreases, lemma_fundamental_div_mod};
use crate::digits::decimal;
use crate::factorial::factorial;

verus! {

/// The places of `n`, least significant first, starting at the place whose
/// radix is `radix` and ending with the last place that is not zero.
pub open spec fn places_from(n: nat, radix: nat) -> Seq<nat>
    decreases n,
{
    if n == 0 || radix < 2 {
        Seq::empty()
    } else {
        proof {
            lemma_div_decreases(n as int, radix as int);
        }
        seq![n % radix] + places_from(n / radix, radix + 1)
    }
}

/// All places of `n`, least significant first. Zero has no places; any other
/// number starts with the place of radix 1, which is 0.
pub open spec fn places(n: nat) -> Seq<nat> {
    if n == 0 {
        Seq::empty()
    } else {
        seq![0nat] + places_from(n, 2)
    }
}

/// The number that a sequence of places stands for: place `i` times `i!`,
/// summed.
pub open spec fn places_value(p: Seq<nat>) -> nat
    decreases p.len(),
{
    if p.len() == 0 {
        0
    } else {
        places_value(p.drop_last()) + p.last() * factorial((p.len() - 1) as nat)
    }
}

/// The decimal numerals of the places, one after the other.
pub open spec fn numerals(p: Seq<nat>) -> Seq<char>
    decreases p.len(),
{
    if p.len() == 0 {
        Seq::empty()
    } else {
        numerals(p.drop_last()) + decimal(p.last())
    }
}

/// The text of `n` in the factorial number system: the numerals of its
/// places from the least significant one on, and the whole of that reversed.
///
/// A place below ten is one character, so for every number whose places are
/// all below ten this is the usual notation, most significant place first.
/// A place of ten or more appears with its decimal digits in reverse.
pub open spec fn fact_string(n: nat) -> Seq<char> {
    numerals(places(n)).reverse()
}

/// Writing a place in front of others puts its numeral in front of theirs.
pub proof fn lemma_numerals_prepend(d: nat, q: Seq<nat>)
    ensures
        numerals(seq![d] + q) == decimal(d) + numerals(q),
    decreases q.len(),
{
    let whole = seq![d] + q;
    if q.len() == 0 {
        assert(whole.drop_last() =~= Seq::<nat>::empty());
        assert(numerals(whole.drop_last()) =~= Seq::<char>::empty());
        assert(numerals(whole) =~= decimal(d) + numerals(q));
    } else {
        assert(whole.drop_last() =~= seq![d] + q.drop_last());
        assert(whole.last() == q.last());
        lemma_numerals_prepend(d, q.drop_last());
        assert(numerals(whole) =~= decimal(d) + numerals(q));
    }
}

/// The value of some low places followed by the places of `q` from the next
/// radix on is the value of the low places plus `q` times the weight of the
/// next place.
pub proof fn lemma_places_value_extend(low: Seq<nat>, q: nat)
    requires
        low.len() >= 1,
    ensures
        places_value(low + places_from(q, low.len() + 1)) == places_value(low) + q * factorial(
            low.len(),
        ),
    decreases q,
{
    let radix = low.len() + 1;
    if q == 0 {
        assert(low + places_from(q, radix) =~= low);
    } else {
        let next = low.push(q % radix);
        assert(low + places_from(q, radix) =~= next + places_from(q / radix, next.len() + 1));
        lemma_div_decreases(q as int, radix as int);
        lemma_places_value_extend(next, q / radix);
        assert(next.drop_last() =~= low);
        assert(next.last() == q % radix);
        assert(factorial(radix) == radix * factorial(low.len()));
        lemma_fundamental_div_mod(q as int, radix as int);
        let f = factorial(low.len());
        let hi = q / radix;
        let lo = q % radix;
        assert(lo * f + hi * (radix * f) == q * f) by (nonlinear_arith)
            requires
                q == radix * hi + lo,
        ;
    }
}

/// The places of a number stand for that number.
pub proof fn lemma_places_value(n: nat)
    ensures
        places_value(places(n)) == n,
{
    if n > 0 {
        let low = seq![0nat];
        assert(low.drop_last() =~= Seq::<nat>::empty());
        assert(places_value(low.drop_last()) == 0);
        assert(places_value(low) == 0) by {
            assert(low.last() == 0);
            assert(0 * factorial(0) == 0);
        }
        lemma_places_value_extend(low, n);
        assert(factorial(1) == 1) by {
            reveal_with_fuel(factorial, 2);
        }
        assert(n * 1 == n);
    }
}

} // verus!
