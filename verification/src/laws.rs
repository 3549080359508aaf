//! What holds of the places of every number, and of writing a number and
//! reading the text back.

use vstd::prelude::*;
use vstd::arithmetic::div_mod::{
    lemma_div_decreases, lemma_div_denominator, lemma_div_is_ordered_by_denominator,
    lemma_fundamental_div_mod, lemma_mod_bound,
};
use vstd::utf8::is_ascii_chars;
use crate::digits::{
    all_digits, char_digit, decimal, digit_char, lemma_char_digit_of_digit_char,
    lemma_decimal_is_digits,
};
use crate::factorial::{
    factorial, lemma_factorial_monotonic, lemma_factorial_positive, lemma_factorial_values,
    lemma_product_above_lower, lemma_product_above_positive, product_above,
};
use crate::places::{
    fact_string, lemma_numerals_prepend, lemma_places_value, numerals, places, places_from,
    places_value,
};
use crate::reading::{fact_string_value, factorial_digits, lemma_value_of_ascii};

verus! {

/// Place `j` after the place of radix `radix` is the remainder, by that
/// place's radix, of `q` divided by the radixes of the places before it.
pub proof fn lemma_places_from_closed_form(q: nat, radix: nat, j: nat)
    requires
        radix >= 2,
        j < places_from(q, radix).len(),
    ensures
        places_from(q, radix)[j as int] == (q / product_above(
            (radix - 1) as nat,
            (radix - 1 + j) as nat,
        )) % (radix + j),
    decreases j,
{
    let low = (radix - 1) as nat;
    if j == 0 {
        assert(product_above(low, low) == 1);
        assert(q / 1 == q);
    } else {
        lemma_div_decreases(q as int, radix as int);
        assert(places_from(q, radix)[j as int] == places_from(q / radix, radix + 1)[j - 1]);
        lemma_places_from_closed_form(q / radix, radix + 1, (j - 1) as nat);
        let inner = product_above(radix, (radix - 1 + j) as nat);
        lemma_product_above_positive(radix, (radix - 1 + j) as nat);
        lemma_product_above_lower(radix, (radix - 1 + j) as nat);
        lemma_div_denominator(q as int, radix as int, inner as int);
    }
}

/// Place `i` of `n` is `n / i!` modulo `i + 1`.
pub proof fn lemma_place_closed_form(n: nat, i: nat)
    requires
        i < places(n).len(),
    ensures
        places(n)[i as int] == (n / factorial(i)) % (i + 1),
{
    if i == 0 {
        assert(factorial(0) == 1);
        assert(n / 1 == n);
        assert(n % 1 == 0);
    } else {
        let j = (i - 1) as nat;
        assert(places(n)[i as int] == places_from(n, 2)[j as int]);
        lemma_places_from_closed_form(n, 2, j);
        lemma_product_above_one(i);
    }
}

/// The product of everything above 1 is the factorial too.
proof fn lemma_product_above_one(hi: nat)
    requires
        hi >= 1,
    ensures
        product_above(1, hi) == factorial(hi),
    decreases hi,
{
    if hi == 1 {
        assert(factorial(1) == 1) by {
            reveal_with_fuel(factorial, 2);
        }
    } else {
        lemma_product_above_one((hi - 1) as nat);
    }
}

/// Place `i` of any number is at most `i`.
pub proof fn lemma_place_in_range(n: nat, i: nat)
    requires
        i < places(n).len(),
    ensures
        places(n)[i as int] <= i,
{
    lemma_place_closed_form(n, i);
    lemma_factorial_positive(i);
    lemma_mod_bound((n / factorial(i)) as int, (i + 1) as int);
}

/// The places of a number other than zero end with a place that is not zero.
pub proof fn lemma_places_from_end(q: nat, radix: nat)
    requires
        radix >= 2,
        q > 0,
    ensures
        places_from(q, radix).len() >= 1,
        places_from(q, radix).last() != 0,
    decreases q,
{
    lemma_div_decreases(q as int, radix as int);
    lemma_fundamental_div_mod(q as int, radix as int);
    let rest = places_from(q / radix, radix + 1);
    if q / radix == 0 {
        assert(rest.len() == 0);
        assert(places_from(q, radix) =~= seq![q % radix]);
        assert(radix * 0 == 0);
    } else {
        lemma_places_from_end(q / radix, radix + 1);
        assert(places_from(q, radix).last() == rest.last());
    }
}

/// Places that each stay within their radix stand for a number below the
/// factorial of their count.
pub proof fn lemma_value_below_factorial(p: Seq<nat>)
    requires
        forall|i: int| 0 <= i < p.len() ==> p[i] <= i,
    ensures
        places_value(p) < factorial(p.len()),
    decreases p.len(),
{
    if p.len() > 0 {
        let k = (p.len() - 1) as nat;
        lemma_value_below_factorial(p.drop_last());
        let f = factorial(k);
        assert(p.last() * f <= k * f) by (nonlinear_arith)
            requires
                p.last() <= k,
        ;
        assert(f + k * f == (k + 1) * f) by (nonlinear_arith);
    }
}

/// A number has exactly as many places as it takes for the factorial of the
/// count to exceed it: with `k` places, `(k - 1)! <= n < k!`.
pub proof fn lemma_place_count(n: nat)
    ensures
        n < factorial(places(n).len()),
        n > 0 ==> places(n).len() >= 2 && places(n).last() != 0 && factorial(
            (places(n).len() - 1) as nat,
        ) <= n,
{
    let p = places(n);
    assert forall|i: int| 0 <= i < p.len() implies p[i] <= i by {
        lemma_place_in_range(n, i as nat);
    }
    lemma_value_below_factorial(p);
    lemma_places_value(n);
    if n > 0 {
        lemma_places_from_end(n, 2);
        assert(p.last() == places_from(n, 2).last());
        let k = (p.len() - 1) as nat;
        let f = factorial(k);
        assert(p.last() * f >= f) by (nonlinear_arith)
            requires
                p.last() >= 1,
        ;
    }
}

/// The numerals of any places are made of decimal digits, at least one for
/// each place.
pub proof fn lemma_numerals_are_digits(p: Seq<nat>)
    ensures
        all_digits(numerals(p)),
        numerals(p).len() >= p.len(),
    decreases p.len(),
{
    if p.len() > 0 {
        lemma_numerals_are_digits(p.drop_last());
        lemma_decimal_is_digits(p.last());
    }
}

/// The text of a number is made of decimal digits, at least one for each
/// place. It is empty for 0 and ends in `0`, the place of radix 1, for every
/// other number.
pub proof fn lemma_fact_string_shape(n: nat)
    ensures
        all_digits(fact_string(n)),
        fact_string(n).len() >= places(n).len(),
        n == 0 ==> fact_string(n).len() == 0,
        n > 0 ==> fact_string(n).len() >= 2 && fact_string(n).last() == '0',
{
    let p = places(n);
    let forward = numerals(p);
    lemma_numerals_are_digits(p);
    assert forall|i: int| 0 <= i < fact_string(n).len() implies '0' <= #[trigger] fact_string(
        n,
    )[i] <= '9' by {
        assert(fact_string(n)[i] == forward[forward.len() - 1 - i]);
    }
    if n > 0 {
        lemma_places_from_end(n, 2);
        lemma_numerals_prepend(0, places_from(n, 2));
        assert(decimal(0) =~= seq!['0']);
        assert(forward[0] == '0');
    }
}

/// Places below ten are written with one character each.
pub proof fn lemma_numerals_of_digits(p: Seq<nat>)
    requires
        forall|i: int| 0 <= i < p.len() ==> p[i] < 10,
    ensures
        numerals(p) == Seq::new(p.len(), |i: int| digit_char(p[i])),
    decreases p.len(),
{
    if p.len() == 0 {
        assert(numerals(p) =~= Seq::new(p.len(), |i: int| digit_char(p[i])));
    } else {
        let front = p.drop_last();
        lemma_numerals_of_digits(front);
        assert(decimal(p.last()) =~= seq![digit_char(p.last())]);
        assert(numerals(p) =~= Seq::new(p.len(), |i: int| digit_char(p[i])));
    }
}

/// The text of a number whose places are all below ten has one decimal
/// digit per place, the most significant place first.
pub proof fn lemma_fact_string_of_digits(n: nat)
    requires
        forall|i: int| 0 <= i < places(n).len() ==> places(n)[i] < 10,
    ensures
        fact_string(n) == Seq::new(
            places(n).len(),
            |i: int| digit_char(places(n)[places(n).len() - 1 - i]),
        ),
        is_ascii_chars(fact_string(n)),
{
    let p = places(n);
    lemma_numerals_of_digits(p);
    let text = Seq::new(p.len(), |i: int| digit_char(p[p.len() - 1 - i]));
    assert(fact_string(n) =~= text);
}

/// Every number below `10 * 10!` has only places below ten.
pub proof fn lemma_small_numbers_have_digits(n: nat)
    requires
        n < 36288000,
    ensures
        forall|i: int| 0 <= i < places(n).len() ==> places(n)[i] < 10,
{
    lemma_factorial_values();
    assert forall|i: int| 0 <= i < places(n).len() implies places(n)[i] < 10 by {
        if i < 10 {
            lemma_place_in_range(n, i as nat);
        } else {
            lemma_place_closed_form(n, i as nat);
            lemma_factorial_monotonic(10, i as nat);
            lemma_div_is_ordered_by_denominator(n as int, 3628800, factorial(i as nat) as int);
            assert(n / 3628800 < 10);
            let q = n / factorial(i as nat);
            assert(q < 10);
            assert(q % ((i + 1) as nat) == q) by (nonlinear_arith)
                requires
                    q < 10,
                    i >= 10,
            ;
        }
    }
}

/// Reading the text of a number gives the number back, whenever all its
/// places are below ten.
pub proof fn lemma_read_back(n: nat)
    requires
        forall|i: int| 0 <= i < places(n).len() ==> places(n)[i] < 10,
    ensures
        fact_string_value(fact_string(n)) == n,
{
    let p = places(n);
    let s = fact_string(n);
    lemma_fact_string_of_digits(n);
    lemma_value_of_ascii(s);
    lemma_digits_sum(p, s, p.len());
    assert(p.subrange(0, 0) =~= Seq::<nat>::empty());
    lemma_places_value(n);
}

/// Reading the text of a number below `10 * 10!` gives the number back.
pub proof fn lemma_read_back_small(n: nat)
    requires
        n < 36288000,
    ensures
        fact_string_value(fact_string(n)) == n,
{
    lemma_small_numbers_have_digits(n);
    lemma_read_back(n);
}

/// Two numbers below `10 * 10!` with the same text are the same number.
pub proof fn lemma_text_tells_small_numbers_apart(a: nat, b: nat)
    requires
        a < 36288000,
        b < 36288000,
        fact_string(a) == fact_string(b),
    ensures
        a == b,
{
    lemma_read_back_small(a);
    lemma_read_back_small(b);
}

/// For places below ten written one digit each, most significant first, the
/// first `upto` digits weigh what the `upto` highest places stand for.
pub proof fn lemma_digits_sum(p: Seq<nat>, s: Seq<char>, upto: nat)
    requires
        upto <= p.len(),
        s.len() == p.len(),
        forall|i: int| 0 <= i < p.len() ==> p[i] < 10,
        forall|i: int| 0 <= i < p.len() ==> s[i] == digit_char(p[p.len() - 1 - i]),
    ensures
        factorial_digits(s, upto) + places_value(p.subrange(0, p.len() - upto)) == places_value(p),
    decreases upto,
{
    if upto == 0 {
        assert(p.subrange(0, p.len() as int) =~= p);
    } else {
        lemma_digits_sum(p, s, (upto - 1) as nat);
        let m = p.len() - upto;
        let longer = p.subrange(0, m + 1);
        assert(longer.drop_last() =~= p.subrange(0, m));
        assert(longer.last() == p[m]);
        assert(s[upto - 1] == digit_char(p[m]));
        lemma_char_digit_of_digit_char(p[m]);
    }
}

} // verus!
