//! The texts that stand for exactly one number each, and the way back from
//! such a text to itself through the number it stands for.

use vstd::prelude::*;
use vstd::arithmetic::div_mod::lemma_fundamental_div_mod_converse;
use vstd::utf8::is_ascii_chars;
use crate::digits::{char_digit, digit_char};
use crate::factorial::factorial;
use crate::laws::{
    lemma_digits_sum, lemma_fact_string_of_digits, lemma_numerals_of_digits, lemma_place_count,
    lemma_place_in_range,
};
use crate::places::{fact_string, numerals, places, places_from, places_value};
use crate::reading::{fact_string_value, lemma_value_of_ascii};

verus! {

/// Places as a number writes them: none at all, or at least two, with the
/// place of radix 1 first, every place within its radix and the last place
/// not zero.
pub open spec fn canonical_places(p: Seq<nat>) -> bool {
    &&& forall|i: int| 0 <= i < p.len() ==> #[trigger] p[i] <= i
    &&& p.len() != 1
    &&& p.len() >= 2 ==> p.last() != 0
}

/// A text with one decimal digit per place, the most significant place
/// first: empty, or at least two digits that start with a digit other than
/// `0`, end in `0`, and each stay within the radix of their place.
pub open spec fn canonical_text(s: Seq<char>) -> bool {
    &&& forall|i: int|
        0 <= i < s.len() ==> '0' <= #[trigger] s[i] <= '9' && char_digit(s[i]) <= s.len() - 1 - i
    &&& s.len() != 1
    &&& s.len() >= 2 ==> s[0] != '0'
}

/// What the places from index `k` on stand for, counted in units of `k!`.
pub open spec fn upper_value(p: Seq<nat>, k: nat) -> nat
    decreases p.len() - k,
{
    if k >= p.len() {
        0
    } else {
        p[k as int] + (k + 1) * upper_value(p, k + 1)
    }
}

/// The value of places is the value of the first `k` of them plus what the
/// others stand for, times `k!`.
pub proof fn lemma_value_split(p: Seq<nat>, k: nat)
    requires
        k <= p.len(),
    ensures
        places_value(p) == places_value(p.subrange(0, k as int)) + upper_value(p, k) * factorial(k),
    decreases p.len() - k,
{
    if k == p.len() {
        assert(p.subrange(0, k as int) =~= p);
        assert(0 * factorial(k) == 0);
    } else {
        lemma_value_split(p, k + 1);
        let longer = p.subrange(0, k as int + 1);
        assert(longer.drop_last() =~= p.subrange(0, k as int));
        assert(longer.last() == p[k as int]);
        let f = factorial(k);
        let d = p[k as int];
        let rest = upper_value(p, k + 1);
        assert(factorial(k + 1) == (k + 1) * f);
        assert((d + (k + 1) * rest) * f == d * f + rest * ((k + 1) * f)) by (nonlinear_arith);
    }
}

/// Taking apart what the places from index `k` on stand for gives those
/// places back.
pub proof fn lemma_places_from_upper(p: Seq<nat>, k: nat)
    requires
        1 <= k <= p.len(),
        forall|i: int| 0 <= i < p.len() ==> #[trigger] p[i] <= i,
        k < p.len() ==> p.last() != 0,
    ensures
        places_from(upper_value(p, k), k + 1) == p.subrange(k as int, p.len() as int),
    decreases p.len() - k,
{
    let tail = p.subrange(k as int, p.len() as int);
    if k == p.len() {
        assert(places_from(0, k + 1) =~= tail);
    } else {
        let rest = upper_value(p, k + 1);
        let whole = upper_value(p, k);
        let d = p[k as int];
        lemma_places_from_upper(p, k + 1);
        if k + 1 < p.len() {
            // the places above are not empty, so they do not stand for zero
            assert(p.subrange(k as int + 1, p.len() as int).len() > 0);
            assert(rest != 0);
        } else {
            assert(d == p.last());
        }
        assert(whole != 0) by (nonlinear_arith)
            requires
                whole == d + (k + 1) * rest,
                d != 0 || rest != 0,
                d >= 0,
                rest >= 0,
        ;
        lemma_fundamental_div_mod_converse(whole as int, (k + 1) as int, rest as int, d as int);
        assert(places_from(whole, k + 1) =~= seq![d] + places_from(rest, k + 2));
        assert(seq![d] + p.subrange(k as int + 1, p.len() as int) =~= tail);
    }
}

/// No two sequences of canonical places stand for the same number: the
/// places of the number that canonical places stand for are those places.
pub proof fn lemma_places_of_value(p: Seq<nat>)
    requires
        canonical_places(p),
    ensures
        places(places_value(p)) == p,
{
    if p.len() == 0 {
        assert(places(0) =~= p);
    } else {
        lemma_value_split(p, 1);
        let low = p.subrange(0, 1);
        assert(low.drop_last() =~= Seq::<nat>::empty());
        assert(places_value(low.drop_last()) == 0);
        assert(low.last() == 0);
        assert(0 * factorial(0) == 0);
        assert(places_value(low) == 0);
        assert(factorial(1) == 1 * factorial(0));
        let rest = upper_value(p, 1);
        let unit = factorial(1);
        assert(rest * unit == rest) by (nonlinear_arith)
            requires
                unit == 1,
        ;
        lemma_places_from_upper(p, 1);
        assert(p.subrange(1, p.len() as int).len() > 0);
        assert(rest != 0);
        assert(seq![0nat] + p.subrange(1, p.len() as int) =~= p);
    }
}

/// The places of every number are canonical.
pub proof fn lemma_places_are_canonical(n: nat)
    ensures
        canonical_places(places(n)),
{
    let p = places(n);
    assert forall|i: int| 0 <= i < p.len() implies #[trigger] p[i] <= i by {
        lemma_place_in_range(n, i as nat);
    }
    lemma_place_count(n);
}

/// The text of a number whose places are all below ten is canonical.
pub proof fn lemma_written_text_is_canonical(n: nat)
    requires
        forall|i: int| 0 <= i < places(n).len() ==> places(n)[i] < 10,
    ensures
        canonical_text(fact_string(n)),
{
    let p = places(n);
    let s = fact_string(n);
    lemma_fact_string_of_digits(n);
    lemma_places_are_canonical(n);
    assert forall|i: int| 0 <= i < s.len() implies '0' <= #[trigger] s[i] <= '9' && char_digit(
        s[i],
    ) <= s.len() - 1 - i by {
        let d = p[p.len() - 1 - i];
        assert(s[i] == digit_char(d));
        assert(d <= p.len() - 1 - i);
    }
    if s.len() >= 2 {
        assert(s[0] == digit_char(p.last()));
    }
}

/// Writing the number that a canonical text stands for gives the text back.
pub proof fn lemma_write_back(s: Seq<char>)
    requires
        canonical_text(s),
    ensures
        fact_string(fact_string_value(s)) == s,
{
    let len = s.len();
    let p = Seq::new(len, |i: int| char_digit(s[len - 1 - i]));
    assert forall|i: int| 0 <= i < p.len() implies #[trigger] p[i] <= i && p[i] < 10 by {
        let c = s[len - 1 - i];
        assert('0' <= c <= '9');
    }
    assert forall|i: int| 0 <= i < len implies s[i] == digit_char(p[p.len() - 1 - i]) by {
        let c = s[i];
        assert('0' <= c <= '9');
        assert(p[p.len() - 1 - i] == char_digit(c));
    }
    if len >= 2 {
        assert('0' <= s[0] <= '9');
        assert(p.last() == char_digit(s[0]));
        assert(p.last() != 0);
    }
    assert(is_ascii_chars(s)) by {
        assert forall|i: int| 0 <= i < s.len() implies '\0' <= #[trigger] s[i] <= '\u{7f}' by {
            assert('0' <= s[i] <= '9');
        }
    }
    lemma_value_of_ascii(s);
    lemma_digits_sum(p, s, len);
    assert(p.subrange(0, 0) =~= Seq::<nat>::empty());
    assert(fact_string_value(s) == places_value(p));
    lemma_places_of_value(p);
    lemma_numerals_of_digits(p);
    assert(numerals(p).reverse() =~= s);
}

} // verus!
