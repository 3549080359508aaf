//! Writing a number in the factorial number system and reading such a text
//! back.

use vstd::prelude::*;
use vstd::arithmetic::div_mod::lemma_div_decreases;
use vstd::string::StringExecFns;
use vstd::utf8::encode_utf8;
use crate::digits::{decimal, digit_char, digit_of_char, digit_str, lemma_decimal_reverse};
use crate::factorial::{factorial, lemma_factorial_exceeds};
use crate::places::{
    fact_string, lemma_numerals_prepend, lemma_places_value, lemma_places_value_extend, numerals,
    places, places_from,
};
use crate::reading::{
    fact_string_value, lemma_chars_within_bytes, lemma_prefix_monotonic, lemma_prefix_step,
    prefix_value,
};

verus! {

/// The places held in a vector of machine integers.
pub open spec fn as_places(v: Seq<u64>) -> Seq<nat> {
    Seq::new(v.len(), |i: int| v[i] as nat)
}

/// Appends the decimal numeral of `d`, least significant digit first.
fn push_decimal_reversed(out: &mut String, d: u64)
    ensures
        final(out)@ == old(out)@ + decimal(d as nat).reverse(),
{
    let mut rest: u64 = d;
    out.append(digit_str((rest % 10) as u8));
    rest = rest / 10;
    proof {
        lemma_decimal_reverse(d as nat);
    }
    while rest != 0
        invariant
            rest == 0 ==> out@ == old(out)@ + decimal(d as nat).reverse(),
            rest != 0 ==> out@ + decimal(rest as nat).reverse() == old(out)@ + decimal(
                d as nat,
            ).reverse(),
        decreases rest,
    {
        proof {
            lemma_decimal_reverse(rest as nat);
        }
        let ghost before = out@;
        out.append(digit_str((rest % 10) as u8));
        proof {
            let tail = decimal((rest / 10) as nat).reverse();
            let digit = seq![digit_char((rest % 10) as nat)];
            assert((before + digit) + tail =~= before + (digit + tail));
        }
        rest = rest / 10;
    }
}

/// Writes `nb` in the factorial number system.
///
/// The result is empty for 0. For any other number it has one numeral per
/// place, the most significant place first and the place of radix 1 (always
/// `0`) last; a place of ten or more is written with its decimal digits in
/// reverse.
pub fn dec2_fact_string(nb: u64) -> (res: String)
    ensures
        res@ == fact_string(nb as nat),
{
    let mut found: Vec<u64> = Vec::new();
    let mut step: u64 = 0;
    let mut div: u64 = nb;
    while div != 0
        invariant
            found.len() == step,
            step == 0 ==> div == nb,
            step != 0 ==> nb != 0 && as_places(found@) + places_from(div as nat, step as nat + 1)
                == places(nb as nat),
        decreases div, (if step == 0 { 1nat } else { 0nat }),
    {
        proof {
            if step >= 3 {
                lemma_places_value(nb as nat);
                lemma_places_value_extend(as_places(found@), div as nat);
                lemma_factorial_exceeds(step as nat);
                assert(div * factorial(step as nat) >= factorial(step as nat)) by (nonlinear_arith)
                    requires
                        div >= 1,
                ;
            }
        }
        let ghost low = as_places(found@);
        let ghost before = div;
        step += 1;
        found.push(div % step);
        div = div / step;
        proof {
            if step == 1 {
                assert(as_places(found@) =~= seq![0nat]);
                assert(as_places(found@) + places_from(div as nat, 2) =~= places(nb as nat));
            } else {
                lemma_div_decreases(before as int, step as int);
                assert(as_places(found@) =~= low.push((before % step) as nat));
                assert(low + places_from(before as nat, step as nat) =~= as_places(found@)
                    + places_from(div as nat, step as nat + 1));
            }
        }
    }
    proof {
        if step == 0 {
            assert(as_places(found@) =~= places(nb as nat));
        } else {
            assert(as_places(found@) + Seq::<nat>::empty() =~= as_places(found@));
        }
    }
    let ghost all = as_places(found@);
    let mut res = String::new();
    let mut i: usize = found.len();
    proof {
        assert(all.subrange(i as int, all.len() as int) =~= Seq::<nat>::empty());
        assert(numerals(Seq::<nat>::empty()).reverse() =~= Seq::<char>::empty());
    }
    while i > 0
        invariant
            i <= found.len(),
            all == as_places(found@),
            res@ == numerals(all.subrange(i as int, all.len() as int)).reverse(),
        decreases i,
    {
        i -= 1;
        push_decimal_reversed(&mut res, found[i]);
        proof {
            let rest = all.subrange(i + 1, all.len() as int);
            assert(all.subrange(i as int, all.len() as int) =~= seq![all[i as int]] + rest);
            lemma_numerals_prepend(all[i as int], rest);
            assert((decimal(all[i as int]) + numerals(rest)).reverse() =~= numerals(
                rest,
            ).reverse() + decimal(all[i as int]).reverse());
        }
    }
    proof {
        assert(all.subrange(0, all.len() as int) =~= all);
    }
    res
}

/// Reads a text as a numeral of the factorial number system.
///
/// Every character is one place; a character that is not a decimal digit
/// counts as 0. The text may be any text whose value fits the result type.
pub fn fact_string_2dec(s: String) -> (sum: u64)
    requires
        fact_string_value(s@) <= u64::MAX,
    ensures
        sum == fact_string_value(s@),
{
    let text: &str = s.as_str();
    let len: usize = text.as_bytes().len();
    let ghost bytes: nat = encode_utf8(s@).len();
    proof {
        lemma_chars_within_bytes(s@);
    }
    let mut sum: u64 = 0;
    let mut i: usize = 0;
    for c in it: text.chars()
        invariant
            it.seq() == s@,
            i == it.index(),
            s@.len() <= bytes,
            bytes == len,
            sum == prefix_value(s@, bytes, i as nat),
            prefix_value(s@, bytes, s@.len()) <= u64::MAX,
    {
        let k: u64 = digit_of_char(c);
        proof {
            lemma_prefix_step(s@, bytes, i as nat);
            lemma_prefix_monotonic(s@, bytes, (i + 1) as nat, s@.len());
        }
        sum = sum * ((len - i) as u64) + k;
        i += 1;
    }
    sum
}

/// Reads a text as `fact_string_2dec` does, for any text: `None` when the
/// value does not fit the result type.
pub fn checked_fact_string_2dec(s: &str) -> (res: Option<u64>)
    ensures
        res == if fact_string_value(s@) <= u64::MAX {
            Some(fact_string_value(s@) as u64)
        } else {
            None
        },
{
    let len: usize = s.as_bytes().len();
    let ghost bytes: nat = encode_utf8(s@).len();
    proof {
        lemma_chars_within_bytes(s@);
    }
    let mut sum: u64 = 0;
    let mut i: usize = 0;
    for c in it: s.chars()
        invariant
            it.seq() == s@,
            i == it.index(),
            s@.len() <= bytes,
            bytes == len,
            bytes == encode_utf8(s@).len(),
            sum == prefix_value(s@, bytes, i as nat),
    {
        let k: u64 = digit_of_char(c);
        proof {
            lemma_prefix_step(s@, bytes, i as nat);
            lemma_prefix_monotonic(s@, bytes, (i + 1) as nat, s@.len());
        }
        let scaled: u64 = match sum.checked_mul((len - i) as u64) {
            Some(v) => v,
            None => {
                return None;
            },
        };
        sum = match scaled.checked_add(k) {
            Some(v) => v,
            None => {
                return None;
            },
        };
        i += 1;
    }
    Some(sum)
}

/// Whether `nb`, written in the factorial number system, is the text `exp`.
pub fn testing1(nb: u64, exp: &str) -> (same: bool)
    ensures
        same == (fact_string(nb as nat) == exp@),
{
    let written = dec2_fact_string(nb);
    written == exp.to_owned()
}

/// Whether the text `s`, read as a numeral of the factorial number system,
/// is the number `exp`.
pub fn testing2(s: &str, exp: u64) -> (same: bool)
    ensures
        same == (fact_string_value(s@) == exp),
{
    match checked_fact_string_2dec(s) {
        Some(v) => v == exp,
        None => false,
    }
}

} // verus!
