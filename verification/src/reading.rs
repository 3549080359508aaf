//! The number that a text stands for when it is read as a numeral of the
//! factorial number system.
//!
//! Every character counts as one place. The weight of a place depends on how
//! many UTF-8 bytes the text has: in a text of `bytes` bytes the character at
//! index `i` is multiplied by `bytes - j` for every index `j` after `i`. In a
//! text of one-byte characters that product is the factorial of the number of
//! characters that follow.

use vstd::prelude::*;
use vstd::utf8::{encode_scalar, encode_utf8, is_ascii_chars, is_ascii_chars_encode_utf8};
use crate::digits::char_digit;
use crate::factorial::{
    factorial, lemma_factorial_monotonic, lemma_factorial_values, lemma_product_above_lower,
    lemma_product_above_within_factorial, lemma_product_above_zero, product_above,
};

verus! {

/// The weight of the character at index `i` in a text of `chars` characters
/// and `bytes` bytes: the product of `bytes - j` over the indices `j` with
/// `i < j < chars`.
pub open spec fn place_weight(bytes: nat, chars: nat, i: nat) -> nat {
    product_above((bytes - chars) as nat, (bytes - 1 - i) as nat)
}

/// The sum of digit times weight over the first `upto` characters of `s`,
/// with the weights of a text of `chars` characters and `bytes` bytes.
pub open spec fn weighted_digits(s: Seq<char>, bytes: nat, chars: nat, upto: nat) -> nat
    decreases upto,
{
    if upto == 0 {
        0
    } else {
        weighted_digits(s, bytes, chars, (upto - 1) as nat) + char_digit(s[upto - 1])
            * place_weight(bytes, chars, (upto - 1) as nat)
    }
}

/// The number that the text `s` stands for: each character's digit value
/// (0 for a character that is no digit) times the weight of its place.
pub open spec fn fact_string_value(s: Seq<char>) -> nat {
    weighted_digits(s, encode_utf8(s).len(), s.len(), s.len())
}

/// The value of the first `k` characters of `s`, read as a text of their own
/// that keeps the byte count of the whole.
pub open spec fn prefix_value(s: Seq<char>, bytes: nat, k: nat) -> nat {
    weighted_digits(s, bytes, k, k)
}

/// A text has at least as many bytes as characters.
pub proof fn lemma_chars_within_bytes(s: Seq<char>)
    ensures
        s.len() <= encode_utf8(s).len(),
    decreases s.len(),
{
    if s.len() > 0 {
        assert(encode_scalar(s[0] as u32).len() >= 1);
        lemma_chars_within_bytes(s.drop_first());
    }
}

/// Taking one more character into the text multiplies the weight of every
/// earlier place by the same factor.
pub proof fn lemma_weights_scale(s: Seq<char>, bytes: nat, k: nat, upto: nat)
    requires
        upto <= k < bytes,
    ensures
        weighted_digits(s, bytes, k + 1, upto) == (bytes - k) * weighted_digits(s, bytes, k, upto),
    decreases upto,
{
    if upto == 0 {
        assert((bytes - k) * 0 == 0);
    } else {
        let t = (upto - 1) as nat;
        lemma_weights_scale(s, bytes, k, t);
        lemma_product_above_lower((bytes - k) as nat, (bytes - 1 - t) as nat);
        let d = char_digit(s[t as int]);
        let w = place_weight(bytes, k, t);
        let rest = weighted_digits(s, bytes, k, t);
        assert(place_weight(bytes, k + 1, t) == (bytes - k) * w);
        assert((bytes - k) * rest + d * ((bytes - k) * w) == (bytes - k) * (rest + d * w))
            by (nonlinear_arith);
    }
}

/// Reading one more character multiplies what was read so far by the number
/// of bytes not yet accounted for and adds the character's digit.
pub proof fn lemma_prefix_step(s: Seq<char>, bytes: nat, k: nat)
    requires
        k < bytes,
    ensures
        prefix_value(s, bytes, k + 1) == prefix_value(s, bytes, k) * (bytes - k) + char_digit(
            s[k as int],
        ),
{
    lemma_weights_scale(s, bytes, k, k);
    assert(place_weight(bytes, k + 1, k) == 1);
    let d = char_digit(s[k as int]);
    assert(d * 1 == d);
    let v = prefix_value(s, bytes, k);
    assert((bytes - k) * v == v * (bytes - k)) by (nonlinear_arith);
}

/// What has been read never shrinks as more characters are read.
pub proof fn lemma_prefix_monotonic(s: Seq<char>, bytes: nat, k: nat, n: nat)
    requires
        k <= n <= bytes,
    ensures
        prefix_value(s, bytes, k) <= prefix_value(s, bytes, n),
    decreases n - k,
{
    if k < n {
        lemma_prefix_step(s, bytes, k);
        let v = prefix_value(s, bytes, k);
        assert(v * (bytes - k) >= v) by (nonlinear_arith)
            requires
                bytes - k >= 1,
                v >= 0,
        ;
        lemma_prefix_monotonic(s, bytes, k + 1, n);
    }
}

/// The weight of a place is the weight of the next place times the number of
/// bytes left after it.
pub proof fn lemma_weight_step(bytes: nat, chars: nat, t: nat)
    requires
        t + 1 < chars <= bytes,
    ensures
        place_weight(bytes, chars, t) == (bytes - 1 - t) * place_weight(bytes, chars, t + 1),
{
}

/// As long as two bytes or more are left, each weight is at least twice the
/// next, so the digits read so far weigh less than twice nine times the
/// first weight, with nine times the last weight to spare.
proof fn lemma_digits_bound(s: Seq<char>, bytes: nat, chars: nat, upto: nat)
    requires
        1 <= upto <= chars <= bytes,
        upto + 1 <= bytes,
    ensures
        weighted_digits(s, bytes, chars, upto) + 9 * place_weight(bytes, chars, (upto - 1) as nat)
            <= 18 * place_weight(bytes, chars, 0),
    decreases upto,
{
    let last = (upto - 1) as nat;
    let d = char_digit(s[last as int]);
    let w = place_weight(bytes, chars, last);
    assert(d * w <= 9 * w) by (nonlinear_arith)
        requires
            d <= 9,
    ;
    if upto == 1 {
        assert(weighted_digits(s, bytes, chars, 0) == 0);
    } else {
        let before = (upto - 2) as nat;
        lemma_digits_bound(s, bytes, chars, last);
        lemma_weight_step(bytes, chars, before);
        let factor = bytes - 1 - before;
        assert(factor * w >= 2 * w) by (nonlinear_arith)
            requires
                factor >= 2,
        ;
    }
}

/// The value of a text is at most eighteen times the factorial of one less
/// than its number of bytes.
pub proof fn lemma_value_bound(s: Seq<char>)
    requires
        s.len() >= 1,
    ensures
        fact_string_value(s) <= 18 * factorial((encode_utf8(s).len() - 1) as nat),
{
    let bytes = encode_utf8(s).len();
    let chars = s.len();
    lemma_chars_within_bytes(s);
    let first = place_weight(bytes, chars, 0);
    lemma_product_above_within_factorial((bytes - chars) as nat, (bytes - 1) as nat);
    if chars < bytes {
        lemma_digits_bound(s, bytes, chars, chars);
    } else {
        let last = (chars - 1) as nat;
        let d = char_digit(s[last as int]);
        let w = place_weight(bytes, chars, last);
        assert(w == 1);
        assert(d * w <= 9 * w) by (nonlinear_arith)
            requires
                d <= 9,
        ;
        if chars == 1 {
            assert(weighted_digits(s, bytes, chars, 0) == 0);
        } else {
            lemma_digits_bound(s, bytes, chars, last);
            lemma_weight_step(bytes, chars, (chars - 2) as nat);
        }
    }
}

/// A text of at most twenty bytes stands for a number that fits in
/// sixty-four bits.
pub proof fn lemma_short_text_fits(s: Seq<char>)
    requires
        encode_utf8(s).len() <= 20,
    ensures
        fact_string_value(s) <= u64::MAX,
{
    if s.len() >= 1 {
        lemma_value_bound(s);
        lemma_factorial_monotonic((encode_utf8(s).len() - 1) as nat, 19);
        lemma_factorial_values();
    }
}

/// The sum of digit times factorial of the number of characters that follow,
/// over the first `upto` characters of `s`.
pub open spec fn factorial_digits(s: Seq<char>, upto: nat) -> nat
    decreases upto,
{
    if upto == 0 {
        0
    } else {
        factorial_digits(s, (upto - 1) as nat) + char_digit(s[upto - 1]) * factorial(
            (s.len() - upto) as nat,
        )
    }
}

/// In a text of one-byte characters the weight of a place is the factorial
/// of the number of characters after it.
pub proof fn lemma_value_of_ascii(s: Seq<char>)
    requires
        is_ascii_chars(s),
    ensures
        fact_string_value(s) == factorial_digits(s, s.len()),
{
    is_ascii_chars_encode_utf8(s);
    lemma_ascii_weights(s, s.len());
}

proof fn lemma_ascii_weights(s: Seq<char>, upto: nat)
    requires
        upto <= s.len(),
    ensures
        weighted_digits(s, s.len(), s.len(), upto) == factorial_digits(s, upto),
    decreases upto,
{
    if upto > 0 {
        lemma_ascii_weights(s, (upto - 1) as nat);
        lemma_product_above_zero((s.len() - upto) as nat);
    }
}

} // verus!
