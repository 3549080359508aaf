//! Decimal digits as characters, and decimal numerals as character sequences.

use vstd::prelude::*;

verus! {

/// The character that writes the decimal digit `d`; `'0'` for anything that
/// is not a digit.
pub open spec fn digit_char(d: nat) -> char {
    if d == 1 {
        '1'
    } else if d == 2 {
        '2'
    } else if d == 3 {
        '3'
    } else if d == 4 {
        '4'
    } else if d == 5 {
        '5'
    } else if d == 6 {
        '6'
    } else if d == 7 {
        '7'
    } else if d == 8 {
        '8'
    } else if d == 9 {
        '9'
    } else {
        '0'
    }
}

/// The value a single character contributes when a text is read as a number:
/// its digit value for `'0'` to `'9'`, and 0 for every other character.
pub open spec fn char_digit(c: char) -> nat {
    if '0' <= c && c <= '9' {
        (c as u32 - '0' as u32) as nat
    } else {
        0
    }
}

/// The decimal numeral of `n`, most significant digit first, without leading
/// zeros; the numeral of 0 is `"0"`.
pub open spec fn decimal(n: nat) -> Seq<char>
    decreases n,
{
    if n < 10 {
        seq![digit_char(n)]
    } else {
        decimal(n / 10).push(digit_char(n % 10))
    }
}

/// Reading back a written digit gives the digit.
pub proof fn lemma_char_digit_of_digit_char(d: nat)
    requires
        d < 10,
    ensures
        char_digit(digit_char(d)) == d,
        '0' <= digit_char(d) <= '9',
{
}

/// Whether every character of `s` is a decimal digit.
pub open spec fn all_digits(s: Seq<char>) -> bool {
    forall|i: int| 0 <= i < s.len() ==> '0' <= #[trigger] s[i] <= '9'
}

/// A decimal numeral is made of decimal digits and is never empty.
pub proof fn lemma_decimal_is_digits(n: nat)
    ensures
        all_digits(decimal(n)),
        decimal(n).len() >= 1,
    decreases n,
{
    if n >= 10 {
        lemma_decimal_is_digits(n / 10);
    }
}

/// Read from its last digit on, a numeral is the last digit of the number
/// followed by the numeral of the rest, read the same way.
pub proof fn lemma_decimal_reverse(n: nat)
    ensures
        decimal(n).reverse() == if n < 10 {
            seq![digit_char(n)]
        } else {
            seq![digit_char(n % 10)] + decimal(n / 10).reverse()
        },
{
    if n < 10 {
        assert(decimal(n).reverse() =~= seq![digit_char(n)]);
    } else {
        assert(decimal(n).reverse() =~= seq![digit_char(n % 10)] + decimal(n / 10).reverse());
    }
}

/// The one-character text that writes the digit `d`.
pub fn digit_str(d: u8) -> (s: &'static str)
    requires
        d < 10,
    ensures
        s@ == seq![digit_char(d as nat)],
{
    proof {
        reveal_strlit("0");
        reveal_strlit("1");
        reveal_strlit("2");
        reveal_strlit("3");
        reveal_strlit("4");
        reveal_strlit("5");
        reveal_strlit("6");
        reveal_strlit("7");
        reveal_strlit("8");
        reveal_strlit("9");
    }
    let s = if d == 0 {
        "0"
    } else if d == 1 {
        "1"
    } else if d == 2 {
        "2"
    } else if d == 3 {
        "3"
    } else if d == 4 {
        "4"
    } else if d == 5 {
        "5"
    } else if d == 6 {
        "6"
    } else if d == 7 {
        "7"
    } else if d == 8 {
        "8"
    } else {
        "9"
    };
    assert(s@ =~= seq![digit_char(d as nat)]);
    s
}

/// The digit value of a character, as `char_digit` defines it.
pub fn digit_of_char(c: char) -> (d: u64)
    ensures
        d == char_digit(c),
        d < 10,
{
    if '0' <= c && c <= '9' {
        (c as u32 - '0' as u32) as u64
    } else {
        0
    }
}

} // verus!
