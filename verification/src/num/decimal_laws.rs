//! How far the written numbers are from the values they stand for.
use vstd::prelude::*;
use vstd::arithmetic::div_mod::lemma_fundamental_div_mod;
use vstd::arithmetic::power2::{lemma_pow2_pos, pow2};
use crate::num::binary::{units, Width};
use crate::num::decimal::{
    all_digits, fixed, in_places, lemma_decimal_digits, lemma_leading_zeros, magnitude, pad_left,
    round_half_even, sign_set, zeros,
};
use crate::num::natural::{lemma_pow10_pos, pow10};
use crate::text::{decimal, digits_value, is_digit, is_space, one_word};

verus! {

/// `text` is a numeral: `-` where it is negative, digits, a point, and digits.
pub open spec fn is_numeral(
    text: Seq<char>,
    negative: bool,
    whole: Seq<char>,
    fraction: Seq<char>,
) -> bool {
    &&& whole.len() > 0
    &&& all_digits(whole)
    &&& all_digits(fraction)
    &&& text == (if negative {
        seq!['-'] + whole + seq!['.'] + fraction
    } else {
        whole + seq!['.'] + fraction
    })
}

/// `v` steps of `10^-places` are at most half a step from the value of the
/// pattern `b`, and an even number of them where it is half a step.
pub open spec fn within_half_a_step(w: Width, b: nat, v: nat, places: nat) -> bool {
    let off = 2 * (v * pow2(w.scale()) - units(w, b) * pow10(places));
    &&& -pow2(w.scale()) <= off <= pow2(w.scale())
    &&& off == pow2(w.scale()) || off == -pow2(w.scale()) ==> v % 2 == 0
}

/// `text` writes the value of the pattern `bits` with `places` digits after the
/// point, at most half a unit of the last of them off: where it is a finite number,
/// a numeral with its sign, and otherwise its name.
pub open spec fn writes(w: Width, bits: nat, places: nat, text: Seq<char>) -> bool {
    let b = magnitude(w, bits);
    if b > w.infinity() {
        text == "NaN"@
    } else if b == w.infinity() {
        text == (if sign_set(w, bits) {
            "-inf"@
        } else {
            "inf"@
        })
    } else {
        exists|whole: Seq<char>, fraction: Seq<char>| #[trigger]
            is_numeral(text, sign_set(w, bits), whole, fraction) && fraction.len() == places
                && within_half_a_step(w, b, digits_value(whole + fraction), places)
    }
}

/// What digits in a row stand for.
pub proof fn lemma_digits_join(a: Seq<char>, b: Seq<char>)
    ensures
        digits_value(a + b) == digits_value(a) * pow10(b.len()) + digits_value(b),
    decreases b.len(),
{
    if b.len() == 0 {
        assert(a + b =~= a);
        assert(digits_value(a) * pow10(0) == digits_value(a)) by (nonlinear_arith)
            requires
                pow10(0) == 1,
        ;
    } else {
        let c = b.drop_last();
        lemma_digits_join(a, c);
        assert((a + b).drop_last() =~= a + c);
        assert((a + b).last() == b.last());
        let x = digits_value(a);
        let p = pow10(c.len());
        assert(pow10(b.len()) == 10 * p);
        assert(x * p * 10 == x * (10 * p)) by (nonlinear_arith);
        assert((x * p + digits_value(c)) * 10 == x * p * 10 + digits_value(c) * 10)
            by (nonlinear_arith);
    }
}

/// A number below a power of ten has no more digits than the power has zeros.
proof fn lemma_decimal_fits(n: nat, places: nat)
    requires
        places > 0,
        n < pow10(places),
    ensures
        decimal(n).len() <= places,
    decreases places,
{
    if n >= 10 {
        if places == 1 {
            assert(pow10(1) == 10 * pow10(0));
            assert(pow10(0) == 1);
        } else {
            let p = pow10((places - 1) as nat);
            assert(pow10(places) == 10 * p);
            assert(n / 10 < p);
            lemma_decimal_fits(n / 10, (places - 1) as nat);
        }
    }
}

proof fn lemma_half_step(n: nat, d: nat)
    requires
        d > 0,
    ensures
        -d <= 2 * (round_half_even(n, d) * d - n) <= d,
        2 * (round_half_even(n, d) * d - n) == d || 2 * (round_half_even(n, d) * d - n) == -d
            ==> round_half_even(n, d) % 2 == 0,
{
    let q = n / d;
    let r = n % d;
    lemma_fundamental_div_mod(n as int, d as int);
    assert(d * q == q * d) by (nonlinear_arith);
    assert((q + 1) * d == q * d + d) by (nonlinear_arith);
}

/// A number that is written with a fixed number of places has exactly so many
/// digits after the point, the sign of the value before it, and is at most half
/// a unit of the last place off.
pub proof fn law_fixed_is_accurate(w: Width, bits: nat, places: nat)
    requires
        places > 0,
    ensures
        writes(w, bits, places, fixed(w, bits, places)),
{
    let b = magnitude(w, bits);
    reveal_strlit("inf");
    reveal_strlit("-inf");
    if b == w.infinity() {
        assert(seq!['-'] + "inf"@ =~= "-inf"@);
        assert(Seq::<char>::empty() + "inf"@ =~= "inf"@);
    } else if b < w.infinity() {
        let p = pow10(places);
        lemma_pow10_pos(places);
        let q = in_places(w, b, places);
        let whole = decimal(q / p);
        let small = decimal(q % p);
        lemma_decimal_digits(q / p);
        lemma_decimal_digits(q % p);
        lemma_decimal_fits(q % p, places);
        let fill = (places - small.len()) as nat;
        let fraction = pad_left(small, places, '0');
        assert(fraction =~= zeros(fill) + small);
        lemma_leading_zeros(fill, small);
        lemma_digits_join(whole, fraction);
        lemma_fundamental_div_mod(q as int, p as int);
        assert((q / p) * p == p * (q / p)) by (nonlinear_arith);
        assert(digits_value(whole + fraction) == q);
        lemma_pow2_pos(w.scale());
        lemma_half_step(units(w, b) * p, pow2(w.scale()));
        let text = fixed(w, bits, places);
        assert(text =~= (if sign_set(w, bits) {
            seq!['-'] + whole + seq!['.'] + fraction
        } else {
            whole + seq!['.'] + fraction
        }));
        assert(is_numeral(text, sign_set(w, bits), whole, fraction));
    }
}

/// A written number is one word.
pub proof fn lemma_fixed_is_a_word(w: Width, bits: nat, places: nat)
    requires
        places > 0,
    ensures
        one_word(fixed(w, bits, places)),
{
    law_fixed_is_accurate(w, bits, places);
    let b = magnitude(w, bits);
    let text = fixed(w, bits, places);
    reveal_strlit("inf");
    reveal_strlit("-inf");
    reveal_strlit("NaN");
    if b < w.infinity() {
        let (whole, fraction) = choose|whole: Seq<char>, fraction: Seq<char>| #[trigger]
            is_numeral(text, sign_set(w, bits), whole, fraction);
        let neg: int = if sign_set(w, bits) {
            1
        } else {
            0
        };
        assert forall|i: int| 0 <= i < text.len() implies !is_space(#[trigger] text[i]) by {
            if i < neg {
                assert(text[i] == '-');
            } else if i < neg + whole.len() {
                assert(text[i] == whole[i - neg]);
                assert(is_digit(whole[i - neg]));
            } else if i == neg + whole.len() {
                assert(text[i] == '.');
            } else {
                assert(text[i] == fraction[i - neg - whole.len() - 1]);
                assert(is_digit(fraction[i - neg - whole.len() - 1]));
            }
        }
    }
}

} // verus!
