//! Values as a programmer sees them read back as they were.
use vstd::prelude::*;
use vstd::arithmetic::power2::pow2;
use crate::num::binary::{lemma_nearest, lemma_nearest_is, nearest, rounds_to, units, Width};
use crate::num::decimal::{
    debug_single, exponent_mark, exponent_value, leading_exponent, lemma_decimal_digits,
    lemma_exponent_mark, lemma_plain_literal, lemma_positional_literal, lemma_read_signed,
    lemma_shortest_exists, lemma_shortest_reads_back, lemma_trailing_zeros, lemma_zero,
    literal_value, magnitude, mantissa_parts, nearest_decimal, plain_literal, positional,
    read_value, scientific, shortest, sign_set, without_sign, zeros,
};
use crate::num::decimal_laws::lemma_digits_join;
use crate::num::natural::pow10;
use crate::text::{
    decimal, digits_value, first_at, is_digit, lemma_first_at, lemma_first_at_is, lower_ascii,
};

verus! {

/// A fraction and its multiple round alike.
pub proof fn lemma_nearest_scales(w: Width, n: nat, d: nat, c: nat)
    requires
        d > 0,
        c > 0,
    ensures
        nearest(w, n * c, d * c) == nearest(w, n, d),
{
    let b = nearest(w, n, d);
    lemma_nearest(w, n, d);
    let p = pow2(w.scale());
    let low = units(w, (b - 1) as nat) + units(w, b);
    let high = units(w, b) + units(w, b + 1);
    lemma_times(2 * n * p, low * d, c);
    lemma_times(2 * n * p, high * d, c);
    assert(2 * (n * c) * p == (2 * n * p) * c) by (nonlinear_arith);
    assert(low * (d * c) == (low * d) * c) by (nonlinear_arith);
    assert(high * (d * c) == (high * d) * c) by (nonlinear_arith);
    assert(rounds_to(w, n * c, d * c, b));
    assert(d * c > 0) by (nonlinear_arith)
        requires
            d > 0,
            c > 0,
    ;
    lemma_nearest_is(w, n * c, d * c, b);
}

proof fn lemma_times(x: nat, y: nat, c: nat)
    by (nonlinear_arith)
    requires
        c > 0,
    ensures
        x * c < y * c <==> x < y,
        x * c == y * c <==> x == y,
        x * c > y * c <==> x > y,
{
}

/// What a number in scientific notation reads as.
proof fn lemma_scientific_literal(n: nat, k: int)
    ensures
        literal_value(scientific(decimal(n), k)) == Some((n, k)),
{
    let d = decimal(n);
    lemma_decimal_digits(n);
    let e = leading_exponent(d, k);
    let mantissa = if d.len() > 1 {
        d.take(1) + seq!['.'] + d.skip(1)
    } else {
        d
    };
    let tail = if e < 0 {
        seq!['-'] + decimal((-e) as nat)
    } else {
        decimal(e as nat)
    };
    let t = scientific(d, k);
    assert(t =~= mantissa + seq!['e'] + tail);
    let m = mantissa.len() as int;
    assert forall|i: int| 0 <= i < m implies #[trigger] t[i] != 'e' && t[i] != 'E' by {
        assert(t[i] == mantissa[i]);
        if d.len() > 1 {
            if i == 0 {
                assert(mantissa[i] == d[0]);
                assert(is_digit(d[0]));
            } else if i > 1 {
                assert(mantissa[i] == d[i - 1]);
                assert(is_digit(d[i - 1]));
            }
        } else {
            assert(is_digit(d[i]));
        }
    }
    assert(t[m] == 'e');
    lemma_exponent_mark(t);
    assert(exponent_mark(t) == m);
    assert(t.take(m) =~= mantissa);
    assert(t.skip(m + 1) =~= tail);
    if e < 0 {
        lemma_decimal_digits((-e) as nat);
        assert(tail.skip(1) =~= decimal((-e) as nat));
    } else {
        lemma_decimal_digits(e as nat);
        assert(is_digit(decimal(e as nat)[0]));
    }
    assert(exponent_value(tail) == Some(e));
    let (whole, fraction) = mantissa_parts(mantissa);
    if d.len() > 1 {
        assert(is_digit(d[0]));
        assert(mantissa[0] == d[0] && mantissa[1] == '.');
        lemma_first_at_is(mantissa, '.', 1);
        assert(whole =~= d.take(1));
        assert(fraction =~= d.skip(1));
        assert forall|i: int| 0 <= i < fraction.len() implies is_digit(#[trigger] fraction[i]) by {
            assert(fraction[i] == d[i + 1]);
        }
        assert forall|i: int| 0 <= i < whole.len() implies is_digit(#[trigger] whole[i]) by {
            assert(whole[i] == d[i]);
        }
        assert(whole + fraction =~= d);
    } else {
        lemma_first_at(mantissa, '.');
        if let Some(i) = first_at(mantissa, '.') {
            assert(is_digit(mantissa[i]));
        }
        assert(whole + fraction =~= d);
    }
}

/// A single-precision value reads back from how a programmer sees it, unless it is
/// no number.
pub proof fn law_debug_text_reads_back(bits: u32)
    requires
        magnitude(Width::Single, bits as nat) <= Width::Single.infinity(),
    ensures
        read_value(Width::Single, debug_single(bits as nat)) == Some(bits as nat),
{
    let w = Width::Single;
    let b = magnitude(w, bits as nat);
    let negative = sign_set(w, bits as nat);
    let t = debug_single(bits as nat);
    if b == w.infinity() {
        reveal_strlit("inf");
        assert(without_sign(t) =~= "inf"@);
        assert(lower_ascii("inf"@) =~= "inf"@);
    } else if b == 0 {
        reveal_strlit("0.0");
        let body = "0.0"@;
        lemma_read_signed(w, negative, body);
        assert(t =~= if negative {
            seq!['-'] + body
        } else {
            body
        });
        let zero = seq!['0'];
        lemma_decimal_digits(0);
        assert(zero =~= decimal(0));
        lemma_plain_literal(zero, true, zero);
        assert(body =~= plain_literal(zero, true, zero));
        lemma_digits_join(zero, zero);
        assert(0 * pow10(1) == 0) by (nonlinear_arith);
        lemma_zero(w, -1);
    } else {
        lemma_shortest_exists(w, b);
        lemma_shortest_reads_back(w, b);
        let (n, k) = shortest(w, b);
        let d = decimal(n);
        lemma_decimal_digits(n);
        assert(is_digit(d[0]));
        let body = if b >= 0x5a0e_1bca || b < 0x38d1_b717 {
            scientific(d, k)
        } else if k >= 0 {
            positional(d, k) + ".0"@
        } else {
            positional(d, k)
        };
        assert(t =~= if negative {
            seq!['-'] + body
        } else {
            body
        });
        if b >= 0x5a0e_1bca || b < 0x38d1_b717 {
            lemma_scientific_literal(n, k);
            assert(body[0] == d[0]);
        } else if k >= 0 {
            lemma_whole_literal(n, k as nat);
            reveal_strlit(".0");
            assert(body[0] == d[0]);
        } else {
            let r = lemma_positional_literal(n, k);
            assert(body[0] == r.0[0]);
            assert(is_digit(r.0[0]));
        }
        lemma_read_signed(w, negative, body);
    }
}

/// What a whole number with `.0` behind it reads as.
proof fn lemma_whole_literal(n: nat, k: nat)
    ensures
        literal_value(positional(decimal(n), k as int) + ".0"@) matches Some((m, j))
            && nearest_decimal(Width::Single, m, j) == nearest_decimal(Width::Single, n, k as int),
{
    reveal_strlit(".0");
    let d = decimal(n);
    lemma_decimal_digits(n);
    lemma_decimal_digits(0);
    let whole = d + zeros(k);
    lemma_trailing_zeros(d, k);
    let zero = seq!['0'];
    assert(zero =~= decimal(0));
    lemma_plain_literal(whole, true, zero);
    assert(positional(d, k as int) + ".0"@ =~= plain_literal(whole, true, zero));
    lemma_digits_join(whole, zero);
    assert(pow10(1) == 10 * pow10(0) && pow10(0) == 1);
    let v = n * pow10(k);
    assert(digits_value(whole + zero) == v * 10);
    lemma_nearest_scales(Width::Single, v, 1, 10);
    assert(nearest_decimal(Width::Single, v * 10, -1) == nearest(Width::Single, v * 10, 10));
}

} // verus!
