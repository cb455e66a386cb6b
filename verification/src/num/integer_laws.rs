//! Integers in the binary floating-point formats.
use vstd::prelude::*;
use vstd::arithmetic::div_mod::lemma_fundamental_div_mod;
use vstd::arithmetic::power2::{lemma2_to64, lemma2_to64_rest, lemma_pow2_adds, lemma_pow2_pos, pow2};
use crate::num::binary::{double_as_u64, nearest, units, Width};
use crate::num::decimal::lemma_exact_rounds;

verus! {

/// How often `n` can be halved before it is 1.
pub open spec fn log2(n: nat) -> nat
    decreases n,
{
    if n <= 1 {
        0
    } else {
        1 + log2(n / 2)
    }
}

proof fn lemma_log2(n: nat)
    requires
        n > 0,
    ensures
        pow2(log2(n)) <= n < 2 * pow2(log2(n)),
    decreases n,
{
    lemma2_to64();
    if n > 1 {
        lemma_log2(n / 2);
        lemma_pow2_adds(1, log2(n / 2));
    }
}

proof fn lemma_pow2_grows(a: nat, b: nat)
    requires
        a < b,
    ensures
        2 * pow2(a) <= pow2(b),
{
    lemma2_to64();
    lemma_pow2_adds((b - a - 1) as nat, a + 1);
    lemma_pow2_adds(1, a);
    lemma_pow2_pos((b - a - 1) as nat);
    let x = pow2((b - a - 1) as nat) as int;
    let y = pow2(a + 1) as int;
    assert(y <= x * y) by (nonlinear_arith)
        requires
            x >= 1,
            y >= 0,
    ;
}

/// The pattern of a positive integer below twice the number of fractions.
proof fn lemma_pattern_of(w: Width, n: nat) -> (b: nat)
    requires
        0 < n < 2 * w.fractions(),
    ensures
        b < w.infinity(),
        units(w, b) == n * pow2(w.scale()),
{
    lemma2_to64();
    lemma2_to64_rest();
    let p = w.fractions();
    let f = w.fraction_bits();
    assert(p == pow2(f));
    let e = log2(n);
    lemma_log2(n);
    if e > f {
        lemma_pow2_grows(f, e);
    }
    let up = pow2((f - e) as nat);
    lemma_pow2_adds((f - e) as nat, e);
    lemma_pow2_pos((f - e) as nat);
    let m = n * up;
    assert(p <= m < 2 * p) by (nonlinear_arith)
        requires
            m == n * up,
            p == up * pow2(e),
            pow2(e) <= n < 2 * pow2(e),
            up > 0,
    ;
    let s = w.scale();
    let top = (s + e - f + 1) as nat;
    let rest = (m - p) as nat;
    let b = (top * p + rest) as nat;
    assert(b / p == top && b % p == rest) by (nonlinear_arith)
        requires
            b == top * p + rest,
            0 <= rest < p,
    ;
    assert(b >= p) by (nonlinear_arith)
        requires
            b == top * p + rest,
            top >= 1,
            p >= 0,
            rest >= 0,
    ;
    let down = pow2((s + e - f) as nat);
    assert(units(w, b) == m * down);
    lemma_pow2_adds((f - e) as nat, (s + e - f) as nat);
    assert(m * down == n * (up * down)) by (nonlinear_arith)
        requires
            m == n * up,
    ;
    match w {
        Width::Single => {
            assert(top <= 150);
            assert(b < 151 * 0x80_0000);
        },
        Width::Double => {
            assert(top <= 1075);
            assert(b < 1076 * 0x10_0000_0000_0000);
        },
    }
    b
}

/// An integer that the fraction has room for is held exactly: up to 2^24 in single
/// precision and up to 2^53 in double precision.
pub proof fn law_small_integers_are_exact(w: Width, n: nat)
    requires
        n < 2 * w.fractions(),
    ensures
        nearest(w, n, 1) < w.infinity(),
        units(w, nearest(w, n, 1)) == n * pow2(w.scale()),
{
    if n == 0 {
        assert(0 * pow2(w.scale()) == 0) by (nonlinear_arith);
        assert(units(w, 0) * 1 == 0);
        lemma_exact_rounds(w, 0, 1, 0);
    } else {
        let b = lemma_pattern_of(w, n);
        lemma_exact_rounds(w, n, 1, b);
    }
}

/// A double is read as the integer that is left of it without its fraction: 0 where it
/// is negative or no number, and the largest integer where it is larger.
pub proof fn law_fractions_are_cut_off(bits: u64)
    ensures
        bits < Width::Double.infinity() && double_as_u64(bits) < u64::MAX ==> double_as_u64(bits)
            * pow2(1074) <= units(Width::Double, bits as nat) < (double_as_u64(bits) + 1) * pow2(
            1074,
        ),
        bits < Width::Double.infinity() && double_as_u64(bits) == u64::MAX ==> units(
            Width::Double,
            bits as nat,
        ) >= u64::MAX * pow2(1074),
        bits > Width::Double.infinity() ==> double_as_u64(bits) == 0,
{
    let n = units(Width::Double, bits as nat) as int;
    let d = pow2(1074) as int;
    lemma_pow2_pos(1074);
    lemma_fundamental_div_mod(n, d);
    let q = n / d;
    let r = n % d;
    assert(d * q == q * d) by (nonlinear_arith);
    assert((q + 1) * d == q * d + d) by (nonlinear_arith);
    if q > u64::MAX {
        assert(q * d >= u64::MAX * d) by (nonlinear_arith)
            requires
                q > u64::MAX,
                d > 0,
        ;
    }
}

} // verus!
