//! Conversions between number formats, over bit patterns.
use vstd::prelude::*;
use vstd::arithmetic::power2::{lemma_pow2_pos, pow2};
use crate::num::binary::{
    lemma_nearest, lemma_units_increase, nearest, nearest_exec, rounds_to, units, units_exec, Width,
};
use crate::num::decimal::{magnitude, sign_set, split_sign};
use crate::num::natural::Nat;

verus! {

/// The single-precision number nearest to the integer `n`.
pub open spec fn single_of(n: nat) -> u32 {
    nearest(Width::Single, n, 1) as u32
}

/// The single-precision number nearest to the integer `n`.
pub fn single_of_u64(n: u64) -> (r: u32)
    ensures
        r == single_of(n as nat),
{
    nearest_exec(Width::Single, &Nat::from_u64(n), &Nat::from_u64(1)) as u32
}

/// A double in single precision: the nearest number with the same sign, and
/// what is no number as that.
pub open spec fn narrowed(bits: u64) -> u32 {
    let b = magnitude(Width::Double, bits as nat);
    let m = if b > Width::Double.infinity() {
        0x7fc0_0000
    } else if b == Width::Double.infinity() {
        Width::Single.infinity()
    } else {
        nearest(Width::Single, units(Width::Double, b), pow2(1074))
    };
    if sign_set(Width::Double, bits as nat) {
        (m + 0x8000_0000) as u32
    } else {
        m as u32
    }
}

/// A double in single precision.
pub fn narrow(bits: u64) -> (r: u32)
    ensures
        r == narrowed(bits),
{
    let (b, negative): (u64, bool) = split_sign(Width::Double, bits);
    let m: u64 = if b > 0x7ff0_0000_0000_0000 {
        0x7fc0_0000
    } else if b == 0x7ff0_0000_0000_0000 {
        0x7f80_0000
    } else {
        let d: Nat = Nat::from_u64(1).shift_up(1074);
        proof {
            lemma_pow2_pos(1074);
            assert(1 * pow2(1074) == pow2(1074)) by (nonlinear_arith);
        }
        nearest_exec(Width::Single, &units_exec(Width::Double, b), &d)
    };
    if negative {
        (m + 0x8000_0000) as u32
    } else {
        m as u32
    }
}

/// The quotient of two doubles, neither negative: the nearest double.
pub open spec fn quotient(a: nat, b: nat) -> nat {
    if b == Width::Double.infinity() {
        0
    } else {
        nearest(Width::Double, units(Width::Double, a), units(Width::Double, b))
    }
}

/// The quotient of a finite double by a positive one, neither negative.
pub fn divide(a: u64, b: u64) -> (r: u64)
    requires
        a < Width::Double.infinity(),
        0 < b <= Width::Double.infinity(),
    ensures
        r == quotient(a as nat, b as nat),
        r <= Width::Double.infinity(),
{
    if b == 0x7ff0_0000_0000_0000 {
        return 0;
    }
    proof {
        lemma_units_increase(Width::Double, 0, b as nat);
    }
    nearest_exec(Width::Double, &units_exec(Width::Double, a), &units_exec(Width::Double, b))
}

/// Narrowing keeps the sign and gives the single-precision number nearest to the
/// double; what is infinite stays infinite, and what is no number stays none.
pub proof fn law_narrowing_is_nearest(bits: u64)
    ensures
        sign_set(Width::Single, narrowed(bits) as nat) == sign_set(Width::Double, bits as nat),
        magnitude(Width::Double, bits as nat) < Width::Double.infinity() ==> rounds_to(
            Width::Single,
            units(Width::Double, magnitude(Width::Double, bits as nat)),
            pow2(1074),
            magnitude(Width::Single, narrowed(bits) as nat),
        ),
        magnitude(Width::Double, bits as nat) == Width::Double.infinity() ==> magnitude(
            Width::Single,
            narrowed(bits) as nat,
        ) == Width::Single.infinity(),
        magnitude(Width::Double, bits as nat) > Width::Double.infinity() ==> magnitude(
            Width::Single,
            narrowed(bits) as nat,
        ) > Width::Single.infinity(),
{
    lemma_nearest(
        Width::Single,
        units(Width::Double, magnitude(Width::Double, bits as nat)),
        pow2(1074),
    );
}

} // verus!
