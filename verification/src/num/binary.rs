//! The IEEE 754 binary formats, held as their bit patterns.
//!
//! Every finite value of a format is a whole number of its smallest positive
//! value. [`units`] is that number, and rounding is stated over it without
//! fractions.
use vstd::prelude::*;
use vstd::arithmetic::power2::{
    pow2, lemma_pow2_adds, lemma_pow2_pos, lemma_pow2_unfold, lemma2_to64, lemma2_to64_rest,
    lemma_pow2_strictly_increases,
};
use vstd::arithmetic::mul::lemma_mul_strict_inequality;
use crate::num::natural::{Nat, Rank};

verus! {

/// A binary interchange format.
#[derive(Clone, Copy, Debug, PartialEq, Eq, Structural)]
pub enum Width {
    /// 32 bits, 24 of precision.
    Single,
    /// 64 bits, 53 of precision.
    Double,
}

impl Width {
    /// Bits of the stored fraction.
    pub open spec fn fraction_bits(self) -> nat {
        match self {
            Width::Single => 23,
            Width::Double => 52,
        }
    }

    /// Number of fraction patterns.
    pub open spec fn fractions(self) -> nat {
        match self {
            Width::Single => 0x80_0000,
            Width::Double => 0x10_0000_0000_0000,
        }
    }

    /// The pattern of positive infinity.
    pub open spec fn infinity(self) -> nat {
        match self {
            Width::Single => 0x7f80_0000,
            Width::Double => 0x7ff0_0000_0000_0000,
        }
    }

    /// The sign bit.
    pub open spec fn sign(self) -> nat {
        match self {
            Width::Single => 0x8000_0000,
            Width::Double => 0x8000_0000_0000_0000,
        }
    }

    /// The smallest positive value is `2^-scale`.
    pub open spec fn scale(self) -> nat {
        match self {
            Width::Single => 149,
            Width::Double => 1074,
        }
    }

    /// The exact powers of two behind the patterns.
    proof fn lemma_constants(self)
        ensures
            self.fractions() == pow2(self.fraction_bits()),
            self.fractions() > 1,
            self.infinity() % self.fractions() == 0,
            self.infinity() + 1 < self.sign(),
    {
        lemma2_to64();
        lemma2_to64_rest();
    }

    fn fractions_exec(self) -> (r: u64)
        ensures
            r == self.fractions(),
    {
        match self {
            Width::Single => 0x80_0000,
            Width::Double => 0x10_0000_0000_0000,
        }
    }

    fn infinity_exec(self) -> (r: u64)
        ensures
            r == self.infinity(),
    {
        match self {
            Width::Single => 0x7f80_0000,
            Width::Double => 0x7ff0_0000_0000_0000,
        }
    }

    fn scale_exec(self) -> (r: u32)
        ensures
            r == self.scale(),
    {
        match self {
            Width::Single => 149,
            Width::Double => 1074,
        }
    }
}

/// The value of the pattern `b`, sign aside, as a multiple of the smallest
/// positive value of the format. Infinity stands one step past the largest
/// finite value.
pub open spec fn units(w: Width, b: nat) -> nat {
    let p = w.fractions();
    if b < p {
        b
    } else {
        (p + b % p) * pow2((b / p - 1) as nat)
    }
}

/// `n / d` is not below the numbers that round to `b`.
pub open spec fn not_below(w: Width, n: nat, d: nat, b: nat) -> bool {
    let twice = 2 * n * pow2(w.scale());
    let middle = (units(w, (b - 1) as nat) + units(w, b)) * d;
    b == 0 || twice > middle || (twice == middle && b % 2 == 0)
}

/// `n / d` is not above the numbers that round to `b`.
pub open spec fn not_above(w: Width, n: nat, d: nat, b: nat) -> bool {
    let twice = 2 * n * pow2(w.scale());
    let middle = (units(w, b) + units(w, b + 1)) * d;
    b == w.infinity() || twice < middle || (twice == middle && b % 2 == 0)
}

/// The ratio `n / d` rounds to the pattern `b`: no other pattern is nearer, and
/// of two equally near ones `b` is the even one.
pub open spec fn rounds_to(w: Width, n: nat, d: nat, b: nat) -> bool {
    b <= w.infinity() && not_below(w, n, d, b) && not_above(w, n, d, b)
}

/// The pattern that `n / d` rounds to.
pub open spec fn nearest(w: Width, n: nat, d: nat) -> nat {
    choose|b: nat| rounds_to(w, n, d, b)
}

proof fn lemma_rounding_from(w: Width, n: nat, d: nat, b: nat)
    requires
        b <= w.infinity(),
        not_below(w, n, d, b),
    ensures
        exists|c: nat| rounds_to(w, n, d, c),
    decreases w.infinity() - b,
{
    if not_above(w, n, d, b) {
        assert(rounds_to(w, n, d, b));
    } else {
        assert(((b + 1) - 1) as nat == b);
        lemma_rounding_from(w, n, d, b + 1);
    }
}

/// Every ratio rounds to a pattern.
pub proof fn lemma_nearest(w: Width, n: nat, d: nat)
    ensures
        rounds_to(w, n, d, nearest(w, n, d)),
{
    lemma_rounding_from(w, n, d, 0);
}

/// How far the ratio `n / d` is from the value of a pattern, in shares of `d` of
/// the smallest positive value.
pub open spec fn error_of(w: Width, n: nat, d: nat, b: nat) -> int {
    let gap = n * pow2(w.scale()) - units(w, b) * d;
    if gap < 0 {
        -gap
    } else {
        gap
    }
}

/// The pattern that a ratio rounds to is as near to it as any: no pattern up to
/// infinity, taken for the value one step past the largest, is nearer.
pub proof fn law_nearest_is_closest(w: Width, n: nat, d: nat, other: nat)
    requires
        d > 0,
    ensures
        nearest(w, n, d) <= w.infinity(),
        other <= w.infinity() ==> error_of(w, n, d, nearest(w, n, d)) <= error_of(w, n, d, other),
{
    lemma_nearest(w, n, d);
    let b = nearest(w, n, d);
    let x = n * pow2(w.scale());
    assert(2 * n * pow2(w.scale()) == 2 * x) by (nonlinear_arith)
        requires
            x == n * pow2(w.scale()),
    ;
    if other <= w.infinity() && other != b {
        let u = units(w, b);
        let v = units(w, other);
        if other < b {
            let k = units(w, (b - 1) as nat);
            lemma_units_step(w, (b - 1) as nat);
            if other < b - 1 {
                lemma_units_increase(w, other, (b - 1) as nat);
            }
            assert(2 * x >= (k + u) * d);
            assert((k + u) * d == k * d + u * d && v * d <= k * d && k * d <= u * d) by (nonlinear_arith)
                requires
                    v <= k,
                    k <= u,
                    d > 0,
            ;
        } else {
            let k = units(w, b + 1);
            lemma_units_step(w, b);
            if other > b + 1 {
                lemma_units_increase(w, b + 1, other);
            }
            assert(2 * x <= (u + k) * d);
            assert((u + k) * d == u * d + k * d && v * d >= k * d && k * d >= u * d) by (nonlinear_arith)
                requires
                    v >= k,
                    k >= u,
                    d > 0,
            ;
        }
    }
}

/// Halfway between two neighbours the even one is taken.
pub proof fn law_ties_go_to_the_even_one(w: Width, n: nat, d: nat, b: nat)
    requires
        d > 0,
        b < w.infinity(),
        2 * n * pow2(w.scale()) == (units(w, b) + units(w, b + 1)) * d,
    ensures
        nearest(w, n, d) == (if b % 2 == 0 {
            b
        } else {
            b + 1
        }),
{
    lemma_units_step(w, b);
    let twice = 2 * n * pow2(w.scale());
    if b % 2 == 0 {
        if b > 0 {
            let low = units(w, (b - 1) as nat) + units(w, b);
            let high = units(w, b) + units(w, b + 1);
            lemma_units_increase(w, (b - 1) as nat, b + 1);
            assert(low * d < high * d) by (nonlinear_arith)
                requires
                    low < high,
                    d > 0,
            ;
        }
        assert(rounds_to(w, n, d, b));
        lemma_nearest_is(w, n, d, b);
    } else {
        let c = b + 1;
        let low = units(w, b) + units(w, c);
        let high = units(w, c) + units(w, c + 1);
        if c < w.infinity() {
            lemma_units_increase(w, b, c + 1);
            assert(low * d < high * d) by (nonlinear_arith)
                requires
                    low < high,
                    d > 0,
            ;
        }
        assert((c - 1) as nat == b);
        assert(rounds_to(w, n, d, c));
        lemma_nearest_is(w, n, d, c);
    }
}

/// A larger ratio never rounds to a smaller pattern.
pub proof fn law_rounding_keeps_order(w: Width, n: nat, m: nat, d: nat)
    requires
        d > 0,
        n <= m,
    ensures
        nearest(w, n, d) <= nearest(w, m, d),
{
    lemma_nearest(w, n, d);
    lemma_nearest(w, m, d);
    let a = nearest(w, n, d);
    let b = nearest(w, m, d);
    if b < a {
        let p = pow2(w.scale());
        assert(2 * n * p <= 2 * m * p) by (nonlinear_arith)
            requires
                n <= m,
        ;
        let lo = units(w, b);
        let hi = units(w, a);
        let over = units(w, b + 1);
        let under = units(w, (a - 1) as nat);
        lemma_units_step(w, b);
        lemma_units_step(w, (a - 1) as nat);
        if b + 1 < a {
            lemma_units_increase(w, b + 1, a);
            lemma_units_increase(w, b, (a - 1) as nat);
            assert((lo + over) * d < (under + hi) * d) by (nonlinear_arith)
                requires
                    lo < under,
                    over < hi,
                    d > 0,
            ;
        }
    }
}

/// The next pattern has a larger value.
pub proof fn lemma_units_step(w: Width, b: nat)
    ensures
        units(w, b) < units(w, b + 1),
{
    let p = w.fractions();
    lemma2_to64();
    if b + 1 < p {
    } else if b < p {
        assert((b + 1) % p == 0 && (b + 1) / p == 1);
        assert(pow2(0) == 1);
        assert((p + 0) * pow2(0) == p) by (nonlinear_arith)
            requires
                pow2(0) == 1,
        ;
    } else {
        let e = (b / p - 1) as nat;
        let r = b % p;
        vstd::arithmetic::div_mod::lemma_fundamental_div_mod(b as int, p as int);
        lemma_pow2_pos(e);
        if r + 1 < p {
            vstd::arithmetic::div_mod::lemma_fundamental_div_mod_converse(
                (b + 1) as int,
                p as int,
                (b / p) as int,
                (r + 1) as int,
            );
            assert((p + r) * pow2(e) < (p + (r + 1)) * pow2(e)) by (nonlinear_arith)
                requires
                    pow2(e) > 0,
            ;
        } else {
            assert((b / p + 1) * p == b + 1) by (nonlinear_arith)
                requires
                    b == p * (b / p) + r,
                    r + 1 == p,
            ;
            vstd::arithmetic::div_mod::lemma_fundamental_div_mod_converse(
                (b + 1) as int,
                p as int,
                (b / p + 1) as int,
                0,
            );
            lemma_pow2_unfold(e + 1);
            assert((p + r) * pow2(e) < (p + 0) * (2 * pow2(e))) by (nonlinear_arith)
                requires
                    pow2(e) > 0,
                    r + 1 == p,
            ;
        }
    }
}

/// Larger patterns have larger values.
pub proof fn lemma_units_increase(w: Width, a: nat, b: nat)
    requires
        a < b,
    ensures
        units(w, a) < units(w, b),
    decreases b - a,
{
    lemma_units_step(w, a);
    if a + 1 < b {
        lemma_units_increase(w, a + 1, b);
    }
}

/// A ratio rounds to one pattern only.
pub proof fn lemma_rounding_is_unique(w: Width, n: nat, d: nat, a: nat, b: nat)
    requires
        d > 0,
        rounds_to(w, n, d, a),
        rounds_to(w, n, d, b),
    ensures
        a == b,
{
    if a != b {
        let (x, y) = if a < b {
            (a, b)
        } else {
            (b, a)
        };
        let low = units(w, x) + units(w, x + 1);
        let high = units(w, (y - 1) as nat) + units(w, y);
        if x + 1 < y {
            lemma_units_increase(w, x, (y - 1) as nat);
            lemma_units_increase(w, x + 1, y);
            lemma_mul_strict_inequality(low as int, high as int, d as int);
        }
    }
}

/// A ratio that rounds to `b` is what `nearest` gives.
pub proof fn lemma_nearest_is(w: Width, n: nat, d: nat, b: nat)
    requires
        d > 0,
        rounds_to(w, n, d, b),
    ensures
        nearest(w, n, d) == b,
{
    lemma_rounding_is_unique(w, n, d, nearest(w, n, d), b);
}

/// The value of `b` as a number of units.
pub fn units_exec(w: Width, b: u64) -> (r: Nat)
    requires
        b <= w.infinity() + 1,
    ensures
        r@ == units(w, b as nat),
{
    let p: u64 = w.fractions_exec();
    if b < p {
        Nat::from_u64(b)
    } else {
        proof {
            w.lemma_constants();
        }
        let e: u64 = b / p - 1;
        let m: Nat = Nat::from_u64(p + b % p);
        m.shift_up(e as u32)
    }
}

/// Rounds `n / d`.
pub fn nearest_exec(w: Width, n: &Nat, d: &Nat) -> (b: u64)
    requires
        d@ > 0,
    ensures
        b <= w.infinity(),
        rounds_to(w, n@, d@, b as nat),
        b == nearest(w, n@, d@),
{
    let twice: Nat = n.mul_add_small(2, 0).shift_up(w.scale_exec());
    let mut low: u64 = 0;
    let mut high: u64 = w.infinity_exec();
    proof {
        w.lemma_constants();
        assert(n@ * 2 == 2 * n@);
    }
    while low < high
        invariant
            low <= high <= w.infinity() < 0x8000_0000_0000_0000,
            w.infinity() + 1 < w.sign(),
            d@ > 0,
            twice@ == 2 * n@ * pow2(w.scale()),
            not_below(w, n@, d@, low as nat),
            not_above(w, n@, d@, high as nat),
        decreases high - low,
    {
        let mid: u64 = low + (high - low) / 2;
        let both: Nat = units_exec(w, mid).plus(&units_exec(w, mid + 1));
        let middle: Nat = both.times(d);
        let inside: bool = match twice.rank(&middle) {
            Rank::Below => true,
            Rank::Same => mid % 2 == 0,
            Rank::Above => false,
        };
        proof {
            assert((mid + 1) as nat == mid as nat + 1);
            assert(inside == not_above(w, n@, d@, mid as nat));
            assert(!inside ==> not_below(w, n@, d@, (mid + 1) as nat));
        }
        if inside {
            high = mid;
        } else {
            low = mid + 1;
        }
    }
    proof {
        lemma_nearest_is(w, n@, d@, low as nat);
    }
    low
}

/// A 64-bit integer rounds to a finite double, and a positive one to a positive
/// double.
proof fn lemma_integer_range(n: u64, b: nat)
    requires
        rounds_to(Width::Double, n as nat, 1, b),
    ensures
        b < Width::Double.infinity(),
        n > 0 ==> b > 0,
{
    let w = Width::Double;
    lemma_pow2_pos(1074);
    lemma2_to64();
    lemma2_to64_rest();
    let twice = 2 * (n as nat) * pow2(1074);
    if b == w.infinity() {
        assert(b % w.fractions() == 0 && b / w.fractions() - 1 == 2046);
        assert(units(w, b) == pow2(52) * pow2(2046));
        lemma_pow2_adds(52, 2046);
        lemma_pow2_adds(65, 1074);
        lemma_pow2_strictly_increases(1139, 2098);
        assert(2 * (n as nat) < pow2(65)) by {
            lemma_pow2_unfold(65);
        }
        assert(twice < pow2(65) * pow2(1074)) by (nonlinear_arith)
            requires
                twice == 2 * (n as nat) * pow2(1074),
                2 * (n as nat) < pow2(65),
                pow2(1074) > 0,
        ;
        assert((units(w, (b - 1) as nat) + units(w, b)) * 1 >= units(w, b));
    }
    if n > 0 && b == 0 {
        assert(twice >= 2) by (nonlinear_arith)
            requires
                twice == 2 * (n as nat) * pow2(1074),
                n > 0,
                pow2(1074) > 0,
        ;
        assert(units(w, 0) == 0 && units(w, 1) == 1);
    }
}

/// The double nearest to the integer `n`.
pub fn double_of_u64(n: u64) -> (b: u64)
    ensures
        b == nearest(Width::Double, n as nat, 1),
        b < Width::Double.infinity(),
        n > 0 ==> b > 0,
{
    let b: u64 = nearest_exec(Width::Double, &Nat::from_u64(n), &Nat::from_u64(1));
    proof {
        lemma_integer_range(n, b as nat);
    }
    b
}

/// The integer part of the pattern `b`, sign aside.
pub open spec fn whole_part(w: Width, b: nat) -> nat {
    units(w, b) / pow2(w.scale())
}

/// Whether the finite pattern `b` is a whole number.
pub open spec fn is_whole(w: Width, b: nat) -> bool {
    units(w, b) == whole_part(w, b) * pow2(w.scale())
}

/// The integer part of `b`, and whether it is all of it.
pub fn whole_part_exec(w: Width, b: u64) -> (r: (Nat, bool))
    requires
        b <= w.infinity(),
    ensures
        r.0@ == whole_part(w, b as nat),
        r.1 == is_whole(w, b as nat),
{
    let u: Nat = units_exec(w, b);
    let whole: Nat = u.shift_down(w.scale_exec());
    let back: Nat = whole.shift_up(w.scale_exec());
    let same: bool = matches!(back.rank(&u), Rank::Same);
    (whole, same)
}

/// What the double of pattern `bits` becomes as an unsigned 64-bit integer:
/// towards zero, negative values and what is no number as 0, values past the
/// largest integer as that.
pub open spec fn double_as_u64(bits: u64) -> u64 {
    if bits >= 0x8000_0000_0000_0000 || bits > Width::Double.infinity() {
        0
    } else if whole_part(Width::Double, bits as nat) > u64::MAX {
        u64::MAX
    } else {
        whole_part(Width::Double, bits as nat) as u64
    }
}

/// The double of pattern `bits` as an unsigned 64-bit integer.
pub fn double_to_u64(bits: u64) -> (r: u64)
    ensures
        r == double_as_u64(bits),
{
    if bits >= 0x8000_0000_0000_0000 || bits > Width::Double.infinity_exec() {
        return 0;
    }
    let whole: (Nat, bool) = whole_part_exec(Width::Double, bits);
    match whole.0.to_u64() {
        Some(x) => x,
        None => u64::MAX,
    }
}

} // verus!
