//! Natural numbers of any size, as little-endian vectors of 32-bit limbs.
use vstd::prelude::*;
use vstd::arithmetic::power2::{pow2, lemma_pow2_adds, lemma_pow2_pos, lemma_pow2_unfold, lemma2_to64, lemma_pow2_strictly_increases};
use vstd::arithmetic::div_mod::lemma_fundamental_div_mod_converse;
use vstd::arithmetic::mul::{
    lemma_mul_is_associative, lemma_mul_is_distributive_add, lemma_mul_is_commutative,
};

verus! {

/// How one number stands to another.
#[derive(Clone, Copy, Debug, PartialEq, Eq, Structural)]
pub enum Rank {
    Below,
    Same,
    Above,
}

/// The rank of `a` against `b`.
pub open spec fn rank_of(a: int, b: int) -> Rank {
    if a < b {
        Rank::Below
    } else if a == b {
        Rank::Same
    } else {
        Rank::Above
    }
}

/// The number written by `limbs`, least significant limb first.
pub open spec fn limbs_value(limbs: Seq<u32>) -> nat
    decreases limbs.len(),
{
    if limbs.len() == 0 {
        0
    } else {
        limbs[0] as nat + 0x1_0000_0000 * limbs_value(limbs.drop_first())
    }
}

/// Ten to the power of `k`.
pub open spec fn pow10(k: nat) -> nat
    decreases k,
{
    if k == 0 {
        1
    } else {
        10 * pow10((k - 1) as nat)
    }
}

/// Multiplying by one changes nothing.
proof fn lemma_unit_factor(p: int, x: int)
    by (nonlinear_arith)
    requires
        p == 1,
    ensures
        p * x == x,
{
}

pub proof fn lemma_pow10_pos(k: nat)
    ensures
        pow10(k) > 0,
    decreases k,
{
    if k > 0 {
        lemma_pow10_pos((k - 1) as nat);
    }
}

pub proof fn lemma_pow10_adds(a: nat, b: nat)
    ensures
        pow10(a + b) == pow10(a) * pow10(b),
    decreases a,
{
    if a > 0 {
        lemma_pow10_adds((a - 1) as nat, b);
        assert((a - 1) as nat + b == (a + b - 1) as nat);
        lemma_mul_is_associative(10, pow10((a - 1) as nat) as int, pow10(b) as int);
    } else {
        lemma_unit_factor(pow10(a) as int, pow10(b) as int);
    }
}

/// Ten to the power of `k` is at least eight to the power of `k`.
pub proof fn lemma_pow10_exceeds_pow2(k: nat)
    ensures
        pow10(k) >= pow2(3 * k),
    decreases k,
{
    lemma2_to64();
    if k > 0 {
        lemma_pow10_exceeds_pow2((k - 1) as nat);
        lemma_pow2_adds(3, (3 * (k - 1)) as nat);
        assert(3 + 3 * (k - 1) == 3 * k);
    }
}

proof fn lemma_pow2_limb(j: nat)
    ensures
        pow2(32 * (j + 1)) == 0x1_0000_0000 * pow2(32 * j),
{
    lemma2_to64();
    lemma_pow2_adds(32, 32 * j);
    assert(32 + 32 * j == 32 * (j + 1));
}

/// Appending a most significant limb adds it at its place.
proof fn lemma_value_push(limbs: Seq<u32>, top: u32)
    ensures
        limbs_value(limbs.push(top)) == limbs_value(limbs) + pow2(32 * limbs.len()) * top,
    decreases limbs.len(),
{
    lemma2_to64();
    let all = limbs.push(top);
    if limbs.len() == 0 {
        assert(all.drop_first() =~= Seq::<u32>::empty());
        assert(limbs_value(all.drop_first()) == 0);
        lemma_unit_factor(pow2(32 * limbs.len()) as int, top as int);
    } else {
        let rest = limbs.drop_first();
        assert(all.drop_first() =~= rest.push(top));
        lemma_value_push(rest, top);
        lemma_pow2_limb(rest.len());
        lemma_mul_is_associative(0x1_0000_0000, pow2(32 * rest.len()) as int, top as int);
        lemma_mul_is_distributive_add(
            0x1_0000_0000,
            limbs_value(rest) as int,
            pow2(32 * rest.len()) * top,
        );
    }
}

/// A number of `n` limbs is below the `n`th power of the base.
proof fn lemma_value_bound(limbs: Seq<u32>)
    ensures
        limbs_value(limbs) < pow2(32 * limbs.len()),
    decreases limbs.len(),
{
    lemma2_to64();
    if limbs.len() > 0 {
        lemma_value_bound(limbs.drop_first());
        lemma_pow2_limb(limbs.drop_first().len());
    }
}

/// Low and high parts of a number.
proof fn lemma_value_split(limbs: Seq<u32>, j: int)
    requires
        0 <= j <= limbs.len(),
    ensures
        limbs_value(limbs) == limbs_value(limbs.take(j)) + pow2(32 * j as nat) * limbs_value(
            limbs.skip(j),
        ),
    decreases j,
{
    lemma2_to64();
    if j == 0 {
        assert(limbs.take(0) =~= Seq::<u32>::empty());
        assert(limbs.skip(0) =~= limbs);
        lemma_unit_factor(pow2(32 * j as nat) as int, limbs_value(limbs) as int);
    } else {
        let rest = limbs.drop_first();
        lemma_value_split(rest, j - 1);
        assert(limbs.take(j).drop_first() =~= rest.take(j - 1));
        assert(limbs.skip(j) =~= rest.skip(j - 1));
        assert(limbs.take(j)[0] == limbs[0]);
        lemma_pow2_limb((j - 1) as nat);
        let high = limbs_value(limbs.skip(j)) as int;
        lemma_mul_is_associative(0x1_0000_0000, pow2(32 * (j - 1) as nat) as int, high);
        lemma_mul_is_distributive_add(
            0x1_0000_0000,
            limbs_value(rest.take(j - 1)) as int,
            pow2(32 * (j - 1) as nat) * high,
        );
    }
}

/// A natural number of any size.
#[derive(Debug)]
pub struct Nat {
    limbs: Vec<u32>,
}

impl View for Nat {
    type V = nat;

    closed spec fn view(&self) -> nat {
        limbs_value(self.limbs@)
    }
}

impl Nat {
    /// The number `x`.
    pub fn from_u64(x: u64) -> (r: Nat)
        ensures
            r@ == x,
    {
        let low: u32 = (x % 0x1_0000_0000) as u32;
        let high: u32 = (x / 0x1_0000_0000) as u32;
        let limbs: Vec<u32> = vec![low, high];
        proof {
            assert(limbs@.drop_first() =~= seq![high]);
            assert(limbs@.drop_first().drop_first() =~= Seq::<u32>::empty());
            assert(limbs_value(limbs@.drop_first().drop_first()) == 0);
            assert(limbs_value(limbs@.drop_first()) == high as nat);
        }
        Nat { limbs }
    }

    /// `self * m + a`.
    pub fn mul_add_small(&self, m: u32, a: u32) -> (r: Nat)
        ensures
            r@ == self@ * m + a,
    {
        let mut out: Vec<u32> = Vec::with_capacity(self.limbs.len());
        let mut carry: u64 = a as u64;
        let mut i: usize = 0;
        proof {
            lemma2_to64();
            assert(self.limbs@.skip(0) =~= self.limbs@);
            lemma_unit_factor(pow2(32 * i as nat) as int, carry + m * limbs_value(self.limbs@));
            assert(m * limbs_value(self.limbs@) == self@ * m) by (nonlinear_arith)
                requires
                    limbs_value(self.limbs@) == self@,
            ;
        }
        while i < self.limbs.len()
            invariant
                i <= self.limbs@.len(),
                out@.len() == i,
                carry <= 0xFFFF_FFFF,
                limbs_value(out@) + pow2(32 * i as nat) * (carry + m * limbs_value(
                    self.limbs@.skip(i as int),
                )) == self@ * m + a,
            decreases self.limbs@.len() - i,
        {
            let x: u32 = self.limbs[i];
            proof {
                assert(x as u64 * m as u64 + carry <= 0xFFFF_FFFF * 0xFFFF_FFFF + 0xFFFF_FFFF) by (nonlinear_arith)
                    requires
                        x <= 0xFFFF_FFFFu32,
                        m <= 0xFFFF_FFFFu32,
                        carry <= 0xFFFF_FFFFu64,
                ;
            }
            let t: u64 = x as u64 * m as u64 + carry;
            let low: u32 = (t % 0x1_0000_0000) as u32;
            let next: u64 = t / 0x1_0000_0000;
            proof {
                let rest = self.limbs@.skip(i as int);
                assert(rest.drop_first() =~= self.limbs@.skip(i + 1));
                let hi = limbs_value(self.limbs@.skip(i + 1)) as int;
                let p = pow2(32 * i as nat) as int;
                lemma_value_push(out@, low);
                lemma_pow2_limb(i as nat);
                assert(limbs_value(rest) == x + 0x1_0000_0000 * hi);
                assert(m * (x + 0x1_0000_0000 * hi) == m * x + 0x1_0000_0000 * (m * hi)) by (nonlinear_arith);
                assert(x * m == m * x) by (nonlinear_arith);
                assert(t == 0x1_0000_0000 * next + low);
                assert(carry + m * limbs_value(rest) == low + 0x1_0000_0000 * (next + m * hi));
                assert(p * (low + 0x1_0000_0000 * (next + m * hi)) == p * low + (0x1_0000_0000 * p) * (
                next + m * hi)) by (nonlinear_arith);
            }
            out.push(low);
            carry = next;
            i = i + 1;
        }
        proof {
            assert(self.limbs@.skip(i as int) =~= Seq::<u32>::empty());
            assert(limbs_value(self.limbs@.skip(i as int)) == 0);
            assert(m * 0 == 0);
            lemma_value_push(out@, carry as u32);
        }
        out.push(carry as u32);
        Nat { limbs: out }
    }

    /// `self + other`.
    pub fn plus(&self, other: &Nat) -> (r: Nat)
        ensures
            r@ == self@ + other@,
    {
        let n: usize = if self.limbs.len() < other.limbs.len() {
            other.limbs.len()
        } else {
            self.limbs.len()
        };
        let mut out: Vec<u32> = Vec::with_capacity(n);
        let mut carry: u64 = 0;
        let mut i: usize = 0;
        proof {
            lemma2_to64();
            assert(limbs_from(self.limbs@, 0) =~= self.limbs@);
            assert(limbs_from(other.limbs@, 0) =~= other.limbs@);
            lemma_unit_factor(
                pow2(32 * i as nat) as int,
                carry + limbs_value(self.limbs@) + limbs_value(other.limbs@),
            );
        }
        while i < n
            invariant
                i <= n,
                self.limbs@.len() <= n,
                other.limbs@.len() <= n,
                out@.len() == i,
                carry <= 1,
                limbs_value(out@) + pow2(32 * i as nat) * (carry + limbs_value(
                    limbs_from(self.limbs@, i as int),
                ) + limbs_value(limbs_from(other.limbs@, i as int))) == self@ + other@,
            decreases n - i,
        {
            let x: u32 = self.limb(i);
            let y: u32 = other.limb(i);
            let t: u64 = x as u64 + y as u64 + carry;
            let low: u32 = (t % 0x1_0000_0000) as u32;
            let next: u64 = t / 0x1_0000_0000;
            proof {
                lemma_from_step(self.limbs@, i as int);
                lemma_from_step(other.limbs@, i as int);
                let ha = limbs_value(limbs_from(self.limbs@, i + 1)) as int;
                let hb = limbs_value(limbs_from(other.limbs@, i + 1)) as int;
                let p = pow2(32 * i as nat) as int;
                lemma_value_push(out@, low);
                lemma_pow2_limb(i as nat);
                assert(t == 0x1_0000_0000 * next + low);
                assert(p * (low + 0x1_0000_0000 * (next + ha + hb)) == p * low + (0x1_0000_0000 * p) * (
                next + ha + hb)) by (nonlinear_arith);
            }
            out.push(low);
            carry = next;
            i = i + 1;
        }
        proof {
            assert(limbs_from(self.limbs@, i as int) =~= Seq::<u32>::empty());
            assert(limbs_from(other.limbs@, i as int) =~= Seq::<u32>::empty());
            lemma_value_push(out@, carry as u32);
        }
        out.push(carry as u32);
        Nat { limbs: out }
    }

    /// `self * other`.
    pub fn times(&self, other: &Nat) -> (r: Nat)
        ensures
            r@ == self@ * other@,
    {
        let mut acc: Nat = Nat { limbs: Vec::new() };
        let mut i: usize = other.limbs.len();
        proof {
            assert(other.limbs@.skip(i as int) =~= Seq::<u32>::empty());
            assert(self@ * 0 == 0);
        }
        while i > 0
            invariant
                i <= other.limbs@.len(),
                acc@ == self@ * limbs_value(other.limbs@.skip(i as int)),
            decreases i,
        {
            i = i - 1;
            let x: u32 = other.limbs[i];
            let part: Nat = self.mul_add_small(x, 0);
            let ghost before = acc.limbs@;
            acc.limbs.insert(0, 0);
            proof {
                assert(acc.limbs@.drop_first() =~= before);
                assert(other.limbs@.skip(i as int).drop_first() =~= other.limbs@.skip(i + 1));
                let hi = limbs_value(other.limbs@.skip(i + 1)) as int;
                assert(acc@ == 0x1_0000_0000 * limbs_value(before));
                assert(self@ * (x + 0x1_0000_0000 * hi) == 0x1_0000_0000 * (self@ * hi) + self@ * x)
                    by (nonlinear_arith);
            }
            acc = acc.plus(&part);
        }
        proof {
            assert(other.limbs@.skip(0) =~= other.limbs@);
        }
        acc
    }

    /// `self * 2^k`.
    pub fn shift_up(&self, k: u32) -> (r: Nat)
        ensures
            r@ == self@ * pow2(k as nat),
    {
        let whole: u32 = k / 32;
        let part: u32 = k % 32;
        let factor: u32 = power_of_two(part);
        let mut out: Vec<u32> = Vec::new();
        let mut i: u32 = 0;
        while i < whole
            invariant
                i <= whole,
                out@.len() == i,
                forall|j: int| 0 <= j < i ==> out@[j] == 0,
            decreases whole - i,
        {
            out.push(0);
            i = i + 1;
        }
        let mut scaled: Nat = self.mul_add_small(factor, 0);
        let ghost zeros = out@;
        let ghost top = scaled.limbs@;
        out.append(&mut scaled.limbs);
        proof {
            lemma_zeros_value(zeros);
            lemma_value_split(zeros + top, whole as int);
            assert((zeros + top).take(whole as int) =~= zeros);
            assert((zeros + top).skip(whole as int) =~= top);
            lemma_pow2_adds(32 * whole as nat, part as nat);
            let a = pow2(32 * whole as nat) as int;
            let b = pow2(part as nat) as int;
            assert(a * (self@ * b) == self@ * (a * b)) by (nonlinear_arith);
        }
        Nat { limbs: out }
    }

    /// How `self` stands to `other`.
    pub fn rank(&self, other: &Nat) -> (r: Rank)
        ensures
            r == rank_of(self@ as int, other@ as int),
    {
        let n: usize = if self.limbs.len() < other.limbs.len() {
            other.limbs.len()
        } else {
            self.limbs.len()
        };
        let mut r: Rank = Rank::Same;
        let mut i: usize = 0;
        proof {
            assert(limbs_padded(self.limbs@, 0) =~= Seq::<u32>::empty());
            assert(limbs_padded(other.limbs@, 0) =~= Seq::<u32>::empty());
        }
        while i < n
            invariant
                i <= n,
                self.limbs@.len() <= n,
                other.limbs@.len() <= n,
                r == rank_of(
                    limbs_value(limbs_padded(self.limbs@, i as int)) as int,
                    limbs_value(limbs_padded(other.limbs@, i as int)) as int,
                ),
            decreases n - i,
        {
            let x: u32 = self.limb(i);
            let y: u32 = other.limb(i);
            proof {
                let a = limbs_padded(self.limbs@, i as int);
                let b = limbs_padded(other.limbs@, i as int);
                assert(limbs_padded(self.limbs@, i + 1) =~= a.push(x));
                assert(limbs_padded(other.limbs@, i + 1) =~= b.push(y));
                lemma_value_push(a, x);
                lemma_value_push(b, y);
                lemma_value_bound(a);
                lemma_value_bound(b);
                lemma_top_limb_decides(
                    pow2(32 * i as nat) as int,
                    x as int,
                    y as int,
                    limbs_value(a) as int,
                    limbs_value(b) as int,
                );
            }
            if x < y {
                r = Rank::Below;
            } else if y < x {
                r = Rank::Above;
            }
            i = i + 1;
        }
        proof {
            lemma_padded_value(self.limbs@, n as int);
            lemma_padded_value(other.limbs@, n as int);
        }
        r
    }

    /// Quotient and remainder of the division by `d`.
    pub fn div_small(&self, d: u32) -> (r: (Nat, u32))
        requires
            d > 0,
        ensures
            r.0@ == self@ / d as nat,
            r.1 == self@ % d as nat,
            self@ == r.0@ * d + r.1,
    {
        let mut out: Vec<u32> = Vec::new();
        let mut rem: u32 = 0;
        let mut i: usize = self.limbs.len();
        let mut k: usize = 0;
        while k < self.limbs.len()
            invariant
                out@.len() == k,
                k <= self.limbs@.len(),
            decreases self.limbs@.len() - k,
        {
            out.push(0);
            k = k + 1;
        }
        proof {
            assert(out@.skip(i as int) =~= Seq::<u32>::empty());
            assert(self.limbs@.skip(i as int) =~= Seq::<u32>::empty());
            assert(0 * d == 0);
        }
        while i > 0
            invariant
                i <= self.limbs@.len(),
                out@.len() == self.limbs@.len(),
                d > 0,
                rem < d,
                limbs_value(self.limbs@.skip(i as int)) == limbs_value(out@.skip(i as int)) * d + rem,
            decreases i,
        {
            i = i - 1;
            let t: u64 = rem as u64 * 0x1_0000_0000 + self.limbs[i] as u64;
            let q: u64 = t / d as u64;
            proof {
                assert(q < 0x1_0000_0000) by (nonlinear_arith)
                    requires
                        q == t / d as u64,
                        t < d as u64 * 0x1_0000_0000,
                        d > 0,
                ;
            }
            let ghost before = out@;
            out.set(i, q as u32);
            let ghost old_rem = rem;
            rem = (t % d as u64) as u32;
            proof {
                assert(out@.skip(i as int).drop_first() =~= before.skip(i + 1));
                assert(self.limbs@.skip(i as int).drop_first() =~= self.limbs@.skip(i + 1));
                let hq = limbs_value(before.skip(i + 1)) as int;
                assert(t == q * d + rem) by {
                    vstd::arithmetic::div_mod::lemma_fundamental_div_mod(t as int, d as int);
                    assert(q * d == d * q) by (nonlinear_arith);
                }
                assert((q + 0x1_0000_0000 * hq) * d == q * d + 0x1_0000_0000 * (hq * d))
                    by (nonlinear_arith);
            }
        }
        proof {
            assert(out@.skip(0) =~= out@);
            assert(self.limbs@.skip(0) =~= self.limbs@);
            let q = limbs_value(out@) as int;
            assert(q * d == d * q) by (nonlinear_arith);
            lemma_fundamental_div_mod_converse(self@ as int, d as int, q, rem as int);
        }
        (Nat { limbs: out }, rem)
    }

    /// `self / 2^k`, rounded down.
    pub fn shift_down(&self, k: u32) -> (r: Nat)
        ensures
            r@ == self@ / pow2(k as nat),
    {
        let whole: usize = (k / 32) as usize;
        let part: u32 = k % 32;
        let mut out: Vec<u32> = Vec::new();
        let mut i: usize = whole;
        while i < self.limbs.len()
            invariant
                whole <= i,
                i <= self.limbs@.len() || i == whole,
                out@.len() == i - whole,
                forall|j: int| 0 <= j < out@.len() ==> out@[j] == self.limbs@[whole + j],
            decreases self.limbs@.len() - i,
        {
            out.push(self.limbs[i]);
            i = i + 1;
        }
        let high: Nat = Nat { limbs: out };
        let factor: u32 = power_of_two(part);
        let r: (Nat, u32) = high.div_small(factor);
        proof {
            let w = pow2(32 * whole as nat);
            lemma_pow2_pos(32 * whole as nat);
            lemma_pow2_pos(part as nat);
            lemma_pow2_adds(32 * whole as nat, part as nat);
            if whole < self.limbs@.len() {
                assert(out@ =~= self.limbs@.skip(whole as int));
                lemma_value_split(self.limbs@, whole as int);
                lemma_value_bound(self.limbs@.take(whole as int));
                lemma_mul_is_commutative(w as int, high@ as int);
                lemma_fundamental_div_mod_converse(
                    self@ as int,
                    w as int,
                    high@ as int,
                    limbs_value(self.limbs@.take(whole as int)) as int,
                );
            } else {
                assert(out@ =~= Seq::<u32>::empty());
                lemma_value_bound(self.limbs@);
                if self.limbs@.len() < whole {
                    lemma_pow2_strictly_increases(32 * self.limbs@.len(), 32 * whole as nat);
                }
                lemma_fundamental_div_mod_converse(self@ as int, w as int, 0, self@ as int);
            }
            assert(high@ == self@ / w);
            vstd::arithmetic::div_mod::lemma_div_denominator(
                self@ as int,
                w as int,
                pow2(part as nat) as int,
            );
        }
        r.0
    }

    /// Whether the number is zero.
    pub fn is_zero(&self) -> (r: bool)
        ensures
            r == (self@ == 0),
    {
        let zero: Nat = Nat::from_u64(0);
        matches!(self.rank(&zero), Rank::Same)
    }

    /// The number as a 64-bit integer, if it fits.
    pub fn to_u64(&self) -> (r: Option<u64>)
        ensures
            r matches Some(x) ==> x == self@,
            r is None <==> self@ > u64::MAX,
    {
        let top: Nat = self.shift_down(64);
        proof {
            lemma2_to64();
            assert(pow2(64) == 0x1_0000_0000_0000_0000);
        }
        if !top.is_zero() {
            return None;
        }
        let halves: (Nat, u32) = self.div_small(0x1_0000);
        let quarters: (Nat, u32) = halves.0.div_small(0x1_0000);
        let eighths: (Nat, u32) = quarters.0.div_small(0x1_0000);
        let last: (Nat, u32) = eighths.0.div_small(0x1_0000);
        Some(
            ((last.1 as u64 * 0x1_0000 + eighths.1 as u64) * 0x1_0000 + quarters.1 as u64) * 0x1_0000
                + halves.1 as u64,
        )
    }

    /// The limb at place `i`, zero past the top.
    fn limb(&self, i: usize) -> (x: u32)
        ensures
            x == limb_at(self.limbs@, i as int),
    {
        if i < self.limbs.len() {
            self.limbs[i]
        } else {
            0
        }
    }
}

/// `2^k` for a shift inside one limb.
fn power_of_two(k: u32) -> (r: u32)
    requires
        k < 32,
    ensures
        r == pow2(k as nat),
        r > 0,
{
    let mut r: u32 = 1;
    let mut i: u32 = 0;
    proof {
        lemma2_to64();
    }
    while i < k
        invariant
            i <= k,
            k < 32,
            r == pow2(i as nat),
            r > 0,
        decreases k - i,
    {
        proof {
            lemma2_to64();
            lemma_pow2_unfold((i + 1) as nat);
            if i + 1 < 31 {
                lemma_pow2_strictly_increases((i + 1) as nat, 31);
            }
        }
        r = r * 2;
        i = i + 1;
    }
    r
}

proof fn lemma_zeros_value(zeros: Seq<u32>)
    requires
        forall|j: int| 0 <= j < zeros.len() ==> zeros[j] == 0,
    ensures
        limbs_value(zeros) == 0,
    decreases zeros.len(),
{
    if zeros.len() > 0 {
        lemma_zeros_value(zeros.drop_first());
    }
}

/// The lowest `n` limbs, with zeros past the top.
spec fn limbs_padded(limbs: Seq<u32>, n: int) -> Seq<u32> {
    Seq::new(n as nat, |i: int| limb_at(limbs, i))
}

proof fn lemma_padded_value(limbs: Seq<u32>, n: int)
    requires
        limbs.len() <= n,
    ensures
        limbs_value(limbs_padded(limbs, n)) == limbs_value(limbs),
{
    let all = limbs_padded(limbs, n);
    let len = limbs.len() as int;
    lemma_value_split(all, len);
    assert(all.take(len) =~= limbs);
    lemma_zeros_value(all.skip(len));
    assert(pow2(32 * len as nat) * 0 == 0);
}

/// The more significant part decides the rank unless it is the same.
proof fn lemma_top_limb_decides(p: int, x: int, y: int, a: int, b: int)
    by (nonlinear_arith)
    requires
        0 <= a < p,
        0 <= b < p,
        0 <= x,
        0 <= y,
    ensures
        x < y ==> a + p * x < b + p * y,
        y < x ==> b + p * y < a + p * x,
        x == y ==> p * x == p * y,
{
}

/// The limbs from place `i` up, none past the top.
spec fn limbs_from(limbs: Seq<u32>, i: int) -> Seq<u32> {
    if i < limbs.len() {
        limbs.skip(i)
    } else {
        Seq::empty()
    }
}

/// The limb at place `i`, zero past the top.
spec fn limb_at(limbs: Seq<u32>, i: int) -> u32 {
    if i < limbs.len() {
        limbs[i]
    } else {
        0
    }
}

proof fn lemma_from_step(limbs: Seq<u32>, i: int)
    requires
        0 <= i,
    ensures
        limbs_value(limbs_from(limbs, i)) == limb_at(limbs, i) + 0x1_0000_0000 * limbs_value(
            limbs_from(limbs, i + 1),
        ),
{
    if i < limbs.len() {
        assert(limbs.skip(i).drop_first() =~= limbs_from(limbs, i + 1));
    }
}

} // verus!
