//! Binary floating-point values read from decimal text and written as it.
use vstd::prelude::*;
use vstd::arithmetic::power2::{
    pow2, lemma_pow2_adds, lemma_pow2_pos, lemma_pow2_unfold, lemma2_to64, lemma2_to64_rest,
    lemma_pow2_strictly_increases,
};
use vstd::arithmetic::mul::{
    lemma_mul_is_associative, lemma_mul_inequality, lemma_mul_strict_inequality,
};
use crate::num::binary::{
    lemma_nearest_is, lemma_units_increase, lemma_units_step, nearest, nearest_exec, rounds_to,
    units, units_exec, Width,
};
use crate::num::natural::{
    lemma_pow10_adds, lemma_pow10_exceeds_pow2, lemma_pow10_pos, pow10, Nat, Rank,
};
use crate::text::{
    chars_of, decimal, digit, digits_value, find_char, first_at, is_digit, is_text, lemma_first_at,
    lower_ascii, lowered,
};

verus! {

// --- Reading ---------------------------------------------------------------

/// Numerator of `n * 10^k`.
pub open spec fn ten_num(n: nat, k: int) -> nat {
    if k >= 0 {
        n * pow10(k as nat)
    } else {
        n
    }
}

/// Denominator of `n * 10^k`.
pub open spec fn ten_den(k: int) -> nat {
    if k >= 0 {
        1
    } else {
        pow10((-k) as nat)
    }
}

/// The pattern nearest to `n * 10^k`.
pub open spec fn nearest_decimal(w: Width, n: nat, k: int) -> nat {
    nearest(w, ten_num(n, k), ten_den(k))
}

/// Whether `s` holds digits alone.
pub open spec fn all_digits(s: Seq<char>) -> bool {
    forall|i: int| 0 <= i < s.len() ==> is_digit(#[trigger] s[i])
}

/// Whether `s` starts with a sign.
pub open spec fn has_sign(s: Seq<char>) -> bool {
    s.len() > 0 && (s[0] == '+' || s[0] == '-')
}

/// Whether `s` starts with a minus sign.
pub open spec fn is_negative(s: Seq<char>) -> bool {
    s.len() > 0 && s[0] == '-'
}

/// `s` without its sign.
pub open spec fn without_sign(s: Seq<char>) -> Seq<char> {
    if has_sign(s) {
        s.skip(1)
    } else {
        s
    }
}

/// Where the exponent of `s` is marked, its length if it is not.
pub open spec fn exponent_mark(s: Seq<char>) -> int
    decreases s.len(),
{
    if s.len() == 0 || s[0] == 'e' || s[0] == 'E' {
        0
    } else {
        1 + exponent_mark(s.drop_first())
    }
}

/// The exponent that follows the mark: an optional sign and at least one digit.
pub open spec fn exponent_value(s: Seq<char>) -> Option<int> {
    let digits = without_sign(s);
    if digits.len() > 0 && all_digits(digits) {
        if is_negative(s) {
            Some(-(digits_value(digits) as int))
        } else {
            Some(digits_value(digits) as int)
        }
    } else {
        None
    }
}

/// The digits of a mantissa before and after its point.
pub open spec fn mantissa_parts(m: Seq<char>) -> (Seq<char>, Seq<char>) {
    match first_at(m, '.') {
        Some(i) => (m.take(i), m.skip(i + 1)),
        None => (m, Seq::empty()),
    }
}

/// The number `n * 10^k` that a literal without sign writes, as `(n, k)`:
/// digits with at most one point, at least one digit, then optionally `e` or
/// `E` with an exponent.
pub open spec fn literal_value(s: Seq<char>) -> Option<(nat, int)> {
    let mark = exponent_mark(s);
    let (whole, fraction) = mantissa_parts(s.take(mark));
    let exponent = if mark < s.len() {
        exponent_value(s.skip(mark + 1))
    } else {
        Some(0)
    };
    if whole.len() + fraction.len() > 0 && all_digits(whole) && all_digits(fraction) {
        match exponent {
            Some(e) => Some((digits_value(whole + fraction), e - fraction.len())),
            None => None,
        }
    } else {
        None
    }
}

/// The pattern of a value that is no number.
pub open spec fn not_a_number(w: Width) -> nat {
    match w {
        Width::Single => 0x7fc0_0000,
        Width::Double => 0x7ff8_0000_0000_0000,
    }
}

/// The pattern that the text `s` reads as: an optional sign, then `inf`,
/// `infinity` or `nan` in any letter case, or a literal.
pub open spec fn read_value(w: Width, s: Seq<char>) -> Option<nat> {
    let body = without_sign(s);
    let sign: nat = if is_negative(s) {
        w.sign()
    } else {
        0
    };
    let name = lower_ascii(body);
    if name == "inf"@ || name == "infinity"@ {
        Some(sign + w.infinity())
    } else if name == "nan"@ {
        Some(sign + not_a_number(w))
    } else {
        match literal_value(body) {
            Some((n, k)) => Some(sign + nearest_decimal(w, n, k)),
            None => None,
        }
    }
}

pub proof fn lemma_exponent_mark(s: Seq<char>)
    ensures
        0 <= exponent_mark(s) <= s.len(),
        forall|j: int| 0 <= j < exponent_mark(s) ==> s[j] != 'e' && s[j] != 'E',
        exponent_mark(s) < s.len() ==> s[exponent_mark(s)] == 'e' || s[exponent_mark(s)] == 'E',
    decreases s.len(),
{
    if s.len() > 0 && s[0] != 'e' && s[0] != 'E' {
        lemma_exponent_mark(s.drop_first());
        let rest = s.drop_first();
        assert(forall|j: int| 1 <= j < s.len() ==> s[j] == rest[j - 1]);
    }
}

fn find_exponent(s: &[char]) -> (r: usize)
    ensures
        r == exponent_mark(s@),
        r <= s@.len(),
{
    let mut i: usize = 0;
    while i < s.len() && s[i] != 'e' && s[i] != 'E'
        invariant
            i <= s@.len(),
            forall|j: int| 0 <= j < i ==> s@[j] != 'e' && s@[j] != 'E',
        decreases s@.len() - i,
    {
        i = i + 1;
    }
    proof {
        lemma_exponent_mark(s@);
        let m = exponent_mark(s@);
        if m < i {
            assert(s@[m] != 'e' && s@[m] != 'E');
        } else if i < m {
            assert(s@[i as int] != 'e' && s@[i as int] != 'E');
        }
    }
    i
}

fn digits_alone(s: &[char]) -> (r: bool)
    ensures
        r == all_digits(s@),
{
    let mut i: usize = 0;
    while i < s.len()
        invariant
            i <= s@.len(),
            forall|j: int| 0 <= j < i ==> is_digit(#[trigger] s@[j]),
        decreases s@.len() - i,
    {
        if s[i] < '0' || s[i] > '9' {
            assert(!is_digit(s@[i as int]));
            return false;
        }
        i = i + 1;
    }
    true
}

/// No exponent needs to be known past this.
const FAR: u128 = 1_000_000_000_000_000_000_000_000_000_000;

proof fn lemma_digits_value_prefix(s: Seq<char>, n: int)
    requires
        0 <= n <= s.len(),
        all_digits(s),
    ensures
        digits_value(s.take(n)) <= digits_value(s),
    decreases s.len() - n,
{
    if n < s.len() {
        lemma_digits_value_prefix(s, n + 1);
        let more = s.take(n + 1);
        assert(more.drop_last() =~= s.take(n));
        assert(more.last() == s[n]);
        assert(is_digit(s[n]));
    } else {
        assert(s.take(n) =~= s);
    }
}

/// The number that the digits write, cut off at [`FAR`].
fn capped_value(s: &[char]) -> (r: u128)
    requires
        all_digits(s@),
    ensures
        r <= FAR,
        digits_value(s@) < FAR ==> r == digits_value(s@),
        digits_value(s@) >= FAR ==> r == FAR,
{
    let mut v: u128 = 0;
    let mut i: usize = 0;
    proof {
        assert(s@.take(0) =~= Seq::<char>::empty());
    }
    while i < s.len()
        invariant
            i <= s@.len(),
            all_digits(s@),
            v < FAR,
            v == digits_value(s@.take(i as int)),
        decreases s@.len() - i,
    {
        assert(is_digit(s@[i as int]));
        proof {
            let more = s@.take(i + 1);
            assert(more.drop_last() =~= s@.take(i as int));
            assert(more.last() == s@[i as int]);
        }
        v = v * 10 + (s[i] as u32 - 48) as u128;
        i = i + 1;
        if v >= FAR {
            proof {
                lemma_digits_value_prefix(s@, i as int);
            }
            return FAR;
        }
    }
    proof {
        assert(s@.take(i as int) =~= s@);
    }
    v
}

/// The number that the digits write.
fn value_of_digits(s: &[char]) -> (r: Nat)
    requires
        all_digits(s@),
    ensures
        r@ == digits_value(s@),
{
    let mut v: Nat = Nat::from_u64(0);
    let mut i: usize = 0;
    proof {
        assert(s@.take(0) =~= Seq::<char>::empty());
    }
    while i < s.len()
        invariant
            i <= s@.len(),
            all_digits(s@),
            v@ == digits_value(s@.take(i as int)),
        decreases s@.len() - i,
    {
        assert(is_digit(s@[i as int]));
        proof {
            let more = s@.take(i + 1);
            assert(more.drop_last() =~= s@.take(i as int));
            assert(more.last() == s@[i as int]);
        }
        v = v.mul_add_small(10, s[i] as u32 - 48);
        i = i + 1;
    }
    proof {
        assert(s@.take(i as int) =~= s@);
    }
    v
}

/// As many digits write less than that power of ten.
proof fn lemma_digits_value_bound(s: Seq<char>)
    requires
        all_digits(s),
    ensures
        digits_value(s) < pow10(s.len()),
    decreases s.len(),
{
    if s.len() > 0 {
        assert(all_digits(s.drop_last())) by {
            assert forall|i: int| 0 <= i < s.drop_last().len() implies is_digit(
                #[trigger] s.drop_last()[i],
            ) by {
                assert(s.drop_last()[i] == s[i]);
            }
        }
        lemma_digits_value_bound(s.drop_last());
        assert(is_digit(s[s.len() - 1]));
    }
}

/// `10^k`.
pub fn power_of_ten(k: usize) -> (r: Nat)
    ensures
        r@ == pow10(k as nat),
{
    let mut v: Nat = Nat::from_u64(1);
    let mut i: usize = 0;
    while i < k
        invariant
            i <= k,
            v@ == pow10(i as nat),
        decreases k - i,
    {
        v = v.mul_add_small(10, 0);
        i = i + 1;
    }
    v
}

/// Past all finite values.
proof fn lemma_far_up(w: Width, n: nat, k: int)
    requires
        n > 0,
        k >= 400,
    ensures
        nearest_decimal(w, n, k) == w.infinity(),
{
    lemma_pow10_exceeds_pow2(400);
    lemma_pow10_adds(400, (k - 400) as nat);
    lemma_pow10_pos((k - 400) as nat);
    assert(pow10(k as nat) >= pow10(400)) by (nonlinear_arith)
        requires
            pow10(k as nat) == pow10(400) * pow10((k - 400) as nat),
            pow10((k - 400) as nat) >= 1,
    ;
    assert(n * pow10(k as nat) >= pow10(k as nat)) by (nonlinear_arith)
        requires
            n >= 1,
    ;
    let num = ten_num(n, k);
    let s = w.scale();
    let top = w.infinity();
    let e: nat = match w {
        Width::Single => 254,
        Width::Double => 2046,
    };
    let p = w.fractions();
    lemma2_to64();
    lemma2_to64_rest();
    lemma_pow2_adds(w.fraction_bits(), e);
    assert(units(w, top) == (p + 0) * pow2(e));
    assert(units(w, top) == pow2(w.fraction_bits() + e));
    lemma_units_increase(w, (top - 1) as nat, top);
    lemma_pow2_unfold(w.fraction_bits() + e + 1);
    lemma_pow2_adds(1200, s);
    lemma_pow2_strictly_increases(w.fraction_bits() + e + 1, 1200 + s);
    assert(num * pow2(s) >= pow2(1200) * pow2(s)) by (nonlinear_arith)
        requires
            num >= pow2(1200),
    ;
    assert(2 * num * pow2(s) >= num * pow2(s)) by (nonlinear_arith);
    let both = units(w, (top - 1) as nat) + units(w, top);
    assert(both * 1 == both);
    assert(rounds_to(w, num, 1, top));
    lemma_nearest_is(w, num, 1, top);
}

/// Nearer to zero than to the smallest positive value.
proof fn lemma_far_down(w: Width, n: nat, k: int, len: nat)
    requires
        n < pow10(len),
        -k >= len + 400,
    ensures
        nearest_decimal(w, n, k) == 0,
{
    let j = (-k) as nat;
    let s = w.scale();
    lemma_pow10_exceeds_pow2(400);
    lemma_pow10_adds(400, (j - 400) as nat);
    lemma_pow10_adds(len, (j - 400 - len) as nat);
    lemma_pow10_pos((j - 400 - len) as nat);
    lemma_pow10_pos(len);
    lemma2_to64();
    lemma_pow2_unfold(s + 1);
    lemma_pow2_strictly_increases(s + 1, 1200);
    assert(pow10((j - 400) as nat) >= pow10(len)) by (nonlinear_arith)
        requires
            pow10((j - 400) as nat) == pow10(len) * pow10((j - 400 - len) as nat),
            pow10((j - 400 - len) as nat) >= 1,
    ;
    assert(2 * n * pow2(s) < pow10(j)) by (nonlinear_arith)
        requires
            n < pow10((j - 400) as nat),
            2 * pow2(s) < pow10(400),
            pow10(j) == pow10(400) * pow10((j - 400) as nat),
            pow2(s) >= 0,
    ;
    lemma_pow10_pos(j);
    assert(units(w, 0) == 0 && units(w, 1) == 1);
    assert((units(w, 0) + units(w, 1)) * pow10(j) == pow10(j)) by (nonlinear_arith)
        requires
            units(w, 0) + units(w, 1) == 1,
    ;
    assert(rounds_to(w, n, pow10(j), 0));
    lemma_nearest_is(w, n, pow10(j), 0);
}

pub proof fn lemma_zero(w: Width, k: int)
    ensures
        nearest_decimal(w, 0, k) == 0,
{
    let d = ten_den(k);
    if k < 0 {
        lemma_pow10_pos((-k) as nat);
    }
    assert(ten_num(0, k) == 0) by {
        if k >= 0 {
            assert(0 * pow10(k as nat) == 0);
        }
    }
    assert(units(w, 0) == 0 && units(w, 1) == 1);
    assert(2 * 0 * pow2(w.scale()) == 0) by (nonlinear_arith);
    assert((units(w, 0) + units(w, 1)) * d > 0) by (nonlinear_arith)
        requires
            units(w, 0) + units(w, 1) == 1,
            d > 0,
    ;
    assert(rounds_to(w, 0, d, 0));
    lemma_nearest_is(w, 0, d, 0);
}

/// Rounds the decimal that `digits` write, scaled by ten to the power of
/// `exponent`, which stands for every exponent past it once it is far away.
fn round_digits(w: Width, digits: &[char], exponent: i128, Ghost(k): Ghost<int>) -> (r: u64)
    requires
        all_digits(digits@),
        -2 * FAR <= exponent <= FAR,
        k == exponent || 0x40_0000_0000_0000_0000 <= exponent <= k || k <= exponent
            <= -0x40_0000_0000_0000_0000,
    ensures
        r == nearest_decimal(w, digits_value(digits@), k),
        r <= w.infinity(),
{
    let n: Nat = value_of_digits(digits);
    if n.is_zero() {
        proof {
            lemma_zero(w, k);
        }
        return 0;
    }
    if exponent >= 400 {
        proof {
            lemma_far_up(w, n@, k);
        }
        return nearest_far(w);
    }
    if exponent >= 0 {
        let num: Nat = n.times(&power_of_ten(exponent as usize));
        return nearest_exec(w, &num, &Nat::from_u64(1));
    }
    if -exponent >= digits.len() as i128 + 400 {
        proof {
            lemma_digits_value_bound(digits@);
            lemma_far_down(w, n@, k, digits@.len());
        }
        return 0;
    }
    if -exponent > usize::MAX as i128 {
        let tail: usize = (-exponent - usize::MAX as i128) as usize;
        let den: Nat = power_of_ten(usize::MAX).times(&power_of_ten(tail));
        proof {
            lemma_pow10_adds(usize::MAX as nat, tail as nat);
            lemma_pow10_pos((-k) as nat);
        }
        return nearest_exec(w, &n, &den);
    }
    let den: Nat = power_of_ten((-exponent) as usize);
    proof {
        lemma_pow10_pos((-k) as nat);
    }
    nearest_exec(w, &n, &den)
}

fn nearest_far(w: Width) -> (r: u64)
    ensures
        r == w.infinity(),
{
    match w {
        Width::Single => 0x7f80_0000,
        Width::Double => 0x7ff0_0000_0000_0000,
    }
}

/// Reads a literal without sign.
fn read_literal(w: Width, s: &[char]) -> (r: Option<u64>)
    ensures
        match r {
            Some(b) => {
                &&& literal_value(s@) matches Some((n, k))
                &&& b == nearest_decimal(w, n, k)
                &&& b <= w.infinity()
            },
            None => literal_value(s@) is None,
        },
{
    let mark: usize = find_exponent(s);
    let mantissa: &[char] = vstd::slice::slice_subrange(s, 0, mark);
    proof {
        lemma_first_at(mantissa@, '.');
    }
    assert(mantissa@ =~= s@.take(mark as int));
    let (point, after): (usize, usize) = match find_char(mantissa, '.') {
        Some(i) => (i, i + 1),
        None => (mark, mark),
    };
    let whole: &[char] = vstd::slice::slice_subrange(mantissa, 0, point);
    let fraction: &[char] = vstd::slice::slice_subrange(mantissa, after, mark);
    proof {
        assert(whole@ =~= mantissa_parts(mantissa@).0);
        assert(fraction@ =~= mantissa_parts(mantissa@).1);
    }
    if whole.len() == 0 && fraction.len() == 0 {
        return None;
    }
    if !digits_alone(whole) || !digits_alone(fraction) {
        return None;
    }
    let mut exponent: i128 = 0;
    let ghost mut e: int = 0;
    if mark < s.len() {
        let tail: &[char] = vstd::slice::slice_subrange(s, mark + 1, s.len());
        assert(tail@ =~= s@.skip(mark + 1));
        let signed: bool = tail.len() > 0 && (tail[0] == '+' || tail[0] == '-');
        let digits: &[char] = vstd::slice::slice_subrange(
            tail,
            if signed {
                1
            } else {
                0
            },
            tail.len(),
        );
        assert(digits@ =~= without_sign(tail@));
        if digits.len() == 0 || !digits_alone(digits) {
            return None;
        }
        let size: u128 = capped_value(digits);
        if tail[0] == '-' {
            exponent = -(size as i128);
            proof {
                e = -(digits_value(digits@) as int);
            }
        } else {
            exponent = size as i128;
            proof {
                e = digits_value(digits@) as int;
            }
        }
    }
    let mut all: Vec<char> = vstd::slice::slice_to_vec(whole);
    let mut tail_digits: Vec<char> = vstd::slice::slice_to_vec(fraction);
    all.append(&mut tail_digits);
    proof {
        assert(all@ =~= whole@ + fraction@);
        assert forall|i: int| 0 <= i < all@.len() implies is_digit(#[trigger] all@[i]) by {
            if i < whole@.len() {
                assert(is_digit(whole@[i]));
            } else {
                assert(is_digit(fraction@[i - whole@.len()]));
            }
        }
    }
    let shift: i128 = fraction.len() as i128;
    Some(round_digits(w, all.as_slice(), exponent - shift, Ghost(e - fraction@.len())))
}

/// Reads the text of a floating-point value.
pub fn read(w: Width, s: &[char]) -> (r: Option<u64>)
    ensures
        match r {
            Some(b) => read_value(w, s@) == Some(b as nat),
            None => read_value(w, s@) is None,
        },
{
    let signed: bool = s.len() > 0 && (s[0] == '+' || s[0] == '-');
    let body: &[char] = vstd::slice::slice_subrange(
        s,
        if signed {
            1
        } else {
            0
        },
        s.len(),
    );
    assert(body@ =~= without_sign(s@));
    let sign: u64 = if s.len() > 0 && s[0] == '-' {
        match w {
            Width::Single => 0x8000_0000,
            Width::Double => 0x8000_0000_0000_0000,
        }
    } else {
        0
    };
    let name: Vec<char> = lowered(body);
    if is_text(name.as_slice(), "inf") || is_text(name.as_slice(), "infinity") {
        return Some(sign + nearest_far(w));
    }
    if is_text(name.as_slice(), "nan") {
        let quiet: u64 = match w {
            Width::Single => 0x7fc0_0000,
            Width::Double => 0x7ff8_0000_0000_0000,
        };
        return Some(sign + quiet);
    }
    match read_literal(w, body) {
        Some(b) => Some(sign + b),
        None => None,
    }
}

// --- Writing ---------------------------------------------------------------

/// The decimal `n * 10^k` reads as the pattern `b`.
pub open spec fn reads_as(w: Width, n: nat, k: int, b: nat) -> bool {
    rounds_to(w, ten_num(n, k), ten_den(k), b)
}

/// How far `n * 10^k` is from the value of `b`, in a unit that depends on `k`.
pub open spec fn distance(w: Width, n: nat, k: int, b: nat) -> nat {
    let x = ten_num(n, k) * pow2(w.scale());
    let v = units(w, b) * ten_den(k);
    if x <= v {
        (v - x) as nat
    } else {
        (x - v) as nat
    }
}

/// `n * 10^k` is the decimal to write for `b`: it reads as `b`, no decimal with
/// fewer digits does, and none with as many is nearer. Of two equally near ones
/// it is the larger.
pub open spec fn is_shortest(w: Width, b: nat, n: nat, k: int) -> bool {
    &&& reads_as(w, n, k, b)
    &&& forall|m: nat, j: int| #[trigger]
        reads_as(w, m, j, b) ==> j < k || (j == k && (distance(w, n, k, b) < distance(w, m, k, b)
            || (distance(w, n, k, b) == distance(w, m, k, b) && m <= n)))
}

/// The decimal to write for `b`, as digits and exponent.
pub open spec fn shortest(w: Width, b: nat) -> (nat, int) {
    choose|p: (nat, int)| is_shortest(w, b, p.0, p.1)
}

proof fn lemma_shortest_is(w: Width, b: nat, n: nat, k: int)
    requires
        is_shortest(w, b, n, k),
    ensures
        shortest(w, b) == (n, k),
{
    let p = (n, k);
    assert(is_shortest(w, b, p.0, p.1));
    let q = shortest(w, b);
    assert(is_shortest(w, b, q.0, q.1));
    assert(reads_as(w, q.0, q.1, b));
    assert(reads_as(w, n, k, b));
}

/// The text that a value is written as reads as that value again.
pub proof fn lemma_shortest_reads_back(w: Width, b: nat)
    requires
        exists|n: nat, k: int| is_shortest(w, b, n, k),
    ensures
        nearest_decimal(w, shortest(w, b).0, shortest(w, b).1) == b,
{
    let (n, k) = choose|n: nat, k: int| is_shortest(w, b, n, k);
    lemma_shortest_is(w, b, n, k);
    if k < 0 {
        lemma_pow10_pos((-k) as nat);
    }
    lemma_nearest_is(w, ten_num(n, k), ten_den(k), b);
}

/// Whether `n * 10^k` reads as `b`.
fn reads_as_exec(w: Width, num: &Nat, den: &Nat, b: u64) -> (r: bool)
    requires
        0 < b < w.infinity(),
    ensures
        r == rounds_to(w, num@, den@, b as nat),
{
    let here: Nat = units_exec(w, b);
    let below: Nat = units_exec(w, b - 1).plus(&here).times(den);
    let above: Nat = here.plus(&units_exec(w, b + 1)).times(den);
    let scale: u32 = match w {
        Width::Single => 149,
        Width::Double => 1074,
    };
    let twice: Nat = num.mul_add_small(2, 0).shift_up(scale);
    let even: bool = b % 2 == 0;
    assert(num@ * 2 == 2 * num@);
    let low: bool = match twice.rank(&below) {
        Rank::Below => false,
        Rank::Same => even,
        Rank::Above => true,
    };
    let high: bool = match twice.rank(&above) {
        Rank::Below => true,
        Rank::Same => even,
        Rank::Above => false,
    };
    low && high
}

/// `10^k` against the unit of the format, cleared of fractions.
spec fn step(w: Width, k: int) -> nat {
    ten_num(1, k) * pow2(w.scale())
}

/// The value of `b` on the same footing as [`step`].
spec fn target(w: Width, b: nat, k: int) -> nat {
    units(w, b) * ten_den(k)
}

proof fn lemma_step(w: Width, n: nat, k: int)
    ensures
        ten_num(n, k) * pow2(w.scale()) == n * step(w, k),
        2 * ten_num(n, k) * pow2(w.scale()) == 2 * (n * step(w, k)),
        step(w, k) > 0,
        ten_den(k) > 0,
{
    let s = pow2(w.scale());
    lemma_pow2_pos(w.scale());
    let x = ten_num(n, k);
    if k >= 0 {
        let t = pow10(k as nat);
        lemma_pow10_pos(k as nat);
        assert(1 * t == t);
        lemma_mul_is_associative(n as int, t as int, s as int);
        assert(t * s > 0) by (nonlinear_arith)
            requires
                t > 0,
                s > 0,
        ;
    } else {
        lemma_pow10_pos((-k) as nat);
        assert(1 * s == s);
    }
    assert(2 * x * s == 2 * (x * s)) by (nonlinear_arith);
}

/// The patterns beside `b` stand below and above it.
proof fn lemma_middles(w: Width, b: nat, d: nat)
    requires
        b > 0,
        d > 0,
    ensures
        (units(w, (b - 1) as nat) + units(w, b)) * d < 2 * (units(w, b) * d),
        2 * (units(w, b) * d) < (units(w, b) + units(w, b + 1)) * d,
{
    lemma_units_step(w, (b - 1) as nat);
    lemma_units_step(w, b);
    let u = units(w, b);
    let below = units(w, (b - 1) as nat);
    let above = units(w, b + 1);
    assert((below + u) * d < 2 * (u * d)) by (nonlinear_arith)
        requires
            below < u,
            d > 0,
    ;
    assert(2 * (u * d) < (u + above) * d) by (nonlinear_arith)
        requires
            u < above,
            d > 0,
    ;
}

/// The next pattern has at most twice the value.
proof fn lemma_next_at_most_double(w: Width, b: nat)
    requires
        b > 0,
    ensures
        units(w, b + 1) <= 2 * units(w, b),
{
    let p = w.fractions();
    lemma2_to64();
    if b + 1 < p {
    } else if b < p {
        assert((b + 1) % p == 0 && (b + 1) / p == 1);
        assert((p + 0) * pow2(0) == p) by (nonlinear_arith)
            requires
                pow2(0) == 1,
        ;
    } else {
        let e = (b / p - 1) as nat;
        let r = b % p;
        vstd::arithmetic::div_mod::lemma_fundamental_div_mod(b as int, p as int);
        lemma_pow2_pos(e);
        if r + 1 < p {
            vstd::arithmetic::div_mod::lemma_fundamental_div_mod_converse(
                (b + 1) as int,
                p as int,
                (b / p) as int,
                (r + 1) as int,
            );
            assert((p + (r + 1)) * pow2(e) <= 2 * ((p + r) * pow2(e))) by (nonlinear_arith)
                requires
                    p >= 1,
            ;
        } else {
            assert((b / p + 1) * p == b + 1) by (nonlinear_arith)
                requires
                    b == p * (b / p) + r,
                    r + 1 == p,
            ;
            vstd::arithmetic::div_mod::lemma_fundamental_div_mod_converse(
                (b + 1) as int,
                p as int,
                (b / p + 1) as int,
                0,
            );
            lemma_pow2_unfold(e + 1);
            assert((p + 0) * (2 * pow2(e)) <= 2 * ((p + r) * pow2(e))) by (nonlinear_arith);
        }
    }
}

/// Between two powers of ten.
proof fn lemma_ten_ratio(j: int, k: int)
    requires
        j >= k,
    ensures
        ten_num(1, j) * ten_den(k) == pow10((j - k) as nat) * ten_num(1, k) * ten_den(j),
{
    let t = pow10((j - k) as nat);
    if k >= 0 {
        lemma_pow10_adds((j - k) as nat, k as nat);
        assert(((1 * pow10(j as nat)) * 1) == t * (1 * pow10(k as nat)) * 1) by (nonlinear_arith)
            requires
                pow10(j as nat) == t * pow10(k as nat),
        ;
    } else if j >= 0 {
        lemma_pow10_adds(j as nat, (-k) as nat);
        assert(j as nat + (-k) as nat == (j - k) as nat);
        assert((1 * pow10(j as nat)) * pow10((-k) as nat) == t * 1 * 1) by (nonlinear_arith)
            requires
                t == pow10(j as nat) * pow10((-k) as nat),
        ;
    } else {
        lemma_pow10_adds((j - k) as nat, (-j) as nat);
        assert((j - k) as nat + (-j) as nat == (-k) as nat);
        assert(1 * pow10((-k) as nat) == t * 1 * pow10((-j) as nat)) by (nonlinear_arith)
            requires
                pow10((-k) as nat) == t * pow10((-j) as nat),
        ;
    }
}

/// A power of ten above ten times the value is no start of its text.
proof fn lemma_too_large(w: Width, b: nat, k: int, m: nat, j: int)
    requires
        b > 0,
        b < w.infinity(),
        target(w, b, k) < step(w, k),
        j > k,
    ensures
        !reads_as(w, m, j, b),
{
    if reads_as(w, m, j, b) {
        let u = units(w, b);
        let d = ten_den(j);
        lemma_step(w, m, j);
        lemma_step(w, 1, j);
        lemma_step(w, 1, k);
        lemma_middles(w, b, d);
        lemma_next_at_most_double(w, b);
        lemma_units_step(w, (b - 1) as nat);
        let a = step(w, j);
        if m == 0 {
            assert(0 * a == 0);
            assert((units(w, (b - 1) as nat) + u) * d > 0) by (nonlinear_arith)
                requires
                    u > 0,
                    d > 0,
            ;
            assert(false);
        }
        assert(m * a >= a) by (nonlinear_arith)
            requires
                m >= 1,
        ;
        assert((u + units(w, b + 1)) * d <= 3 * (u * d)) by (nonlinear_arith)
            requires
                units(w, b + 1) <= 2 * u,
        ;
        assert(2 * a <= 3 * (u * d));
        lemma_ten_ratio(j, k);
        let t = pow10((j - k) as nat);
        lemma_pow10_pos((j - k - 1) as nat);
        assert(t >= 10);
        let c = ten_den(k);
        let s = pow2(w.scale());
        lemma_pow2_pos(w.scale());
        let x = ten_num(1, j);
        let y = ten_num(1, k);
        // x * c == t * y * d, u * c < y * s, 2 * (x * s) <= 3 * (u * d)
        assert(false) by (nonlinear_arith)
            requires
                a == x * s,
                x * c == t * y * d,
                u * c < y * s,
                2 * a <= 3 * (u * d),
                t >= 10,
                d > 0,
                c > 0,
                s > 0,
                y >= 0,
        {
            assert(2 * ((x * c) * s) <= 3 * ((u * c) * d)) by {
                assert(2 * (x * s) * c <= 3 * (u * d) * c);
                assert(2 * (x * s) * c == 2 * ((x * c) * s));
                assert(3 * (u * d) * c == 3 * ((u * c) * d));
            }
            assert((x * c) * s == t * ((y * s) * d));
            assert((y * s) * d > (u * c) * d);
            assert(t * ((y * s) * d) >= 10 * ((y * s) * d));
        }
    }
}

/// The decimals with exponent `k` that read as `b` lie around its value.
proof fn lemma_around(w: Width, b: nat, k: int, n: nat, m: nat)
    requires
        0 < b < w.infinity(),
        n == target(w, b, k) / step(w, k),
        reads_as(w, m, k, b),
    ensures
        m <= n ==> reads_as(w, n, k, b),
        m > n ==> reads_as(w, n + 1, k, b),
{
    let a = step(w, k);
    let v = target(w, b, k);
    let d = ten_den(k);
    lemma_step(w, n, k);
    lemma_step(w, n + 1, k);
    lemma_step(w, m, k);
    lemma_middles(w, b, d);
    lemma_floor(v, a);
    if m <= n {
        lemma_mul_inequality(m as int, n as int, a as int);
    } else {
        lemma_mul_inequality((n + 1) as int, m as int, a as int);
    }
}

proof fn lemma_floor(v: nat, a: nat)
    requires
        a > 0,
    ensures
        (v / a) * a <= v < (v / a + 1) * a,
        (v / a + 1) * a == (v / a) * a + a,
{
    vstd::arithmetic::div_mod::lemma_fundamental_div_mod(v as int, a as int);
    assert(a * (v / a) == (v / a) * a) by (nonlinear_arith);
    assert((v / a + 1) * a == (v / a) * a + a) by (nonlinear_arith);
}

/// Of the decimals around the value, the chosen one is the one to write.
proof fn lemma_choice(w: Width, b: nat, k: int, c: nat)
    requires
        0 < b < w.infinity(),
        forall|m: nat, j: int| j > k ==> !#[trigger] reads_as(w, m, j, b),
        reads_as(w, c, k, b),
        ({
            let v = target(w, b, k);
            let a = step(w, k);
            let n = v / a;
            let low = reads_as(w, n, k, b);
            let high = reads_as(w, n + 1, k, b);
            ||| c == n && low && !high
            ||| c == n + 1 && high && !low
            ||| low && high && c == n && 2 * v < (2 * n + 1) * a
            ||| low && high && c == n + 1 && 2 * v >= (2 * n + 1) * a
        }),
    ensures
        is_shortest(w, b, c, k),
{
    let v = target(w, b, k);
    let a = step(w, k);
    let n = v / a;
    lemma_step(w, 1, k);
    lemma_floor(v, a);
    assert((2 * n + 1) * a == 2 * (n * a) + a) by (nonlinear_arith);
    assert forall|m: nat, j: int| #[trigger] reads_as(w, m, j, b) implies j < k || (j == k && (
    distance(w, c, k, b) < distance(w, m, k, b) || (distance(w, c, k, b) == distance(w, m, k, b)
        && m <= c))) by {
        if j == k {
            lemma_around(w, b, k, n, m);
            lemma_step(w, m, k);
            lemma_step(w, c, k);
            if m < n {
                lemma_mul_strict_inequality(m as int, n as int, a as int);
            }
            if m > n + 1 {
                lemma_mul_strict_inequality((n + 1) as int, m as int, a as int);
            }
        }
    }
}

/// Ten to the power of `k` is a multiple of two to the power of `k`.
proof fn lemma_pow10_factor(k: nat) -> (q: nat)
    ensures
        pow10(k) == q * pow2(k),
    decreases k,
{
    lemma2_to64();
    if k == 0 {
        1
    } else {
        let q = lemma_pow10_factor((k - 1) as nat);
        lemma_pow2_unfold(k);
        assert(10 * (q * pow2((k - 1) as nat)) == (5 * q) * (2 * pow2((k - 1) as nat)))
            by (nonlinear_arith);
        5 * q
    }
}

/// With as many places as the format has binary ones the decimal is exact.
proof fn lemma_exact_at_scale(w: Width, b: nat)
    requires
        0 < b < w.infinity(),
    ensures
        ({
            let k = -(w.scale() as int);
            reads_as(w, target(w, b, k) / step(w, k), k, b)
        }),
{
    let k = -(w.scale() as int);
    let s = pow2(w.scale());
    let q = lemma_pow10_factor(w.scale());
    let u = units(w, b);
    let v = target(w, b, k);
    let a = step(w, k);
    lemma_pow2_pos(w.scale());
    assert(a == s);
    assert(v == (u * q) * s) by (nonlinear_arith)
        requires
            v == u * (q * s),
    ;
    vstd::arithmetic::div_mod::lemma_fundamental_div_mod_converse(v as int, s as int, (u * q) as int, 0);
    lemma_step(w, u * q, k);
    lemma_middles(w, b, ten_den(k));
}

/// The value of `b` in whole steps of `10^k`.
fn floor_exec(w: Width, b: u64, k: i32) -> (n: Nat)
    requires
        0 < b < w.infinity(),
        -2000 <= k <= 2000,
    ensures
        n@ == target(w, b as nat, k as int) / step(w, k as int),
{
    let scale: u32 = match w {
        Width::Single => 149,
        Width::Double => 1074,
    };
    let u: Nat = units_exec(w, b);
    proof {
        lemma_pow2_pos(w.scale());
    }
    if k >= 0 {
        let mut q: Nat = u.shift_down(scale);
        let mut i: i32 = 0;
        proof {
            assert(q@ / 1 == q@);
        }
        let ghost whole = q@;
        while i < k
            invariant
                0 <= i <= k,
                q@ == whole / pow10(i as nat),
            decreases k - i,
        {
            proof {
                lemma_pow10_pos(i as nat);
                vstd::arithmetic::div_mod::lemma_div_denominator(
                    whole as int,
                    pow10(i as nat) as int,
                    10,
                );
                assert(pow10(i as nat) * 10 == pow10((i + 1) as nat));
            }
            q = q.div_small(10).0;
            i = i + 1;
        }
        proof {
            lemma_pow10_pos(k as nat);
            vstd::arithmetic::div_mod::lemma_div_denominator(
                u@ as int,
                pow2(w.scale()) as int,
                pow10(k as nat) as int,
            );
            assert(pow2(w.scale()) * pow10(k as nat) == (1 * pow10(k as nat)) * pow2(w.scale()))
                by (nonlinear_arith);
            assert(u@ * 1 == u@);
        }
        q
    } else {
        let j: usize = (-k) as usize;
        let r: Nat = u.times(&power_of_ten(j)).shift_down(scale);
        proof {
            assert(1 * pow2(w.scale()) == pow2(w.scale()));
        }
        r
    }
}

/// A power of ten above the value of `b`, with the one below it not above.
proof fn lemma_search_bounds(w: Width, b: nat)
    requires
        0 < b < w.infinity(),
    ensures
        target(w, b, 400) / step(w, 400) == 0,
        target(w, b, -(w.scale() as int)) / step(w, -(w.scale() as int)) > 0,
{
    let s = pow2(w.scale());
    let u = units(w, b);
    lemma_pow10_exceeds_pow2(400);
    lemma2_to64();
    lemma2_to64_rest();
    lemma_pow2_pos(w.scale());
    lemma_units_increase(w, 0, b);
    lemma_units_increase(w, b, w.infinity());
    let e: nat = match w {
        Width::Single => 254,
        Width::Double => 2046,
    };
    lemma_pow2_adds(w.fraction_bits(), e);
    assert(units(w, w.infinity()) == pow2(w.fraction_bits() + e));
    lemma_pow2_adds(1200, w.scale());
    lemma_pow2_strictly_increases(w.fraction_bits() + e, 1200 + w.scale());
    assert((1 * pow10(400)) * s >= pow2(1200) * s) by (nonlinear_arith)
        requires
            pow10(400) >= pow2(1200),
    ;
    assert(u * 1 == u);
    vstd::arithmetic::div_mod::lemma_basic_div(target(w, b, 400) as int, step(w, 400) as int);
    let t = pow10(w.scale());
    lemma_pow10_exceeds_pow2(w.scale());
    lemma_pow2_strictly_increases(w.scale(), 3 * w.scale());
    assert(u * t >= t) by (nonlinear_arith)
        requires
            u >= 1,
    ;
    assert(step(w, -(w.scale() as int)) == s);
    vstd::arithmetic::div_mod::lemma_div_non_zero(
        target(w, b, -(w.scale() as int)) as int,
        s as int,
    );
}

proof fn lemma_zero_floor(v: nat, a: nat)
    requires
        a > 0,
        v / a == 0,
    ensures
        v < a,
{
    lemma_floor(v, a);
}

/// The decimal to write for `b`.
pub fn shortest_exec(w: Width, b: u64) -> (r: (Nat, i32))
    requires
        0 < b < w.infinity(),
    ensures
        is_shortest(w, b as nat, r.0@, r.1 as int),
        shortest(w, b as nat) == (r.0@, r.1 as int),
        -2000 <= r.1 <= 2000,
{
    let scale: i32 = match w {
        Width::Single => 149,
        Width::Double => 1074,
    };
    let mut k: i32 = 0;
    let ghost bn = b as nat;
    proof {
        lemma_search_bounds(w, bn);
    }
    if floor_exec(w, b, 0).is_zero() {
        while floor_exec(w, b, k - 1).is_zero()
            invariant
                0 < b < w.infinity(),
                bn == b as nat,
                scale == w.scale(),
                -scale <= k <= 0,
                target(w, bn, k as int) / step(w, k as int) == 0,
                target(w, bn, -scale as int) / step(w, -scale as int) > 0,
            decreases k + scale,
        {
            k = k - 1;
        }
    } else {
        while !floor_exec(w, b, k).is_zero()
            invariant
                0 < b < w.infinity(),
                bn == b as nat,
                0 <= k <= 400,
                target(w, bn, 400) / step(w, 400) == 0,
            decreases 400 - k,
        {
            k = k + 1;
        }
    }
    proof {
        lemma_step(w, 1, k as int);
        lemma_zero_floor(target(w, bn, k as int), step(w, k as int));
        assert forall|m: nat, j: int| j > k implies !#[trigger] reads_as(w, m, j, bn) by {
            lemma_too_large(w, bn, k as int, m, j);
        }
    }
    loop
        invariant
            0 < b < w.infinity(),
            bn == b as nat,
            scale == w.scale(),
            -scale <= k <= 400,
            forall|m: nat, j: int| j > k ==> !#[trigger] reads_as(w, m, j, bn),
        decreases k + scale,
    {
        let n: Nat = floor_exec(w, b, k);
        let up: Nat = n.mul_add_small(1, 1);
        let ten: Nat = power_of_ten(if k >= 0 {
            k as usize
        } else {
            (-k) as usize
        });
        let one: Nat = Nat::from_u64(1);
        let low: bool;
        let high: bool;
        if k >= 0 {
            low = reads_as_exec(w, &n.times(&ten), &one, b);
            high = reads_as_exec(w, &up.times(&ten), &one, b);
        } else {
            low = reads_as_exec(w, &n, &ten, b);
            high = reads_as_exec(w, &up, &ten, b);
        }
        proof {
            lemma_step(w, 1, k as int);
        }
        if low || high {
            let take_low: bool = if low && high {
                let v: Nat = units_exec(w, b);
                let doubled: Nat = if k >= 0 {
                    v.mul_add_small(2, 0)
                } else {
                    v.times(&ten).mul_add_small(2, 0)
                };
                let middle: Nat = n.mul_add_small(2, 1);
                let scaled: Nat = if k >= 0 {
                    middle.times(&ten.shift_up(scale as u32))
                } else {
                    middle.shift_up(scale as u32)
                };
                proof {
                    assert(units(w, bn) * 1 == units(w, bn));
                    assert(1 * pow10(k as nat) == pow10(k as nat));
                    assert(1 * pow2(w.scale()) == pow2(w.scale()));
                }
                matches!(doubled.rank(&scaled), Rank::Below)
            } else {
                low
            };
            let c: Nat = if take_low {
                n
            } else {
                up
            };
            proof {
                lemma_choice(w, bn, k as int, c@);
                lemma_shortest_is(w, bn, c@, k as int);
            }
            return (c, k);
        }
        proof {
            if k == -scale {
                lemma_exact_at_scale(w, bn);
            }
            assert forall|m: nat, j: int| j > k - 1 implies !#[trigger] reads_as(w, m, j, bn) by {
                if j == k && reads_as(w, m, j, bn) {
                    lemma_around(w, bn, k as int, n@, m);
                }
            }
        }
        k = k - 1;
    }
}

/// Appends `n` in decimal.
pub fn push_natural(out: &mut Vec<char>, n: &Nat)
    ensures
        final(out)@ == old(out)@ + decimal(n@),
    decreases n@,
{
    let parts: (Nat, u32) = n.div_small(10);
    if !parts.0.is_zero() {
        push_natural(out, &parts.0);
    }
    out.push(digit(parts.1));
}

/// `n` zeros.
pub open spec fn zeros(n: nat) -> Seq<char> {
    Seq::new(n, |i: int| '0')
}

fn push_zeros(out: &mut Vec<char>, n: usize)
    ensures
        final(out)@ == old(out)@ + zeros(n as nat),
{
    let mut i: usize = 0;
    while i < n
        invariant
            i <= n,
            out@ == old(out)@ + zeros(i as nat),
        decreases n - i,
    {
        out.push('0');
        assert(out@ =~= old(out)@ + zeros((i + 1) as nat));
        i = i + 1;
    }
}

/// The digits `d` scaled by `10^k`, written without an exponent.
pub open spec fn positional(d: Seq<char>, k: int) -> Seq<char> {
    if k >= 0 {
        d + zeros(k as nat)
    } else if d.len() > -k {
        d.take(d.len() + k) + seq!['.'] + d.skip(d.len() + k)
    } else {
        seq!['0', '.'] + zeros((-k - d.len()) as nat) + d
    }
}

fn positional_exec(d: &[char], k: i32) -> (r: Vec<char>)
    requires
        -2000 <= k <= 2000,
    ensures
        r@ == positional(d@, k as int),
{
    let mut out: Vec<char> = Vec::new();
    if k >= 0 {
        let mut all: Vec<char> = vstd::slice::slice_to_vec(d);
        push_zeros(&mut all, k as usize);
        return all;
    }
    let places: usize = (-k) as usize;
    if d.len() > places {
        let cut: usize = d.len() - places;
        let mut head: Vec<char> = vstd::slice::slice_to_vec(
            vstd::slice::slice_subrange(d, 0, cut),
        );
        let mut tail: Vec<char> = vstd::slice::slice_to_vec(
            vstd::slice::slice_subrange(d, cut, d.len()),
        );
        head.push('.');
        head.append(&mut tail);
        assert(head@ =~= positional(d@, k as int));
        return head;
    }
    out.push('0');
    out.push('.');
    push_zeros(&mut out, places - d.len());
    let mut tail: Vec<char> = vstd::slice::slice_to_vec(d);
    out.append(&mut tail);
    assert(out@ =~= positional(d@, k as int));
    out
}

/// Whether the pattern has its sign bit set.
pub open spec fn sign_set(w: Width, bits: nat) -> bool {
    bits >= w.sign()
}

/// The pattern without its sign.
pub open spec fn magnitude(w: Width, bits: nat) -> nat {
    if sign_set(w, bits) {
        (bits - w.sign()) as nat
    } else {
        bits
    }
}

/// `-` before negative values.
pub open spec fn sign_text(w: Width, bits: nat) -> Seq<char> {
    if sign_set(w, bits) {
        seq!['-']
    } else {
        Seq::empty()
    }
}

/// The value of a pattern in the fewest digits that read as it, without an
/// exponent.
pub open spec fn display(w: Width, bits: nat) -> Seq<char> {
    let b = magnitude(w, bits);
    if b > w.infinity() {
        "NaN"@
    } else if b == w.infinity() {
        sign_text(w, bits) + "inf"@
    } else if b == 0 {
        sign_text(w, bits) + seq!['0']
    } else {
        let (n, k) = shortest(w, b);
        sign_text(w, bits) + positional(decimal(n), k)
    }
}

/// The pattern apart from its sign, which is set if the second is true.
pub fn split_sign(w: Width, bits: u64) -> (r: (u64, bool))
    ensures
        r.0 == magnitude(w, bits as nat),
        r.1 == sign_set(w, bits as nat),
{
    let sign: u64 = match w {
        Width::Single => 0x8000_0000,
        Width::Double => 0x8000_0000_0000_0000,
    };
    if bits >= sign {
        (bits - sign, true)
    } else {
        (bits, false)
    }
}

/// Appends `text` to `out`.
fn push_text(out: &mut Vec<char>, text: &str)
    ensures
        final(out)@ == old(out)@ + text@,
{
    let mut all: Vec<char> = chars_of(text);
    out.append(&mut all);
}

/// Writes a value in the fewest digits that read as it.
pub fn display_exec(w: Width, bits: u64) -> (r: Vec<char>)
    ensures
        r@ == display(w, bits as nat),
{
    let (b, negative): (u64, bool) = split_sign(w, bits);
    let mut out: Vec<char> = Vec::new();
    let top: u64 = nearest_far(w);
    if b > top {
        push_text(&mut out, "NaN");
        assert(out@ =~= "NaN"@);
        return out;
    }
    if negative {
        out.push('-');
    }
    assert(out@ =~= sign_text(w, bits as nat));
    if b == top {
        push_text(&mut out, "inf");
        return out;
    }
    if b == 0 {
        out.push('0');
        assert(out@ =~= display(w, bits as nat));
        return out;
    }
    let (n, k): (Nat, i32) = shortest_exec(w, b);
    let mut digits: Vec<char> = Vec::new();
    push_natural(&mut digits, &n);
    assert(digits@ =~= decimal(n@));
    let mut body: Vec<char> = positional_exec(digits.as_slice(), k);
    out.append(&mut body);
    out
}

/// `n / d` as a whole number, halves to the even one.
pub open spec fn round_half_even(n: nat, d: nat) -> nat {
    let q = n / d;
    let r = n % d;
    if 2 * r < d || (2 * r == d && q % 2 == 0) {
        q
    } else {
        q + 1
    }
}

/// The value of the pattern `b`, sign aside, in whole steps of `10^-places`.
pub open spec fn in_places(w: Width, b: nat, places: nat) -> nat {
    round_half_even(units(w, b) * pow10(places), pow2(w.scale()))
}

/// `s` with as many of `fill` before it as make `width` characters.
pub open spec fn pad_left(s: Seq<char>, width: nat, fill: char) -> Seq<char> {
    Seq::new(
        if s.len() < width {
            (width - s.len()) as nat
        } else {
            0
        },
        |i: int| fill,
    ) + s
}

/// The value of a pattern with exactly `places` digits after the point, at least
/// one.
pub open spec fn fixed(w: Width, bits: nat, places: nat) -> Seq<char> {
    let b = magnitude(w, bits);
    if b > w.infinity() {
        "NaN"@
    } else if b == w.infinity() {
        sign_text(w, bits) + "inf"@
    } else {
        let q = in_places(w, b, places);
        sign_text(w, bits) + decimal(q / pow10(places)) + seq!['.'] + pad_left(
            decimal(q % pow10(places)),
            places,
            '0',
        )
    }
}

/// `s` padded on the left to `width` characters.
pub fn padded_left(s: &[char], width: usize, fill: char) -> (r: Vec<char>)
    ensures
        r@ == pad_left(s@, width as nat, fill),
{
    let mut out: Vec<char> = Vec::new();
    let missing: usize = if s.len() < width {
        width - s.len()
    } else {
        0
    };
    let mut i: usize = 0;
    while i < missing
        invariant
            i <= missing,
            out@ =~= Seq::new(i as nat, |j: int| fill),
        decreases missing - i,
    {
        out.push(fill);
        i = i + 1;
    }
    let mut tail: Vec<char> = vstd::slice::slice_to_vec(s);
    out.append(&mut tail);
    assert(out@ =~= pad_left(s@, width as nat, fill));
    out
}

/// The value of `b` in whole steps of `10^-places`.
fn in_places_exec(w: Width, b: u64, places: u32) -> (q: Nat)
    requires
        b < w.infinity(),
    ensures
        q@ == in_places(w, b as nat, places as nat),
{
    let scale: u32 = match w {
        Width::Single => 149,
        Width::Double => 1074,
    };
    let n: Nat = units_exec(w, b).times(&power_of_ten(places as usize));
    let q: Nat = n.shift_down(scale);
    // Twice the remainder against the divisor, as twice `n` against twice the
    // quotient plus one.
    let middle: Nat = q.mul_add_small(2, 1).shift_up(scale);
    let twice: Nat = n.mul_add_small(2, 0);
    let odd: bool = q.div_small(2).1 == 1;
    proof {
        let d = pow2(w.scale());
        lemma_pow2_pos(w.scale());
        vstd::arithmetic::div_mod::lemma_fundamental_div_mod(n@ as int, d as int);
        assert((q@ * 2 + 1) * d == 2 * (d * q@) + d) by (nonlinear_arith);
    }
    let up: bool = match twice.rank(&middle) {
        Rank::Below => false,
        Rank::Same => odd,
        Rank::Above => true,
    };
    if up {
        q.mul_add_small(1, 1)
    } else {
        q
    }
}

/// Writes a value with `places` digits after the point.
pub fn fixed_exec(w: Width, bits: u64, places: u32) -> (r: Vec<char>)
    requires
        0 < places <= 9,
    ensures
        r@ == fixed(w, bits as nat, places as nat),
{
    let (b, negative): (u64, bool) = split_sign(w, bits);
    let mut out: Vec<char> = Vec::new();
    let top: u64 = nearest_far(w);
    if b > top {
        push_text(&mut out, "NaN");
        assert(out@ =~= "NaN"@);
        return out;
    }
    if negative {
        out.push('-');
    }
    assert(out@ =~= sign_text(w, bits as nat));
    if b == top {
        push_text(&mut out, "inf");
        return out;
    }
    let q: Nat = in_places_exec(w, b, places);
    let mut ten: u32 = 1;
    let mut i: u32 = 0;
    while i < places
        invariant
            i <= places <= 9,
            ten == pow10(i as nat),
            ten <= 1_000_000_000,
            i == 0 ==> ten <= 1,
            i == 1 ==> ten <= 10,
            i == 2 ==> ten <= 100,
            i == 3 ==> ten <= 1000,
            i == 4 ==> ten <= 10_000,
            i == 5 ==> ten <= 100_000,
            i == 6 ==> ten <= 1_000_000,
            i == 7 ==> ten <= 10_000_000,
            i == 8 ==> ten <= 100_000_000,
            ten > 0,
        decreases places - i,
    {
        ten = ten * 10;
        i = i + 1;
    }
    let parts: (Nat, u32) = q.div_small(ten);
    push_natural(&mut out, &parts.0);
    out.push('.');
    let mut low: Vec<char> = Vec::new();
    push_natural(&mut low, &Nat::from_u64(parts.1 as u64));
    assert(low@ =~= decimal(parts.1 as nat));
    let mut tail: Vec<char> = padded_left(low.as_slice(), places as usize, '0');
    out.append(&mut tail);
    assert(out@ =~= fixed(w, bits as nat, places as nat));
    out
}

/// The exponent that the first digit of `d * 10^k` has.
pub open spec fn leading_exponent(d: Seq<char>, k: int) -> int {
    k + d.len() - 1
}

/// `d * 10^k` with one digit before the point and an exponent.
pub open spec fn scientific(d: Seq<char>, k: int) -> Seq<char> {
    let e = leading_exponent(d, k);
    let mantissa = if d.len() > 1 {
        d.take(1) + seq!['.'] + d.skip(1)
    } else {
        d
    };
    mantissa + seq!['e'] + (if e < 0 {
        seq!['-'] + decimal((-e) as nat)
    } else {
        decimal(e as nat)
    })
}

/// A single-precision value as a programmer reads it: the fewest digits that
/// read as it, always with a point, or with an exponent where the value is
/// below a ten-thousandth or at least ten to the power of sixteen.
pub open spec fn debug_single(bits: nat) -> Seq<char> {
    let w = Width::Single;
    let b = magnitude(w, bits);
    if b > w.infinity() {
        "NaN"@
    } else if b == w.infinity() {
        sign_text(w, bits) + "inf"@
    } else if b == 0 {
        sign_text(w, bits) + "0.0"@
    } else {
        let (n, k) = shortest(w, b);
        let d = decimal(n);
        sign_text(w, bits) + (if b >= 0x5a0e_1bca || b < 0x38d1_b717 {
            scientific(d, k)
        } else if k >= 0 {
            positional(d, k) + ".0"@
        } else {
            positional(d, k)
        })
    }
}

proof fn lemma_decimal_len(n: nat)
    ensures
        decimal(n).len() > 0,
{
}

/// Writes a single-precision value as a programmer reads it.
pub fn debug_single_exec(bits: u32) -> (r: Vec<char>)
    ensures
        r@ == debug_single(bits as nat),
{
    let w: Width = Width::Single;
    let (b, negative): (u64, bool) = split_sign(w, bits as u64);
    let mut out: Vec<char> = Vec::new();
    if b > 0x7f80_0000 {
        push_text(&mut out, "NaN");
        assert(out@ =~= "NaN"@);
        return out;
    }
    if negative {
        out.push('-');
    }
    assert(out@ =~= sign_text(w, bits as nat));
    if b == 0x7f80_0000 {
        push_text(&mut out, "inf");
        return out;
    }
    if b == 0 {
        push_text(&mut out, "0.0");
        return out;
    }
    let (n, k): (Nat, i32) = shortest_exec(w, b);
    let mut digits: Vec<char> = Vec::new();
    push_natural(&mut digits, &n);
    assert(digits@ =~= decimal(n@));
    if b >= 0x5a0e_1bca || b < 0x38d1_b717 {
        proof {
            lemma_decimal_len(n@);
        }
        let e: i128 = k as i128 + digits.len() as i128 - 1;
        let mut body: Vec<char> = vstd::slice::slice_to_vec(
            vstd::slice::slice_subrange(digits.as_slice(), 0, 1),
        );
        if digits.len() > 1 {
            body.push('.');
            let mut rest: Vec<char> = vstd::slice::slice_to_vec(
                vstd::slice::slice_subrange(digits.as_slice(), 1, digits.len()),
            );
            body.append(&mut rest);
        }
        body.push('e');
        if e < 0 {
            body.push('-');
            push_natural(&mut body, &Nat::from_u64((-e) as u64));
        } else if k >= 0 {
            let size: Nat = Nat::from_u64((digits.len() - 1) as u64).mul_add_small(1, k as u32);
            push_natural(&mut body, &size);
        } else {
            push_natural(&mut body, &Nat::from_u64(e as u64));
        }
        assert(body@ =~= scientific(digits@, k as int));
        out.append(&mut body);
        return out;
    }
    let mut body: Vec<char> = positional_exec(digits.as_slice(), k);
    if k >= 0 {
        push_text(&mut body, ".0");
    }
    out.append(&mut body);
    out
}

// --- Reading back what was written -----------------------------------------

proof fn lemma_shortest_exists_from(w: Width, b: nat, k: int)
    requires
        0 < b < w.infinity(),
        -(w.scale() as int) <= k,
        forall|m: nat, j: int| j > k ==> !#[trigger] reads_as(w, m, j, b),
    ensures
        exists|n: nat, j: int| is_shortest(w, b, n, j),
    decreases k + w.scale(),
{
    let v = target(w, b, k);
    let a = step(w, k);
    let n = v / a;
    let low = reads_as(w, n, k, b);
    let high = reads_as(w, n + 1, k, b);
    lemma_step(w, 1, k);
    if low || high {
        let c = if low && (!high || 2 * v < (2 * n + 1) * a) {
            n
        } else {
            n + 1
        };
        lemma_choice(w, b, k, c);
    } else {
        if k == -(w.scale() as int) {
            lemma_exact_at_scale(w, b);
        }
        assert forall|m: nat, j: int| j > k - 1 implies !#[trigger] reads_as(w, m, j, b) by {
            if j == k && reads_as(w, m, j, b) {
                lemma_around(w, b, k, n, m);
            }
        }
        lemma_shortest_exists_from(w, b, k - 1);
    }
}

/// Every positive finite value has a decimal to write for it.
pub proof fn lemma_shortest_exists(w: Width, b: nat)
    requires
        0 < b < w.infinity(),
    ensures
        exists|n: nat, k: int| is_shortest(w, b, n, k),
{
    lemma_search_bounds(w, b);
    lemma_step(w, 1, 400);
    lemma_zero_floor(target(w, b, 400), step(w, 400));
    assert forall|m: nat, j: int| j > 400 implies !#[trigger] reads_as(w, m, j, b) by {
        lemma_too_large(w, b, 400, m, j);
    }
    lemma_shortest_exists_from(w, b, 400);
}

/// Decimal text is made of digits and writes its number.
pub proof fn lemma_decimal_digits(n: nat)
    ensures
        all_digits(decimal(n)),
        decimal(n).len() > 0,
        digits_value(decimal(n)) == n,
    decreases n,
{
    let d = decimal(n);
    if n < 10 {
        assert(d.drop_last() =~= Seq::<char>::empty());
        assert(digits_value(d.drop_last()) == 0);
    } else {
        lemma_decimal_digits(n / 10);
        assert(d.drop_last() =~= decimal(n / 10));
        assert forall|i: int| 0 <= i < d.len() implies is_digit(#[trigger] d[i]) by {
            if i < d.len() - 1 {
                assert(d[i] == decimal(n / 10)[i]);
            }
        }
    }
}

pub proof fn lemma_trailing_zeros(d: Seq<char>, k: nat)
    requires
        all_digits(d),
    ensures
        all_digits(d + zeros(k)),
        digits_value(d + zeros(k)) == digits_value(d) * pow10(k),
    decreases k,
{
    let all = d + zeros(k);
    if k == 0 {
        assert(all =~= d);
        assert(digits_value(d) * pow10(k) == digits_value(d)) by (nonlinear_arith)
            requires
                pow10(k) == 1,
        ;
    } else {
        lemma_trailing_zeros(d, (k - 1) as nat);
        assert(all.drop_last() =~= d + zeros((k - 1) as nat));
        assert(all.last() == '0');
        assert(digits_value(d) * pow10((k - 1) as nat) * 10 == digits_value(d) * (10 * pow10(
            (k - 1) as nat,
        ))) by (nonlinear_arith);
        assert forall|i: int| 0 <= i < all.len() implies is_digit(#[trigger] all[i]) by {
            if i < d.len() {
                assert(all[i] == d[i]);
            }
        }
    }
}

pub proof fn lemma_leading_zeros(z: nat, d: Seq<char>)
    requires
        all_digits(d),
    ensures
        all_digits(zeros(z) + d),
        digits_value(zeros(z) + d) == digits_value(d),
    decreases d.len(),
{
    let all = zeros(z) + d;
    assert forall|i: int| 0 <= i < all.len() implies is_digit(#[trigger] all[i]) by {
        if i >= z {
            assert(all[i] == d[i - z]);
        }
    }
    if d.len() == 0 {
        assert(all =~= Seq::<char>::empty() + zeros(z));
        lemma_trailing_zeros(Seq::empty(), z);
        assert(0 * pow10(z) == 0);
    } else {
        assert(all_digits(d.drop_last())) by {
            assert forall|i: int| 0 <= i < d.drop_last().len() implies is_digit(
                #[trigger] d.drop_last()[i],
            ) by {
                assert(d.drop_last()[i] == d[i]);
            }
        }
        lemma_leading_zeros(z, d.drop_last());
        assert(all.drop_last() =~= zeros(z) + d.drop_last());
        assert(all.last() == d.last());
    }
}

/// A literal of digits with at most one point and no exponent.
pub open spec fn plain_literal(whole: Seq<char>, point: bool, fraction: Seq<char>) -> Seq<char> {
    if point {
        whole + seq!['.'] + fraction
    } else {
        whole
    }
}

/// What a literal without exponent reads as.
pub proof fn lemma_plain_literal(whole: Seq<char>, point: bool, fraction: Seq<char>)
    requires
        all_digits(whole),
        whole.len() > 0,
        all_digits(fraction),
        !point ==> fraction.len() == 0,
    ensures
        literal_value(plain_literal(whole, point, fraction)) == Some(
            (digits_value(whole + fraction), -(fraction.len() as int)),
        ),
{
    let t = plain_literal(whole, point, fraction);
    assert forall|i: int| 0 <= i < t.len() implies #[trigger] t[i] != 'e' && t[i] != 'E' by {
        if i < whole.len() {
            assert(t[i] == whole[i]);
            assert(is_digit(whole[i]));
        } else if i > whole.len() {
            assert(t[i] == fraction[i - whole.len() - 1]);
            assert(is_digit(fraction[i - whole.len() - 1]));
        }
    }
    lemma_exponent_mark(t);
    let mark = exponent_mark(t);
    if mark < t.len() {
        assert(t[mark] != 'e');
    }
    assert(t.take(mark) =~= t);
    lemma_first_at(t, '.');
    assert forall|i: int| 0 <= i < whole.len() implies #[trigger] t[i] != '.' by {
        assert(t[i] == whole[i]);
        assert(is_digit(whole[i]));
    }
    if point {
        assert(t[whole.len() as int] == '.');
        let i = first_at(t, '.')->0;
        assert(i == whole.len());
        assert(t.take(i) =~= whole);
        assert(t.skip(i + 1) =~= fraction);
    } else {
        if first_at(t, '.') is Some {
            let i = first_at(t, '.')->0;
            assert(t[i] == '.');
        }
        assert(whole + fraction =~= whole);
        assert(fraction =~= Seq::<char>::empty());
    }
}

/// The parts of a value written without exponent, as a plain literal.
pub proof fn lemma_positional_literal(n: nat, k: int) -> (r: (Seq<char>, bool, Seq<char>))
    ensures
        positional(decimal(n), k) == plain_literal(r.0, r.1, r.2),
        all_digits(r.0),
        r.0.len() > 0,
        all_digits(r.2),
        !r.1 ==> r.2.len() == 0,
        literal_value(positional(decimal(n), k)) matches Some((m, j)) && ten_num(m, j) == ten_num(
            n,
            k,
        ) && ten_den(j) == ten_den(k),
{
    let d = decimal(n);
    lemma_decimal_digits(n);
    if k >= 0 {
        let whole = d + zeros(k as nat);
        lemma_trailing_zeros(d, k as nat);
        lemma_plain_literal(whole, false, Seq::empty());
        assert(whole + Seq::<char>::empty() =~= whole);
        assert(pow10(0) == 1);
        assert(digits_value(whole) * pow10(0) == digits_value(whole)) by (nonlinear_arith)
            requires
                pow10(0) == 1,
        ;
        (whole, false, Seq::empty())
    } else if d.len() > -k {
        let whole = d.take(d.len() + k);
        let fraction = d.skip(d.len() + k);
        assert forall|i: int| 0 <= i < whole.len() implies is_digit(#[trigger] whole[i]) by {
            assert(whole[i] == d[i]);
        }
        assert forall|i: int| 0 <= i < fraction.len() implies is_digit(#[trigger] fraction[i]) by {
            assert(fraction[i] == d[i + d.len() + k]);
        }
        lemma_plain_literal(whole, true, fraction);
        assert(whole + fraction =~= d);
        (whole, true, fraction)
    } else {
        let z = (-k - d.len()) as nat;
        let fraction = zeros(z) + d;
        let whole = seq!['0'];
        lemma_leading_zeros(z, d);
        lemma_leading_zeros(1, fraction);
        assert(whole =~= zeros(1));
        lemma_plain_literal(whole, true, fraction);
        assert(whole + fraction =~= zeros(1) + fraction);
        assert(positional(d, k) =~= plain_literal(whole, true, fraction));
        (whole, true, fraction)
    }
}

/// A literal that starts with a digit is no name of a special value.
proof fn lemma_not_a_name(body: Seq<char>)
    requires
        body.len() > 0,
        is_digit(body[0]),
    ensures
        lower_ascii(body) != "inf"@,
        lower_ascii(body) != "infinity"@,
        lower_ascii(body) != "nan"@,
        !has_sign(body),
{
    reveal_strlit("inf");
    reveal_strlit("infinity");
    reveal_strlit("nan");
    assert(lower_ascii(body)[0] == body[0]);
}

/// A sign before a body without one is read as the sign of the value.
pub proof fn lemma_read_signed(w: Width, negative: bool, body: Seq<char>)
    requires
        body.len() > 0,
        is_digit(body[0]),
    ensures
        ({
            let s = if negative {
                seq!['-'] + body
            } else {
                body
            };
            let sign: nat = if negative {
                w.sign()
            } else {
                0
            };
            read_value(w, s) == (match literal_value(body) {
                Some((n, k)) => Some(sign + nearest_decimal(w, n, k)),
                None => None,
            })
        }),
{
    lemma_not_a_name(body);
    if negative {
        assert((seq!['-'] + body).skip(1) =~= body);
    }
}

/// An exact ratio rounds to the value itself.
pub proof fn lemma_exact_rounds(w: Width, n: nat, d: nat, b: nat)
    requires
        d > 0,
        b < w.infinity(),
        n * pow2(w.scale()) == units(w, b) * d,
    ensures
        nearest(w, n, d) == b,
{
    let s = pow2(w.scale());
    assert(2 * n * s == 2 * (n * s)) by (nonlinear_arith);
    if b > 0 {
        lemma_middles(w, b, d);
    } else {
        assert(units(w, 0) == 0 && units(w, 1) == 1);
        assert(0 * d == 0);
        assert((units(w, 0) + units(w, 1)) * d == d) by (nonlinear_arith)
            requires
                units(w, 0) + units(w, 1) == 1,
        ;
    }
    assert(rounds_to(w, n, d, b));
    lemma_nearest_is(w, n, d, b);
}

/// Writing a value and reading the text gives the value back: every pattern of
/// the format but those that are no number.
pub proof fn law_display_reads_back(w: Width, bits: nat)
    requires
        bits < 2 * w.sign(),
        magnitude(w, bits) <= w.infinity(),
    ensures
        read_value(w, display(w, bits)) == Some(bits),
{
    let b = magnitude(w, bits);
    let negative = sign_set(w, bits);
    let t = display(w, bits);
    if b == w.infinity() {
        reveal_strlit("inf");
        assert(without_sign(t) =~= "inf"@);
        assert(lower_ascii("inf"@) =~= "inf"@);
    } else if b == 0 {
        let body = seq!['0'];
        lemma_read_signed(w, negative, body);
        assert(t =~= if negative {
            seq!['-'] + body
        } else {
            body
        });
        lemma_plain_literal(body, false, Seq::empty());
        assert(body + Seq::<char>::empty() =~= decimal(0));
        lemma_decimal_digits(0);
        lemma_zero(w, 0);
    } else {
        lemma_shortest_exists(w, b);
        lemma_shortest_reads_back(w, b);
        let (n, k) = shortest(w, b);
        let body = positional(decimal(n), k);
        let r = lemma_positional_literal(n, k);
        assert(body[0] == r.0[0]);
        assert(is_digit(r.0[0]));
        lemma_read_signed(w, negative, body);
        assert(t =~= if negative {
            seq!['-'] + body
        } else {
            body
        });
    }
}

} // verus!
