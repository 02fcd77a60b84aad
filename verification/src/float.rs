//! Double-precision arithmetic on bit patterns.
//!
//! A finite double is a whole number of `2^-1074`, so its value is modelled by an integer in
//! that unit, and a sum or a quotient is the double nearest to the exact result, the one with
//! an even last bit where two are equally near. Every result that is not a number is the one
//! canonical `NaN`.

use vstd::arithmetic::div_mod::{
    lemma_fundamental_div_mod, lemma_fundamental_div_mod_converse,
};
use vstd::arithmetic::power2::{
    lemma_pow2_adds, lemma_pow2_pos, lemma_pow2_strictly_increases, lemma_pow2_unfold, pow2,
};
use vstd::prelude::*;

verus! {

/// The sign bit.
pub const SIGN: u64 = 0x8000_0000_0000_0000;

/// Positive infinity.
pub const INFINITY: u64 = 0x7FF0_0000_0000_0000;

/// The canonical `NaN`.
pub const NAN: u64 = 0x7FF8_0000_0000_0000;

/// The weight of the lowest exponent bit.
pub const STEP: u64 = 0x10_0000_0000_0000;

/// The bits without the sign.
pub open spec fn magnitude(bits: u64) -> int {
    bits as int % SIGN as int
}

/// Whether the sign bit is set.
pub open spec fn negative(bits: u64) -> bool {
    bits >= SIGN
}

/// Whether the bits stand for no number.
pub open spec fn is_nan(bits: u64) -> bool {
    magnitude(bits) > INFINITY
}

/// Whether the bits stand for an infinity.
pub open spec fn is_infinite(bits: u64) -> bool {
    magnitude(bits) == INFINITY
}

/// The significand of a magnitude.
pub open spec fn significand(mag: int) -> int {
    if mag < STEP {
        mag
    } else {
        STEP + mag % STEP as int
    }
}

/// The binary exponent that goes with the significand.
pub open spec fn exponent(mag: int) -> int {
    if mag < STEP {
        0
    } else {
        mag / STEP as int - 1
    }
}

/// The value of a magnitude, in units of `2^-1074`. Infinity counts as the power of two that
/// follows the largest finite value.
pub open spec fn size(mag: int) -> int {
    significand(mag) * pow2(exponent(mag) as nat)
}

/// The value of bits, in units of `2^-1074`.
pub open spec fn value(bits: u64) -> int {
    if negative(bits) {
        -size(magnitude(bits))
    } else {
        size(magnitude(bits))
    }
}

/// The whole number nearest to `n / d`, the even one where two are equally near.
pub open spec fn half_even(n: int, d: int) -> int {
    let q = n / d;
    let r = n % d;
    if 2 * r > d || (2 * r == d && q % 2 == 1) {
        q + 1
    } else {
        q
    }
}

/// Whether `2^grain` is the spacing of the doubles at `n / d`: the finest one that leaves no
/// more than 53 bits.
pub open spec fn is_grain(n: int, d: int, grain: nat) -> bool {
    &&& n < d * pow2(53 + grain)
    &&& grain > 0 ==> n >= d * pow2((52 + grain) as nat)
}

/// The spacing of the doubles at `n / d`.
pub open spec fn grain(n: int, d: int) -> nat {
    choose|g: nat| is_grain(n, d, g)
}

/// The magnitude of the double nearest to `n / d`, in units of `2^-1074`.
pub open spec fn rounded(n: int, d: int) -> int {
    let g = grain(n, d);
    let mag = g * STEP + half_even(n, d * pow2(g) as int);
    if mag < INFINITY {
        mag
    } else {
        INFINITY as int
    }
}

/// The bits of a sign and a magnitude.
pub open spec fn with_sign(neg: bool, mag: int) -> u64 {
    if neg {
        (mag + SIGN) as u64
    } else {
        mag as u64
    }
}

/// The double nearest to `n / d`, in units of `2^-1074`.
pub open spec fn nearest(n: int, d: int) -> u64 {
    if n < 0 {
        with_sign(true, rounded(-n, d))
    } else {
        with_sign(false, rounded(n, d))
    }
}

/// The double nearest to an integer.
pub open spec fn of_integer(i: int) -> u64 {
    nearest(i * pow2(1074), 1)
}

/// The sum of two doubles.
pub open spec fn sum(a: u64, b: u64) -> u64 {
    if is_nan(a) || is_nan(b) {
        NAN
    } else if is_infinite(a) && is_infinite(b) && a != b {
        NAN
    } else if is_infinite(a) {
        a
    } else if is_infinite(b) {
        b
    } else if value(a) + value(b) == 0 {
        with_sign(negative(a) && negative(b), 0)
    } else {
        nearest(value(a) + value(b), 1)
    }
}

/// A double divided by a count.
pub open spec fn quotient(a: u64, n: int) -> u64 {
    if is_nan(a) {
        NAN
    } else if is_infinite(a) {
        a
    } else {
        with_sign(negative(a), rounded(size(magnitude(a)), n))
    }
}

/// Whether one double is less than another. Nothing is less or greater than a `NaN`.
pub open spec fn less(a: u64, b: u64) -> bool {
    !is_nan(a) && !is_nan(b) && value(a) < value(b)
}

proof fn lemma_pow2_split(a: nat, b: nat)
    ensures
        pow2(a + b) == pow2(a) * pow2(b),
        pow2(a) > 0,
        pow2(b) > 0,
{
    lemma_pow2_adds(a, b);
    lemma_pow2_pos(a);
    lemma_pow2_pos(b);
}

proof fn lemma_pow2_at_most(a: nat, b: nat)
    requires
        a <= b,
    ensures
        pow2(a) <= pow2(b),
{
    if a < b {
        lemma_pow2_strictly_increases(a, b);
    }
}

/// Some powers of two.
proof fn lemma_powers()
    ensures
        pow2(0) == 1,
        pow2(1) == 2,
        pow2(10) == 1024,
        pow2(52) == STEP,
        pow2(53) == 2 * STEP,
        pow2(63) == SIGN,
        pow2(64) == 0x1_0000_0000_0000_0000,
{
    vstd::arithmetic::power2::lemma2_to64();
    vstd::arithmetic::power2::lemma2_to64_rest();
}

/// There is one grain.
proof fn lemma_grain_is(n: int, d: int, g: nat)
    requires
        d > 0,
        is_grain(n, d, g),
    ensures
        grain(n, d) == g,
{
    let h = grain(n, d);
    assert(is_grain(n, d, h));
    if h < g {
        lemma_pow2_at_most(53 + h, (52 + g) as nat);
        assert(d * pow2(53 + h) <= d * pow2((52 + g) as nat)) by (nonlinear_arith)
            requires
                pow2(53 + h) <= pow2((52 + g) as nat),
                d > 0,
        ;
    } else if g < h {
        lemma_pow2_at_most(53 + g, (52 + h) as nat);
        assert(d * pow2(53 + g) <= d * pow2((52 + h) as nat)) by (nonlinear_arith)
            requires
                pow2(53 + g) <= pow2((52 + h) as nat),
                d > 0,
        ;
    }
}

/// A fraction may be cancelled before rounding.
proof fn lemma_half_even_scale(n: int, d: int, c: int)
    requires
        n >= 0,
        d > 0,
        c > 0,
    ensures
        half_even(n * c, d * c) == half_even(n, d),
{
    let q = n / d;
    let r = n % d;
    lemma_fundamental_div_mod(n, d);
    assert(n * c == q * (d * c) + r * c) by (nonlinear_arith)
        requires
            n == d * q + r,
    ;
    assert(0 <= r * c < d * c) by (nonlinear_arith)
        requires
            0 <= r < d,
            c > 0,
    ;
    lemma_fundamental_div_mod_converse(n * c, d * c, q, r * c);
    assert((2 * (r * c) > d * c) == (2 * r > d)) by (nonlinear_arith)
        requires
            c > 0,
    ;
    assert((2 * (r * c) == d * c) == (2 * r == d)) by (nonlinear_arith)
        requires
            c > 0,
    ;
}

/// Rounding from a scaled fraction: `num * c` over `den * c` is `n` over `d * 2^k`.
proof fn lemma_rounded_is(n: int, d: int, num: int, den: int, c: int, k: nat)
    requires
        d > 0,
        den > 0,
        num >= 0,
        c > 0,
        n == num * c,
        d * pow2(k) == den * c,
        num < den * (2 * STEP),
        k > 0 ==> num >= den * STEP,
    ensures
        grain(n, d) == k,
        rounded(n, d) == (if k * STEP + half_even(num, den) < INFINITY {
            k * STEP + half_even(num, den)
        } else {
            INFINITY as int
        }),
{
    lemma_powers();
    lemma_pow2_split(53, k);
    assert(d * pow2(53 + k) == (den * c) * (2 * STEP)) by (nonlinear_arith)
        requires
            pow2(53 + k) == (2 * STEP) * pow2(k),
            d * pow2(k) == den * c,
    ;
    assert(num * c < (den * (2 * STEP)) * c) by (nonlinear_arith)
        requires
            num < den * (2 * STEP),
            c > 0,
    ;
    assert((den * (2 * STEP)) * c == (den * c) * (2 * STEP)) by (nonlinear_arith);
    if k > 0 {
        lemma_pow2_split(52, k);
        assert(d * pow2(52 + k) == (den * c) * STEP) by (nonlinear_arith)
            requires
                pow2(52 + k) == STEP * pow2(k),
                d * pow2(k) == den * c,
        ;
        assert(num * c >= (den * STEP) * c) by (nonlinear_arith)
            requires
                num >= den * STEP,
                c > 0,
        ;
        assert((den * STEP) * c == (den * c) * STEP) by (nonlinear_arith);
    }
    assert(is_grain(n, d, k));
    lemma_grain_is(n, d, k);
    lemma_half_even_scale(num, den, c);
}

/// The magnitude of the double nearest to `num * 2^k / den`, in units of `2^-1074`.
fn round_ratio(num: u128, den: u128, k: u64) -> (mag: u64)
    requires
        0 < den <= 2 * STEP,
        0 <= num < 0x8000_0000_0000_0000_0000_0000_0000_0000,
        k <= 0x1000,
    ensures
        mag == rounded(num * pow2(k as nat), den as int),
        mag <= INFINITY,
{
    let ghost n = num * pow2(k as nat);
    let ghost d = den as int;
    let mut num: u128 = num;
    let mut den: u128 = den;
    let mut k: u64 = k;
    let ghost e = k as nat;
    proof {
        lemma_powers();
        lemma_pow2_pos(k as nat);
    }
    while num >= den * 0x20_0000_0000_0000
        invariant
            0 < den,
            den <= 2 * STEP || den * STEP <= num,
            num < 0x8000_0000_0000_0000_0000_0000_0000_0000,
            k <= 0x1000 + 128,
            d > 0,
            e >= 0,
            k >= e,
            pow2(e) > 0,
            n == num * pow2(e),
            d * pow2(k as nat) == den * pow2(e),
            k > e ==> den * STEP <= num,
            den >= pow2((k - e) as nat),
            e <= 0x1000,
        decreases num - den,
    {
        proof {
            lemma_pow2_unfold((k + 1) as nat);
            lemma_pow2_unfold((k - e + 1) as nat);
            assert(d * pow2((k + 1) as nat) == (den * 2) * pow2(e)) by (nonlinear_arith)
                requires
                    d * pow2(k as nat) == den * pow2(e),
                    pow2((k + 1) as nat) == 2 * pow2(k as nat),
            ;
            if k - e >= 75 {
                lemma_pow2_at_most(75, (k - e) as nat);
                lemma_powers();
                lemma_pow2_split(1, 10);
                lemma_pow2_split(11, 64);
                assert(pow2(75) == 2048 * 0x1_0000_0000_0000_0000);
            }
        }
        den = den * 2;
        k = k + 1;
    }
    let ghost mut e = e;
    while k > 0 && num * 2 < den * 0x20_0000_0000_0000
        invariant
            0 < den,
            den <= 2 * STEP || den * STEP <= num,
            num < den * (2 * STEP),
            num < 0x8000_0000_0000_0000_0000_0000_0000_0000,
            k <= 0x1000 + 128,
            d > 0,
            pow2(e) > 0,
            n == num * pow2(e),
            d * pow2(k as nat) == den * pow2(e),
            k == e || num >= den * STEP,
        decreases k,
    {
        proof {
            assert(k == e);
            lemma_pow2_unfold(e);
            assert(num * pow2(e) == (num * 2) * pow2((e - 1) as nat)) by (nonlinear_arith)
                requires
                    pow2(e) == 2 * pow2((e - 1) as nat),
            ;
            assert(d * pow2((k - 1) as nat) == den * pow2((e - 1) as nat)) by (nonlinear_arith)
                requires
                    d * pow2(k as nat) == den * pow2(e),
                    pow2(k as nat) == 2 * pow2((k - 1) as nat),
                    pow2(e) == 2 * pow2((e - 1) as nat),
            ;
            lemma_pow2_pos((e - 1) as nat);
            e = (e - 1) as nat;
        }
        num = num * 2;
        k = k - 1;
    }
    proof {
        lemma_rounded_is(n, d, num as int, den as int, pow2(e) as int, k as nat);
    }
    let q: u128 = num / den;
    let r: u128 = num % den;
    assert(q <= 2 * STEP) by (nonlinear_arith)
        requires
            q == num / den,
            num < den * (2 * STEP),
            den > 0,
    ;
    let up: bool = r * 2 > den || (r * 2 == den && q % 2 == 1);
    let whole: u128 = if up {
        q + 1
    } else {
        q
    };
    assert(whole == half_even(num as int, den as int));
    let mag: u128 = k as u128 * 0x10_0000_0000_0000 + whole;
    if mag < INFINITY as u128 {
        mag as u64
    } else {
        INFINITY
    }
}

/// A magnitude in terms of its significand and its exponent.
proof fn lemma_magnitude_parts(mag: int)
    requires
        0 <= mag < SIGN,
    ensures
        0 <= significand(mag) < 2 * STEP,
        0 <= exponent(mag) <= 2046,
        exponent(mag) > 0 ==> significand(mag) >= STEP,
        mag == exponent(mag) * STEP + significand(mag),
        mag < INFINITY ==> exponent(mag) <= 2045,
{
}

/// A greater magnitude has a greater value.
pub proof fn lemma_size_grows(a: int, b: int)
    requires
        0 <= a < b < SIGN,
    ensures
        size(a) < size(b),
{
    lemma_magnitude_parts(a);
    lemma_magnitude_parts(b);
    let (ea, eb) = (exponent(a) as nat, exponent(b) as nat);
    let (sa, sb) = (significand(a), significand(b));
    lemma_pow2_pos(ea);
    lemma_pow2_pos(eb);
    if ea == eb {
        assert(sa * pow2(ea) < sb * pow2(ea)) by (nonlinear_arith)
            requires
                sa < sb,
                pow2(ea) > 0,
        ;
    } else {
        lemma_pow2_unfold(ea + 1);
        lemma_pow2_at_most(ea + 1, eb);
        assert(sa * pow2(ea) < STEP * pow2(ea + 1)) by (nonlinear_arith)
            requires
                sa < 2 * STEP,
                pow2(ea) > 0,
                pow2(ea + 1) == 2 * pow2(ea),
        ;
        assert(STEP * pow2(ea + 1) <= sb * pow2(eb)) by (nonlinear_arith)
            requires
                STEP <= sb,
                0 < pow2(ea + 1) <= pow2(eb),
        ;
    }
}

/// A finite sum in which one summand is far smaller than the other is the greater one.
proof fn lemma_far_apart(m: int, k: nat, tiny: int, plus: bool)
    requires
        STEP <= m < 2 * STEP,
        65 <= k,
        0 < tiny < pow2((k - 11) as nat),
        k * STEP + m < INFINITY,
    ensures
        ({
            let n = if plus {
                m * pow2(k) + tiny
            } else {
                m * pow2(k) - tiny
            };
            n > 0 && rounded(n, 1) == k * STEP + m
        }),
{
    let unit = pow2(k) as int;
    let j = (k - 1) as nat;
    let half = pow2(j) as int;
    lemma_powers();
    lemma_pow2_unfold(k);
    lemma_pow2_split((k - 11) as nat, 10);
    assert(half == 1024 * pow2((k - 11) as nat));
    assert(m * unit >= STEP * unit) by (nonlinear_arith)
        requires
            m >= STEP,
            unit > 0,
    ;
    assert(m * unit + unit <= (2 * STEP) * unit) by (nonlinear_arith)
        requires
            m + 1 <= 2 * STEP,
            unit > 0,
    ;
    lemma_pow2_split(53, k);
    lemma_pow2_split(52, k);
    if plus {
        let n = m * unit + tiny;
        assert(is_grain(n, 1, k));
        lemma_grain_is(n, 1, k);
        lemma_fundamental_div_mod_converse(n, unit, m, tiny);
    } else if m > STEP {
        let n = m * unit - tiny;
        assert(m * unit >= STEP * unit + unit) by (nonlinear_arith)
            requires
                m >= STEP + 1,
                unit > 0,
        ;
        assert(is_grain(n, 1, k));
        lemma_grain_is(n, 1, k);
        assert(n == (m - 1) * unit + (unit - tiny)) by (nonlinear_arith)
            requires
                n == m * unit - tiny,
        ;
        lemma_fundamental_div_mod_converse(n, unit, m - 1, unit - tiny);
    } else {
        let n = m * unit - tiny;
        lemma_pow2_split(53, j);
        lemma_pow2_split(52, j);
        assert(m * unit == (2 * STEP) * half) by (nonlinear_arith)
            requires
                m == STEP,
                unit == 2 * half,
        ;
        assert(STEP * half + half <= (2 * STEP) * half) by (nonlinear_arith)
            requires
                half > 0,
        ;
        assert(is_grain(n, 1, j));
        lemma_grain_is(n, 1, j);
        assert(n == (2 * STEP - 1) * half + (half - tiny)) by (nonlinear_arith)
            requires
                n == (2 * STEP) * half - tiny,
        ;
        lemma_fundamental_div_mod_converse(n, half, 2 * STEP - 1, half - tiny);
    }
}

/// The significand and the exponent of a magnitude.
fn parts(mag: u64) -> (r: (u64, u64))
    requires
        mag < INFINITY,
    ensures
        r.0 == significand(mag as int),
        r.1 == exponent(mag as int),
        r.0 < 2 * STEP,
        r.1 <= 2045,
        r.1 > 0 ==> r.0 >= STEP,
        mag == r.1 * STEP + r.0,
{
    proof {
        lemma_magnitude_parts(mag as int);
    }
    if mag < STEP {
        (mag, 0)
    } else {
        (STEP + mag % STEP, mag / STEP - 1)
    }
}

fn join_sign(neg: bool, mag: u64) -> (bits: u64)
    requires
        mag < SIGN,
    ensures
        bits == with_sign(neg, mag as int),
        negative(bits) == neg,
        magnitude(bits) == mag,
{
    if neg {
        mag + SIGN
    } else {
        mag
    }
}

/// The magnitude of the sum of two values with one sign, or of the difference of two values,
/// the first of them the greater.
fn combine_sizes(high: u64, low: u64, plus: bool) -> (mag: u64)
    requires
        low <= high < INFINITY,
        !plus ==> low < high,
    ensures
        plus ==> mag == rounded(size(high as int) + size(low as int), 1),
        !plus ==> mag == rounded(size(high as int) - size(low as int), 1),
        mag <= INFINITY,
{
    let (m, k) = parts(high);
    let (t, j) = parts(low);
    proof {
        lemma_powers();
        lemma_magnitude_parts(high as int);
        lemma_magnitude_parts(low as int);
        assert(k >= j);
    }
    let gap: u64 = k - j;
    if gap <= 64 {
        let mut shifted: u128 = m as u128;
        let mut i: u64 = 0;
        while i < gap
            invariant
                i <= gap <= 64,
                m < 2 * STEP,
                shifted == m * pow2(i as nat),
            decreases gap - i,
        {
            proof {
                lemma_powers();
                lemma_pow2_unfold((i + 1) as nat);
                lemma_pow2_at_most(i as nat, 64);
                assert(m * pow2(i as nat) <= (2 * STEP) * 0x1_0000_0000_0000_0000)
                    by (nonlinear_arith)
                    requires
                        0 <= m <= 2 * STEP,
                        0 <= pow2(i as nat) <= 0x1_0000_0000_0000_0000,
                ;
                assert(m * pow2((i + 1) as nat) == (m * pow2(i as nat)) * 2) by (nonlinear_arith)
                    requires
                        pow2((i + 1) as nat) == 2 * pow2(i as nat),
                ;
            }
            shifted = shifted * 2;
            i = i + 1;
        }
        proof {
            lemma_pow2_at_most(gap as nat, 64);
            assert(m * pow2(gap as nat) <= (2 * STEP) * 0x1_0000_0000_0000_0000)
                by (nonlinear_arith)
                requires
                    0 <= m <= 2 * STEP,
                    0 <= pow2(gap as nat) <= 0x1_0000_0000_0000_0000,
            ;
            lemma_pow2_split(gap as nat, j as nat);
            assert((m * pow2(gap as nat)) * pow2(j as nat) == m * pow2(k as nat))
                by (nonlinear_arith)
                requires
                    pow2(k as nat) == pow2(gap as nat) * pow2(j as nat),
            ;
            assert((shifted + t) * pow2(j as nat) == shifted * pow2(j as nat) + t * pow2(j as nat))
                by (nonlinear_arith);
            assert((shifted - t) * pow2(j as nat) == shifted * pow2(j as nat) - t * pow2(j as nat))
                by (nonlinear_arith);
        }
        if plus {
            round_ratio(shifted + t as u128, 1, j)
        } else {
            proof {
                lemma_size_grows(low as int, high as int);
                assert(shifted > t) by (nonlinear_arith)
                    requires
                        shifted * pow2(j as nat) > t * pow2(j as nat),
                        pow2(j as nat) > 0,
                ;
            }
            round_ratio(shifted - t as u128, 1, j)
        }
    } else {
        if t > 0 {
            proof {
                lemma_pow2_split(53, j as nat);
                lemma_pow2_at_most((53 + j) as nat, (k - 11) as nat);
                assert(0 < t * pow2(j as nat) < (2 * STEP) * pow2(j as nat)) by (nonlinear_arith)
                    requires
                        0 < t < 2 * STEP,
                        pow2(j as nat) > 0,
                ;
                lemma_far_apart(m as int, k as nat, size(low as int), plus);
            }
            high
        } else {
            assert(size(low as int) == 0) by (nonlinear_arith)
                requires
                    size(low as int) == t * pow2(j as nat),
                    t == 0,
            ;
            round_ratio(m as u128, 1, k)
        }
    }
}

/// The sum of two doubles.
pub fn add_doubles(a: u64, b: u64) -> (r: u64)
    ensures
        r == sum(a, b),
{
    let ma: u64 = a % SIGN;
    let mb: u64 = b % SIGN;
    if ma > INFINITY || mb > INFINITY {
        return NAN;
    }
    if ma == INFINITY && mb == INFINITY && a != b {
        return NAN;
    }
    if ma == INFINITY {
        return a;
    }
    if mb == INFINITY {
        return b;
    }
    let na: bool = a >= SIGN;
    let nb: bool = b >= SIGN;
    proof {
        if ma < mb {
            lemma_size_grows(ma as int, mb as int);
        }
        if mb < ma {
            lemma_size_grows(mb as int, ma as int);
        }
        lemma_zero();
        if 0 < ma {
            lemma_size_grows(0, ma as int);
        }
        if 0 < mb {
            lemma_size_grows(0, mb as int);
        }
    }
    if na == nb {
        if ma == 0 && mb == 0 {
            return join_sign(na, 0);
        }
        let mag = if ma >= mb {
            combine_sizes(ma, mb, true)
        } else {
            combine_sizes(mb, ma, true)
        };
        join_sign(na, mag)
    } else if ma == mb {
        0
    } else if ma > mb {
        join_sign(na, combine_sizes(ma, mb, false))
    } else {
        join_sign(nb, combine_sizes(mb, ma, false))
    }
}

proof fn lemma_zero()
    ensures
        size(0) == 0,
{
    assert(0 * pow2(0) == 0) by (nonlinear_arith);
}

/// A double divided by a count.
pub fn divide_double(a: u64, n: u64) -> (r: u64)
    requires
        0 < n <= 2 * STEP,
    ensures
        r == quotient(a, n as int),
{
    let ma: u64 = a % SIGN;
    if ma > INFINITY {
        return NAN;
    }
    if ma == INFINITY {
        return a;
    }
    let (m, k) = parts(ma);
    join_sign(a >= SIGN, round_ratio(m as u128, n as u128, k))
}

/// The double nearest to an integer.
pub fn integer_to_double(i: i128) -> (r: u64)
    requires
        -0x8000_0000_0000_0000 <= i <= 0xFFFF_FFFF_FFFF_FFFF,
    ensures
        r == of_integer(i as int),
{
    proof {
        lemma_pow2_pos(1074);
        assert((i < 0) == (i * pow2(1074) < 0)) by (nonlinear_arith)
            requires
                pow2(1074) > 0,
        ;
        assert(-(i * pow2(1074)) == (-i) * pow2(1074)) by (nonlinear_arith);
    }
    if i < 0 {
        join_sign(true, round_ratio((-i) as u128, 1, 1074))
    } else {
        join_sign(false, round_ratio(i as u128, 1, 1074))
    }
}

/// Whether one double is less than another.
pub fn less_than(a: u64, b: u64) -> (r: bool)
    ensures
        r == less(a, b),
{
    let ma: u64 = a % SIGN;
    let mb: u64 = b % SIGN;
    if ma > INFINITY || mb > INFINITY {
        return false;
    }
    proof {
        if ma < mb {
            lemma_size_grows(ma as int, mb as int);
        }
        if mb < ma {
            lemma_size_grows(mb as int, ma as int);
        }
        lemma_zero();
        if 0 < ma {
            lemma_size_grows(0, ma as int);
        }
        if 0 < mb {
            lemma_size_grows(0, mb as int);
        }
    }
    let na: bool = a >= SIGN;
    let nb: bool = b >= SIGN;
    if na && nb {
        mb < ma
    } else if na {
        ma > 0 || mb > 0
    } else if nb {
        false
    } else {
        ma < mb
    }
}

/// The sign bit of a single-precision float.
pub const SINGLE_SIGN: u32 = 0x8000_0000;

/// The infinity of single precision.
pub const SINGLE_INFINITY: u32 = 0x7F80_0000;

/// The weight of the lowest exponent bit of a single-precision float.
pub const SINGLE_STEP: u32 = 0x80_0000;

/// The value of a finite single-precision magnitude, in units of `2^-149`.
pub open spec fn single_size(mag: int) -> int {
    if mag < SINGLE_STEP {
        mag
    } else {
        (SINGLE_STEP + mag % SINGLE_STEP as int) * pow2((mag / SINGLE_STEP as int - 1) as nat)
    }
}

/// The double with the value of a single-precision float.
pub open spec fn widened(bits: u32) -> u64 {
    let mag = bits as int % SINGLE_SIGN as int;
    let neg = bits >= SINGLE_SIGN;
    if mag > SINGLE_INFINITY {
        NAN
    } else if mag == SINGLE_INFINITY {
        with_sign(neg, INFINITY as int)
    } else {
        with_sign(neg, rounded(single_size(mag) * pow2(925), 1))
    }
}

/// The double with the value of a single-precision float.
pub fn widen(bits: u32) -> (r: u64)
    ensures
        r == widened(bits),
{
    let mag: u32 = bits % SINGLE_SIGN;
    let neg: bool = bits >= SINGLE_SIGN;
    if mag > SINGLE_INFINITY {
        return NAN;
    }
    if mag == SINGLE_INFINITY {
        return join_sign(neg, INFINITY);
    }
    if mag < SINGLE_STEP {
        join_sign(neg, round_ratio(mag as u128, 1, 925))
    } else {
        let m: u32 = SINGLE_STEP + mag % SINGLE_STEP;
        let k: u32 = mag / SINGLE_STEP - 1;
        proof {
            lemma_pow2_split(k as nat, 925);
            assert((m * pow2(k as nat)) * pow2(925) == m * pow2((k + 925) as nat))
                by (nonlinear_arith)
                requires
                    pow2((k + 925) as nat) == pow2(k as nat) * pow2(925),
            ;
        }
        join_sign(neg, round_ratio(m as u128, 1, k as u64 + 925))
    }
}

/// There is a grain: from one that is coarse enough the finest is reached.
proof fn lemma_grain_below(n: int, d: int, g: nat)
    requires
        n < d * pow2(53 + g),
    ensures
        is_grain(n, d, grain(n, d)),
    decreases g,
{
    if g == 0 || n >= d * pow2((52 + g) as nat) {
        assert(is_grain(n, d, g));
    } else {
        lemma_grain_below(n, d, (g - 1) as nat);
    }
}

proof fn lemma_pow2_exceeds(n: nat)
    ensures
        n < pow2(n),
    decreases n,
{
    lemma_powers();
    if n > 0 {
        lemma_pow2_exceeds((n - 1) as nat);
        lemma_pow2_unfold(n);
    }
}

/// There is a grain.
proof fn lemma_grain(n: int, d: int)
    requires
        n >= 0,
        d > 0,
    ensures
        is_grain(n, d, grain(n, d)),
{
    lemma_pow2_exceeds(n as nat);
    lemma_pow2_at_most(n as nat, 53 + n as nat);
    assert(n < d * pow2(53 + n as nat)) by (nonlinear_arith)
        requires
            n < pow2(53 + n as nat),
            d > 0,
            n >= 0,
    ;
    lemma_grain_below(n, d, n as nat);
}

/// The value of a magnitude made of an exponent and a significand.
proof fn lemma_size_of(g: nat, q: int)
    requires
        0 <= q <= 2 * STEP,
        g > 0 ==> q >= STEP,
    ensures
        size(g * STEP + q) == q * pow2(g),
{
    let mag = g * STEP + q;
    if q == 2 * STEP {
        lemma_pow2_unfold(g + 1);
        lemma_fundamental_div_mod_converse(mag, STEP as int, g as int + 2, 0);
        assert(STEP * (2 * pow2(g)) == (2 * STEP) * pow2(g)) by (nonlinear_arith);
    } else if q >= STEP {
        lemma_fundamental_div_mod_converse(mag, STEP as int, g as int + 1, q - STEP);
    }
}

/// The nearest whole number is no further off than half.
proof fn lemma_half_even(n: int, d: int)
    requires
        n >= 0,
        d > 0,
    ensures
        -d <= 2 * (half_even(n, d) * d - n) <= d,
        half_even(n, d) >= 0,
{
    lemma_fundamental_div_mod(n, d);
    let q = n / d;
    assert(q >= 0) by (nonlinear_arith)
        requires
            q == n / d,
            n >= 0,
            d > 0,
    ;
    assert((q + 1) * d == d * q + d) by (nonlinear_arith);
    assert(q * d == d * q) by (nonlinear_arith);
}

/// What is below a whole number, or reaches it, does so when rounded.
proof fn lemma_half_even_bounds(n: int, d: int, low: int, high: int)
    requires
        d > 0,
        low * d <= n < high * d,
    ensures
        low <= half_even(n, d) <= high,
{
    lemma_fundamental_div_mod(n, d);
    let q = n / d;
    assert(low <= q < high) by (nonlinear_arith)
        requires
            low * d <= n < high * d,
            n == d * q + n % d,
            0 <= n % d < d,
            d > 0,
    ;
}

/// A rounded value is within half a grain of the exact one, unless it is too large for a
/// finite double.
pub proof fn law_rounding_error(n: int, d: int)
    requires
        n >= 0,
        d > 0,
        rounded(n, d) < INFINITY,
    ensures
        ({
            let unit = d * pow2(grain(n, d));
            -unit <= 2 * (size(rounded(n, d)) * d - n) <= unit
        }),
{
    let g = grain(n, d);
    let unit = d * pow2(g);
    lemma_grain(n, d);
    lemma_powers();
    lemma_pow2_split(53, g);
    lemma_pow2_pos(g);
    assert(unit > 0) by (nonlinear_arith)
        requires
            unit == d * pow2(g),
            d > 0,
            pow2(g) > 0,
    ;
    assert(d * pow2(53 + g) == (2 * STEP) * unit) by (nonlinear_arith)
        requires
            pow2(53 + g) == (2 * STEP) * pow2(g),
            unit == d * pow2(g),
    ;
    if g > 0 {
        lemma_pow2_split(52, g);
        assert(d * pow2((52 + g) as nat) == STEP * unit) by (nonlinear_arith)
            requires
                pow2((52 + g) as nat) == STEP * pow2(g),
                unit == d * pow2(g),
        ;
        lemma_half_even_bounds(n, unit, STEP as int, 2 * STEP);
    } else {
        lemma_half_even_bounds(n, unit, 0, 2 * STEP);
    }
    lemma_half_even(n, unit);
    let q = half_even(n, unit);
    lemma_size_of(g, q);
    assert((q * pow2(g)) * d == q * unit) by (nonlinear_arith)
        requires
            unit == d * pow2(g),
    ;
}

/// A value of at most 53 bits, times a power of two, is a double.
proof fn lemma_exact(m: int, k: nat)
    requires
        0 <= m < 2 * STEP,
        k <= 2045,
    ensures
        0 <= rounded(m * pow2(k), 1) < INFINITY,
        size(rounded(m * pow2(k), 1)) == m * pow2(k),
{
    let n = m * pow2(k);
    let g = grain(n, 1);
    lemma_powers();
    lemma_pow2_pos(k);
    assert(0 <= n) by (nonlinear_arith)
        requires
            n == m * pow2(k),
            m >= 0,
    ;
    lemma_grain(n, 1);
    if g > k {
        lemma_pow2_split(53, k);
        lemma_pow2_at_most(53 + k, (52 + g) as nat);
        assert(n < pow2(53 + k)) by (nonlinear_arith)
            requires
                n == m * pow2(k),
                m < 2 * STEP,
                pow2(53 + k) == (2 * STEP) * pow2(k),
                pow2(k) > 0,
        ;
    }
    let unit = pow2(g) as int;
    let j = (k - g) as nat;
    let q = m * pow2(j);
    lemma_pow2_split(j, g);
    assert(n == q * unit) by (nonlinear_arith)
        requires
            n == m * pow2(k),
            pow2(k) == pow2(j) * pow2(g),
            q == m * pow2(j),
            unit == pow2(g),
    ;
    lemma_fundamental_div_mod_converse(n, unit, q, 0);
    lemma_pow2_split(53, g);
    assert(0 <= q < 2 * STEP) by (nonlinear_arith)
        requires
            0 <= n < pow2(53 + g),
            n == q * unit,
            pow2(53 + g) == (2 * STEP) * pow2(g),
            unit == pow2(g),
            unit > 0,
    ;
    if g > 0 {
        lemma_pow2_split(52, g);
        assert(q >= STEP) by (nonlinear_arith)
            requires
                n >= pow2((52 + g) as nat),
                n == q * unit,
                pow2((52 + g) as nat) == STEP * pow2(g),
                unit == pow2(g),
                unit > 0,
        ;
    }
    lemma_size_of(g, q);
}

/// An integer of at most 53 bits is exactly a double.
pub proof fn law_small_integers_are_exact(i: int)
    requires
        -2 * STEP < i < 2 * STEP,
    ensures
        value(of_integer(i)) == i * pow2(1074),
        magnitude(of_integer(i)) < INFINITY,
        negative(of_integer(i)) == (i < 0),
{
    lemma_pow2_pos(1074);
    if i < 0 {
        lemma_exact(-i, 1074);
        assert(-(i * pow2(1074)) == (-i) * pow2(1074)) by (nonlinear_arith);
        assert(i * pow2(1074) < 0) by (nonlinear_arith)
            requires
                i < 0,
                pow2(1074) > 0,
        ;
    } else {
        lemma_exact(i, 1074);
        assert(i * pow2(1074) >= 0) by (nonlinear_arith)
            requires
                i >= 0,
                pow2(1074) > 0,
        ;
    }
}

/// A finite single-precision float is exactly a double.
pub proof fn law_widening_is_exact(bits: u32)
    requires
        bits as int % (SINGLE_SIGN as int) < SINGLE_INFINITY,
    ensures
        value(widened(bits)) == (if bits >= SINGLE_SIGN {
            -(single_size(bits as int % SINGLE_SIGN as int) * pow2(925))
        } else {
            single_size(bits as int % SINGLE_SIGN as int) * pow2(925)
        }),
{
    let mag = bits as int % SINGLE_SIGN as int;
    if mag < SINGLE_STEP {
        lemma_exact(mag, 925);
    } else {
        let m = SINGLE_STEP + mag % SINGLE_STEP as int;
        let k = (mag / SINGLE_STEP as int - 1) as nat;
        lemma_pow2_split(k, 925);
        assert((m * pow2(k)) * pow2(925) == m * pow2(k + 925)) by (nonlinear_arith)
            requires
                pow2(k + 925) == pow2(k) * pow2(925),
        ;
        lemma_exact(m, k + 925);
    }
}

/// Integers of at most 53 bits are added exactly.
pub proof fn law_small_integers_add_exactly(i: int, j: int)
    requires
        -2 * STEP < i < 2 * STEP,
        -2 * STEP < j < 2 * STEP,
    ensures
        sum(of_integer(i), of_integer(j)) == of_integer(i + j),
{
    law_small_integers_are_exact(i);
    law_small_integers_are_exact(j);
    lemma_pow2_pos(1074);
    assert(i * pow2(1074) + j * pow2(1074) == (i + j) * pow2(1074)) by (nonlinear_arith);
    if (i + j) * pow2(1074) == 0 {
        assert(i + j == 0) by (nonlinear_arith)
            requires
                (i + j) * pow2(1074) == 0,
                pow2(1074) > 0,
        ;
        lemma_exact(0, 1074);
        let r = rounded(0int * pow2(1074), 1);
        lemma_zero();
        if r > 0 {
            lemma_size_grows(0, r);
        }
    }
}

/// Adding a finite double to zero leaves it as it is, but for the sign of a zero.
pub proof fn law_adding_to_zero(a: u64)
    requires
        !is_nan(a),
    ensures
        sum(0, a) == (if magnitude(a) == 0 {
            0
        } else {
            a
        }),
{
    lemma_zero();
    if is_infinite(a) {
    } else if magnitude(a) == 0 {
    } else {
        let mag = magnitude(a);
        lemma_size_grows(0, mag);
        lemma_magnitude_parts(mag);
        let (m, k) = (significand(mag), exponent(mag) as nat);
        lemma_exact(m, k);
        let r = rounded(size(mag), 1);
        assert(size(r) == size(mag));
        if r < mag {
            lemma_size_grows(r, mag);
        } else if r > mag {
            lemma_size_grows(mag, r);
        }
    }
}

/// The order of two summands does not matter.
pub proof fn law_sum_commutes(a: u64, b: u64)
    ensures
        sum(a, b) == sum(b, a),
{
}

/// Of two doubles that are numbers one is less, or they have the same value.
pub proof fn law_order_is_total(a: u64, b: u64)
    requires
        !is_nan(a),
        !is_nan(b),
    ensures
        less(a, b) || less(b, a) || value(a) == value(b),
        !(less(a, b) && less(b, a)),
{
}

/// How far two numbers are apart.
pub open spec fn distance(a: int, b: int) -> int {
    if a < b {
        b - a
    } else {
        a - b
    }
}

/// No whole number is nearer to `n / d` than the one rounded to.
proof fn lemma_half_even_is_nearest(n: int, d: int, k: int)
    requires
        n >= 0,
        d > 0,
    ensures
        distance(half_even(n, d) * d, n) <= distance(k * d, n),
{
    lemma_fundamental_div_mod(n, d);
    let q = n / d;
    let r = n % d;
    assert(q * d == d * q) by (nonlinear_arith);
    assert((q + 1) * d == d * q + d) by (nonlinear_arith);
    if k <= q {
        assert(k * d <= q * d) by (nonlinear_arith)
            requires
                k <= q,
                d > 0,
        ;
    } else {
        assert((q + 1) * d <= k * d) by (nonlinear_arith)
            requires
                q + 1 <= k,
                d > 0,
        ;
    }
}

/// The value of infinity.
proof fn lemma_infinity()
    ensures
        size(INFINITY as int) == pow2(2098),
{
    lemma_powers();
    lemma_pow2_split(52, 2046);
    lemma_fundamental_div_mod_converse(INFINITY as int, STEP as int, 2047, 0);
}

/// Rounding finds the nearest double: none is nearer to `n / d`. Infinity stands for the power of
/// two that follows the largest finite double.
pub proof fn law_rounding_is_nearest(n: int, d: int, mag: int)
    requires
        n >= 0,
        d > 0,
        0 <= mag <= INFINITY,
    ensures
        0 <= rounded(n, d) <= INFINITY,
        distance(size(rounded(n, d)) * d, n) <= distance(size(mag) * d, n),
{
    let g = grain(n, d);
    let unit = d * pow2(g);
    lemma_grain(n, d);
    lemma_powers();
    lemma_pow2_split(53, g);
    lemma_pow2_pos(g);
    assert(unit > 0) by (nonlinear_arith)
        requires
            unit == d * pow2(g),
            d > 0,
            pow2(g) > 0,
    ;
    assert(d * pow2(53 + g) == (2 * STEP) * unit) by (nonlinear_arith)
        requires
            pow2(53 + g) == (2 * STEP) * pow2(g),
            unit == d * pow2(g),
    ;
    if g > 0 {
        lemma_pow2_split(52, g);
        assert(d * pow2((52 + g) as nat) == STEP * unit) by (nonlinear_arith)
            requires
                pow2((52 + g) as nat) == STEP * pow2(g),
                unit == d * pow2(g),
        ;
        lemma_half_even_bounds(n, unit, STEP as int, 2 * STEP);
    } else {
        lemma_half_even_bounds(n, unit, 0, 2 * STEP);
    }
    let q = half_even(n, unit);
    lemma_size_of(g, q);
    assert((q * pow2(g)) * d == q * unit) by (nonlinear_arith)
        requires
            unit == d * pow2(g),
    ;
    lemma_magnitude_parts(mag);
    let e = exponent(mag) as nat;
    let m = significand(mag);
    lemma_pow2_pos(e);
    if g * STEP + q > INFINITY {
        lemma_infinity();
        assert(g >= 2046) by {
            if g <= 2045 {
                assert(g * STEP + q <= 2045 * STEP + 2 * STEP) by (nonlinear_arith)
                    requires
                        g <= 2045,
                        q <= 2 * STEP,
                ;
            }
        }
        lemma_pow2_at_most(2098, (52 + g) as nat);
        if mag < INFINITY {
            lemma_size_grows(mag, INFINITY as int);
        }
        assert(size(mag) * d <= size(INFINITY as int) * d <= n) by (nonlinear_arith)
            requires
                size(mag) <= size(INFINITY as int),
                size(INFINITY as int) <= pow2((52 + g) as nat),
                n >= d * pow2((52 + g) as nat),
                d > 0,
        ;
    } else {
        assert(size(rounded(n, d)) * d == q * unit);
        if e >= g {
            let k = m * pow2((e - g) as nat);
            lemma_pow2_split((e - g) as nat, g);
            assert((m * pow2(e)) * d == k * unit) by (nonlinear_arith)
                requires
                    pow2(e) == pow2((e - g) as nat) * pow2(g),
                    k == m * pow2((e - g) as nat),
                    unit == d * pow2(g),
            ;
            lemma_half_even_is_nearest(n, unit, k);
        } else {
            lemma_half_even_is_nearest(n, unit, STEP as int);
            lemma_pow2_unfold(e + 1);
            lemma_pow2_at_most(e + 1, g);
            assert(m * pow2(e) <= STEP * pow2(g)) by (nonlinear_arith)
                requires
                    0 <= m < 2 * STEP,
                    2 * pow2(e) <= pow2(g),
                    pow2(e) > 0,
            ;
            assert((m * pow2(e)) * d <= STEP * unit) by (nonlinear_arith)
                requires
                    m * pow2(e) <= STEP * pow2(g),
                    unit == d * pow2(g),
                    d > 0,
            ;
        }
    }
}

/// The parts of bits made of a sign and a magnitude.
proof fn lemma_with_sign(neg: bool, mag: int)
    requires
        0 <= mag <= INFINITY,
    ensures
        magnitude(with_sign(neg, mag)) == mag,
        negative(with_sign(neg, mag)) == neg,
        value(with_sign(neg, mag)) == (if neg {
            -size(mag)
        } else {
            size(mag)
        }),
{
}

/// The double chosen for `n / d` is the nearest, whatever the signs.
proof fn lemma_nearest(n: int, d: int, x: u64)
    requires
        d > 0,
        !is_nan(x),
    ensures
        !is_nan(nearest(n, d)),
        negative(nearest(n, d)) == (n < 0),
        distance(value(nearest(n, d)) * d, n) <= distance(value(x) * d, n),
{
    let m = if n < 0 {
        -n
    } else {
        n
    };
    let mag = magnitude(x);
    lemma_zero();
    law_rounding_is_nearest(m, d, 0);
    law_rounding_is_nearest(m, d, mag);
    lemma_with_sign(n < 0, rounded(m, d));
    if mag > 0 {
        lemma_size_grows(0, mag);
    }
    let r = size(rounded(m, d));
    let s = size(mag);
    assert(r * d == -((-r) * d)) by (nonlinear_arith);
    assert(s * d == -((-s) * d)) by (nonlinear_arith);
    assert(s * d >= 0) by (nonlinear_arith)
        requires
            s >= 0,
            d > 0,
    ;
    assert(0 * d == 0) by (nonlinear_arith);
}

/// The sum of two finite doubles is the double nearest to their exact sum: no double is nearer.
/// It has the sign of the exact sum.
pub proof fn law_sum_is_nearest(a: u64, b: u64, x: u64)
    requires
        magnitude(a) < INFINITY,
        magnitude(b) < INFINITY,
        !is_nan(x),
    ensures
        !is_nan(sum(a, b)),
        distance(value(sum(a, b)), value(a) + value(b)) <= distance(value(x), value(a) + value(b)),
        value(a) + value(b) > 0 ==> !negative(sum(a, b)),
        value(a) + value(b) < 0 ==> negative(sum(a, b)),
        value(a) + value(b) == 0 ==> sum(a, b) == (if negative(a) && negative(b) {
            SIGN
        } else {
            0
        }),
{
    let e = value(a) + value(b);
    lemma_zero();
    if e != 0 {
        lemma_nearest(e, 1, x);
    }
}

/// A sum with a `NaN`, or of opposite infinities, is the `NaN`; any other sum with an infinity is
/// that infinity.
pub proof fn law_sums_of_what_is_not_finite(a: u64, b: u64)
    requires
        magnitude(a) >= INFINITY || magnitude(b) >= INFINITY,
    ensures
        magnitude(a) > INFINITY || magnitude(b) > INFINITY ==> sum(a, b) == NAN,
        magnitude(a) == INFINITY && magnitude(b) == INFINITY ==> sum(a, b) == (if a == b {
            a
        } else {
            NAN
        }),
        magnitude(a) == INFINITY && magnitude(b) < INFINITY ==> sum(a, b) == a,
        magnitude(a) < INFINITY && magnitude(b) == INFINITY ==> sum(a, b) == b,
{
}

/// A finite double divided by a count is the double nearest to the exact quotient, with the sign
/// of the dividend. An infinity stays itself and a `NaN` gives the `NaN`.
pub proof fn law_quotient_is_nearest(a: u64, n: int, x: u64)
    requires
        n > 0,
        !is_nan(x),
    ensures
        magnitude(a) < INFINITY ==> {
            &&& !is_nan(quotient(a, n))
            &&& negative(quotient(a, n)) == negative(a)
            &&& distance(value(quotient(a, n)) * n, value(a)) <= distance(value(x) * n, value(a))
        },
        magnitude(a) == INFINITY ==> quotient(a, n) == a,
        magnitude(a) > INFINITY ==> quotient(a, n) == NAN,
{
    if magnitude(a) < INFINITY {
        let m = size(magnitude(a));
        lemma_zero();
        if magnitude(a) > 0 {
            lemma_size_grows(0, magnitude(a));
        }
        let r = rounded(m, n);
        law_rounding_is_nearest(m, n, 0);
        law_rounding_is_nearest(m, n, magnitude(x));
        lemma_with_sign(negative(a), r);
        let (p, t) = (size(r), size(magnitude(x)));
        if magnitude(x) > 0 {
            lemma_size_grows(0, magnitude(x));
        }
        assert(p * n == -((-p) * n)) by (nonlinear_arith);
        assert(t * n == -((-t) * n)) by (nonlinear_arith);
        assert(t * n >= 0) by (nonlinear_arith)
            requires
                t >= 0,
                n > 0,
        ;
        assert(0 * n == 0) by (nonlinear_arith);
    }
}

/// An integer becomes the double nearest to it.
pub proof fn law_integers_become_the_nearest(i: int, x: u64)
    requires
        !is_nan(x),
    ensures
        !is_nan(of_integer(i)),
        negative(of_integer(i)) == (i < 0),
        distance(value(of_integer(i)), i * pow2(1074)) <= distance(value(x), i * pow2(1074)),
{
    let n = i * pow2(1074);
    lemma_pow2_pos(1074);
    lemma_nearest(n, 1, x);
    assert(n < 0 <==> i < 0) by (nonlinear_arith)
        requires
            n == i * pow2(1074),
            pow2(1074) > 0,
    ;
}

/// Values are ordered as the bits are: of two doubles without a sign the one with the greater bits
/// is greater, and the sign bit negates.
pub proof fn law_values_follow_bits(a: u64, b: u64)
    requires
        a < SIGN,
        b < SIGN,
        !is_nan(a),
        !is_nan(b),
    ensures
        a < b <==> value(a) < value(b),
        value((a + SIGN) as u64) == -value(a),
{
    if a < b {
        lemma_size_grows(a as int, b as int);
    } else if b < a {
        lemma_size_grows(b as int, a as int);
    }
}

} // verus!
