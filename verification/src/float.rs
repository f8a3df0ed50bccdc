//! Arithmetic on IEEE 754 doubles held as their 64-bit patterns.
//!
//! A finite double is an integer multiple of 2^-1074, the smallest positive
//! one. The *units* of a double are that integer, so every exact result below
//! is a quotient of two integers, and rounding it to a double is integer
//! arithmetic too.

use crate::text::int_order;
use vstd::arithmetic::div_mod::{lemma_basic_div, lemma_fundamental_div_mod, lemma_fundamental_div_mod_converse};
use vstd::arithmetic::mul::{lemma_mul_inequality, lemma_mul_is_associative, lemma_mul_is_commutative, lemma_mul_strict_inequality};
use vstd::arithmetic::power2::{lemma2_to64, lemma2_to64_rest, lemma_pow2_adds, lemma_pow2_pos, lemma_pow2_strictly_increases, lemma_pow2_unfold, pow2};
use vstd::prelude::*;

verus! {

/// The sign bit of a pattern.
pub const SIGN: u64 = 0x8000_0000_0000_0000;

/// The pattern of positive infinity; every larger magnitude is a NaN.
pub const INFINITY: u64 = 0x7ff0_0000_0000_0000;

/// One more than the largest fraction field.
pub const FRACTION: u64 = 0x10_0000_0000_0000;

/// True for a pattern with its sign bit set.
pub open spec fn is_negative(bits: u64) -> bool {
    bits >= SIGN
}

/// The pattern without its sign bit.
pub open spec fn magnitude(bits: u64) -> u64 {
    if bits >= SIGN {
        (bits - SIGN) as u64
    } else {
        bits
    }
}

pub open spec fn is_nan(bits: u64) -> bool {
    magnitude(bits) > INFINITY
}

pub open spec fn is_infinite(bits: u64) -> bool {
    magnitude(bits) == INFINITY
}

/// The significand of a magnitude, with its implicit leading bit.
pub open spec fn significand(mag: u64) -> nat {
    if mag < FRACTION {
        mag as nat
    } else {
        (mag % FRACTION + FRACTION) as nat
    }
}

/// The power of two that the significand is scaled by, counted from 2^-1074.
pub open spec fn exponent(mag: u64) -> nat {
    if mag < FRACTION {
        0
    } else {
        (mag / FRACTION - 1) as nat
    }
}

/// The value of a finite magnitude in multiples of 2^-1074.
pub open spec fn units(mag: u64) -> nat {
    significand(mag) * pow2(exponent(mag))
}

/// The integer nearest to `n / d`; of two equally near ones, the even one.
pub open spec fn nearest(n: nat, d: nat) -> nat {
    let q = n / d;
    let r = n % d;
    if 2 * r < d || (2 * r == d && q % 2 == 0) {
        q
    } else {
        q + 1
    }
}

/// `k` is the exponent at which `n / d` takes at most 53 bits, and the
/// smallest such.
pub open spec fn is_binade(n: nat, d: nat, k: nat) -> bool {
    &&& n < d * pow2(53 + k)
    &&& k > 0 ==> d * pow2((52 + k) as nat) <= n
}

/// The magnitude of the double nearest to `n / d` units, ties to even, with
/// everything beyond the largest finite double going to infinity.
pub open spec fn rounded(n: nat, d: nat) -> u64 {
    let k = choose|k: nat| is_binade(n, d, k);
    let mag = k * FRACTION + nearest(n, d * pow2(k));
    if mag > INFINITY {
        INFINITY
    } else {
        mag as u64
    }
}

/// The value `m * 2^k` units, rounded to a double.
pub open spec fn rounded_scaled(m: nat, k: int) -> u64 {
    if k >= 0 {
        rounded(m * pow2(k as nat), 1)
    } else {
        rounded(m, pow2((-k) as nat))
    }
}

proof fn lemma_pow2_le(a: nat, b: nat)
    requires
        a <= b,
    ensures
        pow2(a) <= pow2(b),
{
    if a < b {
        lemma_pow2_strictly_increases(a, b);
    }
}

/// There is only one exponent for a quotient.
proof fn lemma_binade_unique(n: nat, d: nat, j: nat, k: nat)
    requires
        is_binade(n, d, j),
        is_binade(n, d, k),
    ensures
        j == k,
{
    if j < k {
        lemma_pow2_le(53 + j, (52 + k) as nat);
        lemma_mul_inequality(pow2(53 + j) as int, pow2((52 + k) as nat) as int, d as int);
        lemma_mul_is_commutative(d as int, pow2(53 + j) as int);
        lemma_mul_is_commutative(d as int, pow2((52 + k) as nat) as int);
    } else if k < j {
        lemma_pow2_le(53 + k, (52 + j) as nat);
        lemma_mul_inequality(pow2(53 + k) as int, pow2((52 + j) as nat) as int, d as int);
        lemma_mul_is_commutative(d as int, pow2(53 + k) as int);
        lemma_mul_is_commutative(d as int, pow2((52 + j) as nat) as int);
    }
}

/// What rounding gives, once the exponent is known.
proof fn lemma_rounded(n: nat, d: nat, k: nat)
    requires
        is_binade(n, d, k),
    ensures
        rounded(n, d) == (if k * FRACTION + nearest(n, d * pow2(k)) > INFINITY {
            INFINITY as int
        } else {
            k * FRACTION + nearest(n, d * pow2(k))
        }),
{
    let c = choose|c: nat| is_binade(n, d, c);
    lemma_binade_unique(n, d, c, k);
}

/// A common factor does not change the nearest integer.
proof fn lemma_nearest_scale(n: nat, d: nat, c: nat)
    requires
        d > 0,
        c > 0,
    ensures
        nearest(n * c, d * c) == nearest(n, d),
{
    let q = n / d;
    let r = n % d;
    lemma_fundamental_div_mod(n as int, d as int);
    assert(n * c == q * (d * c) + r * c && 0 <= r * c < d * c && (2 * r < d <==> 2 * (r * c) < d * c) && (
    2 * r == d <==> 2 * (r * c) == d * c)) by (nonlinear_arith)
        requires
            n == d * q + r,
            0 <= r < d,
            c > 0,
    ;
    lemma_fundamental_div_mod_converse((n * c) as int, (d * c) as int, q as int, (r * c) as int);
}

/// A multiple of the divisor is its own nearest quotient.
proof fn lemma_nearest_exact(q: nat, d: nat)
    requires
        d > 0,
    ensures
        nearest(q * d, d) == q,
{
    lemma_fundamental_div_mod_converse((q * d) as int, d as int, q as int, 0);
}

/// 2^e, for an exponent that keeps it inside 128 bits.
fn power(e: u32) -> (p: u128)
    requires
        e <= 126,
    ensures
        p == pow2(e as nat),
        0 < p <= 0x4000_0000_0000_0000_0000_0000_0000_0000,
{
    let mut p: u128 = 1;
    let mut i: u32 = 0;
    proof {
        lemma2_to64();
        lemma_pow2_126();
    }
    while i < e
        invariant
            i <= e <= 126,
            p == pow2(i as nat),
            pow2(126) == 0x4000_0000_0000_0000_0000_0000_0000_0000,
        decreases e - i,
    {
        proof {
            lemma_pow2_unfold((i + 1) as nat);
            lemma_pow2_le((i + 1) as nat, 126);
        }
        p = p * 2;
        i = i + 1;
    }
    proof {
        lemma_pow2_le(e as nat, 126);
        lemma_pow2_pos(e as nat);
    }
    p
}

proof fn lemma_pow2_126()
    ensures
        pow2(126) == 0x4000_0000_0000_0000_0000_0000_0000_0000,
        pow2(52) == FRACTION,
        pow2(53) == 2 * FRACTION,
        pow2(64) == 0x1_0000_0000_0000_0000,
{
    lemma2_to64();
    lemma2_to64_rest();
    lemma_pow2_adds(62, 64);
}

/// The number of bits of `m`.
fn bit_length(m: u128) -> (l: u32)
    requires
        0 < m < 0x4000_0000_0000_0000_0000_0000_0000_0000,
    ensures
        0 < l <= 126,
        pow2((l - 1) as nat) <= m < pow2(l as nat),
{
    let mut l: u32 = 0;
    let mut p: u128 = 1;
    proof {
        lemma2_to64();
        lemma_pow2_126();
    }
    while p <= m
        invariant
            l <= 126,
            p == pow2(l as nat),
            0 < m < 0x4000_0000_0000_0000_0000_0000_0000_0000,
            pow2(126) == 0x4000_0000_0000_0000_0000_0000_0000_0000,
            l > 0 ==> pow2((l - 1) as nat) <= m,
            l == 0 ==> p == 1,
        decreases 126 - l,
    {
        proof {
            if l >= 126 {
                assert(false);
            }
            lemma_pow2_unfold((l + 1) as nat);
        }
        p = p * 2;
        l = l + 1;
    }
    l
}

/// The integer nearest to `m / 2^s`, ties to even.
fn nearest_shift(m: u128, s: u32) -> (q: u128)
    requires
        m < 0x4000_0000_0000_0000_0000_0000_0000_0000,
    ensures
        q == nearest(m as nat, pow2(s as nat)),
{
    proof {
        lemma_pow2_126();
    }
    if s > 126 {
        proof {
            lemma_pow2_unfold(127);
            lemma_pow2_le(127, s as nat);
            lemma_fundamental_div_mod_converse(m as int, pow2(s as nat) as int, 0, m as int);
        }
        return 0;
    }
    let p = power(s);
    let q = m / p;
    let r = m % p;
    if 2 * r < p || (2 * r == p && q % 2 == 0) {
        q
    } else {
        q + 1
    }
}

/// Nothing rounds to nothing.
proof fn lemma_zero_rounds(d: nat)
    requires
        d > 0,
    ensures
        rounded(0, d) == 0,
{
    lemma_pow2_pos(53);
    lemma_pow2_pos(0);
    assert(0 < d * pow2(53)) by (nonlinear_arith)
        requires
            d > 0,
            pow2(53) > 0,
    ;
    lemma_rounded(0, d, 0);
    lemma2_to64();
    lemma_nearest_exact(0, d);
}

/// The exponent of `m * 2^k` follows from the number of bits of `m`.
proof fn lemma_scaled_binade(m: nat, k: int, e: nat, l: nat)
    requires
        0 < l,
        pow2((l - 1) as nat) <= m < pow2(l),
        e == (if l + k - 53 > 0 { l + k - 53 } else { 0 }),
    ensures
        k >= 0 ==> is_binade(m * pow2(k as nat), 1, e),
        k < 0 ==> is_binade(m, pow2((-k) as nat), e),
{
    if k >= 0 {
        lemma_pow2_adds(l, k as nat);
        lemma_pow2_adds((l - 1) as nat, k as nat);
        lemma_pow2_pos(k as nat);
        lemma_mul_strict_inequality(m as int, pow2(l) as int, pow2(k as nat) as int);
        lemma_mul_inequality(pow2((l - 1) as nat) as int, m as int, pow2(k as nat) as int);
        lemma_pow2_le((l + k) as nat, 53 + e);
    } else {
        lemma_pow2_adds((-k) as nat, 53 + e);
        lemma_pow2_le(l, ((-k) + 53 + e) as nat);
        if e > 0 {
            lemma_pow2_adds((-k) as nat, (52 + e) as nat);
        }
    }
}

/// Where the significand has room, `m * 2^k` is a double as it stands.
proof fn lemma_scaled_left(m: nat, k: nat, e: nat, l: nat)
    requires
        0 < l,
        m < pow2(l),
        e <= k,
        l + k - e <= 53,
    ensures
        m * pow2((k - e) as nat) < pow2(53),
        nearest(m * pow2(k), 1 * pow2(e)) == m * pow2((k - e) as nat),
{
    let p = pow2((k - e) as nat);
    lemma_pow2_pos((k - e) as nat);
    lemma_pow2_pos(e);
    lemma_pow2_adds((k - e) as nat, e);
    lemma_mul_is_associative(m as int, p as int, pow2(e) as int);
    lemma_nearest_exact(m * p, pow2(e));
    lemma_pow2_adds(l, (k - e) as nat);
    lemma_mul_strict_inequality(m as int, pow2(l) as int, p as int);
    lemma_pow2_le((l + k - e) as nat, 53);
}

/// Otherwise rounding drops the low bits of `m`.
proof fn lemma_scaled_right(m: nat, k: int, e: nat, l: nat)
    requires
        0 < l,
        m < pow2(l),
        e > k,
        l + k - e <= 53,
    ensures
        nearest(m, pow2((e - k) as nat)) <= pow2(53),
        k >= 0 ==> nearest(m * pow2(k as nat), 1 * pow2(e)) == nearest(m, pow2((e - k) as nat)),
        k < 0 ==> nearest(m, pow2((-k) as nat) * pow2(e)) == nearest(m, pow2((e - k) as nat)),
{
    let s = (e - k) as nat;
    lemma_pow2_pos(s);
    if k >= 0 {
        lemma_pow2_adds(s, k as nat);
        lemma_pow2_pos(k as nat);
        lemma_nearest_scale(m, pow2(s), pow2(k as nat));
    } else {
        lemma_pow2_adds((-k) as nat, e);
    }
    lemma_pow2_le(l, s + 53);
    lemma_pow2_adds(s, 53);
    lemma_fundamental_div_mod(m as int, pow2(s) as int);
    let q = m / pow2(s);
    assert(q < pow2(53)) by (nonlinear_arith)
        requires
            m < pow2(s) * pow2(53),
            m == pow2(s) * q + m % pow2(s),
            0 <= m % pow2(s),
            pow2(s) > 0,
    ;
}

/// Rounds `m * 2^k` units to a double.
fn round_scaled(m: u128, k: i32) -> (mag: u64)
    requires
        m < 0x4000_0000_0000_0000_0000_0000_0000_0000,
        -3100 <= k <= 3100,
    ensures
        mag == rounded_scaled(m as nat, k as int),
        mag <= INFINITY,
{
    let ghost n: nat = if k >= 0 { m as nat * pow2(k as nat) } else { m as nat };
    let ghost d: nat = if k >= 0 { 1 } else { pow2((-k) as nat) };
    if m == 0 {
        proof {
            if k < 0 {
                lemma_pow2_pos((-k) as nat);
            }
            lemma_zero_rounds(d);
        }
        return 0;
    }
    proof {
        lemma_pow2_126();
    }
    let l = bit_length(m);
    let top: i32 = l as i32 + k - 53;
    let e: i32 = if top > 0 { top } else { 0 };
    let q: u128;
    if e <= k {
        let p = power((k - e) as u32);
        proof {
            lemma_scaled_left(m as nat, k as nat, e as nat, l as nat);
        }
        q = m * p;
    } else {
        q = nearest_shift(m, (e - k) as u32);
        proof {
            lemma_scaled_right(m as nat, k as int, e as nat, l as nat);
        }
    }
    proof {
        lemma_scaled_binade(m as nat, k as int, e as nat, l as nat);
        lemma_rounded(n, d, e as nat);
    }
    let mag: u64 = e as u64 * FRACTION + q as u64;
    if mag > INFINITY {
        INFINITY
    } else {
        mag
    }
}

/// IEEE 754 equality: a NaN equals nothing, and the two zeros are equal.
pub open spec fn same_value(a: u64, b: u64) -> bool {
    &&& !is_nan(a)
    &&& !is_nan(b)
    &&& a == b || (magnitude(a) == 0 && magnitude(b) == 0)
}

/// The place of a pattern in the total order of doubles: negative NaNs,
/// negative numbers, -0, +0, positive numbers, positive NaNs.
pub open spec fn total_rank(bits: u64) -> int {
    if is_negative(bits) {
        -(magnitude(bits) as int) - 1
    } else {
        magnitude(bits) as int
    }
}

/// Patterns at the same place are the same, and places fit a signed integer.
pub proof fn lemma_total_rank_injective(x: u64, y: u64)
    ensures
        total_rank(x) == total_rank(y) ==> x == y,
        i64::MIN <= total_rank(x) <= i64::MAX,
        i64::MIN <= total_rank(y) <= i64::MAX,
{
}

/// The value of a finite double in multiples of 2^-1074.
pub open spec fn signed_units(bits: u64) -> int {
    if is_negative(bits) {
        -(units(magnitude(bits)) as int)
    } else {
        units(magnitude(bits)) as int
    }
}

pub open spec fn abs(x: int) -> nat {
    if x < 0 {
        (-x) as nat
    } else {
        x as nat
    }
}

/// The double nearest to an integer.
pub open spec fn from_int(i: int) -> u64 {
    let mag = rounded(abs(i) * pow2(1074), 1);
    if i < 0 {
        (SIGN + mag) as u64
    } else {
        mag
    }
}

/// A double as a 64-bit integer: rounded toward zero, clamped to the range,
/// and zero for a NaN.
pub open spec fn to_int(bits: u64) -> i64 {
    if is_nan(bits) {
        0
    } else if is_infinite(bits) {
        if is_negative(bits) {
            i64::MIN
        } else {
            i64::MAX
        }
    } else {
        let whole = units(magnitude(bits)) / pow2(1074);
        if is_negative(bits) {
            if whole > 0x8000_0000_0000_0000 {
                i64::MIN
            } else {
                (-(whole as int)) as i64
            }
        } else if whole > 0x7fff_ffff_ffff_ffff {
            i64::MAX
        } else {
            whole as i64
        }
    }
}

/// The magnitude of the rounded difference of two unequal numbers.
pub open spec fn gap(a: u64, b: u64) -> u64 {
    if is_infinite(a) || is_infinite(b) {
        INFINITY
    } else {
        rounded(abs(signed_units(a) - signed_units(b)), 1)
    }
}

/// A pattern of a NaN.
pub const NAN: u64 = 0x7ff8_0000_0000_0000;

/// The rounded product of a double and a non-negative number.
pub open spec fn product(x: u64, mag: u64) -> u64 {
    if is_nan(x) || (is_infinite(x) && mag == 0) || (magnitude(x) == 0 && mag == INFINITY) {
        NAN
    } else {
        let m = if is_infinite(x) || mag == INFINITY {
            INFINITY
        } else {
            rounded(units(magnitude(x)) * units(mag), pow2(1074))
        };
        if is_negative(x) {
            (SIGN + m) as u64
        } else {
            m
        }
    }
}

/// The larger of two doubles; a NaN gives way to the other one.
pub open spec fn larger(x: u64, y: u64) -> u64 {
    if is_nan(x) {
        y
    } else if is_nan(y) || total_rank(x) >= total_rank(y) {
        x
    } else {
        y
    }
}

/// True for a number greater than zero.
pub open spec fn is_positive(x: u64) -> bool {
    0 < x <= INFINITY
}

/// True where the sign bit is set.
pub fn negative(bits: u64) -> (r: bool)
    ensures
        r == is_negative(bits),
{
    bits >= SIGN
}

/// The pattern without its sign bit.
pub fn strip_sign(bits: u64) -> (mag: u64)
    ensures
        mag == magnitude(bits),
        mag < SIGN,
{
    if bits >= SIGN {
        bits - SIGN
    } else {
        bits
    }
}

/// True for a NaN.
pub fn nan(bits: u64) -> (r: bool)
    ensures
        r == is_nan(bits),
{
    strip_sign(bits) > INFINITY
}

/// IEEE 754 equality of two patterns.
pub fn equal(a: u64, b: u64) -> (r: bool)
    ensures
        r == same_value(a, b),
{
    !nan(a) && !nan(b) && (a == b || (strip_sign(a) == 0 && strip_sign(b) == 0))
}

/// The place of a pattern in the total order, as an integer.
pub fn rank(bits: u64) -> (r: i64)
    ensures
        r == total_rank(bits),
{
    let mag = strip_sign(bits);
    if bits >= SIGN {
        -(mag as i64) - 1
    } else {
        mag as i64
    }
}

/// Splits a magnitude into its significand and exponent.
fn split(mag: u64) -> (r: (u64, u32))
    requires
        mag <= INFINITY,
    ensures
        r.0 == significand(mag),
        r.1 == exponent(mag),
        r.0 < 2 * FRACTION,
        r.1 <= 2046,
        r.1 > 0 ==> r.0 >= FRACTION,
        mag >= FRACTION ==> mag == r.1 * FRACTION + r.0,
{
    if mag < FRACTION {
        (mag, 0)
    } else {
        (mag % FRACTION + FRACTION, (mag / FRACTION - 1) as u32)
    }
}

/// The double nearest to an integer.
pub fn int_to_float(i: i64) -> (bits: u64)
    ensures
        bits == from_int(i as int),
        !is_nan(bits),
{
    let m: u128 = if i < 0 { (-(i as i128)) as u128 } else { i as u128 };
    let mag = round_scaled(m, 1074);
    if i < 0 {
        SIGN + mag
    } else {
        mag
    }
}

/// The double nearest to an unsigned integer.
pub fn uint_to_float(u: u64) -> (bits: u64)
    ensures
        bits == from_int(u as int),
        !is_nan(bits),
{
    round_scaled(u as u128, 1074)
}

/// Adding or taking away less than a quarter of the last place of a full
/// significand rounds back to it.
proof fn lemma_absorb(mag: u64, eps: nat)
    requires
        FRACTION <= mag < INFINITY,
        exponent(mag) >= 2,
        4 * eps < pow2(exponent(mag)),
    ensures
        rounded(units(mag) + eps, 1) == mag,
        units(mag) >= eps,
        rounded((units(mag) - eps) as nat, 1) == mag,
{
    let m = significand(mag);
    let k = exponent(mag);
    let p = pow2(k);
    lemma_pow2_126();
    lemma_pow2_pos(k);
    lemma_pow2_adds(53, k);
    lemma_pow2_adds(52, k);
    lemma_pow2_unfold(k);
    assert(mag == k * FRACTION + m);
    let up = units(mag) + eps;
    assert(up < pow2(53) * p && pow2(52) * p <= up && up == m * p + eps) by (nonlinear_arith)
        requires
            up == m * p + eps,
            pow2(52) <= m < pow2(53),
            4 * eps < p,
    ;
    assert(is_binade(up, 1, k));
    lemma_fundamental_div_mod_converse(up as int, p as int, m as int, eps as int);
    assert(nearest(up, 1 * pow2(k)) == m);
    lemma_rounded(up, 1, k);
    assert(m * p >= eps) by (nonlinear_arith)
        requires
            m >= 1,
            4 * eps < p,
    ;
    if eps == 0 {
        assert((units(mag) - eps) as nat == up);
        return;
    }
    let down = (units(mag) - eps) as nat;
    if m > FRACTION {
        assert(down < pow2(53) * p && pow2(52) * p <= down && down == (m - 1) * p + (p - eps)) by (nonlinear_arith)
            requires
                down == m * p - eps,
                pow2(52) + 1 <= m < pow2(53),
                0 < 4 * eps < p,
        ;
        assert(is_binade(down, 1, k));
        lemma_fundamental_div_mod_converse(down as int, p as int, m - 1, p - eps);
        assert(nearest(down, 1 * pow2(k)) == m);
        lemma_rounded(down, 1, k);
    } else {
        let j = (k - 1) as nat;
        let h = pow2(j);
        lemma_pow2_adds(53, j);
        lemma_pow2_adds(52, j);
        let q = 2 * FRACTION - 1;
        assert(down < pow2(53) * h && pow2(52) * h <= down && down == q * h + (h - eps)) by (nonlinear_arith)
            requires
                down == m * p - eps,
                m == FRACTION,
                p == 2 * h,
                q == 2 * FRACTION - 1,
                pow2(52) == FRACTION,
                pow2(53) == 2 * FRACTION,
                0 < 4 * eps < p,
        ;
        assert(is_binade(down, 1, j));
        lemma_fundamental_div_mod_converse(down as int, h as int, q as int, h - eps);
        assert(nearest(down, 1 * pow2(j)) == q + 1);
        lemma_rounded(down, 1, j);
    }
}

/// A pattern whose exponent field is far below another's weighs nothing
/// against it.
proof fn lemma_small_units(hi: u64, lo: u64)
    requires
        hi < INFINITY,
        lo < INFINITY,
        exponent(hi) >= exponent(lo) + 64,
    ensures
        4 * units(lo) < pow2(exponent(hi)),
{
    let k = exponent(lo);
    lemma_pow2_126();
    lemma2_to64();
    lemma_pow2_pos(k);
    lemma_pow2_adds(k, 64);
    lemma_pow2_le(k + 64, exponent(hi));
    assert(4 * (significand(lo) * pow2(k)) < pow2(k) * pow2(64)) by (nonlinear_arith)
        requires
            significand(lo) < 2 * FRACTION,
            FRACTION == 0x10_0000_0000_0000,
            pow2(64) == 0x1_0000_0000_0000_0000,
            pow2(k) > 0,
    ;
}

/// The exact difference of two scaled significands, over the smaller scale.
proof fn lemma_align(mh: nat, ml: nat, d: nat, kl: nat)
    ensures
        (mh * pow2(d) + ml) * pow2(kl) == mh * pow2(d + kl) + ml * pow2(kl),
        (mh * pow2(d) - ml) * pow2(kl) == mh * pow2(d + kl) - ml * pow2(kl),
        (ml - mh * pow2(d)) * pow2(kl) == ml * pow2(kl) - mh * pow2(d + kl),
{
    lemma_pow2_adds(d, kl);
    let a = pow2(d);
    let b = pow2(kl);
    assert((mh * a + ml) * b == mh * (a * b) + ml * b) by (nonlinear_arith);
    assert((mh * a - ml) * b == mh * (a * b) - ml * b) by (nonlinear_arith);
    assert((ml - mh * a) * b == ml * b - mh * (a * b)) by (nonlinear_arith);
}

/// The magnitude of the rounded difference of two numbers of which the first
/// has the larger exponent, or of their sum.
fn gap_ordered(hi: u64, lo: u64, opposed: bool) -> (mag: u64)
    requires
        hi < INFINITY,
        lo < INFINITY,
        exponent(hi) >= exponent(lo),
    ensures
        opposed ==> mag == rounded(units(hi) + units(lo), 1),
        !opposed ==> mag == rounded(abs(units(hi) - units(lo)), 1),
{
    let (mh, kh) = split(hi);
    let (ml, kl) = split(lo);
    let d = kh - kl;
    if d > 64 {
        proof {
            lemma_small_units(hi, lo);
            lemma_absorb(hi, units(lo));
        }
        return hi;
    }
    proof {
        lemma_pow2_126();
        lemma_align(mh as nat, ml as nat, d as nat, kl as nat);
        lemma_pow2_le(d as nat, 64);
        lemma_pow2_pos(kl as nat);
    }
    let p = power(d);
    assert(mh * p <= 0x1_0000_0000_0000_0000 * (2 * FRACTION)) by (nonlinear_arith)
        requires
            mh < 2 * FRACTION,
            p <= 0x1_0000_0000_0000_0000,
    ;
    let m = mh as u128 * p;
    if opposed {
        return round_scaled(m + ml as u128, kl as i32);
    }
    if m >= ml as u128 {
        assert((m - ml) * pow2(kl as nat) >= 0) by (nonlinear_arith)
            requires
                m >= ml,
        ;
        round_scaled(m - ml as u128, kl as i32)
    } else {
        assert((ml - m) * pow2(kl as nat) > 0) by (nonlinear_arith)
            requires
                m < ml,
                pow2(kl as nat) > 0,
        ;
        round_scaled(ml as u128 - m, kl as i32)
    }
}

/// The magnitude of the rounded difference of two unequal numbers.
pub fn difference(a: u64, b: u64) -> (mag: u64)
    requires
        !is_nan(a),
        !is_nan(b),
    ensures
        mag == gap(a, b),
{
    let x = strip_sign(a);
    let y = strip_sign(b);
    if x == INFINITY || y == INFINITY {
        return INFINITY;
    }
    let (_, kx) = split(x);
    let (_, ky) = split(y);
    let opposed = negative(a) != negative(b);
    if kx >= ky {
        gap_ordered(x, y, opposed)
    } else {
        gap_ordered(y, x, opposed)
    }
}

proof fn lemma_pow2_exceeds(n: nat)
    ensures
        n < pow2(n),
    decreases n,
{
    if n == 0 {
        lemma2_to64();
    } else {
        lemma_pow2_exceeds((n - 1) as nat);
        lemma_pow2_unfold(n);
    }
}

proof fn lemma_binade_below(n: nat, d: nat, k: nat)
    requires
        n < d * pow2(53 + k),
    ensures
        exists|j: nat| is_binade(n, d, j),
    decreases k,
{
    if k > 0 && n < d * pow2((52 + k) as nat) {
        lemma_binade_below(n, d, (k - 1) as nat);
    } else {
        assert(is_binade(n, d, k));
    }
}

/// Every quotient has an exponent.
proof fn lemma_binade_exists(n: nat, d: nat)
    requires
        d > 0,
    ensures
        exists|j: nat| is_binade(n, d, j),
{
    lemma_pow2_exceeds(n);
    lemma_pow2_le(n, 53 + n);
    let p = pow2(53 + n);
    assert(n < d * p) by (nonlinear_arith)
        requires
            n < p,
            d > 0,
    ;
    lemma_binade_below(n, d, n);
}

/// A common factor does not change the rounded quotient.
proof fn lemma_rounded_scale(n: nat, d: nat, c: nat)
    requires
        d > 0,
        c > 0,
    ensures
        rounded(n * c, d * c) == rounded(n, d),
{
    lemma_binade_exists(n, d);
    let k = choose|k: nat| is_binade(n, d, k);
    let hi = pow2(53 + k);
    let lo = pow2((52 + k) as nat);
    assert(n * c < (d * c) * hi) by (nonlinear_arith)
        requires
            n < d * hi,
            c > 0,
    ;
    if k > 0 {
        assert((d * c) * lo <= n * c) by (nonlinear_arith)
            requires
                d * lo <= n,
                c > 0,
        ;
    }
    lemma_rounded(n * c, d * c, k);
    let p = pow2(k);
    lemma_pow2_pos(k);
    assert(d * p > 0 && (d * c) * p == (d * p) * c) by (nonlinear_arith)
        requires
            d > 0,
            p > 0,
    ;
    lemma_nearest_scale(n, d * p, c);
}

/// The product of two scaled significands, over one scale.
proof fn lemma_product_scale(m1: nat, k1: nat, m2: nat, k2: nat)
    ensures
        rounded_scaled(m1 * m2, k1 + k2 - 1074) == rounded(
            (m1 * pow2(k1)) * (m2 * pow2(k2)),
            pow2(1074),
        ),
{
    let m = m1 * m2;
    let p1 = pow2(k1);
    let p2 = pow2(k2);
    lemma_pow2_adds(k1, k2);
    lemma_pow2_pos(k1 + k2);
    lemma_pow2_pos(1074);
    assert((m1 * p1) * (m2 * p2) == m * (p1 * p2)) by (nonlinear_arith)
        requires
            m == m1 * m2,
    ;
    let k = k1 + k2 - 1074;
    if k >= 0 {
        lemma_pow2_adds(k as nat, 1074);
        lemma_rounded_scale(m * pow2(k as nat), 1, pow2(1074));
        lemma_mul_is_associative(m as int, pow2(k as nat) as int, pow2(1074) as int);
    } else {
        lemma_pow2_pos((-k) as nat);
        lemma_pow2_adds((-k) as nat, k1 + k2);
        lemma_rounded_scale(m, pow2((-k) as nat), pow2(k1 + k2));
    }
}

/// The rounded product of a double and a non-negative number.
pub fn multiply(x: u64, mag: u64) -> (r: u64)
    requires
        mag <= INFINITY,
    ensures
        r == product(x, mag),
{
    let y = strip_sign(x);
    if y > INFINITY || (y == INFINITY && mag == 0) || (y == 0 && mag == INFINITY) {
        return NAN;
    }
    let m = if y == INFINITY || mag == INFINITY {
        INFINITY
    } else {
        let (m1, k1) = split(y);
        let (m2, k2) = split(mag);
        assert(m1 * m2 < (2 * FRACTION) * (2 * FRACTION)) by (nonlinear_arith)
            requires
                m1 < 2 * FRACTION,
                m2 < 2 * FRACTION,
        ;
        proof {
            lemma_product_scale(m1 as nat, k1 as nat, m2 as nat, k2 as nat);
        }
        round_scaled(m1 as u128 * m2 as u128, k1 as i32 + k2 as i32 - 1074)
    };
    if x >= SIGN {
        SIGN + m
    } else {
        m
    }
}

/// Zero times a finite number is zero.
pub proof fn lemma_zero_product(mag: u64)
    requires
        mag < INFINITY,
    ensures
        product(0, mag) == 0,
{
    lemma_pow2_pos(1074);
    lemma_zero_rounds(pow2(1074));
    assert(significand(0) * pow2(exponent(0)) == 0) by (nonlinear_arith)
        requires
            significand(0) == 0,
    ;
    assert(units(0) * units(mag) == 0) by (nonlinear_arith)
        requires
            units(0) == 0,
    ;
}

/// The larger of two doubles; a NaN gives way to the other one.
pub fn max(x: u64, y: u64) -> (r: u64)
    ensures
        r == larger(x, y),
{
    if nan(x) {
        y
    } else if nan(y) || rank(x) >= rank(y) {
        x
    } else {
        y
    }
}

/// A common factor does not change the whole part of a quotient, and is one of
/// the remainder too.
proof fn lemma_div_scale(n: nat, d: nat, c: nat)
    requires
        d > 0,
        c > 0,
    ensures
        (n * c) / (d * c) == n / d,
        (n * c) % (d * c) == (n % d) * c,
{
    let q = n / d;
    let r = n % d;
    lemma_fundamental_div_mod(n as int, d as int);
    assert(n * c == q * (d * c) + r * c && 0 <= r * c < d * c) by (nonlinear_arith)
        requires
            n == d * q + r,
            0 <= r < d,
            c > 0,
    ;
    lemma_fundamental_div_mod_converse((n * c) as int, (d * c) as int, q as int, (r * c) as int);
}

proof fn lemma_product_is_zero(n: nat, c: nat)
    requires
        c > 0,
    ensures
        n * c == 0 <==> n == 0,
{
    assert(n * c == 0 <==> n == 0) by (nonlinear_arith)
        requires
            c > 0,
    ;
}

/// The whole part of a finite magnitude, or 2^64 where it is larger than that,
/// and whether there is a part behind the point.
fn whole_part(mag: u64) -> (r: (u128, bool))
    requires
        mag < INFINITY,
    ensures
        r.1 == (units(mag) % pow2(1074) != 0),
        ({
            let whole = units(mag) / pow2(1074);
            r.0 == if whole > 0x1_0000_0000_0000_0000 {
                0x1_0000_0000_0000_0000
            } else {
                whole as int
            }
        }),
{
    let (m, k) = split(mag);
    proof {
        lemma_pow2_126();
        lemma_pow2_pos(1074);
        lemma_pow2_pos(k as nat);
    }
    if k < 1074 {
        let s = 1074 - k;
        proof {
            lemma_pow2_adds(s as nat, k as nat);
            lemma_pow2_pos(s as nat);
            lemma_div_scale(m as nat, pow2(s as nat), pow2(k as nat));
        }
        if s > 126 {
            proof {
                lemma_pow2_le(126, s as nat);
                lemma_fundamental_div_mod_converse(m as int, pow2(s as nat) as int, 0, m as int);
                lemma_product_is_zero(m as nat, pow2(k as nat));
            }
            return (0, m != 0);
        }
        let p = power(s);
        proof {
            lemma_product_is_zero((m as nat) % pow2(s as nat), pow2(k as nat));
        }
        assert(m as u128 / p <= m) by (nonlinear_arith)
            requires
                p >= 1,
        ;
        (m as u128 / p, m as u128 % p != 0)
    } else {
        let s = k - 1074;
        proof {
            lemma_pow2_adds(s as nat, 1074);
            lemma_mul_is_associative(m as int, pow2(s as nat) as int, pow2(1074) as int);
            lemma_fundamental_div_mod_converse(
                units(mag) as int,
                pow2(1074) as int,
                (m * pow2(s as nat)) as int,
                0,
            );
        }
        if s > 64 {
            proof {
                lemma_pow2_le(65, s as nat);
                lemma_pow2_unfold(65);
                let p = pow2(s as nat);
                assert(m * p > 0x1_0000_0000_0000_0000) by (nonlinear_arith)
                    requires
                        m >= 1,
                        p >= 0x2_0000_0000_0000_0000,
                ;
            }
            return (0x1_0000_0000_0000_0000, false);
        }
        let p = power(s);
        proof {
            lemma_pow2_le(s as nat, 64);
            assert(m * p <= 0x1_0000_0000_0000_0000 * (2 * FRACTION)) by (nonlinear_arith)
                requires
                    m < 2 * FRACTION,
                    p <= 0x1_0000_0000_0000_0000,
            ;
        }
        let w = m as u128 * p;
        if w > 0x1_0000_0000_0000_0000 {
            (0x1_0000_0000_0000_0000, false)
        } else {
            (w, false)
        }
    }
}

/// A double as a 64-bit integer: rounded toward zero, clamped to the range,
/// and zero for a NaN.
pub fn float_to_int(bits: u64) -> (i: i64)
    ensures
        i == to_int(bits),
{
    let mag = strip_sign(bits);
    if mag > INFINITY {
        return 0;
    }
    if mag == INFINITY {
        return if bits >= SIGN { i64::MIN } else { i64::MAX };
    }
    let (w, _) = whole_part(mag);
    if bits >= SIGN {
        if w > 0x8000_0000_0000_0000 {
            i64::MIN
        } else {
            (-(w as i128)) as i64
        }
    } else if w > 0x7fff_ffff_ffff_ffff {
        i64::MAX
    } else {
        w as i64
    }
}

/// The order of an integer and a double by their exact values. An infinity or a
/// NaN is beyond all integers on the side of its sign, and -0 comes before 0.
pub open spec fn int_float_order(i: int, bits: u64) -> int {
    if magnitude(bits) >= INFINITY || (i == 0 && bits == SIGN) {
        if is_negative(bits) {
            1
        } else {
            -1
        }
    } else {
        int_order(i * pow2(1074), signed_units(bits))
    }
}

/// Only zero has no units.
proof fn lemma_zero_units(mag: u64)
    requires
        mag <= INFINITY,
    ensures
        units(mag) == 0 <==> mag == 0,
{
    lemma_pow2_pos(exponent(mag));
    lemma_product_is_zero(significand(mag), pow2(exponent(mag)));
}

/// A larger magnitude stands for more units.
proof fn lemma_units_increase(a: u64, b: u64)
    requires
        a < b,
    ensures
        units(a) < units(b),
{
    let (j, k) = (exponent(a), exponent(b));
    let (x, y) = (pow2(j), pow2(k));
    let (m, n) = (significand(a), significand(b));
    lemma_pow2_pos(j);
    if j == k {
        assert(m * x < n * x) by (nonlinear_arith)
            requires
                m < n,
                x > 0,
        ;
    } else {
        lemma_pow2_unfold((j + 1) as nat);
        lemma_pow2_le(j + 1, k);
        assert(m * x < n * y) by (nonlinear_arith)
            requires
                m < 2 * FRACTION,
                n >= FRACTION,
                y >= 2 * x,
                x > 0,
        ;
    }
}

/// The total order of finite doubles is that of their values, but that -0 comes
/// before 0.
pub proof fn lemma_rank_follows_units(x: u64, y: u64)
    requires
        magnitude(x) < INFINITY,
        magnitude(y) < INFINITY,
        total_rank(x) < total_rank(y),
    ensures
        signed_units(x) < signed_units(y) || (x == SIGN && y == 0),
        x == SIGN && y == 0 ==> signed_units(x) == 0 && signed_units(y) == 0,
{
    let (a, b) = (magnitude(x), magnitude(y));
    lemma_zero_units(a);
    lemma_zero_units(b);
    if a < b {
        lemma_units_increase(a, b);
    }
    if b < a {
        lemma_units_increase(b, a);
    }
}

/// Scaling keeps the order of integers.
proof fn lemma_scaled_order(i: int, j: int)
    ensures
        int_order(i * pow2(1074), j * pow2(1074)) == int_order(i, j),
{
    let p = pow2(1074);
    lemma_pow2_pos(1074);
    assert((i < j ==> i * p < j * p) && (j < i ==> j * p < i * p)) by (nonlinear_arith)
        requires
            p > 0,
    ;
}

/// The order of integers and doubles among each other is transitive, whichever
/// of them are integers.
pub proof fn lemma_int_float_transitive(i: int, j: int, x: u64, y: u64)
    ensures
        i < j && int_float_order(j, x) <= 0 ==> int_float_order(i, x) < 0,
        i > j && int_float_order(j, x) >= 0 ==> int_float_order(i, x) > 0,
        int_float_order(i, x) <= 0 && int_float_order(j, x) >= 0 ==> i <= j,
        int_float_order(i, x) < 0 && int_float_order(j, x) >= 0 ==> i < j,
        int_float_order(i, x) <= 0 && int_float_order(j, x) > 0 ==> i < j,
        total_rank(x) < total_rank(y) && int_float_order(i, x) <= 0 ==> int_float_order(i, y) < 0,
        total_rank(x) < total_rank(y) && int_float_order(i, y) >= 0 ==> int_float_order(i, x) > 0,
        int_float_order(i, x) >= 0 && int_float_order(i, y) <= 0 ==> total_rank(x) <= total_rank(y),
        int_float_order(i, x) > 0 && int_float_order(i, y) <= 0 ==> total_rank(x) < total_rank(y),
        int_float_order(i, x) >= 0 && int_float_order(i, y) < 0 ==> total_rank(x) < total_rank(y),
{
    lemma_scaled_order(i, j);
    lemma_scaled_order(i, 0);
    lemma_scaled_order(j, 0);
    lemma_zero_units(0);
    if magnitude(x) < INFINITY {
        lemma_zero_units(magnitude(x));
    }
    if magnitude(y) < INFINITY {
        lemma_zero_units(magnitude(y));
    }
    if magnitude(x) < INFINITY && magnitude(y) < INFINITY {
        if total_rank(x) < total_rank(y) {
            lemma_rank_follows_units(x, y);
        }
        if total_rank(y) < total_rank(x) {
            lemma_rank_follows_units(y, x);
        }
    }
}

/// Compares an integer with a double by their exact values.
pub fn compare_with_int(i: i64, bits: u64) -> (r: i8)
    ensures
        r == int_float_order(i as int, bits),
{
    let mag = strip_sign(bits);
    let below = bits >= SIGN;
    if mag >= INFINITY || (i == 0 && bits == SIGN) {
        return if below { 1 } else { -1 };
    }
    proof {
        lemma_scaled_order(i as int, 0);
        lemma_zero_units(mag);
    }
    if below && i >= 0 {
        return 1;
    }
    if !below && i < 0 {
        return -1;
    }
    let a: u128 = if i < 0 { (-(i as i128)) as u128 } else { i as u128 };
    let (w, part) = whole_part(mag);
    let more: bool = a < w || (a == w && part);
    proof {
        let p = pow2(1074);
        let u = units(mag);
        lemma_pow2_pos(1074);
        lemma_fundamental_div_mod(u as int, p as int);
        let whole = (u / p) as int;
        let rest = (u % p) as int;
        assert(a < whole ==> a * p < u) by (nonlinear_arith)
            requires
                u == p * whole + rest,
                0 <= rest < p,
        ;
        assert(a > whole ==> a * p > u) by (nonlinear_arith)
            requires
                u == p * whole + rest,
                0 <= rest < p,
        ;
        assert(a == whole ==> u == a * p + rest) by (nonlinear_arith)
            requires
                u == p * whole + rest,
        ;
        assert(i < 0 ==> i * p == -(a * p)) by (nonlinear_arith)
            requires
                i < 0 ==> i == -a,
        ;
    }
    if a == w && !part {
        0
    } else if more == below {
        1
    } else {
        -1
    }
}

/// The double nearest to the fraction `p / q`.
pub open spec fn fraction(p: nat, q: nat) -> u64 {
    rounded(p * pow2(1074), q)
}

/// What is at most `m` rounds to at most `m`.
proof fn lemma_nearest_bounded(n: nat, d: nat, m: nat)
    requires
        d > 0,
        n <= d * m,
    ensures
        nearest(n, d) <= m,
{
    let q = (n / d) as int;
    let r = (n % d) as int;
    lemma_fundamental_div_mod(n as int, d as int);
    assert(q < m || (q == m && r == 0)) by (nonlinear_arith)
        requires
            n == d * q + r,
            0 <= r < d,
            n <= d * m,
    ;
}

/// A larger quotient has no smaller nearest integer.
proof fn lemma_nearest_increases(n: nat, m: nat, d: nat)
    requires
        d > 0,
        n <= m,
    ensures
        nearest(n, d) <= nearest(m, d),
{
    let (q, r) = ((n / d) as int, (n % d) as int);
    let (u, v) = ((m / d) as int, (m % d) as int);
    lemma_fundamental_div_mod(n as int, d as int);
    lemma_fundamental_div_mod(m as int, d as int);
    assert(q < u || (q == u && r <= v)) by (nonlinear_arith)
        requires
            n == d * q + r,
            m == d * u + v,
            0 <= r < d,
            0 <= v < d,
            n <= m,
    ;
}

/// Rounding keeps the order of quotients.
pub proof fn law_rounding_keeps_order(n: nat, m: nat, d: nat)
    requires
        d > 0,
        n <= m,
    ensures
        rounded(n, d) <= rounded(m, d),
{
    lemma_binade_exists(n, d);
    lemma_binade_exists(m, d);
    let j = choose|j: nat| is_binade(n, d, j);
    let k = choose|k: nat| is_binade(m, d, k);
    lemma_rounded(n, d, j);
    lemma_rounded(m, d, k);
    lemma_pow2_126();
    let (x, y) = (pow2(j), pow2(k));
    lemma_pow2_pos(j);
    lemma_pow2_pos(k);
    lemma_pow2_adds(53, j);
    lemma_pow2_adds(52, k);
    assert(d * x > 0 && d * y > 0) by (nonlinear_arith)
        requires
            d > 0,
            x > 0,
            y > 0,
    ;
    if j == k {
        lemma_nearest_increases(n, m, d * x);
    } else if k < j {
        lemma_pow2_le(53 + k, (52 + j) as nat);
        lemma_mul_inequality(pow2(53 + k) as int, pow2((52 + j) as nat) as int, d as int);
        lemma_mul_is_commutative(d as int, pow2(53 + k) as int);
        lemma_mul_is_commutative(d as int, pow2((52 + j) as nat) as int);
    } else {
        assert(n <= (d * x) * pow2(53)) by (nonlinear_arith)
            requires
                n < d * (pow2(53) * x),
        ;
        lemma_nearest_bounded(n, d * x, pow2(53));
        assert((pow2(52) * (d * y)) <= m) by (nonlinear_arith)
            requires
                d * (pow2(52) * y) <= m,
        ;
        lemma_nearest_increases(pow2(52) * (d * y), m, d * y);
        lemma_nearest_exact(pow2(52), d * y);
        assert(j * FRACTION + FRACTION <= k * FRACTION) by (nonlinear_arith)
            requires
                j < k,
        ;
    }
}

/// A larger factor gives no smaller product.
pub proof fn lemma_product_increases(x: u64, y: u64, mag: u64)
    requires
        x <= y <= INFINITY,
        mag <= INFINITY,
        is_positive(product(x, mag)),
    ensures
        is_positive(product(y, mag)),
        product(x, mag) <= product(y, mag),
{
    lemma_zero_units(0);
    lemma_pow2_pos(1074);
    let w = units(mag);
    if mag == 0 || x == 0 {
        if x < INFINITY && mag < INFINITY {
            assert(units(x) * w == 0) by (nonlinear_arith)
                requires
                    units(x) == 0 || w == 0,
            ;
            lemma_zero_rounds(pow2(1074));
        }
    } else if x < INFINITY && mag < INFINITY {
        if x < y {
            lemma_units_increase(x, y);
        }
        assert(units(x) * w <= units(y) * w) by (nonlinear_arith)
            requires
                units(x) <= units(y),
        ;
        law_rounding_keeps_order(units(x) * w, units(y) * w, pow2(1074));
        lemma_binade_exists(units(x) * w, pow2(1074));
        lemma_binade_exists(units(y) * w, pow2(1074));
    }
}

/// A part is at most the whole: a fraction that is at most 1 rounds to at most
/// 1.
pub proof fn law_part_is_at_most_whole(p: nat, q: nat)
    requires
        p <= q,
        q > 0,
    ensures
        fraction(p, q) <= ONE,
{
    let n = p * pow2(1074);
    lemma_binade_exists(n, q);
    let k = choose|k: nat| is_binade(n, q, k);
    lemma_rounded(n, q, k);
    lemma2_to64();
    lemma_pow2_126();
    lemma_pow2_adds(52, 1);
    let whole = pow2(1074);
    assert(n <= q * whole) by (nonlinear_arith)
        requires
            n == p * whole,
            p <= q,
    ;
    if k > 1022 {
        let least = pow2((52 + k) as nat);
        lemma_pow2_strictly_increases(1074, (52 + k) as nat);
        assert(n < q * least) by (nonlinear_arith)
            requires
                n <= q * whole,
                whole < least,
                q > 0,
        ;
    }
    let c = pow2(k);
    lemma_pow2_pos(k);
    assert(q * c > 0) by (nonlinear_arith)
        requires
            q > 0,
            c > 0,
    ;
    let m: nat = if k == 1022 { 52 } else { 53 };
    lemma_pow2_adds(m, k);
    assert(n <= (q * c) * pow2(m)) by (nonlinear_arith)
        requires
            n <= q * (pow2(m) * c),
    ;
    lemma_nearest_bounded(n, q * c, pow2(m));
    assert(pow2(m) == (if k == 1022 { FRACTION as int } else { 2 * FRACTION }));
    assert(k * FRACTION <= 1022 * FRACTION && (k < 1022 ==> k * FRACTION <= 1021 * FRACTION)) by (nonlinear_arith)
        requires
            k <= 1022,
    ;
}

/// The double nearest to the fraction `p / q` of two counts.
pub fn ratio(p: u64, q: u64) -> (bits: u64)
    requires
        p <= q,
        q > 0,
    ensures
        bits == fraction(p as nat, q as nat),
        bits <= ONE,
{
    if p == 0 {
        proof {
            lemma_zero_rounds(q as nat);
        }
        return 0;
    }
    let mut n: u128 = p as u128;
    let mut t: u32 = 0;
    assert(q * FRACTION <= 0xffff_ffff_ffff_ffff * FRACTION) by (nonlinear_arith)
        requires
            q <= 0xffff_ffff_ffff_ffff,
    ;
    let floor: u128 = q as u128 * FRACTION as u128;
    proof {
        lemma2_to64();
        lemma_pow2_126();
        lemma_pow2_adds(52, 64);
        lemma_pow2_pos(1074);
    }
    while n < floor
        invariant
            0 < p <= q,
            floor == q * FRACTION,
            n == p * pow2(t as nat),
            0 < n < 2 * floor,
            t <= 117,
            pow2(116) == FRACTION * 0x1_0000_0000_0000_0000,
        decreases 2 * floor - n,
    {
        proof {
            lemma_pow2_unfold((t + 1) as nat);
            if t >= 116 {
                lemma_pow2_le(116, t as nat);
                assert(n >= FRACTION * 0x1_0000_0000_0000_0000) by (nonlinear_arith)
                    requires
                        n == p * pow2(t as nat),
                        p >= 1,
                        pow2(t as nat) >= FRACTION * 0x1_0000_0000_0000_0000,
                ;
            }
            assert(p * (2 * pow2(t as nat)) == 2 * (p * pow2(t as nat))) by (nonlinear_arith);
        }
        n = n * 2;
        t = t + 1;
    }
    let d = q as u128;
    let quot = n / d;
    let rem = n % d;
    let m: u128 = if 2 * rem < d || (2 * rem == d && quot % 2 == 0) { quot } else { quot + 1 };
    let k: u32 = 1074 - t;
    proof {
        let c = pow2(k as nat);
        lemma_fundamental_div_mod(n as int, d as int);
        lemma_pow2_pos(k as nat);
        lemma_pow2_adds(t as nat, k as nat);
        lemma_mul_is_associative(p as int, pow2(t as nat) as int, c as int);
        lemma_pow2_adds(53, k as nat);
        lemma_pow2_adds(52, k as nat);
        assert(n * c < q * (pow2(53) * c) && q * (pow2(52) * c) <= n * c) by (nonlinear_arith)
            requires
                q * FRACTION <= n < 2 * (q * FRACTION),
                pow2(52) == FRACTION,
                pow2(53) == 2 * FRACTION,
                c > 0,
        ;
        lemma_rounded(p as nat * pow2(1074), q as nat, k as nat);
        lemma_nearest_scale(n as nat, q as nat, c);
        assert(quot <= 2 * FRACTION - 1) by (nonlinear_arith)
            requires
                n == d * quot + rem,
                0 <= rem,
                n < 2 * (q * FRACTION),
                d == q,
                q > 0,
        ;
        if t < 52 {
            lemma_pow2_strictly_increases(t as nat, 52);
            assert(n < floor) by (nonlinear_arith)
                requires
                    n == p * pow2(t as nat),
                    p <= q,
                    q > 0,
                    pow2(t as nat) < FRACTION,
                    floor == q * FRACTION,
            ;
        }
        if t == 52 {
            assert(n <= floor) by (nonlinear_arith)
                requires
                    n == p * pow2(52),
                    p <= q,
                    pow2(52) == FRACTION,
                    floor == q * FRACTION,
            ;
            lemma_fundamental_div_mod_converse(n as int, d as int, FRACTION as int, 0);
        }
    }
    k as u64 * FRACTION + m as u64
}

/// The pattern of 1.
pub const ONE: u64 = 0x3ff0_0000_0000_0000;

/// The pattern of 100.
pub const HUNDRED: u64 = 0x4059_0000_0000_0000;

/// A fraction as a whole number of percent: the rounded product with 100,
/// itself rounded to the nearest integer, ties to even.
pub open spec fn whole_percent(mag: u64) -> nat {
    nearest(units(product(mag, HUNDRED)), pow2(1074))
}

/// A double that is no larger than 2^7 has a small exponent.
proof fn lemma_small_product(mag: u64)
    requires
        mag <= ONE,
    ensures
        product(mag, HUNDRED) < 1040 * FRACTION,
{
    let n = units(mag) * units(HUNDRED);
    let d = pow2(1074);
    lemma_pow2_pos(1074);
    lemma_binade_exists(n, d);
    let k = choose|k: nat| is_binade(n, d, k);
    lemma_pow2_126();
    let s = significand(mag);
    let e = exponent(mag);
    assert(e <= 1022);
    let h = significand(HUNDRED);
    assert(exponent(HUNDRED) == 1028);
    lemma_pow2_le(e, 1022);
    lemma_pow2_pos(1022);
    lemma_pow2_pos(e);
    lemma_pow2_pos(1028);
    let a = pow2(e);
    let b = pow2(1022);
    let c = pow2(1028);
    assert((s * a) * (h * c) <= (pow2(53) * b) * (pow2(53) * c)) by (nonlinear_arith)
        requires
            s <= pow2(53),
            h <= pow2(53),
            a <= b,
            a > 0,
            c > 0,
    ;
    lemma_pow2_adds(53, 1022);
    lemma_pow2_adds(53, 1028);
    lemma_pow2_adds(1075, 1081);
    if k >= 1036 {
        lemma_pow2_adds(1074, (52 + k) as nat);
        lemma_pow2_le(1074 + 52 + 1036, 1074 + 52 + k);
        lemma_pow2_strictly_increases(2156, 1074 + 52 + 1036);
        assert(false);
    }
    lemma_rounded(n, d, k);
    let p = d * pow2(k);
    lemma_pow2_adds(1074, k);
    lemma_pow2_adds(1074 + k, 53);
    lemma_pow2_adds(1074, 53 + k);
    lemma_pow2_pos(1074 + k);
    lemma_fundamental_div_mod(n as int, p as int);
    let q = n / p;
    assert(q < pow2(53)) by (nonlinear_arith)
        requires
            n < p * pow2(53),
            n == p * q + n % p,
            0 <= n % p,
            p > 0,
    ;
}

/// A fraction of at most one as a whole number of percent.
pub fn percent(mag: u64) -> (r: u128)
    requires
        mag <= ONE,
    ensures
        r == whole_percent(mag),
{
    let x = multiply(mag, HUNDRED);
    proof {
        lemma_small_product(mag);
    }
    let (m, k) = split(x);
    proof {
        let s = (1074 - k) as nat;
        lemma_pow2_126();
        lemma_pow2_pos(s);
        lemma_pow2_pos(k as nat);
        lemma_pow2_adds(s, k as nat);
        lemma_nearest_scale(m as nat, pow2(s), pow2(k as nat));
    }
    nearest_shift(m as u128, 1074 - k)
}

/// The sign bit of a 32-bit pattern.
pub const SIGN_SINGLE: u32 = 0x8000_0000;

/// The pattern of positive infinity in 32 bits.
pub const INFINITY_SINGLE: u32 = 0x7f80_0000;

/// One more than the largest fraction field in 32 bits.
pub const FRACTION_SINGLE: u32 = 0x80_0000;

/// The double that a 32-bit pattern widens to. A NaN stays one, quiet, with
/// the bits of its fraction moved up.
pub open spec fn widened(bits: u32) -> u64 {
    let mag = if bits >= SIGN_SINGLE {
        bits - SIGN_SINGLE
    } else {
        bits as int
    };
    let wide: int = if mag > INFINITY_SINGLE {
        let fraction = (mag - INFINITY_SINGLE) * 0x2000_0000;
        INFINITY + (if fraction < FRACTION / 2 {
            fraction + FRACTION / 2
        } else {
            fraction
        })
    } else if mag == INFINITY_SINGLE {
        INFINITY as int
    } else if mag < FRACTION_SINGLE {
        rounded((mag * pow2(925)) as nat, 1) as int
    } else {
        rounded(
            ((mag % (FRACTION_SINGLE as int) + FRACTION_SINGLE) * pow2(
                (mag / (FRACTION_SINGLE as int) + 924) as nat,
            )) as nat,
            1,
        ) as int
    };
    if bits >= SIGN_SINGLE {
        (SIGN + wide) as u64
    } else {
        wide as u64
    }
}

/// Widens a 32-bit pattern to a double.
pub fn widen(bits: u32) -> (r: u64)
    ensures
        r == widened(bits),
{
    let mag: u32 = if bits >= SIGN_SINGLE { bits - SIGN_SINGLE } else { bits };
    let wide: u64 = if mag > INFINITY_SINGLE {
        let fraction: u64 = (mag - INFINITY_SINGLE) as u64 * 0x2000_0000;
        if fraction < FRACTION / 2 {
            INFINITY + fraction + FRACTION / 2
        } else {
            INFINITY + fraction
        }
    } else if mag == INFINITY_SINGLE {
        INFINITY
    } else if mag < FRACTION_SINGLE {
        round_scaled(mag as u128, 925)
    } else {
        let m = mag % FRACTION_SINGLE + FRACTION_SINGLE;
        let k = mag / FRACTION_SINGLE + 924;
        round_scaled(m as u128, k as i32)
    };
    if bits >= SIGN_SINGLE {
        SIGN + wide
    } else {
        wide
    }
}

/// The place of a single in the total order of singles.
pub open spec fn single_total_rank(bits: u32) -> int {
    if bits >= SIGN_SINGLE {
        SIGN_SINGLE - bits - 1
    } else {
        bits as int
    }
}

/// The place of a 32-bit pattern in the total order of singles.
pub fn single_rank(bits: u32) -> (r: i64)
    ensures
        r == single_total_rank(bits),
{
    if bits >= SIGN_SINGLE {
        SIGN_SINGLE as i64 - bits as i64 - 1
    } else {
        bits as i64
    }
}

/// A number of at most 53 bits is a double exactly, scaled by a power of two.
proof fn lemma_scaled_exact(m: nat, e: nat)
    requires
        m <= 0x20_0000_0000_0000,
        53 < e < 2000,
    ensures
        rounded(m * pow2(e), 1) < INFINITY,
        units(rounded(m * pow2(e), 1)) == m * pow2(e),
{
    let n = m * pow2(e);
    lemma_pow2_pos(e);
    if m == 0 {
        assert(n == 0) by (nonlinear_arith)
            requires
                m == 0,
                n == m * pow2(e),
        ;
        lemma_zero_rounds(1);
        assert(units(0) == 0) by (nonlinear_arith)
            requires
                units(0) == 0 * pow2(exponent(0)),
        ;
    } else {
        lemma_binade_exists(n, 1);
        let k = choose|k: nat| is_binade(n, 1, k);
        lemma_pow2_126();
        lemma_pow2_adds(53, e);
        assert(n <= pow2(53 + e)) by (nonlinear_arith)
            requires
                n == m * pow2(e),
                m <= pow2(53),
                pow2(53 + e) == pow2(53) * pow2(e),
        ;
        assert(n >= pow2(e)) by (nonlinear_arith)
            requires
                n == m * pow2(e),
                m >= 1,
                pow2(e) > 0,
        ;
        if k > e + 1 {
            lemma_pow2_strictly_increases(53 + e, (52 + k) as nat);
        }
        if k == 0 {
            lemma_pow2_strictly_increases(53, e);
        }
        lemma_pow2_pos(k);
        let q = if k <= e {
            lemma_pow2_adds((e - k) as nat, k);
            lemma_mul_is_associative(m as int, pow2((e - k) as nat) as int, pow2(k) as int);
            m * pow2((e - k) as nat)
        } else {
            lemma_pow2_adds(52, e + 1);
            pow2(52)
        };
        assert(n == q * pow2(k));
        lemma_nearest_exact(q, pow2(k));
        lemma_rounded(n, 1, k);
        lemma_pow2_adds(52, k);
        lemma_pow2_adds(53, k);
        assert(pow2(52) <= q < pow2(53)) by (nonlinear_arith)
            requires
                n == q * pow2(k),
                pow2(52) * pow2(k) <= n,
                n < pow2(53) * pow2(k),
                pow2(k) > 0,
        ;
        let mag = rounded(n, 1);
        assert(1 * pow2(k) == pow2(k));
        assert(k * FRACTION + q <= (e + 2) * FRACTION) by (nonlinear_arith)
            requires
                k <= e + 1,
                q <= 2 * FRACTION,
                k == e + 1 ==> q <= FRACTION,
        ;
        assert(mag == k * FRACTION + q);
        lemma_fundamental_div_mod_converse(
            mag as int,
            FRACTION as int,
            k as int + 1,
            q - FRACTION,
        );
    }
}

/// A whole number of at most 53 bits is a double exactly.
proof fn lemma_whole_exact(m: nat)
    requires
        m <= 0x20_0000_0000_0000,
    ensures
        rounded(m * pow2(1074), 1) < INFINITY,
        units(rounded(m * pow2(1074), 1)) == m * pow2(1074),
{
    lemma_scaled_exact(m, 1074);
}

/// Integers of at most 53 bits survive the way to a double and back.
pub proof fn law_small_integers_are_exact(i: int)
    requires
        -0x20_0000_0000_0000 <= i <= 0x20_0000_0000_0000,
    ensures
        to_int(from_int(i)) == i,
{
    let m = abs(i);
    lemma_whole_exact(m);
    lemma_pow2_pos(1074);
    lemma_fundamental_div_mod_converse(
        (m * pow2(1074)) as int,
        pow2(1074) as int,
        m as int,
        0,
    );
}

/// A finite double is its own nearest double.
pub proof fn law_doubles_round_to_themselves(mag: u64)
    requires
        mag < INFINITY,
    ensures
        rounded(units(mag), 1) == mag,
{
    let (m, k) = (significand(mag), exponent(mag));
    let c = pow2(k);
    lemma_pow2_126();
    lemma_pow2_pos(k);
    lemma_pow2_adds(53, k);
    lemma_pow2_adds(52, k);
    assert(m * c < 1 * (pow2(53) * c)) by (nonlinear_arith)
        requires
            m < pow2(53),
            c > 0,
    ;
    if k > 0 {
        assert(1 * (pow2(52) * c) <= m * c) by (nonlinear_arith)
            requires
                pow2(52) <= m,
                c > 0,
        ;
    }
    lemma_rounded(units(mag), 1, k);
    lemma_nearest_exact(m, c);
    assert(1 * c == c);
    lemma_fundamental_div_mod(mag as int, FRACTION as int);
    assert((k + 1) * FRACTION == k * FRACTION + FRACTION) by (nonlinear_arith);
    assert(mag >= FRACTION ==> FRACTION * (k + 1) == (k + 1) * FRACTION) by (nonlinear_arith);
}

/// An integer of at most 53 bits is the double of that value.
pub proof fn law_small_integers_keep_their_value(i: int)
    requires
        -0x20_0000_0000_0000 <= i <= 0x20_0000_0000_0000,
    ensures
        magnitude(from_int(i)) < INFINITY,
        signed_units(from_int(i)) == i * pow2(1074),
{
    lemma_whole_exact(abs(i));
    let p = pow2(1074) as int;
    assert(i < 0 ==> -((-i) * p) == i * p) by (nonlinear_arith);
}

/// A finite single widens to the double of its sign and value. Its exponent and
/// fraction are taken as they stand in its bits.
pub proof fn law_widening_keeps_the_value(bits: u32, negative: bool, e: nat, m: nat)
    requires
        e < 255,
        m < 0x80_0000,
        bits == (if negative {
            0x8000_0000int
        } else {
            0
        }) + e * 0x80_0000 + m,
    ensures
        magnitude(widened(bits)) < INFINITY,
        is_negative(widened(bits)) == negative,
        units(magnitude(widened(bits))) == if e == 0 {
            m * pow2(925)
        } else {
            (0x80_0000 + m) * pow2(924 + e)
        },
{
    let mag = e * 0x80_0000 + m;
    lemma_fundamental_div_mod_converse(mag as int, 0x80_0000, e as int, m as int);
    if e == 0 {
        lemma_scaled_exact(m, 925);
    } else {
        lemma_scaled_exact(0x80_0000 + m, 924 + e);
    }
}

/// Numbers that are apart by no more than a double have a gap of no more than
/// it.
pub proof fn lemma_gap_within(a: u64, b: u64, most: u64)
    requires
        magnitude(a) < INFINITY,
        magnitude(b) < INFINITY,
        most < INFINITY,
        abs(signed_units(a) - signed_units(b)) <= units(most),
    ensures
        gap(a, b) <= most,
{
    law_rounding_keeps_order(abs(signed_units(a) - signed_units(b)), units(most), 1);
    law_doubles_round_to_themselves(most);
}

/// Numbers that are apart by a double or more have a gap of that double or more.
pub proof fn lemma_gap_beyond(a: u64, b: u64, least: u64)
    requires
        magnitude(a) < INFINITY,
        magnitude(b) < INFINITY,
        least < INFINITY,
        units(least) <= abs(signed_units(a) - signed_units(b)),
    ensures
        least <= gap(a, b),
{
    law_rounding_keeps_order(units(least), abs(signed_units(a) - signed_units(b)), 1);
    law_doubles_round_to_themselves(least);
}

/// A product that is no more than a double rounds to no more than it, and one
/// that is at least as much to no less.
pub proof fn lemma_product_bounds(x: u64, mag: u64, bound: u64)
    requires
        x < INFINITY,
        mag < INFINITY,
        bound < INFINITY,
    ensures
        units(x) * units(mag) <= units(bound) * pow2(1074) ==> product(x, mag) <= bound,
        units(x) * units(mag) >= units(bound) * pow2(1074) ==> product(x, mag) >= bound,
{
    let d = pow2(1074);
    lemma_pow2_pos(1074);
    lemma_rounded_scale(units(bound), 1, d);
    assert(1 * d == d);
    law_doubles_round_to_themselves(bound);
    if units(x) * units(mag) <= units(bound) * d {
        law_rounding_keeps_order(units(x) * units(mag), units(bound) * d, d);
    }
    if units(x) * units(mag) >= units(bound) * d {
        law_rounding_keeps_order(units(bound) * d, units(x) * units(mag), d);
    }
}

/// Unequal numbers that are apart by no more than a product have a gap of no
/// more than the rounded product.
pub proof fn lemma_gap_within_product(a: u64, b: u64, x: u64, mag: u64)
    requires
        magnitude(a) < INFINITY,
        magnitude(b) < INFINITY,
        x < INFINITY,
        mag < INFINITY,
        0 < abs(signed_units(a) - signed_units(b)),
        abs(signed_units(a) - signed_units(b)) * pow2(1074) <= units(x) * units(mag),
    ensures
        0 < gap(a, b) <= product(x, mag) <= INFINITY,
{
    let d = pow2(1074);
    let apart = abs(signed_units(a) - signed_units(b));
    lemma_pow2_pos(1074);
    lemma_rounded_scale(apart, 1, d);
    assert(1 * d == d);
    law_rounding_keeps_order(apart * d, units(x) * units(mag), d);
    lemma2_to64();
    assert(units(1) == 1) by (nonlinear_arith)
        requires
            units(1) == significand(1) * pow2(exponent(1)),
            significand(1) == 1,
            pow2(exponent(1)) == 1,
    ;
    law_doubles_round_to_themselves(1);
    law_rounding_keeps_order(1, apart, 1);
}

/// A fraction is at least a double where the exact one is, and at most a double
/// where the exact one is.
pub proof fn lemma_fraction_bounds(p: nat, q: nat, bound: u64)
    requires
        q > 0,
        bound < INFINITY,
    ensures
        units(bound) * q <= p * pow2(1074) ==> bound <= fraction(p, q),
        p * pow2(1074) <= units(bound) * q ==> fraction(p, q) <= bound,
{
    lemma_rounded_scale(units(bound), 1, q);
    assert(1 * q == q);
    law_doubles_round_to_themselves(bound);
    if units(bound) * q <= p * pow2(1074) {
        law_rounding_keeps_order(units(bound) * q, p * pow2(1074), q);
    }
    if p * pow2(1074) <= units(bound) * q {
        law_rounding_keeps_order(p * pow2(1074), units(bound) * q, q);
    }
}

/// The units of a double between a half and one, and of one.
pub proof fn lemma_units_below_one(bound: u64)
    requires
        0x3fe0_0000_0000_0000 <= bound < 0x3ff0_0000_0000_0000,
    ensures
        units(bound) == (bound - 0x3fd0_0000_0000_0000) * pow2(1021),
        pow2(1074) == 0x20_0000_0000_0000 * pow2(1021),
        units(ONE) == pow2(1074),
{
    lemma_pow2_126();
    lemma_pow2_adds(53, 1021);
    lemma_pow2_adds(52, 1022);
    lemma_fundamental_div_mod_converse(
        bound as int,
        FRACTION as int,
        0x3fe,
        bound - 0x3fe0_0000_0000_0000,
    );
}

/// Of at most a million, a share of at least a given number of twentieths is
/// one that is no less than the double nearest to it.
proof fn lemma_share_reaches(p: nat, q: nat, twentieths: nat, bound: u64)
    requires
        0 < q <= 1_000_000,
        0x3fe0_0000_0000_0000 < bound < 0x3ff0_0000_0000_0000,
        20 * (bound - 0x3fd0_0000_0000_0000) <= twentieths * 0x20_0000_0000_0000 <= 20 * (bound
            - 0x3fd0_0000_0000_0000) + 20,
    ensures
        fraction(p, q) >= bound <==> 20 * p >= twentieths * q,
{
    let c = pow2(1021);
    let m = (bound - 0x3fd0_0000_0000_0000) as nat;
    let whole: nat = 0x20_0000_0000_0000;
    let below = (bound - 1) as u64;
    lemma_pow2_pos(1021);
    lemma_units_below_one(bound);
    lemma_units_below_one(below);
    lemma_fraction_bounds(p, q, bound);
    lemma_fraction_bounds(p, q, below);
    if 20 * p >= twentieths * q {
        assert(m * q <= p * whole) by (nonlinear_arith)
            requires
                20 * p >= twentieths * q,
                20 * m <= twentieths * whole,
        ;
        assert((m * c) * q <= p * (whole * c)) by (nonlinear_arith)
            requires
                m * q <= p * whole,
        ;
    } else {
        assert(p * whole <= (m - 1) * q) by (nonlinear_arith)
            requires
                20 * p <= twentieths * q - 1,
                twentieths * whole <= 20 * m + 20,
                whole == 0x20_0000_0000_0000,
                0 < q <= 1_000_000,
        ;
        assert(p * (whole * c) <= ((m - 1) * c) * q) by (nonlinear_arith)
            requires
                p * whole <= (m - 1) * q,
        ;
    }
}

/// Of at most a million, a share that is at least 0.95 is nineteen twentieths or
/// more, and one that is at least 0.85 is seventeen twentieths or more.
pub proof fn law_shares_are_judged_exactly(p: nat, q: nat)
    requires
        0 < q <= 1_000_000,
    ensures
        fraction(p, q) >= 0x3fee_6666_6666_6666 <==> 20 * p >= 19 * q,
        fraction(p, q) >= 0x3feb_3333_3333_3333 <==> 20 * p >= 17 * q,
{
    lemma_share_reaches(p, q, 19, 0x3fee_6666_6666_6666);
    lemma_share_reaches(p, q, 17, 0x3feb_3333_3333_3333);
}

/// All of something is the fraction one.
pub proof fn law_whole_is_one(q: nat)
    requires
        q > 0,
    ensures
        fraction(q, q) == 0x3ff0_0000_0000_0000,
{
    lemma_units_below_one(0x3fe0_0000_0000_0000);
    lemma_fraction_bounds(q, q, ONE);
    lemma_mul_is_commutative(q as int, pow2(1074) as int);
}

/// A percentage is at least a whole number where the exact one is, and at most a
/// whole number where the exact one is.
pub proof fn lemma_whole_percent_bounds(mag: u64, n: nat)
    requires
        mag <= ONE,
        n <= 100,
    ensures
        n * pow2(1074) <= 100 * units(mag) ==> n <= whole_percent(mag),
        100 * units(mag) <= n * pow2(1074) ==> whole_percent(mag) <= n,
{
    let d = pow2(1074);
    let whole = rounded(n * d, 1);
    lemma_pow2_pos(1074);
    lemma_whole_exact(n);
    lemma_whole_exact(100);
    lemma_hundred();
    lemma_product_bounds(mag, HUNDRED, whole);
    lemma_mul_is_commutative(units(mag) as int, 100 * d as int);
    assert(units(mag) * (100 * d) == (100 * units(mag)) * d) by (nonlinear_arith);
    let shown = product(mag, HUNDRED);
    lemma_nearest_exact(n, d);
    if n * d <= 100 * units(mag) {
        assert((n * d) * d <= (100 * units(mag)) * d) by (nonlinear_arith)
            requires
                n * d <= 100 * units(mag),
        ;
        if whole < shown {
            lemma_units_increase(whole, shown);
        }
        lemma_nearest_increases(n * d, units(shown), d);
    }
    if 100 * units(mag) <= n * d {
        assert((100 * units(mag)) * d <= (n * d) * d) by (nonlinear_arith)
            requires
                100 * units(mag) <= n * d,
        ;
        if shown < whole {
            lemma_units_increase(shown, whole);
        }
        lemma_nearest_increases(units(shown), n * d, d);
    }
}

/// The units of a hundred.
proof fn lemma_hundred()
    ensures
        units(HUNDRED) == 100 * pow2(1074),
{
    lemma_pow2_126();
    lemma_fundamental_div_mod_converse(
        HUNDRED as int,
        FRACTION as int,
        0x405,
        HUNDRED - 0x4050_0000_0000_0000,
    );
    lemma_pow2_adds(46, 1028);
    lemma_pow2_adds(6, 46);
    lemma2_to64();
    assert(exponent(HUNDRED) == 0x404);
    assert(significand(HUNDRED) == 0x19_0000_0000_0000);
    assert(0x19_0000_0000_0000 == 100 * pow2(46)) by {
        lemma2_to64_rest();
    }
    assert((100 * pow2(46)) * pow2(1028) == 100 * (pow2(46) * pow2(1028))) by (nonlinear_arith);
}

/// Only doubles of the same value have the same units.
pub proof fn lemma_units_tell_apart(a: u64, b: u64)
    requires
        magnitude(a) < INFINITY,
        magnitude(b) < INFINITY,
    ensures
        signed_units(a) == signed_units(b) <==> same_value(a, b),
{
    let (x, y) = (magnitude(a), magnitude(b));
    lemma_zero_units(x);
    lemma_zero_units(y);
    if x < y {
        lemma_units_increase(x, y);
    }
    if y < x {
        lemma_units_increase(y, x);
    }
}

/// Zero is a double exactly.
pub proof fn lemma_zero_is_exact()
    ensures
        from_int(0) == 0,
{
    assert(0 * pow2(1074) == 0) by (nonlinear_arith);
    lemma_zero_rounds(1);
}

/// Either zero as an integer, and zero as either.
pub proof fn lemma_zero_to_int(bits: u64)
    requires
        magnitude(bits) == 0,
    ensures
        to_int(bits) == 0,
        same_value(from_int(0), bits),
{
    lemma_zero_is_exact();
    assert(units(0) == 0) by (nonlinear_arith)
        requires
            units(0) == 0 * pow2(exponent(0)),
    ;
    lemma_pow2_pos(1074);
    lemma_basic_div(0, pow2(1074) as int);
}

/// An integer becomes no NaN.
pub proof fn lemma_from_int_is_number(i: int)
    ensures
        !is_nan(from_int(i)),
{
}

} // verus!
