//! IEEE 754 single-precision values, held and computed by their bit patterns.
//!
//! The container stores its times, distances and speeds in this format. A finite
//! non-negative value is a whole number of steps of 2^-149, the smallest positive
//! value; `steps` says how many. Every operation gives the exact result rounded to
//! the nearest value, ties to the pattern whose last bit is zero.

use vstd::arithmetic::div_mod::{
    lemma_fundamental_div_mod, lemma_fundamental_div_mod_converse, lemma_mod_bound,
};
use vstd::arithmetic::mul::{
    lemma_mul_inequality, lemma_mul_is_associative, lemma_mul_is_commutative,
};
use vstd::arithmetic::power2::{
    lemma2_to64, lemma_pow2_adds, lemma_pow2_pos, lemma_pow2_strictly_increases,
    lemma_pow2_unfold, pow2,
};
use vstd::prelude::*;

verus! {

/// A single-precision value, by its bit pattern.
#[derive(Debug, Clone, Copy, PartialEq, Eq, Structural)]
pub struct Single {
    pub bits: u32,
}

/// The pattern of positive infinity; the finite positive patterns are below it.
pub const INFINITY_BITS: u32 = 0x7F80_0000;

/// How many patterns share one exponent.
pub const BINADE: u32 = 0x0080_0000;

/// `n / d` rounded to the nearest integer, ties to the even one.
pub open spec fn nearest_int(n: nat, d: nat) -> nat {
    let q = n / d;
    let r = n % d;
    if 2 * r > d || (2 * r == d && q % 2 == 1) {
        q + 1
    } else {
        q
    }
}

/// The pattern of the value nearest to `n / d` steps, were there no largest exponent.
/// Below 2^24 steps the patterns count the steps; from there on each doubling of the
/// value moves the pattern on by one exponent.
pub open spec fn nearest_pattern(n: nat, d: nat) -> nat
    decreases (if n > d { (n - d) as nat } else { 0 }),
{
    if d == 0 {
        0
    } else if n < d * 0x100_0000 {
        nearest_int(n, d)
    } else {
        BINADE as nat + nearest_pattern(n, 2 * d)
    }
}

/// The pattern of the value nearest to `n / d` steps; infinity where that is beyond the
/// largest finite value.
pub open spec fn nearest(n: nat, d: nat) -> u32 {
    if nearest_pattern(n, d) < INFINITY_BITS {
        nearest_pattern(n, d) as u32
    } else {
        INFINITY_BITS
    }
}

/// How many steps the finite non-negative pattern `b` stands for.
pub open spec fn steps(b: u32) -> nat {
    if b < BINADE {
        b as nat
    } else {
        (BINADE + b % BINADE) as nat * pow2((b / BINADE - 1) as nat)
    }
}

proof fn lemma_nearest_int_doubled(n: nat, d: nat)
    requires
        d > 0,
    ensures
        nearest_int(2 * n, 2 * d) == nearest_int(n, d),
{
    let q = n as int / d as int;
    let r = n as int % d as int;
    lemma_fundamental_div_mod(n as int, d as int);
    lemma_mod_bound(n as int, d as int);
    assert(2 * n == q * (2 * d) + 2 * r) by (nonlinear_arith)
        requires
            n == d * q + r,
    ;
    lemma_fundamental_div_mod_converse(2 * n as int, 2 * d as int, q, 2 * r);
}

proof fn lemma_nearest_pattern_doubled(n: nat, d: nat)
    requires
        d > 0,
    ensures
        nearest_pattern(2 * n, 2 * d) == nearest_pattern(n, d),
    decreases (if n > d { (n - d) as nat } else { 0 }),
{
    if n < d * 0x100_0000 {
        lemma_nearest_int_doubled(n, d);
    } else {
        lemma_nearest_pattern_doubled(n, 2 * d);
    }
}

/// The rounding of `n / d * 2^exp` steps.
pub open spec fn scaled_pattern(n: nat, d: nat, exp: int) -> nat {
    if exp >= 0 {
        nearest_pattern(n * pow2(exp as nat), d)
    } else {
        nearest_pattern(n, d * pow2((-exp) as nat))
    }
}

proof fn lemma_scaled_halve(n: nat, d: nat, exp: int)
    requires
        d > 0,
    ensures
        scaled_pattern(n, 2 * d, exp + 1) == scaled_pattern(n, d, exp),
{
    if exp >= 0 {
        lemma_pow2_unfold((exp + 1) as nat);
        let p = pow2(exp as nat);
        assert(n * (2 * p) == 2 * (n * p)) by (nonlinear_arith);
        lemma_nearest_pattern_doubled(n * p, d);
    } else {
        lemma_pow2_unfold((-exp) as nat);
        let p = pow2((-exp - 1) as nat);
        assert(d * (2 * p) == (2 * d) * p) by (nonlinear_arith);
        if exp == -1 {
            lemma2_to64();
            assert(n * 1 == n && (2 * d) * 1 == 2 * d);
        }
    }
}

proof fn lemma_scaled_double(n: nat, d: nat, exp: int)
    requires
        d > 0,
    ensures
        scaled_pattern(2 * n, d, exp - 1) == scaled_pattern(n, d, exp),
{
    if exp >= 1 {
        lemma_pow2_unfold(exp as nat);
        let p = pow2((exp - 1) as nat);
        assert(n * (2 * p) == (2 * n) * p) by (nonlinear_arith);
    } else {
        lemma_pow2_unfold((1 - exp) as nat);
        let p = pow2((-exp) as nat);
        lemma_pow2_pos((-exp) as nat);
        assert(d * (2 * p) == 2 * (d * p)) by (nonlinear_arith);
        assert(d * p > 0) by (nonlinear_arith)
            requires
                d > 0,
                p > 0,
        ;
        lemma_nearest_pattern_doubled(n, d * p);
        if exp == 0 {
            lemma2_to64();
            assert(n * 1 == n && d * 1 == d);
        }
    }
}

/// With the quotient normalised, the exponent and the rounded quotient are the pattern.
proof fn lemma_scaled_normal(n: nat, d: nat, exp: int)
    requires
        d > 0,
        exp >= 0,
        n < d * 0x100_0000,
        exp == 0 || n >= d * BINADE,
    ensures
        scaled_pattern(n, d, exp) == exp * BINADE + nearest_int(n, d),
    decreases exp,
{
    lemma2_to64();
    if exp > 0 {
        lemma_scaled_normal(n, d, exp - 1);
        lemma_pow2_unfold(exp as nat);
        lemma_pow2_pos((exp - 1) as nat);
        let p = pow2((exp - 1) as nat);
        let m = n * p;
        assert(n * (2 * p) == 2 * m) by (nonlinear_arith)
            requires
                m == n * p,
        ;
        assert(m >= d * BINADE) by (nonlinear_arith)
            requires
                m == n * p,
                p >= 1,
                n >= d * BINADE,
        ;
        lemma_nearest_pattern_doubled(m, d);
    } else {
        assert(n * 1 == n);
    }
}

/// A value below half a step rounds to zero.
proof fn lemma_scaled_tiny(n: nat, d: nat, exp: int)
    requires
        exp < 0,
        d > 2 * n,
    ensures
        scaled_pattern(n, d, exp) == 0,
{
    let p = pow2((-exp) as nat);
    lemma_pow2_pos((-exp) as nat);
    let dd = d * p;
    assert(dd > 2 * n) by (nonlinear_arith)
        requires
            dd == d * p,
            p >= 1,
            d > 2 * n,
    ;
    assert(n < dd * 0x100_0000);
    vstd::arithmetic::div_mod::lemma_small_mod(n, dd);
    vstd::arithmetic::div_mod::lemma_basic_div(n as int, dd as int);
}

/// `n / d` rounded to the nearest integer, ties to the even one.
fn round_quotient(n: u128, d: u128) -> (r: u128)
    requires
        0 < d < 0x1000_0000_0000_0000_0000_0000_0000,
        n < 0x1000_0000_0000_0000_0000_0000_0000,
    ensures
        r == nearest_int(n as nat, d as nat),
{
    let q: u128 = n / d;
    let rest: u128 = n % d;
    assert(q <= n) by (nonlinear_arith)
        requires
            q == n / d,
            d >= 1,
    ;
    if 2 * rest > d || (2 * rest == d && q % 2 == 1) {
        q + 1
    } else {
        q
    }
}

/// The pattern of the value nearest to `n / d * 2^exp` steps.
fn round_steps(n: u128, d: u64, exp: i32) -> (bits: u32)
    requires
        d > 0,
        n < 0x1_0000_0000_0000_0000_0000,
    ensures
        bits == (if scaled_pattern(n as nat, d as nat, exp as int) < INFINITY_BITS {
            scaled_pattern(n as nat, d as nat, exp as int)
        } else {
            INFINITY_BITS as nat
        }),
{
    let ghost pattern = scaled_pattern(n as nat, d as nat, exp as int);
    if n == 0 {
        proof {
            if exp < 0 {
                lemma_scaled_tiny(0, d as nat, exp as int);
            } else {
                assert(0 * pow2(exp as nat) == 0);
            }
        }
        return 0;
    }
    let mut a: u128 = n;
    let mut b: u128 = d as u128;
    let mut e: i128 = exp as i128;
    // Bring the quotient below 2^24.
    while a >= b * 0x100_0000
        invariant
            0 < b < 0x1_0000_0000_0000_0000,
            0 < a < 0x1_0000_0000_0000_0000_0000,
            i32::MIN <= e <= i32::MAX + b,
            pattern == scaled_pattern(a as nat, b as nat, e as int),
        decreases a - b,
    {
        proof {
            lemma_scaled_halve(a as nat, b as nat, e as int);
        }
        b = b * 2;
        e = e + 1;
    }
    // Bring it to 2^23 at least, as far as the exponent reaches.
    while a < b * 0x80_0000 && e > 0
        invariant
            0 < b < 0x1_0000_0000_0000_0000,
            0 < a < b * 0x100_0000,
            a < 0x100_0000_0000_0000_0000_0000,
            i32::MIN <= e <= i32::MAX + 0x1_0000_0000_0000_0000,
            pattern == scaled_pattern(a as nat, b as nat, e as int),
        decreases e,
    {
        proof {
            lemma_scaled_double(a as nat, b as nat, e as int);
        }
        a = a * 2;
        e = e - 1;
    }
    // Below the smallest exponent the steps themselves are rounded.
    while e < 0
        invariant
            pattern == scaled_pattern(n as nat, d as nat, exp as int),
            0 < a < 0x100_0000_0000_0000_0000_0000,
            0 < b,
            b <= 0x1_0000_0000_0000_0000 || b <= 4 * a,
            a < b * 0x100_0000,
            e <= 0 || a >= b * 0x80_0000,
            e <= i32::MAX + 0x1_0000_0000_0000_0000,
            pattern == scaled_pattern(a as nat, b as nat, e as int),
        decreases (if e < 0 { -e } else { 0 }),
    {
        if b > 2 * a {
            proof {
                lemma_scaled_tiny(a as nat, b as nat, e as int);
            }
            return 0;
        }
        proof {
            lemma_scaled_halve(a as nat, b as nat, e as int);
        }
        b = b * 2;
        e = e + 1;
    }
    proof {
        lemma_scaled_normal(a as nat, b as nat, e as int);
    }
    if e >= 255 {
        return INFINITY_BITS;
    }
    let rounded: u128 = round_quotient(a, b);
    let bits: u128 = e as u128 * 0x80_0000 + rounded;
    if bits < INFINITY_BITS as u128 {
        bits as u32
    } else {
        INFINITY_BITS
    }
}

/// Scaling both sides by the same power of two changes nothing.
proof fn lemma_nearest_pattern_scaled(n: nat, d: nat, k: nat)
    requires
        d > 0,
    ensures
        nearest_pattern(n * pow2(k), d * pow2(k)) == nearest_pattern(n, d),
    decreases k,
{
    lemma2_to64();
    if k == 0 {
        assert(n * 1 == n && d * 1 == d);
    } else {
        lemma_nearest_pattern_scaled(n, d, (k - 1) as nat);
        lemma_pow2_unfold(k);
        let p = pow2((k - 1) as nat);
        lemma_pow2_pos((k - 1) as nat);
        assert(n * (2 * p) == 2 * (n * p)) by (nonlinear_arith);
        assert(d * (2 * p) == 2 * (d * p)) by (nonlinear_arith);
        assert(d * p > 0) by (nonlinear_arith)
            requires
                d > 0,
                p > 0,
        ;
        lemma_nearest_pattern_doubled(n * p, d * p);
    }
}

/// The exponent of a quotient may be written as a difference.
proof fn lemma_scaled_is(n: nat, d: nat, exp: int, up: nat, down: nat)
    requires
        d > 0,
        exp == up - down,
    ensures
        scaled_pattern(n, d, exp) == nearest_pattern(n * pow2(up), d * pow2(down)),
{
    if exp >= 0 {
        lemma_nearest_pattern_scaled(n * pow2(exp as nat), d, down);
        lemma_pow2_adds(exp as nat, down);
        lemma_mul_is_associative(n as int, pow2(exp as nat) as int, pow2(down) as int);
    } else {
        let e = (-exp) as nat;
        lemma_pow2_pos(e);
        let p = pow2(e);
        assert(d * p > 0) by (nonlinear_arith)
            requires
                d > 0,
                p > 0,
        ;
        lemma_nearest_pattern_scaled(n, d * pow2(e), up);
        lemma_pow2_adds(e, up);
        lemma_mul_is_associative(d as int, pow2(e) as int, pow2(up) as int);
    }
}

/// The significand of the finite pattern `b`.
spec fn significand(b: u32) -> nat {
    if b < BINADE {
        b as nat
    } else {
        (BINADE + b % BINADE) as nat
    }
}

/// The power of two that the significand of `b` is multiplied by.
spec fn exponent(b: u32) -> nat {
    if b < BINADE {
        0
    } else {
        (b / BINADE - 1) as nat
    }
}

proof fn lemma_steps_parts(b: u32)
    ensures
        steps(b) == significand(b) * pow2(exponent(b)),
        significand(b) < 0x100_0000,
        b > 0 ==> significand(b) > 0,
        exponent(b) < 512,
        b < INFINITY_BITS ==> exponent(b) < 254,
{
    lemma2_to64();
    if b < BINADE {
        assert(b as nat * 1 == b);
    }
}

fn significand_of(b: u32) -> (r: u64)
    ensures
        r == significand(b),
{
    if b < BINADE {
        b as u64
    } else {
        (BINADE + b % BINADE) as u64
    }
}

fn exponent_of(b: u32) -> (r: i32)
    ensures
        r == exponent(b),
{
    if b < BINADE {
        0
    } else {
        (b / BINADE - 1) as i32
    }
}

/// The value nearest to the integer `x`.
pub open spec fn int_single(x: nat) -> Single {
    Single { bits: nearest(x * pow2(149), 1) }
}

/// A finite value that is not negative.
pub open spec fn is_plain(s: Single) -> bool {
    s.bits < INFINITY_BITS
}

/// `a / b`, for plain values.
pub open spec fn quotient(a: Single, b: Single) -> Single {
    Single { bits: nearest(steps(a.bits) * pow2(149), steps(b.bits)) }
}

/// `a * b`, for plain values.
pub open spec fn product(a: Single, b: Single) -> Single {
    Single { bits: nearest(steps(a.bits) * steps(b.bits), pow2(149)) }
}

/// Converts an integer.
pub fn single_from_int(x: u64) -> (r: Single)
    ensures
        r == int_single(x as nat),
{
    let bits: u32 = round_steps(x as u128, 1, 149);
    Single { bits }
}

/// Divides plain values.
pub fn divide(a: Single, b: Single) -> (r: Single)
    requires
        is_plain(a),
        is_plain(b),
        b.bits > 0,
    ensures
        r == quotient(a, b),
{
    let ma: u64 = significand_of(a.bits);
    let mb: u64 = significand_of(b.bits);
    let ea: i32 = exponent_of(a.bits);
    let eb: i32 = exponent_of(b.bits);
    proof {
        lemma_steps_parts(a.bits);
        lemma_steps_parts(b.bits);
        lemma_scaled_is(ma as nat, mb as nat, ea + 149 - eb, (ea + 149) as nat, eb as nat);
        lemma_pow2_adds(ea as nat, 149);
        lemma_mul_is_associative(ma as int, pow2(ea as nat) as int, pow2(149) as int);
    }
    Single { bits: round_steps(ma as u128, mb, ea + 149 - eb) }
}

/// Multiplies plain values.
pub fn multiply(a: Single, b: Single) -> (r: Single)
    requires
        is_plain(a),
        is_plain(b),
    ensures
        r == product(a, b),
{
    let ma: u64 = significand_of(a.bits);
    let mb: u64 = significand_of(b.bits);
    let ea: i32 = exponent_of(a.bits);
    let eb: i32 = exponent_of(b.bits);
    proof {
        lemma_steps_parts(a.bits);
        lemma_steps_parts(b.bits);
        assert(ma * mb < 0x100_0000 * 0x100_0000) by (nonlinear_arith)
            requires
                0 <= ma < 0x100_0000,
                0 <= mb < 0x100_0000,
        ;
        let m = (ma * mb) as nat;
        lemma_scaled_is(m, 1, ea + eb - 149, (ea + eb) as nat, 149);
        lemma_pow2_adds(ea as nat, eb as nat);
        let pa = pow2(ea as nat);
        let pb = pow2(eb as nat);
        assert((ma * pa) * (mb * pb) == (ma * mb) * (pa * pb)) by (nonlinear_arith);
        assert(1 * pow2(149) == pow2(149));
    }
    Single { bits: round_steps(ma as u128 * mb as u128, 1, ea + eb - 149) }
}

/// The integer part of the plain value `s`.
pub open spec fn integer_part(s: Single) -> nat {
    steps(s.bits) / pow2(149)
}

/// The integer nearest to the plain value `s`, halves rounded up.
pub open spec fn rounded_int(s: Single) -> nat {
    (2 * steps(s.bits) + pow2(149)) / pow2(150)
}

/// `x`, or the largest `u64` where that is smaller.
pub open spec fn at_most_u64(x: nat) -> u64 {
    if x <= u64::MAX {
        x as u64
    } else {
        u64::MAX
    }
}

fn power_of_two(k: u32) -> (r: u128)
    requires
        k <= 64,
    ensures
        r == pow2(k as nat),
        0 < r <= 0x1_0000_0000_0000_0000,
{
    let mut r: u128 = 1;
    let mut i: u32 = 0;
    proof {
        lemma2_to64();
    }
    while i < k
        invariant
            i <= k <= 64,
            r == pow2(i as nat),
            0 < r <= 0x1_0000_0000_0000_0000,
        decreases k - i,
    {
        proof {
            lemma_pow2_unfold((i + 1) as nat);
            lemma2_to64();
            if i + 1 < 64 {
                lemma_pow2_strictly_increases((i + 1) as nat, 64);
            }
        }
        r = r * 2;
        i = i + 1;
    }
    r
}

/// Shifting a quotient down by a common power of two.
proof fn lemma_shift_out(a: nat, k: nat, d: nat)
    requires
        d > 0,
    ensures
        (a * pow2(k)) / (d * pow2(k)) == a / d,
{
    lemma_pow2_pos(k);
    let p = pow2(k);
    let q = a as int / d as int;
    let r = a as int % d as int;
    lemma_fundamental_div_mod(a as int, d as int);
    lemma_mod_bound(a as int, d as int);
    assert(a * p == q * (d * p) + r * p && 0 <= r * p < d * p) by (nonlinear_arith)
        requires
            a == d * q + r,
            0 <= r < d,
            p > 0,
    ;
    lemma_fundamental_div_mod_converse((a * p) as int, (d * p) as int, q, r * p);
}

/// A value whose exponent is at least that of one is an integer.
proof fn lemma_integer_value(m: nat, e: nat)
    requires
        e >= 149,
    ensures
        m * pow2(e) == (m * pow2((e - 149) as nat)) * pow2(149),
        m * pow2(e) / pow2(149) == m * pow2((e - 149) as nat),
        (2 * (m * pow2(e)) + pow2(149)) / pow2(150) == m * pow2((e - 149) as nat),
{
    let v = m * pow2((e - 149) as nat);
    let p = pow2(149);
    lemma_pow2_adds((e - 149) as nat, 149);
    lemma_mul_is_associative(m as int, pow2((e - 149) as nat) as int, p as int);
    lemma_pow2_pos(149);
    lemma_pow2_unfold(150);
    lemma_fundamental_div_mod_converse((v * p) as int, p as int, v as int, 0);
    assert(2 * (v * p) + p == v * (2 * p) + p) by (nonlinear_arith);
    lemma_fundamental_div_mod_converse((2 * (v * p) + p) as int, (2 * p) as int, v as int, p as int);
}

/// The integer part of a plain value, as far as `u64` reaches.
pub fn truncate(s: Single) -> (r: u64)
    requires
        is_plain(s),
    ensures
        r == at_most_u64(integer_part(s)),
{
    let m: u64 = significand_of(s.bits);
    let e: i32 = exponent_of(s.bits);
    proof {
        lemma_steps_parts(s.bits);
        lemma2_to64();
    }
    if e >= 149 {
        proof {
            lemma_integer_value(m as nat, e as nat);
        }
        return shifted_up(m, (e - 149) as u32);
    }
    let down: u32 = (149 - e) as u32;
    proof {
        let d = pow2(down as nat);
        lemma_pow2_pos(down as nat);
        lemma_shift_out(m as nat, e as nat, d);
        lemma_pow2_adds(down as nat, e as nat);
        lemma_mul_is_commutative(d as int, pow2(e as nat) as int);
        if down > 24 {
            lemma_pow2_strictly_increases(24, down as nat);
            vstd::arithmetic::div_mod::lemma_basic_div(m as int, d as int);
        }
    }
    if down > 24 {
        return 0;
    }
    let d: u128 = power_of_two(down);
    proof {
        vstd::arithmetic::div_mod::lemma_div_is_ordered_by_denominator(m as int, 1, d as int);
    }
    (m as u128 / d) as u64
}

/// `m * 2^k`, as far as `u64` reaches, for a significand whose exponent is not the
/// smallest one.
fn shifted_up(m: u64, k: u32) -> (r: u64)
    requires
        0x80_0000 <= m < 0x100_0000,
    ensures
        r == at_most_u64((m * pow2(k as nat)) as nat),
{
    proof {
        lemma2_to64();
        lemma_pow2_pos(k as nat);
    }
    if k >= 64 {
        proof {
            if k > 64 {
                lemma_pow2_strictly_increases(64, k as nat);
            }
            lemma_mul_inequality(1, m as int, pow2(k as nat) as int);
        }
        return u64::MAX;
    }
    let p: u128 = power_of_two(k);
    assert(m * p <= 0x100_0000 * 0x1_0000_0000_0000_0000) by (nonlinear_arith)
        requires
            0 <= m < 0x100_0000,
            0 <= p <= 0x1_0000_0000_0000_0000,
    ;
    let v: u128 = m as u128 * p;
    if v > u64::MAX as u128 {
        u64::MAX
    } else {
        v as u64
    }
}

/// The nearest integer to a plain value, halves rounded up, as far as `u64` reaches.
pub fn round(s: Single) -> (r: u64)
    requires
        is_plain(s),
    ensures
        r == at_most_u64(rounded_int(s)),
{
    let m: u64 = significand_of(s.bits);
    let e: i32 = exponent_of(s.bits);
    proof {
        lemma_steps_parts(s.bits);
        lemma2_to64();
    }
    if e >= 149 {
        proof {
            lemma_integer_value(m as nat, e as nat);
        }
        return shifted_up(m, (e - 149) as u32);
    }
    let down: u32 = (149 - e) as u32;
    let ghost pd = pow2(down as nat);
    let ghost pe = pow2(e as nat);
    proof {
        lemma_pow2_pos(down as nat);
        lemma_pow2_adds(down as nat, e as nat);
        lemma_pow2_unfold(150);
        assert(2 * (m * pe) + pd * pe == (2 * m + pd) * pe) by (nonlinear_arith);
        assert(2 * (pd * pe) == (2 * pd) * pe) by (nonlinear_arith);
        lemma_shift_out((2 * m + pd) as nat, e as nat, 2 * pd);
        if down > 25 {
            lemma_pow2_strictly_increases(25, down as nat);
            vstd::arithmetic::div_mod::lemma_basic_div(2 * m + pd, 2 * pd as int);
        }
    }
    if down > 25 {
        return 0;
    }
    let d: u128 = power_of_two(down);
    proof {
        vstd::arithmetic::div_mod::lemma_div_is_ordered_by_denominator(2 * m + d, 1, 2 * d as int);
        if down < 25 {
            lemma_pow2_strictly_increases(down as nat, 25);
        }
    }
    ((2 * m as u128 + d) / (2 * d)) as u64
}

/// A finite double-precision pattern.
pub open spec fn is_finite_double(bits: u64) -> bool {
    bits / 0x10_0000_0000_0000 % 0x800 < 0x7FF
}

/// The single-precision value nearest to the finite double-precision pattern `bits`.
pub open spec fn narrowed(bits: u64) -> Single {
    let sign = bits / 0x8000_0000_0000_0000;
    let e = bits / 0x10_0000_0000_0000 % 0x800;
    let fraction = (bits % 0x10_0000_0000_0000) as nat;
    // The value is `m * 2^(x - 1075)`, which is `m * 2^(x - 926)` steps.
    let (m, x) = if e == 0 {
        (fraction, 1)
    } else {
        (0x10_0000_0000_0000 + fraction, e as nat)
    };
    Single { bits: (sign * 0x8000_0000 + nearest(m * pow2(x), pow2(926))) as u32 }
}

/// Rounds a finite double-precision value to single precision.
pub fn narrow(bits: u64) -> (r: Single)
    requires
        is_finite_double(bits),
    ensures
        r == narrowed(bits),
{
    let sign: u64 = bits / 0x8000_0000_0000_0000;
    let e: u64 = bits / 0x10_0000_0000_0000 % 0x800;
    let fraction: u64 = bits % 0x10_0000_0000_0000;
    let m: u64 = if e == 0 {
        fraction
    } else {
        0x10_0000_0000_0000 + fraction
    };
    let x: i32 = if e == 0 {
        1
    } else {
        e as i32
    };
    proof {
        lemma_scaled_is(m as nat, 1, x - 926, x as nat, 926);
        assert(1 * pow2(926) == pow2(926));
    }
    let magnitude: u32 = round_steps(m as u128, 1, x - 926);
    Single { bits: sign as u32 * 0x8000_0000 + magnitude }
}

/// `a + 1`, for a plain value.
pub open spec fn plus_one(a: Single) -> Single {
    Single { bits: nearest(steps(a.bits) + pow2(149), 1) }
}

/// Integers below 2^24 are exact.
proof fn lemma_exact(m: nat, e: nat)
    requires
        0 < m < 0x100_0000,
        e < 250,
    ensures
        nearest_pattern(m * pow2(e), 1) <= (e + 2) * BINADE,
        steps(nearest(m * pow2(e), 1)) == m * pow2(e),
    decreases e,
{
    lemma2_to64();
    lemma_pow2_pos(e);
    assert(nearest_int(m, 1) == m);
    if m >= BINADE {
        lemma_scaled_normal(m, 1, e as int);
        let b = (e * BINADE + m) as u32;
        assert(b / BINADE == e + 1 && b % BINADE == m - BINADE);
    } else if e == 0 {
        assert(m * 1 == m);
    } else {
        lemma_exact(2 * m, (e - 1) as nat);
        lemma_pow2_unfold(e);
        let p = pow2((e - 1) as nat);
        assert(m * (2 * p) == (2 * m) * p) by (nonlinear_arith);
    }
}

/// A quotient of at least 2^23 keeps its exponent.
proof fn lemma_scaled_at_least(n: nat, d: nat, exp: int)
    requires
        d > 0,
        exp >= 0,
        n >= d * BINADE,
    ensures
        scaled_pattern(n, d, exp) >= (exp + 1) * BINADE,
    decreases n - d,
{
    if n < d * 0x100_0000 {
        lemma_scaled_normal(n, d, exp);
        let q = n as int / d as int;
        assert(q >= BINADE) by (nonlinear_arith)
            requires
                q == n as int / d as int,
                n >= d * BINADE,
                d > 0,
        ;
        assert((exp + 1) * BINADE == exp * BINADE + BINADE) by (nonlinear_arith);
    } else {
        lemma_scaled_at_least(n, 2 * d, exp + 1);
        lemma_scaled_halve(n, d, exp);
        assert((exp + 2) * BINADE >= (exp + 1) * BINADE) by (nonlinear_arith);
    }
}

/// A quotient below 2^(24 + j) raises the exponent by `j` at most.
proof fn lemma_scaled_at_most(n: nat, d: nat, exp: int, j: nat)
    requires
        d > 0,
        exp >= 0,
        d * BINADE <= n < (d * pow2(j)) * 0x100_0000,
    ensures
        scaled_pattern(n, d, exp) <= (exp + j + 2) * BINADE,
    decreases j,
{
    lemma2_to64();
    if n < d * 0x100_0000 {
        lemma_scaled_normal(n, d, exp);
        let q = n as int / d as int;
        assert(q < 0x100_0000) by (nonlinear_arith)
            requires
                q == n as int / d as int,
                n < d * 0x100_0000,
                d > 0,
        ;
        assert((exp + j + 2) * BINADE >= exp * BINADE + 2 * BINADE) by (nonlinear_arith)
            requires
                j >= 0,
        ;
    } else {
        assert(j > 0) by {
            if j == 0 {
                assert(d * 1 == d);
            }
        }
        lemma_pow2_unfold(j);
        let p = pow2((j - 1) as nat);
        assert(d * (2 * p) == (2 * d) * p) by (nonlinear_arith);
        lemma_scaled_at_most(n, 2 * d, exp + 1, (j - 1) as nat);
        lemma_scaled_halve(n, d, exp);
    }
}

/// What an integer converts to, in steps.
proof fn lemma_int_single_steps(x: u64)
    ensures
        is_plain(int_single(x as nat)),
        ({
            let b = int_single(x as nat).bits;
            &&& exponent(b) <= 190
            &&& exponent(b) < 149 ==> steps(b) == x * pow2(149)
        }),
{
    let b = int_single(x as nat).bits;
    lemma2_to64();
    vstd::arithmetic::power2::lemma2_to64_rest();
    lemma_scaled_is(x as nat, 1, 149, 149, 0);
    assert(1 * pow2(0) == 1);
    if x == 0 {
        assert(0 * pow2(149) == 0);
    } else if x < 0x100_0000 {
        lemma_exact(x as nat, 149);
    } else {
        lemma_scaled_at_least(x as nat, 1, 149);
        lemma_scaled_at_most(x as nat, 1, 149, 40);
    }
    lemma_steps_parts(b);
}

/// The number of the layer at `index`, counted from one.
pub fn layer_number(index: u64) -> (r: Single)
    ensures
        r == plus_one(int_single(index as nat)),
        is_plain(r),
{
    let a: Single = single_from_int(index);
    proof {
        lemma2_to64();
        lemma_steps_parts(a.bits);
        lemma_int_single_steps(index);
    }
    let m: u64 = significand_of(a.bits);
    let e: i32 = exponent_of(a.bits);
    // The converted index is an integer: `v`.
    let v: u128 = if e >= 149 {
        let p: u128 = power_of_two((e - 149) as u32);
        proof {
            lemma_integer_value(m as nat, e as nat);
            vstd::arithmetic::power2::lemma2_to64_rest();
            if e < 190 {
                lemma_pow2_strictly_increases((e - 149) as nat, 41);
            }
        }
        assert(m * p <= 0x100_0000 * 0x200_0000_0000) by (nonlinear_arith)
            requires
                0 <= m < 0x100_0000,
                0 <= p <= 0x200_0000_0000,
        ;
        m as u128 * p
    } else {
        index as u128
    };
    proof {
        let p = pow2(149);
        assert((v + 1) * p == v * p + p) by (nonlinear_arith);
        lemma_scaled_is((v + 1) as nat, 1, 149, 149, 0);
        vstd::arithmetic::power2::lemma2_to64_rest();
        if v + 1 < 0x100_0000 {
            lemma_exact((v + 1) as nat, 149);
        } else {
            lemma_scaled_at_most((v + 1) as nat, 1, 149, 42);
        }
    }
    Single { bits: round_steps(v + 1, 1, 149) }
}

/// `p * h` for a plain value `p` that is not zero and any value `h`.
pub open spec fn signed_product(p: Single, h: Single) -> Single {
    let sign = h.bits / 0x8000_0000;
    let magnitude = h.bits % 0x8000_0000;
    if magnitude > INFINITY_BITS {
        // Not a number stays so; the bit that marks it quiet is set.
        if h.bits % BINADE < 0x40_0000 {
            Single { bits: (h.bits + 0x40_0000) as u32 }
        } else {
            h
        }
    } else if magnitude == INFINITY_BITS {
        h
    } else {
        Single {
            bits: (sign * 0x8000_0000 + product(p, Single { bits: magnitude }).bits) as u32,
        }
    }
}

/// Where the layer at `index` lies above the plate: its number times the layer height.
pub open spec fn layer_position(index: nat, layer_height: Single) -> Single {
    signed_product(plus_one(int_single(index)), layer_height)
}

/// Where the layer at `index` lies above the plate.
pub fn position_of_layer(index: u64, layer_height: Single) -> (r: Single)
    ensures
        r == layer_position(index as nat, layer_height),
{
    let sign: u32 = layer_height.bits / 0x8000_0000;
    let magnitude: u32 = layer_height.bits % 0x8000_0000;
    if magnitude > INFINITY_BITS {
        if layer_height.bits % BINADE < 0x40_0000 {
            return Single { bits: layer_height.bits + 0x40_0000 };
        }
        return layer_height;
    }
    if magnitude == INFINITY_BITS {
        return layer_height;
    }
    let number: Single = layer_number(index);
    let height: Single = multiply(number, Single { bits: magnitude });
    Single { bits: sign * 0x8000_0000 + height.bits }
}

/// The value, if it is finite and above zero; else zero.
pub open spec fn sanitized(s: Single) -> Single {
    if 0 < s.bits < INFINITY_BITS {
        s
    } else {
        Single { bits: 0 }
    }
}

/// The value, if it is finite and above zero; else zero.
pub fn sanitize_non_negative(s: Single) -> (r: Single)
    ensures
        r == sanitized(s),
{
    if 0 < s.bits && s.bits < INFINITY_BITS {
        s
    } else {
        Single { bits: 0 }
    }
}

/// The value is above zero.
pub open spec fn is_positive(s: Single) -> bool {
    0 < s.bits <= INFINITY_BITS
}

/// The value is above zero.
pub fn above_zero(s: Single) -> (r: bool)
    ensures
        r == is_positive(s),
{
    0 < s.bits && s.bits <= INFINITY_BITS
}

/// The pattern of 100.
pub const HUNDRED_BITS: u32 = 0x42C8_0000;

/// The pattern of 255.
pub const BYTE_MAX_BITS: u32 = 0x437F_0000;

/// A percentage, kept between 0 and 100.
pub open spec fn clamped_percent(percent: Single) -> Single {
    if is_positive(percent) {
        if percent.bits > HUNDRED_BITS {
            Single { bits: HUNDRED_BITS }
        } else {
            percent
        }
    } else {
        Single { bits: 0 }
    }
}

/// The level from 0 to 255 that a percentage stands for.
pub open spec fn pwm_level(percent: Single) -> u16 {
    let fraction = quotient(clamped_percent(percent), Single { bits: HUNDRED_BITS });
    let level = rounded_int(product(fraction, Single { bits: BYTE_MAX_BITS }));
    if level <= u16::MAX {
        level as u16
    } else {
        u16::MAX
    }
}

proof fn lemma_nearest_int_monotone(n1: nat, d1: nat, n2: nat, d2: nat)
    requires
        d1 > 0,
        d2 > 0,
        n1 * d2 <= n2 * d1,
    ensures
        nearest_int(n1, d1) <= nearest_int(n2, d2),
{
    let q1 = n1 as int / d1 as int;
    let r1 = n1 as int % d1 as int;
    let q2 = n2 as int / d2 as int;
    let r2 = n2 as int % d2 as int;
    lemma_fundamental_div_mod(n1 as int, d1 as int);
    lemma_fundamental_div_mod(n2 as int, d2 as int);
    lemma_mod_bound(n1 as int, d1 as int);
    lemma_mod_bound(n2 as int, d2 as int);
    assert(q1 <= q2) by (nonlinear_arith)
        requires
            n1 == d1 * q1 + r1,
            n2 == d2 * q2 + r2,
            0 <= r1 < d1,
            0 <= r2 < d2,
            n1 * d2 <= n2 * d1,
    ;
    if q1 == q2 {
        assert(r1 * d2 <= r2 * d1) by (nonlinear_arith)
            requires
                n1 == d1 * q1 + r1,
                n2 == d2 * q2 + r2,
                q1 == q2,
                n1 * d2 <= n2 * d1,
        ;
        assert(2 * r1 > d1 ==> 2 * r2 > d2) by (nonlinear_arith)
            requires
                r1 * d2 <= r2 * d1,
                d1 > 0,
                d2 > 0,
        ;
        assert(2 * r1 == d1 ==> 2 * r2 >= d2) by (nonlinear_arith)
            requires
                r1 * d2 <= r2 * d1,
                d1 > 0,
                d2 > 0,
        ;
    }
}

/// Rounding keeps the order.
proof fn lemma_nearest_pattern_monotone(n1: nat, d1: nat, n2: nat, d2: nat)
    requires
        d1 > 0,
        d2 > 0,
        n1 * d2 <= n2 * d1,
    ensures
        nearest_pattern(n1, d1) <= nearest_pattern(n2, d2),
    decreases (if n1 > d1 { (n1 - d1) as nat } else { 0 }),
{
    if n2 < d2 * 0x100_0000 {
        assert(n1 < d1 * 0x100_0000) by (nonlinear_arith)
            requires
                n1 * d2 <= n2 * d1,
                n2 < d2 * 0x100_0000,
                d1 > 0,
                d2 > 0,
        ;
        lemma_nearest_int_monotone(n1, d1, n2, d2);
    } else if n1 < d1 * 0x100_0000 {
        lemma2_to64();
        lemma_scaled_at_least(n2, 2 * d2, 0);
        assert(n2 * 1 == n2);
        let q1 = n1 as int / d1 as int;
        assert(q1 < 0x100_0000) by (nonlinear_arith)
            requires
                q1 == n1 as int / d1 as int,
                n1 < d1 * 0x100_0000,
                d1 > 0,
        ;
    } else {
        assert(n1 * (2 * d2) <= n2 * (2 * d1)) by (nonlinear_arith)
            requires
                n1 * d2 <= n2 * d1,
        ;
        lemma_nearest_pattern_monotone(n1, 2 * d1, n2, 2 * d2);
    }
}

/// A value of the format rounds to itself.
proof fn lemma_nearest_of_steps(b: u32)
    ensures
        nearest_pattern(steps(b), 1) == b,
{
    lemma2_to64();
    lemma_steps_parts(b);
    let m = significand(b);
    let e = exponent(b);
    assert(nearest_int(m, 1) == m);
    lemma_scaled_normal(m, 1, e as int);
}

/// What is at most a value of the format is rounded to at most that value.
pub(crate) proof fn lemma_nearest_at_most(n: nat, d: nat, b: u32)
    requires
        d > 0,
        n <= steps(b) * d,
        b <= INFINITY_BITS,
    ensures
        nearest(n, d) <= b,
{
    lemma_nearest_of_steps(b);
    assert(n * 1 == n);
    lemma_nearest_pattern_monotone(n, d, steps(b), 1);
}

/// Larger patterns stand for larger values.
pub(crate) proof fn lemma_steps_monotone(a: u32, b: u32)
    requires
        a <= b,
    ensures
        steps(a) <= steps(b),
        a < b ==> steps(a) < steps(b),
{
    lemma_nearest_of_steps(a);
    lemma_nearest_of_steps(b);
    if steps(a) >= steps(b) {
        lemma_nearest_pattern_monotone(steps(b), 1, steps(a), 1);
    }
}

/// What some patterns stand for.
proof fn lemma_known_values()
    ensures
        steps(HUNDRED_BITS) == 100 * pow2(149),
        steps(BYTE_MAX_BITS) == 255 * pow2(149),
        steps(0x3F80_0000) == pow2(149),
{
    lemma2_to64();
    lemma_pow2_adds(132, 17);
    lemma_pow2_adds(133, 16);
    lemma_pow2_adds(126, 23);
    assert(HUNDRED_BITS / BINADE == 0x85 && HUNDRED_BITS % BINADE == 0x48_0000);
    assert(BYTE_MAX_BITS / BINADE == 0x86 && BYTE_MAX_BITS % BINADE == 0x7F_0000);
    assert(0x3F80_0000u32 / BINADE == 0x7F && 0x3F80_0000u32 % BINADE == 0);
    assert(0x80_0000 * pow2(126) == pow2(149));
    let p = pow2(132);
    assert(0xC8_0000 * p == 100 * (p * 0x2_0000));
    let p = pow2(133);
    assert(0xFF_0000 * p == 255 * (p * 0x1_0000));
}

/// The level of a percentage, step by step.
pub proof fn lemma_pwm_level(percent: Single)
    ensures
        ({
            let fraction = quotient(clamped_percent(percent), Single { bits: HUNDRED_BITS });
            let level = product(fraction, Single { bits: BYTE_MAX_BITS });
            &&& is_plain(fraction)
            &&& is_plain(level)
            &&& rounded_int(level) <= 255
        }),
{
    let c = clamped_percent(percent);
    let one: u32 = 0x3F80_0000;
    let p = pow2(149);
    lemma_pow2_pos(149);
    lemma_known_values();
    lemma_steps_monotone(c.bits, HUNDRED_BITS);
    let x = steps(c.bits);
    assert(x * p <= p * (100 * p)) by (nonlinear_arith)
        requires
            x <= 100 * p,
    ;
    lemma_nearest_at_most(x * p, 100 * p, one);
    let fraction = quotient(c, Single { bits: HUNDRED_BITS });
    lemma_steps_monotone(fraction.bits, one);
    let f = steps(fraction.bits);
    assert(f * (255 * p) <= (255 * p) * p) by (nonlinear_arith)
        requires
            f <= p,
    ;
    lemma_nearest_at_most(f * (255 * p), p, BYTE_MAX_BITS);
    let level = product(fraction, Single { bits: BYTE_MAX_BITS });
    lemma_steps_monotone(level.bits, BYTE_MAX_BITS);
    lemma_pow2_unfold(150);
    let l = 2 * steps(level.bits) + p;
    assert(l / (2 * p) <= 255) by (nonlinear_arith)
        requires
            l <= 511 * p,
            p > 0,
    ;
}

/// The level from 0 to 255 that a percentage stands for.
pub fn pwm_byte(percent: Single) -> (r: u16)
    ensures
        r == pwm_level(percent),
        r <= 255,
{
    let clamped: Single = if above_zero(percent) {
        if percent.bits > HUNDRED_BITS {
            Single { bits: HUNDRED_BITS }
        } else {
            percent
        }
    } else {
        Single { bits: 0 }
    };
    proof {
        lemma_pwm_level(percent);
    }
    let fraction: Single = divide(clamped, Single { bits: HUNDRED_BITS });
    let level: Single = multiply(fraction, Single { bits: BYTE_MAX_BITS });
    round(level) as u16
}

/// The next exponent doubles the value.
proof fn lemma_steps_next_binade(b: u32)
    requires
        BINADE <= b,
        b + BINADE <= u32::MAX,
    ensures
        steps((b + BINADE) as u32) == 2 * steps(b),
{
    let c = (b + BINADE) as u32;
    assert(c / BINADE == b / BINADE + 1 && c % BINADE == b % BINADE);
    lemma_pow2_unfold((b / BINADE) as nat);
    let m = BINADE + b % BINADE;
    let p = pow2((b / BINADE - 1) as nat);
    assert(m * (2 * p) == 2 * (m * p)) by (nonlinear_arith);
}

/// The exact value lies between the midpoints to the two neighbours of the rounded one,
/// and on a midpoint only if the rounded pattern is even.
#[verifier::rlimit(40)]
proof fn lemma_between_midpoints(n: nat, d: nat)
    requires
        d > 0,
        nearest_pattern(n, d) < INFINITY_BITS,
    ensures
        ({
            let r = nearest_pattern(n, d) as u32;
            let above = (steps(r) + steps((r + 1) as u32)) * d;
            let below = (steps(r) + steps((r - 1) as u32)) * d;
            &&& 2 * n <= above
            &&& 2 * n == above ==> r % 2 == 0
            &&& r > 0 ==> below <= 2 * n
            &&& r > 0 && below == 2 * n ==> r % 2 == 0
        }),
    decreases (if n > d { (n - d) as nat } else { 0 }),
{
    lemma2_to64();
    let r = nearest_pattern(n, d) as u32;
    if n < d * 0x100_0000 {
        let q = n as int / d as int;
        let m = n as int % d as int;
        lemma_fundamental_div_mod(n as int, d as int);
        lemma_mod_bound(n as int, d as int);
        assert(q < 0x100_0000) by (nonlinear_arith)
            requires
                q == n as int / d as int,
                n < d * 0x100_0000,
                d > 0,
        ;
        lemma_low_steps(r);
        lemma_low_steps((r + 1) as u32);
        if r > 0 {
            lemma_low_steps((r - 1) as u32);
        }
        let up = (r + steps((r + 1) as u32)) as int;
        assert(2 * n <= up * d && (2 * n == up * d ==> r % 2 == 0)) by (nonlinear_arith)
            requires
                n == d * q + m,
                0 <= m < d,
                up >= 2 * r + 1,
                r == q || r == q + 1,
                r == q ==> 2 * m <= d,
                r == q && 2 * m == d ==> q % 2 == 0,
        ;
        if r > 0 {
            let down = 2 * r - 1;
            assert(down * d <= 2 * n && (2 * n == down * d ==> r % 2 == 0)) by (nonlinear_arith)
                requires
                    n == d * q + m,
                    0 <= m < d,
                    down == 2 * r - 1,
                    r == q || r == q + 1,
                    r == q + 1 ==> 2 * m >= d,
                    r == q + 1 && 2 * m == d ==> q % 2 == 1,
            ;
        }
    } else {
        lemma_between_midpoints(n, 2 * d);
        lemma_scaled_at_least(n, 2 * d, 0);
        assert(n * 1 == n);
        let s = nearest_pattern(n, 2 * d) as u32;
        lemma_steps_next_binade(s);
        lemma_steps_next_binade((s + 1) as u32);
        let a = (steps(s) + steps((s + 1) as u32)) as int;
        assert(a * (2 * d) == (2 * a) * d) by (nonlinear_arith);
        if s > BINADE {
            lemma_steps_next_binade((s - 1) as u32);
            let b = (steps(s) + steps((s - 1) as u32)) as int;
            assert(b * (2 * d) == (2 * b) * d) by (nonlinear_arith);
        } else {
            lemma_low_steps(r);
            lemma_low_steps((r - 1) as u32);
            assert(0x1FF_FFFF * d < 2 * n);
        }
    }
}

/// Below 2^24 steps the patterns count the steps.
proof fn lemma_low_steps(b: u32)
    requires
        b <= 0x100_0001,
    ensures
        b <= 0x100_0000 ==> steps(b) == b,
        b == 0x100_0001 ==> steps(b) == b + 1,
{
    lemma2_to64();
    if b >= BINADE {
        let m = (BINADE + b % BINADE) as nat;
        assert(m * 1 == m);
        assert(b < 0x100_0000 ==> b / BINADE == 1 && m == b);
        assert(b >= 0x100_0000 ==> b / BINADE == 2 && m * pow2(1) == 2 * m);
    }
}

/// The distance of `k` steps from `n / d` steps, times `d`.
pub open spec fn distance(n: nat, d: nat, k: nat) -> int {
    if k * d >= n {
        k * d - n
    } else {
        n - k * d
    }
}

/// Rounding gives the nearest value of the format: no finite value lies nearer to the
/// exact one, and where another lies as near, the chosen pattern is even.
pub proof fn law_rounding_is_nearest(n: nat, d: nat, other: u32)
    requires
        d > 0,
        nearest(n, d) < INFINITY_BITS,
        other < INFINITY_BITS,
    ensures
        distance(n, d, steps(nearest(n, d))) <= distance(n, d, steps(other)),
        other != nearest(n, d) && distance(n, d, steps(nearest(n, d))) == distance(
            n,
            d,
            steps(other),
        ) ==> nearest(n, d) % 2 == 0,
{
    let r = nearest(n, d);
    lemma_between_midpoints(n, d);
    let x = steps(r) as int;
    let y = steps(other) as int;
    if other > r {
        let z = steps((r + 1) as u32) as int;
        lemma_steps_monotone((r + 1) as u32, other);
        lemma_steps_monotone(r, (r + 1) as u32);
        assert(x * d < z * d <= y * d) by (nonlinear_arith)
            requires
                x < z <= y,
                d > 0,
        ;
        assert((x + z) * d == x * d + z * d) by (nonlinear_arith);
    } else if other < r {
        let z = steps((r - 1) as u32) as int;
        lemma_steps_monotone(other, (r - 1) as u32);
        lemma_steps_monotone((r - 1) as u32, r);
        assert(y * d <= z * d < x * d) by (nonlinear_arith)
            requires
                y <= z < x,
                d > 0,
        ;
        assert((x + z) * d == x * d + z * d) by (nonlinear_arith);
    }
}

/// Neighbouring normal values differ by at most one part in 2^23.
proof fn lemma_gap(b: u32)
    requires
        BINADE <= b <= INFINITY_BITS,
    ensures
        0x80_0000 * (steps(b) - steps((b - 1) as u32)) <= steps(b),
{
    let below = (b - 1) as u32;
    let e = (b / BINADE - 1) as nat;
    lemma2_to64();
    lemma_pow2_pos(e);
    let p = pow2(e);
    let m = b % BINADE;
    if b == BINADE {
        assert(steps(b) == 0x80_0000 * pow2(0));
    } else if m > 0 {
        assert(below / BINADE == b / BINADE && below % BINADE == m - 1);
        assert((0x80_0000 + m) * p - (0x80_0000 + m - 1) * p == p) by (nonlinear_arith);
        assert(0x80_0000 * p <= (0x80_0000 + m) * p) by (nonlinear_arith)
            requires
                m >= 0,
                p > 0,
        ;
    } else {
        assert(below / BINADE == b / BINADE - 1 && below % BINADE == 0x7F_FFFF);
        lemma_pow2_unfold(e);
        let h = pow2((e - 1) as nat);
        assert(steps(below) == 0xFF_FFFF * h);
        assert(steps(b) == 0x80_0000 * (2 * h));
    }
}

/// The pattern of `dst` and a quarter stands for that value.
proof fn lemma_quarter_above(dst: nat)
    requires
        0 < dst < 0x40_0000,
    ensures
        ({
            let b = nearest((4 * dst + 1) * pow2(147), 1);
            b < INFINITY_BITS && steps(b) == (4 * dst + 1) * pow2(147)
        }),
{
    lemma_exact(4 * dst + 1, 147);
}

/// A whole number above zero converts to at least one.
proof fn lemma_int_single_positive(x: u64)
    requires
        x > 0,
    ensures
        int_single(x as nat).bits > 0,
        steps(int_single(x as nat).bits) >= pow2(149),
{
    let p = pow2(149);
    lemma2_to64();
    lemma_pow2_pos(149);
    let n = x as nat * p;
    assert(1 * p * 1 <= n * 1) by (nonlinear_arith)
        requires
            n == x as nat * p,
            x >= 1,
            p > 0,
    ;
    lemma_nearest_pattern_monotone(1 * p, 1, n, 1);
    lemma_exact(1, 149);
    lemma_int_single_steps(x);
    let one = nearest(1 * p, 1);
    assert(steps(one) == 1 * p);
    lemma_steps_monotone(one, int_single(x as nat).bits);
}

/// What a converted number is at most, in steps.
proof fn lemma_int_single_at_most(x: u64)
    ensures
        steps(int_single(x as nat).bits) <= pow2(214),
{
    let b = int_single(x as nat).bits;
    lemma_int_single_steps(x);
    lemma_steps_parts(b);
    let m = significand(b);
    let e = exponent(b);
    if e < 190 {
        lemma_pow2_strictly_increases(e, 190);
    }
    lemma2_to64();
    lemma_pow2_adds(24, 190);
    assert(m * pow2(e) <= 0x100_0000 * pow2(190)) by (nonlinear_arith)
        requires
            0 <= m <= 0x100_0000,
            0 <= pow2(e) <= pow2(190),
    ;
}

/// What `src` times the quotient of `dst` by it comes to, in steps.
proof fn lemma_scaled_steps(dst: u64, src: u64)
    requires
        0 < src,
    ensures
        is_plain(quotient(int_single(dst as nat), int_single(src as nat))),
        ({
            let a = int_single(dst as nat).bits;
            let b = int_single(src as nat).bits;
            let q = quotient(int_single(dst as nat), int_single(src as nat)).bits;
            let n = steps(b) * steps(q);
            n <= pow2(238) || 0xFF_FFFF * n <= 0x100_0000 * (steps(a) * pow2(149))
        }),
{
    let a = int_single(dst as nat).bits;
    let b = int_single(src as nat).bits;
    let q = quotient(int_single(dst as nat), int_single(src as nat)).bits;
    let p = pow2(149);
    lemma_int_single_steps(dst);
    lemma_int_single_positive(src);
    let d = steps(b);
    let n = steps(a) * p;
    assert(n <= steps(a) * d) by (nonlinear_arith)
        requires
            n == steps(a) * p,
            d >= p,
            steps(a) >= 0,
    ;
    lemma_pow2_pos(149);
    lemma_nearest_at_most(n, d, a);
    if q < BINADE {
        lemma_int_single_at_most(src);
        let h = pow2(214);
        lemma2_to64();
        lemma_pow2_adds(214, 24);
        assert(d * steps(q) <= h * 0x100_0000) by (nonlinear_arith)
            requires
                0 <= d <= h,
                0 <= steps(q) <= 0x80_0000,
        ;
    } else {
        lemma_between_midpoints(n, d);
        lemma_gap(q);
        let y = steps(q);
        let z = steps((q - 1) as u32);
        assert(0xFF_FFFF * (d * y) <= 0x100_0000 * n) by (nonlinear_arith)
            requires
                (y + z) * d <= 2 * n,
                0x80_0000 * (y - z) <= y,
                d >= 0,
        ;
    }
}

/// Scaling `src` by a factor of at most `dst / src` gives a finite value.
pub proof fn lemma_scaled_is_plain(dst: u64, src: u64, scale: Single)
    requires
        0 < src,
        scale.bits <= quotient(int_single(dst as nat), int_single(src as nat)).bits,
    ensures
        is_plain(int_single(dst as nat)),
        is_plain(int_single(src as nat)),
        int_single(src as nat).bits > 0,
        is_plain(quotient(int_single(dst as nat), int_single(src as nat))),
        is_plain(product(int_single(src as nat), scale)),
{
    lemma_int_single_steps(dst);
    lemma_int_single_steps(src);
    lemma_int_single_positive(src);
    lemma_int_single_at_most(dst);
    lemma_scaled_steps(dst, src);
    let a = int_single(dst as nat).bits;
    let b = int_single(src as nat).bits;
    let q = quotient(int_single(dst as nat), int_single(src as nat)).bits;
    lemma_steps_monotone(scale.bits, q);
    let n = steps(b) * steps(scale.bits);
    let m = steps(b) * steps(q);
    assert(n <= m) by (nonlinear_arith)
        requires
            n == steps(b) * steps(scale.bits),
            m == steps(b) * steps(q),
            steps(scale.bits) <= steps(q),
            steps(b) >= 0,
    ;
    lemma2_to64();
    lemma_pow2_pos(149);
    lemma_pow2_adds(214, 149);
    lemma_pow2_adds(1, 363);
    lemma_pow2_strictly_increases(238, 364);
    assert(0xFF_FFFF * m <= 0x100_0000 * (steps(a) * pow2(149)) ==> m <= 2 * pow2(363))
        by (nonlinear_arith)
        requires
            pow2(363) == pow2(214) * pow2(149),
            0 <= steps(a) <= pow2(214),
            0 <= m,
            0 < pow2(149),
    ;
    lemma_top_value();
    lemma_pow2_adds(216, 149);
    lemma_pow2_strictly_increases(364, 365);
    lemma_nearest_at_most(n, pow2(149), 0x6100_0000);
}

proof fn lemma_top_value()
    ensures
        steps(0x6100_0000) == pow2(216),
{
    lemma2_to64();
    lemma_pow2_adds(23, 193);
    assert(steps(0x6100_0000) == 0x80_0000 * pow2(193));
}

/// Scaling `src` by a factor of at most `dst / src` gives at most `dst`, in spite of every
/// rounding on the way.
pub proof fn lemma_scaled_fits(dst: u64, src: u64, scale: Single)
    requires
        0 < dst < 0x40_0000,
        0 < src,
        scale.bits <= quotient(int_single(dst as nat), int_single(src as nat)).bits,
    ensures
        is_plain(int_single(dst as nat)),
        is_plain(int_single(src as nat)),
        int_single(src as nat).bits > 0,
        is_plain(quotient(int_single(dst as nat), int_single(src as nat))),
        is_plain(product(int_single(src as nat), scale)),
        rounded_int(product(int_single(src as nat), scale)) <= dst,
{
    lemma_scaled_is_plain(dst, src, scale);
    lemma_scaled_steps(dst, src);
    lemma_exact(dst as nat, 149);
    let a = int_single(dst as nat).bits;
    let b = int_single(src as nat).bits;
    let q = quotient(int_single(dst as nat), int_single(src as nat)).bits;
    lemma_steps_monotone(scale.bits, q);
    let x = dst as nat;
    let limit = (4 * x + 1) as nat * pow2(147);
    let n = steps(b) * steps(scale.bits);
    let m = steps(b) * steps(q);
    assert(n <= m) by (nonlinear_arith)
        requires
            n == steps(b) * steps(scale.bits),
            m == steps(b) * steps(q),
            steps(scale.bits) <= steps(q),
            steps(b) >= 0,
    ;
    lemma2_to64();
    lemma_pow2_adds(147, 149);
    lemma_pow2_unfold(148);
    lemma_pow2_unfold(149);
    lemma_pow2_pos(147);
    lemma_pow2_strictly_increases(238, 296);
    let p = pow2(149);
    let r = pow2(296);
    lemma_pow2_pos(296);
    assert(m <= limit * p) by (nonlinear_arith)
        requires
            m <= pow2(238) || 0xFF_FFFF * m <= 0x100_0000 * (steps(a) * p),
            pow2(238) <= r,
            steps(a) == x * p,
            limit == (4 * x + 1) * pow2(147),
            p == 4 * pow2(147),
            pow2(147) * p == r,
            r > 0,
            4 * x <= 0xFF_FFFF,
            x >= 0,
    {
        assert(limit * p == (4 * x + 1) * r);
        assert(steps(a) * p == 4 * x * r);
        if m > pow2(238) {
            assert(0xFF_FFFF * m <= 0x100_0000 * (4 * x * r));
            assert(0x100_0000 * (4 * x * r) <= 0xFF_FFFF * ((4 * x + 1) * r));
        } else {
            assert(r <= (4 * x + 1) * r);
        }
    }
    lemma_quarter_above(dst as nat);
    let top = nearest(limit, 1);
    lemma_pow2_pos(149);
    lemma_nearest_at_most(n, pow2(149), top);
    let out = product(int_single(src as nat), scale).bits;
    lemma_steps_monotone(out, top);
    lemma_pow2_unfold(150);
    let h = pow2(147);
    assert((2 * steps(out) + pow2(149)) / pow2(150) <= dst) by (nonlinear_arith)
        requires
            steps(out) <= (4 * dst + 1) * h,
            pow2(149) == 4 * h,
            pow2(150) == 8 * h,
            h > 0,
            steps(out) >= 0,
    {
        let y = 2 * steps(out) + pow2(149);
        assert(y < (dst + 1) * (8 * h));
        let c = y / (8 * h);
        assert(c * (8 * h) <= y);
        assert(c < dst + 1);
    }
}

/// A fraction of a whole, applied to another whole, is finite.
pub proof fn lemma_fraction_is_plain(part: u64, whole: u64, src: u64)
    requires
        part <= whole,
        0 < whole,
    ensures
        is_plain(int_single(part as nat)),
        is_plain(int_single(whole as nat)),
        is_plain(int_single(src as nat)),
        int_single(whole as nat).bits > 0,
        is_plain(quotient(int_single(part as nat), int_single(whole as nat))),
        is_plain(
            product(
                quotient(int_single(part as nat), int_single(whole as nat)),
                int_single(src as nat),
            ),
        ),
{
    let p = pow2(149);
    let one: u32 = 0x3F80_0000;
    lemma_pow2_pos(149);
    lemma_known_values();
    lemma_int_single_steps(part);
    lemma_int_single_steps(whole);
    lemma_int_single_steps(src);
    lemma_int_single_positive(whole);
    let a = int_single(part as nat).bits;
    let b = int_single(whole as nat).bits;
    let s = int_single(src as nat).bits;
    assert((part as nat * p) * 1 <= (whole as nat * p) * 1) by (nonlinear_arith)
        requires
            part <= whole,
            p > 0,
    ;
    lemma_nearest_pattern_monotone(part as nat * p, 1, whole as nat * p, 1);
    lemma_steps_monotone(a, b);
    assert(steps(a) * p <= p * steps(b)) by (nonlinear_arith)
        requires
            steps(a) <= steps(b),
            p > 0,
    ;
    lemma_nearest_at_most(steps(a) * p, steps(b), one);
    let f = quotient(int_single(part as nat), int_single(whole as nat)).bits;
    lemma_steps_monotone(f, one);
    assert(steps(f) * steps(s) <= steps(s) * p) by (nonlinear_arith)
        requires
            steps(f) <= p,
            steps(s) >= 0,
    ;
    lemma_nearest_at_most(steps(f) * steps(s), p, s);
}

/// Neighbouring values differ by one part in 2^23 of the lower one, or by one step.
proof fn lemma_gap_above(b: u32)
    requires
        b < INFINITY_BITS,
    ensures
        0x80_0000 * (steps((b + 1) as u32) - steps(b)) <= steps(b) + 0x80_0000,
{
    let above = (b + 1) as u32;
    lemma2_to64();
    if b < BINADE {
        if above == BINADE {
            assert(steps(above) == 0x80_0000 * pow2(0));
        }
    } else {
        let e = (b / BINADE - 1) as nat;
        let p = pow2(e);
        lemma_pow2_pos(e);
        let m = b % BINADE;
        assert(0x80_0000 * p <= (0x80_0000 + m) * p) by (nonlinear_arith)
            requires
                m >= 0,
                p > 0,
        ;
        if m < 0x7F_FFFF {
            assert(above / BINADE == b / BINADE && above % BINADE == m + 1);
            assert((0x80_0000 + m + 1) * p - (0x80_0000 + m) * p == p) by (nonlinear_arith);
        } else {
            assert(above / BINADE == b / BINADE + 1 && above % BINADE == 0);
            lemma_pow2_unfold(e + 1);
            assert(steps(above) == 0x80_0000 * (2 * p));
            assert(steps(b) == 0xFF_FFFF * p);
        }
    }
}

/// Rounding errs by one part in 2^24 at most, or by half a step.
pub proof fn law_rounding_error_is_small(n: nat, d: nat)
    requires
        d > 0,
        nearest(n, d) < INFINITY_BITS,
    ensures
        0x100_0000 * distance(n, d, steps(nearest(n, d))) <= (steps(nearest(n, d)) + 0x80_0000) * d,
{
    let r = nearest(n, d);
    let x = steps(r) as int;
    lemma_between_midpoints(n, d);
    lemma_gap_above(r);
    let z = steps((r + 1) as u32) as int;
    if x * d >= n {
        if r > 0 {
            let y = steps((r - 1) as u32) as int;
            lemma_gap_above((r - 1) as u32);
            lemma_steps_monotone((r - 1) as u32, r);
            assert(0x100_0000 * (x * d - n) <= (x + 0x80_0000) * d) by (nonlinear_arith)
                requires
                    (x + y) * d <= 2 * n,
                    0x80_0000 * (x - y) <= y + 0x80_0000,
                    y <= x,
                    d > 0,
            ;
        } else {
            assert(0 * d == 0);
            assert(0x80_0000 * d >= 0) by (nonlinear_arith)
                requires
                    d > 0,
            ;
            assert((x + 0x80_0000) * d >= 0) by (nonlinear_arith)
                requires
                    x >= 0,
                    d > 0,
            ;
        }
    } else {
        assert(0x100_0000 * (n - x * d) <= (x + 0x80_0000) * d) by (nonlinear_arith)
            requires
                2 * n <= (x + z) * d,
                0x80_0000 * (z - x) <= x + 0x80_0000,
                d > 0,
        ;
    }
}

/// A whole number below 2^24 is exact.
pub proof fn law_small_integers_are_exact(x: nat)
    requires
        x < 0x100_0000,
    ensures
        is_plain(int_single(x)),
        steps(int_single(x).bits) == x * pow2(149),
{
    lemma2_to64();
    if x == 0 {
        assert(0 * pow2(149) == 0);
    } else {
        lemma_exact(x, 149);
    }
}

/// A layer lies at its number times the layer height, counted from one: no value of the
/// format lies nearer to that.
pub proof fn law_layers_lie_at_multiples_of_the_height(index: nat, height: Single, other: u32)
    requires
        index + 1 < 0x100_0000,
        height.bits < INFINITY_BITS,
        layer_position(index, height).bits < INFINITY_BITS,
        other < INFINITY_BITS,
    ensures
        distance(
            (index + 1) * steps(height.bits),
            1,
            steps(layer_position(index, height).bits),
        ) <= distance((index + 1) * steps(height.bits), 1, steps(other)),
{
    let p = pow2(149);
    lemma_pow2_pos(149);
    law_small_integers_are_exact(index);
    assert(index * p + p == (index + 1) * p) by (nonlinear_arith);
    lemma_exact(index + 1, 149);
    let number = plus_one(int_single(index));
    let h = steps(height.bits);
    assert(steps(number.bits) == (index + 1) * p);
    let n = steps(number.bits) * h;
    let z = layer_position(index, height).bits;
    assert(z == nearest(n, p));
    law_rounding_is_nearest(n, p, other);
    let m = (index + 1) * h;
    assert(n == m * p) by (nonlinear_arith)
        requires
            n == ((index + 1) * p) * h,
            m == (index + 1) * h,
    ;
    let (a, b) = (steps(z) as int, steps(other) as int);
    assert(a * p - m * p == (a - m) * p && b * p - m * p == (b - m) * p) by (nonlinear_arith);
    let (da, db) = (distance(m, 1, steps(z)), distance(m, 1, steps(other)));
    assert(a * 1 == a && b * 1 == b);
    assert((a - m) * p >= 0 <==> a >= m) by (nonlinear_arith)
        requires
            p > 0,
    ;
    assert((b - m) * p >= 0 <==> b >= m) by (nonlinear_arith)
        requires
            p > 0,
    ;
    assert((m - a) * p == -((a - m) * p) && (m - b) * p == -((b - m) * p)) by (nonlinear_arith);
    assert(distance(n, p, steps(z)) == da * p);
    assert(distance(n, p, steps(other)) == db * p);
    assert(da <= db) by (nonlinear_arith)
        requires
            da * p <= db * p,
            p > 0,
    ;
}

/// The level of a percentage is that share of 255, to within 0.51: a percentage above 100
/// counts as 100, and one that is not above zero as zero.
pub proof fn law_level_is_a_share_of_255(percent: Single)
    ensures
        percent.bits > INFINITY_BITS || percent.bits == 0 ==> pwm_level(percent) == 0,
        HUNDRED_BITS <= percent.bits <= INFINITY_BITS ==> pwm_level(percent) == 255,
        percent.bits <= HUNDRED_BITS ==> {
            let exact = 255 * steps(percent.bits);
            let level = pwm_level(percent) * (100 * pow2(149));
            &&& level - exact <= 51 * pow2(149)
            &&& exact - level <= 51 * pow2(149)
        },
{
    let p = pow2(149);
    let hundred = Single { bits: HUNDRED_BITS };
    let top = Single { bits: BYTE_MAX_BITS };
    let c = clamped_percent(percent);
    lemma_pow2_pos(149);
    lemma_known_values();
    lemma_pwm_level(percent);
    let x = steps(c.bits);
    let fraction = quotient(c, hundred);
    let f = steps(fraction.bits);
    let scaled = product(fraction, top);
    let y = steps(scaled.bits);
    lemma2_to64();
    lemma_pow2_adds(126, 23);
    lemma_pow2_strictly_increases(0, 126);
    assert(p >= 0x80_0000);
    lemma_steps_monotone(c.bits, HUNDRED_BITS);
    assert(x * p <= p * (100 * p)) by (nonlinear_arith)
        requires
            x <= 100 * p,
    ;
    lemma_nearest_at_most(x * p, 100 * p, 0x3F80_0000);
    lemma_steps_monotone(fraction.bits, 0x3F80_0000);
    assert(f * (255 * p) <= (255 * p) * p) by (nonlinear_arith)
        requires
            f <= p,
    ;
    lemma_nearest_at_most(f * (255 * p), p, BYTE_MAX_BITS);
    lemma_steps_monotone(scaled.bits, BYTE_MAX_BITS);
    law_rounding_error_is_small(x * p, 100 * p);
    law_rounding_error_is_small(f * (255 * p), p);
    let (fi, xi, yi, pi) = (f as int, x as int, y as int, p as int);
    let first = distance(x * p, 100 * p, f);
    let second = distance(f * (255 * p), p, y);
    let e = if 100 * fi >= xi {
        100 * fi - xi
    } else {
        xi - 100 * fi
    };
    let g = if yi >= 255 * fi {
        yi - 255 * fi
    } else {
        255 * fi - yi
    };
    assert(f * (100 * p) - x * p == (100 * fi - xi) * pi && x * p - f * (100 * p) == (xi - 100 * fi)
        * pi) by (nonlinear_arith)
        requires
            fi == f,
            xi == x,
            pi == p,
    ;
    assert(y * p - f * (255 * p) == (yi - 255 * fi) * pi && f * (255 * p) - y * p == (255 * fi - yi)
        * pi) by (nonlinear_arith)
        requires
            fi == f,
            yi == y,
            pi == p,
    ;
    assert((100 * fi - xi) * pi >= 0 <==> 100 * fi >= xi) by (nonlinear_arith)
        requires
            pi > 0,
    ;
    assert((yi - 255 * fi) * pi >= 0 <==> yi >= 255 * fi) by (nonlinear_arith)
        requires
            pi > 0,
    ;
    assert(first == e * pi);
    assert(second == g * pi);
    assert(0x100_0000 * e <= 200 * pi) by (nonlinear_arith)
        requires
            0x100_0000 * (e * pi) <= (fi + 0x80_0000) * (100 * pi),
            fi <= pi,
            0x80_0000 <= pi,
            pi > 0,
    ;
    assert(0x100_0000 * g <= 256 * pi) by (nonlinear_arith)
        requires
            0x100_0000 * (g * pi) <= (yi + 0x80_0000) * pi,
            yi <= 255 * pi,
            0x80_0000 <= pi,
            pi > 0,
    ;
    let level = pwm_level(percent) as int;
    lemma_pow2_unfold(150);
    lemma_fundamental_div_mod(2 * yi + pi, 2 * pi);
    lemma_mod_bound(2 * yi + pi, 2 * pi);
    let share = level * pi;
    assert((2 * pi) * level == 2 * share && level * (100 * pi) == 100 * share) by (nonlinear_arith)
        requires
            share == level * pi,
    ;
    assert(share <= 255 * pi ==> level <= 255) by (nonlinear_arith)
        requires
            share == level * pi,
            pi > 0,
    ;
    if xi == 0 {
        assert(level <= 0) by (nonlinear_arith)
            requires
                share == level * pi,
                100 * share <= 51 * pi,
                pi > 0,
        ;
    }
    if xi == 100 * pi {
        assert(level >= 255) by (nonlinear_arith)
            requires
                share == level * pi,
                100 * share >= 25449 * pi,
                pi > 0,
        ;
    }
}

/// A share `a / b` of `c` that is computed in two steps, each rounded, is off by half at most
/// where it is not above 2^20.
pub proof fn law_share_is_near(a: nat, b: nat, c: nat)
    requires
        a < 0x100_0000,
        0 < b < 0x100_0000,
        c < 0x100_0000,
        a * c <= 0x10_0000 * b,
        is_plain(quotient(int_single(a), int_single(b))),
        is_plain(product(quotient(int_single(a), int_single(b)), int_single(c))),
    ensures
        product(quotient(int_single(a), int_single(b)), int_single(c)) == product(
            int_single(c),
            quotient(int_single(a), int_single(b)),
        ),
        ({
            let v = steps(product(quotient(int_single(a), int_single(b)), int_single(c)).bits);
            let exact = a * c * pow2(149);
            2 * (v * b) <= 2 * exact + b * pow2(149) && 2 * exact <= 2 * (v * b) + b * pow2(149)
        }),
{
    let p = pow2(149);
    let qs = quotient(int_single(a), int_single(b));
    let q = steps(qs.bits);
    let v = steps(product(qs, int_single(c)).bits);
    lemma_pow2_pos(149);
    law_small_integers_are_exact(a);
    law_small_integers_are_exact(b);
    law_small_integers_are_exact(c);
    assert(q * steps(int_single(c).bits) == steps(int_single(c).bits) * q) by (nonlinear_arith);
    assert(b * p > 0) by (nonlinear_arith)
        requires
            b > 0,
            p > 0,
    ;
    law_rounding_error_is_small((a * p) * p, b * p);
    law_rounding_error_is_small(q * (c * p), p);
    // The first step.
    let qb = q * b;
    let ap = a * p;
    assert(q * (b * p) == qb * p) by (nonlinear_arith)
        requires
            qb == q * b,
    ;
    assert((q + 0x80_0000) * (b * p) == (qb + 0x80_0000 * b) * p) by (nonlinear_arith)
        requires
            qb == q * b,
    ;
    assert((a * p) * p == ap * p);
    let first = if qb >= ap {
        qb - ap
    } else {
        ap - qb
    };
    assert(0x100_0000 * first <= qb + 0x80_0000 * b) by (nonlinear_arith)
        requires
            first == (if qb >= ap {
                qb - ap
            } else {
                ap - qb
            }),
            0x100_0000 * distance(ap * p, b * p, q) <= (qb + 0x80_0000 * b) * p,
            distance(ap * p, b * p, q) == (if qb * p >= ap * p {
                qb * p - ap * p
            } else {
                ap * p - qb * p
            }),
            p > 0,
    {
        assert(distance(ap * p, b * p, q) == first * p);
    }
    // The second step.
    let qc = q * c;
    assert(q * (c * p) == qc * p) by (nonlinear_arith)
        requires
            qc == q * c,
    ;
    let second = if v >= qc {
        v - qc
    } else {
        qc - v
    };
    assert(0x100_0000 * second <= v + 0x80_0000) by (nonlinear_arith)
        requires
            second == (if v >= qc {
                v - qc
            } else {
                qc - v
            }),
            0x100_0000 * distance(qc * p, p, v) <= (v + 0x80_0000) * p,
            distance(qc * p, p, v) == (if v * p >= qc * p {
                v * p - qc * p
            } else {
                qc * p - v * p
            }),
            p > 0,
    {
        assert(distance(qc * p, p, v) == second * p);
    }
    // Both steps.
    let vb = v * b;
    let e = a * c * p;
    let qcb = qc * b;
    assert(qcb == qb * c) by (nonlinear_arith)
        requires
            qcb == qc * b,
            qc == q * c,
            qb == q * b,
    ;
    assert(e == ap * c) by (nonlinear_arith)
        requires
            e == a * c * p,
            ap == a * p,
    ;
    let fc = first * c;
    let sb = second * b;
    assert(0x100_0000 * fc <= qcb + 0x80_0000 * (b * c)) by (nonlinear_arith)
        requires
            fc == first * c,
            0x100_0000 * first <= qb + 0x80_0000 * b,
            qcb == qb * c,
            c >= 0,
    ;
    assert(0x100_0000 * sb <= vb + 0x80_0000 * b) by (nonlinear_arith)
        requires
            sb == second * b,
            0x100_0000 * second <= v + 0x80_0000,
            vb == v * b,
            b >= 0,
    ;
    assert(-fc <= qcb - e <= fc) by (nonlinear_arith)
        requires
            fc == first * c,
            -first <= qb - ap <= first,
            qcb == qb * c,
            e == ap * c,
            c >= 0,
    ;
    assert(-sb <= vb - qcb <= sb) by (nonlinear_arith)
        requires
            sb == second * b,
            -second <= v - qc <= second,
            vb == v * b,
            qcb == qc * b,
            b >= 0,
    ;
    let bp = b * p;
    assert(e <= 0x10_0000 * bp) by (nonlinear_arith)
        requires
            e == a * c * p,
            a * c <= 0x10_0000 * b,
            bp == b * p,
            p > 0,
    ;
    lemma2_to64();
    lemma_pow2_strictly_increases(64, 149);
    let bc = b * c;
    assert(0x80_0000 * bc + 0x80_0000 * b <= bp) by (nonlinear_arith)
        requires
            bc == b * c,
            c < 0x100_0000,
            bp == b * p,
            p >= 0x1_0000_0000_0000_0000,
            b >= 0,
    ;
}

/// The larger the divisor, the smaller the quotient.
pub(crate) proof fn lemma_shares_in_order(n: nat, a: nat, b: nat)
    requires
        n < 0x100_0000,
        0 < a <= b < 0x100_0000,
    ensures
        quotient(int_single(n), int_single(b)).bits <= quotient(int_single(n), int_single(a)).bits,
{
    let p = pow2(149);
    lemma_pow2_pos(149);
    law_small_integers_are_exact(n);
    law_small_integers_are_exact(a);
    law_small_integers_are_exact(b);
    let x = (n * p) * p;
    assert(a * p > 0 && b * p > 0 && x * (a * p) <= x * (b * p)) by (nonlinear_arith)
        requires
            0 < a <= b,
            p > 0,
            x == (n * p) * p,
            n >= 0,
    ;
    lemma_nearest_pattern_monotone(x, b * p, x, a * p);
}

/// The magnitude of a finite double, as a fraction of the unit 2^-149: its bits below the
/// exponent, with the leading one where there is an exponent, times two to the exponent, over
/// 2^926.
pub open spec fn double_steps(bits: u64) -> (nat, nat) {
    let exponent = (bits / 0x10_0000_0000_0000) as nat % 2048;
    let fraction = bits as nat % 0x10_0000_0000_0000;
    if exponent == 0 {
        (fraction * 2, pow2(926))
    } else {
        ((0x10_0000_0000_0000 + fraction) * pow2(exponent), pow2(926))
    }
}

/// Narrowing a finite double keeps its sign, and gives the nearest value: no other finite value
/// is nearer, unless the double is so large that it becomes infinite.
pub proof fn law_narrowing_is_nearest(bits: u64, other: u32)
    requires
        is_finite_double(bits),
        other < INFINITY_BITS,
    ensures
        narrowed(bits).bits >= 0x8000_0000 <==> bits >= 0x8000_0000_0000_0000,
        ({
            let magnitude = (narrowed(bits).bits % 0x8000_0000) as u32;
            let (n, d) = double_steps(bits);
            magnitude < INFINITY_BITS ==> distance(n, d, steps(magnitude)) <= distance(
                n,
                d,
                steps(other),
            )
        }),
{
    let (n, d) = double_steps(bits);
    lemma2_to64();
    lemma_pow2_pos(926);
    let sign = bits / 0x8000_0000_0000_0000;
    assert(sign == 0 || sign == 1);
    let magnitude = nearest(n, d);
    assert(magnitude <= INFINITY_BITS);
    assert(narrowed(bits).bits == sign * 0x8000_0000 + magnitude);
    if magnitude < INFINITY_BITS {
        law_rounding_is_nearest(n, d, other);
    }
}

/// The integer part of a value does not exceed it, and lacks less than one. The nearest integer
/// is off by half at most, and above the value where two are as near.
pub proof fn law_integers_are_near(s: Single)
    ensures
        integer_part(s) * pow2(149) <= steps(s.bits) < (integer_part(s) + 1) * pow2(149),
        2 * (rounded_int(s) * pow2(149)) <= 2 * steps(s.bits) + pow2(149),
        2 * steps(s.bits) < 2 * (rounded_int(s) * pow2(149)) + pow2(149),
{
    let p = pow2(149);
    let v = steps(s.bits);
    lemma_pow2_pos(149);
    lemma_pow2_unfold(150);
    let (a, b) = (v / p, (2 * v + p) / (2 * p));
    assert(a * p <= v < (a + 1) * p) by (nonlinear_arith)
        requires
            a == v / p,
            p > 0,
            v >= 0,
    ;
    assert(2 * (b * p) <= 2 * v + p < 2 * (b * p) + 2 * p) by (nonlinear_arith)
        requires
            b == (2 * v + p) / (2 * p),
            p > 0,
            v >= 0,
    ;
}

/// A negative layer height gives the same positions below zero. An infinite height gives itself,
/// and a height that is no number gives none.
pub proof fn law_positions_keep_the_sign(index: nat, height: Single)
    requires
        height.bits < 0x8000_0000,
    ensures
        ({
            let negative = Single { bits: (height.bits + 0x8000_0000) as u32 };
            layer_position(index, negative).bits == layer_position(index, height).bits
                + 0x8000_0000
        }),
        height.bits == INFINITY_BITS ==> layer_position(index, height) == height,
        height.bits > INFINITY_BITS ==> layer_position(index, height).bits > INFINITY_BITS,
        height.bits < INFINITY_BITS ==> layer_position(index, height).bits <= INFINITY_BITS,
{
}

} // verus!
