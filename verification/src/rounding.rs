//! Rounding of exact binary fractions to a fixed number of significant bits.
//!
//! A magnitude is measured in *units*: the smallest positive value of the
//! binary format at hand. Every finite value of the format is a whole number
//! of units, so sums, products and conversions have an exact magnitude of the
//! form `n / 2^s` units, and each operation rounds that fraction once.

use vstd::arithmetic::div_mod::*;
use vstd::arithmetic::mul::*;
use vstd::arithmetic::power2::*;
use vstd::prelude::*;

verus! {

/// The number of binary digits of `n`; zero has none.
pub open spec fn bit_len(n: nat) -> nat
    decreases n,
{
    if n == 0 {
        0
    } else {
        1 + bit_len(n / 2)
    }
}

/// The whole number nearest to `n / d`, the even one of two equally near.
pub open spec fn round_half_even(n: nat, d: nat) -> nat {
    let floor = n / d;
    let twice_rest = 2 * (n % d);
    if twice_rest > d || (twice_rest == d && floor % 2 == 1) {
        floor + 1
    } else {
        floor
    }
}

/// The exponent of the grid on which `n / 2^s` is rounded: `precision`
/// significant bits, and never finer than one unit.
pub open spec fn grid_exponent(n: nat, s: nat, precision: nat) -> nat {
    if bit_len(n) > s + precision {
        (bit_len(n) - precision) as nat
    } else {
        s
    }
}

/// `n / 2^s` units rounded to `precision` significant bits, in units.
pub open spec fn round_units(n: nat, s: nat, precision: nat) -> nat {
    let q = grid_exponent(n, s, precision);
    round_half_even(n, pow2(q)) * pow2((q - s) as nat)
}

/// The magnitude bits of `v` units: the significand counted on from the
/// exponent field, which is how the format stores both.
pub open spec fn encode(v: nat, precision: nat) -> nat {
    if bit_len(v) > precision {
        let k = (bit_len(v) - precision) as nat;
        k * pow2((precision - 1) as nat) + v / pow2(k)
    } else {
        v
    }
}

/// The units that the magnitude bits `b` stand for.
pub open spec fn decode(b: nat, precision: nat) -> nat {
    let half = pow2((precision - 1) as nat);
    if b < half {
        b
    } else {
        (half + b % half) * pow2((b / half - 1) as nat)
    }
}

pub proof fn lemma_bit_len_bounds(n: nat)
    requires
        n > 0,
    ensures
        bit_len(n) > 0,
        pow2((bit_len(n) - 1) as nat) <= n < pow2(bit_len(n)),
    decreases n,
{
    if n == 1 {
        assert(bit_len(1) == 1 + bit_len(0)) by {
            reveal_with_fuel(bit_len, 2);
        }
        lemma2_to64();
    } else {
        lemma_bit_len_bounds(n / 2);
        let b = bit_len(n / 2);
        lemma_pow2_unfold(b);
        lemma_pow2_unfold((b + 1) as nat);
    }
}

pub proof fn lemma_bit_len_unique(n: nat, k: nat)
    requires
        pow2(k) <= n < pow2((k + 1) as nat),
    ensures
        bit_len(n) == k + 1,
{
    lemma_pow2_pos(k);
    lemma_bit_len_bounds(n);
    let b = bit_len(n);
    if b < k + 1 {
        if b < k {
            lemma_pow2_strictly_increases(b, k);
        }
    } else if b > k + 1 {
        if b - 1 > k + 1 {
            lemma_pow2_strictly_increases((k + 1) as nat, (b - 1) as nat);
        }
    }
}

pub proof fn lemma_bit_len_below(n: nat, k: nat)
    ensures
        bit_len(n) <= k <==> n < pow2(k),
{
    if n == 0 {
        lemma_pow2_pos(k);
    } else {
        lemma_bit_len_bounds(n);
        let b = bit_len(n);
        if b < k {
            lemma_pow2_strictly_increases(b, k);
        }
        if b > k && b - 1 > k {
            lemma_pow2_strictly_increases(k, (b - 1) as nat);
        }
    }
}

/// Appending `c` zero digits makes `n` exactly that much longer.
pub proof fn lemma_bit_len_shift(n: nat, c: nat)
    requires
        n > 0,
    ensures
        bit_len(n * pow2(c)) == bit_len(n) + c,
{
    lemma_bit_len_bounds(n);
    let b = bit_len(n);
    lemma_pow2_adds((b - 1) as nat, c);
    lemma_pow2_adds(b, c);
    lemma_pow2_pos(c);
    lemma_mul_inequality(pow2((b - 1) as nat) as int, n as int, pow2(c) as int);
    lemma_mul_strict_inequality(n as int, pow2(b) as int, pow2(c) as int);
    lemma_bit_len_unique(n * pow2(c), (b - 1 + c) as nat);
}

/// Scaling numerator and denominator alike does not change the rounding.
pub proof fn lemma_round_half_even_scale(n: nat, d: nat, c: nat)
    requires
        d > 0,
        c > 0,
    ensures
        d * c > 0,
        round_half_even(n * c, d * c) == round_half_even(n, d),
{
    lemma_mul_strictly_positive(d as int, c as int);
    let q = n / d;
    let r = n % d;
    lemma_fundamental_div_mod(n as int, d as int);
    assert(n * c == q * (d * c) + r * c) by (nonlinear_arith)
        requires
            n == d * q + r,
    ;
    assert(0 <= r * c < d * c) by (nonlinear_arith)
        requires
            0 <= r < d,
            c > 0,
    ;
    lemma_fundamental_div_mod_converse((n * c) as int, (d * c) as int, q as int, (r * c) as int);
    assert((2 * (r * c) > d * c) == (2 * r > d)) by (nonlinear_arith)
        requires
            c > 0,
    ;
    assert((2 * (r * c) == d * c) == (2 * r == d)) by (nonlinear_arith)
        requires
            c > 0,
    ;
}

/// A whole number rounds to itself.
pub proof fn lemma_round_half_even_exact(n: nat, d: nat)
    requires
        d > 0,
    ensures
        round_half_even(n * d, d) == n,
{
    lemma_fundamental_div_mod_converse((n * d) as int, d as int, n as int, 0);
}

/// Rounding to whole numbers stays between any two whole bounds.
pub proof fn lemma_round_half_even_bounds(n: nat, d: nat, low: nat, high: nat)
    requires
        d > 0,
        low * d <= n <= high * d,
    ensures
        low <= round_half_even(n, d) <= high,
{
    let q = n / d;
    let r = n % d;
    lemma_fundamental_div_mod(n as int, d as int);
    assert(q >= low) by (nonlinear_arith)
        requires
            n == d * q + r,
            0 <= r < d,
            low * d <= n,
    ;
    assert(q < high || (q == high && r == 0)) by (nonlinear_arith)
        requires
            n == d * q + r,
            0 <= r < d,
            n <= high * d,
    ;
}

/// `m * 2^e` units rounded to `precision` significant bits, in units.
pub open spec fn round_scaled(m: nat, e: int, precision: nat) -> nat {
    if e >= 0 {
        round_units(m * pow2(e as nat), 0, precision)
    } else {
        round_units(m, (-e) as nat, precision)
    }
}

/// The rounding of a fraction does not depend on how it is written.
pub proof fn lemma_round_units_scale(n: nat, s: nat, c: nat, precision: nat)
    ensures
        round_units(n * pow2(c), s + c, precision) == round_units(n, s, precision),
{
    lemma_pow2_pos(c);
    let q = grid_exponent(n, s, precision);
    lemma_pow2_pos(q);
    if n == 0 {
        assert(0 * pow2(c) == 0);
        lemma_pow2_pos(s);
        lemma_pow2_pos(s + c);
        assert(round_half_even(0, pow2(s)) == 0);
        assert(round_half_even(0, pow2(s + c)) == 0);
    } else {
        lemma_bit_len_shift(n, c);
        assert(grid_exponent(n * pow2(c), s + c, precision) == q + c);
        lemma_pow2_adds(q, c);
        lemma_round_half_even_scale(n, pow2(q), pow2(c));
    }
}

/// What has at most `precision` significant bits is kept as it is.
pub proof fn lemma_round_units_exact(m: nat, e: nat, precision: nat)
    requires
        bit_len(m) <= precision,
    ensures
        round_units(m * pow2(e), 0, precision) == m * pow2(e),
{
    let n = m * pow2(e);
    let q = grid_exponent(n, 0, precision);
    lemma_pow2_pos(q);
    lemma_pow2_pos(e);
    if m == 0 {
        assert(n == 0);
        lemma2_to64();
    } else {
        lemma_bit_len_shift(m, e);
        assert(q <= e);
        lemma_pow2_adds((e - q) as nat, q);
        let f = m * pow2((e - q) as nat);
        assert(n == f * pow2(q)) by (nonlinear_arith)
            requires
                n == m * pow2(e),
                f == m * pow2((e - q) as nat),
                pow2(e) == pow2((e - q) as nat) * pow2(q),
        ;
        lemma_round_half_even_exact(f, pow2(q));
    }
}

/// A significand and its exponent are stored as `k * 2^(precision - 1) + f`.
pub proof fn lemma_encode_parts(f: nat, k: nat, precision: nat)
    requires
        precision > 0,
        f <= pow2(precision),
        k > 0 ==> f >= pow2((precision - 1) as nat),
    ensures
        encode(f * pow2(k), precision) == k * pow2((precision - 1) as nat) + f,
        decode(k * pow2((precision - 1) as nat) + f, precision) == f * pow2(k),
{
    let half = pow2((precision - 1) as nat);
    let v = f * pow2(k);
    let b = k * half + f;
    lemma_pow2_pos(k);
    lemma_pow2_pos((precision - 1) as nat);
    lemma_pow2_unfold(precision);
    lemma2_to64();
    if f == pow2(precision) {
        lemma_pow2_adds(precision, k);
        lemma_pow2_adds((precision - 1) as nat, (k + 1) as nat);
        lemma_pow2_pos((k + 1) as nat);
        assert((precision - 1) as nat + (k + 1) as nat == precision + k);
        assert(v == half * pow2((k + 1) as nat));
        lemma_pow2_strictly_increases((precision + k) as nat, (precision + k + 1) as nat);
        lemma_bit_len_unique(v, (precision + k) as nat);
        lemma_fundamental_div_mod_converse(v as int, pow2((k + 1) as nat) as int, half as int, 0);
        assert(b == (k + 2) * half) by (nonlinear_arith)
            requires
                b == k * half + f,
                f == 2 * half,
        ;
        assert((k + 1) * half + half == b) by (nonlinear_arith)
            requires
                b == (k + 2) * half,
        ;
        lemma_fundamental_div_mod_converse(b as int, half as int, (k + 2) as int, 0);
        assert(b >= half) by (nonlinear_arith)
            requires
                b == (k + 2) * half,
                half > 0,
        ;
    } else if f >= half {
        lemma_bit_len_unique(f, (precision - 1) as nat);
        lemma_bit_len_shift(f, k);
        lemma_fundamental_div_mod_converse(v as int, pow2(k) as int, f as int, 0);
        assert(b == (k + 1) * half + (f - half)) by (nonlinear_arith)
            requires
                b == k * half + f,
        ;
        lemma_fundamental_div_mod_converse(
            b as int,
            half as int,
            (k + 1) as int,
            (f - half) as int,
        );
        assert(b >= half) by (nonlinear_arith)
            requires
                b == (k + 1) * half + (f - half),
                f >= half,
        ;
    } else {
        assert(0 * half == 0);
        lemma_bit_len_below(f, precision);
    }
}

/// Zero stands at distance zero.
pub proof fn lemma_zero_decodes()
    ensures
        decode(0, 24) == 0,
{
    lemma2_to64();
}

/// Every stored magnitude is the encoding of what it stands for.
pub proof fn lemma_encode_decode(b: nat, precision: nat)
    requires
        precision > 0,
    ensures
        encode(decode(b, precision), precision) == b,
{
    let half = pow2((precision - 1) as nat);
    lemma_pow2_pos((precision - 1) as nat);
    lemma_pow2_unfold(precision);
    lemma2_to64();
    if b < half {
        lemma_encode_parts(b, 0, precision);
        assert(0 * half == 0);
    } else {
        let q = b / half;
        lemma_fundamental_div_mod(b as int, half as int);
        assert(q >= 1) by (nonlinear_arith)
            requires
                b == half * q + b % half,
                b >= half,
                0 <= b % half < half,
        ;
        lemma_encode_parts(half + b % half, (q - 1) as nat, precision);
        assert((q - 1) * half + (half + b % half) == b) by (nonlinear_arith)
            requires
                b == half * q + b % half,
        ;
    }
}

/// Larger stored magnitudes stand for larger values.
pub proof fn lemma_decode_increases(a: nat, b: nat, precision: nat)
    requires
        precision > 0,
        a < b,
    ensures
        decode(a, precision) < decode(b, precision),
{
    let half = pow2((precision - 1) as nat);
    lemma_pow2_pos((precision - 1) as nat);
    if b >= half {
        let qb = b / half;
        lemma_fundamental_div_mod(b as int, half as int);
        assert(qb >= 1) by (nonlinear_arith)
            requires
                b == half * qb + b % half,
                b >= half,
                0 <= b % half < half,
        ;
        let scale_b = pow2((qb - 1) as nat);
        lemma_pow2_pos((qb - 1) as nat);
        assert((half + b % half) * scale_b >= half * scale_b) by (nonlinear_arith)
            requires
                b % half >= 0,
                scale_b > 0,
        ;
        if a < half {
            assert(half * scale_b >= half) by (nonlinear_arith)
                requires
                    scale_b > 0,
            ;
        } else {
            let qa = a / half;
            lemma_fundamental_div_mod(a as int, half as int);
            assert(1 <= qa <= qb) by (nonlinear_arith)
                requires
                    a == half * qa + a % half,
                    b == half * qb + b % half,
                    0 <= a % half < half,
                    0 <= b % half < half,
                    half <= a < b,
            ;
            let scale_a = pow2((qa - 1) as nat);
            lemma_pow2_pos((qa - 1) as nat);
            if qa == qb {
                assert(a % half < b % half);
                lemma_mul_strict_inequality(
                    (half + a % half) as int,
                    (half + b % half) as int,
                    scale_a as int,
                );
            } else {
                lemma_pow2_unfold(qa);
                if qa < qb - 1 {
                    lemma_pow2_strictly_increases(qa, (qb - 1) as nat);
                }
                assert((half + a % half) * scale_a < half * scale_b) by (nonlinear_arith)
                    requires
                        0 <= a % half < half,
                        scale_b >= 2 * scale_a,
                        scale_a > 0,
                ;
            }
        }
    }
}

/// `2^d` as a machine number.
pub fn power(d: u32) -> (r: u128)
    requires
        d < 127,
    ensures
        r == pow2(d as nat),
        r < pow2(127),
{
    let low: u32 = d / 2;
    let high: u32 = d - low;
    proof {
        lemma_pow2_adds(low as nat, high as nat);
        lemma_pow2_strictly_increases(d as nat, 127);
        lemma2_to64();
        lemma2_to64_rest();
        lemma_pow2_adds(63, 64);
        if low < 63 {
            lemma_pow2_strictly_increases(low as nat, 63);
        }
        if high < 63 {
            lemma_pow2_strictly_increases(high as nat, 63);
        }
        vstd::bits::lemma_u64_shl_is_mul(1, low as u64);
        vstd::bits::lemma_u64_shl_is_mul(1, high as u64);
        assert(pow2(low as nat) * pow2(high as nat) <= 0x8000_0000_0000_0000
            * 0x8000_0000_0000_0000) by (nonlinear_arith)
            requires
                pow2(low as nat) <= 0x8000_0000_0000_0000,
                pow2(high as nat) <= 0x8000_0000_0000_0000,
        ;
    }
    let a: u64 = 1u64 << low as u64;
    let b: u64 = 1u64 << high as u64;
    a as u128 * b as u128
}

/// The number of binary digits of `m`.
fn bit_length(m: u128) -> (b: u32)
    ensures
        b == bit_len(m as nat),
        b <= 128,
{
    let mut rest: u128 = m;
    let mut b: u32 = 0;
    proof {
        lemma2_to64();
        lemma2_to64_rest();
        lemma_pow2_adds(64, 64);
        lemma_bit_len_below(m as nat, 128);
    }
    while rest > 0
        invariant
            b + bit_len(rest as nat) == bit_len(m as nat),
            bit_len(m as nat) <= 128,
        decreases rest,
    {
        rest = rest / 2;
        b = b + 1;
    }
    b
}

/// The whole number nearest to `n / 2^q`, the even one of two equally near.
pub fn nearest(n: u128, q: u32) -> (r: u128)
    requires
        n < pow2(126),
    ensures
        r == round_half_even(n as nat, pow2(q as nat)),
{
    proof {
        lemma2_to64();
        lemma2_to64_rest();
        lemma_pow2_adds(62, 64);
        lemma_pow2_adds(63, 64);
        lemma_pow2_pos(q as nat);
    }
    if q >= 127 {
        proof {
            if q > 127 {
                lemma_pow2_strictly_increases(127, q as nat);
            }
            lemma_pow2_unfold(127);
            lemma_small_mod(n as nat, pow2(q as nat));
            lemma_basic_div(n as int, pow2(q as nat) as int);
        }
        return 0;
    }
    let d: u128 = power(q);
    let floor: u128 = n / d;
    let rest: u128 = n % d;
    proof {
        lemma_fundamental_div_mod(n as int, d as int);
        lemma_div_nonincreasing(n as int, d as int);
    }
    let above: bool = rest > d - rest || (rest == d - rest && floor % 2 == 1);
    if above {
        floor + 1
    } else {
        floor
    }
}

/// Rounds `m * 2^e` units to `precision` significant bits, giving a
/// significand and the exponent of its last digit.
pub fn round_magnitude(m: u128, e: i32, precision: u32) -> (r: (u128, u32))
    requires
        m < pow2(126),
        0 < precision <= 60,
        -10000 <= e <= 10000,
    ensures
        r.0 * pow2(r.1 as nat) == round_scaled(m as nat, e as int, precision as nat),
        r.0 <= pow2(precision as nat),
        r.1 > 0 ==> r.0 >= pow2((precision - 1) as nat),
        r.1 <= 10200,
{
    let b: u32 = bit_length(m);
    proof {
        lemma_bit_len_below(m as nat, 126);
        lemma_pow2_pos(precision as nat);
        lemma2_to64();
    }
    if m == 0 {
        proof {
            if e >= 0 {
                assert(0 * pow2(e as nat) == 0);
                assert(round_half_even(0, pow2(0)) == 0);
            } else {
                lemma_pow2_pos((-e) as nat);
                assert(round_half_even(0, pow2((-e) as nat)) == 0);
            }
        }
        return (0, 0);
    }
    proof {
        lemma_bit_len_bounds(m as nat);
    }
    let ghost p = precision as nat;
    let ghost n = m as nat;
    if e >= 0 && b <= precision {
        // Exact: move as much of the exponent into the significand as fits.
        let room: u32 = precision - b;
        let c: u32 = if e as u32 <= room { e as u32 } else { room };
        proof {
            lemma_round_units_exact(n, e as nat, p);
            lemma_pow2_adds(c as nat, (e - c) as nat);
            lemma_bit_len_shift(n, c as nat);
            let f = n * pow2(c as nat);
            lemma_bit_len_below(f, p);
            lemma_bit_len_bounds(f);
            lemma2_to64_rest();
            if p < 60 {
                lemma_pow2_strictly_increases(p, 60);
            }
            assert(n * pow2(c as nat) < 0x1000_0000_0000_0000);
            assert(f * pow2((e - c) as nat) == n * pow2(e as nat)) by (nonlinear_arith)
                requires
                    f == n * pow2(c as nat),
                    pow2(e as nat) == pow2(c as nat) * pow2((e - c) as nat),
            ;
        }
        let f: u128 = m * power(c);
        (f, e as u32 - c)
    } else if e >= 0 {
        let q: u32 = b - precision;
        let f: u128 = nearest(m, q);
        proof {
            lemma_round_units_scale(n, 0, e as nat, p);
            lemma_bit_len_shift(n, e as nat);
            let big = n * pow2(e as nat);
            assert(grid_exponent(big, 0, p) == q + e);
            lemma_pow2_adds(q as nat, e as nat);
            lemma_pow2_pos(q as nat);
            lemma_pow2_pos(e as nat);
            lemma_round_half_even_scale(n, pow2(q as nat), pow2(e as nat));
            lemma_pow2_adds((p - 1) as nat, q as nat);
            lemma_pow2_adds(p, q as nat);
            lemma_round_half_even_bounds(
                n,
                pow2(q as nat),
                pow2((p - 1) as nat),
                pow2(p),
            );
        }
        (f, q + e as u32)
    } else {
        let s: u32 = (-e) as u32;
        let q: u32 = if b > s + precision { b - precision } else { s };
        let f: u128 = nearest(m, q);
        proof {
            lemma_pow2_pos(q as nat);
            if b > s + precision {
                lemma_pow2_adds((p - 1) as nat, q as nat);
                lemma_pow2_adds(p, q as nat);
                lemma_round_half_even_bounds(
                    n,
                    pow2(q as nat),
                    pow2((p - 1) as nat),
                    pow2(p),
                );
            } else {
                lemma_bit_len_below(n, (s + p) as nat);
                lemma_pow2_adds(p, s as nat);
                lemma_round_half_even_bounds(n, pow2(q as nat), 0, pow2(p));
            }
        }
        (f, q - s)
    }
}

/// How the fraction part of a number compares with one half.
#[derive(Clone, Copy, PartialEq, Eq, Structural)]
pub enum Fraction {
    Zero,
    BelowHalf,
    Half,
    AboveHalf,
}

/// The bound above which [`split_scaled`] no longer tells whole parts apart.
pub const SPLIT_CAP: u64 = 0x100_0000_0000;

/// The whole part of `m * 2^e / 2^point`, up to [`SPLIT_CAP`], and what is left
/// over.
pub fn split_scaled(m: u128, e: u32, point: u32) -> (r: (u64, Fraction))
    requires
        m < pow2(60),
    ensures
        r.0 <= SPLIT_CAP,
        ({
            let units = m as nat * pow2(e as nat);
            let d = pow2(point as nat);
            if r.0 < SPLIT_CAP {
                &&& r.0 == units / d
                &&& match r.1 {
                    Fraction::Zero => units % d == 0,
                    Fraction::BelowHalf => 0 < 2 * (units % d) < d,
                    Fraction::Half => 2 * (units % d) == d,
                    Fraction::AboveHalf => 2 * (units % d) > d,
                }
            } else {
                units / d >= SPLIT_CAP
            }
        }),
{
    let ghost units = m as nat * pow2(e as nat);
    let ghost d = pow2(point as nat);
    proof {
        lemma2_to64();
        lemma2_to64_rest();
        lemma_pow2_pos(point as nat);
    }
    if m == 0 {
        assert(units == 0) by (nonlinear_arith)
            requires
                units == m as nat * pow2(e as nat),
                m == 0,
        ;
        proof {
            lemma_small_mod(0, d);
            lemma_basic_div(0, d as int);
        }
        return (0, Fraction::Zero);
    }
    if e >= point {
        let k: u32 = e - point;
        proof {
            lemma_pow2_adds(k as nat, point as nat);
            let whole = m as nat * pow2(k as nat);
            assert(units == whole * d) by (nonlinear_arith)
                requires
                    units == m as nat * pow2(e as nat),
                    whole == m as nat * pow2(k as nat),
                    pow2(e as nat) == pow2(k as nat) * d,
            ;
            lemma_fundamental_div_mod_converse(units as int, d as int, whole as int, 0);
        }
        if k > 40 {
            proof {
                lemma_pow2_strictly_increases(40, k as nat);
                assert(m as nat * pow2(k as nat) >= pow2(k as nat)) by (nonlinear_arith)
                    requires
                        m >= 1,
                ;
            }
            return (SPLIT_CAP, Fraction::Zero);
        }
        proof {
            if k < 40 {
                lemma_pow2_strictly_increases(k as nat, 40);
            }
            lemma_pow2_adds(60, 40);
            lemma_pow2_adds(64, 64);
            lemma_pow2_strictly_increases(100, 128);
            assert(m as nat * pow2(k as nat) < pow2(60) * pow2(40)) by (nonlinear_arith)
                requires
                    m < pow2(60),
                    0 < pow2(k as nat) <= pow2(40),
            ;
        }
        let whole: u128 = m * power(k);
        if whole >= 0x100_0000_0000 {
            return (SPLIT_CAP, Fraction::Zero);
        }
        return (whole as u64, Fraction::Zero);
    }
    let s: u32 = point - e;
    let ghost unit = pow2(e as nat);
    proof {
        lemma_pow2_adds(s as nat, e as nat);
        lemma_pow2_pos(e as nat);
        lemma_pow2_pos(s as nat);
    }
    if s >= 62 {
        proof {
            if s > 62 {
                lemma_pow2_strictly_increases(62, s as nat);
            }
            assert(0 < 2 * units < d) by (nonlinear_arith)
                requires
                    units == m as nat * unit,
                    d == pow2(s as nat) * unit,
                    0 < 2 * m < pow2(s as nat),
                    unit > 0,
            ;
            lemma_small_mod(units, d);
            lemma_basic_div(units as int, d as int);
        }
        return (0, Fraction::BelowHalf);
    }
    let divisor: u128 = power(s);
    let whole: u128 = m / divisor;
    let rest: u128 = m % divisor;
    proof {
        lemma_fundamental_div_mod(m as int, divisor as int);
        lemma_div_nonincreasing(m as int, divisor as int);
        assert(units == whole as nat * d + rest as nat * unit) by (nonlinear_arith)
            requires
                units == m as nat * unit,
                m as nat == divisor as nat * whole as nat + rest as nat,
                d == divisor as nat * unit,
        ;
        assert(0 <= rest as nat * unit < d) by (nonlinear_arith)
            requires
                rest < divisor,
                d == divisor as nat * unit,
                unit > 0,
        ;
        lemma_fundamental_div_mod_converse(
            units as int,
            d as int,
            whole as int,
            (rest as nat * unit) as int,
        );
        assert((2 * (rest as nat * unit) < d) == (2 * rest < divisor)) by (nonlinear_arith)
            requires
                d == divisor as nat * unit,
                unit > 0,
        ;
        assert((2 * (rest as nat * unit) == d) == (2 * rest == divisor)) by (nonlinear_arith)
            requires
                d == divisor as nat * unit,
                unit > 0,
        ;
        assert((rest as nat * unit == 0) == (rest == 0)) by (nonlinear_arith)
            requires
                unit > 0,
        ;
    }
    if whole >= 0x100_0000_0000 {
        return (SPLIT_CAP, Fraction::Zero);
    }
    let fraction: Fraction = if rest == 0 {
        Fraction::Zero
    } else if rest < divisor - rest {
        Fraction::BelowHalf
    } else if rest == divisor - rest {
        Fraction::Half
    } else {
        Fraction::AboveHalf
    };
    (whole as u64, fraction)
}

/// Rounding gives the nearest whole number, and the even one of two that are
/// equally near.
pub proof fn lemma_round_half_even_is_nearest(n: nat, d: nat)
    requires
        d > 0,
    ensures
        2 * n - d <= 2 * (round_half_even(n, d) * d) <= 2 * n + d,
        2 * (round_half_even(n, d) * d) == 2 * n - d || 2 * (round_half_even(n, d) * d) == 2 * n + d
            ==> round_half_even(n, d) % 2 == 0,
{
    let q = n / d;
    let r = n % d;
    lemma_fundamental_div_mod(n as int, d as int);
    assert(n == q * d + r && (q + 1) * d == q * d + d) by (nonlinear_arith)
        requires
            n == d * q + r,
    ;
}

/// The distance between two numbers.
pub open spec fn distance(a: int, b: int) -> int {
    if a < b {
        b - a
    } else {
        a - b
    }
}

/// The nearest multiple of `d` to `n` is nearer than any other.
proof fn lemma_no_multiple_is_nearer(n: int, d: int, f: int, k: int)
    requires
        d > 0,
        2 * n - d <= 2 * (f * d) <= 2 * n + d,
    ensures
        distance(f * d, n) <= distance(k * d, n),
{
    if k > f {
        assert(k * d >= f * d + d) by (nonlinear_arith)
            requires
                k >= f + 1,
                d > 0,
        ;
    } else if k < f {
        assert(k * d <= f * d - d) by (nonlinear_arith)
            requires
                k <= f - 1,
                d > 0,
        ;
    }
}

/// Rounding is best: of all magnitudes with `precision` significant bits, none
/// is nearer to `n / 2^s` units than what it is rounded to.
pub proof fn lemma_rounding_is_best(n: nat, s: nat, m: nat, e: nat, precision: nat)
    requires
        precision > 0,
        m < pow2(precision),
    ensures
        distance((round_units(n, s, precision) * pow2(s)) as int, n as int) <= distance(
            (m * pow2(e) * pow2(s)) as int,
            n as int,
        ),
{
    let q = grid_exponent(n, s, precision);
    let d = pow2(q);
    let f = round_half_even(n, d);
    let b = bit_len(n);
    lemma_pow2_pos(q);
    lemma_pow2_pos(s);
    lemma_pow2_pos(e);
    lemma_pow2_adds((q - s) as nat, s);
    lemma_round_half_even_is_nearest(n, d);
    let x = m * pow2(e) * pow2(s);
    assert(round_units(n, s, precision) * pow2(s) == f * d) by (nonlinear_arith)
        requires
            round_units(n, s, precision) == f * pow2((q - s) as nat),
            d == pow2((q - s) as nat) * pow2(s),
    ;
    if e + s >= q {
        let k = m * pow2((e + s - q) as nat);
        lemma_pow2_adds(e, s);
        lemma_pow2_adds((e + s - q) as nat, q);
        assert(x == k * d) by (nonlinear_arith)
            requires
                x == m * pow2(e) * pow2(s),
                pow2(e + s) == pow2(e) * pow2(s),
                pow2(e + s) == pow2((e + s - q) as nat) * d,
                k == m * pow2((e + s - q) as nat),
        ;
        lemma_no_multiple_is_nearer(n as int, d as int, f as int, k as int);
    } else {
        // The grid is coarser than the candidate, which lies below it all.
        let k = pow2((precision - 1) as nat);
        assert(b > s + precision && q == b - precision);
        lemma_bit_len_below(n, (b - 1) as nat);
        lemma_pow2_adds((precision - 1) as nat, q);
        assert(((precision - 1) as nat + q) as nat == (b - 1) as nat);
        assert(k * d <= n);
        lemma_pow2_adds(e, s);
        lemma_pow2_adds(precision, e + s);
        assert(x <= pow2(precision) * pow2(e + s)) by (nonlinear_arith)
            requires
                x == m * pow2(e) * pow2(s),
                pow2(e + s) == pow2(e) * pow2(s),
                m < pow2(precision),
        ;
        if precision + e + s < b - 1 {
            lemma_pow2_strictly_increases(precision + e + s, (b - 1) as nat);
        }
        assert(x <= k * d);
        lemma_no_multiple_is_nearer(n as int, d as int, f as int, k as int);
    }
}

/// What is rounded is stored as it is, and read back.
pub proof fn lemma_rounded_is_stored(n: nat, s: nat, precision: nat)
    requires
        precision > 0,
    ensures
        decode(encode(round_units(n, s, precision), precision), precision) == round_units(
            n,
            s,
            precision,
        ),
{
    let q = grid_exponent(n, s, precision);
    let d = pow2(q);
    let f = round_half_even(n, d);
    lemma_pow2_pos(q);
    if bit_len(n) > s + precision {
        lemma_bit_len_bounds(n);
        lemma_pow2_adds((precision - 1) as nat, q);
        lemma_pow2_adds(precision, q);
        assert(((precision - 1) as nat + q) as nat == (bit_len(n) - 1) as nat);
        assert((precision + q) as nat == bit_len(n));
        lemma_round_half_even_bounds(n, d, pow2((precision - 1) as nat), pow2(precision));
        lemma_encode_parts(f, (q - s) as nat, precision);
    } else {
        lemma_bit_len_below(n, (s + precision) as nat);
        lemma_pow2_adds(precision, s);
        lemma_round_half_even_bounds(n, d, 0, pow2(precision));
        assert((q - s) as nat == 0);
        lemma_encode_parts(f, 0, precision);
        lemma2_to64();
    }
}

} // verus!
