//! Double-precision numbers, held as their IEEE 754 bit patterns.
//!
//! The toolkit reports pointer positions, drawing sizes and scale factors in
//! double precision. As with [`Single`], each finite number is a whole count
//! of the smallest positive one, here `2^-1074`, and each operation is its
//! exact result rounded once.

use crate::rounding::{
    bit_len, decode, distance, encode, lemma_bit_len_below, lemma_bit_len_bounds, lemma_bit_len_shift,
    lemma_decode_increases, lemma_encode_parts, lemma_round_units_exact, lemma_round_units_scale,
    lemma_rounded_is_stored, lemma_rounding_is_best, round_magnitude, round_scaled, round_units, split_scaled, Fraction, SPLIT_CAP,
};
use crate::single::{
    lemma_made_of_rounded, lemma_none_is_nearer, lemma_of_units_keeps_the_sign, Single, INFINITY, NAN, NEGATIVE_INFINITY,
};
use vstd::arithmetic::div_mod::*;
use vstd::arithmetic::power2::*;
use vstd::prelude::*;

verus! {

/// The bits of positive infinity.
pub const DOUBLE_INFINITY: u64 = 0x7ff0_0000_0000_0000;

/// The bits of negative infinity.
pub const DOUBLE_NEGATIVE_INFINITY: u64 = 0xfff0_0000_0000_0000;

/// The bits of the number that is none.
pub const DOUBLE_NAN: u64 = 0x7ff8_0000_0000_0000;

/// A double-precision number. Two are equal when their bits are.
#[derive(Clone, Copy, Debug, PartialEq, Eq, Structural)]
pub struct Double {
    /// The sign bit, eleven exponent bits and fifty-two fraction bits.
    pub bits: u64,
}

impl Double {
    /// Whether the sign bit is set.
    pub open spec fn negative(self) -> bool {
        self.bits >= 0x8000_0000_0000_0000
    }

    /// The bits below the sign.
    pub open spec fn magnitude(self) -> nat {
        self.bits as nat % 0x8000_0000_0000_0000
    }

    pub open spec fn nan(self) -> bool {
        self.magnitude() > 0x7ff0_0000_0000_0000
    }

    pub open spec fn infinite(self) -> bool {
        self.magnitude() == 0x7ff0_0000_0000_0000
    }

    pub open spec fn zero(self) -> bool {
        self.magnitude() == 0
    }

    /// The distance from zero, in units of `2^-1074`.
    pub open spec fn units(self) -> nat {
        decode(self.magnitude(), 53)
    }

    /// The number with the given sign at `v` units; infinite from `2^2098` on.
    pub open spec fn of_units(negative: bool, v: nat) -> Double {
        let magnitude = if v >= pow2(2098) {
            0x7ff0_0000_0000_0000nat
        } else {
            encode(v, 53)
        };
        Double {
            bits: (if negative {
                0x8000_0000_0000_0000 + magnitude
            } else {
                magnitude
            }) as u64,
        }
    }

    /// The product of two numbers.
    pub open spec fn product(a: Double, b: Double) -> Double {
        let negative = a.negative() != b.negative();
        if a.nan() || b.nan() || (a.infinite() && b.zero()) || (a.zero() && b.infinite()) {
            Double { bits: DOUBLE_NAN }
        } else if a.infinite() || b.infinite() {
            if negative {
                Double { bits: DOUBLE_NEGATIVE_INFINITY }
            } else {
                Double { bits: DOUBLE_INFINITY }
            }
        } else {
            Double::of_units(negative, round_units(a.units() * b.units(), 1074, 53))
        }
    }

    /// The whole number nearest to this one, halves away from zero.
    pub open spec fn rounded(self) -> int {
        let whole = (2 * self.units() + pow2(1074)) / pow2(1075);
        if self.negative() {
            -(whole as int)
        } else {
            whole as int
        }
    }

    /// The single-precision number nearest to this one.
    pub open spec fn narrowed(self) -> Single {
        if self.nan() {
            Single { bits: NAN }
        } else if self.infinite() {
            if self.negative() {
                Single { bits: NEGATIVE_INFINITY }
            } else {
                Single { bits: INFINITY }
            }
        } else {
            Single::of_units(self.negative(), round_units(self.units(), 925, 24))
        }
    }

    /// The number nearest to a whole number.
    pub open spec fn of_int(i: int) -> Double {
        if i < 0 {
            Double::of_units(true, round_units((-i) as nat * pow2(1074), 0, 53))
        } else {
            Double::of_units(false, round_units(i as nat * pow2(1074), 0, 53))
        }
    }

    pub fn from_bits(bits: u64) -> (r: Double)
        ensures
            r.bits == bits,
    {
        Double { bits }
    }

    pub fn is_nan(self) -> (r: bool)
        ensures
            r == self.nan(),
    {
        self.bits % 0x8000_0000_0000_0000 > 0x7ff0_0000_0000_0000
    }

    fn is_infinite(self) -> (r: bool)
        ensures
            r == self.infinite(),
    {
        self.bits % 0x8000_0000_0000_0000 == 0x7ff0_0000_0000_0000
    }

    pub fn is_negative(self) -> (r: bool)
        ensures
            r == self.negative(),
    {
        self.bits >= 0x8000_0000_0000_0000
    }

    /// The significand and the exponent of its last digit.
    fn parts(self) -> (r: (u128, u32))
        requires
            !self.nan(),
        ensures
            self.units() == r.0 * pow2(r.1 as nat),
            r.0 < pow2(53),
            r.1 <= 2046,
    {
        let magnitude: u64 = self.bits % 0x8000_0000_0000_0000;
        proof {
            lemma2_to64();
            lemma2_to64_rest();
        }
        if magnitude < 0x10_0000_0000_0000 {
            assert(magnitude * pow2(0) == magnitude);
            (magnitude as u128, 0)
        } else {
            let e: u64 = magnitude / 0x10_0000_0000_0000;
            let m: u64 = 0x10_0000_0000_0000 + magnitude % 0x10_0000_0000_0000;
            (m as u128, (e - 1) as u32)
        }
    }

    /// The number nearest to `m * 2^e` units, with the given sign.
    fn compose(negative: bool, m: u128, e: i32) -> (r: Double)
        requires
            m < pow2(126),
            -5000 <= e <= 5000,
        ensures
            r == Double::of_units(negative, round_scaled(m as nat, e as int, 53)),
    {
        let (f, k) = round_magnitude(m, e, 53);
        proof {
            lemma2_to64();
            lemma2_to64_rest();
            lemma_encode_parts(f as nat, k as nat, 53);
            lemma_encode_parts(pow2(52), 2046, 53);
            lemma_pow2_adds(52, 2046);
            let b = k as nat * pow2(52) + f as nat;
            if b < 0x7ff0_0000_0000_0000 {
                lemma_decode_increases(b, 0x7ff0_0000_0000_0000, 53);
            } else if b > 0x7ff0_0000_0000_0000 {
                lemma_decode_increases(0x7ff0_0000_0000_0000, b, 53);
            }
        }
        let stored: u128 = k as u128 * 0x10_0000_0000_0000 + f;
        let magnitude: u64 = if stored >= 0x7ff0_0000_0000_0000 {
            0x7ff0_0000_0000_0000
        } else {
            stored as u64
        };
        if negative {
            Double { bits: 0x8000_0000_0000_0000 + magnitude }
        } else {
            Double { bits: magnitude }
        }
    }

    /// `self * other`.
    pub fn times(self, other: Double) -> (r: Double)
        ensures
            r == Double::product(self, other),
    {
        let negative: bool = self.is_negative() != other.is_negative();
        let zero: bool = self.bits % 0x8000_0000_0000_0000 == 0 || other.bits
            % 0x8000_0000_0000_0000 == 0;
        if self.is_nan() || other.is_nan() {
            return Double { bits: DOUBLE_NAN };
        }
        if self.is_infinite() || other.is_infinite() {
            if zero {
                return Double { bits: DOUBLE_NAN };
            }
            if negative {
                return Double { bits: DOUBLE_NEGATIVE_INFINITY };
            }
            return Double { bits: DOUBLE_INFINITY };
        }
        let (ma, ea) = self.parts();
        let (mb, eb) = other.parts();
        let e: i32 = ea as i32 + eb as i32 - 1074;
        proof {
            lemma2_to64();
            lemma2_to64_rest();
            lemma_pow2_adds(53, 53);
            lemma_pow2_strictly_increases(106, 126);
            lemma_pow2_adds(64, 64);
            lemma_pow2_strictly_increases(106, 128);
            assert(ma * mb < pow2(53) * pow2(53)) by (nonlinear_arith)
                requires
                    ma < pow2(53),
                    mb < pow2(53),
            ;
            lemma_pow2_adds(ea as nat, eb as nat);
            let m = (ma * mb) as nat;
            let n = self.units() * other.units();
            assert(n == m * pow2((ea + eb) as nat)) by (nonlinear_arith)
                requires
                    n == (ma * pow2(ea as nat)) * (mb * pow2(eb as nat)),
                    m == ma * mb,
                    pow2((ea + eb) as nat) == pow2(ea as nat) * pow2(eb as nat),
            ;
            if e >= 0 {
                lemma_pow2_adds(e as nat, 1074);
                assert(n == (m * pow2(e as nat)) * pow2(1074)) by (nonlinear_arith)
                    requires
                        n == m * pow2((ea + eb) as nat),
                        pow2((ea + eb) as nat) == pow2(e as nat) * pow2(1074),
                ;
                lemma_round_units_scale(m * pow2(e as nat), 0, 1074, 53);
            } else {
                lemma_round_units_scale(m, (-e) as nat, (ea + eb) as nat, 53);
            }
        }
        Double::compose(negative, ma * mb, e)
    }

    /// The number nearest to `i`.
    pub fn from_i32(i: i32) -> (r: Double)
        ensures
            r == Double::of_int(i as int),
    {
        let m: u128 = if i < 0 { (-(i as i64)) as u128 } else { i as u128 };
        proof {
            lemma2_to64();
            lemma_pow2_strictly_increases(32, 126);
        }
        Double::compose(i < 0, m, 1074)
    }

    /// The single-precision number nearest to this one.
    pub fn narrow(self) -> (r: Single)
        ensures
            r == self.narrowed(),
    {
        if self.is_nan() {
            return Single { bits: NAN };
        }
        if self.is_infinite() {
            if self.is_negative() {
                return Single { bits: NEGATIVE_INFINITY };
            }
            return Single { bits: INFINITY };
        }
        let (m, e) = self.parts();
        proof {
            lemma_pow2_strictly_increases(53, 126);
            if e >= 925 {
                let k = (e - 925) as nat;
                lemma_pow2_adds(k, 925);
                let n = m as nat * pow2(k);
                assert(self.units() == n * pow2(925)) by (nonlinear_arith)
                    requires
                        self.units() == m * pow2(e as nat),
                        pow2(e as nat) == pow2(k) * pow2(925),
                        n == m as nat * pow2(k),
                ;
                lemma_round_units_scale(n, 0, 925, 24);
            } else {
                lemma_round_units_scale(m as nat, (925 - e) as nat, e as nat, 24);
            }
        }
        Single::compose(self.is_negative(), m, e as i32 - 925)
    }

    /// The nearest whole number, halves away from zero, for a number that is
    /// not below zero; up to [`SPLIT_CAP`].
    pub fn round_capped(self) -> (r: u64)
        requires
            !self.nan(),
            !self.negative(),
        ensures
            r == if self.rounded() < SPLIT_CAP {
                self.rounded()
            } else {
                SPLIT_CAP as int
            },
    {
        let (m, e) = self.parts();
        proof {
            lemma_pow2_strictly_increases(53, 60);
        }
        let (whole, fraction) = split_scaled(m, e, 1074);
        proof {
            let d = pow2(1074);
            lemma_pow2_pos(1074);
            lemma_pow2_unfold(1075);
            let u = self.units();
            lemma_fundamental_div_mod(u as int, d as int);
            let q = u / d;
            let r = u % d;
            let carried = if 2 * r >= d {
                1nat
            } else {
                0nat
            };
            assert(2 * u + d == (q + carried) * (2 * d) + (2 * r + d - carried * (2 * d)))
                by (nonlinear_arith)
                requires
                    u == d * q + r,
            ;
            lemma_fundamental_div_mod_converse(
                (2 * u + d) as int,
                (2 * d) as int,
                (q + carried) as int,
                2 * r + d - carried * (2 * d),
            );
        }
        if whole < SPLIT_CAP && (fraction == Fraction::Half || fraction == Fraction::AboveHalf) {
            whole + 1
        } else {
            whole
        }
    }
}

/// Rounding gives the nearest whole number: no more than half away, and a half
/// goes up. A number and its opposite round to opposites.
pub proof fn lemma_double_rounded_is_nearest(a: Double)
    ensures
        !a.negative() ==> (2 * a.rounded() - 1) * pow2(1074) <= 2 * a.units() < (2 * a.rounded()
            + 1) * pow2(1074),
        !a.negative() ==> a.rounded() >= 0,
        a.negative() ==> a.rounded() <= 0,
{
    let d = pow2(1074) as int;
    lemma_pow2_pos(1074);
    lemma_pow2_unfold(1075);
    let u = a.units() as int;
    let whole = (2 * u + d) / (2 * d);
    lemma_fundamental_div_mod(2 * u + d, 2 * d);
    let rest = (2 * u + d) % (2 * d);
    lemma_div_pos_is_pos(2 * u + d, 2 * d);
    assert((2 * whole - 1) * d <= 2 * u < (2 * whole + 1) * d) by (nonlinear_arith)
        requires
            2 * u + d == (2 * d) * whole + rest,
            0 <= rest < 2 * d,
    ;
}

/// A whole number of at most 24 bits is held exactly, and narrows to the same
/// number.
pub proof fn lemma_double_small_whole_is_exact(i: int)
    requires
        -0x100_0000 < i < 0x100_0000,
    ensures
        !Double::of_int(i).nan(),
        !Double::of_int(i).infinite(),
        Double::of_int(i).negative() == (i < 0),
        Double::of_int(i).units() == (if i < 0 {
            -i
        } else {
            i
        }) * pow2(1074),
        Double::of_int(i).narrowed() == Single::of_int(i),
{
    lemma2_to64();
    lemma2_to64_rest();
    let n = (if i < 0 {
        -i
    } else {
        i
    }) as nat;
    let a = Double::of_int(i);
    lemma_bit_len_below(n, 24);
    lemma_round_units_exact(n, 1074, 53);
    lemma_pow2_pos(1074);
    lemma_pow2_pos(2098);
    if n == 0 {
        assert(0 * pow2(1074) == 0);
        assert(a.bits == 0);
    } else {
        lemma_bit_len_bounds(n);
        let c = (53 - bit_len(n)) as nat;
        let k = (1074 - c) as nat;
        let f = n * pow2(c);
        lemma_bit_len_shift(n, c);
        lemma_bit_len_below(f, 53);
        lemma_bit_len_below(f, 52);
        lemma_pow2_adds(c, k);
        assert(f * pow2(k) == n * pow2(1074)) by (nonlinear_arith)
            requires
                f == n * pow2(c),
                pow2(1074) == pow2(c) * pow2(k),
        ;
        lemma_encode_parts(f, k, 53);
        lemma_pow2_adds(24, 1074);
        lemma_pow2_strictly_increases(1098, 2098);
        assert(n * pow2(1074) < pow2(24) * pow2(1074)) by (nonlinear_arith)
            requires
                n < pow2(24),
                pow2(1074) > 0,
        ;
        assert(k * pow2(52) + f <= 1074 * 0x10_0000_0000_0000 + 0x20_0000_0000_0000)
            by (nonlinear_arith)
            requires
                k <= 1074,
                f <= 0x20_0000_0000_0000,
                pow2(52) == 0x10_0000_0000_0000,
        ;
        assert(a.magnitude() == k * pow2(52) + f);
    }
    lemma_pow2_adds(149, 925);
    assert((n * pow2(149)) * pow2(925) == n * pow2(1074)) by (nonlinear_arith)
        requires
            pow2(1074) == pow2(149) * pow2(925),
    ;
    lemma_round_units_scale(n * pow2(149), 0, 925, 24);
}

/// A number that is none, or has no end, stays so when it is narrowed, and keeps
/// its sign.
pub proof fn lemma_narrowing_keeps_the_extremes(a: Double)
    ensures
        a.nan() ==> a.narrowed().nan(),
        a.infinite() ==> a.narrowed().infinite() && a.narrowed().negative() == a.negative(),
        !a.nan() ==> a.narrowed().negative() == a.negative(),
{
    if !a.nan() && !a.infinite() {
        lemma_of_units_keeps_the_sign(a.negative(), round_units(a.units(), 925, 24));
    }
}

/// Whole numbers whose product has at most 24 bits multiply as whole numbers do.
pub proof fn lemma_double_small_wholes_multiply(a: int, b: int)
    requires
        0 <= a < 0x100_0000,
        0 <= b < 0x100_0000,
        a * b < 0x100_0000,
    ensures
        Double::product(Double::of_int(a), Double::of_int(b)) == Double::of_int(a * b),
{
    lemma_double_small_whole_is_exact(a);
    lemma_double_small_whole_is_exact(b);
    let d = pow2(1074);
    let x = Double::of_int(a);
    let y = Double::of_int(b);
    let m = (a * b) as nat;
    assert(a * b >= 0) by (nonlinear_arith)
        requires
            a >= 0,
            b >= 0,
    ;
    assert(x.units() * y.units() == (m * d) * d) by (nonlinear_arith)
        requires
            x.units() == a * d,
            y.units() == b * d,
            m == a * b,
    ;
    lemma_round_units_scale(m * d, 0, 1074, 53);
}

/// A number narrows to the nearest one there is.
pub proof fn lemma_narrowed_is_nearest(a: Double, x: Single)
    requires
        !a.nan(),
        !a.infinite(),
        x.finite(),
        a.narrowed().finite(),
    ensures
        ({
            let exact = if a.negative() {
                -(a.units() as int)
            } else {
                a.units() as int
            };
            distance(a.narrowed().value() * pow2(925), exact) <= distance(
                x.value() * pow2(925),
                exact,
            )
        }),
{
    let n = a.units();
    let u = round_units(n, 925, 24);
    lemma_made_of_rounded(a.negative(), n, 925);
    let y = if a.negative() {
        x.negated()
    } else {
        x
    };
    assert(x.negated().magnitude() == x.magnitude());
    assert(x.negated().value() == -x.value());
    lemma_none_is_nearer(n, 925, y);
    if a.negative() {
        assert((-(u as int)) * pow2(925) == -(u * pow2(925))) by (nonlinear_arith);
        assert((-x.value()) * pow2(925) == -(x.value() * pow2(925))) by (nonlinear_arith);
    }
}

/// A product is as far from zero as the number nearest to the exact one, and has
/// the sign of the product.
pub proof fn lemma_double_product_is_nearest(a: Double, b: Double, x: Double)
    requires
        !a.nan() && !a.infinite(),
        !b.nan() && !b.infinite(),
        !x.nan() && !x.infinite(),
        !Double::product(a, b).infinite(),
    ensures
        distance(
            (Double::product(a, b).units() * pow2(1074)) as int,
            (a.units() * b.units()) as int,
        ) <= distance((x.units() * pow2(1074)) as int, (a.units() * b.units()) as int),
        Double::product(a, b).negative() == (a.negative() != b.negative()),
{
    lemma2_to64();
    lemma2_to64_rest();
    let n = a.units() * b.units();
    let v = round_units(n, 1074, 53);
    let p = Double::product(a, b);
    lemma_rounded_is_stored(n, 1074, 53);
    if v < pow2(2098) {
        lemma_bit_len_below(v, 2098);
        if bit_len(v) > 53 {
            let k = (bit_len(v) - 53) as nat;
            lemma_bit_len_bounds(v);
            lemma_pow2_adds(53, k);
            lemma_pow2_pos(k);
            lemma_div_by_multiple_is_strongly_ordered(
                v as int,
                (pow2(53) * pow2(k)) as int,
                pow2(53) as int,
                pow2(k) as int,
            );
            lemma_div_multiples_vanish(pow2(53) as int, pow2(k) as int);
            assert(pow2(53) * pow2(k) == pow2(k) * pow2(53)) by (nonlinear_arith);
            assert(k * pow2(52) <= 2045 * 0x10_0000_0000_0000) by (nonlinear_arith)
                requires
                    k <= 2045,
                    pow2(52) == 0x10_0000_0000_0000,
            ;
        } else {
            lemma_bit_len_below(v, 53);
        }
        assert(encode(v, 53) < 0x8000_0000_0000_0000);
    }
    assert(p.units() == v);
    let m0 = x.magnitude();
    let (m, e) = if m0 < pow2(52) {
        (m0, 0nat)
    } else {
        ((pow2(52) + m0 % pow2(52)) as nat, (m0 / pow2(52) - 1) as nat)
    };
    assert(x.units() == m * pow2(e)) by {
        assert(m0 * pow2(0) == m0);
    }
    lemma_rounding_is_best(n, 1074, m, e, 53);
}

} // verus!
