//! Single-precision numbers, held as their IEEE 754 bit patterns.
//!
//! Layout extents are single-precision points. This module gives them an exact
//! meaning: every finite number is a whole count of [`Single::units`], the
//! smallest positive number `2^-149`, and each arithmetic operation is its
//! exact result rounded once, to nearest with ties to even.
//!
//! Two results are left open by the format and fixed here: a result that is
//! not a number is always [`NAN`], and the larger of two zeros of
//! different sign is the positive one.

use crate::rounding::{
    bit_len, decode, distance, encode, lemma_bit_len_below, lemma_bit_len_bounds, lemma_bit_len_shift,
    lemma_bit_len_unique, lemma_decode_increases, lemma_encode_decode, lemma_encode_parts,
    lemma_round_half_even_bounds, lemma_round_units_exact, lemma_round_units_scale,
    lemma_rounded_is_stored, lemma_rounding_is_best, power,
    round_half_even, round_magnitude, round_scaled, round_units, split_scaled, Fraction, SPLIT_CAP,
};
use vstd::arithmetic::div_mod::*;
use vstd::arithmetic::mul::*;
use vstd::arithmetic::power2::*;
use vstd::prelude::*;

verus! {

/// The bits of `0.0`.
pub const ZERO: u32 = 0;

/// The bits of `-0.0`.
pub const NEGATIVE_ZERO: u32 = 0x8000_0000;

/// The bits of `0.5`.
pub const HALF: u32 = 0x3f00_0000;

/// The bits of `1.0`.
pub const ONE: u32 = 0x3f80_0000;

/// The bits of positive infinity.
pub const INFINITY: u32 = 0x7f80_0000;

/// The bits of negative infinity.
pub const NEGATIVE_INFINITY: u32 = 0xff80_0000;

/// The bits of the number that is none.
pub const NAN: u32 = 0x7fc0_0000;

/// A single-precision number. Two are equal when their bits are.
#[derive(Clone, Copy, Debug, PartialEq, Eq, Structural)]
pub struct Single {
    /// The sign bit, eight exponent bits and twenty-three fraction bits.
    pub bits: u32,
}

impl Single {
    /// Whether the sign bit is set.
    pub open spec fn negative(self) -> bool {
        self.bits >= 0x8000_0000
    }

    /// The bits below the sign.
    pub open spec fn magnitude(self) -> nat {
        self.bits as nat % 0x8000_0000
    }

    pub open spec fn nan(self) -> bool {
        self.magnitude() > 0x7f80_0000
    }

    pub open spec fn finite(self) -> bool {
        self.magnitude() < 0x7f80_0000
    }

    pub open spec fn infinite(self) -> bool {
        self.magnitude() == 0x7f80_0000
    }

    /// The distance from zero, in units of `2^-149`. An infinity stands
    /// `2^277` units away, above every finite number.
    pub open spec fn units(self) -> nat {
        decode(self.magnitude(), 24)
    }

    /// The signed value, in units of `2^-149`.
    pub open spec fn value(self) -> int {
        if self.negative() {
            -(self.units() as int)
        } else {
            self.units() as int
        }
    }

    pub open spec fn zero(self) -> bool {
        self.magnitude() == 0
    }

    /// The number with the given sign at `v` units; infinite from `2^277` on.
    pub open spec fn of_units(negative: bool, v: nat) -> Single {
        let magnitude = if v >= pow2(277) {
            0x7f80_0000nat
        } else {
            encode(v, 24)
        };
        Single {
            bits: (if negative {
                0x8000_0000 + magnitude
            } else {
                magnitude
            }) as u32,
        }
    }

    /// The sum of two numbers.
    pub open spec fn sum(a: Single, b: Single) -> Single {
        if a.nan() || b.nan() {
            Single { bits: NAN }
        } else if a.infinite() {
            if b.infinite() && a.negative() != b.negative() {
                Single { bits: NAN }
            } else {
                a
            }
        } else if b.infinite() {
            b
        } else {
            let v = a.value() + b.value();
            if v == 0 {
                if a.negative() && b.negative() {
                    Single { bits: NEGATIVE_ZERO }
                } else {
                    Single { bits: ZERO }
                }
            } else if v < 0 {
                Single::of_units(true, round_units((-v) as nat, 0, 24))
            } else {
                Single::of_units(false, round_units(v as nat, 0, 24))
            }
        }
    }

    /// The difference of two numbers.
    pub open spec fn difference(a: Single, b: Single) -> Single {
        Single::sum(a, b.negated())
    }

    /// The number with the opposite sign.
    pub open spec fn negated(self) -> Single {
        Single {
            bits: (if self.negative() {
                self.bits - 0x8000_0000
            } else {
                self.bits + 0x8000_0000
            }) as u32,
        }
    }

    /// The product of two numbers.
    pub open spec fn product(a: Single, b: Single) -> Single {
        let negative = a.negative() != b.negative();
        if a.nan() || b.nan() || (a.infinite() && b.zero()) || (a.zero() && b.infinite()) {
            Single { bits: NAN }
        } else if a.infinite() || b.infinite() {
            if negative {
                Single { bits: NEGATIVE_INFINITY }
            } else {
                Single { bits: INFINITY }
            }
        } else {
            Single::of_units(negative, round_units(a.units() * b.units(), 149, 24))
        }
    }

    /// The number nearest to a whole number.
    pub open spec fn of_int(i: int) -> Single {
        if i < 0 {
            Single::of_units(true, round_units((-i) as nat * pow2(149), 0, 24))
        } else {
            Single::of_units(false, round_units(i as nat * pow2(149), 0, 24))
        }
    }

    /// Whether `a` is less than `b`; false when either is not a number.
    pub open spec fn less(a: Single, b: Single) -> bool {
        !a.nan() && !b.nan() && a.value() < b.value()
    }

    /// The larger number, the one that is a number if only one is.
    pub open spec fn larger(a: Single, b: Single) -> Single {
        if a.nan() {
            b
        } else if b.nan() {
            a
        } else if a.value() < b.value() || (a.value() == b.value() && a.negative()) {
            b
        } else {
            a
        }
    }

    /// The smaller number, the one that is a number if only one is.
    pub open spec fn smaller(a: Single, b: Single) -> Single {
        if a.nan() {
            b
        } else if b.nan() {
            a
        } else if b.value() < a.value() || (a.value() == b.value() && b.negative()) {
            b
        } else {
            a
        }
    }

    /// The whole number nearest to this one, halves away from zero.
    pub open spec fn rounded(self) -> int {
        let whole = (2 * self.units() + pow2(149)) / pow2(150);
        if self.negative() {
            -(whole as int)
        } else {
            whole as int
        }
    }

    /// The whole part of this number.
    pub open spec fn truncated(self) -> int {
        let whole = self.units() / pow2(149);
        if self.negative() {
            -(whole as int)
        } else {
            whole as int
        }
    }

    /// The least whole number that is not below this one.
    pub open spec fn ceiling(self) -> int {
        if self.negative() {
            -((self.units() / pow2(149)) as int)
        } else {
            ((self.units() + pow2(149) - 1) as nat / pow2(149)) as int
        }
    }
}

/// `v` brought into the range of an `i32`.
pub open spec fn saturate_i32(v: int) -> i32 {
    if v < i32::MIN {
        i32::MIN
    } else if v > i32::MAX {
        i32::MAX
    } else {
        v as i32
    }
}

/// What lies far below a number's last digit does not move it.
proof fn lemma_absorb(m: nat, e: nat, delta: nat)
    requires
        pow2(23) <= m < pow2(24),
        e > 1,
        4 * delta < pow2(e),
    ensures
        round_units(m * pow2(e) + delta, 0, 24) == m * pow2(e),
        m * pow2(e) >= delta,
        round_units((m * pow2(e) - delta) as nat, 0, 24) == m * pow2(e),
{
    let d = pow2(e);
    lemma_pow2_pos(e);
    lemma2_to64();
    lemma_pow2_adds(23, e);
    lemma_pow2_adds(24, e);
    assert(pow2(23) * d <= m * d) by (nonlinear_arith)
        requires
            pow2(23) <= m,
            d > 0,
    ;
    assert(m * d + d <= pow2(24) * d) by (nonlinear_arith)
        requires
            m + 1 <= pow2(24),
            d > 0,
    ;
    assert(m * d >= d) by (nonlinear_arith)
        requires
            m >= 1,
            d > 0,
    ;
    let up = m * d + delta;
    lemma_bit_len_unique(up, (23 + e) as nat);
    lemma_fundamental_div_mod_converse(up as int, d as int, m as int, delta as int);
    let down = (m * d - delta) as nat;
    if delta > 0 {
        if m > pow2(23) {
            assert(pow2(23) * d + d <= m * d) by (nonlinear_arith)
                requires
                    pow2(23) + 1 <= m,
                    d > 0,
            ;
            lemma_bit_len_unique(down, (23 + e) as nat);
            assert(down == (m - 1) * d + (d - delta)) by (nonlinear_arith)
                requires
                    down == m * d - delta,
            ;
            lemma_fundamental_div_mod_converse(
                down as int,
                d as int,
                m - 1,
                (d - delta) as int,
            );
        } else {
            let h = pow2((e - 1) as nat);
            lemma_pow2_unfold(e);
            lemma_pow2_adds(22, e);
            lemma_pow2_unfold((23 + e) as nat);
            assert(h > 0) by {
                lemma_pow2_pos((e - 1) as nat);
            }
            assert(pow2(22) * d >= d) by (nonlinear_arith)
                requires
                    pow2(22) >= 1,
                    d > 0,
            ;
            lemma_bit_len_unique(down, (22 + e) as nat);
            assert(down == (pow2(24) - 1) * h + (h - delta)) by (nonlinear_arith)
                requires
                    down == m * d - delta,
                    m == pow2(23),
                    d == 2 * h,
                    pow2(24) == 2 * pow2(23),
            ;
            lemma_fundamental_div_mod_converse(
                down as int,
                h as int,
                pow2(24) - 1,
                (h - delta) as int,
            );
            assert(pow2(24) * h == m * d) by (nonlinear_arith)
                requires
                    m == pow2(23),
                    d == 2 * h,
                    pow2(24) == 2 * pow2(23),
            ;
        }
    }
}

/// A number has the sign that it is made with.
pub proof fn lemma_of_units_keeps_the_sign(negative: bool, v: nat)
    ensures
        Single::of_units(negative, v).negative() == negative,
{
    lemma2_to64();
    if v < pow2(277) {
        lemma_bit_len_below(v, 277);
        lemma_bit_len_below(v, 24);
        if bit_len(v) > 24 {
            let k = (bit_len(v) - 24) as nat;
            lemma_bit_len_bounds(v);
            lemma_pow2_adds(24, k);
            lemma_pow2_pos(k);
            lemma_div_by_multiple_is_strongly_ordered(
                v as int,
                (pow2(24) * pow2(k)) as int,
                pow2(24) as int,
                pow2(k) as int,
            );
            lemma_div_multiples_vanish(pow2(24) as int, pow2(k) as int);
            assert(pow2(24) * pow2(k) == pow2(k) * pow2(24)) by (nonlinear_arith);
            assert(k * pow2(23) <= 253 * 0x80_0000) by (nonlinear_arith)
                requires
                    k <= 253,
                    pow2(23) == 0x80_0000,
            ;
        }
    }
}

/// A number is the one at its own distance from zero.
proof fn lemma_of_own_units(a: Single)
    requires
        a.finite(),
    ensures
        a.units() < pow2(277),
        a == Single::of_units(a.negative(), a.units()),
{
    lemma2_to64();
    lemma_encode_parts(pow2(23), 254, 24);
    lemma_pow2_adds(23, 254);
    lemma_decode_increases(a.magnitude(), 0x7f80_0000, 24);
    lemma_encode_decode(a.magnitude(), 24);
}

impl Single {
    /// The number with the given bits.
    pub fn from_bits(bits: u32) -> (r: Single)
        ensures
            r.bits == bits,
    {
        Single { bits }
    }

    /// The bits of this number.
    pub fn to_bits(self) -> (r: u32)
        ensures
            r == self.bits,
    {
        self.bits
    }

    pub fn is_nan(self) -> (r: bool)
        ensures
            r == self.nan(),
    {
        self.bits % 0x8000_0000 > 0x7f80_0000
    }

    pub fn is_finite(self) -> (r: bool)
        ensures
            r == self.finite(),
    {
        self.bits % 0x8000_0000 < 0x7f80_0000
    }

    pub fn is_infinite(self) -> (r: bool)
        ensures
            r == self.infinite(),
    {
        self.bits % 0x8000_0000 == 0x7f80_0000
    }

    fn is_negative(self) -> (r: bool)
        ensures
            r == self.negative(),
    {
        self.bits >= 0x8000_0000
    }

    /// The significand and the exponent of its last digit.
    pub fn parts(self) -> (r: (u128, u32))
        requires
            !self.nan(),
        ensures
            self.units() == r.0 * pow2(r.1 as nat),
            r.0 < pow2(24),
            r.1 > 0 ==> r.0 >= pow2(23),
            r.1 <= 254,
            self.finite() ==> r.1 <= 253,
    {
        let magnitude: u32 = self.bits % 0x8000_0000;
        proof {
            lemma2_to64();
        }
        if magnitude < 0x80_0000 {
            assert(magnitude * pow2(0) == magnitude);
            (magnitude as u128, 0)
        } else {
            let e: u32 = magnitude / 0x80_0000;
            let m: u32 = 0x80_0000 + magnitude % 0x80_0000;
            (m as u128, e - 1)
        }
    }

    /// The number nearest to `m * 2^e` units, with the given sign.
    pub fn compose(negative: bool, m: u128, e: i32) -> (r: Single)
        requires
            m < pow2(126),
            -5000 <= e <= 5000,
        ensures
            r == Single::of_units(negative, round_scaled(m as nat, e as int, 24)),
    {
        let (f, k) = round_magnitude(m, e, 24);
        proof {
            lemma2_to64();
            lemma_encode_parts(f as nat, k as nat, 24);
            lemma_encode_parts(pow2(23), 254, 24);
            lemma_pow2_adds(23, 254);
            let b = k as nat * pow2(23) + f as nat;
            if b < 0x7f80_0000 {
                lemma_decode_increases(b, 0x7f80_0000, 24);
            } else if b > 0x7f80_0000 {
                lemma_decode_increases(0x7f80_0000, b, 24);
            }
        }
        let stored: u64 = k as u64 * 0x80_0000 + f as u64;
        let magnitude: u32 = if stored >= 0x7f80_0000 { 0x7f80_0000 } else { stored as u32 };
        if negative {
            Single { bits: 0x8000_0000 + magnitude }
        } else {
            Single { bits: magnitude }
        }
    }

    /// The sum of two finite numbers given by their parts, the first with the
    /// larger exponent.
    fn add_parts(a: Single, b: Single, ma: u128, ea: u32, mb: u128, eb: u32) -> (r: Single)
        requires
            a.finite(),
            b.finite(),
            a.units() == ma * pow2(ea as nat),
            b.units() == mb * pow2(eb as nat),
            ma < pow2(24),
            mb < pow2(24),
            eb <= ea <= 253,
            ea > 0 ==> ma >= pow2(23),
        ensures
            r == Single::sum(a, b),
    {
        let na: bool = a.is_negative();
        let nb: bool = b.is_negative();
        let d: u32 = ea - eb;
        proof {
            lemma2_to64();
            lemma_pow2_adds(d as nat, eb as nat);
            lemma_pow2_pos(ea as nat);
            lemma_pow2_pos(eb as nat);
        }
        if d > 90 {
            let ghost delta = b.units();
            proof {
                lemma_pow2_adds(24, eb as nat);
                lemma_pow2_adds(2, (24 + eb) as nat);
                lemma_pow2_strictly_increases((26 + eb) as nat, ea as nat);
                assert(mb * pow2(eb as nat) < pow2(24) * pow2(eb as nat)) by (nonlinear_arith)
                    requires
                        mb < pow2(24),
                        pow2(eb as nat) > 0,
                ;
                lemma_absorb(ma as nat, ea as nat, delta);
                lemma_encode_parts(ma as nat, ea as nat, 24);
                assert(ma * pow2(ea as nat) > 0) by (nonlinear_arith)
                    requires
                        ma > 0,
                        pow2(ea as nat) > 0,
                ;
                lemma_of_own_units(a);
                lemma_pow2_strictly_increases((26 + eb) as nat, ea as nat);
                assert(ma * pow2(ea as nat) >= pow2(ea as nat)) by (nonlinear_arith)
                    requires
                        ma >= 1,
                        pow2(ea as nat) > 0,
                ;
            }
            return a;
        }
        proof {
            if d < 90 {
                lemma_pow2_strictly_increases(d as nat, 90);
            }
            lemma_pow2_adds(24, 90);
            lemma_pow2_strictly_increases(114, 126);
            lemma_pow2_unfold(115);
            lemma_pow2_strictly_increases(115, 126);
            lemma_pow2_strictly_increases(24, 114);
            lemma_pow2_adds(62, 64);
            lemma2_to64_rest();
            assert(ma * pow2(d as nat) < pow2(24) * pow2(90)) by (nonlinear_arith)
                requires
                    ma < pow2(24),
                    0 < pow2(d as nat) <= pow2(90),
            ;
            assert(ma * pow2(ea as nat) == (ma * pow2(d as nat)) * pow2(eb as nat))
                by (nonlinear_arith)
                requires
                    pow2(ea as nat) == pow2(d as nat) * pow2(eb as nat),
            ;
        }
        let shifted: u128 = ma * power(d);
        let ghost unit = pow2(eb as nat);
        if na == nb {
            let total: u128 = shifted + mb;
            assert(total * unit == shifted * unit + mb * unit) by (nonlinear_arith)
                requires
                    total == shifted + mb,
            ;
            if total == 0 {
                if na {
                    return Single { bits: NEGATIVE_ZERO };
                }
                return Single { bits: ZERO };
            }
            assert(total * unit > 0) by (nonlinear_arith)
                requires
                    total > 0,
                    unit > 0,
            ;
            Single::compose(na, total, eb as i32)
        } else if shifted == mb {
            Single { bits: ZERO }
        } else if shifted > mb {
            let total: u128 = shifted - mb;
            assert(total * unit == shifted * unit - mb * unit) by (nonlinear_arith)
                requires
                    total == shifted - mb,
            ;
            assert(total * unit > 0) by (nonlinear_arith)
                requires
                    total > 0,
                    unit > 0,
            ;
            Single::compose(na, total, eb as i32)
        } else {
            let total: u128 = mb - shifted;
            assert(total * unit == mb * unit - shifted * unit) by (nonlinear_arith)
                requires
                    total == mb - shifted,
            ;
            assert(total * unit > 0) by (nonlinear_arith)
                requires
                    total > 0,
                    unit > 0,
            ;
            Single::compose(nb, total, eb as i32)
        }
    }

    /// `self + other`.
    pub fn plus(self, other: Single) -> (r: Single)
        ensures
            r == Single::sum(self, other),
    {
        if self.is_nan() || other.is_nan() {
            return Single { bits: NAN };
        }
        if self.is_infinite() {
            if other.is_infinite() && self.is_negative() != other.is_negative() {
                return Single { bits: NAN };
            }
            return self;
        }
        if other.is_infinite() {
            return other;
        }
        let (ma, ea) = self.parts();
        let (mb, eb) = other.parts();
        if ea >= eb {
            Single::add_parts(self, other, ma, ea, mb, eb)
        } else {
            Single::add_parts(other, self, mb, eb, ma, ea)
        }
    }

    /// `-self`.
    pub fn negate(self) -> (r: Single)
        ensures
            r == self.negated(),
    {
        if self.bits >= 0x8000_0000 {
            Single { bits: self.bits - 0x8000_0000 }
        } else {
            Single { bits: self.bits + 0x8000_0000 }
        }
    }

    /// `self - other`.
    pub fn minus(self, other: Single) -> (r: Single)
        ensures
            r == Single::difference(self, other),
    {
        self.plus(other.negate())
    }

    /// `self * other`.
    pub fn times(self, other: Single) -> (r: Single)
        ensures
            r == Single::product(self, other),
    {
        let negative: bool = self.is_negative() != other.is_negative();
        let zero: bool = self.bits % 0x8000_0000 == 0 || other.bits % 0x8000_0000 == 0;
        if self.is_nan() || other.is_nan() {
            return Single { bits: NAN };
        }
        if self.is_infinite() || other.is_infinite() {
            if zero {
                return Single { bits: NAN };
            }
            if negative {
                return Single { bits: NEGATIVE_INFINITY };
            }
            return Single { bits: INFINITY };
        }
        let (ma, ea) = self.parts();
        let (mb, eb) = other.parts();
        let e: i32 = ea as i32 + eb as i32 - 149;
        proof {
            lemma2_to64();
            lemma2_to64_rest();
            lemma_pow2_adds(24, 24);
            lemma_pow2_strictly_increases(48, 126);
            assert(ma * mb < pow2(24) * pow2(24)) by (nonlinear_arith)
                requires
                    ma < pow2(24),
                    mb < pow2(24),
            ;
            lemma_pow2_adds(ea as nat, eb as nat);
            let m = (ma * mb) as nat;
            let n = self.units() * other.units();
            assert(n == m * pow2((ea + eb) as nat)) by (nonlinear_arith)
                requires
                    n == (ma * pow2(ea as nat)) * (mb * pow2(eb as nat)),
                    m == ma * mb,
                    pow2((ea + eb) as nat) == pow2(ea as nat) * pow2(eb as nat),
            ;
            if e >= 0 {
                lemma_pow2_adds(e as nat, 149);
                assert(n == (m * pow2(e as nat)) * pow2(149)) by (nonlinear_arith)
                    requires
                        n == m * pow2((ea + eb) as nat),
                        pow2((ea + eb) as nat) == pow2(e as nat) * pow2(149),
                ;
                lemma_round_units_scale(m * pow2(e as nat), 0, 149, 24);
            } else {
                lemma_round_units_scale(m, (-e) as nat, (ea + eb) as nat, 24);
            }
        }
        Single::compose(negative, ma * mb, e)
    }

    /// The number nearest to `i`.
    pub fn from_i32(i: i32) -> (r: Single)
        ensures
            r == Single::of_int(i as int),
    {
        let m: u128 = if i < 0 { (-(i as i64)) as u128 } else { i as u128 };
        proof {
            lemma2_to64();
            lemma_pow2_strictly_increases(32, 126);
        }
        Single::compose(i < 0, m, 149)
    }

    /// The number nearest to `n`.
    pub fn from_usize(n: usize) -> (r: Single)
        ensures
            r == Single::of_int(n as int),
    {
        proof {
            lemma2_to64();
            lemma_pow2_strictly_increases(64, 126);
        }
        Single::compose(false, n as u128, 149)
    }

    /// Whether `self` is less than `other`.
    pub fn is_less(self, other: Single) -> (r: bool)
        ensures
            r == Single::less(self, other),
    {
        if self.is_nan() || other.is_nan() {
            return false;
        }
        let a: u32 = self.bits % 0x8000_0000;
        let b: u32 = other.bits % 0x8000_0000;
        proof {
            lemma2_to64();
            if a < b {
                lemma_decode_increases(a as nat, b as nat, 24);
            }
            if b < a {
                lemma_decode_increases(b as nat, a as nat, 24);
            }
            if a > 0 {
                lemma_decode_increases(0, a as nat, 24);
            }
            if b > 0 {
                lemma_decode_increases(0, b as nat, 24);
            }
        }
        if self.is_negative() {
            if other.is_negative() {
                a > b
            } else {
                a > 0 || b > 0
            }
        } else if other.is_negative() {
            false
        } else {
            a < b
        }
    }

    /// The larger of two numbers.
    pub fn max(self, other: Single) -> (r: Single)
        ensures
            r == Single::larger(self, other),
    {
        if self.is_nan() {
            other
        } else if other.is_nan() {
            self
        } else if self.is_less(other) || (!other.is_less(self) && self.is_negative()) {
            other
        } else {
            self
        }
    }

    /// The smaller of two numbers.
    pub fn min(self, other: Single) -> (r: Single)
        ensures
            r == Single::smaller(self, other),
    {
        if self.is_nan() {
            other
        } else if other.is_nan() {
            self
        } else if other.is_less(self) || (!self.is_less(other) && other.is_negative()) {
            other
        } else {
            self
        }
    }

    /// The whole part, up to [`SPLIT_CAP`], and what is left over.
    fn split(self) -> (r: (u64, Fraction))
        requires
            !self.nan(),
        ensures
            r.0 <= SPLIT_CAP,
            ({
                let d = pow2(149);
                if r.0 < SPLIT_CAP {
                    &&& r.0 == self.units() / d
                    &&& match r.1 {
                        Fraction::Zero => self.units() % d == 0,
                        Fraction::BelowHalf => 0 < 2 * (self.units() % d) < d,
                        Fraction::Half => 2 * (self.units() % d) == d,
                        Fraction::AboveHalf => 2 * (self.units() % d) > d,
                    }
                } else {
                    self.units() / d >= SPLIT_CAP
                }
            }),
    {
        let (m, e) = self.parts();
        proof {
            lemma_pow2_strictly_increases(24, 60);
        }
        split_scaled(m, e, 149)
    }

    /// `whole` with the sign of this number, in the range of an `i32`.
    fn signed_i32(self, whole: u64) -> (r: i32)
        requires
            whole <= 0x200_0000_0000,
        ensures
            r == saturate_i32(if self.negative() {
                -(whole as int)
            } else {
                whole as int
            }),
    {
        if self.is_negative() {
            if whole > 0x8000_0000 {
                i32::MIN
            } else {
                (-(whole as i64)) as i32
            }
        } else if whole > 0x7fff_ffff {
            i32::MAX
        } else {
            whole as i32
        }
    }

    /// The nearest whole number, halves away from zero, as an `i32`: what lies
    /// beyond its range becomes its nearest end, and what is not a number zero.
    pub fn round_i32(self) -> (r: i32)
        ensures
            r == if self.nan() {
                0
            } else {
                saturate_i32(self.rounded())
            },
    {
        if self.is_nan() {
            return 0;
        }
        let (whole, fraction) = self.split();
        let up: bool = fraction == Fraction::Half || fraction == Fraction::AboveHalf;
        proof {
            let d = pow2(149);
            lemma_pow2_pos(149);
            lemma_pow2_unfold(150);
            let u = self.units();
            lemma_fundamental_div_mod(u as int, d as int);
            let q = u / d;
            let r = u % d;
            let carried = if 2 * r >= d { 1nat } else { 0nat };
            assert(2 * u + d == (q + carried) * (2 * d) + (2 * r + d - carried * (2 * d)))
                by (nonlinear_arith)
                requires
                    u == d * q + r,
            ;
            lemma_fundamental_div_mod_converse(
                (2 * u + d) as int,
                (2 * d) as int,
                (q + carried) as int,
                2 * r + d - carried * (2 * d),
            );
        }
        self.signed_i32(if up { whole + 1 } else { whole })
    }

    /// The whole part as an `i32`, with the same treatment of the extremes.
    pub fn trunc_i32(self) -> (r: i32)
        ensures
            r == if self.nan() {
                0
            } else {
                saturate_i32(self.truncated())
            },
    {
        if self.is_nan() {
            return 0;
        }
        let (whole, _fraction) = self.split();
        self.signed_i32(whole)
    }

    /// The least whole number not below as an `i32`, with the same treatment of
    /// the extremes.
    pub fn ceil_i32(self) -> (r: i32)
        ensures
            r == if self.nan() {
                0
            } else {
                saturate_i32(self.ceiling())
            },
    {
        if self.is_nan() {
            return 0;
        }
        let (whole, fraction) = self.split();
        proof {
            let d = pow2(149);
            lemma_pow2_pos(149);
            let u = self.units();
            lemma_fundamental_div_mod(u as int, d as int);
            let q = u / d;
            let r = u % d;
            let carried = if r > 0 { 1nat } else { 0nat };
            assert(u + d - 1 == (q + carried) * d + (r + d - 1 - carried * d))
                by (nonlinear_arith)
                requires
                    u == d * q + r,
            ;
            lemma_fundamental_div_mod_converse(
                u + d - 1,
                d as int,
                (q + carried) as int,
                r + d - 1 - carried * d,
            );
        }
        if self.is_negative() || fraction == Fraction::Zero {
            self.signed_i32(whole)
        } else {
            self.signed_i32(whole + 1)
        }
    }
}

/// A whole number of at most 32 bits as a significand of 24 bits.
proof fn lemma_whole_parts(n: nat) -> (r: (nat, nat))
    requires
        0 < n <= 0x1_0000_0000,
    ensures
        pow2(23) <= r.0 <= pow2(24),
        126 <= r.1 <= 158,
        round_units(n * pow2(149), 0, 24) == r.0 * pow2(r.1),
{
    lemma2_to64();
    lemma2_to64_rest();
    let v = n * pow2(149);
    lemma_pow2_pos(149);
    assert(v > 0) by (nonlinear_arith)
        requires
            v == n * pow2(149),
            n > 0,
            pow2(149) > 0,
    ;
    lemma_bit_len_bounds(n);
    lemma_bit_len_below(n, 33);
    lemma_bit_len_shift(n, 149);
    lemma_bit_len_bounds(v);
    let b = bit_len(v);
    let q = (b - 24) as nat;
    lemma_pow2_pos(q);
    lemma_pow2_adds(23, q);
    lemma_pow2_adds(24, q);
    lemma_round_half_even_bounds(v, pow2(q), pow2(23), pow2(24));
    (round_half_even(v, pow2(q)), q)
}

/// Half of a whole number is exact: no digit is lost to rounding.
pub proof fn lemma_half_of_whole(i: int)
    requires
        i32::MIN <= i <= i32::MAX,
    ensures
        2 * Single::product(Single::of_int(i), Single { bits: HALF }).value() == Single::of_int(
            i,
        ).value(),
{
    lemma2_to64();
    lemma2_to64_rest();
    let half = Single { bits: HALF };
    let a = Single::of_int(i);
    let n = if i < 0 {
        (-i) as nat
    } else {
        i as nat
    };
    assert(half.units() == pow2(148)) by {
        lemma_pow2_adds(23, 125);
    }
    if n == 0 {
        assert(0 * pow2(149) == 0);
        assert(round_units(0, 0, 24) == 0) by {
            lemma_round_units_exact(0, 0, 24);
            assert(0 * pow2(0) == 0);
        }
        lemma_pow2_pos(277);
        assert(a.bits == 0);
        assert(0 * pow2(148) == 0);
        assert(round_units(0, 149, 24) == 0) by {
            lemma_round_units_scale(0, 0, 149, 24);
        }
        assert(Single::product(a, half).bits == 0);
    } else {
        let (f, q) = lemma_whole_parts(n);
        lemma_encode_parts(f, q, 24);
        lemma_encode_parts(f, (q - 1) as nat, 24);
        lemma_pow2_unfold(q);
        let v = f * pow2(q);
        let h = f * pow2((q - 1) as nat);
        assert(v == h * 2) by (nonlinear_arith)
            requires
                v == f * pow2(q),
                h == f * pow2((q - 1) as nat),
                pow2(q) == 2 * pow2((q - 1) as nat),
        ;
        lemma_pow2_adds(24, q);
        assert(v <= pow2(24) * pow2(q)) by (nonlinear_arith)
            requires
                v == f * pow2(q),
                f <= pow2(24),
        ;
        lemma_pow2_strictly_increases((24 + q) as nat, 277);
        assert(a.magnitude() == q * pow2(23) + f);
        assert(a.units() == v);
        lemma_round_units_scale(v, 1, 148, 24);
        lemma_round_units_scale(h, 0, 1, 24);
        assert(round_units(h, 0, 24) == h) by {
            if f == pow2(24) {
                lemma_pow2_adds(24, (q - 1) as nat);
                lemma_bit_len_below(1, 1);
                lemma_round_units_exact(1, (24 + (q - 1)) as nat, 24);
            } else {
                lemma_bit_len_below(f, 24);
                lemma_round_units_exact(f, (q - 1) as nat, 24);
            }
        }
        let p = Single::product(a, half);
        assert(p.magnitude() == (q - 1) * pow2(23) + f);
        assert(p.units() == h);
    }
}

/// A number's own distance from zero is on its grid.
proof fn lemma_units_are_exact(a: Single)
    requires
        a.finite(),
    ensures
        round_units(a.units(), 0, 24) == a.units(),
{
    lemma2_to64();
    let b = a.magnitude();
    if b < pow2(23) {
        lemma_bit_len_below(b, 24);
        lemma_round_units_exact(b, 0, 24);
        assert(b * pow2(0) == b);
    } else {
        let m = pow2(23) + b % pow2(23);
        lemma_bit_len_below(m, 24);
        lemma_round_units_exact(m, (b / pow2(23) - 1) as nat, 24);
    }
}

/// Adding a zero changes nothing, but for the sign of a negative zero.
pub proof fn lemma_add_zero(a: Single, z: Single)
    requires
        !a.nan(),
        z.zero(),
        a.bits != NEGATIVE_ZERO,
    ensures
        Single::sum(a, z) == a,
{
    lemma2_to64();
    assert(z.value() == 0);
    if a.finite() {
        lemma_units_are_exact(a);
        lemma_of_own_units(a);
        if a.magnitude() > 0 {
            lemma_decode_increases(0, a.magnitude(), 24);
        }
    }
}

/// A whole number of at most 24 bits is held exactly.
pub proof fn lemma_small_whole_is_exact(i: int)
    requires
        -0x100_0000 < i < 0x100_0000,
    ensures
        Single::of_int(i).finite(),
        Single::of_int(i).value() == i * pow2(149),
        Single::of_int(i).negative() == (i < 0),
{
    lemma2_to64();
    lemma2_to64_rest();
    let n = if i < 0 {
        (-i) as nat
    } else {
        i as nat
    };
    let a = Single::of_int(i);
    lemma_bit_len_below(n, 24);
    lemma_round_units_exact(n, 149, 24);
    if n == 0 {
        assert(0 * pow2(149) == 0);
        lemma_pow2_pos(277);
        assert(a.bits == 0);
    } else {
        let (f, q) = lemma_whole_parts(n);
        lemma_encode_parts(f, q, 24);
        lemma_pow2_adds(24, q);
        lemma_pow2_adds(24, 149);
        lemma_pow2_strictly_increases(173, 277);
        assert(n * pow2(149) < pow2(24) * pow2(149)) by (nonlinear_arith)
            requires
                n < pow2(24),
                pow2(149) > 0,
        {
            lemma_pow2_pos(149);
        }
        lemma_pow2_pos(149);
        assert(a.magnitude() == q * pow2(23) + f) by {
            assert(q * pow2(23) + f <= 158 * 0x80_0000 + 0x100_0000) by (nonlinear_arith)
                requires
                    q <= 158,
                    f <= 0x100_0000,
                    pow2(23) == 0x80_0000,
            ;
        }
        assert(a.units() == n * pow2(149));
        if i < 0 {
            assert(i * pow2(149) == -(n * pow2(149))) by (nonlinear_arith)
                requires
                    i == -(n as int),
            ;
        }
    }
}

/// Whole numbers of at most 24 bits add up as whole numbers do: adding them
/// and then taking the nearest number is the same as adding the numbers.
pub proof fn lemma_small_wholes_add(a: int, b: int)
    requires
        -0x100_0000 < a < 0x100_0000,
        -0x100_0000 < b < 0x100_0000,
    ensures
        Single::sum(Single::of_int(a), Single::of_int(b)) == Single::of_int(a + b),
{
    lemma_small_whole_is_exact(a);
    lemma_small_whole_is_exact(b);
    lemma_pow2_pos(149);
    let unit = pow2(149) as int;
    let v = a * unit + b * unit;
    assert(v == (a + b) * unit) by (nonlinear_arith)
        requires
            v == a * unit + b * unit,
    ;
    if a + b == 0 {
        assert(v == 0) by (nonlinear_arith)
            requires
                v == (a + b) * unit,
                a + b == 0,
        ;
        lemma_small_whole_is_exact(0);
        assert(0 * pow2(149) == 0);
        assert(round_units(0, 0, 24) == 0) by {
            lemma_bit_len_below(0, 24);
            lemma_pow2_pos(24);
            lemma_round_units_exact(0, 0, 24);
            assert(0 * pow2(0) == 0);
        }
        lemma_pow2_pos(277);
        assert(Single::of_int(0).bits == 0);
    } else if a + b < 0 {
        assert(v < 0 && -v == (-(a + b)) * unit) by (nonlinear_arith)
            requires
                v == (a + b) * unit,
                a + b < 0,
                unit > 0,
        ;
    } else {
        assert(v > 0) by (nonlinear_arith)
            requires
                v == (a + b) * unit,
                a + b > 0,
                unit > 0,
        ;
    }
}

/// Every whole number of at most 32 bits is finite.
pub proof fn lemma_whole_is_finite(i: int)
    requires
        -0x1_0000_0000 <= i <= 0x1_0000_0000,
    ensures
        Single::of_int(i).finite(),
{
    lemma2_to64();
    let n = if i < 0 {
        (-i) as nat
    } else {
        i as nat
    };
    if n == 0 {
        lemma_small_whole_is_exact(0);
    } else {
        let (f, q) = lemma_whole_parts(n);
        lemma_encode_parts(f, q, 24);
        lemma_pow2_adds(24, q);
        lemma_pow2_strictly_increases((24 + q) as nat, 277);
        assert(f * pow2(q) <= pow2(24) * pow2(q)) by (nonlinear_arith)
            requires
                f <= pow2(24),
        ;
        assert(q * pow2(23) + f <= 158 * 0x80_0000 + 0x100_0000) by (nonlinear_arith)
            requires
                q <= 158,
                f <= 0x100_0000,
                pow2(23) == 0x80_0000,
        ;
    }
}

/// The larger of two numbers is one of them, and neither is above it; what is
/// not a number counts for nothing beside one that is.
pub proof fn lemma_larger_is_above_both(a: Single, b: Single)
    ensures
        Single::larger(a, b) == a || Single::larger(a, b) == b,
        !a.nan() ==> !Single::less(Single::larger(a, b), a),
        !b.nan() ==> !Single::less(Single::larger(a, b), b),
        !a.nan() || !b.nan() ==> !Single::larger(a, b).nan(),
        !a.nan() && !b.nan() ==> Single::larger(a, b).value() >= a.value()
            && Single::larger(a, b).value() >= b.value(),
{
}

/// The smaller of two numbers is one of them, and neither is below it.
pub proof fn lemma_smaller_is_below_both(a: Single, b: Single)
    ensures
        Single::smaller(a, b) == a || Single::smaller(a, b) == b,
        !a.nan() || !b.nan() ==> !Single::smaller(a, b).nan(),
        !a.nan() && !b.nan() ==> Single::smaller(a, b).value() <= a.value()
            && Single::smaller(a, b).value() <= b.value(),
{
}

/// What the bits of a few numbers stand for.
pub proof fn lemma_constants()
    ensures
        (Single { bits: ZERO }).value() == 0,
        (Single { bits: ONE }).value() == pow2(149),
        2 * (Single { bits: HALF }).value() == pow2(149),
        (Single { bits: INFINITY }).infinite(),
        !(Single { bits: INFINITY }).negative(),
        (Single { bits: NAN }).nan(),
{
    lemma2_to64();
    lemma_pow2_adds(23, 126);
    lemma_pow2_adds(23, 125);
    lemma_pow2_unfold(149);
}

/// Rounding gives the nearest whole number: no more than half away, and a half
/// goes away from zero. A number and its opposite round to opposites.
pub proof fn lemma_rounded_is_nearest(a: Single)
    ensures
        !a.negative() ==> (2 * a.rounded() - 1) * pow2(149) <= 2 * a.value() < (2 * a.rounded() + 1)
            * pow2(149),
        !a.negative() ==> a.rounded() >= 0,
        a.negative() ==> a.rounded() == -a.negated().rounded(),
{
    let d = pow2(149) as int;
    lemma_pow2_pos(149);
    lemma_pow2_unfold(150);
    let u = a.units() as int;
    let whole = (2 * u + d) / (2 * d);
    lemma_fundamental_div_mod(2 * u + d, 2 * d);
    let rest = (2 * u + d) % (2 * d);
    assert(2 * u + d == (2 * d) * whole + rest);
    lemma_div_pos_is_pos(2 * u + d, 2 * d);
    assert((2 * whole - 1) * d <= 2 * u < (2 * whole + 1) * d) by (nonlinear_arith)
        requires
            2 * u + d == (2 * d) * whole + rest,
            0 <= rest < 2 * d,
    ;
    assert(a.negated().magnitude() == a.magnitude());
}

/// The whole part lies below, by less than one; of a negative number, above.
pub proof fn lemma_truncated_is_the_whole_part(a: Single)
    ensures
        !a.negative() ==> 0 <= a.truncated() * pow2(149) <= a.value() < (a.truncated() + 1) * pow2(
            149,
        ),
        a.negative() ==> a.truncated() == -a.negated().truncated(),
{
    let d = pow2(149) as int;
    lemma_pow2_pos(149);
    let u = a.units() as int;
    lemma_fundamental_div_mod(u, d);
    lemma_div_pos_is_pos(u, d);
    assert(0 <= (u / d) * d <= u < (u / d + 1) * d) by (nonlinear_arith)
        requires
            u == d * (u / d) + u % d,
            0 <= u % d < d,
            u / d >= 0,
    ;
    assert(a.negated().magnitude() == a.magnitude());
}

/// The ceiling holds the number, by less than one.
pub proof fn lemma_ceiling_holds_the_number(a: Single)
    ensures
        (a.ceiling() - 1) * pow2(149) < a.value() <= a.ceiling() * pow2(149),
{
    let d = pow2(149) as int;
    lemma_pow2_pos(149);
    let u = a.units() as int;
    if a.negative() {
        lemma_fundamental_div_mod(u, d);
        assert((-(u / d) - 1) * d < -u <= -(u / d) * d) by (nonlinear_arith)
            requires
                u == d * (u / d) + u % d,
                0 <= u % d < d,
        ;
    } else {
        let n = u + d - 1;
        lemma_fundamental_div_mod(n, d);
        assert((n / d - 1) * d < u <= (n / d) * d) by (nonlinear_arith)
            requires
                n == d * (n / d) + n % d,
                0 <= n % d < d,
                n == u + d - 1,
        ;
    }
}

/// Saturation keeps what fits, and gives the nearer end otherwise.
pub proof fn lemma_saturation_keeps_what_fits(v: int)
    ensures
        i32::MIN <= v <= i32::MAX ==> saturate_i32(v) == v,
        v > i32::MAX ==> saturate_i32(v) == i32::MAX,
        v < i32::MIN ==> saturate_i32(v) == i32::MIN,
{
}

/// A whole number of at most 24 bits, rounded, cut off or brought up to the
/// next whole one, is itself.
pub proof fn lemma_small_whole_stays_whole(i: int)
    requires
        -0x100_0000 < i < 0x100_0000,
    ensures
        Single::of_int(i).rounded() == i,
        Single::of_int(i).truncated() == i,
        Single::of_int(i).ceiling() == i,
{
    let a = Single::of_int(i);
    lemma_small_whole_is_exact(i);
    lemma_pow2_pos(149);
    lemma_pow2_unfold(150);
    let d = pow2(149) as int;
    let n = if i < 0 {
        -i
    } else {
        i
    };
    assert(a.units() == n * d) by {
        if i < 0 {
            assert(i * d == -(n * d)) by (nonlinear_arith)
                requires
                    i == -n,
            ;
        }
    }
    lemma_fundamental_div_mod_converse(n * d, d, n, 0);
    assert(2 * (n * d) + d == n * (2 * d) + d) by (nonlinear_arith);
    lemma_fundamental_div_mod_converse(2 * (n * d) + d, 2 * d, n, d);
    lemma_fundamental_div_mod_converse(n * d + d - 1, d, n, d - 1);
}

/// Whole numbers whose product has at most 24 bits multiply as whole numbers
/// do.
pub proof fn lemma_small_wholes_multiply(a: int, b: int)
    requires
        -0x100_0000 < a < 0x100_0000,
        0 < b < 0x100_0000,
        -0x100_0000 < a * b < 0x100_0000,
    ensures
        Single::product(Single::of_int(a), Single::of_int(b)) == Single::of_int(a * b),
{
    lemma_small_whole_is_exact(a);
    lemma_small_whole_is_exact(b);
    let d = pow2(149);
    let x = Single::of_int(a);
    let y = Single::of_int(b);
    let n = (if a < 0 {
        -a
    } else {
        a
    }) as nat;
    lemma_pow2_pos(149);
    assert(x.units() == n * d) by {
        if a < 0 {
            assert(a * d == -(n * d)) by (nonlinear_arith)
                requires
                    a == -(n as int),
            ;
        }
    }
    let m = (n * b) as nat;
    assert(m >= 0 && (a < 0 ==> a * b == -(m as int)) && (a >= 0 ==> a * b == m)) by (nonlinear_arith)
        requires
            m == n * b,
            b > 0,
            n == (if a < 0 { -a } else { a }),
    ;
    assert(a < 0 ==> a * b < 0) by (nonlinear_arith)
        requires
            b > 0,
    ;
    assert(x.units() * y.units() == (m * d) * d) by (nonlinear_arith)
        requires
            x.units() == n * d,
            y.units() == b * d,
            m == n * b,
    ;
    lemma_round_units_scale(m * d, 0, 149, 24);
}

/// A number is known by its sign and its value.
pub proof fn lemma_value_and_sign_tell_numbers_apart(a: Single, b: Single)
    requires
        a.value() == b.value(),
        a.negative() == b.negative(),
    ensures
        a == b,
{
    lemma_encode_decode(a.magnitude(), 24);
    lemma_encode_decode(b.magnitude(), 24);
    assert(a.magnitude() == b.magnitude());
}

/// Taking a whole number of at most 24 bits from another is exact.
pub proof fn lemma_small_wholes_subtract(a: int, b: int)
    requires
        -0x100_0000 < a < 0x100_0000,
        -0x100_0000 < b < 0x100_0000,
    ensures
        Single::difference(Single::of_int(a), Single::of_int(b)) == Single::of_int(a - b),
{
    lemma_small_whole_is_exact(a);
    lemma_small_whole_is_exact(b);
    lemma_small_whole_is_exact(-b);
    let x = Single::of_int(a);
    let y = Single::of_int(b);
    let d = pow2(149) as int;
    assert((-b) * d == -(b * d)) by (nonlinear_arith);
    assert(y.negated().magnitude() == y.magnitude());
    if b == 0 {
        assert(b * d == 0) by (nonlinear_arith)
            requires
                b == 0,
        ;
        if y.magnitude() > 0 {
            lemma2_to64();
            lemma_decode_increases(0, y.magnitude(), 24);
        }
        if a < 0 {
            lemma_pow2_pos(149);
            assert(a * d < 0) by (nonlinear_arith)
                requires
                    a < 0,
                    d > 0,
            ;
            lemma2_to64();
            assert((Single { bits: NEGATIVE_ZERO }).value() == 0);
        }
        lemma_add_zero(x, y.negated());
    } else {
        lemma_value_and_sign_tell_numbers_apart(y.negated(), Single::of_int(-b));
        lemma_small_wholes_add(a, -b);
    }
}

/// No length times nothing is nothing.
pub proof fn lemma_nothing_times_a_whole(a: int)
    requires
        0 <= a < 0x100_0000,
    ensures
        Single::product(Single::of_int(a), Single::of_int(0)) == Single::of_int(0),
        Single::of_int(0).bits == ZERO,
{
    lemma_small_whole_is_exact(a);
    lemma_small_whole_is_exact(0);
    let x = Single::of_int(a);
    let z = Single::of_int(0);
    assert(0 * pow2(149) == 0);
    assert(round_units(0, 0, 24) == 0) by {
        lemma_bit_len_below(0, 24);
        lemma_pow2_pos(24);
        lemma_round_units_exact(0, 0, 24);
        assert(0 * pow2(0) == 0);
    }
    lemma_pow2_pos(277);
    assert(z.bits == 0);
    assert(z.units() == 0) by {
        lemma2_to64();
    }
    assert(x.units() * 0 == 0);
    assert(0 * pow2(149) == 0);
    lemma_round_units_scale(0, 0, 149, 24);
}

/// A finite number made of a rounded magnitude stands at that magnitude.
pub(crate) proof fn lemma_made_of_rounded(negative: bool, n: nat, s: nat)
    requires
        Single::of_units(negative, round_units(n, s, 24)).finite(),
    ensures
        Single::of_units(negative, round_units(n, s, 24)).units() == round_units(n, s, 24),
        Single::of_units(negative, round_units(n, s, 24)).negative() == negative,
{
    let v = round_units(n, s, 24);
    let a = Single::of_units(negative, v);
    lemma_of_units_keeps_the_sign(negative, v);
    lemma_rounded_is_stored(n, s, 24);
    if v < pow2(277) {
        lemma_of_units_keeps_the_sign(false, v);
        lemma2_to64();
        lemma_bit_len_below(v, 277);
        if bit_len(v) > 24 {
            let k = (bit_len(v) - 24) as nat;
            lemma_bit_len_bounds(v);
            lemma_pow2_adds(24, k);
            lemma_pow2_pos(k);
            lemma_div_by_multiple_is_strongly_ordered(
                v as int,
                (pow2(24) * pow2(k)) as int,
                pow2(24) as int,
                pow2(k) as int,
            );
            lemma_div_multiples_vanish(pow2(24) as int, pow2(k) as int);
            assert(pow2(24) * pow2(k) == pow2(k) * pow2(24)) by (nonlinear_arith);
            assert(k * pow2(23) <= 253 * 0x80_0000) by (nonlinear_arith)
                requires
                    k <= 253,
                    pow2(23) == 0x80_0000,
            ;
        } else {
            lemma_bit_len_below(v, 24);
        }
        assert(encode(v, 24) < 0x8000_0000);
        assert(a.magnitude() == encode(v, 24));
    }
}

/// No number is nearer to `n / 2^s` units, of either sign, than what that is
/// rounded to.
pub(crate) proof fn lemma_none_is_nearer(n: nat, s: nat, x: Single)
    requires
        x.finite(),
    ensures
        distance((round_units(n, s, 24) * pow2(s)) as int, n as int) <= distance(
            x.value() * pow2(s),
            n as int,
        ),
{
    lemma2_to64();
    lemma_pow2_pos(s);
    let b = x.magnitude();
    let (m, e) = if b < pow2(23) {
        (b, 0nat)
    } else {
        ((pow2(23) + b % pow2(23)) as nat, (b / pow2(23) - 1) as nat)
    };
    assert(x.units() == m * pow2(e)) by {
        assert(b * pow2(0) == b);
    }
    lemma_rounding_is_best(n, s, m, e, 24);
    lemma_rounding_is_best(n, s, 0, 0, 24);
    assert(0 * pow2(0) * pow2(s) == 0) by (nonlinear_arith);
    if x.negative() {
        assert(x.value() * pow2(s) <= 0) by (nonlinear_arith)
            requires
                x.value() <= 0,
                pow2(s) > 0,
        ;
    }
}

/// A sum is the number nearest to the exact one.
pub proof fn lemma_sum_is_nearest(a: Single, b: Single, x: Single)
    requires
        a.finite(),
        b.finite(),
        x.finite(),
        Single::sum(a, b).finite(),
    ensures
        distance(Single::sum(a, b).value(), a.value() + b.value()) <= distance(
            x.value(),
            a.value() + b.value(),
        ),
{
    let v = a.value() + b.value();
    lemma2_to64();
    if v == 0 {
        lemma_constants();
        assert((Single { bits: NEGATIVE_ZERO }).value() == 0);
    } else if v < 0 {
        lemma_made_of_rounded(true, (-v) as nat, 0);
        lemma_none_is_nearer((-v) as nat, 0, x.negated());
        assert(x.negated().magnitude() == x.magnitude());
        assert(x.negated().value() == -x.value());
        assert(round_units((-v) as nat, 0, 24) * 1 == round_units((-v) as nat, 0, 24));
        assert((-x.value()) * 1 == -x.value());
    } else {
        lemma_made_of_rounded(false, v as nat, 0);
        lemma_none_is_nearer(v as nat, 0, x);
        assert(round_units(v as nat, 0, 24) * 1 == round_units(v as nat, 0, 24));
        assert(x.value() * 1 == x.value());
    }
}

/// The number of a whole number is the nearest one there is.
pub proof fn lemma_whole_is_nearest(i: int, x: Single)
    requires
        x.finite(),
        Single::of_int(i).finite(),
    ensures
        distance(Single::of_int(i).value(), i * pow2(149)) <= distance(x.value(), i * pow2(149)),
{
    lemma2_to64();
    let n = (if i < 0 {
        -i
    } else {
        i
    }) as nat;
    let v = n * pow2(149);
    lemma_made_of_rounded(i < 0, v, 0);
    let y = if i < 0 {
        x.negated()
    } else {
        x
    };
    assert(x.negated().magnitude() == x.magnitude());
    assert(x.negated().value() == -x.value());
    lemma_none_is_nearer(v, 0, y);
    assert(round_units(v, 0, 24) * 1 == round_units(v, 0, 24));
    assert(y.value() * 1 == y.value());
    if i < 0 {
        assert(i * pow2(149) == -(v as int)) by (nonlinear_arith)
            requires
                i == -(n as int),
                v == n * pow2(149),
        ;
    }
}

/// A product is the number nearest to the exact one.
pub proof fn lemma_product_is_nearest(a: Single, b: Single, x: Single)
    requires
        a.finite(),
        b.finite(),
        x.finite(),
        Single::product(a, b).finite(),
    ensures
        distance(Single::product(a, b).value() * pow2(149), a.value() * b.value()) <= distance(
            x.value() * pow2(149),
            a.value() * b.value(),
        ),
{
    let n = a.units() * b.units();
    let negative = a.negative() != b.negative();
    let u = round_units(n, 149, 24);
    lemma_made_of_rounded(negative, n, 149);
    let y = if negative {
        x.negated()
    } else {
        x
    };
    assert(x.negated().magnitude() == x.magnitude());
    assert(x.negated().value() == -x.value());
    lemma_none_is_nearer(n, 149, y);
    assert(negative ==> a.value() * b.value() == -(n as int)) by (nonlinear_arith)
        requires
            n == a.units() * b.units(),
            a.value() == a.units() || a.value() == -(a.units() as int),
            b.value() == b.units() || b.value() == -(b.units() as int),
            negative ==> (a.value() == a.units() && b.value() == -(b.units() as int)) || (a.value()
                == -(a.units() as int) && b.value() == b.units()),
    ;
    assert(!negative ==> a.value() * b.value() == n) by (nonlinear_arith)
        requires
            n == a.units() * b.units(),
            !negative ==> (a.value() == a.units() && b.value() == b.units()) || (a.value() == -(
            a.units() as int) && b.value() == -(b.units() as int)),
    ;
    if negative {
        assert((-(u as int)) * pow2(149) == -(u * pow2(149))) by (nonlinear_arith);
        assert((-x.value()) * pow2(149) == -(x.value() * pow2(149))) by (nonlinear_arith);
    }
}

/// A number that is none makes every sum and product none. An endless number
/// outweighs every finite one, but has no sum with its opposite and no product
/// with nothing.
pub proof fn lemma_extremes_prevail(a: Single, b: Single)
    ensures
        a.nan() || b.nan() ==> Single::sum(a, b).nan() && Single::product(a, b).nan(),
        a.infinite() && b.finite() ==> Single::sum(a, b) == a && Single::sum(b, a) == a,
        a.infinite() && b.infinite() && a.negative() == b.negative() ==> Single::sum(a, b) == a,
        a.infinite() && b.infinite() && a.negative() != b.negative() ==> Single::sum(a, b).nan(),
        a.infinite() && !b.nan() && !b.zero() ==> Single::product(a, b).infinite()
            && Single::product(a, b).negative() == (a.negative() != b.negative()),
        a.infinite() && b.zero() ==> Single::product(a, b).nan(),
        Single::sum(a, b) == Single::sum(b, a),
        Single::product(a, b) == Single::product(b, a),
{
    assert(a.units() * b.units() == b.units() * a.units()) by (nonlinear_arith);
}

/// The sum of two finite numbers is a number.
pub proof fn lemma_finite_sums_are_numbers(a: Single, b: Single)
    requires
        a.finite(),
        b.finite(),
    ensures
        !Single::sum(a, b).nan(),
{
    let v = a.value() + b.value();
    if v != 0 {
        let u = round_units((if v < 0 {
            -v
        } else {
            v
        }) as nat, 0, 24);
        lemma_made_of_units_is_a_number(v < 0, u);
    }
}

/// What is made of units is a number.
proof fn lemma_made_of_units_is_a_number(negative: bool, v: nat)
    ensures
        !Single::of_units(negative, v).nan(),
{
    lemma2_to64();
    if v < pow2(277) {
        lemma_bit_len_below(v, 277);
        if bit_len(v) > 24 {
            let k = (bit_len(v) - 24) as nat;
            lemma_bit_len_bounds(v);
            lemma_pow2_adds(24, k);
            lemma_pow2_pos(k);
            lemma_div_by_multiple_is_strongly_ordered(
                v as int,
                (pow2(24) * pow2(k)) as int,
                pow2(24) as int,
                pow2(k) as int,
            );
            lemma_div_multiples_vanish(pow2(24) as int, pow2(k) as int);
            assert(pow2(24) * pow2(k) == pow2(k) * pow2(24)) by (nonlinear_arith);
            assert(k * pow2(23) <= 253 * 0x80_0000) by (nonlinear_arith)
                requires
                    k <= 253,
                    pow2(23) == 0x80_0000,
            ;
        } else {
            lemma_bit_len_below(v, 24);
        }
    }
}

} // verus!
