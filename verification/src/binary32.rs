//! Single-precision binary floating-point arithmetic on bit patterns.
//!
//! Every operation gives the exact result rounded once, to the nearest number
//! and to the even one of two that are equally near, as the IEEE 754 standard
//! asks of the 32-bit format. A result that is not a number always has the
//! same pattern.
use vstd::arithmetic::power2::{
    lemma2_to64, lemma2_to64_rest, lemma_pow2_adds, lemma_pow2_pos, lemma_pow2_strictly_increases,
    lemma_pow2_unfold, pow2,
};
use vstd::bits::{lemma_u64_shl_is_mul, lemma_u64_shr_is_div};
use vstd::prelude::*;

use crate::rounding::{bit_length, round, INFINITY_PATTERN, UNIT_EXPONENT};
use crate::rounding::{
    is_bracketed, is_nearest, is_nearest_root, lemma_nearest_bounded, lemma_nearest_exact,
    lemma_nearest_in_range, lemma_nearest_is, lemma_nearest_root_in_range, lemma_nearest_root_is,
    lemma_units_increase, lemma_units_nonnegative, lemma_units_of_scaled, lemma_units_step,
    nearest, nearest_root, scale_down, scale_up, units,
};

verus! {

/// Pattern of the result of an operation that has no number for an answer.
pub const NAN_PATTERN: u32 = 0x7fc0_0000;

/// Weight of the sign bit.
pub const SIGN: u32 = 0x8000_0000;

/// A single-precision number, as its bit pattern.
#[derive(Clone, Copy, Debug)]
pub struct Binary32 {
    pub bits: u32,
}

/// The number with sign `negative` and pattern `k`.
pub open spec fn signed(negative: bool, k: int) -> Binary32 {
    if negative {
        Binary32 { bits: (SIGN + k) as u32 }
    } else {
        Binary32 { bits: k as u32 }
    }
}

/// Not a number.
pub open spec fn nan() -> Binary32 {
    Binary32 { bits: NAN_PATTERN }
}

pub open spec fn magnitude(n: int) -> int {
    if n < 0 {
        -n
    } else {
        n
    }
}

pub open spec fn clamped(n: int, low: int, high: int) -> int {
    if n < low {
        low
    } else if n > high {
        high
    } else {
        n
    }
}

/// The integer `n` rounded to a number.
pub open spec fn of_int(n: int) -> Binary32 {
    signed(n < 0, nearest(magnitude(n) * pow2(149), 1))
}

/// `2^n`, infinite where it is too large.
pub open spec fn of_power(n: nat) -> Binary32 {
    if n < 128 {
        Binary32 { bits: ((127 + n) * 0x80_0000) as u32 }
    } else {
        Binary32 { bits: INFINITY_PATTERN }
    }
}

/// A number that was kept: only negative zero may have become zero, and what is
/// no number is none.
pub open spec fn is_same_number(from: Binary32, to: Binary32) -> bool {
    if from.is_nan() {
        to.is_nan()
    } else {
        to.equals(from) && (from.bits != SIGN ==> to == from)
    }
}

impl Binary32 {
    /// The sign bit is set.
    pub open spec fn negative(self) -> bool {
        self.bits >= SIGN
    }

    /// The pattern without the sign bit.
    pub open spec fn pattern(self) -> int {
        self.bits as int % 0x8000_0000
    }

    pub open spec fn is_nan(self) -> bool {
        self.pattern() > INFINITY_PATTERN
    }

    pub open spec fn is_infinite(self) -> bool {
        self.pattern() == INFINITY_PATTERN
    }

    pub open spec fn is_finite(self) -> bool {
        self.pattern() < INFINITY_PATTERN
    }

    /// The value of a finite number, in units of 2^-149.
    pub open spec fn value(self) -> int {
        if self.negative() {
            -units(self.pattern())
        } else {
            units(self.pattern())
        }
    }

    /// Place of a number in the order of all numbers; both zeros are at 0.
    pub open spec fn rank(self) -> int {
        if self.negative() {
            -self.pattern()
        } else {
            self.pattern()
        }
    }

    pub open spec fn is_less(self, other: Binary32) -> bool {
        !self.is_nan() && !other.is_nan() && self.rank() < other.rank()
    }

    pub open spec fn equals(self, other: Binary32) -> bool {
        !self.is_nan() && !other.is_nan() && self.rank() == other.rank()
    }

    pub open spec fn is_at_most(self, other: Binary32) -> bool {
        !self.is_nan() && !other.is_nan() && self.rank() <= other.rank()
    }

    pub open spec fn negated(self) -> Binary32 {
        signed(!self.negative(), self.pattern())
    }

    pub open spec fn absolute(self) -> Binary32 {
        signed(false, self.pattern())
    }

    #[verifier::opaque]
    pub open spec fn sum(self, other: Binary32) -> Binary32 {
        if self.is_nan() || other.is_nan() {
            nan()
        } else if self.is_infinite() {
            if other.is_infinite() && self.negative() != other.negative() {
                nan()
            } else {
                self
            }
        } else if other.is_infinite() {
            other
        } else {
            let n = self.value() + other.value();
            if n == 0 {
                signed(self.negative() && other.negative(), 0)
            } else {
                signed(n < 0, nearest(magnitude(n), 1))
            }
        }
    }

    pub open spec fn difference(self, other: Binary32) -> Binary32 {
        self.sum(other.negated())
    }

    #[verifier::opaque]
    pub open spec fn product(self, other: Binary32) -> Binary32 {
        let sign = self.negative() != other.negative();
        if self.is_nan() || other.is_nan() {
            nan()
        } else if self.is_infinite() || other.is_infinite() {
            if self.pattern() == 0 || other.pattern() == 0 {
                nan()
            } else {
                signed(sign, INFINITY_PATTERN as int)
            }
        } else {
            signed(sign, nearest(units(self.pattern()) * units(other.pattern()), pow2(149) as int))
        }
    }

    #[verifier::opaque]
    pub open spec fn quotient(self, other: Binary32) -> Binary32 {
        let sign = self.negative() != other.negative();
        if self.is_nan() || other.is_nan() {
            nan()
        } else if self.is_infinite() {
            if other.is_infinite() {
                nan()
            } else {
                signed(sign, INFINITY_PATTERN as int)
            }
        } else if other.is_infinite() {
            signed(sign, 0)
        } else if other.pattern() == 0 {
            if self.pattern() == 0 {
                nan()
            } else {
                signed(sign, INFINITY_PATTERN as int)
            }
        } else {
            signed(sign, nearest(units(self.pattern()) * pow2(149), units(other.pattern())))
        }
    }

    #[verifier::opaque]
    pub open spec fn root(self) -> Binary32 {
        if self.is_nan() {
            nan()
        } else if self.pattern() == 0 {
            self
        } else if self.negative() {
            nan()
        } else if self.is_infinite() {
            self
        } else {
            signed(false, nearest_root(units(self.pattern()) * pow2(149)))
        }
    }

    /// The larger of the two; a number where only one of them is one.
    pub open spec fn larger(self, other: Binary32) -> Binary32 {
        if self.is_nan() {
            other
        } else if self.is_less(other) {
            other
        } else {
            self
        }
    }

    /// The largest integer that is not above the number, held to the range
    /// `low..=high`; zero where it is no number.
    pub open spec fn floor_within(self, low: int, high: int) -> int {
        if self.is_nan() {
            0
        } else if self.is_infinite() {
            if self.negative() {
                low
            } else {
                high
            }
        } else {
            clamped(self.value() / pow2(149) as int, low, high)
        }
    }

    pub fn from_bits(bits: u32) -> (r: Binary32)
        ensures
            r == (Binary32 { bits }),
    {
        Binary32 { bits }
    }

    pub fn to_bits(self) -> (r: u32)
        ensures
            r == self.bits,
    {
        self.bits
    }

    fn build(negative: bool, k: u32) -> (r: Binary32)
        requires
            k < SIGN,
        ensures
            r == signed(negative, k as int),
            r.negative() == negative,
            r.pattern() == k,
    {
        if negative {
            Binary32 { bits: SIGN + k }
        } else {
            Binary32 { bits: k }
        }
    }

    fn exec_pattern(self) -> (k: u32)
        ensures
            k == self.pattern(),
            k < SIGN,
    {
        self.bits % 0x8000_0000
    }

    fn exec_negative(self) -> (r: bool)
        ensures
            r == self.negative(),
    {
        self.bits >= SIGN
    }

    /// Mantissa and exponent of a finite number: `m * 2^e` units.
    fn decode(self) -> (r: (u32, i32))
        requires
            self.is_finite(),
        ensures
            r.0 < 0x100_0000,
            0 <= r.1 <= 253,
            r.1 > 0 ==> r.0 >= 0x80_0000,
            self.pattern() == r.1 * 0x80_0000 + r.0,
            units(self.pattern()) == r.0 * pow2(r.1 as nat),
    {
        let k: u32 = self.exec_pattern();
        let biased: u32 = k / 0x80_0000;
        let e: i32 = if biased == 0 {
            0
        } else {
            biased as i32 - 1
        };
        let m: u32 = k - (e as u32) * 0x80_0000;
        proof {
            lemma_units_of_scaled(m as int, e as nat);
        }
        (m, e)
    }

    pub fn negate(self) -> (r: Binary32)
        ensures
            r == self.negated(),
    {
        Self::build(!self.exec_negative(), self.exec_pattern())
    }

    pub fn abs(self) -> (r: Binary32)
        ensures
            r == self.absolute(),
    {
        Self::build(false, self.exec_pattern())
    }

    /// `self < other`, false where either is no number.
    pub fn lt(self, other: Binary32) -> (r: bool)
        ensures
            r == self.is_less(other),
    {
        let a: u32 = self.exec_pattern();
        let b: u32 = other.exec_pattern();
        if a > INFINITY_PATTERN || b > INFINITY_PATTERN {
            return false;
        }
        if self.exec_negative() {
            if other.exec_negative() {
                b < a
            } else {
                a != 0 || b != 0
            }
        } else {
            !other.exec_negative() && a < b
        }
    }

    /// `self <= other`, false where either is no number.
    pub fn le(self, other: Binary32) -> (r: bool)
        ensures
            r == self.is_at_most(other),
    {
        if self.exec_pattern() > INFINITY_PATTERN || other.exec_pattern() > INFINITY_PATTERN {
            false
        } else {
            !other.lt(self)
        }
    }

    pub fn max(self, other: Binary32) -> (r: Binary32)
        ensures
            r == self.larger(other),
    {
        if self.exec_pattern() > INFINITY_PATTERN || self.lt(other) {
            other
        } else {
            self
        }
    }

    pub fn plus(self, other: Binary32) -> (r: Binary32)
        ensures
            r == self.sum(other),
    {
        proof {
            reveal(Binary32::sum);
        }
        let a: u32 = self.exec_pattern();
        let b: u32 = other.exec_pattern();
        let na: bool = self.exec_negative();
        let nb: bool = other.exec_negative();
        if a >= INFINITY_PATTERN || b >= INFINITY_PATTERN {
            if a > INFINITY_PATTERN || b > INFINITY_PATTERN {
                return Binary32 { bits: NAN_PATTERN };
            }
            if a == INFINITY_PATTERN {
                if b == INFINITY_PATTERN && na != nb {
                    return Binary32 { bits: NAN_PATTERN };
                }
                return self;
            }
            return other;
        }
        if a >= b {
            self.add_smaller(other)
        } else {
            other.add_smaller(self)
        }
    }

    /// Sum of two finite numbers, of which `self` is the larger in magnitude.
    fn add_smaller(self, other: Binary32) -> (r: Binary32)
        requires
            self.is_finite(),
            other.is_finite(),
            other.pattern() <= self.pattern(),
        ensures
            r == self.sum(other),
    {
        proof {
            reveal(Binary32::sum);
        }
        let (ma, ea) = self.decode();
        let (mb, eb) = other.decode();
        let na: bool = self.exec_negative();
        let nb: bool = other.exec_negative();
        let ghost ua = units(self.pattern());
        let ghost ub = units(other.pattern());
        let ghost n = self.value() + other.value();
        proof {
            if other.pattern() < self.pattern() {
                lemma_units_increase(other.pattern(), self.pattern());
            }
            lemma_units_nonnegative(other.pattern());
            assert(ea >= eb);
        }
        let d: u64 = (ea - eb) as u64;
        if d > 32 {
            proof {
                lemma_absorbed(self.pattern(), ma as int, ea as nat, ub, mb as int, eb as nat);
                lemma_nearest_is(self.pattern(), ua + ub, 1);
                lemma_nearest_is(self.pattern(), ua - ub, 1);
                assert(ua > ub);
            }
            return self;
        }
        proof {
            lemma2_to64();
            if d < 32 {
                lemma_pow2_strictly_increases(d as nat, 32);
            }
            lemma_pow2_pos(d as nat);
            assert(ma * pow2(d as nat) <= 0xff_ffff * 0x1_0000_0000) by (nonlinear_arith)
                requires
                    ma <= 0xff_ffff,
                    pow2(d as nat) <= 0x1_0000_0000,
            ;
            lemma_u64_shl_is_mul(ma as u64, d);
            lemma_pow2_adds(d as nat, eb as nat);
        }
        let big: u64 = (ma as u64) << d;
        let ghost scale = pow2(eb as nat) as int;
        proof {
            lemma_pow2_pos(eb as nat);
            assert(ua == big * scale) by (nonlinear_arith)
                requires
                    ua == ma * pow2(ea as nat),
                    pow2(ea as nat) == pow2(d as nat) * scale,
                    big == ma * pow2(d as nat),
            ;
            assert(big >= mb) by (nonlinear_arith)
                requires
                    big * scale >= mb * scale,
                    scale > 0,
            ;
        }
        if na == nb {
            let m: u64 = big + mb as u64;
            proof {
                assert(m * (scale * 1) == (ua + ub) * 1) by (nonlinear_arith)
                    requires
                        ua == big * scale,
                        ub == mb * scale,
                        m == big + mb,
                ;
            }
            let k: u32 = round(m, eb, false, Ghost(ua + ub), Ghost(1));
            proof {
                if n == 0 {
                    lemma_nearest_exact(0, 1);
                    assert(ua == 0 && ub == 0);
                }
            }
            Self::build(na, k)
        } else {
            let m: u64 = big - mb as u64;
            proof {
                assert(m * (scale * 1) == (ua - ub) * 1) by (nonlinear_arith)
                    requires
                        ua == big * scale,
                        ub == mb * scale,
                        m == big - mb,
                ;
            }
            if m == 0 {
                proof {
                    assert(0 * (scale * 1) == 0) by (nonlinear_arith);
                }
                return Binary32 { bits: 0 };
            }
            let k: u32 = round(m, eb, false, Ghost(ua - ub), Ghost(1));
            proof {
                assert(ua - ub > 0) by (nonlinear_arith)
                    requires
                        m * (scale * 1) == ua - ub,
                        m > 0,
                        scale > 0,
                ;
            }
            Self::build(na, k)
        }
    }

    pub fn minus(self, other: Binary32) -> (r: Binary32)
        ensures
            r == self.difference(other),
    {
        self.plus(other.negate())
    }

    pub fn times(self, other: Binary32) -> (r: Binary32)
        ensures
            r == self.product(other),
    {
        proof {
            reveal(Binary32::product);
        }
        let a: u32 = self.exec_pattern();
        let b: u32 = other.exec_pattern();
        let sign: bool = self.exec_negative() != other.exec_negative();
        if a >= INFINITY_PATTERN || b >= INFINITY_PATTERN {
            if a > INFINITY_PATTERN || b > INFINITY_PATTERN || a == 0 || b == 0 {
                return Binary32 { bits: NAN_PATTERN };
            }
            return Self::build(sign, INFINITY_PATTERN);
        }
        let (ma, ea) = self.decode();
        let (mb, eb) = other.decode();
        let s: i32 = ea + eb - UNIT_EXPONENT;
        let ghost p = units(a as int) * units(b as int);
        let ghost q = pow2(149) as int;
        proof {
            assert(ma * mb < 0x1_0000_0000_0000) by (nonlinear_arith)
                requires
                    ma < 0x100_0000,
                    mb < 0x100_0000,
            ;
            lemma_product_bracketed(ma as int, ea as nat, mb as int, eb as nat);
            lemma_pow2_pos(149);
            lemma_units_nonnegative(a as int);
            lemma_units_nonnegative(b as int);
            assert(p >= 0) by (nonlinear_arith)
                requires
                    p == units(a as int) * units(b as int),
                    units(a as int) >= 0,
                    units(b as int) >= 0,
            ;
        }
        let m: u64 = ma as u64 * mb as u64;
        let k: u32 = round(m, s, false, Ghost(p), Ghost(q));
        Self::build(sign, k)
    }

    pub fn over(self, other: Binary32) -> (r: Binary32)
        ensures
            r == self.quotient(other),
    {
        proof {
            reveal(Binary32::quotient);
        }
        let a: u32 = self.exec_pattern();
        let b: u32 = other.exec_pattern();
        let sign: bool = self.exec_negative() != other.exec_negative();
        if a >= INFINITY_PATTERN || b >= INFINITY_PATTERN {
            if a > INFINITY_PATTERN || b > INFINITY_PATTERN || a == b {
                return Binary32 { bits: NAN_PATTERN };
            }
            return Self::build(sign, if a == INFINITY_PATTERN { INFINITY_PATTERN } else { 0 });
        }
        if b == 0 {
            if a == 0 {
                return Binary32 { bits: NAN_PATTERN };
            }
            return Self::build(sign, INFINITY_PATTERN);
        }
        proof {
            lemma_units_nonnegative(a as int);
            lemma_units_nonnegative(b as int);
            lemma_pow2_pos(149);
        }
        if a == 0 {
            proof {
                let q = units(b as int);
                assert(units(0) * pow2(149) == 0) by (nonlinear_arith)
                    requires
                        units(0) == 0,
                ;
                assert(units(0) * q == 0) by (nonlinear_arith)
                    requires
                        units(0) == 0,
                ;
                lemma_nearest_exact(0, q);
            }
            return Self::build(sign, 0);
        }
        let (ma, ea) = self.decode();
        let (mb, eb) = other.decode();
        proof {
            lemma_units_positive_mantissa(a as int, ma as int, ea as nat);
            lemma_units_positive_mantissa(b as int, mb as int, eb as nat);
            lemma2_to64();
            lemma2_to64_rest();
        }
        // Shift the dividend until it has 62 bits.
        let length: u32 = bit_length(ma as u64);
        proof {
            if length > 24 {
                lemma_pow2_strictly_increases(23, (length - 1) as nat);
                if length > 25 {
                    lemma_pow2_strictly_increases(24, (length - 1) as nat);
                }
                assert(pow2((length - 1) as nat) >= 0x100_0000);
            }
        }
        let t: u64 = 62 - length as u64;
        proof {
            lemma_pow2_adds(length as nat, t as nat);
            lemma_pow2_adds((length - 1) as nat, t as nat);
            lemma_pow2_pos(t as nat);
            let w = pow2(t as nat) as int;
            assert(ma * w < 0x4000_0000_0000_0000) by (nonlinear_arith)
                requires
                    ma < pow2(length as nat),
                    pow2(length as nat) * w == 0x4000_0000_0000_0000,
                    w > 0,
            ;
            assert(ma * w >= 0x2000_0000_0000_0000) by (nonlinear_arith)
                requires
                    ma >= pow2((length - 1) as nat),
                    pow2((length - 1) as nat) * w == 0x2000_0000_0000_0000,
                    w > 0,
            ;
            lemma_u64_shl_is_mul(ma as u64, t);
        }
        let dividend: u64 = (ma as u64) << t;
        let m: u64 = dividend / mb as u64;
        let sticky: bool = dividend % mb as u64 != 0;
        let s: i32 = ea - t as i32 - eb + UNIT_EXPONENT;
        let ghost p = units(a as int) * pow2(149);
        let ghost q = units(b as int);
        proof {
            let rest = (dividend % mb as u64) as int;
            assert(dividend == m * mb + rest) by {
                vstd::arithmetic::div_mod::lemma_fundamental_div_mod(dividend as int, mb as int);
                assert(mb * m == m * mb) by (nonlinear_arith);
            }
            assert(m >= 0x100_0000) by (nonlinear_arith)
                requires
                    dividend == m * mb + rest,
                    rest < mb,
                    mb < 0x100_0000,
                    dividend >= 0x2000_0000_0000_0000,
            ;
            lemma_quotient_bracketed(
                ma as int,
                ea as nat,
                mb as int,
                eb as nat,
                t as nat,
                m as int,
                rest,
            );
            assert(p >= 0) by (nonlinear_arith)
                requires
                    p == units(a as int) * pow2(149),
                    units(a as int) >= 0,
                    pow2(149) > 0,
            ;
        }
        let k: u32 = round(m, s, sticky, Ghost(p), Ghost(q));
        Self::build(sign, k)
    }

    pub fn sqrt(self) -> (r: Binary32)
        ensures
            r == self.root(),
    {
        proof {
            reveal(Binary32::root);
        }
        let a: u32 = self.exec_pattern();
        if a > INFINITY_PATTERN {
            return Binary32 { bits: NAN_PATTERN };
        }
        if a == 0 {
            return self;
        }
        if self.exec_negative() {
            return Binary32 { bits: NAN_PATTERN };
        }
        if a == INFINITY_PATTERN {
            return self;
        }
        let (m, e) = self.decode();
        proof {
            lemma_units_positive_mantissa(a as int, m as int, e as nat);
            lemma2_to64();
            lemma2_to64_rest();
        }
        let length: u32 = bit_length(m as u64);
        proof {
            if length > 24 {
                if length > 25 {
                    lemma_pow2_strictly_increases(24, (length - 1) as nat);
                }
                assert(pow2((length - 1) as nat) >= 0x100_0000);
            }
        }
        // Shift the radicand to 61 or 62 bits so that an even power remains.
        let t: i32 = if (e + UNIT_EXPONENT - 62 + length as i32) % 2 == 0 {
            62 - length as i32
        } else {
            61 - length as i32
        };
        let h: i32 = (e + UNIT_EXPONENT - t) / 2;
        proof {
            lemma_pow2_adds(length as nat, t as nat);
            lemma_pow2_adds((length - 1) as nat, t as nat);
            lemma_pow2_pos(t as nat);
            let w = pow2(t as nat) as int;
            assert(m * w < 0x4000_0000_0000_0000) by (nonlinear_arith)
                requires
                    m < pow2(length as nat),
                    pow2(length as nat) * w <= 0x4000_0000_0000_0000,
                    w > 0,
            ;
            assert(m * w >= 0x1000_0000_0000_0000) by (nonlinear_arith)
                requires
                    m >= pow2((length - 1) as nat),
                    pow2((length - 1) as nat) * w >= 0x1000_0000_0000_0000,
                    w > 0,
            ;
            lemma_u64_shl_is_mul(m as u64, t as u64);
        }
        let radicand: u64 = (m as u64) << (t as u64);
        let whole: u64 = integer_root(radicand);
        proof {
            assert(whole >= 0x4000_0000) by (nonlinear_arith)
                requires
                    (whole + 1) * (whole + 1) > radicand,
                    radicand >= 0x1000_0000_0000_0000,
                    whole >= 0,
            ;
            assert(whole * whole < 0x1_0000_0000 * 0x1_0000_0000) by (nonlinear_arith)
                requires
                    0 <= whole < 0x8000_0000,
            ;
        }
        let sticky: bool = whole * whole != radicand;
        let ghost p = (2 * whole + if sticky {
            1int
        } else {
            0
        }) * pow2(h as nat);
        proof {
            let f = pow2(h as nat) as int;
            lemma_pow2_pos(h as nat);
            assert(whole * (f * 2) == 2 * whole * f) by (nonlinear_arith);
            assert((whole + 1) * (f * 2) == (2 * whole + 2) * f) by (nonlinear_arith);
            assert(2 * whole * f < (2 * whole + 1) * f < (2 * whole + 2) * f) by (nonlinear_arith)
                requires
                    f > 0,
            ;
            assert(p >= 0) by (nonlinear_arith)
                requires
                    p >= 2 * whole * f,
                    whole >= 0,
                    f > 0,
            ;
        }
        let k: u32 = round(whole, h, sticky, Ghost(p), Ghost(2));
        proof {
            let total = units(a as int) * pow2(149);
            lemma_pow2_adds(e as nat, 149);
            lemma_pow2_adds(t as nat, (2 * h) as nat);
            lemma_pow2_adds(h as nat, h as nat);
            let f = pow2(h as nat) as int;
            assert(total == radicand * (f * f)) by (nonlinear_arith)
                requires
                    total == m * pow2(e as nat) * pow2(149),
                    pow2(e as nat) * pow2(149) == pow2(t as nat) * (f * f),
                    radicand == m * pow2(t as nat),
            ;
            lemma_root_nearest(k as int, whole as int, radicand as int, h as nat, total);
            lemma_nearest_root_is(k as int, total);
        }
        Self::build(false, k)
    }

    /// The number nearest to the integer `n`.
    pub fn from_int(n: i64) -> (r: Binary32)
        requires
            -0x4000_0000_0000_0000 < n < 0x4000_0000_0000_0000,
        ensures
            r == of_int(n as int),
    {
        let m: u64 = if n < 0 {
            (-n) as u64
        } else {
            n as u64
        };
        let ghost p = m * pow2(149);
        proof {
            lemma_pow2_pos(149);
            assert(p >= 0) by (nonlinear_arith)
                requires
                    p == m * pow2(149),
                    m >= 0,
            ;
            assert(m * (pow2(149) * 1) == p * 1);
        }
        let k: u32 = round(m, UNIT_EXPONENT, false, Ghost(p), Ghost(1));
        Self::build(n < 0, k)
    }

    /// `2^n`.
    pub fn power_of_two(n: u32) -> (r: Binary32)
        ensures
            r == of_power(n as nat),
    {
        if n < 128 {
            Binary32 { bits: (127 + n) * 0x80_0000 }
        } else {
            Binary32 { bits: INFINITY_PATTERN }
        }
    }

    /// Largest integer not above the number, as far as the range goes.
    fn floor_to(self, low: i64, high: i64) -> (r: i64)
        requires
            -0x8000_0000 <= low <= 0 <= high <= 0xffff_ffff,
        ensures
            r == self.floor_within(low as int, high as int),
    {
        let k: u32 = self.exec_pattern();
        let negative: bool = self.exec_negative();
        if k > INFINITY_PATTERN {
            return 0;
        }
        if k == INFINITY_PATTERN {
            return if negative {
                low
            } else {
                high
            };
        }
        let (m, e) = self.decode();
        let ghost one = pow2(149) as int;
        let ghost u = units(k as int);
        proof {
            lemma_pow2_pos(149);
            lemma2_to64();
            lemma2_to64_rest();
            lemma_units_nonnegative(k as int);
        }
        if e >= UNIT_EXPONENT {
            let d: u64 = (e - UNIT_EXPONENT) as u64;
            if d > 9 {
                proof {
                    lemma_pow2_adds(149, d as nat);
                    lemma_pow2_strictly_increases(9, d as nat);
                    assert(u == m * pow2(d as nat) * one) by (nonlinear_arith)
                        requires
                            u == m * pow2(e as nat),
                            pow2(e as nat) == one * pow2(d as nat),
                    ;
                    lemma_scaled_floor(u, one, m * pow2(d as nat), 0);
                    assert(m * pow2(d as nat) > 0xffff_ffff) by (nonlinear_arith)
                        requires
                            m >= 0x80_0000,
                            pow2(d as nat) >= 512,
                    ;
                }
                return if negative {
                    low
                } else {
                    high
                };
            }
            proof {
                lemma_pow2_adds(149, d as nat);
                if d < 9 {
                    lemma_pow2_strictly_increases(d as nat, 9);
                }
                assert(m * pow2(d as nat) < 0x100_0000 * 512) by (nonlinear_arith)
                    requires
                        m < 0x100_0000,
                        pow2(d as nat) <= 512,
                        pow2(d as nat) > 0,
                ;
                lemma_u64_shl_is_mul(m as u64, d);
                assert(u == m * pow2(d as nat) * one) by (nonlinear_arith)
                    requires
                        u == m * pow2(e as nat),
                        pow2(e as nat) == one * pow2(d as nat),
                ;
                lemma_scaled_floor(u, one, m * pow2(d as nat), 0);
            }
            let whole: i64 = ((m as u64) << d) as i64;
            return if negative {
                if -whole < low {
                    low
                } else {
                    -whole
                }
            } else if whole > high {
                high
            } else {
                whole
            };
        }
        let d: u64 = (UNIT_EXPONENT - e) as u64;
        let whole: i64;
        let exact: bool;
        if d >= 24 {
            whole = 0;
            exact = m == 0;
            proof {
                lemma_pow2_adds(e as nat, d as nat);
                if d > 24 {
                    lemma_pow2_strictly_increases(24, d as nat);
                }
                lemma_pow2_pos(e as nat);
                assert(0 <= u < one) by (nonlinear_arith)
                    requires
                        u == m * pow2(e as nat),
                        one == pow2(e as nat) * pow2(d as nat),
                        0 <= m < 0x100_0000,
                        pow2(d as nat) >= 0x100_0000,
                        pow2(e as nat) > 0,
                ;
                assert((u == 0) == (m == 0)) by (nonlinear_arith)
                    requires
                        u == m * pow2(e as nat),
                        pow2(e as nat) > 0,
                ;
                lemma_scaled_floor(u, one, 0, u);
            }
        } else {
            proof {
                lemma_u64_shr_is_div(m as u64, d);
                lemma_pow2_pos(d as nat);
                lemma_pow2_pos(e as nat);
                lemma_pow2_adds(e as nat, d as nat);
                lemma_u64_shl_is_mul_div(m as u64, d);
            }
            let cut: u64 = (m as u64) >> d;
            whole = cut as i64;
            exact = (cut << d) == m as u64;
            proof {
                let w = pow2(d as nat) as int;
                let rest = (m - cut * w) * pow2(e as nat);
                assert(u == cut * one + rest) by (nonlinear_arith)
                    requires
                        u == m * pow2(e as nat),
                        one == pow2(e as nat) * w,
                        rest == (m - cut * w) * pow2(e as nat),
                ;
                assert(0 <= rest < one && ((rest == 0) == (m == cut * w))) by (nonlinear_arith)
                    requires
                        one == pow2(e as nat) * w,
                        rest == (m - cut * w) * pow2(e as nat),
                        0 <= m - cut * w < w,
                        pow2(e as nat) > 0,
                ;
                lemma_scaled_floor(u, one, cut as int, rest);
            }
        }
        if negative {
            let down: i64 = if exact {
                -whole
            } else {
                -whole - 1
            };
            if down < low {
                low
            } else {
                down
            }
        } else if whole > high {
            high
        } else {
            whole
        }
    }

    /// Floor of the number as an `i32`, the nearest end of the range where it
    /// is out of range, zero where it is no number.
    pub fn floor_to_i32(self) -> (r: i32)
        ensures
            r == self.floor_within(i32::MIN as int, i32::MAX as int),
    {
        self.floor_to(-0x8000_0000, 0x7fff_ffff) as i32
    }

    /// The number without its fraction as a `u32`, the nearest end of the
    /// range where it is out of range, zero where it is no number.
    pub fn to_u32(self) -> (r: u32)
        ensures
            r == self.floor_within(0, u32::MAX as int),
    {
        self.floor_to(0, 0xffff_ffff) as u32
    }
}

/// Integer square root.
fn integer_root(n: u64) -> (r: u64)
    requires
        n < 0x4000_0000_0000_0000,
    ensures
        r * r <= n < (r + 1) * (r + 1),
        r < 0x8000_0000,
{
    let mut r: u64 = 0;
    let mut bit: u64 = 0x4000_0000;
    let ghost mut i: nat = 30;
    proof {
        lemma2_to64();
    }
    while bit > 0
        invariant
            n < 0x4000_0000_0000_0000,
            bit > 0 ==> bit == pow2(i),
            r + 2 * bit <= 0x8000_0000,
            bit == 0 ==> r < 0x8000_0000,
            r * r <= n,
            bit > 0 ==> n < (r + 2 * bit) * (r + 2 * bit),
            bit == 0 ==> n < (r + 1) * (r + 1),
        decreases bit,
    {
        let next: u64 = r + bit;
        proof {
            assert(next * next < 0x8000_0000 * 0x8000_0000) by (nonlinear_arith)
                requires
                    0 <= next < 0x8000_0000,
            ;
            if i > 0 {
                lemma_pow2_unfold(i);
                lemma_pow2_pos((i - 1) as nat);
                i = (i - 1) as nat;
            } else {
                lemma2_to64();
            }
        }
        if next * next <= n {
            r = next;
        }
        bit = bit / 2;
    }
    r
}

/// Magnitudes from an exponent on are multiples of its power of two.
proof fn lemma_units_multiple(k: int, g: nat) -> (j: int)
    requires
        k >= (g + 1) * 0x80_0000,
    ensures
        units(k) == j * pow2(g),
{
    let e = (k / 0x80_0000 - 1) as nat;
    let m = 0x80_0000 + k % 0x80_0000;
    assert(e >= g);
    lemma_pow2_adds((e - g) as nat, g);
    let j = m * pow2((e - g) as nat);
    assert(m * pow2(e) == j * pow2(g)) by (nonlinear_arith)
        requires
            j == m * pow2((e - g) as nat),
            pow2(e) == pow2((e - g) as nat) * pow2(g),
    ;
    j
}

/// Rounding a value between `whole` and `whole + 1` steps of `2^h` rounds the
/// square root that lies there.
proof fn lemma_root_nearest(k: int, whole: int, radicand: int, h: nat, total: int)
    requires
        whole * whole <= radicand < (whole + 1) * (whole + 1),
        0x4000_0000 <= whole,
        h <= 200,
        total == radicand * (pow2(h) * pow2(h)),
        is_nearest(
            k,
            (2 * whole + if whole * whole != radicand {
                1int
            } else {
                0
            }) * pow2(h),
            2,
        ),
    ensures
        is_nearest_root(k, total),
{
    let f = pow2(h) as int;
    let odd = if whole * whole != radicand {
        1int
    } else {
        0
    };
    let p = (2 * whole + odd) * f;
    lemma2_to64();
    lemma_pow2_pos(h);
    lemma_pow2_unfold((h + 1) as nat);
    let floor_k = (h as int + 2) * 0x80_0000;
    assert(p >= 0x8000_0000 * f) by (nonlinear_arith)
        requires
            p == (2 * whole + odd) * f,
            whole >= 0x4000_0000,
            odd >= 0,
            f > 0,
    ;
    if k - 1 < floor_k {
        lemma_units_of_scaled(0x80_0000, (h + 1) as nat);
        assert(floor_k == (h + 1) * 0x80_0000 + 0x80_0000);
        if k < floor_k {
            lemma_units_increase(k, floor_k);
            lemma_units_increase(k + 1, floor_k + 1);
        }
        assert((k - 1 < floor_k) ==> k <= floor_k);
        assert(units(k) + units(k + 1) <= (0x80_0000 + 0x80_0001) * (2 * f)) by (nonlinear_arith)
            requires
                units(k) <= 0x80_0000 * (2 * f),
                units(k + 1) <= 0x80_0001 * (2 * f),
        ;
        assert(false) by (nonlinear_arith)
            requires
                2 * p <= (units(k) + units(k + 1)) * 2,
                units(k) + units(k + 1) <= (0x80_0000 + 0x80_0001) * (2 * f),
                p >= 0x8000_0000 * f,
                f > 0,
        ;
    }
    let g = (h + 1) as nat;
    let j0 = lemma_units_multiple(k - 1, g);
    let j1 = lemma_units_multiple(k, g);
    let j2 = lemma_units_multiple(k + 1, g);
    let low = units(k - 1) + units(k);
    let high = units(k) + units(k + 1);
    let a = j0 + j1;
    let b = j1 + j2;
    lemma_units_nonnegative(k - 1);
    lemma_units_nonnegative(k);
    lemma_units_nonnegative(k + 1);
    assert(low == a * (2 * f)) by (nonlinear_arith)
        requires
            low == j0 * (2 * f) + j1 * (2 * f),
            a == j0 + j1,
    ;
    assert(high == b * (2 * f)) by (nonlinear_arith)
        requires
            high == j1 * (2 * f) + j2 * (2 * f),
            b == j1 + j2,
    ;
    let square = f * f;
    assert(square > 0) by (nonlinear_arith)
        requires
            square == f * f,
            f > 0,
    ;
    assert(low * low == 4 * (a * a) * square) by (nonlinear_arith)
        requires
            low == a * (2 * f),
            square == f * f,
    ;
    assert(high * high == 4 * (b * b) * square) by (nonlinear_arith)
        requires
            high == b * (2 * f),
            square == f * f,
    ;
    assert(a >= 0 && b >= 0) by (nonlinear_arith)
        requires
            low == a * (2 * f),
            high == b * (2 * f),
            low >= 0,
            high >= 0,
            f > 0,
    ;
    // The boundaries against the root, in steps.
    assert(low <= p) by (nonlinear_arith)
        requires
            low * 2 <= 2 * p,
    ;
    assert(2 * a <= 2 * whole + odd) by (nonlinear_arith)
        requires
            a * (2 * f) <= (2 * whole + odd) * f,
            f > 0,
    ;
    assert(a * a <= whole * whole) by (nonlinear_arith)
        requires
            0 <= a <= whole,
    ;
    assert(low * low <= 4 * total) by (nonlinear_arith)
        requires
            low * low == 4 * (a * a) * square,
            a * a <= radicand,
            total == radicand * square,
            square > 0,
    ;
    if low * low == 4 * total {
        assert(a * a == radicand) by (nonlinear_arith)
            requires
                4 * (a * a) * square == 4 * (radicand * square),
                square > 0,
        ;
        assert(odd == 0 && a == whole) by (nonlinear_arith)
            requires
                a * a == radicand,
                0 <= a <= whole,
                whole * whole <= radicand,
                odd == if whole * whole != radicand {
                    1int
                } else {
                    0
                },
        ;
        assert(low == p) by (nonlinear_arith)
            requires
                low == a * (2 * f),
                p == (2 * whole + odd) * f,
                odd == 0,
                a == whole,
        ;
    }
    if k < INFINITY_PATTERN {
        assert(2 * b >= 2 * whole + odd) by (nonlinear_arith)
            requires
                2 * ((2 * whole + odd) * f) <= (b * (2 * f)) * 2,
                f > 0,
        ;
        if odd == 1 {
            assert(b * b >= (whole + 1) * (whole + 1)) by (nonlinear_arith)
                requires
                    b >= whole + 1,
                    whole >= 0,
            ;
        } else {
            assert(b * b >= whole * whole) by (nonlinear_arith)
                requires
                    b >= whole,
                    whole >= 0,
            ;
        }
        assert(4 * total <= high * high) by (nonlinear_arith)
            requires
                high * high == 4 * (b * b) * square,
                b * b >= radicand,
                total == radicand * square,
                square > 0,
        ;
        if 4 * total == high * high {
            assert(b * b == radicand) by (nonlinear_arith)
                requires
                    4 * (b * b) * square == 4 * (radicand * square),
                    square > 0,
            ;
            assert(odd == 0);
            assert(b == whole) by (nonlinear_arith)
                requires
                    b * b == whole * whole,
                    b >= 0,
                    whole >= 0,
            ;
            assert(high == p) by (nonlinear_arith)
                requires
                    high == b * (2 * f),
                    p == (2 * whole + odd) * f,
                    odd == 0,
                    b == whole,
            ;
        }
    }
}

/// Numbers compare as their values do.
pub proof fn lemma_rank_orders_values(a: Binary32, b: Binary32)
    requires
        a.is_finite(),
        b.is_finite(),
    ensures
        a.is_less(b) <==> a.value() < b.value(),
        a.is_at_most(b) <==> a.value() <= b.value(),
{
    lemma_units_nonnegative(a.pattern());
    lemma_units_nonnegative(b.pattern());
    if a.pattern() < b.pattern() {
        lemma_units_increase(a.pattern(), b.pattern());
    } else if b.pattern() < a.pattern() {
        lemma_units_increase(b.pattern(), a.pattern());
    }
}

/// Integers of up to 24 bits are numbers themselves.
pub proof fn lemma_of_int_exact(n: int)
    requires
        -0x100_0000 < n < 0x100_0000,
    ensures
        of_int(n).is_finite(),
        of_int(n).value() == n * pow2(149),
        of_int(n).rank() == 0 <==> n == 0,
        of_int(n).rank() < 0 <==> n < 0,
{
    lemma2_to64();
    let m = magnitude(n);
    let k = lemma_integer_pattern(m, m, 149);
    lemma_nearest_exact(k, 1);
    lemma_units_nonnegative(k);
    lemma_pow2_pos(149);
    assert(m * pow2(149) == 0 <==> m == 0) by (nonlinear_arith)
        requires
            pow2(149) > 0,
    ;
    if k > 0 {
        lemma_units_increase(0, k);
    }
    assert(-(m * pow2(149)) == (-m) * pow2(149)) by (nonlinear_arith);
}

/// The pattern of `m * 2^e` units, which are the integer `n`.
proof fn lemma_integer_pattern(n: int, m: int, e: nat) -> (k: int)
    requires
        0 <= m < 0x100_0000,
        n * pow2(149) == m * pow2(e),
        100 <= e <= 149,
        m >= 1 ==> m >= pow2((149 - e) as nat),
        0 <= n,
    ensures
        0 <= k < INFINITY_PATTERN,
        units(k) == n * pow2(149),
    decreases e,
{
    lemma2_to64();
    if m == 0 {
        assert(n * pow2(149) == 0) by (nonlinear_arith)
            requires
                n * pow2(149) == 0 * pow2(e),
        ;
        0
    } else if m >= 0x80_0000 {
        lemma_units_of_scaled(m, e);
        e * 0x80_0000 + m
    } else {
        if e < 149 - 24 {
            lemma_pow2_strictly_increases(24, (149 - e) as nat);
        }
        lemma_pow2_unfold(e);
        lemma_pow2_unfold((150 - e) as nat);
        assert(m * pow2(e) == (2 * m) * pow2((e - 1) as nat)) by (nonlinear_arith)
            requires
                pow2(e) == 2 * pow2((e - 1) as nat),
        ;
        lemma_integer_pattern(n, 2 * m, (e - 1) as nat)
    }
}

/// A rounded integer is a number.
pub proof fn lemma_of_int_number(n: int)
    ensures
        !of_int(n).is_nan(),
        of_int(n).negative() <==> n < 0,
{
    lemma_pow2_pos(149);
    assert(0 <= magnitude(n) * pow2(149)) by (nonlinear_arith)
        requires
            0 <= magnitude(n),
            0 < pow2(149),
    ;
    lemma_nearest_in_range(magnitude(n) * pow2(149), 1);
    lemma_signed(n < 0, nearest(magnitude(n) * pow2(149), 1));
}

/// The square root of a number without a sign is such a number.
pub proof fn lemma_root_number(a: Binary32)
    requires
        !a.is_nan(),
        !a.negative(),
    ensures
        !a.root().is_nan(),
        !a.root().negative(),
{
    reveal(Binary32::root);
    lemma_nearest_root_in_range(units(a.pattern()) * pow2(149));
    lemma_signed(false, nearest_root(units(a.pattern()) * pow2(149)));
}

/// Sign and pattern of a number that was put together from them.
pub proof fn lemma_signed(negative: bool, k: int)
    requires
        0 <= k < SIGN,
    ensures
        signed(negative, k).negative() == negative,
        signed(negative, k).pattern() == k,
{
}

/// A difference is a number if one of its terms is finite and the other a
/// number.
pub proof fn lemma_difference_number(a: Binary32, b: Binary32)
    requires
        a.is_finite(),
        !b.is_nan(),
    ensures
        !a.difference(b).is_nan(),
{
    let c = b.negated();
    lemma_signed(!b.negative(), b.pattern());
    lemma_sum_number(a, c);
}

proof fn lemma_sum_number(a: Binary32, b: Binary32)
    requires
        a.is_finite(),
        !b.is_nan(),
    ensures
        !a.sum(b).is_nan(),
{
    reveal(Binary32::sum);
    if !b.is_infinite() {
        let n = a.value() + b.value();
        if n == 0 {
            lemma_signed(a.negative() && b.negative(), 0);
        } else {
            lemma_nearest_in_range(magnitude(n), 1);
            lemma_signed(n < 0, nearest(magnitude(n), 1));
        }
    }
}

/// A quotient is a number if the divisor is finite and not zero.
pub proof fn lemma_quotient_number(a: Binary32, b: Binary32)
    requires
        !a.is_nan(),
        b.is_finite(),
        b.pattern() != 0,
    ensures
        !a.quotient(b).is_nan(),
{
    reveal(Binary32::quotient);
    lemma_units_nonnegative(a.pattern());
    lemma_units_nonnegative(b.pattern());
    assert(0 <= units(a.pattern()) * pow2(149)) by (nonlinear_arith)
        requires
            0 <= units(a.pattern()),
    ;
    lemma_nearest_in_range(units(a.pattern()) * pow2(149), units(b.pattern()));
    let sign = a.negative() != b.negative();
    lemma_signed(sign, INFINITY_PATTERN as int);
    lemma_signed(sign, nearest(units(a.pattern()) * pow2(149), units(b.pattern())));
}

/// The pattern of a power of two.
pub proof fn lemma_power_units(e: nat)
    requires
        e <= 120,
    ensures
        units((127 + e as int) * 0x80_0000) == pow2(149 + e),
        (127 + e) * 0x80_0000 < INFINITY_PATTERN,
{
    lemma2_to64();
    lemma_units_of_scaled(0x80_0000, 126 + e);
    lemma_pow2_adds(23, 126 + e);
    assert((126 + e) * 0x80_0000 + 0x80_0000 == (127 + e) * 0x80_0000);
}

/// A sum is finite if the exact sum is not too large, and has its sign.
pub proof fn lemma_sum_bounded(a: Binary32, b: Binary32, e: nat)
    requires
        a.is_finite(),
        b.is_finite(),
        e <= 120,
        magnitude(a.value() + b.value()) <= pow2(149 + e),
    ensures
        a.sum(b).is_finite(),
        magnitude(a.sum(b).value()) <= pow2(149 + e),
        a.value() + b.value() >= 0 ==> a.sum(b).value() >= 0,
{
    reveal(Binary32::sum);
    lemma_power_units(e);
    let top = (127 + e as int) * 0x80_0000;
    let n = a.value() + b.value();
    if n == 0 {
        lemma_signed(a.negative() && b.negative(), 0);
    } else {
        let k = nearest(magnitude(n), 1);
        lemma_nearest_in_range(magnitude(n), 1);
        lemma_nearest_bounded(magnitude(n), 1, top);
        lemma_signed(n < 0, k);
        lemma_units_nonnegative(k);
        if k < top {
            lemma_units_increase(k, top);
        }
    }
}

/// A sum is not above a power of two if what is added to a number that is not
/// is less than half a step there.
pub proof fn lemma_sum_absorbed(a: Binary32, b: Binary32, e: nat)
    requires
        a.is_finite(),
        b.is_finite(),
        25 <= e <= 120,
        magnitude(a.value()) <= pow2(149 + e),
        magnitude(b.value()) <= pow2((124 + e) as nat),
    ensures
        a.sum(b).is_finite(),
        magnitude(a.sum(b).value()) <= pow2(149 + e),
{
    reveal(Binary32::sum);
    lemma_power_units(e);
    let top = (127 + e as int) * 0x80_0000;
    let n = a.value() + b.value();
    let m = magnitude(n);
    if n == 0 {
        lemma_signed(a.negative() && b.negative(), 0);
    } else {
        lemma_units_step(top);
        assert(top / 0x80_0000 == 127 + e);
        assert(units(top + 1) == units(top) + pow2((126 + e) as nat));
        lemma_pow2_unfold((126 + e) as nat);
        lemma_pow2_unfold((125 + e) as nat);
        let k = nearest(m, 1);
        lemma_nearest_in_range(m, 1);
        assert(k <= top) by {
            if k > top {
                if k - 1 > top {
                    lemma_units_increase(top, k - 1);
                    lemma_units_increase(top + 1, k);
                }
                assert(units(k - 1) + units(k) >= units(top) + units(top + 1));
                assert(2 * m < units(top) + units(top + 1)) by {
                    lemma_pow2_pos((124 + e) as nat);
                }
                assert((units(k - 1) + units(k)) * 1 == units(k - 1) + units(k));
            }
        }
        lemma_signed(n < 0, k);
        lemma_units_nonnegative(k);
        if k < top {
            lemma_units_increase(k, top);
        }
    }
}

/// A difference is finite if the exact difference is not too large, and has
/// its sign.
pub proof fn lemma_difference_bounded(a: Binary32, b: Binary32, e: nat)
    requires
        a.is_finite(),
        b.is_finite(),
        e <= 120,
        magnitude(a.value() - b.value()) <= pow2(149 + e),
    ensures
        a.difference(b).is_finite(),
        magnitude(a.difference(b).value()) <= pow2(149 + e),
        a.value() >= b.value() ==> a.difference(b).value() >= 0,
{
    lemma_signed(!b.negative(), b.pattern());
    lemma_sum_bounded(a, b.negated(), e);
}

/// A rounded integer is finite if it is not too large.
pub proof fn lemma_of_int_bounded(n: int, e: nat)
    requires
        e <= 120,
        magnitude(n) <= pow2(e),
    ensures
        of_int(n).is_finite(),
        magnitude(of_int(n).value()) <= pow2(149 + e),
{
    lemma_power_units(e);
    lemma_pow2_adds(149, e);
    lemma_pow2_pos(149);
    let top = (127 + e as int) * 0x80_0000;
    let m = magnitude(n) * pow2(149);
    assert(0 <= m <= pow2(149) * pow2(e)) by (nonlinear_arith)
        requires
            m == magnitude(n) * pow2(149),
            0 <= magnitude(n) <= pow2(e),
            0 < pow2(149),
    ;
    let k = nearest(m, 1);
    lemma_nearest_in_range(m, 1);
    lemma_nearest_bounded(m, 1, top);
    lemma_signed(n < 0, k);
    lemma_units_nonnegative(k);
    if k < top {
        lemma_units_increase(k, top);
    }
}

/// A product is finite if its factors are not too large.
pub proof fn lemma_product_bounded(a: Binary32, b: Binary32, d: nat, e: nat)
    requires
        a.is_finite(),
        b.is_finite(),
        d + e <= 120,
        magnitude(a.value()) <= pow2(149 + d),
        magnitude(b.value()) <= pow2(149 + e),
    ensures
        a.product(b).is_finite(),
        magnitude(a.product(b).value()) <= pow2(149 + d + e),
{
    reveal(Binary32::product);
    lemma_power_units(d + e);
    let top = (127 + (d + e) as int) * 0x80_0000;
    let ua = units(a.pattern());
    let ub = units(b.pattern());
    let p = ua * ub;
    let one = pow2(149) as int;
    lemma_units_nonnegative(a.pattern());
    lemma_units_nonnegative(b.pattern());
    lemma_pow2_pos(149);
    lemma_pow2_adds(149 + d, 149 + e);
    lemma_pow2_adds(149 + d + e, 149);
    assert(0 <= p <= pow2(149 + d) * pow2(149 + e)) by (nonlinear_arith)
        requires
            p == ua * ub,
            0 <= ua <= pow2(149 + d),
            0 <= ub <= pow2(149 + e),
    ;
    let k = nearest(p, one);
    lemma_nearest_in_range(p, one);
    lemma_nearest_bounded(p, one, top);
    lemma_signed(a.negative() != b.negative(), k);
    lemma_units_nonnegative(k);
    if k < top {
        lemma_units_increase(k, top);
    }
}

/// A quotient is finite if the dividend is not too large and the divisor not
/// too small.
pub proof fn lemma_quotient_bounded(a: Binary32, b: Binary32, low: nat, e: nat)
    requires
        a.is_finite(),
        b.is_finite(),
        e <= 120,
        magnitude(a.value()) <= pow2(low + e),
        magnitude(b.value()) >= pow2(low),
    ensures
        a.quotient(b).is_finite(),
        magnitude(a.quotient(b).value()) <= pow2(149 + e),
{
    reveal(Binary32::quotient);
    lemma_power_units(e);
    let top = (127 + e as int) * 0x80_0000;
    let ua = units(a.pattern());
    let ub = units(b.pattern());
    let p = ua * pow2(149);
    lemma_units_nonnegative(a.pattern());
    lemma_units_nonnegative(b.pattern());
    lemma_pow2_pos(149);
    lemma_pow2_pos(149 + e);
    lemma_pow2_pos(low);
    lemma_pow2_adds(low + e, 149);
    lemma_pow2_adds(149 + e, low);
    assert(0 <= p <= pow2(low + e) * pow2(149)) by (nonlinear_arith)
        requires
            p == ua * pow2(149),
            0 <= ua <= pow2(low + e),
            0 < pow2(149),
    ;
    assert(pow2(149 + e) * pow2(low) <= pow2(149 + e) * ub) by (nonlinear_arith)
        requires
            0 < pow2(149 + e),
            pow2(low) <= ub,
    ;
    let k = nearest(p, ub);
    lemma_nearest_in_range(p, ub);
    lemma_nearest_bounded(p, ub, top);
    lemma_signed(a.negative() != b.negative(), k);
    lemma_units_nonnegative(k);
    if k < top {
        lemma_units_increase(k, top);
    }
}

/// A product with zero and a finite number is zero.
pub proof fn lemma_product_zero(a: Binary32, b: Binary32)
    requires
        a.is_finite(),
        b.is_finite(),
        a.pattern() == 0 || b.pattern() == 0,
    ensures
        a.product(b).pattern() == 0,
        a.product(b).negative() == (a.negative() != b.negative()),
{
    reveal(Binary32::product);
    lemma_pow2_pos(149);
    let u = units(a.pattern());
    let v = units(b.pattern());
    assert(u * v == 0) by (nonlinear_arith)
        requires
            u == 0 || v == 0,
    ;
    assert(units(0) * pow2(149) == 0) by (nonlinear_arith)
        requires
            units(0) == 0,
    ;
    lemma_nearest_exact(0, pow2(149) as int);
    lemma_signed(a.negative() != b.negative(), 0);
}

/// What is taken from itself leaves zero.
pub proof fn lemma_difference_self(a: Binary32)
    requires
        a.is_finite(),
    ensures
        a.difference(a) == (Binary32 { bits: 0 }),
{
    reveal(Binary32::sum);
    lemma_signed(!a.negative(), a.pattern());
    lemma_signed(false, 0);
}

/// Zero and zero are zero.
pub proof fn lemma_sum_zero(a: Binary32, b: Binary32)
    requires
        a.pattern() == 0,
        b.pattern() == 0,
    ensures
        a.sum(b).pattern() == 0,
        a.sum(b).negative() == (a.negative() && b.negative()),
{
    reveal(Binary32::sum);
    lemma_signed(a.negative() && b.negative(), 0);
}

/// Adding zero changes no number, but for the sign of zero itself.
pub proof fn lemma_sum_with_zero(a: Binary32)
    ensures
        is_same_number(a, a.sum(Binary32 { bits: 0 })),
{
    reveal(Binary32::sum);
    let u = units(a.pattern());
    lemma_units_nonnegative(a.pattern());
    if a.is_finite() && u != 0 {
        lemma_nearest_exact(a.pattern(), 1);
        lemma_signed(a.negative(), a.pattern());
    }
}

/// Zero divided by a finite number is zero.
pub proof fn lemma_quotient_zero(a: Binary32, b: Binary32)
    requires
        a.pattern() == 0,
        b.is_finite(),
        b.pattern() != 0,
    ensures
        a.quotient(b).pattern() == 0,
        a.quotient(b).negative() == (a.negative() != b.negative()),
{
    reveal(Binary32::quotient);
    let u = units(b.pattern());
    lemma_units_nonnegative(b.pattern());
    assert(units(0) * pow2(149) == 0) by (nonlinear_arith)
        requires
            units(0) == 0,
    ;
    assert(units(0) * u == 0) by (nonlinear_arith)
        requires
            units(0) == 0,
    ;
    lemma_nearest_exact(0, u);
    lemma_signed(a.negative() != b.negative(), 0);
}

/// The product of two numbers without a sign has none, unless it is no number.
pub proof fn lemma_product_sign(a: Binary32, b: Binary32)
    requires
        !a.negative(),
        !b.negative(),
    ensures
        !a.product(b).negative(),
{
    reveal(Binary32::product);
    lemma_pow2_pos(149);
    lemma_units_nonnegative(a.pattern());
    lemma_units_nonnegative(b.pattern());
    assert(0 <= units(a.pattern()) * units(b.pattern())) by (nonlinear_arith)
        requires
            0 <= units(a.pattern()),
            0 <= units(b.pattern()),
    ;
    lemma_nearest_in_range(units(a.pattern()) * units(b.pattern()), pow2(149) as int);
    lemma_signed(
        false,
        nearest(units(a.pattern()) * units(b.pattern()), pow2(149) as int),
    );
}

/// The square of a number is a number without a sign.
pub proof fn lemma_square_number(a: Binary32)
    requires
        !a.is_nan(),
    ensures
        !a.product(a).is_nan(),
        !a.product(a).negative(),
{
    reveal(Binary32::product);
    let u = units(a.pattern());
    lemma_pow2_pos(149);
    lemma_units_nonnegative(a.pattern());
    assert(0 <= u * u) by (nonlinear_arith);
    lemma_nearest_in_range(u * u, pow2(149) as int);
    lemma_signed(false, nearest(u * u, pow2(149) as int));
    lemma_signed(false, INFINITY_PATTERN as int);
}

/// Floor of `u / one` and of `-u / one`, given quotient and remainder.
proof fn lemma_scaled_floor(u: int, one: int, whole: int, rest: int)
    requires
        one > 0,
        u == whole * one + rest,
        0 <= rest < one,
    ensures
        u / one == whole,
        (-u) / one == if rest == 0 {
            -whole
        } else {
            -whole - 1
        },
{
    vstd::arithmetic::div_mod::lemma_fundamental_div_mod_converse(u, one, whole, rest);
    if rest == 0 {
        assert((-whole) * one + 0 == -u) by (nonlinear_arith)
            requires
                u == whole * one,
        ;
        vstd::arithmetic::div_mod::lemma_fundamental_div_mod_converse(-u, one, -whole, 0);
    } else {
        assert((-whole - 1) * one + (one - rest) == -u) by (nonlinear_arith)
            requires
                u == whole * one + rest,
        ;
        vstd::arithmetic::div_mod::lemma_fundamental_div_mod_converse(
            -u,
            one,
            -whole - 1,
            one - rest,
        );
    }
}

/// Cutting off low bits and shifting back leaves the rest below one step.
proof fn lemma_u64_shl_is_mul_div(m: u64, d: u64)
    requires
        d < 64,
    ensures
        ({
            let w = pow2(d as nat) as int;
            let cut = m >> d;
            &&& (cut << d) == cut * w
            &&& 0 <= m - cut * w < w
        }),
{
    let w = pow2(d as nat) as int;
    let cut = m >> d;
    lemma_pow2_pos(d as nat);
    lemma_u64_shr_is_div(m, d);
    vstd::arithmetic::div_mod::lemma_fundamental_div_mod(m as int, w);
    vstd::arithmetic::div_mod::lemma_mod_bound(m as int, w);
    assert(w * cut == cut * w) by (nonlinear_arith);
    lemma_u64_shl_is_mul(cut, d);
}

proof fn lemma_units_positive_mantissa(k: int, m: int, e: nat)
    requires
        k > 0,
        units(k) == m * pow2(e),
        m >= 0,
    ensures
        m > 0,
{
    lemma_units_nonnegative(k);
    if m == 0 {
        assert(m * pow2(e) == 0) by (nonlinear_arith)
            requires
                m == 0,
        ;
    }
}

/// The product of two mantissas brackets the product of the magnitudes.
proof fn lemma_product_bracketed(ma: int, ea: nat, mb: int, eb: nat)
    ensures
        is_bracketed(
            ma * mb,
            ea + eb - 149,
            false,
            (ma * pow2(ea)) * (mb * pow2(eb)),
            pow2(149) as int,
        ),
{
    let s = ea + eb - 149;
    let p = (ma * pow2(ea)) * (mb * pow2(eb));
    let q = pow2(149) as int;
    lemma_pow2_adds(ea, eb);
    assert(p == (ma * mb) * pow2(ea + eb)) by (nonlinear_arith)
        requires
            p == (ma * pow2(ea)) * (mb * pow2(eb)),
            pow2(ea + eb) == pow2(ea) * pow2(eb),
    ;
    if s >= 0 {
        lemma_pow2_adds(s as nat, 149);
        assert((ma * mb) * (scale_up(s) * q) == p * 1);
    } else {
        lemma_pow2_adds((ea + eb) as nat, (-s) as nat);
        assert((ma * mb) * (1 * q) == p * scale_down(s)) by (nonlinear_arith)
            requires
                p == (ma * mb) * pow2(ea + eb),
                q == pow2(ea + eb) * scale_down(s),
        ;
    }
}

/// The quotient of the shifted mantissas brackets that of the magnitudes.
proof fn lemma_quotient_bracketed(
    ma: int,
    ea: nat,
    mb: int,
    eb: nat,
    t: nat,
    m: int,
    rest: int,
)
    requires
        0 <= rest < mb,
        ma * pow2(t) == m * mb + rest,
        t <= 62,
    ensures
        is_bracketed(
            m,
            ea - t - eb + 149,
            rest != 0,
            (ma * pow2(ea)) * pow2(149),
            mb * pow2(eb),
        ),
{
    let s = ea - t - eb + 149;
    let p = (ma * pow2(ea)) * pow2(149);
    let q = mb * pow2(eb);
    lemma_pow2_adds(ea, 149);
    let w = (ea + 149 - t) as nat;
    lemma_pow2_adds(t, w);
    lemma_pow2_pos(w);
    lemma_pow2_pos(eb);
    assert(p == (ma * pow2(t)) * pow2(w)) by (nonlinear_arith)
        requires
            p == (ma * pow2(ea)) * pow2(149),
            pow2(ea) * pow2(149) == pow2(t) * pow2(w),
    ;
    // Both sides as multiples of one factor.
    let f = if s >= 0 {
        pow2(w) as int
    } else {
        pow2(eb) as int
    };
    if s >= 0 {
        lemma_pow2_adds(s as nat, eb);
        assert(scale_up(s) * q == mb * f) by (nonlinear_arith)
            requires
                q == mb * pow2(eb),
                f == scale_up(s) * pow2(eb),
        ;
        assert(p * scale_down(s) == (ma * pow2(t)) * f);
    } else {
        lemma_pow2_adds(w, (-s) as nat);
        assert(scale_up(s) * q == mb * f);
        assert(p * scale_down(s) == (ma * pow2(t)) * f) by (nonlinear_arith)
            requires
                p == (ma * pow2(t)) * pow2(w),
                f == pow2(w) * scale_down(s),
        ;
    }
    let x = scale_up(s) * q;
    assert(m * x == (m * mb) * f) by (nonlinear_arith)
        requires
            x == mb * f,
    ;
    assert((m + 1) * x == (m * mb + mb) * f) by (nonlinear_arith)
        requires
            x == mb * f,
    ;
    let total = ma * pow2(t);
    if rest == 0 {
        assert(m * x == p * scale_down(s));
    } else {
        assert((m * mb) * f < total * f < (m * mb + mb) * f) by (nonlinear_arith)
            requires
                m * mb < total < m * mb + mb,
                f > 0,
        ;
    }
}

/// Numeric equality: both zeros are equal, and what is no number equals nothing.
impl PartialEq for Binary32 {
    fn eq(&self, other: &Binary32) -> (r: bool) {
        self.le(*other) && other.le(*self)
    }
}

impl vstd::std_specs::cmp::PartialEqSpecImpl for Binary32 {
    open spec fn obeys_eq_spec() -> bool {
        true
    }

    open spec fn eq_spec(&self, other: &Binary32) -> bool {
        self.equals(*other)
    }
}

/// A magnitude so much smaller that adding or taking it away changes nothing.
proof fn lemma_absorbed(k: int, m: int, e: nat, small: int, ms: int, es: nat)
    requires
        0 <= k < INFINITY_PATTERN,
        0x80_0000 <= m < 0x100_0000,
        k == e * 0x80_0000 + m,
        units(k) == m * pow2(e),
        0 <= ms < 0x100_0000,
        small == ms * pow2(es),
        e > es + 32,
    ensures
        is_nearest(k, units(k) + small, 1),
        is_nearest(k, units(k) - small, 1),
        small < units(k),
        small >= 0,
{
    let u = units(k);
    let step = pow2(e) as int;
    lemma2_to64();
    lemma_pow2_pos(es);
    lemma_pow2_adds(es, 32);
    lemma_pow2_strictly_increases((es + 32) as nat, e);
    lemma_pow2_unfold(e);
    assert(0 <= small <= 0xff_ffff * pow2(es)) by (nonlinear_arith)
        requires
            small == ms * pow2(es),
            0 <= ms <= 0xff_ffff,
            pow2(es) > 0,
    ;
    assert(256 * small < step) by {
        assert(pow2((es + 32) as nat) == pow2(es) * 0x1_0000_0000);
    }
    lemma_units_step(k);
    lemma_units_step(k - 1);
    assert(k / 0x80_0000 == e + 1);
    assert(units(k + 1) == u + step);
    if m > 0x80_0000 {
        assert((k - 1) / 0x80_0000 == e + 1);
    } else {
        assert((k - 1) / 0x80_0000 == e);
    }
    assert(2 * (u - units(k - 1)) >= step);
    assert(step <= u) by (nonlinear_arith)
        requires
            u == m * step,
            m >= 1,
            step > 0,
    ;
}

} // verus!
