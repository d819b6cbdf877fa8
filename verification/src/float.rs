//! IEEE-754 numbers held as bit patterns, with the arithmetic that the codec needs.
//!
//! Every finite double is a whole number of units, a unit being the smallest positive
//! subnormal `2^-1074`; the smallest positive single is `2^-149`. The contracts below speak
//! of these whole numbers and of [`rounding::round_magnitude`], which rounds to nearest, ties to even.

use crate::rounding;
use crate::rounding::{power, round_scaled};
use vstd::arithmetic::div_mod::*;
use vstd::arithmetic::mul::*;
use vstd::arithmetic::power2::*;
use vstd::bits::*;
use vstd::prelude::*;

verus! {

/// The weight of the sign bit of a double.
pub const DOUBLE_SIGN: u64 = 0x8000_0000_0000_0000;

/// The magnitude bits of an infinite double; larger magnitudes are NaNs.
pub const DOUBLE_INFINITY: u64 = 0x7ff0_0000_0000_0000;

/// The weight of the lowest exponent bit of a double.
pub const DOUBLE_IMPLICIT: u64 = 0x10_0000_0000_0000;

/// The weight of the sign bit of a single.
pub const SINGLE_SIGN: u32 = 0x8000_0000;

/// The magnitude bits of an infinite single; larger magnitudes are NaNs.
pub const SINGLE_INFINITY: u32 = 0x7f80_0000;

/// The weight of the lowest exponent bit of a single.
pub const SINGLE_IMPLICIT: u32 = 0x80_0000;

/// The bits of `0.5`.
pub const HALF_BITS: u64 = 0x3fe0_0000_0000_0000;

/// The bits of `1.0`.
pub const ONE_BITS: u64 = 0x3ff0_0000_0000_0000;

/// The bits of `2.0`.
pub const TWO_BITS: u64 = 0x4000_0000_0000_0000;

/// A double-precision number.
#[derive(Debug, Clone, Copy, PartialEq, Eq, Structural)]
pub struct Double {
    /// The IEEE-754 bit pattern.
    pub bits: u64,
}

/// A single-precision number.
#[derive(Debug, Clone, Copy, PartialEq, Eq, Structural)]
pub struct Single {
    /// The IEEE-754 bit pattern.
    pub bits: u32,
}

/// The double with this sign and these magnitude bits.
pub open spec fn double_of(negative: bool, magnitude: nat) -> Double {
    Double { bits: (magnitude + if negative { DOUBLE_SIGN as nat } else { 0 }) as u64 }
}

/// The double nearest to `p / q` units.
pub open spec fn double_near(negative: bool, p: nat, q: nat) -> Double {
    double_of(negative, rounding::round_magnitude(p, q, 52, DOUBLE_INFINITY as nat))
}

/// The NaN that invalid operations give.
pub open spec fn double_nan() -> Double {
    Double { bits: 0x7ff8_0000_0000_0000 }
}

/// `|x|` as a natural number.
pub open spec fn abs_nat(x: int) -> nat {
    if x < 0 {
        (-x) as nat
    } else {
        x as nat
    }
}

impl Double {
    /// Exponent and fraction bits.
    pub open spec fn magnitude(self) -> nat {
        (self.bits % DOUBLE_SIGN) as nat
    }

    /// Whether the sign bit is set.
    pub open spec fn negative(self) -> bool {
        self.bits >= DOUBLE_SIGN
    }

    pub open spec fn finite(self) -> bool {
        self.magnitude() < DOUBLE_INFINITY
    }

    pub open spec fn infinite(self) -> bool {
        self.magnitude() == DOUBLE_INFINITY
    }

    pub open spec fn nan(self) -> bool {
        self.magnitude() > DOUBLE_INFINITY
    }

    pub open spec fn zero(self) -> bool {
        self.magnitude() == 0
    }

    /// The significand with its implicit bit.
    pub open spec fn significand(self) -> nat {
        if self.magnitude() < DOUBLE_IMPLICIT {
            self.magnitude()
        } else {
            (DOUBLE_IMPLICIT + self.magnitude() % (DOUBLE_IMPLICIT as nat)) as nat
        }
    }

    /// The power of two, in units, that the significand is multiplied by.
    pub open spec fn exponent(self) -> nat {
        if self.magnitude() < DOUBLE_IMPLICIT {
            0
        } else {
            (self.magnitude() / (DOUBLE_IMPLICIT as nat) - 1) as nat
        }
    }

    /// The absolute value in units.
    pub open spec fn size(self) -> nat {
        self.significand() * pow2(self.exponent())
    }

    /// The value of a finite double in units.
    pub open spec fn units(self) -> int {
        if self.negative() {
            -(self.size() as int)
        } else {
            self.size() as int
        }
    }

    /// The position of a double other than a NaN in the numeric order; both zeros share one.
    pub open spec fn ordinal(self) -> int {
        if self.negative() {
            -(self.magnitude() as int)
        } else {
            self.magnitude() as int
        }
    }

    /// Numeric `<`.
    pub open spec fn below(self, other: Double) -> bool {
        !self.nan() && !other.nan() && self.ordinal() < other.ordinal()
    }

    /// Numeric `==`.
    pub open spec fn same(self, other: Double) -> bool {
        !self.nan() && !other.nan() && self.ordinal() == other.ordinal()
    }

    /// `self + other`.
    pub open spec fn sum(self, other: Double) -> Double {
        if self.nan() || other.nan() {
            double_nan()
        } else if self.infinite() {
            if other.infinite() && self.negative() != other.negative() {
                double_nan()
            } else {
                self
            }
        } else if other.infinite() {
            other
        } else {
            let total = self.units() + other.units();
            if total == 0 {
                double_of(self.negative() && other.negative(), 0)
            } else {
                double_near(total < 0, abs_nat(total), 1)
            }
        }
    }

    /// `-self`.
    pub open spec fn opposite(self) -> Double {
        double_of(!self.negative(), self.magnitude())
    }

    /// `|self|`.
    pub open spec fn absolute(self) -> Double {
        double_of(false, self.magnitude())
    }

    /// `self - other`.
    pub open spec fn difference(self, other: Double) -> Double {
        if other.nan() {
            double_nan()
        } else {
            self.sum(other.opposite())
        }
    }

    /// `self * other`.
    pub open spec fn product(self, other: Double) -> Double {
        let negative = self.negative() != other.negative();
        if self.nan() || other.nan() {
            double_nan()
        } else if self.infinite() || other.infinite() {
            if self.zero() || other.zero() {
                double_nan()
            } else {
                double_of(negative, DOUBLE_INFINITY as nat)
            }
        } else if self.zero() || other.zero() {
            double_of(negative, 0)
        } else {
            double_near(negative, self.size() * other.size(), pow2(1074))
        }
    }

    /// `self / other`.
    pub open spec fn quotient(self, other: Double) -> Double {
        let negative = self.negative() != other.negative();
        if self.nan() || other.nan() {
            double_nan()
        } else if self.infinite() {
            if other.infinite() {
                double_nan()
            } else {
                double_of(negative, DOUBLE_INFINITY as nat)
            }
        } else if other.infinite() {
            double_of(negative, 0)
        } else if other.zero() {
            if self.zero() {
                double_nan()
            } else {
                double_of(negative, DOUBLE_INFINITY as nat)
            }
        } else if self.zero() {
            double_of(negative, 0)
        } else {
            double_near(negative, self.size() * pow2(1074), other.size())
        }
    }

    /// The smaller of two numbers; a NaN gives way to the other operand.
    pub open spec fn lesser(self, other: Double) -> Double {
        if other.nan() || self.below(other) || self.same(other) {
            self
        } else {
            other
        }
    }

    /// The larger of two numbers; a NaN gives way to the other operand.
    pub open spec fn greater(self, other: Double) -> Double {
        if other.nan() || other.below(self) || self.same(other) {
            self
        } else {
            other
        }
    }

    /// The integer part of the absolute value of a finite double.
    pub open spec fn whole(self) -> nat {
        self.size() / pow2(1074)
    }

    /// Whether a finite double is an integer.
    pub open spec fn integral(self) -> bool {
        self.size() % pow2(1074) == 0
    }

    /// The integer that a finite double truncates to.
    pub open spec fn truncated(self) -> int {
        if self.negative() {
            -(self.whole() as int)
        } else {
            self.whole() as int
        }
    }
}

/// The double that stands for an integer.
pub open spec fn double_of_int(value: int) -> Double {
    if value == 0 {
        double_of(false, 0)
    } else {
        double_near(value < 0, abs_nat(value) * pow2(1074), 1)
    }
}

/// Sign and magnitude determine the bits.
pub proof fn lemma_double_parts(negative: bool, magnitude: nat)
    requires
        magnitude < DOUBLE_SIGN,
    ensures
        double_of(negative, magnitude).negative() == negative,
        double_of(negative, magnitude).magnitude() == magnitude,
{
}

pub proof fn lemma_double_whole(d: Double)
    ensures
        double_of(d.negative(), d.magnitude()) == d,
{
}

pub proof fn lemma_significand_bounds(d: Double)
    requires
        d.finite(),
    ensures
        d.significand() < 2 * DOUBLE_IMPLICIT,
        d.exponent() <= 2045,
        d.exponent() > 0 ==> d.significand() >= DOUBLE_IMPLICIT,
        d.zero() <==> d.significand() == 0,
        d.zero() <==> d.size() == 0,
        d.magnitude() == d.exponent() * DOUBLE_IMPLICIT + d.significand(),
{
    lemma_pow2_pos(d.exponent());
    assert(d.significand() > 0 ==> d.significand() * pow2(d.exponent()) > 0) by (nonlinear_arith)
        requires
            pow2(d.exponent()) > 0,
    ;
}

impl Double {
    /// Whether the number is neither infinite nor a NaN.
    pub fn is_finite(self) -> (r: bool)
        ensures
            r == self.finite(),
    {
        self.bits % DOUBLE_SIGN < DOUBLE_INFINITY
    }

    /// Whether the bit pattern is a NaN.
    pub fn is_nan(self) -> (r: bool)
        ensures
            r == self.nan(),
    {
        self.bits % DOUBLE_SIGN > DOUBLE_INFINITY
    }

    /// Numeric `<`; false when either side is a NaN.
    pub fn less_than(self, other: Double) -> (r: bool)
        ensures
            r == self.below(other),
    {
        let a: u64 = self.bits % DOUBLE_SIGN;
        let b: u64 = other.bits % DOUBLE_SIGN;
        if a > DOUBLE_INFINITY || b > DOUBLE_INFINITY {
            return false;
        }
        let x: i64 = if self.bits >= DOUBLE_SIGN { -(a as i64) } else { a as i64 };
        let y: i64 = if other.bits >= DOUBLE_SIGN { -(b as i64) } else { b as i64 };
        x < y
    }

    /// Numeric `==`; false when either side is a NaN, true of two zeros.
    pub fn equals(self, other: Double) -> (r: bool)
        ensures
            r == self.same(other),
    {
        let a: u64 = self.bits % DOUBLE_SIGN;
        let b: u64 = other.bits % DOUBLE_SIGN;
        if a > DOUBLE_INFINITY || b > DOUBLE_INFINITY {
            return false;
        }
        let x: i64 = if self.bits >= DOUBLE_SIGN { -(a as i64) } else { a as i64 };
        let y: i64 = if other.bits >= DOUBLE_SIGN { -(b as i64) } else { b as i64 };
        x == y
    }

    /// The smaller of two numbers; a NaN gives way to the other operand.
    pub fn min(self, other: Double) -> (r: Double)
        ensures
            r == self.lesser(other),
    {
        if other.is_nan() || self.less_than(other) || self.equals(other) {
            self
        } else {
            other
        }
    }

    /// The larger of two numbers; a NaN gives way to the other operand.
    pub fn max(self, other: Double) -> (r: Double)
        ensures
            r == self.greater(other),
    {
        if other.is_nan() || other.less_than(self) || self.equals(other) {
            self
        } else {
            other
        }
    }

    fn split(self) -> (r: (u64, u32))
        requires
            self.finite(),
        ensures
            r.0 == self.significand(),
            r.1 == self.exponent(),
            r.0 < 2 * DOUBLE_IMPLICIT,
            r.1 <= 2045,
    {
        let magnitude: u64 = self.bits % DOUBLE_SIGN;
        if magnitude < DOUBLE_IMPLICIT {
            (magnitude, 0)
        } else {
            (DOUBLE_IMPLICIT + magnitude % DOUBLE_IMPLICIT, (magnitude / DOUBLE_IMPLICIT - 1) as u32)
        }
    }

    fn assemble(negative: bool, magnitude: u64) -> (r: Double)
        requires
            magnitude < DOUBLE_SIGN,
        ensures
            r == double_of(negative, magnitude as nat),
    {
        Double { bits: if negative { magnitude + DOUBLE_SIGN } else { magnitude } }
    }

    /// `-self`.
    pub fn negate(self) -> (r: Double)
        ensures
            r == self.opposite(),
    {
        Double::assemble(self.bits < DOUBLE_SIGN, self.bits % DOUBLE_SIGN)
    }

    /// `|self|`.
    pub fn abs(self) -> (r: Double)
        ensures
            r == self.absolute(),
    {
        Double::assemble(false, self.bits % DOUBLE_SIGN)
    }

    /// `self * other`, correctly rounded.
    pub fn times(self, other: Double) -> (r: Double)
        ensures
            r == self.product(other),
    {
        let negative = (self.bits >= DOUBLE_SIGN) != (other.bits >= DOUBLE_SIGN);
        let a: u64 = self.bits % DOUBLE_SIGN;
        let b: u64 = other.bits % DOUBLE_SIGN;
        if a > DOUBLE_INFINITY || b > DOUBLE_INFINITY {
            return Double { bits: 0x7ff8_0000_0000_0000 };
        }
        if a == DOUBLE_INFINITY || b == DOUBLE_INFINITY {
            if a == 0 || b == 0 {
                return Double { bits: 0x7ff8_0000_0000_0000 };
            }
            return Double::assemble(negative, DOUBLE_INFINITY);
        }
        if a == 0 || b == 0 {
            return Double::assemble(negative, 0);
        }
        let (ma, ka) = self.split();
        let (mb, kb) = other.split();
        proof {
            lemma_significand_bounds(self);
            lemma_significand_bounds(other);
            assert(0 < ma * mb < 0x40_0000_0000_0000 * 0x40_0000_0000_0000) by (nonlinear_arith)
                requires
                    0 < ma < 0x20_0000_0000_0000,
                    0 < mb < 0x20_0000_0000_0000,
            ;
            lemma_product(ma as nat, ka as nat, mb as nat, kb as nat);
        }
        let m: u128 = (ma as u128) * (mb as u128);
        let s: i32 = ka as i32 + kb as i32 - 1074;
        let magnitude: u64 = round_scaled(m, s, 52, DOUBLE_INFINITY);
        Double::assemble(negative, magnitude)
    }
}

proof fn lemma_product(ma: nat, ka: nat, mb: nat, kb: nat)
    ensures
        rounding::scaled_magnitude(ma * mb, ka + kb - 1074, 52, DOUBLE_INFINITY as nat) == rounding::round_magnitude(
            (ma * pow2(ka)) * (mb * pow2(kb)),
            pow2(1074),
            52,
            DOUBLE_INFINITY as nat,
        ),
{
    let s = ka + kb - 1074;
    let m = ma * mb;
    lemma_pow2_adds(ka, kb);
    assert((ma * pow2(ka)) * (mb * pow2(kb)) == m * (pow2(ka) * pow2(kb))) by (nonlinear_arith)
        requires
            m == ma * mb,
    ;
    lemma_pow2_pos(1074);
    if s >= 0 {
        lemma_pow2_adds(s as nat, 1074);
        assert(m * (pow2(s as nat) * pow2(1074)) == (m * pow2(s as nat)) * pow2(1074))
            by (nonlinear_arith);
        rounding::lemma_round_scale(m * pow2(s as nat), 1, pow2(1074), 52, DOUBLE_INFINITY as nat);
    } else {
        let d = (-s) as nat;
        lemma_pow2_pos(d);
        lemma_pow2_pos(ka + kb);
        lemma_pow2_adds(d, ka + kb);
        rounding::lemma_round_scale(m, pow2(d), pow2(ka + kb), 52, DOUBLE_INFINITY as nat);
    }
}

/// Adding a number whose last bit lies more than 64 places below changes nothing.
proof fn lemma_absorb(big: Double, small: Double)
    requires
        big.finite(),
        small.finite(),
        big.exponent() > small.exponent() + 64,
    ensures
        big.size() > small.size(),
        rounding::round_magnitude(big.size() + small.size(), 1, 52, DOUBLE_INFINITY as nat)
            == big.magnitude(),
        rounding::round_magnitude(
            (big.size() - small.size()) as nat,
            1,
            52,
            DOUBLE_INFINITY as nat,
        ) == big.magnitude(),
{
    lemma_significand_bounds(big);
    lemma_significand_bounds(small);
    lemma2_to64();
    lemma2_to64_rest();
    let m = big.significand();
    let k = big.exponent();
    let w = pow2(k);
    let v = small.size();
    let half = pow2((k - 1) as nat);
    lemma_pow2_unfold(k);
    // v < 2^(k - 12)
    let kb = small.exponent();
    lemma_pow2_adds(53, kb);
    lemma_pow2_pos(kb);
    assert(v < pow2(53) * pow2(kb)) by (nonlinear_arith)
        requires
            v == small.significand() * pow2(kb),
            small.significand() < pow2(53),
            pow2(kb) > 0,
    ;
    if 53 + kb < k - 3 {
        lemma_pow2_strictly_increases(53 + kb, (k - 3) as nat);
    }
    lemma_pow2_unfold((k - 1) as nat);
    lemma_pow2_unfold((k - 2) as nat);
    assert(4 * v < half);
    lemma_pow2_adds(k, 53);
    lemma_pow2_adds(k, 52);
    assert(m * w >= 0x10_0000_0000_0000 * w) by (nonlinear_arith)
        requires
            m >= 0x10_0000_0000_0000,
    ;
    // The sum.
    let p = big.size() + v;
    assert(p < w * 0x20_0000_0000_0000 && p >= w * 0x10_0000_0000_0000) by (nonlinear_arith)
        requires
            p == m * w + v,
            v < w,
            0x10_0000_0000_0000 <= m,
            m + 1 <= 0x20_0000_0000_0000,
    ;
    rounding::lemma_quantum_unique(p, 1, 52, k);
    lemma_fundamental_div_mod_converse(p as int, w as int, m as int, v as int);
    // The difference.
    if v > 0 {
        let r = (big.size() - v) as nat;
        if m > 0x10_0000_0000_0000 {
            assert(r < w * 0x20_0000_0000_0000 && r >= w * 0x10_0000_0000_0000)
                by (nonlinear_arith)
                requires
                    r == m * w - v,
                    0 < v < w,
                    0x10_0000_0000_0000 + 1 <= m,
                    m <= 0x20_0000_0000_0000,
            ;
            rounding::lemma_quantum_unique(r, 1, 52, k);
            assert(r == (m - 1) * w + (w - v)) by (nonlinear_arith)
                requires
                    r == m * w - v,
            ;
            lemma_fundamental_div_mod_converse(r as int, w as int, m - 1, w - v);
        } else {
            lemma_pow2_adds((k - 1) as nat, 53);
            lemma_pow2_adds((k - 1) as nat, 52);
            assert(r == 0x20_0000_0000_0000 * half - v);
            assert(r < half * 0x20_0000_0000_0000 && r >= half * 0x10_0000_0000_0000);
            rounding::lemma_quantum_unique(r, 1, 52, (k - 1) as nat);
            let n = 0x20_0000_0000_0000 - 1;
            assert(r == n * half + (half - v));
            lemma_fundamental_div_mod_converse(r as int, half as int, n, half - v);
        }
    } else {
        assert((big.size() - v) as nat == p);
    }
}

impl Double {
    /// `self + other`, correctly rounded.
    pub fn plus(self, other: Double) -> (r: Double)
        ensures
            r == self.sum(other),
    {
        let a: u64 = self.bits % DOUBLE_SIGN;
        let b: u64 = other.bits % DOUBLE_SIGN;
        let na = self.bits >= DOUBLE_SIGN;
        let nb = other.bits >= DOUBLE_SIGN;
        if a > DOUBLE_INFINITY || b > DOUBLE_INFINITY {
            return Double { bits: 0x7ff8_0000_0000_0000 };
        }
        if a == DOUBLE_INFINITY {
            if b == DOUBLE_INFINITY && na != nb {
                return Double { bits: 0x7ff8_0000_0000_0000 };
            }
            return self;
        }
        if b == DOUBLE_INFINITY {
            return other;
        }
        if a / DOUBLE_IMPLICIT >= b / DOUBLE_IMPLICIT {
            self.plus_smaller(other)
        } else {
            other.plus_smaller(self)
        }
    }

    fn plus_smaller(self, other: Double) -> (r: Double)
        requires
            self.finite(),
            other.finite(),
            self.exponent() >= other.exponent(),
        ensures
            r == self.sum(other),
    {
        let (ma, ka) = self.split();
        let (mb, kb) = other.split();
        let na = self.bits >= DOUBLE_SIGN;
        let nb = other.bits >= DOUBLE_SIGN;
        let gap: u32 = ka - kb;
        if gap > 64 {
            proof {
                lemma_absorb(self, other);
            }
            return self;
        }
        let d: u128 = power(gap);
        proof {
            lemma_pow2_adds(gap as nat, kb as nat);
            lemma2_to64_rest();
            if gap < 64 {
                lemma_pow2_strictly_increases(gap as nat, 64);
            }
            assert(ma * d < 0x20_0000_0000_0000 * 0x1_0000_0000_0000_0001) by (nonlinear_arith)
                requires
                    ma < 0x20_0000_0000_0000,
                    d <= 0x1_0000_0000_0000_0000,
            ;
            let w = pow2(kb as nat);
            lemma_pow2_pos(kb as nat);
            let x = (ma * d) as int;
            assert(self.size() == x * w) by (nonlinear_arith)
                requires
                    self.size() == ma * (d * w),
                    x == ma * d,
            ;
            assert(x * w + mb * w == (x + mb) * w) by (nonlinear_arith);
            assert(x * w - mb * w == (x - mb) * w) by (nonlinear_arith);
            assert(mb * w - x * w == (mb - x) * w) by (nonlinear_arith);
            assert(x + mb > 0 ==> (x + mb) * w > 0) by (nonlinear_arith)
                requires
                    w > 0,
            ;
            assert(x - mb > 0 ==> (x - mb) * w > 0) by (nonlinear_arith)
                requires
                    w > 0,
            ;
            assert(mb - x > 0 ==> (mb - x) * w > 0) by (nonlinear_arith)
                requires
                    w > 0,
            ;
        }
        let x: u128 = (ma as u128) * d;
        let y: u128 = mb as u128;
        if na == nb {
            let m: u128 = x + y;
            if m == 0 {
                return Double::assemble(na, 0);
            }
            let magnitude: u64 = round_scaled(m, kb as i32, 52, DOUBLE_INFINITY);
            Double::assemble(na, magnitude)
        } else if x == y {
            Double::assemble(false, 0)
        } else if x > y {
            let magnitude: u64 = round_scaled(x - y, kb as i32, 52, DOUBLE_INFINITY);
            Double::assemble(na, magnitude)
        } else {
            let magnitude: u64 = round_scaled(y - x, kb as i32, 52, DOUBLE_INFINITY);
            Double::assemble(nb, magnitude)
        }
    }

    /// `self - other`, correctly rounded.
    pub fn minus(self, other: Double) -> (r: Double)
        ensures
            r == self.difference(other),
    {
        if other.is_nan() {
            return Double { bits: 0x7ff8_0000_0000_0000 };
        }
        self.plus(other.negate())
    }

    /// `self / other`, correctly rounded.
    pub fn over(self, other: Double) -> (r: Double)
        ensures
            r == self.quotient(other),
    {
        let negative = (self.bits >= DOUBLE_SIGN) != (other.bits >= DOUBLE_SIGN);
        let a: u64 = self.bits % DOUBLE_SIGN;
        let b: u64 = other.bits % DOUBLE_SIGN;
        if a > DOUBLE_INFINITY || b > DOUBLE_INFINITY {
            return Double { bits: 0x7ff8_0000_0000_0000 };
        }
        if a == DOUBLE_INFINITY {
            if b == DOUBLE_INFINITY {
                return Double { bits: 0x7ff8_0000_0000_0000 };
            }
            return Double::assemble(negative, DOUBLE_INFINITY);
        }
        if b == DOUBLE_INFINITY {
            return Double::assemble(negative, 0);
        }
        if b == 0 {
            if a == 0 {
                return Double { bits: 0x7ff8_0000_0000_0000 };
            }
            return Double::assemble(negative, DOUBLE_INFINITY);
        }
        if a == 0 {
            return Double::assemble(negative, 0);
        }
        let (ma, ka) = self.split();
        let (mb, kb) = other.split();
        proof {
            lemma_significand_bounds(self);
            lemma_significand_bounds(other);
            lemma2_to64();
            lemma2_to64_rest();
        }
        let top: u32 = rounding::floor_log2(ma as u128);
        proof {
            if top >= 53 {
                if top > 53 {
                    lemma_pow2_strictly_increases(53, top as nat);
                }
            }
        }
        let shift: u32 = 52 - top;
        let lift: u128 = power(shift + 64);
        proof {
            lemma_pow2_pos((shift + 64) as nat);
            lemma_pow2_adds(top as nat, (shift + 64) as nat);
            lemma_pow2_adds((top + 1) as nat, (shift + 64) as nat);
            lemma_pow2_adds(52, 64);
            lemma_pow2_adds(53, 64);
            assert(pow2(116) <= ma * lift < pow2(117)) by (nonlinear_arith)
                requires
                    pow2(top as nat) <= ma,
                    ma < pow2((top + 1) as nat),
                    lift == pow2((shift + 64) as nat),
                    pow2(top as nat) * pow2((shift + 64) as nat) == pow2(116),
                    pow2((top + 1) as nat) * pow2((shift + 64) as nat) == pow2(117),
                    lift > 0,
            ;
        }
        let n: u128 = (ma as u128) * lift;
        let floor: u128 = n / (mb as u128);
        let rest: u128 = n % (mb as u128);
        let s: i32 = ka as i32 + 1010 - shift as i32 - kb as i32;
        proof {
            assert(floor >= pow2(54)) by {
                lemma_pow2_adds(54, 53);
                lemma_pow2_strictly_increases(107, 116);
                assert(pow2(54) * mb <= n) by (nonlinear_arith)
                    requires
                        mb < pow2(53),
                        pow2(54) * pow2(53) <= n,
                        pow2(54) > 0,
                ;
                lemma_div_is_ordered((pow2(54) * mb) as int, n as int, mb as int);
                lemma_div_multiples_vanish(pow2(54) as int, mb as int);
                lemma_mul_is_commutative(pow2(54) as int, mb as int);
            }
            lemma_fundamental_div_mod(n as int, mb as int);
            assert(floor <= n) by {
                lemma_div_nonincreasing(n as int, mb as int);
            }
            lemma_quotient(ma as nat, ka as nat, mb as nat, kb as nat, shift as nat);
        }
        let magnitude: u64 = if rest == 0 {
            proof {
                lemma_exact_quotient(n as nat, mb as nat, floor as nat, s as int);
            }
            round_scaled(floor, s, 52, DOUBLE_INFINITY)
        } else {
            proof {
                rounding::lemma_round_sticky(
                    n as nat,
                    mb as nat,
                    floor as nat,
                    s as int,
                    52,
                    DOUBLE_INFINITY as nat,
                );
                lemma_halved((2 * floor + 1) as nat, s as int);
            }
            round_scaled(2 * floor + 1, s - 1, 52, DOUBLE_INFINITY)
        };
        Double::assemble(negative, magnitude)
    }
}

proof fn lemma_quotient(ma: nat, ka: nat, mb: nat, kb: nat, shift: nat)
    requires
        mb > 0,
        shift <= 52,
    ensures
        rounding::shifted_magnitude(
            ma * pow2(shift + 64),
            mb,
            ka + 1010 - shift - kb,
            52,
            DOUBLE_INFINITY as nat,
        ) == rounding::round_magnitude(
            (ma * pow2(ka)) * pow2(1074),
            mb * pow2(kb),
            52,
            DOUBLE_INFINITY as nat,
        ),
{
    let n = ma * pow2(shift + 64);
    let s = ka + 1010 - shift - kb;
    lemma_pow2_adds(ka, 1074);
    assert((ma * pow2(ka)) * pow2(1074) == ma * (pow2(ka) * pow2(1074))) by (nonlinear_arith);
    if s >= 0 {
        lemma_pow2_adds(shift + 64, s as nat);
        lemma_pow2_adds((shift + 64 + s) as nat, kb);
        lemma_pow2_pos(kb);
        assert((n * pow2(s as nat)) * pow2(kb) == ma * ((pow2(shift + 64) * pow2(s as nat)) * pow2(
            kb,
        ))) by (nonlinear_arith)
            requires
                n == ma * pow2(shift + 64),
        ;
        rounding::lemma_round_scale(
            n * pow2(s as nat),
            mb,
            pow2(kb),
            52,
            DOUBLE_INFINITY as nat,
        );
    } else {
        let c = (ka + 1010 - shift) as nat;
        let d = (-s) as nat;
        lemma_pow2_adds(shift + 64, c);
        lemma_pow2_adds(d, c);
        lemma_pow2_pos(c);
        lemma_pow2_pos(d);
        assert(n * pow2(c) == ma * (pow2(shift + 64) * pow2(c))) by (nonlinear_arith)
            requires
                n == ma * pow2(shift + 64),
        ;
        assert((mb * pow2(d)) * pow2(c) == mb * (pow2(d) * pow2(c))) by (nonlinear_arith);
        assert(mb * pow2(d) > 0) by (nonlinear_arith)
            requires
                mb > 0,
                pow2(d) > 0,
        ;
        rounding::lemma_round_scale(n, mb * pow2(d), pow2(c), 52, DOUBLE_INFINITY as nat);
    }
}

proof fn lemma_exact_quotient(n: nat, q: nat, floor: nat, s: int)
    requires
        q > 0,
        n == q * floor,
    ensures
        rounding::shifted_magnitude(n, q, s, 52, DOUBLE_INFINITY as nat)
            == rounding::scaled_magnitude(floor, s, 52, DOUBLE_INFINITY as nat),
{
    if s >= 0 {
        assert((floor * pow2(s as nat)) * q == n * pow2(s as nat)) by (nonlinear_arith)
            requires
                n == q * floor,
        ;
        rounding::lemma_round_scale(floor * pow2(s as nat), 1, q, 52, DOUBLE_INFINITY as nat);
    } else {
        let d = pow2((-s) as nat);
        lemma_pow2_pos((-s) as nat);
        assert(floor * q == n && d * q == q * d) by (nonlinear_arith)
            requires
                n == q * floor,
        ;
        rounding::lemma_round_scale(floor, d, q, 52, DOUBLE_INFINITY as nat);
    }
}

proof fn lemma_halved(m: nat, s: int)
    ensures
        rounding::shifted_magnitude(m, 2, s, 52, DOUBLE_INFINITY as nat)
            == rounding::scaled_magnitude(m, s - 1, 52, DOUBLE_INFINITY as nat),
{
    lemma2_to64();
    if s >= 1 {
        lemma_pow2_unfold(s as nat);
        let h = pow2((s - 1) as nat);
        assert((m * h) * 2 == m * (2 * h)) by (nonlinear_arith);
        rounding::lemma_round_scale(m * h, 1, 2, 52, DOUBLE_INFINITY as nat);
    } else {
        lemma_pow2_unfold((1 - s) as nat);
        if s == 0 {
            assert(m * 1 == m);
        }
    }
}

/// `value` limited to `low..=high`.
pub open spec fn clamped(value: int, low: int, high: int) -> int {
    if value < low {
        low
    } else if value > high {
        high
    } else {
        value
    }
}

impl Double {
    /// The integer of `low..=high` that a cast gives: truncated towards zero and saturated, a
    /// NaN going to zero.
    pub open spec fn cast(self, low: int, high: int) -> int {
        if self.nan() {
            0
        } else if self.infinite() {
            if self.negative() {
                low
            } else {
                high
            }
        } else {
            clamped(self.truncated(), low, high)
        }
    }

    /// The double that stands for `value`, rounded to nearest.
    pub fn from_integer(value: i64) -> (r: Double)
        ensures
            r == double_of_int(value as int),
    {
        if value == 0 {
            return Double::assemble(false, 0);
        }
        let m: u128 = if value < 0 { (-(value as i128)) as u128 } else { value as u128 };
        let magnitude: u64 = round_scaled(m, 1074, 52, DOUBLE_INFINITY);
        Double::assemble(value < 0, magnitude)
    }

    /// Casts to an integer of `low..=high`.
    pub fn to_integer(self, low: i64, high: i64) -> (r: i64)
        requires
            low <= 0 <= high,
        ensures
            r == self.cast(low as int, high as int),
    {
        let magnitude: u64 = self.bits % DOUBLE_SIGN;
        let negative = self.bits >= DOUBLE_SIGN;
        if magnitude > DOUBLE_INFINITY {
            return 0;
        }
        if magnitude == DOUBLE_INFINITY {
            return if negative { low } else { high };
        }
        let whole: u64 = self.whole_part();
        if negative {
            if (whole as i128) > -(low as i128) {
                low
            } else {
                (-(whole as i128)) as i64
            }
        } else if (whole as i128) > high as i128 {
            high
        } else {
            whole as i64
        }
    }

    /// The integer part of the absolute value, or `2^63` when it is larger.
    fn whole_part(self) -> (r: u64)
        requires
            self.finite(),
        ensures
            self.whole() < 0x8000_0000_0000_0000 ==> r == self.whole(),
            self.whole() >= 0x8000_0000_0000_0000 ==> r == 0x8000_0000_0000_0000,
    {
        let (m, k) = self.split();
        proof {
            lemma_significand_bounds(self);
            lemma2_to64();
            lemma2_to64_rest();
        }
        if k < 1074 {
            let drop: u32 = 1074 - k;
            proof {
                lemma_pow2_adds(k as nat, drop as nat);
                lemma_pow2_pos(k as nat);
                lemma_pow2_pos(drop as nat);
                lemma_div_multiples_vanish_quotient(
                    pow2(k as nat) as int,
                    m as int,
                    pow2(drop as nat) as int,
                );
                lemma_mul_is_commutative(m as int, pow2(k as nat) as int);
            }
            if drop > 63 {
                proof {
                    lemma_pow2_strictly_increases(63, drop as nat);
                    lemma_basic_div(m as int, pow2(drop as nat) as int);
                }
                return 0;
            }
            proof {
                lemma_u64_shr_is_div(m, drop as u64);
                lemma_div_nonincreasing(m as int, pow2(drop as nat) as int);
            }
            m >> drop
        } else {
            let up: u32 = k - 1074;
            proof {
                lemma_pow2_adds(up as nat, 1074);
                lemma_pow2_pos(1074);
                assert(m * (pow2(up as nat) * pow2(1074)) == pow2(1074) * (m * pow2(up as nat)))
                    by (nonlinear_arith);
                lemma_div_multiples_vanish(m * pow2(up as nat), pow2(1074) as int);
            }
            if up > 10 {
                proof {
                    if up > 11 {
                        lemma_pow2_strictly_increases(11, up as nat);
                    }
                    assert(m * pow2(up as nat) >= 0x8000_0000_0000_0000) by (nonlinear_arith)
                        requires
                            m >= 0x10_0000_0000_0000,
                            pow2(up as nat) >= 2048,
                    ;
                }
                return 0x8000_0000_0000_0000;
            }
            let d: u128 = power(up);
            proof {
                if up < 10 {
                    lemma_pow2_strictly_increases(up as nat, 10);
                }
                assert(m * d < 0x8000_0000_0000_0000) by (nonlinear_arith)
                    requires
                        m < 0x20_0000_0000_0000,
                        d <= 1024,
                ;
            }
            ((m as u128) * d) as u64
        }
    }
}

/// The single with this sign and these magnitude bits.
pub open spec fn single_of(negative: bool, magnitude: nat) -> Single {
    Single { bits: (magnitude + if negative { SINGLE_SIGN as nat } else { 0 }) as u32 }
}

impl Single {
    /// Exponent and fraction bits.
    pub open spec fn magnitude(self) -> nat {
        (self.bits % SINGLE_SIGN) as nat
    }

    /// Whether the sign bit is set.
    pub open spec fn negative(self) -> bool {
        self.bits >= SINGLE_SIGN
    }

    pub open spec fn finite(self) -> bool {
        self.magnitude() < SINGLE_INFINITY
    }

    pub open spec fn nan(self) -> bool {
        self.magnitude() > SINGLE_INFINITY
    }

    /// The significand with its implicit bit.
    pub open spec fn significand(self) -> nat {
        if self.magnitude() < SINGLE_IMPLICIT {
            self.magnitude()
        } else {
            (SINGLE_IMPLICIT + self.magnitude() % (SINGLE_IMPLICIT as nat)) as nat
        }
    }

    /// The power of two that the significand is multiplied by, in units of `2^-149`.
    pub open spec fn exponent(self) -> nat {
        if self.magnitude() < SINGLE_IMPLICIT {
            0
        } else {
            (self.magnitude() / (SINGLE_IMPLICIT as nat) - 1) as nat
        }
    }

    /// The absolute value of a finite single in units of `2^-149`.
    pub open spec fn size(self) -> nat {
        self.significand() * pow2(self.exponent())
    }

    /// The double of the same value. A NaN keeps its sign and payload and becomes quiet.
    pub open spec fn widened(self) -> Double {
        let magnitude = self.magnitude();
        if self.nan() {
            let fraction = (magnitude - SINGLE_INFINITY) as nat;
            let quiet: nat = if fraction < 0x40_0000 {
                0x8_0000_0000_0000
            } else {
                0
            };
            double_of(self.negative(), (DOUBLE_INFINITY + fraction * 0x2000_0000 + quiet) as nat)
        } else if magnitude == SINGLE_INFINITY {
            double_of(self.negative(), DOUBLE_INFINITY as nat)
        } else {
            double_near(self.negative(), self.size() * pow2(925), 1)
        }
    }

    /// Promotes to double precision.
    pub fn widen(self) -> (r: Double)
        ensures
            r == self.widened(),
    {
        let magnitude: u32 = self.bits % SINGLE_SIGN;
        let negative = self.bits >= SINGLE_SIGN;
        if magnitude > SINGLE_INFINITY {
            let fraction: u64 = (magnitude - SINGLE_INFINITY) as u64;
            let quiet: u64 = if fraction < 0x40_0000 { 0x8_0000_0000_0000 } else { 0 };
            return Double::assemble(negative, DOUBLE_INFINITY + fraction * 0x2000_0000 + quiet);
        }
        if magnitude == SINGLE_INFINITY {
            return Double::assemble(negative, DOUBLE_INFINITY);
        }
        if magnitude == 0 {
            proof {
                rounding::lemma_round_zero(1, 52, DOUBLE_INFINITY as nat);
                assert(self.significand() == 0);
                assert(0 * pow2(self.exponent()) == 0) by (nonlinear_arith);
                assert(0 * pow2(925) == 0) by (nonlinear_arith);
            }
            return Double::assemble(negative, 0);
        }
        let (m, k): (u32, u32) = if magnitude < SINGLE_IMPLICIT {
            (magnitude, 0)
        } else {
            (SINGLE_IMPLICIT + magnitude % SINGLE_IMPLICIT, magnitude / SINGLE_IMPLICIT - 1)
        };
        proof {
            lemma_pow2_adds(k as nat, 925);
            assert((m * pow2(k as nat)) * pow2(925) == m * (pow2(k as nat) * pow2(925)))
                by (nonlinear_arith);
        }
        let wide: u64 = round_scaled(m as u128, k as i32 + 925, 52, DOUBLE_INFINITY);
        Double::assemble(negative, wide)
    }
}

impl Double {
    /// The single nearest to this double. A NaN keeps its sign and the top of its payload.
    pub open spec fn narrowed(self) -> Single {
        let magnitude = self.magnitude();
        if self.nan() {
            let fraction = (magnitude - DOUBLE_INFINITY) as nat / 0x2000_0000;
            let quiet: nat = if fraction < 0x40_0000 {
                0x40_0000
            } else {
                0
            };
            single_of(self.negative(), (SINGLE_INFINITY + fraction + quiet) as nat)
        } else if self.infinite() {
            single_of(self.negative(), SINGLE_INFINITY as nat)
        } else {
            single_of(
                self.negative(),
                rounding::round_magnitude(self.size(), pow2(925), 23, SINGLE_INFINITY as nat),
            )
        }
    }

    /// Rounds to single precision.
    pub fn narrow(self) -> (r: Single)
        ensures
            r == self.narrowed(),
    {
        let magnitude: u64 = self.bits % DOUBLE_SIGN;
        let negative = self.bits >= DOUBLE_SIGN;
        if magnitude > DOUBLE_INFINITY {
            let fraction: u32 = ((magnitude - DOUBLE_INFINITY) / 0x2000_0000) as u32;
            let quiet: u32 = if fraction < 0x40_0000 { 0x40_0000 } else { 0 };
            return Single::assemble(negative, SINGLE_INFINITY + fraction + quiet);
        }
        if magnitude == DOUBLE_INFINITY {
            return Single::assemble(negative, SINGLE_INFINITY);
        }
        proof {
            lemma2_to64();
            lemma_pow2_pos(925);
        }
        if magnitude == 0 {
            proof {
                lemma_pow2_pos(24);
                assert(0 < pow2(925) * pow2(24)) by (nonlinear_arith)
                    requires
                        pow2(925) > 0,
                        pow2(24) > 0,
                ;
                assert(rounding::quantum(0, pow2(925), 23) == 0);
                lemma_significand_bounds(self);
                assert(pow2(925) * pow2(0) == pow2(925));
                lemma_div_of0(pow2(925) as int);
                lemma_small_mod(0, pow2(925));
            }
            return Single::assemble(negative, 0);
        }
        let (m, k) = self.split();
        proof {
            lemma_significand_bounds(self);
            lemma_narrowing(m as nat, k as nat);
        }
        let short: u64 = round_scaled(m as u128, k as i32 - 925, 23, SINGLE_INFINITY as u64);
        Single::assemble(negative, short as u32)
    }
}

proof fn lemma_narrowing(m: nat, k: nat)
    ensures
        rounding::scaled_magnitude(m, k - 925, 23, SINGLE_INFINITY as nat)
            == rounding::round_magnitude(m * pow2(k), pow2(925), 23, SINGLE_INFINITY as nat),
{
    lemma_pow2_pos(925);
    lemma_pow2_pos(k);
    if k >= 925 {
        let u = (k - 925) as nat;
        lemma_pow2_adds(u, 925);
        assert((m * pow2(u)) * pow2(925) == m * (pow2(u) * pow2(925))) by (nonlinear_arith);
        rounding::lemma_round_scale(m * pow2(u), 1, pow2(925), 23, SINGLE_INFINITY as nat);
    } else {
        let d = (925 - k) as nat;
        lemma_pow2_pos(d);
        lemma_pow2_adds(d, k);
        rounding::lemma_round_scale(m, pow2(d), pow2(k), 23, SINGLE_INFINITY as nat);
    }
}

/// What was promoted from single precision stays as it is there.
pub proof fn lemma_widened_stays(x: Single)
    ensures
        x.widened().narrowed().widened() == x.widened(),
{
    if x.finite() {
        lemma_widen_exact(x);
    }
}

/// A number that is not below one of single precision is not rounded to one that is.
pub proof fn lemma_narrow_above(r: Double, t: Single)
    requires
        r.finite(),
        t.finite(),
        t.widened().units() <= r.units(),
    ensures
        !r.narrowed().widened().below(t.widened()),
{
    let q = pow2(925);
    lemma_pow2_pos(925);
    lemma_widen_exact(t);
    let a = t.widened();
    let s = r.narrowed();
    let m = rounding::round_magnitude(r.size(), q, 23, SINGLE_INFINITY as nat);
    let k = rounding::round_magnitude(a.size(), q, 23, SINGLE_INFINITY as nat);
    lemma_zero_size(a);
    lemma_zero_size(r);
    assert(a.narrowed() == t);
    assert(t.magnitude() == k);
    assert(s.magnitude() == m);
    if r.size() <= a.size() {
        assert(r.size() * q <= a.size() * q) by (nonlinear_arith)
            requires
                r.size() <= a.size(),
        ;
        rounding::lemma_round_monotone(r.size(), q, a.size(), q, 23, SINGLE_INFINITY as nat);
    }
    if a.size() <= r.size() {
        assert(a.size() * q <= r.size() * q) by (nonlinear_arith)
            requires
                a.size() <= r.size(),
        ;
        rounding::lemma_round_monotone(a.size(), q, r.size(), q, 23, SINGLE_INFINITY as nat);
    }
    if s.finite() {
        lemma_widen_exact(s);
        let u = s.widened();
        lemma_zero_size(u);
        lemma_order(u, a);
        if u.below(a) {
            if u.size() <= a.size() {
                assert(u.size() * q <= a.size() * q) by (nonlinear_arith)
                    requires
                        u.size() <= a.size(),
                ;
                rounding::lemma_round_monotone(
                    u.size(),
                    q,
                    a.size(),
                    q,
                    23,
                    SINGLE_INFINITY as nat,
                );
            }
            if a.size() <= u.size() {
                assert(a.size() * q <= u.size() * q) by (nonlinear_arith)
                    requires
                        a.size() <= u.size(),
                ;
                rounding::lemma_round_monotone(
                    a.size(),
                    q,
                    u.size(),
                    q,
                    23,
                    SINGLE_INFINITY as nat,
                );
            }
        }
    }
}

/// A number that is not above one of single precision is not rounded to one that is.
pub proof fn lemma_narrow_below(r: Double, t: Single)
    requires
        r.finite(),
        t.finite(),
        r.units() <= t.widened().units(),
    ensures
        !r.narrowed().nan(),
        !t.widened().below(r.narrowed().widened()),
{
    let q = pow2(925);
    lemma_pow2_pos(925);
    lemma_widen_exact(t);
    let a = t.widened();
    let s = r.narrowed();
    let m = rounding::round_magnitude(r.size(), q, 23, SINGLE_INFINITY as nat);
    let k = rounding::round_magnitude(a.size(), q, 23, SINGLE_INFINITY as nat);
    lemma_zero_size(a);
    lemma_zero_size(r);
    assert(a.narrowed() == t);
    assert(t.magnitude() == k);
    assert(s.magnitude() == m);
    if r.size() <= a.size() {
        assert(r.size() * q <= a.size() * q) by (nonlinear_arith)
            requires
                r.size() <= a.size(),
        ;
        rounding::lemma_round_monotone(r.size(), q, a.size(), q, 23, SINGLE_INFINITY as nat);
    }
    if a.size() <= r.size() {
        assert(a.size() * q <= r.size() * q) by (nonlinear_arith)
            requires
                a.size() <= r.size(),
        ;
        rounding::lemma_round_monotone(a.size(), q, r.size(), q, 23, SINGLE_INFINITY as nat);
    }
    if s.finite() {
        lemma_widen_exact(s);
        let u = s.widened();
        lemma_zero_size(u);
        lemma_order(a, u);
        if a.below(u) {
            if u.size() <= a.size() {
                assert(u.size() * q <= a.size() * q) by (nonlinear_arith)
                    requires
                        u.size() <= a.size(),
                ;
                rounding::lemma_round_monotone(
                    u.size(),
                    q,
                    a.size(),
                    q,
                    23,
                    SINGLE_INFINITY as nat,
                );
            }
            if a.size() <= u.size() {
                assert(a.size() * q <= u.size() * q) by (nonlinear_arith)
                    requires
                        a.size() <= u.size(),
                ;
                rounding::lemma_round_monotone(
                    a.size(),
                    q,
                    u.size(),
                    q,
                    23,
                    SINGLE_INFINITY as nat,
                );
            }
        }
    }
}

/// The value of a single by its significand and exponent.
pub proof fn lemma_single_size_of(negative: bool, n: nat, k: nat)
    requires
        n < 0x100_0000,
        k == 0 || n >= 0x80_0000,
        k <= 253,
    ensures
        single_of(negative, k * (SINGLE_IMPLICIT as nat) + n).finite(),
        single_of(negative, k * (SINGLE_IMPLICIT as nat) + n).negative() == negative,
        single_of(negative, k * (SINGLE_IMPLICIT as nat) + n).size() == n * pow2(k),
{
    let s = single_of(negative, k * (SINGLE_IMPLICIT as nat) + n);
    assert(s.magnitude() == k * SINGLE_IMPLICIT + n);
    lemma2_to64();
}

impl Single {
    /// Whether the number is neither infinite nor NaN.
    pub fn is_finite(self) -> (r: bool)
        ensures
            r == self.finite(),
    {
        self.bits % SINGLE_SIGN < SINGLE_INFINITY
    }

    fn assemble(negative: bool, magnitude: u32) -> (r: Single)
        requires
            magnitude < SINGLE_SIGN,
        ensures
            r == single_of(negative, magnitude as nat),
    {
        Single { bits: if negative { magnitude + SINGLE_SIGN } else { magnitude } }
    }
}

impl Double {
    /// The absolute value of a finite double rounded to an integer, halves upwards.
    pub open spec fn rounded_size(self) -> nat {
        (2 * self.size() + pow2(1074)) / pow2(1075)
    }

    /// The level of `0..=high` nearest to the number; a NaN goes to zero.
    pub open spec fn level(self, high: u32) -> nat {
        if self.nan() || self.negative() {
            0
        } else if self.infinite() || self.rounded_size() > high {
            high as nat
        } else {
            self.rounded_size()
        }
    }

    /// The least integer that is not below a finite double.
    pub open spec fn ceiling(self) -> int {
        if self.negative() {
            -(self.whole() as int)
        } else if self.integral() {
            self.whole() as int
        } else {
            self.whole() as int + 1
        }
    }

    /// The ceiling, where it is a positive 32-bit number.
    pub open spec fn positive_ceiling(self) -> Option<u32> {
        if self.finite() && 1 <= self.ceiling() <= u32::MAX {
            Some(self.ceiling() as u32)
        } else {
            None
        }
    }

    /// The greatest integer that is not above a finite, non-negative double.
    pub open spec fn floored(self) -> Double {
        if self.exponent() >= 1074 {
            self
        } else {
            double_of_int(self.whole() as int)
        }
    }

    /// The nearest level of `0..=high`.
    pub fn to_level(self, high: u32) -> (r: u32)
        ensures
            r == self.level(high),
    {
        let magnitude: u64 = self.bits % DOUBLE_SIGN;
        if magnitude > DOUBLE_INFINITY || self.bits >= DOUBLE_SIGN {
            return 0;
        }
        if magnitude == DOUBLE_INFINITY {
            return high;
        }
        let (m, k) = self.split();
        proof {
            lemma_significand_bounds(self);
            lemma2_to64();
            lemma2_to64_rest();
            lemma_pow2_unfold(1075);
            lemma_pow2_pos(1074);
        }
        if k >= 1074 {
            proof {
                let up = (k - 1074) as nat;
                lemma_pow2_adds(up, 1074);
                lemma_pow2_pos(up);
                let n = m * pow2(up);
                let w = pow2(1074);
                assert(self.size() == n * w) by (nonlinear_arith)
                    requires
                        self.size() == m * (pow2(up) * w),
                        n == m * pow2(up),
                ;
                assert(n >= m) by (nonlinear_arith)
                    requires
                        n == m * pow2(up),
                        pow2(up) >= 1,
                ;
                assert(2 * (n * w) + w == n * (2 * w) + w) by (nonlinear_arith);
                lemma_fundamental_div_mod_converse(
                    (2 * self.size() + w) as int,
                    (2 * w) as int,
                    n,
                    w as int,
                );
            }
            return high;
        }
        let drop: u32 = 1074 - k;
        proof {
            lemma_rounded_scale(m as nat, k as nat, drop as nat);
        }
        if drop > 60 {
            proof {
                if drop > 61 {
                    lemma_pow2_strictly_increases(61, drop as nat);
                }
                lemma_pow2_unfold((drop + 1) as nat);
                lemma_basic_div((2 * m + pow2(drop as nat)) as int, pow2((drop + 1) as nat) as int);
            }
            return 0;
        }
        let half: u128 = power(drop);
        let d: u128 = power(drop + 1);
        proof {
            if drop < 60 {
                lemma_pow2_strictly_increases(drop as nat, 60);
                lemma_pow2_strictly_increases((drop + 1) as nat, 61);
            }
            lemma_pow2_pos((drop + 1) as nat);
        }
        let n: u128 = (2 * (m as u128) + half) / d;
        if n > high as u128 {
            high
        } else {
            n as u32
        }
    }

    /// The ceiling, where it is a positive 32-bit number.
    pub fn ceil_level(self) -> (r: Option<u32>)
        ensures
            r == self.positive_ceiling(),
    {
        if !self.is_finite() || self.bits >= DOUBLE_SIGN {
            return None;
        }
        let whole: u64 = self.whole_part();
        if whole > 0xffff_ffff {
            return None;
        }
        let exact = self.is_integral();
        if exact {
            if whole == 0 {
                None
            } else {
                Some(whole as u32)
            }
        } else if whole == 0xffff_ffff {
            None
        } else {
            Some((whole + 1) as u32)
        }
    }

    /// Whether a finite double is an integer.
    pub fn is_integral(self) -> (r: bool)
        requires
            self.finite(),
        ensures
            r == self.integral(),
    {
        let (m, k) = self.split();
        proof {
            lemma_significand_bounds(self);
            lemma2_to64();
            lemma2_to64_rest();
            lemma_pow2_pos(1074);
        }
        if k >= 1074 {
            proof {
                let up = (k - 1074) as nat;
                lemma_pow2_adds(up, 1074);
                assert(m * (pow2(up) * pow2(1074)) == (m * pow2(up)) * pow2(1074))
                    by (nonlinear_arith);
                lemma_mod_multiples_basic(m * pow2(up), pow2(1074) as int);
            }
            return true;
        }
        let drop: u32 = 1074 - k;
        proof {
            let w = pow2(k as nat);
            let d = pow2(drop as nat);
            lemma_pow2_adds(k as nat, drop as nat);
            lemma_pow2_pos(k as nat);
            lemma_pow2_pos(drop as nat);
            lemma_fundamental_div_mod(m as int, d as int);
            let q = m as nat / d;
            let r = m as nat % d;
            assert(self.size() == q * (w * d) + r * w) by (nonlinear_arith)
                requires
                    self.size() == m * w,
                    m == d * q + r,
            ;
            assert(0 <= r * w < w * d) by (nonlinear_arith)
                requires
                    0 <= r,
                    r < d,
                    w > 0,
            ;
            lemma_fundamental_div_mod_converse(
                self.size() as int,
                (w * d) as int,
                q as int,
                (r * w) as int,
            );
            assert(r * w == 0 <==> r == 0) by (nonlinear_arith)
                requires
                    w > 0,
                    r >= 0,
            ;
        }
        if drop > 60 {
            proof {
                lemma_pow2_strictly_increases(60, drop as nat);
                lemma_small_mod(m as nat, pow2(drop as nat));
            }
            return m == 0;
        }
        let d: u128 = power(drop);
        proof {
            lemma_pow2_pos(drop as nat);
        }
        (m as u128) % d == 0
    }

    /// The greatest integer that is not above a finite, non-negative double.
    pub fn floor(self) -> (r: Double)
        requires
            self.finite(),
        ensures
            r == self.floored(),
    {
        let (_, k) = self.split();
        if k >= 1074 {
            return self;
        }
        proof {
            lemma_significand_bounds(self);
            lemma2_to64_rest();
            // Below 2^53 the integer part is small.
            let m = self.significand();
            lemma_pow2_adds(k as nat, (1074 - k) as nat);
            lemma_pow2_pos(k as nat);
            lemma_pow2_pos((1074 - k) as nat);
            lemma_div_multiples_vanish_quotient(
                pow2(k as nat) as int,
                m as int,
                pow2((1074 - k) as nat) as int,
            );
            lemma_mul_is_commutative(m as int, pow2(k as nat) as int);
            lemma_div_nonincreasing(m as int, pow2((1074 - k) as nat) as int);
        }
        let whole: u64 = self.whole_part();
        Double::from_integer(whole as i64)
    }
}

proof fn lemma_rounded_scale(m: nat, k: nat, drop: nat)
    requires
        k + drop == 1074,
    ensures
        (2 * (m * pow2(k)) + pow2(1074)) / pow2(1075) == (2 * m + pow2(drop)) / pow2(drop + 1),
{
    lemma_pow2_adds(k, drop);
    lemma_pow2_adds(k, drop + 1);
    lemma_pow2_pos(k);
    lemma_pow2_pos(drop + 1);
    assert(2 * (m * pow2(k)) + pow2(k) * pow2(drop) == pow2(k) * (2 * m + pow2(drop)))
        by (nonlinear_arith);
    lemma_div_multiples_vanish_quotient(
        pow2(k) as int,
        (2 * m + pow2(drop)) as int,
        pow2(drop + 1) as int,
    );
}

/// An integer is its own rounding and its own ceiling.
pub proof fn lemma_int_levels(value: int)
    requires
        0 <= value < 0x20_0000_0000_0000,
    ensures
        double_of_int(value).rounded_size() == value,
        double_of_int(value).ceiling() == value,
{
    lemma_int_exact(value);
    let w = pow2(1074);
    lemma_pow2_unfold(1075);
    lemma_pow2_pos(1074);
    let v = value as nat;
    assert(2 * (v * w) + w == v * (2 * w) + w) by (nonlinear_arith);
    lemma_fundamental_div_mod_converse((2 * (v * w) + w) as int, (2 * w) as int, v as int, w as int);
}

/// A significand with its exponent, rounded, is itself.
proof fn lemma_round_exact(n: nat, k: nat, fraction: nat, infinity: nat)
    requires
        n < pow2(fraction + 1),
        k == 0 || n >= pow2(fraction),
        k * pow2(fraction) + n < infinity,
    ensures
        rounding::round_magnitude(n * pow2(k), 1, fraction, infinity) == k * pow2(fraction) + n,
{
    let w = pow2(k);
    lemma_pow2_pos(k);
    lemma_pow2_adds(k, fraction + 1);
    lemma_pow2_adds(k, fraction);
    assert(n * w < w * pow2(fraction + 1)) by (nonlinear_arith)
        requires
            n < pow2(fraction + 1),
            w > 0,
    ;
    if k > 0 {
        assert(n * w >= w * pow2(fraction)) by (nonlinear_arith)
            requires
                n >= pow2(fraction),
        ;
    }
    rounding::lemma_quantum_unique(n * w, 1, fraction, k);
    rounding::lemma_nearest_scale(n, 1, w);
}

/// Every finite double is the double nearest to its own value.
pub proof fn lemma_double_exact(d: Double)
    requires
        d.finite(),
    ensures
        double_near(d.negative(), d.size(), 1) == d,
{
    lemma_significand_bounds(d);
    lemma2_to64();
    lemma2_to64_rest();
    lemma_round_exact(d.significand(), d.exponent(), 52, DOUBLE_INFINITY as nat);
    lemma_double_whole(d);
}

/// A magnitude put together from exponent and significand has that value.
pub proof fn lemma_size_of(negative: bool, n: nat, k: nat)
    requires
        n < 0x20_0000_0000_0000,
        k == 0 || n >= 0x10_0000_0000_0000,
        k <= 2045,
    ensures
        double_of(negative, k * (DOUBLE_IMPLICIT as nat) + n).finite(),
        double_of(negative, k * (DOUBLE_IMPLICIT as nat) + n).negative() == negative,
        double_of(negative, k * (DOUBLE_IMPLICIT as nat) + n).size() == n * pow2(k),
{
    let d = double_of(negative, k * (DOUBLE_IMPLICIT as nat) + n);
    assert(d.magnitude() == k * DOUBLE_IMPLICIT + n);
    lemma2_to64();
}

proof fn lemma_top_bit(v: nat) -> (l: nat)
    requires
        v > 0,
    ensures
        pow2(l) <= v < pow2(l + 1),
    decreases v,
{
    lemma2_to64();
    if v == 1 {
        0
    } else {
        let l = lemma_top_bit(v / 2);
        lemma_pow2_unfold(l + 1);
        lemma_pow2_unfold(l + 2);
        l + 1
    }
}

/// An integer of at most 53 bits has a double of exactly its value.
pub proof fn lemma_int_exact(value: int)
    requires
        abs_nat(value) < 0x20_0000_0000_0000,
    ensures
        double_of_int(value).finite(),
        double_of_int(value).units() == value * pow2(1074),
        double_of_int(value).negative() == (value < 0),
        double_of_int(value).size() == abs_nat(value) * pow2(1074),
        double_of_int(value).integral(),
        double_of_int(value).whole() == abs_nat(value),
        double_of_int(value).truncated() == value,
        double_of_int(value).zero() <==> value == 0,
{
    let v = abs_nat(value);
    let d = double_of_int(value);
    let w = pow2(1074);
    lemma_pow2_pos(1074);
    lemma2_to64();
    lemma2_to64_rest();
    if value == 0 {
        assert(d.size() == 0 * pow2(0));
        assert(0 * w == 0) by (nonlinear_arith);
        lemma_div_of0(w as int);
        lemma_small_mod(0, w);
    } else {
        let l = lemma_top_bit(v);
        if l > 52 {
            if l > 53 {
                lemma_pow2_strictly_increases(53, l);
            }
        }
        let up = (52 - l) as nat;
        let n = v * pow2(up);
        let k = (1074 - up) as nat;
        lemma_pow2_adds(l, up);
        lemma_pow2_adds(l + 1, up);
        lemma_pow2_pos(up);
        assert(0x10_0000_0000_0000 <= n < 0x20_0000_0000_0000) by (nonlinear_arith)
            requires
                n == v * pow2(up),
                pow2(l) <= v,
                v < pow2(l + 1),
                pow2(l) * pow2(up) == 0x10_0000_0000_0000,
                pow2(l + 1) * pow2(up) == 0x20_0000_0000_0000,
                pow2(up) > 0,
        ;
        lemma_pow2_adds(up, k);
        assert(v * w == n * pow2(k)) by (nonlinear_arith)
            requires
                n == v * pow2(up),
                w == pow2(up) * pow2(k),
        ;
        lemma_round_exact(n, k, 52, DOUBLE_INFINITY as nat);
        lemma_size_of(value < 0, n, k);
        lemma_significand_bounds(d);
        assert(d.size() == v * w);
        assert(value < 0 ==> -(v * w) == value * w) by (nonlinear_arith)
            requires
                value < 0 ==> v == -value,
        ;
        lemma_div_multiples_vanish(v as int, w as int);
        lemma_mul_is_commutative(v as int, w as int);
        lemma_mod_multiples_basic(v as int, w as int);
    }
}

/// Sums of integers are exact.
pub proof fn lemma_int_sum(a: int, b: int)
    requires
        abs_nat(a) < 0x20_0000_0000_0000,
        abs_nat(b) < 0x20_0000_0000_0000,
    ensures
        double_of_int(a).sum(double_of_int(b)) == double_of_int(a + b),
{
    lemma_int_exact(a);
    lemma_int_exact(b);
    let w = pow2(1074);
    lemma_pow2_pos(1074);
    assert(a * w + b * w == (a + b) * w) by (nonlinear_arith);
    assert((a + b) * w == 0 <==> a + b == 0) by (nonlinear_arith)
        requires
            w > 0,
    ;
    assert((a + b) * w < 0 <==> a + b < 0) by (nonlinear_arith)
        requires
            w > 0,
    ;
    assert(-((a + b) * w) == (-(a + b)) * w) by (nonlinear_arith);
}

/// Differences of integers are exact.
pub proof fn lemma_int_difference(a: int, b: int)
    requires
        abs_nat(a) < 0x20_0000_0000_0000,
        abs_nat(b) < 0x20_0000_0000_0000,
    ensures
        double_of_int(a).difference(double_of_int(b)) == double_of_int(a - b),
{
    lemma_int_exact(a);
    lemma_int_exact(b);
    let x = double_of_int(a);
    let y = double_of_int(b);
    let z = y.opposite();
    assert(z.magnitude() == y.magnitude() && z.negative() == !y.negative());
    assert(z.size() == y.size());
    let w = pow2(1074);
    lemma_pow2_pos(1074);
    assert(a * w - b * w == (a - b) * w) by (nonlinear_arith);
    assert((a - b) * w == 0 <==> a - b == 0) by (nonlinear_arith)
        requires
            w > 0,
    ;
    assert((a - b) * w < 0 <==> a - b < 0) by (nonlinear_arith)
        requires
            w > 0,
    ;
    assert(-((a - b) * w) == (-(a - b)) * w) by (nonlinear_arith);
    assert(b * w == 0 <==> b == 0) by (nonlinear_arith)
        requires
            w > 0,
    ;
}

/// Products of integers are exact.
pub proof fn lemma_int_product(a: int, b: int)
    requires
        0 <= a < 0x20_0000_0000_0000,
        0 <= b < 0x20_0000_0000_0000,
    ensures
        double_of_int(a).product(double_of_int(b)) == double_of_int(a * b),
{
    lemma_int_exact(a);
    lemma_int_exact(b);
    let w = pow2(1074);
    lemma_pow2_pos(1074);
    if a == 0 || b == 0 {
        assert(a * b == 0) by (nonlinear_arith)
            requires
                a == 0 || b == 0,
        ;
    } else {
        assert(a * b > 0) by (nonlinear_arith)
            requires
                a > 0,
                b > 0,
        ;
        let p = (a * b) as nat;
        let an = a as nat;
        let bn = b as nat;
        assert((an * w) * (bn * w) == (p * w) * w) by (nonlinear_arith)
            requires
                p == an * bn,
        ;
        rounding::lemma_round_scale(p * w, 1, w, 52, DOUBLE_INFINITY as nat);
    }
}

proof fn lemma_size_order(a: Double, b: Double)
    requires
        a.finite(),
        b.finite(),
        a.magnitude() < b.magnitude(),
    ensures
        a.size() < b.size(),
{
    lemma_significand_bounds(a);
    lemma_significand_bounds(b);
    let ka = a.exponent();
    let kb = b.exponent();
    lemma_pow2_pos(ka);
    if ka == kb {
        assert(a.significand() * pow2(ka) < b.significand() * pow2(ka)) by (nonlinear_arith)
            requires
                a.significand() < b.significand(),
                pow2(ka) > 0,
        ;
    } else {
        lemma_pow2_unfold(kb);
        if ka < kb - 1 {
            lemma_pow2_strictly_increases(ka, (kb - 1) as nat);
        }
        let h = pow2((kb - 1) as nat);
        assert(a.significand() * pow2(ka) < b.significand() * (2 * h)) by (nonlinear_arith)
            requires
                a.significand() < 0x20_0000_0000_0000,
                b.significand() >= 0x10_0000_0000_0000,
                0 < pow2(ka),
                pow2(ka) <= h,
        ;
    }
}

/// The order of doubles is the order of the numbers that they stand for.
pub proof fn lemma_order(a: Double, b: Double)
    requires
        a.finite(),
        b.finite(),
    ensures
        a.below(b) <==> a.units() < b.units(),
        a.same(b) <==> a.units() == b.units(),
{
    lemma_significand_bounds(a);
    lemma_significand_bounds(b);
    if a.magnitude() < b.magnitude() {
        lemma_size_order(a, b);
    }
    if b.magnitude() < a.magnitude() {
        lemma_size_order(b, a);
    }
    if a.magnitude() == b.magnitude() {
        assert(a.size() == b.size());
    }
}

/// Integers keep their order and their identity as doubles.
pub proof fn lemma_int_order(a: int, b: int)
    requires
        abs_nat(a) < 0x20_0000_0000_0000,
        abs_nat(b) < 0x20_0000_0000_0000,
    ensures
        double_of_int(a).below(double_of_int(b)) <==> a < b,
        double_of_int(a).same(double_of_int(b)) <==> a == b,
        double_of_int(a) == double_of_int(b) <==> a == b,
{
    lemma_int_exact(a);
    lemma_int_exact(b);
    lemma_order(double_of_int(a), double_of_int(b));
    let w = pow2(1074);
    lemma_pow2_pos(1074);
    assert(a * w < b * w <==> a < b) by (nonlinear_arith)
        requires
            w > 0,
    ;
    assert(a * w == b * w <==> a == b) by (nonlinear_arith)
        requires
            w > 0,
    ;
}

/// A single keeps its value when widened, and narrowing gives it back.
pub proof fn lemma_widen_exact(x: Single)
    requires
        x.finite(),
    ensures
        x.widened().finite(),
        x.widened().negative() == x.negative(),
        x.widened().size() == x.size() * pow2(925),
        x.widened().narrowed() == x,
{
    let m = x.significand();
    let k = x.exponent();
    assert(x.magnitude() == k * SINGLE_IMPLICIT + m);
    assert(m < 0x100_0000 && (k > 0 ==> m >= 0x80_0000) && k <= 253);
    lemma2_to64();
    lemma2_to64_rest();
    lemma_pow2_pos(925);
    let w = pow2(925);
    assert(x.size() * w == m * (pow2(k) * w)) by (nonlinear_arith)
        requires
            x.size() == m * pow2(k),
    ;
    lemma_pow2_adds(k, 925);
    let d = x.widened();
    if m == 0 {
        assert(0 * pow2(k) == 0 && 0 * w == 0) by (nonlinear_arith);
        assert(rounding::quantum(0, 1, 52) == 0);
        assert(d == double_of(x.negative(), 0));
        assert(d.size() == 0 * pow2(0));
    } else {
        let l = lemma_top_bit(m);
        if l > 23 {
            if l > 24 {
                lemma_pow2_strictly_increases(24, l);
            }
        }
        let up = (52 - l) as nat;
        let n = m * pow2(up);
        let e = (k + 925 - up) as nat;
        lemma_pow2_adds(l, up);
        lemma_pow2_adds(l + 1, up);
        lemma_pow2_pos(up);
        assert(0x10_0000_0000_0000 <= n < 0x20_0000_0000_0000) by (nonlinear_arith)
            requires
                n == m * pow2(up),
                pow2(l) <= m,
                m < pow2(l + 1),
                pow2(l) * pow2(up) == 0x10_0000_0000_0000,
                pow2(l + 1) * pow2(up) == 0x20_0000_0000_0000,
                pow2(up) > 0,
        ;
        lemma_pow2_adds(up, e);
        assert(m * pow2(k + 925) == n * pow2(e)) by (nonlinear_arith)
            requires
                n == m * pow2(up),
                pow2(k + 925) == pow2(up) * pow2(e),
        ;
        lemma_round_exact(n, e, 52, DOUBLE_INFINITY as nat);
        lemma_size_of(x.negative(), n, e);
    }
    rounding::lemma_round_scale(x.size(), 1, w, 23, SINGLE_INFINITY as nat);
    lemma_round_exact(m, k, 23, SINGLE_INFINITY as nat);
}

/// An integer of at most 24 bits keeps its value in single precision.
pub proof fn lemma_int_single(n: nat)
    requires
        n < 0x100_0000,
    ensures
        double_of_int(n as int).narrowed().finite(),
        double_of_int(n as int).narrowed().widened() == double_of_int(n as int),
{
    let d = double_of_int(n as int);
    lemma_int_exact(n as int);
    if n == 0 {
        lemma2_to64();
        lemma_narrow_zero(d);
        let z = d.narrowed();
        assert(0 * pow2(1074) == 0) by (nonlinear_arith);
        lemma_zero_size(d);
        assert(d.zero());
        lemma_pow2_pos(925);
        rounding::lemma_round_zero(pow2(925), 23, SINGLE_INFINITY as nat);
        assert(d.size() == 0);
        assert(z.magnitude() == 0);
        lemma_widen_exact(z);
        lemma_double_whole(z.widened());
        lemma_double_whole(d);
    } else {
        lemma2_to64();
        let l = lemma_top_bit(n);
        if l > 23 {
            if l > 24 {
                lemma_pow2_strictly_increases(24, l);
            }
        }
        let up = (23 - l) as nat;
        let m = n * pow2(up);
        let k = (126 + l) as nat;
        lemma_pow2_adds(l, up);
        lemma_pow2_adds(l + 1, up);
        lemma_pow2_pos(up);
        assert(0x80_0000 <= m < 0x100_0000) by (nonlinear_arith)
            requires
                m == n * pow2(up),
                pow2(l) <= n,
                n < pow2(l + 1),
                pow2(l) * pow2(up) == 0x80_0000,
                pow2(l + 1) * pow2(up) == 0x100_0000,
                pow2(up) > 0,
        ;
        let x = single_of(false, k * (SINGLE_IMPLICIT as nat) + m);
        lemma_single_size_of(false, m, k);
        lemma_widen_exact(x);
        lemma_pow2_adds(up, k);
        lemma_pow2_adds(149, 925);
        assert(m * pow2(k) * pow2(925) == n * pow2(1074)) by (nonlinear_arith)
            requires
                m == n * pow2(up),
                pow2(up) * pow2(k) == pow2(149),
                pow2(149) * pow2(925) == pow2(1074),
        ;
        lemma_size_monotone(x.widened(), d);
        lemma_double_whole(x.widened());
        lemma_double_whole(d);
        assert(x.widened() == d);
    }
}

/// The integer part of a double is finite.
pub proof fn lemma_floored_finite(d: Double)
    requires
        d.finite(),
    ensures
        d.floored().finite(),
{
    if d.exponent() < 1074 {
        lemma_significand_bounds(d);
        lemma2_to64();
        lemma2_to64_rest();
        lemma_pow2_pos(d.exponent());
        lemma_pow2_strictly_increases(d.exponent(), 1074);
        let (m, a, b) = (d.significand(), pow2(d.exponent()), pow2(1074));
        assert(m * a < b * 0x20_0000_0000_0000) by (nonlinear_arith)
            requires
                m < 0x20_0000_0000_0000,
                0 < a,
                a < b,
        ;
        lemma_multiply_divide_lt((m * a) as int, b as int, 0x20_0000_0000_0000);
        lemma_int_exact(d.whole() as int);
    }
}

/// A number of at most 53 bits times a power of two is a double.
pub proof fn lemma_dyadic_exact(m: nat, e: nat)
    requires
        m < 0x20_0000_0000_0000,
        e <= 1074,
    ensures
        double_near(false, m * pow2(e), 1).finite(),
        !double_near(false, m * pow2(e), 1).negative(),
        double_near(false, m * pow2(e), 1).size() == m * pow2(e),
{
    lemma2_to64();
    lemma2_to64_rest();
    let d = double_near(false, m * pow2(e), 1);
    if m == 0 {
        assert(0 * pow2(e) == 0) by (nonlinear_arith);
        lemma_round_exact(0, 0, 52, DOUBLE_INFINITY as nat);
        assert(0 * pow2(0) == 0) by (nonlinear_arith);
        lemma_size_of(false, 0, 0);
    } else {
        let l = lemma_top_bit(m);
        if l > 52 {
            if l > 53 {
                lemma_pow2_strictly_increases(53, l);
            }
        }
        let up: nat = if 52 - l <= e {
            (52 - l) as nat
        } else {
            e
        };
        let n = m * pow2(up);
        let k = (e - up) as nat;
        lemma_pow2_adds(l, up);
        lemma_pow2_adds(l + 1, up);
        lemma_pow2_pos(up);
        assert(pow2(l + up) <= n < pow2(l + 1 + up)) by (nonlinear_arith)
            requires
                n == m * pow2(up),
                pow2(l) <= m,
                m < pow2(l + 1),
                pow2(l) * pow2(up) == pow2(l + up),
                pow2(l + 1) * pow2(up) == pow2(l + 1 + up),
                pow2(up) > 0,
        ;
        if l + 1 + up < 53 {
            lemma_pow2_strictly_increases(l + 1 + up, 53);
        }
        lemma_pow2_adds(up, k);
        assert(m * pow2(e) == n * pow2(k)) by (nonlinear_arith)
            requires
                n == m * pow2(up),
                pow2(e) == pow2(up) * pow2(k),
        ;
        assert(k == 0 || n >= 0x10_0000_0000_0000);
        lemma_round_exact(n, k, 52, DOUBLE_INFINITY as nat);
        lemma_size_of(false, n, k);
    }
}

/// A rounded fraction lies on the same side of a double as the fraction.
pub proof fn lemma_near_order(p: nat, q: nat, r: Double)
    requires
        q > 0,
        r.finite(),
    ensures
        p <= r.size() * q ==> double_near(false, p, q).magnitude() <= r.magnitude(),
        p >= r.size() * q ==> double_near(false, p, q).magnitude() >= r.magnitude(),
{
    lemma_double_exact(r);
    lemma_double_parts(
        r.negative(),
        rounding::round_magnitude(r.size(), 1, 52, DOUBLE_INFINITY as nat),
    );
    assert(p * 1 == p) by (nonlinear_arith);
    if p <= r.size() * q {
        rounding::lemma_round_monotone(p, q, r.size(), 1, 52, DOUBLE_INFINITY as nat);
    }
    if p >= r.size() * q {
        rounding::lemma_round_monotone(r.size(), 1, p, q, 52, DOUBLE_INFINITY as nat);
    }
}

/// The order of magnitudes is the order of sizes.
pub proof fn lemma_size_monotone(a: Double, b: Double)
    requires
        a.finite(),
        b.finite(),
    ensures
        a.magnitude() <= b.magnitude() <==> a.size() <= b.size(),
        a.magnitude() == b.magnitude() <==> a.size() == b.size(),
{
    if a.magnitude() < b.magnitude() {
        lemma_size_order(a, b);
    }
    if b.magnitude() < a.magnitude() {
        lemma_size_order(b, a);
    }
}

/// The quotient of two integers lies on the same side of a multiple of one half as the
/// fraction.
proof fn lemma_half_order(x: nat, s: nat, h: nat)
    requires
        0 < x < 0x4_0000_0000,
        0 < s < 0x400_0000_0000,
        h < 0x10_0000_0000,
        h * s < 0x4_0000_0000_0000,
    ensures
        ({
            let d = double_of_int(x as int).quotient(double_of_int(s as int));
            &&& d.finite()
            &&& !d.negative()
            &&& 2 * x <= h * s ==> 2 * d.size() <= h * pow2(1074)
            &&& 2 * x >= h * s ==> 2 * d.size() >= h * pow2(1074)
            &&& 2 * x < h * s ==> 2 * d.size() < h * pow2(1074)
            &&& 2 * x > h * s ==> 2 * d.size() > h * pow2(1074)
        }),
{
    let w = pow2(1074);
    lemma_pow2_pos(1074);
    lemma_int_exact(x as int);
    lemma_int_exact(s as int);
    let a = double_of_int(x as int);
    let b = double_of_int(s as int);
    let d = a.quotient(b);
    let (p, q) = (a.size() * w, b.size());
    assert(q > 0) by (nonlinear_arith)
        requires
            q == s * w,
            s > 0,
            w > 0,
    ;
    assert(a.size() > 0) by (nonlinear_arith)
        requires
            a.size() == x * w,
            x > 0,
            w > 0,
    ;
    assert(d == double_near(false, p, q));
    // A bound that is a double keeps the quotient finite.
    let top = double_near(false, x * w, 1);
    lemma_dyadic_exact(x, 1074);
    assert(p <= top.size() * q) by (nonlinear_arith)
        requires
            p == (x * w) * w,
            q == s * w,
            top.size() == x * w,
            s >= 1,
            w > 0,
    ;
    lemma_near_order(p, q, top);
    lemma_double_parts(false, rounding::round_magnitude(p, q, 52, DOUBLE_INFINITY as nat));
    assert(d.finite() && !d.negative());
    // The multiple of one half.
    lemma_pow2_unfold(1074);
    let v = pow2(1073);
    let r = double_near(false, h * v, 1);
    lemma_dyadic_exact(h, 1073);
    lemma_near_order(p, q, r);
    lemma_size_monotone(d, r);
    assert(2 * (h * v) == h * w) by (nonlinear_arith)
        requires
            w == 2 * v,
    ;
    assert(r.size() * q == (h * s) * (v * w) && p == (2 * x) * (v * w)) by (nonlinear_arith)
        requires
            r.size() == h * v,
            q == s * w,
            p == (x * w) * w,
            w == 2 * v,
    ;
    assert(v * w > 0) by (nonlinear_arith)
        requires
            w == 2 * v,
            w > 0,
    ;
    assert(2 * x <= h * s ==> p <= r.size() * q) by (nonlinear_arith)
        requires
            r.size() * q == (h * s) * (v * w),
            p == (2 * x) * (v * w),
            v * w > 0,
    ;
    assert(2 * x >= h * s ==> p >= r.size() * q) by (nonlinear_arith)
        requires
            r.size() * q == (h * s) * (v * w),
            p == (2 * x) * (v * w),
            v * w > 0,
    ;
    if 2 * x != h * s {
        // A double strictly between the fraction and the multiple of one half.
        let t = lemma_top_bit(2 * s) + 1;
        lemma_pow2_unfold(t);
        lemma2_to64();
        lemma2_to64_rest();
        if t > 44 {
            lemma_pow2_strictly_increases(44, t);
        }
        let c = pow2(t);
        let e = (1074 - t) as nat;
        lemma_pow2_adds(t, e);
        lemma_pow2_unfold(t);
        let c2 = pow2((t - 1) as nat);
        let u = pow2(e);
        lemma_pow2_pos(e);
        assert(h * c2 < 0x8_0000_0000_0000) by (nonlinear_arith)
            requires
                h * s < 0x4_0000_0000_0000,
                c2 <= 2 * s,
        ;
        assert(h * v == (h * c2) * u) by (nonlinear_arith)
            requires
                w == c * u,
                c == 2 * c2,
                w == 2 * v,
        ;
        if 2 * x < h * s {
            let m = (h * c2 - 1) as nat;
            assert(h * c2 >= 1) by (nonlinear_arith)
                requires
                    h * s >= 1,
                    c2 >= s,
            ;
            assert(2 * c2 * x <= m * s) by (nonlinear_arith)
                requires
                    2 * x + 1 <= h * s,
                    c2 >= s,
                    m == h * c2 - 1,
            ;
            let z = double_near(false, m * u, 1);
            lemma_dyadic_exact(m, e);
            lemma_near_order(p, q, z);
            lemma_size_monotone(d, z);
            assert(p <= z.size() * q) by (nonlinear_arith)
                requires
                    p == (x * w) * w,
                    z.size() == m * u,
                    q == s * w,
                    w == (2 * c2) * u,
                    2 * c2 * x <= m * s,
                    w > 0,
            ;
            assert(m * u < (h * c2) * u) by (nonlinear_arith)
                requires
                    m < h * c2,
                    u > 0,
            ;
        } else {
            let m = h * c2 + 1;
            assert(2 * c2 * x >= m * s) by (nonlinear_arith)
                requires
                    2 * x >= h * s + 1,
                    c2 >= s,
                    m == h * c2 + 1,
            ;
            let z = double_near(false, m * u, 1);
            lemma_dyadic_exact(m, e);
            lemma_near_order(p, q, z);
            lemma_size_monotone(d, z);
            assert(p >= z.size() * q) by (nonlinear_arith)
                requires
                    p == (x * w) * w,
                    z.size() == m * u,
                    q == s * w,
                    w == (2 * c2) * u,
                    2 * c2 * x >= m * s,
                    w > 0,
            ;
            assert(m * u > (h * c2) * u) by (nonlinear_arith)
                requires
                    m > h * c2,
                    u > 0,
            ;
        }
    }
}

/// Dividing integers: the quotient rounds, is rounded up and compares as the fraction does.
pub proof fn lemma_int_quotient(x: nat, s: nat, j: nat)
    requires
        x < 0x4_0000_0000,
        0 < s < 0x400_0000_0000,
        j < 0x8_0000_0000,
        j * s < 0x1_0000_0000_0000,
    ensures
        ({
            let d = double_of_int(x as int).quotient(double_of_int(s as int));
            &&& d.finite()
            &&& !d.negative()
            &&& d.rounded_size() == (2 * x + s) / (2 * s)
            &&& d.ceiling() == (x + s - 1) / (s as int)
            &&& double_of_int(j as int).below(d) <==> j * s < x
        }),
{
    let w = pow2(1074);
    lemma_pow2_pos(1074);
    lemma_pow2_unfold(1075);
    lemma_int_exact(x as int);
    lemma_int_exact(s as int);
    lemma_int_exact(j as int);
    let d = double_of_int(x as int).quotient(double_of_int(s as int));
    assert(j * s >= 0) by (nonlinear_arith);
    if x == 0 {
        assert(d == double_of(false, 0));
        assert(d.size() == 0 * pow2(0));
        assert(0 * pow2(0) == 0) by (nonlinear_arith);
        lemma_small_mod(0, w);
        lemma_div_of0(w as int);
        assert((2 * 0 + w) / (2 * w) == 0) by {
            lemma_basic_div(w as int, (2 * w) as int);
        }
        assert((2 * x + s) / (2 * s) == 0) by {
            lemma_basic_div(s as int, (2 * s) as int);
        }
        assert((x + s - 1) / (s as int) == 0) by {
            lemma_basic_div((s - 1) as int, s as int);
        }
        lemma_order(double_of_int(j as int), d);
        assert(j * w >= 0) by (nonlinear_arith);
    } else {
        // Rounding to the nearest integer, halves upwards.
        let n = (2 * x + s) / (2 * s);
        lemma_fundamental_div_mod((2 * x + s) as int, (2 * s) as int);
        let rem = (2 * x + s) % (2 * s);
        assert((2 * n) * s <= 2 * x + s && 2 * x + s < (2 * n + 2) * s) by (nonlinear_arith)
            requires
                2 * x + s == (2 * s) * n + rem,
                0 <= rem < 2 * s,
        ;
        assert((2 * n + 1) * s == (2 * n) * s + s && (2 * n + 2) * s == (2 * n) * s + 2 * s)
            by (nonlinear_arith);
        assert(n <= x + 1) by (nonlinear_arith)
            requires
                (2 * n) * s <= 2 * x + s,
                s >= 1,
                x >= 0,
        ;
        lemma_half_order(x, s, 2 * n + 1);
        if n > 0 {
            let h = (2 * n - 1) as nat;
            assert(h * s == (2 * n) * s - s) by (nonlinear_arith)
                requires
                    h == 2 * n - 1,
            ;
            lemma_half_order(x, s, h);
            assert(h * w == (2 * n) * w - w) by (nonlinear_arith)
                requires
                    h == 2 * n - 1,
            ;
        }
        assert((2 * n + 1) * w == (2 * n) * w + w && (2 * n) * w == n * (2 * w)) by (nonlinear_arith);
        let size = d.size();
        assert(n * (2 * w) <= 2 * size + w) by (nonlinear_arith)
            requires
                n == 0 || 2 * size >= (2 * n) * w - w,
                (2 * n) * w == n * (2 * w),
                w > 0,
                size >= 0,
        ;
        lemma_fundamental_div_mod_converse(
            (2 * size + w) as int,
            (2 * w) as int,
            n as int,
            (2 * size + w - n * (2 * w)) as int,
        );
        // Rounding up.
        let c = ((x + s - 1) / (s as int)) as nat;
        lemma_fundamental_div_mod(x + s - 1, s as int);
        let r2 = (x + s - 1) % (s as int);
        assert(c * s >= x && (c - 1) * s < x && c >= 1) by (nonlinear_arith)
            requires
                x + s - 1 == s * c + r2,
                0 <= r2 < s,
                x >= 1,
        ;
        assert(c <= x + 1) by (nonlinear_arith)
            requires
                (c - 1) * s < x,
                s >= 1,
        ;
        assert((2 * c) * s == 2 * (c * s) && (2 * (c - 1)) * s == 2 * ((c - 1) * s) && c * s
            == (c - 1) * s + s) by (nonlinear_arith);
        lemma_half_order(x, s, 2 * c);
        lemma_half_order(x, s, (2 * (c - 1)) as nat);
        let c1 = (c - 1) as nat;
        assert((2 * c) * w == 2 * (c * w) && (2 * c1) * w == 2 * (c1 * w) && c * w == c1 * w + w)
            by (nonlinear_arith)
            requires
                c1 == c - 1,
        ;
        assert(c1 * w < size <= c * w);
        if size == c * w {
            lemma_div_multiples_vanish(c as int, w as int);
            lemma_mod_multiples_basic(c as int, w as int);
            lemma_mul_is_commutative(c as int, w as int);
        } else {
            lemma_fundamental_div_mod_converse(
                size as int,
                w as int,
                c1 as int,
                (size - c1 * w) as int,
            );
        }
        // Comparing with an integer.
        assert((2 * j) * s == 2 * (j * s) && (2 * j) * w == 2 * (j * w)) by (nonlinear_arith);
        lemma_half_order(x, s, 2 * j);
        lemma_order(double_of_int(j as int), d);
    }
}

/// Zero truncates to zero.
pub proof fn lemma_zero_truncates(d: Double)
    requires
        d.zero(),
    ensures
        d.truncated() == 0,
{
    assert(d.size() == 0 * pow2(0));
    assert(0 * pow2(0) == 0) by (nonlinear_arith);
    lemma_pow2_pos(1074);
    lemma_div_of0(pow2(1074) as int);
}

/// Only finite singles widen to finite doubles.
pub proof fn lemma_widen_finite(x: Single)
    requires
        x.widened().finite(),
    ensures
        x.finite(),
{
}

/// Zeros stay zero in either precision.
pub proof fn lemma_narrow_zero(d: Double)
    requires
        d.zero(),
    ensures
        d.narrowed().widened().zero(),
        (Single { bits: 0 }).widened().zero(),
{
    assert(d.size() == 0 * pow2(0));
    assert(0 * pow2(0) == 0) by (nonlinear_arith);
    lemma2_to64();
    lemma2_to64_rest();
    lemma_pow2_pos(925);
    rounding::lemma_round_zero(pow2(925), 23, SINGLE_INFINITY as nat);
    lemma_widened_zero(d.narrowed());
    lemma_widened_zero(Single { bits: 0 });
}

proof fn lemma_widened_zero(x: Single)
    requires
        x.magnitude() == 0,
    ensures
        x.widened().zero(),
{
    rounding::lemma_round_zero(1, 52, DOUBLE_INFINITY as nat);
    assert(x.significand() == 0);
    assert(0 * pow2(x.exponent()) == 0) by (nonlinear_arith);
    assert(0 * pow2(925) == 0) by (nonlinear_arith);
}

/// The floor of a non-negative number is a whole number no larger than it.
pub proof fn lemma_floored(d: Double)
    requires
        d.finite(),
        !d.below(Double { bits: 0 }),
    ensures
        d.floored().finite(),
        !d.floored().negative(),
        d.floored().integral(),
        d.floored().whole() == d.whole(),
        d.floored().size() <= d.size(),
{
    lemma_floored_finite(d);
    lemma_significand_bounds(d);
    let b = pow2(1074);
    lemma_pow2_pos(1074);
    if d.exponent() < 1074 {
        lemma2_to64();
        lemma2_to64_rest();
        lemma_pow2_pos(d.exponent());
        lemma_pow2_strictly_increases(d.exponent(), 1074);
        let (m, a) = (d.significand(), pow2(d.exponent()));
        assert(m * a < b * 0x20_0000_0000_0000) by (nonlinear_arith)
            requires
                m < 0x20_0000_0000_0000,
                0 < a,
                a < b,
        ;
        lemma_multiply_divide_lt((m * a) as int, b as int, 0x20_0000_0000_0000);
        lemma_int_exact(d.whole() as int);
        lemma_fundamental_div_mod(d.size() as int, b as int);
        lemma_mul_is_commutative(d.whole() as int, b as int);
    } else {
        let e = (d.exponent() - 1074) as nat;
        lemma_pow2_adds(e, 1074);
        let (m, f) = (d.significand(), pow2(e));
        assert(m * (f * b) == (m * f) * b) by (nonlinear_arith);
        lemma_mod_multiples_basic((m * f) as int, b as int);
    }
}

/// A number is zero exactly if it has no size.
pub proof fn lemma_zero_size(d: Double)
    ensures
        d.zero() <==> d.size() == 0,
{
    lemma_pow2_pos(d.exponent());
    assert(d.significand() == 0 <==> d.size() == 0) by (nonlinear_arith)
        requires
            d.size() == d.significand() * pow2(d.exponent()),
            pow2(d.exponent()) > 0,
    ;
}

} // verus!
