//! How far the arithmetic of doubles is from exact arithmetic.

use crate::float;
use crate::float::Double;
use crate::rounding;
use vstd::arithmetic::div_mod::*;
use vstd::arithmetic::mul::*;
use vstd::arithmetic::power2::*;
use vstd::prelude::*;

verus! {

/// `2^53`: twice the reciprocal of the distance between neighbours of one.
pub const PRECISION: u64 = 0x20_0000_0000_0000;

/// Rounding to an integer is off by at most one half.
proof fn lemma_nearest_error(p: nat, q: nat)
    requires
        q > 0,
    ensures
        2 * (rounding::nearest(p, q) * q) <= 2 * p + q,
        2 * p <= 2 * (rounding::nearest(p, q) * q) + q,
        p % q == 0 ==> rounding::nearest(p, q) * q == p,
{
    lemma_fundamental_div_mod(p as int, q as int);
    let n = p / q;
    lemma_mul_is_commutative(n as int, q as int);
    assert((n + 1) * q == n * q + q) by (nonlinear_arith);
}

/// A finite result is the significand of the rounded ratio, shifted.
pub proof fn lemma_near_size(negative: bool, p: nat, q: nat)
    requires
        q > 0,
        float::double_near(negative, p, q).finite(),
    ensures
        ({
            let k = rounding::quantum(p, q, 52);
            let d = float::double_near(negative, p, q);
            &&& d.size() == rounding::nearest(p, q * pow2(k)) * pow2(k)
            &&& d.negative() == negative
        }),
{
    lemma2_to64();
    lemma2_to64_rest();
    let k = rounding::quantum(p, q, 52);
    let n = rounding::nearest(p, q * pow2(k));
    lemma_pow2_pos(k);
    assert(q * pow2(k) > 0) by (nonlinear_arith)
        requires
            q > 0,
            pow2(k) > 0,
    ;
    rounding::lemma_quantum_bounds(p, q, 52);
    let unit = q * pow2(k);
    lemma_pow2_adds(k, 53);
    lemma_pow2_adds(k, 52);
    assert(q * (pow2(k) * pow2(53)) == unit * pow2(53)) by (nonlinear_arith)
        requires
            unit == q * pow2(k),
    ;
    assert(q * (pow2(k) * pow2(52)) == unit * pow2(52)) by (nonlinear_arith)
        requires
            unit == q * pow2(k),
    ;
    lemma_fundamental_div_mod(p as int, unit as int);
    assert(p / unit < pow2(53)) by (nonlinear_arith)
        requires
            p < unit * pow2(53),
            p == unit * (p / unit) + p % unit,
            p % unit >= 0,
            unit > 0,
    ;
    if k > 0 {
        assert(p / unit >= pow2(52)) by (nonlinear_arith)
            requires
                p >= unit * pow2(52),
                p == unit * (p / unit) + p % unit,
                p % unit < unit,
                unit > 0,
        ;
    }
    let magnitude = k * pow2(52) + n;
    float::lemma_double_parts(
        negative,
        rounding::round_magnitude(p, q, 52, float::DOUBLE_INFINITY as nat),
    );
    assert(magnitude < float::DOUBLE_INFINITY);
    if n < 0x20_0000_0000_0000 {
        float::lemma_size_of(negative, n, k);
    } else {
        // the significand is carried into the next power of two
        assert(n == 0x20_0000_0000_0000);
        let up = k + 1;
        lemma_pow2_unfold(up);
        assert(magnitude == up * 0x10_0000_0000_0000 + 0x10_0000_0000_0000);
        float::lemma_size_of(negative, 0x10_0000_0000_0000, up);
        assert(0x10_0000_0000_0000 * (2 * pow2(k)) == n * pow2(k)) by (nonlinear_arith)
            requires
                n == 0x20_0000_0000_0000,
        ;
    }
}

/// How far a finite result is from the ratio that it was rounded from.
pub proof fn lemma_near_error(negative: bool, p: nat, q: nat)
    requires
        q > 0,
        float::double_near(negative, p, q).finite(),
    ensures
        ({
            let d = float::double_near(negative, p, q);
            let off = float::abs_nat(d.size() * q - p);
            &&& d.negative() == negative
            &&& PRECISION * off <= p + (PRECISION / 2) * q
            &&& p % q == 0 ==> PRECISION * off <= p
        }),
{
    lemma2_to64();
    lemma2_to64_rest();
    let k = rounding::quantum(p, q, 52);
    let d = float::double_near(negative, p, q);
    let unit = q * pow2(k);
    lemma_near_size(negative, p, q);
    lemma_pow2_pos(k);
    assert(unit > 0) by (nonlinear_arith)
        requires
            unit == q * pow2(k),
            q > 0,
            pow2(k) > 0,
    ;
    lemma_nearest_error(p, unit);
    let n = rounding::nearest(p, unit);
    assert(n * pow2(k) * q == n * unit) by (nonlinear_arith)
        requires
            unit == q * pow2(k),
    ;
    rounding::lemma_quantum_bounds(p, q, 52);
    if k > 0 {
        lemma_pow2_adds(k, 52);
        assert(q * (pow2(k) * pow2(52)) == unit * pow2(52)) by (nonlinear_arith)
            requires
                unit == q * pow2(k),
        ;
    } else {
        assert(q * pow2(0) == q) by (nonlinear_arith)
            requires
                pow2(0) == 1,
        ;
    }
}

/// A ratio that is no more than a finite double rounds to no more.
pub proof fn lemma_near_bounded(negative: bool, p: nat, q: nat, d: Double)
    requires
        q > 0,
        d.finite(),
        p <= d.size() * q,
    ensures
        float::double_near(negative, p, q).finite(),
        float::double_near(negative, p, q).magnitude() <= d.magnitude(),
        float::double_near(negative, p, q).size() <= d.size(),
        float::double_near(negative, p, q).negative() == negative,
{
    let infinity = float::DOUBLE_INFINITY as nat;
    assert(p * 1 <= d.size() * q);
    rounding::lemma_round_monotone(p, q, d.size(), 1, 52, infinity);
    float::lemma_double_exact(d);
    float::lemma_double_parts(d.negative(), rounding::round_magnitude(d.size(), 1, 52, infinity));
    float::lemma_double_parts(negative, rounding::round_magnitude(p, q, 52, infinity));
    float::lemma_size_monotone(float::double_near(negative, p, q), d);
}

/// How far a sum is from the exact one.
pub proof fn lemma_sum_error(a: Double, b: Double)
    requires
        a.finite(),
        b.finite(),
        a.sum(b).finite(),
    ensures
        PRECISION * float::abs_nat(a.sum(b).units() - (a.units() + b.units())) <= float::abs_nat(
            a.units() + b.units(),
        ),
{
    let total = a.units() + b.units();
    if total == 0 {
        let negative = a.negative() && b.negative();
        float::lemma_double_parts(negative, 0);
        let d = float::double_of(negative, 0);
        assert(d.significand() == 0);
        assert(d.size() == 0) by (nonlinear_arith)
            requires
                d.significand() == 0,
                d.size() == d.significand() * pow2(d.exponent()),
        ;
    } else {
        let p = float::abs_nat(total);
        lemma_near_error(total < 0, p, 1);
        let d = float::double_near(total < 0, p, 1);
        assert(d.size() * 1 == d.size());
        assert(p % 1 == 0);
    }
}

/// How far a difference is from the exact one.
pub proof fn lemma_difference_error(a: Double, b: Double)
    requires
        a.finite(),
        b.finite(),
        a.difference(b).finite(),
    ensures
        PRECISION * float::abs_nat(a.difference(b).units() - (a.units() - b.units()))
            <= float::abs_nat(a.units() - b.units()),
{
    let c = b.opposite();
    float::lemma_double_parts(!b.negative(), b.magnitude());
    assert(c.magnitude() == b.magnitude() && c.negative() == !b.negative());
    assert(c.size() == b.size());
    assert(c.units() == -b.units());
    lemma_sum_error(a, c);
}

/// How far a multiple is from the exact one.
pub proof fn lemma_multiple_error(level: nat, s: Double)
    requires
        level <= u32::MAX,
        s.finite(),
        !s.negative(),
        float::double_of_int(level as int).product(s).finite(),
    ensures
        ({
            let p = float::double_of_int(level as int).product(s);
            &&& !p.negative()
            &&& PRECISION * float::abs_nat(p.size() - level * s.size()) <= level * s.size()
        }),
{
    let w = pow2(1074);
    lemma_pow2_pos(1074);
    float::lemma_int_exact(level as int);
    let n = float::double_of_int(level as int);
    float::lemma_zero_size(s);
    if level == 0 || s.zero() {
        float::lemma_double_parts(false, 0);
        let d = float::double_of(false, 0);
        float::lemma_zero_size(d);
        assert(level * s.size() == 0) by (nonlinear_arith)
            requires
                level == 0 || s.size() == 0,
        ;
    } else {
        let e = level * s.size();
        let p = n.size() * s.size();
        assert(p == e * w) by (nonlinear_arith)
            requires
                p == n.size() * s.size(),
                n.size() == level * w,
                e == level * s.size(),
        ;
        lemma_near_error(false, p, w);
        lemma_mod_multiples_basic(e as int, w as int);
        let d = float::double_near(false, p, w);
        let off = float::abs_nat(d.size() - e);
        assert(float::abs_nat(d.size() * w - e * w) == off * w) by (nonlinear_arith)
            requires
                off == float::abs_nat(d.size() - e),
                w > 0,
        ;
        assert(PRECISION * off <= e) by (nonlinear_arith)
            requires
                PRECISION * (off * w) <= e * w,
                w > 0,
        ;
    }
}

/// How far a finite quotient is from the exact one.
pub proof fn lemma_quotient_error(a: Double, s: Double)
    requires
        a.finite(),
        s.finite(),
        !s.negative(),
        !s.zero(),
        !a.negative() || a.zero(),
        a.quotient(s).finite(),
    ensures
        ({
            let q = a.quotient(s);
            let off = float::abs_nat(q.size() * s.size() - a.size() * pow2(1074));
            &&& !q.negative() || q.zero()
            &&& PRECISION * off <= a.size() * pow2(1074) + (PRECISION / 2) * s.size()
        }),
{
    let w = pow2(1074);
    lemma_pow2_pos(1074);
    float::lemma_zero_size(a);
    float::lemma_zero_size(s);
    if a.zero() {
        let negative = a.negative() != s.negative();
        float::lemma_double_parts(negative, 0);
        float::lemma_zero_size(float::double_of(negative, 0));
        assert(0 * s.size() == 0 && 0 * w == 0) by (nonlinear_arith);
    } else {
        lemma_near_error(false, a.size() * w, s.size());
    }
}

/// A finite result of narrowing is the significand of the rounded size, shifted.
pub proof fn lemma_narrow_size(r: Double)
    requires
        r.finite(),
        r.narrowed().finite(),
    ensures
        ({
            let k = rounding::quantum(r.size(), pow2(925), 23);
            let s = r.narrowed();
            &&& s.size() == rounding::nearest(r.size(), pow2(925) * pow2(k)) * pow2(k)
            &&& s.negative() == r.negative()
        }),
{
    lemma2_to64();
    lemma2_to64_rest();
    let (p, q) = (r.size(), pow2(925));
    let k = rounding::quantum(p, q, 23);
    let unit = q * pow2(k);
    let n = rounding::nearest(p, unit);
    lemma_pow2_pos(925);
    lemma_pow2_pos(k);
    assert(unit > 0) by (nonlinear_arith)
        requires
            unit == q * pow2(k),
            q > 0,
            pow2(k) > 0,
    ;
    rounding::lemma_quantum_bounds(p, q, 23);
    lemma_pow2_adds(k, 24);
    lemma_pow2_adds(k, 23);
    assert(q * (pow2(k) * pow2(24)) == unit * pow2(24)) by (nonlinear_arith)
        requires
            unit == q * pow2(k),
    ;
    assert(q * (pow2(k) * pow2(23)) == unit * pow2(23)) by (nonlinear_arith)
        requires
            unit == q * pow2(k),
    ;
    lemma_fundamental_div_mod(p as int, unit as int);
    assert(p / unit < pow2(24)) by (nonlinear_arith)
        requires
            p < unit * pow2(24),
            p == unit * (p / unit) + p % unit,
            p % unit >= 0,
            unit > 0,
    ;
    if k > 0 {
        assert(p / unit >= pow2(23)) by (nonlinear_arith)
            requires
                p >= unit * pow2(23),
                p == unit * (p / unit) + p % unit,
                p % unit < unit,
                unit > 0,
        ;
    }
    let magnitude = k * pow2(23) + n;
    assert(r.narrowed().magnitude() == rounding::round_magnitude(
        p,
        q,
        23,
        float::SINGLE_INFINITY as nat,
    ));
    assert(magnitude < float::SINGLE_INFINITY);
    if n < 0x100_0000 {
        float::lemma_single_size_of(r.negative(), n, k);
    } else {
        assert(n == 0x100_0000);
        let up = k + 1;
        lemma_pow2_unfold(up);
        assert(magnitude == up * 0x80_0000 + 0x80_0000);
        float::lemma_single_size_of(r.negative(), 0x80_0000, up);
        assert(0x80_0000 * (2 * pow2(k)) == n * pow2(k)) by (nonlinear_arith)
            requires
                n == 0x100_0000,
        ;
    }
}

/// How far a single is from the double that it was narrowed from: no more than the part of its
/// size that the precision gives, or of the least normal single.
pub proof fn lemma_narrow_error(r: Double)
    requires
        r.finite(),
        r.narrowed().finite(),
    ensures
        r.narrowed().widened().finite(),
        0x100_0000 * float::abs_nat(r.narrowed().widened().units() - r.units()) <= r.size()
            + 0x80_0000 * pow2(925),
{
    lemma2_to64();
    lemma2_to64_rest();
    let (p, q) = (r.size(), pow2(925));
    let k = rounding::quantum(p, q, 23);
    let unit = q * pow2(k);
    let s = r.narrowed();
    lemma_narrow_size(r);
    float::lemma_widen_exact(s);
    lemma_pow2_pos(925);
    lemma_pow2_pos(k);
    assert(unit > 0) by (nonlinear_arith)
        requires
            unit == q * pow2(k),
            q > 0,
            pow2(k) > 0,
    ;
    lemma_nearest_error(p, unit);
    let n = rounding::nearest(p, unit);
    assert(n * pow2(k) * q == n * unit) by (nonlinear_arith)
        requires
            unit == q * pow2(k),
    ;
    rounding::lemma_quantum_bounds(p, q, 23);
    if k > 0 {
        lemma_pow2_adds(k, 23);
        assert(q * (pow2(k) * pow2(23)) == unit * pow2(23)) by (nonlinear_arith)
            requires
                unit == q * pow2(k),
        ;
    } else {
        assert(q * pow2(0) == q) by (nonlinear_arith)
            requires
                pow2(0) == 1,
        ;
    }
}

} // verus!
