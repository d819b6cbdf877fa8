//! What the arithmetic of floating-point numbers gives: of all numbers of the format the one
//! nearest to the exact result.

use crate::float;
use crate::float::{Double, Single};
use crate::float_error;
use crate::rounding;
use vstd::arithmetic::div_mod::*;
use vstd::arithmetic::mul::*;
use vstd::arithmetic::power2::*;
use vstd::prelude::*;

verus! {

/// How far apart two integers are.
pub open spec fn apart(a: int, b: int) -> int {
    if a < b {
        b - a
    } else {
        a - b
    }
}

/// No multiple is nearer than the nearest one; of two equally near ones it is the even one.
proof fn lemma_multiple_best(p: nat, u: nat, m: nat)
    requires
        u > 0,
    ensures
        ({
            let n = rounding::nearest(p, u);
            &&& apart((n * u) as int, p as int) <= apart((m * u) as int, p as int)
            &&& n != m && apart((n * u) as int, p as int) == apart((m * u) as int, p as int) ==> n % 2 == 0
        }),
{
    let f = p / u;
    let r = p % u;
    lemma_fundamental_div_mod(p as int, u as int);
    lemma_mul_is_commutative(f as int, u as int);
    assert((f + 1) * u == f * u + u) by (nonlinear_arith);
    if m < f {
        assert(m * u + u <= f * u) by (nonlinear_arith)
            requires
                m + 1 <= f,
        ;
    }
    if m > f + 1 {
        assert(m * u >= f * u + 2 * u) by (nonlinear_arith)
            requires
                m >= f + 2,
        ;
    }
}

/// No number with so short a significand is nearer to a ratio than the rounded one.
proof fn lemma_best(p: nat, q: nat, fraction: nat, m: nat, e: nat)
    requires
        q > 0,
        fraction > 0,
        m < pow2(fraction + 1),
    ensures
        ({
            let k = rounding::quantum(p, q, fraction);
            let n = rounding::nearest(p, q * pow2(k));
            let size = n * pow2(k);
            let other = m * pow2(e);
            &&& apart((size * q) as int, p as int) <= apart((other * q) as int, p as int)
            &&& size != other && apart((size * q) as int, p as int) == apart((other * q) as int, p as int) ==> n % 2
                == 0
        }),
{
    let k = rounding::quantum(p, q, fraction);
    let u = q * pow2(k);
    let n = rounding::nearest(p, u);
    lemma_pow2_pos(k);
    lemma_pow2_pos(e);
    assert(u > 0) by (nonlinear_arith)
        requires
            q > 0,
            pow2(k) > 0,
            u == q * pow2(k),
    ;
    assert(n * pow2(k) * q == n * u) by (nonlinear_arith)
        requires
            u == q * pow2(k),
    ;
    rounding::lemma_quantum_bounds(p, q, fraction);
    if e >= k {
        let w = pow2((e - k) as nat);
        lemma_pow2_adds(k, (e - k) as nat);
        let c = m * w;
        assert(m * pow2(e) == c * pow2(k) && m * pow2(e) * q == c * u) by (nonlinear_arith)
            requires
                pow2(e) == pow2(k) * w,
                c == m * w,
                u == q * pow2(k),
        ;
        lemma_multiple_best(p, u, c);
    } else {
        let h = pow2(fraction);
        lemma_pow2_unfold(fraction + 1);
        lemma_pow2_adds(k, fraction);
        lemma_pow2_adds(e, (k - e) as nat);
        lemma_pow2_unfold((k - e) as nat);
        let w = pow2((k - e - 1) as nat);
        lemma_pow2_pos((k - e - 1) as nat);
        assert(m * pow2(e) * q < h * u) by (nonlinear_arith)
            requires
                m < 2 * h,
                pow2(k) == pow2(e) * (2 * w),
                w >= 1,
                u == q * pow2(k),
                q > 0,
                pow2(e) > 0,
        ;
        assert(q * (pow2(k) * h) == h * u) by (nonlinear_arith)
            requires
                u == q * pow2(k),
        ;
        lemma_multiple_best(p, u, h);
    }
}

/// Whether a double is the one nearest to `t / q` units: no other is nearer, and where another
/// is as near, its last bit is zero.
pub open spec fn is_nearest(r: Double, t: int, q: int, other: Double) -> bool {
    &&& apart(r.units() * q, t) <= apart(other.units() * q, t)
    &&& r.units() != other.units() && apart(r.units() * q, t) == apart(other.units() * q, t)
        ==> r.bits % 2 == 0
}

proof fn lemma_double_best(t: int, q: nat, other: Double)
    requires
        t != 0,
        q > 0,
        other.finite(),
        float::double_near(t < 0, float::abs_nat(t), q).finite(),
    ensures
        is_nearest(float::double_near(t < 0, float::abs_nat(t), q), t, q as int, other),
{
    let p = float::abs_nat(t);
    let r = float::double_near(t < 0, p, q);
    let k = rounding::quantum(p, q, 52);
    let n = rounding::nearest(p, q * pow2(k));
    lemma2_to64();
    lemma2_to64_rest();
    float_error::lemma_near_size(t < 0, p, q);
    float::lemma_significand_bounds(other);
    lemma_best(p, q, 52, other.significand(), other.exponent());
    float::lemma_double_parts(
        t < 0,
        rounding::round_magnitude(p, q, 52, float::DOUBLE_INFINITY as nat),
    );
    assert(r.magnitude() == k * pow2(52) + n);
    assert((k * pow2(52)) % 2 == 0) by {
        assert(k * pow2(52) == 2 * (k * 0x8_0000_0000_0000)) by (nonlinear_arith)
            requires
                pow2(52) == 0x10_0000_0000_0000,
        ;
    }
    assert(r.bits % 2 == 0 <==> n % 2 == 0);
    let (a, b) = (r.size() as int, other.size() as int);
    assert((-a) * q == -(a * q) && (-b) * q == -(b * q)) by (nonlinear_arith);
    assert(a * q >= 0 && b * q >= 0) by (nonlinear_arith)
        requires
            a >= 0,
            b >= 0,
            q > 0,
    ;
    if b > 0 {
        assert(b * q > 0) by (nonlinear_arith)
            requires
                b > 0,
                q > 0,
        ;
    }
}

proof fn lemma_zero_best(r: Double, q: nat, other: Double)
    requires
        r.finite(),
        r.zero(),
        q > 0,
        other.finite(),
    ensures
        is_nearest(r, 0, q as int, other),
{
    float::lemma_significand_bounds(r);
    float::lemma_significand_bounds(other);
    let b = other.units();
    assert(0 * q == 0) by (nonlinear_arith);
    assert(b != 0 ==> b * q != 0) by (nonlinear_arith)
        requires
            q > 0,
    ;
}

/// A sum is the double nearest to the exact sum.
pub proof fn law_sum_nearest(a: Double, b: Double, other: Double)
    requires
        a.finite(),
        b.finite(),
        a.sum(b).finite(),
        other.finite(),
    ensures
        is_nearest(a.sum(b), a.units() + b.units(), 1, other),
{
    let t = a.units() + b.units();
    if t == 0 {
        float::lemma_double_parts(a.negative() && b.negative(), 0);
        lemma_zero_best(a.sum(b), 1, other);
    } else {
        lemma_double_best(t, 1, other);
    }
}

/// A difference is the double nearest to the exact difference.
pub proof fn law_difference_nearest(a: Double, b: Double, other: Double)
    requires
        a.finite(),
        b.finite(),
        a.difference(b).finite(),
        other.finite(),
    ensures
        is_nearest(a.difference(b), a.units() - b.units(), 1, other),
{
    let c = b.opposite();
    float::lemma_double_parts(!b.negative(), b.magnitude());
    assert(c.size() == b.size());
    law_sum_nearest(a, c, other);
}

/// A product is the double nearest to the exact product. A unit is `2^-1074`.
pub proof fn law_product_nearest(a: Double, b: Double, other: Double)
    requires
        a.finite(),
        b.finite(),
        a.product(b).finite(),
        other.finite(),
    ensures
        is_nearest(a.product(b), a.units() * b.units(), pow2(1074) as int, other),
{
    let t = a.units() * b.units();
    let (x, y) = (a.size() as int, b.size() as int);
    lemma_pow2_pos(1074);
    float::lemma_significand_bounds(a);
    float::lemma_significand_bounds(b);
    assert((-x) * y == -(x * y) && x * (-y) == -(x * y) && (-x) * (-y) == x * y)
        by (nonlinear_arith);
    if a.zero() || b.zero() {
        assert(x * y == 0) by (nonlinear_arith)
            requires
                x == 0 || y == 0,
        ;
        float::lemma_double_parts(a.negative() != b.negative(), 0);
        lemma_zero_best(a.product(b), pow2(1074), other);
    } else {
        assert(x * y > 0) by (nonlinear_arith)
            requires
                x > 0,
                y > 0,
        ;
        lemma_double_best(t, pow2(1074), other);
    }
}

/// A quotient is the double nearest to the exact quotient.
pub proof fn law_quotient_nearest(a: Double, b: Double, other: Double)
    requires
        a.finite(),
        b.finite(),
        !b.zero(),
        a.quotient(b).finite(),
        other.finite(),
    ensures
        apart(a.quotient(b).units() * b.units(), a.units() * pow2(1074)) <= apart(
            other.units() * b.units(),
            a.units() * pow2(1074),
        ),
        a.quotient(b).units() != other.units() && apart(
            a.quotient(b).units() * b.units(),
            a.units() * pow2(1074),
        ) == apart(other.units() * b.units(), a.units() * pow2(1074)) ==> a.quotient(b).bits % 2
            == 0,
{
    let w = pow2(1074) as int;
    let r = a.quotient(b);
    let q = b.size();
    let x = a.size() as int;
    lemma_pow2_pos(1074);
    float::lemma_significand_bounds(a);
    float::lemma_significand_bounds(b);
    let t = if a.negative() != b.negative() {
        -(x * w)
    } else {
        x * w
    };
    if a.zero() {
        assert(x * w == 0) by (nonlinear_arith)
            requires
                x == 0,
        ;
        float::lemma_double_parts(a.negative() != b.negative(), 0);
        lemma_zero_best(r, q, other);
    } else {
        assert(x * w > 0) by (nonlinear_arith)
            requires
                x > 0,
                w > 0,
        ;
        lemma_double_best(t, q, other);
    }
    let (i, j) = (r.units(), other.units());
    assert(i * (-q) == -(i * q) && j * (-q) == -(j * q) && (-x) * w == -(x * w))
        by (nonlinear_arith);
}

/// Narrowing gives the single nearest to the double; where another is as near, its last bit is
/// zero. A unit of a single is `2^925` units of a double.
pub proof fn law_narrow_nearest(d: Double, other: Single)
    requires
        d.finite(),
        d.narrowed().finite(),
        other.finite(),
    ensures
        d.narrowed().negative() == d.negative(),
        apart((d.narrowed().size() * pow2(925)) as int, d.size() as int) <= apart((other.size() * pow2(925)) as int, d.size() as int),
        d.narrowed().size() != other.size() && apart((d.narrowed().size() * pow2(925)) as int, d.size() as int) == apart((other.size() * pow2(925)) as int, d.size() as int) ==> d.narrowed().bits % 2 == 0,
{
    let (p, q) = (d.size(), pow2(925));
    let k = rounding::quantum(p, q, 23);
    let n = rounding::nearest(p, q * pow2(k));
    lemma2_to64();
    lemma_pow2_pos(925);
    float_error::lemma_narrow_size(d);
    lemma_best(p, q, 23, other.significand(), other.exponent());
    let m = rounding::round_magnitude(p, q, 23, float::SINGLE_INFINITY as nat);
    assert(m == k * pow2(23) + n);
    assert((k * pow2(23)) % 2 == 0) by {
        assert(k * pow2(23) == 2 * (k * 0x40_0000)) by (nonlinear_arith)
            requires
                pow2(23) == 0x80_0000,
        ;
    }
}

/// A level is the nearest of those that there are; of two equally near ones it is the higher.
pub proof fn law_level_nearest(v: Double, high: u32, m: nat)
    requires
        v.finite(),
        !v.negative(),
        m <= high,
    ensures
        v.level(high) <= high,
        apart((v.level(high) * pow2(1074)) as int, v.units()) <= apart((m * pow2(1074)) as int, v.units()),
        m != v.level(high) && apart((v.level(high) * pow2(1074)) as int, v.units()) == apart((m * pow2(1074)) as int, v.units()) ==> m < v.level(high),
{
    let w = pow2(1074);
    let s = v.size();
    let n = v.rounded_size();
    let l = v.level(high);
    lemma_pow2_pos(1074);
    lemma_pow2_unfold(1075);
    lemma_fundamental_div_mod((2 * s + w) as int, 2 * w as int);
    lemma_mul_is_commutative((2 * w) as int, n as int);
    assert(n * (2 * w) == 2 * (n * w)) by (nonlinear_arith);
    if m < l {
        assert(m * w + w <= l * w) by (nonlinear_arith)
            requires
                m + 1 <= l,
        ;
        assert(l * w <= n * w) by (nonlinear_arith)
            requires
                l <= n,
        ;
    } else if m > l {
        assert(l == n);
        assert(m * w >= l * w + w) by (nonlinear_arith)
            requires
                m >= l + 1,
        ;
    }
}

/// A cast drops the fraction and keeps the sign; what lies outside the range goes to its end.
pub proof fn law_cast_truncates(v: Double, low: int, high: int)
    requires
        v.finite(),
        low <= 0 <= high,
    ensures
        v.units() < low * pow2(1074) ==> v.cast(low, high) == low,
        v.units() > high * pow2(1074) ==> v.cast(low, high) == high,
        low * pow2(1074) <= v.units() <= high * pow2(1074) ==> {
            let c = v.cast(low, high);
            &&& float::abs_nat(c) * pow2(1074) <= v.size() < (float::abs_nat(c) + 1) * pow2(1074)
            &&& c > 0 ==> v.units() > 0
            &&& c < 0 ==> v.units() < 0
        },
{
    let w = pow2(1074) as int;
    let n = v.whole() as int;
    lemma_pow2_pos(1074);
    lemma_fundamental_div_mod(v.size() as int, w);
    lemma_mul_is_commutative(w, n);
    assert((n + 1) * w == n * w + w) by (nonlinear_arith);
    assert(low < -n ==> low * w <= -(n * w) - w) by (nonlinear_arith)
        requires
            w > 0,
    ;
    assert(low > -n ==> low * w >= w - n * w) by (nonlinear_arith)
        requires
            w > 0,
    ;
    assert(high > n ==> high * w >= n * w + w) by (nonlinear_arith)
        requires
            w > 0,
    ;
    assert(high < n ==> high * w + w <= n * w) by (nonlinear_arith)
        requires
            w > 0,
    ;
    assert(low == -n ==> low * w == -(n * w)) by (nonlinear_arith);
    assert(n > 0 ==> n * w > 0) by (nonlinear_arith)
        requires
            w > 0,
    ;
    assert(low * w <= 0 && high * w >= 0) by (nonlinear_arith)
        requires
            low <= 0,
            high >= 0,
            w > 0,
    ;
}

/// The ceiling is the least integer that is not below a number.
pub proof fn law_ceiling_least(v: Double)
    requires
        v.finite(),
    ensures
        (v.ceiling() - 1) * pow2(1074) < v.units() <= v.ceiling() * pow2(1074),
{
    let w = pow2(1074) as int;
    let n = v.whole() as int;
    lemma_pow2_pos(1074);
    lemma_fundamental_div_mod(v.size() as int, w);
    lemma_mul_is_commutative(w, n);
    assert((n + 1) * w == n * w + w && (n - 1) * w == n * w - w && (-n) * w == -(n * w) && (-n - 1)
        * w == -(n * w) - w) by (nonlinear_arith);
}

/// The floor of a number that is not negative is the greatest integer that is not above it.
pub proof fn law_floor_greatest(v: Double)
    requires
        v.finite(),
        !v.negative(),
    ensures
        v.floored().finite(),
        v.floored().integral(),
        v.floored().units() <= v.units() < v.floored().units() + pow2(1074),
{
    let w = pow2(1074);
    let k = v.exponent();
    lemma_pow2_pos(1074);
    float::lemma_significand_bounds(v);
    if k >= 1074 {
        let c = pow2((k - 1074) as nat);
        lemma_pow2_adds((k - 1074) as nat, 1074);
        assert(v.size() == (v.significand() * c) * w) by (nonlinear_arith)
            requires
                v.size() == v.significand() * pow2(k),
                pow2(k) == c * w,
        ;
        lemma_mod_multiples_basic((v.significand() * c) as int, w as int);
    } else {
        let n = v.whole();
        lemma_fundamental_div_mod(v.size() as int, w as int);
        lemma_mul_is_commutative(w as int, n as int);
        lemma2_to64();
        lemma2_to64_rest();
        assert(n < 0x20_0000_0000_0000) by {
            let c = pow2((1074 - k) as nat);
            lemma_pow2_adds(k, (1074 - k) as nat);
            lemma_pow2_pos(k);
            lemma_pow2_pos((1074 - k) as nat);
            assert(n <= v.significand()) by (nonlinear_arith)
                requires
                    n * w <= v.significand() * pow2(k),
                    w == pow2(k) * c,
                    c >= 1,
                    pow2(k) > 0,
                    n >= 0,
            ;
        }
        float::lemma_int_exact(n as int);
    }
}

} // verus!
