//! What is read back of floating-point samples that are stored with an error bound.

use crate::float;
use crate::float::{Double, Single};
use crate::float_error;
use crate::rounding;
use crate::stuffed;
use crate::tile_laws;
use crate::tile_plan;
use vstd::arithmetic::div_mod::*;
use vstd::arithmetic::mul::*;
use vstd::arithmetic::power2::*;
use vstd::prelude::*;

verus! {

/// `2^48`: how many times the rounding of a reconstruction goes into the numbers involved.
pub const RECIPROCAL: u64 = 0x1_0000_0000_0000;

/// Whether two finite numbers differ by no more than a bound and the rounding of numbers no
/// larger than `reach` units.
pub open spec fn nearly_within(a: Double, b: Double, bound: Double, reach: nat) -> bool {
    &&& a.finite()
    &&& b.finite()
    &&& RECIPROCAL * float::abs_nat(a.units() - b.units()) <= RECIPROCAL * bound.size()
        + bound.size() + reach
}

/// A level, taken back, is half a step from the distance that it stands for.
proof fn lemma_level_distance(
    exact: nat,
    a: nat,
    s: nat,
    q: nat,
    level: nat,
    w: nat,
)
    requires
        float_error::PRECISION <= w,
        float_error::PRECISION * float::abs_nat(a - exact) <= exact,
        float_error::PRECISION * float::abs_nat(q * s - a * w) <= a * w + (float_error::PRECISION
            / 2) * s,
        2 * (level * w) <= 2 * q + w,
        2 * q <= 2 * (level * w) + w,
    ensures
        2 * float_error::PRECISION * float::abs_nat(level * s - exact) <= float_error::PRECISION
            * s + s + 6 * exact,
{
    let e = float_error::PRECISION;
    let (x, y, z) = (q * s, a * w, level * s);
    assert(2 * (z * w) <= 2 * x + w * s && 2 * x <= 2 * (z * w) + w * s) by (nonlinear_arith)
        requires
            2 * (level * w) <= 2 * q + w,
            2 * q <= 2 * (level * w) + w,
            z == level * s,
            x == q * s,
            s >= 0,
    ;
    assert(e * s <= w * s) by (nonlinear_arith)
        requires
            e <= w,
            s >= 0,
    ;
    let d: int = z - a;
    let right = e * s + s + 2 * a;
    assert(2 * e * d * w <= right * w && -(2 * e * d * w) <= right * w) by (nonlinear_arith)
        requires
            d == z - a,
            y == a * w,
            2 * (z * w) <= 2 * x + w * s,
            2 * x <= 2 * (z * w) + w * s,
            e * (x - y) <= y + (e / 2) * s,
            e * (y - x) <= y + (e / 2) * s,
            e == 0x20_0000_0000_0000,
            e * s <= w * s,
            right == e * s + s + 2 * a,
    ;
    assert(2 * e * d <= right && -(2 * e * d) <= right) by (nonlinear_arith)
        requires
            2 * e * d * w <= right * w,
            -(2 * e * d * w) <= right * w,
            w > 0,
    ;
    assert(a <= 2 * exact);
    let c: int = a - exact;
    assert(0x20_0000_0000_0000 * c <= exact && -(0x20_0000_0000_0000 * c) <= exact);
    assert(2 * 0x20_0000_0000_0000 * d <= right && -(2 * 0x20_0000_0000_0000 * d) <= right);
    let t: int = z - exact;
    assert(t == d + c);
    assert(2 * 0x20_0000_0000_0000 * t <= 0x20_0000_0000_0000 * s + s + 6 * exact);
    assert(-(2 * 0x20_0000_0000_0000 * t) <= 0x20_0000_0000_0000 * s + s + 6 * exact);
}

/// The step is twice the bound, give or take its rounding.
pub proof fn lemma_step_size(bound: Double)
    requires
        bound.finite(),
        !bound.negative(),
        !bound.zero(),
        tile_plan::step(bound).finite(),
    ensures
        ({
            let s = tile_plan::step(bound);
            &&& !s.negative()
            &&& !s.zero()
            &&& s.size() <= 4 * bound.size()
            &&& float_error::PRECISION * s.size() <= (2 * float_error::PRECISION + 2)
                * bound.size()
        }),
{
    tile_laws::lemma_constants();
    float_error::lemma_multiple_error(2, bound);
    float::lemma_zero_size(bound);
    float::lemma_zero_size(tile_plan::step(bound));
    let (s, b) = (tile_plan::step(bound).size(), bound.size());
    assert(s == (float::double_of_int(2).product(bound)).size());
    assert(0x20_0000_0000_0000 * (s - 2 * b) <= 2 * b && 0x20_0000_0000_0000 * (2 * b - s) <= 2
        * b);
    assert(0x20_0000_0000_0000 * s <= (2 * 0x20_0000_0000_0000 + 2) * b);
}

/// The step is not much less than twice the bound.
proof fn lemma_step_least(bound: Double)
    requires
        bound.finite(),
        !bound.negative(),
        !bound.zero(),
        tile_plan::step(bound).finite(),
    ensures
        float_error::PRECISION * tile_plan::step(bound).size() >= (2 * float_error::PRECISION - 2)
            * bound.size(),
{
    tile_laws::lemma_constants();
    float_error::lemma_multiple_error(2, bound);
    let (s, b) = (tile_plan::step(bound).size(), bound.size());
    assert(s == (float::double_of_int(2).product(bound)).size());
    assert(0x20_0000_0000_0000 * (2 * b - s) <= 2 * b);
    assert(0x20_0000_0000_0000 * s >= (2 * 0x20_0000_0000_0000 - 2) * b);
}

proof fn lemma_unit_size()
    ensures
        float_error::PRECISION <= pow2(1074),
        pow2(1074) > 0,
{
    lemma2_to64();
    lemma2_to64_rest();
    lemma_pow2_strictly_increases(53, 1074);
}

/// Where there are levels, the step and the distance from the smallest number to the largest
/// are finite, and neither is zero.
pub proof fn lemma_levels_finite(low: Double, high: Double, bound: Double, top: u32)
    requires
        low.finite(),
        high.finite(),
        low.units() <= high.units(),
        bound.finite(),
        !bound.negative(),
        !bound.zero(),
        tile_plan::top_level(low, high, bound) == Some(top),
    ensures
        ({
            let s = tile_plan::step(bound);
            let c = high.difference(low);
            &&& s.finite()
            &&& c.finite()
            &&& c.size() > 0
            &&& c.quotient(s).finite()
            &&& !c.quotient(s).zero()
        }),
{
    let s = tile_plan::step(bound);
    let c = high.difference(low);
    let z = c.quotient(s);
    tile_laws::lemma_constants();
    lemma_product_sign(float::double_of_int(2), bound);
    lemma_unit_size();
    float::lemma_zero_size(z);
    float::lemma_zero_size(c);
    assert(!z.zero()) by {
        if z.zero() {
            lemma_div_basics(pow2(1074) as int);
        }
    }
    if !s.finite() {
        float::lemma_double_parts(c.negative() != s.negative(), 0);
        float::lemma_double_parts(c.negative() != s.negative(), float::DOUBLE_INFINITY as nat);
    }
    if !c.finite() {
        float::lemma_double_parts(c.negative() != s.negative(), float::DOUBLE_INFINITY as nat);
    }
    if c.zero() && s.finite() {
        float::lemma_double_parts(c.negative() != s.negative(), 0);
    }
}

/// A product of numbers that are not negative is a number.
pub proof fn lemma_product_sign(a: Double, b: Double)
    requires
        a.finite(),
        b.finite(),
        !a.negative(),
        !b.negative(),
    ensures
        !a.product(b).nan(),
        !a.product(b).negative(),
{
    let infinity = float::DOUBLE_INFINITY as nat;
    lemma_pow2_pos(1074);
    float::lemma_double_parts(false, 0);
    float::lemma_double_parts(
        false,
        rounding::round_magnitude(a.size() * b.size(), pow2(1074), 52, infinity),
    );
}

/// What a level is rounded from.
proof fn lemma_rounded(q: Double)
    requires
        q.finite(),
    ensures
        2 * (q.rounded_size() * pow2(1074)) <= 2 * q.size() + pow2(1074),
        2 * q.size() <= 2 * (q.rounded_size() * pow2(1074)) + pow2(1074),
{
    let w = pow2(1074);
    lemma_pow2_unfold(1075);
    lemma_pow2_pos(1074);
    let n = q.rounded_size();
    lemma_fundamental_div_mod((2 * q.size() + w) as int, (2 * w) as int);
    let r = (2 * q.size() + w) % (2 * w);
    assert((2 * w) * n == 2 * (n * w)) by (nonlinear_arith);
}

/// What is known of a sample, the smallest and the largest of its tile.
pub open spec fn in_tile(v: Double, low: Double, high: Double, bound: Double, reach: nat) -> bool {
    &&& v.finite()
    &&& low.finite()
    &&& high.finite()
    &&& low.units() <= v.units() <= high.units()
    &&& v.size() <= reach
    &&& low.size() <= reach
    &&& high.size() <= reach
    &&& bound.finite()
    &&& !bound.negative()
    &&& !bound.zero()
}

/// The quotient of a smaller distance is not larger.
proof fn lemma_quotient_order(v: Double, low: Double, high: Double, bound: Double, reach: nat)
    requires
        in_tile(v, low, high, bound, reach),
        tile_plan::step(bound).finite(),
        high.difference(low).finite(),
        high.difference(low).quotient(tile_plan::step(bound)).finite(),
    ensures
        ({
            let s = tile_plan::step(bound);
            let a = v.difference(low);
            let q = a.quotient(s);
            let z = high.difference(low).quotient(s);
            &&& a.finite()
            &&& !a.negative() || a.zero()
            &&& float_error::PRECISION * float::abs_nat(a.size() - (v.units() - low.units())) <= v.units()
                - low.units()
            &&& q.finite()
            &&& !q.negative() || q.zero()
            &&& q.size() <= z.size()
        }),
{
    lemma_unit_size();
    lemma_step_size(bound);
    let s = tile_plan::step(bound);
    let a = v.difference(low);
    let b = high.difference(low);
    // the differences are in order
    lemma_difference_order(v, high, low);
    float_error::lemma_difference_error(v, low);
    float_error::lemma_difference_error(high, low);
    let exact = v.units() - low.units();
    let far = high.units() - low.units();
    float::lemma_zero_size(a);
    float::lemma_zero_size(b);
    assert(!a.negative() || a.zero());
    assert(!b.negative() || b.zero());
    let q = a.quotient(s);
    let z = b.quotient(s);
    let w = pow2(1074);
    lemma_pow2_pos(1074);
    float::lemma_zero_size(s);
    if a.zero() {
        let negative = a.negative() != s.negative();
        float::lemma_double_parts(negative, 0);
        float::lemma_zero_size(float::double_of(negative, 0));
    } else {
        assert(!b.zero());
        lemma_near_monotone(a.size() * w, b.size() * w, s.size());
        assert(a.size() * w <= b.size() * w) by (nonlinear_arith)
            requires
                a.size() <= b.size(),
                w > 0,
        ;
        float::lemma_size_monotone(q, z);
    }
}

/// Rounding keeps the order.
pub proof fn lemma_near_monotone(p: nat, r: nat, q: nat)
    requires
        q > 0,
    ensures
        p <= r ==> float::double_near(false, p, q).magnitude() <= float::double_near(
            false,
            r,
            q,
        ).magnitude(),
{
    if p <= r {
        assert(p * q <= r * q) by (nonlinear_arith)
            requires
                p <= r,
                q > 0,
        ;
        rounding::lemma_round_monotone(p, q, r, q, 52, float::DOUBLE_INFINITY as nat);
        float::lemma_double_parts(
            false,
            rounding::round_magnitude(p, q, 52, float::DOUBLE_INFINITY as nat),
        );
        float::lemma_double_parts(
            false,
            rounding::round_magnitude(r, q, 52, float::DOUBLE_INFINITY as nat),
        );
    }
}

/// Subtracting one number keeps the order of two others.
pub proof fn lemma_difference_order(v: Double, high: Double, low: Double)
    requires
        v.finite(),
        high.finite(),
        low.finite(),
        low.units() <= v.units() <= high.units(),
        high.difference(low).finite(),
    ensures
        v.difference(low).finite(),
        v.difference(low).size() <= high.difference(low).size(),
{
    let c = low.opposite();
    float::lemma_double_parts(!low.negative(), low.magnitude());
    assert(c.magnitude() == low.magnitude() && c.negative() == !low.negative());
    assert(c.size() == low.size());
    let exact = v.units() - low.units();
    let far = high.units() - low.units();
    if exact == 0 {
        let negative = v.negative() && c.negative();
        float::lemma_double_parts(negative, 0);
        float::lemma_zero_size(float::double_of(negative, 0));
    } else {
        lemma_near_monotone(exact as nat, far as nat, 1);
        float::lemma_size_monotone(v.difference(low), high.difference(low));
    }
}

/// A level that reaches the limit is half a step from it.
proof fn lemma_limit_distance(
    exact: nat,
    far: nat,
    a: nat,
    s: nat,
    q: nat,
    level: nat,
    w: nat,
)
    requires
        float_error::PRECISION <= w,
        exact <= far,
        float_error::PRECISION * float::abs_nat(a - far) <= far,
        float_error::PRECISION * float::abs_nat(q * s - a * w) <= a * w + (float_error::PRECISION
            / 2) * s,
        q <= level * w,
        2 * float_error::PRECISION * float::abs_nat(level * s - exact) <= float_error::PRECISION
            * s + s + 6 * exact,
    ensures
        2 * float_error::PRECISION * (far - exact) <= float_error::PRECISION * s + 3 * s + 6
            * exact + 6 * far,
{
    let e = float_error::PRECISION;
    let (x, y, z) = (q * s, a * w, level * s);
    assert(x <= z * w) by (nonlinear_arith)
        requires
            q <= level * w,
            x == q * s,
            z == level * s,
            s >= 0,
    ;
    assert(e * s <= w * s) by (nonlinear_arith)
        requires
            e <= w,
            s >= 0,
    ;
    let right = e * z + a + s;
    assert(e * a * w <= right * w) by (nonlinear_arith)
        requires
            y == a * w,
            x <= z * w,
            e * (y - x) <= y + (e / 2) * s,
            e == 0x20_0000_0000_0000,
            e * s <= w * s,
            right == e * z + a + s,
    ;
    assert(e * a <= right) by (nonlinear_arith)
        requires
            e * a * w <= right * w,
            w > 0,
    ;
    assert(0x20_0000_0000_0000 * a <= 0x20_0000_0000_0000 * z + a + s);
    assert(a <= 2 * far);
    assert(0x20_0000_0000_0000 * (far - a) <= far);
    let t: int = z - exact;
    assert(0x40_0000_0000_0000 * float::abs_nat(t) <= 0x20_0000_0000_0000 * s + s + 6 * exact);
    assert(0x40_0000_0000_0000 * t <= 0x20_0000_0000_0000 * s + s + 6 * exact);
}

/// A rounded quotient is no more than the ceiling of a larger one.
proof fn lemma_below_ceiling(q: Double, z: Double)
    requires
        q.size() <= z.size(),
        !z.negative() || z.zero(),
    ensures
        q.rounded_size() <= z.ceiling() || z.zero(),
{
    let w = pow2(1074);
    lemma_pow2_pos(1074);
    lemma_pow2_unfold(1075);
    float::lemma_zero_size(z);
    if !z.zero() {
        let n = z.whole();
        let r = z.size() % w;
        lemma_fundamental_div_mod(z.size() as int, w as int);
        lemma_div_is_ordered(
            (2 * q.size() + w) as int,
            (2 * z.size() + w) as int,
            (2 * w) as int,
        );
        assert((2 * w) * n == 2 * (w * n)) by (nonlinear_arith);
        assert((2 * w) * (n + 1) == 2 * (w * n) + 2 * w) by (nonlinear_arith);
        if r == 0 {
            lemma_mul_is_commutative((2 * w) as int, n as int);
            lemma_fundamental_div_mod_converse(
                (2 * z.size() + w) as int,
                (2 * w) as int,
                n as int,
                w as int,
            );
        } else if 2 * r + w < 2 * w {
            lemma_mul_is_commutative((2 * w) as int, n as int);
            lemma_fundamental_div_mod_converse(
                (2 * z.size() + w) as int,
                (2 * w) as int,
                n as int,
                (2 * r + w) as int,
            );
        } else {
            lemma_mul_is_commutative((2 * w) as int, (n + 1) as int);
            lemma_fundamental_div_mod_converse(
                (2 * z.size() + w) as int,
                (2 * w) as int,
                (n + 1) as int,
                (2 * r + w - 2 * w) as int,
            );
        }
    }
}

/// The level of a sample, and how far it is from the sample.
proof fn lemma_level_found(
    v: Double,
    low: Double,
    high: Double,
    bound: Double,
    reach: nat,
    top: u32,
)
    requires
        in_tile(v, low, high, bound, reach),
        tile_plan::top_level(low, high, bound) == Some(top),
    ensures
        2 * float_error::PRECISION * float::abs_nat(
            tile_plan::level_of(v, low, bound, top) * tile_plan::step(bound).size() - (v.units()
                - low.units()),
        ) <= float_error::PRECISION * tile_plan::step(bound).size() + tile_plan::step(bound).size()
            + 6 * (v.units() - low.units()),
{
    lemma_unit_size();
    lemma_levels_finite(low, high, bound, top);
    lemma_step_size(bound);
    let s = tile_plan::step(bound);
    let a = v.difference(low);
    let q = a.quotient(s);
    let z = high.difference(low).quotient(s);
    lemma_quotient_order(v, low, high, bound, reach);
    assert(!z.negative() || z.zero());
    float::lemma_zero_size(z);
    float::lemma_zero_size(q);
    lemma_below_ceiling(q, z);
    lemma_rounded(q);
    let level = tile_plan::level_of(v, low, bound, top);
    assert(q.rounded_size() <= top);
    assert(level == q.rounded_size()) by {
        if q.negative() {
            lemma_pow2_pos(1074);
            lemma_pow2_unfold(1075);
            lemma_small_div(pow2(1074), pow2(1075));
        }
    }
    float_error::lemma_quotient_error(a, s);
    lemma_level_distance(
        (v.units() - low.units()) as nat,
        a.size(),
        s.size(),
        q.size(),
        level as nat,
        pow2(1074),
    );
}

proof fn lemma_small_div(a: nat, b: nat)
    requires
        a < b,
    ensures
        a / b == 0,
{
    lemma_basic_div(a as int, b as int);
}

/// The value of a level, if it is finite, is within the bound and the rounding of the sample
/// that it was made for.
#[verifier::rlimit(60)]
#[verifier::spinoff_prover]
pub proof fn lemma_level_near(
    v: Double,
    low: Double,
    high: Double,
    bound: Double,
    reach: nat,
    top: u32,
    offset: Double,
    z_max: Double,
)
    requires
        in_tile(v, low, high, bound, reach),
        tile_plan::top_level(low, high, bound) == Some(top),
        offset.finite(),
        offset.units() == low.units(),
        z_max.finite(),
        z_max.size() <= reach,
        high.units() <= z_max.units(),
        stuffed::quantized(
            offset,
            tile_plan::step(bound),
            z_max,
            tile_plan::level_of(v, low, bound, top),
        ).finite(),
    ensures
        nearly_within(
            stuffed::quantized(
                offset,
                tile_plan::step(bound),
                z_max,
                tile_plan::level_of(v, low, bound, top),
            ),
            v,
            bound,
            reach,
        ),
{
    lemma_unit_size();
    lemma_levels_finite(low, high, bound, top);
    lemma_step_size(bound);
    lemma_level_found(v, low, high, bound, reach, top);
    let s = tile_plan::step(bound);
    let level = tile_plan::level_of(v, low, bound, top);
    let n = float::double_of_int(level as int);
    let ls = level as nat * s.size();
    let exact = (v.units() - low.units()) as nat;
    assert(exact <= 2 * reach);
    assert(s.size() <= 4 * bound.size());
    let away: int = ls - exact;
    assert(0x40_0000_0000_0000 * float::abs_nat(away) <= 0x20_0000_0000_0000 * s.size() + s.size()
        + 6 * exact);
    assert(0x40_0000_0000_0000 * away <= 0x20_0000_0000_0000 * s.size() + s.size() + 6 * exact);
    assert(-(0x40_0000_0000_0000 * away) <= 0x20_0000_0000_0000 * s.size() + s.size() + 6 * exact);
    float::lemma_int_exact(level as int);
    let p = n.product(s);
    lemma_product_sign(n, s);
    let limit = stuffed::level_limit(offset, s, z_max);
    float::lemma_zero_size(s);
    assert(!s.same(Double { bits: 0 }));
    if n.below(limit) {
        assert(p.finite());
        float_error::lemma_multiple_error(level as nat, s);
        assert(0x20_0000_0000_0000 * (p.size() - ls) <= ls && 0x20_0000_0000_0000 * (ls
            - p.size()) <= ls);
        float_error::lemma_sum_error(offset, p);
        let r = offset.sum(p);
        let t = offset.units() + p.size();
        assert(p.units() == p.size());
        assert(0x20_0000_0000_0000 * (r.units() - t) <= float::abs_nat(t)
            && 0x20_0000_0000_0000 * (t - r.units()) <= float::abs_nat(t));
        assert(float::abs_nat(t) <= reach + p.size());
        lemma_add_up(
            r.units() - v.units(),
            r.units() - t,
            p.size() - ls,
            ls - exact,
            p.size() as int,
            ls as int,
            exact as int,
            s.size() as int,
            bound.size() as int,
            reach as int,
        );
    } else {
        let b = z_max.difference(offset);
        assert(b.finite()) by {
            lemma_difference_number(z_max, offset);
            if !b.finite() {
                float::lemma_double_parts(false, float::DOUBLE_INFINITY as nat);
            }
        }
        float_error::lemma_difference_error(z_max, offset);
        let far = (z_max.units() - offset.units()) as nat;
        assert(!b.negative() || b.zero()) by {
            float::lemma_zero_size(b);
        }
        let q = b.quotient(s);
        lemma_quotient_number(b, s);
        assert(q.finite());
        float::lemma_order(n, q);
        float_error::lemma_quotient_error(b, s);
        float::lemma_zero_size(q);
        float::lemma_zero_size(b);
        lemma_limit_distance(
            exact,
            far,
            b.size(),
            s.size(),
            q.size(),
            level as nat,
            pow2(1074),
        );
        assert(far <= 2 * reach);
        let t: int = far - exact;
        assert(t == z_max.units() - v.units());
        assert(0x40_0000_0000_0000 * t <= 0x20_0000_0000_0000 * s.size() + 3 * s.size() + 6 * exact
            + 6 * far);
        assert(0x20_0000_0000_0000 * s.size() <= 0x40_0000_0000_0002 * bound.size());
        assert(0x1_0000_0000_0000 * t <= 0x1_0000_0000_0000 * bound.size() + bound.size() + reach);
    }
}

/// The difference of two finite numbers in order is a number that is not below zero.
proof fn lemma_difference_number(a: Double, b: Double)
    requires
        a.finite(),
        b.finite(),
        b.units() <= a.units(),
    ensures
        !a.difference(b).nan(),
        !a.difference(b).negative() || a.difference(b).zero(),
{
    let c = b.opposite();
    float::lemma_double_parts(!b.negative(), b.magnitude());
    assert(c.magnitude() == b.magnitude() && c.negative() == !b.negative());
    assert(c.units() == -b.units());
    let total = a.units() - b.units();
    float::lemma_double_parts(a.negative() && c.negative(), 0);
    float::lemma_double_parts(
        false,
        rounding::round_magnitude(total as nat, 1, 52, float::DOUBLE_INFINITY as nat),
    );
}

/// The lowest sample of a tile is read as it is.
#[verifier::rlimit(40)]
pub proof fn lemma_lowest_back(
    v: Double,
    low: Double,
    high: Double,
    bound: Double,
    reach: nat,
    top: u32,
    offset: Double,
    z_max: Double,
)
    requires
        in_tile(v, low, high, bound, reach),
        v.units() == low.units(),
        tile_plan::top_level(low, high, bound) == Some(top),
        offset.finite(),
        offset.units() == low.units(),
        z_max.finite(),
        z_max.size() <= reach,
        high.units() <= z_max.units(),
    ensures
        ({
            let r = stuffed::quantized(
                offset,
                tile_plan::step(bound),
                z_max,
                tile_plan::level_of(v, low, bound, top),
            );
            r.finite() && r.units() == low.units()
        }),
{
    lemma_levels_finite(low, high, bound, top);
    lemma_step_size(bound);
    let s = tile_plan::step(bound);
    lemma_lowest_level(v, low, bound, top);
    let n = float::double_of_int(0);
    float::lemma_int_exact(0);
    float::lemma_zero_size(s);
    assert(!s.same(Double { bits: 0 }));
    let limit = stuffed::level_limit(offset, s, z_max);
    if z_max.units() > offset.units() {
        lemma_limit_positive(low, high, bound, reach, top, offset, z_max);
        assert(n.below(limit));
    }
    if n.below(limit) {
        let p = n.product(s);
        float::lemma_double_parts(n.negative() != s.negative(), 0);
        float::lemma_zero_size(p);
        lemma_sum_nothing(offset, p);
    }
}

/// Zero added changes no number.
proof fn lemma_sum_nothing(a: Double, p: Double)
    requires
        a.finite(),
        p.zero(),
    ensures
        a.sum(p).finite(),
        a.sum(p).units() == a.units(),
{
    float::lemma_zero_size(p);
    float::lemma_zero_size(a);
    if a.units() == 0 {
        float::lemma_double_parts(a.negative() && p.negative(), 0);
        float::lemma_zero_size(a.sum(p));
    } else {
        float::lemma_double_exact(a);
    }
}

/// The lowest sample of a tile is at level zero.
proof fn lemma_lowest_level(v: Double, low: Double, bound: Double, top: u32)
    requires
        v.finite(),
        low.finite(),
        v.units() == low.units(),
        tile_plan::step(bound).finite(),
        !tile_plan::step(bound).zero(),
    ensures
        tile_plan::level_of(v, low, bound, top) == 0,
{
    let s = tile_plan::step(bound);
    let c = low.opposite();
    float::lemma_double_parts(!low.negative(), low.magnitude());
    assert(c.magnitude() == low.magnitude() && c.negative() == !low.negative());
    assert(c.size() == low.size());
    let a = v.difference(low);
    float::lemma_double_parts(v.negative() && c.negative(), 0);
    assert(a.zero());
    let q = a.quotient(s);
    float::lemma_double_parts(a.negative() != s.negative(), 0);
    float::lemma_zero_size(q);
    lemma_pow2_pos(1074);
    lemma_pow2_unfold(1075);
    lemma_small_div(pow2(1074), pow2(1075));
}

/// Where there are levels, the largest value is some of them away.
#[verifier::rlimit(40)]
proof fn lemma_limit_positive(
    low: Double,
    high: Double,
    bound: Double,
    reach: nat,
    top: u32,
    offset: Double,
    z_max: Double,
)
    requires
        in_tile(low, low, high, bound, reach),
        tile_plan::top_level(low, high, bound) == Some(top),
        offset.finite(),
        offset.units() == low.units(),
        z_max.finite(),
        z_max.size() <= reach,
        high.units() <= z_max.units(),
        z_max.units() > offset.units(),
    ensures
        float::double_of_int(0).below(
            z_max.difference(offset).quotient(tile_plan::step(bound)),
        ),
{
    lemma_unit_size();
    lemma_levels_finite(low, high, bound, top);
    lemma_step_size(bound);
    let s = tile_plan::step(bound);
    let c = high.difference(low);
    let z = c.quotient(s);
    float::lemma_zero_size(z);
    float::lemma_zero_size(s);
    let b = z_max.difference(offset);
    assert(b == z_max.difference(low)) by {
        float::lemma_double_parts(!low.negative(), low.magnitude());
        float::lemma_double_parts(!offset.negative(), offset.magnitude());
        assert(low.opposite().units() == -low.units());
        assert(offset.opposite().units() == -offset.units());
    }
    float::lemma_int_exact(0);
    lemma_difference_number(z_max, offset);
    lemma_difference_number(high, low);
    let w = pow2(1074);
    if !b.finite() {
        float::lemma_double_parts(false, float::DOUBLE_INFINITY as nat);
    } else {
        lemma_difference_order(high, z_max, low);
        float::lemma_zero_size(b);
        float::lemma_zero_size(c);
        let q = b.quotient(s);
        assert(!b.negative());
        assert(c.size() * w <= b.size() * w) by (nonlinear_arith)
            requires
                c.size() <= b.size(),
                w > 0,
        ;
        lemma_near_monotone(c.size() * w, b.size() * w, s.size());
        float::lemma_double_parts(
            false,
            rounding::round_magnitude(b.size() * w, s.size(), 52, float::DOUBLE_INFINITY as nat),
        );
    }
}

/// The errors of the steps add up to no more than the bound and the rounding.
proof fn lemma_add_up(
    all: int,
    last: int,
    scaled: int,
    level: int,
    p: int,
    ls: int,
    exact: int,
    s: int,
    m: int,
    reach: int,
)
    requires
        all == last + scaled + level,
        0 <= p,
        0 <= ls,
        0 <= exact <= 2 * reach,
        0 <= s <= 4 * m,
        scaled == p - ls,
        level == ls - exact,
        0x20_0000_0000_0000 * last <= reach + p,
        -(0x20_0000_0000_0000 * last) <= reach + p,
        0x20_0000_0000_0000 * scaled <= ls,
        -(0x20_0000_0000_0000 * scaled) <= ls,
        0x40_0000_0000_0000 * level <= 0x20_0000_0000_0000 * s + s + 6 * exact,
        -(0x40_0000_0000_0000 * level) <= 0x20_0000_0000_0000 * s + s + 6 * exact,
        0x20_0000_0000_0000 * s <= 0x40_0000_0000_0002 * m,
    ensures
        RECIPROCAL * float::abs_nat(all) <= RECIPROCAL * m + m + reach,
{
    assert(ls <= 2 * exact + s);
    assert(p <= 2 * ls);
    assert(0x40_0000_0000_0000 * all <= 0x20_0000_0000_0000 * s + 7 * s + 18 * exact + 2 * reach);
    assert(-(0x40_0000_0000_0000 * all) <= 0x20_0000_0000_0000 * s + 7 * s + 18 * exact + 2
        * reach);
    assert(0x40_0000_0000_0000 * all <= 0x40_0000_0000_0000 * m + 30 * m + 38 * reach);
    assert(-(0x40_0000_0000_0000 * all) <= 0x40_0000_0000_0000 * m + 30 * m + 38 * reach);
    assert(0x1_0000_0000_0000 * all <= 0x1_0000_0000_0000 * m + m + reach);
    assert(-(0x1_0000_0000_0000 * all) <= 0x1_0000_0000_0000 * m + m + reach);
}

/// A quotient of finite numbers by one that is not zero is a number.
proof fn lemma_quotient_number(a: Double, s: Double)
    requires
        a.finite(),
        s.finite(),
        !s.zero(),
        !s.negative(),
        !a.negative() || a.zero(),
    ensures
        !a.quotient(s).nan(),
        !a.quotient(s).negative() || a.quotient(s).zero(),
{
    if a.zero() {
        float::lemma_double_parts(a.negative() != s.negative(), 0);
    } else {
        float::lemma_double_parts(
            false,
            rounding::round_magnitude(
                a.size() * pow2(1074),
                s.size(),
                52,
                float::DOUBLE_INFINITY as nat,
            ),
        );
    }
}

/// The largest finite double.
pub open spec fn largest() -> Double {
    Double { bits: 0x7fef_ffff_ffff_ffff }
}

/// The sizes of the largest finite double and of the one before it.
proof fn lemma_largest(d: Double)
    requires
        d.finite(),
    ensures
        largest().finite(),
        largest().size() == 0x1f_ffff_ffff_ffff * pow2(2045),
        d.size() <= largest().size(),
        d.below(largest()) ==> d.units() <= 0x1f_ffff_ffff_fffe * pow2(2045),
{
    let before = Double { bits: 0x7fef_ffff_ffff_fffe };
    float::lemma_size_of(false, 0x1f_ffff_ffff_ffff, 2045);
    float::lemma_size_of(false, 0x1f_ffff_ffff_fffe, 2045);
    assert(float::double_of(
        false,
        2045 * (float::DOUBLE_IMPLICIT as nat) + 0x1f_ffff_ffff_ffff,
    ) == largest());
    assert(float::double_of(
        false,
        2045 * (float::DOUBLE_IMPLICIT as nat) + 0x1f_ffff_ffff_fffe,
    ) == before);
    float::lemma_size_monotone(d, largest());
    if d.below(largest()) {
        if d.negative() {
            lemma_pow2_pos(2045);
        } else {
            float::lemma_size_monotone(d, before);
        }
    }
}

/// Subtracting a larger number leaves no more.
pub proof fn lemma_difference_shrinks(high: Double, a: Double, b: Double)
    requires
        high.finite(),
        a.finite(),
        b.finite(),
        a.units() <= b.units() <= high.units(),
        high.difference(a).finite(),
    ensures
        high.difference(b).finite(),
{
    float::lemma_double_parts(!a.negative(), a.magnitude());
    float::lemma_double_parts(!b.negative(), b.magnitude());
    let (c, d) = (a.opposite(), b.opposite());
    assert(c.units() == -a.units() && d.units() == -b.units());
    let far = high.units() - a.units();
    let near = high.units() - b.units();
    if near == 0 {
        float::lemma_double_parts(high.negative() && d.negative(), 0);
    } else {
        lemma_near_monotone(near as nat, far as nat, 1);
    }
}

/// The multiple of a step that stays below a limit is no more than the distance to it.
proof fn lemma_multiple_limited(b: Double, s: Double, n: u32)
    requires
        b.finite(),
        !b.negative() || b.zero(),
        s.finite(),
        !s.negative(),
        !s.zero(),
        float::double_of_int(n as int).below(b.quotient(s)),
    ensures
        ({
            let p = float::double_of_int(n as int).product(s);
            p.finite() && !p.negative() && p.size() <= b.size()
        }),
{
    let d = float::double_of_int(n as int);
    let w = pow2(1074);
    lemma_unit_size();
    float::lemma_int_exact(n as int);
    float::lemma_zero_size(s);
    float::lemma_zero_size(b);
    if b.zero() {
        float::lemma_double_parts(b.negative() != s.negative(), 0);
    }
    let ns = n as nat * s.size();
    assert(d.size() * s.size() == ns * w) by (nonlinear_arith)
        requires
            d.size() == n as nat * w,
            ns == n as nat * s.size(),
    ;
    if ns > b.size() {
        assert(b.size() * w <= d.size() * s.size()) by (nonlinear_arith)
            requires
                d.size() * s.size() == ns * w,
                ns > b.size(),
        ;
        float_error::lemma_near_bounded(false, b.size() * w, s.size(), d);
    }
    if n == 0 {
        float::lemma_double_parts(false, 0);
        float::lemma_zero_size(d.product(s));
    } else {
        assert(d.size() * s.size() <= b.size() * w) by (nonlinear_arith)
            requires
                d.size() * s.size() == ns * w,
                ns <= b.size(),
        ;
        float_error::lemma_near_bounded(false, d.size() * s.size(), w, b);
    }
}

/// A level is read as a finite number where the distance from the smallest number to the one
/// that limits it does not overflow, and the latter is not the largest double.
pub proof fn lemma_level_finite(offset: Double, s: Double, z_max: Double, n: u32)
    requires
        offset.finite(),
        z_max.finite(),
        offset.units() <= z_max.units(),
        s.finite(),
        !s.negative(),
        !s.zero(),
        z_max.difference(offset).finite(),
        z_max.below(largest()),
    ensures
        stuffed::quantized(offset, s, z_max, n).finite(),
{
    let steps = float::double_of_int(n as int);
    let b = z_max.difference(offset);
    float::lemma_zero_size(s);
    assert(!s.same(Double { bits: 0 }));
    if steps.below(stuffed::level_limit(offset, s, z_max)) {
        lemma_difference_number(z_max, offset);
        lemma_multiple_limited(b, s, n);
        let p = steps.product(s);
        let k = pow2(2045);
        float_error::lemma_difference_error(z_max, offset);
        lemma_largest(b);
        lemma_largest(z_max);
        lemma_largest(offset);
        float::lemma_zero_size(b);
        let far = z_max.units() - offset.units();
        assert(b.units() == b.size());
        let away: int = b.units() - far;
        assert(0x20_0000_0000_0000 * away <= far && -(0x20_0000_0000_0000 * away) <= far);
        assert(far <= 0x20_0000_0000_0000 * k);
        assert(away <= k);
        let t = offset.units() + p.units();
        assert(t <= largest().size());
        assert(-(largest().size() as int) <= t);
        if t == 0 {
            float::lemma_double_parts(offset.negative() && p.negative(), 0);
        } else {
            float_error::lemma_near_bounded(t < 0, float::abs_nat(t), 1, largest());
        }
    }
}

/// A number of single precision is small among doubles.
proof fn lemma_single_size(x: Single)
    requires
        x.finite(),
    ensures
        x.widened().finite(),
        x.widened().size() < pow2(1202),
{
    float::lemma_widen_exact(x);
    lemma2_to64();
    let (m, k) = (x.significand(), x.exponent());
    assert(m < 0x100_0000 && k <= 253);
    if k < 253 {
        lemma_pow2_strictly_increases(k, 253);
    }
    lemma_pow2_pos(k);
    lemma_pow2_pos(925);
    lemma_pow2_adds(24, 253);
    lemma_pow2_adds(277, 925);
    assert(m * pow2(k) < pow2(24) * pow2(253)) by (nonlinear_arith)
        requires
            m < pow2(24),
            0 < pow2(k) <= pow2(253),
    ;
    assert((m * pow2(k)) * pow2(925) < pow2(277) * pow2(925)) by (nonlinear_arith)
        requires
            m * pow2(k) < pow2(277),
            pow2(925) > 0,
    ;
}

/// The difference of numbers of single precision does not overflow a double.
pub proof fn lemma_single_range(a: Single, b: Single)
    requires
        a.finite(),
        b.finite(),
    ensures
        a.widened().difference(b.widened()).finite(),
        a.widened().below(largest()),
{
    let (c, d) = (a.widened(), b.widened());
    lemma_single_size(a);
    lemma_single_size(b);
    lemma_largest(c);
    lemma_pow2_strictly_increases(1202, 2045);
    float::lemma_order(c, largest());
    float::lemma_double_parts(!d.negative(), d.magnitude());
    assert(d.opposite().units() == -d.units());
    let total = c.units() - d.units();
    if total == 0 {
        float::lemma_double_parts(c.negative() && d.opposite().negative(), 0);
    } else {
        float_error::lemma_near_bounded(total < 0, float::abs_nat(total), 1, largest());
    }
}

/// Adding a number that is not negative leads to no smaller one.
pub proof fn lemma_sum_above(a: Double, s: Double)
    requires
        a.finite(),
        !s.nan(),
        !s.negative(),
    ensures
        !a.sum(s).nan(),
        !a.sum(s).below(a),
{
    if s.finite() {
        let infinity = float::DOUBLE_INFINITY as nat;
        let total = a.units() + s.units();
        float::lemma_zero_size(a);
        if total == 0 {
            float::lemma_double_parts(a.negative() && s.negative(), 0);
        } else {
            let p = float::abs_nat(total);
            float::lemma_double_parts(total < 0, rounding::round_magnitude(p, 1, 52, infinity));
            float::lemma_double_exact(a);
            if total < 0 {
                float_error::lemma_near_bounded(true, p, 1, a);
            } else if !a.negative() {
                lemma_near_monotone(a.size(), p, 1);
                float::lemma_double_parts(
                    false,
                    rounding::round_magnitude(a.size(), 1, 52, infinity),
                );
            }
        }
    }
}

/// Subtracting a number that is not negative leads to a number, and to minus infinity where it
/// is not finite.
pub proof fn lemma_difference_down(a: Double, s: Double)
    requires
        a.finite(),
        !s.nan(),
        !s.negative(),
    ensures
        !a.difference(s).nan(),
        a.difference(s).finite() || (a.difference(s).infinite() && a.difference(s).negative()),
{
    let c = s.opposite();
    float::lemma_double_parts(!s.negative(), s.magnitude());
    if s.finite() {
        let total = a.units() + c.units();
        assert(c.units() <= 0);
        if total == 0 {
            float::lemma_double_parts(a.negative() && c.negative(), 0);
        } else if total > 0 {
            float_error::lemma_near_bounded(false, float::abs_nat(total), 1, a);
        } else {
            float::lemma_double_parts(
                true,
                rounding::round_magnitude(
                    float::abs_nat(total),
                    1,
                    52,
                    float::DOUBLE_INFINITY as nat,
                ),
            );
        }
    }
}

/// A number below another less twice a bound is more than the bound and the rounding of a
/// reconstruction below it, where numbers are no more than so many times the bound.
pub proof fn lemma_twice_below(e: Double, low: Double, bound: Double, reach: nat)
    requires
        e.finite(),
        low.finite(),
        bound.finite(),
        !bound.negative(),
        !bound.zero(),
        low.size() <= reach,
        2 * reach <= RECIPROCAL * bound.size(),
        e.below(low.difference(tile_plan::step(bound))),
    ensures
        RECIPROCAL * (low.units() - e.units()) > RECIPROCAL * bound.size() + bound.size() + reach,
{
    let s = tile_plan::step(bound);
    tile_laws::lemma_constants();
    lemma_product_sign(float::double_of_int(2), bound);
    lemma_difference_down(low, s);
    let d = low.difference(s);
    assert(d.finite());
    if !s.finite() {
        float::lemma_double_parts(!s.negative(), s.magnitude());
    }
    lemma_step_size(bound);
    lemma_step_least(bound);
    float_error::lemma_difference_error(low, s);
    float::lemma_order(e, d);
    let (b, t) = (bound.size() as int, low.units() - s.size());
    let off: int = d.units() - t;
    assert(s.units() == s.size());
    assert(float::abs_nat(t) <= reach + s.size());
    assert(0x20_0000_0000_0000 * off <= reach + s.size());
    assert(0x20_0000_0000_0000 * (low.units() - e.units()) > 0x20_0000_0000_0000 * s.size() - reach
        - s.size());
}

/// Subtracting a number that is not negative leads to no larger one.
pub proof fn lemma_difference_below(a: Double, s: Double)
    requires
        a.finite(),
        !s.nan(),
        !s.negative(),
    ensures
        !a.below(a.difference(s)),
{
    let c = s.opposite();
    float::lemma_double_parts(!s.negative(), s.magnitude());
    if s.finite() {
        let infinity = float::DOUBLE_INFINITY as nat;
        let total = a.units() + c.units();
        assert(c.units() <= 0);
        float::lemma_zero_size(a);
        if total == 0 {
            float::lemma_double_parts(a.negative() && c.negative(), 0);
        } else if total > 0 {
            float_error::lemma_near_bounded(false, float::abs_nat(total), 1, a);
        } else {
            let p = float::abs_nat(total);
            float::lemma_double_parts(true, rounding::round_magnitude(p, 1, 52, infinity));
            if a.negative() {
                float::lemma_double_exact(a);
                float::lemma_double_parts(
                    true,
                    rounding::round_magnitude(a.size(), 1, 52, infinity),
                );
                assert(a.size() * 1 <= p * 1);
                rounding::lemma_round_monotone(a.size(), 1, p, 1, 52, infinity);
            }
        }
    }
}

/// What is below a single less a number, rounded or not, is below the single.
pub proof fn lemma_single_under(e: Double, low: Single, s: Double)
    requires
        low.finite(),
        !s.nan(),
        !s.negative(),
        ({
            let d = low.widened().difference(s);
            e.below(d) || e.below(d.narrowed().widened())
        }),
    ensures
        e.below(low.widened()),
{
    let a = low.widened();
    let d = a.difference(s);
    float::lemma_widen_exact(low);
    lemma_difference_down(a, s);
    lemma_difference_below(a, s);
    if d.finite() {
        float::lemma_order(a, d);
        float::lemma_narrow_below(d, low);
    }
}

/// The least normal single, in the units of doubles.
pub open spec fn least_normal() -> nat {
    0x80_0000 * pow2(925)
}

/// A number below a single less twice a bound, rounded or not, is more than one and a half times
/// the bound below it, where numbers are no more than so many times the bound.
#[verifier::rlimit(40)]
#[verifier::spinoff_prover]
pub proof fn lemma_single_below(e: Double, low: Single, bound: Double, reach: nat)
    requires
        e.finite(),
        low.finite(),
        bound.finite(),
        !bound.negative(),
        !bound.zero(),
        low.widened().size() <= reach,
        8 * (reach + least_normal()) <= 0x100_0000 * bound.size(),
        ({
            let d = low.widened().difference(tile_plan::step(bound));
            e.below(d) || e.below(d.narrowed().widened())
        }),
    ensures
        2 * (low.widened().units() - e.units()) > 3 * bound.size(),
{
    let a = low.widened();
    let s = tile_plan::step(bound);
    float::lemma_widen_exact(low);
    tile_laws::lemma_constants();
    lemma_product_sign(float::double_of_int(2), bound);
    lemma_difference_down(a, s);
    let d = a.difference(s);
    if !s.finite() {
        float::lemma_double_parts(!s.negative(), s.magnitude());
    }
    assert(d.finite());
    lemma_step_size(bound);
    lemma_step_least(bound);
    float_error::lemma_difference_error(a, s);
    lemma_difference_below(a, s);
    float::lemma_order(a, d);
    float::lemma_order(e, d);
    let b = bound.size() as int;
    let t = a.units() - s.size();
    let off: int = d.units() - t;
    assert(s.units() == s.size());
    assert(float::abs_nat(t) <= reach + s.size());
    assert(0x20_0000_0000_0000 * float::abs_nat(off) <= reach + s.size());
    assert(d.size() <= 2 * (reach + s.size()));
    if !e.below(d) {
        float::lemma_narrow_below(d, low);
        let n = d.narrowed();
        assert(n.finite());
        float_error::lemma_narrow_error(d);
        float::lemma_order(e, n.widened());
        let more: int = n.widened().units() - d.units();
        assert(0x100_0000 * more <= d.size() + least_normal());
        assert(0x100_0000 * more <= 2 * reach + 8 * b + least_normal());
    }
}

} // verus!
