//! What is read back of a tile.

use crate::bytes;
use crate::cursor;
use crate::error::Fault;
use crate::float;
use crate::float::{Double, Single};
use crate::float_laws;
use crate::lerc1;
use crate::lerc2_body;
use crate::lerc2_header::Lerc2Header;
use crate::sample::Sample;
use crate::stuffed;
use crate::tile_plan;
use crate::tile_plan::TileShape;
use crate::tiling;
use crate::tiling_laws;
use crate::types;
use crate::types::DataType;
use crate::values;
use vstd::arithmetic::div_mod::*;
use vstd::arithmetic::mul::*;
use vstd::arithmetic::power2::*;
use vstd::prelude::*;

verus! {

/// Whether two finite numbers differ by no more than a bound.
pub open spec fn within(a: Double, b: Double, bound: Double) -> bool {
    a.finite() && b.finite() && float::abs_nat(a.units() - b.units()) <= bound.size()
}

/// The error bounds that integers are stored with: one half, or a positive whole number.
pub open spec fn integer_bound(bound: Double) -> bool {
    bound.finite() && !bound.negative() && (bound == (Double { bits: float::HALF_BITS }) || (
    bound.integral() && bound.whole() >= 1))
}

/// Whether every sample is an ordinary number.
pub open spec fn all_regular<T: Sample>(samples: Seq<T>) -> bool {
    forall|i: int| 0 <= i < samples.len() ==> (#[trigger] samples[i]).promoted().finite()
}

/// Whether the numbers are integers of at most 33 bits, and which ones.
#[verifier::opaque]
spec fn are_ints(found: Seq<Double>, nums: Seq<int>) -> bool {
    &&& nums.len() == found.len()
    &&& forall|i: int|
        0 <= i < found.len() ==> #[trigger] found[i] == float::double_of_int(nums[i])
            && -0x1_0000_0000 <= nums[i] <= 0x1_0000_0000
}

proof fn lemma_are_ints(found: Seq<Double>, nums: Seq<int>, i: int)
    requires
        are_ints(found, nums),
        0 <= i < found.len(),
    ensures
        nums.len() == found.len(),
        found[i] == float::double_of_int(nums[i]),
        -0x1_0000_0000 <= nums[i] <= 0x1_0000_0000,
{
    reveal(are_ints);
}

/// The smallest of finite numbers is one of them.
pub proof fn lemma_least(found: Seq<Double>) -> (k: int)
    requires
        found.len() > 0,
        forall|i: int| 0 <= i < found.len() ==> (#[trigger] found[i]).finite(),
    ensures
        0 <= k < found.len(),
        lerc1::least(lerc1::top(), found) == found[k],
        forall|i: int| 0 <= i < found.len() ==> !(#[trigger] found[i]).below(found[k]),
    decreases found.len(),
{
    let front = found.drop_last();
    let n = found.len() - 1;
    if n == 0 {
        assert(lerc1::least(lerc1::top(), front) == lerc1::top());
        0
    } else {
        assert forall|i: int| 0 <= i < front.len() implies (#[trigger] front[i]).finite() by {
            assert(front[i] == found[i]);
        }
        let k = lemma_least(front);
        assert(front[k] == found[k]);
        let r: int = if found[k].below(found[n]) || found[k].same(found[n]) {
            k
        } else {
            n
        };
        assert forall|i: int| 0 <= i < found.len() implies !(#[trigger] found[i]).below(
            found[r],
        ) by {
            if i < n {
                assert(front[i] == found[i]);
            }
        }
        r
    }
}

/// The largest of finite numbers is one of them.
pub proof fn lemma_greatest(found: Seq<Double>) -> (k: int)
    requires
        found.len() > 0,
        forall|i: int| 0 <= i < found.len() ==> (#[trigger] found[i]).finite(),
    ensures
        0 <= k < found.len(),
        lerc1::greatest(lerc1::bottom(), found) == found[k],
        forall|i: int| 0 <= i < found.len() ==> !found[k].below(#[trigger] found[i]),
    decreases found.len(),
{
    let front = found.drop_last();
    let n = found.len() - 1;
    if n == 0 {
        assert(lerc1::greatest(lerc1::bottom(), front) == lerc1::bottom());
        0
    } else {
        assert forall|i: int| 0 <= i < front.len() implies (#[trigger] front[i]).finite() by {
            assert(front[i] == found[i]);
        }
        let k = lemma_greatest(front);
        assert(front[k] == found[k]);
        let r: int = if found[n].below(found[k]) || found[k].same(found[n]) {
            k
        } else {
            n
        };
        assert forall|i: int| 0 <= i < found.len() implies !found[r].below(
            #[trigger] found[i],
        ) by {
            if i < n {
                assert(front[i] == found[i]);
            }
        }
        r
    }
}

/// Reading a stored scalar gives the number put through its type.
pub proof fn lemma_scalar_roundtrip(value: Double, data_type: DataType)
    ensures
        values::scalar_bytes(value, data_type).len() == data_type.width(),
        values::scalar_value(values::scalar_bytes(value, data_type), data_type)
            == values::coerced(value, data_type),
{
    match data_type {
        DataType::I8 => i8::demoted(value).law_codec(),
        DataType::U8 => u8::demoted(value).law_codec(),
        DataType::I16 => i16::demoted(value).law_codec(),
        DataType::U16 => u16::demoted(value).law_codec(),
        DataType::I32 => i32::demoted(value).law_codec(),
        DataType::U32 => u32::demoted(value).law_codec(),
        DataType::F32 => Single::demoted(value).law_codec(),
        DataType::F64 => value.law_codec(),
    }
}

/// A number that equals a sample becomes a sample that equals it.
pub proof fn lemma_same_demotes<T: Sample>(value: Double, sample: T)
    requires
        value.same(sample.promoted()),
        sample.promoted().finite(),
    ensures
        T::demoted(value).promoted().same(sample.promoted()),
        T::demoted(value).promoted().finite(),
{
    let v = sample.promoted();
    if v.zero() {
        T::law_zero(value);
    } else {
        float::lemma_double_whole(value);
        float::lemma_double_whole(v);
        sample.law_regular();
        sample.law_promotion();
    }
}

/// Equal numbers are within any bound.
pub proof fn lemma_same_within(a: Double, b: Double, bound: Double)
    requires
        a.finite(),
        b.finite(),
        a.same(b),
    ensures
        within(a, b, bound),
{
    float::lemma_order(a, b);
}

/// An integer in the range of an integer type keeps its number in it.
pub proof fn lemma_coerced_int(value: int, data_type: DataType)
    requires
        data_type.integer(),
        data_type.least() <= value <= data_type.most(),
    ensures
        values::coerced(float::double_of_int(value), data_type) == float::double_of_int(value),
{
    match data_type {
        DataType::I8 => i8::law_cast(value),
        DataType::U8 => u8::law_cast(value),
        DataType::I16 => i16::law_cast(value),
        DataType::U16 => u16::law_cast(value),
        DataType::I32 => i32::law_cast(value),
        DataType::U32 => u32::law_cast(value),
        _ => {},
    }
}

/// A sample's number fits the sample's type.
pub proof fn lemma_sample_fits<T: Sample>(sample: T)
    requires
        sample.promoted().finite(),
    ensures
        T::kind().integer() ==> tile_plan::fits(sample.promoted(), T::kind()),
        T::kind() == DataType::F64 ==> tile_plan::fits(sample.promoted(), T::kind()),
{
    let v = sample.promoted();
    if T::kind().integer() {
        sample.law_integer();
        lemma_coerced_int(sample.number(), T::kind());
    }
}

/// Where an integer fits an integer type it is stored exactly.
proof fn lemma_int_fits(value: int, data_type: DataType)
    requires
        float::abs_nat(value) < 0x20_0000_0000_0000,
        data_type.integer(),
        tile_plan::fits(float::double_of_int(value), data_type),
    ensures
        values::coerced(float::double_of_int(value), data_type) == float::double_of_int(value),
{
    let d = float::double_of_int(value);
    let c = values::coerced(d, data_type);
    float::lemma_int_exact(value);
    let n: int = match data_type {
        DataType::I8 => {
            i8::demoted(d).law_integer();
            i8::demoted(d).number()
        },
        DataType::U8 => {
            u8::demoted(d).law_integer();
            u8::demoted(d).number()
        },
        DataType::I16 => {
            i16::demoted(d).law_integer();
            i16::demoted(d).number()
        },
        DataType::U16 => {
            u16::demoted(d).law_integer();
            u16::demoted(d).number()
        },
        DataType::I32 => {
            i32::demoted(d).law_integer();
            i32::demoted(d).number()
        },
        _ => {
            u32::demoted(d).law_integer();
            u32::demoted(d).number()
        },
    };
    assert(c == float::double_of_int(n));
    float::lemma_int_order(n, value);
}

/// The constants one half, one and two.
pub proof fn lemma_constants()
    ensures
        float::double_of_int(2) == (Double { bits: float::TWO_BITS }),
        float::double_of_int(1) == (Double { bits: float::ONE_BITS }),
        float::double_of_int(0) == (Double { bits: 0 }),
        (Double { bits: float::HALF_BITS }).size() == pow2(1073),
        2 * pow2(1073) == pow2(1074),
        pow2(1073) > 0,
{
    let two = Double { bits: float::TWO_BITS };
    let one = Double { bits: float::ONE_BITS };
    let half = Double { bits: float::HALF_BITS };
    lemma2_to64();
    lemma2_to64_rest();
    lemma_pow2_pos(1073);
    lemma_pow2_unfold(1074);
    lemma_pow2_unfold(1075);
    assert(two.significand() == 0x10_0000_0000_0000 && two.exponent() == 1023);
    assert(one.significand() == 0x10_0000_0000_0000 && one.exponent() == 1022);
    assert(half.significand() == 0x10_0000_0000_0000 && half.exponent() == 1021);
    lemma_pow2_adds(52, 1023);
    lemma_pow2_adds(52, 1022);
    lemma_pow2_adds(52, 1021);
    float::lemma_int_exact(2);
    float::lemma_int_exact(1);
    assert(1 * pow2(1074) == pow2(1074)) by (nonlinear_arith);
    float::lemma_size_monotone(two, float::double_of_int(2));
    float::lemma_size_monotone(one, float::double_of_int(1));
    float::lemma_double_whole(two);
    float::lemma_double_whole(one);
    float::lemma_double_whole(float::double_of_int(2));
    float::lemma_double_whole(float::double_of_int(1));
}

/// A whole number of at least `2^1074` units is the double of its integer.
pub proof fn lemma_whole_is_int(d: Double)
    requires
        d.finite(),
        !d.negative(),
        d.integral(),
        d.whole() >= 1,
    ensures
        d == float::double_of_int(d.whole() as int),
        d.size() == d.whole() * pow2(1074),
{
    lemma_pow2_pos(1074);
    lemma_fundamental_div_mod(d.size() as int, pow2(1074) as int);
    lemma_mul_is_commutative(d.whole() as int, pow2(1074) as int);
    float::lemma_double_exact(d);
}

/// The quantization step of an integer bound that is not very large.
pub proof fn lemma_bound_step(bound: Double) -> (s: nat)
    requires
        integer_bound(bound),
        bound.whole() < 0x200_0000_0000,
    ensures
        1 <= s < 0x400_0000_0000,
        tile_plan::step(bound) == float::double_of_int(s as int),
        2 * bound.size() == s * pow2(1074),
        bound == (Double { bits: float::HALF_BITS }) ==> s == 1,
{
    lemma_constants();
    let half = Double { bits: float::HALF_BITS };
    let w = pow2(1074);
    if bound == half {
        let two = float::double_of_int(2);
        float::lemma_int_exact(2);
        float::lemma_int_exact(1);
        let v = pow2(1073);
        assert((2 * w) * v == w * w) by (nonlinear_arith)
            requires
                w == 2 * v,
        ;
        assert(1 * w == w && w * 1 == w) by (nonlinear_arith);
        crate::rounding::lemma_round_scale(w, 1, w, 52, float::DOUBLE_INFINITY as nat);
        assert(two.product(half) == float::double_near(false, (2 * w) * v, w));
        1
    } else {
        lemma_whole_is_int(bound);
        let k = bound.whole();
        float::lemma_int_product(2, k as int);
        assert(2 * (k * w) == (2 * k) * w) by (nonlinear_arith);
        2 * k
    }
}

/// Under a very large bound every level is zero.
proof fn lemma_large_bound(bound: Double, x: nat, top: u32)
    requires
        integer_bound(bound),
        bound.whole() >= 0x200_0000_0000,
        x < 0x4_0000_0000,
    ensures
        float::double_of_int(x as int).quotient(tile_plan::step(bound)).level(top) == 0,
{
    lemma_constants();
    let w = pow2(1074);
    lemma_pow2_pos(1074);
    lemma_pow2_unfold(1075);
    lemma_basic_div(pow2(1073) as int, w as int);
    lemma_whole_is_int(bound);
    let k = bound.whole();
    let two = float::double_of_int(2);
    let scale = tile_plan::step(bound);
    let a = float::double_of_int(x as int);
    let d = a.quotient(scale);
    float::lemma_int_exact(2);
    float::lemma_int_exact(x as int);
    let limit = float::double_of_int(0x400_0000_0000);
    float::lemma_int_exact(0x400_0000_0000);
    assert(k * w > 0) by (nonlinear_arith)
        requires
            k > 0,
            w > 0,
    ;
    assert(!bound.zero()) by {
        if bound.zero() {
            float::lemma_zero_truncates(bound);
        }
    }
    assert(scale == float::double_near(false, (2 * w) * (k * w), w));
    assert((2 * w) * (k * w) >= limit.size() * w) by (nonlinear_arith)
        requires
            limit.size() == 0x400_0000_0000 * w,
            k >= 0x200_0000_0000,
    ;
    float::lemma_near_order((2 * w) * (k * w), w, limit);
    float::lemma_double_parts(
        false,
        crate::rounding::round_magnitude((2 * w) * (k * w), w, 52, float::DOUBLE_INFINITY as nat),
    );
    assert(scale.magnitude() <= float::DOUBLE_INFINITY && !scale.negative());
    assert(!limit.zero());
    let zero = float::double_of(false, 0);
    if scale.infinite() || x == 0 {
        assert(d == zero);
        float::lemma_zero_truncates(zero);
        assert(zero.size() == 0 * pow2(0));
        assert(0 * pow2(0) == 0) by (nonlinear_arith);
        lemma_basic_div(w as int, (2 * w) as int);
    } else {
        assert(scale.finite());
        float::lemma_size_monotone(limit, scale);
        // One quarter.
        lemma_pow2_unfold(1073);
        let v = pow2(1072);
        lemma_pow2_pos(1072);
        float::lemma_dyadic_exact(1, 1072);
        let quarter = float::double_near(false, 1 * v, 1);
        let (p, q) = (a.size() * w, scale.size());
        assert(a.size() > 0) by (nonlinear_arith)
            requires
                a.size() == x * w,
                x > 0,
                w > 0,
        ;
        assert(p <= quarter.size() * q) by (nonlinear_arith)
            requires
                p == (x * w) * w,
                quarter.size() == 1 * v,
                w == 4 * v,
                q >= 0x400_0000_0000 * w,
                x < 0x4_0000_0000,
                v > 0,
        ;
        assert(q > 0) by (nonlinear_arith)
            requires
                q >= 0x400_0000_0000 * w,
                w > 0,
        ;
        assert(d == float::double_near(false, p, q));
        float::lemma_near_order(p, q, quarter);
        float::lemma_double_parts(
            false,
            crate::rounding::round_magnitude(p, q, 52, float::DOUBLE_INFINITY as nat),
        );
        float::lemma_size_monotone(d, quarter);
        lemma_basic_div((2 * d.size() + w) as int, (2 * w) as int);
    }
}

/// The levels of integers, where bit stuffing applies.
#[verifier::rlimit(40)]
proof fn lemma_int_levels(
    found: Seq<Double>,
    nums: Seq<int>,
    bound: Double,
    levels: Seq<u32>,
) -> (r: (int, nat))
    requires
        found.len() > 0,
        are_ints(found, nums),
        integer_bound(bound),
        tile_plan::quantized_levels(
            found,
            lerc1::least(lerc1::top(), found),
            lerc1::greatest(lerc1::bottom(), found),
            bound,
        ) == Some(levels),
    ensures
        1 <= r.1 < 0x400_0000_0000,
        lerc1::least(lerc1::top(), found) == float::double_of_int(r.0),
        tile_plan::step(bound) == float::double_of_int(r.1 as int),
        2 * bound.size() == r.1 * pow2(1074),
        bound == (Double { bits: float::HALF_BITS }) ==> r.1 == 1,
        exists|k: int| 0 <= k < nums.len() && #[trigger] nums[k] == r.0,
        levels.len() == found.len(),
        1 <= stuffed::bits_needed(stuffed::largest(levels)) <= 31,
        forall|i: int|
            0 <= i < found.len() ==> r.0 <= #[trigger] nums[i] && levels[i] as int == (2 * (nums[i]
                - r.0) + r.1) / (2 * r.1 as int),
{
    reveal(tile_plan::quantized_levels);
    let (k, g) = lemma_int_extremes(found, nums);
    let a = nums[k];
    let m = nums[g];
    let low = found[k];
    let high = found[g];
    lemma_are_ints(found, nums, k);
    lemma_are_ints(found, nums, g);
    let top = tile_plan::top_level(low, high, bound)->0;
    assert(levels =~= tile_plan::levels_of(found, low, bound, top));
    if bound.whole() >= 0x200_0000_0000 {
        assert forall|i: int| 0 <= i < levels.len() implies #[trigger] levels[i] <= 0 by {
            lemma_are_ints(found, nums, i);
            assert(a <= nums[i] <= m);
            float::lemma_int_difference(nums[i], a);
            lemma_large_bound(bound, (nums[i] - a) as nat, top);
        }
        lemma_all_zero(levels);
        assert(stuffed::bits_needed(0) == 0);
    }
    let s = lemma_bound_step(bound);
    assert forall|i: int| 0 <= i < found.len() implies a <= #[trigger] nums[i] && levels[i] as int
        == (2 * (nums[i] - a) + s) / (2 * s as int) by {
        lemma_are_ints(found, nums, i);
        assert(a <= nums[i] <= m);
        lemma_one_level(nums[i], a, m, s, bound, top);
        assert(levels[i] == tile_plan::level_of(found[i], low, bound, top));
    }
    (a, s)
}

/// The smallest and the largest of some integers.
proof fn lemma_int_extremes(found: Seq<Double>, nums: Seq<int>) -> (r: (int, int))
    requires
        found.len() > 0,
        are_ints(found, nums),
    ensures
        nums.len() == found.len(),
        0 <= r.0 < found.len(),
        0 <= r.1 < found.len(),
        lerc1::least(lerc1::top(), found) == found[r.0],
        lerc1::greatest(lerc1::bottom(), found) == found[r.1],
        forall|i: int| 0 <= i < found.len() ==> nums[r.0] <= #[trigger] nums[i] <= nums[r.1],
{
    assert forall|i: int| 0 <= i < found.len() implies (#[trigger] found[i]).finite() by {
        lemma_are_ints(found, nums, i);
        float::lemma_int_exact(nums[i]);
    }
    let k = lemma_least(found);
    let g = lemma_greatest(found);
    lemma_are_ints(found, nums, k);
    lemma_are_ints(found, nums, g);
    assert forall|i: int| 0 <= i < found.len() implies nums[k] <= #[trigger] nums[i]
        <= nums[g] by {
        lemma_are_ints(found, nums, i);
        float::lemma_int_order(nums[i], nums[k]);
        float::lemma_int_order(nums[g], nums[i]);
    }
    (k, g)
}

/// The level of an integer is its distance from the smallest, in steps, rounded.
proof fn lemma_one_level(n: int, a: int, m: int, s: nat, bound: Double, top: u32)
    requires
        1 <= s < 0x400_0000_0000,
        tile_plan::step(bound) == float::double_of_int(s as int),
        -0x1_0000_0000 <= a <= n <= m <= 0x1_0000_0000,
        tile_plan::top_level(float::double_of_int(a), float::double_of_int(m), bound) == Some(top),
    ensures
        tile_plan::level_of(float::double_of_int(n), float::double_of_int(a), bound, top) as int
            == (2 * (n - a) + s) / (2 * s as int),
{
    assert(0 * s == 0) by (nonlinear_arith);
    float::lemma_int_difference(m, a);
    float::lemma_int_quotient((m - a) as nat, s, 0);
    float::lemma_int_difference(n, a);
    float::lemma_int_quotient((n - a) as nat, s, 0);
    lemma_round_below_ceiling((n - a) as nat, (m - a) as nat, s);
    let d = float::double_of_int(n - a).quotient(float::double_of_int(s as int));
    assert(d.rounded_size() <= top);
    assert(d.level(top) == d.rounded_size());
}

proof fn lemma_all_zero(values: Seq<u32>)
    requires
        forall|i: int| 0 <= i < values.len() ==> #[trigger] values[i] <= 0,
    ensures
        stuffed::largest(values) == 0,
    decreases values.len(),
{
    if values.len() > 0 {
        lemma_all_zero(values.drop_last());
    }
}

/// Rounding to the nearest integer does not exceed rounding up.
proof fn lemma_round_below_ceiling(x: nat, y: nat, s: nat)
    requires
        x <= y,
        s > 0,
    ensures
        (2 * x + s) / (2 * s) <= (y + s - 1) / (s as int),
{
    let c = (y + s - 1) / (s as int);
    lemma_fundamental_div_mod(y + s - 1, s as int);
    let q = (2 * x + s) / (2 * s);
    lemma_fundamental_div_mod((2 * x + s) as int, (2 * s) as int);
    let r = (2 * x + s) % (2 * s);
    let t = (y + s - 1) % (s as int);
    assert(q <= c) by (nonlinear_arith)
        requires
            2 * x + s == (2 * s) * q + r,
            0 <= r,
            y + s - 1 == s * c + t,
            t < s,
            x <= y,
            s > 0,
    ;
}

/// The value of a level of integers, limited by the integer `z`.
proof fn lemma_level_value(n: int, a: int, s: nat, z: int, level: u32)
    requires
        1 <= s < 0x400_0000_0000,
        -0x1_0000_0000 <= a <= n <= z <= 0x1_0000_0000,
        level as int == (2 * (n - a) + s) / (2 * s as int),
    ensures
        ({
            let v = if level * s < z - a {
                a + level * s
            } else {
                z
            };
            &&& stuffed::quantized(
                float::double_of_int(a),
                float::double_of_int(s as int),
                float::double_of_int(z),
                level,
            ) == float::double_of_int(v)
            &&& a <= v <= z
            &&& -(s as int) <= 2 * (v - n) <= s
        }),
{
    let x = (n - a) as nat;
    let y = (z - a) as nat;
    let q = level as nat;
    lemma_fundamental_div_mod((2 * x + s) as int, (2 * s) as int);
    let r = (2 * x + s) % (2 * s);
    assert(2 * (q * s) <= 2 * x + s && 2 * x + s < 2 * (q * s) + 2 * s) by (nonlinear_arith)
        requires
            2 * x + s == (2 * s) * q + r,
            0 <= r < 2 * s,
    ;
    assert(q * s >= 0) by (nonlinear_arith);
    float::lemma_int_quotient(y, s, q);
    float::lemma_int_difference(z, a);
    float::lemma_int_order(s as int, 0);
    lemma_constants();
    if q * s < y {
        float::lemma_int_product(q as int, s as int);
        float::lemma_int_sum(a, (q * s) as int);
    }
}

/// Integers closer than half a step are within the bound.
proof fn lemma_int_within(a: int, b: int, s: nat, bound: Double)
    requires
        float::abs_nat(a) < 0x20_0000_0000_0000,
        float::abs_nat(b) < 0x20_0000_0000_0000,
        -(s as int) <= 2 * (a - b) <= s,
        2 * bound.size() == s * pow2(1074),
    ensures
        within(float::double_of_int(a), float::double_of_int(b), bound),
{
    float::lemma_int_exact(a);
    float::lemma_int_exact(b);
    let w = pow2(1074);
    lemma_pow2_pos(1074);
    assert(-(s * w) <= 2 * (a * w - b * w) <= s * w) by (nonlinear_arith)
        requires
            -(s as int) <= 2 * (a - b),
            2 * (a - b) <= s,
            w > 0,
    ;
}

/// Only one half is near one half among the bounds of integers.
proof fn lemma_near_half(bound: Double)
    requires
        integer_bound(bound),
        lerc2_body::near_half(bound),
    ensures
        bound == (Double { bits: float::HALF_BITS }),
{
    let half = Double { bits: float::HALF_BITS };
    if bound != half {
        lemma_constants();
        lemma_whole_is_int(bound);
        let w = pow2(1074);
        let v = pow2(1073);
        let total = bound.units() + half.opposite().units();
        assert(half.opposite().magnitude() == half.magnitude() && half.opposite().negative());
        assert(half.opposite().size() == half.size());
        assert(bound.whole() * w >= w) by (nonlinear_arith)
            requires
                bound.whole() >= 1,
                w > 0,
        ;
        assert(total >= v);
        let d = bound.difference(half);
        assert(d == float::double_near(false, total as nat, 1));
        assert(half.size() * 1 == half.size()) by (nonlinear_arith);
        float::lemma_near_order(total as nat, 1, half);
        float::lemma_double_parts(
            false,
            crate::rounding::round_magnitude(
                total as nat,
                1,
                52,
                float::DOUBLE_INFINITY as nat,
            ),
        );
    }
}

/// The numbers of integer samples.
spec fn numbers<T: Sample>(samples: Seq<T>) -> Seq<int> {
    Seq::new(samples.len(), |i: int| samples[i].number())
}

proof fn lemma_numbers<T: Sample>(samples: Seq<T>)
    requires
        T::kind().integer(),
    ensures
        are_ints(values::promoted_all(samples), numbers(samples)),
        all_regular(samples),
{
    reveal(are_ints);
    assert forall|i: int| 0 <= i < samples.len() implies #[trigger] values::promoted_all(
        samples,
    )[i] == float::double_of_int(numbers(samples)[i]) && -0x1_0000_0000 <= numbers(samples)[i]
        <= 0x1_0000_0000 by {
        samples[i].law_integer();
    }
    assert forall|i: int| 0 <= i < samples.len() implies (#[trigger] samples[i]).promoted().finite() by {
        samples[i].law_integer();
        float::lemma_int_exact(samples[i].number());
    }
}

/// Samples with one number are one sample.
pub proof fn lemma_same_sample<T: Sample>(a: T, b: T)
    requires
        a.promoted() == b.promoted(),
        a.promoted().finite(),
    ensures
        a == b,
{
    a.law_regular();
    b.law_regular();
    a.law_promotion();
    b.law_promotion();
}

/// Whether samples that were read equal those that were given.
spec fn copied<T: Sample>(read: Seq<T>, given: Seq<T>) -> bool {
    &&& read.len() == given.len()
    &&& forall|i: int|
        0 <= i < given.len() ==> (#[trigger] read[i]).promoted().same(given[i].promoted())
}

/// How far the numbers of a raster reach, in units.
pub open spec fn reach_of(z_min: Double, z_max: Double) -> nat {
    if z_min.size() < z_max.size() {
        z_max.size()
    } else {
        z_min.size()
    }
}

/// The numbers of a raster: how far they reach, in units, and the lowest of them.
pub struct Span {
    pub reach: nat,
    pub floor: Double,
}

/// The span of numbers between two.
pub open spec fn span_of(z_min: Double, z_max: Double) -> Span {
    Span { reach: reach_of(z_min, z_max), floor: z_min }
}

/// The error bounds under which samples come back within the bound.
pub open spec fn bound_stands(data_type: DataType, bound: Double) -> bool {
    if data_type.integer() {
        integer_bound(bound)
    } else {
        bound.finite() && (bound.zero() || !bound.negative())
    }
}

/// Whether every sample of a tile of floating-point samples is read as a finite number where
/// the tile is bit-stuffed, given the number that limits what is read.
pub open spec fn reads_finite<T: Sample>(current: Seq<T>, bound: Double, z_max: Double) -> bool {
    let found = values::promoted_all(current);
    let low = lerc1::least(lerc1::top(), found);
    let high = lerc1::greatest(lerc1::bottom(), found);
    let top = tile_plan::top_level(low, high, bound)->0;
    let offset = values::coerced(low, tile_plan::reduction(low, T::kind()).1);
    tile_plan::chosen(found, Some(values::encoded_all(current)), T::kind(), bound, false) matches Some(
        shape,
    ) ==> shape.code == 1 ==> forall|i: int|
        0 <= i < found.len() ==> stuffed::quantized(
            offset,
            tile_plan::step(bound),
            z_max,
            tile_plan::level_of(#[trigger] found[i], low, bound, top),
        ).finite()
}

/// Whether a sample comes back: within the bound or, where floating-point samples are stored
/// with one, as they are or as the sample nearest to a number that is within the bound and the
/// rounding of its reconstruction.
pub open spec fn sample_kept<T: Sample>(read: T, given: T, bound: Double, reach: nat) -> bool {
    if T::kind().integer() || bound.zero() {
        within(read.promoted(), given.promoted(), bound)
    } else {
        given.promoted().finite() && (read.promoted().same(given.promoted()) || exists|r: Double|
            #[trigger] float_laws::nearly_within(r, given.promoted(), bound, reach) && read
                == T::demoted(r))
    }
}

/// Equal samples come back under any bound.
pub proof fn lemma_same_kept<T: Sample>(read: T, given: T, bound: Double, reach: nat)
    requires
        given.promoted().finite(),
        read.promoted().same(given.promoted()),
    ensures
        sample_kept(read, given, bound, reach),
{
    lemma_same_within(read.promoted(), given.promoted(), bound);
}

/// Whether a stored sample comes back; the lowest number of the raster comes back as it is.
pub open spec fn stored_kept<T: Sample>(read: T, given: T, bound: Double, span: Span) -> bool {
    &&& sample_kept(read, given, bound, span.reach)
    &&& given.promoted().same(span.floor) ==> read.promoted().same(span.floor)
}

/// Equal samples come back under any bound.
pub proof fn lemma_same_stored<T: Sample>(read: T, given: T, bound: Double, span: Span)
    requires
        given.promoted().finite(),
        read.promoted().same(given.promoted()),
    ensures
        stored_kept(read, given, bound, span),
{
    lemma_same_kept(read, given, bound, span.reach);
}

/// What a tile is read back as: one sample per pixel, each of them kept.
pub open spec fn tile_kept<T: Sample>(
    read: Seq<T>,
    given: Seq<T>,
    bound: Double,
    span: Span,
) -> bool {
    &&& read.len() == given.len()
    &&& forall|i: int|
        0 <= i < given.len() ==> stored_kept(#[trigger] read[i], given[i], bound, span)
}

/// What a tile is read back as: one sample per pixel, within the bound.
spec fn restored<T: Sample>(read: Seq<T>, given: Seq<T>, bound: Double) -> bool {
    &&& read.len() == given.len()
    &&& forall|i: int|
        0 <= i < given.len() ==> within(
            (#[trigger] read[i]).promoted(),
            given[i].promoted(),
            bound,
        )
}

/// The parts of a tile's header byte.
proof fn lemma_header_byte(x: nat, shape: TileShape, version: u32)
    requires
        shape.code < 4,
        shape.type_code < 4,
    ensures
        ({
            let header = tiling::tile_header(x, shape, version);
            &&& lerc2_body::tile_check_ok(header, version, x as int)
            &&& lerc2_body::tile_is_diff(header, version) == (version >= 5 && shape.diff)
            &&& header % 4 == shape.code
            &&& header / 64 == shape.type_code
        }),
{
    let header = tiling::tile_header(x, shape, version);
    let (t, e) = (shape.type_code, shape.code);
    if version >= 5 {
        let c = (x / 16) % 8;
        let flag: nat = if shape.diff {
            4
        } else {
            0
        };
        assert(header == 64 * t + 8 * c + flag + e);
        assert(header / 8 == 8 * t + c);
        assert(header / 4 == 16 * t + 2 * c + flag / 4);
    } else {
        let c = (x / 8) % 16;
        assert(header == 64 * t + 4 * c + e);
        assert(header / 4 == 16 * t + c);
    }
}

/// Reading an offset gives the number it was stored for.
proof fn lemma_offset_read(
    all: Seq<u8>,
    pos: int,
    low: Double,
    base: DataType,
    rest: Seq<u8>,
)
    requires
        all.len() <= usize::MAX,
        bytes::stands_at(
            all,
            pos,
            values::scalar_bytes(low, tile_plan::reduction(low, base).1) + rest,
        ),
    ensures
        ({
            let (code, used) = tile_plan::reduction(low, base);
            &&& types::type_of_code(lerc2_body::reduced_code(base, code as int)) == Some(used)
            &&& cursor::take(all, pos, used.width() as int) matches Ok(field)
                && values::scalar_value(field, used) == values::coerced(low, used)
            &&& bytes::stands_at(all, pos + used.width(), rest)
            &&& values::scalar_bytes(low, used).len() == used.width()
        }),
{
    let (code, used) = tile_plan::reduction(low, base);
    tile_plan::law_reduction_inverse(low, base);
    lemma_scalar_roundtrip(low, used);
    let field = values::scalar_bytes(low, used);
    bytes::lemma_stands_split(all, pos, field, rest);
}

/// Reading a tile of one value, or of nothing but zeros.
proof fn lemma_flat_tile<T: Sample>(
    h: Lerc2Header,
    z_max: Double,
    all: Seq<u8>,
    pos: int,
    x: nat,
    current: Seq<T>,
    previous: Option<Seq<T>>,
    capacity: nat,
    shape: TileShape,
) -> (read: Seq<T>)
    requires
        h.data_type == T::kind(),
        all.len() <= usize::MAX,
        all_regular(current),
        h.max_z_error.finite(),
        tile_plan::chosen(
            values::promoted_all(current),
            Some(values::encoded_all(current)),
            T::kind(),
            h.max_z_error,
            false,
        ) == Some(shape),
        shape.code == 2 || shape.code == 3,
        bytes::stands_at(
            all,
            pos,
            seq![tiling::tile_header(x, shape, h.version)] + shape.body,
        ),
    ensures
        lerc2_body::tile_read(
            h,
            z_max,
            all,
            pos,
            x as int,
            previous,
            current.len(),
            capacity,
        ) == Ok::<_, Fault>((read, pos + 1 + shape.body.len())),
        restored(read, current, h.max_z_error),
        copied(read, current),
{
    reveal(tile_plan::chosen);
    let found = values::promoted_all(current);
    let header = tiling::tile_header(x, shape, h.version);
    let bound = h.max_z_error;
    tile_plan::lemma_chosen_codes(
        found,
        Some(values::encoded_all(current)),
        T::kind(),
        bound,
        false,
    );
    lemma_header_byte(x, shape, h.version);
    bytes::lemma_stands_split(all, pos, seq![header], shape.body);
    assert(all.subrange(pos, pos + 1)[0] == header);
    assert(cursor::take_u8(all, pos) == Ok::<u8, Fault>(header));
    assert forall|i: int| 0 <= i < found.len() implies (#[trigger] found[i]).finite() by {
        assert(current[i].promoted().finite());
    }
    let low = lerc1::least(lerc1::top(), found);
    let high = lerc1::greatest(lerc1::bottom(), found);
    let ghost same = found.len() == 0 || low.same(high);
    if found.len() > 0 {
        let k = lemma_least(found);
        let g = lemma_greatest(found);
        assert forall|i: int| 0 <= i < found.len() implies low.same(#[trigger] found[i]) by {
            assert(!found[i].below(low));
            assert(!high.below(found[i]));
        }
    }
    if shape.code == 2 {
        let read = crate::allocation::repeated(T::zero(), current.len());
        assert forall|i: int| 0 <= i < current.len() implies within(
            (#[trigger] read[i]).promoted(),
            current[i].promoted(),
            bound,
        ) && read[i].promoted().same(current[i].promoted()) by {
            assert(low.same(found[i]));
            T::law_zero(Double { bits: 0 });
            assert(found[i].zero());
            lemma_same_within(T::zero().promoted(), current[i].promoted(), bound);
        }
        read
    } else {
        let (code, used) = tile_plan::reduction(low, T::kind());
        assert(shape.body =~= values::scalar_bytes(low, used) + seq![]);
        lemma_offset_read(all, pos + 1, low, T::kind(), seq![]);
        let offset = values::coerced(low, used);
        let k = lemma_least(found);
        assert(found[k] == current[k].promoted());
        assert(offset.same(low)) by {
            lemma_reduced_same(current[k]);
        }
        let read = Seq::new(
            current.len(),
            |i: int|
                values::output::<T>(
                    lerc2_body::stepped::<T>(offset, None, i, z_max, true),
                    h.data_type,
                ),
        );
        assert forall|i: int| 0 <= i < current.len() implies within(
            (#[trigger] read[i]).promoted(),
            current[i].promoted(),
            bound,
        ) && read[i].promoted().same(current[i].promoted()) by {
            assert(low.same(found[i]));
            lemma_same_demotes(offset, current[i]);
            lemma_same_within(read[i].promoted(), current[i].promoted(), bound);
        }
        read
    }
}

/// The type that a sample is reduced to keeps its number.
proof fn lemma_reduced_same<T: Sample>(sample: T)
    requires
        sample.promoted().finite(),
    ensures
        values::coerced(
            sample.promoted(),
            tile_plan::reduction(sample.promoted(), T::kind()).1,
        ).same(sample.promoted()),
{
    let v = sample.promoted();
    let (code, used) = tile_plan::reduction(v, T::kind());
    if used == T::kind() {
        if T::kind() == DataType::F32 {
            sample.law_single();
        } else {
            lemma_sample_fits(sample);
        }
    }
}

/// What the reader of a tile is handed, and what stands there for it.
pub open spec fn tile_stands<T: Sample>(
    h: Lerc2Header,
    all: Seq<u8>,
    pos: int,
    x: nat,
    shape: TileShape,
) -> bool {
    &&& h.data_type == T::kind()
    &&& h.version >= 4
    &&& all.len() <= usize::MAX
    &&& bytes::stands_at(
        all,
        pos,
        seq![tiling::tile_header(x, shape, h.version)] + shape.body,
    )
}

proof fn lemma_header_read<T: Sample>(
    h: Lerc2Header,
    all: Seq<u8>,
    pos: int,
    x: nat,
    shape: TileShape,
)
    requires
        tile_stands::<T>(h, all, pos, x, shape),
    ensures
        cursor::take_u8(all, pos) == Ok::<u8, Fault>(tiling::tile_header(x, shape, h.version)),
        bytes::stands_at(all, pos + 1, shape.body),
{
    let header = tiling::tile_header(x, shape, h.version);
    bytes::lemma_stands_split(all, pos, seq![header], shape.body);
    assert(all.subrange(pos, pos + 1)[0] == header);
}

/// Reading a tile of raw samples.
proof fn lemma_raw_tile<T: Sample>(
    h: Lerc2Header,
    z_max: Double,
    all: Seq<u8>,
    pos: int,
    x: nat,
    current: Seq<T>,
    previous: Option<Seq<T>>,
    capacity: nat,
    shape: TileShape,
)
    requires
        tile_stands::<T>(h, all, pos, x, shape),
        all_regular(current),
        shape == (TileShape {
            diff: false,
            code: 0,
            type_code: 0,
            body: values::encoded_all(current),
        }),
    ensures
        lerc2_body::tile_read(
            h,
            z_max,
            all,
            pos,
            x as int,
            previous,
            current.len(),
            capacity,
        ) == Ok::<_, Fault>((current, pos + 1 + shape.body.len())),
        restored(current, current, h.max_z_error),
        copied(current, current),
{
    lemma_header_read::<T>(h, all, pos, x, shape);
    lemma_header_byte(x, shape, h.version);
    values::lemma_encoded_len(current);
    values::law_samples_roundtrip(current);
    assert(cursor::take(all, pos + 1, shape.body.len() as int) == Ok::<_, Fault>(shape.body));
    assert forall|i: int| 0 <= i < current.len() implies within(
        (#[trigger] current[i]).promoted(),
        current[i].promoted(),
        h.max_z_error,
    ) && current[i].promoted().same(current[i].promoted()) by {
        assert(current[i].promoted().finite());
    }
}

/// What is known of a bit-stuffed tile.
proof fn lemma_chosen_stuffed(
    found: Seq<Double>,
    raw: Option<Seq<u8>>,
    base: DataType,
    bound: Double,
    diff: bool,
    shape: TileShape,
) -> (levels: Seq<u32>)
    requires
        tile_plan::chosen(found, raw, base, bound, diff) == Some(shape),
        shape.code == 1,
    ensures
        ({
            let low = lerc1::least(lerc1::top(), found);
            &&& found.len() > 0
            &&& shape.diff == diff
            &&& tile_plan::quantized_levels(
                found,
                low,
                lerc1::greatest(lerc1::bottom(), found),
                bound,
            ) == Some(levels)
            &&& shape.type_code == tile_plan::reduction(low, base).0
            &&& shape.body == values::scalar_bytes(low, tile_plan::reduction(low, base).1)
                + stuffed::stuffed_bytes(levels)
        }),
{
    reveal(tile_plan::chosen);
    let low = lerc1::least(lerc1::top(), found);
    let high = lerc1::greatest(lerc1::bottom(), found);
    tile_plan::quantized_levels(found, low, high, bound)->0
}

/// What is known of a tile of one value.
proof fn lemma_chosen_constant(
    found: Seq<Double>,
    raw: Option<Seq<u8>>,
    base: DataType,
    bound: Double,
    diff: bool,
    shape: TileShape,
)
    requires
        tile_plan::chosen(found, raw, base, bound, diff) == Some(shape),
        shape.code == 3,
    ensures
        ({
            let low = lerc1::least(lerc1::top(), found);
            &&& found.len() > 0
            &&& shape.diff == diff
            &&& low.same(lerc1::greatest(lerc1::bottom(), found))
            &&& shape.type_code == tile_plan::reduction(low, base).0
            &&& shape.body == values::scalar_bytes(low, tile_plan::reduction(low, base).1)
        }),
{
    reveal(tile_plan::chosen);
}

/// The type that offsets are reduced from.
pub open spec fn offset_base<T: Sample>(used: Option<Seq<T>>) -> DataType {
    if used is Some && T::kind().integer() {
        DataType::I32
    } else {
        T::kind()
    }
}

/// Reading a bit-stuffed tile: the samples that its levels stand for.
#[verifier::rlimit(80)]
#[verifier::spinoff_prover]
proof fn lemma_read_stuffed<T: Sample>(
    h: Lerc2Header,
    z_max: Double,
    all: Seq<u8>,
    pos: int,
    x: nat,
    previous: Option<Seq<T>>,
    used: Option<Seq<T>>,
    capacity: nat,
    shape: TileShape,
    low: Double,
    levels: Seq<u32>,
) -> (read: Seq<T>)
    requires
        tile_stands::<T>(h, all, pos, x, shape),
        shape.code == 1,
        used == (if h.version >= 5 && shape.diff {
            previous
        } else {
            None
        }),
        h.version >= 5 && shape.diff ==> previous is Some,
        shape.type_code == tile_plan::reduction(low, offset_base(used)).0,
        shape.body == values::scalar_bytes(low, tile_plan::reduction(low, offset_base(used)).1)
            + stuffed::stuffed_bytes(levels),
        levels.len() <= capacity,
        levels.len() <= 1024,
        1 <= stuffed::bits_needed(stuffed::largest(levels)) <= 31,
    ensures
        lerc2_body::tile_read(
            h,
            z_max,
            all,
            pos,
            x as int,
            previous,
            levels.len(),
            capacity,
        ) == Ok::<_, Fault>((read, pos + 1 + shape.body.len())),
        read.len() == levels.len(),
        forall|i: int|
            0 <= i < levels.len() ==> #[trigger] read[i] == T::demoted(
                lerc2_body::stepped(
                    stuffed::quantized(
                        values::coerced(low, tile_plan::reduction(low, offset_base(used)).1),
                        tile_plan::step(h.max_z_error),
                        if used is Some {
                            Double { bits: float::DOUBLE_INFINITY }
                        } else {
                            z_max
                        },
                        levels[i],
                    ),
                    used,
                    i,
                    z_max,
                    false,
                ),
            ),
{
    let base = offset_base(used);
    let (code, kept) = tile_plan::reduction(low, base);
    let stuff = stuffed::stuffed_bytes(levels);
    let offset = values::coerced(low, kept);
    lemma_header_read::<T>(h, all, pos, x, shape);
    tile_plan::law_reduction_inverse(low, base);
    lemma_header_byte(x, shape, h.version);
    lemma_offset_read(all, pos + 1, low, base, stuff);
    let next = pos + 1 + kept.width();
    stuffed::law_stuffed_roundtrip(all, next, levels, h.version, capacity, true);
    stuffed::lemma_bits_needed(stuffed::largest(levels));
    assert(stuffed::largest(levels) > 0);
    let scale = tile_plan::step(h.max_z_error);
    let limit = if used is Some {
        Double { bits: float::DOUBLE_INFINITY }
    } else {
        z_max
    };
    let decoded = stuffed::as_levels(levels);
    let given = stuffed::level_values(offset, scale, limit, decoded);
    let read = Seq::new(
        levels.len(),
        |i: int|
            values::output::<T>(
                lerc2_body::stepped(given[i], used, i, z_max, false),
                h.data_type,
            ),
    );
    let header = tiling::tile_header(x, shape, h.version);
    assert(lerc2_body::stuffed_tile::<T>(
        h,
        z_max,
        all,
        next,
        offset,
        used,
        levels.len(),
        capacity,
    ) == Ok::<_, Fault>((read, next + stuff.len())));
    assert(lerc2_body::offset_tile::<T>(
        h,
        z_max,
        all,
        pos + 1,
        header,
        used,
        levels.len(),
        capacity,
    ) == Ok::<_, Fault>((read, next + stuff.len())));
    assert forall|i: int| 0 <= i < levels.len() implies #[trigger] read[i] == T::demoted(
        lerc2_body::stepped(
            stuffed::quantized(offset, scale, limit, levels[i]),
            used,
            i,
            z_max,
            false,
        ),
    ) by {
        assert(decoded[i] == Some(levels[i]));
        assert(given[i] == stuffed::quantized(offset, scale, limit, levels[i]));
    }
    read
}

/// Reading a tile of one value.
proof fn lemma_read_constant<T: Sample>(
    h: Lerc2Header,
    z_max: Double,
    all: Seq<u8>,
    pos: int,
    x: nat,
    previous: Option<Seq<T>>,
    used: Option<Seq<T>>,
    count: nat,
    capacity: nat,
    shape: TileShape,
    low: Double,
) -> (read: Seq<T>)
    requires
        tile_stands::<T>(h, all, pos, x, shape),
        shape.code == 3,
        used == (if h.version >= 5 && shape.diff {
            previous
        } else {
            None
        }),
        h.version >= 5 && shape.diff ==> previous is Some,
        shape.type_code == tile_plan::reduction(low, offset_base(used)).0,
        shape.body == values::scalar_bytes(low, tile_plan::reduction(low, offset_base(used)).1),
    ensures
        lerc2_body::tile_read(
            h,
            z_max,
            all,
            pos,
            x as int,
            previous,
            count,
            capacity,
        ) == Ok::<_, Fault>((read, pos + 1 + shape.body.len())),
        read.len() == count,
        forall|i: int|
            0 <= i < count ==> #[trigger] read[i] == T::demoted(
                lerc2_body::stepped(
                    values::coerced(low, tile_plan::reduction(low, offset_base(used)).1),
                    used,
                    i,
                    z_max,
                    true,
                ),
            ),
{
    let base = offset_base(used);
    let (code, kept) = tile_plan::reduction(low, base);
    lemma_header_read::<T>(h, all, pos, x, shape);
    tile_plan::law_reduction_inverse(low, base);
    lemma_header_byte(x, shape, h.version);
    assert(shape.body =~= values::scalar_bytes(low, kept) + seq![]);
    lemma_offset_read(all, pos + 1, low, base, seq![]);
    let offset = values::coerced(low, kept);
    let header = tiling::tile_header(x, shape, h.version);
    let read = Seq::new(
        count,
        |i: int|
            values::output::<T>(
                lerc2_body::stepped(offset, used, i, z_max, true),
                h.data_type,
            ),
    );
    assert(lerc2_body::offset_tile::<T>(
        h,
        z_max,
        all,
        pos + 1,
        header,
        used,
        count,
        capacity,
    ) == Ok::<_, Fault>((read, pos + 1 + kept.width())));
    read
}

/// Reading a bit-stuffed tile of integers.
#[verifier::rlimit(40)]
proof fn lemma_stuffed_tile<T: Sample>(
    h: Lerc2Header,
    z: int,
    all: Seq<u8>,
    pos: int,
    x: nat,
    current: Seq<T>,
    previous: Option<Seq<T>>,
    capacity: nat,
    shape: TileShape,
    floor: Double,
) -> (read: Seq<T>)
    requires
        tile_stands::<T>(h, all, pos, x, shape),
        T::kind().integer(),
        integer_bound(h.max_z_error),
        above(current, floor),
        tile_plan::chosen(
            values::promoted_all(current),
            Some(values::encoded_all(current)),
            T::kind(),
            h.max_z_error,
            false,
        ) == Some(shape),
        shape.code == 1,
        current.len() <= capacity,
        current.len() <= 1024,
        z <= T::kind().most(),
        forall|i: int| 0 <= i < current.len() ==> (#[trigger] current[i]).number() <= z,
    ensures
        lerc2_body::tile_read(
            h,
            float::double_of_int(z),
            all,
            pos,
            x as int,
            previous,
            current.len(),
            capacity,
        ) == Ok::<_, Fault>((read, pos + 1 + shape.body.len())),
        restored(read, current, h.max_z_error),
        floor_held(read, current, floor),
{
    let bound = h.max_z_error;
    let found = values::promoted_all(current);
    let nums = numbers(current);
    let low = lerc1::least(lerc1::top(), found);
    let levels = lemma_chosen_stuffed(
        found,
        Some(values::encoded_all(current)),
        T::kind(),
        bound,
        false,
        shape,
    );
    lemma_numbers(current);
    let (a, s) = lemma_int_levels(found, nums, bound, levels);
    let k = choose|k: int| 0 <= k < nums.len() && #[trigger] nums[k] == a;
    lemma_are_ints(found, nums, k);
    let kept = tile_plan::reduction(low, T::kind()).1;
    assert(values::coerced(low, kept) == low) by {
        lemma_sample_fits(current[k]);
        tile_plan::law_reduction_fits(low, T::kind());
        lemma_int_fits(a, kept);
    }
    let z_max = float::double_of_int(z);
    let read = lemma_read_stuffed::<T>(
        h,
        z_max,
        all,
        pos,
        x,
        previous,
        None,
        capacity,
        shape,
        low,
        levels,
    );
    assert forall|i: int| 0 <= i < current.len() implies within(
        (#[trigger] read[i]).promoted(),
        current[i].promoted(),
        bound,
    ) by {
        assert(nums[i] == current[i].number());
        assert(a <= nums[i]);
        lemma_level_within(current[i], current[k], a, s, z, levels[i], bound);
    }
    assert forall|i: int|
        0 <= i < current.len() && current[i].promoted().same(floor) implies (
    #[trigger] read[i]).promoted().same(floor) by {
        assert(nums[i] == current[i].number());
        assert(a <= nums[i]);
        assert(!current[k].promoted().below(floor));
        lemma_lowest_level(current[i], current[k], a, s, z, levels[i], floor);
    }
    read
}

/// The lowest sample is read as it is.
proof fn lemma_lowest_level<T: Sample>(
    sample: T,
    smallest: T,
    a: int,
    s: nat,
    z: int,
    level: u32,
    floor: Double,
)
    requires
        T::kind().integer(),
        1 <= s < 0x400_0000_0000,
        a == smallest.number(),
        a <= sample.number() <= z <= T::kind().most(),
        level as int == (2 * (sample.number() - a) + s) / (2 * s as int),
        sample.promoted().same(floor),
        floor.finite(),
        !smallest.promoted().below(floor),
    ensures
        T::demoted(
            stuffed::quantized(
                float::double_of_int(a),
                float::double_of_int(s as int),
                float::double_of_int(z),
                level,
            ),
        ).promoted().same(floor),
{
    sample.law_integer();
    smallest.law_integer();
    let n = sample.number();
    float::lemma_int_exact(n);
    float::lemma_int_exact(a);
    float::lemma_order(sample.promoted(), floor);
    float::lemma_order(smallest.promoted(), floor);
    lemma_pow2_pos(1074);
    assert(n == a) by (nonlinear_arith)
        requires
            a <= n,
            n * pow2(1074) <= a * pow2(1074),
            pow2(1074) > 0,
    ;
    lemma_small_level(s);
    lemma_level_value(n, a, s, z, level);
    assert(0 * s == 0) by (nonlinear_arith);
    T::law_cast(a);
}

proof fn lemma_small_level(s: nat)
    requires
        s > 0,
    ensures
        (2 * 0 + s as int) / (2 * s as int) == 0,
{
    lemma_basic_div(s as int, 2 * s as int);
}

/// The value of a level is within the bound of the sample that it was made for.
proof fn lemma_level_within<T: Sample>(
    sample: T,
    smallest: T,
    a: int,
    s: nat,
    z: int,
    level: u32,
    bound: Double,
)
    requires
        T::kind().integer(),
        1 <= s < 0x400_0000_0000,
        a == smallest.number(),
        a <= sample.number() <= z <= T::kind().most(),
        level as int == (2 * (sample.number() - a) + s) / (2 * s as int),
        2 * bound.size() == s * pow2(1074),
    ensures
        within(
            T::demoted(
                stuffed::quantized(
                    float::double_of_int(a),
                    float::double_of_int(s as int),
                    float::double_of_int(z),
                    level,
                ),
            ).promoted(),
            sample.promoted(),
            bound,
        ),
{
    sample.law_integer();
    smallest.law_integer();
    let n = sample.number();
    lemma_level_value(n, a, s, z, level);
    let v = if level * s < z - a {
        a + level * s
    } else {
        z
    };
    T::law_cast(v);
    lemma_int_within(v, n, s, bound);
}

/// The numbers of differences.
proof fn lemma_steps<T: Sample>(current: Seq<T>, previous: Seq<T>) -> (nums: Seq<int>)
    requires
        T::kind().integer(),
        previous.len() == current.len(),
    ensures
        nums.len() == current.len(),
        forall|i: int|
            0 <= i < current.len() ==> #[trigger] nums[i] == current[i].number()
                - previous[i].number(),
        are_ints(
            tile_plan::differences(
                values::promoted_all(current),
                values::promoted_all(previous),
            ),
            nums,
        ),
{
    let nums = Seq::new(
        current.len(),
        |i: int| current[i].number() - previous[i].number(),
    );
    let steps = tile_plan::differences(
        values::promoted_all(current),
        values::promoted_all(previous),
    );
    reveal(are_ints);
    assert forall|i: int| 0 <= i < steps.len() implies #[trigger] steps[i]
        == float::double_of_int(nums[i]) && -0x1_0000_0000 <= nums[i] <= 0x1_0000_0000 by {
        current[i].law_integer();
        previous[i].law_integer();
        float::lemma_int_difference(current[i].number(), previous[i].number());
    }
    nums
}

/// The offset of differences is stored exactly.
proof fn lemma_step_offset(steps: Seq<Double>, nums: Seq<int>) -> (a: int)
    requires
        steps.len() > 0,
        are_ints(steps, nums),
        tile_plan::all_bounded(steps),
    ensures
        ({
            let low = lerc1::least(lerc1::top(), steps);
            &&& low == float::double_of_int(a)
            &&& -0x1_0000_0000 <= a <= 0x1_0000_0000
            &&& values::coerced(low, tile_plan::reduction(low, DataType::I32).1) == low
        }),
{
    let (k, g) = lemma_int_extremes(steps, nums);
    let low = steps[k];
    let a = nums[k];
    lemma_are_ints(steps, nums, k);
    let kept = tile_plan::reduction(low, DataType::I32).1;
    lemma_i32_bounds(low, a);
    lemma_coerced_int(a, DataType::I32);
    float::lemma_int_exact(a);
    tile_plan::law_reduction_fits(low, DataType::I32);
    lemma_int_fits(a, kept);
    a
}

/// What reading a tile of differences asks for.
spec fn diff_stands<T: Sample>(
    h: Lerc2Header,
    z: int,
    all: Seq<u8>,
    pos: int,
    x: nat,
    current: Seq<T>,
    previous: Seq<T>,
    capacity: nat,
    shape: TileShape,
) -> bool {
    let steps = tile_plan::differences(
        values::promoted_all(current),
        values::promoted_all(previous),
    );
    &&& tile_stands::<T>(h, all, pos, x, shape)
    &&& h.version >= 5
    &&& T::kind().integer()
    &&& h.max_z_error == (Double { bits: float::HALF_BITS })
    &&& previous.len() == current.len()
    &&& tile_plan::all_bounded(steps)
    &&& tile_plan::chosen(steps, None, DataType::I32, h.max_z_error, true) == Some(shape)
    &&& shape.diff
    &&& current.len() <= capacity
    &&& current.len() <= 1024
    &&& z <= T::kind().most()
    &&& forall|i: int| 0 <= i < current.len() ==> (#[trigger] current[i]).number() <= z
}

/// Reading a tile of differences that are all zero.
proof fn lemma_diff_zero<T: Sample>(
    h: Lerc2Header,
    z: int,
    all: Seq<u8>,
    pos: int,
    x: nat,
    current: Seq<T>,
    previous: Seq<T>,
    capacity: nat,
    shape: TileShape,
)
    requires
        diff_stands(h, z, all, pos, x, current, previous, capacity, shape),
        shape.code == 2,
    ensures
        lerc2_body::tile_read(
            h,
            float::double_of_int(z),
            all,
            pos,
            x as int,
            Some(previous),
            current.len(),
            capacity,
        ) == Ok::<_, Fault>((previous, pos + 1 + shape.body.len())),
        restored(previous, current, h.max_z_error),
{
    reveal(tile_plan::chosen);
    let steps = tile_plan::differences(
        values::promoted_all(current),
        values::promoted_all(previous),
    );
    lemma_header_read::<T>(h, all, pos, x, shape);
    lemma_header_byte(x, shape, h.version);
    lemma_constants();
    let nums = lemma_steps(current, previous);
    assert forall|i: int| 0 <= i < current.len() implies within(
        (#[trigger] previous[i]).promoted(),
        current[i].promoted(),
        h.max_z_error,
    ) by {
        let (k, g) = lemma_int_extremes(steps, nums);
        lemma_are_ints(steps, nums, k);
        lemma_are_ints(steps, nums, g);
        float::lemma_int_order(nums[k], 0);
        float::lemma_int_order(nums[g], 0);
        assert(nums[k] <= nums[i] <= nums[g]);
        current[i].law_integer();
        previous[i].law_integer();
        float::lemma_int_exact(current[i].number());
    }
}

/// Reading a tile of differences that are all the same.
proof fn lemma_diff_constant<T: Sample>(
    h: Lerc2Header,
    z: int,
    all: Seq<u8>,
    pos: int,
    x: nat,
    current: Seq<T>,
    previous: Seq<T>,
    capacity: nat,
    shape: TileShape,
) -> (read: Seq<T>)
    requires
        diff_stands(h, z, all, pos, x, current, previous, capacity, shape),
        shape.code == 3,
    ensures
        lerc2_body::tile_read(
            h,
            float::double_of_int(z),
            all,
            pos,
            x as int,
            Some(previous),
            current.len(),
            capacity,
        ) == Ok::<_, Fault>((read, pos + 1 + shape.body.len())),
        restored(read, current, h.max_z_error),
{
    let steps = tile_plan::differences(
        values::promoted_all(current),
        values::promoted_all(previous),
    );
    let nums = lemma_steps(current, previous);
    lemma_chosen_constant(steps, None, DataType::I32, h.max_z_error, true, shape);
    let a = lemma_step_offset(steps, nums);
    let low = lerc1::least(lerc1::top(), steps);
    let read = lemma_read_constant(
        h,
        float::double_of_int(z),
        all,
        pos,
        x,
        Some(previous),
        Some(previous),
        current.len(),
        capacity,
        shape,
        low,
    );
    assert forall|i: int| 0 <= i < current.len() implies within(
        (#[trigger] read[i]).promoted(),
        current[i].promoted(),
        h.max_z_error,
    ) by {
        let (k, g) = lemma_int_extremes(steps, nums);
        lemma_are_ints(steps, nums, k);
        lemma_are_ints(steps, nums, g);
        float::lemma_int_order(nums[k], nums[g]);
        float::lemma_int_order(nums[k], a);
        assert(nums[k] <= nums[i] <= nums[g]);
        lemma_stepped_back(current[i], previous[i], z);
    }
    read
}

/// Whether a level is the distance of a number from the smallest.
spec fn level_fits(a: int, n: int, level: u32) -> bool {
    &&& -0x1_0000_0000 <= a
    &&& a <= n
    &&& n <= 0x1_0000_0000
    &&& level as int == (2 * (n - a) + 1) / 2
}

/// The levels of bit-stuffed differences.
proof fn lemma_diff_levels<T: Sample>(
    current: Seq<T>,
    previous: Seq<T>,
    bound: Double,
    shape: TileShape,
) -> (r: (Seq<u32>, int))
    requires
        T::kind().integer(),
        bound == (Double { bits: float::HALF_BITS }),
        previous.len() == current.len(),
        tile_plan::all_bounded(
            tile_plan::differences(
                values::promoted_all(current),
                values::promoted_all(previous),
            ),
        ),
        tile_plan::chosen(
            tile_plan::differences(
                values::promoted_all(current),
                values::promoted_all(previous),
            ),
            None,
            DataType::I32,
            bound,
            true,
        ) == Some(shape),
        shape.code == 1,
    ensures
        ({
            let (levels, a) = r;
            let low = float::double_of_int(a);
            &&& levels.len() == current.len()
            &&& 1 <= stuffed::bits_needed(stuffed::largest(levels)) <= 31
            &&& shape.diff
            &&& shape.type_code == tile_plan::reduction(low, DataType::I32).0
            &&& shape.body == values::scalar_bytes(
                low,
                tile_plan::reduction(low, DataType::I32).1,
            ) + stuffed::stuffed_bytes(levels)
            &&& values::coerced(low, tile_plan::reduction(low, DataType::I32).1) == low
            &&& tile_plan::step(bound) == float::double_of_int(1)
            &&& forall|i: int|
                0 <= i < levels.len() ==> level_fits(
                    a,
                    current[i].number() - previous[i].number(),
                    #[trigger] levels[i],
                )
        }),
{
    let steps = tile_plan::differences(
        values::promoted_all(current),
        values::promoted_all(previous),
    );
    lemma_constants();
    let nums = lemma_steps(current, previous);
    let levels = lemma_chosen_stuffed(steps, None, DataType::I32, bound, true, shape);
    let a = lemma_step_offset(steps, nums);
    let (b, s) = lemma_int_levels(steps, nums, bound, levels);
    let kb = choose|k: int| 0 <= k < nums.len() && #[trigger] nums[k] == b;
    lemma_are_ints(steps, nums, kb);
    float::lemma_int_order(a, b);
    assert forall|i: int| 0 <= i < levels.len() implies level_fits(
        a,
        current[i].number() - previous[i].number(),
        #[trigger] levels[i],
    ) by {
        assert(nums[i] == current[i].number() - previous[i].number());
        assert(b <= nums[i]);
        lemma_are_ints(steps, nums, i);
    }
    (levels, a)
}

/// Reading a bit-stuffed tile of differences.
proof fn lemma_diff_stuffed<T: Sample>(
    h: Lerc2Header,
    z: int,
    all: Seq<u8>,
    pos: int,
    x: nat,
    current: Seq<T>,
    previous: Seq<T>,
    capacity: nat,
    shape: TileShape,
    levels: Seq<u32>,
    a: int,
) -> (read: Seq<T>)
    requires
        tile_stands::<T>(h, all, pos, x, shape),
        h.version >= 5,
        T::kind().integer(),
        shape.diff,
        shape.code == 1,
        levels.len() == current.len(),
        levels.len() <= capacity,
        levels.len() <= 1024,
        z <= T::kind().most(),
        forall|i: int| 0 <= i < current.len() ==> (#[trigger] current[i]).number() <= z,
        1 <= stuffed::bits_needed(stuffed::largest(levels)) <= 31,
        shape.type_code == tile_plan::reduction(float::double_of_int(a), DataType::I32).0,
        shape.body == values::scalar_bytes(
            float::double_of_int(a),
            tile_plan::reduction(float::double_of_int(a), DataType::I32).1,
        ) + stuffed::stuffed_bytes(levels),
        values::coerced(
            float::double_of_int(a),
            tile_plan::reduction(float::double_of_int(a), DataType::I32).1,
        ) == float::double_of_int(a),
        tile_plan::step(h.max_z_error) == float::double_of_int(1),
        forall|i: int|
            0 <= i < levels.len() ==> level_fits(
                a,
                current[i].number() - previous[i].number(),
                #[trigger] levels[i],
            ),
    ensures
        lerc2_body::tile_read(
            h,
            float::double_of_int(z),
            all,
            pos,
            x as int,
            Some(previous),
            current.len(),
            capacity,
        ) == Ok::<_, Fault>((read, pos + 1 + shape.body.len())),
        restored(read, current, h.max_z_error),
{
    let read = lemma_read_stuffed(
        h,
        float::double_of_int(z),
        all,
        pos,
        x,
        Some(previous),
        Some(previous),
        capacity,
        shape,
        float::double_of_int(a),
        levels,
    );
    assert forall|i: int| 0 <= i < current.len() implies within(
        (#[trigger] read[i]).promoted(),
        current[i].promoted(),
        h.max_z_error,
    ) by {
        assert(level_fits(a, current[i].number() - previous[i].number(), levels[i]));
        lemma_diff_element(current[i], previous, i, a, levels[i], z, h.max_z_error);
    }
    read
}

/// A level of a difference leads back to the sample.
proof fn lemma_diff_element<T: Sample>(
    current: T,
    previous: Seq<T>,
    i: int,
    a: int,
    level: u32,
    z: int,
    bound: Double,
)
    requires
        T::kind().integer(),
        current.number() <= z <= T::kind().most(),
        level_fits(a, current.number() - previous[i].number(), level),
    ensures
        within(
            T::demoted(
                lerc2_body::stepped(
                    stuffed::quantized(
                        float::double_of_int(a),
                        float::double_of_int(1),
                        Double { bits: float::DOUBLE_INFINITY },
                        level,
                    ),
                    Some(previous),
                    i,
                    float::double_of_int(z),
                    false,
                ),
            ).promoted(),
            current.promoted(),
            bound,
        ),
{
    lemma_unlimited_level(current.number() - previous[i].number(), a, level);
    lemma_stepped_back(current, previous[i], z);
    lemma_same_within(current.promoted(), current.promoted(), bound);
}

/// Reading a tile of differences.
proof fn lemma_diff_tile<T: Sample>(
    h: Lerc2Header,
    z: int,
    all: Seq<u8>,
    pos: int,
    x: nat,
    current: Seq<T>,
    previous: Seq<T>,
    capacity: nat,
    shape: TileShape,
) -> (read: Seq<T>)
    requires
        diff_stands(h, z, all, pos, x, current, previous, capacity, shape),
    ensures
        lerc2_body::tile_read(
            h,
            float::double_of_int(z),
            all,
            pos,
            x as int,
            Some(previous),
            current.len(),
            capacity,
        ) == Ok::<_, Fault>((read, pos + 1 + shape.body.len())),
        restored(read, current, h.max_z_error),
{
    tile_plan::lemma_chosen_codes(
        tile_plan::differences(
            values::promoted_all(current),
            values::promoted_all(previous),
        ),
        None,
        DataType::I32,
        h.max_z_error,
        true,
    );
    if shape.code == 2 {
        lemma_diff_zero(h, z, all, pos, x, current, previous, capacity, shape);
        previous
    } else if shape.code == 3 {
        lemma_diff_constant(h, z, all, pos, x, current, previous, capacity, shape)
    } else {
        let (levels, a) = lemma_diff_levels(current, previous, h.max_z_error, shape);
        lemma_diff_stuffed(h, z, all, pos, x, current, previous, capacity, shape, levels, a)
    }
}

/// A bounded difference is a 32-bit integer.
proof fn lemma_i32_bounds(d: Double, n: int)
    requires
        d == float::double_of_int(n),
        -0x1_0000_0000 <= n <= 0x1_0000_0000,
        !d.below(Double { bits: tile_plan::I32_MIN_BITS }),
        !(Double { bits: tile_plan::I32_MAX_BITS }).below(d),
    ensures
        DataType::I32.least() <= n <= DataType::I32.most(),
{
    lemma_i32_constants();
    float::lemma_int_order(n, -0x8000_0000);
    float::lemma_int_order(0x7fff_ffff, n);
}

proof fn lemma_i32_constants()
    ensures
        float::double_of_int(-0x8000_0000) == (Double { bits: tile_plan::I32_MIN_BITS }),
        float::double_of_int(0x7fff_ffff) == (Double { bits: tile_plan::I32_MAX_BITS }),
{
    let low = Double { bits: tile_plan::I32_MIN_BITS };
    let high = Double { bits: tile_plan::I32_MAX_BITS };
    assert(low.significand() == 0x10_0000_0000_0000 && low.exponent() == 1053 && low.negative());
    assert(high.significand() == 0x1f_ffff_ffc0_0000 && high.exponent() == 1052);
    assert(low.finite() && high.finite() && !high.negative());
    lemma_is_int(low, -0x8000_0000, 0x10_0000_0000_0000, 1053, 21);
    lemma_is_int(high, 0x7fff_ffff, 0x1f_ffff_ffc0_0000, 1052, 22);
}

/// A double whose significand is an integer shifted to the left is that integer.
proof fn lemma_is_int(d: Double, n: int, m: nat, e: nat, shift: nat)
    requires
        d.finite(),
        d.significand() == m,
        d.exponent() == e,
        d.negative() == (n < 0),
        e + shift == 1074,
        m == float::abs_nat(n) * pow2(shift) || (shift == 21 && m == float::abs_nat(n) * 0x20_0000)
            || (shift == 22 && m == float::abs_nat(n) * 0x40_0000),
        float::abs_nat(n) < 0x20_0000_0000_0000,
    ensures
        d == float::double_of_int(n),
{
    let v = float::abs_nat(n);
    lemma2_to64();
    float::lemma_int_exact(n);
    lemma_pow2_adds(shift, e);
    let (a, b) = (pow2(shift), pow2(e));
    assert((v * a) * b == v * (a * b)) by (nonlinear_arith);
    float::lemma_size_monotone(d, float::double_of_int(n));
    float::lemma_double_whole(d);
    float::lemma_double_whole(float::double_of_int(n));
}

/// Without a limit every level counts.
proof fn lemma_unlimited_level(n: int, a: int, level: u32)
    requires
        -0x1_0000_0000 <= a <= n <= 0x1_0000_0000,
        level as int == (2 * (n - a) + 1) / 2,
    ensures
        stuffed::quantized(
            float::double_of_int(a),
            float::double_of_int(1),
            Double { bits: float::DOUBLE_INFINITY },
            level,
        ) == float::double_of_int(n),
{
    let limit = Double { bits: float::DOUBLE_INFINITY };
    let offset = float::double_of_int(a);
    let one = float::double_of_int(1);
    lemma_constants();
    float::lemma_int_exact(a);
    float::lemma_int_exact(1);
    float::lemma_int_exact(level as int);
    float::lemma_int_order(1, 0);
    assert(level == n - a);
    assert(limit.difference(offset) == limit);
    assert(limit.quotient(one).magnitude() == float::DOUBLE_INFINITY && !limit.quotient(
        one,
    ).negative());
    float::lemma_int_product(level as int, 1);
    assert(level * 1 == level) by (nonlinear_arith);
    float::lemma_int_sum(a, level as int);
}

/// The difference added to the depth before gives the sample, in either order.
proof fn lemma_stepped_back<T: Sample>(current: T, previous: T, z: int)
    requires
        T::kind().integer(),
        current.number() <= z <= T::kind().most(),
    ensures
        ({
            let step = float::double_of_int(current.number() - previous.number());
            let z_max = float::double_of_int(z);
            let a = T::demoted(previous.promoted().sum(step).lesser(z_max));
            let b = T::demoted(step.sum(previous.promoted()).lesser(z_max));
            &&& a.promoted() == current.promoted()
            &&& b.promoted() == current.promoted()
            &&& current.promoted().finite()
        }),
{
    current.law_integer();
    previous.law_integer();
    let (n, m) = (current.number(), previous.number());
    float::lemma_int_sum(m, n - m);
    float::lemma_int_sum(n - m, m);
    float::lemma_int_exact(n);
    float::lemma_int_exact(z);
    float::lemma_int_order(n, z);
    T::law_cast(n);
}

/// Reading a tile gives every sample back within the error bound.
#[verifier::rlimit(40)]
pub proof fn lemma_tile_restored<T: Sample>(
    h: Lerc2Header,
    z_max: Double,
    all: Seq<u8>,
    pos: int,
    x: nat,
    current: Seq<T>,
    before: Option<Seq<T>>,
    previous: Option<Seq<T>>,
    capacity: nat,
    span: Span,
) -> (read: Seq<T>)
    requires
        tile_stands::<T>(
            h,
            all,
            pos,
            x,
            tile_plan::tile_shape(current, before, h.max_z_error, h.depth as nat),
        ),
        tile_plan::tile_shape(current, before, h.max_z_error, h.depth as nat).diff ==> h.version
            >= 5,
        bound_stands(T::kind(), h.max_z_error),
        all_regular(current),
        current.len() <= capacity,
        current.len() <= 1024,
        before is Some <==> previous is Some,
        before matches Some(b) ==> b.len() == current.len(),
        h.max_z_error == (Double { bits: float::HALF_BITS }) && T::kind().integer() ==> previous
            == before,
        T::kind().integer() ==> exists|z: int|
            z_max == #[trigger] float::double_of_int(z) && z <= T::kind().most() && forall|i: int|
                0 <= i < current.len() ==> (#[trigger] current[i]).number() <= z,
        !T::kind().integer() ==> limited_by(current, z_max, span.reach) && reads_finite(
            current,
            h.max_z_error,
            z_max,
        ),
        above(current, span.floor),
    ensures
        lerc2_body::tile_read(
            h,
            z_max,
            all,
            pos,
            x as int,
            previous,
            current.len(),
            capacity,
        ) == Ok::<_, Fault>(
            (
                read,
                pos + 1 + tile_plan::tile_shape(
                    current,
                    before,
                    h.max_z_error,
                    h.depth as nat,
                ).body.len(),
            ),
        ),
        tile_kept(read, current, h.max_z_error, span),
{
    let bound = h.max_z_error;
    let shape = tile_plan::tile_shape(current, before, bound, h.depth as nat);
    let found = values::promoted_all(current);
    let raw = values::encoded_all(current);
    tile_plan::lemma_chosen_codes(found, Some(raw), T::kind(), bound, false);
    let absolute = tile_plan::chosen(found, Some(raw), T::kind(), bound, false)->0;
    if before is Some && tile_plan::diff_possible(T::kind(), bound, h.depth as nat) {
        lemma_near_half(bound);
    }
    if shape.diff {
        let z = choose|z: int|
            z_max == #[trigger] float::double_of_int(z) && z <= T::kind().most() && forall|i: int|
                0 <= i < current.len() ==> (#[trigger] current[i]).number() <= z;
        let read = lemma_diff_tile(h, z, all, pos, x, current, previous->0, capacity, shape);
        lemma_half_floor(read, current, span.floor);
        lemma_restored_kept(read, current, bound, span);
        read
    } else {
        lemma_not_diff(current, before, bound, h.depth as nat);
        lemma_chosen_raw(found, raw, T::kind(), bound, shape);
        if shape.code == 2 || shape.code == 3 {
            let read = lemma_flat_tile(
                h,
                z_max,
                all,
                pos,
                x,
                current,
                previous,
                capacity,
                shape,
            );
            lemma_copied_kept(read, current, bound, span);
            read
        } else if shape.code == 1 && !T::kind().integer() {
            lemma_float_tile(
                h,
                z_max,
                all,
                pos,
                x,
                current,
                previous,
                capacity,
                shape,
                span,
            )
        } else if shape.code == 1 {
            let z = choose|z: int|
                z_max == #[trigger] float::double_of_int(z) && z <= T::kind().most() && forall|
                    i: int,
                |
                    0 <= i < current.len() ==> (#[trigger] current[i]).number() <= z;
            let read = lemma_stuffed_tile(
                h,
                z,
                all,
                pos,
                x,
                current,
                previous,
                capacity,
                shape,
                span.floor,
            );
            lemma_restored_kept(read, current, bound, span);
            read
        } else {
            lemma_raw_tile(h, z_max, all, pos, x, current, previous, capacity, shape);
            lemma_copied_kept(current, current, bound, span);
            current
        }
    }
}

/// Whether floating-point samples lie below a limit and within reach.
pub open spec fn limited_by<T: Sample>(samples: Seq<T>, z_max: Double, reach: nat) -> bool {
    &&& z_max.finite()
    &&& z_max.size() <= reach
    &&& forall|i: int|
        0 <= i < samples.len() ==> (#[trigger] samples[i]).promoted().size() <= reach
            && !z_max.below(samples[i].promoted())
}

/// A tile that is stored without loss holds no levels.
pub proof fn lemma_exact_reads<T: Sample>(current: Seq<T>, bound: Double, z_max: Double)
    requires
        bound.zero(),
    ensures
        reads_finite(current, bound, z_max),
{
    reveal(tile_plan::chosen);
    reveal(tile_plan::quantized_levels);
}

/// The levels of a tile do not overflow where the distance from the smallest number of the
/// raster to the one that limits them does not.
pub proof fn lemma_range_reads<T: Sample>(
    current: Seq<T>,
    bound: Double,
    floor: Double,
    z_max: Double,
)
    requires
        !T::kind().integer(),
        bound_stands(T::kind(), bound),
        all_regular(current),
        above(current, floor),
        floor.finite(),
        z_max.finite(),
        z_max.below(float_laws::largest()),
        z_max.difference(floor).finite(),
        forall|i: int|
            0 <= i < current.len() ==> !z_max.below((#[trigger] current[i]).promoted()),
    ensures
        reads_finite(current, bound, z_max),
{
    let found = values::promoted_all(current);
    let raw = values::encoded_all(current);
    if let Some(shape) = tile_plan::chosen(found, Some(raw), T::kind(), bound, false) {
        if shape.code == 1 {
            let low = lerc1::least(lerc1::top(), found);
            let high = lerc1::greatest(lerc1::bottom(), found);
            let levels = lemma_chosen_stuffed(found, Some(raw), T::kind(), bound, false, shape);
            reveal(tile_plan::quantized_levels);
            let top = tile_plan::top_level(low, high, bound)->0;
            assert forall|i: int| 0 <= i < found.len() implies (#[trigger] found[i]).finite() by {
                assert(current[i].promoted().finite());
            }
            let k = lemma_least(found);
            let g = lemma_greatest(found);
            let offset = values::coerced(low, tile_plan::reduction(low, T::kind()).1);
            assert(found[k] == current[k].promoted() && found[g] == current[g].promoted());
            lemma_reduced_same(current[k]);
            lemma_same_finite(offset, low);
            float::lemma_order(offset, low);
            float::lemma_order(high, low);
            float::lemma_order(z_max, low);
            float::lemma_order(low, floor);
            assert(!current[k].promoted().below(floor));
            assert(!found[k].below(found[g]) || low.units() < high.units());
            float_laws::lemma_levels_finite(low, high, bound, top);
            float_laws::lemma_step_size(bound);
            float_laws::lemma_difference_shrinks(z_max, floor, offset);
            assert forall|i: int| 0 <= i < found.len() implies stuffed::quantized(
                offset,
                tile_plan::step(bound),
                z_max,
                tile_plan::level_of(#[trigger] found[i], low, bound, top),
            ).finite() by {
                float_laws::lemma_level_finite(
                    offset,
                    tile_plan::step(bound),
                    z_max,
                    tile_plan::level_of(found[i], low, bound, top),
                );
            }
        }
    }
}

proof fn lemma_restored_kept<T: Sample>(read: Seq<T>, given: Seq<T>, bound: Double, span: Span)
    requires
        T::kind().integer(),
        restored(read, given, bound),
        floor_held(read, given, span.floor),
    ensures
        tile_kept(read, given, bound, span),
{
}

proof fn lemma_copied_kept<T: Sample>(read: Seq<T>, given: Seq<T>, bound: Double, span: Span)
    requires
        all_regular(given),
        copied(read, given),
    ensures
        tile_kept(read, given, bound, span),
{
    assert forall|i: int| 0 <= i < given.len() implies stored_kept(
        #[trigger] read[i],
        given[i],
        bound,
        span,
    ) by {
        assert(given[i].promoted().finite());
        assert(read[i].promoted().same(given[i].promoted()));
        lemma_same_stored(read[i], given[i], bound, span);
    }
}

/// Reading a bit-stuffed tile of floating-point samples.
#[verifier::rlimit(40)]
proof fn lemma_float_tile<T: Sample>(
    h: Lerc2Header,
    z_max: Double,
    all: Seq<u8>,
    pos: int,
    x: nat,
    current: Seq<T>,
    previous: Option<Seq<T>>,
    capacity: nat,
    shape: TileShape,
    span: Span,
) -> (read: Seq<T>)
    requires
        tile_stands::<T>(h, all, pos, x, shape),
        !T::kind().integer(),
        bound_stands(T::kind(), h.max_z_error),
        all_regular(current),
        limited_by(current, z_max, span.reach),
        reads_finite(current, h.max_z_error, z_max),
        above(current, span.floor),
        tile_plan::chosen(
            values::promoted_all(current),
            Some(values::encoded_all(current)),
            T::kind(),
            h.max_z_error,
            false,
        ) == Some(shape),
        shape.code == 1,
        current.len() <= capacity,
        current.len() <= 1024,
    ensures
        lerc2_body::tile_read(
            h,
            z_max,
            all,
            pos,
            x as int,
            previous,
            current.len(),
            capacity,
        ) == Ok::<_, Fault>((read, pos + 1 + shape.body.len())),
        tile_kept(read, current, h.max_z_error, span),
{
    let bound = h.max_z_error;
    let found = values::promoted_all(current);
    let low = lerc1::least(lerc1::top(), found);
    let high = lerc1::greatest(lerc1::bottom(), found);
    let levels = lemma_chosen_stuffed(
        found,
        Some(values::encoded_all(current)),
        T::kind(),
        bound,
        false,
        shape,
    );
    reveal(tile_plan::quantized_levels);
    let top = tile_plan::top_level(low, high, bound)->0;
    assert forall|i: int| 0 <= i < found.len() implies (#[trigger] found[i]).finite() by {
        assert(current[i].promoted().finite());
    }
    let k = lemma_least(found);
    let g = lemma_greatest(found);
    let kept = tile_plan::reduction(low, T::kind()).1;
    let offset = values::coerced(low, kept);
    assert(found[k] == current[k].promoted() && found[g] == current[g].promoted());
    lemma_reduced_same(current[k]);
    let read = lemma_read_stuffed::<T>(
        h,
        z_max,
        all,
        pos,
        x,
        previous,
        None,
        capacity,
        shape,
        low,
        levels,
    );
    lemma_same_finite(offset, low);
    float::lemma_order(offset, low);
    float::lemma_order(z_max, high);
    assert forall|i: int| 0 <= i < current.len() implies stored_kept(
        #[trigger] read[i],
        current[i],
        bound,
        span,
    ) by {
        let v = found[i];
        assert(v == current[i].promoted());
        float::lemma_order(v, low);
        float::lemma_order(high, v);
        float::lemma_zero_size(bound);
        assert(levels[i] == tile_plan::level_of(v, low, bound, top));
        float_laws::lemma_level_near(v, low, high, bound, span.reach, top, offset, z_max);
        let r = stuffed::quantized(offset, tile_plan::step(bound), z_max, levels[i]);
        assert(float_laws::nearly_within(r, current[i].promoted(), bound, span.reach));
        assert(read[i] == T::demoted(r));
        if v.same(span.floor) {
            assert(!current[k].promoted().below(span.floor));
            lemma_same_finite(span.floor, v);
            float::lemma_order(span.floor, v);
            float::lemma_order(low, span.floor);
            float_laws::lemma_lowest_back(v, low, high, bound, span.reach, top, offset, z_max);
            lemma_same_back(current[k], r);
            float::lemma_order(read[i].promoted(), low);
            float::lemma_order(read[i].promoted(), span.floor);
        }
    }
    read
}

/// A sample comes back from what equals its number.
proof fn lemma_same_back<T: Sample>(sample: T, r: Double)
    requires
        sample.promoted().finite(),
        r.finite(),
        r.units() == sample.promoted().units(),
    ensures
        T::demoted(r).promoted().finite(),
        T::demoted(r).promoted().units() == sample.promoted().units(),
{
    let v = sample.promoted();
    sample.law_regular();
    sample.law_promotion();
    float::lemma_zero_size(v);
    float::lemma_zero_size(r);
    if v.zero() {
        T::law_zero(r);
        float::lemma_zero_size(T::demoted(r).promoted());
    } else {
        float::lemma_order(r, v);
        float::lemma_double_whole(r);
        float::lemma_double_whole(v);
        assert(r == v);
    }
}

/// Whether no sample is below a number.
pub open spec fn above<T: Sample>(samples: Seq<T>, floor: Double) -> bool {
    &&& floor.finite()
    &&& forall|i: int| 0 <= i < samples.len() ==> !(#[trigger] samples[i]).promoted().below(floor)
}

/// Whether samples that equal a number were read as such.
spec fn floor_held<T: Sample>(read: Seq<T>, given: Seq<T>, floor: Double) -> bool {
    forall|i: int|
        0 <= i < given.len() ==> (given[i].promoted().same(floor) ==> (
        #[trigger] read[i]).promoted().same(floor))
}

proof fn lemma_half_floor<T: Sample>(read: Seq<T>, given: Seq<T>, floor: Double)
    requires
        T::kind().integer(),
        restored(read, given, Double { bits: float::HALF_BITS }),
    ensures
        floor_held(read, given, floor),
{
    assert forall|i: int|
        0 <= i < given.len() && given[i].promoted().same(floor) implies (
    #[trigger] read[i]).promoted().same(floor) by {
        tiling_laws::lemma_half_exact(read[i], given[i]);
    }
}

/// What equals an ordinary number is one.
proof fn lemma_same_finite(a: Double, b: Double)
    requires
        a.same(b),
        b.finite(),
    ensures
        a.finite(),
{
}

/// A tile that is not of differences is the one chosen among the absolute encodings.
proof fn lemma_not_diff<T: Sample>(
    current: Seq<T>,
    before: Option<Seq<T>>,
    bound: Double,
    depth: nat,
)
    requires
        !tile_plan::tile_shape(current, before, bound, depth).diff,
    ensures
        tile_plan::tile_shape(current, before, bound, depth) == tile_plan::chosen(
            values::promoted_all(current),
            Some(values::encoded_all(current)),
            T::kind(),
            bound,
            false,
        )->0,
{
    if let Some(b) = before {
        tile_plan::lemma_chosen_codes(
            tile_plan::differences(
                values::promoted_all(current),
                values::promoted_all(b),
            ),
            None,
            DataType::I32,
            bound,
            true,
        );
    }
}

/// A tile of raw samples, or none that is bit-stuffed where the bound is zero.
proof fn lemma_chosen_raw(
    found: Seq<Double>,
    raw: Seq<u8>,
    base: DataType,
    bound: Double,
    shape: TileShape,
)
    requires
        tile_plan::chosen(found, Some(raw), base, bound, false) == Some(shape),
    ensures
        shape.code == 0 ==> shape == (TileShape { diff: false, code: 0, type_code: 0, body: raw }),
        bound.zero() ==> shape.code != 1,
{
    reveal(tile_plan::chosen);
    reveal(tile_plan::quantized_levels);
}

} // verus!
