//! When a sentinel that stands beside other samples is not mistaken for one of them.

use crate::analysis;
use crate::blocks;
use crate::body_laws;
use crate::error::Fault;
use crate::float;
use crate::float::{Double, Single};
use crate::float_error;
use crate::float_laws;
use crate::no_data;
use crate::options::EncodeOptions;
use crate::plan::Frame;
use crate::raster_laws;
use crate::rounding;
use crate::sample::Sample;
use crate::tile_laws;
use crate::tile_plan;
use crate::tiling_laws;
use vstd::arithmetic::power2::*;
use vstd::prelude::*;

verus! {

/// An integer that is further than the error bound from a number does not come back as it.
pub proof fn law_integer_apart<T: Sample>(sample: T, e: Double, bound: Double, reach: nat)
    requires
        T::kind().integer(),
        sample.promoted().finite(),
        e.finite(),
        float::abs_nat(sample.promoted().units() - e.units()) > bound.size(),
    ensures
        raster_laws::stays_apart(sample, e, bound, reach),
{
    assert forall|t: T| #[trigger]
        tile_laws::sample_kept(t, sample, bound, reach) implies !t.promoted().same(e) by {
        float::lemma_order(t.promoted(), e);
    }
}

/// A double that is further than the error bound and the rounding of its reconstruction from a
/// number does not come back as it.
pub proof fn law_double_apart(sample: Double, e: Double, bound: Double, reach: nat)
    requires
        sample.finite(),
        e.finite(),
        float_laws::RECIPROCAL * float::abs_nat(sample.units() - e.units())
            > float_laws::RECIPROCAL * bound.size() + bound.size() + reach,
    ensures
        raster_laws::stays_apart(sample, e, bound, reach),
{
    assert forall|t: Double| #[trigger]
        tile_laws::sample_kept(t, sample, bound, reach) implies !t.same(e) by {
        if t.same(e) {
            float::lemma_order(t, e);
            float::lemma_order(t, sample);
        }
    }
}

/// A single that is further than the error bound and the rounding of its reconstruction above a
/// number that is itself above another does not come back as the other.
pub proof fn law_single_apart(sample: Single, t: Single, e: Double, bound: Double, reach: nat)
    requires
        sample.promoted().finite(),
        t.finite(),
        e.below(t.widened()),
        sample.promoted().units() >= t.widened().units(),
        float_laws::RECIPROCAL * (sample.promoted().units() - t.widened().units())
            > float_laws::RECIPROCAL * bound.size() + bound.size() + reach,
    ensures
        raster_laws::stays_apart(sample, e, bound, reach),
{
    float::lemma_widen_exact(t);
    let a = t.widened();
    assert forall|x: Single| #[trigger]
        tile_laws::sample_kept(x, sample, bound, reach) implies !x.promoted().same(e) by {
        if x.promoted().same(e) {
            if bound.zero() || x.promoted().same(sample.promoted()) {
                if x.promoted().finite() {
                    float::lemma_order(x.promoted(), sample.promoted());
                    float::lemma_order(x.promoted(), a);
                }
            } else {
                let r = choose|r: Double|
                    #[trigger] float_laws::nearly_within(r, sample.promoted(), bound, reach) && x
                        == Single::demoted(r);
                float::lemma_narrow_above(r, t);
            }
        }
    }
}

/// A bound of so many steps below the lowest sample leaves the range of the integers.
proof fn lemma_far_out(low: int, bound: Double)
    requires
        -0x1_0000_0000 <= low <= 0x1_0000_0000,
        bound.finite(),
        !bound.negative(),
        bound.integral(),
        bound.whole() >= 0x10_0000_0000_0000,
    ensures
        float::double_of_int(low).difference(
            bound.sum(Double { bits: float::ONE_BITS }),
        ).below(float::double_of_int(-0x1_0000_0000)),
{
    let w = pow2(1074);
    lemma_pow2_pos(1074);
    tile_laws::lemma_constants();
    tile_laws::lemma_whole_is_int(bound);
    let n = bound.whole();
    float::lemma_int_exact(1);
    float::lemma_int_exact(low);
    float::lemma_int_exact(0x10_0000_0000_0000);
    float::lemma_int_exact(-0x8_0000_0000_0000);
    float::lemma_int_exact(-0x1_0000_0000);
    let s = bound.sum(Double { bits: float::ONE_BITS });
    let far: nat = 0x10_0000_0000_0000 * w;
    let total = n * w + w;
    assert(far <= total) by (nonlinear_arith)
        requires
            far == 0x10_0000_0000_0000 * w,
            total == n * w + w,
            n >= 0x10_0000_0000_0000,
            w > 0,
    ;
    assert(s == float::double_near(false, total as nat, 1));
    float::lemma_double_parts(
        false,
        rounding::round_magnitude(total as nat, 1, 52, float::DOUBLE_INFINITY as nat),
    );
    float_laws::lemma_near_monotone(far, total as nat, 1);
    assert(float::double_of_int(0x10_0000_0000_0000) == float::double_near(false, far, 1));
    let c = s.opposite();
    float::lemma_double_parts(!s.negative(), s.magnitude());
    assert(c.magnitude() == s.magnitude() && c.negative());
    let d = float::double_of_int(low).difference(s);
    if s.finite() {
        float::lemma_size_monotone(float::double_of_int(0x10_0000_0000_0000), s);
        assert(c.size() == s.size());
        let t = low * w - s.size();
        let half: nat = 0x8_0000_0000_0000 * w;
        assert(t < 0 && half <= float::abs_nat(t)) by (nonlinear_arith)
            requires
                t == low * w - s.size(),
                s.size() >= 0x10_0000_0000_0000 * w,
                low <= 0x1_0000_0000,
                half == 0x8_0000_0000_0000 * w,
                float::abs_nat(t) == (if t < 0 { -t } else { t }),
                w > 0,
        ;
        assert(d == float::double_near(true, float::abs_nat(t), 1));
        float::lemma_double_parts(
            true,
            rounding::round_magnitude(float::abs_nat(t), 1, 52, float::DOUBLE_INFINITY as nat),
        );
        float::lemma_double_parts(
            false,
            rounding::round_magnitude(float::abs_nat(t), 1, 52, float::DOUBLE_INFINITY as nat),
        );
        float_laws::lemma_near_monotone(half, float::abs_nat(t), 1);
        float::lemma_double_parts(
            true,
            rounding::round_magnitude(half, 1, 52, float::DOUBLE_INFINITY as nat),
        );
        float::lemma_double_parts(
            false,
            rounding::round_magnitude(half, 1, 52, float::DOUBLE_INFINITY as nat),
        );
        assert(float::double_of_int(-0x8_0000_0000_0000) == float::double_near(true, half, 1));
        float::lemma_int_order(-0x8_0000_0000_0000, -0x1_0000_0000);
    } else {
        float::lemma_size_monotone(
            float::double_of_int(-0x1_0000_0000),
            float::double_of_int(-0x1_0000_0000),
        );
        assert(d == c);
    }
}

/// What stands for the sentinel among integers that are stored with an error bound is further
/// than the bound below the others.
proof fn lemma_far_below<T: Sample>(low: int, bound: Double)
    requires
        T::kind().integer(),
        T::kind().least() <= low <= T::kind().most(),
        tile_laws::integer_bound(bound),
        bound != (Double { bits: float::HALF_BITS }),
        !float::double_of_int(low).difference(
            bound.floored().sum(Double { bits: float::ONE_BITS }),
        ).below(no_data::type_low(T::kind())),
    ensures
        ({
            let e = no_data::through::<T>(
                float::double_of_int(low).difference(
                    bound.floored().sum(Double { bits: float::ONE_BITS }),
                ),
            );
            e.finite() && float::double_of_int(low).units() - e.units() > bound.size()
        }),
{
    let least = T::kind().least();
    let w = pow2(1074);
    lemma_pow2_pos(1074);
    tile_laws::lemma_constants();
    tile_laws::lemma_whole_is_int(bound);
    let n = bound.whole();
    assert(bound.floored() == bound);
    float::lemma_int_exact(low);
    float::lemma_int_exact(least);
    let d = float::double_of_int(low).difference(bound.sum(Double { bits: float::ONE_BITS }));
    if n >= 0x10_0000_0000_0000 {
        lemma_far_out(low, bound);
        if least > -0x1_0000_0000 {
            float::lemma_int_order(-0x1_0000_0000, least);
        }
    } else {
        let m = low - n - 1;
        float::lemma_int_sum(n as int, 1);
        float::lemma_int_difference(low, (n + 1) as int);
        assert(d == float::double_of_int(m));
        float::lemma_int_exact(m);
        float::lemma_int_order(m, least);
        T::law_cast(m);
        assert(low * w - m * w > n * w) by (nonlinear_arith)
            requires
                m == low - n - 1,
                w > 0,
        ;
    }
}

/// What no number is below, the lowest of them is not below.
proof fn lemma_lowest_above(found: Seq<Double>, skip: Option<Double>, e: Double)
    requires
        forall|i: int|
            0 <= i < found.len() && !analysis::is_sentinel(#[trigger] found[i], skip)
                ==> !found[i].below(e),
        e.finite(),
    ensures
        !analysis::lowest(found, skip).below(e),
    decreases found.len(),
{
    if found.len() > 0 {
        let front = found.drop_last();
        assert forall|i: int|
            0 <= i < front.len() && !analysis::is_sentinel(
                #[trigger] front[i],
                skip,
            ) implies !front[i].below(e) by {
            assert(front[i] == found[i]);
        }
        lemma_lowest_above(front, skip, e);
        assert(found.last() == found[found.len() - 1]);
    }
}

/// The lowest of the valid samples that are no sentinel.
pub open spec fn lowest_other<T: Sample>(
    samples: Seq<T>,
    frame: Frame,
    mask: Option<Seq<u8>>,
    nd: Option<Double>,
) -> Double {
    let list = blocks::run_pixels(
        analysis::final_mask(samples, frame.pixels(), frame.depth as nat, mask, nd),
        0,
        frame.pixels(),
    );
    analysis::lowest(
        analysis::depth_lows(samples, list, frame.depth as nat, nd, None),
        None,
    )
}

/// No valid sample but the sentinel is below the lowest.
proof fn lemma_lowest_other<T: Sample>(
    samples: Seq<T>,
    frame: Frame,
    mask: Option<Seq<u8>>,
    options: EncodeOptions,
    nd: Option<Double>,
    p: int,
    d: int,
)
    requires
        raster_laws::asked(samples, frame, mask, options),
        no_data::sentinel::<T>(options.no_data_value, frame.depth as nat) == Ok::<
            Option<Double>,
            Fault,
        >(nd),
        0 <= p < frame.pixels(),
        0 <= d < frame.depth,
        blocks::is_valid(
            analysis::final_mask(samples, frame.pixels(), frame.depth as nat, mask, nd),
            p,
        ),
        !analysis::is_sentinel(
            tiling_laws::cell(samples, frame.depth as int, p, d).promoted(),
            nd,
        ),
    ensures
        raster_laws::is_value::<T>(lowest_other(samples, frame, mask, nd)),
        tiling_laws::cell(samples, frame.depth as int, p, d).promoted().finite(),
        !tiling_laws::cell(samples, frame.depth as int, p, d).promoted().below(
            lowest_other(samples, frame, mask, nd),
        ),
{
    let pixels = frame.pixels();
    let depth = frame.depth as nat;
    let entries = analysis::final_mask(samples, pixels, depth, mask, nd);
    let list = blocks::run_pixels(entries, 0, pixels);
    let x = tiling_laws::cell(samples, frame.depth as int, p, d).promoted();
    tiling_laws::lemma_run_has(entries, 0, pixels, p);
    let i = choose|i: int| 0 <= i < list.len() && list[i] == p;
    let lows = analysis::depth_lows(samples, list, depth, nd, None);
    assert forall|c: int| 0 <= c < depth implies raster_laws::is_value::<T>(#[trigger] lows[c])
        || lows[c] == (Double { bits: float::DOUBLE_INFINITY }) by {
        raster_laws::lemma_depth_values(samples, frame, mask, options, nd, c);
        raster_laws::lemma_lowest::<T>(analysis::depth_values(samples, list, depth, c), nd);
    }
    assert(raster_laws::is_value::<T>(lows[d]) && !x.below(lows[d]) && x.finite()) by {
        raster_laws::lemma_depth_values(samples, frame, mask, options, nd, d);
        let values = analysis::depth_values(samples, list, depth, d);
        assert(values[i] == x);
        assert(raster_laws::is_value::<T>(values[i]));
        raster_laws::lemma_lowest::<T>(values, nd);
    }
    raster_laws::lemma_lowest_open::<T>(lows, d);
}

/// Among integers, what stands for the sentinel is the lowest number that is stored.
#[verifier::rlimit(40)]
proof fn lemma_lowest_stored<T: Sample>(
    samples: Seq<T>,
    frame: Frame,
    mask: Option<Seq<u8>>,
    options: EncodeOptions,
    nd: Double,
    e: Double,
    p: int,
    d: int,
)
    requires
        raster_laws::asked(samples, frame, mask, options),
        no_data::sentinel::<T>(options.no_data_value, frame.depth as nat) == Ok::<
            Option<Double>,
            Fault,
        >(Some(nd)),
        analysis::found_in(
            samples,
            frame.pixels(),
            frame.depth as nat,
            mask,
            Some(nd),
            options,
        ).encoded_no_data == Some(e),
        raster_laws::is_value::<T>(e),
        e.below(lowest_other(samples, frame, mask, Some(nd))),
        0 <= p < frame.pixels(),
        0 <= d < frame.depth,
        blocks::is_valid(
            analysis::final_mask(samples, frame.pixels(), frame.depth as nat, mask, Some(nd)),
            p,
        ),
        tiling_laws::cell(samples, frame.depth as int, p, d).promoted().same(nd),
    ensures
        analysis::found_in(
            samples,
            frame.pixels(),
            frame.depth as nat,
            mask,
            Some(nd),
            options,
        ).z_min.same(e),
{
    let pixels = frame.pixels();
    let depth = frame.depth as nat;
    let found = analysis::found_in(samples, pixels, depth, mask, Some(nd), options);
    let list = blocks::run_pixels(found.mask, 0, pixels);
    tiling_laws::lemma_run_has(found.mask, 0, pixels, p);
    let i = choose|i: int| 0 <= i < list.len() && list[i] == p;
    let lows = analysis::depth_lows(samples, list, depth, Some(nd), Some(e));
    assert(raster_laws::all_values::<T>(lows)) by {
        assert forall|c: int| 0 <= c < depth implies raster_laws::is_value::<T>(
            #[trigger] lows[c],
        ) by {
            raster_laws::lemma_dim(samples, frame, mask, options, Some(nd), c);
        }
    }
    raster_laws::lemma_lowest::<T>(lows, None);
    assert(!e.below(lows[d])) by {
        raster_laws::lemma_dim(samples, frame, mask, options, Some(nd), d);
        raster_laws::lemma_depth_values(samples, frame, mask, options, Some(nd), d);
        let values = analysis::depth_values(samples, list, depth, d);
        assert(values[i].same(nd));
        assert(raster_laws::stored_number(values[i], Some(nd), Some(e)) == e);
    }
    assert forall|c: int| 0 <= c < lows.len() implies !(#[trigger] lows[c]).below(e) by {
        raster_laws::lemma_depth_values(samples, frame, mask, options, Some(nd), c);
        let values = analysis::depth_values(samples, list, depth, c);
        blocks::lemma_run_pixels(found.mask, 0, pixels);
        assert forall|j: int|
            0 <= j < values.len() && !analysis::is_sentinel(
                #[trigger] values[j],
                Some(nd),
            ) implies !values[j].below(e) by {
            lemma_lowest_other(samples, frame, mask, options, Some(nd), list[j], c);
        }
        lemma_lowest_above(values, Some(nd), e);
    }
    lemma_lowest_above(lows, None, e);
    assert(!analysis::is_sentinel(lows[d], None));
    assert(!lows[d].below(found.z_min));
    assert(raster_laws::is_value::<T>(lows[d]));
}

/// Where a sentinel stands beside other samples, there is a lowest of those.
proof fn lemma_low_value<T: Sample>(
    samples: Seq<T>,
    frame: Frame,
    mask: Option<Seq<u8>>,
    options: EncodeOptions,
    nd: Option<Double>,
)
    requires
        raster_laws::asked(samples, frame, mask, options),
        no_data::sentinel::<T>(options.no_data_value, frame.depth as nat) == Ok::<
            Option<Double>,
            Fault,
        >(nd),
        analysis::found_in(
            samples,
            frame.pixels(),
            frame.depth as nat,
            mask,
            nd,
            options,
        ).encoded_no_data is Some,
    ensures
        raster_laws::is_value::<T>(lowest_other(samples, frame, mask, nd)),
{
    let pixels = frame.pixels();
    let depth = frame.depth as nat;
    let v = nd->0;
    let p = choose|p: int|
        0 <= p < pixels && #[trigger] blocks::is_valid(mask, p) && analysis::some_no_data(
            samples,
            depth,
            p,
            v,
        ) && !analysis::all_no_data(samples, depth, p, v);
    raster_laws::lemma_stays_valid(samples, pixels, depth, mask, nd, p);
    let c = choose|c: int|
        0 <= c < depth && !(#[trigger] samples[p * depth as int + c]).promoted().same(v);
    assert(tiling_laws::cell(samples, frame.depth as int, p, c) == samples[p * depth as int + c]);
    lemma_lowest_other(samples, frame, mask, options, nd, p, c);
}

/// What stands for the sentinel stands out if it is below the other samples, and none that is
/// not below the lowest of them may come back as it.
#[verifier::rlimit(40)]
#[verifier::spinoff_prover]
proof fn lemma_stands_out<T: Sample>(
    samples: Seq<T>,
    frame: Frame,
    mask: Option<Seq<u8>>,
    options: EncodeOptions,
    v: Double,
    e: Double,
)
    requires
        raster_laws::asked(samples, frame, mask, options),
        no_data::sentinel::<T>(options.no_data_value, frame.depth as nat) == Ok::<
            Option<Double>,
            Fault,
        >(Some(v)),
        raster_laws::is_value::<T>(e),
        ({
            let low = lowest_other(samples, frame, mask, Some(v));
            let found = analysis::found_in(
                samples,
                frame.pixels(),
                frame.depth as nat,
                mask,
                Some(v),
                options,
            );
            &&& found.encoded_no_data == Some(e)
            &&& e.below(low)
            &&& forall|t: T|
                t.promoted().finite() && !(#[trigger] t.promoted()).below(low)
                    ==> raster_laws::stays_apart(
                    t,
                    e,
                    found.max_z_error,
                    raster_laws::raster_reach(found),
                )
        }),
    ensures
        raster_laws::stands_out(
            samples,
            frame,
            options,
            analysis::found_in(
                samples,
                frame.pixels(),
                frame.depth as nat,
                mask,
                Some(v),
                options,
            ),
            e,
        ),
{
    let pixels = frame.pixels();
    let depth = frame.depth as nat;
    let nd = Some(v);
    let found = analysis::found_in(samples, pixels, depth, mask, nd, options);
    let bound = found.max_z_error;
    let low = lowest_other(samples, frame, mask, nd);
    let p = choose|p: int|
        0 <= p < pixels && #[trigger] blocks::is_valid(mask, p) && analysis::some_no_data(
            samples,
            depth,
            p,
            v,
        ) && !analysis::all_no_data(samples, depth, p, v);
    raster_laws::lemma_stays_valid(samples, pixels, depth, mask, nd, p);
    let d = choose|d: int|
        0 <= d < depth && (#[trigger] samples[p * depth as int + d]).promoted().same(v);
    assert(tiling_laws::cell(samples, frame.depth as int, p, d) == samples[p * depth as int + d]);
    lemma_lowest_stored(samples, frame, mask, options, v, e, p, d);
    reveal(raster_laws::stands_out);
    assert forall|q: int, b: int|
        0 <= q < pixels && 0 <= b < frame.depth && blocks::is_valid(found.mask, q) && (
        options.no_data_value matches Some(given) ==> !(#[trigger] tiling_laws::cell(
            samples,
            frame.depth as int,
            q,
            b,
        )).promoted().same(no_data::through::<T>(given))) implies raster_laws::stays_apart(
        tiling_laws::cell(samples, frame.depth as int, q, b),
        e,
        bound,
        raster_laws::raster_reach(found),
    ) by {
        lemma_lowest_other(samples, frame, mask, options, nd, q, b);
        let t = tiling_laws::cell(samples, frame.depth as int, q, b);
        assert(!t.promoted().below(low));
    }
}

/// Rasters of integers come back with their sentinels: none of the other samples comes back as
/// what stands for the sentinel.
#[verifier::rlimit(40)]
pub proof fn law_integer_sentinel<T: Sample>(
    samples: Seq<T>,
    frame: Frame,
    mask: Option<Seq<u8>>,
    options: EncodeOptions,
)
    requires
        T::kind().integer(),
        raster_laws::asked(samples, frame, mask, options),
    ensures
        raster_laws::keeps(
            samples,
            frame,
            options,
            analysis::analysed(
                samples,
                frame.pixels(),
                frame.depth as nat,
                mask,
                options,
            )->Ok_0,
        ),
{
    let pixels = frame.pixels();
    let depth = frame.depth as nat;
    let nd = no_data::sentinel::<T>(options.no_data_value, depth)->Ok_0;
    let found = analysis::found_in(samples, pixels, depth, mask, nd, options);
    raster_laws::lemma_encoded_value(samples, frame, mask, options, nd);
    if found.encoded_no_data is Some && !raster_laws::lossless(found) {
        let e = found.encoded_no_data->0;
        let bound = found.max_z_error;
        let reach = raster_laws::raster_reach(found);
        let low = lowest_other(samples, frame, mask, nd);
        assert(bound != (Double { bits: float::HALF_BITS }));
        lemma_low_value(samples, frame, mask, options, nd);
        raster_laws::lemma_value_kept::<T>(low);
        let l = choose|l: int|
            low == #[trigger] float::double_of_int(l) && T::kind().least() <= l <= T::kind().most();
        lemma_far_below::<T>(l, bound);
        float::lemma_order(e, low);
        assert forall|t: T|
            t.promoted().finite() && !(#[trigger] t.promoted()).below(
                low,
            ) implies raster_laws::stays_apart(t, e, bound, reach) by {
            float::lemma_order(t.promoted(), low);
            law_integer_apart(t, e, bound, reach);
        }
        lemma_stands_out(samples, frame, mask, options, nd->0, e);
    }
}

/// Whether the samples of a raster of doubles are apart from what stands for the sentinel: more
/// than the error bound and the rounding of a reconstruction above it.
pub open spec fn double_margin(low: Double, e: Double, bound: Double, reach: nat) -> bool {
    float_laws::RECIPROCAL * (low.units() - e.units()) > float_laws::RECIPROCAL * bound.size()
        + bound.size() + reach
}

/// A raster of doubles comes back with its sentinels where the lowest of the other samples is
/// more than the error bound and the rounding of a reconstruction above what stands for the
/// sentinel: none of them comes back as that. [`law_double_margin`] tells where it is.
#[verifier::rlimit(40)]
pub proof fn law_double_sentinel(
    samples: Seq<Double>,
    frame: Frame,
    mask: Option<Seq<u8>>,
    options: EncodeOptions,
)
    requires
        raster_laws::asked(samples, frame, mask, options),
        ({
            let v = no_data::sentinel::<Double>(options.no_data_value, frame.depth as nat)->Ok_0;
            let found = analysis::analysed(
                samples,
                frame.pixels(),
                frame.depth as nat,
                mask,
                options,
            )->Ok_0;
            found.encoded_no_data matches Some(e) ==> double_margin(
                lowest_other(samples, frame, mask, v),
                e,
                found.max_z_error,
                raster_laws::raster_reach(found),
            )
        }),
    ensures
        ({
            let found = analysis::analysed(
                samples,
                frame.pixels(),
                frame.depth as nat,
                mask,
                options,
            )->Ok_0;
            found.encoded_no_data matches Some(e) ==> raster_laws::stands_out(
                samples,
                frame,
                options,
                found,
                e,
            )
        }),
{
    let pixels = frame.pixels();
    let depth = frame.depth as nat;
    let nd = no_data::sentinel::<Double>(options.no_data_value, depth)->Ok_0;
    let found = analysis::found_in(samples, pixels, depth, mask, nd, options);
    raster_laws::lemma_encoded_value(samples, frame, mask, options, nd);
    if found.encoded_no_data is Some {
        let e = found.encoded_no_data->0;
        let bound = found.max_z_error;
        let reach = raster_laws::raster_reach(found);
        let low = lowest_other(samples, frame, mask, nd);
        lemma_low_value(samples, frame, mask, options, nd);
        float::lemma_order(e, low);
        assert forall|t: Double|
            t.promoted().finite() && !(#[trigger] t.promoted()).below(
                low,
            ) implies raster_laws::stays_apart(t, e, bound, reach) by {
            float::lemma_order(t, low);
            law_double_apart(t, e, bound, reach);
        }
        lemma_stands_out(samples, frame, mask, options, nd->0, e);
    }
}

/// A raster of singles comes back with its sentinels where there is a single above what stands
/// for the sentinel that the lowest of the other samples is more than the error bound and the
/// rounding of a reconstruction above: none of them comes back as that. [`law_single_margin`]
/// tells of the error bounds that need no such single.
#[verifier::rlimit(40)]
pub proof fn law_single_sentinel(
    samples: Seq<Single>,
    frame: Frame,
    mask: Option<Seq<u8>>,
    options: EncodeOptions,
    between: Single,
)
    requires
        raster_laws::asked(samples, frame, mask, options),
        between.finite(),
        ({
            let v = no_data::sentinel::<Single>(options.no_data_value, frame.depth as nat)->Ok_0;
            let found = analysis::analysed(
                samples,
                frame.pixels(),
                frame.depth as nat,
                mask,
                options,
            )->Ok_0;
            found.encoded_no_data matches Some(e) ==> e.below(between.widened()) && double_margin(
                lowest_other(samples, frame, mask, v),
                between.widened(),
                found.max_z_error,
                raster_laws::raster_reach(found),
            )
        }),
    ensures
        ({
            let found = analysis::analysed(
                samples,
                frame.pixels(),
                frame.depth as nat,
                mask,
                options,
            )->Ok_0;
            found.encoded_no_data matches Some(e) ==> raster_laws::stands_out(
                samples,
                frame,
                options,
                found,
                e,
            )
        }),
{
    let pixels = frame.pixels();
    let depth = frame.depth as nat;
    let nd = no_data::sentinel::<Single>(options.no_data_value, depth)->Ok_0;
    let found = analysis::found_in(samples, pixels, depth, mask, nd, options);
    raster_laws::lemma_encoded_value(samples, frame, mask, options, nd);
    if found.encoded_no_data is Some {
        let e = found.encoded_no_data->0;
        let bound = found.max_z_error;
        let reach = raster_laws::raster_reach(found);
        let low = lowest_other(samples, frame, mask, nd);
        lemma_low_value(samples, frame, mask, options, nd);
        float::lemma_widen_exact(between);
        float::lemma_order(between.widened(), low);
        assert forall|t: Single|
            t.promoted().finite() && !(#[trigger] t.promoted()).below(
                low,
            ) implies raster_laws::stays_apart(t, e, bound, reach) by {
            float::lemma_order(t.promoted(), low);
            law_single_apart(t, between, e, bound, reach);
        }
        lemma_stands_out(samples, frame, mask, options, nd->0, e);
    }
}

/// The best candidate is below the threshold.
proof fn lemma_best_below(found: Seq<Double>, floor: Double, threshold: Double)
    ensures
        no_data::best_stand_in(found, floor, threshold) matches Some(e) ==> e.below(threshold),
    decreases found.len(),
{
    if found.len() > 0 {
        lemma_best_below(found.drop_last(), floor, threshold);
    }
}

/// What stands for a sentinel outside the range of the floating-point samples beside it.
proof fn lemma_outside_stand_in<T: Sample>(original: Double, low: Double, bound: Double)
    ensures
        ({
            let (error, e) = no_data::float_stand_in::<T>(original, low, bound);
            let threshold = no_data::through::<T>(low.difference(tile_plan::step(bound)));
            error.zero() || (error == bound && (e.below(threshold) || (e == original
                && !no_data::at_most(low, original))))
        }),
{
    lemma_best_below(
        no_data::stand_ins::<T>(low, bound),
        no_data::type_low(T::kind()),
        no_data::through::<T>(low.difference(tile_plan::step(bound))),
    );
}

/// What stands for a sentinel among floating-point samples that are stored with loss is below
/// the others less twice the bound, or below the sample that is nearest to that.
#[verifier::rlimit(40)]
#[verifier::spinoff_prover]
proof fn lemma_float_stand_in<T: Sample>(original: Double, low: Double, high: Double, bound: Double)
    requires
        !T::kind().integer(),
        original.finite(),
        low.finite(),
        high.finite(),
        !high.below(low),
        bound.finite(),
        bound.zero() || !bound.negative(),
        !no_data::stand_in::<T>(original, low, high, bound).0.zero(),
    ensures
        ({
            let (error, e) = no_data::stand_in::<T>(original, low, high, bound);
            let d = low.difference(tile_plan::step(bound));
            error == bound && (e.below(d) || e.below(no_data::through::<T>(d)))
        }),
{
    let step = tile_plan::step(bound);
    lemma_outside_stand_in::<T>(original, low, bound);
    if bound.zero() {
        assert(bound.same(Double { bits: 0 }));
    } else {
        tile_laws::lemma_constants();
        float_laws::lemma_product_sign(float::double_of_int(2), bound);
        float_laws::lemma_sum_above(high, step);
        float_laws::lemma_difference_down(low, step);
        assert(no_data::exclusion(T::kind(), bound) == step);
    }
}

/// The highest of the valid samples that are no sentinel is not below any of them.
proof fn lemma_highest_other<T: Sample>(
    samples: Seq<T>,
    frame: Frame,
    mask: Option<Seq<u8>>,
    options: EncodeOptions,
    nd: Option<Double>,
    p: int,
    d: int,
)
    requires
        raster_laws::asked(samples, frame, mask, options),
        no_data::sentinel::<T>(options.no_data_value, frame.depth as nat) == Ok::<
            Option<Double>,
            Fault,
        >(nd),
        0 <= p < frame.pixels(),
        0 <= d < frame.depth,
        blocks::is_valid(
            analysis::final_mask(samples, frame.pixels(), frame.depth as nat, mask, nd),
            p,
        ),
        !analysis::is_sentinel(
            tiling_laws::cell(samples, frame.depth as int, p, d).promoted(),
            nd,
        ),
    ensures
        highest_other(samples, frame, mask, nd).finite(),
        !highest_other(samples, frame, mask, nd).below(
            tiling_laws::cell(samples, frame.depth as int, p, d).promoted(),
        ),
{
    let pixels = frame.pixels();
    let depth = frame.depth as nat;
    let entries = analysis::final_mask(samples, pixels, depth, mask, nd);
    let list = blocks::run_pixels(entries, 0, pixels);
    let x = tiling_laws::cell(samples, frame.depth as int, p, d).promoted();
    tiling_laws::lemma_run_has(entries, 0, pixels, p);
    let i = choose|i: int| 0 <= i < list.len() && list[i] == p;
    let highs = analysis::depth_highs(samples, list, depth, nd, None);
    assert forall|c: int| 0 <= c < depth implies raster_laws::is_value::<T>(#[trigger] highs[c])
        || highs[c] == (Double {
        bits: (float::DOUBLE_SIGN + float::DOUBLE_INFINITY) as u64,
    }) by {
        raster_laws::lemma_depth_values(samples, frame, mask, options, nd, c);
        raster_laws::lemma_highest::<T>(analysis::depth_values(samples, list, depth, c), nd);
    }
    assert(raster_laws::is_value::<T>(highs[d]) && !highs[d].below(x) && x.finite()) by {
        raster_laws::lemma_depth_values(samples, frame, mask, options, nd, d);
        let values = analysis::depth_values(samples, list, depth, d);
        assert(values[i] == x);
        assert(raster_laws::is_value::<T>(values[i]));
        raster_laws::lemma_highest::<T>(values, nd);
    }
    raster_laws::lemma_highest_open::<T>(highs, d);
}

/// The highest of the valid samples that are no sentinel.
spec fn highest_other<T: Sample>(
    samples: Seq<T>,
    frame: Frame,
    mask: Option<Seq<u8>>,
    nd: Option<Double>,
) -> Double {
    let list = blocks::run_pixels(
        analysis::final_mask(samples, frame.pixels(), frame.depth as nat, mask, nd),
        0,
        frame.pixels(),
    );
    analysis::highest(
        analysis::depth_highs(samples, list, frame.depth as nat, nd, None),
        None,
    )
}

/// Where the numbers of a raster of doubles are no more than so many times the error bound, the
/// samples are apart from what stands for the sentinel.
#[verifier::rlimit(40)]
pub proof fn law_double_margin(
    samples: Seq<Double>,
    frame: Frame,
    mask: Option<Seq<u8>>,
    options: EncodeOptions,
)
    requires
        raster_laws::asked(samples, frame, mask, options),
        ({
            let found = analysis::analysed(
                samples,
                frame.pixels(),
                frame.depth as nat,
                mask,
                options,
            )->Ok_0;
            &&& !found.max_z_error.zero()
            &&& 2 * raster_laws::raster_reach(found) <= float_laws::RECIPROCAL
                * found.max_z_error.size()
        }),
    ensures
        ({
            let v = no_data::sentinel::<Double>(options.no_data_value, frame.depth as nat)->Ok_0;
            let found = analysis::analysed(
                samples,
                frame.pixels(),
                frame.depth as nat,
                mask,
                options,
            )->Ok_0;
            found.encoded_no_data matches Some(e) ==> double_margin(
                lowest_other(samples, frame, mask, v),
                e,
                found.max_z_error,
                raster_laws::raster_reach(found),
            )
        }),
{
    let pixels = frame.pixels();
    let depth = frame.depth as nat;
    let nd = no_data::sentinel::<Double>(options.no_data_value, depth)->Ok_0;
    let found = analysis::found_in(samples, pixels, depth, mask, nd, options);
    raster_laws::lemma_encoded_value(samples, frame, mask, options, nd);
    raster_laws::lemma_encoded_is(samples, frame, mask, options, nd);
    raster_laws::lemma_bounded(samples, frame, mask, options);
    if found.encoded_no_data is Some {
        let e = found.encoded_no_data->0;
        let v = nd->0;
        let low = lowest_other(samples, frame, mask, nd);
        let high = highest_other(samples, frame, mask, nd);
        let p = choose|p: int|
            0 <= p < pixels && #[trigger] blocks::is_valid(mask, p) && analysis::some_no_data(
                samples,
                depth,
                p,
                v,
            ) && !analysis::all_no_data(samples, depth, p, v);
        raster_laws::lemma_stays_valid(samples, pixels, depth, mask, nd, p);
        let d = choose|d: int|
            0 <= d < depth && (#[trigger] samples[p * depth as int + d]).promoted().same(v);
        let c = choose|c: int|
            0 <= c < depth && !(#[trigger] samples[p * depth as int + c]).promoted().same(v);
        let x = tiling_laws::cell(samples, frame.depth as int, p, c);
        assert(tiling_laws::cell(samples, frame.depth as int, p, d) == samples[p * depth as int
            + d]);
        assert(x == samples[p * depth as int + c]);
        lemma_lowest_other(samples, frame, mask, options, nd, p, c);
        lemma_highest_other(samples, frame, mask, options, nd, p, c);
        raster_laws::lemma_stored_cell(samples, frame, mask, options, nd, p, c);
        let bound = no_data::effective_error(Double::kind(), options.max_z_error);
        assert((found.max_z_error, e) == no_data::stand_in::<Double>(v, low, high, bound));
        lemma_float_stand_in::<Double>(v, low, high, bound);
        let step = tile_plan::step(bound);
        tile_laws::lemma_constants();
        float_laws::lemma_product_sign(float::double_of_int(2), bound);
        float_laws::lemma_difference_below(low, step);
        lemma_lowest_stored(samples, frame, mask, options, v, e, p, d);
        assert(body_laws::cell_bounded(
            found,
            c,
            tiling_laws::cell(found.samples, frame.depth as int, p, c),
        ));
        body_laws::lemma_between(low, found.z_min, found.z_max);
        float_laws::lemma_twice_below(e, low, bound, raster_laws::raster_reach(found));
    }
}

/// A single that is more than one and a half times the error bound above a number does not come
/// back as it, where numbers are no more than so many times the bound.
pub proof fn law_single_beyond(sample: Single, e: Double, bound: Double, reach: nat)
    requires
        sample.promoted().finite(),
        e.finite(),
        e.size() <= reach,
        !bound.zero(),
        bound.finite(),
        2 * (sample.promoted().units() - e.units()) > 3 * bound.size(),
        8 * (reach + float_laws::least_normal()) <= 0x100_0000 * bound.size(),
    ensures
        raster_laws::stays_apart(sample, e, bound, reach),
{
    float::lemma_zero_size(bound);
    assert forall|x: Single| #[trigger]
        tile_laws::sample_kept(x, sample, bound, reach) implies !x.promoted().same(e) by {
        if x.promoted().same(e) {
            assert(x.promoted().finite());
            float::lemma_order(x.promoted(), e);
            if x.promoted().same(sample.promoted()) {
                float::lemma_order(x.promoted(), sample.promoted());
            } else {
                let r = choose|r: Double|
                    #[trigger] float_laws::nearly_within(r, sample.promoted(), bound, reach) && x
                        == Single::demoted(r);
                float::lemma_widen_finite(x);
                float_error::lemma_narrow_error(r);
                let (b, up) = (bound.size() as int, r.units() - e.units());
                assert(0x1_0000_0000_0000 * (sample.promoted().units() - r.units())
                    <= 0x1_0000_0000_0000 * b + b + reach);
                assert(0x100_0000 * up <= r.size() + float_laws::least_normal());
                assert(r.size() <= reach + float::abs_nat(up));
                assert(4 * up > b);
            }
        }
    }
}

/// The lowest of the other samples of a raster of singles, and how far what stands for the
/// sentinel is below it.
#[verifier::rlimit(60)]
#[verifier::spinoff_prover]
proof fn lemma_single_spaced(
    samples: Seq<Single>,
    frame: Frame,
    mask: Option<Seq<u8>>,
    options: EncodeOptions,
    v: Double,
    e: Double,
) -> (low: Single)
    requires
        raster_laws::asked(samples, frame, mask, options),
        no_data::sentinel::<Single>(options.no_data_value, frame.depth as nat) == Ok::<
            Option<Double>,
            Fault,
        >(Some(v)),
        ({
            let found = analysis::found_in(
                samples,
                frame.pixels(),
                frame.depth as nat,
                mask,
                Some(v),
                options,
            );
            &&& found.encoded_no_data == Some(e)
            &&& !found.max_z_error.zero()
            &&& 8 * (raster_laws::raster_reach(found) + float_laws::least_normal()) <= 0x100_0000
                * found.max_z_error.size()
        }),
    ensures
        ({
            let found = analysis::found_in(
                samples,
                frame.pixels(),
                frame.depth as nat,
                mask,
                Some(v),
                options,
            );
            &&& low.finite()
            &&& low.widened() == lowest_other(samples, frame, mask, Some(v))
            &&& found.max_z_error.finite()
            &&& e.finite()
            &&& e.size() <= raster_laws::raster_reach(found)
            &&& 2 * (low.widened().units() - e.units()) > 3 * found.max_z_error.size()
        }),
{
    let pixels = frame.pixels();
    let depth = frame.depth as nat;
    let nd = Some(v);
    let found = analysis::found_in(samples, pixels, depth, mask, nd, options);
    raster_laws::lemma_encoded_value(samples, frame, mask, options, nd);
    raster_laws::lemma_encoded_is(samples, frame, mask, options, nd);
    raster_laws::lemma_bounded(samples, frame, mask, options);
    let least = lowest_other(samples, frame, mask, nd);
    let high = highest_other(samples, frame, mask, nd);
    let p = choose|p: int|
        0 <= p < pixels && #[trigger] blocks::is_valid(mask, p) && analysis::some_no_data(
            samples,
            depth,
            p,
            v,
        ) && !analysis::all_no_data(samples, depth, p, v);
    raster_laws::lemma_stays_valid(samples, pixels, depth, mask, nd, p);
    let d = choose|d: int|
        0 <= d < depth && (#[trigger] samples[p * depth as int + d]).promoted().same(v);
    let c = choose|c: int|
        0 <= c < depth && !(#[trigger] samples[p * depth as int + c]).promoted().same(v);
    let x = tiling_laws::cell(samples, frame.depth as int, p, c);
    assert(tiling_laws::cell(samples, frame.depth as int, p, d) == samples[p * depth as int + d]);
    assert(x == samples[p * depth as int + c]);
    lemma_lowest_other(samples, frame, mask, options, nd, p, c);
    lemma_highest_other(samples, frame, mask, options, nd, p, c);
    raster_laws::lemma_stored_cell(samples, frame, mask, options, nd, p, c);
    let low = choose|t: Single| #[trigger] t.promoted() == least;
    float::lemma_widen_finite(low);
    let bound = no_data::effective_error(Single::kind(), options.max_z_error);
    assert((found.max_z_error, e) == no_data::stand_in::<Single>(v, least, high, bound));
    lemma_float_stand_in::<Single>(v, least, high, bound);
    let step = tile_plan::step(bound);
    tile_laws::lemma_constants();
    float_laws::lemma_product_sign(float::double_of_int(2), bound);
    float_laws::lemma_single_under(e, low, step);
    lemma_lowest_stored(samples, frame, mask, options, v, e, p, d);
    assert(body_laws::cell_bounded(
        found,
        c,
        tiling_laws::cell(found.samples, frame.depth as int, p, c),
    ));
    body_laws::lemma_between(least, found.z_min, found.z_max);
    body_laws::lemma_between(e, found.z_min, found.z_max);
    float_laws::lemma_single_below(e, low, bound, raster_laws::raster_reach(found));
    low
}

/// A raster of singles comes back with its sentinels where its numbers, and the least normal
/// single, are no more than so many times the error bound: none of the other samples comes back
/// as what stands for the sentinel.
#[verifier::rlimit(60)]
#[verifier::spinoff_prover]
pub proof fn law_single_margin(
    samples: Seq<Single>,
    frame: Frame,
    mask: Option<Seq<u8>>,
    options: EncodeOptions,
)
    requires
        raster_laws::asked(samples, frame, mask, options),
        ({
            let found = analysis::analysed(
                samples,
                frame.pixels(),
                frame.depth as nat,
                mask,
                options,
            )->Ok_0;
            &&& !found.max_z_error.zero()
            &&& 8 * (raster_laws::raster_reach(found) + float_laws::least_normal()) <= 0x100_0000
                * found.max_z_error.size()
        }),
    ensures
        ({
            let found = analysis::analysed(
                samples,
                frame.pixels(),
                frame.depth as nat,
                mask,
                options,
            )->Ok_0;
            found.encoded_no_data matches Some(e) ==> raster_laws::stands_out(
                samples,
                frame,
                options,
                found,
                e,
            )
        }),
{
    let pixels = frame.pixels();
    let depth = frame.depth as nat;
    let nd = no_data::sentinel::<Single>(options.no_data_value, depth)->Ok_0;
    let found = analysis::found_in(samples, pixels, depth, mask, nd, options);
    raster_laws::lemma_encoded_value(samples, frame, mask, options, nd);
    if found.encoded_no_data is Some {
        let e = found.encoded_no_data->0;
        let v = nd->0;
        let bound = found.max_z_error;
        let reach = raster_laws::raster_reach(found);
        let low = lemma_single_spaced(samples, frame, mask, options, v, e);
        float::lemma_widen_exact(low);
        float::lemma_order(e, low.widened());
        assert forall|t: Single|
            t.promoted().finite() && !(#[trigger] t.promoted()).below(
                low.widened(),
            ) implies raster_laws::stays_apart(t, e, bound, reach) by {
            float::lemma_order(t.promoted(), low.widened());
            law_single_beyond(t, e, bound, reach);
        }
        lemma_stands_out(samples, frame, mask, options, v, e);
    }
}

} // verus!
