//! What is read back of an encoded raster.

use crate::allocation;
use crate::analysis;
use crate::analysis::Findings;
use crate::blob_laws;
use crate::blocks;
use crate::body_laws;
use crate::encoder;
use crate::encoder::Ready;
use crate::error::Fault;
use crate::float;
use crate::float::Double;
use crate::float_laws;
use crate::lerc2;
use crate::lerc2_body;
use crate::no_data;
use crate::options;
use crate::options::EncodeOptions;
use crate::plan::Frame;
use crate::raster;
use crate::raster::{MaskView, RasterView};
use crate::sample::Sample;
use crate::tile_laws;
use crate::tiling_laws;
use crate::types;
use crate::types::DataType;
use crate::values;
use vstd::arithmetic::div_mod::*;
use vstd::prelude::*;

verus! {

/// Whether a number is that of a sample.
pub open spec fn is_value<T: Sample>(value: Double) -> bool {
    value.finite() && exists|t: T| #[trigger] t.promoted() == value
}

/// The number of a sample survives storing, and is an integer where samples are.
pub proof fn lemma_value_kept<T: Sample>(value: Double)
    requires
        is_value::<T>(value),
    ensures
        values::coerced(value, T::kind()) == value,
        T::demoted(value).promoted() == value,
        T::kind().integer() ==> exists|z: int|
            value == #[trigger] float::double_of_int(z) && T::kind().least() <= z
                <= T::kind().most(),
{
    let t = choose|t: T| #[trigger] t.promoted() == value;
    t.law_regular();
    t.law_promotion();
    if T::kind().integer() {
        t.law_integer();
        tile_laws::lemma_coerced_int(t.number(), T::kind());
        assert(value == float::double_of_int(t.number()));
    } else if T::kind() == DataType::F32 {
        t.law_single();
    }
}

/// Whether numbers are those of samples.
pub open spec fn all_values<T: Sample>(found: Seq<Double>) -> bool {
    forall|i: int| 0 <= i < found.len() ==> is_value::<T>(#[trigger] found[i])
}

/// The lowest number that is no sentinel is one of them, unless there is none.
pub proof fn lemma_lowest<T: Sample>(found: Seq<Double>, skip: Option<Double>)
    requires
        all_values::<T>(found),
    ensures
        ({
            let r = analysis::lowest(found, skip);
            &&& is_value::<T>(r) || r == (Double { bits: float::DOUBLE_INFINITY })
            &&& forall|i: int|
                0 <= i < found.len() && !analysis::is_sentinel(#[trigger] found[i], skip)
                    ==> is_value::<T>(r) && !found[i].below(r)
        }),
    decreases found.len(),
{
    if found.len() > 0 {
        let front = found.drop_last();
        assert(all_values::<T>(front)) by {
            assert forall|i: int| 0 <= i < front.len() implies is_value::<T>(
                #[trigger] front[i],
            ) by {
                assert(front[i] == found[i]);
            }
        }
        lemma_lowest::<T>(front, skip);
        assert(is_value::<T>(found[found.len() - 1]));
        assert forall|i: int|
            0 <= i < found.len() && !analysis::is_sentinel(
                #[trigger] found[i],
                skip,
            ) implies is_value::<T>(analysis::lowest(found, skip)) && !found[i].below(
            analysis::lowest(found, skip),
        ) by {
            if i < front.len() {
                assert(front[i] == found[i]);
            }
        }
    }
}

/// The highest number that is no sentinel is one of them, unless there is none.
pub proof fn lemma_highest<T: Sample>(found: Seq<Double>, skip: Option<Double>)
    requires
        all_values::<T>(found),
    ensures
        ({
            let r = analysis::highest(found, skip);
            &&& is_value::<T>(r) || r == (Double {
                bits: (float::DOUBLE_SIGN + float::DOUBLE_INFINITY) as u64,
            })
            &&& forall|i: int|
                0 <= i < found.len() && !analysis::is_sentinel(#[trigger] found[i], skip)
                    ==> is_value::<T>(r) && !r.below(found[i])
        }),
    decreases found.len(),
{
    if found.len() > 0 {
        let front = found.drop_last();
        assert(all_values::<T>(front)) by {
            assert forall|i: int| 0 <= i < front.len() implies is_value::<T>(
                #[trigger] front[i],
            ) by {
                assert(front[i] == found[i]);
            }
        }
        lemma_highest::<T>(front, skip);
        assert(is_value::<T>(found[found.len() - 1]));
        assert forall|i: int|
            0 <= i < found.len() && !analysis::is_sentinel(
                #[trigger] found[i],
                skip,
            ) implies is_value::<T>(analysis::highest(found, skip)) && !analysis::highest(
            found,
            skip,
        ).below(found[i]) by {
            if i < front.len() {
                assert(front[i] == found[i]);
            }
        }
    }
}

/// The error bound that integers are stored with.
proof fn lemma_effective(data_type: DataType, requested: Double)
    requires
        data_type.integer(),
        requested.finite(),
        !requested.below(Double { bits: 0 }),
    ensures
        ({
            let bound = no_data::effective_error(data_type, requested);
            &&& tile_laws::integer_bound(bound)
            &&& bound == (Double { bits: float::HALF_BITS }) || bound.size() <= requested.size()
        }),
{
    float::lemma_floored(requested);
    let f = requested.floored();
    let half = Double { bits: float::HALF_BITS };
    tile_laws::lemma_constants();
    float::lemma_order(half, f);
    float::lemma_order(f, half);
    let w = vstd::arithmetic::power2::pow2(1074);
    vstd::arithmetic::power2::lemma_pow2_pos(1074);
    if f.greater(half) == f {
        // a whole number of at least one half is at least one
        lemma_fundamental_div_mod(f.size() as int, w as int);
        assert(f.whole() >= 1) by {
            if f.whole() == 0 {
                assert(w * 0 == 0) by (nonlinear_arith);
            }
        }
    }
}

/// The number that is stored for one of a depth.
pub open spec fn stored_number(value: Double, nd: Option<Double>, encoded: Option<Double>) -> Double {
    match encoded {
        Some(e) => if analysis::is_sentinel(value, nd) {
            e
        } else {
            value
        },
        None => value,
    }
}

/// The lower bound of a depth, with what stands for the sentinel where that occurs.
pub open spec fn low_of(found: Seq<Double>, nd: Option<Double>, encoded: Option<Double>) -> Double {
    match encoded {
        Some(v) => if analysis::occurs(found, nd->0) {
            analysis::lowest(found, nd).lesser(v)
        } else {
            analysis::lowest(found, nd)
        },
        None => analysis::lowest(found, nd),
    }
}

/// The upper bound of a depth, with what stands for the sentinel where that occurs.
pub open spec fn high_of(found: Seq<Double>, nd: Option<Double>, encoded: Option<Double>) -> Double {
    match encoded {
        Some(v) => if analysis::occurs(found, nd->0) {
            analysis::highest(found, nd).greater(v)
        } else {
            analysis::highest(found, nd)
        },
        None => analysis::highest(found, nd),
    }
}

/// The bounds of a depth are numbers of samples and bound what is stored.
proof fn lemma_dim_bounds<T: Sample>(
    found: Seq<Double>,
    nd: Option<Double>,
    encoded: Option<Double>,
)
    requires
        all_values::<T>(found),
        found.len() > 0,
        encoded matches Some(e) ==> nd is Some && is_value::<T>(e),
        encoded is None ==> forall|i: int|
            0 <= i < found.len() ==> !analysis::is_sentinel(#[trigger] found[i], nd),
    ensures
        is_value::<T>(low_of(found, nd, encoded)),
        is_value::<T>(high_of(found, nd, encoded)),
        !high_of(found, nd, encoded).below(low_of(found, nd, encoded)),
        forall|i: int|
            0 <= i < found.len() ==> !stored_number(#[trigger] found[i], nd, encoded).below(
                low_of(found, nd, encoded),
            ) && !high_of(found, nd, encoded).below(stored_number(found[i], nd, encoded)),
{
    lemma_lowest::<T>(found, nd);
    lemma_highest::<T>(found, nd);
    let low = low_of(found, nd, encoded);
    let high = high_of(found, nd, encoded);
    assert(is_value::<T>(found[0]));
    if encoded is Some && analysis::occurs(found, nd->0) {
    } else {
        assert(!analysis::is_sentinel(found[0], nd)) by {
            if encoded is Some {
                assert(!found[0].same(nd->0));
            }
        }
    }
    assert forall|i: int| 0 <= i < found.len() implies !stored_number(
        #[trigger] found[i],
        nd,
        encoded,
    ).below(low) && !high.below(stored_number(found[i], nd, encoded)) by {
        assert(is_value::<T>(found[i]));
        if encoded is Some && analysis::is_sentinel(found[i], nd) {
            assert(analysis::occurs(found, nd->0)) by {
                assert(found[i].same(nd->0));
            }
        }
    }
    let y = stored_number(found[0], nd, encoded);
    assert(!y.below(low) && !high.below(y));
}

/// The best candidate is one of them.
proof fn lemma_best<T: Sample>(found: Seq<Double>, floor: Double, threshold: Double)
    requires
        forall|i: int|
            0 <= i < found.len() && (#[trigger] found[i]).finite() ==> is_value::<T>(found[i]),
    ensures
        no_data::best_stand_in(found, floor, threshold) matches Some(e) ==> is_value::<T>(e),
    decreases found.len(),
{
    if found.len() > 0 {
        let front = found.drop_last();
        assert forall|i: int| 0 <= i < front.len() && (#[trigger] front[i]).finite() implies is_value::<
            T,
        >(front[i]) by {
            assert(front[i] == found[i]);
        }
        lemma_best::<T>(front, floor, threshold);
        assert(found.last() == found[found.len() - 1]);
    }
}

/// What a number becomes in the sample type is the number of a sample.
proof fn lemma_through<T: Sample>(value: Double)
    ensures
        no_data::through::<T>(value).finite() ==> is_value::<T>(no_data::through::<T>(value)),
{
    assert(no_data::through::<T>(value) == T::demoted(value).promoted());
}

/// Every candidate is the number of a sample.
proof fn lemma_candidates<T: Sample>(low: Double, bound: Double)
    ensures
        forall|i: int|
            0 <= i < no_data::stand_ins::<T>(low, bound).len() && (#[trigger] no_data::stand_ins::<
                T,
            >(low, bound)[i]).finite() ==> is_value::<T>(no_data::stand_ins::<T>(low, bound)[i]),
{
    reveal(no_data::stand_ins);
    let found = no_data::stand_ins::<T>(low, bound);
    assert forall|i: int| 0 <= i < found.len() && (#[trigger] found[i]).finite() implies is_value::<T>(
        found[i],
    ) by {
        lemma_through::<T>(no_data::candidates(low, bound)[i]);
    }
}

/// What stands for a sentinel is the number of a sample.
proof fn lemma_stand_in_value<T: Sample>(original: Double, low: Double, high: Double, bound: Double)
    requires
        is_value::<T>(original),
    ensures
        is_value::<T>(no_data::stand_in::<T>(original, low, high, bound).1),
        no_data::stand_in::<T>(original, low, high, bound).0 == bound || no_data::stand_in::<T>(
            original,
            low,
            high,
            bound,
        ).0 == no_data::lossless_error(T::kind()),
{
    if T::kind().integer() {
        let one = Double { bits: float::ONE_BITS };
        let a = T::demoted(low.difference(bound.floored().sum(one)));
        let b = T::demoted(low.difference(one));
        let c = T::demoted(high.sum(one));
        a.law_integer();
        b.law_integer();
        c.law_integer();
        float::lemma_int_exact(a.number());
        float::lemma_int_exact(b.number());
        float::lemma_int_exact(c.number());
        assert(is_value::<T>(a.promoted()) && is_value::<T>(b.promoted()) && is_value::<T>(
            c.promoted(),
        ));
    } else {
        lemma_candidates::<T>(low, bound);
        lemma_best::<T>(
            no_data::stand_ins::<T>(low, bound),
            no_data::type_low(T::kind()),
            no_data::through::<T>(
                low.difference(Double { bits: float::TWO_BITS }.product(bound)),
            ),
        );
    }
}

/// What stands for a sentinel equals no number within the bounds of the others, unless it is
/// the sentinel itself.
#[verifier::rlimit(40)]
#[verifier::spinoff_prover]
proof fn lemma_stand_in_apart<T: Sample>(
    original: Double,
    low: Double,
    high: Double,
    bound: Double,
    value: Double,
)
    requires
        !T::kind().integer() ==> no_data::stand_in::<T>(original, low, high, bound).0.zero(),
        !value.below(low),
        !high.below(value),
        low.finite(),
        high.finite(),
        value.finite(),
    ensures
        ({
            let e = no_data::stand_in::<T>(original, low, high, bound).1;
            e == original || !value.same(e)
        }),
{
    if !T::kind().integer() && bound.zero() {
        assert(bound.same(Double { bits: 0 }));
    }
}

/// A pixel that stays valid was valid, and not all of its samples are the sentinel.
pub proof fn lemma_stays_valid<T: Sample>(
    samples: Seq<T>,
    pixels: nat,
    depth: nat,
    mask: Option<Seq<u8>>,
    nd: Option<Double>,
    p: int,
)
    requires
        blocks::mask_fits(mask, pixels),
        0 <= p < pixels,
    ensures
        blocks::is_valid(analysis::final_mask(samples, pixels, depth, mask, nd), p) <==> (
        blocks::is_valid(mask, p) && (nd matches Some(v) ==> !analysis::all_no_data(
            samples,
            depth,
            p,
            v,
        ))),
{
}

/// What is known of a request that can be encoded.
pub open spec fn asked<T: Sample>(
    samples: Seq<T>,
    frame: Frame,
    mask: Option<Seq<u8>>,
    options: EncodeOptions,
) -> bool {
    &&& frame.wf()
    &&& frame.width > 0
    &&& frame.height > 0
    &&& samples.len() == frame.pixels() * frame.depth as nat
    &&& blocks::mask_fits(mask, frame.pixels())
    &&& options::options_fault(options) is None
    &&& analysis::analysed(samples, frame.pixels(), frame.depth as nat, mask, options) is Ok
}

/// What is known of the request behind an encoded raster that comes back.
pub open spec fn requested<T: Sample>(
    samples: Seq<T>,
    frame: Frame,
    mask: Option<Seq<u8>>,
    options: EncodeOptions,
) -> bool {
    &&& asked(samples, frame, mask, options)
    &&& keeps(
        samples,
        frame,
        options,
        analysis::analysed(samples, frame.pixels(), frame.depth as nat, mask, options)->Ok_0,
    )
}

/// How far the numbers of a raster reach, in units.
pub open spec fn raster_reach<T>(found: Findings<T>) -> nat {
    tile_laws::reach_of(found.z_min, found.z_max)
}

/// Whether nothing that a sample may come back as equals a number.
pub open spec fn stays_apart<T: Sample>(sample: T, e: Double, bound: Double, reach: nat) -> bool {
    forall|t: T|
        #[trigger] tile_laws::sample_kept(t, sample, bound, reach) ==> !t.promoted().same(e)
}

/// Whether what stands for the sentinel is the lowest number that a raster stores, and no other
/// valid sample may come back as it.
#[verifier::opaque]
pub open spec fn stands_out<T: Sample>(
    samples: Seq<T>,
    frame: Frame,
    options: EncodeOptions,
    found: Findings<T>,
    e: Double,
) -> bool {
    &&& found.z_min.same(e)
    &&& forall|p: int, d: int|
        0 <= p < frame.pixels() && 0 <= d < frame.depth && blocks::is_valid(found.mask, p) && (
        options.no_data_value matches Some(v) ==> !(#[trigger] tiling_laws::cell(
            samples,
            frame.depth as int,
            p,
            d,
        )).promoted().same(no_data::through::<T>(v))) ==> stays_apart(
            tiling_laws::cell(samples, frame.depth as int, p, d),
            e,
            found.max_z_error,
            raster_reach(found),
        )
}

/// Whether the way a raster is stored keeps it: no level that floating-point samples are stored
/// as overflows when it is read, and where a sentinel stands beside other samples of a pixel,
/// samples are stored without loss or none is mistaken for what stands for the sentinel.
pub open spec fn keeps<T: Sample>(
    samples: Seq<T>,
    frame: Frame,
    options: EncodeOptions,
    found: Findings<T>,
) -> bool {
    &&& found.encoded_no_data matches Some(e) ==> lossless(found) || stands_out(
        samples,
        frame,
        options,
        found,
        e,
    )
    &&& !T::kind().integer() && body_laws::tiled(found, frame) ==> tiling_laws::rebuilds(
        frame.tiling(found.max_z_error),
        found.mask,
        found.samples,
        found.ranges,
        found.z_max,
    )
}

/// The samples of a depth are numbers of samples.
pub proof fn lemma_depth_values<T: Sample>(
    samples: Seq<T>,
    frame: Frame,
    mask: Option<Seq<u8>>,
    options: EncodeOptions,
    nd: Option<Double>,
    d: int,
)
    requires
        asked(samples, frame, mask, options),
        no_data::sentinel::<T>(options.no_data_value, frame.depth as nat) == Ok::<
            Option<Double>,
            Fault,
        >(nd),
        0 <= d < frame.depth,
    ensures
        ({
            let entries = analysis::final_mask(
                samples,
                frame.pixels(),
                frame.depth as nat,
                mask,
                nd,
            );
            let list = blocks::run_pixels(entries, 0, frame.pixels());
            let found = analysis::depth_values(samples, list, frame.depth as nat, d);
            &&& all_values::<T>(found)
            &&& found.len() == list.len()
            &&& forall|i: int|
                0 <= i < list.len() ==> #[trigger] found[i] == tiling_laws::cell(
                    samples,
                    frame.depth as int,
                    list[i],
                    d,
                ).promoted()
        }),
{
    let pixels = frame.pixels();
    let depth = frame.depth as nat;
    let entries = analysis::final_mask(samples, pixels, depth, mask, nd);
    let list = blocks::run_pixels(entries, 0, pixels);
    let found = analysis::depth_values(samples, list, depth, d);
    blocks::lemma_run_pixels(entries, 0, pixels);
    assert forall|i: int| 0 <= i < list.len() implies is_value::<T>(#[trigger] found[i]) && found[i]
        == tiling_laws::cell(samples, frame.depth as int, list[i], d).promoted() by {
        let p = list[i];
        assert(0 <= p < pixels && blocks::is_valid(entries, p));
        lemma_stays_valid(samples, pixels, depth, mask, nd, p);
        assert(blocks::is_valid(mask, p));
        assert(analysis::pixel_finite(samples, depth, p));
        assert(samples[p * depth as int + d].promoted().finite());
    }
}

/// A sentinel that stands beside other samples is the number of a sample.
proof fn lemma_sentinel_value<T: Sample>(
    samples: Seq<T>,
    pixels: nat,
    depth: nat,
    mask: Option<Seq<u8>>,
    given: Double,
)
    requires
        analysis::valid_finite(samples, pixels, depth, mask),
        analysis::mixed(samples, pixels, depth, mask, no_data::through::<T>(given)),
    ensures
        is_value::<T>(no_data::through::<T>(given)),
{
    let v = no_data::through::<T>(given);
    let p = choose|p: int|
        0 <= p < pixels && #[trigger] blocks::is_valid(mask, p) && analysis::some_no_data(
            samples,
            depth,
            p,
            v,
        ) && !analysis::all_no_data(samples, depth, p, v);
    let d = choose|d: int|
        0 <= d < depth && (#[trigger] samples[p * depth as int + d]).promoted().same(v);
    assert(analysis::pixel_finite(samples, depth, p));
    assert(samples[p * depth as int + d].promoted().finite());
    assert(v == T::demoted(given).promoted());
}

/// The bounds that rasters are stored with keep their samples.
proof fn lemma_bounds_keep(data_type: DataType, requested: Double)
    requires
        requested.finite(),
        !requested.below(Double { bits: 0 }),
    ensures
        data_type.integer() ==> tile_laws::integer_bound(
            no_data::effective_error(data_type, requested),
        ),
        data_type.integer() ==> tile_laws::integer_bound(no_data::lossless_error(data_type)),
        no_data::effective_error(data_type, requested).finite(),
        no_data::lossless_error(data_type).finite(),
{
    if data_type.integer() {
        lemma_effective(data_type, requested);
    }
}

/// A sentinel that occurs is the number of a sample, and so is what stands for it.
#[verifier::spinoff_prover]
pub proof fn lemma_encoded_value<T: Sample>(
    samples: Seq<T>,
    frame: Frame,
    mask: Option<Seq<u8>>,
    options: EncodeOptions,
    nd: Option<Double>,
)
    requires
        asked(samples, frame, mask, options),
        no_data::sentinel::<T>(options.no_data_value, frame.depth as nat) == Ok::<
            Option<Double>,
            Fault,
        >(nd),
    ensures
        ({
            let (error, encoded) = analysis::settled(
                samples,
                frame.pixels(),
                frame.depth as nat,
                mask,
                nd,
                options.max_z_error,
            );
            let bound = no_data::effective_error(T::kind(), options.max_z_error);
            &&& encoded matches Some(e) ==> is_value::<T>(e) && nd is Some && is_value::<T>(nd->0)
            &&& error == bound || error == no_data::lossless_error(T::kind())
            &&& encoded is None ==> error == bound
            &&& T::kind().integer() ==> tile_laws::integer_bound(error)
            &&& error.finite()
        }),
{
    let pixels = frame.pixels();
    let depth = frame.depth as nat;
    let bound = no_data::effective_error(T::kind(), options.max_z_error);
    lemma_bounds_keep(T::kind(), options.max_z_error);
    if nd is Some && analysis::mixed(samples, pixels, depth, mask, nd->0) {
        let list = blocks::run_pixels(
            analysis::final_mask(samples, pixels, depth, mask, nd),
            0,
            pixels,
        );
        lemma_sentinel_value(samples, pixels, depth, mask, options.no_data_value->0);
        lemma_stand_in_value::<T>(
            nd->0,
            analysis::lowest(analysis::depth_lows(samples, list, depth, nd, None), None),
            analysis::highest(analysis::depth_highs(samples, list, depth, nd, None), None),
            bound,
        );
    }
}

/// What is stored of a sample equals its number, or what stands for the sentinel.
pub proof fn lemma_stored_cell<T: Sample>(
    samples: Seq<T>,
    frame: Frame,
    mask: Option<Seq<u8>>,
    options: EncodeOptions,
    nd: Option<Double>,
    p: int,
    d: int,
)
    requires
        asked(samples, frame, mask, options),
        no_data::sentinel::<T>(options.no_data_value, frame.depth as nat) == Ok::<
            Option<Double>,
            Fault,
        >(nd),
        0 <= p < frame.pixels(),
        0 <= d < frame.depth,
        tiling_laws::cell(samples, frame.depth as int, p, d).promoted().finite(),
    ensures
        ({
            let found = analysis::found_in(
                samples,
                frame.pixels(),
                frame.depth as nat,
                mask,
                nd,
                options,
            );
            let x = tiling_laws::cell(samples, frame.depth as int, p, d).promoted();
            let y = tiling_laws::cell(found.samples, frame.depth as int, p, d).promoted();
            &&& y.finite()
            &&& y.same(stored_number(x, nd, found.encoded_no_data))
            &&& !analysis::is_sentinel(x, nd) ==> tiling_laws::cell(
                found.samples,
                frame.depth as int,
                p,
                d,
            ) == tiling_laws::cell(samples, frame.depth as int, p, d)
        }),
{
    let depth = frame.depth as nat;
    let found = analysis::found_in(samples, frame.pixels(), depth, mask, nd, options);
    raster::lemma_sample_index(p as nat, depth, d as nat, frame.pixels());
    lemma_encoded_value(samples, frame, mask, options, nd);
    if found.encoded_no_data is Some {
        let e = found.encoded_no_data->0;
        lemma_value_kept::<T>(e);
    }
}

/// The analysis of a raster that comes back bounds what it stores.
pub proof fn lemma_sound<T: Sample>(
    samples: Seq<T>,
    frame: Frame,
    mask: Option<Seq<u8>>,
    options: EncodeOptions,
)
    requires
        requested(samples, frame, mask, options),
    ensures
        body_laws::sound(
            analysis::analysed(
                samples,
                frame.pixels(),
                frame.depth as nat,
                mask,
                options,
            )->Ok_0,
            frame,
        ),
{
    lemma_bounded(samples, frame, mask, options);
}

/// The levels of floating-point samples do not overflow where the distance from the smallest
/// number that is stored to the largest does not and the latter is not the largest double, nor
/// where samples are stored without loss.
#[verifier::rlimit(60)]
pub proof fn law_range_rebuilds<T: Sample>(
    samples: Seq<T>,
    frame: Frame,
    mask: Option<Seq<u8>>,
    options: EncodeOptions,
)
    requires
        asked(samples, frame, mask, options),
        !T::kind().integer(),
        ({
            let found = analysis::analysed(
                samples,
                frame.pixels(),
                frame.depth as nat,
                mask,
                options,
            )->Ok_0;
            found.max_z_error.zero() || (found.z_max.difference(found.z_min).finite()
                && found.z_max.below(float_laws::largest()))
        }),
    ensures
        ({
            let found = analysis::analysed(
                samples,
                frame.pixels(),
                frame.depth as nat,
                mask,
                options,
            )->Ok_0;
            tiling_laws::rebuilds(
                frame.tiling(found.max_z_error),
                found.mask,
                found.samples,
                found.ranges,
                found.z_max,
            )
        }),
{
    let found = analysis::analysed(
        samples,
        frame.pixels(),
        frame.depth as nat,
        mask,
        options,
    )->Ok_0;
    let o = frame.tiling(found.max_z_error);
    lemma_bounded(samples, frame, mask, options);
    reveal(tiling_laws::rebuilds);
    assert forall|by: nat, bx: nat, dim: nat|
        by < o.down() && bx < o.across() && dim
            < o.depth implies #[trigger] tiling_laws::tile_rebuilds(
        o,
        found.mask,
        found.samples,
        found.ranges,
        found.z_max,
        by,
        bx,
        dim,
    ) by {
        lemma_tile_rebuilds(found, frame, by, bx, dim);
    }
}

/// The levels of samples of single precision never overflow.
#[verifier::rlimit(60)]
#[verifier::spinoff_prover]
pub proof fn law_single_rebuilds<T: Sample>(
    samples: Seq<T>,
    frame: Frame,
    mask: Option<Seq<u8>>,
    options: EncodeOptions,
)
    requires
        asked(samples, frame, mask, options),
        T::kind() == DataType::F32,
    ensures
        ({
            let found = analysis::analysed(
                samples,
                frame.pixels(),
                frame.depth as nat,
                mask,
                options,
            )->Ok_0;
            tiling_laws::rebuilds(
                frame.tiling(found.max_z_error),
                found.mask,
                found.samples,
                found.ranges,
                found.z_max,
            )
        }),
{
    let found = analysis::analysed(
        samples,
        frame.pixels(),
        frame.depth as nat,
        mask,
        options,
    )->Ok_0;
    let nd = no_data::sentinel::<T>(options.no_data_value, frame.depth as nat)->Ok_0;
    assert(found.z_max.difference(found.z_min).finite() && found.z_max.below(
        float_laws::largest(),
    )) by {
        lemma_bounded(samples, frame, mask, options);
        lemma_extremes(samples, frame, mask, options, nd);
        if found.valid > 0 {
            let low = choose|t: T| #[trigger] t.promoted() == found.z_min;
            let high = choose|t: T| #[trigger] t.promoted() == found.z_max;
            low.law_single();
            high.law_single();
            float::lemma_widen_finite(found.z_min.narrowed());
            float::lemma_widen_finite(found.z_max.narrowed());
            float_laws::lemma_single_range(found.z_max.narrowed(), found.z_min.narrowed());
        } else {
            let zero = Double { bits: 0 };
            assert(found.z_min == zero && found.z_max == zero);
            float::lemma_zero_size(zero);
            float::lemma_double_parts(true, 0);
            float::lemma_double_parts(false, 0);
            float::lemma_zero_size(zero.opposite());
        }
    }
    law_range_rebuilds(samples, frame, mask, options);
}

/// The levels of one tile do not overflow.
#[verifier::rlimit(40)]
proof fn lemma_tile_rebuilds<T: Sample>(
    found: Findings<T>,
    frame: Frame,
    by: nat,
    bx: nat,
    dim: nat,
)
    requires
        body_laws::bounded(found, frame),
        !T::kind().integer(),
        found.max_z_error.zero() || (found.z_max.difference(found.z_min).finite()
            && found.z_max.below(float_laws::largest())),
        by < frame.tiling(found.max_z_error).down(),
        bx < frame.tiling(found.max_z_error).across(),
        dim < frame.depth,
    ensures
        tiling_laws::tile_rebuilds(
            frame.tiling(found.max_z_error),
            found.mask,
            found.samples,
            found.ranges,
            found.z_max,
            by,
            bx,
            dim,
        ),
{
    let o = frame.tiling(found.max_z_error);
    let depth = o.depth as int;
    let list = o.listed(found.mask, bx as int, by as int);
    let current = lerc2_body::gathered(found.samples, list, depth, dim as int);
    let limit = match found.ranges {
        Some((_, highs)) => highs[dim as int],
        None => found.z_max,
    };
    if found.max_z_error.zero() {
        tile_laws::lemma_exact_reads(current, o.max_z_error, limit);
    } else {
        tiling_laws::lemma_listed_within(o, found.mask, bx, by);
        assert forall|i: int| 0 <= i < current.len() implies body_laws::cell_bounded(
            found,
            dim as int,
            #[trigger] current[i],
        ) by {
            assert(list.contains(list[i]));
            tiling_laws::law_tiles_cover(o, found.mask, list[i] as nat, bx, by);
            assert(current[i] == tiling_laws::cell(found.samples, depth, list[i], dim as int));
        }
        assert(!found.z_max.below(limit) && !limit.below(found.z_min) && limit.finite()) by {
            if let Some((low, high)) = found.ranges {
                assert(body_laws::bounds_kept::<T>(low[dim as int], high[dim as int]));
            }
        }
        float::lemma_order(found.z_max, limit);
        float::lemma_order(limit, found.z_min);
        float_laws::lemma_difference_order(limit, found.z_max, found.z_min);
        tile_laws::lemma_range_reads(current, o.max_z_error, found.z_min, limit);
    }
}

/// Whether the bounds of one depth are numbers of samples within those of the raster.
spec fn range_bounded<T: Sample>(found: Findings<T>, low: Double, high: Double) -> bool {
    &&& body_laws::bounds_kept::<T>(low, high)
    &&& is_value::<T>(low)
    &&& is_value::<T>(high)
    &&& !low.below(found.z_min)
    &&& !high.below(found.z_min)
    &&& !found.z_max.below(high)
}

/// The bounds of a raster and of each depth are numbers of samples.
#[verifier::rlimit(40)]
#[verifier::spinoff_prover]
proof fn lemma_extremes<T: Sample>(
    samples: Seq<T>,
    frame: Frame,
    mask: Option<Seq<u8>>,
    options: EncodeOptions,
    nd: Option<Double>,
)
    requires
        asked(samples, frame, mask, options),
        no_data::sentinel::<T>(options.no_data_value, frame.depth as nat) == Ok::<
            Option<Double>,
            Fault,
        >(nd),
    ensures
        ({
            let depth = frame.depth as nat;
            let found = analysis::found_in(samples, frame.pixels(), depth, mask, nd, options);
            let list = blocks::run_pixels(found.mask, 0, frame.pixels());
            let lows = analysis::depth_lows(samples, list, depth, nd, found.encoded_no_data);
            let highs = analysis::depth_highs(samples, list, depth, nd, found.encoded_no_data);
            list.len() > 0 ==> {
                &&& is_value::<T>(found.z_min)
                &&& is_value::<T>(found.z_max)
                &&& !found.z_max.below(found.z_min)
                &&& forall|d: int|
                    0 <= d < depth ==> range_bounded(found, lows[d], #[trigger] highs[d])
            }
        }),
{
    let pixels = frame.pixels();
    let depth = frame.depth as nat;
    let found = analysis::found_in(samples, pixels, depth, mask, nd, options);
    let encoded = found.encoded_no_data;
    let list = blocks::run_pixels(found.mask, 0, pixels);
    let lows = analysis::depth_lows(samples, list, depth, nd, encoded);
    let highs = analysis::depth_highs(samples, list, depth, nd, encoded);
    if list.len() > 0 {
        assert forall|d: int| 0 <= d < depth implies is_value::<T>(#[trigger] lows[d])
            && is_value::<T>(highs[d]) && !highs[d].below(lows[d]) by {
            lemma_dim(samples, frame, mask, options, nd, d);
        }
        assert(all_values::<T>(lows));
        assert(all_values::<T>(highs)) by {
            assert forall|d: int| 0 <= d < highs.len() implies is_value::<T>(
                #[trigger] highs[d],
            ) by {
                assert(is_value::<T>(lows[d]) && is_value::<T>(highs[d]));
            }
        }
        lemma_lowest::<T>(lows, None);
        lemma_highest::<T>(highs, None);
        assert forall|d: int| 0 <= d < depth implies range_bounded(
            found,
            lows[d],
            #[trigger] highs[d],
        ) by {
            assert(is_value::<T>(lows[d]));
            assert(!analysis::is_sentinel(lows[d], None) && !analysis::is_sentinel(highs[d], None));
            lemma_value_kept::<T>(lows[d]);
            lemma_value_kept::<T>(highs[d]);
        }
        assert(range_bounded(found, lows[0], highs[0]));
    }
}

/// A stored sample lies within the bounds of its raster and of its depth.
#[verifier::rlimit(40)]
#[verifier::spinoff_prover]
proof fn lemma_cell_bounded<T: Sample>(
    samples: Seq<T>,
    frame: Frame,
    mask: Option<Seq<u8>>,
    options: EncodeOptions,
    nd: Option<Double>,
    p: int,
    d: int,
)
    requires
        asked(samples, frame, mask, options),
        no_data::sentinel::<T>(options.no_data_value, frame.depth as nat) == Ok::<
            Option<Double>,
            Fault,
        >(nd),
        0 <= p < frame.pixels(),
        0 <= d < frame.depth,
        blocks::is_valid(
            analysis::found_in(
                samples,
                frame.pixels(),
                frame.depth as nat,
                mask,
                nd,
                options,
            ).mask,
            p,
        ),
    ensures
        ({
            let found = analysis::found_in(
                samples,
                frame.pixels(),
                frame.depth as nat,
                mask,
                nd,
                options,
            );
            body_laws::cell_bounded(
                found,
                d,
                tiling_laws::cell(found.samples, frame.depth as int, p, d),
            )
        }),
{
    let pixels = frame.pixels();
    let depth = frame.depth as nat;
    let found = analysis::found_in(samples, pixels, depth, mask, nd, options);
    let list = blocks::run_pixels(found.mask, 0, pixels);
    let lows = analysis::depth_lows(samples, list, depth, nd, found.encoded_no_data);
    let highs = analysis::depth_highs(samples, list, depth, nd, found.encoded_no_data);
    tiling_laws::lemma_run_has(found.mask, 0, pixels, p);
    let i = choose|i: int| 0 <= i < list.len() && list[i] == p;
    lemma_extremes(samples, frame, mask, options, nd);
    lemma_encoded_value(samples, frame, mask, options, nd);
    lemma_dim(samples, frame, mask, options, nd, d);
    lemma_depth_values(samples, frame, mask, options, nd, d);
    let values = analysis::depth_values(samples, list, depth, d);
    let x = tiling_laws::cell(samples, frame.depth as int, p, d).promoted();
    assert(values[i] == x);
    assert(is_value::<T>(values[i]));
    lemma_stored_cell(samples, frame, mask, options, nd, p, d);
    assert(range_bounded(found, lows[d], highs[d]));
}

/// The analysis of a raster bounds what it stores.
#[verifier::rlimit(60)]
#[verifier::spinoff_prover]
pub proof fn lemma_bounded<T: Sample>(
    samples: Seq<T>,
    frame: Frame,
    mask: Option<Seq<u8>>,
    options: EncodeOptions,
)
    requires
        asked(samples, frame, mask, options),
    ensures
        body_laws::bounded(
            analysis::analysed(
                samples,
                frame.pixels(),
                frame.depth as nat,
                mask,
                options,
            )->Ok_0,
            frame,
        ),
{
    let pixels = frame.pixels();
    let depth = frame.depth as nat;
    let nd = no_data::sentinel::<T>(options.no_data_value, depth)->Ok_0;
    let found = analysis::found_in(samples, pixels, depth, mask, nd, options);
    let list = blocks::run_pixels(found.mask, 0, pixels);
    encoder::lemma_plannable(samples, frame, mask, options);
    blocks::lemma_run_pixels(found.mask, 0, pixels);
    lemma_encoded_value(samples, frame, mask, options, nd);
    lemma_extremes(samples, frame, mask, options, nd);
    if let Some((low, high)) = found.ranges {
        assert forall|d: int| 0 <= d < frame.depth implies body_laws::bounds_kept::<T>(
            low[d],
            #[trigger] high[d],
        ) && !high[d].below(found.z_min) && !found.z_max.below(high[d]) by {
            assert(range_bounded(found, low[d], high[d]));
        }
    }
    assert forall|p: int, d: int|
        0 <= p < pixels && 0 <= d < frame.depth && blocks::is_valid(found.mask, p) implies body_laws::cell_bounded(
        found,
        d,
        #[trigger] tiling_laws::cell(found.samples, frame.depth as int, p, d),
    ) by {
        lemma_cell_bounded(samples, frame, mask, options, nd, p, d);
    }
}

/// The bounds of one depth.
pub proof fn lemma_dim<T: Sample>(
    samples: Seq<T>,
    frame: Frame,
    mask: Option<Seq<u8>>,
    options: EncodeOptions,
    nd: Option<Double>,
    d: int,
)
    requires
        asked(samples, frame, mask, options),
        no_data::sentinel::<T>(options.no_data_value, frame.depth as nat) == Ok::<
            Option<Double>,
            Fault,
        >(nd),
        0 <= d < frame.depth,
        blocks::run_pixels(
            analysis::final_mask(samples, frame.pixels(), frame.depth as nat, mask, nd),
            0,
            frame.pixels(),
        ).len() > 0,
    ensures
        ({
            let pixels = frame.pixels();
            let depth = frame.depth as nat;
            let found = analysis::found_in(samples, pixels, depth, mask, nd, options);
            let encoded = found.encoded_no_data;
            let list = blocks::run_pixels(found.mask, 0, pixels);
            let values = analysis::depth_values(samples, list, depth, d);
            let low = analysis::depth_lows(samples, list, depth, nd, encoded)[d];
            let high = analysis::depth_highs(samples, list, depth, nd, encoded)[d];
            &&& is_value::<T>(low)
            &&& is_value::<T>(high)
            &&& !high.below(low)
            &&& forall|i: int|
                0 <= i < values.len() ==> !stored_number(#[trigger] values[i], nd, encoded).below(
                    low,
                ) && !high.below(stored_number(values[i], nd, encoded))
        }),
{
    let pixels = frame.pixels();
    let depth = frame.depth as nat;
    let found = analysis::found_in(samples, pixels, depth, mask, nd, options);
    let encoded = found.encoded_no_data;
    let list = blocks::run_pixels(found.mask, 0, pixels);
    let values = analysis::depth_values(samples, list, depth, d);
    lemma_depth_values(samples, frame, mask, options, nd, d);
    lemma_encoded_value(samples, frame, mask, options, nd);
    if encoded is None {
        assert forall|i: int| 0 <= i < values.len() implies !analysis::is_sentinel(
            #[trigger] values[i],
            nd,
        ) by {
            lemma_unmixed(samples, frame, mask, nd, list[i], d);
        }
    }
    lemma_dim_bounds::<T>(values, nd, encoded);
}

/// Where the sentinel never stands beside other samples, no valid sample is one.
proof fn lemma_unmixed<T: Sample>(
    samples: Seq<T>,
    frame: Frame,
    mask: Option<Seq<u8>>,
    nd: Option<Double>,
    p: int,
    d: int,
)
    requires
        blocks::mask_fits(mask, frame.pixels()),
        !(nd is Some && analysis::mixed(
            samples,
            frame.pixels(),
            frame.depth as nat,
            mask,
            nd->0,
        )),
        blocks::run_pixels(
            analysis::final_mask(samples, frame.pixels(), frame.depth as nat, mask, nd),
            0,
            frame.pixels(),
        ).contains(p),
        0 <= d < frame.depth,
    ensures
        !analysis::is_sentinel(
            tiling_laws::cell(samples, frame.depth as int, p, d).promoted(),
            nd,
        ),
{
    let pixels = frame.pixels();
    let depth = frame.depth as nat;
    let entries = analysis::final_mask(samples, pixels, depth, mask, nd);
    tiling_laws::lemma_run_has(entries, 0, pixels, p);
    lemma_stays_valid(samples, pixels, depth, mask, nd, p);
    if nd is Some {
        assert(blocks::is_valid(mask, p));
        assert(!analysis::some_no_data(samples, depth, p, nd->0));
        assert(!samples[p * depth as int + d].promoted().same(nd->0));
    }
}

/// Whether a raster is stored without loss.
pub open spec fn lossless<T: Sample>(found: Findings<T>) -> bool {
    found.max_z_error.same(no_data::lossless_error(T::kind()))
}

/// A sample read without loss equals what was stored.
proof fn lemma_lossless<T: Sample>(read: T, stored: T, bound: Double, reach: nat)
    requires
        bound.same(no_data::lossless_error(T::kind())),
        tile_laws::sample_kept(read, stored, bound, reach),
    ensures
        read.promoted().same(stored.promoted()),
{
    if T::kind().integer() {
        float::lemma_double_whole(bound);
        float::lemma_double_whole(Double { bits: float::HALF_BITS });
        assert(bound == (Double { bits: float::HALF_BITS }));
        tiling_laws::lemma_half_exact(read, stored);
    } else {
        assert(bound.zero());
        assert(bound.significand() == 0);
        assert(bound.size() == 0) by (nonlinear_arith)
            requires
                bound.significand() == 0,
                bound.size() == bound.significand() * vstd::arithmetic::power2::pow2(
                    bound.exponent(),
                ),
        ;
        float::lemma_order(read.promoted(), stored.promoted());
    }
}

/// Whether a decoded raster is the one that was encoded: the pixels that were valid and not
/// all sentinel are valid, their samples are within the requested error, those that are the
/// sentinel come back as it, and the samples of all other pixels are zero.
pub open spec fn returned<T: Sample>(
    samples: Seq<T>,
    frame: Frame,
    mask: Option<Seq<u8>>,
    options: EncodeOptions,
    out: Seq<T>,
    out_mask: Option<Seq<u8>>,
) -> bool {
    let depth = frame.depth as int;
    let reach = raster_reach(
        analysis::analysed(samples, frame.pixels(), frame.depth as nat, mask, options)->Ok_0,
    );
    &&& out.len() == samples.len()
    &&& blocks::mask_fits(out_mask, frame.pixels())
    &&& forall|p: int|
        0 <= p < frame.pixels() ==> (#[trigger] blocks::is_valid(out_mask, p) <==> (
        blocks::is_valid(mask, p) && (options.no_data_value matches Some(v)
            ==> !analysis::all_no_data(
            samples,
            frame.depth as nat,
            p,
            no_data::through::<T>(v),
        ))))
    &&& forall|p: int, d: int|
        0 <= p < frame.pixels() && 0 <= d < depth && blocks::is_valid(out_mask, p)
            ==> tile_laws::sample_kept(
            #[trigger] tiling_laws::cell(out, depth, p, d),
            tiling_laws::cell(samples, depth, p, d),
            options.max_z_error,
            reach,
        )
    &&& options.no_data_value matches Some(v) ==> forall|p: int, d: int|
        0 <= p < frame.pixels() && 0 <= d < depth && blocks::is_valid(out_mask, p)
            && tiling_laws::cell(samples, depth, p, d).promoted().same(no_data::through::<T>(v))
            ==> (#[trigger] tiling_laws::cell(out, depth, p, d)).promoted().same(
            no_data::through::<T>(v),
        )
    &&& forall|p: int, d: int|
        0 <= p < frame.pixels() && 0 <= d < depth && !blocks::is_valid(out_mask, p)
            ==> #[trigger] tiling_laws::cell(out, depth, p, d) == T::zero()
}

/// The sample that a reader hands out for a stored one.
pub open spec fn handed_out<T: Sample>(read: T, mapping: Option<(T, T)>) -> T {
    match mapping {
        Some((from, to)) => if read.promoted().same(from.promoted()) {
            to
        } else {
            read
        },
        None => read,
    }
}

/// A valid sample is handed out within the requested error.
#[verifier::rlimit(40)]
proof fn lemma_cell_returned<T: Sample>(
    samples: Seq<T>,
    frame: Frame,
    mask: Option<Seq<u8>>,
    options: EncodeOptions,
    p: int,
    d: int,
    read: T,
    mapping: Option<(T, T)>,
)
    requires
        requested(samples, frame, mask, options),
        ({
            let found = analysis::analysed(
                samples,
                frame.pixels(),
                frame.depth as nat,
                mask,
                options,
            )->Ok_0;
            &&& 0 <= p < frame.pixels()
            &&& 0 <= d < frame.depth
            &&& blocks::is_valid(found.mask, p)
            &&& tile_laws::stored_kept(
                read,
                tiling_laws::cell(found.samples, frame.depth as int, p, d),
                found.max_z_error,
                tile_laws::span_of(found.z_min, found.z_max),
            )
            &&& mapping == match (found.encoded_no_data, found.original_no_data) {
                (Some(e), Some(v)) => if T::demoted(e).promoted().same(T::demoted(v).promoted()) {
                    None
                } else {
                    Some((T::demoted(e), T::demoted(v)))
                },
                _ => None,
            }
        }),
    ensures
        tile_laws::sample_kept(
            handed_out(read, mapping),
            tiling_laws::cell(samples, frame.depth as int, p, d),
            options.max_z_error,
            raster_reach(
                analysis::analysed(
                    samples,
                    frame.pixels(),
                    frame.depth as nat,
                    mask,
                    options,
                )->Ok_0,
            ),
        ),
        options.no_data_value matches Some(v) && tiling_laws::cell(
            samples,
            frame.depth as int,
            p,
            d,
        ).promoted().same(no_data::through::<T>(v)) ==> handed_out(read, mapping).promoted().same(
            no_data::through::<T>(options.no_data_value->0),
        ),
{
    let pixels = frame.pixels();
    let depth = frame.depth as nat;
    let nd = no_data::sentinel::<T>(options.no_data_value, depth)->Ok_0;
    let found = analysis::found_in(samples, pixels, depth, mask, nd, options);
    let x = tiling_laws::cell(samples, frame.depth as int, p, d);
    let y = tiling_laws::cell(found.samples, frame.depth as int, p, d);
    let list = blocks::run_pixels(found.mask, 0, pixels);
    tiling_laws::lemma_run_has(found.mask, 0, pixels, p);
    let i = choose|i: int| 0 <= i < list.len() && list[i] == p;
    lemma_depth_values(samples, frame, mask, options, nd, d);
    let values = analysis::depth_values(samples, list, depth, d);
    assert(values[i] == x.promoted());
    assert(is_value::<T>(values[i]));
    lemma_encoded_value(samples, frame, mask, options, nd);
    lemma_stored_cell(samples, frame, mask, options, nd, p, d);
    match found.encoded_no_data {
        None => {
            lemma_unmixed(samples, frame, mask, nd, p, d);
            lemma_requested_bound(
                read,
                x,
                options.max_z_error,
                found.max_z_error,
                raster_reach(found),
            );
        },
        Some(e) => {
            lemma_value_kept::<T>(e);
            lemma_value_kept::<T>(nd->0);
            let out = handed_out(read, mapping);
            let sentinel = analysis::is_sentinel(x.promoted(), nd);
            if lossless(found) {
                lemma_lossless(read, y, found.max_z_error, raster_reach(found));
                assert(read.promoted().same(stored_number(x.promoted(), nd, Some(e))));
            }
            if sentinel {
                reveal(stands_out);
                assert(read.promoted().same(e));
                assert(out.promoted().same(x.promoted()));
                tile_laws::lemma_same_kept(out, x, options.max_z_error, raster_reach(found));
            } else {
                assert(y == x);
                if !lossless(found) {
                    reveal(stands_out);
                    assert(stays_apart(x, e, found.max_z_error, raster_reach(found)));
                } else if mapping is Some {
                    lemma_apart(samples, frame, mask, options, nd, p, d);
                }
                assert(out == read);
                if lossless(found) {
                    tile_laws::lemma_same_kept(out, x, options.max_z_error, raster_reach(found));
                } else {
                    lemma_requested_bound(
                        read,
                        x,
                        options.max_z_error,
                        found.max_z_error,
                        raster_reach(found),
                    );
                }
            }
        },
    }
}

/// The bound that samples are stored with is no wider than the requested one, except where it
/// keeps integers exactly.
proof fn lemma_requested_bound<T: Sample>(
    read: T,
    given: T,
    requested: Double,
    bound: Double,
    reach: nat,
)
    requires
        requested.finite(),
        !requested.below(Double { bits: 0 }),
        bound == no_data::effective_error(T::kind(), requested),
        tile_laws::sample_kept(read, given, bound, reach),
    ensures
        tile_laws::sample_kept(read, given, requested, reach),
{
    if T::kind().integer() {
        lemma_effective(T::kind(), requested);
        if bound == (Double { bits: float::HALF_BITS }) {
            tiling_laws::lemma_half_exact(read, given);
        }
    }
}

/// What stands for the sentinel equals no other valid sample.
#[verifier::rlimit(40)]
proof fn lemma_apart<T: Sample>(
    samples: Seq<T>,
    frame: Frame,
    mask: Option<Seq<u8>>,
    options: EncodeOptions,
    nd: Option<Double>,
    p: int,
    d: int,
)
    requires
        asked(samples, frame, mask, options),
        no_data::sentinel::<T>(options.no_data_value, frame.depth as nat) == Ok::<
            Option<Double>,
            Fault,
        >(nd),
        0 <= p < frame.pixels(),
        0 <= d < frame.depth,
        ({
            let found = analysis::found_in(
                samples,
                frame.pixels(),
                frame.depth as nat,
                mask,
                nd,
                options,
            );
            &&& blocks::is_valid(found.mask, p)
            &&& found.encoded_no_data matches Some(e) && !e.same(nd->0)
            &&& lossless(found)
        }),
        !analysis::is_sentinel(
            tiling_laws::cell(samples, frame.depth as int, p, d).promoted(),
            nd,
        ),
    ensures
        ({
            let found = analysis::found_in(
                samples,
                frame.pixels(),
                frame.depth as nat,
                mask,
                nd,
                options,
            );
            !tiling_laws::cell(samples, frame.depth as int, p, d).promoted().same(
                found.encoded_no_data->0,
            )
        }),
{
    let pixels = frame.pixels();
    let depth = frame.depth as nat;
    let found = analysis::found_in(samples, pixels, depth, mask, nd, options);
    let list = blocks::run_pixels(found.mask, 0, pixels);
    let x = tiling_laws::cell(samples, frame.depth as int, p, d).promoted();
    tiling_laws::lemma_run_has(found.mask, 0, pixels, p);
    let i = choose|i: int| 0 <= i < list.len() && list[i] == p;
    let lows = analysis::depth_lows(samples, list, depth, nd, None);
    let highs = analysis::depth_highs(samples, list, depth, nd, None);
    assert forall|c: int| 0 <= c < depth implies is_value::<T>(#[trigger] lows[c]) || lows[c] == (
    Double { bits: float::DOUBLE_INFINITY }) by {
        lemma_depth_values(samples, frame, mask, options, nd, c);
        lemma_lowest::<T>(analysis::depth_values(samples, list, depth, c), nd);
    }
    assert forall|c: int| 0 <= c < depth implies is_value::<T>(#[trigger] highs[c]) || highs[c] == (
    Double { bits: (float::DOUBLE_SIGN + float::DOUBLE_INFINITY) as u64 }) by {
        lemma_depth_values(samples, frame, mask, options, nd, c);
        lemma_highest::<T>(analysis::depth_values(samples, list, depth, c), nd);
    }
    assert(is_value::<T>(lows[d]) && !x.below(lows[d]) && is_value::<T>(highs[d])
        && !highs[d].below(x) && x.finite()) by {
        lemma_depth_values(samples, frame, mask, options, nd, d);
        let values = analysis::depth_values(samples, list, depth, d);
        assert(values[i] == x);
        assert(is_value::<T>(values[i]));
        lemma_lowest::<T>(values, nd);
        lemma_highest::<T>(values, nd);
    }
    lemma_lowest_open::<T>(lows, d);
    lemma_highest_open::<T>(highs, d);
    let low = analysis::lowest(lows, None);
    let high = analysis::highest(highs, None);
    let bound = no_data::effective_error(T::kind(), options.max_z_error);
    lemma_stand_in_apart::<T>(nd->0, low, high, bound, x);
    lemma_encoded_is(samples, frame, mask, options, nd);
    let e = found.encoded_no_data->0;
    assert(e == no_data::stand_in::<T>(nd->0, low, high, bound).1);
    if e == nd->0 {
        lemma_encoded_value(samples, frame, mask, options, nd);
    }
}

/// Where what stands for the sentinel comes from.
pub proof fn lemma_encoded_is<T: Sample>(
    samples: Seq<T>,
    frame: Frame,
    mask: Option<Seq<u8>>,
    options: EncodeOptions,
    nd: Option<Double>,
)
    ensures
        ({
            let pixels = frame.pixels();
            let depth = frame.depth as nat;
            let found = analysis::found_in(samples, pixels, depth, mask, nd, options);
            let list = blocks::run_pixels(found.mask, 0, pixels);
            found.encoded_no_data matches Some(e) ==> nd is Some && e == no_data::stand_in::<T>(
                nd->0,
                analysis::lowest(analysis::depth_lows(samples, list, depth, nd, None), None),
                analysis::highest(analysis::depth_highs(samples, list, depth, nd, None), None),
                no_data::effective_error(T::kind(), options.max_z_error),
            ).1
        }),
{
}

/// The lowest of numbers some of which may be missing.
pub proof fn lemma_lowest_open<T: Sample>(found: Seq<Double>, k: int)
    requires
        forall|i: int|
            0 <= i < found.len() ==> is_value::<T>(#[trigger] found[i]) || found[i] == (Double {
                bits: float::DOUBLE_INFINITY,
            }),
        0 <= k < found.len(),
        is_value::<T>(found[k]),
    ensures
        is_value::<T>(analysis::lowest(found, None)),
        !found[k].below(analysis::lowest(found, None)),
    decreases found.len(),
{
    let front = found.drop_last();
    let n = found.len() - 1;
    assert(is_value::<T>(found[n]) || found[n] == (Double { bits: float::DOUBLE_INFINITY }));
    assert forall|i: int| 0 <= i < front.len() implies is_value::<T>(#[trigger] front[i])
        || front[i] == (Double { bits: float::DOUBLE_INFINITY }) by {
        assert(front[i] == found[i]);
    }
    if k < n {
        assert(front[k] == found[k]);
        lemma_lowest_open::<T>(front, k);
    } else {
        lemma_lowest_number::<T>(front);
    }
}

/// The lowest of such numbers is a number or missing.
proof fn lemma_lowest_number<T: Sample>(found: Seq<Double>)
    requires
        forall|i: int|
            0 <= i < found.len() ==> is_value::<T>(#[trigger] found[i]) || found[i] == (Double {
                bits: float::DOUBLE_INFINITY,
            }),
    ensures
        is_value::<T>(analysis::lowest(found, None)) || analysis::lowest(found, None) == (Double {
            bits: float::DOUBLE_INFINITY,
        }),
    decreases found.len(),
{
    if found.len() > 0 {
        let front = found.drop_last();
        assert forall|i: int| 0 <= i < front.len() implies is_value::<T>(#[trigger] front[i])
            || front[i] == (Double { bits: float::DOUBLE_INFINITY }) by {
            assert(front[i] == found[i]);
        }
        lemma_lowest_number::<T>(front);
        assert(is_value::<T>(found[found.len() - 1]) || found[found.len() - 1] == (Double {
            bits: float::DOUBLE_INFINITY,
        }));
    }
}

/// The highest of numbers some of which may be missing.
pub proof fn lemma_highest_open<T: Sample>(found: Seq<Double>, k: int)
    requires
        forall|i: int|
            0 <= i < found.len() ==> is_value::<T>(#[trigger] found[i]) || found[i] == (Double {
                bits: (float::DOUBLE_SIGN + float::DOUBLE_INFINITY) as u64,
            }),
        0 <= k < found.len(),
        is_value::<T>(found[k]),
    ensures
        analysis::highest(found, None).finite(),
        !analysis::highest(found, None).below(found[k]),
    decreases found.len(),
{
    let front = found.drop_last();
    let n = found.len() - 1;
    assert(is_value::<T>(found[n]) || found[n] == (Double {
        bits: (float::DOUBLE_SIGN + float::DOUBLE_INFINITY) as u64,
    }));
    assert forall|i: int| 0 <= i < front.len() implies is_value::<T>(#[trigger] front[i])
        || front[i] == (Double { bits: (float::DOUBLE_SIGN + float::DOUBLE_INFINITY) as u64 }) by {
        assert(front[i] == found[i]);
    }
    if k < n {
        assert(front[k] == found[k]);
        lemma_highest_open::<T>(front, k);
    } else {
        lemma_highest_number::<T>(front);
    }
}

/// The highest of such numbers is a number or missing.
proof fn lemma_highest_number<T: Sample>(found: Seq<Double>)
    requires
        forall|i: int|
            0 <= i < found.len() ==> is_value::<T>(#[trigger] found[i]) || found[i] == (Double {
                bits: (float::DOUBLE_SIGN + float::DOUBLE_INFINITY) as u64,
            }),
    ensures
        analysis::highest(found, None).finite() || analysis::highest(found, None) == (Double {
            bits: (float::DOUBLE_SIGN + float::DOUBLE_INFINITY) as u64,
        }),
    decreases found.len(),
{
    if found.len() > 0 {
        let front = found.drop_last();
        assert forall|i: int| 0 <= i < front.len() implies is_value::<T>(#[trigger] front[i])
            || front[i] == (Double {
            bits: (float::DOUBLE_SIGN + float::DOUBLE_INFINITY) as u64,
        }) by {
            assert(front[i] == found[i]);
        }
        lemma_highest_number::<T>(front);
        assert(is_value::<T>(found[found.len() - 1]) || found[found.len() - 1] == (Double {
            bits: (float::DOUBLE_SIGN + float::DOUBLE_INFINITY) as u64,
        }));
    }
}

/// Decoding what was written for a raster gives the raster back, whatever follows it.
#[verifier::rlimit(60)]
pub proof fn lemma_written_returned<T: Sample>(
    samples: Seq<T>,
    frame: Frame,
    mask: Option<Seq<u8>>,
    options: EncodeOptions,
    ready: Ready<T>,
    payload: Seq<u8>,
    remaining: nat,
    inherited: Option<Seq<u8>>,
    limited: bool,
    behind: Seq<u8>,
) -> (r: (types::BlobFacts, Seq<T>, Option<Seq<u8>>))
    requires
        requested(samples, frame, mask, options),
        encoder::readied(samples, frame, mask, options) == Ok::<Ready<T>, Fault>(ready),
        blob_laws::payload_fits(ready.found, frame.pixels(), payload, inherited),
        encoder::blob_fault(ready, frame, payload, remaining) is None,
        samples.len() * T::kind().width() <= allocation::MAX_DECODED_ALLOCATION_BYTES,
        encoder::blob_size(ready, frame, payload) + behind.len() <= usize::MAX,
    ensures
        lerc2::decoded::<T>(
            encoder::blob_of(ready, frame, payload, remaining) + behind,
            inherited,
            limited,
        ) == Ok::<(types::BlobFacts, Seq<T>, Option<Seq<u8>>), Fault>(r),
        r.0 == lerc2::public_facts(
            blob_laws::header_of(
                ready,
                frame,
                payload,
                remaining,
                blob_laws::mask_kept(ready.found, frame.pixels(), payload),
            ),
            ready.found.ranges,
        ),
        returned(samples, frame, mask, options, r.1, r.2),
        body_laws::masks_agree(r.2, ready.found.mask, frame.pixels()),
{
    let pixels = frame.pixels();
    let depth = frame.depth as nat;
    let found = ready.found;
    let nd = no_data::sentinel::<T>(options.no_data_value, depth)->Ok_0;
    lemma_sound(samples, frame, mask, options);
    assert(found.samples.len() == samples.len());
    let read = blob_laws::law_blob_roundtrip(
        ready,
        frame,
        payload,
        remaining,
        inherited,
        limited,
        behind,
    );
    let mapping = lerc2::no_data_mapping::<T>(read.header);
    let out = lerc2::remapped(read.samples, read.mask, depth as int, mapping);
    assert forall|p: int, d: int|
        0 <= p < pixels && 0 <= d < depth implies #[trigger] tiling_laws::cell(
        out,
        depth as int,
        p,
        d,
    ) == if blocks::is_valid(read.mask, p) {
        handed_out(tiling_laws::cell(read.samples, depth as int, p, d), mapping)
    } else {
        tiling_laws::cell(read.samples, depth as int, p, d)
    } by {
        raster::lemma_sample_index(p as nat, depth, d as nat, pixels);
        lemma_fundamental_div_mod_converse(p * depth + d, depth as int, p, d);
    }
    assert forall|p: int| 0 <= p < pixels implies (#[trigger] blocks::is_valid(read.mask, p) <==> (
    blocks::is_valid(mask, p) && (options.no_data_value matches Some(v) ==> !analysis::all_no_data(
        samples,
        depth,
        p,
        no_data::through::<T>(v),
    )))) by {
        lemma_stays_valid(samples, pixels, depth, mask, nd, p);
        assert(blocks::is_valid(read.mask, p) == blocks::is_valid(found.mask, p));
    }
    assert forall|p: int, d: int|
        0 <= p < pixels && 0 <= d < depth && blocks::is_valid(read.mask, p) implies tile_laws::sample_kept(
        #[trigger] tiling_laws::cell(out, depth as int, p, d),
        tiling_laws::cell(samples, depth as int, p, d),
        options.max_z_error,
        raster_reach(found),
    ) by {
        assert(blocks::is_valid(read.mask, p) == blocks::is_valid(found.mask, p));
        let sample = tiling_laws::cell(read.samples, depth as int, p, d);
        lemma_cell_returned(samples, frame, mask, options, p, d, sample, mapping);
    }
    if let Some(v) = options.no_data_value {
        assert forall|p: int, d: int|
            0 <= p < pixels && 0 <= d < depth && blocks::is_valid(read.mask, p)
                && tiling_laws::cell(samples, depth as int, p, d).promoted().same(
                no_data::through::<T>(v),
            ) implies (#[trigger] tiling_laws::cell(out, depth as int, p, d)).promoted().same(
            no_data::through::<T>(v),
        ) by {
            assert(blocks::is_valid(read.mask, p) == blocks::is_valid(found.mask, p));
            let sample = tiling_laws::cell(read.samples, depth as int, p, d);
            lemma_cell_returned(samples, frame, mask, options, p, d, sample, mapping);
        }
    }
    assert forall|p: int, d: int|
        0 <= p < pixels && 0 <= d < depth && !blocks::is_valid(read.mask, p) implies #[trigger] tiling_laws::cell(
        out,
        depth as int,
        p,
        d,
    ) == T::zero() by {
        assert(blocks::is_valid(read.mask, p) == blocks::is_valid(found.mask, p));
        raster::lemma_sample_index(p as nat, depth, d as nat, pixels);
        let blank = allocation::repeated(T::zero(), pixels * depth);
        assert(tiling_laws::cell(read.samples, depth as int, p, d) == tiling_laws::cell(
            blank,
            depth as int,
            p,
            d,
        ));
    }
    (lerc2::public_facts(read.header, found.ranges), out, read.mask)
}

/// Decoding an encoded raster gives the raster back: the same valid pixels, except those whose
/// samples are all the sentinel, and every one of their samples within the requested error.
///
/// Floating-point samples stored with loss come back within the error and the rounding of
/// their reconstruction, unless that overflows; [`law_range_rebuilds`] and
/// [`law_single_rebuilds`] tell where it does not. A sentinel that stands beside other samples
/// of a pixel comes back as it is, unless what stands for it is mistaken for another sample.
pub proof fn law_raster_roundtrip<'a, 'b, T: Sample>(
    view: RasterView<'a, T>,
    entries: Option<MaskView<'b>>,
    options: EncodeOptions,
    limited: bool,
) -> (r: (types::BlobFacts, Seq<T>, Option<Seq<u8>>))
    requires
        view.wf(),
        entries matches Some(m) ==> m.wf(),
        view.columns() > 0,
        view.rows() > 0,
        encoder::raster_encoded(view, entries, options) is Ok,
        keeps(
            view.samples(),
            encoder::raster_frame(view, options),
            options,
            encoder::raster_readied(view, entries, options)->Ok_0.found,
        ),
        view.samples().len() * T::kind().width() <= allocation::MAX_DECODED_ALLOCATION_BYTES,
    ensures
        lerc2::decoded::<T>(
            encoder::raster_encoded(view, entries, options)->Ok_0,
            None,
            limited,
        ) == Ok::<(types::BlobFacts, Seq<T>, Option<Seq<u8>>), Fault>(r),
        r.0.version is Lerc2,
        r.0.data_type == T::kind(),
        r.0.width == view.columns(),
        r.0.height == view.rows(),
        r.0.depth == view.layers(),
        r.0.micro_block_size == options.micro_block_size,
        r.0.blob_size == encoder::raster_encoded(view, entries, options)->Ok_0.len(),
        r.0.no_data_value is Some ==> r.0.no_data_value == options.no_data_value,
        returned(
            view.samples(),
            encoder::raster_frame(view, options),
            encoder::mask_entries(entries),
            options,
            r.1,
            r.2,
        ),
{
    let frame = encoder::raster_frame(view, options);
    let mask = encoder::mask_entries(entries);
    let ready = encoder::raster_readied(view, entries, options)->Ok_0;
    let payload = encoder::payload_of(ready, frame, true);
    let blob = encoder::raster_encoded(view, entries, options)->Ok_0;
    assert(blob + seq![] =~= blob);
    blob_laws::lemma_versions(ready, frame);
    encoder::lemma_blob_len(ready, frame, payload, 0);
    lemma_written_returned(
        view.samples(),
        frame,
        mask,
        options,
        ready,
        payload,
        0,
        None,
        limited,
        seq![],
    )
}

} // verus!
