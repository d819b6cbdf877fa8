//! What an encoded raster tells of the range of its samples.

use crate::allocation;
use crate::analysis;
use crate::blob_laws;
use crate::blocks;
use crate::encoder;
use crate::error::Fault;
use crate::float::Double;
use crate::lerc2;
use crate::options::EncodeOptions;
use crate::raster::{MaskView, RasterView};
use crate::raster_laws;
use crate::sample::Sample;
use crate::tiling_laws;
use crate::types::BlobFacts;
use vstd::prelude::*;

verus! {

proof fn lemma_lowest_of(found: Seq<Double>)
    requires
        forall|i: int| 0 <= i < found.len() ==> (#[trigger] found[i]).finite(),
    ensures
        forall|i: int|
            0 <= i < found.len() ==> !(#[trigger] found[i]).below(analysis::lowest(found, None)),
        found.len() > 0 ==> exists|i: int|
            0 <= i < found.len() && #[trigger] found[i] == analysis::lowest(found, None),
    decreases found.len(),
{
    if found.len() > 0 {
        let front = found.drop_last();
        let r = analysis::lowest(found, None);
        let before = analysis::lowest(front, None);
        assert forall|i: int| 0 <= i < front.len() implies (#[trigger] front[i]).finite() by {
            assert(front[i] == found[i]);
        }
        lemma_lowest_of(front);
        let last = found[found.len() - 1];
        assert(last.finite());
        if front.len() > 0 {
            let k = choose|i: int| 0 <= i < front.len() && #[trigger] front[i] == before;
            assert(found[k] == before);
        }
        assert forall|i: int| 0 <= i < found.len() implies !(#[trigger] found[i]).below(r) by {
            if i < front.len() {
                assert(front[i] == found[i]);
            }
        }
        assert(r == last || r == before);
    }
}

proof fn lemma_highest_of(found: Seq<Double>)
    requires
        forall|i: int| 0 <= i < found.len() ==> (#[trigger] found[i]).finite(),
    ensures
        forall|i: int|
            0 <= i < found.len() ==> !analysis::highest(found, None).below(#[trigger] found[i]),
        found.len() > 0 ==> exists|i: int|
            0 <= i < found.len() && #[trigger] found[i] == analysis::highest(found, None),
    decreases found.len(),
{
    if found.len() > 0 {
        let front = found.drop_last();
        let r = analysis::highest(found, None);
        let before = analysis::highest(front, None);
        assert forall|i: int| 0 <= i < front.len() implies (#[trigger] front[i]).finite() by {
            assert(front[i] == found[i]);
        }
        lemma_highest_of(front);
        let last = found[found.len() - 1];
        assert(last.finite());
        if front.len() > 0 {
            let k = choose|i: int| 0 <= i < front.len() && #[trigger] front[i] == before;
            assert(found[k] == before);
        }
        assert forall|i: int| 0 <= i < found.len() implies !r.below(#[trigger] found[i]) by {
            if i < front.len() {
                assert(front[i] == found[i]);
            }
        }
        assert(r == last || r == before);
    }
}

/// Whether a number is that of some valid sample at one depth.
pub open spec fn occurs_at<T: Sample>(
    samples: Seq<T>,
    mask: Option<Seq<u8>>,
    pixels: nat,
    depth: int,
    d: int,
    v: Double,
) -> bool {
    exists|p: int|
        0 <= p < pixels && blocks::is_valid(mask, p) && (#[trigger] tiling_laws::cell(
            samples,
            depth,
            p,
            d,
        )).promoted() == v
}

/// Whether two numbers are the least and the greatest of the valid samples at one depth.
pub open spec fn depth_range<T: Sample>(
    samples: Seq<T>,
    mask: Option<Seq<u8>>,
    pixels: nat,
    depth: int,
    d: int,
    low: Double,
    high: Double,
) -> bool {
    &&& occurs_at(samples, mask, pixels, depth, d, low)
    &&& occurs_at(samples, mask, pixels, depth, d, high)
    &&& forall|p: int|
        0 <= p < pixels && blocks::is_valid(mask, p) ==> {
            let v = (#[trigger] tiling_laws::cell(samples, depth, p, d)).promoted();
            !v.below(low) && !high.below(v)
        }
}

proof fn lemma_depth_range<T: Sample>(
    samples: Seq<T>,
    mask: Option<Seq<u8>>,
    pixels: nat,
    depth: nat,
    d: int,
)
    requires
        analysis::valid_finite(samples, pixels, depth, mask),
        0 <= d < depth,
        blocks::run_pixels(mask, 0, pixels).len() > 0,
    ensures
        ({
            let list = blocks::run_pixels(mask, 0, pixels);
            let found = analysis::depth_values(samples, list, depth, d);
            &&& depth_range(
                samples,
                mask,
                pixels,
                depth as int,
                d,
                analysis::lowest(found, None),
                analysis::highest(found, None),
            )
            &&& analysis::lowest(found, None).finite()
            &&& analysis::highest(found, None).finite()
        }),
{
    let list = blocks::run_pixels(mask, 0, pixels);
    let found = analysis::depth_values(samples, list, depth, d);
    blocks::lemma_run_pixels(mask, 0, pixels);
    assert forall|i: int| 0 <= i < found.len() implies (#[trigger] found[i]).finite() && found[i]
        == tiling_laws::cell(samples, depth as int, list[i], d).promoted() by {
        let p = list[i];
        assert(0 <= p < pixels && blocks::is_valid(mask, p));
        assert(analysis::pixel_finite(samples, depth, p));
        assert(samples[p * depth + d].promoted().finite());
    }
    lemma_lowest_of(found);
    lemma_highest_of(found);
    let low = analysis::lowest(found, None);
    let high = analysis::highest(found, None);
    let a = choose|i: int| 0 <= i < found.len() && #[trigger] found[i] == low;
    let b = choose|i: int| 0 <= i < found.len() && #[trigger] found[i] == high;
    assert(tiling_laws::cell(samples, depth as int, list[a], d).promoted() == low);
    assert(tiling_laws::cell(samples, depth as int, list[b], d).promoted() == high);
    assert forall|p: int| 0 <= p < pixels && blocks::is_valid(mask, p) implies {
        let v = (#[trigger] tiling_laws::cell(samples, depth as int, p, d)).promoted();
        !v.below(low) && !high.below(v)
    } by {
        tiling_laws::lemma_run_has(mask, 0, pixels, p);
        let i = choose|i: int| 0 <= i < list.len() && list[i] == p;
        assert(found[i] == tiling_laws::cell(samples, depth as int, list[i], d).promoted());
    }
}

/// Whether two numbers are the least and the greatest of all valid samples.
pub open spec fn whole_range<T: Sample>(
    samples: Seq<T>,
    mask: Option<Seq<u8>>,
    pixels: nat,
    depth: int,
    low: Double,
    high: Double,
) -> bool {
    &&& exists|d: int|
        0 <= d < depth && #[trigger] occurs_at(samples, mask, pixels, depth, d, low)
    &&& exists|d: int|
        0 <= d < depth && #[trigger] occurs_at(samples, mask, pixels, depth, d, high)
    &&& forall|p: int, d: int|
        0 <= p < pixels && 0 <= d < depth && blocks::is_valid(mask, p) ==> {
            let v = (#[trigger] tiling_laws::cell(samples, depth, p, d)).promoted();
            !v.below(low) && !high.below(v)
        }
}

proof fn lemma_below_chain(a: Double, b: Double, c: Double)
    requires
        !a.nan(),
        !b.nan(),
        !c.nan(),
        !a.below(b),
        !b.below(c),
    ensures
        !a.below(c),
{
}

proof fn lemma_whole_range<T: Sample>(
    samples: Seq<T>,
    mask: Option<Seq<u8>>,
    pixels: nat,
    depth: nat,
)
    requires
        analysis::valid_finite(samples, pixels, depth, mask),
        depth > 0,
        blocks::run_pixels(mask, 0, pixels).len() > 0,
    ensures
        ({
            let list = blocks::run_pixels(mask, 0, pixels);
            let lows = analysis::depth_lows(samples, list, depth, None, None);
            let highs = analysis::depth_highs(samples, list, depth, None, None);
            &&& whole_range(
                samples,
                mask,
                pixels,
                depth as int,
                analysis::lowest(lows, None),
                analysis::highest(highs, None),
            )
            &&& forall|d: int|
                0 <= d < depth ==> #[trigger] depth_range(
                    samples,
                    mask,
                    pixels,
                    depth as int,
                    d,
                    lows[d],
                    highs[d],
                )
        }),
{
    let list = blocks::run_pixels(mask, 0, pixels);
    let lows = analysis::depth_lows(samples, list, depth, None, None);
    let highs = analysis::depth_highs(samples, list, depth, None, None);
    assert forall|d: int| 0 <= d < depth implies #[trigger] depth_range(
        samples,
        mask,
        pixels,
        depth as int,
        d,
        lows[d],
        highs[d],
    ) && lows[d].finite() && highs[d].finite() by {
        lemma_depth_range(samples, mask, pixels, depth, d);
    }
    assert forall|d: int| 0 <= d < lows.len() implies (#[trigger] lows[d]).finite() by {
        assert(depth_range(samples, mask, pixels, depth as int, d, lows[d], highs[d]));
    }
    assert forall|d: int| 0 <= d < highs.len() implies (#[trigger] highs[d]).finite() by {
        assert(depth_range(samples, mask, pixels, depth as int, d, lows[d], highs[d]));
    }
    lemma_lowest_of(lows);
    lemma_highest_of(highs);
    let low = analysis::lowest(lows, None);
    let high = analysis::highest(highs, None);
    let a = choose|i: int| 0 <= i < lows.len() && #[trigger] lows[i] == low;
    let b = choose|i: int| 0 <= i < highs.len() && #[trigger] highs[i] == high;
    assert(depth_range(samples, mask, pixels, depth as int, a, lows[a], highs[a]));
    assert(depth_range(samples, mask, pixels, depth as int, b, lows[b], highs[b]));
    assert(occurs_at(samples, mask, pixels, depth as int, a, low));
    assert(occurs_at(samples, mask, pixels, depth as int, b, high));
    assert forall|p: int, d: int|
        0 <= p < pixels && 0 <= d < depth && blocks::is_valid(mask, p) implies {
        let v = (#[trigger] tiling_laws::cell(samples, depth as int, p, d)).promoted();
        !v.below(low) && !high.below(v)
    } by {
        let v = tiling_laws::cell(samples, depth as int, p, d).promoted();
        assert(depth_range(samples, mask, pixels, depth as int, d, lows[d], highs[d]));
        assert(analysis::pixel_finite(samples, depth, p));
        assert(samples[p * depth + d].promoted().finite());
        lemma_below_chain(v, lows[d], low);
        lemma_below_chain(high, highs[d], v);
    }
}

/// What a decoded raster without a sentinel reports are the least and the greatest of its valid
/// samples, as they were before encoding, over all depths and at each of them.
pub proof fn law_range_reported<'a, 'b, T: Sample>(
    view: RasterView<'a, T>,
    entries: Option<MaskView<'b>>,
    options: EncodeOptions,
    limited: bool,
) -> (r: (BlobFacts, Seq<T>, Option<Seq<u8>>))
    requires
        view.wf(),
        entries matches Some(m) ==> m.wf(),
        view.columns() > 0,
        view.rows() > 0,
        options.no_data_value is None,
        encoder::raster_encoded(view, entries, options) is Ok,
        raster_laws::keeps(
            view.samples(),
            encoder::raster_frame(view, options),
            options,
            encoder::raster_readied(view, entries, options)->Ok_0.found,
        ),
        view.samples().len() * T::kind().width() <= allocation::MAX_DECODED_ALLOCATION_BYTES,
    ensures
        lerc2::decoded::<T>(
            encoder::raster_encoded(view, entries, options)->Ok_0,
            None,
            limited,
        ) == Ok::<(BlobFacts, Seq<T>, Option<Seq<u8>>), Fault>(r),
        ({
            let mask = encoder::mask_entries(entries);
            let pixels = encoder::raster_frame(view, options).pixels();
            let depth = view.layers() as int;
            &&& r.0.valid_pixel_count == blocks::run_pixels(mask, 0, pixels).len()
            &&& r.0.valid_pixel_count > 0 ==> whole_range(
                view.samples(),
                mask,
                pixels,
                depth,
                r.0.z_min,
                r.0.z_max,
            )
            &&& r.0.valid_pixel_count > 0 && !r.0.z_min.same(r.0.z_max) ==> {
                &&& r.0.min_values matches Some(lows) && lows.len() == depth
                &&& r.0.max_values matches Some(highs) && highs.len() == depth
                &&& forall|d: int|
                    0 <= d < depth ==> #[trigger] depth_range(
                        view.samples(),
                        mask,
                        pixels,
                        depth,
                        d,
                        r.0.min_values->0[d],
                        r.0.max_values->0[d],
                    )
            }
        }),
{
    let frame = encoder::raster_frame(view, options);
    let mask = encoder::mask_entries(entries);
    let ready = encoder::raster_readied(view, entries, options)->Ok_0;
    let payload = encoder::payload_of(ready, frame, true);
    let blob = encoder::raster_encoded(view, entries, options)->Ok_0;
    assert(blob + seq![] =~= blob);
    blob_laws::lemma_versions(ready, frame);
    encoder::lemma_blob_len(ready, frame, payload, 0);
    let list = blocks::run_pixels(mask, 0, frame.pixels());
    if list.len() > 0 {
        lemma_whole_range(view.samples(), mask, frame.pixels(), frame.depth as nat);
    }
    raster_laws::lemma_written_returned(
        view.samples(),
        frame,
        mask,
        options,
        ready,
        payload,
        0,
        None,
        limited,
        seq![],
    )
}

} // verus!
