//! What is refused: headers, masks, modes, requests and buffers outside their limits.

use crate::bands;
use crate::blocks;
use crate::encoder;
use crate::error::Fault;
use crate::float;
use crate::float::Double;
use crate::lerc2;
use crate::lerc2_body;
use crate::lerc2_header;
use crate::lerc2_header::Lerc2Header;
use crate::lerc2_huffman;
use crate::mask_laws;
use crate::no_data;
use crate::options::EncodeOptions;
use crate::raster;
use crate::raster::{MaskView, RasterView};
use crate::sample::Sample;
use crate::types;
use crate::types::MaskEncoding;
use vstd::arithmetic::power2::{lemma2_to64, pow2};
use vstd::prelude::*;

verus! {

/// A header that is read lies within the limits of the format.
pub proof fn law_header_limits(blob: Seq<u8>)
    ensures
        lerc2_header::header_parsed(blob) matches Ok(h) ==> {
            &&& blob.subrange(0, 6) == seq![76u8, 101u8, 114u8, 99u8, 50u8, 32u8]
            &&& 1 <= h.version <= 6
            &&& h.width > 0
            &&& h.height > 0
            &&& h.depth > 0
            &&& h.version < 4 ==> h.depth == 1
            &&& h.version < 6 ==> h.remaining_band_count == 0 && h.original_no_data is None
            &&& 0 < h.micro_block_size < 33
            &&& h.valid_pixel_count <= h.width * h.height
            &&& 0 < h.blob_size <= blob.len()
            &&& h.max_z_error.finite() && h.max_z_error.units() >= 0
            &&& h.z_min.finite() && h.z_max.finite() && h.z_min.units() <= h.z_max.units()
            &&& h.original_no_data matches Some(value) ==> value.finite() && h.depth > 1
            &&& h.encoded_no_data matches Some(value) ==> value.finite()
            &&& h.encoded_no_data is Some <==> h.original_no_data is Some
            &&& h.mask_encoding == MaskEncoding::Explicit ==> 0 < h.valid_pixel_count < h.width
                * h.height
        },
{
    lerc2_header::lemma_parsed_wf(blob);
    if let Ok(h) = lerc2_header::header_parsed(blob) {
        let none = Double { bits: 0 };
        float::lemma_order(h.max_z_error, none);
        float::lemma_order(h.z_max, h.z_min);
        float::lemma_significand_bounds(none);
        let magic = lerc2_header::magic_lerc2();
        assert(magic =~= seq![76u8, 101u8, 114u8, 99u8, 50u8, 32u8]);
    }
}

/// A mask from elsewhere is taken, as it is, where it has an entry for every pixel and as many
/// entries that are not zero as the header says, and only there.
pub proof fn law_given_mask(h: Lerc2Header, all: Seq<u8>, pos: int, entries: Seq<u8>)
    requires
        h.mask_encoding == MaskEncoding::External,
    ensures
        lerc2::mask_read(h, all, pos, Some(entries)) is Ok <==> entries.len() == h.width * h.height
            && entries.filter(|entry: u8| entry > 0).len() == h.valid_pixel_count,
        lerc2::mask_read(h, all, pos, Some(entries)) matches Ok((found, next)) ==> found == Some(
            entries,
        ) && next == pos,
        lerc2::mask_read(h, all, pos, None) is Err,
{
    mask_laws::law_valid_count(entries);
}

/// Whatever mask is read, it has as many valid pixels as the header says.
pub proof fn law_mask_counted(
    h: Lerc2Header,
    all: Seq<u8>,
    pos: int,
    inherited: Option<Seq<u8>>,
)
    requires
        h.wf(),
    ensures
        lerc2::mask_read(h, all, pos, inherited) matches Ok((entries, _))
            ==> blocks::run_pixels(entries, 0, (h.width * h.height) as nat).len()
            == h.valid_pixel_count,
{
    if let Ok((found, _)) = lerc2::mask_read(h, all, pos, inherited) {
        match found {
            Some(entries) => {
                lerc2::lemma_no_valid(h.pixels());
                assert(entries.len() == h.pixels());
                assert(raster::count_valid(entries) == h.valid_pixel_count);
                mask_laws::law_listed_count(entries);
            },
            None => {
                lemma_all_listed(h.pixels());
            },
        }
    }
}

proof fn lemma_all_listed(count: nat)
    ensures
        blocks::run_pixels(None, 0, count).len() == count,
    decreases count,
{
    if count > 0 {
        lemma_all_listed((count - 1) as nat);
    }
}

/// A body with an encode mode that its version does not know is refused: two modes are known
/// from the beginning, a third from version 4 on and a fourth from version 6 on. The first stores
/// tiles, the second codes of differences, and the others codes of samples.
pub proof fn law_mode_refused<T: Sample>(
    h: Lerc2Header,
    ranges: Option<(Seq<Double>, Seq<Double>)>,
    entries: Option<Seq<u8>>,
    all: Seq<u8>,
    pos: int,
    samples: Seq<T>,
)
    requires
        0 <= pos,
        pos + 2 <= all.len() <= usize::MAX,
        h.valid_pixel_count > 0,
        !h.z_min.same(h.z_max),
        lerc2::constant_ranges(ranges) is None,
        lerc2_body::has_mode(h.data_type, h.max_z_error, h.version),
        all[pos] == 0,
    ensures
        ({
            let known: int = 2 + if h.version >= 6 {
                2int
            } else if h.version >= 4 {
                1int
            } else {
                0int
            };
            &&& all[pos + 1] >= known ==> lerc2::body_read(h, ranges, entries, all, pos, samples) is Err
            &&& 0 < all[pos + 1] < known && lerc2_body::huffman_possible(
                h.data_type,
                h.max_z_error,
            ) ==> (lerc2_huffman::huffman_read(
                h,
                entries,
                all,
                pos + 2,
                all[pos + 1] == 1,
                samples,
            ) matches Ok(read) ==> lerc2::body_read(h, ranges, entries, all, pos, samples) == Ok::<
                (Seq<T>, int),
                Fault,
            >((read, all.len() as int)))
        }),
{
}

/// No more than `2^29` bytes of samples are decoded into a buffer of the decoder's own.
pub proof fn law_buffer_limited<T: Sample>(blob: Seq<u8>, inherited: Option<Seq<u8>>)
    ensures
        lerc2::decoded::<T>(blob, inherited, true) matches Ok((facts, _, _)) ==> (facts.width
            * facts.height) * facts.depth * T::kind().width() <= pow2(29),
{
    lemma2_to64();
}

/// What is encoded was asked for with a finite error bound that is not negative, blocks of 2 to
/// 32 pixels, and a finite sentinel if any.
pub proof fn law_request_limits<'a, 'b, T: Sample>(
    view: RasterView<'a, T>,
    entries: Option<MaskView<'b>>,
    options: EncodeOptions,
)
    ensures
        encoder::raster_encoded(view, entries, options) is Ok ==> {
            &&& options.max_z_error.finite() && options.max_z_error.units() >= 0
            &&& 1 < options.micro_block_size < 33
            &&& options.no_data_value matches Some(value) ==> value.finite()
            &&& entries matches Some(mask) ==> mask.columns() == view.columns() && mask.rows()
                == view.rows()
        },
{
    let none = Double { bits: 0 };
    if options.max_z_error.finite() {
        float::lemma_order(options.max_z_error, none);
        float::lemma_significand_bounds(none);
    }
}

/// A sentinel is taken for samples of several depths only, and, among integers, only from the
/// range of their type.
pub proof fn law_sentinel_range<T: Sample>(value: Double, depth: nat)
    requires
        T::kind().integer(),
        value.finite(),
    ensures
        no_data::sentinel::<T>(Some(value), depth) is Ok <==> depth > 1 && T::kind().least() * pow2(
            1074,
        ) <= value.units() <= T::kind().most() * pow2(1074),
{
    let low = no_data::type_low(T::kind());
    let high = no_data::type_high(T::kind());
    float::lemma_int_exact(T::kind().least());
    float::lemma_int_exact(T::kind().most());
    assert(low == float::double_of_int(T::kind().least()));
    assert(high == float::double_of_int(T::kind().most()));
    float::lemma_order(low, value);
    float::lemma_order(value, high);
}

/// Of the candidates between two numbers the greatest is chosen, if there is one.
pub proof fn law_stand_in_greatest(found: Seq<Double>, floor: Double, threshold: Double)
    ensures
        no_data::best_stand_in(found, floor, threshold) matches Some(best) ==> found.contains(best)
            && best.finite() && floor.below(best) && best.below(threshold),
        forall|i: int|
            0 <= i < found.len() && (#[trigger] found[i]).finite() && floor.below(found[i])
                && found[i].below(threshold) ==> (no_data::best_stand_in(found, floor, threshold)
                matches Some(best) && !best.below(found[i])),
    decreases found.len(),
{
    if found.len() > 0 {
        let front = found.drop_last();
        law_stand_in_greatest(front, floor, threshold);
        let last = found[found.len() - 1];
        if let Some(b) = no_data::best_stand_in(front, floor, threshold) {
            let k = choose|k: int| 0 <= k < front.len() && front[k] == b;
            assert(found[k] == b);
        }
        assert forall|i: int|
            0 <= i < found.len() && (#[trigger] found[i]).finite() && floor.below(found[i])
                && found[i].below(threshold) implies (no_data::best_stand_in(
            found,
            floor,
            threshold,
        ) matches Some(best) && !best.below(found[i])) by {
            if i < front.len() {
                assert(front[i] == found[i]);
            }
        }
    }
}

/// A decoded band set has a band, and all of them have rasters of one shape.
pub proof fn law_set_uniform(blob: Seq<u8>, mask: Option<Seq<u8>>)
    ensures
        bands::set_native(blob, mask) matches Ok((facts, _, _)) ==> facts.len() > 0 && forall|i: int|
            0 <= i < facts.len() ==> (#[trigger] facts[i]).width == facts[0].width
                && facts[i].height == facts[0].height && facts[i].depth == facts[0].depth,
        bands::set_masks(blob, mask) matches Ok((facts, _)) ==> facts.len() > 0 && forall|i: int|
            0 <= i < facts.len() ==> (#[trigger] facts[i]).width == facts[0].width
                && facts[i].height == facts[0].height && facts[i].depth == facts[0].depth,
{
    if let Ok((facts, _, _)) = bands::set_native(blob, mask) {
        assert forall|i: int| 0 <= i < facts.len() implies (#[trigger] facts[i]).width
            == facts[0].width && facts[i].height == facts[0].height && facts[i].depth
            == facts[0].depth by {
            assert(types::same_shape(facts[i], facts[0]));
        }
    }
    if let Ok((facts, _)) = bands::set_masks(blob, mask) {
        assert forall|i: int| 0 <= i < facts.len() implies (#[trigger] facts[i]).width
            == facts[0].width && facts[i].height == facts[0].height && facts[i].depth
            == facts[0].depth by {
            assert(types::same_shape(facts[i], facts[0]));
        }
    }
}

} // verus!
