//! What [`decode`](crate::reader::decode) gives back of an encoded raster.

use crate::allocation;
use crate::band_laws;
use crate::blob_laws;
use crate::body_laws;
use crate::encoder;
use crate::error::Fault;
use crate::float::{Double, Single};
use crate::float_laws;
use crate::options::EncodeOptions;
use crate::raster::{MaskView, RasterView};
use crate::raster_laws;
use crate::reader;
use crate::sample::Sample;
use crate::sentinel_laws;
use crate::types::{BlobFacts, DataType, PixelSeq};
use vstd::prelude::*;

verus! {

/// The outcome of strictly decoding one blob.
pub open spec fn strictly_decoded(blob: Seq<u8>) -> std::result::Result<
    (BlobFacts, PixelSeq, Option<Seq<u8>>),
    Fault,
> {
    reader::strictly(
        reader::native_decoded(blob, None, None),
        blob.len(),
        "decode"@,
        "decode_first"@,
    )
}

/// Whether a raster is one that comes back: encoded, not empty, stored in a way that keeps it,
/// and within what decoding allocates.
pub open spec fn comes_back<'a, 'b, T: Sample>(
    view: RasterView<'a, T>,
    entries: Option<MaskView<'b>>,
    options: EncodeOptions,
) -> bool {
    &&& view.wf()
    &&& entries matches Some(m) ==> m.wf()
    &&& view.columns() > 0
    &&& view.rows() > 0
    &&& encoder::raster_encoded(view, entries, options) is Ok
    &&& raster_laws::keeps(
        view.samples(),
        encoder::raster_frame(view, options),
        options,
        encoder::raster_readied(view, entries, options)->Ok_0.found,
    )
    &&& view.samples().len() * T::kind().width() <= allocation::MAX_DECODED_ALLOCATION_BYTES
}

/// Whether decoded parts are those of an encoded raster.
pub open spec fn came_back<'a, 'b, T: Sample>(
    view: RasterView<'a, T>,
    entries: Option<MaskView<'b>>,
    options: EncodeOptions,
    parts: (BlobFacts, Seq<T>, Option<Seq<u8>>),
) -> bool {
    &&& parts.0.data_type == T::kind()
    &&& parts.0.width == view.columns()
    &&& parts.0.height == view.rows()
    &&& parts.0.depth == view.layers()
    &&& raster_laws::returned(
        view.samples(),
        encoder::raster_frame(view, options),
        encoder::mask_entries(entries),
        options,
        parts.1,
        parts.2,
    )
}

/// A raster of integers always comes back, with or without a sentinel.
pub proof fn law_integers_come_back<'a, 'b, T: Sample>(
    view: RasterView<'a, T>,
    entries: Option<MaskView<'b>>,
    options: EncodeOptions,
)
    requires
        T::kind().integer(),
        view.wf(),
        entries matches Some(m) ==> m.wf(),
        view.columns() > 0,
        view.rows() > 0,
        encoder::raster_encoded(view, entries, options) is Ok,
        view.samples().len() * T::kind().width() <= allocation::MAX_DECODED_ALLOCATION_BYTES,
    ensures
        comes_back(view, entries, options),
{
    let frame = encoder::raster_frame(view, options);
    let mask = encoder::mask_entries(entries);
    sentinel_laws::law_integer_sentinel(view.samples(), frame, mask, options);
}

/// A raster of floating-point samples whose sentinel, if it stands beside other samples, is not
/// mistaken for one of them comes back: always where it is not stored as tiles, or the samples
/// are of single precision or stored without loss, and else where the largest number is not the
/// largest double and its distance from the smallest does not overflow.
pub proof fn law_floats_come_back<'a, 'b, T: Sample>(
    view: RasterView<'a, T>,
    entries: Option<MaskView<'b>>,
    options: EncodeOptions,
)
    requires
        !T::kind().integer(),
        view.wf(),
        entries matches Some(m) ==> m.wf(),
        view.columns() > 0,
        view.rows() > 0,
        encoder::raster_encoded(view, entries, options) is Ok,
        view.samples().len() * T::kind().width() <= allocation::MAX_DECODED_ALLOCATION_BYTES,
        ({
            let found = encoder::raster_readied(view, entries, options)->Ok_0.found;
            let frame = encoder::raster_frame(view, options);
            &&& found.encoded_no_data matches Some(e) ==> raster_laws::lossless(found)
                || raster_laws::stands_out(view.samples(), frame, options, found, e)
            &&& !body_laws::tiled(found, frame) || T::kind() == DataType::F32
                || found.max_z_error.zero() || (found.z_max.difference(found.z_min).finite()
                && found.z_max.below(float_laws::largest()))
        }),
    ensures
        comes_back(view, entries, options),
{
    let frame = encoder::raster_frame(view, options);
    let mask = encoder::mask_entries(entries);
    let found = encoder::raster_readied(view, entries, options)->Ok_0.found;
    if T::kind() == DataType::F32 {
        raster_laws::law_single_rebuilds(view.samples(), frame, mask, options);
    } else if body_laws::tiled(found, frame) {
        raster_laws::law_range_rebuilds(view.samples(), frame, mask, options);
    }
}

/// Decoding finds the type, and its samples, of an encoded raster.
pub proof fn law_first_decoded<'a, 'b, T: Sample>(
    view: RasterView<'a, T>,
    entries: Option<MaskView<'b>>,
    options: EncodeOptions,
    limited: bool,
) -> (parts: (BlobFacts, Seq<T>, Option<Seq<u8>>))
    requires
        comes_back(view, entries, options),
    ensures
        ({
            let blob = encoder::raster_encoded(view, entries, options)->Ok_0;
            &&& reader::first_decoded::<T>(blob, None, None, limited) == Ok::<
                (BlobFacts, Seq<T>, Option<Seq<u8>>),
                Fault,
            >(parts)
            &&& reader::native_decoded(blob, None, None) == reader::decoded_as(
                T::kind(),
                blob,
                None,
                None,
            )
            &&& parts.0.blob_size == blob.len()
        }),
        came_back(view, entries, options, parts),
{
    let frame = encoder::raster_frame(view, options);
    let ready = encoder::raster_readied(view, entries, options)->Ok_0;
    let payload = encoder::payload_of(ready, frame, true);
    let blob = encoder::raster_encoded(view, entries, options)->Ok_0;
    assert(blob + seq![] =~= blob);
    band_laws::lemma_signature(ready, frame, payload, 0, seq![]);
    raster_laws::lemma_sound(view.samples(), frame, encoder::mask_entries(entries), options);
    blob_laws::lemma_versions(ready, frame);
    encoder::lemma_blob_len(ready, frame, payload, 0);
    let encoding = blob_laws::mask_kept(ready.found, frame.pixels(), payload);
    blob_laws::law_header_roundtrip(ready, frame, payload, 0, encoding, seq![]);
    raster_laws::law_raster_roundtrip(view, entries, options, limited)
}

/// Decoding an encoded raster of [`i8`] gives it back.
pub proof fn law_decode_i8<'a, 'b>(
    view: RasterView<'a, i8>,
    entries: Option<MaskView<'b>>,
    options: EncodeOptions,
) -> (parts: (BlobFacts, Seq<i8>, Option<Seq<u8>>))
    requires
        comes_back(view, entries, options),
    ensures
        strictly_decoded(encoder::raster_encoded(view, entries, options)->Ok_0) == Ok::<
            (BlobFacts, PixelSeq, Option<Seq<u8>>),
            Fault,
        >((parts.0, PixelSeq::I8(parts.1), parts.2)),
        came_back(view, entries, options, parts),
{
    law_first_decoded(view, entries, options, true)
}

/// Decoding an encoded raster of [`u8`] gives it back.
pub proof fn law_decode_u8<'a, 'b>(
    view: RasterView<'a, u8>,
    entries: Option<MaskView<'b>>,
    options: EncodeOptions,
) -> (parts: (BlobFacts, Seq<u8>, Option<Seq<u8>>))
    requires
        comes_back(view, entries, options),
    ensures
        strictly_decoded(encoder::raster_encoded(view, entries, options)->Ok_0) == Ok::<
            (BlobFacts, PixelSeq, Option<Seq<u8>>),
            Fault,
        >((parts.0, PixelSeq::U8(parts.1), parts.2)),
        came_back(view, entries, options, parts),
{
    law_first_decoded(view, entries, options, true)
}

/// Decoding an encoded raster of [`i16`] gives it back.
pub proof fn law_decode_i16<'a, 'b>(
    view: RasterView<'a, i16>,
    entries: Option<MaskView<'b>>,
    options: EncodeOptions,
) -> (parts: (BlobFacts, Seq<i16>, Option<Seq<u8>>))
    requires
        comes_back(view, entries, options),
    ensures
        strictly_decoded(encoder::raster_encoded(view, entries, options)->Ok_0) == Ok::<
            (BlobFacts, PixelSeq, Option<Seq<u8>>),
            Fault,
        >((parts.0, PixelSeq::I16(parts.1), parts.2)),
        came_back(view, entries, options, parts),
{
    law_first_decoded(view, entries, options, true)
}

/// Decoding an encoded raster of [`u16`] gives it back.
pub proof fn law_decode_u16<'a, 'b>(
    view: RasterView<'a, u16>,
    entries: Option<MaskView<'b>>,
    options: EncodeOptions,
) -> (parts: (BlobFacts, Seq<u16>, Option<Seq<u8>>))
    requires
        comes_back(view, entries, options),
    ensures
        strictly_decoded(encoder::raster_encoded(view, entries, options)->Ok_0) == Ok::<
            (BlobFacts, PixelSeq, Option<Seq<u8>>),
            Fault,
        >((parts.0, PixelSeq::U16(parts.1), parts.2)),
        came_back(view, entries, options, parts),
{
    law_first_decoded(view, entries, options, true)
}

/// Decoding an encoded raster of [`i32`] gives it back.
pub proof fn law_decode_i32<'a, 'b>(
    view: RasterView<'a, i32>,
    entries: Option<MaskView<'b>>,
    options: EncodeOptions,
) -> (parts: (BlobFacts, Seq<i32>, Option<Seq<u8>>))
    requires
        comes_back(view, entries, options),
    ensures
        strictly_decoded(encoder::raster_encoded(view, entries, options)->Ok_0) == Ok::<
            (BlobFacts, PixelSeq, Option<Seq<u8>>),
            Fault,
        >((parts.0, PixelSeq::I32(parts.1), parts.2)),
        came_back(view, entries, options, parts),
{
    law_first_decoded(view, entries, options, true)
}

/// Decoding an encoded raster of [`u32`] gives it back.
pub proof fn law_decode_u32<'a, 'b>(
    view: RasterView<'a, u32>,
    entries: Option<MaskView<'b>>,
    options: EncodeOptions,
) -> (parts: (BlobFacts, Seq<u32>, Option<Seq<u8>>))
    requires
        comes_back(view, entries, options),
    ensures
        strictly_decoded(encoder::raster_encoded(view, entries, options)->Ok_0) == Ok::<
            (BlobFacts, PixelSeq, Option<Seq<u8>>),
            Fault,
        >((parts.0, PixelSeq::U32(parts.1), parts.2)),
        came_back(view, entries, options, parts),
{
    law_first_decoded(view, entries, options, true)
}

/// Decoding an encoded raster of [`Single`] gives it back.
pub proof fn law_decode_single<'a, 'b>(
    view: RasterView<'a, Single>,
    entries: Option<MaskView<'b>>,
    options: EncodeOptions,
) -> (parts: (BlobFacts, Seq<Single>, Option<Seq<u8>>))
    requires
        comes_back(view, entries, options),
    ensures
        strictly_decoded(encoder::raster_encoded(view, entries, options)->Ok_0) == Ok::<
            (BlobFacts, PixelSeq, Option<Seq<u8>>),
            Fault,
        >((parts.0, PixelSeq::F32(parts.1), parts.2)),
        came_back(view, entries, options, parts),
{
    law_first_decoded(view, entries, options, true)
}

/// Decoding an encoded raster of [`Double`] gives it back.
pub proof fn law_decode_double<'a, 'b>(
    view: RasterView<'a, Double>,
    entries: Option<MaskView<'b>>,
    options: EncodeOptions,
) -> (parts: (BlobFacts, Seq<Double>, Option<Seq<u8>>))
    requires
        comes_back(view, entries, options),
    ensures
        strictly_decoded(encoder::raster_encoded(view, entries, options)->Ok_0) == Ok::<
            (BlobFacts, PixelSeq, Option<Seq<u8>>),
            Fault,
        >((parts.0, PixelSeq::F64(parts.1), parts.2)),
        came_back(view, entries, options, parts),
{
    law_first_decoded(view, entries, options, true)
}

} // verus!
