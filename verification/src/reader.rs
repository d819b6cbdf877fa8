//! Inspecting and decoding single blobs of either format.

use crate::blocks;
use crate::error::{Error, Fault, Result};
use crate::float::{Double, Single};
use crate::lerc1;
use crate::lerc1::{decode_lerc1, inspect_lerc1, is_lerc1};
use crate::lerc2;
use crate::lerc2::{decode_lerc2, inspect_lerc2, inspect_lerc2_with_mask};
use crate::lerc2_header;
use crate::lerc2_header::{is_lerc2, parse};
use crate::sample::Sample;
use crate::text;
use crate::text::push_decimal;
use crate::types;
use crate::types::{copy_optional_vec, copy_vec, BlobFacts, BlobInfo, DataType, PixelData, PixelSeq};
use vstd::prelude::*;
use vstd::string::StringExecFns;

verus! {

/// Controls optional work performed while inspecting a blob.
#[derive(Debug, Clone, Copy, PartialEq, Eq, Structural)]
#[non_exhaustive]
pub struct InspectOptions {
    /// Whether Lerc1 blocks are decoded far enough to compute their exact value range.
    pub compute_value_range: bool,
}

impl InspectOptions {
    /// Creates options that preserve the exact-range behavior of [`inspect_first`].
    pub fn new() -> (r: InspectOptions)
        ensures
            r.compute_value_range,
    {
        InspectOptions { compute_value_range: true }
    }

    /// Enables or disables exact Lerc1 value-range computation.
    pub fn with_compute_value_range(self, compute_value_range: bool) -> (r: InspectOptions)
        ensures
            r.compute_value_range == compute_value_range,
    {
        InspectOptions { compute_value_range }
    }
}

impl Default for InspectOptions {
    fn default() -> (r: InspectOptions)
        ensures
            r.compute_value_range,
    {
        InspectOptions::new()
    }
}

/// Native-typed pixels, validated metadata, and an optional validity mask for one blob.
#[derive(Debug, PartialEq)]
pub struct Decoded {
    /// Validated blob metadata.
    pub info: BlobInfo,
    /// Pixel-interleaved samples in the blob's native numeric type.
    pub pixels: PixelData,
    /// Row-major validity bytes, when the blob has a mask.
    pub mask: Option<Vec<u8>>,
}

/// Promoted pixels, validated metadata, and an optional mask for one blob.
#[derive(Debug, PartialEq)]
pub struct DecodedF64 {
    /// Validated blob metadata.
    pub info: BlobInfo,
    /// Pixel-interleaved samples promoted to double precision.
    pub pixels: Vec<Double>,
    /// Row-major validity bytes, when present.
    pub mask: Option<Vec<u8>>,
}

impl View for Decoded {
    type V = (BlobFacts, PixelSeq, Option<Seq<u8>>);

    open spec fn view(&self) -> (BlobFacts, PixelSeq, Option<Seq<u8>>) {
        (self.info@, self.pixels@, types::optional_seq(self.mask))
    }
}

impl View for DecodedF64 {
    type V = (BlobFacts, Seq<Double>, Option<Seq<u8>>);

    open spec fn view(&self) -> (BlobFacts, Seq<Double>, Option<Seq<u8>>) {
        (self.info@, self.pixels@, types::optional_seq(self.mask))
    }
}

impl Clone for Decoded {
    fn clone(&self) -> (r: Decoded)
        ensures
            r@ == self@,
    {
        Decoded {
            info: self.info.clone(),
            pixels: self.pixels.clone(),
            mask: copy_optional_vec(&self.mask),
        }
    }
}

impl Clone for DecodedF64 {
    fn clone(&self) -> (r: DecodedF64)
        ensures
            r@ == self@,
    {
        DecodedF64 {
            info: self.info.clone(),
            pixels: copy_vec(self.pixels.as_slice()),
            mask: copy_optional_vec(&self.mask),
        }
    }
}

/// The metadata of an outcome.
pub open spec fn info_of(
    outcome: std::result::Result<(BlobFacts, Option<Seq<u8>>), Fault>,
) -> std::result::Result<BlobFacts, Fault> {
    match outcome {
        Ok((facts, _)) => Ok(facts),
        Err(e) => Err(e),
    }
}

/// The outcome of inspecting the first blob.
pub open spec fn first_inspected(blob: Seq<u8>, with_range: bool) -> std::result::Result<
    BlobFacts,
    Fault,
> {
    if lerc1::has_lerc1_magic(blob) {
        info_of(lerc1::inspected(blob, None, with_range))
    } else if lerc2_header::has_lerc2_magic(blob) {
        lerc2::inspected(blob, None)
    } else {
        Err(Fault::InvalidMagic)
    }
}

/// The outcome of inspecting the first blob and its mask, given masks from elsewhere.
pub open spec fn first_masked(
    blob: Seq<u8>,
    lerc1_mask: Option<Seq<u8>>,
    lerc2_mask: Option<Seq<u8>>,
) -> std::result::Result<(BlobFacts, Option<Seq<u8>>), Fault> {
    if lerc1::has_lerc1_magic(blob) {
        lerc1::inspected(blob, lerc1_mask, false)
    } else if lerc2_header::has_lerc2_magic(blob) {
        lerc2::inspected_with_mask(blob, lerc2_mask)
    } else {
        Err(Fault::InvalidMagic)
    }
}

/// The outcome of decoding the first blob to samples of type `T`.
pub open spec fn first_decoded<T: Sample>(
    blob: Seq<u8>,
    lerc1_mask: Option<Seq<u8>>,
    lerc2_mask: Option<Seq<u8>>,
    limited: bool,
) -> std::result::Result<(BlobFacts, Seq<T>, Option<Seq<u8>>), Fault> {
    if lerc1::has_lerc1_magic(blob) {
        lerc1::decoded::<T>(blob, lerc1_mask, limited)
    } else if lerc2_header::has_lerc2_magic(blob) {
        lerc2::decoded::<T>(blob, lerc2_mask, limited)
    } else {
        Err(Fault::InvalidMagic)
    }
}

/// An outcome with its samples gathered in a buffer of their runtime type.
pub open spec fn gathered<T: Sample>(
    outcome: std::result::Result<(BlobFacts, Seq<T>, Option<Seq<u8>>), Fault>,
) -> std::result::Result<(BlobFacts, PixelSeq, Option<Seq<u8>>), Fault> {
    match outcome {
        Ok((facts, samples, mask)) => Ok((facts, T::gathered(samples), mask)),
        Err(e) => Err(e),
    }
}

/// The outcome of decoding the first blob to samples of a runtime type.
pub open spec fn decoded_as(
    data_type: DataType,
    blob: Seq<u8>,
    lerc1_mask: Option<Seq<u8>>,
    lerc2_mask: Option<Seq<u8>>,
) -> std::result::Result<(BlobFacts, PixelSeq, Option<Seq<u8>>), Fault> {
    match data_type {
        DataType::I8 => gathered(first_decoded::<i8>(blob, lerc1_mask, lerc2_mask, true)),
        DataType::U8 => gathered(first_decoded::<u8>(blob, lerc1_mask, lerc2_mask, true)),
        DataType::I16 => gathered(first_decoded::<i16>(blob, lerc1_mask, lerc2_mask, true)),
        DataType::U16 => gathered(first_decoded::<u16>(blob, lerc1_mask, lerc2_mask, true)),
        DataType::I32 => gathered(first_decoded::<i32>(blob, lerc1_mask, lerc2_mask, true)),
        DataType::U32 => gathered(first_decoded::<u32>(blob, lerc1_mask, lerc2_mask, true)),
        DataType::F32 => gathered(first_decoded::<Single>(blob, lerc1_mask, lerc2_mask, true)),
        DataType::F64 => gathered(first_decoded::<Double>(blob, lerc1_mask, lerc2_mask, true)),
    }
}

/// The outcome of decoding the first blob in its native type.
pub open spec fn native_decoded(
    blob: Seq<u8>,
    lerc1_mask: Option<Seq<u8>>,
    lerc2_mask: Option<Seq<u8>>,
) -> std::result::Result<(BlobFacts, PixelSeq, Option<Seq<u8>>), Fault> {
    if lerc1::has_lerc1_magic(blob) {
        decoded_as(DataType::F32, blob, lerc1_mask, lerc2_mask)
    } else if lerc2_header::has_lerc2_magic(blob) {
        match lerc2_header::header_parsed(blob) {
            Err(e) => Err(e),
            Ok(h) => decoded_as(h.data_type, blob, lerc1_mask, lerc2_mask),
        }
    } else {
        Err(Fault::InvalidMagic)
    }
}

/// What is wrong with bytes behind a single blob, if there are any.
pub open spec fn consumed_fault(
    len: nat,
    size: nat,
    strict_api: Seq<char>,
    permissive_api: Seq<char>,
) -> Option<Fault> {
    if len == size {
        None
    } else {
        Some(
            Fault::InvalidBlob(
                strict_api + " only accepts a single LERC blob; found "@ + text::decimal_text(
                    (len - size) as nat,
                ) + " trailing bytes, use "@ + permissive_api
                    + " for first-blob decoding or decode_band_set for concatenated rasters"@,
            ),
        )
    }
}

/// An outcome that also fails when the blob leaves bytes behind it.
pub open spec fn strictly<P>(
    outcome: std::result::Result<(BlobFacts, P, Option<Seq<u8>>), Fault>,
    len: nat,
    strict_api: Seq<char>,
    permissive_api: Seq<char>,
) -> std::result::Result<(BlobFacts, P, Option<Seq<u8>>), Fault> {
    match outcome {
        Err(e) => Err(e),
        Ok(parts) => match consumed_fault(len, parts.0.blob_size as nat, strict_api, permissive_api) {
            Some(e) => Err(e),
            None => Ok(parts),
        },
    }
}

/// Metadata that also fails when the blob leaves bytes behind it.
pub open spec fn strict_info(
    outcome: std::result::Result<BlobFacts, Fault>,
    len: nat,
    strict_api: Seq<char>,
    permissive_api: Seq<char>,
) -> std::result::Result<BlobFacts, Fault> {
    match outcome {
        Err(e) => Err(e),
        Ok(facts) => match consumed_fault(len, facts.blob_size as nat, strict_api, permissive_api) {
            Some(e) => Err(e),
            None => Ok(facts),
        },
    }
}

/// Checks that a blob fills its input.
pub fn ensure_single_blob_consumed(
    blob_len: usize,
    decoded_len: usize,
    strict_api: &str,
    permissive_api: &str,
) -> (r: Result<()>)
    requires
        decoded_len <= blob_len,
    ensures
        match r {
            Ok(_) => consumed_fault(
                blob_len as nat,
                decoded_len as nat,
                strict_api@,
                permissive_api@,
            ) is None,
            Err(e) => consumed_fault(
                blob_len as nat,
                decoded_len as nat,
                strict_api@,
                permissive_api@,
            ) == Some(e@),
        },
{
    if blob_len == decoded_len {
        return Ok(());
    }
    let mut reason: String = strict_api.to_owned();
    reason.append(" only accepts a single LERC blob; found ");
    push_decimal(&mut reason, (blob_len - decoded_len) as u64);
    reason.append(" trailing bytes, use ");
    reason.append(permissive_api);
    reason.append(" for first-blob decoding or decode_band_set for concatenated rasters");
    Err(Error::InvalidBlob(reason))
}

/// Inspects the first blob with configurable Lerc1 range computation.
pub fn inspect_first_with_options(blob: &[u8], options: InspectOptions) -> (r: Result<BlobInfo>)
    ensures
        match r {
            Ok(info) => first_inspected(blob@, options.compute_value_range) == Ok::<_, Fault>(info@)
                && info.blob_size <= blob@.len(),
            Err(e) => first_inspected(blob@, options.compute_value_range) == Err::<BlobFacts, _>(
                e@,
            ),
        },
{
    if is_lerc1(blob) {
        let (info, _) = inspect_lerc1(blob, None, options.compute_value_range)?;
        return Ok(info);
    }
    if is_lerc2(blob) {
        return inspect_lerc2(blob, None);
    }
    Err(Error::InvalidMagic)
}

/// Inspects the first blob and computes exact Lerc1 value ranges.
pub fn inspect_first(blob: &[u8]) -> (r: Result<BlobInfo>)
    ensures
        match r {
            Ok(info) => first_inspected(blob@, true) == Ok::<_, Fault>(info@) && info.blob_size
                <= blob@.len(),
            Err(e) => first_inspected(blob@, true) == Err::<BlobFacts, _>(e@),
        },
{
    inspect_first_with_options(blob, InspectOptions::new())
}

/// Inspects the first blob and its mask.
pub fn inspect_first_mask_with_info(
    blob: &[u8],
    lerc1_shared_mask: Option<&[u8]>,
    lerc2_shared_mask: Option<&[u8]>,
) -> (r: Result<(BlobInfo, Option<Vec<u8>>)>)
    ensures
        match r {
            Ok((info, mask)) => first_masked(
                blob@,
                blocks::mask_seq(lerc1_shared_mask),
                blocks::mask_seq(lerc2_shared_mask),
            ) == Ok::<_, Fault>((info@, types::optional_seq(mask))) && info.blob_size
                <= blob@.len() && blocks::mask_fits(types::optional_seq(mask), info@.pixels()),
            Err(e) => first_masked(
                blob@,
                blocks::mask_seq(lerc1_shared_mask),
                blocks::mask_seq(lerc2_shared_mask),
            ) == Err::<(BlobFacts, Option<Seq<u8>>), _>(e@),
        },
{
    if is_lerc1(blob) {
        return inspect_lerc1(blob, lerc1_shared_mask, false);
    }
    if is_lerc2(blob) {
        return inspect_lerc2_with_mask(blob, lerc2_shared_mask);
    }
    Err(Error::InvalidMagic)
}

/// Inspects the first blob using `mask` when it omits its own validity mask.
pub fn inspect_first_with_mask(blob: &[u8], mask: &[u8]) -> (r: Result<BlobInfo>)
    ensures
        match r {
            Ok(info) => info_of(first_masked(blob@, Some(mask@), Some(mask@))) == Ok::<_, Fault>(
                info@,
            ) && info.blob_size <= blob@.len(),
            Err(e) => info_of(first_masked(blob@, Some(mask@), Some(mask@))) == Err::<
                BlobFacts,
                _,
            >(e@),
        },
{
    let (info, _) = inspect_first_mask_with_info(blob, Some(mask), Some(mask))?;
    Ok(info)
}

/// Strictly inspects one blob and rejects trailing bytes.
pub fn get_blob_info(blob: &[u8]) -> (r: Result<BlobInfo>)
    ensures
        match r {
            Ok(info) => strict_info(
                first_inspected(blob@, true),
                blob@.len(),
                "get_blob_info"@,
                "inspect_first"@,
            ) == Ok::<_, Fault>(info@),
            Err(e) => strict_info(
                first_inspected(blob@, true),
                blob@.len(),
                "get_blob_info"@,
                "inspect_first"@,
            ) == Err::<BlobFacts, _>(e@),
        },
{
    let info: BlobInfo = inspect_first(blob)?;
    ensure_single_blob_consumed(blob.len(), info.blob_size, "get_blob_info", "inspect_first")?;
    Ok(info)
}

/// Strictly inspects one externally masked blob and rejects trailing bytes.
pub fn get_blob_info_with_mask(blob: &[u8], mask: &[u8]) -> (r: Result<BlobInfo>)
    ensures
        match r {
            Ok(info) => strict_info(
                info_of(first_masked(blob@, Some(mask@), Some(mask@))),
                blob@.len(),
                "get_blob_info_with_mask"@,
                "inspect_first_with_mask"@,
            ) == Ok::<_, Fault>(info@),
            Err(e) => strict_info(
                info_of(first_masked(blob@, Some(mask@), Some(mask@))),
                blob@.len(),
                "get_blob_info_with_mask"@,
                "inspect_first_with_mask"@,
            ) == Err::<BlobFacts, _>(e@),
        },
{
    let info: BlobInfo = inspect_first_with_mask(blob, mask)?;
    ensure_single_blob_consumed(
        blob.len(),
        info.blob_size,
        "get_blob_info_with_mask",
        "inspect_first_with_mask",
    )?;
    Ok(info)
}

/// Decodes the first blob to samples of type `T`.
pub fn decode_first_as<T: Sample>(
    blob: &[u8],
    lerc1_shared_mask: Option<&[u8]>,
    lerc2_shared_mask: Option<&[u8]>,
    limited: bool,
) -> (r: Result<(BlobInfo, Vec<T>, Option<Vec<u8>>)>)
    ensures
        match r {
            Ok(parts) => first_decoded::<T>(
                blob@,
                blocks::mask_seq(lerc1_shared_mask),
                blocks::mask_seq(lerc2_shared_mask),
                limited,
            ) == Ok::<_, Fault>(lerc2::decoded_view(parts)) && parts.1@.len() == parts.0@.samples()
                && parts.0.blob_size <= blob@.len(),
            Err(e) => first_decoded::<T>(
                blob@,
                blocks::mask_seq(lerc1_shared_mask),
                blocks::mask_seq(lerc2_shared_mask),
                limited,
            ) == Err::<(BlobFacts, Seq<T>, Option<Seq<u8>>), _>(e@),
        },
{
    if is_lerc1(blob) {
        return decode_lerc1::<T>(blob, lerc1_shared_mask, limited);
    }
    if is_lerc2(blob) {
        return decode_lerc2::<T>(blob, lerc2_shared_mask, limited);
    }
    Err(Error::InvalidMagic)
}

/// Decodes the first blob to samples of type `T` and gathers them.
fn decode_gathered<T: Sample>(
    blob: &[u8],
    lerc1_shared_mask: Option<&[u8]>,
    lerc2_shared_mask: Option<&[u8]>,
) -> (r: Result<Decoded>)
    ensures
        match r {
            Ok(decoded) => gathered(
                first_decoded::<T>(
                    blob@,
                    blocks::mask_seq(lerc1_shared_mask),
                    blocks::mask_seq(lerc2_shared_mask),
                    true,
                ),
            ) == Ok::<_, Fault>(decoded@) && decoded.info.blob_size <= blob@.len(),
            Err(e) => gathered(
                first_decoded::<T>(
                    blob@,
                    blocks::mask_seq(lerc1_shared_mask),
                    blocks::mask_seq(lerc2_shared_mask),
                    true,
                ),
            ) == Err::<(BlobFacts, PixelSeq, Option<Seq<u8>>), _>(e@),
        },
{
    let (info, samples, mask) = decode_first_as::<T>(
        blob,
        lerc1_shared_mask,
        lerc2_shared_mask,
        true,
    )?;
    Ok(Decoded { info, pixels: T::into_pixel_data(samples), mask })
}

/// Decodes the first blob in its native type, given masks from elsewhere.
pub fn decode_first_with_masks(
    blob: &[u8],
    lerc1_shared_mask: Option<&[u8]>,
    lerc2_shared_mask: Option<&[u8]>,
) -> (r: Result<Decoded>)
    ensures
        match r {
            Ok(decoded) => native_decoded(
                blob@,
                blocks::mask_seq(lerc1_shared_mask),
                blocks::mask_seq(lerc2_shared_mask),
            ) == Ok::<_, Fault>(decoded@) && decoded.info.blob_size <= blob@.len(),
            Err(e) => native_decoded(
                blob@,
                blocks::mask_seq(lerc1_shared_mask),
                blocks::mask_seq(lerc2_shared_mask),
            ) == Err::<(BlobFacts, PixelSeq, Option<Seq<u8>>), _>(e@),
        },
{
    let data_type: DataType = if is_lerc1(blob) {
        DataType::F32
    } else if is_lerc2(blob) {
        let (h, _) = parse(blob)?;
        h.data_type
    } else {
        return Err(Error::InvalidMagic);
    };
    match data_type {
        DataType::I8 => decode_gathered::<i8>(blob, lerc1_shared_mask, lerc2_shared_mask),
        DataType::U8 => decode_gathered::<u8>(blob, lerc1_shared_mask, lerc2_shared_mask),
        DataType::I16 => decode_gathered::<i16>(blob, lerc1_shared_mask, lerc2_shared_mask),
        DataType::U16 => decode_gathered::<u16>(blob, lerc1_shared_mask, lerc2_shared_mask),
        DataType::I32 => decode_gathered::<i32>(blob, lerc1_shared_mask, lerc2_shared_mask),
        DataType::U32 => decode_gathered::<u32>(blob, lerc1_shared_mask, lerc2_shared_mask),
        DataType::F32 => decode_gathered::<Single>(blob, lerc1_shared_mask, lerc2_shared_mask),
        DataType::F64 => decode_gathered::<Double>(blob, lerc1_shared_mask, lerc2_shared_mask),
    }
}

/// Decodes the first blob and permits trailing bytes.
pub fn decode_first(blob: &[u8]) -> (r: Result<Decoded>)
    ensures
        match r {
            Ok(decoded) => native_decoded(blob@, None, None) == Ok::<_, Fault>(decoded@)
                && decoded.info.blob_size <= blob@.len(),
            Err(e) => native_decoded(blob@, None, None) == Err::<
                (BlobFacts, PixelSeq, Option<Seq<u8>>),
                _,
            >(e@),
        },
{
    decode_first_with_masks(blob, None, None)
}

/// Decodes the first blob with an initial external mask and permits trailing bytes.
pub fn decode_first_with_mask(blob: &[u8], mask: &[u8]) -> (r: Result<Decoded>)
    ensures
        match r {
            Ok(decoded) => native_decoded(blob@, Some(mask@), Some(mask@)) == Ok::<_, Fault>(
                decoded@,
            ) && decoded.info.blob_size <= blob@.len(),
            Err(e) => native_decoded(blob@, Some(mask@), Some(mask@)) == Err::<
                (BlobFacts, PixelSeq, Option<Seq<u8>>),
                _,
            >(e@),
        },
{
    decode_first_with_masks(blob, Some(mask), Some(mask))
}

/// Strictly decodes exactly one blob into its native sample type.
pub fn decode(blob: &[u8]) -> (r: Result<Decoded>)
    ensures
        match r {
            Ok(decoded) => strictly(
                native_decoded(blob@, None, None),
                blob@.len(),
                "decode"@,
                "decode_first"@,
            ) == Ok::<_, Fault>(decoded@),
            Err(e) => strictly(
                native_decoded(blob@, None, None),
                blob@.len(),
                "decode"@,
                "decode_first"@,
            ) == Err::<(BlobFacts, PixelSeq, Option<Seq<u8>>), _>(e@),
        },
{
    let decoded: Decoded = decode_first(blob)?;
    ensure_single_blob_consumed(blob.len(), decoded.info.blob_size, "decode", "decode_first")?;
    Ok(decoded)
}

/// Strictly decodes one blob with an initial external mask.
pub fn decode_with_mask(blob: &[u8], mask: &[u8]) -> (r: Result<Decoded>)
    ensures
        match r {
            Ok(decoded) => strictly(
                native_decoded(blob@, Some(mask@), Some(mask@)),
                blob@.len(),
                "decode_with_mask"@,
                "decode_first_with_mask"@,
            ) == Ok::<_, Fault>(decoded@),
            Err(e) => strictly(
                native_decoded(blob@, Some(mask@), Some(mask@)),
                blob@.len(),
                "decode_with_mask"@,
                "decode_first_with_mask"@,
            ) == Err::<(BlobFacts, PixelSeq, Option<Seq<u8>>), _>(e@),
        },
{
    let decoded: Decoded = decode_first_with_mask(blob, mask)?;
    ensure_single_blob_consumed(
        blob.len(),
        decoded.info.blob_size,
        "decode_with_mask",
        "decode_first_with_mask",
    )?;
    Ok(decoded)
}

/// Decodes the first blob as promoted samples and permits trailing bytes.
pub fn decode_first_to_f64(blob: &[u8]) -> (r: Result<DecodedF64>)
    ensures
        match r {
            Ok(decoded) => first_decoded::<Double>(blob@, None, None, true) == Ok::<_, Fault>(
                decoded@,
            ) && decoded.info.blob_size <= blob@.len(),
            Err(e) => first_decoded::<Double>(blob@, None, None, true) == Err::<
                (BlobFacts, Seq<Double>, Option<Seq<u8>>),
                _,
            >(e@),
        },
{
    let (info, pixels, mask) = decode_first_as::<Double>(blob, None, None, true)?;
    Ok(DecodedF64 { info, pixels, mask })
}

/// Decodes the first externally masked blob as promoted samples and permits trailing bytes.
pub fn decode_first_to_f64_with_mask(blob: &[u8], mask: &[u8]) -> (r: Result<DecodedF64>)
    ensures
        match r {
            Ok(decoded) => first_decoded::<Double>(blob@, Some(mask@), Some(mask@), true) == Ok::<
                _,
                Fault,
            >(decoded@) && decoded.info.blob_size <= blob@.len(),
            Err(e) => first_decoded::<Double>(blob@, Some(mask@), Some(mask@), true) == Err::<
                (BlobFacts, Seq<Double>, Option<Seq<u8>>),
                _,
            >(e@),
        },
{
    let (info, pixels, entries) = decode_first_as::<Double>(blob, Some(mask), Some(mask), true)?;
    Ok(DecodedF64 { info, pixels, mask: entries })
}

/// Strictly decodes one blob and promotes every sample.
pub fn decode_to_f64(blob: &[u8]) -> (r: Result<DecodedF64>)
    ensures
        match r {
            Ok(decoded) => strictly(
                first_decoded::<Double>(blob@, None, None, true),
                blob@.len(),
                "decode_to_f64"@,
                "decode_first_to_f64"@,
            ) == Ok::<_, Fault>(decoded@),
            Err(e) => strictly(
                first_decoded::<Double>(blob@, None, None, true),
                blob@.len(),
                "decode_to_f64"@,
                "decode_first_to_f64"@,
            ) == Err::<(BlobFacts, Seq<Double>, Option<Seq<u8>>), _>(e@),
        },
{
    let decoded: DecodedF64 = decode_first_to_f64(blob)?;
    ensure_single_blob_consumed(
        blob.len(),
        decoded.info.blob_size,
        "decode_to_f64",
        "decode_first_to_f64",
    )?;
    Ok(decoded)
}

/// Strictly decodes one externally masked blob as promoted samples.
pub fn decode_to_f64_with_mask(blob: &[u8], mask: &[u8]) -> (r: Result<DecodedF64>)
    ensures
        match r {
            Ok(decoded) => strictly(
                first_decoded::<Double>(blob@, Some(mask@), Some(mask@), true),
                blob@.len(),
                "decode_to_f64_with_mask"@,
                "decode_first_to_f64_with_mask"@,
            ) == Ok::<_, Fault>(decoded@),
            Err(e) => strictly(
                first_decoded::<Double>(blob@, Some(mask@), Some(mask@), true),
                blob@.len(),
                "decode_to_f64_with_mask"@,
                "decode_first_to_f64_with_mask"@,
            ) == Err::<(BlobFacts, Seq<Double>, Option<Seq<u8>>), _>(e@),
        },
{
    let decoded: DecodedF64 = decode_first_to_f64_with_mask(blob, mask)?;
    ensure_single_blob_consumed(
        blob.len(),
        decoded.info.blob_size,
        "decode_to_f64_with_mask",
        "decode_first_to_f64_with_mask",
    )?;
    Ok(decoded)
}

/// Strictly decoding a blob accepts no bytes behind it: what succeeds fills its input.
pub proof fn law_strict_consumes<P>(
    outcome: std::result::Result<(BlobFacts, P, Option<Seq<u8>>), Fault>,
    len: nat,
    strict_api: Seq<char>,
    permissive_api: Seq<char>,
)
    ensures
        strictly(outcome, len, strict_api, permissive_api) matches Ok(parts) ==> parts.0.blob_size
            == len && outcome == Ok::<_, Fault>(parts),
{
}

} // verus!
