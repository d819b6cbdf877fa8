//! Decoding concatenated blobs as the bands of one raster.

use crate::allocation;
use crate::allocation::{check_allocation, filled};
use crate::blocks;
use crate::error::{Error, Fault, Result};
use crate::float::{Double, Single};
use crate::lerc1;
use crate::lerc1::{is_lerc1, parse_lerc1, Lerc1Blob};
use crate::lerc2::borrow_mask;
use crate::lerc2_header;
use crate::lerc2_header::{is_lerc2, parse};
use crate::materialize;
use crate::materialize::copy_band_values_into_slice;
use crate::raster;
use crate::reader;
use crate::reader::{decode_first_as, decode_first_with_masks, inspect_first_mask_with_info, Decoded};
use crate::sample::Sample;
use crate::text::push_decimal;
use crate::types;
use crate::types::{
    copy_optional_vec, copy_vec, BandLayout, BandSetInfo, BlobFacts, BlobInfo, DataType, PixelData,
    PixelSeq,
};
use crate::values;
use vstd::prelude::*;
use vstd::slice::slice_subrange;
use vstd::string::StringExecFns;

verus! {

/// Runtime discriminator for supported homogeneous band output types.
#[derive(Debug, Clone, Copy, PartialEq, Eq, Hash, Structural)]
pub enum BandElementKind {
    /// Signed 8-bit integer.
    I8,
    /// Unsigned 8-bit integer.
    U8,
    /// Signed 16-bit integer.
    I16,
    /// Unsigned 16-bit integer.
    U16,
    /// Signed 32-bit integer.
    I32,
    /// Unsigned 32-bit integer.
    U32,
    /// Single-precision float.
    F32,
    /// Double-precision float.
    F64,
}

impl BandElementKind {
    /// The numeric type of the same name.
    pub open spec fn same_as(self) -> DataType {
        match self {
            BandElementKind::I8 => DataType::I8,
            BandElementKind::U8 => DataType::U8,
            BandElementKind::I16 => DataType::I16,
            BandElementKind::U16 => DataType::U16,
            BandElementKind::I32 => DataType::I32,
            BandElementKind::U32 => DataType::U32,
            BandElementKind::F32 => DataType::F32,
            BandElementKind::F64 => DataType::F64,
        }
    }
}

/// The error for samples that an output type cannot take.
pub open spec fn element_fault(found: DataType, wanted: DataType) -> Fault {
    Fault::InvalidBlob(
        "cannot decode "@ + found.label() + " pixels into ndarray<"@ + wanted.label() + ">"@,
    )
}

fn element_error(found: DataType, wanted: DataType) -> (r: Error)
    ensures
        r@ == element_fault(found, wanted),
{
    let mut reason: String = "cannot decode ".to_owned();
    reason.append(found.name());
    reason.append(" pixels into ndarray<");
    reason.append(wanted.name());
    reason.append(">");
    Error::InvalidBlob(reason)
}

/// Whether samples of a type can be taken as `T`: as they are, or promoted.
pub open spec fn takes<T: Sample>(found: DataType) -> bool {
    T::kind() == found || T::kind() == DataType::F64
}

/// Primitive types accepted by homogeneous band-set decode functions.
pub trait BandElement: Sample {
    /// The samples of a buffer, where the type takes them.
    spec fn accepted(pixels: PixelSeq) -> Option<Seq<Self>>;

    /// Runtime kind corresponding to this primitive.
    fn element_kind() -> (r: BandElementKind)
        ensures
            r.same_as() == Self::kind(),
    ;

    /// Converts a native decoded buffer when its representation is compatible.
    fn from_pixel_data(pixels: PixelData) -> (r: Result<Vec<Self>>)
        ensures
            match r {
                Ok(found) => Self::accepted(pixels@) == Some(found@) && found@.len()
                    == pixels@.count(),
                Err(e) => Self::accepted(pixels@) is None && e@ == element_fault(
                    pixels@.kind(),
                    Self::kind(),
                ),
            },
    ;
}

impl BandElement for i8 {
    open spec fn accepted(pixels: PixelSeq) -> Option<Seq<i8>> {
        match pixels {
            PixelSeq::I8(found) => Some(found),
            _ => None,
        }
    }

    fn element_kind() -> BandElementKind {
        BandElementKind::I8
    }

    fn from_pixel_data(pixels: PixelData) -> Result<Vec<i8>> {
        match pixels {
            PixelData::I8(found) => Ok(found),
            other => Err(element_error(other.data_type(), DataType::I8)),
        }
    }
}

impl BandElement for u8 {
    open spec fn accepted(pixels: PixelSeq) -> Option<Seq<u8>> {
        match pixels {
            PixelSeq::U8(found) => Some(found),
            _ => None,
        }
    }

    fn element_kind() -> BandElementKind {
        BandElementKind::U8
    }

    fn from_pixel_data(pixels: PixelData) -> Result<Vec<u8>> {
        match pixels {
            PixelData::U8(found) => Ok(found),
            other => Err(element_error(other.data_type(), DataType::U8)),
        }
    }
}

impl BandElement for i16 {
    open spec fn accepted(pixels: PixelSeq) -> Option<Seq<i16>> {
        match pixels {
            PixelSeq::I16(found) => Some(found),
            _ => None,
        }
    }

    fn element_kind() -> BandElementKind {
        BandElementKind::I16
    }

    fn from_pixel_data(pixels: PixelData) -> Result<Vec<i16>> {
        match pixels {
            PixelData::I16(found) => Ok(found),
            other => Err(element_error(other.data_type(), DataType::I16)),
        }
    }
}

impl BandElement for u16 {
    open spec fn accepted(pixels: PixelSeq) -> Option<Seq<u16>> {
        match pixels {
            PixelSeq::U16(found) => Some(found),
            _ => None,
        }
    }

    fn element_kind() -> BandElementKind {
        BandElementKind::U16
    }

    fn from_pixel_data(pixels: PixelData) -> Result<Vec<u16>> {
        match pixels {
            PixelData::U16(found) => Ok(found),
            other => Err(element_error(other.data_type(), DataType::U16)),
        }
    }
}

impl BandElement for i32 {
    open spec fn accepted(pixels: PixelSeq) -> Option<Seq<i32>> {
        match pixels {
            PixelSeq::I32(found) => Some(found),
            _ => None,
        }
    }

    fn element_kind() -> BandElementKind {
        BandElementKind::I32
    }

    fn from_pixel_data(pixels: PixelData) -> Result<Vec<i32>> {
        match pixels {
            PixelData::I32(found) => Ok(found),
            other => Err(element_error(other.data_type(), DataType::I32)),
        }
    }
}

impl BandElement for u32 {
    open spec fn accepted(pixels: PixelSeq) -> Option<Seq<u32>> {
        match pixels {
            PixelSeq::U32(found) => Some(found),
            _ => None,
        }
    }

    fn element_kind() -> BandElementKind {
        BandElementKind::U32
    }

    fn from_pixel_data(pixels: PixelData) -> Result<Vec<u32>> {
        match pixels {
            PixelData::U32(found) => Ok(found),
            other => Err(element_error(other.data_type(), DataType::U32)),
        }
    }
}

impl BandElement for Single {
    open spec fn accepted(pixels: PixelSeq) -> Option<Seq<Single>> {
        match pixels {
            PixelSeq::F32(found) => Some(found),
            _ => None,
        }
    }

    fn element_kind() -> BandElementKind {
        BandElementKind::F32
    }

    fn from_pixel_data(pixels: PixelData) -> Result<Vec<Single>> {
        match pixels {
            PixelData::F32(found) => Ok(found),
            other => Err(element_error(other.data_type(), DataType::F32)),
        }
    }
}

impl BandElement for Double {
    open spec fn accepted(pixels: PixelSeq) -> Option<Seq<Double>> {
        Some(values::promoted_pixels(pixels))
    }

    fn element_kind() -> BandElementKind {
        BandElementKind::F64
    }

    fn from_pixel_data(pixels: PixelData) -> Result<Vec<Double>> {
        Ok(pixels.to_f64())
    }
}

/// The contents of a list of vectors.
pub open spec fn nested<T>(lists: Seq<Vec<T>>) -> Seq<Seq<T>> {
    Seq::new(lists.len(), |i: int| lists[i]@)
}

/// The contents of a list of optional vectors.
pub open spec fn optional_nested<T>(lists: Seq<Option<Vec<T>>>) -> Seq<Option<Seq<T>>> {
    Seq::new(lists.len(), |i: int| types::optional_seq(lists[i]))
}

/// The contents of a list of metadata.
pub open spec fn facts_of(infos: Seq<BlobInfo>) -> Seq<BlobFacts> {
    infos.map_values(|band: BlobInfo| band@)
}

/// The contents of a list of buffers.
pub open spec fn buffers_of(bands: Seq<PixelData>) -> Seq<PixelSeq> {
    Seq::new(bands.len(), |i: int| bands[i]@)
}

/// The offset behind a blob of `len` bytes.
pub open spec fn advanced(offset: nat, len: nat, total: nat) -> std::result::Result<nat, Fault> {
    if offset + len > usize::MAX {
        Err(Fault::SizeOverflow("concatenated band offset"@))
    } else if len == 0 || offset + len > total {
        Err(Fault::InvalidBlob("invalid concatenated band blob size"@))
    } else {
        Ok(offset + len)
    }
}

/// Computes the offset behind a blob; every blob moves it forward.
fn checked_next_offset(offset: usize, next_len: usize, total_len: usize) -> (r: Result<usize>)
    ensures
        match r {
            Ok(next) => advanced(offset as nat, next_len as nat, total_len as nat) == Ok::<
                _,
                Fault,
            >(next as nat) && offset < next <= total_len,
            Err(e) => advanced(offset as nat, next_len as nat, total_len as nat) == Err::<nat, _>(
                e@,
            ),
        },
{
    let next: usize = match offset.checked_add(next_len) {
        Some(next) => next,
        None => {
            return Err(Error::SizeOverflow("concatenated band offset"));
        },
    };
    if next <= offset || next > total_len {
        return Err(Error::invalid_blob("invalid concatenated band blob size"));
    }
    Ok(next)
}

/// The bytes from an offset on.
pub open spec fn rest_of(blob: Seq<u8>, offset: nat) -> Seq<u8> {
    blob.subrange(offset as int, blob.len() as int)
}

/// The outcome of parsing the blob at an offset, with the mask it leaves to a next Lerc1 blob.
pub open spec fn step_parsed(slice: Seq<u8>, shared: Option<Seq<u8>>) -> std::result::Result<
    (BlobFacts, Option<Seq<u8>>),
    Fault,
> {
    if lerc1::has_lerc1_magic(slice) {
        match lerc1::parsed(slice, shared) {
            Err(e) => Err(e),
            Ok(parts) => Ok((parts.facts, parts.entries)),
        }
    } else if lerc2_header::has_lerc2_magic(slice) {
        match lerc2_header::header_parsed(slice) {
            Err(e) => Err(e),
            Ok(h) => Ok((h.facts(), None)),
        }
    } else {
        Err(Fault::InvalidMagic)
    }
}

/// The outcome of counting the blobs from an offset on. A Lerc2 blob does not end the life of
/// a shared Lerc1 mask.
pub open spec fn blobs_counted(
    blob: Seq<u8>,
    offset: nat,
    shared: Option<Seq<u8>>,
    count: nat,
) -> std::result::Result<nat, Fault>
    decreases blob.len() - offset,
{
    if offset >= blob.len() {
        Ok(count)
    } else {
        let slice = rest_of(blob, offset);
        match step_parsed(slice, shared) {
            Err(e) => Err(e),
            Ok((facts, left)) => match advanced(offset, facts.blob_size as nat, blob.len()) {
                Err(e) => Err(e),
                Ok(next) => blobs_counted(
                    blob,
                    next,
                    if lerc1::has_lerc1_magic(slice) {
                        left
                    } else {
                        shared
                    },
                    count + 1,
                ),
            },
        }
    }
}

/// The outcome of parsing all blobs from an offset on.
pub open spec fn blobs_scanned(
    blob: Seq<u8>,
    offset: nat,
    shared: Option<Seq<u8>>,
    found: Seq<BlobFacts>,
) -> std::result::Result<Seq<BlobFacts>, Fault>
    decreases blob.len() - offset,
{
    if offset >= blob.len() {
        Ok(found)
    } else {
        match step_parsed(rest_of(blob, offset), shared) {
            Err(e) => Err(e),
            Ok((facts, left)) => match advanced(offset, facts.blob_size as nat, blob.len()) {
                Err(e) => Err(e),
                Ok(next) => blobs_scanned(blob, next, left, found.push(facts)),
            },
        }
    }
}

/// The mask that a blob leaves to a next one of the Lerc1 format.
pub open spec fn left_to_lerc1(slice: Seq<u8>, mask: Option<Seq<u8>>) -> Option<Seq<u8>> {
    if lerc1::has_lerc1_magic(slice) {
        mask
    } else {
        None
    }
}

/// The mask that a blob leaves to a next one of the Lerc2 format.
pub open spec fn left_to_lerc2(slice: Seq<u8>, mask: Option<Seq<u8>>) -> Option<Seq<u8>> {
    if lerc1::has_lerc1_magic(slice) {
        None
    } else {
        mask
    }
}

/// The outcome of decoding all blobs from an offset on to samples of type `T`.
pub open spec fn typed_bands<T: Sample>(
    blob: Seq<u8>,
    offset: nat,
    lerc1_mask: Option<Seq<u8>>,
    lerc2_mask: Option<Seq<u8>>,
    found: Seq<BlobFacts>,
    bands: Seq<Seq<T>>,
) -> std::result::Result<(Seq<BlobFacts>, Seq<Seq<T>>), Fault>
    decreases blob.len() - offset,
{
    if offset >= blob.len() {
        Ok((found, bands))
    } else {
        let slice = rest_of(blob, offset);
        match reader::first_decoded::<T>(slice, lerc1_mask, lerc2_mask, false) {
            Err(e) => Err(e),
            Ok((facts, samples, mask)) => match advanced(
                offset,
                facts.blob_size as nat,
                blob.len(),
            ) {
                Err(e) => Err(e),
                Ok(next) => typed_bands(
                    blob,
                    next,
                    left_to_lerc1(slice, mask),
                    left_to_lerc2(slice, mask),
                    found.push(facts),
                    bands.push(samples),
                ),
            },
        }
    }
}

/// The outcome of decoding all blobs from an offset on in their native types.
pub open spec fn native_bands(
    blob: Seq<u8>,
    offset: nat,
    lerc1_mask: Option<Seq<u8>>,
    lerc2_mask: Option<Seq<u8>>,
    found: Seq<BlobFacts>,
    bands: Seq<PixelSeq>,
    masks: Seq<Option<Seq<u8>>>,
) -> std::result::Result<(Seq<BlobFacts>, Seq<PixelSeq>, Seq<Option<Seq<u8>>>), Fault>
    decreases blob.len() - offset,
{
    if offset >= blob.len() {
        Ok((found, bands, masks))
    } else {
        let slice = rest_of(blob, offset);
        match reader::native_decoded(slice, lerc1_mask, lerc2_mask) {
            Err(e) => Err(e),
            Ok((facts, pixels, mask)) => match advanced(
                offset,
                facts.blob_size as nat,
                blob.len(),
            ) {
                Err(e) => Err(e),
                Ok(next) => native_bands(
                    blob,
                    next,
                    left_to_lerc1(slice, mask),
                    left_to_lerc2(slice, mask),
                    found.push(facts),
                    bands.push(pixels),
                    masks.push(mask),
                ),
            },
        }
    }
}

/// The outcome of reading the masks of all blobs from an offset on.
pub open spec fn masks_read(
    blob: Seq<u8>,
    offset: nat,
    lerc1_mask: Option<Seq<u8>>,
    lerc2_mask: Option<Seq<u8>>,
    found: Seq<BlobFacts>,
    masks: Seq<Option<Seq<u8>>>,
) -> std::result::Result<(Seq<BlobFacts>, Seq<Option<Seq<u8>>>), Fault>
    decreases blob.len() - offset,
{
    if offset >= blob.len() {
        Ok((found, masks))
    } else {
        let slice = rest_of(blob, offset);
        match reader::first_masked(slice, lerc1_mask, lerc2_mask) {
            Err(e) => Err(e),
            Ok((facts, mask)) => match advanced(offset, facts.blob_size as nat, blob.len()) {
                Err(e) => Err(e),
                Ok(next) => masks_read(
                    blob,
                    next,
                    left_to_lerc1(slice, mask),
                    left_to_lerc2(slice, mask),
                    found.push(facts),
                    masks.push(mask),
                ),
            },
        }
    }
}

/// What is wrong with a set of bands, if anything.
pub open spec fn set_fault(bands: Seq<BlobFacts>) -> Option<Fault> {
    if bands.len() == 0 {
        Some(Fault::InvalidBlob("LERC band set is empty"@))
    } else if !types::uniform(bands) {
        Some(Fault::InvalidBlob("LERC band set contains mismatched raster dimensions"@))
    } else {
        None
    }
}

/// Counts validated blobs in a concatenated band payload.
pub fn get_band_count(blob: &[u8]) -> (r: Result<usize>)
    ensures
        match r {
            Ok(count) => blobs_counted(blob@, 0, None, 0) == Ok::<_, Fault>(count as nat),
            Err(e) => blobs_counted(blob@, 0, None, 0) == Err::<nat, _>(e@),
        },
{
    let len: usize = blob.len();
    let mut offset: usize = 0;
    let mut count: usize = 0;
    let mut shared: Option<Vec<u8>> = None;
    let ghost whole = blobs_counted(blob@, 0, None, 0);
    while offset < len
        invariant
            len == blob@.len(),
            offset <= len,
            count <= offset,
            whole == blobs_counted(blob@, 0, None, 0),
            whole == blobs_counted(
                blob@,
                offset as nat,
                types::optional_seq(shared),
                count as nat,
            ),
        decreases len - offset,
    {
        let slice: &[u8] = slice_subrange(blob, offset, len);
        let next_len: usize = if is_lerc1(slice) {
            let parts: Lerc1Blob = parse_lerc1(slice, borrow_mask(&shared))?;
            shared = parts.entries;
            parts.info.blob_size
        } else if is_lerc2(slice) {
            let (h, _) = parse(slice)?;
            h.blob_size
        } else {
            return Err(Error::InvalidMagic);
        };
        offset = checked_next_offset(offset, next_len, len)?;
        count += 1;
    }
    Ok(count)
}

/// Parses every blob of a band set.
fn scan_band_infos(blob: &[u8], initial_mask: Option<&[u8]>) -> (r: Result<BandSetInfo>)
    ensures
        ({
            let scanned = blobs_scanned(blob@, 0, blocks::mask_seq(initial_mask), seq![]);
            match r {
                Ok(info) => scanned == Ok::<_, Fault>(info@) && set_fault(info@) is None
                    && info.wf(),
                Err(e) => match scanned {
                    Err(fault) => e@ == fault,
                    Ok(found) => set_fault(found) == Some(e@),
                },
            }
        }),
{
    let len: usize = blob.len();
    let mut offset: usize = 0;
    let mut infos: Vec<BlobInfo> = Vec::new();
    let mut shared: Option<Vec<u8>> = match initial_mask {
        Some(mask) => Some(copy_vec(mask)),
        None => None,
    };
    let ghost first = blocks::mask_seq(initial_mask);
    let ghost whole = blobs_scanned(blob@, 0, first, seq![]);
    proof {
        assert(facts_of(infos@) =~= seq![]);
    }
    while offset < len
        invariant
            len == blob@.len(),
            offset <= len,
            first == blocks::mask_seq(initial_mask),
            whole == blobs_scanned(blob@, 0, first, seq![]),
            whole == blobs_scanned(
                blob@,
                offset as nat,
                types::optional_seq(shared),
                facts_of(infos@),
            ),
        decreases len - offset,
    {
        let slice: &[u8] = slice_subrange(blob, offset, len);
        let info: BlobInfo = if is_lerc1(slice) {
            let parts: Lerc1Blob = parse_lerc1(slice, borrow_mask(&shared))?;
            shared = parts.entries;
            parts.info
        } else if is_lerc2(slice) {
            let (h, _) = parse(slice)?;
            shared = None;
            h.info()
        } else {
            return Err(Error::InvalidMagic);
        };
        offset = checked_next_offset(offset, info.blob_size, len)?;
        let ghost before = facts_of(infos@);
        let ghost added = info@;
        infos.push(info);
        proof {
            assert(facts_of(infos@) =~= before.push(added));
        }
    }
    BandSetInfo::new(infos)
}

/// Decodes every blob to samples of type `T`.
fn decode_typed_bands<T: Sample>(blob: &[u8], initial_mask: Option<&[u8]>) -> (r: Result<
    (Vec<BlobInfo>, Vec<Vec<T>>),
>)
    ensures
        ({
            let first = blocks::mask_seq(initial_mask);
            let decoded = typed_bands::<T>(blob@, 0, first, first, seq![], seq![]);
            match r {
                Ok((infos, bands)) => {
                    &&& decoded == Ok::<_, Fault>((facts_of(infos@), nested(bands@)))
                    &&& infos@.len() == bands@.len()
                    &&& forall|i: int|
                        0 <= i < bands@.len() ==> (#[trigger] bands@[i])@.len()
                            == infos@[i]@.samples()
                },
                Err(e) => decoded == Err::<(Seq<BlobFacts>, Seq<Seq<T>>), _>(e@),
            }
        }),
{
    let len: usize = blob.len();
    let mut offset: usize = 0;
    let mut infos: Vec<BlobInfo> = Vec::new();
    let mut bands: Vec<Vec<T>> = Vec::new();
    let mut lerc1_mask: Option<Vec<u8>> = match initial_mask {
        Some(mask) => Some(copy_vec(mask)),
        None => None,
    };
    let mut lerc2_mask: Option<Vec<u8>> = copy_optional_vec(&lerc1_mask);
    let ghost first = blocks::mask_seq(initial_mask);
    let ghost whole = typed_bands::<T>(blob@, 0, first, first, seq![], seq![]);
    proof {
        assert(facts_of(infos@) =~= seq![]);
        assert(nested(bands@) =~= seq![]);
    }
    while offset < len
        invariant
            len == blob@.len(),
            offset <= len,
            first == blocks::mask_seq(initial_mask),
            infos@.len() == bands@.len(),
            forall|i: int|
                0 <= i < bands@.len() ==> (#[trigger] bands@[i])@.len() == infos@[i]@.samples(),
            whole == typed_bands::<T>(blob@, 0, first, first, seq![], seq![]),
            whole == typed_bands(
                blob@,
                offset as nat,
                types::optional_seq(lerc1_mask),
                types::optional_seq(lerc2_mask),
                facts_of(infos@),
                nested(bands@),
            ),
        decreases len - offset,
    {
        let slice: &[u8] = slice_subrange(blob, offset, len);
        let (info, samples, mask) = decode_first_as::<T>(
            slice,
            borrow_mask(&lerc1_mask),
            borrow_mask(&lerc2_mask),
            false,
        )?;
        if is_lerc1(slice) {
            lerc1_mask = mask;
            lerc2_mask = None;
        } else {
            lerc2_mask = mask;
            lerc1_mask = None;
        }
        offset = checked_next_offset(offset, info.blob_size, len)?;
        let ghost before = facts_of(infos@);
        let ghost added = info@;
        let ghost done = nested(bands@);
        let ghost more = samples@;
        infos.push(info);
        bands.push(samples);
        proof {
            assert(facts_of(infos@) =~= before.push(added));
            assert(nested(bands@) =~= done.push(more));
        }
    }
    Ok((infos, bands))
}

/// Scanning and decoding find the same rasters.
proof fn lemma_scan_agrees<T: Sample>(
    blob: Seq<u8>,
    offset: nat,
    lerc1_mask: Option<Seq<u8>>,
    lerc2_mask: Option<Seq<u8>>,
    scanned: Seq<BlobFacts>,
    found: Seq<BlobFacts>,
    bands: Seq<Seq<T>>,
)
    requires
        scanned.len() == found.len(),
        forall|i: int|
            0 <= i < found.len() ==> types::same_shape(#[trigger] found[i], scanned[i]),
    ensures
        match (
            blobs_scanned(blob, offset, lerc1_mask, scanned),
            typed_bands(blob, offset, lerc1_mask, lerc2_mask, found, bands),
        ) {
            (Ok(a), Ok((b, _))) => a.len() == b.len() && forall|i: int|
                0 <= i < b.len() ==> types::same_shape(#[trigger] b[i], a[i]),
            (Err(_), Ok(_)) => false,
            _ => true,
        },
    decreases blob.len() - offset,
{
    if offset < blob.len() {
        let slice = rest_of(blob, offset);
        match reader::first_decoded::<T>(slice, lerc1_mask, lerc2_mask, false) {
            Err(_) => {},
            Ok((facts, samples, mask)) => {
                match step_parsed(slice, lerc1_mask) {
                    Err(_) => {
                        assert(false);
                    },
                    Ok((parsed, left)) => {
                        assert(types::same_shape(facts, parsed) && facts.blob_size
                            == parsed.blob_size);
                        assert(left == left_to_lerc1(slice, mask));
                        match advanced(offset, facts.blob_size as nat, blob.len()) {
                            Err(_) => {},
                            Ok(next) => {
                                lemma_scan_agrees(
                                    blob,
                                    next,
                                    left_to_lerc1(slice, mask),
                                    left_to_lerc2(slice, mask),
                                    scanned.push(parsed),
                                    found.push(facts),
                                    bands.push(samples),
                                );
                            },
                        }
                    },
                }
            },
        }
    }
}

/// Every decoded blob has samples.
proof fn lemma_depth_positive<T: Sample>(
    blob: Seq<u8>,
    offset: nat,
    lerc1_mask: Option<Seq<u8>>,
    lerc2_mask: Option<Seq<u8>>,
    found: Seq<BlobFacts>,
    bands: Seq<Seq<T>>,
)
    requires
        forall|i: int| 0 <= i < found.len() ==> (#[trigger] found[i]).depth > 0,
    ensures
        typed_bands(blob, offset, lerc1_mask, lerc2_mask, found, bands) matches Ok((all, _))
            ==> forall|i: int| 0 <= i < all.len() ==> (#[trigger] all[i]).depth > 0,
    decreases blob.len() - offset,
{
    if offset < blob.len() {
        let slice = rest_of(blob, offset);
        match reader::first_decoded::<T>(slice, lerc1_mask, lerc2_mask, false) {
            Err(_) => {},
            Ok((facts, samples, mask)) => {
                assert(facts.depth > 0);
                match advanced(offset, facts.blob_size as nat, blob.len()) {
                    Err(_) => {},
                    Ok(next) => {
                        lemma_depth_positive(
                            blob,
                            next,
                            left_to_lerc1(slice, mask),
                            left_to_lerc2(slice, mask),
                            found.push(facts),
                            bands.push(samples),
                        );
                    },
                }
            },
        }
    }
}

/// The samples of all bands in one buffer.
pub open spec fn arranged<T>(
    bands: Seq<Seq<T>>,
    layout: BandLayout,
    pixels: nat,
    depth: nat,
) -> Seq<T> {
    Seq::new(
        raster::band_total(pixels, depth, bands.len()),
        |x: int|
            bands[materialize::owner(
                layout,
                pixels,
                depth,
                bands.len(),
                x as nat,
            ) as int][materialize::rank(layout, pixels, depth, bands.len(), x as nat) as int],
    )
}

/// A buffer with the samples of the first bands in their places.
pub open spec fn overlaid<T>(
    out: Seq<T>,
    bands: Seq<Seq<T>>,
    count: nat,
    layout: BandLayout,
    pixels: nat,
    depth: nat,
) -> Seq<T> {
    Seq::new(
        out.len(),
        |x: int|
            if materialize::owner(layout, pixels, depth, count, x as nat) < bands.len() {
                bands[materialize::owner(
                    layout,
                    pixels,
                    depth,
                    count,
                    x as nat,
                ) as int][materialize::rank(layout, pixels, depth, count, x as nat) as int]
            } else {
                out[x]
            },
    )
}

/// Puts the first bands of a set of `count` in their places.
pub fn place_bands<T: Sample>(
    out: &mut [T],
    bands: &Vec<Vec<T>>,
    count: usize,
    pixels: usize,
    depth: usize,
    layout: BandLayout,
)
    requires
        depth > 0,
        pixels * depth <= usize::MAX,
        bands@.len() <= count,
        forall|i: int| 0 <= i < bands@.len() ==> (#[trigger] bands@[i])@.len() == pixels * depth,
        old(out)@.len() == raster::band_total(pixels as nat, depth as nat, count as nat),
    ensures
        final(out)@ == overlaid(
            old(out)@,
            nested(bands@),
            count as nat,
            layout,
            pixels as nat,
            depth as nat,
        ),
{
    let ghost start = out@;
    let ghost all = nested(bands@);
    let mut k: usize = 0;
    while k < bands.len()
        invariant
            k <= bands@.len(),
            bands@.len() <= count,
            all == nested(bands@),
            depth > 0,
            pixels * depth <= usize::MAX,
            forall|i: int|
                0 <= i < bands@.len() ==> (#[trigger] bands@[i])@.len() == pixels * depth,
            out@.len() == raster::band_total(pixels as nat, depth as nat, count as nat),
            out@ == overlaid(
                start,
                all.subrange(0, k as int),
                count as nat,
                layout,
                pixels as nat,
                depth as nat,
            ),
        decreases bands@.len() - k,
    {
        proof {
            materialize::lemma_room(layout, pixels as nat, depth as nat, count as nat, k as nat);
        }
        let _ = copy_band_values_into_slice(
            out,
            bands[k].as_slice(),
            pixels,
            depth,
            k,
            count,
            layout,
        );
        proof {
            assert(all[k as int] == bands@[k as int]@);
            assert(out@ =~= overlaid(
                start,
                all.subrange(0, k + 1),
                count as nat,
                layout,
                pixels as nat,
                depth as nat,
            ));
        }
        k += 1;
    }
    proof {
        assert(all.subrange(0, all.len() as int) =~= all);
    }
}

/// Puts every band in its place.
pub fn arrange_bands<T: Sample>(
    out: &mut [T],
    bands: &Vec<Vec<T>>,
    pixels: usize,
    depth: usize,
    layout: BandLayout,
)
    requires
        depth > 0,
        pixels * depth <= usize::MAX,
        forall|i: int| 0 <= i < bands@.len() ==> (#[trigger] bands@[i])@.len() == pixels * depth,
        old(out)@.len() == raster::band_total(pixels as nat, depth as nat, bands@.len()),
    ensures
        final(out)@ == arranged(nested(bands@), layout, pixels as nat, depth as nat),
{
    let count: usize = bands.len();
    let ghost start = out@;
    place_bands(out, bands, count, pixels, depth, layout);
    proof {
        let wanted = arranged(nested(bands@), layout, pixels as nat, depth as nat);
        assert forall|x: int| 0 <= x < out@.len() implies out@[x] == wanted[x] by {
            materialize::law_slot_covers(
                layout,
                pixels as nat,
                depth as nat,
                count as nat,
                x as nat,
            );
        }
        assert(out@ =~= wanted);
    }
}

/// What is wrong with the sample types of the bands from the `i`-th on, if anything.
pub open spec fn type_fault<T: Sample>(bands: Seq<BlobFacts>, i: nat) -> Option<Fault>
    decreases bands.len() - i,
{
    if i >= bands.len() {
        None
    } else if !takes::<T>(bands[i as int].data_type) {
        Some(element_fault(bands[i as int].data_type, T::kind()))
    } else {
        type_fault::<T>(bands, i + 1)
    }
}

/// What is wrong with the number of samples of a band set, if anything.
pub open spec fn count_fault(bands: Seq<BlobFacts>) -> Option<Fault> {
    if bands[0].pixels() > usize::MAX {
        Some(Fault::SizeOverflow("blob pixel count"@))
    } else if types::band_set_values(bands) > usize::MAX {
        Some(Fault::SizeOverflow("band set value count"@))
    } else {
        None
    }
}

/// The outcome of scanning a band set for output of type `T`.
pub open spec fn set_scanned<T: Sample>(blob: Seq<u8>, mask: Option<Seq<u8>>) ->
    std::result::Result<Seq<BlobFacts>, Fault> {
    match blobs_scanned(blob, 0, mask, seq![]) {
        Err(e) => Err(e),
        Ok(found) => match set_fault(found) {
            Some(e) => Err(e),
            None => match type_fault::<T>(found, 0) {
                Some(e) => Err(e),
                None => match count_fault(found) {
                    Some(e) => Err(e),
                    None => Ok(found),
                },
            },
        },
    }
}

/// The outcome of decoding a scanned band set to one buffer.
pub open spec fn set_decoded<T: Sample>(
    blob: Seq<u8>,
    layout: BandLayout,
    mask: Option<Seq<u8>>,
) -> std::result::Result<(Seq<BlobFacts>, Seq<T>), Fault> {
    match typed_bands::<T>(blob, 0, mask, mask, seq![], seq![]) {
        Err(e) => Err(e),
        Ok((found, bands)) => Ok(
            (
                found,
                arranged(
                    bands,
                    layout,
                    found[0].pixels(),
                    materialize::lanes(found[0].depth as nat),
                ),
            ),
        ),
    }
}

/// Scans a band set for output of type `T`.
pub fn scan_set<T: Sample>(blob: &[u8], initial_mask: Option<&[u8]>) -> (r: Result<
    (BandSetInfo, usize),
>)
    ensures
        match r {
            Ok((info, count)) => {
                &&& set_scanned::<T>(blob@, blocks::mask_seq(initial_mask)) == Ok::<_, Fault>(info@)
                &&& info.wf()
                &&& count == types::band_set_values(info@)
                &&& info@[0].pixels() <= usize::MAX
            },
            Err(e) => set_scanned::<T>(blob@, blocks::mask_seq(initial_mask)) == Err::<
                Seq<BlobFacts>,
                _,
            >(e@),
        },
{
    let info: BandSetInfo = scan_band_infos(blob, initial_mask)?;
    let mut i: usize = 0;
    while i < info.bands.len()
        invariant
            i <= info.bands@.len(),
            info.wf(),
            blobs_scanned(blob@, 0, blocks::mask_seq(initial_mask), seq![]) == Ok::<_, Fault>(
                info@,
            ),
            set_fault(info@) is None,
            type_fault::<T>(info@, 0) == type_fault::<T>(info@, i as nat),
        decreases info.bands@.len() - i,
    {
        assert(info@[i as int] == info.bands@[i as int]@);
        let found: DataType = info.bands[i].data_type;
        let wanted: DataType = T::data_type();
        if wanted != found && wanted != DataType::F64 {
            return Err(element_error(found, wanted));
        }
        i += 1;
    }
    let count: usize = info.value_count()?;
    proof {
        assert(info@[0].pixels() <= types::band_set_values(info@)) by (nonlinear_arith)
            requires
                types::band_set_values(info@) == info@[0].pixels() * info@.len()
                    * materialize::lanes(info@[0].depth as nat),
                info@.len() >= 1,
                materialize::lanes(info@[0].depth as nat) >= 1,
        ;
    }
    Ok((info, count))
}

/// Decodes a scanned band set to a buffer that has room for it.
fn decode_scanned<T: Sample>(
    blob: &[u8],
    layout: BandLayout,
    initial_mask: Option<&[u8]>,
    scanned: &BandSetInfo,
    out: &mut [T],
) -> (r: Result<BandSetInfo>)
    requires
        set_scanned::<T>(blob@, blocks::mask_seq(initial_mask)) == Ok::<_, Fault>(scanned@),
        scanned.wf(),
        scanned@[0].pixels() <= usize::MAX,
        old(out)@.len() == types::band_set_values(scanned@),
    ensures
        match r {
            Ok(info) => set_decoded::<T>(blob@, layout, blocks::mask_seq(initial_mask)) == Ok::<
                _,
                Fault,
            >((info@, final(out)@)) && info.wf(),
            Err(e) => set_decoded::<T>(blob@, layout, blocks::mask_seq(initial_mask)) == Err::<
                (Seq<BlobFacts>, Seq<T>),
                _,
            >(e@) && final(out)@ == old(out)@,
        },
{
    let (infos, bands) = decode_typed_bands::<T>(blob, initial_mask)?;
    let ghost mask = blocks::mask_seq(initial_mask);
    let ghost found = facts_of(infos@);
    proof {
        lemma_scan_agrees::<T>(blob@, 0, mask, mask, seq![], seq![], seq![]);
        assert(found.len() == scanned@.len());
        assert forall|i: int| 0 <= i < found.len() implies types::same_shape(
            #[trigger] found[i],
            found[0],
        ) by {
            assert(types::same_shape(found[i], scanned@[i]));
            assert(types::same_shape(found[0], scanned@[0]));
            assert(types::same_shape(scanned@[i], scanned@[0]));
        }
        assert(types::same_shape(found[0], scanned@[0]));
    }
    let info: BandSetInfo = BandSetInfo::new(infos)?;
    let pixels: usize = info.width() as usize * info.height() as usize;
    let depth: usize = if info.depth() == 0 { 1 } else { info.depth() as usize };
    let room: usize = out.len();
    proof {
        assert(info@ == found);
        let size = pixels as nat * depth as nat;
        assert(raster::band_total(pixels as nat, depth as nat, bands@.len()) == pixels as nat
            * bands@.len() * depth as nat) by (nonlinear_arith)
            requires
                raster::band_total(pixels as nat, depth as nat, bands@.len()) == (pixels as nat
                    * depth as nat) * bands@.len(),
        ;
        assert(size <= size * bands@.len()) by (nonlinear_arith)
            requires
                bands@.len() >= 1,
        ;
        assert forall|i: int| 0 <= i < bands@.len() implies (#[trigger] bands@[i])@.len() == pixels
            * depth by {
            assert(found[i] == info.bands@[i]@);
            assert(types::same_shape(found[i], found[0]));
            lemma_depth_positive::<T>(blob@, 0, mask, mask, seq![], seq![]);
        }
    }
    arrange_bands(out, &bands, pixels, depth, layout);
    Ok(info)
}

/// The outcome of decoding a band set to a vector.
pub open spec fn vec_decoded<T: Sample>(
    blob: Seq<u8>,
    layout: BandLayout,
    mask: Option<Seq<u8>>,
) -> std::result::Result<(Seq<BlobFacts>, Seq<T>), Fault> {
    match set_scanned::<T>(blob, mask) {
        Err(e) => Err(e),
        Ok(found) => match allocation::allocation_fault(
            types::band_set_values(found),
            T::kind().width(),
            "decoded band set"@,
        ) {
            Some(e) => Err(e),
            None => set_decoded::<T>(blob, layout, mask),
        },
    }
}

/// The outcome of decoding a band set to a buffer of `len` samples.
pub open spec fn slice_decoded<T: Sample>(
    blob: Seq<u8>,
    layout: BandLayout,
    mask: Option<Seq<u8>>,
    len: nat,
) -> std::result::Result<(Seq<BlobFacts>, Seq<T>), Fault> {
    match set_scanned::<T>(blob, mask) {
        Err(e) => Err(e),
        Ok(found) => if len != types::band_set_values(found) {
            Err(
                Fault::InvalidArgument(
                    "output slice length does not match decoded band set length"@,
                ),
            )
        } else {
            set_decoded::<T>(blob, layout, mask)
        },
    }
}

/// Decodes a band set to a vector.
fn decode_band_set_owned<T: Sample>(
    blob: &[u8],
    layout: BandLayout,
    initial_mask: Option<&[u8]>,
) -> (r: Result<(BandSetInfo, Vec<T>)>)
    ensures
        match r {
            Ok((info, found)) => vec_decoded::<T>(
                blob@,
                layout,
                blocks::mask_seq(initial_mask),
            ) == Ok::<_, Fault>((info@, found@)) && info.wf(),
            Err(e) => vec_decoded::<T>(blob@, layout, blocks::mask_seq(initial_mask)) == Err::<
                (Seq<BlobFacts>, Seq<T>),
                _,
            >(e@),
        },
{
    let (scanned, count) = scan_set::<T>(blob, initial_mask)?;
    check_allocation(count, T::data_type().byte_len(), "decoded band set")?;
    let mut found: Vec<T> = filled(T::default_value(), count);
    let info: BandSetInfo = decode_scanned(
        blob,
        layout,
        initial_mask,
        &scanned,
        found.as_mut_slice(),
    )?;
    Ok((info, found))
}

/// Decodes a band set to a buffer.
fn decode_band_set_into_direct<T: Sample>(
    blob: &[u8],
    layout: BandLayout,
    initial_mask: Option<&[u8]>,
    out: &mut [T],
) -> (r: Result<BandSetInfo>)
    ensures
        match r {
            Ok(info) => slice_decoded::<T>(
                blob@,
                layout,
                blocks::mask_seq(initial_mask),
                old(out)@.len(),
            ) == Ok::<_, Fault>((info@, final(out)@)) && info.wf(),
            Err(e) => slice_decoded::<T>(
                blob@,
                layout,
                blocks::mask_seq(initial_mask),
                old(out)@.len(),
            ) == Err::<(Seq<BlobFacts>, Seq<T>), _>(e@) && final(out)@ == old(out)@,
        },
{
    let (scanned, count) = scan_set::<T>(blob, initial_mask)?;
    if out.len() != count {
        return Err(
            Error::InvalidArgument("output slice length does not match decoded band set length"),
        );
    }
    decode_scanned(blob, layout, initial_mask, &scanned, out)
}

/// Decodes a band set into a homogeneous vector in the requested layout.
pub fn decode_band_set_vec<T: BandElement>(blob: &[u8], layout: BandLayout) -> (r: Result<
    (BandSetInfo, Vec<T>),
>)
    ensures
        match r {
            Ok((info, found)) => vec_decoded::<T>(blob@, layout, None) == Ok::<_, Fault>(
                (info@, found@),
            ) && info.wf(),
            Err(e) => vec_decoded::<T>(blob@, layout, None) == Err::<(Seq<BlobFacts>, Seq<T>), _>(
                e@,
            ),
        },
{
    decode_band_set_owned(blob, layout, None)
}

/// Decodes an externally masked band set into a homogeneous vector.
pub fn decode_band_set_vec_with_mask<T: BandElement>(
    blob: &[u8],
    mask: &[u8],
    layout: BandLayout,
) -> (r: Result<(BandSetInfo, Vec<T>)>)
    ensures
        match r {
            Ok((info, found)) => vec_decoded::<T>(blob@, layout, Some(mask@)) == Ok::<_, Fault>(
                (info@, found@),
            ) && info.wf(),
            Err(e) => vec_decoded::<T>(blob@, layout, Some(mask@)) == Err::<
                (Seq<BlobFacts>, Seq<T>),
                _,
            >(e@),
        },
{
    decode_band_set_owned(blob, layout, Some(mask))
}

/// Decodes a band set directly into an exactly sized output slice.
pub fn decode_band_set_into<T: BandElement>(blob: &[u8], layout: BandLayout, out: &mut [T]) -> (r:
    Result<BandSetInfo>)
    ensures
        match r {
            Ok(info) => slice_decoded::<T>(blob@, layout, None, old(out)@.len()) == Ok::<_, Fault>(
                (info@, final(out)@),
            ) && info.wf(),
            Err(e) => slice_decoded::<T>(blob@, layout, None, old(out)@.len()) == Err::<
                (Seq<BlobFacts>, Seq<T>),
                _,
            >(e@) && final(out)@ == old(out)@,
        },
{
    decode_band_set_into_direct(blob, layout, None, out)
}

/// Decodes an externally masked band set directly into an output slice.
pub fn decode_band_set_into_with_mask<T: BandElement>(
    blob: &[u8],
    mask: &[u8],
    layout: BandLayout,
    out: &mut [T],
) -> (r: Result<BandSetInfo>)
    ensures
        match r {
            Ok(info) => slice_decoded::<T>(
                blob@,
                layout,
                Some(mask@),
                old(out)@.len(),
            ) == Ok::<_, Fault>((info@, final(out)@)) && info.wf(),
            Err(e) => slice_decoded::<T>(blob@, layout, Some(mask@), old(out)@.len()) == Err::<
                (Seq<BlobFacts>, Seq<T>),
                _,
            >(e@) && final(out)@ == old(out)@,
        },
{
    decode_band_set_into_direct(blob, layout, Some(mask), out)
}

/// Native-typed bands, per-band masks, and shared band-set metadata.
#[derive(Debug, PartialEq)]
pub struct DecodedBandSet {
    /// Validated metadata for every band.
    pub info: BandSetInfo,
    /// Native-typed pixel buffers in band order.
    pub bands: Vec<PixelData>,
    /// Logical mask for each band, including inherited masks.
    pub band_masks: Vec<Option<Vec<u8>>>,
}

impl View for DecodedBandSet {
    type V = (Seq<BlobFacts>, Seq<PixelSeq>, Seq<Option<Seq<u8>>>);

    open spec fn view(&self) -> (Seq<BlobFacts>, Seq<PixelSeq>, Seq<Option<Seq<u8>>>) {
        (self.info@, buffers_of(self.bands@), optional_nested(self.band_masks@))
    }
}

/// The outcome of decoding a band set in the native types of its bands.
pub open spec fn set_native(blob: Seq<u8>, mask: Option<Seq<u8>>) -> std::result::Result<
    (Seq<BlobFacts>, Seq<PixelSeq>, Seq<Option<Seq<u8>>>),
    Fault,
> {
    match native_bands(blob, 0, mask, mask, seq![], seq![], seq![]) {
        Err(e) => Err(e),
        Ok(parts) => match set_fault(parts.0) {
            Some(e) => Err(e),
            None => Ok(parts),
        },
    }
}

/// Decodes every blob in its native type.
fn decode_band_set_with_masks(blob: &[u8], initial_mask: Option<&[u8]>) -> (r: Result<
    DecodedBandSet,
>)
    ensures
        match r {
            Ok(set) => set_native(blob@, blocks::mask_seq(initial_mask)) == Ok::<_, Fault>(set@)
                && set.info.wf(),
            Err(e) => set_native(blob@, blocks::mask_seq(initial_mask)) == Err::<
                (Seq<BlobFacts>, Seq<PixelSeq>, Seq<Option<Seq<u8>>>),
                _,
            >(e@),
        },
{
    let len: usize = blob.len();
    let mut offset: usize = 0;
    let mut infos: Vec<BlobInfo> = Vec::new();
    let mut bands: Vec<PixelData> = Vec::new();
    let mut band_masks: Vec<Option<Vec<u8>>> = Vec::new();
    let mut lerc1_mask: Option<Vec<u8>> = match initial_mask {
        Some(mask) => Some(copy_vec(mask)),
        None => None,
    };
    let mut lerc2_mask: Option<Vec<u8>> = copy_optional_vec(&lerc1_mask);
    let ghost first = blocks::mask_seq(initial_mask);
    let ghost whole = native_bands(blob@, 0, first, first, seq![], seq![], seq![]);
    proof {
        assert(facts_of(infos@) =~= seq![]);
        assert(buffers_of(bands@) =~= seq![]);
        assert(optional_nested(band_masks@) =~= seq![]);
    }
    while offset < len
        invariant
            len == blob@.len(),
            offset <= len,
            first == blocks::mask_seq(initial_mask),
            whole == native_bands(blob@, 0, first, first, seq![], seq![], seq![]),
            whole == native_bands(
                blob@,
                offset as nat,
                types::optional_seq(lerc1_mask),
                types::optional_seq(lerc2_mask),
                facts_of(infos@),
                buffers_of(bands@),
                optional_nested(band_masks@),
            ),
        decreases len - offset,
    {
        let slice: &[u8] = slice_subrange(blob, offset, len);
        let decoded: Decoded = decode_first_with_masks(
            slice,
            borrow_mask(&lerc1_mask),
            borrow_mask(&lerc2_mask),
        )?;
        if is_lerc1(slice) {
            lerc1_mask = copy_optional_vec(&decoded.mask);
            lerc2_mask = None;
        } else {
            lerc2_mask = copy_optional_vec(&decoded.mask);
            lerc1_mask = None;
        }
        offset = checked_next_offset(offset, decoded.info.blob_size, len)?;
        let ghost before = facts_of(infos@);
        let ghost done = buffers_of(bands@);
        let ghost seen = optional_nested(band_masks@);
        let ghost parts = decoded@;
        infos.push(decoded.info);
        bands.push(decoded.pixels);
        band_masks.push(decoded.mask);
        proof {
            assert(facts_of(infos@) =~= before.push(parts.0));
            assert(buffers_of(bands@) =~= done.push(parts.1));
            assert(optional_nested(band_masks@) =~= seen.push(parts.2));
        }
    }
    let info: BandSetInfo = BandSetInfo::new(infos)?;
    Ok(DecodedBandSet { info, bands, band_masks })
}

/// Decodes every concatenated blob as a native-typed band set.
pub fn decode_band_set(blob: &[u8]) -> (r: Result<DecodedBandSet>)
    ensures
        match r {
            Ok(set) => set_native(blob@, None) == Ok::<_, Fault>(set@) && set.info.wf(),
            Err(e) => set_native(blob@, None) == Err::<
                (Seq<BlobFacts>, Seq<PixelSeq>, Seq<Option<Seq<u8>>>),
                _,
            >(e@),
        },
{
    decode_band_set_with_masks(blob, None)
}

/// Decodes a band set, seeding the first blob with an external mask.
pub fn decode_band_set_with_mask(blob: &[u8], mask: &[u8]) -> (r: Result<DecodedBandSet>)
    ensures
        match r {
            Ok(set) => set_native(blob@, Some(mask@)) == Ok::<_, Fault>(set@) && set.info.wf(),
            Err(e) => set_native(blob@, Some(mask@)) == Err::<
                (Seq<BlobFacts>, Seq<PixelSeq>, Seq<Option<Seq<u8>>>),
                _,
            >(e@),
        },
{
    decode_band_set_with_masks(blob, Some(mask))
}

/// The outcome of reading the metadata and masks of a band set.
pub open spec fn set_masks(blob: Seq<u8>, mask: Option<Seq<u8>>) -> std::result::Result<
    (Seq<BlobFacts>, Seq<Option<Seq<u8>>>),
    Fault,
> {
    match masks_read(blob, 0, mask, mask, seq![], seq![]) {
        Err(e) => Err(e),
        Ok(parts) => match set_fault(parts.0) {
            Some(e) => Err(e),
            None => Ok(parts),
        },
    }
}

/// Reads the metadata and masks of a band set without decoding its samples.
pub fn inspect_band_masks(blob: &[u8], initial_mask: Option<&[u8]>) -> (r: Result<
    (BandSetInfo, Vec<Option<Vec<u8>>>),
>)
    ensures
        match r {
            Ok((info, masks)) => set_masks(blob@, blocks::mask_seq(initial_mask)) == Ok::<_, Fault>(
                (info@, optional_nested(masks@)),
            ) && info.wf() && masks_fit(info@, optional_nested(masks@)),
            Err(e) => set_masks(blob@, blocks::mask_seq(initial_mask)) == Err::<
                (Seq<BlobFacts>, Seq<Option<Seq<u8>>>),
                _,
            >(e@),
        },
{
    let len: usize = blob.len();
    let mut offset: usize = 0;
    let mut infos: Vec<BlobInfo> = Vec::new();
    let mut band_masks: Vec<Option<Vec<u8>>> = Vec::new();
    let mut lerc1_mask: Option<Vec<u8>> = match initial_mask {
        Some(mask) => Some(copy_vec(mask)),
        None => None,
    };
    let mut lerc2_mask: Option<Vec<u8>> = copy_optional_vec(&lerc1_mask);
    let ghost first = blocks::mask_seq(initial_mask);
    let ghost whole = masks_read(blob@, 0, first, first, seq![], seq![]);
    proof {
        assert(facts_of(infos@) =~= seq![]);
        assert(optional_nested(band_masks@) =~= seq![]);
    }
    while offset < len
        invariant
            len == blob@.len(),
            offset <= len,
            first == blocks::mask_seq(initial_mask),
            infos@.len() == band_masks@.len(),
            forall|i: int|
                0 <= i < band_masks@.len() ==> blocks::mask_fits(
                    types::optional_seq(#[trigger] band_masks@[i]),
                    infos@[i]@.pixels(),
                ),
            whole == masks_read(blob@, 0, first, first, seq![], seq![]),
            whole == masks_read(
                blob@,
                offset as nat,
                types::optional_seq(lerc1_mask),
                types::optional_seq(lerc2_mask),
                facts_of(infos@),
                optional_nested(band_masks@),
            ),
        decreases len - offset,
    {
        let slice: &[u8] = slice_subrange(blob, offset, len);
        let (info, mask) = inspect_first_mask_with_info(
            slice,
            borrow_mask(&lerc1_mask),
            borrow_mask(&lerc2_mask),
        )?;
        if is_lerc1(slice) {
            lerc1_mask = copy_optional_vec(&mask);
            lerc2_mask = None;
        } else {
            lerc2_mask = copy_optional_vec(&mask);
            lerc1_mask = None;
        }
        offset = checked_next_offset(offset, info.blob_size, len)?;
        let ghost before = facts_of(infos@);
        let ghost seen = optional_nested(band_masks@);
        let ghost added = info@;
        let ghost entries = types::optional_seq(mask);
        infos.push(info);
        band_masks.push(mask);
        proof {
            assert(facts_of(infos@) =~= before.push(added));
            assert(optional_nested(band_masks@) =~= seen.push(entries));
        }
    }
    let info: BandSetInfo = BandSetInfo::new(infos)?;
    proof {
        assert forall|i: int| 0 <= i < band_masks@.len() implies blocks::mask_fits(
            #[trigger] optional_nested(band_masks@)[i],
            info@[0].pixels(),
        ) by {
            assert(types::same_shape(info@[i], info@[0]));
            assert(blocks::mask_fits(types::optional_seq(band_masks@[i]), info.bands@[i]@.pixels()));
        }
    }
    Ok((info, band_masks))
}

/// Whether every mask has an entry for each pixel.
pub open spec fn masks_fit(infos: Seq<BlobFacts>, masks: Seq<Option<Seq<u8>>>) -> bool {
    forall|i: int|
        0 <= i < masks.len() ==> blocks::mask_fits(#[trigger] masks[i], infos[0].pixels())
}

/// What is wrong with a band as part of its set, if anything.
pub open spec fn member_fault<T: BandElement>(
    infos: Seq<BlobFacts>,
    bands: Seq<PixelSeq>,
    i: nat,
) -> Option<Fault> {
    if T::accepted(bands[i as int]) is None {
        Some(element_fault(bands[i as int].kind(), T::kind()))
    } else {
        match materialize::band_fault(
            infos[0].pixels(),
            infos[0].depth as nat,
            i,
            infos.len(),
            bands[i as int].count(),
        ) {
            Some(reason) => Some(Fault::InvalidBlob(reason)),
            None => None,
        }
    }
}

/// What is wrong with the bands from the `i`-th on, if anything.
pub open spec fn members_fault<T: BandElement>(
    infos: Seq<BlobFacts>,
    bands: Seq<PixelSeq>,
    i: nat,
) -> Option<Fault>
    decreases bands.len() - i,
{
    if i >= bands.len() {
        None
    } else if member_fault::<T>(infos, bands, i) is Some {
        member_fault::<T>(infos, bands, i)
    } else {
        members_fault::<T>(infos, bands, i + 1)
    }
}

/// The bands as samples of type `T`.
pub open spec fn accepted_all<T: BandElement>(bands: Seq<PixelSeq>) -> Seq<Seq<T>> {
    Seq::new(bands.len(), |i: int| T::accepted(bands[i])->0)
}

/// The outcome of placing all bands in one vector.
pub open spec fn set_materialized<T: BandElement>(
    infos: Seq<BlobFacts>,
    bands: Seq<PixelSeq>,
    layout: BandLayout,
) -> std::result::Result<Seq<T>, Fault> {
    if bands.len() == 1 {
        match T::accepted(bands[0]) {
            Some(found) => Ok(found),
            None => Err(element_fault(bands[0].kind(), T::kind())),
        }
    } else {
        match count_fault(infos) {
            Some(e) => Err(e),
            None => match members_fault::<T>(infos, bands, 0) {
                Some(e) => Err(e),
                None => if bands.len() < infos.len() {
                    Err(
                        Fault::InvalidBlob(
                            "not all decoded bands were materialized into the output buffer"@,
                        ),
                    )
                } else {
                    Ok(
                        arranged(
                            accepted_all::<T>(bands),
                            layout,
                            infos[0].pixels(),
                            materialize::lanes(infos[0].depth as nat),
                        ),
                    )
                },
            },
        }
    }
}

/// The outcome of placing the bands in a buffer.
pub open spec fn set_copied<T: BandElement>(
    infos: Seq<BlobFacts>,
    bands: Seq<PixelSeq>,
    layout: BandLayout,
    out: Seq<T>,
) -> std::result::Result<Seq<T>, Fault> {
    match count_fault(infos) {
        Some(e) => Err(e),
        None => if out.len() != types::band_set_values(infos) {
            Err(
                Fault::InvalidArgument(
                    "output slice length does not match decoded band set length"@,
                ),
            )
        } else {
            match members_fault::<T>(infos, bands, 0) {
                Some(e) => Err(e),
                None => Ok(
                    overlaid(
                        out,
                        accepted_all::<T>(bands),
                        infos.len(),
                        layout,
                        infos[0].pixels(),
                        materialize::lanes(infos[0].depth as nat),
                    ),
                ),
            }
        },
    }
}

impl Clone for DecodedBandSet {
    fn clone(&self) -> (r: DecodedBandSet)
        ensures
            r@ == self@,
    {
        let mut infos: Vec<BlobInfo> = Vec::with_capacity(self.info.bands.len());
        let mut i: usize = 0;
        while i < self.info.bands.len()
            invariant
                i <= self.info.bands@.len(),
                infos@.len() == i,
                forall|j: int| 0 <= j < i ==> (#[trigger] infos@[j])@ == self.info.bands@[j]@,
            decreases self.info.bands@.len() - i,
        {
            infos.push(self.info.bands[i].clone());
            i += 1;
        }
        let mut bands: Vec<PixelData> = Vec::with_capacity(self.bands.len());
        let mut k: usize = 0;
        while k < self.bands.len()
            invariant
                k <= self.bands@.len(),
                bands@.len() == k,
                forall|j: int| 0 <= j < k ==> (#[trigger] bands@[j])@ == self.bands@[j]@,
            decreases self.bands@.len() - k,
        {
            bands.push(self.bands[k].clone());
            k += 1;
        }
        let mut band_masks: Vec<Option<Vec<u8>>> = Vec::with_capacity(self.band_masks.len());
        let mut m: usize = 0;
        while m < self.band_masks.len()
            invariant
                m <= self.band_masks@.len(),
                band_masks@.len() == m,
                forall|j: int|
                    0 <= j < m ==> types::optional_seq(#[trigger] band_masks@[j])
                        == types::optional_seq(self.band_masks@[j]),
            decreases self.band_masks@.len() - m,
        {
            band_masks.push(copy_optional_vec(&self.band_masks[m]));
            m += 1;
        }
        let r = DecodedBandSet { info: BandSetInfo { bands: infos }, bands, band_masks };
        proof {
            assert(r.info@ =~= self.info@);
            assert(buffers_of(r.bands@) =~= buffers_of(self.bands@));
            assert(optional_nested(r.band_masks@) =~= optional_nested(self.band_masks@));
        }
        r
    }
}

impl DecodedBandSet {
    /// Converts every band, after the sizes were checked.
    fn convert_bands<T: BandElement>(&self) -> (r: Result<Vec<Vec<T>>>)
        requires
            self.info.wf(),
            count_fault(self.info@) is None,
        ensures
            match r {
                Ok(found) => {
                    &&& members_fault::<T>(self.info@, self@.1, 0) is None
                    &&& nested(found@) == accepted_all::<T>(self@.1)
                    &&& found@.len() == self.bands@.len()
                    &&& found@.len() <= self.info.bands@.len()
                    &&& forall|i: int|
                        0 <= i < found@.len() ==> (#[trigger] found@[i])@.len()
                            == self.info@[0].pixels() * materialize::lanes(
                            self.info@[0].depth as nat,
                        )
                },
                Err(e) => members_fault::<T>(self.info@, self@.1, 0) == Some(e@),
            },
    {
        let pixels: usize = self.info.width() as usize * self.info.height() as usize;
        let depth: usize = if self.info.depth() == 0 { 1 } else { self.info.depth() as usize };
        let count: usize = self.info.band_count();
        proof {
            let size = pixels as nat * depth as nat;
            assert(size <= pixels as nat * self.info@.len() * depth as nat) by (nonlinear_arith)
                requires
                    size == pixels as nat * depth as nat,
                    self.info@.len() >= 1,
            ;
        }
        let len: usize = pixels * depth;
        let mut found: Vec<Vec<T>> = Vec::with_capacity(self.bands.len());
        let ghost buffers = buffers_of(self.bands@);
        let mut i: usize = 0;
        while i < self.bands.len()
            invariant
                i <= self.bands@.len(),
                self.info.wf(),
                buffers == self@.1,
                buffers == buffers_of(self.bands@),
                count == self.info@.len(),
                pixels == self.info@[0].pixels(),
                depth == materialize::lanes(self.info@[0].depth as nat),
                len == pixels * depth,
                found@.len() == i,
                i <= count,
                forall|j: int| 0 <= j < i ==> (#[trigger] found@[j])@.len() == len,
                forall|j: int|
                    0 <= j < i ==> (#[trigger] found@[j])@ == T::accepted(buffers[j])->0,
                members_fault::<T>(self.info@, buffers, 0) == members_fault::<T>(
                    self.info@,
                    buffers,
                    i as nat,
                ),
            decreases self.bands@.len() - i,
        {
            assert(buffers[i as int] == self.bands@[i as int]@);
            let band: Vec<T> = T::from_pixel_data(self.bands[i].clone())?;
            if band.len() != len {
                return Err(Error::invalid_blob("decoded band length does not match its metadata"));
            }
            if i >= count {
                let mut reason: String = "band index ".to_owned();
                push_decimal(&mut reason, i as u64);
                reason.append(" exceeds band count ");
                push_decimal(&mut reason, count as u64);
                return Err(Error::InvalidBlob(reason));
            }
            found.push(band);
            i += 1;
        }
        proof {
            assert(nested(found@) =~= accepted_all::<T>(buffers));
        }
        Ok(found)
    }

    /// Materializes every band as one homogeneous vector in `layout`.
    pub fn into_vec_with_layout<T: BandElement>(self, layout: BandLayout) -> (r: Result<Vec<T>>)
        requires
            self.info.wf(),
        ensures
            match r {
                Ok(found) => set_materialized::<T>(self.info@, self@.1, layout) == Ok::<_, Fault>(
                    found@,
                ),
                Err(e) => set_materialized::<T>(self.info@, self@.1, layout) == Err::<Seq<T>, _>(
                    e@,
                ),
            },
    {
        if self.bands.len() == 1 {
            return T::from_pixel_data(self.bands[0].clone());
        }
        let total: usize = self.info.value_count()?;
        proof {
            lemma_counted(self.info@);
        }
        let bands: Vec<Vec<T>> = self.convert_bands::<T>()?;
        if bands.len() < self.info.band_count() {
            return Err(
                Error::invalid_blob(
                    "not all decoded bands were materialized into the output buffer",
                ),
            );
        }
        let pixels: usize = self.info.width() as usize * self.info.height() as usize;
        let depth: usize = if self.info.depth() == 0 { 1 } else { self.info.depth() as usize };
        let mut out: Vec<T> = filled(T::default_value(), total);
        arrange_bands(out.as_mut_slice(), &bands, pixels, depth, layout);
        Ok(out)
    }

    /// Copies every band into an exactly sized caller-provided slice.
    pub fn copy_into_slice<T: BandElement>(self, layout: BandLayout, out: &mut [T]) -> (r: Result<
        (),
    >)
        requires
            self.info.wf(),
        ensures
            match r {
                Ok(_) => set_copied::<T>(self.info@, self@.1, layout, old(out)@) == Ok::<_, Fault>(
                    final(out)@,
                ),
                Err(e) => set_copied::<T>(self.info@, self@.1, layout, old(out)@) == Err::<
                    Seq<T>,
                    _,
                >(e@) && final(out)@ == old(out)@,
            },
    {
        let total: usize = self.info.value_count()?;
        proof {
            lemma_counted(self.info@);
        }
        if out.len() != total {
            return Err(
                Error::InvalidArgument(
                    "output slice length does not match decoded band set length",
                ),
            );
        }
        let bands: Vec<Vec<T>> = self.convert_bands::<T>()?;
        let pixels: usize = self.info.width() as usize * self.info.height() as usize;
        let depth: usize = if self.info.depth() == 0 { 1 } else { self.info.depth() as usize };
        let count: usize = self.info.band_count();
        place_bands(out, &bands, count, pixels, depth, layout);
        Ok(())
    }
}

/// Where the samples of a set can be counted, so can those of a band.
proof fn lemma_counted(infos: Seq<BlobFacts>)
    requires
        infos.len() >= 1,
        types::band_set_values(infos) <= usize::MAX,
    ensures
        count_fault(infos) is None,
        infos[0].pixels() <= usize::MAX,
        infos[0].pixels() * materialize::lanes(infos[0].depth as nat) <= usize::MAX,
        raster::band_total(
            infos[0].pixels(),
            materialize::lanes(infos[0].depth as nat),
            infos.len(),
        ) == types::band_set_values(infos),
{
    let pixels = infos[0].pixels();
    let depth = materialize::lanes(infos[0].depth as nat);
    let count = infos.len();
    assert(pixels <= pixels * count * depth && pixels * depth <= pixels * count * depth && (pixels
        * depth) * count == pixels * count * depth) by (nonlinear_arith)
        requires
            count >= 1,
            depth >= 1,
    ;
}

/// The masks of all bands, pixel by pixel; a band without a mask is valid everywhere.
pub open spec fn masks_merged(masks: Seq<Option<Seq<u8>>>, pixels: nat) -> Seq<u8> {
    Seq::new(
        pixels * masks.len(),
        |x: int|
            match masks[x % (masks.len() as int)] {
                Some(entries) => entries[x / (masks.len() as int)],
                None => 1u8,
            },
    )
}

/// Whether some band has a mask.
pub open spec fn any_mask(masks: Seq<Option<Seq<u8>>>) -> bool {
    exists|i: int| 0 <= i < masks.len() && #[trigger] masks[i] is Some
}

/// Whether some mask lacks an entry for a pixel.
pub open spec fn short_mask(masks: Seq<Option<Seq<u8>>>, pixels: nat) -> bool {
    exists|i: int|
        0 <= i < masks.len() && #[trigger] masks[i] is Some && masks[i]->Some_0.len() < pixels
}

/// The outcome of merging the masks of a band set, if there are any. The only band's mask is
/// taken as it is; of several, entries past the last pixel are passed over.
pub open spec fn set_mask(infos: Seq<BlobFacts>, masks: Seq<Option<Seq<u8>>>) ->
    std::result::Result<Option<Seq<u8>>, Fault> {
    let pixels = infos[0].pixels();
    if !any_mask(masks) {
        Ok(None)
    } else if pixels > usize::MAX {
        Err(Fault::SizeOverflow("blob pixel count"@))
    } else if infos.len() == 1 {
        if masks[0] is Some {
            Ok(masks[0])
        } else {
            match allocation::allocation_fault(pixels, 1, "decoded band mask"@) {
                Some(e) => Err(e),
                None => Ok(Some(allocation::repeated(0u8, pixels))),
            }
        }
    } else if pixels * infos.len() > usize::MAX {
        Err(Fault::SizeOverflow("decoded band mask length"@))
    } else {
        match allocation::allocation_fault(pixels * infos.len(), 1, "decoded band mask"@) {
            Some(e) => Err(e),
            None => if short_mask(masks, pixels) {
                Err(Fault::InvalidBlob("decoded band mask is shorter than its band"@))
            } else {
                Ok(Some(masks_merged(masks, pixels)))
            },
        }
    }
}

/// Whether every mask that there is has an entry for each pixel.
fn masks_long_enough(masks: &Vec<Option<Vec<u8>>>, pixels: usize) -> (r: bool)
    ensures
        r == !short_mask(optional_nested(masks@), pixels as nat),
{
    let ghost all = optional_nested(masks@);
    let mut i: usize = 0;
    while i < masks.len()
        invariant
            i <= masks@.len(),
            all == optional_nested(masks@),
            forall|j: int| 0 <= j < i && #[trigger] all[j] is Some ==> all[j]->Some_0.len() >= pixels,
        decreases masks@.len() - i,
    {
        assert(all[i as int] == types::optional_seq(masks@[i as int]));
        if let Some(entries) = &masks[i] {
            if entries.len() < pixels {
                return false;
            }
        }
        i += 1;
    }
    true
}

/// Merges the masks of a band set.
pub fn merge_band_masks(info: &BandSetInfo, masks: &Vec<Option<Vec<u8>>>) -> (r: Result<
    Option<Vec<u8>>,
>)
    requires
        info.wf(),
    ensures
        match r {
            Ok(merged) => set_mask(info@, optional_nested(masks@)) == Ok::<_, Fault>(
                types::optional_seq(merged),
            ),
            Err(e) => set_mask(info@, optional_nested(masks@)) == Err::<Option<Seq<u8>>, _>(e@),
        },
{
    let ghost all = optional_nested(masks@);
    let mut found = false;
    let mut i: usize = 0;
    while i < masks.len()
        invariant
            i <= masks@.len(),
            all == optional_nested(masks@),
            found == exists|j: int| 0 <= j < i && #[trigger] all[j] is Some,
        decreases masks@.len() - i,
    {
        assert(all[i as int] == types::optional_seq(masks@[i as int]));
        if masks[i].is_some() {
            found = true;
        }
        i += 1;
    }
    if !found {
        return Ok(None);
    }
    let pixels: usize = info.bands[0].pixel_count()?;
    if info.band_count() == 1 {
        assert(all[0] == types::optional_seq(masks@[0]));
        if let Some(entries) = &masks[0] {
            return Ok(Some(copy_vec(entries.as_slice())));
        }
        check_allocation(pixels, 1, "decoded band mask")?;
        return Ok(Some(filled(0u8, pixels)));
    }
    let len: usize = allocation::checked_mul(
        pixels,
        info.band_count(),
        "decoded band mask length",
    )?;
    check_allocation(len, 1, "decoded band mask")?;
    if !masks_long_enough(masks, pixels) {
        return Err(Error::InvalidBlob("decoded band mask is shorter than its band".to_owned()));
    }
    let count: usize = masks.len();
    let ghost wanted = masks_merged(all, pixels as nat);
    let mut merged: Vec<u8> = Vec::new();
    let mut pixel: usize = 0;
    proof {
        assert(0 * count == 0) by (nonlinear_arith);
    }
    while pixel < pixels
        invariant
            pixel <= pixels,
            count == masks@.len(),
            all == optional_nested(masks@),
            wanted == masks_merged(all, pixels as nat),
            !short_mask(all, pixels as nat),
            merged@.len() == pixel * count,
            forall|x: int| 0 <= x < merged@.len() ==> #[trigger] merged@[x] == wanted[x],
        decreases pixels - pixel,
    {
        let mut band: usize = 0;
        while band < count
            invariant
                pixel < pixels,
                band <= count,
                count == masks@.len(),
                all == optional_nested(masks@),
                wanted == masks_merged(all, pixels as nat),
                !short_mask(all, pixels as nat),
                    merged@.len() == pixel * count + band,
                forall|x: int| 0 <= x < merged@.len() ==> #[trigger] merged@[x] == wanted[x],
            decreases count - band,
        {
            proof {
                let x = pixel * count + band;
                vstd::arithmetic::div_mod::lemma_fundamental_div_mod_converse(
                    x,
                    count as int,
                    pixel as int,
                    band as int,
                );
                assert(x < pixels * count) by (nonlinear_arith)
                    requires
                        x == pixel * count + band,
                        pixel + 1 <= pixels,
                        band < count,
                ;
                assert(all[band as int] == types::optional_seq(masks@[band as int]));
            }
            let entry: u8 = match &masks[band] {
                Some(entries) => entries[pixel],
                None => 1,
            };
            merged.push(entry);
            band += 1;
        }
        proof {
            assert((pixel + 1) * count == pixel * count + count) by (nonlinear_arith);
        }
        pixel += 1;
    }
    proof {
        assert(merged@ =~= wanted);
    }
    Ok(Some(merged))
}

/// Decodes the blobs of a band set one by one, as they arrive.
pub struct BandSetBuilder {
    infos: Vec<BlobInfo>,
    bands: Vec<PixelData>,
    band_masks: Vec<Option<Vec<u8>>>,
    lerc1_mask: Option<Vec<u8>>,
    lerc2_mask: Option<Vec<u8>>,
}

impl BandSetBuilder {
    /// The mask for a next Lerc1 blob.
    pub closed spec fn for_lerc1(&self) -> Option<Seq<u8>> {
        types::optional_seq(self.lerc1_mask)
    }

    /// The mask for a next Lerc2 blob.
    pub closed spec fn for_lerc2(&self) -> Option<Seq<u8>> {
        types::optional_seq(self.lerc2_mask)
    }

    /// What was decoded so far: metadata, samples and masks.
    pub closed spec fn parts(&self) -> (Seq<BlobFacts>, Seq<PixelSeq>, Seq<Option<Seq<u8>>>) {
        (facts_of(self.infos@), buffers_of(self.bands@), optional_nested(self.band_masks@))
    }

    /// Starts without bands.
    pub fn new(initial_mask: Option<&[u8]>) -> (r: BandSetBuilder)
        ensures
            r.for_lerc1() == blocks::mask_seq(initial_mask),
            r.for_lerc2() == blocks::mask_seq(initial_mask),
            r.parts() == (
                Seq::<BlobFacts>::empty(),
                Seq::<PixelSeq>::empty(),
                Seq::<Option<Seq<u8>>>::empty(),
            ),
    {
        let lerc1_mask: Option<Vec<u8>> = match initial_mask {
            Some(mask) => Some(copy_vec(mask)),
            None => None,
        };
        let lerc2_mask: Option<Vec<u8>> = copy_optional_vec(&lerc1_mask);
        let r = BandSetBuilder {
            infos: Vec::new(),
            bands: Vec::new(),
            band_masks: Vec::new(),
            lerc1_mask,
            lerc2_mask,
        };
        proof {
            assert(facts_of(r.infos@) =~= Seq::empty());
            assert(buffers_of(r.bands@) =~= Seq::empty());
            assert(optional_nested(r.band_masks@) =~= Seq::empty());
        }
        r
    }

    /// The mask for a next Lerc1 blob.
    pub fn shared_mask(&self) -> (r: Option<&[u8]>)
        ensures
            blocks::mask_seq(r) == self.for_lerc1(),
    {
        borrow_mask(&self.lerc1_mask)
    }

    /// Decodes the next blob.
    pub fn push(&mut self, blob: &[u8]) -> (r: Result<()>)
        ensures
            ({
                let decoded = reader::native_decoded(
                    blob@,
                    old(self).for_lerc1(),
                    old(self).for_lerc2(),
                );
                match r {
                    Ok(_) => match decoded {
                        Ok((facts, pixels, mask)) => {
                            let (infos, bands, masks) = old(self).parts();
                            &&& final(self).parts() == (
                                infos.push(facts),
                                bands.push(pixels),
                                masks.push(mask),
                            )
                            &&& final(self).for_lerc1() == left_to_lerc1(blob@, mask)
                            &&& final(self).for_lerc2() == left_to_lerc2(blob@, mask)
                        },
                        Err(_) => false,
                    },
                    Err(e) => decoded == Err::<(BlobFacts, PixelSeq, Option<Seq<u8>>), _>(e@)
                        && final(self).parts() == old(self).parts() && final(self).for_lerc1()
                        == old(self).for_lerc1() && final(self).for_lerc2()
                        == old(self).for_lerc2(),
                }
            }),
    {
        let decoded: Decoded = decode_first_with_masks(
            blob,
            borrow_mask(&self.lerc1_mask),
            borrow_mask(&self.lerc2_mask),
        )?;
        if is_lerc1(blob) {
            self.lerc1_mask = copy_optional_vec(&decoded.mask);
            self.lerc2_mask = None;
        } else {
            self.lerc2_mask = copy_optional_vec(&decoded.mask);
            self.lerc1_mask = None;
        }
        let ghost before = old(self).parts();
        let ghost parts = decoded@;
        self.infos.push(decoded.info);
        self.bands.push(decoded.pixels);
        self.band_masks.push(decoded.mask);
        proof {
            assert(facts_of(self.infos@) =~= before.0.push(parts.0));
            assert(buffers_of(self.bands@) =~= before.1.push(parts.1));
            assert(optional_nested(self.band_masks@) =~= before.2.push(parts.2));
        }
        Ok(())
    }

    /// Hands out the band set.
    pub fn finish(self) -> (r: Result<DecodedBandSet>)
        ensures
            match r {
                Ok(set) => set_fault(self.parts().0) is None && set@ == self.parts()
                    && set.info.wf(),
                Err(e) => set_fault(self.parts().0) == Some(e@),
            },
    {
        let info: BandSetInfo = BandSetInfo::new(self.infos)?;
        Ok(DecodedBandSet { info, bands: self.bands, band_masks: self.band_masks })
    }
}

/// A blob of a band set that can be decoded on its own.
pub struct ParallelBand {
    /// Where the blob begins.
    pub offset: usize,
    /// The mask that it may inherit.
    pub inherited_mask: Option<Vec<u8>>,
}

/// The contents of a list of blobs.
pub open spec fn listed_of(bands: Seq<ParallelBand>) -> Seq<(nat, Option<Seq<u8>>)> {
    Seq::new(
        bands.len(),
        |i: int| (bands[i].offset as nat, types::optional_seq(bands[i].inherited_mask)),
    )
}

/// The outcome of listing all blobs from an offset on with the masks they may inherit.
pub open spec fn bands_listed(
    blob: Seq<u8>,
    offset: nat,
    lerc1_mask: Option<Seq<u8>>,
    lerc2_mask: Option<Seq<u8>>,
    found: Seq<(nat, Option<Seq<u8>>)>,
) -> std::result::Result<Seq<(nat, Option<Seq<u8>>)>, Fault>
    decreases blob.len() - offset,
{
    if offset >= blob.len() {
        Ok(found)
    } else {
        let slice = rest_of(blob, offset);
        match reader::first_masked(slice, lerc1_mask, lerc2_mask) {
            Err(e) => Err(e),
            Ok((facts, mask)) => match advanced(offset, facts.blob_size as nat, blob.len()) {
                Err(e) => Err(e),
                Ok(next) => bands_listed(
                    blob,
                    next,
                    left_to_lerc1(slice, mask),
                    left_to_lerc2(slice, mask),
                    found.push(
                        (
                            offset,
                            if lerc1::has_lerc1_magic(slice) {
                                lerc1_mask
                            } else {
                                lerc2_mask
                            },
                        ),
                    ),
                ),
            },
        }
    }
}

/// Lists the blobs of a band set with the masks they may inherit, so that each can be decoded
/// on its own.
pub fn scan_parallel_bands(blob: &[u8], initial_mask: Option<&[u8]>) -> (r: Result<
    Vec<ParallelBand>,
>)
    ensures
        ({
            let first = blocks::mask_seq(initial_mask);
            match r {
                Ok(found) => bands_listed(blob@, 0, first, first, seq![]) == Ok::<_, Fault>(
                    listed_of(found@),
                ) && forall|i: int|
                    0 <= i < found@.len() ==> (#[trigger] found@[i]).offset < blob@.len(),
                Err(e) => bands_listed(blob@, 0, first, first, seq![]) == Err::<
                    Seq<(nat, Option<Seq<u8>>)>,
                    _,
                >(e@),
            }
        }),
{
    let len: usize = blob.len();
    let mut offset: usize = 0;
    let mut found: Vec<ParallelBand> = Vec::new();
    let mut lerc1_mask: Option<Vec<u8>> = match initial_mask {
        Some(mask) => Some(copy_vec(mask)),
        None => None,
    };
    let mut lerc2_mask: Option<Vec<u8>> = copy_optional_vec(&lerc1_mask);
    let ghost first = blocks::mask_seq(initial_mask);
    let ghost whole = bands_listed(blob@, 0, first, first, seq![]);
    proof {
        assert(listed_of(found@) =~= seq![]);
    }
    while offset < len
        invariant
            len == blob@.len(),
            offset <= len,
            first == blocks::mask_seq(initial_mask),
            forall|i: int| 0 <= i < found@.len() ==> (#[trigger] found@[i]).offset < len,
            whole == bands_listed(blob@, 0, first, first, seq![]),
            whole == bands_listed(
                blob@,
                offset as nat,
                types::optional_seq(lerc1_mask),
                types::optional_seq(lerc2_mask),
                listed_of(found@),
            ),
        decreases len - offset,
    {
        let slice: &[u8] = slice_subrange(blob, offset, len);
        let (info, mask) = inspect_first_mask_with_info(
            slice,
            borrow_mask(&lerc1_mask),
            borrow_mask(&lerc2_mask),
        )?;
        let next: usize = checked_next_offset(offset, info.blob_size, len)?;
        let ghost before = listed_of(found@);
        let inherited_mask: Option<Vec<u8>> = if is_lerc1(slice) {
            copy_optional_vec(&lerc1_mask)
        } else {
            copy_optional_vec(&lerc2_mask)
        };
        let ghost added = (offset as nat, types::optional_seq(inherited_mask));
        found.push(ParallelBand { offset, inherited_mask });
        proof {
            assert(listed_of(found@) =~= before.push(added));
        }
        if is_lerc1(slice) {
            lerc1_mask = mask;
            lerc2_mask = None;
        } else {
            lerc2_mask = mask;
            lerc1_mask = None;
        }
        offset = next;
    }
    Ok(found)
}

/// Decodes one listed blob to samples of type `T`.
pub fn decode_parallel_band<T: Sample>(blob: &[u8], band: &ParallelBand) -> (r: Result<
    (BlobInfo, Vec<T>),
>)
    requires
        band.offset <= blob@.len(),
    ensures
        ({
            let mask = types::optional_seq(band.inherited_mask);
            let decoded = reader::first_decoded::<T>(
                rest_of(blob@, band.offset as nat),
                mask,
                mask,
                false,
            );
            match r {
                Ok((info, samples)) => match decoded {
                    Ok((facts, found, _)) => facts == info@ && found == samples@,
                    Err(_) => false,
                },
                Err(e) => decoded == Err::<(BlobFacts, Seq<T>, Option<Seq<u8>>), _>(e@),
            }
        }),
{
    let slice: &[u8] = slice_subrange(blob, band.offset, blob.len());
    let (info, samples, _) = decode_first_as::<T>(
        slice,
        borrow_mask(&band.inherited_mask),
        borrow_mask(&band.inherited_mask),
        false,
    )?;
    Ok((info, samples))
}

proof fn lemma_parallel<T: Sample>(
    blob: Seq<u8>,
    offset: nat,
    lerc1_mask: Option<Seq<u8>>,
    lerc2_mask: Option<Seq<u8>>,
    list: Seq<(nat, Option<Seq<u8>>)>,
    found: Seq<BlobFacts>,
    bands: Seq<Seq<T>>,
)
    requires
        list.len() == found.len(),
        list.len() == bands.len(),
        forall|i: int|
            0 <= i < list.len() ==> decodes_to(blob, #[trigger] list[i], found[i], bands[i]),
    ensures
        typed_bands(blob, offset, lerc1_mask, lerc2_mask, found, bands) matches Ok((facts, all))
            ==> match bands_listed(blob, offset, lerc1_mask, lerc2_mask, list) {
            Ok(whole) => {
                &&& whole.len() == facts.len()
                &&& whole.len() == all.len()
                &&& forall|i: int|
                    0 <= i < whole.len() ==> decodes_to(
                        blob,
                        #[trigger] whole[i],
                        facts[i],
                        all[i],
                    )
            },
            Err(_) => false,
        },
    decreases blob.len() - offset,
{
    if offset < blob.len() {
        let slice = rest_of(blob, offset);
        match reader::first_decoded::<T>(slice, lerc1_mask, lerc2_mask, false) {
            Err(_) => {},
            Ok((facts, samples, mask)) => {
                match reader::first_masked(slice, lerc1_mask, lerc2_mask) {
                    Err(_) => {
                        assert(false);
                    },
                    Ok((seen, entries)) => {
                        assert(seen.blob_size == facts.blob_size);
                        assert(entries == mask);
                        let inherited = if lerc1::has_lerc1_magic(slice) {
                            lerc1_mask
                        } else {
                            lerc2_mask
                        };
                        assert(decodes_to(blob, (offset, inherited), facts, samples));
                        match advanced(offset, facts.blob_size as nat, blob.len()) {
                            Err(_) => {},
                            Ok(next) => {
                                lemma_parallel(
                                    blob,
                                    next,
                                    left_to_lerc1(slice, mask),
                                    left_to_lerc2(slice, mask),
                                    list.push((offset, inherited)),
                                    found.push(facts),
                                    bands.push(samples),
                                );
                            },
                        }
                    },
                }
            },
        }
    }
}

/// Whether a listed blob, decoded on its own, has these metadata and samples.
pub open spec fn decodes_to<T: Sample>(
    blob: Seq<u8>,
    band: (nat, Option<Seq<u8>>),
    facts: BlobFacts,
    samples: Seq<T>,
) -> bool {
    reader::first_decoded::<T>(rest_of(blob, band.0), band.1, band.1, false) matches Ok(parts)
        && parts.0 == facts && parts.1 == samples
}

/// Decoding the listed blobs of a band set one by one, in any order, gives what decoding them
/// in sequence gives.
pub proof fn law_parallel_agrees<T: Sample>(blob: Seq<u8>, mask: Option<Seq<u8>>)
    ensures
        typed_bands::<T>(blob, 0, mask, mask, seq![], seq![]) matches Ok((facts, all))
            ==> match bands_listed(blob, 0, mask, mask, seq![]) {
            Ok(whole) => {
                &&& whole.len() == facts.len()
                &&& whole.len() == all.len()
                &&& forall|i: int|
                    0 <= i < whole.len() ==> decodes_to(
                        blob,
                        #[trigger] whole[i],
                        facts[i],
                        all[i],
                    )
            },
            Err(_) => false,
        },
{
    lemma_parallel::<T>(blob, 0, mask, mask, seq![], seq![], seq![]);
}

} // verus!
