//! The header of a Lerc2 blob.

use crate::bytes;
use crate::checksum;
use crate::checksum::fletcher32;
use crate::cursor;
use crate::cursor::Cursor;
use crate::error::{Error, Fault, Result};
use crate::float::Double;
use crate::text;
use crate::text::push_decimal;
use crate::types;
use crate::types::{BlobFacts, BlobInfo, DataType, MaskEncoding, Version};
use vstd::prelude::*;
use vstd::slice::slice_subrange;
use vstd::string::StringExecFns;

verus! {

/// The bits of `-1.0`.
pub const MINUS_ONE_BITS: u64 = 0xbff0_0000_0000_0000;

/// The six bytes `Lerc2 `.
pub open spec fn magic_lerc2() -> Seq<u8> {
    seq![76u8, 101u8, 114u8, 99u8, 50u8, 32u8]
}

/// Whether the bytes begin with the signature.
pub open spec fn has_lerc2_magic(blob: Seq<u8>) -> bool {
    blob.len() >= 6 && blob.subrange(0, 6) == magic_lerc2()
}

/// Whether a blob begins with the Lerc2 signature.
pub fn is_lerc2(blob: &[u8]) -> (r: bool)
    ensures
        r == has_lerc2_magic(blob@),
{
    if blob.len() < 6 {
        return false;
    }
    let r = blob[0] == 76 && blob[1] == 101 && blob[2] == 114 && blob[3] == 99 && blob[4] == 50
        && blob[5] == 32;
    proof {
        let head = blob@.subrange(0, 6);
        if r {
            assert(head =~= magic_lerc2());
        } else {
            assert(head[0] != 76 || head[1] != 101 || head[2] != 114 || head[3] != 99 || head[4]
                != 50 || head[5] != 32);
        }
    }
    r
}

/// The widths of the fields behind the version number.
pub open spec fn field_widths(version: u32) -> Seq<usize> {
    if version >= 6 {
        seq![4, 4, 4, 4, 4, 4, 4, 4, 4, 1, 1, 1, 1, 8, 8, 8, 8, 8]
    } else if version >= 4 {
        seq![4, 4, 4, 4, 4, 4, 4, 4, 8, 8, 8]
    } else if version == 3 {
        seq![4, 4, 4, 4, 4, 4, 4, 8, 8, 8]
    } else {
        seq![4, 4, 4, 4, 4, 4, 8, 8, 8]
    }
}

/// The error for the first of the fields from the `i`-th on that does not fit into `len`
/// bytes, if there is one.
pub open spec fn short_field(len: nat, pos: nat, widths: Seq<usize>, i: nat) -> Option<Fault>
    decreases widths.len() - i,
{
    if i >= widths.len() {
        None
    } else if pos + widths[i as int] > len {
        Some(
            Fault::Truncated {
                offset: pos,
                needed: widths[i as int] as nat,
                available: (len - pos) as nat,
            },
        )
    } else {
        short_field(len, pos + widths[i as int] as nat, widths, i + 1)
    }
}

/// The sum of the field widths from the `i`-th on.
pub open spec fn widths_sum(widths: Seq<usize>, i: nat) -> nat
    decreases widths.len() - i,
{
    if i >= widths.len() {
        0
    } else {
        widths[i as int] as nat + widths_sum(widths, i + 1)
    }
}

/// Where height and width stand.
pub open spec fn size_offset(version: u32) -> int {
    if version >= 3 {
        14
    } else {
        10
    }
}

/// Where the number of valid pixels stands.
pub open spec fn count_offset(version: u32) -> int {
    size_offset(version) + 8 + if version >= 4 {
        4int
    } else {
        0int
    }
}

/// Where the error bound stands.
pub open spec fn range_offset(version: u32) -> int {
    count_offset(version) + 16 + if version >= 6 {
        8int
    } else {
        0int
    }
}

/// The length of the fixed header.
pub open spec fn header_size(version: u32) -> int {
    range_offset(version) + 24 + if version >= 6 {
        16int
    } else {
        0int
    }
}

/// An unsigned number of four bytes.
pub open spec fn number_at(blob: Seq<u8>, pos: int) -> u32 {
    bytes::le_value(blob.subrange(pos, pos + 4)) as u32
}

/// A signed number of four bytes.
pub open spec fn integer_at(blob: Seq<u8>, pos: int) -> i32 {
    bytes::signed(bytes::le_value(blob.subrange(pos, pos + 4)), 0x1_0000_0000) as i32
}

/// A double.
pub open spec fn double_at(blob: Seq<u8>, pos: int) -> Double {
    Double { bits: bytes::le_value(blob.subrange(pos, pos + 8)) as u64 }
}

/// The fields of a fixed header; fields that a version lacks have neutral values.
#[derive(Debug, Clone, Copy)]
pub struct RawHeader {
    pub version: u32,
    pub checksum: u32,
    pub height: u32,
    pub width: u32,
    pub depth: u32,
    pub valid_pixel_count: u32,
    pub micro_block_size: i32,
    pub blob_size: i32,
    pub image_type: i32,
    pub blobs_more: i32,
    pub no_data_flag: u8,
    pub max_z_error: Double,
    pub z_min: Double,
    pub z_max: Double,
    pub encoded_no_data: Double,
    pub original_no_data: Double,
}

/// The fields as they stand in the bytes.
pub open spec fn raw_header(blob: Seq<u8>, version: u32) -> RawHeader {
    let s = size_offset(version);
    let c = count_offset(version);
    let r = range_offset(version);
    RawHeader {
        version,
        checksum: if version >= 3 {
            number_at(blob, 10)
        } else {
            0
        },
        height: number_at(blob, s),
        width: number_at(blob, s + 4),
        depth: if version >= 4 {
            number_at(blob, s + 8)
        } else {
            1
        },
        valid_pixel_count: number_at(blob, c),
        micro_block_size: integer_at(blob, c + 4),
        blob_size: integer_at(blob, c + 8),
        image_type: integer_at(blob, c + 12),
        blobs_more: if version >= 6 {
            integer_at(blob, c + 16)
        } else {
            0
        },
        no_data_flag: if version >= 6 {
            blob[c + 20]
        } else {
            0
        },
        max_z_error: double_at(blob, r),
        z_min: double_at(blob, r + 8),
        z_max: double_at(blob, r + 16),
        encoded_no_data: if version >= 6 {
            double_at(blob, r + 24)
        } else {
            Double { bits: 0 }
        },
        original_no_data: if version >= 6 {
            double_at(blob, r + 32)
        } else {
            Double { bits: 0 }
        },
    }
}

/// What the single fields have wrong, if anything.
pub open spec fn field_fault(h: RawHeader) -> Option<Fault> {
    if h.width == 0 || h.height == 0 {
        Some(Fault::InvalidHeader("width and height must be greater than zero"@))
    } else if h.micro_block_size <= 0 {
        Some(Fault::InvalidHeader("micro block size must be greater than zero"@))
    } else if h.micro_block_size > 32 {
        Some(Fault::InvalidHeader("micro block size must be in the range 1..=32"@))
    } else if h.depth == 0 {
        Some(Fault::InvalidHeader("depth must be greater than zero"@))
    } else if !h.max_z_error.finite() || h.max_z_error.below(Double { bits: 0 }) {
        Some(Fault::InvalidHeader("max_z_error must be finite and non-negative"@))
    } else if !h.z_min.finite() || !h.z_max.finite() {
        Some(Fault::InvalidHeader("z range values must be finite"@))
    } else if h.z_max.below(h.z_min) {
        Some(Fault::InvalidHeader("minimum encoded value must not exceed maximum"@))
    } else if !h.encoded_no_data.finite() || !h.original_no_data.finite() {
        Some(Fault::InvalidHeader("no-data values must be finite"@))
    } else if h.blobs_more < 0 {
        Some(Fault::InvalidHeader("negative appended blob count"@))
    } else if h.no_data_flag > 1 {
        Some(Fault::InvalidHeader("invalid no-data flag"@))
    } else if h.no_data_flag != 0 && h.depth <= 1 {
        Some(Fault::InvalidHeader("no-data values require depth greater than one"@))
    } else if h.blob_size <= 0 {
        Some(Fault::InvalidHeader("non-positive blob size"@))
    } else {
        None
    }
}

/// What the fields have wrong together with the bytes, if anything.
pub open spec fn blob_fault(h: RawHeader, blob: Seq<u8>) -> Option<Fault> {
    let pixels = h.width as nat * h.height as nat;
    if h.blob_size > blob.len() {
        Some(
            Fault::Truncated {
                offset: 0,
                needed: h.blob_size as nat,
                available: blob.len(),
            },
        )
    } else if h.version >= 3 && h.blob_size < 14 {
        Some(Fault::InvalidHeader("blob size is smaller than checksum range"@))
    } else if h.version >= 3 && checksum::fletcher_of(blob.subrange(14, h.blob_size as int))
        != h.checksum {
        Some(
            Fault::ChecksumMismatch {
                expected: h.checksum,
                actual: checksum::fletcher_of(blob.subrange(14, h.blob_size as int)) as u32,
            },
        )
    } else if pixels > usize::MAX {
        Some(Fault::SizeOverflow("Lerc2 pixel count"@))
    } else if h.valid_pixel_count > pixels {
        Some(
            Fault::InvalidBlob(
                "valid pixel count "@ + text::decimal_text(h.valid_pixel_count as nat)
                    + " exceeds pixel count "@ + text::decimal_text(pixels),
            ),
        )
    } else {
        None
    }
}

/// How the mask is stored, given the number of valid pixels and of mask bytes.
pub open spec fn inferred_mask(valid: nat, pixels: nat, mask_bytes: nat) -> std::result::Result<
    MaskEncoding,
    Fault,
> {
    if valid == pixels {
        if mask_bytes != 0 {
            Err(Fault::InvalidBlob("full-valid LERC blob unexpectedly contains mask bytes"@))
        } else {
            Ok(MaskEncoding::AllValid)
        }
    } else if valid == 0 {
        if mask_bytes != 0 {
            Err(Fault::InvalidBlob("all-invalid LERC blob unexpectedly contains mask bytes"@))
        } else {
            Ok(MaskEncoding::ImplicitAllInvalid)
        }
    } else if mask_bytes == 0 {
        Ok(MaskEncoding::External)
    } else {
        Ok(MaskEncoding::Explicit)
    }
}

/// A validated Lerc2 header.
#[derive(Debug, Clone, Copy)]
pub struct Lerc2Header {
    pub version: u32,
    pub data_type: DataType,
    pub width: u32,
    pub height: u32,
    pub depth: u32,
    pub valid_pixel_count: u32,
    pub micro_block_size: u32,
    pub blob_size: usize,
    pub remaining_band_count: u32,
    pub max_z_error: Double,
    pub z_min: Double,
    pub z_max: Double,
    pub mask_encoding: MaskEncoding,
    pub mask_num_bytes: usize,
    pub encoded_no_data: Option<Double>,
    pub original_no_data: Option<Double>,
}

impl Lerc2Header {
    /// `width * height`.
    pub open spec fn pixels(self) -> nat {
        self.width as nat * self.height as nat
    }

    /// What a validated header guarantees.
    pub open spec fn wf(self) -> bool {
        &&& 1 <= self.version <= 6
        &&& self.width > 0
        &&& self.height > 0
        &&& self.depth > 0
        &&& 1 <= self.micro_block_size <= 32
        &&& self.pixels() <= usize::MAX
        &&& self.valid_pixel_count <= self.pixels()
        &&& self.max_z_error.finite()
        &&& !self.max_z_error.below(Double { bits: 0 })
        &&& self.z_min.finite()
        &&& self.z_max.finite()
        &&& !self.z_max.below(self.z_min)
        &&& self.blob_size <= 0x7fff_ffff
        &&& inferred_mask(
            self.valid_pixel_count as nat,
            self.pixels(),
            self.mask_num_bytes as nat,
        ) == Ok::<_, Fault>(self.mask_encoding)
        &&& self.encoded_no_data is Some <==> self.original_no_data is Some
        &&& self.original_no_data is Some ==> self.depth > 1
    }

    /// The metadata without depth ranges; a no-data sentinel hides the value range.
    pub open spec fn facts(self) -> BlobFacts {
        BlobFacts {
            version: Version::Lerc2(self.version),
            data_type: self.data_type,
            width: self.width,
            height: self.height,
            depth: self.depth,
            min_values: None,
            max_values: None,
            valid_pixel_count: self.valid_pixel_count,
            micro_block_size: self.micro_block_size,
            blob_size: self.blob_size,
            remaining_band_count: self.remaining_band_count,
            max_z_error: self.max_z_error,
            z_min: if self.original_no_data is Some {
                Double { bits: MINUS_ONE_BITS }
            } else {
                self.z_min
            },
            z_max: if self.original_no_data is Some {
                Double { bits: MINUS_ONE_BITS }
            } else {
                self.z_max
            },
            mask_encoding: self.mask_encoding,
            no_data_value: self.original_no_data,
        }
    }
}

/// The header for checked fields.
pub open spec fn checked_header(
    h: RawHeader,
    data_type: DataType,
    mask_encoding: MaskEncoding,
    mask_bytes: nat,
) -> Lerc2Header {
    Lerc2Header {
        version: h.version,
        data_type,
        width: h.width,
        height: h.height,
        depth: h.depth,
        valid_pixel_count: h.valid_pixel_count,
        micro_block_size: h.micro_block_size as u32,
        blob_size: h.blob_size as usize,
        remaining_band_count: h.blobs_more as u32,
        max_z_error: h.max_z_error,
        z_min: h.z_min,
        z_max: h.z_max,
        mask_encoding,
        mask_num_bytes: mask_bytes as usize,
        encoded_no_data: if h.no_data_flag != 0 {
            Some(h.encoded_no_data)
        } else {
            None
        },
        original_no_data: if h.no_data_flag != 0 {
            Some(h.original_no_data)
        } else {
            None
        },
    }
}

/// The outcome of reading what follows checked fields: the mask length and the data type.
pub open spec fn header_tail(h: RawHeader, blob: Seq<u8>) -> std::result::Result<
    Lerc2Header,
    Fault,
> {
    let end = header_size(h.version);
    match cursor::take_number(blob, end, 4) {
        Err(e) => Err(e),
        Ok(mask_bytes) => match inferred_mask(
            h.valid_pixel_count as nat,
            h.width as nat * h.height as nat,
            mask_bytes,
        ) {
            Err(e) => Err(e),
            Ok(mask_encoding) => match types::type_of_code(h.image_type as int) {
                None => Err(types::type_code_fault(h.image_type as int)),
                Some(data_type) => if h.blob_size < end + 4 {
                    Err(
                        Fault::Truncated {
                            offset: 0,
                            needed: (end + 4) as nat,
                            available: h.blob_size as nat,
                        },
                    )
                } else {
                    Ok(checked_header(h, data_type, mask_encoding, mask_bytes))
                },
            },
        },
    }
}

/// The outcome of parsing a Lerc2 header.
pub open spec fn header_parsed(blob: Seq<u8>) -> std::result::Result<Lerc2Header, Fault> {
    match cursor::take(blob, 0, 6) {
        Err(e) => Err(e),
        Ok(magic) => if magic != magic_lerc2() {
            Err(Fault::InvalidMagic)
        } else {
            match cursor::take_number(blob, 6, 4) {
                Err(e) => Err(e),
                Ok(version) => if !(1 <= version <= 6) {
                    Err(Fault::UnsupportedVersion(version as u32))
                } else {
                    match short_field(blob.len(), 10, field_widths(version as u32), 0) {
                        Some(e) => Err(e),
                        None => {
                            let h = raw_header(blob, version as u32);
                            match field_fault(h) {
                                Some(e) => Err(e),
                                None => match blob_fault(h, blob) {
                                    Some(e) => Err(e),
                                    None => header_tail(h, blob),
                                },
                            }
                        },
                    }
                },
            }
        },
    }
}

/// A parsed header is a validated one.
pub proof fn lemma_parsed_wf(blob: Seq<u8>)
    ensures
        header_parsed(blob) matches Ok(h) ==> h.wf() && header_size(h.version) >= 0,
{
    if let Ok(h) = header_parsed(blob) {
        let end = header_size(h.version);
        bytes::lemma_le_value_4(blob.subrange(end, end + 4));
    }
}

/// Where no field is short, all of them fit.
pub proof fn lemma_short_field(len: nat, pos: nat, widths: Seq<usize>, i: nat)
    ensures
        short_field(len, pos, widths, i) is None ==> pos + widths_sum(widths, i) <= len || i
            >= widths.len(),
    decreases widths.len() - i,
{
    if i < widths.len() {
        lemma_short_field(len, pos + widths[i as int] as nat, widths, i + 1);
    }
}

/// The fields of a header take up the rest of it.
pub proof fn lemma_field_widths(version: u32)
    requires
        1 <= version <= 6,
    ensures
        10 + widths_sum(field_widths(version), 0) == header_size(version),
{
    reveal_with_fuel(widths_sum, 19);
}

/// Checks that every field fits.
pub fn check_fields(len: usize, pos: usize, widths: &Vec<usize>) -> (r: Result<()>)
    requires
        pos <= len,
    ensures
        match r {
            Ok(_) => short_field(len as nat, pos as nat, widths@, 0) is None,
            Err(e) => short_field(len as nat, pos as nat, widths@, 0) == Some(e@),
        },
{
    let mut at: usize = pos;
    let mut i: usize = 0;
    while i < widths.len()
        invariant
            i <= widths@.len(),
            at <= len,
            short_field(len as nat, pos as nat, widths@, 0) == short_field(
                len as nat,
                at as nat,
                widths@,
                i as nat,
            ),
        decreases widths@.len() - i,
    {
        if widths[i] > len - at {
            return Err(
                Error::Truncated { offset: at, needed: widths[i], available: len - at },
            );
        }
        at = at + widths[i];
        i += 1;
    }
    Ok(())
}

fn widths_of(version: u32) -> (r: Vec<usize>)
    ensures
        r@ == field_widths(version),
{
    if version >= 6 {
        vec![4, 4, 4, 4, 4, 4, 4, 4, 4, 1, 1, 1, 1, 8, 8, 8, 8, 8]
    } else if version >= 4 {
        vec![4, 4, 4, 4, 4, 4, 4, 4, 8, 8, 8]
    } else if version == 3 {
        vec![4, 4, 4, 4, 4, 4, 4, 8, 8, 8]
    } else {
        vec![4, 4, 4, 4, 4, 4, 8, 8, 8]
    }
}

/// Reads the fields behind the version number.
fn read_fields(cursor: &mut Cursor, version: u32) -> (r: Result<RawHeader>)
    requires
        old(cursor).wf(),
        old(cursor).at() == 10,
        1 <= version <= 6,
    ensures
        final(cursor).wf(),
        final(cursor).all() == old(cursor).all(),
        match r {
            Ok(h) => {
                &&& short_field(old(cursor).all().len(), 10, field_widths(version), 0) is None
                &&& h == raw_header(old(cursor).all(), version)
                &&& final(cursor).at() == header_size(version)
            },
            Err(e) => short_field(old(cursor).all().len(), 10, field_widths(version), 0) == Some(
                e@,
            ),
        },
{
    let len: usize = cursor.offset() + cursor.remaining();
    check_fields(len, 10, &widths_of(version))?;
    proof {
        lemma_short_field(len as nat, 10, field_widths(version), 0);
        lemma_field_widths(version);
    }
    let checksum: u32 = if version >= 3 { cursor.read_u32()? } else { 0 };
    let height: u32 = cursor.read_u32()?;
    let width: u32 = cursor.read_u32()?;
    let depth: u32 = if version >= 4 { cursor.read_u32()? } else { 1 };
    let valid_pixel_count: u32 = cursor.read_u32()?;
    let micro_block_size: i32 = cursor.read_i32()?;
    let blob_size: i32 = cursor.read_i32()?;
    let image_type: i32 = cursor.read_i32()?;
    let blobs_more: i32 = if version >= 6 { cursor.read_i32()? } else { 0 };
    let no_data_flag: u8 = if version >= 6 { cursor.read_u8()? } else { 0 };
    if version >= 6 {
        cursor.skip(3)?;
    }
    let max_z_error = cursor.read_f64()?;
    let z_min = cursor.read_f64()?;
    let z_max = cursor.read_f64()?;
    let encoded_no_data = if version >= 6 { cursor.read_f64()? } else { Double { bits: 0 } };
    let original_no_data = if version >= 6 { cursor.read_f64()? } else { Double { bits: 0 } };
    Ok(
        RawHeader {
            version,
            checksum,
            height,
            width,
            depth,
            valid_pixel_count,
            micro_block_size,
            blob_size,
            image_type,
            blobs_more,
            no_data_flag,
            max_z_error,
            z_min,
            z_max,
            encoded_no_data,
            original_no_data,
        },
    )
}

fn check_field_values(h: &RawHeader) -> (r: Result<()>)
    ensures
        match r {
            Ok(_) => field_fault(*h) is None,
            Err(e) => field_fault(*h) == Some(e@),
        },
{
    if h.width == 0 || h.height == 0 {
        return Err(Error::InvalidHeader("width and height must be greater than zero"));
    }
    if h.micro_block_size <= 0 {
        return Err(Error::InvalidHeader("micro block size must be greater than zero"));
    }
    if h.micro_block_size > 32 {
        return Err(Error::InvalidHeader("micro block size must be in the range 1..=32"));
    }
    if h.depth == 0 {
        return Err(Error::InvalidHeader("depth must be greater than zero"));
    }
    if !h.max_z_error.is_finite() || h.max_z_error.less_than(Double { bits: 0 }) {
        return Err(Error::InvalidHeader("max_z_error must be finite and non-negative"));
    }
    if !h.z_min.is_finite() || !h.z_max.is_finite() {
        return Err(Error::InvalidHeader("z range values must be finite"));
    }
    if h.z_max.less_than(h.z_min) {
        return Err(Error::InvalidHeader("minimum encoded value must not exceed maximum"));
    }
    if !h.encoded_no_data.is_finite() || !h.original_no_data.is_finite() {
        return Err(Error::InvalidHeader("no-data values must be finite"));
    }
    if h.blobs_more < 0 {
        return Err(Error::InvalidHeader("negative appended blob count"));
    }
    if h.no_data_flag > 1 {
        return Err(Error::InvalidHeader("invalid no-data flag"));
    }
    if h.no_data_flag != 0 && h.depth <= 1 {
        return Err(Error::InvalidHeader("no-data values require depth greater than one"));
    }
    if h.blob_size <= 0 {
        return Err(Error::InvalidHeader("non-positive blob size"));
    }
    Ok(())
}

fn check_blob(h: &RawHeader, blob: &[u8]) -> (r: Result<usize>)
    requires
        field_fault(*h) is None,
    ensures
        match r {
            Ok(pixels) => blob_fault(*h, blob@) is None && pixels == h.width as nat
                * h.height as nat,
            Err(e) => blob_fault(*h, blob@) == Some(e@),
        },
{
    let blob_size: usize = h.blob_size as usize;
    if blob_size > blob.len() {
        return Err(Error::Truncated { offset: 0, needed: blob_size, available: blob.len() });
    }
    if h.version >= 3 {
        if blob_size < 14 {
            return Err(Error::InvalidHeader("blob size is smaller than checksum range"));
        }
        let actual: u32 = fletcher32(slice_subrange(blob, 14, blob_size));
        if actual != h.checksum {
            return Err(Error::ChecksumMismatch { expected: h.checksum, actual });
        }
    }
    let pixels: usize = match (h.width as usize).checked_mul(h.height as usize) {
        Some(pixels) => pixels,
        None => {
            return Err(Error::SizeOverflow("Lerc2 pixel count"));
        },
    };
    if h.valid_pixel_count as usize > pixels {
        let mut reason: String = "valid pixel count ".to_owned();
        push_decimal(&mut reason, h.valid_pixel_count as u64);
        reason.append(" exceeds pixel count ");
        push_decimal(&mut reason, pixels as u64);
        return Err(Error::InvalidBlob(reason));
    }
    Ok(pixels)
}

/// Tells how the mask is stored.
pub fn infer_mask_encoding(
    valid_pixel_count: u32,
    pixel_count: usize,
    mask_num_bytes: usize,
) -> (r: Result<MaskEncoding>)
    ensures
        match r {
            Ok(encoding) => inferred_mask(
                valid_pixel_count as nat,
                pixel_count as nat,
                mask_num_bytes as nat,
            ) == Ok::<_, Fault>(encoding),
            Err(e) => inferred_mask(
                valid_pixel_count as nat,
                pixel_count as nat,
                mask_num_bytes as nat,
            ) == Err::<MaskEncoding, _>(e@),
        },
{
    let num_valid: usize = valid_pixel_count as usize;
    if num_valid == pixel_count {
        if mask_num_bytes != 0 {
            return Err(
                Error::invalid_blob("full-valid LERC blob unexpectedly contains mask bytes"),
            );
        }
        return Ok(MaskEncoding::AllValid);
    }
    if num_valid == 0 {
        if mask_num_bytes != 0 {
            return Err(
                Error::invalid_blob("all-invalid LERC blob unexpectedly contains mask bytes"),
            );
        }
        return Ok(MaskEncoding::ImplicitAllInvalid);
    }
    if mask_num_bytes == 0 {
        Ok(MaskEncoding::External)
    } else {
        Ok(MaskEncoding::Explicit)
    }
}

/// Parses the header of a Lerc2 blob. The cursor covers the blob alone and stands behind the
/// header.
pub fn parse<'a>(blob: &'a [u8]) -> (r: Result<(Lerc2Header, Cursor<'a>)>)
    ensures
        match r {
            Ok((header, cursor)) => {
                &&& header_parsed(blob@) == Ok::<_, Fault>(header)
                &&& header.wf()
                &&& cursor.wf()
                &&& header.blob_size <= blob@.len()
                &&& cursor.all() == blob@.subrange(0, header.blob_size as int)
                &&& cursor.at() == header_size(header.version) + 4
            },
            Err(e) => header_parsed(blob@) == Err::<Lerc2Header, _>(e@),
        },
{
    let mut cursor = Cursor::new(blob);
    let magic: &[u8] = cursor.read_bytes(6)?;
    if !is_lerc2(magic) {
        proof {
            assert(magic@.subrange(0, 6) =~= magic@);
        }
        return Err(Error::InvalidMagic);
    }
    proof {
        assert(magic@.subrange(0, 6) =~= magic@);
    }
    let version: u32 = cursor.read_u32()?;
    if version < 1 || version > 6 {
        return Err(Error::UnsupportedVersion(version));
    }
    let h: RawHeader = read_fields(&mut cursor, version)?;
    check_field_values(&h)?;
    let pixels: usize = check_blob(&h, blob)?;
    let mask_num_bytes: usize = cursor.read_u32()? as usize;
    let mask_encoding: MaskEncoding = infer_mask_encoding(
        h.valid_pixel_count,
        pixels,
        mask_num_bytes,
    )?;
    let data_type: DataType = DataType::from_code(h.image_type)?;
    let blob_size: usize = h.blob_size as usize;
    let mut limited = Cursor::new(slice_subrange(blob, 0, blob_size));
    limited.skip(cursor.offset())?;
    let header = Lerc2Header {
        version: h.version,
        data_type,
        width: h.width,
        height: h.height,
        depth: h.depth,
        valid_pixel_count: h.valid_pixel_count,
        micro_block_size: h.micro_block_size as u32,
        blob_size,
        remaining_band_count: h.blobs_more as u32,
        max_z_error: h.max_z_error,
        z_min: h.z_min,
        z_max: h.z_max,
        mask_encoding,
        mask_num_bytes,
        encoded_no_data: if h.no_data_flag != 0 { Some(h.encoded_no_data) } else { None },
        original_no_data: if h.no_data_flag != 0 { Some(h.original_no_data) } else { None },
    };
    Ok((header, limited))
}

impl Lerc2Header {
    /// The metadata without depth ranges.
    pub fn info(&self) -> (r: BlobInfo)
        ensures
            r@ == self.facts(),
    {
        let hidden = self.original_no_data.is_some();
        BlobInfo {
            version: Version::Lerc2(self.version),
            data_type: self.data_type,
            width: self.width,
            height: self.height,
            depth: self.depth,
            min_values: None,
            max_values: None,
            valid_pixel_count: self.valid_pixel_count,
            micro_block_size: self.micro_block_size,
            blob_size: self.blob_size,
            remaining_band_count: self.remaining_band_count,
            max_z_error: self.max_z_error,
            z_min: if hidden { Double { bits: MINUS_ONE_BITS } } else { self.z_min },
            z_max: if hidden { Double { bits: MINUS_ONE_BITS } } else { self.z_max },
            mask_encoding: self.mask_encoding,
            no_data_value: self.original_no_data,
        }
    }
}

} // verus!
