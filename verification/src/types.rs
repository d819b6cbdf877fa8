//! Numeric types, layouts and metadata of LERC rasters.

use crate::error::{Error, Fault, Result};
use crate::float::{Double, Single};
use crate::text;
use crate::text::push_integer;
use vstd::prelude::*;

verus! {

/// Primitive numeric representations supported by the LERC format.
#[derive(Debug, Clone, Copy, PartialEq, Eq, Hash, Structural)]
pub enum DataType {
    /// Signed 8-bit integer.
    I8,
    /// Unsigned 8-bit integer.
    U8,
    /// Signed 16-bit integer.
    I16,
    /// Unsigned 16-bit integer.
    U16,
    /// Signed 32-bit integer.
    I32,
    /// Unsigned 32-bit integer.
    U32,
    /// IEEE-754 single-precision float.
    F32,
    /// IEEE-754 double-precision float.
    F64,
}

/// The type with a given code, if there is one.
pub open spec fn type_of_code(code: int) -> Option<DataType> {
    if code == 0 {
        Some(DataType::I8)
    } else if code == 1 {
        Some(DataType::U8)
    } else if code == 2 {
        Some(DataType::I16)
    } else if code == 3 {
        Some(DataType::U16)
    } else if code == 4 {
        Some(DataType::I32)
    } else if code == 5 {
        Some(DataType::U32)
    } else if code == 6 {
        Some(DataType::F32)
    } else if code == 7 {
        Some(DataType::F64)
    } else {
        None
    }
}

/// The error for a code that stands for no type.
pub open spec fn type_code_fault(code: int) -> Fault {
    Fault::InvalidBlob("unsupported data type code "@ + text::integer_text(code))
}

impl DataType {
    /// The type's code.
    pub open spec fn number(self) -> nat {
        match self {
            DataType::I8 => 0,
            DataType::U8 => 1,
            DataType::I16 => 2,
            DataType::U16 => 3,
            DataType::I32 => 4,
            DataType::U32 => 5,
            DataType::F32 => 6,
            DataType::F64 => 7,
        }
    }

    /// Whether the type holds integers.
    pub open spec fn integer(self) -> bool {
        self.number() < 6
    }

    /// The smallest integer of an integer type.
    pub open spec fn least(self) -> int {
        match self {
            DataType::I8 => -0x80,
            DataType::I16 => -0x8000,
            DataType::I32 => -0x8000_0000,
            _ => 0,
        }
    }

    /// The largest integer of an integer type.
    pub open spec fn most(self) -> int {
        match self {
            DataType::I8 => 0x7f,
            DataType::U8 => 0xff,
            DataType::I16 => 0x7fff,
            DataType::U16 => 0xffff,
            DataType::I32 => 0x7fff_ffff,
            DataType::U32 => 0xffff_ffff,
            _ => 0,
        }
    }

    /// Bytes per sample.
    pub open spec fn width(self) -> nat {
        match self {
            DataType::I8 | DataType::U8 => 1,
            DataType::I16 | DataType::U16 => 2,
            DataType::I32 | DataType::U32 | DataType::F32 => 4,
            DataType::F64 => 8,
        }
    }

    /// The Rust-style name.
    pub open spec fn label(self) -> Seq<char> {
        match self {
            DataType::I8 => "i8"@,
            DataType::U8 => "u8"@,
            DataType::I16 => "i16"@,
            DataType::U16 => "u16"@,
            DataType::I32 => "i32"@,
            DataType::U32 => "u32"@,
            DataType::F32 => "f32"@,
            DataType::F64 => "f64"@,
        }
    }

    /// Returns whether this is an integer representation.
    pub fn is_integer(self) -> (r: bool)
        ensures
            r == self.integer(),
    {
        match self {
            DataType::F32 | DataType::F64 => false,
            _ => true,
        }
    }

    /// Converts a LERC numeric type code.
    pub fn from_code(code: i32) -> (r: Result<DataType>)
        ensures
            match r {
                Ok(data_type) => type_of_code(code as int) == Some(data_type),
                Err(e) => type_of_code(code as int) is None && e@ == type_code_fault(code as int),
            },
    {
        match code {
            0 => Ok(DataType::I8),
            1 => Ok(DataType::U8),
            2 => Ok(DataType::I16),
            3 => Ok(DataType::U16),
            4 => Ok(DataType::I32),
            5 => Ok(DataType::U32),
            6 => Ok(DataType::F32),
            7 => Ok(DataType::F64),
            _ => {
                let mut reason: String = "unsupported data type code ".to_owned();
                push_integer(&mut reason, code as i64);
                Err(Error::InvalidBlob(reason))
            },
        }
    }

    /// Returns the LERC numeric type code.
    pub fn code(self) -> (r: u8)
        ensures
            r == self.number(),
    {
        match self {
            DataType::I8 => 0,
            DataType::U8 => 1,
            DataType::I16 => 2,
            DataType::U16 => 3,
            DataType::I32 => 4,
            DataType::U32 => 5,
            DataType::F32 => 6,
            DataType::F64 => 7,
        }
    }

    /// Returns the encoded byte width of one sample.
    pub fn byte_len(self) -> (r: usize)
        ensures
            r == self.width(),
    {
        match self {
            DataType::I8 | DataType::U8 => 1,
            DataType::I16 | DataType::U16 => 2,
            DataType::I32 | DataType::U32 | DataType::F32 => 4,
            DataType::F64 => 8,
        }
    }

    /// Returns the canonical Rust-style type name.
    pub fn name(self) -> (r: &'static str)
        ensures
            r@ == self.label(),
    {
        match self {
            DataType::I8 => "i8",
            DataType::U8 => "u8",
            DataType::I16 => "i16",
            DataType::U16 => "u16",
            DataType::I32 => "i32",
            DataType::U32 => "u32",
            DataType::F32 => "f32",
            DataType::F64 => "f64",
        }
    }
}

/// Every type is the one that its code stands for, and no other code stands for it.
pub proof fn law_type_codes(data_type: DataType, code: int)
    ensures
        type_of_code(code) == Some(data_type) <==> code == data_type.number(),
{
}

/// The even codes below six are those of the signed integers, the odd ones those of the
/// unsigned; half of the code tells how often the width doubles. Above them stand the two
/// floating-point types, the narrower one first.
pub proof fn law_code_order(data_type: DataType)
    ensures
        data_type.number() < 8,
        data_type.integer() <==> data_type != DataType::F32 && data_type != DataType::F64,
        data_type.integer() ==> {
            &&& data_type.width() == vstd::arithmetic::power2::pow2(data_type.number() / 2)
            &&& data_type.number() % 2 == 0 <==> data_type.least() < 0
            &&& data_type.most() - data_type.least() + 1 == vstd::arithmetic::power2::pow2(
                8 * data_type.width(),
            )
            &&& data_type.least() != 0 ==> data_type.most() + data_type.least() == -1
        },
        !data_type.integer() ==> data_type.width() == 4 * (data_type.number() - 5),
{
    vstd::arithmetic::power2::lemma2_to64();
}

/// Memory layout for a multi-band raster.
#[derive(Debug, Clone, Copy, PartialEq, Eq, Structural)]
pub enum BandLayout {
    /// Pixels are contiguous, with band values inside each pixel.
    Interleaved,
    /// Each complete band occupies one contiguous plane (band sequential).
    Bsq,
}

/// LERC format family and encoded version number.
#[derive(Debug, Clone, Copy, PartialEq, Eq, Structural)]
pub enum Version {
    /// Legacy CntZImage/Lerc1 version.
    Lerc1(u32),
    /// Lerc2 version.
    Lerc2(u32),
}

/// How a decoded blob represents pixel validity.
#[derive(Debug, Clone, Copy, PartialEq, Eq, Structural)]
pub enum MaskEncoding {
    /// Every pixel is valid and no mask is needed.
    AllValid,
    /// This blob stores explicit mask bytes.
    Explicit,
    /// This blob inherits a mask supplied from outside or by a preceding band.
    External,
    /// Every pixel is invalid, represented without stored mask bytes.
    ImplicitAllInvalid,
}

impl MaskEncoding {
    /// The number of masks that the encoding stands for.
    pub open spec fn masks(self) -> nat {
        if self == MaskEncoding::Explicit || self == MaskEncoding::ImplicitAllInvalid {
            1
        } else {
            0
        }
    }

    /// Returns the number of stored or implicit masks represented by this encoding.
    pub fn mask_count(self) -> (r: u32)
        ensures
            r == self.masks(),
    {
        match self {
            MaskEncoding::AllValid | MaskEncoding::External => 0,
            MaskEncoding::Explicit | MaskEncoding::ImplicitAllInvalid => 1,
        }
    }

    /// Returns whether decoding produces a logical mask.
    pub fn has_mask(self) -> (r: bool)
        ensures
            r == (self != MaskEncoding::AllValid),
    {
        match self {
            MaskEncoding::AllValid => false,
            _ => true,
        }
    }

    /// Returns whether mask bytes must come from outside this blob.
    pub fn uses_external_mask(self) -> (r: bool)
        ensures
            r == (self == MaskEncoding::External),
    {
        match self {
            MaskEncoding::External => true,
            _ => false,
        }
    }

    /// Returns whether the blob stores an explicit mask payload.
    pub fn stores_mask_bytes(self) -> (r: bool)
        ensures
            r == (self == MaskEncoding::Explicit),
    {
        match self {
            MaskEncoding::Explicit => true,
            _ => false,
        }
    }
}

/// Validated metadata for one LERC blob.
#[derive(Debug, PartialEq)]
pub struct BlobInfo {
    /// Format family and version.
    pub version: Version,
    /// Numeric representation stored by the blob.
    pub data_type: DataType,
    /// Raster width in pixels.
    pub width: u32,
    /// Raster height in pixels.
    pub height: u32,
    /// Samples per pixel.
    pub depth: u32,
    /// Optional per-depth minima when the format carries them.
    pub min_values: Option<Vec<Double>>,
    /// Optional per-depth maxima when the format carries them.
    pub max_values: Option<Vec<Double>>,
    /// Number of pixels marked valid.
    pub valid_pixel_count: u32,
    /// Encoded square micro-block size, or zero for Lerc1.
    pub micro_block_size: u32,
    /// Exact encoded length of this blob in bytes.
    pub blob_size: usize,
    /// Number of further bands that the blob declares to follow it.
    pub remaining_band_count: u32,
    /// Maximum absolute reconstruction error declared by the blob.
    pub max_z_error: Double,
    /// Minimum encoded valid sample value.
    pub z_min: Double,
    /// Maximum encoded valid sample value.
    pub z_max: Double,
    /// Validity-mask representation.
    pub mask_encoding: MaskEncoding,
    /// Original no-data sentinel when Lerc2 v6 carries one.
    pub no_data_value: Option<Double>,
}

/// The contents of a [`BlobInfo`].
#[verifier::ext_equal]
pub struct BlobFacts {
    pub version: Version,
    pub data_type: DataType,
    pub width: u32,
    pub height: u32,
    pub depth: u32,
    pub min_values: Option<Seq<Double>>,
    pub max_values: Option<Seq<Double>>,
    pub valid_pixel_count: u32,
    pub micro_block_size: u32,
    pub blob_size: usize,
    pub remaining_band_count: u32,
    pub max_z_error: Double,
    pub z_min: Double,
    pub z_max: Double,
    pub mask_encoding: MaskEncoding,
    pub no_data_value: Option<Double>,
}

/// The contents of an optional vector.
pub open spec fn optional_seq<T>(values: Option<Vec<T>>) -> Option<Seq<T>> {
    match values {
        Some(v) => Some(v@),
        None => None,
    }
}

impl View for BlobInfo {
    type V = BlobFacts;

    open spec fn view(&self) -> BlobFacts {
        BlobFacts {
            version: self.version,
            data_type: self.data_type,
            width: self.width,
            height: self.height,
            depth: self.depth,
            min_values: optional_seq(self.min_values),
            max_values: optional_seq(self.max_values),
            valid_pixel_count: self.valid_pixel_count,
            micro_block_size: self.micro_block_size,
            blob_size: self.blob_size,
            remaining_band_count: self.remaining_band_count,
            max_z_error: self.max_z_error,
            z_min: self.z_min,
            z_max: self.z_max,
            mask_encoding: self.mask_encoding,
            no_data_value: self.no_data_value,
        }
    }
}

/// Copies a vector of plain values.
pub fn copy_vec<T: Copy>(values: &[T]) -> (r: Vec<T>)
    ensures
        r@ == values@,
{
    vstd::slice::slice_to_vec(values)
}

/// Copies an optional vector of plain values.
pub fn copy_optional_vec<T: Copy>(values: &Option<Vec<T>>) -> (r: Option<Vec<T>>)
    ensures
        optional_seq(r) == optional_seq(*values),
{
    match values {
        Some(v) => Some(copy_vec(v.as_slice())),
        None => None,
    }
}

impl Clone for BlobInfo {
    fn clone(&self) -> (r: BlobInfo)
        ensures
            r@ == self@,
    {
        BlobInfo {
            version: self.version,
            data_type: self.data_type,
            width: self.width,
            height: self.height,
            depth: self.depth,
            min_values: copy_optional_vec(&self.min_values),
            max_values: copy_optional_vec(&self.max_values),
            valid_pixel_count: self.valid_pixel_count,
            micro_block_size: self.micro_block_size,
            blob_size: self.blob_size,
            remaining_band_count: self.remaining_band_count,
            max_z_error: self.max_z_error,
            z_min: self.z_min,
            z_max: self.z_max,
            mask_encoding: self.mask_encoding,
            no_data_value: self.no_data_value,
        }
    }
}

impl BlobFacts {
    /// `width * height`.
    pub open spec fn pixels(self) -> nat {
        self.width as nat * self.height as nat
    }

    /// `width * height * depth`.
    pub open spec fn samples(self) -> nat {
        self.pixels() * self.depth as nat
    }

    /// `[height, width]`, followed by the depth where it exceeds one.
    pub open spec fn shape(self) -> Seq<usize> {
        if self.depth <= 1 {
            seq![self.height as usize, self.width as usize]
        } else {
            seq![self.height as usize, self.width as usize, self.depth as usize]
        }
    }
}

impl BlobInfo {
    /// Returns `width * height` using checked arithmetic.
    pub fn pixel_count(&self) -> (r: Result<usize>)
        ensures
            match r {
                Ok(count) => count == self@.pixels(),
                Err(e) => self@.pixels() > usize::MAX && e@ == Fault::SizeOverflow(
                    "blob pixel count"@,
                ),
            },
    {
        match (self.width as usize).checked_mul(self.height as usize) {
            Some(count) => Ok(count),
            None => Err(Error::SizeOverflow("blob pixel count")),
        }
    }

    /// Returns `width * height * depth` using checked arithmetic.
    pub fn sample_count(&self) -> (r: Result<usize>)
        ensures
            match r {
                Ok(count) => self@.pixels() <= usize::MAX && count == self@.samples(),
                Err(e) => if self@.pixels() > usize::MAX {
                    e@ == Fault::SizeOverflow("blob pixel count"@)
                } else {
                    self@.samples() > usize::MAX && e@ == Fault::SizeOverflow("blob sample count"@)
                },
            },
    {
        let pixels: usize = self.pixel_count()?;
        match pixels.checked_mul(self.depth as usize) {
            Some(count) => Ok(count),
            None => Err(Error::SizeOverflow("blob sample count")),
        }
    }

    /// Returns the number of logical masks represented by this blob.
    pub fn mask_count(&self) -> (r: u32)
        ensures
            r == self.mask_encoding.masks(),
    {
        self.mask_encoding.mask_count()
    }

    /// Returns whether the decoded blob has a validity mask.
    pub fn has_mask(&self) -> (r: bool)
        ensures
            r == (self.mask_encoding != MaskEncoding::AllValid),
    {
        self.mask_encoding.has_mask()
    }

    /// Returns whether the blob requires a mask supplied from outside.
    pub fn uses_external_mask(&self) -> (r: bool)
        ensures
            r == (self.mask_encoding == MaskEncoding::External),
    {
        self.mask_encoding.uses_external_mask()
    }

    /// Returns whether the blob carries an active no-data sentinel.
    pub fn uses_no_data_value(&self) -> (r: bool)
        ensures
            r == (self.no_data_value is Some),
    {
        self.no_data_value.is_some()
    }

    /// Returns the natural row-major raster shape.
    pub fn raster_shape(&self) -> (r: Vec<usize>)
        ensures
            r@ == self@.shape(),
    {
        if self.depth <= 1 {
            vec![self.height as usize, self.width as usize]
        } else {
            vec![self.height as usize, self.width as usize, self.depth as usize]
        }
    }

    /// Returns the row-major mask shape `[height, width]`.
    pub fn mask_shape(&self) -> (r: Vec<usize>)
        ensures
            r@ == seq![self.height as usize, self.width as usize],
    {
        vec![self.height as usize, self.width as usize]
    }

    /// Alias for [`Self::raster_shape`] used by ndarray integrations.
    pub fn ndarray_shape(&self) -> (r: Vec<usize>)
        ensures
            r@ == self@.shape(),
    {
        self.raster_shape()
    }

    /// Alias for [`Self::mask_shape`] used by ndarray integrations.
    pub fn mask_ndarray_shape(&self) -> (r: Vec<usize>)
        ensures
            r@ == seq![self.height as usize, self.width as usize],
    {
        self.mask_shape()
    }
}

/// Owned homogeneous pixel samples with their runtime numeric type.
#[derive(Debug, PartialEq)]
pub enum PixelData {
    /// Signed 8-bit samples.
    I8(Vec<i8>),
    /// Unsigned 8-bit samples.
    U8(Vec<u8>),
    /// Signed 16-bit samples.
    I16(Vec<i16>),
    /// Unsigned 16-bit samples.
    U16(Vec<u16>),
    /// Signed 32-bit samples.
    I32(Vec<i32>),
    /// Unsigned 32-bit samples.
    U32(Vec<u32>),
    /// Single-precision samples.
    F32(Vec<Single>),
    /// Double-precision samples.
    F64(Vec<Double>),
}

/// The contents of a [`PixelData`].
#[verifier::ext_equal]
pub enum PixelSeq {
    I8(Seq<i8>),
    U8(Seq<u8>),
    I16(Seq<i16>),
    U16(Seq<u16>),
    I32(Seq<i32>),
    U32(Seq<u32>),
    F32(Seq<Single>),
    F64(Seq<Double>),
}

impl View for PixelData {
    type V = PixelSeq;

    open spec fn view(&self) -> PixelSeq {
        match *self {
            PixelData::I8(values) => PixelSeq::I8(values@),
            PixelData::U8(values) => PixelSeq::U8(values@),
            PixelData::I16(values) => PixelSeq::I16(values@),
            PixelData::U16(values) => PixelSeq::U16(values@),
            PixelData::I32(values) => PixelSeq::I32(values@),
            PixelData::U32(values) => PixelSeq::U32(values@),
            PixelData::F32(values) => PixelSeq::F32(values@),
            PixelData::F64(values) => PixelSeq::F64(values@),
        }
    }
}

impl PixelSeq {
    /// The numeric type of the samples.
    pub open spec fn kind(self) -> DataType {
        match self {
            PixelSeq::I8(_) => DataType::I8,
            PixelSeq::U8(_) => DataType::U8,
            PixelSeq::I16(_) => DataType::I16,
            PixelSeq::U16(_) => DataType::U16,
            PixelSeq::I32(_) => DataType::I32,
            PixelSeq::U32(_) => DataType::U32,
            PixelSeq::F32(_) => DataType::F32,
            PixelSeq::F64(_) => DataType::F64,
        }
    }

    /// The number of samples.
    pub open spec fn count(self) -> nat {
        match self {
            PixelSeq::I8(values) => values.len(),
            PixelSeq::U8(values) => values.len(),
            PixelSeq::I16(values) => values.len(),
            PixelSeq::U16(values) => values.len(),
            PixelSeq::I32(values) => values.len(),
            PixelSeq::U32(values) => values.len(),
            PixelSeq::F32(values) => values.len(),
            PixelSeq::F64(values) => values.len(),
        }
    }
}

impl PixelData {
    /// Returns the numeric type of this buffer.
    pub fn data_type(&self) -> (r: DataType)
        ensures
            r == self@.kind(),
    {
        match self {
            PixelData::I8(_) => DataType::I8,
            PixelData::U8(_) => DataType::U8,
            PixelData::I16(_) => DataType::I16,
            PixelData::U16(_) => DataType::U16,
            PixelData::I32(_) => DataType::I32,
            PixelData::U32(_) => DataType::U32,
            PixelData::F32(_) => DataType::F32,
            PixelData::F64(_) => DataType::F64,
        }
    }

    /// Returns the number of samples.
    pub fn len(&self) -> (r: usize)
        ensures
            r == self@.count(),
    {
        match self {
            PixelData::I8(values) => values.len(),
            PixelData::U8(values) => values.len(),
            PixelData::I16(values) => values.len(),
            PixelData::U16(values) => values.len(),
            PixelData::I32(values) => values.len(),
            PixelData::U32(values) => values.len(),
            PixelData::F32(values) => values.len(),
            PixelData::F64(values) => values.len(),
        }
    }

    /// Returns whether the buffer contains no samples.
    pub fn is_empty(&self) -> (r: bool)
        ensures
            r == (self@.count() == 0),
    {
        self.len() == 0
    }
}

impl Clone for PixelData {
    fn clone(&self) -> (r: PixelData)
        ensures
            r@ == self@,
    {
        match self {
            PixelData::I8(values) => PixelData::I8(copy_vec(values.as_slice())),
            PixelData::U8(values) => PixelData::U8(copy_vec(values.as_slice())),
            PixelData::I16(values) => PixelData::I16(copy_vec(values.as_slice())),
            PixelData::U16(values) => PixelData::U16(copy_vec(values.as_slice())),
            PixelData::I32(values) => PixelData::I32(copy_vec(values.as_slice())),
            PixelData::U32(values) => PixelData::U32(copy_vec(values.as_slice())),
            PixelData::F32(values) => PixelData::F32(copy_vec(values.as_slice())),
            PixelData::F64(values) => PixelData::F64(copy_vec(values.as_slice())),
        }
    }
}

/// Validated metadata for a concatenated set of same-shaped LERC bands.
#[derive(Debug, PartialEq)]
pub struct BandSetInfo {
    /// Per-band blob metadata in encoded order.
    pub bands: Vec<BlobInfo>,
}

impl View for BandSetInfo {
    type V = Seq<BlobFacts>;

    open spec fn view(&self) -> Seq<BlobFacts> {
        self.bands@.map_values(|band: BlobInfo| band@)
    }
}

/// Whether two blobs have rasters of one shape.
pub open spec fn same_shape(a: BlobFacts, b: BlobFacts) -> bool {
    a.width == b.width && a.height == b.height && a.depth == b.depth
}

/// Whether every band has the shape of the first.
pub open spec fn uniform(bands: Seq<BlobFacts>) -> bool {
    forall|i: int| 0 <= i < bands.len() ==> same_shape(#[trigger] bands[i], bands[0])
}

/// Whether some band after the first has a mask of its own.
pub open spec fn distinct_masks(bands: Seq<BlobFacts>) -> bool {
    exists|i: int|
        1 <= i < bands.len() && ((#[trigger] bands[i]).mask_encoding == MaskEncoding::Explicit
            || bands[i].valid_pixel_count != bands[0].valid_pixel_count)
}

/// One mask does not do where a band after the first stores its own, or has another number of
/// valid pixels than the first; else it does.
pub proof fn law_masks_told_apart(bands: Seq<BlobFacts>)
    ensures
        forall|i: int|
            1 <= i < bands.len() && !distinct_masks(bands) ==> (#[trigger] bands[i]).mask_encoding
                != MaskEncoding::Explicit && bands[i].valid_pixel_count
                == bands[0].valid_pixel_count,
        bands.len() <= 1 ==> !distinct_masks(bands),
        bands.len() > 1 && (forall|i: int|
            1 <= i < bands.len() ==> (#[trigger] bands[i]).mask_encoding != MaskEncoding::Explicit)
            && (forall|i: int|
            0 <= i < bands.len() ==> (#[trigger] bands[i]).valid_pixel_count
                == bands[0].valid_pixel_count) ==> !distinct_masks(bands),
{
}

/// The raster shape of a band set.
pub open spec fn band_set_shape(bands: Seq<BlobFacts>, layout: BandLayout) -> Seq<usize> {
    let height = bands[0].height as usize;
    let width = bands[0].width as usize;
    let depth = bands[0].depth as usize;
    let count = bands.len() as usize;
    if count == 1 && depth <= 1 {
        seq![height, width]
    } else if count == 1 {
        seq![height, width, depth]
    } else if layout == BandLayout::Interleaved {
        if depth <= 1 {
            seq![height, width, count]
        } else {
            seq![height, width, count, depth]
        }
    } else if depth <= 1 {
        seq![count, height, width]
    } else {
        seq![count, height, width, depth]
    }
}

/// The mask shape of a band set.
pub open spec fn band_set_mask_shape(bands: Seq<BlobFacts>) -> Seq<usize> {
    if bands.len() == 1 {
        seq![bands[0].height as usize, bands[0].width as usize]
    } else {
        seq![bands[0].height as usize, bands[0].width as usize, bands.len() as usize]
    }
}

/// The samples of all bands, a depth of zero counting as one.
pub open spec fn band_set_values(bands: Seq<BlobFacts>) -> nat {
    let depth: nat = if bands[0].depth == 0 {
        1
    } else {
        bands[0].depth as nat
    };
    bands[0].pixels() * bands.len() * depth
}

impl BandSetInfo {
    /// At least one band, all of one shape.
    pub open spec fn wf(&self) -> bool {
        self.bands@.len() > 0 && uniform(self@)
    }

    /// Validates and constructs band-set metadata.
    ///
    /// # Errors
    /// Returns an error for an empty set or mismatched band dimensions/depths.
    pub fn new(bands: Vec<BlobInfo>) -> (r: Result<BandSetInfo>)
        ensures
            match r {
                Ok(info) => info.bands == bands && info.wf(),
                Err(e) => if bands@.len() == 0 {
                    e@ == Fault::InvalidBlob("LERC band set is empty"@)
                } else {
                    !uniform(bands@.map_values(|band: BlobInfo| band@)) && e@
                        == Fault::InvalidBlob(
                        "LERC band set contains mismatched raster dimensions"@,
                    )
                },
            },
    {
        let ghost facts = bands@.map_values(|band: BlobInfo| band@);
        if bands.len() == 0 {
            return Err(Error::invalid_blob("LERC band set is empty"));
        }
        let mut i: usize = 1;
        while i < bands.len()
            invariant
                1 <= i <= bands@.len(),
                facts == bands@.map_values(|band: BlobInfo| band@),
                forall|j: int| 0 <= j < i ==> same_shape(#[trigger] facts[j], facts[0]),
            decreases bands@.len() - i,
        {
            if bands[i].width != bands[0].width || bands[i].height != bands[0].height
                || bands[i].depth != bands[0].depth {
                proof {
                    assert(!same_shape(facts[i as int], facts[0]));
                }
                return Err(
                    Error::invalid_blob("LERC band set contains mismatched raster dimensions"),
                );
            }
            i += 1;
        }
        Ok(BandSetInfo { bands })
    }

    /// Returns the number of bands.
    pub fn band_count(&self) -> (r: usize)
        ensures
            r == self.bands@.len(),
    {
        self.bands.len()
    }

    /// Returns the shared raster width.
    pub fn width(&self) -> (r: u32)
        requires
            self.wf(),
        ensures
            r == self@[0].width,
    {
        self.bands[0].width
    }

    /// Returns the shared raster height.
    pub fn height(&self) -> (r: u32)
        requires
            self.wf(),
        ensures
            r == self@[0].height,
    {
        self.bands[0].height
    }

    /// Returns the shared samples-per-pixel depth.
    pub fn depth(&self) -> (r: u32)
        requires
            self.wf(),
        ensures
            r == self@[0].depth,
    {
        self.bands[0].depth
    }

    /// Returns the number of masks required to represent the band set.
    pub fn mask_count(&self) -> (r: usize)
        requires
            self.wf(),
        ensures
            r == (if distinct_masks(self@) {
                self.bands@.len()
            } else {
                self@[0].mask_encoding.masks()
            }),
    {
        let mut i: usize = 1;
        while i < self.bands.len()
            invariant
                1 <= i <= self.bands@.len(),
                forall|j: int|
                    1 <= j < i ==> (#[trigger] self@[j]).mask_encoding != MaskEncoding::Explicit
                        && self@[j].valid_pixel_count == self@[0].valid_pixel_count,
            decreases self.bands@.len() - i,
        {
            if self.bands[i].mask_encoding.stores_mask_bytes() || self.bands[i].valid_pixel_count
                != self.bands[0].valid_pixel_count {
                proof {
                    assert(self@[i as int] == self.bands@[i as int]@);
                    assert(distinct_masks(self@));
                }
                return self.bands.len();
            }
            i += 1;
        }
        self.bands[0].mask_count() as usize
    }

    /// Returns whether any band uses a no-data sentinel.
    pub fn uses_no_data_value(&self) -> (r: bool)
        ensures
            r == exists|i: int|
                0 <= i < self.bands@.len() && (#[trigger] self@[i]).no_data_value is Some,
    {
        let mut i: usize = 0;
        while i < self.bands.len()
            invariant
                i <= self.bands@.len(),
                forall|j: int| 0 <= j < i ==> (#[trigger] self@[j]).no_data_value is None,
            decreases self.bands@.len() - i,
        {
            if self.bands[i].uses_no_data_value() {
                proof {
                    assert(self@[i as int].no_data_value is Some);
                }
                return true;
            }
            i += 1;
        }
        false
    }

    /// Returns the natural interleaved raster shape.
    pub fn raster_shape(&self) -> (r: Vec<usize>)
        requires
            self.wf(),
        ensures
            r@ == band_set_shape(self@, BandLayout::Interleaved),
    {
        self.raster_shape_for_layout(BandLayout::Interleaved)
    }

    /// Returns the raster shape for the requested band layout.
    pub fn raster_shape_for_layout(&self, layout: BandLayout) -> (r: Vec<usize>)
        requires
            self.wf(),
        ensures
            r@ == band_set_shape(self@, layout),
    {
        let height: usize = self.height() as usize;
        let width: usize = self.width() as usize;
        let depth: usize = self.depth() as usize;
        let count: usize = self.band_count();
        if count == 1 {
            if depth <= 1 {
                return vec![height, width];
            }
            return vec![height, width, depth];
        }
        match layout {
            BandLayout::Interleaved => if depth <= 1 {
                vec![height, width, count]
            } else {
                vec![height, width, count, depth]
            },
            BandLayout::Bsq => if depth <= 1 {
                vec![count, height, width]
            } else {
                vec![count, height, width, depth]
            },
        }
    }

    /// Returns `[height, width]` for one band, `[height, width, bands]` for several.
    pub fn band_mask_shape(&self) -> (r: Vec<usize>)
        requires
            self.wf(),
        ensures
            r@ == band_set_mask_shape(self@),
    {
        let height: usize = self.height() as usize;
        let width: usize = self.width() as usize;
        let count: usize = self.band_count();
        if count == 1 {
            vec![height, width]
        } else {
            vec![height, width, count]
        }
    }

    /// Returns the checked sample count across all bands.
    pub fn value_count(&self) -> (r: Result<usize>)
        requires
            self.wf(),
        ensures
            match r {
                Ok(count) => count == band_set_values(self@),
                Err(e) => if self@[0].pixels() > usize::MAX {
                    e@ == Fault::SizeOverflow("blob pixel count"@)
                } else {
                    band_set_values(self@) > usize::MAX && e@ == Fault::SizeOverflow(
                        "band set value count"@,
                    )
                },
            },
    {
        let pixels: usize = self.bands[0].pixel_count()?;
        let depth: usize = if self.depth() == 0 { 1 } else { self.depth() as usize };
        let ghost all = self@[0].pixels() * self@.len();
        assert(all * depth >= all) by (nonlinear_arith)
            requires
                depth >= 1,
                all >= 0,
        ;
        match pixels.checked_mul(self.band_count()) {
            Some(count) => match count.checked_mul(depth) {
                Some(total) => Ok(total),
                None => Err(Error::SizeOverflow("band set value count")),
            },
            None => Err(Error::SizeOverflow("band set value count")),
        }
    }

    /// Alias for [`Self::raster_shape`] used by ndarray integrations.
    pub fn ndarray_shape(&self) -> (r: Vec<usize>)
        requires
            self.wf(),
        ensures
            r@ == band_set_shape(self@, BandLayout::Interleaved),
    {
        self.raster_shape()
    }

    /// Alias for [`Self::raster_shape_for_layout`] used by ndarray integrations.
    pub fn ndarray_shape_for_layout(&self, layout: BandLayout) -> (r: Vec<usize>)
        requires
            self.wf(),
        ensures
            r@ == band_set_shape(self@, layout),
    {
        self.raster_shape_for_layout(layout)
    }

    /// Alias for [`Self::band_mask_shape`] used by ndarray integrations.
    pub fn band_mask_ndarray_shape(&self) -> (r: Vec<usize>)
        requires
            self.wf(),
        ensures
            r@ == band_set_mask_shape(self@),
    {
        self.band_mask_shape()
    }
}

} // verus!
