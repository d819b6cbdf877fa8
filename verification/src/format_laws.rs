//! What is read of Lerc2 blobs, by how their bytes are laid out.

use crate::blob_laws;
use crate::bytes;
use crate::checksum;
use crate::cursor;
use crate::error::Fault;
use crate::float;
use crate::float::Double;
use crate::lerc2;
use crate::lerc2_body;
use crate::lerc2_header;
use crate::lerc2_header::Lerc2Header;
use crate::sample::Sample;
use crate::stuffed;
use crate::table_laws;
use crate::tile_laws;
use crate::tile_plan;
use crate::types;
use crate::types::{DataType, MaskEncoding, Version};
use crate::values;
use vstd::arithmetic::power2::*;
use vstd::prelude::*;

verus! {

/// The number that a type has in a header.
pub open spec fn type_code(data_type: DataType) -> nat {
    match data_type {
        DataType::I8 => 0,
        DataType::U8 => 1,
        DataType::I16 => 2,
        DataType::U16 => 3,
        DataType::I32 => 4,
        DataType::U32 => 5,
        DataType::F32 => 6,
        DataType::F64 => 7,
    }
}

/// `Lerc2 ` and the version.
pub open spec fn signature(h: Lerc2Header) -> Seq<u8> {
    seq![76u8, 101u8, 114u8, 99u8, 50u8, 32u8] + bytes::le_bytes(h.version as nat, 4)
}

/// The checksum, from version 3 on.
pub open spec fn sum_field(h: Lerc2Header, sum: u32) -> Seq<u8> {
    if h.version >= 3 {
        bytes::le_bytes(sum as nat, 4)
    } else {
        seq![]
    }
}

/// The height, the width, and from version 4 on the depth.
pub open spec fn size_fields(h: Lerc2Header) -> Seq<u8> {
    bytes::le_bytes(h.height as nat, 4) + bytes::le_bytes(h.width as nat, 4) + if h.version >= 4 {
        bytes::le_bytes(h.depth as nat, 4)
    } else {
        seq![]
    }
}

/// The number of valid pixels, the block size, the length of the blob and the type.
pub open spec fn count_fields(h: Lerc2Header) -> Seq<u8> {
    bytes::le_bytes(h.valid_pixel_count as nat, 4) + bytes::le_bytes(h.micro_block_size as nat, 4)
        + bytes::le_bytes(h.blob_size as nat, 4) + bytes::le_bytes(type_code(h.data_type), 4)
}

/// The number of blobs behind this one and the flag of a sentinel, from version 6 on.
pub open spec fn band_fields(h: Lerc2Header) -> Seq<u8> {
    if h.version >= 6 {
        bytes::le_bytes(h.remaining_band_count as nat, 4) + seq![
            if h.original_no_data is Some {
                1u8
            } else {
                0u8
            },
            0u8,
            0u8,
            0u8,
        ]
    } else {
        seq![]
    }
}

/// The error bound, the least value and the greatest.
pub open spec fn range_fields(h: Lerc2Header) -> Seq<u8> {
    bytes::le_bytes(h.max_z_error.bits as nat, 8) + bytes::le_bytes(h.z_min.bits as nat, 8)
        + bytes::le_bytes(h.z_max.bits as nat, 8)
}

/// What stands for a sentinel among the samples and the sentinel, from version 6 on.
pub open spec fn sentinel_fields(h: Lerc2Header) -> Seq<u8> {
    let stored = match h.encoded_no_data {
        Some(value) => value,
        None => Double { bits: 0 },
    };
    let original = match h.original_no_data {
        Some(value) => value,
        None => Double { bits: 0 },
    };
    if h.version >= 6 {
        bytes::le_bytes(stored.bits as nat, 8) + bytes::le_bytes(original.bits as nat, 8)
    } else {
        seq![]
    }
}

/// A header in any version, with the length of the mask behind it.
pub open spec fn header_bytes(h: Lerc2Header, sum: u32) -> Seq<u8> {
    signature(h) + sum_field(h, sum) + size_fields(h) + count_fields(h) + band_fields(h)
        + range_fields(h) + sentinel_fields(h) + bytes::le_bytes(h.mask_num_bytes as nat, 4)
}

/// Whether a header can be written in its version.
pub open spec fn header_ok(h: Lerc2Header) -> bool {
    &&& h.wf()
    &&& h.version < 4 ==> h.depth == 1
    &&& h.version < 6 ==> h.remaining_band_count == 0 && h.original_no_data is None
    &&& h.remaining_band_count < 0x8000_0000
    &&& h.mask_num_bytes <= u32::MAX
    &&& h.encoded_no_data matches Some(value) ==> value.finite()
    &&& h.original_no_data matches Some(value) ==> value.finite()
}

proof fn lemma_field_lens(h: Lerc2Header, sum: u32)
    ensures
        signature(h).len() == 10,
        sum_field(h, sum).len() == if h.version >= 3 {
            4nat
        } else {
            0nat
        },
        size_fields(h).len() == if h.version >= 4 {
            12nat
        } else {
            8nat
        },
        count_fields(h).len() == 16,
        band_fields(h).len() == if h.version >= 6 {
            8nat
        } else {
            0nat
        },
        range_fields(h).len() == 24,
        sentinel_fields(h).len() == if h.version >= 6 {
            16nat
        } else {
            0nat
        },
{
    assert forall|v: nat, n: nat| (#[trigger] bytes::le_bytes(v, n)).len() == n by {
        bytes::lemma_le_bytes_len(v, n);
    }
}

/// The length of a header.
pub proof fn lemma_header_len(h: Lerc2Header, sum: u32)
    ensures
        header_bytes(h, sum).len() == lerc2_header::header_size(h.version) + 4,
{
    lemma_field_lens(h, sum);
    bytes::lemma_le_bytes_len(h.mask_num_bytes as nat, 4);
}

/// The parts of a header stand one behind the other.
proof fn lemma_fields_stand(blob: Seq<u8>, h: Lerc2Header, sum: u32)
    requires
        bytes::stands_at(blob, 0, header_bytes(h, sum)),
        header_ok(h),
    ensures
        bytes::stands_at(blob, 0, signature(h)),
        bytes::stands_at(blob, 10, sum_field(h, sum)),
        bytes::stands_at(blob, lerc2_header::size_offset(h.version), size_fields(h)),
        bytes::stands_at(blob, lerc2_header::count_offset(h.version), count_fields(h)),
        bytes::stands_at(blob, lerc2_header::count_offset(h.version) + 16, band_fields(h)),
        bytes::stands_at(blob, lerc2_header::range_offset(h.version), range_fields(h)),
        bytes::stands_at(blob, lerc2_header::range_offset(h.version) + 24, sentinel_fields(h)),
        bytes::stands_at(
            blob,
            lerc2_header::header_size(h.version),
            bytes::le_bytes(h.mask_num_bytes as nat, 4),
        ),
{
    lemma_field_lens(h, sum);
    let a = signature(h);
    let b = sum_field(h, sum);
    let c = size_fields(h);
    let d = count_fields(h);
    let e = band_fields(h);
    let f = range_fields(h);
    let g = sentinel_fields(h);
    let m = bytes::le_bytes(h.mask_num_bytes as nat, 4);
    bytes::lemma_stands_split(blob, 0, a + b + c + d + e + f + g, m);
    bytes::lemma_stands_split(blob, 0, a + b + c + d + e + f, g);
    bytes::lemma_stands_split(blob, 0, a + b + c + d + e, f);
    bytes::lemma_stands_split(blob, 0, a + b + c + d, e);
    bytes::lemma_stands_split(blob, 0, a + b + c, d);
    bytes::lemma_stands_split(blob, 0, a + b, c);
    bytes::lemma_stands_split(blob, 0, a, b);
}

/// The numbers of the parts.
proof fn lemma_size_back(blob: Seq<u8>, h: Lerc2Header, sum: u32)
    requires
        bytes::stands_at(blob, 0, header_bytes(h, sum)),
        header_ok(h),
        blob.len() <= usize::MAX,
    ensures
        ({
            let raw = lerc2_header::raw_header(blob, h.version);
            &&& cursor::take(blob, 0, 6) == Ok::<Seq<u8>, Fault>(lerc2_header::magic_lerc2())
            &&& cursor::take_number(blob, 6, 4) == Ok::<nat, Fault>(h.version as nat)
            &&& h.version >= 3 ==> raw.checksum == sum
            &&& raw.height == h.height
            &&& raw.width == h.width
            &&& raw.depth == h.depth
        }),
{
    lemma_fields_stand(blob, h, sum);
    bytes::lemma_le_bytes_len(h.version as nat, 4);
    bytes::lemma_le_bytes_len(h.height as nat, 4);
    bytes::lemma_le_bytes_len(h.width as nat, 4);
    let m = seq![76u8, 101u8, 114u8, 99u8, 50u8, 32u8];
    bytes::lemma_stands_split(blob, 0, m, bytes::le_bytes(h.version as nat, 4));
    assert(m =~= lerc2_header::magic_lerc2());
    blob_laws::lemma_number_back(blob, 6, h.version as nat);
    if h.version >= 3 {
        blob_laws::lemma_number_back(blob, 10, sum as nat);
    }
    let s = lerc2_header::size_offset(h.version);
    let last = if h.version >= 4 {
        bytes::le_bytes(h.depth as nat, 4)
    } else {
        seq![]
    };
    let first = bytes::le_bytes(h.height as nat, 4);
    let second = bytes::le_bytes(h.width as nat, 4);
    bytes::lemma_stands_split(blob, s, first + second, last);
    bytes::lemma_stands_split(blob, s, first, second);
    blob_laws::lemma_number_back(blob, s, h.height as nat);
    blob_laws::lemma_number_back(blob, s + 4, h.width as nat);
    if h.version >= 4 {
        blob_laws::lemma_number_back(blob, s + 8, h.depth as nat);
    }
}

proof fn lemma_count_back(blob: Seq<u8>, h: Lerc2Header, sum: u32)
    requires
        bytes::stands_at(blob, 0, header_bytes(h, sum)),
        header_ok(h),
        blob.len() <= usize::MAX,
    ensures
        ({
            let raw = lerc2_header::raw_header(blob, h.version);
            &&& raw.valid_pixel_count == h.valid_pixel_count
            &&& raw.micro_block_size == h.micro_block_size
            &&& raw.blob_size == h.blob_size
            &&& raw.image_type == type_code(h.data_type)
            &&& raw.blobs_more == h.remaining_band_count
            &&& raw.no_data_flag == if h.original_no_data is Some {
                1u8
            } else {
                0u8
            }
        }),
{
    lemma_fields_stand(blob, h, sum);
    let c = lerc2_header::count_offset(h.version);
    let w = bytes::le_bytes(h.valid_pixel_count as nat, 4);
    let x = bytes::le_bytes(h.micro_block_size as nat, 4);
    let y = bytes::le_bytes(h.blob_size as nat, 4);
    let z = bytes::le_bytes(type_code(h.data_type), 4);
    bytes::lemma_le_bytes_len(h.valid_pixel_count as nat, 4);
    bytes::lemma_le_bytes_len(h.micro_block_size as nat, 4);
    bytes::lemma_le_bytes_len(h.blob_size as nat, 4);
    bytes::lemma_stands_split(blob, c, w + x + y, z);
    bytes::lemma_stands_split(blob, c, w + x, y);
    bytes::lemma_stands_split(blob, c, w, x);
    blob_laws::lemma_number_back(blob, c, h.valid_pixel_count as nat);
    blob_laws::lemma_number_back(blob, c + 4, h.micro_block_size as nat);
    blob_laws::lemma_number_back(blob, c + 8, h.blob_size as nat);
    blob_laws::lemma_number_back(blob, c + 12, type_code(h.data_type));
    if h.version >= 6 {
        let flags = seq![
            if h.original_no_data is Some {
                1u8
            } else {
                0u8
            },
            0u8,
            0u8,
            0u8,
        ];
        let more = bytes::le_bytes(h.remaining_band_count as nat, 4);
        bytes::lemma_le_bytes_len(h.remaining_band_count as nat, 4);
        bytes::lemma_stands_split(blob, c + 16, more, flags);
        blob_laws::lemma_number_back(blob, c + 16, h.remaining_band_count as nat);
        assert(blob.subrange(c + 20, c + 24)[0] == blob[c + 20]);
        assert(flags[0] == blob[c + 20]);
    }
}

proof fn lemma_range_back(blob: Seq<u8>, h: Lerc2Header, sum: u32)
    requires
        bytes::stands_at(blob, 0, header_bytes(h, sum)),
        header_ok(h),
        blob.len() <= usize::MAX,
    ensures
        ({
            let raw = lerc2_header::raw_header(blob, h.version);
            &&& raw.max_z_error == h.max_z_error
            &&& raw.z_min == h.z_min
            &&& raw.z_max == h.z_max
            &&& raw.encoded_no_data.finite()
            &&& raw.original_no_data.finite()
            &&& h.encoded_no_data matches Some(value) ==> raw.encoded_no_data == value
            &&& h.original_no_data matches Some(value) ==> raw.original_no_data == value
            &&& cursor::take_number(blob, lerc2_header::header_size(h.version), 4) == Ok::<
                nat,
                Fault,
            >(h.mask_num_bytes as nat)
        }),
{
    lemma_fields_stand(blob, h, sum);
    let r = lerc2_header::range_offset(h.version);
    let x = bytes::le_bytes(h.max_z_error.bits as nat, 8);
    let y = bytes::le_bytes(h.z_min.bits as nat, 8);
    let z = bytes::le_bytes(h.z_max.bits as nat, 8);
    bytes::lemma_le_bytes_len(h.max_z_error.bits as nat, 8);
    bytes::lemma_le_bytes_len(h.z_min.bits as nat, 8);
    bytes::lemma_stands_split(blob, r, x + y, z);
    bytes::lemma_stands_split(blob, r, x, y);
    blob_laws::lemma_double_back(blob, r, h.max_z_error.bits);
    blob_laws::lemma_double_back(blob, r + 8, h.z_min.bits);
    blob_laws::lemma_double_back(blob, r + 16, h.z_max.bits);
    blob_laws::lemma_number_back(
        blob,
        lerc2_header::header_size(h.version),
        h.mask_num_bytes as nat,
    );
    if h.version >= 6 {
        let stored = match h.encoded_no_data {
            Some(value) => value,
            None => Double { bits: 0 },
        };
        let original = match h.original_no_data {
            Some(value) => value,
            None => Double { bits: 0 },
        };
        let p = bytes::le_bytes(stored.bits as nat, 8);
        let q = bytes::le_bytes(original.bits as nat, 8);
        bytes::lemma_le_bytes_len(stored.bits as nat, 8);
        bytes::lemma_stands_split(blob, r + 24, p, q);
        blob_laws::lemma_double_back(blob, r + 24, stored.bits);
        blob_laws::lemma_double_back(blob, r + 32, original.bits);
    }
}

/// Parsing the header of a blob gives the fields that it was written with, in every version;
/// from version 3 on the checksum has to be that of the bytes behind it.
pub proof fn law_header_fields(blob: Seq<u8>, h: Lerc2Header, sum: u32)
    requires
        bytes::stands_at(blob, 0, header_bytes(h, sum)),
        header_ok(h),
        header_bytes(h, sum).len() <= h.blob_size <= blob.len(),
        blob.len() <= usize::MAX,
        h.version >= 3 ==> sum == checksum::fletcher_of(blob.subrange(14, h.blob_size as int)),
    ensures
        lerc2_header::header_parsed(blob) == Ok::<Lerc2Header, Fault>(h),
{
    lemma_field_lens(h, sum);
    lemma_size_back(blob, h, sum);
    lemma_count_back(blob, h, sum);
    lemma_range_back(blob, h, sum);
    bytes::lemma_le_bytes_len(h.mask_num_bytes as nat, 4);
    lerc2_header::lemma_field_widths(h.version);
    blob_laws::lemma_fields_fit(blob.len(), 10, lerc2_header::field_widths(h.version), 0);
    let raw = lerc2_header::raw_header(blob, h.version);
    assert(lerc2_header::field_fault(raw) is None);
    assert(lerc2_header::blob_fault(raw, blob) is None);
    let read = lerc2_header::checked_header(
        raw,
        h.data_type,
        h.mask_encoding,
        h.mask_num_bytes as nat,
    );
    assert(read.encoded_no_data == h.encoded_no_data);
    assert(read.original_no_data == h.original_no_data);
    assert(read == h);
}

/// What inspection reports of a blob are the fields of its header. A no-data sentinel hides the
/// value range. How the mask is stored follows from the counts.
pub proof fn law_header_reported(
    blob: Seq<u8>,
    h: Lerc2Header,
    sum: u32,
    inherited: Option<Seq<u8>>,
)
    requires
        bytes::stands_at(blob, 0, header_bytes(h, sum)),
        header_ok(h),
        header_bytes(h, sum).len() <= h.blob_size <= blob.len(),
        blob.len() <= usize::MAX,
        h.version >= 3 ==> sum == checksum::fletcher_of(blob.subrange(14, h.blob_size as int)),
    ensures
        h.version < 4 && h.valid_pixel_count == h.width * h.height && h.mask_num_bytes == 0
            ==> lerc2::inspected(blob, inherited) is Ok,
        lerc2::inspected(blob, inherited) matches Ok(facts) ==> {
            &&& facts.version == Version::Lerc2(h.version)
            &&& facts.data_type == h.data_type
            &&& facts.width == h.width
            &&& facts.height == h.height
            &&& facts.depth == h.depth
            &&& facts.valid_pixel_count == h.valid_pixel_count
            &&& facts.micro_block_size == h.micro_block_size
            &&& facts.blob_size == h.blob_size
            &&& facts.remaining_band_count == h.remaining_band_count
            &&& facts.max_z_error == h.max_z_error
            &&& facts.no_data_value == h.original_no_data
            &&& h.original_no_data is None ==> facts.z_min == h.z_min && facts.z_max == h.z_max
            &&& h.original_no_data is Some ==> facts.z_min.units() == -pow2(1074)
                && facts.z_max.units() == -pow2(1074) && facts.min_values is None
                && facts.max_values is None
            &&& facts.mask_encoding == MaskEncoding::Explicit <==> h.mask_num_bytes > 0
            &&& h.mask_num_bytes == 0 ==> {
                &&& h.valid_pixel_count == h.width * h.height ==> facts.mask_encoding
                    == MaskEncoding::AllValid
                &&& h.valid_pixel_count == 0 && h.width * h.height > 0 ==> facts.mask_encoding
                    == MaskEncoding::ImplicitAllInvalid
                &&& 0 < h.valid_pixel_count < h.width * h.height ==> facts.mask_encoding
                    == MaskEncoding::External
            }
        },
{
    law_header_fields(blob, h, sum);
    let hidden = Double { bits: lerc2_header::MINUS_ONE_BITS };
    lemma2_to64();
    lemma_pow2_adds(52, 1022);
    lemma2_to64_rest();
    assert(hidden.magnitude() == 0x3ff0_0000_0000_0000);
    assert(hidden.significand() == 0x10_0000_0000_0000 && hidden.exponent() == 1022);
}

/// A blob from version 3 on is read only where the checksum that it holds is that of the bytes
/// behind it.
pub proof fn law_checksum_checked(blob: Seq<u8>)
    ensures
        lerc2_header::header_parsed(blob) matches Ok(h) ==> h.version >= 3 ==> 14 <= h.blob_size
            <= blob.len() && bytes::le_value(blob.subrange(10, 14)) == checksum::fletcher_of(
            blob.subrange(14, h.blob_size as int),
        ),
{
    if let Ok(h) = lerc2_header::header_parsed(blob) {
        lerc2_header::lemma_field_widths(h.version);
        lerc2_header::lemma_short_field(
            blob.len(),
            10,
            lerc2_header::field_widths(h.version),
            0,
        );
        bytes::lemma_le_value_4(blob.subrange(10, 14));
    }
}

/// A blob with another checksum is refused for that.
pub proof fn law_corruption_refused(blob: Seq<u8>, h: Lerc2Header, sum: u32)
    requires
        bytes::stands_at(blob, 0, header_bytes(h, sum)),
        header_ok(h),
        header_bytes(h, sum).len() <= h.blob_size <= blob.len(),
        blob.len() <= usize::MAX,
        h.version >= 3,
        sum != checksum::fletcher_of(blob.subrange(14, h.blob_size as int)),
    ensures
        lerc2_header::header_parsed(blob) matches Err(Fault::ChecksumMismatch { expected, actual })
            && expected == sum && actual == checksum::fletcher_of(
            blob.subrange(14, h.blob_size as int),
        ),
{
    lemma_field_lens(h, sum);
    lemma_size_back(blob, h, sum);
    lemma_count_back(blob, h, sum);
    lemma_range_back(blob, h, sum);
    bytes::lemma_le_bytes_len(h.mask_num_bytes as nat, 4);
    lerc2_header::lemma_field_widths(h.version);
    blob_laws::lemma_fields_fit(blob.len(), 10, lerc2_header::field_widths(h.version), 0);
    let raw = lerc2_header::raw_header(blob, h.version);
    assert(lerc2_header::field_fault(raw) is None);
    checksum::law_checksum_weighs(blob.subrange(14, h.blob_size as int));
}

/// Where every number is whole, level `n` stands for so many steps above the base, up to the
/// largest value.
pub proof fn law_whole_levels(base: int, step: nat, most: int, n: u32)
    requires
        0 <= most - base < 0x4_0000_0000,
        float::abs_nat(base) <= 0x1_0000_0000,
        float::abs_nat(most) <= 0x1_0000_0000,
        0 < step < 0x1_0000,
    ensures
        stuffed::quantized(
            float::double_of_int(base),
            float::double_of_int(step as int),
            float::double_of_int(most),
            n,
        ) == float::double_of_int(
            if base + n * step < most {
                base + n * step
            } else {
                most
            },
        ),
{
    assert(0 <= n * step < 0x1_0000_0000_0000) by (nonlinear_arith)
        requires
            0 <= n <= 0xffff_ffff,
            0 < step < 0x1_0000,
    ;
    tile_laws::lemma_constants();
    float::lemma_int_exact(step as int);
    float::lemma_int_difference(most, base);
    float::lemma_int_quotient((most - base) as nat, step, n as nat);
    float::lemma_int_product(n as int, step as int);
    float::lemma_int_sum(base, n * step);
}

/// The types that an offset may be stored in, the type of the raster first.
pub open spec fn offset_types(data_type: DataType) -> Seq<DataType> {
    match data_type {
        DataType::I8 => seq![DataType::I8],
        DataType::U8 => seq![DataType::U8],
        DataType::I16 => seq![DataType::I16, DataType::U8, DataType::I8],
        DataType::U16 => seq![DataType::U16, DataType::U8],
        DataType::I32 => seq![DataType::I32, DataType::U16, DataType::I16, DataType::U8],
        DataType::U32 => seq![DataType::U32, DataType::U16, DataType::U8],
        DataType::F32 => seq![DataType::F32, DataType::I16, DataType::U8],
        DataType::F64 => seq![DataType::F64, DataType::F32, DataType::I32, DataType::I16],
    }
}

/// The type code of a tile selects one of the types that an offset may be stored in.
pub proof fn law_offset_types(data_type: DataType, tc: nat)
    requires
        tc < offset_types(data_type).len(),
    ensures
        types::type_of_code(lerc2_body::reduced_code(data_type, tc as int)) == Some(
            offset_types(data_type)[tc as int],
        ),
{
}

/// How the levels of a tile are stored.
pub enum Packing {
    /// As they are.
    Plain { bits: nat, code: nat },
    /// Through a look-up table.
    Table { table: Seq<u32>, bits: nat, code: nat },
}

/// The bytes of packed levels.
pub open spec fn levels_bytes(levels: Seq<u32>, packing: Packing, version: u32) -> Seq<u8> {
    match packing {
        Packing::Plain { bits, code } => table_laws::plain_bytes(levels, bits, code, version),
        Packing::Table { table, bits, code } => table_laws::tabled_bytes(
            levels,
            table,
            bits,
            code,
            version,
        ),
    }
}

/// Whether levels can be packed so.
pub open spec fn packing_fits(levels: Seq<u32>, packing: Packing) -> bool {
    match packing {
        Packing::Plain { bits, code } => {
            &&& bits <= 31
            &&& code <= 2
            &&& levels.len() < vstd::arithmetic::power::pow(256, table_laws::count_bytes(code))
            &&& forall|i: int| 0 <= i < levels.len() ==> #[trigger] levels[i] < pow2(bits)
        },
        Packing::Table { table, bits, code } => {
            &&& bits <= 31
            &&& code <= 2
            &&& levels.len() < vstd::arithmetic::power::pow(256, table_laws::count_bytes(code))
            &&& table.len() <= 254
            &&& forall|k: int| 0 <= k < table.len() ==> #[trigger] table[k] < pow2(bits)
            &&& forall|i: int|
                0 <= i < levels.len() && #[trigger] levels[i] != 0 ==> table.contains(levels[i])
        },
    }
}

/// Reading packed levels gives them back.
proof fn lemma_levels_back(
    all: Seq<u8>,
    pos: int,
    levels: Seq<u32>,
    packing: Packing,
    version: u32,
    capacity: nat,
)
    requires
        bytes::stands_at(all, pos, levels_bytes(levels, packing, version)),
        all.len() <= usize::MAX,
        levels.len() <= capacity,
        packing_fits(levels, packing),
    ensures
        stuffed::levels_decoded(all, pos, version, capacity, true) matches Ok((read, next))
            && next == pos + levels_bytes(levels, packing, version).len() && read.len()
            == levels.len() && forall|i: int|
            0 <= i < levels.len() ==> #[trigger] read[i] == Some(levels[i]) || (read[i] is None
                && levels[i] == 0),
{
    match packing {
        Packing::Plain { bits, code } => {
            table_laws::law_plain_roundtrip(all, pos, levels, bits, code, version, capacity, true);
            lemma2_to64();
        },
        Packing::Table { table, bits, code } => {
            table_laws::law_table_roundtrip(
                all,
                pos,
                levels,
                table,
                bits,
                code,
                version,
                capacity,
            );
        },
    }
}

/// The first byte of a tile: the code of its offset's type, part of its column, from version 5
/// on the flag of differences, and how it is stored.
pub open spec fn tile_head(version: u32, tc: nat, x: nat, kind: nat) -> u8 {
    if version >= 5 {
        (64 * tc + 8 * ((x / 16) % 8) + kind) as u8
    } else {
        (64 * tc + 4 * ((x / 8) % 16) + kind) as u8
    }
}

proof fn lemma_tile_head(version: u32, tc: nat, x: nat, kind: nat)
    requires
        tc < 4,
        kind < 4,
    ensures
        tile_head(version, tc, x, kind) / 64 == tc,
        tile_head(version, tc, x, kind) % 4 == kind,
        lerc2_body::tile_check_ok(tile_head(version, tc, x, kind), version, x as int),
        !lerc2_body::tile_is_diff(tile_head(version, tc, x, kind), version),
{
    let a = (x / 16) % 8;
    let b = (x / 8) % 16;
    if version >= 5 {
        let head = 64 * tc + 8 * a + kind;
        assert(head / 64 == tc && head % 4 == kind && (head / 8) % 8 == a && (head / 4) % 2 == 0);
    } else {
        let head = 64 * tc + 4 * b + kind;
        assert(head / 64 == tc && head % 4 == kind && (head / 4) % 16 == b);
    }
}

/// A tile of integers as it may be stored.
pub enum Tile {
    /// Every sample is zero.
    Zero,
    /// Every sample is the offset.
    Constant { offset: int, tc: nat },
    /// Levels above the offset.
    Levels { offset: int, tc: nat, levels: Seq<u32>, packing: Packing },
}

/// The bytes of a tile.
pub open spec fn tile_bytes(tile: Tile, data_type: DataType, version: u32, x: nat) -> Seq<u8> {
    match tile {
        Tile::Zero => seq![tile_head(version, 0, x, 2)],
        Tile::Constant { offset, tc } => seq![tile_head(version, tc, x, 3)] + values::scalar_bytes(
            float::double_of_int(offset),
            offset_types(data_type)[tc as int],
        ),
        Tile::Levels { offset, tc, levels, packing } => seq![tile_head(version, tc, x, 1)]
            + values::scalar_bytes(
            float::double_of_int(offset),
            offset_types(data_type)[tc as int],
        ) + levels_bytes(levels, packing, version),
    }
}

/// Whether an offset can be stored.
pub open spec fn offset_fits(offset: int, tc: nat, data_type: DataType) -> bool {
    &&& tc < offset_types(data_type).len()
    &&& offset_types(data_type)[tc as int].integer()
    &&& offset_types(data_type)[tc as int].least() <= offset
        <= offset_types(data_type)[tc as int].most()
}

/// Whether a tile can be stored for so many samples, none above the largest.
pub open spec fn tile_fits(tile: Tile, data_type: DataType, count: nat, most: int) -> bool {
    match tile {
        Tile::Zero => true,
        Tile::Constant { offset, tc } => offset_fits(offset, tc, data_type) && data_type.least()
            <= offset <= data_type.most(),
        Tile::Levels { offset, tc, levels, packing } => {
            &&& offset_fits(offset, tc, data_type)
            &&& data_type.least() <= offset <= most <= data_type.most()
            &&& levels.len() == count
            &&& packing_fits(levels, packing)
        },
    }
}

/// The number that a tile stands for at its `i`-th sample: so many steps above the offset, up
/// to the largest.
pub open spec fn tile_number(tile: Tile, i: int, step: nat, most: int) -> int {
    match tile {
        Tile::Zero => 0,
        Tile::Constant { offset, .. } => offset,
        Tile::Levels { offset, levels, .. } => if offset + levels[i] * step < most {
            offset + levels[i] * step
        } else {
            most
        },
    }
}

/// Whether samples that were read are those that a tile was stored for.
pub open spec fn tile_is<T: Sample>(read: Seq<T>, tile: Tile, count: nat, step: nat, most: int) -> bool {
    &&& read.len() == count
    &&& forall|i: int|
        0 <= i < count ==> (#[trigger] read[i]).number() == tile_number(tile, i, step, most)
}

/// Reading the levels of a tile.
proof fn lemma_stuffed_back<T: Sample>(
    h: Lerc2Header,
    all: Seq<u8>,
    pos: int,
    offset: int,
    tc: nat,
    levels: Seq<u32>,
    packing: Packing,
    capacity: nat,
    step: nat,
    most: int,
)
    requires
        T::kind().integer(),
        h.data_type == T::kind(),
        tile_plan::step(h.max_z_error) == float::double_of_int(step as int),
        0 < step < 0x1_0000,
        bytes::stands_at(all, pos, levels_bytes(levels, packing, h.version)),
        all.len() <= usize::MAX,
        tile_fits(
            Tile::Levels { offset, tc, levels, packing },
            T::kind(),
            levels.len(),
            most,
        ),
        levels.len() <= capacity,
    ensures
        lerc2_body::stuffed_tile::<T>(
            h,
            float::double_of_int(most),
            all,
            pos,
            float::double_of_int(offset),
            None,
            levels.len(),
            capacity,
        ) matches Ok((read, next)) && next == pos + levels_bytes(levels, packing, h.version).len()
            && tile_is(
            read,
            Tile::Levels { offset, tc, levels, packing },
            levels.len(),
            step,
            most,
        ),
{
    let tile = Tile::Levels { offset, tc, levels, packing };
    let count = levels.len();
    let value = float::double_of_int(offset);
    let limit = float::double_of_int(most);
    let scale = tile_plan::step(h.max_z_error);
    lemma_levels_back(all, pos, levels, packing, h.version, capacity);
    let stored = stuffed::levels_decoded(all, pos, h.version, capacity, true)->Ok_0.0;
    let found = lerc2_body::stuffed_tile::<T>(
        h,
        limit,
        all,
        pos,
        value,
        None,
        count,
        capacity,
    )->Ok_0.0;
    assert forall|i: int| 0 <= i < count implies (#[trigger] found[i]).number() == tile_number(
        tile,
        i,
        step,
        most,
    ) by {
        let number = tile_number(tile, i, step, most);
        assert(stored[i] == Some(levels[i]) || (stored[i] is None && levels[i] == 0));
        lemma_level_number(offset, step, most, levels[i], stored[i]);
        lemma_cast_back::<T>(number);
        assert(found[i] == T::demoted(stuffed::level_value(value, scale, limit, stored[i])));
    }
}

/// The number of one level.
proof fn lemma_level_number(offset: int, step: nat, most: int, level: u32, stored: Option<u32>)
    requires
        0 <= most - offset < 0x4_0000_0000,
        float::abs_nat(offset) <= 0x1_0000_0000,
        float::abs_nat(most) <= 0x1_0000_0000,
        0 < step < 0x1_0000,
        stored == Some(level) || (stored is None && level == 0),
    ensures
        ({
            let number = if offset + level * step < most {
                offset + level * step
            } else {
                most
            };
            &&& offset <= number <= most
            &&& stuffed::level_value(
                float::double_of_int(offset),
                float::double_of_int(step as int),
                float::double_of_int(most),
                stored,
            ) == float::double_of_int(number)
        }),
{
    assert(0 <= level * step) by (nonlinear_arith)
        requires
            level >= 0,
    ;
    law_whole_levels(offset, step, most, level);
    if stored is None {
        assert(level * step == 0) by (nonlinear_arith)
            requires
                level == 0,
        ;
    }
}

/// Reading the offset of a tile.
proof fn lemma_offset_back(all: Seq<u8>, pos: int, offset: int, tc: nat, data_type: DataType)
    requires
        offset_fits(offset, tc, data_type),
        bytes::stands_at(
            all,
            pos,
            values::scalar_bytes(
                float::double_of_int(offset),
                offset_types(data_type)[tc as int],
            ),
        ),
        all.len() <= usize::MAX,
    ensures
        ({
            let used = offset_types(data_type)[tc as int];
            let value = float::double_of_int(offset);
            &&& types::type_of_code(lerc2_body::reduced_code(data_type, tc as int)) == Some(used)
            &&& cursor::take(all, pos, used.width() as int) matches Ok(field)
                && values::scalar_value(field, used) == value
            &&& values::scalar_bytes(value, used).len() == used.width()
        }),
{
    let used = offset_types(data_type)[tc as int];
    let value = float::double_of_int(offset);
    law_offset_types(data_type, tc);
    tile_laws::lemma_scalar_roundtrip(value, used);
    tile_laws::lemma_coerced_int(offset, used);
}

/// Reading a tile of integers gives the numbers that it was stored for, in every version.
#[verifier::rlimit(40)]
#[verifier::spinoff_prover]
pub proof fn law_tile_read<T: Sample>(
    h: Lerc2Header,
    all: Seq<u8>,
    pos: int,
    x: nat,
    tile: Tile,
    count: nat,
    capacity: nat,
    step: nat,
    most: int,
    previous: Option<Seq<T>>,
)
    requires
        T::kind().integer(),
        h.data_type == T::kind(),
        tile_plan::step(h.max_z_error) == float::double_of_int(step as int),
        0 < step < 0x1_0000,
        bytes::stands_at(all, pos, tile_bytes(tile, T::kind(), h.version, x)),
        all.len() <= usize::MAX,
        tile_fits(tile, T::kind(), count, most),
        count <= capacity,
    ensures
        lerc2_body::tile_read::<T>(
            h,
            float::double_of_int(most),
            all,
            pos,
            x as int,
            previous,
            count,
            capacity,
        ) matches Ok((read, next)) && next == pos + tile_bytes(tile, T::kind(), h.version, x).len()
            && tile_is(read, tile, count, step, most),
{
    let version = h.version;
    let limit = float::double_of_int(most);
    match tile {
        Tile::Zero => {
            let head = tile_head(version, 0, x, 2);
            lemma_tile_head(version, 0, x, 2);
            table_laws::lemma_byte(all, pos, head);
            T::law_zero(Double { bits: 0 });
            T::zero().law_integer();
            float::lemma_int_exact(T::zero().number());
        },
        Tile::Constant { offset, tc } => {
            let head = tile_head(version, tc, x, 3);
            let value = float::double_of_int(offset);
            let field = values::scalar_bytes(value, offset_types(T::kind())[tc as int]);
            lemma_tile_head(version, tc, x, 3);
            bytes::lemma_stands_split(all, pos, seq![head], field);
            table_laws::lemma_byte(all, pos, head);
            lemma_offset_back(all, pos + 1, offset, tc, T::kind());
            lemma_cast_back::<T>(offset);
            let found = lerc2_body::offset_tile::<T>(
                h,
                limit,
                all,
                pos + 1,
                head,
                None,
                count,
                capacity,
            )->Ok_0.0;
            assert forall|i: int| 0 <= i < count implies (#[trigger] found[i]).number()
                == offset by {
                assert(found[i] == T::demoted(value));
            }
        },
        Tile::Levels { offset, tc, levels, packing } => {
            let head = tile_head(version, tc, x, 1);
            let value = float::double_of_int(offset);
            let field = values::scalar_bytes(value, offset_types(T::kind())[tc as int]);
            let block = levels_bytes(levels, packing, version);
            lemma_tile_head(version, tc, x, 1);
            bytes::lemma_stands_split(all, pos, seq![head] + field, block);
            bytes::lemma_stands_split(all, pos, seq![head], field);
            table_laws::lemma_byte(all, pos, head);
            lemma_offset_back(all, pos + 1, offset, tc, T::kind());
            lemma_stuffed_back::<T>(
                h,
                all,
                pos + 1 + field.len(),
                offset,
                tc,
                levels,
                packing,
                capacity,
                step,
                most,
            );
        },
    }
}

/// An integer in the range of a type is the number of the sample that it becomes.
proof fn lemma_cast_back<T: Sample>(value: int)
    requires
        T::kind().integer(),
        T::kind().least() <= value <= T::kind().most(),
    ensures
        T::demoted(float::double_of_int(value)).number() == value,
{
    T::law_cast(value);
    let t = T::demoted(float::double_of_int(value));
    t.law_integer();
    float::lemma_int_order(t.number(), value);
}

} // verus!
