//! What is read back of a blob.

use crate::allocation;
use crate::analysis;
use crate::analysis::Findings;
use crate::blocks;
use crate::body_laws;
use crate::bytes;
use crate::checksum;
use crate::cursor;
use crate::encoder;
use crate::encoder::Ready;
use crate::error::Fault;
use crate::float::Double;
use crate::lerc2;
use crate::lerc2_body;
use crate::lerc2_header;
use crate::lerc2_header::{Lerc2Header, RawHeader};
use crate::mask;
use crate::options::EncodeOptions;
use crate::plan;
use crate::plan::{BodyShape, Frame};
use crate::raster;
use crate::raster::{MaskView, RasterView};
use crate::sample::Sample;
use crate::tile_laws;
use crate::tile_plan;
use crate::tiling;
use crate::tiling::TilingOptions;
use crate::tiling_laws;
use crate::types;
use crate::types::{DataType, MaskEncoding};
use crate::values;
use vstd::arithmetic::div_mod::*;
use vstd::arithmetic::mul::*;
use vstd::prelude::*;

verus! {

/// A field of four bytes.
pub proof fn lemma_number_back(data: Seq<u8>, pos: int, value: nat)
    requires
        bytes::stands_at(data, pos, bytes::le_bytes(value, 4)),
        value <= u32::MAX,
    ensures
        lerc2_header::number_at(data, pos) == value,
        value < 0x8000_0000 ==> lerc2_header::integer_at(data, pos) == value,
        data.len() <= usize::MAX ==> cursor::take_number(data, pos, 4) == Ok::<nat, Fault>(value),
{
    bytes::lemma_pow256();
    bytes::lemma_le_roundtrip(value, 4);
}

/// A field of eight bytes.
pub proof fn lemma_double_back(data: Seq<u8>, pos: int, value: u64)
    requires
        bytes::stands_at(data, pos, bytes::le_bytes(value as nat, 8)),
    ensures
        lerc2_header::double_at(data, pos) == (Double { bits: value }),
{
    bytes::lemma_pow256();
    bytes::lemma_le_roundtrip(value as nat, 8);
}

/// Fields that fit are not short.
pub proof fn lemma_fields_fit(len: nat, pos: nat, widths: Seq<usize>, i: nat)
    requires
        pos + lerc2_header::widths_sum(widths, i) <= len,
    ensures
        lerc2_header::short_field(len, pos, widths, i) is None,
    decreases widths.len() - i,
{
    if i < widths.len() {
        lemma_fields_fit(len, pos + widths[i as int] as nat, widths, i + 1);
    }
}

/// The header that a blob is written with.
pub open spec fn header_of<T: Sample>(
    ready: Ready<T>,
    frame: Frame,
    payload: Seq<u8>,
    remaining: nat,
    encoding: MaskEncoding,
) -> Lerc2Header {
    Lerc2Header {
        version: ready.version,
        data_type: T::kind(),
        width: frame.width,
        height: frame.height,
        depth: frame.depth,
        valid_pixel_count: ready.found.valid as u32,
        micro_block_size: frame.micro_block_size,
        blob_size: encoder::blob_size(ready, frame, payload) as usize,
        remaining_band_count: if ready.version >= 6 {
            remaining as u32
        } else {
            0
        },
        max_z_error: ready.found.max_z_error,
        z_min: ready.found.z_min,
        z_max: ready.found.z_max,
        mask_encoding: encoding,
        mask_num_bytes: payload.len() as usize,
        encoded_no_data: ready.found.encoded_no_data,
        original_no_data: ready.found.original_no_data,
    }
}

/// The first fields of a header.
proof fn lemma_first_fields<T: Sample>(
    data: Seq<u8>,
    found: Findings<T>,
    frame: Frame,
    version: u32,
    size: nat,
    remaining: nat,
)
    requires
        bytes::stands_at(
            data,
            14,
            encoder::fields_bytes(found, frame, version, size, remaining),
        ),
        4 <= version <= 6,
        found.valid <= u32::MAX,
        frame.micro_block_size <= 32,
        size <= 0x7fff_ffff,
    ensures
        ({
            let h = lerc2_header::raw_header(data, version);
            &&& h.height == frame.height
            &&& h.width == frame.width
            &&& h.depth == frame.depth
            &&& h.valid_pixel_count == found.valid
            &&& h.micro_block_size == frame.micro_block_size
            &&& h.blob_size == size
            &&& h.image_type == T::kind().number()
        }),
{
    let (a, b, c, d, e, f, g) = (
        bytes::le_bytes(frame.height as nat, 4),
        bytes::le_bytes(frame.width as nat, 4),
        bytes::le_bytes(frame.depth as nat, 4),
        bytes::le_bytes(found.valid, 4),
        bytes::le_bytes(frame.micro_block_size as nat, 4),
        bytes::le_bytes(size, 4),
        bytes::le_bytes(T::kind().number(), 4),
    );
    bytes::lemma_le_bytes_len(frame.height as nat, 4);
    bytes::lemma_le_bytes_len(frame.width as nat, 4);
    bytes::lemma_le_bytes_len(frame.depth as nat, 4);
    bytes::lemma_le_bytes_len(found.valid, 4);
    bytes::lemma_le_bytes_len(frame.micro_block_size as nat, 4);
    bytes::lemma_le_bytes_len(size, 4);
    bytes::lemma_le_bytes_len(T::kind().number(), 4);
    let all = encoder::fields_bytes(found, frame, version, size, remaining);
    let front = a + b + c + d + e + f + g;
    let rest = all.subrange(front.len() as int, all.len() as int);
    assert(all =~= front + rest);
    bytes::lemma_stands_split(data, 14, front, rest);
    bytes::lemma_stands_split(data, 14, a + b + c + d + e + f, g);
    bytes::lemma_stands_split(data, 14, a + b + c + d + e, f);
    bytes::lemma_stands_split(data, 14, a + b + c + d, e);
    bytes::lemma_stands_split(data, 14, a + b + c, d);
    bytes::lemma_stands_split(data, 14, a + b, c);
    bytes::lemma_stands_split(data, 14, a, b);
    lemma_number_back(data, 14, frame.height as nat);
    lemma_number_back(data, 18, frame.width as nat);
    lemma_number_back(data, 22, frame.depth as nat);
    lemma_number_back(data, 26, found.valid);
    lemma_number_back(data, 30, frame.micro_block_size as nat);
    lemma_number_back(data, 34, size);
    lemma_number_back(data, 38, T::kind().number());
}

/// The last fields of a header.
#[verifier::rlimit(40)]
proof fn lemma_last_fields<T: Sample>(
    data: Seq<u8>,
    found: Findings<T>,
    frame: Frame,
    version: u32,
    size: nat,
    remaining: nat,
)
    requires
        bytes::stands_at(
            data,
            14,
            encoder::fields_bytes(found, frame, version, size, remaining),
        ),
        4 <= version <= 6,
        version >= 6 ==> remaining <= 0x7fff_ffff,
        found.original_no_data is Some ==> version >= 6,
        found.original_no_data is Some <==> found.encoded_no_data is Some,
    ensures
        ({
            let h = lerc2_header::raw_header(data, version);
            &&& h.blobs_more == if version >= 6 {
                remaining
            } else {
                0
            }
            &&& h.no_data_flag == if found.original_no_data is Some {
                1int
            } else {
                0int
            }
            &&& h.max_z_error == found.max_z_error
            &&& h.z_min == found.z_min
            &&& h.z_max == found.z_max
            &&& h.encoded_no_data == match found.encoded_no_data {
                Some(v) => v,
                None => Double { bits: 0 },
            }
            &&& h.original_no_data == match found.original_no_data {
                Some(v) => v,
                None => Double { bits: 0 },
            }
        }),
{
    let front = bytes::le_bytes(frame.height as nat, 4) + bytes::le_bytes(frame.width as nat, 4)
        + bytes::le_bytes(frame.depth as nat, 4) + bytes::le_bytes(found.valid, 4)
        + bytes::le_bytes(frame.micro_block_size as nat, 4) + bytes::le_bytes(size, 4)
        + bytes::le_bytes(T::kind().number(), 4);
    bytes::lemma_le_bytes_len(frame.height as nat, 4);
    bytes::lemma_le_bytes_len(frame.width as nat, 4);
    bytes::lemma_le_bytes_len(frame.depth as nat, 4);
    bytes::lemma_le_bytes_len(found.valid, 4);
    bytes::lemma_le_bytes_len(frame.micro_block_size as nat, 4);
    bytes::lemma_le_bytes_len(size, 4);
    bytes::lemma_le_bytes_len(T::kind().number(), 4);
    bytes::lemma_le_bytes_len(remaining, 4);
    let flags = seq![
        if found.original_no_data is Some {
            1u8
        } else {
            0u8
        },
        0u8,
        0u8,
        0u8,
    ];
    let extra = if version >= 6 {
        bytes::le_bytes(remaining, 4) + flags
    } else {
        seq![]
    };
    let (m, l, u) = (
        bytes::le_bytes(found.max_z_error.bits as nat, 8),
        bytes::le_bytes(found.z_min.bits as nat, 8),
        bytes::le_bytes(found.z_max.bits as nat, 8),
    );
    let e = bytes::le_bytes(encoder::no_data_bits(found.encoded_no_data), 8);
    let o = bytes::le_bytes(encoder::no_data_bits(found.original_no_data), 8);
    bytes::lemma_le_bytes_len(found.max_z_error.bits as nat, 8);
    bytes::lemma_le_bytes_len(found.z_min.bits as nat, 8);
    bytes::lemma_le_bytes_len(found.z_max.bits as nat, 8);
    bytes::lemma_le_bytes_len(encoder::no_data_bits(found.encoded_no_data), 8);
    bytes::lemma_le_bytes_len(encoder::no_data_bits(found.original_no_data), 8);
    let sentinels = if version >= 6 {
        e + o
    } else {
        seq![]
    };
    assert(encoder::fields_bytes(found, frame, version, size, remaining) == front + extra + m + l
        + u + sentinels);
    bytes::lemma_stands_split(data, 14, front + extra + m + l + u, sentinels);
    bytes::lemma_stands_split(data, 14, front + extra + m + l, u);
    bytes::lemma_stands_split(data, 14, front + extra + m, l);
    bytes::lemma_stands_split(data, 14, front + extra, m);
    bytes::lemma_stands_split(data, 14, front, extra);
    let r = lerc2_header::range_offset(version);
    assert(14 + (front + extra).len() == r);
    lemma_double_back(data, r, found.max_z_error.bits);
    lemma_double_back(data, r + 8, found.z_min.bits);
    lemma_double_back(data, r + 16, found.z_max.bits);
    if version >= 6 {
        bytes::lemma_stands_split(data, r + 24, e, o);
        lemma_double_back(data, r + 24, encoder::no_data_bits(found.encoded_no_data) as u64);
        lemma_double_back(data, r + 32, encoder::no_data_bits(found.original_no_data) as u64);
        bytes::lemma_stands_split(data, 42, bytes::le_bytes(remaining, 4), flags);
        lemma_number_back(data, 42, remaining);
        assert(data.subrange(46, 50)[0] == flags[0]);
    }
}

/// The fields that a blob is written with.
#[verifier::opaque]
spec fn raw_of<T: Sample>(
    ready: Ready<T>,
    frame: Frame,
    payload: Seq<u8>,
    remaining: nat,
) -> RawHeader {
    let size = encoder::blob_size(ready, frame, payload);
    let tail = encoder::fields_bytes(ready.found, frame, ready.version, size, remaining)
        + encoder::rest_bytes(ready, frame, payload);
    RawHeader {
        version: ready.version,
        checksum: checksum::fletcher_of(tail) as u32,
        height: frame.height,
        width: frame.width,
        depth: frame.depth,
        valid_pixel_count: ready.found.valid as u32,
        micro_block_size: frame.micro_block_size as i32,
        blob_size: size as i32,
        image_type: T::kind().number() as i32,
        blobs_more: if ready.version >= 6 {
            remaining as i32
        } else {
            0
        },
        no_data_flag: if ready.found.original_no_data is Some {
            1
        } else {
            0
        },
        max_z_error: ready.found.max_z_error,
        z_min: ready.found.z_min,
        z_max: ready.found.z_max,
        encoded_no_data: match ready.found.encoded_no_data {
            Some(v) => v,
            None => Double { bits: 0 },
        },
        original_no_data: match ready.found.original_no_data {
            Some(v) => v,
            None => Double { bits: 0 },
        },
    }
}

/// Where the parts of a blob stand.
proof fn lemma_blob_parts<T: Sample>(
    ready: Ready<T>,
    frame: Frame,
    payload: Seq<u8>,
    remaining: nat,
    behind: Seq<u8>,
)
    requires
        4 <= ready.version <= 6,
    ensures
        ({
            let blob = encoder::blob_of(ready, frame, payload, remaining);
            let data = blob + behind;
            let size = encoder::blob_size(ready, frame, payload);
            let fields = encoder::fields_bytes(
                ready.found,
                frame,
                ready.version,
                size,
                remaining,
            );
            let rest = encoder::rest_bytes(ready, frame, payload);
            let end = lerc2_header::header_size(ready.version);
            &&& blob.len() == size
            &&& data.subrange(0, size as int) == blob
            &&& data.subrange(0, 6) == lerc2_header::magic_lerc2()
            &&& bytes::stands_at(data, 6, bytes::le_bytes(ready.version as nat, 4))
            &&& bytes::stands_at(
                data,
                10,
                bytes::le_bytes(checksum::fletcher_of(fields + rest), 4),
            )
            &&& bytes::stands_at(data, 14, fields)
            &&& data.subrange(14, size as int) == fields + rest
            &&& bytes::stands_at(data, end, bytes::le_bytes(payload.len(), 4))
            &&& bytes::stands_at(blob, end, rest)
            &&& size == end + rest.len()
            &&& rest.len() >= 4
        }),
{
    let blob = encoder::blob_of(ready, frame, payload, remaining);
    let data = blob + behind;
    let version = ready.version;
    let found = ready.found;
    let size = encoder::blob_size(ready, frame, payload);
    let fields = encoder::fields_bytes(found, frame, version, size, remaining);
    let rest = encoder::rest_bytes(ready, frame, payload);
    let tail = fields + rest;
    let sum = checksum::fletcher_of(tail);
    let magic = lerc2_header::magic_lerc2();
    encoder::lemma_blob_len(ready, frame, payload, remaining);
    bytes::lemma_le_bytes_len(version as nat, 4);
    bytes::lemma_le_bytes_len(sum, 4);
    let v = bytes::le_bytes(version as nat, 4);
    let s = bytes::le_bytes(sum, 4);
    assert(blob == magic + v + s + tail);
    assert(data.subrange(0, blob.len() as int) =~= blob);
    assert(bytes::stands_at(data, 0, magic + v + s + tail));
    bytes::lemma_stands_split(data, 0, magic + v + s, tail);
    bytes::lemma_stands_split(data, 0, magic + v, s);
    bytes::lemma_stands_split(data, 0, magic, v);
    bytes::lemma_stands_split(data, 14, fields, rest);
    assert(data.subrange(14, size as int) =~= tail);
    let m = bytes::le_bytes(payload.len(), 4);
    bytes::lemma_le_bytes_len(payload.len(), 4);
    let end = lerc2_header::header_size(version);
    let more = rest.subrange(4, rest.len() as int);
    assert(rest =~= m + more);
    bytes::lemma_stands_split(data, end, m, more);
    assert(blob.subrange(end, end + rest.len()) =~= rest) by {
        assert(data.subrange(end, end + rest.len()) =~= rest);
        assert(data.subrange(end, end + rest.len()) =~= blob.subrange(end, end + rest.len()));
    }
}

/// The fields of a written header are those it was written with.
proof fn lemma_raw_back<T: Sample>(
    ready: Ready<T>,
    frame: Frame,
    payload: Seq<u8>,
    remaining: nat,
    behind: Seq<u8>,
)
    requires
        4 <= ready.version <= 6,
        ready.found.valid <= u32::MAX,
        frame.micro_block_size <= 32,
        ready.found.original_no_data is Some ==> ready.version >= 6,
        ready.found.original_no_data is Some <==> ready.found.encoded_no_data is Some,
        encoder::blob_fault(ready, frame, payload, remaining) is None,
    ensures
        lerc2_header::raw_header(
            encoder::blob_of(ready, frame, payload, remaining) + behind,
            ready.version,
        ) == raw_of(ready, frame, payload, remaining),
{
    reveal(raw_of);
    let data = encoder::blob_of(ready, frame, payload, remaining) + behind;
    let size = encoder::blob_size(ready, frame, payload);
    let tail = encoder::fields_bytes(ready.found, frame, ready.version, size, remaining)
        + encoder::rest_bytes(ready, frame, payload);
    lemma_blob_parts(ready, frame, payload, remaining, behind);
    lemma_number_back(data, 10, checksum::fletcher_of(tail));
    lemma_first_fields(data, ready.found, frame, ready.version, size, remaining);
    lemma_last_fields(data, ready.found, frame, ready.version, size, remaining);
}

/// The fields of a written header are accepted.
proof fn lemma_raw_accepted<T: Sample>(
    ready: Ready<T>,
    frame: Frame,
    payload: Seq<u8>,
    remaining: nat,
    behind: Seq<u8>,
)
    requires
        body_laws::sound(ready.found, frame),
        4 <= ready.version <= 6,
        encoder::blob_fault(ready, frame, payload, remaining) is None,
    ensures
        lerc2_header::field_fault(raw_of(ready, frame, payload, remaining)) is None,
        lerc2_header::blob_fault(
            raw_of(ready, frame, payload, remaining),
            encoder::blob_of(ready, frame, payload, remaining) + behind,
        ) is None,
{
    lemma_fields_accepted(ready, frame, payload, remaining);
    lemma_blob_parts(ready, frame, payload, remaining, behind);
    blocks::lemma_run_pixels(ready.found.mask, 0, frame.pixels());
    reveal(raw_of);
}

/// Each field of a written header is accepted.
proof fn lemma_fields_accepted<T: Sample>(
    ready: Ready<T>,
    frame: Frame,
    payload: Seq<u8>,
    remaining: nat,
)
    requires
        body_laws::sound(ready.found, frame),
        4 <= ready.version <= 6,
        encoder::blob_fault(ready, frame, payload, remaining) is None,
    ensures
        lerc2_header::field_fault(raw_of(ready, frame, payload, remaining)) is None,
{
    reveal(raw_of);
    let bound = ready.found.max_z_error;
    assert(bound.finite() && (!bound.negative() || bound.zero()));
    assert(!bound.below(Double { bits: 0 }));
}

/// A header is read from its parts.
proof fn lemma_parsed(data: Seq<u8>, raw: RawHeader, h: Lerc2Header)
    requires
        6 <= data.len() <= usize::MAX,
        1 <= raw.version <= 6,
        data.subrange(0, 6) == lerc2_header::magic_lerc2(),
        cursor::take_number(data, 6, 4) == Ok::<nat, Fault>(raw.version as nat),
        lerc2_header::short_field(data.len(), 10, lerc2_header::field_widths(raw.version), 0)
            is None,
        lerc2_header::raw_header(data, raw.version) == raw,
        lerc2_header::field_fault(raw) is None,
        lerc2_header::blob_fault(raw, data) is None,
        lerc2_header::header_tail(raw, data) == Ok::<Lerc2Header, Fault>(h),
    ensures
        lerc2_header::header_parsed(data) == Ok::<Lerc2Header, Fault>(h),
{
    assert(cursor::take(data, 0, 6) == Ok::<Seq<u8>, Fault>(data.subrange(0, 6)));
}

/// The end of a header is read from its parts.
proof fn lemma_tail_back(
    data: Seq<u8>,
    raw: RawHeader,
    data_type: DataType,
    encoding: MaskEncoding,
    payload: nat,
)
    requires
        data.len() <= usize::MAX,
        bytes::stands_at(
            data,
            lerc2_header::header_size(raw.version),
            bytes::le_bytes(payload, 4),
        ),
        payload <= u32::MAX,
        lerc2_header::inferred_mask(
            raw.valid_pixel_count as nat,
            raw.width as nat * raw.height as nat,
            payload,
        ) == Ok::<MaskEncoding, Fault>(encoding),
        raw.image_type == data_type.number(),
        raw.blob_size >= lerc2_header::header_size(raw.version) + 4,
    ensures
        lerc2_header::header_tail(raw, data) == Ok::<Lerc2Header, Fault>(
            lerc2_header::checked_header(raw, data_type, encoding, payload),
        ),
{
    lemma_number_back(data, lerc2_header::header_size(raw.version), payload);
}

/// The header that the fields of a blob stand for.
proof fn lemma_checked<T: Sample>(
    ready: Ready<T>,
    frame: Frame,
    payload: Seq<u8>,
    remaining: nat,
    encoding: MaskEncoding,
)
    requires
        4 <= ready.version <= 6,
        ready.found.valid <= u32::MAX,
        ready.found.original_no_data is Some <==> ready.found.encoded_no_data is Some,
        frame.micro_block_size <= 32,
        encoder::blob_fault(ready, frame, payload, remaining) is None,
    ensures
        ({
            let raw = raw_of(ready, frame, payload, remaining);
            &&& raw.version == ready.version
            &&& raw.image_type == T::kind().number()
            &&& raw.blob_size == encoder::blob_size(ready, frame, payload)
            &&& raw.valid_pixel_count == ready.found.valid
            &&& raw.width == frame.width
            &&& raw.height == frame.height
            &&& lerc2_header::checked_header(raw, T::kind(), encoding, payload.len())
                == header_of(ready, frame, payload, remaining, encoding)
        }),
{
    reveal(raw_of);
}

/// Reading the header of a blob gives back what it was written with, whatever follows the blob.
pub proof fn law_header_roundtrip<T: Sample>(
    ready: Ready<T>,
    frame: Frame,
    payload: Seq<u8>,
    remaining: nat,
    encoding: MaskEncoding,
    behind: Seq<u8>,
)
    requires
        body_laws::sound(ready.found, frame),
        4 <= ready.version <= 6,
        ready.found.original_no_data is Some ==> ready.version >= 6,
        encoder::blob_fault(ready, frame, payload, remaining) is None,
        lerc2_header::inferred_mask(ready.found.valid, frame.pixels(), payload.len()) == Ok::<
            MaskEncoding,
            Fault,
        >(encoding),
        encoder::blob_size(ready, frame, payload) + behind.len() <= usize::MAX,
    ensures
        lerc2_header::header_parsed(
            encoder::blob_of(ready, frame, payload, remaining) + behind,
        ) == Ok::<Lerc2Header, Fault>(header_of(ready, frame, payload, remaining, encoding)),
{
    let data = encoder::blob_of(ready, frame, payload, remaining) + behind;
    let version = ready.version;
    let raw = raw_of(ready, frame, payload, remaining);
    lemma_blob_parts(ready, frame, payload, remaining, behind);
    lemma_number_back(data, 6, version as nat);
    lerc2_header::lemma_field_widths(version);
    lemma_fields_fit(data.len(), 10, lerc2_header::field_widths(version), 0);
    lemma_raw_back(ready, frame, payload, remaining, behind);
    lemma_raw_accepted(ready, frame, payload, remaining, behind);
    lemma_checked(ready, frame, payload, remaining, encoding);
    lemma_tail_back(data, raw, T::kind(), encoding, payload.len());
    let h = header_of(ready, frame, payload, remaining, encoding);
    lemma_parsed(data, raw, h);
}

/// Where every pixel of a run is listed, every one is valid.
proof fn lemma_run_full(entries: Option<Seq<u8>>, count: nat, p: int)
    requires
        blocks::run_pixels(entries, 0, count).len() == count,
        0 <= p < count,
    ensures
        blocks::is_valid(entries, p),
    decreases count,
{
    let m = (count - 1) as nat;
    blocks::lemma_run_pixels(entries, 0, m);
    if p < m {
        lemma_run_full(entries, m, p);
    }
}

/// The number of valid pixels of a mask.
proof fn lemma_mask_count(entries: Seq<u8>)
    ensures
        blocks::run_pixels(Some(entries), 0, entries.len()).len() == raster::count_valid(entries),
{
    blocks::lemma_run_count(entries, entries.len());
    assert(entries.subrange(0, entries.len() as int) =~= entries);
}

/// Whether a mask handed down stands for the one of a raster.
pub open spec fn handed_down(inherited: Option<Seq<u8>>, entries: Option<Seq<u8>>, pixels: nat) -> bool {
    &&& inherited matches Some(m) && m.len() == pixels
    &&& body_laws::masks_agree(inherited, entries, pixels)
}

/// How the mask of a raster is read back.
pub open spec fn mask_kept<T>(found: Findings<T>, pixels: nat, payload: Seq<u8>) -> MaskEncoding {
    if found.valid == pixels {
        MaskEncoding::AllValid
    } else if found.valid == 0 {
        MaskEncoding::ImplicitAllInvalid
    } else if payload.len() == 0 {
        MaskEncoding::External
    } else {
        MaskEncoding::Explicit
    }
}

/// Whether a mask payload belongs to a raster: the mask itself, or nothing where it is handed
/// down.
pub open spec fn payload_fits<T>(
    found: Findings<T>,
    pixels: nat,
    payload: Seq<u8>,
    inherited: Option<Seq<u8>>,
) -> bool {
    ||| payload == mask::mask_payload(found.mask, pixels, found.valid)
    ||| payload.len() == 0 && handed_down(inherited, found.mask, pixels)
}

/// Reading the mask of a blob gives the valid pixels back.
pub proof fn law_mask_read<T: Sample>(
    found: Findings<T>,
    frame: Frame,
    h: Lerc2Header,
    all: Seq<u8>,
    pos: int,
    payload: Seq<u8>,
    inherited: Option<Seq<u8>>,
) -> (entries: Option<Seq<u8>>)
    requires
        plan::plannable(found, frame),
        payload_fits(found, frame.pixels(), payload, inherited),
        payload.len() <= u32::MAX,
        h.mask_num_bytes == payload.len(),
        h.mask_encoding == mask_kept(found, frame.pixels(), payload),
        h.pixels() == frame.pixels(),
        h.valid_pixel_count == found.valid,
        frame.pixels() <= allocation::MAX_DECODED_ALLOCATION_BYTES,
        all.len() <= usize::MAX,
        bytes::stands_at(all, pos, payload),
    ensures
        lerc2::mask_read(h, all, pos, inherited) == Ok::<(Option<Seq<u8>>, int), Fault>(
            (entries, pos + payload.len()),
        ),
        body_laws::masks_agree(entries, found.mask, frame.pixels()),
        blocks::mask_fits(entries, frame.pixels()),
        lerc2_header::inferred_mask(found.valid, frame.pixels(), payload.len()) == Ok::<
            MaskEncoding,
            Fault,
        >(h.mask_encoding),
{
    let pixels = frame.pixels();
    let list = blocks::run_pixels(found.mask, 0, pixels);
    if found.valid == pixels {
        assert(payload.len() == 0);
        assert forall|p: int| 0 <= p < pixels implies #[trigger] blocks::is_valid(
            None::<Seq<u8>>,
            p,
        ) == blocks::is_valid(found.mask, p) by {
            lemma_run_full(found.mask, pixels, p);
        }
        None
    } else if found.valid == 0 {
        assert(payload.len() == 0);
        let entries = Some(allocation::repeated(0u8, pixels));
        assert forall|p: int| 0 <= p < pixels implies #[trigger] blocks::is_valid(entries, p)
            == blocks::is_valid(found.mask, p) by {
            tiling_laws::lemma_run_has(found.mask, 0, pixels, p);
        }
        assert(pixels * 1 == pixels);
        entries
    } else if payload.len() == 0 {
        if found.mask is Some {
            bytes::lemma_le_bytes_len(0x8000, 2);
        } else {
            assert forall|p: int| 0 <= p < pixels implies blocks::is_valid(found.mask, p) by {}
            body_laws::lemma_unmasked(pixels);
        }
        let m = inherited->0;
        lemma_mask_count(m);
        body_laws::lemma_runs_agree(inherited, found.mask, 0, pixels, pixels);
        inherited
    } else {
        let m = found.mask->0;
        let entries = Some(mask::normalized(m));
        mask::law_mask_roundtrip(m);
        assert forall|p: int| 0 <= p < pixels implies #[trigger] blocks::is_valid(entries, p)
            == blocks::is_valid(found.mask, p) by {}
        body_laws::lemma_runs_agree(entries, found.mask, 0, pixels, pixels);
        lemma_mask_count(mask::normalized(m));
        assert(pixels * 1 == pixels);
        assert(cursor::take(all, pos, payload.len() as int) == Ok::<Seq<u8>, Fault>(payload));
        entries
    }
}

/// The bytes of bounds, read back.
#[verifier::rlimit(40)]
#[verifier::spinoff_prover]
pub proof fn lemma_scalars_back(found: Seq<Double>, data_type: DataType)
    ensures
        encoder::scalars_bytes(found, data_type).len() == found.len() * data_type.width(),
        values::doubles_of(encoder::scalars_bytes(found, data_type), data_type).len()
            == found.len(),
        forall|i: int|
            0 <= i < found.len() ==> #[trigger] values::doubles_of(
                encoder::scalars_bytes(found, data_type),
                data_type,
            )[i] == values::coerced(found[i], data_type),
    decreases found.len(),
{
    let w = data_type.width();
    let all = encoder::scalars_bytes(found, data_type);
    if found.len() == 0 {
        assert(0 * w == 0) by (nonlinear_arith);
        lemma_div_multiples_vanish(0, w as int);
    } else {
        let front = found.drop_last();
        lemma_scalars_back(front, data_type);
        tile_laws::lemma_scalar_roundtrip(found.last(), data_type);
        let before = encoder::scalars_bytes(front, data_type);
        let n = front.len();
        assert(n * w + w == found.len() * w) by (nonlinear_arith)
            requires
                found.len() == n + 1,
        ;
        lemma_mul_is_commutative(found.len() as int, w as int);
        lemma_mul_is_commutative(n as int, w as int);
        lemma_div_multiples_vanish(found.len() as int, w as int);
        lemma_div_multiples_vanish(n as int, w as int);
        assert forall|i: int| 0 <= i < found.len() implies #[trigger] values::doubles_of(
            all,
            data_type,
        )[i] == values::coerced(found[i], data_type) by {
            assert((i + 1) * w == i * w + w) by (nonlinear_arith);
            if i < n {
                assert((i + 1) * w <= n * w && 0 <= i * w) by (nonlinear_arith)
                    requires
                        0 <= i,
                        i + 1 <= n,
                        w >= 0,
                ;
                assert(values::chunk(all, i, w as int) =~= values::chunk(before, i, w as int));
                assert(values::doubles_of(before, data_type)[i] == values::coerced(
                    front[i],
                    data_type,
                ));
            } else {
                assert(values::chunk(all, i, w as int) =~= values::scalar_bytes(
                    found.last(),
                    data_type,
                ));
            }
        }
    }
}

/// Reading the bounds of a blob gives them back.
pub proof fn law_ranges_read<T: Sample>(
    found: Findings<T>,
    frame: Frame,
    h: Lerc2Header,
    all: Seq<u8>,
    pos: int,
)
    requires
        body_laws::sound(found, frame),
        body_laws::describes(h, found, frame, h.version),
        h.version >= 4,
        all.len() <= usize::MAX,
        bytes::stands_at(all, pos, encoder::ranges_bytes(found.ranges, T::kind())),
    ensures
        lerc2::ranges_read(h, all, pos) == Ok::<
            (Option<(Seq<Double>, Seq<Double>)>, int),
            Fault,
        >((found.ranges, pos + encoder::ranges_bytes(found.ranges, T::kind()).len())),
{
    match found.ranges {
        None => {},
        Some((low, high)) => {
            let kind = T::kind();
            let a = encoder::scalars_bytes(low, kind);
            let b = encoder::scalars_bytes(high, kind);
            lemma_scalars_back(low, kind);
            lemma_scalars_back(high, kind);
            bytes::lemma_stands_split(all, pos, a, b);
            let len = h.depth as nat * kind.width();
            assert(a.len() == len && b.len() == len);
            assert(cursor::take(all, pos, len as int) == Ok::<Seq<u8>, Fault>(a));
            assert(cursor::take(all, pos + len, len as int) == Ok::<Seq<u8>, Fault>(b));
            assert forall|d: int| 0 <= d < low.len() implies #[trigger] values::doubles_of(
                a,
                kind,
            )[d] == low[d] by {
                assert(body_laws::bounds_kept::<T>(low[d], high[d]));
            }
            assert(values::doubles_of(a, kind) =~= low);
            assert forall|d: int| 0 <= d < high.len() implies #[trigger] values::doubles_of(
                b,
                kind,
            )[d] == high[d] by {
                assert(body_laws::bounds_kept::<T>(low[d], high[d]));
            }
            assert(values::doubles_of(b, kind) =~= high);
            assert(lerc2::all_finite(low)) by {
                assert forall|d: int| 0 <= d < low.len() implies (#[trigger] low[d]).finite() by {
                    assert(body_laws::bounds_kept::<T>(low[d], high[d]));
                }
            }
            assert(lerc2::all_finite(high)) by {
                assert forall|d: int| 0 <= d < high.len() implies (#[trigger] high[d]).finite() by {
                    assert(body_laws::bounds_kept::<T>(low[d], high[d]));
                }
            }
            assert(!lerc2::some_crossed(low, high)) by {
                assert forall|d: int| 0 <= d < low.len() implies !high[d].below(
                    #[trigger] low[d],
                ) by {
                    assert(body_laws::bounds_kept::<T>(low[d], high[d]));
                }
            }
        },
    }
}

/// What is read back of a blob.
pub struct ReadBack<T> {
    pub header: Lerc2Header,
    /// The samples as they were stored, before a sentinel is put back.
    pub samples: Seq<T>,
    pub mask: Option<Seq<u8>>,
}

/// Whether a blob was read as it was written: what its header says, which pixels are valid,
/// and every valid sample to within the error bound.
pub open spec fn read_back<T: Sample>(
    ready: Ready<T>,
    frame: Frame,
    payload: Seq<u8>,
    remaining: nat,
    read: ReadBack<T>,
) -> bool {
    let pixels = frame.pixels();
    let blank = allocation::repeated(T::zero(), pixels * frame.depth as nat);
    &&& read.header == header_of(
        ready,
        frame,
        payload,
        remaining,
        mask_kept(ready.found, pixels, payload),
    )
    &&& body_laws::masks_agree(read.mask, ready.found.mask, pixels)
    &&& blocks::mask_fits(read.mask, pixels)
    &&& tiling_laws::body_restored(
        read.header,
        ready.found.mask,
        ready.found.samples,
        blank,
        read.samples,
    )
}

/// Decoding a blob gives the raster back, whatever follows the blob.
#[verifier::rlimit(60)]
pub proof fn law_blob_roundtrip<T: Sample>(
    ready: Ready<T>,
    frame: Frame,
    payload: Seq<u8>,
    remaining: nat,
    inherited: Option<Seq<u8>>,
    limited: bool,
    behind: Seq<u8>,
) -> (read: ReadBack<T>)
    requires
        body_laws::sound(ready.found, frame),
        plan::body_planned(ready.found, frame) == Ok::<(u32, BodyShape), Fault>(
            (ready.version, ready.shape),
        ),
        payload_fits(ready.found, frame.pixels(), payload, inherited),
        encoder::blob_fault(ready, frame, payload, remaining) is None,
        ready.found.samples.len() * T::kind().width() <= allocation::MAX_DECODED_ALLOCATION_BYTES,
        encoder::blob_size(ready, frame, payload) + behind.len() <= usize::MAX,
    ensures
        read_back(ready, frame, payload, remaining, read),
        lerc2::decoded::<T>(
            encoder::blob_of(ready, frame, payload, remaining) + behind,
            inherited,
            limited,
        ) == Ok::<(types::BlobFacts, Seq<T>, Option<Seq<u8>>), Fault>(
            (
                lerc2::public_facts(read.header, ready.found.ranges),
                lerc2::remapped(
                    read.samples,
                    read.mask,
                    frame.depth as int,
                    lerc2::no_data_mapping::<T>(read.header),
                ),
                read.mask,
            ),
        ),
{
    let found = ready.found;
    let pixels = frame.pixels();
    let blob = encoder::blob_of(ready, frame, payload, remaining);
    let encoding = mask_kept(found, pixels, payload);
    let h = header_of(ready, frame, payload, remaining, encoding);
    let depth = frame.depth as nat;
    let width = T::kind().width();
    lemma_versions(ready, frame);
    lemma_blob_parts(ready, frame, payload, remaining, behind);
    lemma_sample_count(pixels, depth, width);
    let rest = encoder::rest_bytes(ready, frame, payload);
    let end = lerc2_header::header_size(ready.version);
    let m = bytes::le_bytes(payload.len(), 4);
    let ranges = encoder::ranges_bytes(found.ranges, T::kind());
    let body = plan::body_bytes(found, frame, ready.version, ready.shape);
    bytes::lemma_le_bytes_len(payload.len(), 4);
    bytes::lemma_stands_split(blob, end, m + payload + ranges, body);
    bytes::lemma_stands_split(blob, end, m + payload, ranges);
    bytes::lemma_stands_split(blob, end, m, payload);
    let entries = law_mask_read(found, frame, h, blob, end + 4, payload, inherited);
    law_header_roundtrip(ready, frame, payload, remaining, encoding, behind);
    assert(body_laws::describes(h, found, frame, ready.version));
    law_ranges_read(found, frame, h, blob, end + 4 + payload.len());
    let seen = Findings { mask: entries, ..found };
    body_laws::lemma_found_agrees(found, seen, frame);
    let blank = allocation::repeated(T::zero(), pixels * depth);
    let samples = body_laws::law_body_roundtrip(
        h,
        seen,
        frame,
        ready.version,
        ready.shape,
        blob,
        end + 4 + payload.len() + ranges.len(),
        blank,
    );
    body_laws::lemma_restored_agrees(h, entries, found.mask, found.samples, blank, samples);
    let read = ReadBack { header: h, samples, mask: entries };
    assert(lerc2::output_fault::<T>(h, limited) is None);
    assert(lerc2::payload_decoded::<T>(h, blob, end + 4, inherited) == Ok::<
        (types::BlobFacts, Seq<T>, Option<Seq<u8>>),
        Fault,
    >(
        (
            lerc2::public_facts(h, found.ranges),
            lerc2::remapped(samples, entries, h.depth as int, lerc2::no_data_mapping::<T>(h)),
            entries,
        ),
    ));
    read
}

/// A raster within the limit has no more pixels than that.
proof fn lemma_sample_count(pixels: nat, depth: nat, width: nat)
    requires
        depth > 0,
        width > 0,
    ensures
        pixels <= pixels * depth * width,
        pixels * depth <= pixels * depth * width,
{
    assert(pixels <= pixels * depth) by (nonlinear_arith)
        requires
            depth >= 1,
    ;
    let n = pixels * depth;
    assert(n <= n * width) by (nonlinear_arith)
        requires
            width >= 1,
    ;
}

/// The version of a blob is one that can be read, and knows sentinels where there is one.
pub proof fn lemma_versions<T: Sample>(ready: Ready<T>, frame: Frame)
    requires
        plan::body_planned(ready.found, frame) == Ok::<(u32, BodyShape), Fault>(
            (ready.version, ready.shape),
        ),
        ready.found.original_no_data is Some ==> ready.found.sentinel,
    ensures
        4 <= ready.version <= 6,
        ready.found.original_no_data is Some ==> ready.version >= 6,
{
}

/// A tile of the first depth is not one of differences.
proof fn lemma_first_depth<T: Sample>(
    o: TilingOptions,
    mask: Option<Seq<u8>>,
    samples: Seq<T>,
    by: nat,
    bx: nat,
    dim: nat,
)
    requires
        o.depth <= 1,
    ensures
        !tiling::some_diff(tiling::planned(o, mask, samples, by, bx, dim)),
    decreases o.down() - by, o.across() - bx, o.depth - dim,
{
    if by >= o.down() {
    } else if bx >= o.across() {
        lemma_first_depth(o, mask, samples, by + 1, 0, 0);
    } else if dim >= o.depth {
        lemma_first_depth(o, mask, samples, by, bx + 1, 0);
    } else {
        lemma_first_depth(o, mask, samples, by, bx, dim + 1);
        let rest = tiling::planned(o, mask, samples, by, bx, dim + 1);
        let tiles = tiling::planned(o, mask, samples, by, bx, dim);
        assert forall|i: int| 0 <= i < tiles.len() implies !(#[trigger] tiles[i]).shape.diff by {
            if i > 0 {
                assert(tiles[i] == rest[i - 1]);
            } else {
                let current = lerc2_body::gathered(
                    samples,
                    o.listed(mask, bx as int, by as int),
                    o.depth as int,
                    0,
                );
                tile_plan::lemma_chosen_codes(
                    values::promoted_all(current),
                    Some(values::encoded_all(current)),
                    T::kind(),
                    o.max_z_error,
                    false,
                );
            }
        }
    }
}

/// The version of a blob stands behind its signature.
proof fn lemma_version_stands(version: u32, tail: Seq<u8>)
    ensures
        lerc2_header::number_at(encoder::sealed(version, tail), 6) == version,
{
    let blob = encoder::sealed(version, tail);
    bytes::lemma_le_bytes_len(version as nat, 4);
    assert(blob.subrange(6, 10) =~= bytes::le_bytes(version as nat, 4));
    lemma_number_back(blob, 6, version as nat);
}

/// Which version a planned body is stored in.
proof fn lemma_version_planned<T: Sample>(found: Findings<T>, frame: Frame)
    requires
        plan::body_planned(found, frame) is Ok,
    ensures
        ({
            let (version, shape) = plan::body_planned(found, frame)->Ok_0;
            let stepping = shape matches BodyShape::Tiled(tiles) && tiling::some_diff(tiles);
            &&& version == (if found.sentinel {
                6u32
            } else if stepping {
                5
            } else {
                4
            })
            &&& stepping ==> frame.depth > 1
        }),
{
    if frame.depth <= 1 {
        lemma_first_depth(frame.tiling(found.max_z_error), found.mask, found.samples, 0, 0, 0);
    }
}

/// An encoded raster says in its header which version it is: the sixth where a sentinel is
/// asked for, the fifth for tiles that store differences from the depth before, which takes
/// more than one depth, and the fourth otherwise. A sentinel takes more than one depth, too.
pub proof fn law_version_written<'a, 'b, T: Sample>(
    view: RasterView<'a, T>,
    entries: Option<MaskView<'b>>,
    options: EncodeOptions,
)
    requires
        encoder::raster_encoded(view, entries, options) is Ok,
    ensures
        ({
            let blob = encoder::raster_encoded(view, entries, options)->Ok_0;
            let ready = encoder::raster_readied(view, entries, options)->Ok_0;
            let frame = encoder::raster_frame(view, options);
            let stepping = ready.shape matches BodyShape::Tiled(tiles) && tiling::some_diff(tiles);
            &&& lerc2_header::number_at(blob, 6) == ready.version
            &&& ready.version == (if options.no_data_value is Some {
                6u32
            } else if stepping {
                5
            } else {
                4
            })
            &&& options.no_data_value is Some || stepping ==> frame.depth > 1
        }),
{
    let ready = encoder::raster_readied(view, entries, options)->Ok_0;
    let frame = encoder::raster_frame(view, options);
    let payload = encoder::payload_of(ready, frame, true);
    let tail = encoder::fields_bytes(
        ready.found,
        frame,
        ready.version,
        encoder::blob_size(ready, frame, payload),
        0,
    ) + encoder::rest_bytes(ready, frame, payload);
    lemma_version_stands(ready.version, tail);
    lemma_version_planned(ready.found, frame);
}

} // verus!
