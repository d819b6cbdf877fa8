//! The body of a Lerc2 blob: how the samples of the valid pixels are read.

use crate::allocation;
use crate::allocation::filled;
use crate::blocks;
use crate::blocks::{list_block, list_run, scatter};
use crate::cursor;
use crate::cursor::Cursor;
use crate::error::{Error, Fault, Result};
use crate::float;
use crate::float::Double;
use crate::lerc2_header::Lerc2Header;
use crate::raster;
use crate::sample::Sample;
use crate::stuffed;
use crate::stuffed::{decode_bits, value_levels};
use crate::types;
use crate::types::DataType;
use crate::values;
use crate::values::{output_value, read_scalar, read_values_as};
use vstd::prelude::*;

verus! {

/// The bits of `0.00001`.
pub const TOLERANCE_BITS: u64 = 0x3ee4_f8b5_88e3_68f1;

/// Whether an error bound is one half, give or take a hundred-thousandth.
pub open spec fn near_half(max_z_error: Double) -> bool {
    max_z_error.difference(Double { bits: float::HALF_BITS }).absolute().below(
        Double { bits: TOLERANCE_BITS },
    )
}

/// Whether integer Huffman coding is possible: 8-bit samples kept exactly.
pub open spec fn huffman_possible(data_type: DataType, max_z_error: Double) -> bool {
    (data_type == DataType::I8 || data_type == DataType::U8) && near_half(max_z_error)
}

/// Whether the body says how it is encoded.
pub open spec fn has_mode(data_type: DataType, max_z_error: Double, version: u32) -> bool {
    huffman_possible(data_type, max_z_error) || (version >= 6 && !data_type.integer()
        && max_z_error.same(Double { bits: 0 }))
}

/// Whether an error bound is one half, give or take a hundred-thousandth.
pub fn is_near_half(max_z_error: Double) -> (r: bool)
    ensures
        r == near_half(max_z_error),
{
    max_z_error.minus(Double { bits: float::HALF_BITS }).abs().less_than(
        Double { bits: TOLERANCE_BITS },
    )
}

/// Whether integer Huffman coding is possible.
pub fn supports_integer_huffman(data_type: DataType, max_z_error: Double) -> (r: bool)
    ensures
        r == huffman_possible(data_type, max_z_error),
{
    (data_type == DataType::I8 || data_type == DataType::U8) && is_near_half(max_z_error)
}

/// Whether the body says how it is encoded.
pub fn needs_encode_mode_flag(data_type: DataType, max_z_error: Double, version: u32) -> (r: bool)
    ensures
        r == has_mode(data_type, max_z_error, version),
{
    supports_integer_huffman(data_type, max_z_error) || (version >= 6 && !data_type.is_integer()
        && max_z_error.equals(Double { bits: 0 }))
}

/// The type that an offset is stored in, by the type of the raster and a reduction code.
pub open spec fn reduced_code(data_type: DataType, tc: int) -> int {
    let code = data_type.number() as int;
    if code == 2 || code == 4 {
        code - tc
    } else if code == 3 || code == 5 {
        code - 2 * tc
    } else if code == 6 {
        if tc == 0 {
            6
        } else if tc == 1 {
            2
        } else {
            1
        }
    } else if code == 7 {
        if tc == 0 {
            7
        } else {
            8 - 2 * tc
        }
    } else {
        code
    }
}

/// The type that an offset is stored in.
pub fn data_type_used(data_type: DataType, tc: u8) -> (r: Result<DataType>)
    ensures
        match r {
            Ok(used) => types::type_of_code(reduced_code(data_type, tc as int)) == Some(used),
            Err(e) => types::type_of_code(reduced_code(data_type, tc as int)) is None && e@
                == types::type_code_fault(reduced_code(data_type, tc as int)),
        },
{
    let code: i32 = data_type.code() as i32;
    let t: i32 = tc as i32;
    let reduced: i32 = if code == 2 || code == 4 {
        code - t
    } else if code == 3 || code == 5 {
        code - 2 * t
    } else if code == 6 {
        if t == 0 {
            6
        } else if t == 1 {
            2
        } else {
            1
        }
    } else if code == 7 {
        if t == 0 {
            7
        } else {
            8 - 2 * t
        }
    } else {
        code
    };
    DataType::from_code(reduced)
}

/// The samples of each depth.
pub struct DepthRanges {
    pub min_values: Vec<Double>,
    pub max_values: Vec<Double>,
}

/// The largest value of a depth: from the ranges where they are stored.
pub open spec fn depth_max(h: Lerc2Header, ranges: Option<(Seq<Double>, Seq<Double>)>, dim: int) -> Double {
    match ranges {
        Some((_, max_values)) => max_values[dim],
        None => h.z_max,
    }
}

/// The contents of optional ranges.
pub open spec fn ranges_seq(ranges: Option<DepthRanges>) -> Option<(Seq<Double>, Seq<Double>)> {
    match ranges {
        Some(r) => Some((r.min_values@, r.max_values@)),
        None => None,
    }
}

/// Whether there is a pair of bounds for every depth.
pub open spec fn ranges_fit(ranges: Option<(Seq<Double>, Seq<Double>)>, depth: nat) -> bool {
    match ranges {
        Some((min_values, max_values)) => min_values.len() == depth && max_values.len() == depth,
        None => true,
    }
}

/// The samples of the listed pixels at one depth.
pub open spec fn gathered<T>(samples: Seq<T>, pixels: Seq<int>, depth: int, dim: int) -> Seq<T> {
    Seq::new(pixels.len(), |i: int| samples[pixels[i] * depth + dim])
}

/// Two bits at the top of a tile header select the type of its offset; two at the bottom the
/// encoding; those between repeat part of the column, or flag a difference from version 5 on.
pub open spec fn tile_check_ok(header: u8, version: u32, x: int) -> bool {
    if version >= 5 {
        (header / 8) % 8 == (x / 16) % 8
    } else {
        (header / 4) % 16 == (x / 8) % 16
    }
}

/// Whether a tile stores differences from the depth before.
pub open spec fn tile_is_diff(header: u8, version: u32) -> bool {
    version >= 5 && (header / 4) % 2 == 1
}

/// A value added to the sample of the depth before, limited by the largest value.
pub open spec fn stepped<T: Sample>(
    value: Double,
    previous: Option<Seq<T>>,
    i: int,
    z_max: Double,
    first: bool,
) -> Double {
    match previous {
        None => value,
        Some(prev) => if first {
            prev[i].promoted().sum(value).lesser(z_max)
        } else {
            value.sum(prev[i].promoted()).lesser(z_max)
        },
    }
}

/// The outcome of reading the part of a tile behind its offset.
pub open spec fn stuffed_tile<T: Sample>(
    h: Lerc2Header,
    z_max: Double,
    all: Seq<u8>,
    pos: int,
    offset: Double,
    previous: Option<Seq<T>>,
    count: nat,
    capacity: nat,
) -> std::result::Result<(Seq<T>, int), Fault> {
    let scale = Double { bits: float::TWO_BITS }.product(h.max_z_error);
    let limit = if previous is Some {
        Double { bits: float::DOUBLE_INFINITY }
    } else {
        z_max
    };
    match stuffed::levels_decoded(all, pos, h.version, capacity, true) {
        Err(e) => Err(e),
        Ok((levels, next)) => if levels.len() != count {
            Err(
                Fault::InvalidBlob(
                    "bit-stuffed tile block value count does not match the block mask"@,
                ),
            )
        } else {
            let found = stuffed::level_values(offset, scale, limit, levels);
            Ok(
                (
                    Seq::new(
                        count,
                        |i: int|
                            values::output::<T>(
                                stepped(found[i], previous, i, z_max, false),
                                h.data_type,
                            ),
                    ),
                    next,
                ),
            )
        },
    }
}

/// The outcome of reading a tile with an offset.
pub open spec fn offset_tile<T: Sample>(
    h: Lerc2Header,
    z_max: Double,
    all: Seq<u8>,
    pos: int,
    header: u8,
    previous: Option<Seq<T>>,
    count: nat,
    capacity: nat,
) -> std::result::Result<(Seq<T>, int), Fault> {
    let base = if previous is Some && h.data_type.integer() {
        DataType::I32
    } else {
        h.data_type
    };
    let code = reduced_code(base, (header / 64) as int);
    match types::type_of_code(code) {
        None => Err(types::type_code_fault(code)),
        Some(used) => match cursor::take(all, pos, used.width() as int) {
            Err(e) => Err(e),
            Ok(field) => {
                let offset = values::scalar_value(field, used);
                let next = pos + used.width();
                if header % 4 == 3 {
                    Ok(
                        (
                            Seq::new(
                                count,
                                |i: int|
                                    values::output::<T>(
                                        stepped(offset, previous, i, z_max, true),
                                        h.data_type,
                                    ),
                            ),
                            next,
                        ),
                    )
                } else {
                    stuffed_tile(h, z_max, all, next, offset, previous, count, capacity)
                }
            },
        },
    }
}

/// The outcome of reading one tile at one depth: the samples of its valid pixels and the
/// position behind it. `previous` holds the samples of the depth before, if there is one.
pub open spec fn tile_read<T: Sample>(
    h: Lerc2Header,
    z_max: Double,
    all: Seq<u8>,
    pos: int,
    x: int,
    previous: Option<Seq<T>>,
    count: nat,
    capacity: nat,
) -> std::result::Result<(Seq<T>, int), Fault> {
    match cursor::take_u8(all, pos) {
        Err(e) => Err(e),
        Ok(header) => if !tile_check_ok(header, h.version, x) {
            Err(Fault::InvalidBlob("tile block integrity check failed"@))
        } else if tile_is_diff(header, h.version) && previous is None {
            Err(Fault::InvalidBlob("diff-encoded tile block encountered in first dimension"@))
        } else {
            let before = if tile_is_diff(header, h.version) {
                previous
            } else {
                None
            };
            if header % 4 == 2 {
                match before {
                    Some(prev) => Ok((prev, pos + 1)),
                    None => Ok((allocation::repeated(T::zero(), count), pos + 1)),
                }
            } else if header % 4 == 0 {
                if before is Some {
                    Err(Fault::InvalidBlob("uncompressed diff-encoded tile block is invalid"@))
                } else {
                    let len = count * h.data_type.width();
                    match cursor::take(all, pos + 1, len as int) {
                        Err(e) => Err(e),
                        Ok(data) => Ok((values::converted::<T>(data, h.data_type), pos + 1 + len)),
                    }
                }
            } else {
                offset_tile(h, z_max, all, pos + 1, header, before, count, capacity)
            }
        },
    }
}

/// The number of blocks of `micro` pixels along `extent`.
pub open spec fn block_count(extent: int, micro: int) -> int {
    (extent + micro - 1) / micro
}

/// The extent of block `b`.
pub open spec fn block_extent(extent: int, micro: int, b: int) -> int {
    if extent - b * micro < micro {
        extent - b * micro
    } else {
        micro
    }
}

/// The valid pixels of a block.
pub open spec fn tile_pixels(h: Lerc2Header, mask: Option<Seq<u8>>, bx: int, by: int) -> Seq<int> {
    let micro = h.micro_block_size as int;
    blocks::block_pixels(
        mask,
        h.width as int,
        bx * micro,
        by * micro,
        block_extent(h.width as int, micro, bx) as nat,
        block_extent(h.height as int, micro, by) as nat,
    )
}

/// The most values that a block can have.
pub open spec fn tile_capacity(h: Lerc2Header) -> nat {
    let micro = h.micro_block_size as int;
    (block_extent(h.width as int, micro, 0) * block_extent(h.height as int, micro, 0)) as nat
}

/// The outcome of reading all tiles from block (`bx`, `by`) and depth `dim` on.
pub open spec fn tiles_read<T: Sample>(
    h: Lerc2Header,
    ranges: Option<(Seq<Double>, Seq<Double>)>,
    mask: Option<Seq<u8>>,
    all: Seq<u8>,
    by: nat,
    bx: nat,
    dim: nat,
    samples: Seq<T>,
    pos: int,
) -> std::result::Result<(Seq<T>, int), Fault>
    decreases
            block_count(h.height as int, h.micro_block_size as int) - by,
            block_count(h.width as int, h.micro_block_size as int) - bx,
            h.depth - dim,
{
    let micro = h.micro_block_size as int;
    let depth = h.depth as int;
    if by >= block_count(h.height as int, micro) {
        Ok((samples, pos))
    } else if bx >= block_count(h.width as int, micro) {
        tiles_read(h, ranges, mask, all, by + 1, 0, 0, samples, pos)
    } else if dim >= depth {
        tiles_read(h, ranges, mask, all, by, bx + 1, 0, samples, pos)
    } else {
        let list = tile_pixels(h, mask, bx as int, by as int);
        let previous = if dim == 0 {
            None
        } else {
            Some(gathered(samples, list, depth, dim - 1))
        };
        match tile_read(
            h,
            depth_max(h, ranges, dim as int),
            all,
            pos,
            bx * micro,
            previous,
            list.len(),
            tile_capacity(h),
        ) {
            Err(e) => Err(e),
            Ok((found, next)) => tiles_read(
                h,
                ranges,
                mask,
                all,
                by,
                bx,
                dim + 1,
                blocks::scattered(samples, list, found, depth, dim as int, list.len()),
                next,
            ),
        }
    }
}

/// Where reading a tile with an offset stops when it fails.
pub open spec fn offset_stop(
    h: Lerc2Header,
    all: Seq<u8>,
    pos: int,
    header: u8,
    diff: bool,
    capacity: nat,
) -> int {
    let base = if diff && h.data_type.integer() {
        DataType::I32
    } else {
        h.data_type
    };
    match types::type_of_code(reduced_code(base, (header / 64) as int)) {
        None => pos,
        Some(used) => if cursor::take(all, pos, used.width() as int) is Err {
            pos
        } else {
            let next = pos + used.width();
            match stuffed::levels_decoded(all, next, h.version, capacity, true) {
                Err(_) => stuffed::levels_stop(all, next, capacity, true),
                Ok((_, end)) => end,
            }
        },
    }
}

/// Where reading one tile at one depth stops when it fails; `later` says that there is a depth
/// before it.
pub open spec fn tile_stop(
    h: Lerc2Header,
    all: Seq<u8>,
    pos: int,
    x: int,
    later: bool,
    capacity: nat,
) -> int {
    match cursor::take_u8(all, pos) {
        Err(_) => pos,
        Ok(header) => {
            let diff = tile_is_diff(header, h.version);
            if !tile_check_ok(header, h.version, x) || (diff && !later) || header % 4 == 0 || header
                % 4 == 2 {
                pos + 1
            } else {
                offset_stop(h, all, pos + 1, header, diff, capacity)
            }
        },
    }
}

/// What is left when reading tiles from block (`bx`, `by`) and depth `dim` on fails: the samples
/// of the tiles that were read, and the position.
pub open spec fn tiles_stop<T: Sample>(
    h: Lerc2Header,
    ranges: Option<(Seq<Double>, Seq<Double>)>,
    mask: Option<Seq<u8>>,
    all: Seq<u8>,
    by: nat,
    bx: nat,
    dim: nat,
    samples: Seq<T>,
    pos: int,
) -> (Seq<T>, int)
    decreases
            block_count(h.height as int, h.micro_block_size as int) - by,
            block_count(h.width as int, h.micro_block_size as int) - bx,
            h.depth - dim,
{
    let micro = h.micro_block_size as int;
    let depth = h.depth as int;
    if by >= block_count(h.height as int, micro) {
        (samples, pos)
    } else if bx >= block_count(h.width as int, micro) {
        tiles_stop(h, ranges, mask, all, by + 1, 0, 0, samples, pos)
    } else if dim >= depth {
        tiles_stop(h, ranges, mask, all, by, bx + 1, 0, samples, pos)
    } else {
        let list = tile_pixels(h, mask, bx as int, by as int);
        let previous = if dim == 0 {
            None
        } else {
            Some(gathered(samples, list, depth, dim - 1))
        };
        match tile_read(
            h,
            depth_max(h, ranges, dim as int),
            all,
            pos,
            bx * micro,
            previous,
            list.len(),
            tile_capacity(h),
        ) {
            Err(_) => (samples, tile_stop(h, all, pos, bx * micro, dim > 0, tile_capacity(h))),
            Ok((found, next)) => tiles_stop(
                h,
                ranges,
                mask,
                all,
                by,
                bx,
                dim + 1,
                blocks::scattered(samples, list, found, depth, dim as int, list.len()),
                next,
            ),
        }
    }
}

/// Reads the samples of the listed pixels at one depth.
pub fn gather<T: Sample>(samples: &Vec<T>, pixels: &Vec<usize>, depth: usize, dim: usize, total: usize) -> (r: Vec<T>)
    requires
        dim < depth,
        samples@.len() == total * depth,
        forall|i: int| 0 <= i < pixels@.len() ==> #[trigger] pixels@[i] < total,
    ensures
        r@ == gathered(samples@, pixels@.map_values(|p: usize| p as int), depth as int, dim as int),
{
    let ghost list = pixels@.map_values(|p: usize| p as int);
    let len: usize = samples.len();
    let mut out: Vec<T> = Vec::with_capacity(pixels.len());
    let mut i: usize = 0;
    while i < pixels.len()
        invariant
            i <= pixels@.len(),
            dim < depth,
            len == samples@.len(),
            len == total * depth,
            list == pixels@.map_values(|p: usize| p as int),
            forall|j: int| 0 <= j < pixels@.len() ==> #[trigger] pixels@[j] < total,
            out@ =~= gathered(samples@, list, depth as int, dim as int).subrange(0, i as int),
        decreases pixels@.len() - i,
    {
        let pixel: usize = pixels[i];
        proof {
            raster::lemma_sample_index(pixel as nat, depth as nat, dim as nat, total as nat);
        }
        out.push(samples[raster::sample_index(pixel, depth, dim)]);
        i += 1;
    }
    proof {
        assert(out@ =~= gathered(samples@, list, depth as int, dim as int));
    }
    out
}

/// The contents of optional samples.
pub open spec fn samples_seq<T>(values: Option<&Vec<T>>) -> Option<Seq<T>> {
    match values {
        Some(v) => Some(v@),
        None => None,
    }
}

fn read_stuffed_tile<T: Sample>(
    cursor: &mut Cursor,
    h: &Lerc2Header,
    z_max: Double,
    offset: Double,
    previous: Option<&Vec<T>>,
    count: usize,
    capacity: usize,
) -> (r: Result<Vec<T>>)
    requires
        old(cursor).wf(),
        capacity <= 1024,
        samples_seq(previous) matches Some(prev) ==> prev.len() == count,
    ensures
        final(cursor).wf(),
        final(cursor).all() == old(cursor).all(),
        match r {
            Ok(found) => stuffed_tile(
                *h,
                z_max,
                old(cursor).all(),
                old(cursor).at(),
                offset,
                samples_seq(previous),
                count as nat,
                capacity as nat,
            ) == Ok::<_, Fault>((found@, final(cursor).at())),
            Err(e) => {
                &&& stuffed_tile(
                    *h,
                    z_max,
                    old(cursor).all(),
                    old(cursor).at(),
                    offset,
                    samples_seq(previous),
                    count as nat,
                    capacity as nat,
                ) == Err::<(Seq<T>, int), _>(e@)
                &&& final(cursor).at() == match stuffed::levels_decoded(
                    old(cursor).all(),
                    old(cursor).at(),
                    h.version,
                    capacity as nat,
                    true,
                ) {
                    Err(_) => stuffed::levels_stop(
                        old(cursor).all(),
                        old(cursor).at(),
                        capacity as nat,
                        true,
                    ),
                    Ok((_, end)) => end,
                }
            },
        },
{
    let scale = Double { bits: float::TWO_BITS }.times(h.max_z_error);
    let limit = if previous.is_some() { Double { bits: float::DOUBLE_INFINITY } } else { z_max };
    let levels: Vec<Option<u32>> = decode_bits(cursor, h.version, capacity, true)?;
    if levels.len() != count {
        return Err(
            Error::invalid_blob("bit-stuffed tile block value count does not match the block mask"),
        );
    }
    let found: Vec<Double> = value_levels(offset, scale, limit, &levels);
    let ghost target = Seq::new(
        count as nat,
        |i: int|
            values::output::<T>(
                stepped(found@[i], samples_seq(previous), i, z_max, false),
                h.data_type,
            ),
    );
    let mut out: Vec<T> = Vec::with_capacity(count);
    let mut i: usize = 0;
    while i < count
        invariant
            i <= count,
            found@.len() == count,
            samples_seq(previous) matches Some(prev) ==> prev.len() == count,
            target.len() == count,
            forall|j: int|
                0 <= j < count ==> #[trigger] target[j] == values::output::<T>(
                    stepped(found@[j], samples_seq(previous), j, z_max, false),
                    h.data_type,
                ),
            out@ =~= target.subrange(0, i as int),
        decreases count - i,
    {
        let value = match previous {
            Some(prev) => found[i].plus(prev[i].to_f64()).min(z_max),
            None => found[i],
        };
        out.push(output_value::<T>(value, h.data_type));
        i += 1;
    }
    proof {
        assert(out@ =~= target);
    }
    Ok(out)
}

fn read_offset_tile<T: Sample>(
    cursor: &mut Cursor,
    h: &Lerc2Header,
    z_max: Double,
    header: u8,
    previous: Option<&Vec<T>>,
    count: usize,
    capacity: usize,
) -> (r: Result<Vec<T>>)
    requires
        old(cursor).wf(),
        capacity <= 1024,
        samples_seq(previous) matches Some(prev) ==> prev.len() == count,
    ensures
        final(cursor).wf(),
        final(cursor).all() == old(cursor).all(),
        match r {
            Ok(found) => offset_tile(
                *h,
                z_max,
                old(cursor).all(),
                old(cursor).at(),
                header,
                samples_seq(previous),
                count as nat,
                capacity as nat,
            ) == Ok::<_, Fault>((found@, final(cursor).at())),
            Err(e) => {
                &&& offset_tile(
                    *h,
                    z_max,
                    old(cursor).all(),
                    old(cursor).at(),
                    header,
                    samples_seq(previous),
                    count as nat,
                    capacity as nat,
                ) == Err::<(Seq<T>, int), _>(e@)
                &&& final(cursor).at() == offset_stop(
                    *h,
                    old(cursor).all(),
                    old(cursor).at(),
                    header,
                    previous is Some,
                    capacity as nat,
                )
            },
        },
{
    let base: DataType = if previous.is_some() && h.data_type.is_integer() {
        DataType::I32
    } else {
        h.data_type
    };
    let used: DataType = data_type_used(base, header / 64)?;
    let field: &[u8] = cursor.read_bytes(used.byte_len())?;
    let offset = read_scalar(field, used)?;
    if header % 4 != 3 {
        return read_stuffed_tile(cursor, h, z_max, offset, previous, count, capacity);
    }
    let ghost target = Seq::new(
        count as nat,
        |i: int|
            values::output::<T>(
                stepped(offset, samples_seq(previous), i, z_max, true),
                h.data_type,
            ),
    );
    let mut out: Vec<T> = Vec::with_capacity(count);
    let mut i: usize = 0;
    while i < count
        invariant
            i <= count,
            samples_seq(previous) matches Some(prev) ==> prev.len() == count,
            target.len() == count,
            forall|j: int|
                0 <= j < count ==> #[trigger] target[j] == values::output::<T>(
                    stepped(offset, samples_seq(previous), j, z_max, true),
                    h.data_type,
                ),
            out@ =~= target.subrange(0, i as int),
        decreases count - i,
    {
        let value = match previous {
            Some(prev) => prev[i].to_f64().plus(offset).min(z_max),
            None => offset,
        };
        out.push(output_value::<T>(value, h.data_type));
        i += 1;
    }
    proof {
        assert(out@ =~= target);
    }
    Ok(out)
}

/// Reads one tile at one depth.
fn read_tile<T: Sample>(
    cursor: &mut Cursor,
    h: &Lerc2Header,
    z_max: Double,
    x: usize,
    previous: Option<&Vec<T>>,
    count: usize,
    capacity: usize,
) -> (r: Result<Vec<T>>)
    requires
        old(cursor).wf(),
        capacity <= 1024,
        count <= 1024,
        samples_seq(previous) matches Some(prev) ==> prev.len() == count,
    ensures
        final(cursor).wf(),
        final(cursor).all() == old(cursor).all(),
        match r {
            Ok(found) => tile_read(
                *h,
                z_max,
                old(cursor).all(),
                old(cursor).at(),
                x as int,
                samples_seq(previous),
                count as nat,
                capacity as nat,
            ) == Ok::<_, Fault>((found@, final(cursor).at())) && found@.len() == count,
            Err(e) => {
                &&& tile_read(
                    *h,
                    z_max,
                    old(cursor).all(),
                    old(cursor).at(),
                    x as int,
                    samples_seq(previous),
                    count as nat,
                    capacity as nat,
                ) == Err::<(Seq<T>, int), _>(e@)
                &&& final(cursor).at() == tile_stop(
                    *h,
                    old(cursor).all(),
                    old(cursor).at(),
                    x as int,
                    previous is Some,
                    capacity as nat,
                )
            },
        },
{
    let header: u8 = cursor.read_u8()?;
    let checked = if h.version >= 5 {
        (header / 8) % 8 == ((x / 16) % 8) as u8
    } else {
        (header / 4) % 16 == ((x / 8) % 16) as u8
    };
    if !checked {
        return Err(Error::invalid_blob("tile block integrity check failed"));
    }
    let is_diff = h.version >= 5 && (header / 4) % 2 == 1;
    if is_diff && previous.is_none() {
        return Err(Error::invalid_blob("diff-encoded tile block encountered in first dimension"));
    }
    let before: Option<&Vec<T>> = if is_diff { previous } else { None };
    let encoding: u8 = header % 4;
    if encoding == 2 {
        return match before {
            Some(prev) => Ok(crate::types::copy_vec(prev.as_slice())),
            None => Ok(filled(T::default_value(), count)),
        };
    }
    if encoding == 0 {
        if before.is_some() {
            return Err(Error::invalid_blob("uncompressed diff-encoded tile block is invalid"));
        }
        let width: usize = h.data_type.byte_len();
        proof {
            assert(0 <= count * width <= 1024 * 8) by (nonlinear_arith)
                requires
                    count <= 1024,
                    width <= 8,
            ;
            vstd::arithmetic::div_mod::lemma_mod_multiples_basic(count as int, width as int);
            vstd::arithmetic::div_mod::lemma_div_multiples_vanish(count as int, width as int);
            vstd::arithmetic::mul::lemma_mul_is_commutative(count as int, width as int);
        }
        let data: &[u8] = cursor.read_bytes(count * width)?;
        return read_values_as::<T>(data, h.data_type);
    }
    read_offset_tile(cursor, h, z_max, header, before, count, capacity)
}

/// Blocks cover an extent: every block begins inside it.
pub proof fn lemma_block_extent(extent: int, micro: int, b: int)
    requires
        micro > 0,
        extent > 0,
        0 <= b < block_count(extent, micro),
    ensures
        0 <= b * micro < extent,
        1 <= block_extent(extent, micro, b) <= micro,
        b * micro + block_extent(extent, micro, b) <= extent,
{
    let n = block_count(extent, micro);
    vstd::arithmetic::div_mod::lemma_fundamental_div_mod(extent + micro - 1, micro);
    assert(b * micro < extent) by (nonlinear_arith)
        requires
            b + 1 <= n,
            extent + micro - 1 == micro * n + (extent + micro - 1) % micro,
            0 <= (extent + micro - 1) % micro,
            micro > 0,
    ;
    assert(0 <= b * micro) by (nonlinear_arith)
        requires
            0 <= b,
            micro > 0,
    ;
}

/// The quotient of two numbers, rounded up.
pub fn div_up(extent: usize, micro: usize) -> (r: usize)
    requires
        micro > 0,
        extent <= 0xffff_ffff,
        micro <= 32,
    ensures
        r == block_count(extent as int, micro as int),
{
    proof {
        lemma_div_up(extent as int, micro as int);
    }
    extent / micro + if extent % micro != 0 { 1 } else { 0 }
}

pub proof fn lemma_div_up(extent: int, micro: int)
    requires
        micro > 0,
        extent >= 0,
    ensures
        block_count(extent, micro) == extent / micro + if extent % micro != 0 {
            1int
        } else {
            0int
        },
        0 <= extent / micro <= extent,
        extent % micro != 0 ==> extent / micro < extent,
{
    let q = extent / micro;
    let r = extent % micro;
    vstd::arithmetic::div_mod::lemma_fundamental_div_mod(extent, micro);
    vstd::arithmetic::div_mod::lemma_div_pos_is_pos(extent, micro);
    assert(r > 0 ==> q < extent) by (nonlinear_arith)
        requires
            extent == micro * q + r,
            micro >= 1,
            q >= 0,
    ;
    vstd::arithmetic::div_mod::lemma_div_nonincreasing(extent, micro);
    vstd::arithmetic::div_mod::lemma_div_pos_is_pos(extent, micro);
    assert((q + 1) * micro == micro * q + micro && q * micro == micro * q) by (nonlinear_arith);
    if r != 0 {
        vstd::arithmetic::div_mod::lemma_fundamental_div_mod_converse(
            extent + micro - 1,
            micro,
            q + 1,
            r - 1,
        );
    } else {
        vstd::arithmetic::div_mod::lemma_fundamental_div_mod_converse(
            extent + micro - 1,
            micro,
            q,
            micro - 1,
        );
    }
}

/// The bounds of a tile's pixels.
pub proof fn lemma_tile_pixels(h: Lerc2Header, mask: Option<Seq<u8>>, bx: int, by: int)
    requires
        h.wf(),
        0 <= bx < block_count(h.width as int, h.micro_block_size as int),
        0 <= by < block_count(h.height as int, h.micro_block_size as int),
    ensures
        tile_pixels(h, mask, bx, by).len() <= 1024,
        forall|i: int|
            0 <= i < tile_pixels(h, mask, bx, by).len() ==> 0 <= #[trigger] tile_pixels(
                h,
                mask,
                bx,
                by,
            )[i] < h.pixels(),
        forall|i: int, j: int|
            #![trigger tile_pixels(h, mask, bx, by)[i], tile_pixels(h, mask, bx, by)[j]]
            0 <= i < j < tile_pixels(h, mask, bx, by).len() ==> tile_pixels(h, mask, bx, by)[i]
                < tile_pixels(h, mask, bx, by)[j],
{
    let micro = h.micro_block_size as int;
    lemma_block_extent(h.width as int, micro, bx);
    lemma_block_extent(h.height as int, micro, by);
    let cols = block_extent(h.width as int, micro, bx) as nat;
    let rows = block_extent(h.height as int, micro, by) as nat;
    blocks::lemma_block_pixels(
        mask,
        h.width as nat,
        h.height as nat,
        (bx * micro) as nat,
        (by * micro) as nat,
        cols,
        rows,
    );
    assert(cols * rows <= 1024) by (nonlinear_arith)
        requires
            cols <= 32,
            rows <= 32,
    ;
}

/// Reads all tiles.
#[verifier::rlimit(80)]
#[verifier::spinoff_prover]
pub fn decode_tiles<T: Sample>(
    cursor: &mut Cursor,
    h: &Lerc2Header,
    ranges: &Option<DepthRanges>,
    mask: Option<&[u8]>,
    samples: &mut Vec<T>,
) -> (r: Result<()>)
    requires
        old(cursor).wf(),
        h.wf(),
        ranges_fit(ranges_seq(*ranges), h.depth as nat),
        blocks::mask_fits(blocks::mask_seq(mask), h.pixels()),
        old(samples)@.len() == h.pixels() * h.depth,
    ensures
        final(cursor).wf(),
        final(cursor).all() == old(cursor).all(),
        final(samples)@.len() == old(samples)@.len(),
        match r {
            Ok(_) => tiles_read(
                *h,
                ranges_seq(*ranges),
                blocks::mask_seq(mask),
                old(cursor).all(),
                0,
                0,
                0,
                old(samples)@,
                old(cursor).at(),
            ) == Ok::<_, Fault>((final(samples)@, final(cursor).at())),
            Err(e) => {
                &&& tiles_read(
                    *h,
                    ranges_seq(*ranges),
                    blocks::mask_seq(mask),
                    old(cursor).all(),
                    0,
                    0,
                    0,
                    old(samples)@,
                    old(cursor).at(),
                ) == Err::<(Seq<T>, int), _>(e@)
                &&& (final(samples)@, final(cursor).at()) == tiles_stop(
                    *h,
                    ranges_seq(*ranges),
                    blocks::mask_seq(mask),
                    old(cursor).all(),
                    0,
                    0,
                    0,
                    old(samples)@,
                    old(cursor).at(),
                )
            },
        },
{
    let width: usize = h.width as usize;
    let height: usize = h.height as usize;
    let depth: usize = h.depth as usize;
    let micro: usize = h.micro_block_size as usize;
    let total: usize = width * height;
    let blocks_x: usize = div_up(width, micro);
    let blocks_y: usize = div_up(height, micro);
    let cols0: usize = if width < micro { width } else { micro };
    let rows0: usize = if height < micro { height } else { micro };
    proof {
        assert(0 <= cols0 * rows0 <= 1024) by (nonlinear_arith)
            requires
                cols0 <= 32,
                rows0 <= 32,
        ;
        assert(0 * micro == 0) by (nonlinear_arith);
    }
    let capacity: usize = cols0 * rows0;
    let ghost entries = blocks::mask_seq(mask);
    let ghost bounds = ranges_seq(*ranges);
    let ghost all = cursor.all();
    let ghost whole = tiles_read(*h, bounds, entries, all, 0, 0, 0, samples@, cursor.at());
    let ghost stopped = tiles_stop(*h, bounds, entries, all, 0, 0, 0, samples@, cursor.at());
    let mut by: usize = 0;
    while by < blocks_y
        invariant
            h.wf(),
            cursor.wf(),
            cursor.all() == all,
            all == old(cursor).all(),
            old(samples)@.len() == total * depth,
            whole == tiles_read(
                *h,
                bounds,
                blocks::mask_seq(mask),
                all,
                0,
                0,
                0,
                old(samples)@,
                old(cursor).at(),
            ),
            stopped == tiles_stop(
                *h,
                bounds,
                blocks::mask_seq(mask),
                all,
                0,
                0,
                0,
                old(samples)@,
                old(cursor).at(),
            ),
            width == h.width,
            height == h.height,
            depth == h.depth,
            micro == h.micro_block_size,
            total == width * height,
            blocks_x == block_count(width as int, micro as int),
            blocks_y == block_count(height as int, micro as int),
            capacity == tile_capacity(*h),
            capacity <= 1024,
            entries == blocks::mask_seq(mask),
            blocks::mask_fits(entries, h.pixels()),
            bounds == ranges_seq(*ranges),
            ranges_fit(bounds, depth as nat),
            samples@.len() == total * depth,
            by <= blocks_y,
            whole == tiles_read(
                *h,
                bounds,
                entries,
                all,
                by as nat,
                0,
                0,
                samples@,
                cursor.at(),
            ),
            stopped == tiles_stop(
                *h,
                bounds,
                entries,
                all,
                by as nat,
                0,
                0,
                samples@,
                cursor.at(),
            ),
        decreases blocks_y - by,
    {
        proof {
            lemma_block_extent(height as int, micro as int, by as int);
        }
        let y: usize = by * micro;
        let rows: usize = if height - y < micro { height - y } else { micro };
        let mut bx: usize = 0;
        while bx < blocks_x
            invariant
                h.wf(),
                cursor.wf(),
                cursor.all() == all,
                all == old(cursor).all(),
                old(samples)@.len() == total * depth,
                whole == tiles_read(
                    *h,
                    bounds,
                    blocks::mask_seq(mask),
                    all,
                    0,
                    0,
                    0,
                    old(samples)@,
                    old(cursor).at(),
                ),
                stopped == tiles_stop(
                    *h,
                    bounds,
                    blocks::mask_seq(mask),
                    all,
                    0,
                    0,
                    0,
                    old(samples)@,
                    old(cursor).at(),
                ),
                width == h.width,
                height == h.height,
                depth == h.depth,
                micro == h.micro_block_size,
                total == width * height,
                blocks_x == block_count(width as int, micro as int),
                blocks_y == block_count(height as int, micro as int),
                capacity == tile_capacity(*h),
                capacity <= 1024,
                entries == blocks::mask_seq(mask),
                blocks::mask_fits(entries, h.pixels()),
                bounds == ranges_seq(*ranges),
                ranges_fit(bounds, depth as nat),
                samples@.len() == total * depth,
                by < blocks_y,
                bx <= blocks_x,
                y == by * micro,
                rows == block_extent(height as int, micro as int, by as int),
                y + rows <= height,
                whole == tiles_read(
                    *h,
                    bounds,
                    entries,
                    all,
                    by as nat,
                    bx as nat,
                    0,
                    samples@,
                    cursor.at(),
                ),
                stopped == tiles_stop(
                    *h,
                    bounds,
                    entries,
                    all,
                    by as nat,
                    bx as nat,
                    0,
                    samples@,
                    cursor.at(),
                ),
            decreases blocks_x - bx,
        {
            proof {
                lemma_block_extent(width as int, micro as int, bx as int);
                lemma_tile_pixels(*h, entries, bx as int, by as int);
            }
            let x: usize = bx * micro;
            let cols: usize = if width - x < micro { width - x } else { micro };
            let pixels: Vec<usize> = list_block(mask, width, height, x, y, cols, rows);
            let ghost list = tile_pixels(*h, entries, bx as int, by as int);
            assert(pixels@.map_values(|p: usize| p as int) == list);
            assert forall|i: int| 0 <= i < pixels@.len() implies #[trigger] pixels@[i] < total by {
                assert(list[i] == pixels@[i]);
            }
            let mut dim: usize = 0;
            while dim < depth
                invariant
                    h.wf(),
                    cursor.wf(),
                    cursor.all() == all,
                    all == old(cursor).all(),
                    old(samples)@.len() == total * depth,
                    whole == tiles_read(
                        *h,
                        bounds,
                        blocks::mask_seq(mask),
                        all,
                        0,
                        0,
                        0,
                        old(samples)@,
                        old(cursor).at(),
                    ),
                    stopped == tiles_stop(
                        *h,
                        bounds,
                        blocks::mask_seq(mask),
                        all,
                        0,
                        0,
                        0,
                        old(samples)@,
                        old(cursor).at(),
                    ),
                    width == h.width,
                    height == h.height,
                    depth == h.depth,
                    micro == h.micro_block_size,
                    total == width * height,
                    blocks_x == block_count(width as int, micro as int),
                    blocks_y == block_count(height as int, micro as int),
                    capacity == tile_capacity(*h),
                    capacity <= 1024,
                    bounds == ranges_seq(*ranges),
                    ranges_fit(bounds, depth as nat),
                    samples@.len() == total * depth,
                    by < blocks_y,
                    bx < blocks_x,
                    x == bx * micro,
                    dim <= depth,
                    list == tile_pixels(*h, entries, bx as int, by as int),
                    list == pixels@.map_values(|p: usize| p as int),
                    list.len() == pixels@.len(),
                    list.len() <= 1024,
                    forall|i: int| 0 <= i < pixels@.len() ==> #[trigger] pixels@[i] < total,
                    whole == tiles_read(
                        *h,
                        bounds,
                        entries,
                        all,
                        by as nat,
                        bx as nat,
                        dim as nat,
                        samples@,
                        cursor.at(),
                    ),
                    stopped == tiles_stop(
                        *h,
                        bounds,
                        entries,
                        all,
                        by as nat,
                        bx as nat,
                        dim as nat,
                        samples@,
                        cursor.at(),
                    ),
                decreases depth - dim,
            {
                let z_max = match ranges {
                    Some(r) => r.max_values[dim],
                    None => h.z_max,
                };
                let found: Vec<T> = if dim == 0 {
                    read_tile(cursor, h, z_max, x, None, pixels.len(), capacity)?
                } else {
                    let prev: Vec<T> = gather(samples, &pixels, depth, dim - 1, total);
                    read_tile(cursor, h, z_max, x, Some(&prev), pixels.len(), capacity)?
                };
                scatter(samples, &pixels, &found, depth, dim, total);
                dim += 1;
            }
            bx += 1;
        }
        by += 1;
    }
    Ok(())
}

/// The samples with `rows(i)` written to the `i`-th listed pixel, for the first `n` pixels.
pub open spec fn pixels_written<T>(
    samples: Seq<T>,
    pixels: Seq<int>,
    rows: spec_fn(int) -> Seq<T>,
    depth: int,
    n: nat,
) -> Seq<T>
    decreases n,
{
    if n == 0 {
        samples
    } else {
        let before = pixels_written(samples, pixels, rows, depth, (n - 1) as nat);
        let start = pixels[n - 1] * depth;
        Seq::new(
            before.len(),
            |x: int|
                if start <= x < start + depth {
                    rows(n - 1)[x - start]
                } else {
                    before[x]
                },
        )
    }
}

/// Writes one row of samples, one per depth, to a pixel.
fn write_pixel<T: Sample>(
    samples: &mut Vec<T>,
    pixel: usize,
    depth: usize,
    row: &[T],
    from: usize,
    total: usize,
)
    requires
        old(samples)@.len() == total * depth,
        pixel < total,
        from + depth <= row@.len(),
    ensures
        final(samples)@ == Seq::new(
            old(samples)@.len(),
            |x: int|
                if pixel * depth <= x < pixel * depth + depth {
                    row@.subrange(from as int, from + depth)[x - pixel * depth]
                } else {
                    old(samples)@[x]
                },
        ),
{
    let ghost before = samples@;
    let len: usize = samples.len();
    proof {
        assert(pixel * depth + depth <= total * depth && 0 <= pixel * depth) by (nonlinear_arith)
            requires
                pixel + 1 <= total,
                depth >= 0,
                pixel >= 0,
        ;
    }
    let start: usize = pixel * depth;
    let row_len: usize = row.len();
    let mut dim: usize = 0;
    while dim < depth
        invariant
            dim <= depth,
            start == pixel * depth,
            start + depth <= len,
            samples@.len() == len,
            before.len() == len,
            from + depth <= row_len,
            row_len == row@.len(),
            forall|x: int|
                0 <= x < len ==> #[trigger] samples@[x] == (if start <= x < start + dim {
                    row@[from + x - start]
                } else {
                    before[x]
                }),
        decreases depth - dim,
    {
        samples.set(start + dim, row[from + dim]);
        dim += 1;
    }
    proof {
        assert(samples@ =~= Seq::new(
            before.len(),
            |x: int|
                if pixel * depth <= x < pixel * depth + depth {
                    row@.subrange(from as int, from + depth)[x - pixel * depth]
                } else {
                    before[x]
                },
        ));
    }
}

/// The samples when every valid pixel has the same row.
pub open spec fn constant_written<T>(
    samples: Seq<T>,
    pixels: Seq<int>,
    row: Seq<T>,
    depth: int,
) -> Seq<T> {
    pixels_written(samples, pixels, |i: int| row, depth, pixels.len())
}

/// The samples when the rows of the valid pixels follow one another.
pub open spec fn swept<T>(samples: Seq<T>, pixels: Seq<int>, raw: Seq<T>, depth: int) -> Seq<T> {
    pixels_written(
        samples,
        pixels,
        |i: int| raw.subrange(i * depth, i * depth + depth),
        depth,
        pixels.len(),
    )
}

/// Writes the same row to every valid pixel.
pub fn write_constant_pixels<T: Sample>(
    samples: &mut Vec<T>,
    mask: Option<&[u8]>,
    total: usize,
    depth: usize,
    row: &Vec<T>,
)
    requires
        old(samples)@.len() == total * depth,
        row@.len() == depth,
        blocks::mask_fits(blocks::mask_seq(mask), total as nat),
    ensures
        final(samples)@.len() == old(samples)@.len(),
        final(samples)@ == constant_written(
            old(samples)@,
            blocks::run_pixels(blocks::mask_seq(mask), 0, total as nat),
            row@,
            depth as int,
        ),
{
    let pixels: Vec<usize> = list_run(mask, total);
    let ghost list = blocks::run_pixels(blocks::mask_seq(mask), 0, total as nat);
    let ghost before = samples@;
    let ghost rows = |i: int| row@;
    proof {
        blocks::lemma_run_pixels(blocks::mask_seq(mask), 0, total as nat);
    }
    let mut i: usize = 0;
    while i < pixels.len()
        invariant
            i <= pixels@.len(),
            samples@.len() == total * depth,
            row@.len() == depth,
            list == pixels@.map_values(|p: usize| p as int),
            forall|j: int| 0 <= j < list.len() ==> 0 <= #[trigger] list[j] < total,
            forall|j: int| #[trigger] rows(j) == row@,
            samples@ == pixels_written(before, list, rows, depth as int, i as nat),
        decreases pixels@.len() - i,
    {
        proof {
            assert(list[i as int] == pixels@[i as int]);
            assert(row@.subrange(0, 0 + depth) =~= row@);
        }
        write_pixel(samples, pixels[i], depth, row.as_slice(), 0, total);
        proof {
            assert(rows(i as int) == row@);
            assert(samples@ =~= pixels_written(before, list, rows, depth as int, (i + 1) as nat));
        }
        i += 1;
    }
}

/// Writes consecutive rows to the valid pixels.
pub fn write_swept<T: Sample>(
    samples: &mut Vec<T>,
    mask: Option<&[u8]>,
    total: usize,
    depth: usize,
    raw: &Vec<T>,
)
    requires
        old(samples)@.len() == total * depth,
        blocks::mask_fits(blocks::mask_seq(mask), total as nat),
        raw@.len() == blocks::run_pixels(blocks::mask_seq(mask), 0, total as nat).len() * depth,
    ensures
        final(samples)@.len() == old(samples)@.len(),
        final(samples)@ == swept(
            old(samples)@,
            blocks::run_pixels(blocks::mask_seq(mask), 0, total as nat),
            raw@,
            depth as int,
        ),
{
    let pixels: Vec<usize> = list_run(mask, total);
    let ghost list = blocks::run_pixels(blocks::mask_seq(mask), 0, total as nat);
    let ghost before = samples@;
    let ghost rows = |i: int| raw@.subrange(i * depth as int, i * depth as int + depth as int);
    let raw_len: usize = raw.len();
    proof {
        blocks::lemma_run_pixels(blocks::mask_seq(mask), 0, total as nat);
        assert(0 * depth == 0) by (nonlinear_arith);
    }
    let mut from: usize = 0;
    let mut i: usize = 0;
    while i < pixels.len()
        invariant
            i <= pixels@.len(),
            samples@.len() == total * depth,
            list == pixels@.map_values(|p: usize| p as int),
            list.len() == pixels@.len(),
            raw_len == raw@.len(),
            raw_len == list.len() * depth,
            from == i * depth,
            forall|j: int| 0 <= j < list.len() ==> 0 <= #[trigger] list[j] < total,
            forall|j: int|
                #[trigger] rows(j) == raw@.subrange(
                    j * depth as int,
                    j * depth as int + depth as int,
                ),
            samples@ == pixels_written(before, list, rows, depth as int, i as nat),
        decreases pixels@.len() - i,
    {
        proof {
            assert(list[i as int] == pixels@[i as int]);
            assert(i * depth + depth == (i + 1) * depth && (i + 1) * depth <= list.len() * depth)
                by (nonlinear_arith)
                requires
                    i + 1 <= list.len(),
            ;
        }
        write_pixel(samples, pixels[i], depth, raw.as_slice(), from, total);
        proof {
            assert(rows(i as int) == raw@.subrange(from as int, from + depth));
            assert(samples@ =~= pixels_written(before, list, rows, depth as int, (i + 1) as nat));
        }
        from = from + depth;
        i += 1;
    }
}

} // verus!
