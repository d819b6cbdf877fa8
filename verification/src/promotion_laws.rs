//! Decoding to doubles gives the samples of native decoding, promoted.

use crate::allocation;
use crate::blocks;
use crate::cursor;
use crate::error::Fault;
use crate::float;
use crate::float::{Double, Single};
use crate::huffman;
use crate::huffman::CodeEntry;
use crate::lerc1;
use crate::lerc1::{BlobParts, BlockSeq};
use crate::lerc2;
use crate::lerc2_body;
use crate::lerc2_header;
use crate::lerc2_header::Lerc2Header;
use crate::lerc2_huffman;
use crate::raster;
use crate::reader;
use crate::rounding;
use crate::sample::Sample;
use crate::stuffed;
use crate::types;
use crate::types::{BlobFacts, DataType, PixelSeq};
use crate::values;
use vstd::arithmetic::power2::pow2;
use vstd::prelude::*;

verus! {

/// Whether a sample type converts as its runtime type does.
pub open spec fn converts<T: Sample>() -> bool {
    &&& forall|v: Double| (#[trigger] T::demoted(v)).promoted() == values::coerced(v, T::kind())
    &&& forall|b: Seq<u8>|
        (#[trigger] T::decoded(b)).promoted() == values::scalar_value(b, T::kind())
    &&& T::zero().promoted() == Double { bits: 0 }
}

/// Optional samples, promoted.
spec fn optional_up<T: Sample>(found: Option<Seq<T>>) -> Option<Seq<Double>> {
    match found {
        Some(samples) => Some(values::promoted_all(samples)),
        None => None,
    }
}

/// Samples and a position, the samples promoted.
spec fn placed_up<T: Sample, P>(
    outcome: std::result::Result<(Seq<T>, P), Fault>,
) -> std::result::Result<(Seq<Double>, P), Fault> {
    match outcome {
        Ok((samples, at)) => Ok((values::promoted_all(samples), at)),
        Err(e) => Err(e),
    }
}

proof fn lemma_output<T: Sample>(value: Double)
    requires
        converts::<T>(),
    ensures
        values::output::<T>(value, T::kind()).promoted() == values::output::<Double>(
            value,
            T::kind(),
        ),
{
    assert(T::demoted(value).promoted() == values::coerced(value, T::kind()));
}

proof fn lemma_converted<T: Sample>(field: Seq<u8>)
    requires
        converts::<T>(),
    ensures
        values::promoted_all(values::converted::<T>(field, T::kind())) == values::converted::<
            Double,
        >(field, T::kind()),
{
    let native = values::converted::<T>(field, T::kind());
    let doubles = values::converted::<Double>(field, T::kind());
    let width = T::kind().width() as int;
    assert forall|i: int| 0 <= i < native.len() implies native[i].promoted() == doubles[i] by {
        let part = values::chunk(field, i, width);
        assert(native[i] == T::decoded(part));
        assert(T::decoded(part).promoted() == values::scalar_value(part, T::kind()));
    }
    assert(values::promoted_all(native) =~= doubles);
}

proof fn lemma_repeated<T: Sample>(value: T, count: nat)
    ensures
        values::promoted_all(allocation::repeated(value, count)) == allocation::repeated(
            value.promoted(),
            count,
        ),
{
    assert(values::promoted_all(allocation::repeated(value, count)) =~= allocation::repeated(
        value.promoted(),
        count,
    ));
}

proof fn lemma_scattered_up<T: Sample>(
    samples: Seq<T>,
    pixels: Seq<int>,
    found: Seq<T>,
    depth: int,
    dim: int,
    n: nat,
)
    requires
        n <= found.len(),
        forall|i: int| 0 <= i < n ==> 0 <= #[trigger] pixels[i] * depth + dim < samples.len(),
    ensures
        values::promoted_all(blocks::scattered(samples, pixels, found, depth, dim, n))
            == blocks::scattered(
            values::promoted_all(samples),
            pixels,
            values::promoted_all(found),
            depth,
            dim,
            n,
        ),
    decreases n,
{
    if n > 0 {
        let m = (n - 1) as nat;
        lemma_scattered_up(samples, pixels, found, depth, dim, m);
        blocks::lemma_scattered_len(samples, pixels, found, depth, dim, m);
        let before = blocks::scattered(samples, pixels, found, depth, dim, m);
        let place = pixels[n - 1] * depth + dim;
        assert(values::promoted_all(before.update(place, found[n - 1])) =~= values::promoted_all(
            before,
        ).update(place, values::promoted_all(found)[n - 1]));
    } else {
        assert(values::promoted_all(samples) =~= values::promoted_all(samples));
    }
}

proof fn lemma_written_up<T: Sample>(
    samples: Seq<T>,
    pixels: Seq<int>,
    rows: spec_fn(int) -> Seq<T>,
    high: spec_fn(int) -> Seq<Double>,
    depth: int,
    n: nat,
)
    requires
        forall|i: int|
            0 <= i < n ==> (#[trigger] rows(i)).len() == depth && high(i) == values::promoted_all(
                rows(i),
            ),
    ensures
        values::promoted_all(lerc2_body::pixels_written(samples, pixels, rows, depth, n))
            == lerc2_body::pixels_written(
            values::promoted_all(samples),
            pixels,
            high,
            depth,
            n,
        ),
    decreases n,
{
    if n > 0 {
        lemma_written_up(samples, pixels, rows, high, depth, (n - 1) as nat);
        assert(rows(n - 1).len() == depth);
        assert(values::promoted_all(lerc2_body::pixels_written(samples, pixels, rows, depth, n))
            =~= lerc2_body::pixels_written(
            values::promoted_all(samples),
            pixels,
            high,
            depth,
            n,
        ));
    }
}

proof fn lemma_written_len<T>(
    samples: Seq<T>,
    pixels: Seq<int>,
    rows: spec_fn(int) -> Seq<T>,
    depth: int,
    n: nat,
)
    ensures
        lerc2_body::pixels_written(samples, pixels, rows, depth, n).len() == samples.len(),
    decreases n,
{
    if n > 0 {
        lemma_written_len(samples, pixels, rows, depth, (n - 1) as nat);
    }
}

/// Samples that are computed from numbers, one by one.
proof fn lemma_outputs<T: Sample>(found: Seq<Double>, native: Seq<T>, doubles: Seq<Double>)
    requires
        converts::<T>(),
        native.len() == found.len(),
        doubles.len() == found.len(),
        forall|i: int|
            0 <= i < found.len() ==> #[trigger] native[i] == values::output::<T>(
                found[i],
                T::kind(),
            ),
        forall|i: int|
            0 <= i < found.len() ==> #[trigger] doubles[i] == values::output::<Double>(
                found[i],
                T::kind(),
            ),
    ensures
        values::promoted_all(native) == doubles,
{
    assert forall|i: int| 0 <= i < found.len() implies native[i].promoted() == doubles[i] by {
        lemma_output::<T>(found[i]);
    }
    assert(values::promoted_all(native) =~= doubles);
}

proof fn lemma_stuffed_up<T: Sample>(
    h: Lerc2Header,
    z_max: Double,
    all: Seq<u8>,
    pos: int,
    offset: Double,
    previous: Option<Seq<T>>,
    count: nat,
    capacity: nat,
)
    requires
        converts::<T>(),
        h.data_type == T::kind(),
        previous matches Some(prev) ==> prev.len() == count,
    ensures
        lerc2_body::stuffed_tile(
            h,
            z_max,
            all,
            pos,
            offset,
            optional_up(previous),
            count,
            capacity,
        ) == placed_up(
            lerc2_body::stuffed_tile(h, z_max, all, pos, offset, previous, count, capacity),
        ),
        lerc2_body::stuffed_tile(h, z_max, all, pos, offset, previous, count, capacity) matches Ok(
            (found, next),
        ) ==> found.len() == count && next >= pos,
{
    let low = lerc2_body::stuffed_tile(h, z_max, all, pos, offset, previous, count, capacity);
    let high = lerc2_body::stuffed_tile(
        h,
        z_max,
        all,
        pos,
        offset,
        optional_up(previous),
        count,
        capacity,
    );
    if low is Ok {
        let scale = Double { bits: float::TWO_BITS }.product(h.max_z_error);
        let limit = if previous is Some {
            Double { bits: float::DOUBLE_INFINITY }
        } else {
            z_max
        };
        let (levels, _) = stuffed::levels_decoded(all, pos, h.version, capacity, true)->Ok_0;
        let steps = stuffed::level_values(offset, scale, limit, levels);
        let found = Seq::new(
            count,
            |i: int| lerc2_body::stepped(steps[i], previous, i, z_max, false),
        );
        assert forall|i: int| 0 <= i < count implies found[i] == lerc2_body::stepped(
            steps[i],
            optional_up(previous),
            i,
            z_max,
            false,
        ) by {
        }
        lemma_outputs(found, low->Ok_0.0, high->Ok_0.0);
    }
}

proof fn lemma_offset_up<T: Sample>(
    h: Lerc2Header,
    z_max: Double,
    all: Seq<u8>,
    pos: int,
    header: u8,
    previous: Option<Seq<T>>,
    count: nat,
    capacity: nat,
)
    requires
        converts::<T>(),
        h.data_type == T::kind(),
        previous matches Some(prev) ==> prev.len() == count,
    ensures
        lerc2_body::offset_tile(
            h,
            z_max,
            all,
            pos,
            header,
            optional_up(previous),
            count,
            capacity,
        ) == placed_up(
            lerc2_body::offset_tile(h, z_max, all, pos, header, previous, count, capacity),
        ),
        lerc2_body::offset_tile(h, z_max, all, pos, header, previous, count, capacity) matches Ok(
            (found, next),
        ) ==> found.len() == count && next >= pos,
{
    let low = lerc2_body::offset_tile(h, z_max, all, pos, header, previous, count, capacity);
    let high = lerc2_body::offset_tile(
        h,
        z_max,
        all,
        pos,
        header,
        optional_up(previous),
        count,
        capacity,
    );
    let base = if previous is Some && h.data_type.integer() {
        DataType::I32
    } else {
        h.data_type
    };
    let code = lerc2_body::reduced_code(base, (header / 64) as int);
    if let Some(used) = types::type_of_code(code) {
        if let Ok(field) = cursor::take(all, pos, used.width() as int) {
            let offset = values::scalar_value(field, used);
            if header % 4 == 3 {
                let found = Seq::new(
                    count,
                    |i: int| lerc2_body::stepped(offset, previous, i, z_max, true),
                );
                assert forall|i: int| 0 <= i < count implies found[i] == lerc2_body::stepped(
                    offset,
                    optional_up(previous),
                    i,
                    z_max,
                    true,
                ) by {
                }
                lemma_outputs(found, low->Ok_0.0, high->Ok_0.0);
            } else {
                lemma_stuffed_up(
                    h,
                    z_max,
                    all,
                    pos + used.width(),
                    offset,
                    previous,
                    count,
                    capacity,
                );
            }
        }
    }
}

proof fn lemma_tile_up<T: Sample>(
    h: Lerc2Header,
    z_max: Double,
    all: Seq<u8>,
    pos: int,
    x: int,
    previous: Option<Seq<T>>,
    count: nat,
    capacity: nat,
)
    requires
        converts::<T>(),
        pos >= 0,
        h.data_type == T::kind(),
        previous matches Some(prev) ==> prev.len() == count,
    ensures
        lerc2_body::tile_read(h, z_max, all, pos, x, optional_up(previous), count, capacity)
            == placed_up(
            lerc2_body::tile_read(h, z_max, all, pos, x, previous, count, capacity),
        ),
        lerc2_body::tile_read(h, z_max, all, pos, x, previous, count, capacity) matches Ok(
            (found, next),
        ) ==> found.len() == count && next >= pos,
{
    if let Ok(header) = cursor::take_u8(all, pos) {
        let before = if lerc2_body::tile_is_diff(header, h.version) {
            previous
        } else {
            None
        };
        lemma_repeated(T::zero(), count);
        let len = count * h.data_type.width();
        if let Ok(data) = cursor::take(all, pos + 1, len as int) {
            lemma_converted::<T>(data);
            vstd::arithmetic::div_mod::lemma_div_multiples_vanish(
                count as int,
                h.data_type.width() as int,
            );
            vstd::arithmetic::mul::lemma_mul_is_commutative(
                count as int,
                h.data_type.width() as int,
            );
        }
        lemma_offset_up(h, z_max, all, pos + 1, header, before, count, capacity);
    }
}

/// Gathering keeps the order of promotion.
proof fn lemma_gathered_up<T: Sample>(samples: Seq<T>, pixels: Seq<int>, depth: int, dim: int)
    requires
        forall|i: int|
            0 <= i < pixels.len() ==> 0 <= #[trigger] pixels[i] * depth + dim < samples.len(),
    ensures
        values::promoted_all(lerc2_body::gathered(samples, pixels, depth, dim))
            == lerc2_body::gathered(values::promoted_all(samples), pixels, depth, dim),
{
    let low = lerc2_body::gathered(samples, pixels, depth, dim);
    let high = lerc2_body::gathered(values::promoted_all(samples), pixels, depth, dim);
    assert forall|i: int| 0 <= i < low.len() implies low[i].promoted() == high[i] by {
        assert(0 <= pixels[i] * depth + dim < samples.len());
    }
    assert(values::promoted_all(low) =~= high);
}

/// The places of listed pixels.
proof fn lemma_places(pixels: Seq<int>, total: nat, depth: nat, dim: nat)
    requires
        dim < depth,
        forall|i: int| 0 <= i < pixels.len() ==> 0 <= #[trigger] pixels[i] < total,
    ensures
        forall|i: int|
            0 <= i < pixels.len() ==> 0 <= #[trigger] pixels[i] * depth + dim < total * depth,
{
    assert forall|i: int| 0 <= i < pixels.len() implies 0 <= #[trigger] pixels[i] * depth + dim
        < total * depth by {
        let p = pixels[i];
        assert(0 <= p < total);
        raster::lemma_sample_index(p as nat, depth, dim, total);
    }
}

proof fn lemma_tiles_up<T: Sample>(
    h: Lerc2Header,
    ranges: Option<(Seq<Double>, Seq<Double>)>,
    mask: Option<Seq<u8>>,
    all: Seq<u8>,
    by: nat,
    bx: nat,
    dim: nat,
    samples: Seq<T>,
    pos: int,
)
    requires
        converts::<T>(),
        h.wf(),
        h.data_type == T::kind(),
        samples.len() == h.pixels() * h.depth as nat,
        pos >= 0,
    ensures
        lerc2_body::tiles_read(
            h,
            ranges,
            mask,
            all,
            by,
            bx,
            dim,
            values::promoted_all(samples),
            pos,
        ) == placed_up(lerc2_body::tiles_read(h, ranges, mask, all, by, bx, dim, samples, pos)),
        lerc2_body::tiles_read(h, ranges, mask, all, by, bx, dim, samples, pos) matches Ok(
            (found, _),
        ) ==> found.len() == samples.len(),
    decreases
            lerc2_body::block_count(h.height as int, h.micro_block_size as int) - by,
            lerc2_body::block_count(h.width as int, h.micro_block_size as int) - bx,
            h.depth - dim,
{
    let micro = h.micro_block_size as int;
    let depth = h.depth as int;
    if by >= lerc2_body::block_count(h.height as int, micro) {
    } else if bx >= lerc2_body::block_count(h.width as int, micro) {
        lemma_tiles_up(h, ranges, mask, all, by + 1, 0, 0, samples, pos);
    } else if dim >= depth {
        lemma_tiles_up(h, ranges, mask, all, by, bx + 1, 0, samples, pos);
    } else {
        let list = lerc2_body::tile_pixels(h, mask, bx as int, by as int);
        lerc2_body::lemma_tile_pixels(h, mask, bx as int, by as int);
        lemma_places(list, h.pixels(), h.depth as nat, dim);
        let previous = if dim == 0 {
            None
        } else {
            lemma_places(list, h.pixels(), h.depth as nat, (dim - 1) as nat);
            lemma_gathered_up(samples, list, depth, dim - 1);
            Some(lerc2_body::gathered(samples, list, depth, dim - 1))
        };
        let z_max = lerc2_body::depth_max(h, ranges, dim as int);
        let capacity = lerc2_body::tile_capacity(h);
        lemma_tile_up(h, z_max, all, pos, bx * micro, previous, list.len(), capacity);
        if let Ok((found, next)) = lerc2_body::tile_read(
            h,
            z_max,
            all,
            pos,
            bx * micro,
            previous,
            list.len(),
            capacity,
        ) {
            lemma_scattered_up(samples, list, found, depth, dim as int, list.len());
            blocks::lemma_scattered_len(samples, list, found, depth, dim as int, list.len());
            lemma_tiles_up(
                h,
                ranges,
                mask,
                all,
                by,
                bx,
                dim + 1,
                blocks::scattered(samples, list, found, depth, dim as int, list.len()),
                next,
            );
        }
    }
}

/// An 8-bit number is the same sample in either precision.
proof fn lemma_small_sample<T: Sample>(signed: bool, value: int)
    requires
        converts::<T>(),
        T::kind() == (if signed {
            DataType::I8
        } else {
            DataType::U8
        }),
        signed ==> -128 <= value <= 127,
        !signed ==> 0 <= value <= 255,
    ensures
        lerc2_huffman::int_sample::<T>(value).promoted() == lerc2_huffman::int_sample::<Double>(
            value,
        ),
{
    T::law_cast(value);
}

proof fn lemma_update_up<T: Sample>(samples: Seq<T>, place: int, sample: T)
    requires
        0 <= place < samples.len(),
    ensures
        values::promoted_all(samples.update(place, sample)) == values::promoted_all(
            samples,
        ).update(place, sample.promoted()),
{
    assert(values::promoted_all(samples.update(place, sample)) =~= values::promoted_all(
        samples,
    ).update(place, sample.promoted()));
}

proof fn lemma_symbols_up<T: Sample>(
    entries: Seq<CodeEntry>,
    words: Seq<u32>,
    depth: int,
    signed: bool,
    list: Seq<int>,
    total: nat,
    i: nat,
    dim: nat,
    samples: Seq<T>,
    p: nat,
)
    requires
        converts::<T>(),
        T::kind() == (if signed {
            DataType::I8
        } else {
            DataType::U8
        }),
        entries.len() <= 256,
        depth > 0,
        samples.len() == total * depth,
        forall|j: int| 0 <= j < list.len() ==> 0 <= #[trigger] list[j] < total,
    ensures
        lerc2_huffman::symbols_read(
            entries,
            words,
            depth,
            signed,
            list,
            i,
            dim,
            values::promoted_all(samples),
            p,
        ) == placed_up(
            lerc2_huffman::symbols_read(entries, words, depth, signed, list, i, dim, samples, p),
        ),
        lerc2_huffman::symbols_read(
            entries,
            words,
            depth,
            signed,
            list,
            i,
            dim,
            samples,
            p,
        ) matches Ok((found, _)) ==> found.len() == samples.len(),
    decreases list.len() - i, depth - dim,
{
    if i >= list.len() {
    } else if dim >= depth {
        lemma_symbols_up(entries, words, depth, signed, list, total, i + 1, 0, samples, p);
    } else {
        huffman::lemma_symbol_bound(entries, words, p);
        if let Ok((symbol, next)) = huffman::symbol_read(entries, words, p) {
            let value = lerc2_huffman::symbol_value(signed, symbol);
            lemma_small_sample::<T>(signed, value);
            raster::lemma_sample_index(list[i as int] as nat, depth as nat, dim, total);
            let place = list[i as int] * depth + dim;
            lemma_update_up(samples, place, lerc2_huffman::int_sample::<T>(value));
            lemma_symbols_up(
                entries,
                words,
                depth,
                signed,
                list,
                total,
                i,
                dim + 1,
                samples.update(place, lerc2_huffman::int_sample::<T>(value)),
                next,
            );
        }
    }
}

proof fn lemma_deltas_up<T: Sample>(
    entries: Seq<CodeEntry>,
    words: Seq<u32>,
    mask: Option<Seq<u8>>,
    width: int,
    depth: int,
    signed: bool,
    list: Seq<int>,
    total: nat,
    dim: nat,
    i: nat,
    last: int,
    samples: Seq<T>,
    p: nat,
)
    requires
        converts::<T>(),
        T::kind() == (if signed {
            DataType::I8
        } else {
            DataType::U8
        }),
        width > 0,
        samples.len() == total * depth,
        forall|j: int| 0 <= j < list.len() ==> 0 <= #[trigger] list[j] < total,
    ensures
        lerc2_huffman::deltas_read(
            entries,
            words,
            mask,
            width,
            depth,
            signed,
            list,
            dim,
            i,
            last,
            values::promoted_all(samples),
            p,
        ) == placed_up(
            lerc2_huffman::deltas_read(
                entries,
                words,
                mask,
                width,
                depth,
                signed,
                list,
                dim,
                i,
                last,
                samples,
                p,
            ),
        ),
        lerc2_huffman::deltas_read(
            entries,
            words,
            mask,
            width,
            depth,
            signed,
            list,
            dim,
            i,
            last,
            samples,
            p,
        ) matches Ok((found, _)) ==> found.len() == samples.len(),
    decreases depth - dim, list.len() - i,
{
    if dim >= depth {
    } else if i >= list.len() {
        lemma_deltas_up(
            entries,
            words,
            mask,
            width,
            depth,
            signed,
            list,
            total,
            dim + 1,
            0,
            0,
            samples,
            p,
        );
    } else if let Ok((symbol, next)) = huffman::symbol_read(entries, words, p) {
        let pixel = list[i as int];
        let doubles = values::promoted_all(samples);
        if pixel >= width {
            raster::lemma_sample_index((pixel - width) as nat, depth as nat, dim, total);
            assert(doubles[(pixel - width) * depth + dim] == samples[(pixel - width) * depth
                + dim].promoted());
        }
        let before = lerc2_huffman::predictor(
            mask,
            width,
            depth,
            dim as int,
            pixel,
            last,
            samples,
        );
        assert(lerc2_huffman::predictor(mask, width, depth, dim as int, pixel, last, doubles)
            == before);
        let value = lerc2_huffman::wrapped(
            signed,
            lerc2_huffman::symbol_value(signed, symbol) + before,
        );
        lemma_small_sample::<T>(signed, value);
        raster::lemma_sample_index(pixel as nat, depth as nat, dim, total);
        let place = pixel * depth + dim;
        lemma_update_up(samples, place, lerc2_huffman::int_sample::<T>(value));
        lemma_deltas_up(
            entries,
            words,
            mask,
            width,
            depth,
            signed,
            list,
            total,
            dim,
            i + 1,
            value,
            samples.update(place, lerc2_huffman::int_sample::<T>(value)),
            next,
        );
    }
}

proof fn lemma_huffman_up<T: Sample>(
    h: Lerc2Header,
    mask: Option<Seq<u8>>,
    all: Seq<u8>,
    pos: int,
    delta: bool,
    samples: Seq<T>,
)
    requires
        converts::<T>(),
        h.wf(),
        h.data_type == T::kind(),
        lerc2_body::huffman_possible(h.data_type, h.max_z_error),
        samples.len() == h.pixels() * h.depth as nat,
    ensures
        match lerc2_huffman::huffman_read(h, mask, all, pos, delta, samples) {
            Ok(found) => lerc2_huffman::huffman_read(
                h,
                mask,
                all,
                pos,
                delta,
                values::promoted_all(samples),
            ) == Ok::<Seq<Double>, Fault>(values::promoted_all(found)) && found.len()
                == samples.len(),
            Err(e) => lerc2_huffman::huffman_read(
                h,
                mask,
                all,
                pos,
                delta,
                values::promoted_all(samples),
            ) == Err::<Seq<Double>, Fault>(e),
        },
{
    let list = blocks::run_pixels(mask, 0, h.pixels());
    blocks::lemma_run_pixels(mask, 0, h.pixels());
    huffman::lemma_tree_size(all, pos, h.version);
    if let Ok((entries, words, start)) = huffman::tree_read(all, pos, h.version) {
        let signed = h.data_type == DataType::I8;
        if delta {
            lemma_deltas_up(
                entries,
                words,
                mask,
                h.width as int,
                h.depth as int,
                signed,
                list,
                h.pixels(),
                0,
                0,
                0,
                samples,
                start,
            );
        } else {
            lemma_symbols_up(
                entries,
                words,
                h.depth as int,
                signed,
                list,
                h.pixels(),
                0,
                0,
                samples,
                start,
            );
        }
    }
}

/// Whether an outcome in double precision is that of the native type, promoted. In double
/// precision the limit on memory may be reached where it is not otherwise.
spec fn rises<T: Sample, P>(
    low: std::result::Result<(Seq<T>, P), Fault>,
    high: std::result::Result<(Seq<Double>, P), Fault>,
    len: nat,
) -> bool {
    &&& high matches Ok((found, at)) ==> (low matches Ok((native, place)) && place == at
        && values::promoted_all(native) == found)
    &&& low matches Ok((native, _)) ==> native.len() == len && (doubles_fit(len) ==> high is Ok)
}

/// Whether so many doubles are within the limit on allocations.
pub open spec fn doubles_fit(count: nat) -> bool {
    8 * count <= allocation::MAX_DECODED_ALLOCATION_BYTES
}

/// Fewer bytes per sample are allocated where more are.
proof fn lemma_smaller_fits(count: nat, data_type: DataType, label: Seq<char>)
    requires
        allocation::allocation_fault(count, 8, label) is None,
    ensures
        allocation::allocation_fault(count, data_type.width(), label) is None,
{
    assert(count * data_type.width() <= count * 8) by (nonlinear_arith)
        requires
            data_type.width() <= 8,
    ;
}

proof fn lemma_doubles_fit(count: nat, label: Seq<char>)
    requires
        doubles_fit(count),
    ensures
        allocation::allocation_fault(count, Double::kind().width(), label) is None,
{
    assert(Double::kind().width() == 8);
    assert(count * 8 == 8 * count);
}

proof fn lemma_sweep_up<T: Sample>(
    h: Lerc2Header,
    entries: Option<Seq<u8>>,
    all: Seq<u8>,
    pos: int,
    samples: Seq<T>,
)
    requires
        converts::<T>(),
        h.wf(),
        h.data_type == T::kind(),
        pos >= 0,
        lerc2::mask_agrees(h, entries),
        samples.len() == h.pixels() * h.depth as nat,
    ensures
        rises(
            lerc2::sweep_read(h, entries, all, pos, samples),
            lerc2::sweep_read(h, entries, all, pos, values::promoted_all(samples)),
            samples.len(),
        ),
{
    let count = h.valid_pixel_count as nat * h.depth as nat;
    let len = count * h.data_type.width();
    if lerc2::sweep_read(h, entries, all, pos, values::promoted_all(samples)) is Ok {
        lemma_smaller_fits(count, T::kind(), "Lerc2 one-sweep raw values"@);
    }
    if lerc2::sweep_read(h, entries, all, pos, samples) is Ok {
        assert(count <= samples.len()) by (nonlinear_arith)
            requires
                count == h.valid_pixel_count as nat * h.depth as nat,
                samples.len() == h.pixels() * h.depth as nat,
                h.valid_pixel_count <= h.pixels(),
        ;
        if doubles_fit(samples.len()) {
            lemma_doubles_fit(count, "Lerc2 one-sweep raw values"@);
        }
        let field = cursor::take(all, pos, len as int)->Ok_0;
        lemma_converted::<T>(field);
        vstd::arithmetic::div_mod::lemma_div_multiples_vanish(
            count as int,
            h.data_type.width() as int,
        );
        vstd::arithmetic::mul::lemma_mul_is_commutative(count as int, h.data_type.width() as int);
        let raw = values::converted::<T>(field, h.data_type);
        let doubles = values::converted::<Double>(field, h.data_type);
        assert(raw.len() == count);
        let depth = h.depth as int;
        let list = blocks::run_pixels(entries, 0, h.pixels());
        lerc2::lemma_valid_list(h, entries);
        let rows = |i: int| raw.subrange(i * depth, i * depth + depth);
        let high = |i: int| doubles.subrange(i * depth, i * depth + depth);
        assert forall|i: int| 0 <= i < list.len() implies (#[trigger] rows(i)).len() == depth
            && high(i) == values::promoted_all(rows(i)) by {
            assert(0 <= i * depth && i * depth + depth <= count) by (nonlinear_arith)
                requires
                    0 <= i < h.valid_pixel_count,
                    depth == h.depth,
                    count == h.valid_pixel_count as nat * h.depth as nat,
            ;
            assert(high(i) =~= values::promoted_all(rows(i)));
        }
        lemma_written_up(samples, list, rows, high, depth, list.len());
        lemma_written_len(samples, list, rows, depth, list.len());
    }
}

proof fn lemma_constant_up<T: Sample>(
    samples: Seq<T>,
    list: Seq<int>,
    row: Seq<T>,
    doubles: Seq<Double>,
    depth: int,
)
    requires
        row.len() == depth,
        doubles == values::promoted_all(row),
    ensures
        values::promoted_all(lerc2_body::constant_written(samples, list, row, depth))
            == lerc2_body::constant_written(values::promoted_all(samples), list, doubles, depth),
        lerc2_body::constant_written(samples, list, row, depth).len() == samples.len(),
{
    lemma_written_up(samples, list, |i: int| row, |i: int| doubles, depth, list.len());
    lemma_written_len(samples, list, |i: int| row, depth, list.len());
}

proof fn lemma_mode_up<T: Sample>(
    h: Lerc2Header,
    ranges: Option<(Seq<Double>, Seq<Double>)>,
    entries: Option<Seq<u8>>,
    all: Seq<u8>,
    pos: int,
    samples: Seq<T>,
    mode: u8,
)
    requires
        converts::<T>(),
        h.wf(),
        h.data_type == T::kind(),
        samples.len() == h.pixels() * h.depth as nat,
        pos >= 0,
    ensures
        rises(
            lerc2::mode_read(h, ranges, entries, all, pos, samples, mode),
            lerc2::mode_read(h, ranges, entries, all, pos, values::promoted_all(samples), mode),
            samples.len(),
        ),
{
    if mode == 0 {
        lemma_tiles_up(h, ranges, entries, all, 0, 0, 0, samples, pos);
    } else if lerc2_body::huffman_possible(h.data_type, h.max_z_error) {
        lemma_huffman_up(h, entries, all, pos, mode == 1, samples);
    }
}

proof fn lemma_body_up<T: Sample>(
    h: Lerc2Header,
    ranges: Option<(Seq<Double>, Seq<Double>)>,
    entries: Option<Seq<u8>>,
    all: Seq<u8>,
    pos: int,
    samples: Seq<T>,
)
    requires
        converts::<T>(),
        h.wf(),
        h.data_type == T::kind(),
        samples.len() == h.pixels() * h.depth as nat,
        pos >= 0,
        lerc2::mask_agrees(h, entries),
        lerc2_body::ranges_fit(ranges, h.depth as nat),
    ensures
        rises(
            lerc2::body_read(h, ranges, entries, all, pos, samples),
            lerc2::body_read(h, ranges, entries, all, pos, values::promoted_all(samples)),
            samples.len(),
        ),
{
    let list = blocks::run_pixels(entries, 0, h.pixels());
    let depth = h.depth as int;
    if h.valid_pixel_count == 0 {
    } else if h.z_min.same(h.z_max) {
        let value = values::output::<T>(h.z_max, h.data_type);
        lemma_output::<T>(h.z_max);
        lemma_repeated(value, h.depth as nat);
        lemma_constant_up(
            samples,
            list,
            allocation::repeated(value, h.depth as nat),
            allocation::repeated(value.promoted(), h.depth as nat),
            depth,
        );
    } else if lerc2::constant_ranges(ranges) is Some {
        let found = lerc2::constant_ranges(ranges)->0;
        let row = lerc2::outputs::<T>(found, h);
        let doubles = lerc2::outputs::<Double>(found, h);
        lemma_outputs(found, row, doubles);
        lemma_constant_up(samples, list, row, doubles, depth);
    } else if let Ok(sweep) = cursor::take_u8(all, pos) {
        if sweep != 0 {
            lemma_sweep_up(h, entries, all, pos + 1, samples);
        } else if !lerc2_body::has_mode(h.data_type, h.max_z_error, h.version) {
            lemma_tiles_up(h, ranges, entries, all, 0, 0, 0, samples, pos + 1);
        } else if let Ok(mode) = cursor::take_u8(all, pos + 1) {
            lemma_mode_up(h, ranges, entries, all, pos + 2, samples, mode);
        }
    }
}

proof fn lemma_mask_found(h: Lerc2Header, all: Seq<u8>, pos: int, inherited: Option<Seq<u8>>)
    requires
        h.wf(),
    ensures
        lerc2::mask_read(h, all, pos, inherited) matches Ok((entries, at)) ==> lerc2::mask_agrees(
            h,
            entries,
        ) && at >= pos,
{
    lerc2::lemma_no_valid(h.pixels());
}

proof fn lemma_ranges_found(h: Lerc2Header, all: Seq<u8>, pos: int)
    requires
        pos >= 0,
    ensures
        lerc2::ranges_read(h, all, pos) matches Ok((ranges, at)) ==> lerc2_body::ranges_fit(
            ranges,
            h.depth as nat,
        ) && at >= pos,
{
    let width = h.data_type.width();
    let len = h.depth as nat * width;
    lerc2::lemma_aligned(h.depth as nat, width);
    assert(h.depth * width >= 0);
}

proof fn lemma_remapped_up<T: Sample>(h: Lerc2Header, samples: Seq<T>, entries: Option<Seq<u8>>)
    requires
        converts::<T>(),
        h.data_type == T::kind(),
    ensures
        values::promoted_all(
            lerc2::remapped(samples, entries, h.depth as int, lerc2::no_data_mapping::<T>(h)),
        ) == lerc2::remapped(
            values::promoted_all(samples),
            entries,
            h.depth as int,
            lerc2::no_data_mapping::<Double>(h),
        ),
{
    if let (Some(encoded), Some(original)) = (h.encoded_no_data, h.original_no_data) {
        lemma_output::<T>(encoded);
        lemma_output::<T>(original);
    }
    assert(values::promoted_all(
        lerc2::remapped(samples, entries, h.depth as int, lerc2::no_data_mapping::<T>(h)),
    ) =~= lerc2::remapped(
        values::promoted_all(samples),
        entries,
        h.depth as int,
        lerc2::no_data_mapping::<Double>(h),
    ));
}

/// Whether a decoding result in double precision is that of the native type, promoted.
pub open spec fn promotes<T: Sample>(
    native: std::result::Result<(BlobFacts, Seq<T>, Option<Seq<u8>>), Fault>,
    doubles: std::result::Result<(BlobFacts, Seq<Double>, Option<Seq<u8>>), Fault>,
) -> bool {
    &&& doubles matches Ok((facts, found, mask)) ==> (native matches Ok(
        (native_facts, samples, entries),
    ) && native_facts == facts && entries == mask && values::promoted_all(samples) == found)
    &&& native matches Ok((_, samples, _)) ==> doubles_fit(samples.len()) ==> doubles is Ok
}

proof fn lemma_payload_up<T: Sample>(
    h: Lerc2Header,
    all: Seq<u8>,
    pos: int,
    inherited: Option<Seq<u8>>,
)
    requires
        converts::<T>(),
        h.wf(),
        h.data_type == T::kind(),
        pos >= 0,
    ensures
        promotes(
            lerc2::payload_decoded::<T>(h, all, pos, inherited),
            lerc2::payload_decoded::<Double>(h, all, pos, inherited),
        ),
        lerc2::payload_decoded::<T>(h, all, pos, inherited) matches Ok((_, samples, _))
            ==> samples.len() == h.pixels() * h.depth as nat,
{
    lemma_mask_found(h, all, pos, inherited);
    if let Ok((entries, at)) = lerc2::mask_read(h, all, pos, inherited) {
        lemma_ranges_found(h, all, at);
        if let Ok((ranges, body)) = lerc2::ranges_read(h, all, at) {
            let blank = allocation::repeated(T::zero(), h.pixels() * h.depth as nat);
            lemma_repeated(T::zero(), h.pixels() * h.depth as nat);
            lemma_body_up(h, ranges, entries, all, body, blank);
            if let Ok((samples, end)) = lerc2::body_read::<T>(
                h,
                ranges,
                entries,
                all,
                body,
                blank,
            ) {
                lemma_remapped_up(h, samples, entries);
            }
        }
    }
}

proof fn lemma_lerc2_up<T: Sample>(blob: Seq<u8>, inherited: Option<Seq<u8>>, limited: bool)
    requires
        converts::<T>(),
        lerc2_header::header_parsed(blob) matches Ok(h) ==> h.data_type == T::kind(),
    ensures
        promotes(
            lerc2::decoded::<T>(blob, inherited, limited),
            lerc2::decoded::<Double>(blob, inherited, limited),
        ),
{
    lerc2_header::lemma_parsed_wf(blob);
    if let Ok(h) = lerc2_header::header_parsed(blob) {
        if lerc2::output_fault::<Double>(h, limited) is None && limited {
            lemma_smaller_fits(h.pixels() * h.depth as nat, T::kind(), "Lerc2 pixel output"@);
        }
        if doubles_fit(h.pixels() * h.depth as nat) {
            lemma_doubles_fit(h.pixels() * h.depth as nat, "Lerc2 pixel output"@);
        }
        lemma_payload_up::<T>(
            h,
            blob.subrange(0, h.blob_size as int),
            lerc2_header::header_size(h.version) + 4,
            inherited,
        );
    }
}

/// The values that are written for a Lerc1 block have single precision.
proof fn lemma_shown_single(block: BlockSeq, count: nat, max_z_error: Double, max_value: Single)
    ensures
        lerc1::block_values(block, count, max_z_error, max_value) matches Ok(found) ==> forall|i: int|
            0 <= i < found.len() ==> (#[trigger] lerc1::shown_all(
                block,
                found,
            )[i]).narrowed().widened() == lerc1::shown_all(block, found)[i],
{
    if let Ok(found) = lerc1::block_values(block, count, max_z_error, max_value) {
        let written = lerc1::shown_all(block, found);
        assert forall|i: int| 0 <= i < found.len() implies (#[trigger] written[i]).narrowed().widened()
            == written[i] by {
            match block {
                BlockSeq::Zero => {
                    float::lemma_widened_stays(Single { bits: 0 });
                    lemma_zero_wide();
                },
                BlockSeq::Constant(value) => {
                    float::lemma_widened_stays(value);
                },
                BlockSeq::Raw(raw) => {
                    float::lemma_widened_stays(raw[i]);
                },
                BlockSeq::Stuffed { .. } => {
                    float::lemma_widened_stays(found[i].narrowed());
                },
            }
        }
    }
}

proof fn lemma_zero_wide()
    ensures
        (Single { bits: 0 }).widened() == (Double { bits: 0 }),
{
    let zero = Single { bits: 0 };
    assert(zero.magnitude() == 0 && zero.significand() == 0);
    assert(0 * pow2(zero.exponent()) == 0 && 0 * pow2(925) == 0) by (nonlinear_arith);
    assert(zero.size() == 0);
    rounding::lemma_round_zero(1, 52, float::DOUBLE_INFINITY as nat);
}

proof fn lemma_blocks_up(
    parts: BlobParts,
    by: nat,
    bx: nat,
    k: nat,
    samples: Seq<Single>,
    low: Double,
    high: Double,
)
    requires
        parts.grid.wf(),
        lerc1::raw_fit(parts.grid, parts.entries, parts.blocks),
        parts.blocks.len() == parts.grid.blocks_y() * parts.grid.blocks_x(),
        bx <= parts.grid.blocks_x(),
        k == by * parts.grid.blocks_x() + bx,
        samples.len() == parts.grid.pixels(),
    ensures
        match lerc1::blocks_written(parts, by, bx, k, samples, low, high) {
            Ok((found, least, most)) => lerc1::blocks_written(
                parts,
                by,
                bx,
                k,
                values::promoted_all(samples),
                low,
                high,
            ) == Ok::<(Seq<Double>, Double, Double), Fault>(
                (values::promoted_all(found), least, most),
            ) && found.len() == samples.len(),
            Err(e) => lerc1::blocks_written(
                parts,
                by,
                bx,
                k,
                values::promoted_all(samples),
                low,
                high,
            ) == Err::<(Seq<Double>, Double, Double), Fault>(e),
        },
    decreases parts.grid.blocks_y() - by, parts.grid.blocks_x() - bx,
{
    if by >= parts.grid.blocks_y() {
    } else if bx >= parts.grid.blocks_x() {
        assert((by + 1) * parts.grid.blocks_x() == by * parts.grid.blocks_x()
            + parts.grid.blocks_x()) by (nonlinear_arith);
        lemma_blocks_up(parts, by + 1, 0, k, samples, low, high);
    } else {
        let list = parts.grid.listed(parts.entries, bx, by);
        let block = parts.blocks[k as int];
        parts.grid.lemma_listed(parts.entries, bx, by);
        lerc1::lemma_block_index(parts.grid, by, bx);
        vstd::arithmetic::mul::lemma_mul_is_commutative(
            parts.grid.blocks_x() as int,
            parts.grid.blocks_y() as int,
        );
        let bound = parts.facts.max_z_error;
        if let Ok(found) = lerc1::block_values(block, list.len(), bound, parts.max_value) {
            lemma_shown_single(block, list.len(), bound, parts.max_value);
            let written = lerc1::shown_all(block, found);
            let narrow = lerc1::demoted_all::<Single>(written);
            assert(values::promoted_all(narrow) =~= lerc1::demoted_all::<Double>(written));
            lemma_scattered_up(samples, list, narrow, 1, 0, list.len());
            blocks::lemma_scattered_len(samples, list, narrow, 1, 0, list.len());
            lemma_blocks_up(
                parts,
                by,
                bx + 1,
                k + 1,
                blocks::scattered(samples, list, narrow, 1, 0, list.len()),
                lerc1::least(low, written),
                lerc1::greatest(high, written),
            );
        }
    }
}

proof fn lemma_lerc1_up(blob: Seq<u8>, shared: Option<Seq<u8>>, limited: bool)
    ensures
        promotes(
            lerc1::decoded::<Single>(blob, shared, limited),
            lerc1::decoded::<Double>(blob, shared, limited),
        ),
{
    lerc1::lemma_parsed_grid(blob, shared);
    if let Ok(parts) = lerc1::parsed(blob, shared) {
        let pixels = parts.grid.pixels();
        if limited && lerc1::output_fault::<Double>(pixels, limited) is None {
            lemma_smaller_fits(pixels, DataType::F32, "Lerc1 pixel buffer"@);
        }
        if doubles_fit(pixels) {
            lemma_doubles_fit(pixels, "Lerc1 pixel buffer"@);
        }
        lemma_zero_wide();
        assert(0 * parts.grid.blocks_x() == 0) by (nonlinear_arith);
        lemma_repeated(Single { bits: 0 }, pixels);
        lemma_blocks_up(
            parts,
            0,
            0,
            0,
            allocation::repeated(Single { bits: 0 }, pixels),
            lerc1::top(),
            lerc1::bottom(),
        );
    }
}

proof fn lemma_first_up<T: Sample>(
    blob: Seq<u8>,
    lerc1_mask: Option<Seq<u8>>,
    lerc2_mask: Option<Seq<u8>>,
    limited: bool,
)
    requires
        converts::<T>(),
        !lerc1::has_lerc1_magic(blob),
        lerc2_header::header_parsed(blob) matches Ok(h) ==> h.data_type == T::kind(),
    ensures
        promotes(
            reader::first_decoded::<T>(blob, lerc1_mask, lerc2_mask, limited),
            reader::first_decoded::<Double>(blob, lerc1_mask, lerc2_mask, limited),
        ),
{
    lemma_lerc2_up::<T>(blob, lerc2_mask, limited);
}

/// The sample types convert as their runtime types do.
proof fn lemma_all_convert()
    ensures
        converts::<i8>(),
        converts::<u8>(),
        converts::<i16>(),
        converts::<u16>(),
        converts::<i32>(),
        converts::<u32>(),
        converts::<Single>(),
        converts::<Double>(),
{
    lemma_zero_wide();
}

/// Decoding a blob to doubles gives what decoding it in its native type gives, every sample
/// promoted; and it succeeds wherever native decoding does and the doubles are within the limit
/// on allocations.
pub proof fn law_promoted_decode(
    blob: Seq<u8>,
    lerc1_mask: Option<Seq<u8>>,
    lerc2_mask: Option<Seq<u8>>,
)
    ensures
        reader::first_decoded::<Double>(blob, lerc1_mask, lerc2_mask, true) matches Ok(
            (facts, found, mask),
        ) ==> (reader::native_decoded(blob, lerc1_mask, lerc2_mask) matches Ok(
            (native_facts, pixels, entries),
        ) && native_facts == facts && entries == mask && values::promoted_pixels(pixels) == found),
        reader::native_decoded(blob, lerc1_mask, lerc2_mask) matches Ok((facts, pixels, entries))
            ==> doubles_fit(pixels.count()) ==> reader::first_decoded::<Double>(
            blob,
            lerc1_mask,
            lerc2_mask,
            true,
        ) == Ok::<(BlobFacts, Seq<Double>, Option<Seq<u8>>), Fault>(
            (facts, values::promoted_pixels(pixels), entries),
        ),
{
    lemma_all_convert();
    if lerc1::has_lerc1_magic(blob) {
        lemma_lerc1_up(blob, lerc1_mask, true);
    } else if let Ok(h) = lerc2_header::header_parsed(blob) {
        match h.data_type {
            DataType::I8 => {
                lemma_first_up::<i8>(blob, lerc1_mask, lerc2_mask, true);
            },
            DataType::U8 => {
                lemma_first_up::<u8>(blob, lerc1_mask, lerc2_mask, true);
            },
            DataType::I16 => {
                lemma_first_up::<i16>(blob, lerc1_mask, lerc2_mask, true);
            },
            DataType::U16 => {
                lemma_first_up::<u16>(blob, lerc1_mask, lerc2_mask, true);
            },
            DataType::I32 => {
                lemma_first_up::<i32>(blob, lerc1_mask, lerc2_mask, true);
            },
            DataType::U32 => {
                lemma_first_up::<u32>(blob, lerc1_mask, lerc2_mask, true);
            },
            DataType::F32 => {
                lemma_first_up::<Single>(blob, lerc1_mask, lerc2_mask, true);
            },
            DataType::F64 => {},
        }
    }
}

/// Promotion keeps every number: an integer becomes the double of that value, a single the
/// double of the same size and sign, and a double stays. A unit is `2^-1074`.
pub proof fn law_promotion_exact(pixels: PixelSeq, i: int)
    requires
        0 <= i < pixels.count(),
    ensures
        values::promoted_pixels(pixels).len() == pixels.count(),
        ({
            let r = values::promoted_pixels(pixels)[i];
            match pixels {
                PixelSeq::I8(found) => r.finite() && r.units() == found[i] * pow2(1074),
                PixelSeq::U8(found) => r.finite() && r.units() == found[i] * pow2(1074),
                PixelSeq::I16(found) => r.finite() && r.units() == found[i] * pow2(1074),
                PixelSeq::U16(found) => r.finite() && r.units() == found[i] * pow2(1074),
                PixelSeq::I32(found) => r.finite() && r.units() == found[i] * pow2(1074),
                PixelSeq::U32(found) => r.finite() && r.units() == found[i] * pow2(1074),
                PixelSeq::F32(found) => found[i].finite() ==> r.finite() && r.size()
                    == found[i].size() * pow2(925) && r.negative() == found[i].negative(),
                PixelSeq::F64(found) => r == found[i],
            }
        }),
{
    match pixels {
        PixelSeq::I8(found) => float::lemma_int_exact(found[i] as int),
        PixelSeq::U8(found) => float::lemma_int_exact(found[i] as int),
        PixelSeq::I16(found) => float::lemma_int_exact(found[i] as int),
        PixelSeq::U16(found) => float::lemma_int_exact(found[i] as int),
        PixelSeq::I32(found) => float::lemma_int_exact(found[i] as int),
        PixelSeq::U32(found) => float::lemma_int_exact(found[i] as int),
        PixelSeq::F32(found) => {
            if found[i].finite() {
                float::lemma_widen_exact(found[i]);
            }
        },
        PixelSeq::F64(_) => {},
    }
}

} // verus!
