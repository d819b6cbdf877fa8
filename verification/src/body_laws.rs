//! What is read back of a body, in whichever way it is stored.

use crate::allocation;
use crate::analysis::Findings;
use crate::blocks;
use crate::bytes;
use crate::error::Fault;
use crate::float;
use crate::float::Double;
use crate::huffman_laws;
use crate::huffman_writer;
use crate::lerc2;
use crate::lerc2_body;
use crate::lerc2_header::Lerc2Header;
use crate::lerc2_huffman;
use crate::plan;
use crate::plan::{BodyShape, Frame};
use crate::raster;
use crate::sample::Sample;
use crate::tile_laws;
use crate::tile_laws::Span;
use crate::tiling;
use crate::tiling::TilingOptions;
use crate::tiling_laws;
use crate::types::DataType;
use crate::values;
use vstd::arithmetic::div_mod::*;
use vstd::prelude::*;

verus! {

/// Whether two masks declare the same pixels valid.
pub open spec fn masks_agree(a: Option<Seq<u8>>, b: Option<Seq<u8>>, pixels: nat) -> bool {
    forall|p: int|
        0 <= p < pixels ==> #[trigger] blocks::is_valid(a, p) == blocks::is_valid(b, p)
}

pub proof fn lemma_runs_agree(
    a: Option<Seq<u8>>,
    b: Option<Seq<u8>>,
    start: int,
    count: nat,
    pixels: nat,
)
    requires
        masks_agree(a, b, pixels),
        0 <= start,
        start + count <= pixels,
    ensures
        blocks::run_pixels(a, start, count) == blocks::run_pixels(b, start, count),
    decreases count,
{
    if count > 0 {
        lemma_runs_agree(a, b, start, (count - 1) as nat, pixels);
        assert(blocks::is_valid(a, start + count - 1) == blocks::is_valid(b, start + count - 1));
    }
}

proof fn lemma_blocks_agree(
    a: Option<Seq<u8>>,
    b: Option<Seq<u8>>,
    width: nat,
    height: nat,
    x: nat,
    y: nat,
    cols: nat,
    rows: nat,
)
    requires
        masks_agree(a, b, width * height),
        x + cols <= width,
        y + rows <= height,
    ensures
        blocks::block_pixels(a, width as int, x as int, y as int, cols, rows)
            == blocks::block_pixels(b, width as int, x as int, y as int, cols, rows),
    decreases rows,
{
    if rows > 0 {
        lemma_blocks_agree(a, b, width, height, x, y, cols, (rows - 1) as nat);
        let row = (y + rows - 1) as nat;
        let start = row * width + x;
        assert(start + cols <= width * height) by (nonlinear_arith)
            requires
                start == row * width + x,
                x + cols <= width,
                row + 1 <= height,
        ;
        lemma_runs_agree(a, b, start as int, cols, width * height);
    }
}

/// Masks that agree lead to the same tiles.
pub proof fn lemma_tiles_agree<T: Sample>(
    o: TilingOptions,
    a: Option<Seq<u8>>,
    b: Option<Seq<u8>>,
    samples: Seq<T>,
    by: nat,
    bx: nat,
    dim: nat,
)
    requires
        o.wf(),
        masks_agree(a, b, o.pixels()),
    ensures
        tiling::planned(o, a, samples, by, bx, dim) == tiling::planned(
            o,
            b,
            samples,
            by,
            bx,
            dim,
        ),
    decreases o.down() - by, o.across() - bx, o.depth - dim,
{
    if by >= o.down() {
    } else if bx >= o.across() {
        lemma_tiles_agree(o, a, b, samples, by + 1, 0, 0);
    } else if dim >= o.depth {
        lemma_tiles_agree(o, a, b, samples, by, bx + 1, 0);
    } else {
        lemma_tiles_agree(o, a, b, samples, by, bx, dim + 1);
        lemma_lists_agree(o, a, b, by, bx);
        assert(tiling::shape_at(o, a, samples, by as int, bx as int, dim as int)
            == tiling::shape_at(o, b, samples, by as int, bx as int, dim as int));
    }
}

/// Masks that agree leave the same pixels of a block.
proof fn lemma_lists_agree(
    o: TilingOptions,
    a: Option<Seq<u8>>,
    b: Option<Seq<u8>>,
    by: nat,
    bx: nat,
)
    requires
        o.wf(),
        masks_agree(a, b, o.pixels()),
        by < o.down(),
        bx < o.across(),
    ensures
        o.listed(a, bx as int, by as int) == o.listed(b, bx as int, by as int),
{
    let micro = o.micro_block_size as int;
    lerc2_body::lemma_block_extent(o.width as int, micro, bx as int);
    lerc2_body::lemma_block_extent(o.height as int, micro, by as int);
    lemma_blocks_agree(
        a,
        b,
        o.width as nat,
        o.height as nat,
        (bx * micro) as nat,
        (by * micro) as nat,
        lerc2_body::block_extent(o.width as int, micro, bx as int) as nat,
        lerc2_body::block_extent(o.height as int, micro, by as int) as nat,
    );
}

/// Masks that agree lead to the same levels.
proof fn lemma_rebuilds_agree<T: Sample>(
    o: TilingOptions,
    a: Option<Seq<u8>>,
    b: Option<Seq<u8>>,
    samples: Seq<T>,
    ranges: Option<(Seq<Double>, Seq<Double>)>,
    z_max: Double,
)
    requires
        o.wf(),
        masks_agree(a, b, o.pixels()),
        tiling_laws::rebuilds(o, b, samples, ranges, z_max),
    ensures
        tiling_laws::rebuilds(o, a, samples, ranges, z_max),
{
    reveal(tiling_laws::rebuilds);
    assert forall|by: nat, bx: nat, dim: nat|
        by < o.down() && bx < o.across() && dim
            < o.depth implies #[trigger] tiling_laws::tile_rebuilds(
        o,
        a,
        samples,
        ranges,
        z_max,
        by,
        bx,
        dim,
    ) by {
        lemma_lists_agree(o, a, b, by, bx);
        assert(tiling_laws::tile_rebuilds(o, b, samples, ranges, z_max, by, bx, dim));
    }
}

/// Masks that agree lead to the same differences.
pub proof fn lemma_deltas_agree<T: Sample>(
    a: Option<Seq<u8>>,
    b: Option<Seq<u8>>,
    pixels: nat,
    width: int,
    depth: int,
    signed: bool,
    list: Seq<int>,
    samples: Seq<T>,
    dim: nat,
    i: nat,
    last: int,
)
    requires
        masks_agree(a, b, pixels),
        width > 0,
        forall|j: int| 0 <= j < list.len() ==> 0 <= #[trigger] list[j] < pixels,
    ensures
        huffman_writer::delta_symbols(a, width, depth, signed, list, samples, dim, i, last)
            == huffman_writer::delta_symbols(b, width, depth, signed, list, samples, dim, i, last),
    decreases depth - dim, list.len() - i,
{
    if dim >= depth {
    } else if i >= list.len() {
        lemma_deltas_agree(a, b, pixels, width, depth, signed, list, samples, dim + 1, 0, 0);
    } else {
        let pixel = list[i as int];
        let value = lerc2_huffman::sample_int(samples[pixel * depth + dim]);
        if pixel % width > 0 {
            if pixel == 0 {
                lemma_small_mod(0, width as nat);
            }
            assert(blocks::is_valid(a, pixel - 1) == blocks::is_valid(b, pixel - 1));
        }
        if pixel >= width {
            assert(blocks::is_valid(a, pixel - width) == blocks::is_valid(b, pixel - width));
        }
        lemma_deltas_agree(a, b, pixels, width, depth, signed, list, samples, dim, i + 1, value);
    }
}

/// What writing rows does to every cell.
proof fn lemma_rows_written<T>(
    samples: Seq<T>,
    list: Seq<int>,
    rows: spec_fn(int) -> Seq<T>,
    depth: int,
    n: nat,
    pixels: nat,
)
    requires
        depth > 0,
        n <= list.len(),
        samples.len() == pixels * depth,
        forall|i: int| 0 <= i < list.len() ==> 0 <= #[trigger] list[i] < pixels,
        forall|i: int, j: int|
            #![trigger list[i], list[j]]
            0 <= i < j < list.len() ==> list[i] < list[j],
    ensures
        lerc2_body::pixels_written(samples, list, rows, depth, n).len() == samples.len(),
        forall|i: int, d: int|
            0 <= i < n && 0 <= d < depth ==> #[trigger] tiling_laws::cell(
                lerc2_body::pixels_written(samples, list, rows, depth, n),
                depth,
                list[i],
                d,
            ) == rows(i)[d],
        forall|p: int, d: int|
            0 <= p < pixels && 0 <= d < depth && !list.contains(p) ==> #[trigger] tiling_laws::cell(
                lerc2_body::pixels_written(samples, list, rows, depth, n),
                depth,
                p,
                d,
            ) == tiling_laws::cell(samples, depth, p, d),
    decreases n,
{
    if n > 0 {
        let m = (n - 1) as nat;
        lemma_rows_written(samples, list, rows, depth, m, pixels);
        let before = lerc2_body::pixels_written(samples, list, rows, depth, m);
        let after = lerc2_body::pixels_written(samples, list, rows, depth, n);
        let q = list[m as int];
        assert forall|i: int, d: int| 0 <= i < n && 0 <= d < depth implies #[trigger] tiling_laws::cell(
            after,
            depth,
            list[i],
            d,
        ) == rows(i)[d] by {
            raster::lemma_sample_index(list[i] as nat, depth as nat, d as nat, pixels);
            if i < m {
                assert(tiling_laws::cell(before, depth, list[i], d) == rows(i)[d]);
                let at = list[i] * depth + d;
                if q * depth <= at < q * depth + depth {
                    tiling_laws::lemma_cell_places(list[i], d, q, at - q * depth, depth);
                }
            }
        }
        assert forall|p: int, d: int|
            0 <= p < pixels && 0 <= d < depth && !list.contains(p) implies #[trigger] tiling_laws::cell(
            after,
            depth,
            p,
            d,
        ) == tiling_laws::cell(samples, depth, p, d) by {
            raster::lemma_sample_index(p as nat, depth as nat, d as nat, pixels);
            assert(tiling_laws::cell(before, depth, p, d) == tiling_laws::cell(
                samples,
                depth,
                p,
                d,
            ));
            let at = p * depth + d;
            if q * depth <= at < q * depth + depth {
                tiling_laws::lemma_cell_places(p, d, q, at - q * depth, depth);
                assert(list.contains(list[m as int]));
            }
        }
    }
}

/// The rows of the listed pixels, one after the other.
proof fn lemma_listed_rows<T>(samples: Seq<T>, list: Seq<int>, depth: nat, n: nat, pixels: nat)
    requires
        n <= list.len(),
        samples.len() == pixels * depth,
        forall|i: int| 0 <= i < list.len() ==> 0 <= #[trigger] list[i] < pixels,
    ensures
        plan::listed_rows(samples, list, depth as int, n).len() == n * depth,
        forall|i: int, d: int|
            0 <= i < n && 0 <= d < depth ==> #[trigger] tiling_laws::cell(
                plan::listed_rows(samples, list, depth as int, n),
                depth as int,
                i,
                d,
            ) == tiling_laws::cell(samples, depth as int, list[i], d),
    decreases n,
{
    if n > 0 {
        let m = (n - 1) as nat;
        lemma_listed_rows(samples, list, depth, m, pixels);
        let q = list[m as int];
        assert(0 <= q * depth && q * depth + depth <= pixels * depth) by (nonlinear_arith)
            requires
                0 <= q,
                q + 1 <= pixels,
                depth >= 0,
        ;
        let before = plan::listed_rows(samples, list, depth as int, m);
        let after = plan::listed_rows(samples, list, depth as int, n);
        assert(m * depth + depth == n * depth) by (nonlinear_arith)
            requires
                n == m + 1,
        ;
        assert forall|i: int, d: int| 0 <= i < n && 0 <= d < depth implies #[trigger] tiling_laws::cell(
            after,
            depth as int,
            i,
            d,
        ) == tiling_laws::cell(samples, depth as int, list[i], d) by {
            if i < m {
                raster::lemma_sample_index(i as nat, depth, d as nat, m);
                assert(tiling_laws::cell(before, depth as int, i, d) == tiling_laws::cell(
                    samples,
                    depth as int,
                    list[i],
                    d,
                ));
            }
        }
    } else {
        assert(0 * depth == 0) by (nonlinear_arith);
    }
}

/// What the analysis of a raster tells about its samples, where no level overflows.
pub open spec fn sound<T: Sample>(found: Findings<T>, frame: Frame) -> bool {
    &&& bounded(found, frame)
    &&& !T::kind().integer() && tiled(found, frame) ==> tiling_laws::rebuilds(
        frame.tiling(found.max_z_error),
        found.mask,
        found.samples,
        found.ranges,
        found.z_max,
    )
}

/// Whether a raster is stored as tiles.
pub open spec fn tiled<T: Sample>(found: Findings<T>, frame: Frame) -> bool {
    plan::body_planned(found, frame) matches Ok((_, shape)) && shape is Tiled
}

/// What the analysis of a raster tells about its samples.
pub open spec fn bounded<T: Sample>(found: Findings<T>, frame: Frame) -> bool {
    &&& plan::plannable(found, frame)
    &&& frame.width > 0
    &&& frame.height > 0
    &&& found.valid <= u32::MAX
    &&& tile_laws::bound_stands(T::kind(), found.max_z_error)
    &&& found.z_min.finite()
    &&& found.z_max.finite()
    &&& !found.z_max.below(found.z_min)
    &&& found.ranges is Some <==> found.valid != 0 && !found.z_min.same(found.z_max)
    &&& found.ranges matches Some((low, high)) ==> forall|d: int|
        0 <= d < frame.depth ==> bounds_kept::<T>(low[d], #[trigger] high[d])
            && !high[d].below(found.z_min) && !found.z_max.below(high[d])
    &&& forall|p: int, d: int|
        0 <= p < frame.pixels() && 0 <= d < frame.depth && blocks::is_valid(found.mask, p)
            ==> cell_bounded(
            found,
            d,
            #[trigger] tiling_laws::cell(found.samples, frame.depth as int, p, d),
        )
    &&& found.original_no_data is Some ==> found.sentinel
    &&& found.original_no_data is Some <==> found.encoded_no_data is Some
    &&& found.original_no_data matches Some(v) ==> frame.depth > 1 && v.finite()
    &&& found.encoded_no_data matches Some(v) ==> v.finite()
}

/// Whether two bounds are ordinary numbers in order that the sample type keeps.
pub open spec fn bounds_kept<T: Sample>(low: Double, high: Double) -> bool {
    &&& low.finite()
    &&& high.finite()
    &&& !high.below(low)
    &&& values::coerced(low, T::kind()) == low
    &&& values::coerced(high, T::kind()) == high
    &&& T::kind().integer() ==> exists|z: int|
        high == #[trigger] float::double_of_int(z) && T::kind().least() <= z <= T::kind().most()
}

/// Whether a sample lies within the bounds of its raster and of its depth.
pub open spec fn cell_bounded<T: Sample>(found: Findings<T>, d: int, sample: T) -> bool {
    &&& sample.promoted().finite()
    &&& !sample.promoted().below(found.z_min)
    &&& !found.z_max.below(sample.promoted())
    &&& found.ranges matches Some((low, high)) ==> !sample.promoted().below(low[d])
        && !high[d].below(sample.promoted())
}

/// Whether a header describes a raster.
pub open spec fn describes<T: Sample>(
    h: Lerc2Header,
    found: Findings<T>,
    frame: Frame,
    version: u32,
) -> bool {
    &&& h.version == version
    &&& h.data_type == T::kind()
    &&& h.width == frame.width
    &&& h.height == frame.height
    &&& h.depth == frame.depth
    &&& h.micro_block_size == frame.micro_block_size
    &&& h.valid_pixel_count == found.valid
    &&& h.max_z_error == found.max_z_error
    &&& h.z_min == found.z_min
    &&& h.z_max == found.z_max
}

/// The same number, or both zeros, are kept under any bound.
proof fn lemma_constant_cell<T: Sample>(
    low: Double,
    high: Double,
    sample: T,
    bound: Double,
    span: Span,
)
    requires
        low.same(high),
        low.finite(),
        high.finite(),
        sample.promoted().finite(),
        !sample.promoted().below(low),
        !high.below(sample.promoted()),
    ensures
        tile_laws::stored_kept(T::demoted(high), sample, bound, span),
{
    assert(high.same(sample.promoted()));
    tile_laws::lemma_same_demotes(high, sample);
    tile_laws::lemma_same_stored(T::demoted(high), sample, bound, span);
}

/// Rows that hold the samples to within the bound restore the body.
proof fn lemma_rows_restore<T: Sample>(
    h: Lerc2Header,
    mask: Option<Seq<u8>>,
    stored: Seq<T>,
    blank: Seq<T>,
    rows: spec_fn(int) -> Seq<T>,
)
    requires
        h.depth > 0,
        stored.len() == h.pixels() * h.depth as nat,
        blank.len() == stored.len(),
        forall|i: int, d: int|
            0 <= i < blocks::run_pixels(mask, 0, h.pixels()).len() && 0 <= d < h.depth
                ==> tile_laws::stored_kept(
                #[trigger] rows(i)[d],
                tiling_laws::cell(
                    stored,
                    h.depth as int,
                    blocks::run_pixels(mask, 0, h.pixels())[i],
                    d,
                ),
                h.max_z_error,
                tiling_laws::header_span(h),
            ),
    ensures
        ({
            let list = blocks::run_pixels(mask, 0, h.pixels());
            tiling_laws::body_restored(
                h,
                mask,
                stored,
                blank,
                lerc2_body::pixels_written(blank, list, rows, h.depth as int, list.len()),
            )
        }),
{
    let list = blocks::run_pixels(mask, 0, h.pixels());
    let depth = h.depth as int;
    blocks::lemma_run_pixels(mask, 0, h.pixels());
    assert forall|i: int| 0 <= i < list.len() implies 0 <= #[trigger] list[i] < h.pixels() by {}
    assert forall|i: int, j: int|
        #![trigger list[i], list[j]]
        0 <= i < j < list.len() implies list[i] < list[j] by {}
    lemma_rows_written(blank, list, rows, depth, list.len(), h.pixels());
    let read = lerc2_body::pixels_written(blank, list, rows, depth, list.len());
    assert forall|p: int, d: int|
        0 <= p < h.pixels() && 0 <= d < h.depth && blocks::is_valid(mask, p) implies tile_laws::stored_kept(
        #[trigger] tiling_laws::cell(read, depth, p, d),
        tiling_laws::cell(stored, depth, p, d),
        h.max_z_error,
        tiling_laws::header_span(h),
    ) by {
        tiling_laws::lemma_run_has(mask, 0, h.pixels(), p);
        let i = choose|i: int| 0 <= i < list.len() && list[i] == p;
        assert(tiling_laws::cell(read, depth, list[i], d) == rows(i)[d]);
    }
    assert forall|p: int, d: int|
        0 <= p < h.pixels() && 0 <= d < h.depth && !blocks::is_valid(mask, p) implies #[trigger] tiling_laws::cell(
        read,
        depth,
        p,
        d,
    ) == tiling_laws::cell(blank, depth, p, d) by {
        tiling_laws::lemma_run_has(mask, 0, h.pixels(), p);
    }
}

/// The rows of samples written without loss.
#[verifier::rlimit(30)]
proof fn lemma_sweep_back<T: Sample>(
    h: Lerc2Header,
    mask: Option<Seq<u8>>,
    all: Seq<u8>,
    pos: int,
    stored: Seq<T>,
    blank: Seq<T>,
) -> (read: Seq<T>)
    requires
        h.data_type == T::kind(),
        h.depth > 0,
        h.valid_pixel_count == blocks::run_pixels(mask, 0, h.pixels()).len(),
        stored.len() == h.pixels() * h.depth as nat,
        blank.len() == stored.len(),
        stored.len() * T::kind().width() <= allocation::MAX_DECODED_ALLOCATION_BYTES,
        all.len() <= usize::MAX,
        forall|p: int, d: int|
            0 <= p < h.pixels() && 0 <= d < h.depth && blocks::is_valid(mask, p) ==> (
            #[trigger] tiling_laws::cell(stored, h.depth as int, p, d)).promoted().finite(),
        ({
            let list = blocks::run_pixels(mask, 0, h.pixels());
            bytes::stands_at(
                all,
                pos,
                values::encoded_all(
                    plan::listed_rows(stored, list, h.depth as int, list.len()),
                ),
            )
        }),
    ensures
        ({
            let list = blocks::run_pixels(mask, 0, h.pixels());
            lerc2::sweep_read(h, mask, all, pos, blank) == Ok::<(Seq<T>, int), Fault>(
                (
                    read,
                    pos + values::encoded_all(
                        plan::listed_rows(stored, list, h.depth as int, list.len()),
                    ).len(),
                ),
            )
        }),
        tiling_laws::body_restored(h, mask, stored, blank, read),
{
    let list = blocks::run_pixels(mask, 0, h.pixels());
    let depth = h.depth as int;
    let width = T::kind().width();
    blocks::lemma_run_pixels(mask, 0, h.pixels());
    assert forall|i: int| 0 <= i < list.len() implies 0 <= #[trigger] list[i] < h.pixels()
        && blocks::is_valid(mask, list[i]) by {}
    lemma_listed_rows(stored, list, depth as nat, list.len(), h.pixels());
    let raw = plan::listed_rows(stored, list, depth, list.len());
    values::lemma_encoded_len(raw);
    values::law_samples_roundtrip(raw);
    let count = h.valid_pixel_count as nat * h.depth as nat;
    assert(count * width <= stored.len() * width) by (nonlinear_arith)
        requires
            count == h.valid_pixel_count as nat * h.depth as nat,
            h.valid_pixel_count as nat <= h.pixels(),
            stored.len() == h.pixels() * h.depth as nat,
            width >= 0,
    ;
    let field = values::encoded_all(raw);
    assert(values::converted::<T>(field, h.data_type) == raw);
    let rows = |i: int| raw.subrange(i * depth, i * depth + depth);
    assert forall|i: int, d: int| 0 <= i < list.len() && 0 <= d < h.depth implies tile_laws::stored_kept(
        #[trigger] rows(i)[d],
        tiling_laws::cell(stored, depth, list[i], d),
        h.max_z_error,
        tiling_laws::header_span(h),
    ) by {
        raster::lemma_sample_index(i as nat, depth as nat, d as nat, list.len());
        assert(i * depth + depth <= list.len() * depth && 0 <= i * depth) by (nonlinear_arith)
            requires
                0 <= i,
                i + 1 <= list.len(),
                depth > 0,
        ;
        assert(rows(i)[d] == tiling_laws::cell(raw, depth, i, d));
        let sample = tiling_laws::cell(stored, depth, list[i], d);
        assert(sample.promoted().finite());
        tile_laws::lemma_same_stored(
            sample,
            sample,
            h.max_z_error,
            tiling_laws::header_span(h),
        );
    }
    lemma_rows_restore(h, mask, stored, blank, rows);
    lerc2_body::swept(blank, list, raw, depth)
}

/// The bounds of the depths limit the samples of every tile.
proof fn lemma_limited<T: Sample>(found: Findings<T>, frame: Frame, h: Lerc2Header, d: int)
    requires
        sound(found, frame),
        describes(h, found, frame, h.version),
        found.ranges is Some,
        0 <= d < frame.depth,
    ensures
        tiling_laws::depth_limited(
            found.samples,
            found.mask,
            h.pixels(),
            h.depth as int,
            d,
            lerc2_body::depth_max(h, found.ranges, d),
            tiling_laws::header_span(h).reach,
        ),
{
    let (low, high) = found.ranges->0;
    assert(bounds_kept::<T>(low[d], high[d]));
    if T::kind().integer() {
        let z = choose|z: int|
            high[d] == #[trigger] float::double_of_int(z) && T::kind().least() <= z
                <= T::kind().most();
        assert forall|p: int| 0 <= p < h.pixels() && blocks::is_valid(found.mask, p) implies (
        #[trigger] tiling_laws::cell(found.samples, h.depth as int, p, d)).number() <= z by {
            let sample = tiling_laws::cell(found.samples, h.depth as int, p, d);
            assert(cell_bounded(found, d, sample));
            sample.law_integer();
            float::lemma_int_exact(z);
            float::lemma_int_exact(sample.number());
            float::lemma_order(high[d], sample.promoted());
            let w = vstd::arithmetic::power2::pow2(1074);
            vstd::arithmetic::power2::lemma_pow2_pos(1074);
            assert(sample.number() <= z) by (nonlinear_arith)
                requires
                    z * w >= sample.number() * w,
                    w > 0,
            ;
        }
    } else {
        lemma_between(high[d], found.z_min, found.z_max);
        assert forall|p: int| 0 <= p < h.pixels() && blocks::is_valid(found.mask, p) implies (
        #[trigger] tiling_laws::cell(found.samples, h.depth as int, p, d)).promoted().size()
            <= tiling_laws::header_span(h).reach && !high[d].below(
            tiling_laws::cell(found.samples, h.depth as int, p, d).promoted(),
        ) by {
            let sample = tiling_laws::cell(found.samples, h.depth as int, p, d);
            assert(cell_bounded(found, d, sample));
            lemma_between(sample.promoted(), found.z_min, found.z_max);
        }
    }
}

/// What lies between two numbers reaches no further than they do.
pub proof fn lemma_between(value: Double, low: Double, high: Double)
    requires
        value.finite(),
        low.finite(),
        high.finite(),
        !value.below(low),
        !high.below(value),
    ensures
        value.size() <= tile_laws::reach_of(low, high),
{
    float::lemma_order(value, low);
    float::lemma_order(high, value);
}

/// What reading a body relies on.
pub open spec fn body_stands<T: Sample>(
    h: Lerc2Header,
    found: Findings<T>,
    frame: Frame,
    version: u32,
    shape: BodyShape,
    all: Seq<u8>,
    pos: int,
    blank: Seq<T>,
) -> bool {
    &&& sound(found, frame)
    &&& describes(h, found, frame, version)
    &&& plan::body_planned(found, frame) == Ok::<(u32, BodyShape), Fault>((version, shape))
    &&& found.samples.len() * T::kind().width() <= allocation::MAX_DECODED_ALLOCATION_BYTES
    &&& blank.len() == found.samples.len()
    &&& all.len() <= usize::MAX
    &&& bytes::stands_at(all, pos, plan::body_bytes(found, frame, version, shape))
    &&& all.len() == pos + plan::body_bytes(found, frame, version, shape).len()
}

/// Every valid sample is an ordinary number.
proof fn lemma_cells_finite<T: Sample>(found: Findings<T>, frame: Frame)
    requires
        sound(found, frame),
    ensures
        forall|p: int, d: int|
            0 <= p < frame.pixels() && 0 <= d < frame.depth && blocks::is_valid(found.mask, p) ==> (
            #[trigger] tiling_laws::cell(
                found.samples,
                frame.depth as int,
                p,
                d,
            )).promoted().finite(),
{
    assert forall|p: int, d: int|
        0 <= p < frame.pixels() && 0 <= d < frame.depth && blocks::is_valid(found.mask, p) implies (
    #[trigger] tiling_laws::cell(found.samples, frame.depth as int, p, d)).promoted().finite() by {
        assert(cell_bounded(
            found,
            d,
            tiling_laws::cell(found.samples, frame.depth as int, p, d),
        ));
    }
}

/// Reading a body of which nothing is stored.
#[verifier::rlimit(40)]
proof fn lemma_constant_back<T: Sample>(
    h: Lerc2Header,
    found: Findings<T>,
    frame: Frame,
    version: u32,
    shape: BodyShape,
    all: Seq<u8>,
    pos: int,
    blank: Seq<T>,
) -> (read: Seq<T>)
    requires
        body_stands(h, found, frame, version, shape, all, pos, blank),
        plan::constant(found),
    ensures
        lerc2::body_read(h, found.ranges, found.mask, all, pos, blank) == Ok::<
            (Seq<T>, int),
            Fault,
        >((read, all.len() as int)),
        tiling_laws::body_restored(h, found.mask, found.samples, blank, read),
{
    let mask = found.mask;
    let list = blocks::run_pixels(mask, 0, h.pixels());
    let depth = h.depth as int;
    let span = tiling_laws::header_span(h);
    blocks::lemma_run_pixels(mask, 0, h.pixels());
    if found.valid == 0 {
        assert(list.len() == 0);
        assert forall|p: int| 0 <= p < h.pixels() implies !#[trigger] blocks::is_valid(
            mask,
            p,
        ) by {
            tiling_laws::lemma_run_has(mask, 0, h.pixels(), p);
        }
        blank
    } else {
        let tops = if found.z_min.same(found.z_max) {
            allocation::repeated(found.z_max, h.depth as nat)
        } else {
            (found.ranges->0).1
        };
        let row = Seq::new(h.depth as nat, |d: int| T::demoted(tops[d]));
        let rows = |i: int| row;
        assert forall|i: int, d: int|
            0 <= i < list.len() && 0 <= d < h.depth implies tile_laws::stored_kept(
            #[trigger] rows(i)[d],
            tiling_laws::cell(found.samples, depth, list[i], d),
            h.max_z_error,
            span,
        ) by {
            let sample = tiling_laws::cell(found.samples, depth, list[i], d);
            assert(0 <= list[i] < h.pixels() && blocks::is_valid(mask, list[i]));
            assert(cell_bounded(found, d, sample));
            if found.z_min.same(found.z_max) {
                lemma_constant_cell(found.z_min, found.z_max, sample, h.max_z_error, span);
            } else {
                let (low, high) = found.ranges->0;
                assert(bounds_kept::<T>(low[d], high[d]));
                assert(low[d].same(high[d]));
                lemma_constant_cell(low[d], high[d], sample, h.max_z_error, span);
            }
        }
        lemma_rows_restore(h, mask, found.samples, blank, rows);
        let wanted = if found.z_min.same(found.z_max) {
            allocation::repeated(values::output::<T>(h.z_max, h.data_type), h.depth as nat)
        } else {
            lerc2::outputs::<T>(tops, h)
        };
        assert(wanted =~= row);
        lerc2_body::constant_written(blank, list, row, depth)
    }
}

/// Reading a tiled body.
#[verifier::rlimit(40)]
proof fn lemma_tiled_back<T: Sample>(
    h: Lerc2Header,
    found: Findings<T>,
    frame: Frame,
    version: u32,
    shape: BodyShape,
    all: Seq<u8>,
    pos: int,
    blank: Seq<T>,
) -> (read: Seq<T>)
    requires
        body_stands(h, found, frame, version, shape, all, pos, blank),
        !plan::constant(found),
        shape is Tiled,
    ensures
        lerc2::body_read(h, found.ranges, found.mask, all, pos, blank) == Ok::<
            (Seq<T>, int),
            Fault,
        >((read, all.len() as int)),
        tiling_laws::body_restored(h, found.mask, found.samples, blank, read),
{
    let mask = found.mask;
    let list = blocks::run_pixels(mask, 0, h.pixels());
    let depth = h.depth as int;
    let reach = tiling_laws::header_span(h).reach;
    let tiles = tiling::planned(
        frame.tiling(found.max_z_error),
        mask,
        found.samples,
        0,
        0,
        0,
    );
    let body = plan::body_bytes(found, frame, version, shape);
    assert(lerc2::constant_ranges(found.ranges) is None);
    lemma_cells_finite(found, frame);
    let flagged = lerc2_body::has_mode(T::kind(), found.max_z_error, version);
    let flag = if flagged {
        seq![0u8]
    } else {
        seq![]
    };
    let part = tiling::tiles_bytes(tiles, version);
    assert(body == seq![0u8] + flag + part);
    bytes::lemma_stands_split(all, pos, seq![0u8] + flag, part);
    bytes::lemma_stands_split(all, pos, seq![0u8], flag);
    assert(all.subrange(pos, pos + 1)[0] == 0u8);
    if flagged {
        assert(all.subrange(pos + 1, pos + 2)[0] == 0u8);
    }
    assert forall|d: int| 0 <= d < h.depth implies tiling_laws::depth_limited(
        found.samples,
        mask,
        h.pixels(),
        h.depth as int,
        d,
        #[trigger] lerc2_body::depth_max(h, found.ranges, d),
        reach,
    ) by {
        lemma_limited(found, frame, h, d);
    }
    assert(tiling_laws::grid_of(h) == frame.tiling(found.max_z_error));
    tiling::lemma_tiles_size(tiles, version);
    tiling_laws::law_tiles_roundtrip(
        h,
        found.ranges,
        mask,
        all,
        found.samples,
        blank,
        pos + (seq![0u8] + flag).len(),
    )
}

/// Reading a Huffman-coded body.
#[verifier::rlimit(40)]
proof fn lemma_coded_back<T: Sample>(
    h: Lerc2Header,
    found: Findings<T>,
    frame: Frame,
    version: u32,
    shape: BodyShape,
    all: Seq<u8>,
    pos: int,
    blank: Seq<T>,
    delta: bool,
    symbols: Seq<u8>,
) -> (read: Seq<T>)
    requires
        body_stands(h, found, frame, version, shape, all, pos, blank),
        !plan::constant(found),
        shape == BodyShape::Huffman(delta, symbols),
    ensures
        lerc2::body_read(h, found.ranges, found.mask, all, pos, blank) == Ok::<
            (Seq<T>, int),
            Fault,
        >((read, all.len() as int)),
        tiling_laws::body_restored(h, found.mask, found.samples, blank, read),
{
    let mask = found.mask;
    let list = blocks::run_pixels(mask, 0, h.pixels());
    let depth = h.depth as int;
    let span = tiling_laws::header_span(h);
    let body = plan::body_bytes(found, frame, version, shape);
    assert(lerc2::constant_ranges(found.ranges) is None);
    lemma_cells_finite(found, frame);
    let entries = huffman_writer::codes_for(symbols)->0;
    let head = seq![
        0u8,
        if delta {
            1u8
        } else {
            2u8
        },
    ];
    let part = huffman_writer::table_bytes(entries) + huffman_writer::payload_bytes(
        entries,
        symbols,
    );
    assert(body =~= head + part);
    bytes::lemma_stands_split(all, pos, head, part);
    assert(all.subrange(pos, pos + 2) == head);
    assert(all.subrange(pos, pos + 1)[0] == head[0]) by {
        assert(all.subrange(pos, pos + 2)[0] == head[0]);
    }
    assert(all.subrange(pos + 1, pos + 2)[0] == head[1]) by {
        assert(all.subrange(pos, pos + 2)[1] == head[1]);
    }
    assert(symbols == huffman_laws::raster_symbols(h, mask, delta, found.samples));
    let read = huffman_laws::law_huffman_roundtrip(
        h,
        mask,
        all,
        pos + 2,
        delta,
        found.samples,
        blank,
    );
    assert forall|p: int, d: int|
        0 <= p < h.pixels() && 0 <= d < h.depth && blocks::is_valid(mask, p) implies tile_laws::stored_kept(
        #[trigger] tiling_laws::cell(read, depth, p, d),
        tiling_laws::cell(found.samples, depth, p, d),
        h.max_z_error,
        span,
    ) by {
        assert(tiling_laws::cell(found.samples, depth, p, d).promoted().finite());
    }
    assert(lerc2_body::huffman_possible(T::kind(), found.max_z_error));
    assert(lerc2::mode_allowed(head[1], h.version));
    read
}

/// Reading a body gives every valid sample back within the error bound and leaves the others
/// alone.
#[verifier::rlimit(40)]
pub proof fn law_body_roundtrip<T: Sample>(
    h: Lerc2Header,
    found: Findings<T>,
    frame: Frame,
    version: u32,
    shape: BodyShape,
    all: Seq<u8>,
    pos: int,
    blank: Seq<T>,
) -> (read: Seq<T>)
    requires
        body_stands(h, found, frame, version, shape, all, pos, blank),
    ensures
        lerc2::body_read(h, found.ranges, found.mask, all, pos, blank) == Ok::<
            (Seq<T>, int),
            Fault,
        >((read, all.len() as int)),
        tiling_laws::body_restored(h, found.mask, found.samples, blank, read),
{
    if plan::constant(found) {
        lemma_constant_back(h, found, frame, version, shape, all, pos, blank)
    } else {
        match shape {
            BodyShape::Empty => blank,
            BodyShape::Sweep => {
                let list = blocks::run_pixels(found.mask, 0, h.pixels());
                let part = values::encoded_all(
                    plan::listed_rows(found.samples, list, h.depth as int, list.len()),
                );
                assert(lerc2::constant_ranges(found.ranges) is None);
                lemma_cells_finite(found, frame);
                bytes::lemma_stands_split(all, pos, seq![1u8], part);
                assert(all.subrange(pos, pos + 1)[0] == 1u8);
                lemma_sweep_back(h, found.mask, all, pos + 1, found.samples, blank)
            },
            BodyShape::Tiled(_) => lemma_tiled_back(
                h,
                found,
                frame,
                version,
                shape,
                all,
                pos,
                blank,
            ),
            BodyShape::Huffman(delta, symbols) => lemma_coded_back(
                h,
                found,
                frame,
                version,
                shape,
                all,
                pos,
                blank,
                delta,
                symbols,
            ),
        }
    }
}

/// Without a mask every pixel is listed.
pub proof fn lemma_unmasked(pixels: nat)
    ensures
        blocks::run_pixels(None, 0, pixels).len() == pixels,
    decreases pixels,
{
    if pixels > 0 {
        lemma_unmasked((pixels - 1) as nat);
    }
}

/// Masks that agree lead to the same plan and the same bytes.
pub proof fn lemma_found_agrees<T: Sample>(found: Findings<T>, seen: Findings<T>, frame: Frame)
    requires
        sound(found, frame),
        seen == (Findings { mask: seen.mask, ..found }),
        masks_agree(seen.mask, found.mask, frame.pixels()),
        blocks::mask_fits(seen.mask, frame.pixels()),
    ensures
        sound(seen, frame),
        plan::body_planned(seen, frame) == plan::body_planned(found, frame),
        forall|version: u32, shape: BodyShape|
            #[trigger] plan::body_bytes(seen, frame, version, shape) == plan::body_bytes(
                found,
                frame,
                version,
                shape,
            ),
{
    let pixels = frame.pixels();
    let list = blocks::run_pixels(found.mask, 0, pixels);
    lemma_runs_agree(seen.mask, found.mask, 0, pixels, pixels);
    blocks::lemma_run_pixels(found.mask, 0, pixels);
    assert forall|j: int| 0 <= j < list.len() implies 0 <= #[trigger] list[j] < pixels by {}
    lemma_tiles_agree(
        frame.tiling(found.max_z_error),
        seen.mask,
        found.mask,
        found.samples,
        0,
        0,
        0,
    );
    lemma_deltas_agree(
        seen.mask,
        found.mask,
        pixels,
        frame.width as int,
        frame.depth as int,
        T::kind() == DataType::I8,
        list,
        found.samples,
        0,
        0,
        0,
    );
    if !T::kind().integer() && tiled(found, frame) {
        lemma_rebuilds_agree(
            frame.tiling(found.max_z_error),
            seen.mask,
            found.mask,
            found.samples,
            found.ranges,
            found.z_max,
        );
    }
    assert(plan::plain_of(seen, frame) == plan::plain_of(found, frame));
    assert(plan::delta_of(seen, frame) == plan::delta_of(found, frame));
    assert forall|p: int, d: int|
        0 <= p < frame.pixels() && 0 <= d < frame.depth && blocks::is_valid(seen.mask, p) implies cell_bounded(
        seen,
        d,
        #[trigger] tiling_laws::cell(seen.samples, frame.depth as int, p, d),
    ) by {
        assert(cell_bounded(
            found,
            d,
            tiling_laws::cell(found.samples, frame.depth as int, p, d),
        ));
    }
}

/// What was restored under a mask is restored under one that agrees with it.
pub proof fn lemma_restored_agrees<T: Sample>(
    h: Lerc2Header,
    a: Option<Seq<u8>>,
    b: Option<Seq<u8>>,
    stored: Seq<T>,
    blank: Seq<T>,
    read: Seq<T>,
)
    requires
        masks_agree(a, b, h.pixels()),
        tiling_laws::body_restored(h, a, stored, blank, read),
    ensures
        tiling_laws::body_restored(h, b, stored, blank, read),
{
}

} // verus!
