//! What is read back of a tiled body.

use crate::blocks;
use crate::bytes;
use crate::error::Fault;
use crate::float;
use crate::float::Double;
use crate::lerc2_body;
use crate::lerc2_header::Lerc2Header;
use crate::raster;
use crate::sample::Sample;
use crate::tile_laws;
use crate::tile_laws::Span;
use crate::tiling;
use crate::tiling::{PlacedShape, TilingOptions};
use vstd::arithmetic::div_mod::*;
use vstd::arithmetic::mul::*;
use vstd::arithmetic::power2::*;
use vstd::prelude::*;

verus! {

/// The sample of a pixel at a depth.
pub open spec fn cell<T>(samples: Seq<T>, depth: int, pixel: int, dim: int) -> T {
    samples[pixel * depth + dim]
}

/// A run lists exactly its valid pixels.
pub proof fn lemma_run_has(mask: Option<Seq<u8>>, start: int, count: nat, p: int)
    ensures
        blocks::run_pixels(mask, start, count).contains(p) <==> start <= p < start + count
            && blocks::is_valid(mask, p),
    decreases count,
{
    let all = blocks::run_pixels(mask, start, count);
    if count > 0 {
        let before = blocks::run_pixels(mask, start, (count - 1) as nat);
        lemma_run_has(mask, start, (count - 1) as nat, p);
        let last = start + count - 1;
        if blocks::is_valid(mask, last) {
            if before.contains(p) {
                let i = choose|i: int| 0 <= i < before.len() && before[i] == p;
                assert(all[i] == p);
            }
            if p == last {
                assert(all[before.len() as int] == p);
            }
            if all.contains(p) {
                let i = choose|i: int| 0 <= i < all.len() && all[i] == p;
                if i < before.len() {
                    assert(before[i] == p);
                }
            }
        }
    }
}

/// A block lists exactly its valid pixels.
pub proof fn lemma_block_has(
    mask: Option<Seq<u8>>,
    width: nat,
    x: nat,
    y: nat,
    cols: nat,
    rows: nat,
    p: nat,
)
    requires
        width > 0,
        x + cols <= width,
    ensures
        blocks::block_pixels(mask, width as int, x as int, y as int, cols, rows).contains(p as int)
            <==> y <= p / width < y + rows && x <= p % width < x + cols && blocks::is_valid(
            mask,
            p as int,
        ),
    decreases rows,
{
    let all = blocks::block_pixels(mask, width as int, x as int, y as int, cols, rows);
    if rows > 0 {
        let r1 = (rows - 1) as nat;
        lemma_block_has(mask, width, x, y, cols, r1, p);
        let before = blocks::block_pixels(mask, width as int, x as int, y as int, cols, r1);
        let row = y + rows - 1;
        let start = row * width + x;
        let run = blocks::run_pixels(mask, start, cols);
        lemma_run_has(mask, start, cols, p as int);
        assert(all == before + run);
        lemma_fundamental_div_mod(p as int, width as int);
        let (q, c) = (p / width, p % width);
        assert(start <= p < start + cols <==> q == row && x <= c < x + cols) by {
            if start <= p < start + cols {
                lemma_fundamental_div_mod_converse(
                    p as int,
                    width as int,
                    row as int,
                    p - row * width,
                );
            }
            if q == row {
                lemma_mul_is_commutative(row as int, width as int);
            }
        }
        if all.contains(p as int) {
            let i = choose|i: int| 0 <= i < all.len() && all[i] == p;
            if i < before.len() {
                assert(before[i] == p);
            } else {
                assert(run[i - before.len()] == p);
            }
        }
        if before.contains(p as int) {
            let i = choose|i: int| 0 <= i < before.len() && before[i] == p;
            assert(all[i] == p);
        }
        if run.contains(p as int) {
            let i = choose|i: int| 0 <= i < run.len() && run[i] == p;
            assert(all[before.len() + i] == p);
        }
    }
}

/// An extent is divided into blocks: position `c` lies in block `c / micro` and in no other.
proof fn lemma_extent_block(extent: nat, micro: nat, c: nat, b: nat)
    requires
        micro > 0,
        c < extent,
        b < lerc2_body::block_count(extent as int, micro as int),
    ensures
        c / micro < lerc2_body::block_count(extent as int, micro as int),
        b * micro <= c < b * micro + lerc2_body::block_extent(
            extent as int,
            micro as int,
            b as int,
        ) <==> b == c / micro,
{
    let n = lerc2_body::block_count(extent as int, micro as int);
    lemma_fundamental_div_mod(extent + micro - 1, micro as int);
    lemma_fundamental_div_mod(c as int, micro as int);
    let q = c / micro;
    let r = c % micro;
    let t = (extent + micro - 1) % (micro as int);
    assert(q < n) by (nonlinear_arith)
        requires
            extent + micro - 1 == micro * n + t,
            t < micro,
            c == micro * q + r,
            r >= 0,
            c < extent,
            micro > 0,
    ;
    assert(b * micro == micro * b) by (nonlinear_arith);
    if b == q {
    } else if b < q {
        assert(b * micro + micro <= micro * q) by (nonlinear_arith)
            requires
                b + 1 <= q,
                micro > 0,
        ;
    } else {
        assert(b * micro >= micro * q + micro) by (nonlinear_arith)
            requires
                b >= q + 1,
                micro > 0,
        ;
    }
}

/// Every valid pixel is listed in exactly one block of the grid: the one that its column and
/// row fall into.
pub proof fn law_tiles_cover(o: TilingOptions, mask: Option<Seq<u8>>, pixel: nat, bx: nat, by: nat)
    requires
        o.wf(),
        pixel < o.pixels(),
        bx < o.across(),
        by < o.down(),
    ensures
        ({
            let micro = o.micro_block_size as nat;
            let column = pixel % o.width as nat;
            let row = pixel / o.width as nat;
            &&& column / micro < o.across()
            &&& row / micro < o.down()
            &&& o.listed(mask, bx as int, by as int).contains(pixel as int) <==> blocks::is_valid(
                mask,
                pixel as int,
            ) && bx == column / micro && by == row / micro
        }),
{
    let micro = o.micro_block_size as nat;
    let (w, h) = (o.width as nat, o.height as nat);
    let column = pixel % w;
    let row = pixel / w;
    lemma_mul_is_commutative(w as int, h as int);
    lemma_multiply_divide_lt(pixel as int, w as int, h as int);
    lemma_extent_block(w, micro, column, bx);
    lemma_extent_block(h, micro, row, by);
    lerc2_body::lemma_block_extent(w as int, micro as int, bx as int);
    lerc2_body::lemma_block_extent(h as int, micro as int, by as int);
    let cols = lerc2_body::block_extent(w as int, micro as int, bx as int) as nat;
    let rows = lerc2_body::block_extent(h as int, micro as int, by as int) as nat;
    lemma_block_has(mask, w, bx * micro, by * micro, cols, rows, pixel);
}

/// Two cells share a place only if they are one cell.
pub proof fn lemma_cell_places(p: int, d: int, q: int, e: int, depth: int)
    requires
        0 <= d < depth,
        0 <= e < depth,
        p * depth + d == q * depth + e,
    ensures
        p == q,
        d == e,
{
    assert(p == q) by (nonlinear_arith)
        requires
            0 <= d,
            d < depth,
            0 <= e,
            e < depth,
            p * depth + d == q * depth + e,
    ;
}

/// What scattering does to every cell.
pub proof fn lemma_scattered<T>(
    samples: Seq<T>,
    list: Seq<int>,
    found: Seq<T>,
    depth: int,
    dim: int,
    n: nat,
    pixels: nat,
)
    requires
        0 <= dim < depth,
        n <= list.len(),
        samples.len() == pixels * depth,
        forall|i: int| 0 <= i < list.len() ==> 0 <= #[trigger] list[i] < pixels,
        forall|i: int, j: int|
            #![trigger list[i], list[j]]
            0 <= i < j < list.len() ==> list[i] < list[j],
    ensures
        blocks::scattered(samples, list, found, depth, dim, n).len() == samples.len(),
        forall|i: int|
            0 <= i < n ==> cell(
                blocks::scattered(samples, list, found, depth, dim, n),
                depth,
                #[trigger] list[i],
                dim,
            ) == found[i],
        forall|p: int, d: int|
            0 <= p < pixels && 0 <= d < depth && (d != dim || !list.contains(p)) ==> #[trigger] cell(
                blocks::scattered(samples, list, found, depth, dim, n),
                depth,
                p,
                d,
            ) == cell(samples, depth, p, d),
    decreases n,
{
    if n > 0 {
        let m = (n - 1) as nat;
        lemma_scattered(samples, list, found, depth, dim, m, pixels);
        let before = blocks::scattered(samples, list, found, depth, dim, m);
        let after = blocks::scattered(samples, list, found, depth, dim, n);
        let q = list[m as int];
        raster::lemma_sample_index(q as nat, depth as nat, dim as nat, pixels);
        assert forall|i: int| 0 <= i < n implies cell(after, depth, #[trigger] list[i], dim)
            == found[i] by {
            raster::lemma_sample_index(list[i] as nat, depth as nat, dim as nat, pixels);
            if i < m {
                assert(cell(before, depth, list[i], dim) == found[i]);
                if list[i] * depth + dim == q * depth + dim {
                    lemma_cell_places(list[i], dim, q, dim, depth);
                }
            }
        }
        assert forall|p: int, d: int|
            0 <= p < pixels && 0 <= d < depth && (d != dim || !list.contains(p)) implies #[trigger] cell(
            after,
            depth,
            p,
            d,
        ) == cell(samples, depth, p, d) by {
            raster::lemma_sample_index(p as nat, depth as nat, d as nat, pixels);
            assert(cell(before, depth, p, d) == cell(samples, depth, p, d));
            if p * depth + d == q * depth + dim {
                lemma_cell_places(p, d, q, dim, depth);
            }
        }
    }
}

/// The grid of a header.
pub open spec fn grid_of(h: Lerc2Header) -> TilingOptions {
    TilingOptions {
        width: h.width,
        height: h.height,
        depth: h.depth,
        micro_block_size: h.micro_block_size,
        max_z_error: h.max_z_error,
    }
}

/// Whether the tile of a pixel and a depth comes before block (`bx`, `by`) and depth `dim`.
pub open spec fn tile_done(o: TilingOptions, pixel: nat, d: nat, by: nat, bx: nat, dim: nat) -> bool {
    let micro = o.micro_block_size as nat;
    let column = (pixel % o.width as nat) / micro;
    let row = (pixel / o.width as nat) / micro;
    row < by || (row == by && (column < bx || (column == bx && d < dim)))
}

/// The numbers of a raster.
pub open spec fn header_span(h: Lerc2Header) -> Span {
    tile_laws::span_of(h.z_min, h.z_max)
}

/// Whether the samples of a depth lie below the bound that a reader limits them by.
pub open spec fn depth_limited<T: Sample>(
    stored: Seq<T>,
    mask: Option<Seq<u8>>,
    pixels: nat,
    depth: int,
    dim: int,
    z_max: Double,
    reach: nat,
) -> bool {
    if T::kind().integer() {
        exists|z: int|
            z_max == #[trigger] float::double_of_int(z) && z <= T::kind().most() && forall|p: int|
                0 <= p < pixels && blocks::is_valid(mask, p) ==> (#[trigger] cell(
                    stored,
                    depth,
                    p,
                    dim,
                )).number() <= z
    } else {
        &&& z_max.finite()
        &&& z_max.size() <= reach
        &&& forall|p: int|
            0 <= p < pixels && blocks::is_valid(mask, p) ==> (#[trigger] cell(
                stored,
                depth,
                p,
                dim,
            )).promoted().size() <= reach && !z_max.below(cell(stored, depth, p, dim).promoted())
    }
}

/// Whether every sample of one tile is read as a finite number where the tile is bit-stuffed.
pub open spec fn tile_rebuilds<T: Sample>(
    o: TilingOptions,
    mask: Option<Seq<u8>>,
    stored: Seq<T>,
    ranges: Option<(Seq<Double>, Seq<Double>)>,
    z_max: Double,
    by: nat,
    bx: nat,
    dim: nat,
) -> bool {
    tile_laws::reads_finite(
        lerc2_body::gathered(
            stored,
            o.listed(mask, bx as int, by as int),
            o.depth as int,
            dim as int,
        ),
        o.max_z_error,
        match ranges {
            Some((_, highs)) => highs[dim as int],
            None => z_max,
        },
    )
}

/// Whether every floating-point sample that is stored as a level is read as a finite number:
/// no level overflows.
#[verifier::opaque]
pub open spec fn rebuilds<T: Sample>(
    o: TilingOptions,
    mask: Option<Seq<u8>>,
    stored: Seq<T>,
    ranges: Option<(Seq<Double>, Seq<Double>)>,
    z_max: Double,
) -> bool {
    forall|by: nat, bx: nat, dim: nat|
        by < o.down() && bx < o.across() && dim < o.depth ==> #[trigger] tile_rebuilds(
            o,
            mask,
            stored,
            ranges,
            z_max,
            by,
            bx,
            dim,
        )
}

/// What reading the tiles relies on.
pub open spec fn tiles_stand<T: Sample>(
    h: Lerc2Header,
    ranges: Option<(Seq<Double>, Seq<Double>)>,
    mask: Option<Seq<u8>>,
    all: Seq<u8>,
    stored: Seq<T>,
) -> bool {
    &&& grid_of(h).wf()
    &&& h.data_type == T::kind()
    &&& h.version >= 4
    &&& all.len() <= usize::MAX
    &&& tile_laws::bound_stands(T::kind(), h.max_z_error)
    &&& !T::kind().integer() ==> rebuilds(grid_of(h), mask, stored, ranges, h.z_max)
    &&& stored.len() == h.pixels() * h.depth as nat
    &&& forall|p: int, d: int|
        0 <= p < h.pixels() && 0 <= d < h.depth && blocks::is_valid(mask, p) ==> (#[trigger] cell(
            stored,
            h.depth as int,
            p,
            d,
        )).promoted().finite()
    &&& forall|d: int|
        0 <= d < h.depth ==> depth_limited(
            stored,
            mask,
            h.pixels(),
            h.depth as int,
            d,
            #[trigger] lerc2_body::depth_max(h, ranges, d),
            header_span(h).reach,
        )
    &&& h.z_min.finite()
    &&& forall|p: int, d: int|
        0 <= p < h.pixels() && 0 <= d < h.depth && blocks::is_valid(mask, p) ==> !(#[trigger] cell(
            stored,
            h.depth as int,
            p,
            d,
        )).promoted().below(h.z_min)
}

/// Whether the samples read so far are within the bound, and nothing else was written.
pub open spec fn tiles_settled<T: Sample>(
    h: Lerc2Header,
    mask: Option<Seq<u8>>,
    stored: Seq<T>,
    blank: Seq<T>,
    out: Seq<T>,
    by: nat,
    bx: nat,
    dim: nat,
) -> bool {
    &&& out.len() == h.pixels() * h.depth as nat
    &&& blank.len() == out.len()
    &&& forall|p: int, d: int|
        0 <= p < h.pixels() && 0 <= d < h.depth && blocks::is_valid(mask, p) && tile_done(
            grid_of(h),
            p as nat,
            d as nat,
            by,
            bx,
            dim,
        ) ==> tile_laws::stored_kept(
            #[trigger] cell(out, h.depth as int, p, d),
            cell(stored, h.depth as int, p, d),
            h.max_z_error,
            header_span(h),
        )
    &&& forall|p: int, d: int|
        0 <= p < h.pixels() && 0 <= d < h.depth && !blocks::is_valid(mask, p) ==> #[trigger] cell(
            out,
            h.depth as int,
            p,
            d,
        ) == cell(blank, h.depth as int, p, d)
}

/// Integers within one half of one another are equal.
pub proof fn lemma_half_exact<T: Sample>(a: T, b: T)
    requires
        T::kind().integer(),
        tile_laws::within(
            a.promoted(),
            b.promoted(),
            Double { bits: float::HALF_BITS },
        ),
    ensures
        a == b,
{
    a.law_integer();
    b.law_integer();
    let (n, m) = (a.number(), b.number());
    float::lemma_int_exact(n);
    float::lemma_int_exact(m);
    tile_laws::lemma_constants();
    let w = pow2(1074);
    lemma_pow2_pos(1074);
    assert(n == m) by (nonlinear_arith)
        requires
            float::abs_nat(n * w - m * w) * 2 <= w,
            w > 0,
    ;
    tile_laws::lemma_same_sample(a, b);
}

/// One tile: reading it settles its cells.
#[verifier::rlimit(60)]
proof fn lemma_tile_settled<T: Sample>(
    h: Lerc2Header,
    ranges: Option<(Seq<Double>, Seq<Double>)>,
    mask: Option<Seq<u8>>,
    all: Seq<u8>,
    by: nat,
    bx: nat,
    dim: nat,
    stored: Seq<T>,
    blank: Seq<T>,
    out: Seq<T>,
    pos: int,
) -> (read: Seq<T>)
    requires
        tiles_stand(h, ranges, mask, all, stored),
        tiles_settled(h, mask, stored, blank, out, by, bx, dim),
        by < grid_of(h).down(),
        bx < grid_of(h).across(),
        dim < h.depth,
        ({
            let shape = tiling::shape_at(
                grid_of(h),
                mask,
                stored,
                by as int,
                bx as int,
                dim as int,
            );
            &&& shape.diff ==> h.version >= 5
            &&& bytes::stands_at(
                all,
                pos,
                seq![tiling::tile_header(bx * h.micro_block_size as nat, shape, h.version)]
                    + shape.body,
            )
        }),
    ensures
        ({
            let shape = tiling::shape_at(
                grid_of(h),
                mask,
                stored,
                by as int,
                bx as int,
                dim as int,
            );
            let list = lerc2_body::tile_pixels(h, mask, bx as int, by as int);
            let after = blocks::scattered(
                out,
                list,
                read,
                h.depth as int,
                dim as int,
                list.len(),
            );
            &&& lerc2_body::tile_read(
                h,
                lerc2_body::depth_max(h, ranges, dim as int),
                all,
                pos,
                bx * h.micro_block_size as int,
                if dim == 0 {
                    None
                } else {
                    Some(lerc2_body::gathered(out, list, h.depth as int, dim - 1))
                },
                list.len(),
                lerc2_body::tile_capacity(h),
            ) == Ok::<_, Fault>((read, pos + 1 + shape.body.len()))
            &&& tiles_settled(h, mask, stored, blank, after, by, bx, (dim + 1) as nat)
        }),
{
    let o = grid_of(h);
    let depth = h.depth as int;
    let list = lerc2_body::tile_pixels(h, mask, bx as int, by as int);
    assert(list == o.listed(mask, bx as int, by as int));
    lemma_tile_list(h, mask, bx, by);
    let current = lerc2_body::gathered(stored, list, depth, dim as int);
    let before = if dim == 0 {
        None
    } else {
        Some(lerc2_body::gathered(stored, list, depth, dim - 1))
    };
    let previous = if dim == 0 {
        None
    } else {
        Some(lerc2_body::gathered(out, list, depth, dim - 1))
    };
    let z_max = lerc2_body::depth_max(h, ranges, dim as int);
    assert forall|i: int| 0 <= i < list.len() implies blocks::is_valid(mask, #[trigger] list[i])
        && 0 <= list[i] < h.pixels() && list[i] % h.width as int / h.micro_block_size as int == bx
        && list[i] / h.width as int / h.micro_block_size as int == by by {
        assert(list.contains(list[i]));
        law_tiles_cover(o, mask, list[i] as nat, bx, by);
    }
    assert(tile_laws::all_regular(current)) by {
        assert forall|i: int| 0 <= i < current.len() implies (#[trigger] current[i]).promoted().finite() by {
            assert(current[i] == cell(stored, depth, list[i], dim as int));
        }
    }
    let span = header_span(h);
    let reach = span.reach;
    assert(depth_limited(stored, mask, h.pixels(), depth, dim as int, z_max, reach));
    if T::kind().integer() {
        let z = choose|z: int|
            z_max == #[trigger] float::double_of_int(z) && z <= T::kind().most() && forall|p: int|
                0 <= p < h.pixels() && blocks::is_valid(mask, p) ==> (#[trigger] cell(
                    stored,
                    depth,
                    p,
                    dim as int,
                )).number() <= z;
        assert forall|i: int| 0 <= i < current.len() implies (#[trigger] current[i]).number() <= z by {
            assert(current[i] == cell(stored, depth, list[i], dim as int));
        }
        assert(z_max == float::double_of_int(z));
    } else {
        assert(tile_laws::reads_finite(current, h.max_z_error, z_max)) by {
            reveal(rebuilds);
            assert(tile_rebuilds(o, mask, stored, ranges, h.z_max, by, bx, dim));
        }
        assert forall|i: int| 0 <= i < current.len() implies (#[trigger] current[i]).promoted().size()
            <= reach && !z_max.below(current[i].promoted()) by {
            assert(current[i] == cell(stored, depth, list[i], dim as int));
        }
    }
    assert(tile_laws::above(current, span.floor)) by {
        assert forall|i: int| 0 <= i < current.len() implies !(#[trigger] current[i]).promoted().below(
            span.floor,
        ) by {
            assert(current[i] == cell(stored, depth, list[i], dim as int));
        }
    }
    if dim > 0 && h.max_z_error == (Double { bits: float::HALF_BITS }) && T::kind().integer() {
        let (a, b) = (previous->0, before->0);
        assert forall|i: int| 0 <= i < list.len() implies #[trigger] a[i] == b[i] by {
            assert(a[i] == cell(out, depth, list[i], dim - 1));
            assert(b[i] == cell(stored, depth, list[i], dim - 1));
            assert(tile_done(o, list[i] as nat, (dim - 1) as nat, by, bx, dim));
            lemma_half_exact(a[i], b[i]);
        }
        assert(a =~= b);
    }
    let read = tile_laws::lemma_tile_restored(
        h,
        z_max,
        all,
        pos,
        bx * h.micro_block_size as nat,
        current,
        before,
        previous,
        lerc2_body::tile_capacity(h),
        span,
    );
    let after = blocks::scattered(out, list, read, depth, dim as int, list.len());
    lemma_scattered(out, list, read, depth, dim as int, list.len(), h.pixels());
    assert forall|p: int, d: int|
        0 <= p < h.pixels() && 0 <= d < h.depth && blocks::is_valid(mask, p) && tile_done(
            o,
            p as nat,
            d as nat,
            by,
            bx,
            (dim + 1) as nat,
        ) implies tile_laws::stored_kept(
            #[trigger] cell(after, depth, p, d),
            cell(stored, depth, p, d),
            h.max_z_error,
            header_span(h),
        ) by {
        law_tiles_cover(o, mask, p as nat, bx, by);
        if d == dim && list.contains(p) {
            let i = choose|i: int| 0 <= i < list.len() && list[i] == p;
            assert(cell(after, depth, list[i], dim as int) == read[i]);
            assert(current[i] == cell(stored, depth, list[i], dim as int));
        } else {
            assert(cell(after, depth, p, d) == cell(out, depth, p, d));
            assert(tile_done(o, p as nat, d as nat, by, bx, dim));
        }
    }
    assert forall|p: int, d: int|
        0 <= p < h.pixels() && 0 <= d < h.depth && !blocks::is_valid(mask, p) implies #[trigger] cell(
        after,
        depth,
        p,
        d,
    ) == cell(blank, depth, p, d) by {
        law_tiles_cover(o, mask, p as nat, bx, by);
        assert(cell(after, depth, p, d) == cell(out, depth, p, d));
    }
    read
}

/// The pixels of a block are pixels of the raster.
pub proof fn lemma_listed_within(o: TilingOptions, mask: Option<Seq<u8>>, bx: nat, by: nat)
    requires
        o.wf(),
        bx < o.across(),
        by < o.down(),
    ensures
        forall|i: int|
            0 <= i < o.listed(mask, bx as int, by as int).len() ==> 0 <= #[trigger] o.listed(
                mask,
                bx as int,
                by as int,
            )[i] < o.pixels(),
{
    let micro = o.micro_block_size as int;
    let (w, t) = (o.width as int, o.height as int);
    lerc2_body::lemma_block_extent(w, micro, bx as int);
    lerc2_body::lemma_block_extent(t, micro, by as int);
    blocks::lemma_block_pixels(
        mask,
        w as nat,
        t as nat,
        (bx * micro) as nat,
        (by * micro) as nat,
        lerc2_body::block_extent(w, micro, bx as int) as nat,
        lerc2_body::block_extent(t, micro, by as int) as nat,
    );
}

/// The pixels of a tile ascend, lie in the raster and are not too many.
proof fn lemma_tile_list(h: Lerc2Header, mask: Option<Seq<u8>>, bx: nat, by: nat)
    requires
        grid_of(h).wf(),
        bx < grid_of(h).across(),
        by < grid_of(h).down(),
    ensures
        ({
            let list = lerc2_body::tile_pixels(h, mask, bx as int, by as int);
            &&& list.len() <= lerc2_body::tile_capacity(h)
            &&& list.len() <= 1024
            &&& forall|i: int| 0 <= i < list.len() ==> 0 <= #[trigger] list[i] < h.pixels()
            &&& forall|i: int, j: int|
                #![trigger list[i], list[j]]
                0 <= i < j < list.len() ==> list[i] < list[j]
        }),
{
    let micro = h.micro_block_size as int;
    let (w, t) = (h.width as int, h.height as int);
    lerc2_body::lemma_block_extent(w, micro, bx as int);
    lerc2_body::lemma_block_extent(t, micro, by as int);
    let cols = lerc2_body::block_extent(w, micro, bx as int) as nat;
    let rows = lerc2_body::block_extent(t, micro, by as int) as nat;
    blocks::lemma_block_pixels(
        mask,
        w as nat,
        t as nat,
        (bx * micro) as nat,
        (by * micro) as nat,
        cols,
        rows,
    );
    assert(0 * micro == 0) by (nonlinear_arith);
    assert(0 <= bx * micro && 0 <= by * micro) by (nonlinear_arith)
        requires
            bx >= 0,
            by >= 0,
            micro >= 0,
    ;
    let cols0 = lerc2_body::block_extent(w, micro, 0);
    let rows0 = lerc2_body::block_extent(t, micro, 0);
    assert(cols <= cols0 && rows <= rows0);
    assert(cols * rows <= cols0 * rows0 && cols0 * rows0 <= 1024) by (nonlinear_arith)
        requires
            0 <= cols <= cols0,
            0 <= rows <= rows0,
            cols0 <= 32,
            rows0 <= 32,
    ;
}

/// The first of some tiles stands before the others.
proof fn lemma_first_tile(
    all: Seq<u8>,
    pos: int,
    placed: PlacedShape,
    rest: Seq<PlacedShape>,
    version: u32,
)
    requires
        bytes::stands_at(all, pos, tiling::tiles_bytes(seq![placed] + rest, version)),
    ensures
        bytes::stands_at(
            all,
            pos,
            seq![tiling::tile_header(placed.x, placed.shape, version)] + placed.shape.body,
        ),
        bytes::stands_at(
            all,
            pos + 1 + placed.shape.body.len(),
            tiling::tiles_bytes(rest, version),
        ),
        tiling::tiles_size(seq![placed] + rest) == 1 + placed.shape.body.len()
            + tiling::tiles_size(rest),
        placed.shape.diff ==> tiling::some_diff(seq![placed] + rest),
        tiling::some_diff(rest) ==> tiling::some_diff(seq![placed] + rest),
{
    reveal_with_fuel(tiling::tiles_bytes, 2);
    reveal_with_fuel(tiling::tiles_size, 2);
    let head = seq![tiling::tile_header(placed.x, placed.shape, version)] + placed.shape.body;
    let tiles = seq![placed] + rest;
    let none = seq![placed].drop_last();
    assert(none =~= seq![]);
    tiling::lemma_tiles_split(seq![placed], rest, version);
    assert(tiling::tiles_bytes(none, version) =~= seq![]);
    assert(tiling::tiles_bytes(seq![placed], version) =~= head);
    bytes::lemma_stands_split(all, pos, head, tiling::tiles_bytes(rest, version));
    if placed.shape.diff {
        assert(tiles[0].shape.diff);
    }
    if tiling::some_diff(rest) {
        let k = choose|i: int| 0 <= i < rest.len() && (#[trigger] rest[i]).shape.diff;
        assert(tiles[k + 1].shape.diff);
    }
}

/// Reading the tiles from one on settles all cells.
#[verifier::rlimit(60)]
proof fn lemma_tiles_settled<T: Sample>(
    h: Lerc2Header,
    ranges: Option<(Seq<Double>, Seq<Double>)>,
    mask: Option<Seq<u8>>,
    all: Seq<u8>,
    by: nat,
    bx: nat,
    dim: nat,
    stored: Seq<T>,
    blank: Seq<T>,
    out: Seq<T>,
    pos: int,
) -> (end: Seq<T>)
    requires
        tiles_stand(h, ranges, mask, all, stored),
        tiles_settled(h, mask, stored, blank, out, by, bx, dim),
        by <= grid_of(h).down(),
        tiling::some_diff(tiling::planned(grid_of(h), mask, stored, by, bx, dim)) ==> h.version
            >= 5,
        bytes::stands_at(
            all,
            pos,
            tiling::tiles_bytes(
                tiling::planned(grid_of(h), mask, stored, by, bx, dim),
                h.version,
            ),
        ),
    ensures
        lerc2_body::tiles_read(h, ranges, mask, all, by, bx, dim, out, pos) == Ok::<_, Fault>(
            (
                end,
                pos + tiling::tiles_size(
                    tiling::planned(grid_of(h), mask, stored, by, bx, dim),
                ),
            ),
        ),
        tiles_settled(h, mask, stored, blank, end, grid_of(h).down() as nat, 0, 0),
    decreases grid_of(h).down() - by, grid_of(h).across() - bx, h.depth - dim,
{
    let o = grid_of(h);
    let tiles = tiling::planned(o, mask, stored, by, bx, dim);
    if by >= o.down() {
        lemma_all_done(h, mask, stored, blank, out, by, bx, dim);
        out
    } else if bx >= o.across() {
        lemma_row_done(h, mask, stored, blank, out, by, bx, dim);
        lemma_tiles_settled(h, ranges, mask, all, by + 1, 0, 0, stored, blank, out, pos)
    } else if dim >= h.depth {
        lemma_block_done(h, mask, stored, blank, out, by, bx, dim);
        lemma_tiles_settled(h, ranges, mask, all, by, bx + 1, 0, stored, blank, out, pos)
    } else {
        let shape = tiling::shape_at(o, mask, stored, by as int, bx as int, dim as int);
        let placed = PlacedShape { x: bx * o.micro_block_size as nat, shape };
        let rest = tiling::planned(o, mask, stored, by, bx, (dim + 1) as nat);
        lemma_first_tile(all, pos, placed, rest, h.version);
        let read = lemma_tile_settled(
            h,
            ranges,
            mask,
            all,
            by,
            bx,
            dim,
            stored,
            blank,
            out,
            pos,
        );
        let list = lerc2_body::tile_pixels(h, mask, bx as int, by as int);
        let after = blocks::scattered(
            out,
            list,
            read,
            h.depth as int,
            dim as int,
            list.len(),
        );
        let next = pos + 1 + shape.body.len();
        lemma_tiles_settled(
            h,
            ranges,
            mask,
            all,
            by,
            bx,
            (dim + 1) as nat,
            stored,
            blank,
            after,
            next,
        )
    }
}

proof fn lemma_all_done<T: Sample>(
    h: Lerc2Header,
    mask: Option<Seq<u8>>,
    stored: Seq<T>,
    blank: Seq<T>,
    out: Seq<T>,
    by: nat,
    bx: nat,
    dim: nat,
)
    requires
        grid_of(h).wf(),
        tiles_settled(h, mask, stored, blank, out, by, bx, dim),
        by == grid_of(h).down(),
    ensures
        tiles_settled(h, mask, stored, blank, out, grid_of(h).down() as nat, 0, 0),
{
    let o = grid_of(h);
    assert forall|p: int, d: int|
        0 <= p < h.pixels() && 0 <= d < h.depth && blocks::is_valid(mask, p) && tile_done(
            o,
            p as nat,
            d as nat,
            o.down() as nat,
            0,
            0,
        ) implies tile_laws::stored_kept(
            #[trigger] cell(out, h.depth as int, p, d),
            cell(stored, h.depth as int, p, d),
            h.max_z_error,
            header_span(h),
        ) by {
        assert(tile_done(o, p as nat, d as nat, by, bx, dim));
    }
}

proof fn lemma_row_done<T: Sample>(
    h: Lerc2Header,
    mask: Option<Seq<u8>>,
    stored: Seq<T>,
    blank: Seq<T>,
    out: Seq<T>,
    by: nat,
    bx: nat,
    dim: nat,
)
    requires
        grid_of(h).wf(),
        tiles_settled(h, mask, stored, blank, out, by, bx, dim),
        by < grid_of(h).down(),
        bx >= grid_of(h).across(),
    ensures
        tiles_settled(h, mask, stored, blank, out, by + 1, 0, 0),
{
    let o = grid_of(h);
    assert forall|p: int, d: int|
        0 <= p < h.pixels() && 0 <= d < h.depth && blocks::is_valid(mask, p) && tile_done(
            o,
            p as nat,
            d as nat,
            by + 1,
            0,
            0,
        ) implies tile_laws::stored_kept(
            #[trigger] cell(out, h.depth as int, p, d),
            cell(stored, h.depth as int, p, d),
            h.max_z_error,
            header_span(h),
        ) by {
        lemma_across_positive(h);
        law_tiles_cover(o, mask, p as nat, 0, by);
        assert(tile_done(o, p as nat, d as nat, by, bx, dim));
    }
}

proof fn lemma_across_positive(h: Lerc2Header)
    requires
        grid_of(h).wf(),
    ensures
        grid_of(h).across() > 0,
        grid_of(h).down() > 0,
{
    let micro = h.micro_block_size as int;
    lerc2_body::lemma_div_up(h.width as int, micro);
    lerc2_body::lemma_div_up(h.height as int, micro);
    lemma_fundamental_div_mod(h.width as int, micro);
    lemma_fundamental_div_mod(h.height as int, micro);
    assert(micro * 0 == 0) by (nonlinear_arith);
}

proof fn lemma_block_done<T: Sample>(
    h: Lerc2Header,
    mask: Option<Seq<u8>>,
    stored: Seq<T>,
    blank: Seq<T>,
    out: Seq<T>,
    by: nat,
    bx: nat,
    dim: nat,
)
    requires
        tiles_settled(h, mask, stored, blank, out, by, bx, dim),
        dim >= h.depth,
    ensures
        tiles_settled(h, mask, stored, blank, out, by, bx + 1, 0),
{
    let o = grid_of(h);
    assert forall|p: int, d: int|
        0 <= p < h.pixels() && 0 <= d < h.depth && blocks::is_valid(mask, p) && tile_done(
            o,
            p as nat,
            d as nat,
            by,
            bx + 1,
            0,
        ) implies tile_laws::stored_kept(
            #[trigger] cell(out, h.depth as int, p, d),
            cell(stored, h.depth as int, p, d),
            h.max_z_error,
            header_span(h),
        ) by {
        assert(tile_done(o, p as nat, d as nat, by, bx, dim));
    }
}

/// Whether every valid pixel is within the bound and every other one as it was.
pub open spec fn body_restored<T: Sample>(
    h: Lerc2Header,
    mask: Option<Seq<u8>>,
    stored: Seq<T>,
    blank: Seq<T>,
    read: Seq<T>,
) -> bool {
    &&& read.len() == blank.len()
    &&& forall|p: int, d: int|
        0 <= p < h.pixels() && 0 <= d < h.depth && blocks::is_valid(mask, p) ==> tile_laws::stored_kept(
            #[trigger] cell(read, h.depth as int, p, d),
            cell(stored, h.depth as int, p, d),
            h.max_z_error,
            header_span(h),
        )
    &&& forall|p: int, d: int|
        0 <= p < h.pixels() && 0 <= d < h.depth && !blocks::is_valid(mask, p) ==> #[trigger] cell(
            read,
            h.depth as int,
            p,
            d,
        ) == cell(blank, h.depth as int, p, d)
}

/// Reading the tiles that a raster is stored in gives every valid sample back within the
/// error bound and leaves the others alone.
pub proof fn law_tiles_roundtrip<T: Sample>(
    h: Lerc2Header,
    ranges: Option<(Seq<Double>, Seq<Double>)>,
    mask: Option<Seq<u8>>,
    all: Seq<u8>,
    stored: Seq<T>,
    blank: Seq<T>,
    pos: int,
) -> (read: Seq<T>)
    requires
        tiles_stand(h, ranges, mask, all, stored),
        blank.len() == stored.len(),
        tiling::some_diff(tiling::planned(grid_of(h), mask, stored, 0, 0, 0)) ==> h.version >= 5,
        bytes::stands_at(
            all,
            pos,
            tiling::tiles_bytes(
                tiling::planned(grid_of(h), mask, stored, 0, 0, 0),
                h.version,
            ),
        ),
    ensures
        lerc2_body::tiles_read(h, ranges, mask, all, 0, 0, 0, blank, pos) == Ok::<_, Fault>(
            (
                read,
                pos + tiling::tiles_size(tiling::planned(grid_of(h), mask, stored, 0, 0, 0)),
            ),
        ),
        body_restored(h, mask, stored, blank, read),
{
    let o = grid_of(h);
    lemma_across_positive(h);
    let read = lemma_tiles_settled(h, ranges, mask, all, 0, 0, 0, stored, blank, blank, pos);
    assert forall|p: int, d: int|
        0 <= p < h.pixels() && 0 <= d < h.depth && blocks::is_valid(mask, p) implies tile_laws::stored_kept(
            #[trigger] cell(read, h.depth as int, p, d),
            cell(stored, h.depth as int, p, d),
            h.max_z_error,
            header_span(h),
        ) by {
        law_tiles_cover(o, mask, p as nat, 0, 0);
        assert(tile_done(o, p as nat, d as nat, o.down() as nat, 0, 0));
    }
    read
}

} // verus!
