//! What is decoded of Lerc2 blobs of integers, by how their bytes are laid out.

use crate::allocation;
use crate::blob_laws;
use crate::blocks;
use crate::bytes;
use crate::checksum;
use crate::cursor;
use crate::encoder;
use crate::error::Fault;
use crate::float;
use crate::float::Double;
use crate::format_laws;
use crate::format_laws::Tile;
use crate::lerc2;
use crate::lerc2_body;
use crate::lerc2_header;
use crate::lerc2_header::Lerc2Header;
use crate::mask;
use crate::raster;
use crate::sample::Sample;
use crate::table_laws;
use crate::tile_laws;
use crate::tile_plan;
use crate::tiling_laws;
use crate::types::{BlobFacts, DataType, MaskEncoding};
use crate::values;
use vstd::arithmetic::div_mod::*;
use vstd::arithmetic::mul::*;
use vstd::arithmetic::power2::*;
use vstd::prelude::*;

verus! {

/// A raster of integers cut into tiles, and how each is stored: row by row of blocks, in each
/// row from left to right, and in each block depth by depth.
pub struct Mosaic {
    pub h: Lerc2Header,
    pub entries: Option<Seq<u8>>,
    pub tiles: Seq<Tile>,
    /// The least sample of each depth.
    pub lows: Seq<int>,
    /// The greatest sample of each depth.
    pub highs: Seq<int>,
}

impl Mosaic {
    /// The blocks side by side.
    pub open spec fn across(self) -> int {
        tiling_laws::grid_of(self.h).across()
    }

    /// The blocks one below the other.
    pub open spec fn down(self) -> int {
        tiling_laws::grid_of(self.h).down()
    }

    /// The depth of the `k`-th tile.
    pub open spec fn dim(self, k: int) -> int {
        k % (self.h.depth as int)
    }

    /// The column of the `k`-th tile's block.
    pub open spec fn column(self, k: int) -> int {
        (k / (self.h.depth as int)) % self.across()
    }

    /// The row of the `k`-th tile's block.
    pub open spec fn row(self, k: int) -> int {
        (k / (self.h.depth as int)) / self.across()
    }

    /// The valid pixels of the `k`-th tile.
    pub open spec fn listed(self, k: int) -> Seq<int> {
        lerc2_body::tile_pixels(self.h, self.entries, self.column(k), self.row(k))
    }

    /// The number that the `k`-th tile has at its `i`-th valid pixel.
    pub open spec fn number(self, k: int, i: int) -> int {
        format_laws::tile_number(self.tiles[k], i, 1, self.highs[self.dim(k)])
    }

    /// There is a tile for each block and depth, which can be stored for its pixels.
    pub open spec fn wf(self, data_type: DataType) -> bool {
        &&& data_type.integer()
        &&& self.h.wf()
        &&& self.h.data_type == data_type
        &&& self.h.max_z_error == (Double { bits: float::HALF_BITS })
        &&& blocks::mask_fits(self.entries, self.h.pixels())
        &&& self.lows.len() == self.h.depth
        &&& self.highs.len() == self.h.depth
        &&& self.tiles.len() == self.across() * self.down() * self.h.depth
        &&& forall|k: int|
            0 <= k < self.tiles.len() ==> format_laws::tile_fits(
                #[trigger] self.tiles[k],
                data_type,
                self.listed(k).len(),
                self.highs[self.dim(k)],
            )
    }
}

/// The bytes of the tiles from the `k`-th on.
pub open spec fn tiles_from(m: Mosaic, k: nat) -> Seq<u8>
    decreases m.tiles.len() - k,
{
    if k >= m.tiles.len() {
        seq![]
    } else {
        format_laws::tile_bytes(
            m.tiles[k as int],
            m.h.data_type,
            m.h.version,
            (m.column(k as int) * m.h.micro_block_size) as nat,
        ) + tiles_from(m, k + 1)
    }
}

/// The place of a tile.
proof fn lemma_tile_place(m: Mosaic, data_type: DataType, k: int)
    requires
        m.wf(data_type),
        0 <= k < m.tiles.len(),
    ensures
        0 <= m.dim(k) < m.h.depth,
        0 <= m.column(k) < m.across(),
        0 <= m.row(k) < m.down(),
        k == (m.row(k) * m.across() + m.column(k)) * m.h.depth + m.dim(k),
{
    let (d, n, r) = (m.h.depth as int, m.across(), m.down());
    lerc2_body::lemma_div_up(m.h.width as int, m.h.micro_block_size as int);
    lerc2_body::lemma_div_up(m.h.height as int, m.h.micro_block_size as int);
    if n == 0 {
        assert(n * r * d == 0) by (nonlinear_arith)
            requires
                n == 0,
        ;
    }
    let b = k / d;
    lemma_fundamental_div_mod(k, d);
    lemma_fundamental_div_mod(b, n);
    lemma_div_pos_is_pos(k, d);
    lemma_div_pos_is_pos(b, n);
    assert(n * r * d == d * (n * r)) by (nonlinear_arith);
    lemma_multiply_divide_lt(k, d, n * r);
    lemma_multiply_divide_lt(b, n, r);
    assert(d * b == b * d && n * (b / n) == (b / n) * n) by (nonlinear_arith);
}

/// The index of a tile.
proof fn lemma_tile_index(m: Mosaic, data_type: DataType, by: nat, bx: nat, dim: nat)
    requires
        m.wf(data_type),
        bx < m.across(),
        by < m.down(),
        dim < m.h.depth,
    ensures
        ({
            let k = ((by * m.across() + bx) * m.h.depth + dim) as int;
            &&& 0 <= k < m.tiles.len()
            &&& m.dim(k) == dim
            &&& m.column(k) == bx
            &&& m.row(k) == by
        }),
{
    let (d, n, r) = (m.h.depth as int, m.across(), m.down());
    let b = by * n + bx;
    let k = b * d + dim;
    lemma_fundamental_div_mod_converse(k, d, b, dim as int);
    lemma_fundamental_div_mod_converse(b, n, by as int, bx as int);
    assert(0 <= by * n && by * n + bx < n * r) by (nonlinear_arith)
        requires
            by + 1 <= r,
            bx < n,
            0 <= bx,
            0 <= by,
    ;
    assert(0 <= b * d && b * d + dim < n * r * d) by (nonlinear_arith)
        requires
            0 <= b,
            b + 1 <= n * r,
            0 <= dim < d,
    ;
}

/// Every valid pixel is in the tile of each depth that its column and row fall into, and in no
/// other. Within a tile pixels are listed row by row.
pub proof fn law_mosaic_covers(m: Mosaic, data_type: DataType, p: nat, k: int)
    requires
        m.wf(data_type),
        0 <= k < m.tiles.len(),
        p < m.h.pixels(),
    ensures
        ({
            let list = m.listed(k);
            let micro = m.h.micro_block_size as nat;
            &&& list.contains(p as int) <==> blocks::is_valid(m.entries, p as int) && m.column(k)
                == (p % m.h.width as nat) / micro && m.row(k) == (p / m.h.width as nat) / micro
            &&& forall|i: int, j: int|
                #![trigger list[i], list[j]]
                0 <= i < j < list.len() ==> list[i] < list[j]
            &&& forall|i: int| 0 <= i < list.len() ==> 0 <= #[trigger] list[i] < m.h.pixels()
        }),
{
    lemma_tile_place(m, data_type, k);
    let o = tiling_laws::grid_of(m.h);
    tiling_laws::law_tiles_cover(o, m.entries, p, m.column(k) as nat, m.row(k) as nat);
    assert(o.listed(m.entries, m.column(k), m.row(k)) == m.listed(k));
    lerc2_body::lemma_tile_pixels(m.h, m.entries, m.column(k), m.row(k));
}

/// Whether the first `k` tiles have been read, and nothing else.
spec fn placed<T: Sample>(m: Mosaic, k: int, samples: Seq<T>) -> bool {
    &&& samples.len() == m.h.pixels() * m.h.depth
    &&& forall|j: int, i: int|
        0 <= j < k && 0 <= i < m.listed(j).len() ==> tiling_laws::cell(
            samples,
            m.h.depth as int,
            #[trigger] m.listed(j)[i],
            m.dim(j),
        ).number() == m.number(j, i)
    &&& forall|p: int, d: int|
        0 <= p < m.h.pixels() && 0 <= d < m.h.depth && !blocks::is_valid(m.entries, p)
            ==> #[trigger] tiling_laws::cell(samples, m.h.depth as int, p, d) == T::zero()
}

proof fn lemma_placed_step<T: Sample>(m: Mosaic, k: int, samples: Seq<T>, read: Seq<T>)
    requires
        m.wf(T::kind()),
        0 <= k < m.tiles.len(),
        placed(m, k, samples),
        format_laws::tile_is(
            read,
            m.tiles[k],
            m.listed(k).len(),
            1,
            m.highs[m.dim(k)],
        ),
    ensures
        placed(
            m,
            k + 1,
            blocks::scattered(
                samples,
                m.listed(k),
                read,
                m.h.depth as int,
                m.dim(k),
                m.listed(k).len(),
            ),
        ),
{
    let list = m.listed(k);
    let depth = m.h.depth as int;
    let pixels = m.h.pixels();
    let dim = m.dim(k);
    let after = blocks::scattered(samples, list, read, depth, dim, list.len());
    lemma_tile_place(m, T::kind(), k);
    assert(pixels > 0) by (nonlinear_arith)
        requires
            pixels == m.h.width * m.h.height,
            m.h.width > 0,
            m.h.height > 0,
    ;
    law_mosaic_covers(m, T::kind(), 0, k);
    tiling_laws::lemma_scattered(samples, list, read, depth, dim, list.len(), pixels);
    assert forall|j: int, i: int| 0 <= j < k + 1 && 0 <= i < m.listed(j).len() implies tiling_laws::cell(
        after,
        depth,
        #[trigger] m.listed(j)[i],
        m.dim(j),
    ).number() == m.number(j, i) by {
        let p = m.listed(j)[i];
        if j == k {
            assert(tiling_laws::cell(after, depth, list[i], dim) == read[i]);
        } else {
            law_mosaic_covers(m, T::kind(), 0, j);
            lemma_tile_place(m, T::kind(), j);
            assert(m.listed(j).contains(p));
            law_mosaic_covers(m, T::kind(), p as nat, j);
            law_mosaic_covers(m, T::kind(), p as nat, k);
            assert(m.dim(j) != dim || !list.contains(p));
            assert(tiling_laws::cell(after, depth, p, m.dim(j)) == tiling_laws::cell(
                samples,
                depth,
                p,
                m.dim(j),
            ));
        }
    }
    assert forall|p: int, d: int|
        0 <= p < pixels && 0 <= d < depth && !blocks::is_valid(
            m.entries,
            p,
        ) implies #[trigger] tiling_laws::cell(after, depth, p, d) == T::zero() by {
        law_mosaic_covers(m, T::kind(), p as nat, k);
        assert(tiling_laws::cell(samples, depth, p, d) == T::zero());
    }
}

/// A tile has no more pixels than the first.
proof fn lemma_capacity(m: Mosaic, data_type: DataType, k: int)
    requires
        m.wf(data_type),
        0 <= k < m.tiles.len(),
    ensures
        m.listed(k).len() <= lerc2_body::tile_capacity(m.h),
{
    let micro = m.h.micro_block_size as int;
    let (w, h) = (m.h.width as int, m.h.height as int);
    lemma_tile_place(m, data_type, k);
    lerc2_body::lemma_block_extent(w, micro, m.column(k));
    lerc2_body::lemma_block_extent(h, micro, m.row(k));
    lerc2_body::lemma_block_extent(w, micro, 0);
    lerc2_body::lemma_block_extent(h, micro, 0);
    let cols = lerc2_body::block_extent(w, micro, m.column(k));
    let rows = lerc2_body::block_extent(h, micro, m.row(k));
    let (a, b) = (
        lerc2_body::block_extent(w, micro, 0),
        lerc2_body::block_extent(h, micro, 0),
    );
    assert(m.column(k) * micro >= 0 && m.row(k) * micro >= 0) by (nonlinear_arith)
        requires
            m.column(k) >= 0,
            m.row(k) >= 0,
            micro > 0,
    ;
    assert(0 * micro == 0);
    blocks::lemma_block_pixels(
        m.entries,
        w as nat,
        h as nat,
        (m.column(k) * micro) as nat,
        (m.row(k) * micro) as nat,
        cols as nat,
        rows as nat,
    );
    assert(cols * rows <= a * b) by (nonlinear_arith)
        requires
            0 <= cols <= a,
            0 <= rows <= b,
    ;
}

/// Whether the bounds that a reader limits samples by are those of the raster.
pub open spec fn limits_are(m: Mosaic, ranges: Option<(Seq<Double>, Seq<Double>)>) -> bool {
    forall|d: int|
        0 <= d < m.h.depth ==> #[trigger] lerc2_body::depth_max(m.h, ranges, d)
            == float::double_of_int(m.highs[d])
}

/// Reading tiles puts every number in its place.
#[verifier::rlimit(40)]
#[verifier::spinoff_prover]
proof fn lemma_tiles_back<T: Sample>(
    m: Mosaic,
    ranges: Option<(Seq<Double>, Seq<Double>)>,
    all: Seq<u8>,
    by: nat,
    bx: nat,
    dim: nat,
    k: nat,
    samples: Seq<T>,
    pos: int,
)
    requires
        m.wf(T::kind()),
        limits_are(m, ranges),
        all.len() <= usize::MAX,
        by <= m.down(),
        bx <= m.across(),
        dim <= m.h.depth,
        by == m.down() ==> bx == 0 && dim == 0,
        bx == m.across() ==> dim == 0,
        k == (by * m.across() + bx) * m.h.depth + dim,
        bytes::stands_at(all, pos, tiles_from(m, k)),
        placed(m, k as int, samples),
    ensures
        lerc2_body::tiles_read(m.h, ranges, m.entries, all, by, bx, dim, samples, pos) matches Ok(
            (out, next),
        ) && next == pos + tiles_from(m, k).len() && placed(m, m.tiles.len() as int, out),
    decreases m.down() - by, m.across() - bx, m.h.depth - dim,
{
    let (d, n, r) = (m.h.depth as int, m.across(), m.down());
    lerc2_body::lemma_div_up(m.h.width as int, m.h.micro_block_size as int);
    lerc2_body::lemma_div_up(m.h.height as int, m.h.micro_block_size as int);
    if by >= r {
        assert((by * n + bx) * d + dim == n * r * d) by (nonlinear_arith)
            requires
                by == r,
                bx == 0,
                dim == 0,
        ;
    } else if bx >= n {
        assert((by * n + bx) * d + dim == ((by + 1) * n + 0) * d + 0) by (nonlinear_arith)
            requires
                bx == n,
                dim == 0,
        ;
        lemma_tiles_back(m, ranges, all, by + 1, 0, 0, k, samples, pos);
    } else if dim >= d {
        assert((by * n + bx) * d + dim == (by * n + (bx + 1)) * d + 0) by (nonlinear_arith)
            requires
                dim == d,
        ;
        lemma_tiles_back(m, ranges, all, by, bx + 1, 0, k, samples, pos);
    } else {
        lemma_tile_index(m, T::kind(), by, bx, dim);
        let tile = m.tiles[k as int];
        let list = m.listed(k as int);
        let x = (bx * m.h.micro_block_size) as nat;
        let part = format_laws::tile_bytes(tile, m.h.data_type, m.h.version, x);
        let previous = if dim == 0 {
            None
        } else {
            Some(lerc2_body::gathered(samples, list, d, dim - 1))
        };
        assert(bx * m.h.micro_block_size >= 0) by (nonlinear_arith);
        bytes::lemma_stands_split(all, pos, part, tiles_from(m, k + 1));
        lemma_capacity(m, T::kind(), k as int);
        lemma_unit_step(m.h.max_z_error);
        format_laws::law_tile_read::<T>(
            m.h,
            all,
            pos,
            x,
            tile,
            list.len(),
            lerc2_body::tile_capacity(m.h),
            1,
            m.highs[dim as int],
            previous,
        );
        assert(lerc2_body::depth_max(m.h, ranges, dim as int) == float::double_of_int(
            m.highs[dim as int],
        ));
        let (read, next) = lerc2_body::tile_read::<T>(
            m.h,
            float::double_of_int(m.highs[dim as int]),
            all,
            pos,
            x as int,
            previous,
            list.len(),
            lerc2_body::tile_capacity(m.h),
        )->Ok_0;
        lemma_placed_step(m, k as int, samples, read);
        let after = blocks::scattered(samples, list, read, d, dim as int, list.len());
        lemma_tiles_back(m, ranges, all, by, bx, dim + 1, k + 1, after, next);
    }
}

/// Twice an error bound of one half is one.
proof fn lemma_unit_step(bound: Double)
    requires
        bound == (Double { bits: float::HALF_BITS }),
    ensures
        tile_plan::step(bound) == float::double_of_int(1),
{
    tile_laws::lemma_constants();
    lemma_basic_div(pow2(1073) as int, pow2(1074) as int);
    let s = tile_laws::lemma_bound_step(bound);
    assert(s == 1);
}

/// The mask as it is stored: in the blob, or not at all.
pub open spec fn mask_field(m: Mosaic) -> Seq<u8> {
    match (m.h.mask_encoding, m.entries) {
        (MaskEncoding::Explicit, Some(entries)) => mask::bitset_encoded(mask::packed(entries)),
        _ => seq![],
    }
}

/// The bytes of integers.
pub open spec fn numbers_bytes(numbers: Seq<int>, data_type: DataType) -> Seq<u8>
    decreases numbers.len(),
{
    if numbers.len() == 0 {
        seq![]
    } else {
        numbers_bytes(numbers.drop_last(), data_type) + values::scalar_bytes(
            float::double_of_int(numbers.last()),
            data_type,
        )
    }
}

/// From version 4 on the least samples of all depths, then the greatest.
pub open spec fn range_field(m: Mosaic) -> Seq<u8> {
    if m.h.version >= 4 {
        numbers_bytes(m.lows, m.h.data_type) + numbers_bytes(m.highs, m.h.data_type)
    } else {
        seq![]
    }
}

/// The flag that the body is in tiles; for samples of one byte, which might be Huffman-coded,
/// there is a second one.
pub open spec fn body_flags(m: Mosaic) -> Seq<u8> {
    if m.h.data_type == DataType::I8 || m.h.data_type == DataType::U8 {
        seq![0u8, 0u8]
    } else {
        seq![0u8]
    }
}

/// The bytes of a blob in tiles.
pub open spec fn mosaic_bytes(m: Mosaic, sum: u32) -> Seq<u8> {
    format_laws::header_bytes(m.h, sum) + mask_field(m) + range_field(m) + body_flags(m)
        + tiles_from(m, 0)
}

/// Whether a mask is that of a header.
pub open spec fn mask_ok(m: Mosaic, inherited: Option<Seq<u8>>) -> bool {
    &&& m.h.valid_pixel_count > 0
    &&& m.h.mask_num_bytes == mask_field(m).len()
    &&& match m.entries {
        None => m.h.mask_encoding == MaskEncoding::AllValid,
        Some(entries) => {
            &&& raster::count_valid(entries) == m.h.valid_pixel_count
            &&& m.h.mask_encoding == MaskEncoding::Explicit && (forall|i: int|
                0 <= i < entries.len() ==> #[trigger] entries[i] <= 1) || (m.h.mask_encoding
                == MaskEncoding::External && inherited == m.entries)
        },
    }
}

/// Whether the ranges are those of a header.
pub open spec fn ranges_ok(m: Mosaic) -> bool {
    &&& !m.h.z_min.same(m.h.z_max)
    &&& if m.h.version >= 4 {
        &&& forall|d: int|
            0 <= d < m.h.depth ==> m.h.data_type.least() <= #[trigger] m.lows[d] <= m.highs[d]
                <= m.h.data_type.most()
        &&& exists|d: int| 0 <= d < m.h.depth && #[trigger] m.lows[d] < m.highs[d]
    } else {
        m.h.depth == 1 && m.h.z_max == float::double_of_int(m.highs[0])
    }
}

/// Whether a blob in tiles can be laid out, and read within the limits on allocations.
pub open spec fn mosaic_ok(m: Mosaic, data_type: DataType, inherited: Option<Seq<u8>>) -> bool {
    &&& m.wf(data_type)
    &&& format_laws::header_ok(m.h)
    &&& m.h.original_no_data is None
    &&& mask_ok(m, inherited)
    &&& ranges_ok(m)
    &&& m.h.pixels() <= allocation::MAX_DECODED_ALLOCATION_BYTES
    &&& m.h.pixels() * m.h.depth <= usize::MAX
    &&& m.h.depth * data_type.width() <= usize::MAX
}

proof fn lemma_numbers_back(numbers: Seq<int>, data_type: DataType)
    requires
        data_type.integer(),
        forall|d: int|
            0 <= d < numbers.len() ==> data_type.least() <= #[trigger] numbers[d]
                <= data_type.most(),
    ensures
        numbers_bytes(numbers, data_type).len() == numbers.len() * data_type.width(),
        values::doubles_of(numbers_bytes(numbers, data_type), data_type) == Seq::new(
            numbers.len(),
            |d: int| float::double_of_int(numbers[d]),
        ),
{
    let found = Seq::new(numbers.len(), |d: int| float::double_of_int(numbers[d]));
    lemma_numbers_scalars(numbers, data_type);
    blob_laws::lemma_scalars_back(found, data_type);
    let read = values::doubles_of(numbers_bytes(numbers, data_type), data_type);
    assert forall|d: int| 0 <= d < numbers.len() implies #[trigger] read[d] == found[d] by {
        tile_laws::lemma_coerced_int(numbers[d], data_type);
    }
    assert(read =~= found);
}

proof fn lemma_numbers_scalars(numbers: Seq<int>, data_type: DataType)
    ensures
        numbers_bytes(numbers, data_type) == encoder::scalars_bytes(
            Seq::new(numbers.len(), |d: int| float::double_of_int(numbers[d])),
            data_type,
        ),
    decreases numbers.len(),
{
    let found = Seq::new(numbers.len(), |d: int| float::double_of_int(numbers[d]));
    if numbers.len() > 0 {
        let front = numbers.drop_last();
        lemma_numbers_scalars(front, data_type);
        assert(found.drop_last() =~= Seq::new(
            front.len(),
            |d: int| float::double_of_int(front[d]),
        ));
    }
}

/// Reading the mask of a blob.
proof fn lemma_mask_back(m: Mosaic, data_type: DataType, inherited: Option<Seq<u8>>, all: Seq<u8>, pos: int)
    requires
        mosaic_ok(m, data_type, inherited),
        all.len() <= usize::MAX,
        bytes::stands_at(all, pos, mask_field(m)),
    ensures
        lerc2::mask_read(m.h, all, pos, inherited) == Ok::<(Option<Seq<u8>>, int), Fault>(
            (m.entries, pos + mask_field(m).len()),
        ),
{
    if let Some(entries) = m.entries {
        if m.h.mask_encoding == MaskEncoding::Explicit {
            let field = mask_field(m);
            mask::law_mask_roundtrip(entries);
            assert(mask::normalized(entries) =~= entries) by {
                assert forall|i: int| 0 <= i < entries.len() implies mask::normalized(entries)[i]
                    == entries[i] by {
                    assert(entries[i] <= 1);
                }
            }
            assert(cursor::take(all, pos, field.len() as int) == Ok::<Seq<u8>, Fault>(field));
            assert(m.h.pixels() * 1 == m.h.pixels());
        }
    }
}

/// The ranges that are read of a blob.
pub open spec fn ranges_of(m: Mosaic) -> Option<(Seq<Double>, Seq<Double>)> {
    if m.h.version >= 4 {
        Some(
            (
                Seq::new(m.lows.len(), |d: int| float::double_of_int(m.lows[d])),
                Seq::new(m.highs.len(), |d: int| float::double_of_int(m.highs[d])),
            ),
        )
    } else {
        None
    }
}

/// Reading the ranges of a blob.
proof fn lemma_ranges_back(m: Mosaic, data_type: DataType, inherited: Option<Seq<u8>>, all: Seq<u8>, pos: int)
    requires
        mosaic_ok(m, data_type, inherited),
        all.len() <= usize::MAX,
        bytes::stands_at(all, pos, range_field(m)),
    ensures
        lerc2::ranges_read(m.h, all, pos) == Ok::<
            (Option<(Seq<Double>, Seq<Double>)>, int),
            Fault,
        >((ranges_of(m), pos + range_field(m).len())),
        lerc2::constant_ranges(ranges_of(m)) is None,
        limits_are(m, ranges_of(m)),
{
    if m.h.version >= 4 {
        let a = numbers_bytes(m.lows, data_type);
        let b = numbers_bytes(m.highs, data_type);
        let (lows, highs) = ranges_of(m)->Some_0;
        assert forall|d: int| 0 <= d < m.highs.len() implies data_type.least()
            <= #[trigger] m.highs[d] <= data_type.most() by {
            assert(m.lows[d] <= m.highs[d]);
        }
        lemma_numbers_back(m.lows, data_type);
        lemma_numbers_back(m.highs, data_type);
        bytes::lemma_stands_split(all, pos, a, b);
        let len = m.h.depth as nat * data_type.width();
        assert(cursor::take(all, pos, len as int) == Ok::<Seq<u8>, Fault>(a));
        assert(cursor::take(all, pos + len, len as int) == Ok::<Seq<u8>, Fault>(b));
        assert forall|d: int| 0 <= d < lows.len() implies (#[trigger] lows[d]).finite()
            && highs[d].finite() && !highs[d].below(lows[d]) && (lows[d].same(highs[d])
            <==> m.lows[d] == m.highs[d]) by {
            assert(m.lows[d] <= m.highs[d]);
            float::lemma_int_exact(m.lows[d]);
            float::lemma_int_exact(m.highs[d]);
            float::lemma_int_order(m.highs[d], m.lows[d]);
            float::lemma_int_order(m.lows[d], m.highs[d]);
        }
        assert(lerc2::all_finite(lows));
        assert(lerc2::all_finite(highs)) by {
            assert forall|d: int| 0 <= d < highs.len() implies (#[trigger] highs[d]).finite() by {
                assert(lows[d].finite());
            }
        }
        assert(!lerc2::some_crossed(lows, highs));
        let d = choose|d: int| 0 <= d < m.h.depth && #[trigger] m.lows[d] < m.highs[d];
        assert(!lows[d].same(highs[d]));
        assert(!lerc2::all_same(lows, highs));
    }
}

/// An error bound of one half is taken for one half.
proof fn lemma_half_is_near()
    ensures
        lerc2_body::near_half(Double { bits: float::HALF_BITS }),
{
    let half = Double { bits: float::HALF_BITS };
    let c = half.opposite();
    float::lemma_double_parts(!half.negative(), half.magnitude());
    assert(c.units() == -half.units());
    assert(half.difference(half).zero());
}

/// The parts of a blob stand one behind the other.
proof fn lemma_parts_stand(m: Mosaic, sum: u32, all: Seq<u8>)
    requires
        bytes::stands_at(all, 0, mosaic_bytes(m, sum)),
    ensures
        ({
            let start = lerc2_header::header_size(m.h.version) + 4;
            let at = start + mask_field(m).len();
            let body = at + range_field(m).len();
            let rest = body + body_flags(m).len();
            &&& bytes::stands_at(all, 0, format_laws::header_bytes(m.h, sum))
            &&& bytes::stands_at(all, start, mask_field(m))
            &&& bytes::stands_at(all, at, range_field(m))
            &&& bytes::stands_at(all, body, body_flags(m))
            &&& bytes::stands_at(all, rest, tiles_from(m, 0))
            &&& mosaic_bytes(m, sum).len() == rest + tiles_from(m, 0).len()
        }),
{
    let head = format_laws::header_bytes(m.h, sum);
    let (f1, f2, f3, f4) = (mask_field(m), range_field(m), body_flags(m), tiles_from(m, 0));
    format_laws::lemma_header_len(m.h, sum);
    bytes::lemma_stands_split(all, 0, head + f1 + f2 + f3, f4);
    bytes::lemma_stands_split(all, 0, head + f1 + f2, f3);
    bytes::lemma_stands_split(all, 0, head + f1, f2);
    bytes::lemma_stands_split(all, 0, head, f1);
}

/// Reading the body of a blob.
proof fn lemma_body_back<T: Sample>(
    m: Mosaic,
    inherited: Option<Seq<u8>>,
    all: Seq<u8>,
    body: int,
) -> (out: Seq<T>)
    requires
        mosaic_ok(m, T::kind(), inherited),
        limits_are(m, ranges_of(m)),
        lerc2::constant_ranges(ranges_of(m)) is None,
        all.len() <= usize::MAX,
        bytes::stands_at(all, body, body_flags(m)),
        bytes::stands_at(all, body + body_flags(m).len(), tiles_from(m, 0)),
    ensures
        lerc2::body_read::<T>(
            m.h,
            ranges_of(m),
            m.entries,
            all,
            body,
            allocation::repeated(T::zero(), m.h.pixels() * m.h.depth as nat),
        ) == Ok::<(Seq<T>, int), Fault>(
            (out, body + body_flags(m).len() + tiles_from(m, 0).len()),
        ),
        placed(m, m.tiles.len() as int, out),
{
    let rest = body + body_flags(m).len();
    let blank = allocation::repeated(T::zero(), m.h.pixels() * m.h.depth as nat);
    lemma_half_is_near();
    lemma_blank_placed::<T>(m, blank);
    assert((0 * m.across() + 0) * m.h.depth + 0 == 0) by (nonlinear_arith);
    lemma_tiles_back::<T>(m, ranges_of(m), all, 0, 0, 0, 0, blank, rest);
    lemma_flags_back(m, all, body);
    lerc2_body::tiles_read::<T>(
        m.h,
        ranges_of(m),
        m.entries,
        all,
        0,
        0,
        0,
        blank,
        rest,
    )->Ok_0.0
}

/// Decoding what follows the header of a blob.
proof fn lemma_payload_back<T: Sample>(
    m: Mosaic,
    sum: u32,
    inherited: Option<Seq<u8>>,
    all: Seq<u8>,
) -> (out: Seq<T>)
    requires
        mosaic_ok(m, T::kind(), inherited),
        all == mosaic_bytes(m, sum),
        all.len() <= usize::MAX,
    ensures
        lerc2::payload_decoded::<T>(
            m.h,
            all,
            lerc2_header::header_size(m.h.version) + 4,
            inherited,
        ) == Ok::<(BlobFacts, Seq<T>, Option<Seq<u8>>), Fault>(
            (lerc2::public_facts(m.h, ranges_of(m)), out, m.entries),
        ),
        placed(m, m.tiles.len() as int, out),
{
    let start = lerc2_header::header_size(m.h.version) + 4;
    let at = start + mask_field(m).len();
    let body = at + range_field(m).len();
    assert(all.subrange(0, all.len() as int) =~= all);
    lemma_parts_stand(m, sum, all);
    lemma_mask_back(m, T::kind(), inherited, all, start);
    lemma_ranges_back(m, T::kind(), inherited, all, at);
    let out = lemma_body_back::<T>(m, inherited, all, body);
    assert(lerc2::no_data_mapping::<T>(m.h) is None);
    out
}

/// Decoding a blob in tiles gives, at every valid pixel and depth, the number that its tile was
/// stored for, and zero elsewhere; the mask; and the metadata. Within its tile a pixel has the
/// place that [`law_mosaic_covers`] tells.
#[verifier::rlimit(40)]
#[verifier::spinoff_prover]
pub proof fn law_mosaic_decoded<T: Sample>(
    blob: Seq<u8>,
    m: Mosaic,
    sum: u32,
    inherited: Option<Seq<u8>>,
    limited: bool,
)
    requires
        bytes::stands_at(blob, 0, mosaic_bytes(m, sum)),
        blob.len() <= usize::MAX,
        m.h.blob_size == mosaic_bytes(m, sum).len(),
        m.h.version >= 3 ==> sum == checksum::fletcher_of(blob.subrange(14, m.h.blob_size as int)),
        mosaic_ok(m, T::kind(), inherited),
        limited ==> m.h.pixels() * m.h.depth as nat * T::kind().width()
            <= allocation::MAX_DECODED_ALLOCATION_BYTES,
    ensures
        lerc2::decoded::<T>(blob, inherited, limited) matches Ok((facts, samples, entries)) && {
            let depth = m.h.depth as int;
            &&& entries == m.entries
            &&& samples.len() == m.h.pixels() * depth
            &&& forall|k: int, i: int|
                0 <= k < m.tiles.len() && 0 <= i < m.listed(k).len() ==> samples[#[trigger] m.listed(
                    k,
                )[i] * depth + m.dim(k)].number() == m.number(k, i)
            &&& forall|p: int, d: int|
                #![trigger samples[p * depth + d]]
                0 <= p < m.h.pixels() && 0 <= d < depth && !blocks::is_valid(entries, p)
                    ==> samples[p * depth + d] == T::zero()
            &&& facts == (BlobFacts {
                min_values: facts.min_values,
                max_values: facts.max_values,
                ..m.h.facts()
            })
            &&& m.h.version >= 4 ==> facts.min_values == Some(ranges_of(m)->Some_0.0)
                && facts.max_values == Some(ranges_of(m)->Some_0.1)
        },
{
    let all = blob.subrange(0, m.h.blob_size as int);
    lemma_parts_stand(m, sum, blob);
    format_laws::lemma_header_len(m.h, sum);
    format_laws::law_header_fields(blob, m.h, sum);
    let out = lemma_payload_back::<T>(m, sum, inherited, all);
    lemma_spelled(m, out);
}

proof fn lemma_flags_back(m: Mosaic, all: Seq<u8>, pos: int)
    requires
        bytes::stands_at(all, pos, body_flags(m)),
        all.len() <= usize::MAX,
    ensures
        cursor::take_u8(all, pos) == Ok::<u8, Fault>(0u8),
        body_flags(m).len() == 2 ==> cursor::take_u8(all, pos + 1) == Ok::<u8, Fault>(0u8),
{
    if body_flags(m).len() == 2 {
        assert(body_flags(m) =~= seq![0u8] + seq![0u8]);
        bytes::lemma_stands_split(all, pos, seq![0u8], seq![0u8]);
        table_laws::lemma_byte(all, pos, 0u8);
        table_laws::lemma_byte(all, pos + 1, 0u8);
    } else {
        table_laws::lemma_byte(all, pos, 0u8);
    }
}

proof fn lemma_blank_placed<T: Sample>(m: Mosaic, blank: Seq<T>)
    requires
        blank == allocation::repeated(T::zero(), m.h.pixels() * m.h.depth as nat),
    ensures
        placed(m, 0, blank),
{
    assert forall|p: int, d: int|
        0 <= p < m.h.pixels() && 0 <= d < m.h.depth implies #[trigger] tiling_laws::cell(
        blank,
        m.h.depth as int,
        p,
        d,
    ) == T::zero() by {
        raster::lemma_sample_index(p as nat, m.h.depth as nat, d as nat, m.h.pixels());
    }
}

proof fn lemma_spelled<T: Sample>(m: Mosaic, samples: Seq<T>)
    requires
        placed(m, m.tiles.len() as int, samples),
    ensures
        samples.len() == m.h.pixels() * m.h.depth,
        forall|k: int, i: int|
            0 <= k < m.tiles.len() && 0 <= i < m.listed(k).len() ==> samples[#[trigger] m.listed(
                k,
            )[i] * m.h.depth + m.dim(k)].number() == m.number(k, i),
        forall|p: int, d: int|
            #![trigger samples[p * m.h.depth + d]]
            0 <= p < m.h.pixels() && 0 <= d < m.h.depth && !blocks::is_valid(m.entries, p)
                ==> samples[p * m.h.depth + d] == T::zero(),
{
    let depth = m.h.depth as int;
    assert forall|k: int, i: int| 0 <= k < m.tiles.len() && 0 <= i < m.listed(k).len() implies samples[
    #[trigger] m.listed(k)[i] * m.h.depth + m.dim(k)].number() == m.number(k, i) by {
        assert(tiling_laws::cell(samples, depth, m.listed(k)[i], m.dim(k)).number() == m.number(
            k,
            i,
        ));
    }
    assert forall|p: int, d: int|
        #![trigger samples[p * m.h.depth + d]]
        0 <= p < m.h.pixels() && 0 <= d < m.h.depth && !blocks::is_valid(m.entries, p) implies samples[
    p * m.h.depth + d] == T::zero() by {
        assert(tiling_laws::cell(samples, depth, p, d) == T::zero());
    }
}

} // verus!
