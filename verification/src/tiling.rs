//! The tiled body of a Lerc2 blob: every block of the raster stored in its shortest form.

use crate::blocks;
use crate::blocks::list_block;
use crate::bytes::push_bytes;
use crate::error::{Error, Fault, Result};
use crate::float::Double;
use crate::lerc2_body;
use crate::lerc2_body::{div_up, gather};
use crate::sample::Sample;
use crate::tile_plan;
use crate::tile_plan::{plan_tile, TilePlan, TileShape};
use vstd::prelude::*;

verus! {

/// The grid of blocks and the accuracy that the blocks are stored with.
#[derive(Debug, Clone, Copy)]
pub struct TilingOptions {
    pub width: u32,
    pub height: u32,
    pub depth: u32,
    pub micro_block_size: u32,
    pub max_z_error: Double,
}

impl TilingOptions {
    /// The grid is not empty.
    pub open spec fn wf(self) -> bool {
        &&& self.width > 0
        &&& self.height > 0
        &&& self.depth > 0
        &&& 1 <= self.micro_block_size <= 32
        &&& self.width as nat * self.height as nat <= usize::MAX
    }

    /// `width * height`.
    pub open spec fn pixels(self) -> nat {
        self.width as nat * self.height as nat
    }

    /// The number of blocks side by side.
    pub open spec fn across(self) -> int {
        lerc2_body::block_count(self.width as int, self.micro_block_size as int)
    }

    /// The number of blocks one below the other.
    pub open spec fn down(self) -> int {
        lerc2_body::block_count(self.height as int, self.micro_block_size as int)
    }

    /// The valid pixels of a block.
    pub open spec fn listed(self, mask: Option<Seq<u8>>, bx: int, by: int) -> Seq<int> {
        let micro = self.micro_block_size as int;
        blocks::block_pixels(
            mask,
            self.width as int,
            bx * micro,
            by * micro,
            lerc2_body::block_extent(self.width as int, micro, bx) as nat,
            lerc2_body::block_extent(self.height as int, micro, by) as nat,
        )
    }
}

/// How a block is stored at one depth.
pub open spec fn shape_at<T: Sample>(
    o: TilingOptions,
    mask: Option<Seq<u8>>,
    samples: Seq<T>,
    by: int,
    bx: int,
    dim: int,
) -> TileShape {
    let list = o.listed(mask, bx, by);
    tile_plan::tile_shape(
        lerc2_body::gathered(samples, list, o.depth as int, dim),
        if dim == 0 {
            None
        } else {
            Some(lerc2_body::gathered(samples, list, o.depth as int, dim - 1))
        },
        o.max_z_error,
        o.depth as nat,
    )
}

/// A tile together with its leftmost column.
#[verifier::ext_equal]
pub struct PlacedShape {
    pub x: nat,
    pub shape: TileShape,
}

/// The tiles from block (`bx`, `by`) and depth `dim` on, in the order in which they are stored.
pub open spec fn planned<T: Sample>(
    o: TilingOptions,
    mask: Option<Seq<u8>>,
    samples: Seq<T>,
    by: nat,
    bx: nat,
    dim: nat,
) -> Seq<PlacedShape>
    decreases o.down() - by, o.across() - bx, o.depth - dim,
{
    if by >= o.down() {
        seq![]
    } else if bx >= o.across() {
        planned(o, mask, samples, by + 1, 0, 0)
    } else if dim >= o.depth {
        planned(o, mask, samples, by, bx + 1, 0)
    } else {
        seq![
            PlacedShape {
                x: bx * o.micro_block_size as nat,
                shape: shape_at(o, mask, samples, by as int, bx as int, dim as int),
            },
        ] + planned(o, mask, samples, by, bx, dim + 1)
    }
}

/// The header byte of a tile.
pub open spec fn tile_header(x: nat, shape: TileShape, version: u32) -> u8 {
    let check = if version >= 5 {
        2 * ((x / 16) % 8)
    } else {
        (x / 8) % 16
    };
    let flag: nat = if version >= 5 && shape.diff {
        4
    } else {
        0
    };
    (64 * shape.type_code + 4 * check + flag + shape.code) as u8
}

/// The bytes of tiles.
pub open spec fn tiles_bytes(tiles: Seq<PlacedShape>, version: u32) -> Seq<u8>
    decreases tiles.len(),
{
    if tiles.len() == 0 {
        seq![]
    } else {
        tiles_bytes(tiles.drop_last(), version) + seq![
            tile_header(tiles.last().x, tiles.last().shape, version),
        ] + tiles.last().shape.body
    }
}

/// The number of bytes that tiles take.
pub open spec fn tiles_size(tiles: Seq<PlacedShape>) -> nat
    decreases tiles.len(),
{
    if tiles.len() == 0 {
        0
    } else {
        tiles_size(tiles.drop_last()) + 1 + tiles.last().shape.body.len()
    }
}

/// Whether a tile stores differences between depths.
pub open spec fn some_diff(tiles: Seq<PlacedShape>) -> bool {
    exists|i: int| 0 <= i < tiles.len() && (#[trigger] tiles[i]).shape.diff
}

/// The oldest version that tiles can be stored in.
pub open spec fn tiles_version(tiles: Seq<PlacedShape>) -> u32 {
    if some_diff(tiles) {
        5
    } else {
        4
    }
}

/// The bytes of tiles are as many as their size says.
pub proof fn lemma_tiles_size(tiles: Seq<PlacedShape>, version: u32)
    ensures
        tiles_bytes(tiles, version).len() == tiles_size(tiles),
    decreases tiles.len(),
{
    if tiles.len() > 0 {
        lemma_tiles_size(tiles.drop_last(), version);
    }
}

/// Tiles come one after the other.
pub proof fn lemma_tiles_split(first: Seq<PlacedShape>, second: Seq<PlacedShape>, version: u32)
    ensures
        tiles_bytes(first + second, version) == tiles_bytes(first, version) + tiles_bytes(
            second,
            version,
        ),
        tiles_size(first + second) == tiles_size(first) + tiles_size(second),
    decreases second.len(),
{
    if second.len() == 0 {
        assert(first + second =~= first);
        assert(tiles_bytes(first, version) + tiles_bytes(second, version) =~= tiles_bytes(
            first,
            version,
        ));
    } else {
        lemma_tiles_split(first, second.drop_last(), version);
        assert((first + second).drop_last() =~= first + second.drop_last());
        assert(tiles_bytes(first + second, version) =~= tiles_bytes(first, version) + tiles_bytes(
            second,
            version,
        ));
    }
}

/// A planned tile and its leftmost column.
pub struct PlacedTile {
    pub x: usize,
    pub plan: TilePlan,
}

impl View for PlacedTile {
    type V = PlacedShape;

    open spec fn view(&self) -> PlacedShape {
        PlacedShape { x: self.x as nat, shape: self.plan@ }
    }
}

/// The tiles of a raster, with what the choice of an encoding needs to know of them.
pub struct TilingPlan {
    pub tiles: Vec<PlacedTile>,
    pub version: u32,
    pub data_len: usize,
}

/// The planned tiles.
pub open spec fn tiles_view(tiles: Seq<PlacedTile>) -> Seq<PlacedShape> {
    Seq::new(tiles.len(), |i: int| tiles[i]@)
}

impl TilingPlan {
    /// Version and length agree with the tiles.
    pub open spec fn wf(self) -> bool {
        &&& self.version == tiles_version(tiles_view(self.tiles@))
        &&& self.data_len == tiles_size(tiles_view(self.tiles@))
        &&& forall|i: int|
            0 <= i < self.tiles@.len() ==> (#[trigger] self.tiles@[i]).plan.code < 4
                && self.tiles@[i].plan.type_code < 4
    }
}

/// Appends a tile to a plan.
fn add_tile(plan: &mut TilingPlan, x: usize, tile: TilePlan) -> (r: Result<()>)
    requires
        old(plan).wf(),
        tile.code < 4,
        tile.type_code < 4,
    ensures
        match r {
            Ok(_) => final(plan).wf() && tiles_view(final(plan).tiles@) == tiles_view(
                old(plan).tiles@,
            ).push(PlacedShape { x: x as nat, shape: tile@ }),
            Err(e) => tiles_size(
                tiles_view(old(plan).tiles@).push(PlacedShape { x: x as nat, shape: tile@ }),
            ) > usize::MAX && e@ == Fault::SizeOverflow("tile payload byte count"@),
        },
{
    let ghost before = tiles_view(plan.tiles@);
    let ghost placed = PlacedShape { x: x as nat, shape: tile@ };
    let ghost after = before.push(placed);
    assert(after.drop_last() =~= before);
    let len: usize = tile.body.len();
    if len == usize::MAX || plan.data_len > usize::MAX - (len + 1) {
        return Err(Error::SizeOverflow("tile payload byte count"));
    }
    proof {
        if tile.diff {
            assert(after[before.len() as int].shape.diff);
        }
        if some_diff(before) {
            let k = choose|i: int| 0 <= i < before.len() && (#[trigger] before[i]).shape.diff;
            assert(after[k].shape.diff);
        }
        if some_diff(after) {
            let k = choose|i: int| 0 <= i < after.len() && (#[trigger] after[i]).shape.diff;
            assert(k == before.len() || before[k].shape.diff);
        }
    }
    if tile.diff {
        plan.version = 5;
    }
    plan.data_len = plan.data_len + len + 1;
    plan.tiles.push(PlacedTile { x, plan: tile });
    assert(tiles_view(plan.tiles@) =~= after);
    Ok(())
}

/// The outcome of planning.
pub open spec fn tiling_fault(tiles: Seq<PlacedShape>) -> Option<Fault> {
    if tiles_size(tiles) > usize::MAX {
        Some(Fault::SizeOverflow("tile payload byte count"@))
    } else {
        None
    }
}

proof fn lemma_size_monotone(first: Seq<PlacedShape>, second: Seq<PlacedShape>)
    ensures
        tiles_size(first) <= tiles_size(first + second),
{
    lemma_tiles_split(first, second, 4);
}

/// Plans one block at all depths.
fn plan_block<T: Sample>(
    plan: &mut TilingPlan,
    samples: &Vec<T>,
    pixels: &Vec<usize>,
    o: TilingOptions,
    x: usize,
    total: usize,
    Ghost(mask): Ghost<Option<Seq<u8>>>,
    Ghost(by): Ghost<nat>,
    Ghost(bx): Ghost<nat>,
    Ghost(whole): Ghost<Seq<PlacedShape>>,
) -> (r: Result<()>)
    requires
        old(plan).wf(),
        o.wf(),
        total == o.pixels(),
        samples@.len() == total * o.depth,
        pixels@.len() <= 1024,
        forall|i: int| 0 <= i < pixels@.len() ==> #[trigger] pixels@[i] < total,
        pixels@.map_values(|p: usize| p as int) == o.listed(mask, bx as int, by as int),
        x == bx * o.micro_block_size,
        by < o.down(),
        bx < o.across(),
        whole == tiles_view(old(plan).tiles@) + planned(o, mask, samples@, by, bx, 0),
    ensures
        match r {
            Ok(_) => final(plan).wf() && whole == tiles_view(final(plan).tiles@) + planned(
                o,
                mask,
                samples@,
                by,
                bx + 1,
                0,
            ),
            Err(e) => tiling_fault(whole) == Some(e@),
        },
{
    let depth: usize = o.depth as usize;
    let ghost list = o.listed(mask, bx as int, by as int);
    let mut dim: usize = 0;
    while dim < depth
        invariant
            plan.wf(),
            o.wf(),
            total == o.pixels(),
            depth == o.depth,
            samples@.len() == total * depth,
            dim <= depth,
            pixels@.len() <= 1024,
            forall|i: int| 0 <= i < pixels@.len() ==> #[trigger] pixels@[i] < total,
            list == o.listed(mask, bx as int, by as int),
            list == pixels@.map_values(|p: usize| p as int),
            x == bx * o.micro_block_size,
            by < o.down(),
            bx < o.across(),
            whole == tiles_view(plan.tiles@) + planned(o, mask, samples@, by, bx, dim as nat),
        decreases depth - dim,
    {
        let current: Vec<T> = gather(samples, pixels, depth, dim, total);
        let tile: TilePlan = if dim == 0 {
            plan_tile(&current, None, o.max_z_error, depth)
        } else {
            let previous: Vec<T> = gather(samples, pixels, depth, dim - 1, total);
            plan_tile(&current, Some(&previous), o.max_z_error, depth)
        };
        let ghost shape = shape_at(o, mask, samples@, by as int, bx as int, dim as int);
        assert(tile@ == shape);
        proof {
            tile_plan::lemma_shape_codes(
                current@,
                if dim == 0 {
                    None
                } else {
                    Some(lerc2_body::gathered(samples@, list, depth as int, dim - 1))
                },
                o.max_z_error,
                o.depth as nat,
            );
            let before = tiles_view(plan.tiles@);
            let rest = planned(o, mask, samples@, by, bx, (dim + 1) as nat);
            let placed = PlacedShape { x: x as nat, shape };
            assert(planned(o, mask, samples@, by, bx, dim as nat) == seq![placed] + rest);
            assert(before + (seq![placed] + rest) =~= before.push(placed) + rest);
            lemma_size_monotone(before.push(placed), rest);
        }
        add_tile(plan, x, tile)?;
        dim += 1;
    }
    Ok(())
}

/// Plans every tile of a raster.
#[verifier::rlimit(40)]
pub fn plan_tiles<T: Sample>(samples: &Vec<T>, mask: Option<&[u8]>, o: TilingOptions) -> (r: Result<
    TilingPlan,
>)
    requires
        o.wf(),
        samples@.len() == o.pixels() * o.depth,
        blocks::mask_fits(blocks::mask_seq(mask), o.pixels()),
    ensures
        match r {
            Ok(plan) => plan.wf() && tiles_view(plan.tiles@) == planned(
                o,
                blocks::mask_seq(mask),
                samples@,
                0,
                0,
                0,
            ) && tiling_fault(tiles_view(plan.tiles@)) is None,
            Err(e) => tiling_fault(planned(o, blocks::mask_seq(mask), samples@, 0, 0, 0)) == Some(
                e@,
            ),
        },
{
    let width: usize = o.width as usize;
    let height: usize = o.height as usize;
    let micro: usize = o.micro_block_size as usize;
    let total: usize = width * height;
    let blocks_x: usize = div_up(width, micro);
    let blocks_y: usize = div_up(height, micro);
    let ghost entries = blocks::mask_seq(mask);
    let ghost whole = planned(o, entries, samples@, 0, 0, 0);
    let mut plan = TilingPlan { tiles: Vec::new(), version: 4, data_len: 0 };
    assert(tiles_view(plan.tiles@) =~= seq![]);
    assert(whole =~= tiles_view(plan.tiles@) + whole);
    let mut by: usize = 0;
    while by < blocks_y
        invariant
            o.wf(),
            plan.wf(),
            width == o.width,
            height == o.height,
            micro == o.micro_block_size,
            total == o.pixels(),
            blocks_x == o.across(),
            blocks_y == o.down(),
            samples@.len() == total * o.depth,
            entries == blocks::mask_seq(mask),
            blocks::mask_fits(entries, o.pixels()),
            whole == planned(o, blocks::mask_seq(mask), samples@, 0, 0, 0),
            by <= blocks_y,
            whole == tiles_view(plan.tiles@) + planned(o, entries, samples@, by as nat, 0, 0),
        decreases blocks_y - by,
    {
        proof {
            lerc2_body::lemma_block_extent(height as int, micro as int, by as int);
        }
        let y: usize = by * micro;
        let rows: usize = if height - y < micro { height - y } else { micro };
        let mut bx: usize = 0;
        while bx < blocks_x
            invariant
                o.wf(),
                plan.wf(),
                width == o.width,
                height == o.height,
                micro == o.micro_block_size,
                total == o.pixels(),
                blocks_x == o.across(),
                blocks_y == o.down(),
                samples@.len() == total * o.depth,
                entries == blocks::mask_seq(mask),
                blocks::mask_fits(entries, o.pixels()),
                whole == planned(o, blocks::mask_seq(mask), samples@, 0, 0, 0),
                by < blocks_y,
                bx <= blocks_x,
                y == by * micro,
                rows == lerc2_body::block_extent(height as int, micro as int, by as int),
                rows <= 32,
                y + rows <= height,
                whole == tiles_view(plan.tiles@) + planned(
                    o,
                    entries,
                    samples@,
                    by as nat,
                    bx as nat,
                    0,
                ),
            decreases blocks_x - bx,
        {
            proof {
                lerc2_body::lemma_block_extent(width as int, micro as int, bx as int);
            }
            let x: usize = bx * micro;
            let cols: usize = if width - x < micro { width - x } else { micro };
            let pixels: Vec<usize> = list_block(mask, width, height, x, y, cols, rows);
            proof {
                let list = o.listed(entries, bx as int, by as int);
                assert(pixels@.map_values(|p: usize| p as int) == list);
                blocks::lemma_block_pixels(
                    entries,
                    width as nat,
                    height as nat,
                    x as nat,
                    y as nat,
                    cols as nat,
                    rows as nat,
                );
                assert(cols * rows <= 1024) by (nonlinear_arith)
                    requires
                        cols <= 32,
                        rows <= 32,
                ;
                assert forall|i: int| 0 <= i < pixels@.len() implies #[trigger] pixels@[i]
                    < total by {
                    assert(list[i] == pixels@[i]);
                }
            }
            plan_block(
                &mut plan,
                samples,
                &pixels,
                o,
                x,
                total,
                Ghost(entries),
                Ghost(by as nat),
                Ghost(bx as nat),
                Ghost(whole),
            )?;
            bx += 1;
        }
        by += 1;
    }
    assert(whole =~= tiles_view(plan.tiles@));
    Ok(plan)
}

/// Writes the header byte of a tile.
fn tile_header_byte(x: usize, plan: &TilePlan, version: u32) -> (r: u8)
    requires
        plan.code < 4,
        plan.type_code < 4,
    ensures
        r == tile_header(x as nat, plan@, version),
{
    let check: u8 = if version >= 5 {
        2 * ((x / 16) % 8) as u8
    } else {
        ((x / 8) % 16) as u8
    };
    let flag: u8 = if version >= 5 && plan.diff { 4 } else { 0 };
    64 * plan.type_code + 4 * check + flag + plan.code
}

/// Appends the planned tiles.
pub fn write_tiles(out: &mut Vec<u8>, plan: &TilingPlan, version: u32)
    requires
        plan.wf(),
    ensures
        final(out)@ == old(out)@ + tiles_bytes(tiles_view(plan.tiles@), version),
{
    let ghost tiles = tiles_view(plan.tiles@);
    let ghost before = out@;
    let mut i: usize = 0;
    assert(tiles.subrange(0, 0) =~= seq![]);
    while i < plan.tiles.len()
        invariant
            plan.wf(),
            i <= plan.tiles@.len(),
            tiles == tiles_view(plan.tiles@),
            out@ =~= before + tiles_bytes(tiles.subrange(0, i as int), version),
        decreases plan.tiles@.len() - i,
    {
        let tile: &PlacedTile = &plan.tiles[i];
        proof {
            assert(tiles.subrange(0, i + 1).drop_last() =~= tiles.subrange(0, i as int));
            assert(tiles.subrange(0, i + 1).last() == tile@);
        }
        out.push(tile_header_byte(tile.x, &tile.plan, version));
        push_bytes(out, tile.plan.body.as_slice());
        i += 1;
    }
    assert(tiles.subrange(0, tiles.len() as int) =~= tiles);
}

} // verus!
