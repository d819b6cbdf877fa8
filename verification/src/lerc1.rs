//! Reading Lerc1 (CntZImage) blobs.

use crate::allocation;
use crate::allocation::{check_allocation, filled};
use crate::bitpack;
use crate::bitpack::{unstuff_v2, words_from_padded};
use crate::blocks;
use crate::blocks::{list_block, scatter};
use crate::bytes;
use crate::cursor;
use crate::cursor::Cursor;
use crate::error::{Error, Fault, Result};
use crate::float;
use crate::float::{Double, Single};
use crate::lerc2;
use crate::lerc2::borrow_mask;
use crate::lerc2_header;
use crate::lerc2_header::check_fields;
use crate::mask;
use crate::mask::{decode_mask_rle, unpack_mask_bitset};
use crate::raster;
use crate::raster::valid_entries;
use crate::sample::Sample;
use crate::stuffed;
use crate::stuffed::{quantized_nmax, quantized_value};
use crate::text;
use crate::text::push_decimal;
use crate::types;
use crate::types::{copy_vec, BlobFacts, BlobInfo, DataType, MaskEncoding, Version};
use crate::values;
use crate::values::read_vec;
use vstd::prelude::*;
use vstd::slice::slice_subrange;
use vstd::string::StringExecFns;

verus! {

/// The size that one entry of the block table counts for.
pub const BLOCK_ENTRY_BYTES: usize = 40;

/// The nine bytes `CntZImage`.
pub open spec fn magic_lerc1() -> Seq<u8> {
    seq![67u8, 110u8, 116u8, 90u8, 73u8, 109u8, 97u8, 103u8, 101u8]
}

/// Whether the bytes begin with the signature.
pub open spec fn has_lerc1_magic(blob: Seq<u8>) -> bool {
    blob.len() >= 9 && blob.subrange(0, 9) == magic_lerc1()
}

/// Whether a blob begins with the Lerc1 signature.
pub fn is_lerc1(blob: &[u8]) -> (r: bool)
    ensures
        r == has_lerc1_magic(blob@),
{
    if blob.len() < 9 {
        return false;
    }
    let r = blob[0] == 67 && blob[1] == 110 && blob[2] == 116 && blob[3] == 90 && blob[4] == 73
        && blob[5] == 109 && blob[6] == 97 && blob[7] == 103 && blob[8] == 101;
    proof {
        let head = blob@.subrange(0, 9);
        if r {
            assert(head =~= magic_lerc1());
        } else {
            assert(head[0] != 67 || head[1] != 110 || head[2] != 116 || head[3] != 90 || head[4]
                != 73 || head[5] != 109 || head[6] != 97 || head[7] != 103 || head[8] != 101);
        }
    }
    r
}

/// A raster cut into a nominal number of equal blocks along each axis; what the division
/// leaves over becomes one more block at the far end.
#[derive(Debug, Clone, Copy)]
pub struct BlockGrid {
    pub width: usize,
    pub height: usize,
    pub nominal_x: usize,
    pub nominal_y: usize,
}

/// The number of blocks along an axis.
pub open spec fn axis_blocks(extent: nat, nominal: nat) -> nat {
    if extent % nominal != 0 {
        nominal + 1
    } else {
        nominal
    }
}

/// The extent of a block along an axis.
pub open spec fn axis_extent(extent: nat, nominal: nat, b: nat) -> nat {
    if b + 1 == axis_blocks(extent, nominal) && extent % nominal != 0 {
        extent % nominal
    } else {
        extent / nominal
    }
}

/// The largest extent of a block along an axis.
pub open spec fn axis_largest(extent: nat, nominal: nat) -> nat {
    if extent / nominal < extent % nominal {
        extent % nominal
    } else {
        extent / nominal
    }
}

/// Every block lies inside the axis.
pub proof fn lemma_axis(extent: nat, nominal: nat, b: nat)
    requires
        1 <= nominal <= extent,
        b < axis_blocks(extent, nominal),
    ensures
        1 <= axis_extent(extent, nominal, b) <= axis_largest(extent, nominal),
        b * (extent / nominal) + axis_extent(extent, nominal, b) <= extent,
        axis_largest(extent, nominal) <= extent,
        axis_blocks(extent, nominal) <= extent,
        b + 1 < axis_blocks(extent, nominal) ==> b * (extent / nominal) + axis_extent(
            extent,
            nominal,
            b,
        ) == (b + 1) * (extent / nominal),
        b + 1 == axis_blocks(extent, nominal) ==> b * (extent / nominal) + axis_extent(
            extent,
            nominal,
            b,
        ) == extent,
{
    let base = extent / nominal;
    let rest = extent % nominal;
    vstd::arithmetic::div_mod::lemma_fundamental_div_mod(extent as int, nominal as int);
    vstd::arithmetic::div_mod::lemma_div_non_zero(extent as int, nominal as int);
    assert(nominal * base == base * nominal) by (nonlinear_arith);
    assert((b + 1) * base == b * base + base) by (nonlinear_arith);
    assert(nominal <= base * nominal) by (nonlinear_arith)
        requires
            base >= 1,
    ;
    assert(base <= base * nominal) by (nonlinear_arith)
        requires
            nominal >= 1,
    ;
    if b < nominal {
        assert((b + 1) * base <= base * nominal) by (nonlinear_arith)
            requires
                b + 1 <= nominal,
        ;
    } else {
        assert(b * base == base * nominal) by (nonlinear_arith)
            requires
                b == nominal,
        ;
    }
    if b + 1 == nominal {
        assert((b + 1) * base == base * nominal) by (nonlinear_arith)
            requires
                b + 1 == nominal,
        ;
    }
}

impl BlockGrid {
    pub open spec fn wf(self) -> bool {
        &&& 1 <= self.nominal_x <= self.width
        &&& 1 <= self.nominal_y <= self.height
        &&& self.width * self.height <= usize::MAX
    }

    pub open spec fn pixels(self) -> nat {
        self.width as nat * self.height as nat
    }

    pub open spec fn blocks_x(self) -> nat {
        axis_blocks(self.width as nat, self.nominal_x as nat)
    }

    pub open spec fn blocks_y(self) -> nat {
        axis_blocks(self.height as nat, self.nominal_y as nat)
    }

    /// The most samples that a block has.
    pub open spec fn largest(self) -> nat {
        axis_largest(self.width as nat, self.nominal_x as nat) * axis_largest(
            self.height as nat,
            self.nominal_y as nat,
        )
    }

    /// The valid pixels of a block.
    pub open spec fn listed(self, entries: Option<Seq<u8>>, bx: nat, by: nat) -> Seq<int> {
        blocks::block_pixels(
            entries,
            self.width as int,
            (bx * (self.width as nat / self.nominal_x as nat)) as int,
            (by * (self.height as nat / self.nominal_y as nat)) as int,
            axis_extent(self.width as nat, self.nominal_x as nat, bx),
            axis_extent(self.height as nat, self.nominal_y as nat, by),
        )
    }

    /// The bounds of a block's pixels.
    pub proof fn lemma_listed(self, entries: Option<Seq<u8>>, bx: nat, by: nat)
        requires
            self.wf(),
            bx < self.blocks_x(),
            by < self.blocks_y(),
        ensures
            self.listed(entries, bx, by).len() <= self.largest(),
            forall|i: int|
                0 <= i < self.listed(entries, bx, by).len() ==> 0 <= #[trigger] self.listed(
                    entries,
                    bx,
                    by,
                )[i] < self.pixels(),
    {
        let w = axis_extent(self.width as nat, self.nominal_x as nat, bx);
        let h = axis_extent(self.height as nat, self.nominal_y as nat, by);
        lemma_axis(self.width as nat, self.nominal_x as nat, bx);
        lemma_axis(self.height as nat, self.nominal_y as nat, by);
        blocks::lemma_block_pixels(
            entries,
            self.width as nat,
            self.height as nat,
            bx * (self.width as nat / self.nominal_x as nat),
            by * (self.height as nat / self.nominal_y as nat),
            w,
            h,
        );
        let lw = axis_largest(self.width as nat, self.nominal_x as nat);
        let lh = axis_largest(self.height as nat, self.nominal_y as nat);
        assert(w * h <= lw * lh) by (nonlinear_arith)
            requires
                w <= lw,
                h <= lh,
        ;
    }

    proof fn lemma_sizes(self)
        requires
            self.wf(),
        ensures
            self.largest() <= self.pixels(),
            self.blocks_x() * self.blocks_y() <= self.pixels(),
            self.blocks_x() <= usize::MAX,
            self.blocks_y() <= usize::MAX,
    {
        lemma_axis(self.width as nat, self.nominal_x as nat, 0);
        lemma_axis(self.height as nat, self.nominal_y as nat, 0);
        let lw = axis_largest(self.width as nat, self.nominal_x as nat);
        let lh = axis_largest(self.height as nat, self.nominal_y as nat);
        assert(lw * lh <= self.width as nat * self.height as nat) by (nonlinear_arith)
            requires
                lw <= self.width,
                lh <= self.height,
        ;
        let bx = self.blocks_x();
        let by = self.blocks_y();
        assert(bx * by <= self.width as nat * self.height as nat) by (nonlinear_arith)
            requires
                bx <= self.width,
                by <= self.height,
        ;
    }

    /// Lists the valid pixels of a block.
    fn list(&self, entries: Option<&[u8]>, bx: usize, by: usize) -> (r: Vec<usize>)
        requires
            self.wf(),
            bx < self.blocks_x(),
            by < self.blocks_y(),
            blocks::mask_fits(blocks::mask_seq(entries), self.pixels()),
        ensures
            r@.map_values(|p: usize| p as int) == self.listed(
                blocks::mask_seq(entries),
                bx as nat,
                by as nat,
            ),
            r@.len() == self.listed(blocks::mask_seq(entries), bx as nat, by as nat).len(),
            r@.len() <= self.largest(),
            forall|i: int| 0 <= i < r@.len() ==> #[trigger] r@[i] < self.pixels(),
    {
        let base_x: usize = self.width / self.nominal_x;
        let base_y: usize = self.height / self.nominal_y;
        proof {
            lemma_axis(self.width as nat, self.nominal_x as nat, bx as nat);
            lemma_axis(self.height as nat, self.nominal_y as nat, by as nat);
            self.lemma_sizes();
            assert(0 <= bx * base_x && 0 <= by * base_y) by (nonlinear_arith);
        }
        let cols: usize = if bx + 1 == self.count_x() && self.width % self.nominal_x != 0 {
            self.width % self.nominal_x
        } else {
            base_x
        };
        let rows: usize = if by + 1 == self.count_y() && self.height % self.nominal_y != 0 {
            self.height % self.nominal_y
        } else {
            base_y
        };
        let found: Vec<usize> = list_block(
            entries,
            self.width,
            self.height,
            bx * base_x,
            by * base_y,
            cols,
            rows,
        );
        proof {
            let list = self.listed(blocks::mask_seq(entries), bx as nat, by as nat);
            self.lemma_listed(blocks::mask_seq(entries), bx as nat, by as nat);
            assert forall|i: int| 0 <= i < found@.len() implies #[trigger] found@[i]
                < self.pixels() by {
                assert(list[i] == found@[i]);
            }
        }
        found
    }

    /// The number of blocks along a row.
    fn count_x(&self) -> (r: usize)
        requires
            self.wf(),
        ensures
            r == self.blocks_x(),
    {
        proof {
            self.lemma_sizes();
        }
        self.nominal_x + if self.width % self.nominal_x != 0 { 1 } else { 0 }
    }

    /// The number of blocks along a column.
    fn count_y(&self) -> (r: usize)
        requires
            self.wf(),
        ensures
            r == self.blocks_y(),
    {
        proof {
            self.lemma_sizes();
        }
        self.nominal_y + if self.height % self.nominal_y != 0 { 1 } else { 0 }
    }

    /// The most samples that a block has.
    fn max_block_samples(&self) -> (r: usize)
        requires
            self.wf(),
        ensures
            r == self.largest(),
    {
        proof {
            self.lemma_sizes();
        }
        let base_x: usize = self.width / self.nominal_x;
        let base_y: usize = self.height / self.nominal_y;
        let rest_x: usize = self.width % self.nominal_x;
        let rest_y: usize = self.height % self.nominal_y;
        let cols: usize = if base_x < rest_x { rest_x } else { base_x };
        let rows: usize = if base_y < rest_y { rest_y } else { base_y };
        cols * rows
    }
}

/// How a block stores its values.
pub enum Block {
    /// Every value is zero.
    Zero,
    /// Every value is the same.
    Constant(Single),
    /// The values as they are.
    Raw(Vec<Single>),
    /// Numbers of steps above an offset, packed into bits.
    Stuffed { offset: Single, bits: u8, words: Vec<u32> },
}

/// The contents of a [`Block`].
#[verifier::ext_equal]
pub enum BlockSeq {
    Zero,
    Constant(Single),
    Raw(Seq<Single>),
    Stuffed { offset: Single, bits: u8, words: Seq<u32> },
}

impl View for Block {
    type V = BlockSeq;

    open spec fn view(&self) -> BlockSeq {
        match self {
            Block::Zero => BlockSeq::Zero,
            Block::Constant(value) => BlockSeq::Constant(*value),
            Block::Raw(found) => BlockSeq::Raw(found@),
            Block::Stuffed { offset, bits, words } => BlockSeq::Stuffed {
                offset: *offset,
                bits: *bits,
                words: words@,
            },
        }
    }
}

/// The outcome of reading an offset, stored in four, two or one bytes.
pub open spec fn offset_read(all: Seq<u8>, pos: int, kind: nat) -> std::result::Result<
    (Single, int),
    Fault,
> {
    if kind == 0 {
        match cursor::take_single(all, pos) {
            Err(e) => Err(e),
            Ok(value) => Ok((value, pos + 4)),
        }
    } else if kind == 1 || kind == 2 {
        let width: int = if kind == 1 {
            2
        } else {
            1
        };
        match cursor::take_number(all, pos, width) {
            Err(e) => Err(e),
            Ok(value) => Ok((float::double_of_int(value as int).narrowed(), pos + width)),
        }
    } else {
        Err(Fault::InvalidBlob("invalid Lerc1 block offset type "@ + text::decimal_text(kind)))
    }
}

/// The outcome of reading a number of valid pixels, stored in four, two or one bytes.
pub open spec fn count_read(all: Seq<u8>, pos: int, kind: nat) -> std::result::Result<
    (nat, int),
    Fault,
> {
    if kind > 2 {
        Err(
            Fault::InvalidBlob(
                "invalid Lerc1 valid pixel count type "@ + text::decimal_text(kind),
            ),
        )
    } else {
        let width: int = if kind == 0 {
            4
        } else if kind == 1 {
            2
        } else {
            1
        };
        match cursor::take_number(all, pos, width) {
            Err(e) => Err(e),
            Ok(value) => Ok((value, pos + width)),
        }
    }
}

/// The outcome of reading a bit-stuffed block behind its offset.
pub open spec fn stuffed_read(all: Seq<u8>, pos: int, offset: Single, count: nat) ->
    std::result::Result<(BlockSeq, int), Fault> {
    match cursor::take_u8(all, pos) {
        Err(e) => Err(e),
        Ok(head) => {
            let bits = (head % 64) as u8;
            match count_read(all, pos + 1, (head / 64) as nat) {
                Err(e) => Err(e),
                Ok((stored, at)) => if stored != count {
                    Err(
                        Fault::InvalidBlob(
                            "Lerc1 stuffed block valid count does not match its mask"@,
                        ),
                    )
                } else if bits as nat * count > usize::MAX {
                    Err(Fault::SizeOverflow("Lerc1 stuffed block bit count"@))
                } else {
                    let len = bitpack::packed_len(bits as nat, count);
                    match cursor::take(all, at, len as int) {
                        Err(e) => Err(e),
                        Ok(data) => Ok(
                            (
                                BlockSeq::Stuffed { offset, bits, words: bitpack::words_of(data) },
                                at + len,
                            ),
                        ),
                    }
                },
            }
        },
    }
}

/// The outcome of reading one block of `count` valid pixels.
pub open spec fn block_read(all: Seq<u8>, pos: int, count: nat) -> std::result::Result<
    (BlockSeq, int),
    Fault,
> {
    match cursor::take_u8(all, pos) {
        Err(e) => Err(e),
        Ok(head) => {
            let encoding = (head % 64) as nat;
            if encoding > 3 {
                Err(
                    Fault::InvalidBlob(
                        "invalid Lerc1 block encoding "@ + text::decimal_text(encoding),
                    ),
                )
            } else if encoding == 2 {
                Ok((BlockSeq::Zero, pos + 1))
            } else if encoding == 0 {
                if count * 4 > usize::MAX {
                    Err(Fault::SizeOverflow("Lerc1 raw block byte count"@))
                } else {
                    match cursor::take(all, pos + 1, (count * 4) as int) {
                        Err(e) => Err(e),
                        Ok(data) => Ok(
                            (
                                BlockSeq::Raw(values::samples_of::<Single>(data)),
                                pos + 1 + count * 4,
                            ),
                        ),
                    }
                }
            } else {
                match offset_read(all, pos + 1, (head / 64) as nat) {
                    Err(e) => Err(e),
                    Ok((offset, at)) => if encoding == 3 {
                        Ok((BlockSeq::Constant(offset), at))
                    } else {
                        stuffed_read(all, at, offset, count)
                    },
                }
            }
        },
    }
}

/// The outcome of reading the blocks from `(bx, by)` on.
pub open spec fn blocks_read(
    grid: BlockGrid,
    entries: Option<Seq<u8>>,
    all: Seq<u8>,
    by: nat,
    bx: nat,
    found: Seq<BlockSeq>,
    pos: int,
) -> std::result::Result<(Seq<BlockSeq>, int), Fault>
    decreases grid.blocks_y() - by, grid.blocks_x() - bx,
{
    if by >= grid.blocks_y() {
        Ok((found, pos))
    } else if bx >= grid.blocks_x() {
        blocks_read(grid, entries, all, by + 1, 0, found, pos)
    } else {
        match block_read(all, pos, grid.listed(entries, bx, by).len()) {
            Err(e) => Err(e),
            Ok((block, next)) => blocks_read(
                grid,
                entries,
                all,
                by,
                bx + 1,
                found.push(block),
                next,
            ),
        }
    }
}

/// Where a mask comes from.
#[derive(Debug, Clone, Copy)]
pub enum MaskSource<'a> {
    /// The blob itself.
    Inline,
    /// The caller.
    External(&'a [u8]),
}

/// The shared mask of a source, if it has one.
pub open spec fn source_mask(source: MaskSource) -> Option<Seq<u8>> {
    match source {
        MaskSource::Inline => None,
        MaskSource::External(entries) => Some(entries@),
    }
}

/// The fields in front of the mask section.
#[derive(Debug, Clone, Copy)]
pub struct Lerc1Head {
    pub version: u32,
    pub height: u32,
    pub width: u32,
    pub max_z_error: Double,
}

/// The outcome of reading the fields in front of the mask section.
pub open spec fn head_read(blob: Seq<u8>) -> std::result::Result<Lerc1Head, Fault> {
    match cursor::take(blob, 0, 10) {
        Err(e) => Err(e),
        Ok(magic) => if !has_lerc1_magic(magic) {
            Err(Fault::InvalidMagic)
        } else {
            match cursor::take_number(blob, 10, 4) {
                Err(e) => Err(e),
                Ok(version) => if version >= 0x8000_0000 {
                    Err(Fault::UnsupportedVersion(version as u32))
                } else {
                    match lerc2_header::short_field(blob.len(), 14, seq![4, 4, 4, 8], 0) {
                        Some(e) => Err(e),
                        None => {
                            let height = lerc2_header::number_at(blob, 18);
                            let width = lerc2_header::number_at(blob, 22);
                            let max_z_error = lerc2_header::double_at(blob, 26);
                            if width == 0 || height == 0 {
                                Err(
                                    Fault::InvalidHeader(
                                        "width and height must be greater than zero"@,
                                    ),
                                )
                            } else if !max_z_error.finite() || max_z_error.below(
                                Double { bits: 0 },
                            ) {
                                Err(
                                    Fault::InvalidHeader(
                                        "max_z_error must be finite and non-negative"@,
                                    ),
                                )
                            } else {
                                Ok(Lerc1Head { version: version as u32, height, width, max_z_error })
                            }
                        },
                    }
                },
            }
        },
    }
}

/// The outcome of decoding stored mask bytes.
pub open spec fn stored_mask(field: Seq<u8>, pixels: nat) -> std::result::Result<Seq<u8>, Fault> {
    match mask::bitset_decoded(field, mask::bitset_len(pixels)) {
        Err(e) => Err(e),
        Ok(bitset) => match allocation::allocation_fault(pixels, 1, "Lerc2 unpacked mask"@) {
            Some(e) => Err(e),
            None => Ok(mask::unpacked(bitset, pixels)),
        },
    }
}

/// The outcome of reading the mask section at byte 34.
pub open spec fn inline_mask(blob: Seq<u8>, h: Lerc1Head) -> std::result::Result<
    (MaskEncoding, Option<Seq<u8>>, int),
    Fault,
> {
    let pixels = h.width as nat * h.height as nat;
    match lerc2_header::short_field(blob.len(), 34, seq![4, 4, 4, 4], 0) {
        Some(e) => Err(e),
        None => {
            let blocks_y = lerc2_header::number_at(blob, 34);
            let blocks_x = lerc2_header::number_at(blob, 38);
            let len = lerc2_header::number_at(blob, 42);
            let max_value = Single { bits: lerc2_header::number_at(blob, 46) };
            if pixels > usize::MAX {
                Err(Fault::SizeOverflow("Lerc1 mask pixel count"@))
            } else if len > 0 {
                match cursor::take(blob, 50, len as int) {
                    Err(e) => Err(e),
                    Ok(field) => match stored_mask(field, pixels) {
                        Err(e) => Err(e),
                        Ok(entries) => Ok((MaskEncoding::Explicit, Some(entries), 50 + len)),
                    },
                }
            } else if blocks_y == 0 && blocks_x == 0 && max_value.widened().same(
                Double { bits: 0 },
            ) {
                match allocation::allocation_fault(pixels, 1, "Lerc1 implicit mask"@) {
                    Some(e) => Err(e),
                    None => Ok(
                        (
                            MaskEncoding::ImplicitAllInvalid,
                            Some(allocation::repeated(0u8, pixels)),
                            50,
                        ),
                    ),
                }
            } else {
                Ok((MaskEncoding::AllValid, None, 50))
            }
        },
    }
}

/// The outcome of finding the mask: how it is stored, the mask, and where the pixels begin.
pub open spec fn mask_found(
    blob: Seq<u8>,
    h: Lerc1Head,
    shared: Option<Seq<u8>>,
) -> std::result::Result<(MaskEncoding, Option<Seq<u8>>, int), Fault> {
    match shared {
        None => inline_mask(blob, h),
        Some(entries) => if h.width as nat * h.height as nat > usize::MAX {
            Err(Fault::SizeOverflow("Lerc1 shared-mask pixel count"@))
        } else if entries.len() != h.width as nat * h.height as nat {
            Err(
                Fault::InvalidBlob("shared mask length does not match the current Lerc1 blob"@),
            )
        } else {
            Ok((MaskEncoding::External, Some(entries), 34))
        },
    }
}

/// A parsed blob: metadata, mask and blocks.
#[verifier::ext_equal]
pub struct BlobParts {
    pub facts: BlobFacts,
    pub entries: Option<Seq<u8>>,
    pub max_value: Single,
    pub blocks: Seq<BlockSeq>,
    pub grid: BlockGrid,
}

/// The number of valid pixels.
pub open spec fn valid_count(entries: Option<Seq<u8>>, pixels: nat) -> nat {
    match entries {
        Some(m) => raster::count_valid(m),
        None => pixels,
    }
}

/// The bytes of the pixel section: as many as it declares, or all that follow where it
/// declares none.
pub open spec fn section_read(blob: Seq<u8>, pos: int, declared: u32) -> std::result::Result<
    Seq<u8>,
    Fault,
> {
    if declared == 0 {
        Ok(blob.subrange(pos, blob.len() as int))
    } else {
        cursor::take(blob, pos, declared as int)
    }
}

/// The metadata of a blob.
pub open spec fn blob_facts(
    h: Lerc1Head,
    encoding: MaskEncoding,
    valid: nat,
    size: int,
    max_value: Single,
) -> BlobFacts {
    BlobFacts {
        version: Version::Lerc1(h.version),
        data_type: DataType::F32,
        width: h.width,
        height: h.height,
        depth: 1,
        min_values: None,
        max_values: None,
        valid_pixel_count: valid as u32,
        micro_block_size: 0,
        blob_size: size as usize,
        remaining_band_count: 0,
        max_z_error: h.max_z_error,
        z_min: Double { bits: 0 },
        z_max: max_value.widened(),
        mask_encoding: encoding,
        no_data_value: None,
    }
}

/// The outcome of reading the pixel section.
pub open spec fn pixels_read(
    blob: Seq<u8>,
    h: Lerc1Head,
    encoding: MaskEncoding,
    entries: Option<Seq<u8>>,
    pos: int,
) -> std::result::Result<BlobParts, Fault> {
    let pixels = h.width as nat * h.height as nat;
    match lerc2_header::short_field(blob.len(), pos as nat, seq![4, 4, 4, 4], 0) {
        Some(e) => Err(e),
        None => {
            let nominal_y = lerc2_header::number_at(blob, pos);
            let nominal_x = lerc2_header::number_at(blob, pos + 4);
            let declared = lerc2_header::number_at(blob, pos + 8);
            let max_value = Single { bits: lerc2_header::number_at(blob, pos + 12) };
            let grid = BlockGrid {
                width: h.width as usize,
                height: h.height as usize,
                nominal_x: nominal_x as usize,
                nominal_y: nominal_y as usize,
            };
            if nominal_x == 0 || nominal_y == 0 {
                Err(Fault::InvalidHeader("Lerc1 block grid must be non-zero"@))
            } else if !max_value.finite() {
                Err(Fault::InvalidHeader("Lerc1 max pixel value must be finite"@))
            } else if nominal_x > h.width || nominal_y > h.height {
                Err(
                    Fault::InvalidHeader("Lerc1 block grid must not exceed raster dimensions"@),
                )
            } else if valid_count(entries, pixels) > u32::MAX {
                Err(Fault::SizeOverflow("Lerc1 valid pixel count as u32"@))
            } else {
                match section_read(blob, pos + 16, declared) {
                    Err(e) => Err(e),
                    Ok(payload) => match allocation::allocation_fault(
                        grid.blocks_x() * grid.blocks_y(),
                        BLOCK_ENTRY_BYTES as nat,
                        "Lerc1 block table"@,
                    ) {
                        Some(e) => Err(e),
                        None => match blocks_read(grid, entries, payload, 0, 0, seq![], 0) {
                            Err(e) => Err(e),
                            Ok((found, end)) => Ok(
                                BlobParts {
                                    facts: blob_facts(
                                        h,
                                        encoding,
                                        valid_count(entries, pixels),
                                        pos + 16 + if declared == 0 {
                                            end
                                        } else {
                                            declared as int
                                        },
                                        max_value,
                                    ),
                                    entries,
                                    max_value,
                                    blocks: found,
                                    grid,
                                },
                            ),
                        },
                    },
                }
            }
        },
    }
}

/// The outcome of parsing with the mask from one source.
pub open spec fn source_parsed(blob: Seq<u8>, shared: Option<Seq<u8>>) -> std::result::Result<
    BlobParts,
    Fault,
> {
    match head_read(blob) {
        Err(e) => Err(e),
        Ok(h) => match mask_found(blob, h, shared) {
            Err(e) => Err(e),
            Ok((encoding, entries, pos)) => pixels_read(blob, h, encoding, entries, pos),
        },
    }
}

/// The outcome of parsing: a mask in the blob takes precedence over a shared one.
pub open spec fn parsed(blob: Seq<u8>, shared: Option<Seq<u8>>) -> std::result::Result<
    BlobParts,
    Fault,
> {
    match (source_parsed(blob, None), shared) {
        (Ok(parts), _) => Ok(parts),
        (Err(e), None) => Err(e),
        (Err(inline), Some(entries)) => match source_parsed(blob, Some(entries)) {
            Ok(parts) => Ok(parts),
            Err(external) => Err(
                Fault::InvalidBlob(
                    "failed to parse Lerc1 blob with either an inline mask ("@ + inline.text()
                        + ") or the supplied shared mask ("@ + external.text() + ")"@,
                ),
            ),
        },
    }
}

/// Whether the raw blocks among the first of a grid have as many samples as valid pixels.
pub open spec fn raw_fit(grid: BlockGrid, entries: Option<Seq<u8>>, found: Seq<BlockSeq>) -> bool {
    forall|k: int|
        #![trigger found[k]]
        0 <= k < found.len() ==> (found[k] matches BlockSeq::Raw(samples) ==> samples.len()
            == grid.listed(
            entries,
            (k % (grid.blocks_x() as int)) as nat,
            (k / (grid.blocks_x() as int)) as nat,
        ).len())
}

proof fn lemma_block_next(all: Seq<u8>, pos: int, count: nat)
    requires
        pos >= 0,
    ensures
        block_read(all, pos, count) matches Ok((block, next)) ==> next >= pos && (
        block matches BlockSeq::Raw(samples) ==> samples.len() == count),
{
    if let Ok(data) = cursor::take(all, pos + 1, (count * 4) as int) {
        assert(data.len() == count * 4);
        assert(Single::kind().width() == 4);
    }
}

proof fn lemma_raw_fit(
    grid: BlockGrid,
    entries: Option<Seq<u8>>,
    all: Seq<u8>,
    by: nat,
    bx: nat,
    found: Seq<BlockSeq>,
    pos: int,
)
    requires
        grid.wf(),
        pos >= 0,
        bx <= grid.blocks_x(),
        by <= grid.blocks_y(),
        by == grid.blocks_y() ==> bx == 0,
        found.len() == by * grid.blocks_x() + bx,
        raw_fit(grid, entries, found),
    ensures
        blocks_read(grid, entries, all, by, bx, found, pos) matches Ok((blocks, _)) ==> raw_fit(
            grid,
            entries,
            blocks,
        ) && blocks.len() == grid.blocks_y() * grid.blocks_x(),
    decreases grid.blocks_y() - by, grid.blocks_x() - bx,
{
    let n = grid.blocks_x();
    if by >= grid.blocks_y() {
    } else if bx >= n {
        assert((by + 1) * n == by * n + n) by (nonlinear_arith);
        lemma_raw_fit(grid, entries, all, by + 1, 0, found, pos);
    } else {
        let count = grid.listed(entries, bx, by).len();
        lemma_block_next(all, pos, count);
        if let Ok((block, next)) = block_read(all, pos, count) {
            lemma_block_index(grid, by, bx);
            lemma_raw_fit(grid, entries, all, by, bx + 1, found.push(block), next);
        }
    }
}

/// A parsed blob has a grid of blocks, whose raw ones have a sample for each valid pixel.
pub proof fn lemma_parsed_grid(blob: Seq<u8>, shared: Option<Seq<u8>>)
    ensures
        parsed(blob, shared) matches Ok(parts) ==> parts.grid.wf() && raw_fit(
            parts.grid,
            parts.entries,
            parts.blocks,
        ) && parts.blocks.len() == parts.grid.blocks_y() * parts.grid.blocks_x(),
{
    lemma_source_grid(blob, None);
    lemma_source_grid(blob, shared);
}

proof fn lemma_source_grid(blob: Seq<u8>, shared: Option<Seq<u8>>)
    ensures
        source_parsed(blob, shared) matches Ok(parts) ==> parts.grid.wf() && raw_fit(
            parts.grid,
            parts.entries,
            parts.blocks,
        ) && parts.blocks.len() == parts.grid.blocks_y() * parts.grid.blocks_x(),
{
    if let Ok(parts) = source_parsed(blob, shared) {
        let h = head_read(blob)->Ok_0;
        let (_, entries, pos) = mask_found(blob, h, shared)->Ok_0;
        let payload = section_read(
            blob,
            pos + 16,
            lerc2_header::number_at(blob, pos + 8),
        )->Ok_0;
        assert(0 * parts.grid.blocks_x() == 0) by (nonlinear_arith);
        lemma_raw_fit(parts.grid, entries, payload, 0, 0, seq![], 0);
    }
}

/// The steps of a bit-stuffed block as doubles.
pub open spec fn step_values(
    offset: Single,
    bits: u8,
    words: Seq<u32>,
    count: nat,
    max_z_error: Double,
    max_value: Single,
) -> Seq<Double> {
    let steps = bitpack::high_first(words, bits as nat, count);
    let scale = Double { bits: float::TWO_BITS }.product(max_z_error);
    Seq::new(
        count,
        |i: int| stuffed::quantized(offset.widened(), scale, max_value.widened(), steps[i]),
    )
}

/// The outcome of expanding a block to the doubles that it stands for.
pub open spec fn block_values(
    block: BlockSeq,
    count: nat,
    max_z_error: Double,
    max_value: Single,
) -> std::result::Result<Seq<Double>, Fault> {
    match block {
        BlockSeq::Zero => Ok(allocation::repeated(Double { bits: 0 }, count)),
        BlockSeq::Constant(value) => Ok(allocation::repeated(value.widened(), count)),
        BlockSeq::Raw(found) => Ok(Seq::new(found.len(), |i: int| found[i].widened())),
        BlockSeq::Stuffed { offset, bits, words } => if bits > 32 {
            Err(Fault::InvalidBlob("bit-stuffed block uses more than 32 bits per pixel"@))
        } else {
            Ok(step_values(offset, bits, words, count, max_z_error, max_value))
        },
    }
}

/// The value that is written for a double: bit-stuffed ones are rounded to single precision.
pub open spec fn shown(block: BlockSeq, value: Double) -> Double {
    match block {
        BlockSeq::Stuffed { .. } => value.narrowed().widened(),
        _ => value,
    }
}

/// The values that are written for a block.
pub open spec fn shown_all(block: BlockSeq, found: Seq<Double>) -> Seq<Double> {
    Seq::new(found.len(), |i: int| shown(block, found[i]))
}

/// The smallest of some numbers and a bound.
pub open spec fn least(bound: Double, found: Seq<Double>) -> Double
    decreases found.len(),
{
    if found.len() == 0 {
        bound
    } else {
        least(bound, found.drop_last()).lesser(found.last())
    }
}

/// The largest of some numbers and a bound.
pub open spec fn greatest(bound: Double, found: Seq<Double>) -> Double
    decreases found.len(),
{
    if found.len() == 0 {
        bound
    } else {
        greatest(bound, found.drop_last()).greater(found.last())
    }
}

/// The samples for some doubles.
pub open spec fn demoted_all<T: Sample>(found: Seq<Double>) -> Seq<T> {
    Seq::new(found.len(), |i: int| T::demoted(found[i]))
}

/// The outcome of writing the blocks from `(bx, by)` on: the samples and the value range.
pub open spec fn blocks_written<T: Sample>(
    parts: BlobParts,
    by: nat,
    bx: nat,
    k: nat,
    samples: Seq<T>,
    low: Double,
    high: Double,
) -> std::result::Result<(Seq<T>, Double, Double), Fault>
    decreases parts.grid.blocks_y() - by, parts.grid.blocks_x() - bx,
{
    if by >= parts.grid.blocks_y() {
        Ok((samples, low, high))
    } else if bx >= parts.grid.blocks_x() {
        blocks_written(parts, by + 1, 0, k, samples, low, high)
    } else {
        let list = parts.grid.listed(parts.entries, bx, by);
        let block = parts.blocks[k as int];
        match block_values(block, list.len(), parts.facts.max_z_error, parts.max_value) {
            Err(e) => Err(e),
            Ok(found) => {
                let written = shown_all(block, found);
                blocks_written(
                    parts,
                    by,
                    bx + 1,
                    k + 1,
                    blocks::scattered(samples, list, demoted_all::<T>(written), 1, 0, list.len()),
                    least(low, written),
                    greatest(high, written),
                )
            },
        }
    }
}

/// The outcome of scanning the blocks from `(bx, by)` on for their value range.
pub open spec fn blocks_scanned(
    parts: BlobParts,
    by: nat,
    bx: nat,
    k: nat,
    low: Double,
    high: Double,
) -> std::result::Result<(Double, Double), Fault>
    decreases parts.grid.blocks_y() - by, parts.grid.blocks_x() - bx,
{
    if by >= parts.grid.blocks_y() {
        Ok((low, high))
    } else if bx >= parts.grid.blocks_x() {
        blocks_scanned(parts, by + 1, 0, k, low, high)
    } else {
        let count = parts.grid.listed(parts.entries, bx, by).len();
        if count == 0 {
            blocks_scanned(parts, by, bx + 1, k + 1, low, high)
        } else {
            match block_values(
                parts.blocks[k as int],
                count,
                parts.facts.max_z_error,
                parts.max_value,
            ) {
                Err(e) => Err(e),
                Ok(found) => blocks_scanned(
                    parts,
                    by,
                    bx + 1,
                    k + 1,
                    least(low, found),
                    greatest(high, found),
                ),
            }
        }
    }
}

/// Plus infinity.
pub open spec fn top() -> Double {
    Double { bits: float::DOUBLE_INFINITY }
}

/// Minus infinity.
pub open spec fn bottom() -> Double {
    Double { bits: (float::DOUBLE_SIGN + float::DOUBLE_INFINITY) as u64 }
}

/// The metadata with a value range.
pub open spec fn ranged(facts: BlobFacts, low: Double, high: Double) -> BlobFacts {
    BlobFacts { z_min: low, z_max: high, ..facts }
}

/// What is wrong with the buffer for one block, if anything.
pub open spec fn buffer_fault(grid: BlockGrid) -> Option<Fault> {
    allocation::allocation_fault(grid.largest(), 8, "Lerc1 base block buffer"@)
}

/// What is wrong with the buffer for the samples, if anything.
pub open spec fn output_fault<T: Sample>(pixels: nat, limited: bool) -> Option<Fault> {
    if limited {
        allocation::allocation_fault(pixels, T::kind().width(), "Lerc1 pixel buffer"@)
    } else {
        None
    }
}

/// The outcome of decoding parsed parts.
pub open spec fn parts_decoded<T: Sample>(parts: BlobParts, limited: bool) -> std::result::Result<
    (BlobFacts, Seq<T>, Option<Seq<u8>>),
    Fault,
> {
    let pixels = parts.grid.pixels();
    match output_fault::<T>(pixels, limited) {
        Some(e) => Err(e),
        None => match buffer_fault(parts.grid) {
            Some(e) => Err(e),
            None => match blocks_written(
                parts,
                0,
                0,
                0,
                allocation::repeated(T::zero(), pixels),
                top(),
                bottom(),
            ) {
                Err(e) => Err(e),
                Ok((samples, low, high)) => if parts.facts.valid_pixel_count == 0 {
                    Ok((parts.facts, samples, parts.entries))
                } else if low.finite() && high.finite() {
                    Ok((ranged(parts.facts, low, high), samples, parts.entries))
                } else {
                    Err(
                        Fault::InvalidBlob(
                            "Lerc1 decode produced pixels but not a value range"@,
                        ),
                    )
                },
            },
        },
    }
}

/// The outcome of decoding a Lerc1 blob to samples of type `T`. Only a limited buffer is held
/// to the limit on allocations.
pub open spec fn decoded<T: Sample>(
    blob: Seq<u8>,
    shared: Option<Seq<u8>>,
    limited: bool,
) -> std::result::Result<(BlobFacts, Seq<T>, Option<Seq<u8>>), Fault> {
    match parsed(blob, shared) {
        Err(e) => Err(e),
        Ok(parts) => parts_decoded::<T>(parts, limited),
    }
}

/// The outcome of finding the value range of parsed parts.
pub open spec fn range_scanned(parts: BlobParts) -> std::result::Result<(Double, Double), Fault> {
    match buffer_fault(parts.grid) {
        Some(e) => Err(e),
        None => match blocks_scanned(parts, 0, 0, 0, top(), bottom()) {
            Err(e) => Err(e),
            Ok((low, high)) => if low.finite() && high.finite() {
                Ok((low, high))
            } else {
                Err(
                    Fault::InvalidBlob(
                        "cannot compute a value range for an empty LERC pixel buffer"@,
                    ),
                )
            },
        },
    }
}

/// The outcome of reading metadata and mask, with the value range or without.
pub open spec fn inspected(
    blob: Seq<u8>,
    shared: Option<Seq<u8>>,
    with_range: bool,
) -> std::result::Result<(BlobFacts, Option<Seq<u8>>), Fault> {
    match parsed(blob, shared) {
        Err(e) => Err(e),
        Ok(parts) => if with_range && parts.facts.valid_pixel_count != 0 {
            match range_scanned(parts) {
                Err(e) => Err(e),
                Ok((low, high)) => Ok((ranged(parts.facts, low, high), parts.entries)),
            }
        } else {
            Ok((parts.facts, parts.entries))
        },
    }
}

/// Whether a block holds what `count` valid pixels need.
pub open spec fn block_fits(block: BlockSeq, count: nat) -> bool {
    match block {
        BlockSeq::Raw(found) => found.len() == count,
        BlockSeq::Stuffed { bits, words, .. } => words.len() == (bitpack::packed_len(
            bits as nat,
            count,
        ) + 3) / 4,
        _ => true,
    }
}

/// Whether every block holds what its valid pixels need.
pub open spec fn blocks_fit(
    grid: BlockGrid,
    entries: Option<Seq<u8>>,
    found: Seq<BlockSeq>,
) -> bool {
    forall|k: int|
        #![trigger found[k]]
        0 <= k < found.len() ==> block_fits(
            found[k],
            grid.listed(
                entries,
                (k % (grid.blocks_x() as int)) as nat,
                (k / (grid.blocks_x() as int)) as nat,
            ).len(),
        )
}

/// The contents of a list of blocks.
pub open spec fn block_seqs(found: Seq<Block>) -> Seq<BlockSeq> {
    Seq::new(found.len(), |i: int| found[i]@)
}

/// A parsed Lerc1 blob.
pub struct Lerc1Blob {
    pub info: BlobInfo,
    pub entries: Option<Vec<u8>>,
    pub max_value: Single,
    pub blocks: Vec<Block>,
    pub grid: BlockGrid,
}

impl View for Lerc1Blob {
    type V = BlobParts;

    open spec fn view(&self) -> BlobParts {
        BlobParts {
            facts: self.info@,
            entries: types::optional_seq(self.entries),
            max_value: self.max_value,
            blocks: block_seqs(self.blocks@),
            grid: self.grid,
        }
    }
}

impl Lerc1Blob {
    pub open spec fn wf(self) -> bool {
        &&& self.grid.wf()
        &&& self.info.width == self.grid.width
        &&& self.info.height == self.grid.height
        &&& self.info.depth == 1
        &&& blocks::mask_fits(self@.entries, self.grid.pixels())
        &&& self.blocks@.len() == self.grid.blocks_x() * self.grid.blocks_y()
        &&& blocks_fit(self.grid, self@.entries, self@.blocks)
    }
}

/// Reads an offset.
fn read_offset(cursor: &mut Cursor, kind: u8) -> (r: Result<Single>)
    requires
        old(cursor).wf(),
    ensures
        final(cursor).wf(),
        final(cursor).all() == old(cursor).all(),
        match r {
            Ok(value) => offset_read(old(cursor).all(), old(cursor).at(), kind as nat) == Ok::<
                _,
                Fault,
            >((value, final(cursor).at())),
            Err(e) => offset_read(old(cursor).all(), old(cursor).at(), kind as nat) == Err::<
                (Single, int),
                _,
            >(e@),
        },
{
    if kind == 0 {
        cursor.read_f32()
    } else if kind == 1 {
        let value: u16 = cursor.read_u16()?;
        Ok(Double::from_integer(value as i64).narrow())
    } else if kind == 2 {
        let value: u8 = read_byte(cursor)?;
        Ok(Double::from_integer(value as i64).narrow())
    } else {
        let mut reason: String = "invalid Lerc1 block offset type ".to_owned();
        push_decimal(&mut reason, kind as u64);
        Err(Error::InvalidBlob(reason))
    }
}

/// Reads a number of one byte.
fn read_byte(cursor: &mut Cursor) -> (r: Result<u8>)
    requires
        old(cursor).wf(),
    ensures
        final(cursor).wf(),
        final(cursor).all() == old(cursor).all(),
        match r {
            Ok(value) => cursor::take_number(old(cursor).all(), old(cursor).at(), 1) == Ok::<
                _,
                Fault,
            >(value as nat) && final(cursor).at() == old(cursor).at() + 1,
            Err(e) => cursor::take_number(old(cursor).all(), old(cursor).at(), 1) == Err::<nat, _>(
                e@,
            ),
        },
{
    let field: &[u8] = cursor.read_bytes(1)?;
    proof {
        assert(field@.drop_first() =~= seq![]);
        reveal_with_fuel(bytes::le_value, 2);
    }
    Ok(field[0])
}

/// Reads a number of valid pixels.
fn read_count(cursor: &mut Cursor, kind: u8) -> (r: Result<usize>)
    requires
        old(cursor).wf(),
    ensures
        final(cursor).wf(),
        final(cursor).all() == old(cursor).all(),
        match r {
            Ok(value) => count_read(old(cursor).all(), old(cursor).at(), kind as nat) == Ok::<
                _,
                Fault,
            >((value as nat, final(cursor).at())),
            Err(e) => count_read(old(cursor).all(), old(cursor).at(), kind as nat) == Err::<
                (nat, int),
                _,
            >(e@),
        },
{
    if kind == 0 {
        let value: u32 = cursor.read_u32()?;
        Ok(value as usize)
    } else if kind == 1 {
        let value: u16 = cursor.read_u16()?;
        Ok(value as usize)
    } else if kind == 2 {
        let value: u8 = read_byte(cursor)?;
        Ok(value as usize)
    } else {
        let mut reason: String = "invalid Lerc1 valid pixel count type ".to_owned();
        push_decimal(&mut reason, kind as u64);
        Err(Error::InvalidBlob(reason))
    }
}

/// Reads a bit-stuffed block behind its offset.
fn read_stuffed(cursor: &mut Cursor, offset: Single, count: usize) -> (r: Result<Block>)
    requires
        old(cursor).wf(),
    ensures
        final(cursor).wf(),
        final(cursor).all() == old(cursor).all(),
        match r {
            Ok(block) => stuffed_read(
                old(cursor).all(),
                old(cursor).at(),
                offset,
                count as nat,
            ) == Ok::<_, Fault>((block@, final(cursor).at())) && block_fits(block@, count as nat),
            Err(e) => stuffed_read(
                old(cursor).all(),
                old(cursor).at(),
                offset,
                count as nat,
            ) == Err::<(BlockSeq, int), _>(e@),
        },
{
    let head: u8 = cursor.read_u8()?;
    let bits: u8 = head % 64;
    let stored: usize = read_count(cursor, head / 64)?;
    if stored != count {
        return Err(
            Error::invalid_blob("Lerc1 stuffed block valid count does not match its mask"),
        );
    }
    let total: usize = match (bits as usize).checked_mul(count) {
        Some(total) => total,
        None => {
            return Err(Error::SizeOverflow("Lerc1 stuffed block bit count"));
        },
    };
    let len: usize = total / 8 + if total % 8 != 0 { 1 } else { 0 };
    let data: &[u8] = cursor.read_bytes(len)?;
    Ok(Block::Stuffed { offset, bits, words: words_from_padded(data) })
}

/// Reads one block.
fn read_block(cursor: &mut Cursor, count: usize) -> (r: Result<Block>)
    requires
        old(cursor).wf(),
    ensures
        final(cursor).wf(),
        final(cursor).all() == old(cursor).all(),
        match r {
            Ok(block) => block_read(old(cursor).all(), old(cursor).at(), count as nat) == Ok::<
                _,
                Fault,
            >((block@, final(cursor).at())) && block_fits(block@, count as nat),
            Err(e) => block_read(old(cursor).all(), old(cursor).at(), count as nat) == Err::<
                (BlockSeq, int),
                _,
            >(e@),
        },
{
    let head: u8 = cursor.read_u8()?;
    let encoding: u8 = head % 64;
    if encoding > 3 {
        let mut reason: String = "invalid Lerc1 block encoding ".to_owned();
        push_decimal(&mut reason, encoding as u64);
        return Err(Error::InvalidBlob(reason));
    }
    if encoding == 2 {
        return Ok(Block::Zero);
    }
    if encoding == 0 {
        let len: usize = match count.checked_mul(4) {
            Some(len) => len,
            None => {
                return Err(Error::SizeOverflow("Lerc1 raw block byte count"));
            },
        };
        let data: &[u8] = cursor.read_bytes(len)?;
        assert(Single::kind().width() == 4 && data@.len() % 4 == 0 && data@.len() / 4 == count);
        let found: Vec<Single> = read_vec::<Single>(data)?;
        return Ok(Block::Raw(found));
    }
    let offset: Single = read_offset(cursor, head / 64)?;
    if encoding == 3 {
        return Ok(Block::Constant(offset));
    }
    read_stuffed(cursor, offset, count)
}

/// The place of a block in the list of all.
pub proof fn lemma_block_index(grid: BlockGrid, by: nat, bx: nat)
    requires
        grid.wf(),
        bx < grid.blocks_x(),
        by < grid.blocks_y(),
    ensures
        ({
            let k = by * grid.blocks_x() + bx;
            &&& k % grid.blocks_x() == bx
            &&& k / grid.blocks_x() == by
            &&& k < grid.blocks_x() * grid.blocks_y()
        }),
{
    let n = grid.blocks_x();
    vstd::arithmetic::div_mod::lemma_fundamental_div_mod_converse(
        (by * n + bx) as int,
        n as int,
        by as int,
        bx as int,
    );
    assert(by * n + bx < n * grid.blocks_y()) by (nonlinear_arith)
        requires
            by + 1 <= grid.blocks_y(),
            bx < n,
    ;
}

/// Reads all blocks.
fn read_blocks(cursor: &mut Cursor, grid: &BlockGrid, entries: Option<&[u8]>) -> (r: Result<
    Vec<Block>,
>)
    requires
        old(cursor).wf(),
        grid.wf(),
        blocks::mask_fits(blocks::mask_seq(entries), grid.pixels()),
    ensures
        final(cursor).wf(),
        final(cursor).all() == old(cursor).all(),
        match r {
            Ok(found) => {
                &&& blocks_read(
                    *grid,
                    blocks::mask_seq(entries),
                    old(cursor).all(),
                    0,
                    0,
                    seq![],
                    old(cursor).at(),
                ) == Ok::<_, Fault>((block_seqs(found@), final(cursor).at()))
                &&& found@.len() == grid.blocks_x() * grid.blocks_y()
                &&& blocks_fit(*grid, blocks::mask_seq(entries), block_seqs(found@))
            },
            Err(e) => blocks_read(
                *grid,
                blocks::mask_seq(entries),
                old(cursor).all(),
                0,
                0,
                seq![],
                old(cursor).at(),
            ) == Err::<(Seq<BlockSeq>, int), _>(e@),
        },
{
    let count_x: usize = grid.count_x();
    let count_y: usize = grid.count_y();
    let mut found: Vec<Block> = Vec::new();
    let ghost m = blocks::mask_seq(entries);
    let ghost all = cursor.all();
    let ghost whole = blocks_read(*grid, m, all, 0, 0, seq![], cursor.at());
    proof {
        assert(block_seqs(found@) =~= seq![]);
        assert(0 * count_x == 0) by (nonlinear_arith);
        grid.lemma_sizes();
    }
    let mut by: usize = 0;
    while by < count_y
        invariant
            cursor.wf(),
            cursor.all() == all,
            all == old(cursor).all(),
            grid.wf(),
            m == blocks::mask_seq(entries),
            blocks::mask_fits(m, grid.pixels()),
            count_x == grid.blocks_x(),
            count_y == grid.blocks_y(),
            by <= count_y,
            found@.len() == by * count_x,
            blocks_fit(*grid, m, block_seqs(found@)),
            whole == blocks_read(*grid, m, all, 0, 0, seq![], old(cursor).at()),
            whole == blocks_read(*grid, m, all, by as nat, 0, block_seqs(found@), cursor.at()),
        decreases count_y - by,
    {
        let mut bx: usize = 0;
        while bx < count_x
            invariant
                cursor.wf(),
                cursor.all() == all,
                all == old(cursor).all(),
                grid.wf(),
                m == blocks::mask_seq(entries),
                blocks::mask_fits(m, grid.pixels()),
                count_x == grid.blocks_x(),
                count_y == grid.blocks_y(),
                by < count_y,
                bx <= count_x,
                found@.len() == by * count_x + bx,
                blocks_fit(*grid, m, block_seqs(found@)),
                whole == blocks_read(*grid, m, all, 0, 0, seq![], old(cursor).at()),
                whole == blocks_read(
                    *grid,
                    m,
                    all,
                    by as nat,
                    bx as nat,
                    block_seqs(found@),
                    cursor.at(),
                ),
            decreases count_x - bx,
        {
            let pixels: Vec<usize> = grid.list(entries, bx, by);
            let block: Block = read_block(cursor, pixels.len())?;
            let ghost before = block_seqs(found@);
            let ghost shape = block@;
            found.push(block);
            proof {
                lemma_block_index(*grid, by as nat, bx as nat);
                assert(block_seqs(found@) =~= before.push(shape));
            }
            bx += 1;
        }
        proof {
            assert((by + 1) * count_x == by * count_x + count_x) by (nonlinear_arith);
        }
        by += 1;
    }
    proof {
        assert(count_y * count_x == count_x * count_y) by (nonlinear_arith);
    }
    Ok(found)
}

/// Reads the fields in front of the mask section.
fn read_head(blob: &[u8]) -> (r: Result<Lerc1Head>)
    ensures
        match r {
            Ok(h) => head_read(blob@) == Ok::<_, Fault>(h) && h.width > 0 && h.height > 0
                && blob@.len() >= 34,
            Err(e) => head_read(blob@) == Err::<Lerc1Head, _>(e@),
        },
{
    let mut cursor = Cursor::new(blob);
    let magic: &[u8] = cursor.read_bytes(10)?;
    if !is_lerc1(magic) {
        return Err(Error::InvalidMagic);
    }
    let version: u32 = cursor.read_u32()?;
    if version >= 0x8000_0000 {
        return Err(Error::UnsupportedVersion(version));
    }
    let widths: Vec<usize> = vec![4, 4, 4, 8];
    check_fields(blob.len(), 14, &widths)?;
    proof {
        lerc2_header::lemma_short_field(blob@.len(), 14, widths@, 0);
        reveal_with_fuel(lerc2_header::widths_sum, 5);
    }
    cursor.skip(4)?;
    let height: u32 = cursor.read_u32()?;
    let width: u32 = cursor.read_u32()?;
    let max_z_error = cursor.read_f64()?;
    if width == 0 || height == 0 {
        return Err(Error::InvalidHeader("width and height must be greater than zero"));
    }
    if !max_z_error.is_finite() || max_z_error.less_than(Double { bits: 0 }) {
        return Err(Error::InvalidHeader("max_z_error must be finite and non-negative"));
    }
    Ok(Lerc1Head { version, height, width, max_z_error })
}

/// Four fields of four bytes.
fn read_section(blob: &[u8], pos: usize) -> (r: Result<(u32, u32, u32, Single)>)
    requires
        pos <= blob@.len(),
    ensures
        match r {
            Ok((first, second, third, value)) => {
                &&& lerc2_header::short_field(blob@.len(), pos as nat, seq![4, 4, 4, 4], 0) is None
                &&& pos + 16 <= blob@.len()
                &&& first == lerc2_header::number_at(blob@, pos as int)
                &&& second == lerc2_header::number_at(blob@, pos + 4)
                &&& third == lerc2_header::number_at(blob@, pos + 8)
                &&& value == (Single { bits: lerc2_header::number_at(blob@, pos + 12) })
            },
            Err(e) => lerc2_header::short_field(blob@.len(), pos as nat, seq![4, 4, 4, 4], 0)
                == Some(e@),
        },
{
    let mut cursor = Cursor::new(blob);
    cursor.skip(pos)?;
    let widths: Vec<usize> = vec![4, 4, 4, 4];
    check_fields(blob.len(), pos, &widths)?;
    proof {
        assert(widths@ =~= seq![4usize, 4, 4, 4]);
        lerc2_header::lemma_short_field(blob@.len(), pos as nat, widths@, 0);
        reveal_with_fuel(lerc2_header::widths_sum, 5);
    }
    let first: u32 = cursor.read_u32()?;
    let second: u32 = cursor.read_u32()?;
    let third: u32 = cursor.read_u32()?;
    let value = cursor.read_f32()?;
    Ok((first, second, third, value))
}

/// Finds the mask.
fn find_mask(blob: &[u8], h: &Lerc1Head, source: MaskSource) -> (r: Result<
    (MaskEncoding, Option<Vec<u8>>, usize),
>)
    requires
        blob@.len() >= 34,
    ensures
        match r {
            Ok((encoding, entries, pos)) => {
                &&& mask_found(blob@, *h, source_mask(source)) == Ok::<_, Fault>(
                    (encoding, types::optional_seq(entries), pos as int),
                )
                &&& pos <= blob@.len()
                &&& h.width as nat * h.height as nat <= usize::MAX
                &&& blocks::mask_fits(
                    types::optional_seq(entries),
                    h.width as nat * h.height as nat,
                )
            },
            Err(e) => mask_found(blob@, *h, source_mask(source)) == Err::<
                (MaskEncoding, Option<Seq<u8>>, int),
                _,
            >(e@),
        },
{
    let product: Option<usize> = (h.width as usize).checked_mul(h.height as usize);
    match source {
        MaskSource::External(shared) => {
            let pixels: usize = match product {
                Some(pixels) => pixels,
                None => {
                    return Err(Error::SizeOverflow("Lerc1 shared-mask pixel count"));
                },
            };
            if shared.len() != pixels {
                return Err(
                    Error::invalid_blob("shared mask length does not match the current Lerc1 blob"),
                );
            }
            Ok((MaskEncoding::External, Some(copy_vec(shared)), 34))
        },
        MaskSource::Inline => {
            let (blocks_y, blocks_x, len, max_value) = read_section(blob, 34)?;
            let pixels: usize = match product {
                Some(pixels) => pixels,
                None => {
                    return Err(Error::SizeOverflow("Lerc1 mask pixel count"));
                },
            };
            if len > 0 {
                let mut cursor = Cursor::new(blob);
                cursor.skip(50)?;
                let field: &[u8] = cursor.read_bytes(len as usize)?;
                let bitset: Vec<u8> = decode_mask_rle(
                    field,
                    pixels / 8 + if pixels % 8 != 0 { 1 } else { 0 },
                )?;
                let entries: Vec<u8> = unpack_mask_bitset(bitset.as_slice(), pixels)?;
                return Ok((MaskEncoding::Explicit, Some(entries), cursor.offset()));
            }
            if blocks_y == 0 && blocks_x == 0 && max_value.widen().equals(Double { bits: 0 }) {
                check_allocation(pixels, 1, "Lerc1 implicit mask")?;
                return Ok((MaskEncoding::ImplicitAllInvalid, Some(filled(0u8, pixels)), 50));
            }
            Ok((MaskEncoding::AllValid, None, 50))
        },
    }
}

/// Reads the pixel section.
#[verifier::rlimit(40)]
fn read_pixels(
    blob: &[u8],
    h: &Lerc1Head,
    encoding: MaskEncoding,
    entries: Option<Vec<u8>>,
    pos: usize,
) -> (r: Result<Lerc1Blob>)
    requires
        pos <= blob@.len(),
        h.width > 0,
        h.height > 0,
        h.width as nat * h.height as nat <= usize::MAX,
        blocks::mask_fits(types::optional_seq(entries), h.width as nat * h.height as nat),
    ensures
        match r {
            Ok(parts) => pixels_read(
                blob@,
                *h,
                encoding,
                types::optional_seq(entries),
                pos as int,
            ) == Ok::<_, Fault>(parts@) && parts.wf() && parts.info.blob_size <= blob@.len(),
            Err(e) => pixels_read(
                blob@,
                *h,
                encoding,
                types::optional_seq(entries),
                pos as int,
            ) == Err::<BlobParts, _>(e@),
        },
{
    let size: usize = blob.len();
    let (nominal_y, nominal_x, declared, max_value) = read_section(blob, pos)?;
    if nominal_x == 0 || nominal_y == 0 {
        return Err(Error::InvalidHeader("Lerc1 block grid must be non-zero"));
    }
    if !max_value.is_finite() {
        return Err(Error::InvalidHeader("Lerc1 max pixel value must be finite"));
    }
    if nominal_x > h.width || nominal_y > h.height {
        return Err(Error::InvalidHeader("Lerc1 block grid must not exceed raster dimensions"));
    }
    let pixels: usize = h.width as usize * h.height as usize;
    let valid: usize = match &entries {
        Some(m) => valid_entries(m.as_slice()),
        None => pixels,
    };
    if valid > 0xffff_ffff {
        return Err(Error::SizeOverflow("Lerc1 valid pixel count as u32"));
    }
    let grid = BlockGrid {
        width: h.width as usize,
        height: h.height as usize,
        nominal_x: nominal_x as usize,
        nominal_y: nominal_y as usize,
    };
    let payload: &[u8] = if declared == 0 {
        slice_subrange(blob, pos + 16, size)
    } else {
        let mut rest = Cursor::new(blob);
        rest.skip(pos + 16)?;
        rest.read_bytes(declared as usize)?
    };
    proof {
        grid.lemma_sizes();
    }
    check_allocation(grid.count_x() * grid.count_y(), BLOCK_ENTRY_BYTES, "Lerc1 block table")?;
    let mut cursor = Cursor::new(payload);
    let blocks: Vec<Block> = read_blocks(&mut cursor, &grid, borrow_mask(&entries))?;
    let used: usize = if declared == 0 { cursor.offset() } else { declared as usize };
    let info = BlobInfo {
        version: Version::Lerc1(h.version),
        data_type: DataType::F32,
        width: h.width,
        height: h.height,
        depth: 1,
        min_values: None,
        max_values: None,
        valid_pixel_count: valid as u32,
        micro_block_size: 0,
        blob_size: pos + 16 + used,
        remaining_band_count: 0,
        max_z_error: h.max_z_error,
        z_min: Double { bits: 0 },
        z_max: max_value.widen(),
        mask_encoding: encoding,
        no_data_value: None,
    };
    Ok(Lerc1Blob { info, entries, max_value, blocks, grid })
}

/// Parses a blob with the mask from one source.
fn parse_with_mask_source(blob: &[u8], source: MaskSource) -> (r: Result<Lerc1Blob>)
    ensures
        match r {
            Ok(parts) => source_parsed(blob@, source_mask(source)) == Ok::<_, Fault>(parts@)
                && parts.wf() && parts.info.blob_size <= blob@.len(),
            Err(e) => source_parsed(blob@, source_mask(source)) == Err::<BlobParts, _>(e@),
        },
{
    let h: Lerc1Head = read_head(blob)?;
    let (encoding, entries, pos) = find_mask(blob, &h, source)?;
    read_pixels(blob, &h, encoding, entries, pos)
}

/// Parses a blob; a mask in the blob takes precedence over a shared one.
pub fn parse_lerc1(blob: &[u8], shared: Option<&[u8]>) -> (r: Result<Lerc1Blob>)
    ensures
        match r {
            Ok(parts) => parsed(blob@, blocks::mask_seq(shared)) == Ok::<_, Fault>(parts@)
                && parts.wf() && parts.info.blob_size <= blob@.len(),
            Err(e) => parsed(blob@, blocks::mask_seq(shared)) == Err::<BlobParts, _>(e@),
        },
{
    let inline = match parse_with_mask_source(blob, MaskSource::Inline) {
        Ok(parts) => {
            return Ok(parts);
        },
        Err(e) => e,
    };
    let entries: &[u8] = match shared {
        Some(entries) => entries,
        None => {
            return Err(inline);
        },
    };
    let external = match parse_with_mask_source(blob, MaskSource::External(entries)) {
        Ok(parts) => {
            return Ok(parts);
        },
        Err(e) => e,
    };
    let mut reason: String =
        "failed to parse Lerc1 blob with either an inline mask (".to_owned();
    let first: String = inline.message();
    reason.append(first.as_str());
    reason.append(") or the supplied shared mask (");
    let second: String = external.message();
    reason.append(second.as_str());
    reason.append(")");
    Err(Error::InvalidBlob(reason))
}

/// Expands a bit-stuffed block.
fn unstuff_block(
    offset: Single,
    bits: u8,
    words: &Vec<u32>,
    count: usize,
    max_z_error: Double,
    max_value: Single,
) -> (r: Vec<Double>)
    requires
        bits <= 32,
        count <= 0x400_0000,
        words@.len() == (bitpack::packed_len(bits as nat, count as nat) + 3) / 4,
    ensures
        r@ == step_values(offset, bits, words@, count as nat, max_z_error, max_value),
{
    proof {
        assert(bits as nat * count as nat <= 32 * 0x400_0000) by (nonlinear_arith)
            requires
                bits <= 32,
                count <= 0x400_0000,
        ;
    }
    let steps: Vec<u32> = unstuff_v2(words.as_slice(), bits as u32, count);
    let scale = Double { bits: float::TWO_BITS }.times(max_z_error);
    let base = offset.widen();
    let top = max_value.widen();
    let limit = quantized_nmax(base, scale, top);
    let ghost wanted = step_values(offset, bits, words@, count as nat, max_z_error, max_value);
    let mut out: Vec<Double> = Vec::with_capacity(count);
    let mut i: usize = 0;
    while i < count
        invariant
            i <= count,
            steps@ == bitpack::high_first(words@, bits as nat, count as nat),
            base == offset.widened(),
            top == max_value.widened(),
            scale == (Double { bits: float::TWO_BITS }).product(max_z_error),
            limit == stuffed::level_limit(base, scale, top),
            wanted == step_values(offset, bits, words@, count as nat, max_z_error, max_value),
            out@.len() == i,
            forall|j: int| 0 <= j < i ==> #[trigger] out@[j] == wanted[j],
        decreases count - i,
    {
        out.push(quantized_value(base, scale, top, steps[i], limit));
        i += 1;
    }
    assert(out@ =~= wanted);
    out
}

/// Expands a block to the doubles that it stands for.
fn expand_block(block: &Block, count: usize, max_z_error: Double, max_value: Single) -> (r: Result<
    Vec<Double>,
>)
    requires
        count <= 0x400_0000,
        block_fits(block@, count as nat),
    ensures
        match r {
            Ok(found) => block_values(block@, count as nat, max_z_error, max_value) == Ok::<
                _,
                Fault,
            >(found@) && found@.len() == count,
            Err(e) => block_values(block@, count as nat, max_z_error, max_value) == Err::<
                Seq<Double>,
                _,
            >(e@),
        },
{
    match block {
        Block::Zero => Ok(filled(Double { bits: 0 }, count)),
        Block::Constant(value) => Ok(filled(value.widen(), count)),
        Block::Raw(found) => {
            let mut out: Vec<Double> = Vec::with_capacity(found.len());
            let mut i: usize = 0;
            while i < found.len()
                invariant
                    i <= found@.len(),
                    out@.len() == i,
                    forall|j: int| 0 <= j < i ==> #[trigger] out@[j] == found@[j].widened(),
                decreases found@.len() - i,
            {
                out.push(found[i].widen());
                i += 1;
            }
            assert(out@ =~= Seq::new(found@.len(), |j: int| found@[j].widened()));
            Ok(out)
        },
        Block::Stuffed { offset, bits, words } => {
            if *bits > 32 {
                return Err(
                    Error::invalid_blob("bit-stuffed block uses more than 32 bits per pixel"),
                );
            }
            Ok(unstuff_block(*offset, *bits, words, count, max_z_error, max_value))
        },
    }
}

/// Rounds what is written for a bit-stuffed block.
fn show_block(block: &Block, found: Vec<Double>) -> (r: Vec<Double>)
    ensures
        r@ == shown_all(block@, found@),
{
    match block {
        Block::Stuffed { .. } => {
            let mut out: Vec<Double> = Vec::with_capacity(found.len());
            let mut i: usize = 0;
            while i < found.len()
                invariant
                    i <= found@.len(),
                    block@ is Stuffed,
                    out@.len() == i,
                    forall|j: int| 0 <= j < i ==> #[trigger] out@[j] == shown_all(block@, found@)[j],
                decreases found@.len() - i,
            {
                out.push(found[i].narrow().widen());
                i += 1;
            }
            assert(out@ =~= shown_all(block@, found@));
            out
        },
        _ => {
            assert(found@ =~= shown_all(block@, found@));
            found
        },
    }
}

fn demote_all<T: Sample>(found: &Vec<Double>) -> (r: Vec<T>)
    ensures
        r@ == demoted_all::<T>(found@),
{
    let mut out: Vec<T> = Vec::with_capacity(found.len());
    let mut i: usize = 0;
    while i < found.len()
        invariant
            i <= found@.len(),
            out@.len() == i,
            forall|j: int| 0 <= j < i ==> #[trigger] out@[j] == demoted_all::<T>(found@)[j],
        decreases found@.len() - i,
    {
        out.push(T::from_f64(found[i]));
        i += 1;
    }
    assert(out@ =~= demoted_all::<T>(found@));
    out
}

/// Widens a value range by some numbers.
pub fn widen_range(low: Double, high: Double, found: &Vec<Double>) -> (r: (Double, Double))
    ensures
        r.0 == least(low, found@),
        r.1 == greatest(high, found@),
{
    let mut smallest = low;
    let mut largest = high;
    let mut i: usize = 0;
    proof {
        assert(found@.subrange(0, 0) =~= seq![]);
    }
    while i < found.len()
        invariant
            i <= found@.len(),
            smallest == least(low, found@.subrange(0, i as int)),
            largest == greatest(high, found@.subrange(0, i as int)),
        decreases found@.len() - i,
    {
        proof {
            assert(found@.subrange(0, i + 1).drop_last() =~= found@.subrange(0, i as int));
        }
        smallest = smallest.min(found[i]);
        largest = largest.max(found[i]);
        i += 1;
    }
    proof {
        assert(found@.subrange(0, found@.len() as int) =~= found@);
    }
    (smallest, largest)
}

/// The number of samples in one block stays below what its buffer may hold.
proof fn lemma_buffer(grid: BlockGrid)
    requires
        buffer_fault(grid) is None,
    ensures
        grid.largest() <= 0x400_0000,
{
}

/// Writes the blocks.
#[verifier::rlimit(40)]
fn write_blocks<T: Sample>(parts: &Lerc1Blob, samples: &mut Vec<T>) -> (r: Result<
    (Double, Double),
>)
    requires
        parts.wf(),
        buffer_fault(parts.grid) is None,
        old(samples)@.len() == parts.grid.pixels(),
    ensures
        final(samples)@.len() == old(samples)@.len(),
        match r {
            Ok((low, high)) => blocks_written(
                parts@,
                0,
                0,
                0,
                old(samples)@,
                top(),
                bottom(),
            ) == Ok::<_, Fault>((final(samples)@, low, high)),
            Err(e) => blocks_written(parts@, 0, 0, 0, old(samples)@, top(), bottom()) == Err::<
                (Seq<T>, Double, Double),
                _,
            >(e@),
        },
{
    let grid: &BlockGrid = &parts.grid;
    let count_x: usize = grid.count_x();
    let count_y: usize = grid.count_y();
    let total: usize = samples.len();
    let mut low = Double { bits: float::DOUBLE_INFINITY };
    let mut high = Double { bits: float::DOUBLE_SIGN + float::DOUBLE_INFINITY };
    let ghost whole = blocks_written(parts@, 0, 0, 0, samples@, top(), bottom());
    proof {
        lemma_buffer(*grid);
        assert(0 * count_x == 0) by (nonlinear_arith);
        assert(total * 1 == total);
    }
    let mut k: usize = 0;
    let mut by: usize = 0;
    while by < count_y
        invariant
            parts.wf(),
            grid == parts.grid,
            grid.largest() <= 0x400_0000,
            count_x == grid.blocks_x(),
            count_y == grid.blocks_y(),
            total == grid.pixels(),
            samples@.len() == total,
            old(samples)@.len() == total,
            by <= count_y,
            k == by * count_x,
            whole == blocks_written(parts@, 0, 0, 0, old(samples)@, top(), bottom()),
            whole == blocks_written(parts@, by as nat, 0, k as nat, samples@, low, high),
        decreases count_y - by,
    {
        let mut bx: usize = 0;
        while bx < count_x
            invariant
                parts.wf(),
                grid == parts.grid,
                grid.largest() <= 0x400_0000,
                count_x == grid.blocks_x(),
                count_y == grid.blocks_y(),
                total == grid.pixels(),
                samples@.len() == total,
                old(samples)@.len() == total,
                by < count_y,
                bx <= count_x,
                k == by * count_x + bx,
                whole == blocks_written(parts@, 0, 0, 0, old(samples)@, top(), bottom()),
                whole == blocks_written(
                    parts@,
                    by as nat,
                    bx as nat,
                    k as nat,
                    samples@,
                    low,
                    high,
                ),
            decreases count_x - bx,
        {
            let pixels: Vec<usize> = grid.list(borrow_mask(&parts.entries), bx, by);
            let _len: usize = parts.blocks.len();
            proof {
                lemma_block_index(*grid, by as nat, bx as nat);
                assert(parts@.blocks[k as int] == parts.blocks@[k as int]@);
            }
            let block: &Block = &parts.blocks[k];
            let found: Vec<Double> = expand_block(
                block,
                pixels.len(),
                parts.info.max_z_error,
                parts.max_value,
            )?;
            let written: Vec<Double> = show_block(block, found);
            let demoted: Vec<T> = demote_all(&written);
            scatter(samples, &pixels, &demoted, 1, 0, total);
            let (smallest, largest) = widen_range(low, high, &written);
            low = smallest;
            high = largest;
            k += 1;
            bx += 1;
        }
        proof {
            assert((by + 1) * count_x == by * count_x + count_x) by (nonlinear_arith);
        }
        by += 1;
    }
    Ok((low, high))
}

/// Scans the blocks for their value range.
fn scan_range(parts: &Lerc1Blob) -> (r: Result<(Double, Double)>)
    requires
        parts.wf(),
    ensures
        match r {
            Ok(range) => range_scanned(parts@) == Ok::<_, Fault>(range),
            Err(e) => range_scanned(parts@) == Err::<(Double, Double), _>(e@),
        },
{
    let grid: &BlockGrid = &parts.grid;
    check_allocation(grid.max_block_samples(), 8, "Lerc1 base block buffer")?;
    let count_x: usize = grid.count_x();
    let count_y: usize = grid.count_y();
    let mut low = Double { bits: float::DOUBLE_INFINITY };
    let mut high = Double { bits: float::DOUBLE_SIGN + float::DOUBLE_INFINITY };
    let ghost whole = blocks_scanned(parts@, 0, 0, 0, top(), bottom());
    proof {
        lemma_buffer(*grid);
        assert(0 * count_x == 0) by (nonlinear_arith);
    }
    let mut k: usize = 0;
    let mut by: usize = 0;
    while by < count_y
        invariant
            parts.wf(),
            grid == parts.grid,
            buffer_fault(*grid) is None,
            grid.largest() <= 0x400_0000,
            count_x == grid.blocks_x(),
            count_y == grid.blocks_y(),
            by <= count_y,
            k == by * count_x,
            whole == blocks_scanned(parts@, 0, 0, 0, top(), bottom()),
            whole == blocks_scanned(parts@, by as nat, 0, k as nat, low, high),
        decreases count_y - by,
    {
        let mut bx: usize = 0;
        while bx < count_x
            invariant
                parts.wf(),
                grid == parts.grid,
                buffer_fault(*grid) is None,
                grid.largest() <= 0x400_0000,
                count_x == grid.blocks_x(),
                count_y == grid.blocks_y(),
                by < count_y,
                bx <= count_x,
                k == by * count_x + bx,
                whole == blocks_scanned(parts@, 0, 0, 0, top(), bottom()),
                whole == blocks_scanned(parts@, by as nat, bx as nat, k as nat, low, high),
            decreases count_x - bx,
        {
            let pixels: Vec<usize> = grid.list(borrow_mask(&parts.entries), bx, by);
            let _len: usize = parts.blocks.len();
            proof {
                lemma_block_index(*grid, by as nat, bx as nat);
                assert(parts@.blocks[k as int] == parts.blocks@[k as int]@);
            }
            if pixels.len() > 0 {
                let found: Vec<Double> = expand_block(
                    &parts.blocks[k],
                    pixels.len(),
                    parts.info.max_z_error,
                    parts.max_value,
                )?;
                let (smallest, largest) = widen_range(low, high, &found);
                low = smallest;
                high = largest;
            }
            k += 1;
            bx += 1;
        }
        proof {
            assert((by + 1) * count_x == by * count_x + count_x) by (nonlinear_arith);
        }
        by += 1;
    }
    if !low.is_finite() || !high.is_finite() {
        return Err(
            Error::invalid_blob("cannot compute a value range for an empty LERC pixel buffer"),
        );
    }
    Ok((low, high))
}

/// Decodes a Lerc1 blob to samples of type `T`.
pub fn decode_lerc1<T: Sample>(
    blob: &[u8],
    shared: Option<&[u8]>,
    limited: bool,
) -> (r: Result<(BlobInfo, Vec<T>, Option<Vec<u8>>)>)
    ensures
        match r {
            Ok(parts) => decoded::<T>(blob@, blocks::mask_seq(shared), limited) == Ok::<_, Fault>(
                lerc2::decoded_view(parts),
            ) && parts.1@.len() == parts.0@.samples() && parts.0.blob_size <= blob@.len(),
            Err(e) => decoded::<T>(blob@, blocks::mask_seq(shared), limited) == Err::<
                (BlobFacts, Seq<T>, Option<Seq<u8>>),
                _,
            >(e@),
        },
{
    let parts: Lerc1Blob = parse_lerc1(blob, shared)?;
    let pixels: usize = parts.grid.width * parts.grid.height;
    if limited {
        check_allocation(pixels, T::data_type().byte_len(), "Lerc1 pixel buffer")?;
    }
    let mut samples: Vec<T> = filled(T::default_value(), pixels);
    check_allocation(parts.grid.max_block_samples(), 8, "Lerc1 base block buffer")?;
    let (low, high) = write_blocks(&parts, &mut samples)?;
    let mut info = parts.info;
    if info.valid_pixel_count != 0 {
        if !low.is_finite() || !high.is_finite() {
            return Err(Error::invalid_blob("Lerc1 decode produced pixels but not a value range"));
        }
        info.z_min = low;
        info.z_max = high;
    }
    Ok((info, samples, parts.entries))
}

/// Reads the metadata and the mask of a Lerc1 blob, with the value range of its pixels or
/// with the one that it declares.
pub fn inspect_lerc1(blob: &[u8], shared: Option<&[u8]>, compute_value_range: bool) -> (r: Result<
    (BlobInfo, Option<Vec<u8>>),
>)
    ensures
        match r {
            Ok((info, entries)) => inspected(
                blob@,
                blocks::mask_seq(shared),
                compute_value_range,
            ) == Ok::<_, Fault>((info@, types::optional_seq(entries))) && info.blob_size
                <= blob@.len() && blocks::mask_fits(types::optional_seq(entries), info@.pixels()),
            Err(e) => inspected(blob@, blocks::mask_seq(shared), compute_value_range) == Err::<
                (BlobFacts, Option<Seq<u8>>),
                _,
            >(e@),
        },
{
    let parts: Lerc1Blob = parse_lerc1(blob, shared)?;
    if compute_value_range && parts.info.valid_pixel_count != 0 {
        let (low, high) = scan_range(&parts)?;
        let mut info = parts.info;
        info.z_min = low;
        info.z_max = high;
        return Ok((info, parts.entries));
    }
    Ok((parts.info, parts.entries))
}

} // verus!
