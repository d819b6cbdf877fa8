//! What is read of Lerc1 blobs, by how their bytes are laid out.

use crate::allocation;
use crate::bitpack;
use crate::blob_laws;
use crate::blocks;
use crate::bytes;
use crate::cursor;
use crate::error::Fault;
use crate::float;
use crate::float::{Double, Single};
use crate::lerc1;
use crate::lerc1::{BlobParts, BlockGrid, BlockSeq, Lerc1Head};
use crate::lerc2_header;
use crate::mask;
use crate::raster;
use crate::sample::Sample;
use crate::stuffed;
use crate::table_laws;
use crate::tile_plan;
use crate::tiling_laws;
use crate::types::{BlobFacts, DataType, MaskEncoding, Version};
use crate::values;
use crate::word_laws;
use vstd::arithmetic::div_mod::*;
use vstd::arithmetic::mul::*;
use vstd::arithmetic::power2::*;
use vstd::prelude::*;

verus! {

/// The number that a block starts from: a single, or an integer of two bytes or of one.
pub enum Base {
    Whole(Single),
    Short(u16),
    Byte(u8),
}

/// The code of how a base is stored.
pub open spec fn base_code(base: Base) -> nat {
    match base {
        Base::Whole(_) => 0,
        Base::Short(_) => 1,
        Base::Byte(_) => 2,
    }
}

/// The bytes of a base.
pub open spec fn base_bytes(base: Base) -> Seq<u8> {
    match base {
        Base::Whole(value) => bytes::le_bytes(value.bits as nat, 4),
        Base::Short(value) => bytes::le_bytes(value as nat, 2),
        Base::Byte(value) => bytes::le_bytes(value as nat, 1),
    }
}

/// The value of a base.
pub open spec fn base_number(base: Base) -> Double {
    match base {
        Base::Whole(value) => value.widened(),
        Base::Short(value) => float::double_of_int(value as int),
        Base::Byte(value) => float::double_of_int(value as int),
    }
}

/// A block as it may be written.
pub enum Piece {
    /// Every value is zero.
    Zero,
    /// Every value is the base.
    Constant(Base),
    /// The values as they are.
    Raw(Seq<Single>),
    /// Numbers of steps above the base, each of so many bits.
    Steps { base: Base, bits: nat, code: nat, steps: Seq<u32> },
}

/// The bytes of singles.
pub open spec fn single_bytes(found: Seq<Single>) -> Seq<u8>
    decreases found.len(),
{
    if found.len() == 0 {
        seq![]
    } else {
        single_bytes(found.drop_last()) + bytes::le_bytes(found.last().bits as nat, 4)
    }
}

/// The bytes of a block.
pub open spec fn piece_bytes(piece: Piece) -> Seq<u8> {
    match piece {
        Piece::Zero => seq![2u8],
        Piece::Constant(base) => seq![(64 * base_code(base) + 3) as u8] + base_bytes(base),
        Piece::Raw(found) => seq![0u8] + single_bytes(found),
        Piece::Steps { base, bits, code, steps } => seq![(64 * base_code(base) + 1) as u8]
            + base_bytes(base) + (seq![(64 * code + bits) as u8] + bytes::le_bytes(
            steps.len(),
            table_laws::count_bytes(code),
        ) + word_laws::high_bytes(steps, bits)),
    }
}

/// Whether a block can be written for so many valid pixels.
pub open spec fn piece_fits(piece: Piece, count: nat) -> bool {
    match piece {
        Piece::Zero => true,
        Piece::Constant(_) => true,
        Piece::Raw(found) => found.len() == count,
        Piece::Steps { base, bits, code, steps } => {
            &&& steps.len() == count
            &&& bits <= 32
            &&& code <= 2
            &&& count < vstd::arithmetic::power::pow(256, table_laws::count_bytes(code))
            &&& bits * count <= usize::MAX
            &&& forall|i: int| 0 <= i < steps.len() ==> #[trigger] steps[i] < pow2(bits)
        },
    }
}

/// The number that a block stands for at its `i`-th valid pixel. A step is twice the error
/// bound, and no number is above the largest value.
pub open spec fn piece_number(piece: Piece, i: int, max_z_error: Double, max_value: Single) -> Double {
    match piece {
        Piece::Zero => Double { bits: 0 },
        Piece::Constant(base) => base_number(base),
        Piece::Raw(found) => found[i].widened(),
        Piece::Steps { base, steps, .. } => stuffed::quantized(
            base_number(base),
            tile_plan::step(max_z_error),
            max_value.widened(),
            steps[i],
        ),
    }
}

/// The value of a pixel: what the block stands for there, in single precision.
pub open spec fn piece_value(piece: Piece, i: int, max_z_error: Double, max_value: Single) -> Double {
    match piece {
        Piece::Steps { .. } => piece_number(piece, i, max_z_error, max_value).narrowed().widened(),
        _ => piece_number(piece, i, max_z_error, max_value),
    }
}

proof fn lemma_single_bytes(found: Seq<Single>)
    ensures
        single_bytes(found) == values::encoded_all(found),
        single_bytes(found).len() == 4 * found.len(),
        values::samples_of::<Single>(single_bytes(found)) == found,
    decreases found.len(),
{
    if found.len() > 0 {
        lemma_single_bytes(found.drop_last());
    }
    values::lemma_encoded_len(found);
    values::law_samples_roundtrip(found);
}

/// Reading a base.
proof fn lemma_base_read(all: Seq<u8>, pos: int, base: Base) -> (offset: Single)
    requires
        bytes::stands_at(all, pos, base_bytes(base)),
        all.len() <= usize::MAX,
    ensures
        lerc1::offset_read(all, pos, base_code(base)) == Ok::<(Single, int), Fault>(
            (offset, pos + base_bytes(base).len()),
        ),
        offset.widened() == base_number(base),
        base matches Base::Whole(v) ==> offset == v,
{
    bytes::lemma_pow256();
    match base {
        Base::Whole(value) => {
            bytes::lemma_le_roundtrip(value.bits as nat, 4);
            value
        },
        Base::Short(value) => {
            bytes::lemma_le_roundtrip(value as nat, 2);
            float::lemma_int_single(value as nat);
            float::double_of_int(value as int).narrowed()
        },
        Base::Byte(value) => {
            bytes::lemma_le_roundtrip(value as nat, 1);
            float::lemma_int_single(value as nat);
            float::double_of_int(value as int).narrowed()
        },
    }
}

/// Whether a block that was read is one that was written.
pub open spec fn block_is(block: BlockSeq, piece: Piece, count: nat) -> bool {
    &&& block is Stuffed <==> piece is Steps
    &&& forall|max_z_error: Double, max_value: Single|
        lerc1::block_values(block, count, max_z_error, max_value) == Ok::<Seq<Double>, Fault>(
            #[trigger] piece_numbers(piece, count, max_z_error, max_value),
        )
}

/// The numbers that a block stands for.
pub open spec fn piece_numbers(piece: Piece, count: nat, max_z_error: Double, max_value: Single) -> Seq<Double> {
    Seq::new(count, |i: int| piece_number(piece, i, max_z_error, max_value))
}

/// Reading a block gives the numbers that it was written for.
pub proof fn law_block_read(all: Seq<u8>, pos: int, piece: Piece, count: nat)
    requires
        bytes::stands_at(all, pos, piece_bytes(piece)),
        all.len() <= usize::MAX,
        piece_fits(piece, count),
    ensures
        lerc1::block_read(all, pos, count) matches Ok((block, next)) && next == pos + piece_bytes(
            piece,
        ).len() && block_is(block, piece, count),
{
    match piece {
        Piece::Zero => {
            table_laws::lemma_byte(all, pos, 2u8);
            assert forall|e: Double, m: Single| lerc1::block_values(BlockSeq::Zero, count, e, m)
                == Ok::<Seq<Double>, Fault>(#[trigger] piece_numbers(piece, count, e, m)) by {
                assert(allocation::repeated(Double { bits: 0 }, count) =~= piece_numbers(
                    piece,
                    count,
                    e,
                    m,
                ));
            }
        },
        Piece::Constant(base) => {
            let head = (64 * base_code(base) + 3) as u8;
            bytes::lemma_stands_split(all, pos, seq![head], base_bytes(base));
            table_laws::lemma_byte(all, pos, head);
            let offset = lemma_base_read(all, pos + 1, base);
            assert(head % 64 == 3 && head / 64 == base_code(base));
            assert forall|e: Double, m: Single|
                lerc1::block_values(BlockSeq::Constant(offset), count, e, m) == Ok::<
                    Seq<Double>,
                    Fault,
                >(#[trigger] piece_numbers(piece, count, e, m)) by {
                assert(allocation::repeated(offset.widened(), count) =~= piece_numbers(
                    piece,
                    count,
                    e,
                    m,
                ));
            }
        },
        Piece::Raw(found) => {
            bytes::lemma_stands_split(all, pos, seq![0u8], single_bytes(found));
            table_laws::lemma_byte(all, pos, 0u8);
            lemma_single_bytes(found);
            assert(cursor::take(all, pos + 1, (count * 4) as int) == Ok::<Seq<u8>, Fault>(
                single_bytes(found),
            ));
            assert forall|e: Double, m: Single|
                lerc1::block_values(BlockSeq::Raw(found), count, e, m) == Ok::<Seq<Double>, Fault>(
                    #[trigger] piece_numbers(piece, count, e, m),
                ) by {
                assert(Seq::new(found.len(), |i: int| found[i].widened()) =~= piece_numbers(
                    piece,
                    count,
                    e,
                    m,
                ));
            }
        },
        Piece::Steps { base, bits, code, steps } => {
            lemma_steps_read(all, pos, base, bits, code, steps, count);
        },
    }
}

proof fn lemma_steps_read(
    all: Seq<u8>,
    pos: int,
    base: Base,
    bits: nat,
    code: nat,
    steps: Seq<u32>,
    count: nat,
)
    requires
        bytes::stands_at(all, pos, piece_bytes(Piece::Steps { base, bits, code, steps })),
        all.len() <= usize::MAX,
        piece_fits(Piece::Steps { base, bits, code, steps }, count),
    ensures
        ({
            let piece = Piece::Steps { base, bits, code, steps };
            lerc1::block_read(all, pos, count) matches Ok((block, next)) && next == pos
                + piece_bytes(piece).len() && block_is(block, piece, count)
        }),
{
    let piece = Piece::Steps { base, bits, code, steps };
    let head = (64 * base_code(base) + 1) as u8;
    let width = table_laws::count_bytes(code);
    let second = (64 * code + bits) as u8;
    let stored = bytes::le_bytes(count, width);
    let data = word_laws::high_bytes(steps, bits);
    bytes::lemma_le_bytes_len(count, width);
    bytes::lemma_stands_split(
        all,
        pos,
        seq![head] + base_bytes(base),
        seq![second] + stored + data,
    );
    bytes::lemma_stands_split(all, pos, seq![head], base_bytes(base));
    table_laws::lemma_byte(all, pos, head);
    let offset = lemma_base_read(all, pos + 1, base);
    assert(head % 64 == 1 && head / 64 == base_code(base));
    let at = pos + 1 + base_bytes(base).len();
    bytes::lemma_stands_split(all, at, seq![second] + stored, data);
    bytes::lemma_stands_split(all, at, seq![second], stored);
    table_laws::lemma_byte(all, at, second);
    assert(second % 64 == bits && second / 64 == code);
    bytes::lemma_le_roundtrip(count, width);
    assert(lerc1::count_read(all, at + 1, code) == Ok::<(nat, int), Fault>(
        (count, at + 1 + width),
    ));
    word_laws::law_high_roundtrip(steps, bits);
    assert(cursor::take(all, at + 1 + width, data.len() as int) == Ok::<Seq<u8>, Fault>(data));
    let words = bitpack::words_of(data);
    let block = BlockSeq::Stuffed { offset, bits: bits as u8, words };
    assert(lerc1::block_read(all, pos, count) == Ok::<(BlockSeq, int), Fault>(
        (block, at + 1 + width + data.len()),
    ));
    assert forall|e: Double, m: Single|
        lerc1::block_values(block, count, e, m) == Ok::<Seq<Double>, Fault>(
            #[trigger] piece_numbers(piece, count, e, m),
        ) by {
        assert(lerc1::step_values(offset, bits as u8, words, count, e, m) =~= piece_numbers(
            piece,
            count,
            e,
            m,
        ));
    }
}

/// The block that a coordinate falls into: blocks of equal extent, then what is left over.
pub open spec fn axis_block(extent: nat, nominal: nat, x: nat) -> nat {
    if x / (extent / nominal) < nominal {
        x / (extent / nominal)
    } else {
        nominal
    }
}

proof fn lemma_axis_block(extent: nat, nominal: nat, x: nat, b: nat)
    requires
        1 <= nominal <= extent,
        x < extent,
        b < lerc1::axis_blocks(extent, nominal),
    ensures
        axis_block(extent, nominal, x) < lerc1::axis_blocks(extent, nominal),
        b * (extent / nominal) <= x < b * (extent / nominal) + lerc1::axis_extent(
            extent,
            nominal,
            b,
        ) <==> b == axis_block(extent, nominal, x),
{
    let base = extent / nominal;
    let rest = extent % nominal;
    lemma_fundamental_div_mod(extent as int, nominal as int);
    lemma_div_non_zero(extent as int, nominal as int);
    lerc1::lemma_axis(extent, nominal, b);
    lemma_fundamental_div_mod(x as int, base as int);
    let q = x / base;
    let r = x % base;
    assert(nominal * base == base * nominal) by (nonlinear_arith);
    assert(b * base == base * b) by (nonlinear_arith);
    if q >= nominal {
        assert(base * q >= base * nominal) by (nonlinear_arith)
            requires
                q >= nominal,
        ;
        assert(rest != 0);
    }
    if b < nominal {
        if b < q {
            assert(base * q >= base * b + base) by (nonlinear_arith)
                requires
                    q >= b + 1,
            ;
        } else if b > q {
            assert(base * b >= base * q + base) by (nonlinear_arith)
                requires
                    b >= q + 1,
            ;
        }
        if rest == 0 {
            assert(lerc1::axis_extent(extent, nominal, b) == base);
        }
    } else {
        assert(b == nominal);
        if q < nominal {
            assert(base * nominal >= base * q + base) by (nonlinear_arith)
                requires
                    nominal >= q + 1,
            ;
        }
    }
}

/// Every valid pixel is listed in exactly one block: the one that its column and row fall into.
/// Within a block pixels are listed row by row.
pub proof fn law_blocks_cover(grid: BlockGrid, entries: Option<Seq<u8>>, p: nat, bx: nat, by: nat)
    requires
        grid.wf(),
        p < grid.pixels(),
        bx < grid.blocks_x(),
        by < grid.blocks_y(),
    ensures
        ({
            let column = axis_block(grid.width as nat, grid.nominal_x as nat, p % grid.width as nat);
            let row = axis_block(grid.height as nat, grid.nominal_y as nat, p / grid.width as nat);
            let list = grid.listed(entries, bx, by);
            &&& column < grid.blocks_x()
            &&& row < grid.blocks_y()
            &&& list.contains(p as int) <==> blocks::is_valid(entries, p as int) && bx == column
                && by == row
            &&& forall|i: int, j: int|
                #![trigger list[i], list[j]]
                0 <= i < j < list.len() ==> list[i] < list[j]
            &&& forall|i: int| 0 <= i < list.len() ==> 0 <= #[trigger] list[i] < grid.pixels()
        }),
{
    let (w, h) = (grid.width as nat, grid.height as nat);
    let (nx, ny) = (grid.nominal_x as nat, grid.nominal_y as nat);
    lemma_mul_is_commutative(w as int, h as int);
    lemma_multiply_divide_lt(p as int, w as int, h as int);
    lemma_axis_block(w, nx, p % w, bx);
    lemma_axis_block(h, ny, p / w, by);
    lerc1::lemma_axis(w, nx, bx);
    lerc1::lemma_axis(h, ny, by);
    let cols = lerc1::axis_extent(w, nx, bx);
    let rows = lerc1::axis_extent(h, ny, by);
    let (x, y) = (bx * (w / nx), by * (h / ny));
    tiling_laws::lemma_block_has(entries, w, x, y, cols, rows, p);
    blocks::lemma_block_pixels(entries, w, h, x, y, cols, rows);
    grid.lemma_listed(entries, bx, by);
}

/// A raster cut into blocks, and how each is written.
pub struct Sheet {
    pub grid: BlockGrid,
    pub entries: Option<Seq<u8>>,
    pub pieces: Seq<Piece>,
    pub max_z_error: Double,
    pub max_value: Single,
}

impl Sheet {
    /// The valid pixels of the `k`-th block, counted row by row.
    pub open spec fn listed(self, k: int) -> Seq<int> {
        self.grid.listed(
            self.entries,
            (k % (self.grid.blocks_x() as int)) as nat,
            (k / (self.grid.blocks_x() as int)) as nat,
        )
    }

    /// The value that the `k`-th block has at its `i`-th valid pixel, in single precision or as
    /// it is.
    pub open spec fn value(self, k: int, i: int, rounded: bool) -> Double {
        if rounded {
            piece_value(self.pieces[k], i, self.max_z_error, self.max_value)
        } else {
            piece_number(self.pieces[k], i, self.max_z_error, self.max_value)
        }
    }

    /// There is a block for each place of the grid, which can be written for its pixels.
    pub open spec fn wf(self) -> bool {
        &&& self.grid.wf()
        &&& blocks::mask_fits(self.entries, self.grid.pixels())
        &&& self.pieces.len() == self.grid.blocks_x() * self.grid.blocks_y()
        &&& forall|k: int|
            0 <= k < self.pieces.len() ==> piece_fits(
                #[trigger] self.pieces[k],
                self.listed(k).len(),
            )
    }

    /// Every value is finite.
    pub open spec fn finite(self, rounded: bool) -> bool {
        forall|k: int, i: int|
            0 <= k < self.pieces.len() && 0 <= i < self.listed(k).len() ==> (#[trigger] self.value(
                k,
                i,
                rounded,
            )).finite()
    }
}

/// The bytes of the blocks from the `k`-th on.
pub open spec fn pieces_from(pieces: Seq<Piece>, k: nat) -> Seq<u8>
    decreases pieces.len() - k,
{
    if k >= pieces.len() {
        seq![]
    } else {
        piece_bytes(pieces[k as int]) + pieces_from(pieces, k + 1)
    }
}

/// Whether the blocks that were read are the first of those that were written.
pub open spec fn blocks_are(sheet: Sheet, found: Seq<BlockSeq>) -> bool {
    forall|k: int|
        0 <= k < found.len() ==> block_is(
            #[trigger] found[k],
            sheet.pieces[k],
            sheet.listed(k).len(),
        )
}

/// Reading blocks gives those that were written.
proof fn lemma_blocks_back(
    sheet: Sheet,
    all: Seq<u8>,
    by: nat,
    bx: nat,
    found: Seq<BlockSeq>,
    pos: int,
)
    requires
        sheet.wf(),
        all.len() <= usize::MAX,
        bx <= sheet.grid.blocks_x(),
        by <= sheet.grid.blocks_y(),
        by == sheet.grid.blocks_y() ==> bx == 0,
        found.len() == by * sheet.grid.blocks_x() + bx,
        bytes::stands_at(all, pos, pieces_from(sheet.pieces, found.len())),
        blocks_are(sheet, found),
    ensures
        lerc1::blocks_read(sheet.grid, sheet.entries, all, by, bx, found, pos) matches Ok(
            (blocks, next),
        ) && next == pos + pieces_from(sheet.pieces, found.len()).len() && blocks.len()
            == sheet.pieces.len() && blocks_are(sheet, blocks),
    decreases sheet.grid.blocks_y() - by, sheet.grid.blocks_x() - bx,
{
    let grid = sheet.grid;
    let n = grid.blocks_x();
    let k = found.len();
    assert(n * grid.blocks_y() == grid.blocks_y() * n) by (nonlinear_arith);
    if by >= grid.blocks_y() {
    } else if bx >= n {
        assert((by + 1) * n == by * n + n) by (nonlinear_arith);
        lemma_blocks_back(sheet, all, by + 1, 0, found, pos);
    } else {
        lerc1::lemma_block_index(grid, by, bx);
        let piece = sheet.pieces[k as int];
        let rest = pieces_from(sheet.pieces, k + 1);
        let count = sheet.listed(k as int).len();
        bytes::lemma_stands_split(all, pos, piece_bytes(piece), rest);
        law_block_read(all, pos, piece, count);
        let (block, next) = lerc1::block_read(all, pos, count)->Ok_0;
        let more = found.push(block);
        assert forall|j: int| 0 <= j < more.len() implies block_is(
            #[trigger] more[j],
            sheet.pieces[j],
            sheet.listed(j).len(),
        ) by {
            if j < k {
                assert(more[j] == found[j]);
            }
        }
        lemma_blocks_back(sheet, all, by, bx + 1, more, next);
    }
}

proof fn lemma_least_of(bound: Double, found: Seq<Double>)
    requires
        !bound.nan(),
        forall|i: int| 0 <= i < found.len() ==> (#[trigger] found[i]).finite(),
    ensures
        !lerc1::least(bound, found).nan(),
        !bound.below(lerc1::least(bound, found)),
        forall|i: int|
            0 <= i < found.len() ==> !(#[trigger] found[i]).below(lerc1::least(bound, found)),
        lerc1::least(bound, found) == bound || exists|i: int|
            0 <= i < found.len() && #[trigger] found[i] == lerc1::least(bound, found),
    decreases found.len(),
{
    if found.len() > 0 {
        let front = found.drop_last();
        assert forall|i: int| 0 <= i < front.len() implies (#[trigger] front[i]).finite() by {
            assert(front[i] == found[i]);
        }
        lemma_least_of(bound, front);
        let r = lerc1::least(bound, found);
        assert(found.last() == found[found.len() - 1]);
        assert forall|i: int| 0 <= i < found.len() implies !(#[trigger] found[i]).below(r) by {
            if i < front.len() {
                assert(front[i] == found[i]);
            }
        }
        if r == lerc1::least(bound, front) && r != bound {
            let i = choose|i: int| 0 <= i < front.len() && #[trigger] front[i] == r;
            assert(found[i] == r);
        }
    }
}

proof fn lemma_greatest_of(bound: Double, found: Seq<Double>)
    requires
        !bound.nan(),
        forall|i: int| 0 <= i < found.len() ==> (#[trigger] found[i]).finite(),
    ensures
        !lerc1::greatest(bound, found).nan(),
        !lerc1::greatest(bound, found).below(bound),
        forall|i: int|
            0 <= i < found.len() ==> !lerc1::greatest(bound, found).below(#[trigger] found[i]),
        lerc1::greatest(bound, found) == bound || exists|i: int|
            0 <= i < found.len() && #[trigger] found[i] == lerc1::greatest(bound, found),
    decreases found.len(),
{
    if found.len() > 0 {
        let front = found.drop_last();
        assert forall|i: int| 0 <= i < front.len() implies (#[trigger] front[i]).finite() by {
            assert(front[i] == found[i]);
        }
        lemma_greatest_of(bound, front);
        let r = lerc1::greatest(bound, found);
        assert(found.last() == found[found.len() - 1]);
        assert forall|i: int| 0 <= i < found.len() implies !r.below(#[trigger] found[i]) by {
            if i < front.len() {
                assert(front[i] == found[i]);
            }
        }
        if r == lerc1::greatest(bound, front) && r != bound {
            let i = choose|i: int| 0 <= i < front.len() && #[trigger] front[i] == r;
            assert(found[i] == r);
        }
    }
}

/// Whether some valid pixel of the first `k` blocks has a value.
pub open spec fn attained(sheet: Sheet, k: int, rounded: bool, v: Double) -> bool {
    exists|j: int, i: int|
        0 <= j < k && 0 <= i < sheet.listed(j).len() && #[trigger] sheet.value(j, i, rounded) == v
}

/// Whether two numbers are the least and the greatest value of the first `k` blocks.
pub open spec fn is_range(sheet: Sheet, k: int, rounded: bool, low: Double, high: Double) -> bool {
    &&& attained(sheet, k, rounded, low)
    &&& attained(sheet, k, rounded, high)
    &&& forall|j: int, i: int|
        0 <= j < k && 0 <= i < sheet.listed(j).len() ==> !(#[trigger] sheet.value(
            j,
            i,
            rounded,
        )).below(low) && !high.below(sheet.value(j, i, rounded))
}

/// The range of the first `k` blocks, or none where they have no valid pixel.
spec fn range_so_far(sheet: Sheet, k: int, rounded: bool, low: Double, high: Double) -> bool {
    ||| is_range(sheet, k, rounded, low, high)
    ||| low == lerc1::top() && high == lerc1::bottom() && forall|j: int|
        0 <= j < k ==> (#[trigger] sheet.listed(j)).len() == 0
}

/// The values of a block.
spec fn block_numbers(sheet: Sheet, k: int, rounded: bool) -> Seq<Double> {
    Seq::new(sheet.listed(k).len(), |i: int| sheet.value(k, i, rounded))
}

#[verifier::rlimit(60)]
#[verifier::spinoff_prover]
proof fn lemma_range_step(sheet: Sheet, k: int, rounded: bool, low: Double, high: Double)
    requires
        sheet.wf(),
        sheet.finite(rounded),
        0 <= k < sheet.pieces.len(),
        range_so_far(sheet, k, rounded, low, high),
    ensures
        range_so_far(
            sheet,
            k + 1,
            rounded,
            lerc1::least(low, block_numbers(sheet, k, rounded)),
            lerc1::greatest(high, block_numbers(sheet, k, rounded)),
        ),
{
    let found = block_numbers(sheet, k, rounded);
    let lo = lerc1::least(low, found);
    let hi = lerc1::greatest(high, found);
    assert forall|i: int| 0 <= i < found.len() implies (#[trigger] found[i]).finite() by {
        assert(found[i] == sheet.value(k, i, rounded));
    }
    if is_range(sheet, k, rounded, low, high) {
        assert(low.finite() && high.finite()) by {
            let (j, i) = choose|j: int, i: int|
                0 <= j < k && 0 <= i < sheet.listed(j).len() && #[trigger] sheet.value(
                    j,
                    i,
                    rounded,
                ) == low;
            assert(sheet.value(j, i, rounded).finite());
            let (a, b) = choose|j: int, i: int|
                0 <= j < k && 0 <= i < sheet.listed(j).len() && #[trigger] sheet.value(
                    j,
                    i,
                    rounded,
                ) == high;
            assert(sheet.value(a, b, rounded).finite());
        }
    }
    lemma_least_of(low, found);
    lemma_greatest_of(high, found);
    if found.len() == 0 {
        assert(sheet.listed(k).len() == 0);
        if is_range(sheet, k, rounded, low, high) {
            assert(attained(sheet, k + 1, rounded, low));
            assert(attained(sheet, k + 1, rounded, high));
        }
    } else {
        assert(found[0] == sheet.value(k, 0, rounded));
        assert(attained(sheet, k + 1, rounded, lo)) by {
            if lo == low && is_range(sheet, k, rounded, low, high) {
                let (j, i) = choose|j: int, i: int|
                    0 <= j < k && 0 <= i < sheet.listed(j).len() && #[trigger] sheet.value(
                        j,
                        i,
                        rounded,
                    ) == low;
                assert(0 <= j < k + 1);
            } else {
                if lo == low {
                    assert(found[0].below(lerc1::top()));
                }
                let i = choose|i: int| 0 <= i < found.len() && #[trigger] found[i] == lo;
                assert(sheet.value(k, i, rounded) == lo);
            }
        }
        assert(attained(sheet, k + 1, rounded, hi)) by {
            if hi == high && is_range(sheet, k, rounded, low, high) {
                let (j, i) = choose|j: int, i: int|
                    0 <= j < k && 0 <= i < sheet.listed(j).len() && #[trigger] sheet.value(
                        j,
                        i,
                        rounded,
                    ) == high;
                assert(0 <= j < k + 1);
            } else {
                if hi == high {
                    assert(lerc1::bottom().below(found[0]));
                }
                let i = choose|i: int| 0 <= i < found.len() && #[trigger] found[i] == hi;
                assert(sheet.value(k, i, rounded) == hi);
            }
        }
        assert forall|j: int, i: int|
            0 <= j < k + 1 && 0 <= i < sheet.listed(j).len() implies !(#[trigger] sheet.value(
            j,
            i,
            rounded,
        )).below(lo) && !hi.below(sheet.value(j, i, rounded)) by {
            if j == k {
                assert(found[i] == sheet.value(k, i, rounded));
            } else {
                assert(sheet.listed(j).len() > 0);
                assert(is_range(sheet, k, rounded, low, high));
                assert(sheet.value(j, i, rounded).finite());
            }
        }
    }
}

/// Whether parsed parts are those of a raster that was written.
pub open spec fn parts_are(parts: BlobParts, sheet: Sheet) -> bool {
    &&& parts.grid == sheet.grid
    &&& parts.entries == sheet.entries
    &&& parts.facts.max_z_error == sheet.max_z_error
    &&& parts.max_value == sheet.max_value
    &&& parts.blocks.len() == sheet.pieces.len()
    &&& blocks_are(sheet, parts.blocks)
}

/// Two blocks share no pixel.
proof fn lemma_blocks_apart(sheet: Sheet, j: int, k: int, p: int)
    requires
        sheet.wf(),
        0 <= j < sheet.pieces.len(),
        0 <= k < sheet.pieces.len(),
        sheet.listed(j).contains(p),
        sheet.listed(k).contains(p),
    ensures
        j == k,
{
    let n = sheet.grid.blocks_x() as int;
    let m = sheet.grid.blocks_y() as int;
    lemma_block_place(sheet, j);
    lemma_block_place(sheet, k);
    law_blocks_cover(sheet.grid, sheet.entries, 0, (j % n) as nat, (j / n) as nat);
    law_blocks_cover(sheet.grid, sheet.entries, p as nat, (j % n) as nat, (j / n) as nat);
    law_blocks_cover(sheet.grid, sheet.entries, p as nat, (k % n) as nat, (k / n) as nat);
}

/// The place of a block in the grid.
proof fn lemma_block_place(sheet: Sheet, k: int)
    requires
        sheet.wf(),
        0 <= k < sheet.pieces.len(),
    ensures
        sheet.grid.pixels() > 0,
        0 <= k % (sheet.grid.blocks_x() as int) < sheet.grid.blocks_x(),
        0 <= k / (sheet.grid.blocks_x() as int) < sheet.grid.blocks_y(),
        k == (k / (sheet.grid.blocks_x() as int)) * sheet.grid.blocks_x() + k % (
        sheet.grid.blocks_x() as int),
{
    let n = sheet.grid.blocks_x() as int;
    let m = sheet.grid.blocks_y() as int;
    let (w, h) = (sheet.grid.width as int, sheet.grid.height as int);
    assert(w * h > 0) by (nonlinear_arith)
        requires
            w > 0,
            h > 0,
    ;
    lemma_fundamental_div_mod(k, n);
    lemma_multiply_divide_lt(k, n, m);
    assert(n * m == m * n && n * (k / n) == (k / n) * n) by (nonlinear_arith);
    lemma_div_pos_is_pos(k, n);
}

/// Whether the first `k` blocks have been written, and nothing else.
spec fn placed<T: Sample>(sheet: Sheet, k: int, samples: Seq<T>) -> bool {
    &&& samples.len() == sheet.grid.pixels()
    &&& forall|j: int, i: int|
        0 <= j < k && 0 <= i < sheet.listed(j).len() ==> samples[#[trigger] sheet.listed(j)[i]]
            == T::demoted(sheet.value(j, i, true))
    &&& forall|p: int|
        0 <= p < samples.len() && !blocks::is_valid(sheet.entries, p) ==> #[trigger] samples[p]
            == T::zero()
}

proof fn lemma_placed_step<T: Sample>(sheet: Sheet, k: int, samples: Seq<T>)
    requires
        sheet.wf(),
        0 <= k < sheet.pieces.len(),
        placed(sheet, k, samples),
    ensures
        placed(
            sheet,
            k + 1,
            blocks::scattered(
                samples,
                sheet.listed(k),
                lerc1::demoted_all::<T>(block_numbers(sheet, k, true)),
                1,
                0,
                sheet.listed(k).len(),
            ),
        ),
{
    let list = sheet.listed(k);
    let found = lerc1::demoted_all::<T>(block_numbers(sheet, k, true));
    let n = sheet.grid.blocks_x() as int;
    let pixels = sheet.grid.pixels();
    let after = blocks::scattered(samples, list, found, 1, 0, list.len());
    lemma_block_place(sheet, k);
    law_blocks_cover(sheet.grid, sheet.entries, 0, (k % n) as nat, (k / n) as nat);
    tiling_laws::lemma_scattered(samples, list, found, 1, 0, list.len(), pixels);
    assert forall|j: int, i: int| 0 <= j < k + 1 && 0 <= i < sheet.listed(j).len() implies after[
    #[trigger] sheet.listed(j)[i]] == T::demoted(sheet.value(j, i, true)) by {
        let p = sheet.listed(j)[i];
        if j == k {
            assert(tiling_laws::cell(after, 1, list[i], 0) == found[i]);
        } else {
            lemma_block_place(sheet, j);
            law_blocks_cover(sheet.grid, sheet.entries, 0, (j % n) as nat, (j / n) as nat);
            assert(sheet.listed(j).contains(p));
            if list.contains(p) {
                lemma_blocks_apart(sheet, j, k, p);
            }
            assert(tiling_laws::cell(after, 1, p, 0) == tiling_laws::cell(samples, 1, p, 0));
        }
    }
    assert forall|p: int|
        0 <= p < after.len() && !blocks::is_valid(sheet.entries, p) implies #[trigger] after[p]
        == T::zero() by {
        law_blocks_cover(sheet.grid, sheet.entries, p as nat, (k % n) as nat, (k / n) as nat);
        assert(tiling_laws::cell(after, 1, p, 0) == tiling_laws::cell(samples, 1, p, 0));
        assert(samples[p] == T::zero());
    }
}

/// Writing the blocks puts every value in its place and finds the range.
proof fn lemma_written_back<T: Sample>(
    parts: BlobParts,
    sheet: Sheet,
    by: nat,
    bx: nat,
    k: nat,
    samples: Seq<T>,
    low: Double,
    high: Double,
)
    requires
        sheet.wf(),
        sheet.finite(true),
        parts_are(parts, sheet),
        bx <= sheet.grid.blocks_x(),
        by <= sheet.grid.blocks_y(),
        by == sheet.grid.blocks_y() ==> bx == 0,
        k == by * sheet.grid.blocks_x() + bx,
        placed(sheet, k as int, samples),
        range_so_far(sheet, k as int, true, low, high),
    ensures
        lerc1::blocks_written(parts, by, bx, k, samples, low, high) matches Ok((out, lo, hi))
            && placed(sheet, sheet.pieces.len() as int, out) && range_so_far(
            sheet,
            sheet.pieces.len() as int,
            true,
            lo,
            hi,
        ),
    decreases sheet.grid.blocks_y() - by, sheet.grid.blocks_x() - bx,
{
    let grid = sheet.grid;
    let n = grid.blocks_x();
    assert(n * grid.blocks_y() == grid.blocks_y() * n) by (nonlinear_arith);
    if by >= grid.blocks_y() {
    } else if bx >= n {
        assert((by + 1) * n == by * n + n) by (nonlinear_arith);
        lemma_written_back(parts, sheet, by + 1, 0, k, samples, low, high);
    } else {
        lerc1::lemma_block_index(grid, by, bx);
        let list = sheet.listed(k as int);
        let block = parts.blocks[k as int];
        let piece = sheet.pieces[k as int];
        assert(block_is(block, piece, list.len()));
        let found = piece_numbers(piece, list.len(), sheet.max_z_error, sheet.max_value);
        assert(lerc1::block_values(block, list.len(), sheet.max_z_error, sheet.max_value) == Ok::<
            Seq<Double>,
            Fault,
        >(found));
        let written = lerc1::shown_all(block, found);
        assert(written =~= block_numbers(sheet, k as int, true));
        lemma_placed_step(sheet, k as int, samples);
        lemma_range_step(sheet, k as int, true, low, high);
        lemma_written_back(
            parts,
            sheet,
            by,
            bx + 1,
            k + 1,
            blocks::scattered(samples, list, lerc1::demoted_all::<T>(written), 1, 0, list.len()),
            lerc1::least(low, written),
            lerc1::greatest(high, written),
        );
    }
}

/// Scanning the blocks finds the range.
proof fn lemma_scanned_back(
    parts: BlobParts,
    sheet: Sheet,
    by: nat,
    bx: nat,
    k: nat,
    low: Double,
    high: Double,
)
    requires
        sheet.wf(),
        sheet.finite(false),
        parts_are(parts, sheet),
        bx <= sheet.grid.blocks_x(),
        by <= sheet.grid.blocks_y(),
        by == sheet.grid.blocks_y() ==> bx == 0,
        k == by * sheet.grid.blocks_x() + bx,
        range_so_far(sheet, k as int, false, low, high),
    ensures
        lerc1::blocks_scanned(parts, by, bx, k, low, high) matches Ok((lo, hi)) && range_so_far(
            sheet,
            sheet.pieces.len() as int,
            false,
            lo,
            hi,
        ),
    decreases sheet.grid.blocks_y() - by, sheet.grid.blocks_x() - bx,
{
    let grid = sheet.grid;
    let n = grid.blocks_x();
    assert(n * grid.blocks_y() == grid.blocks_y() * n) by (nonlinear_arith);
    if by >= grid.blocks_y() {
    } else if bx >= n {
        assert((by + 1) * n == by * n + n) by (nonlinear_arith);
        lemma_scanned_back(parts, sheet, by + 1, 0, k, low, high);
    } else {
        lerc1::lemma_block_index(grid, by, bx);
        let list = sheet.listed(k as int);
        let block = parts.blocks[k as int];
        let piece = sheet.pieces[k as int];
        assert(block_is(block, piece, list.len()));
        let found = piece_numbers(piece, list.len(), sheet.max_z_error, sheet.max_value);
        assert(lerc1::block_values(block, list.len(), sheet.max_z_error, sheet.max_value) == Ok::<
            Seq<Double>,
            Fault,
        >(found));
        assert(found =~= block_numbers(sheet, k as int, false));
        lemma_range_step(sheet, k as int, false, low, high);
        if list.len() == 0 {
            assert(lerc1::least(low, found) == low && lerc1::greatest(high, found) == high);
            lemma_scanned_back(parts, sheet, by, bx + 1, k + 1, low, high);
        } else {
            lemma_scanned_back(
                parts,
                sheet,
                by,
                bx + 1,
                k + 1,
                lerc1::least(low, found),
                lerc1::greatest(high, found),
            );
        }
    }
}

/// Which pixels of a blob are valid, and where that is said.
pub enum Validity {
    /// All of them.
    Everywhere,
    /// None of them.
    Nowhere,
    /// Those with a nonzero entry, stored in the blob.
    Stored(Seq<u8>),
    /// Those with a nonzero entry, known from elsewhere; the blob has no mask section.
    Shared(Seq<u8>),
}

/// A blob as it may be laid out.
pub struct Layout {
    pub version: u32,
    pub kind: u32,
    pub width: u32,
    pub height: u32,
    pub max_z_error: Double,
    pub validity: Validity,
    pub mask_rows: u32,
    pub mask_columns: u32,
    pub mask_max: Single,
    pub nominal_x: u32,
    pub nominal_y: u32,
    pub max_value: Single,
    pub pieces: Seq<Piece>,
    /// Whether the pixel section says how long it is.
    pub declared: bool,
}

/// The fields in front of the mask section: `CntZImage `, the version, the type, the height,
/// the width and the error bound.
pub open spec fn head_bytes(b: Layout) -> Seq<u8> {
    seq![67u8, 110u8, 116u8, 90u8, 73u8, 109u8, 97u8, 103u8, 101u8, 32u8] + bytes::le_bytes(
        b.version as nat,
        4,
    ) + bytes::le_bytes(b.kind as nat, 4) + bytes::le_bytes(b.height as nat, 4) + bytes::le_bytes(
        b.width as nat,
        4,
    ) + bytes::le_bytes(b.max_z_error.bits as nat, 8)
}

/// The stored mask.
pub open spec fn mask_field(b: Layout) -> Seq<u8> {
    match b.validity {
        Validity::Stored(entries) => mask::bitset_encoded(mask::packed(entries)),
        _ => seq![],
    }
}

/// The mask section.
pub open spec fn mask_bytes(b: Layout) -> Seq<u8> {
    if b.validity is Shared {
        seq![]
    } else {
        bytes::le_bytes(b.mask_rows as nat, 4) + bytes::le_bytes(b.mask_columns as nat, 4)
            + bytes::le_bytes(mask_field(b).len(), 4) + bytes::le_bytes(b.mask_max.bits as nat, 4)
            + mask_field(b)
    }
}

/// The pixel section: the rows and columns of blocks, its length or zero, the largest value,
/// and the blocks.
pub open spec fn pixel_bytes(b: Layout) -> Seq<u8> {
    bytes::le_bytes(b.nominal_y as nat, 4) + bytes::le_bytes(b.nominal_x as nat, 4)
        + bytes::le_bytes(
        if b.declared {
            pieces_from(b.pieces, 0).len()
        } else {
            0
        },
        4,
    ) + bytes::le_bytes(b.max_value.bits as nat, 4) + pieces_from(b.pieces, 0)
}

/// The bytes of a blob.
pub open spec fn blob_bytes(b: Layout) -> Seq<u8> {
    head_bytes(b) + mask_bytes(b) + pixel_bytes(b)
}

/// The mask of a blob, as zeros and ones where it is stored there.
pub open spec fn entries_of(b: Layout) -> Option<Seq<u8>> {
    match b.validity {
        Validity::Everywhere => None,
        Validity::Nowhere => Some(Seq::new(b.width as nat * b.height as nat, |i: int| 0u8)),
        Validity::Stored(entries) => Some(
            Seq::new(
                entries.len(),
                |i: int|
                    if entries[i] != 0 {
                        1u8
                    } else {
                        0u8
                    },
            ),
        ),
        Validity::Shared(entries) => Some(entries),
    }
}

/// The raster of a blob.
pub open spec fn sheet_of(b: Layout) -> Sheet {
    Sheet {
        grid: BlockGrid {
            width: b.width as usize,
            height: b.height as usize,
            nominal_x: b.nominal_x as usize,
            nominal_y: b.nominal_y as usize,
        },
        entries: entries_of(b),
        pieces: b.pieces,
        max_z_error: b.max_z_error,
        max_value: b.max_value,
    }
}

/// The number of valid pixels.
pub open spec fn valid_of(b: Layout) -> nat {
    match entries_of(b) {
        Some(entries) => raster::count_valid(entries),
        None => b.width as nat * b.height as nat,
    }
}

/// Whether a blob can be laid out, and read within the limits on allocations.
pub open spec fn layout_ok(b: Layout) -> bool {
    let pixels = b.width as nat * b.height as nat;
    let unmarked = b.mask_rows == 0 && b.mask_columns == 0 && b.mask_max.widened().zero();
    &&& b.version < 0x8000_0000
    &&& b.width > 0
    &&& b.height > 0
    &&& b.max_z_error.finite()
    &&& !b.max_z_error.below(Double { bits: 0 })
    &&& b.max_value.finite()
    &&& sheet_of(b).wf()
    &&& valid_of(b) <= u32::MAX
    &&& b.declared ==> pieces_from(b.pieces, 0).len() <= u32::MAX
    &&& pixels <= allocation::MAX_DECODED_ALLOCATION_BYTES
    &&& sheet_of(b).pieces.len() * lerc1::BLOCK_ENTRY_BYTES
        <= allocation::MAX_DECODED_ALLOCATION_BYTES
    &&& match b.validity {
        Validity::Everywhere => !unmarked,
        Validity::Nowhere => unmarked,
        Validity::Stored(entries) => entries.len() == pixels && mask_field(b).len() <= u32::MAX,
        Validity::Shared(entries) => entries.len() == pixels,
    }
}

/// The metadata of a blob, but for the range of its values.
pub open spec fn facts_of(b: Layout) -> BlobFacts {
    BlobFacts {
        version: Version::Lerc1(b.version),
        data_type: DataType::F32,
        width: b.width,
        height: b.height,
        depth: 1,
        min_values: None,
        max_values: None,
        valid_pixel_count: valid_of(b) as u32,
        micro_block_size: 0,
        blob_size: blob_bytes(b).len() as usize,
        remaining_band_count: 0,
        max_z_error: b.max_z_error,
        z_min: Double { bits: 0 },
        z_max: b.max_value.widened(),
        mask_encoding: match b.validity {
            Validity::Everywhere => MaskEncoding::AllValid,
            Validity::Nowhere => MaskEncoding::ImplicitAllInvalid,
            Validity::Stored(_) => MaskEncoding::Explicit,
            Validity::Shared(_) => MaskEncoding::External,
        },
        no_data_value: None,
    }
}

/// The mask that the reader of a blob is given.
pub open spec fn shared_of(b: Layout) -> Option<Seq<u8>> {
    match b.validity {
        Validity::Shared(entries) => Some(entries),
        _ => None,
    }
}

pub proof fn lemma_head_len(b: Layout)
    ensures
        head_bytes(b).len() == 34,
        mask_bytes(b).len() == if b.validity is Shared {
            0
        } else {
            16 + mask_field(b).len()
        },
        pixel_bytes(b).len() == 16 + pieces_from(b.pieces, 0).len(),
{
    bytes::lemma_le_bytes_len(b.version as nat, 4);
    bytes::lemma_le_bytes_len(b.kind as nat, 4);
    bytes::lemma_le_bytes_len(b.height as nat, 4);
    bytes::lemma_le_bytes_len(b.width as nat, 4);
    bytes::lemma_le_bytes_len(b.max_z_error.bits as nat, 8);
    bytes::lemma_le_bytes_len(b.mask_rows as nat, 4);
    bytes::lemma_le_bytes_len(b.mask_columns as nat, 4);
    bytes::lemma_le_bytes_len(mask_field(b).len(), 4);
    bytes::lemma_le_bytes_len(b.mask_max.bits as nat, 4);
    bytes::lemma_le_bytes_len(b.nominal_y as nat, 4);
    bytes::lemma_le_bytes_len(b.nominal_x as nat, 4);
    bytes::lemma_le_bytes_len(pieces_from(b.pieces, 0).len(), 4);
    bytes::lemma_le_bytes_len(0, 4);
    bytes::lemma_le_bytes_len(b.max_value.bits as nat, 4);
}

proof fn lemma_head_back(blob: Seq<u8>, b: Layout)
    requires
        bytes::stands_at(blob, 0, head_bytes(b)),
        blob.len() <= usize::MAX,
        layout_ok(b),
    ensures
        lerc1::head_read(blob) == Ok::<Lerc1Head, Fault>(
            Lerc1Head {
                version: b.version,
                height: b.height,
                width: b.width,
                max_z_error: b.max_z_error,
            },
        ),
{
    lemma_head_len(b);
    let m = seq![67u8, 110u8, 116u8, 90u8, 73u8, 109u8, 97u8, 103u8, 101u8, 32u8];
    let f1 = bytes::le_bytes(b.version as nat, 4);
    let f2 = bytes::le_bytes(b.kind as nat, 4);
    let f3 = bytes::le_bytes(b.height as nat, 4);
    let f4 = bytes::le_bytes(b.width as nat, 4);
    let f5 = bytes::le_bytes(b.max_z_error.bits as nat, 8);
    bytes::lemma_le_bytes_len(b.version as nat, 4);
    bytes::lemma_le_bytes_len(b.kind as nat, 4);
    bytes::lemma_le_bytes_len(b.height as nat, 4);
    bytes::lemma_le_bytes_len(b.width as nat, 4);
    bytes::lemma_stands_split(blob, 0, m + f1 + f2 + f3 + f4, f5);
    bytes::lemma_stands_split(blob, 0, m + f1 + f2 + f3, f4);
    bytes::lemma_stands_split(blob, 0, m + f1 + f2, f3);
    bytes::lemma_stands_split(blob, 0, m + f1, f2);
    bytes::lemma_stands_split(blob, 0, m, f1);
    assert(m.subrange(0, 9) =~= lerc1::magic_lerc1());
    blob_laws::lemma_number_back(blob, 10, b.version as nat);
    blob_laws::lemma_number_back(blob, 18, b.height as nat);
    blob_laws::lemma_number_back(blob, 22, b.width as nat);
    blob_laws::lemma_double_back(blob, 26, b.max_z_error.bits);
    reveal_with_fuel(lerc2_header::short_field, 6);
    assert(lerc2_header::short_field(blob.len(), 14, seq![4, 4, 4, 8], 0) is None);
}

proof fn lemma_mask_back(blob: Seq<u8>, b: Layout)
    requires
        bytes::stands_at(blob, 34, mask_bytes(b)),
        blob.len() <= usize::MAX,
        layout_ok(b),
    ensures
        ({
            let h = Lerc1Head {
                version: b.version,
                height: b.height,
                width: b.width,
                max_z_error: b.max_z_error,
            };
            lerc1::mask_found(blob, h, shared_of(b)) == Ok::<
                (MaskEncoding, Option<Seq<u8>>, int),
                Fault,
            >((facts_of(b).mask_encoding, entries_of(b), 34 + mask_bytes(b).len() as int))
        }),
{
    let pixels = b.width as nat * b.height as nat;
    lemma_head_len(b);
    if b.validity !is Shared {
        let field = mask_field(b);
        let f1 = bytes::le_bytes(b.mask_rows as nat, 4);
        let f2 = bytes::le_bytes(b.mask_columns as nat, 4);
        let f3 = bytes::le_bytes(field.len(), 4);
        let f4 = bytes::le_bytes(b.mask_max.bits as nat, 4);
        bytes::lemma_le_bytes_len(b.mask_rows as nat, 4);
        bytes::lemma_le_bytes_len(b.mask_columns as nat, 4);
        bytes::lemma_le_bytes_len(field.len(), 4);
        bytes::lemma_le_bytes_len(b.mask_max.bits as nat, 4);
        bytes::lemma_stands_split(blob, 34, f1 + f2 + f3 + f4, field);
        bytes::lemma_stands_split(blob, 34, f1 + f2 + f3, f4);
        bytes::lemma_stands_split(blob, 34, f1 + f2, f3);
        bytes::lemma_stands_split(blob, 34, f1, f2);
        blob_laws::lemma_number_back(blob, 34, b.mask_rows as nat);
        blob_laws::lemma_number_back(blob, 38, b.mask_columns as nat);
        blob_laws::lemma_number_back(blob, 42, field.len());
        blob_laws::lemma_number_back(blob, 46, b.mask_max.bits as nat);
        reveal_with_fuel(lerc2_header::short_field, 6);
        assert(lerc2_header::short_field(blob.len(), 34, seq![4, 4, 4, 4], 0) is None);
        match b.validity {
            Validity::Stored(entries) => {
                mask::law_mask_roundtrip(entries);
                assert(cursor::take(blob, 50, field.len() as int) == Ok::<Seq<u8>, Fault>(field));
                assert(mask::normalized(entries) =~= entries_of(b)->Some_0);
                bytes::lemma_le_bytes_len(0x8000, 2);
                assert(field.len() > 0);
            },
            Validity::Nowhere => {
                assert(allocation::repeated(0u8, pixels) =~= entries_of(b)->Some_0);
            },
            _ => {},
        }
    }
}

proof fn lemma_pixels_back(blob: Seq<u8>, b: Layout)
    requires
        bytes::stands_at(blob, 34 + mask_bytes(b).len() as int, pixel_bytes(b)),
        blob.len() <= usize::MAX,
        layout_ok(b),
    ensures
        ({
            let h = Lerc1Head {
                version: b.version,
                height: b.height,
                width: b.width,
                max_z_error: b.max_z_error,
            };
            lerc1::pixels_read(
                blob,
                h,
                facts_of(b).mask_encoding,
                entries_of(b),
                34 + mask_bytes(b).len() as int,
            ) matches Ok(parts) && parts.facts == facts_of(b) && parts_are(parts, sheet_of(b))
        }),
{
    let pos: int = 34 + mask_bytes(b).len() as int;
    let body = pieces_from(b.pieces, 0);
    let sheet = sheet_of(b);
    lemma_head_len(b);
    let stated: nat = if b.declared {
        body.len()
    } else {
        0
    };
    let f1 = bytes::le_bytes(b.nominal_y as nat, 4);
    let f2 = bytes::le_bytes(b.nominal_x as nat, 4);
    let f3 = bytes::le_bytes(stated, 4);
    let f4 = bytes::le_bytes(b.max_value.bits as nat, 4);
    bytes::lemma_le_bytes_len(b.nominal_y as nat, 4);
    bytes::lemma_le_bytes_len(b.nominal_x as nat, 4);
    bytes::lemma_le_bytes_len(stated, 4);
    bytes::lemma_le_bytes_len(b.max_value.bits as nat, 4);
    bytes::lemma_stands_split(blob, pos, f1 + f2 + f3 + f4, body);
    bytes::lemma_stands_split(blob, pos, f1 + f2 + f3, f4);
    bytes::lemma_stands_split(blob, pos, f1 + f2, f3);
    bytes::lemma_stands_split(blob, pos, f1, f2);
    blob_laws::lemma_number_back(blob, pos, b.nominal_y as nat);
    blob_laws::lemma_number_back(blob, pos + 4, b.nominal_x as nat);
    blob_laws::lemma_number_back(blob, pos + 8, stated);
    blob_laws::lemma_number_back(blob, pos + 12, b.max_value.bits as nat);
    reveal_with_fuel(lerc2_header::short_field, 6);
    assert(lerc2_header::short_field(blob.len(), pos as nat, seq![4, 4, 4, 4], 0) is None);
    lemma_body_len(sheet);
    let payload = if b.declared {
        body
    } else {
        blob.subrange(pos + 16, blob.len() as int)
    };
    assert(lerc1::section_read(blob, pos + 16, stated as u32) == Ok::<Seq<u8>, Fault>(payload));
    assert(payload.subrange(0, body.len() as int) =~= body);
    assert(0 * sheet.grid.blocks_x() == 0) by (nonlinear_arith);
    lemma_blocks_back(sheet, payload, 0, 0, seq![], 0);
    assert(blob_bytes(b).len() == pos + 16 + body.len());
}

/// There is at least one block, and its bytes.
proof fn lemma_body_len(sheet: Sheet)
    requires
        sheet.wf(),
    ensures
        sheet.pieces.len() > 0,
        pieces_from(sheet.pieces, 0).len() > 0,
{
    let (n, m) = (sheet.grid.blocks_x(), sheet.grid.blocks_y());
    assert(n * m > 0) by (nonlinear_arith)
        requires
            n > 0,
            m > 0,
    ;
    assert(piece_bytes(sheet.pieces[0]).len() > 0);
}

/// What is parsed of a blob.
proof fn lemma_parsed_back(blob: Seq<u8>, b: Layout)
    requires
        bytes::stands_at(blob, 0, blob_bytes(b)),
        blob.len() <= usize::MAX,
        layout_ok(b),
    ensures
        lerc1::source_parsed(blob, shared_of(b)) matches Ok(parts) && parts.facts == facts_of(b)
            && parts_are(parts, sheet_of(b)),
{
    lemma_head_len(b);
    bytes::lemma_stands_split(blob, 0, head_bytes(b) + mask_bytes(b), pixel_bytes(b));
    bytes::lemma_stands_split(blob, 0, head_bytes(b), mask_bytes(b));
    lemma_head_back(blob, b);
    lemma_mask_back(blob, b);
    lemma_pixels_back(blob, b);
}

/// Where pixels are counted as valid, one of them is.
proof fn lemma_some_valid(entries: Seq<u8>)
    ensures
        raster::count_valid(entries) > 0 ==> exists|p: int|
            0 <= p < entries.len() && #[trigger] entries[p] != 0,
    decreases entries.len(),
{
    if entries.len() > 0 {
        let front = entries.drop_last();
        lemma_some_valid(front);
        if raster::count_valid(front) > 0 {
            let p = choose|p: int| 0 <= p < front.len() && #[trigger] front[p] != 0;
            assert(entries[p] != 0);
        } else if raster::count_valid(entries) > 0 {
            assert(entries[entries.len() - 1] != 0);
        }
    }
}

/// Where pixels are valid, some block has one.
proof fn lemma_some_listed(b: Layout)
    requires
        layout_ok(b),
        valid_of(b) > 0,
    ensures
        exists|k: int|
            0 <= k < sheet_of(b).pieces.len() && (#[trigger] sheet_of(b).listed(k)).len() > 0,
{
    let sheet = sheet_of(b);
    let p: int = match sheet.entries {
        Some(entries) => {
            lemma_some_valid(entries);
            choose|p: int| 0 <= p < entries.len() && #[trigger] entries[p] != 0
        },
        None => 0,
    };
    lemma_body_len(sheet);
    lemma_block_place(sheet, 0);
    assert(blocks::is_valid(sheet.entries, p));
    law_blocks_cover(sheet.grid, sheet.entries, p as nat, 0, 0);
    let column = axis_block(b.width as nat, b.nominal_x as nat, (p % b.width as int) as nat);
    let row = axis_block(b.height as nat, b.nominal_y as nat, (p / b.width as int) as nat);
    law_blocks_cover(sheet.grid, sheet.entries, p as nat, column, row);
    lerc1::lemma_block_index(sheet.grid, row, column);
    let k = (row * sheet.grid.blocks_x() + column) as int;
    assert(sheet.listed(k).contains(p));
    assert(sheet.listed(k).len() > 0);
}

/// Decoding a blob gives, at every valid pixel, the value that its block was written for, and
/// zero elsewhere; the mask; the metadata; and as the range the least and the greatest value.
/// Within its block a pixel has the place that [`law_blocks_cover`] tells.
pub proof fn law_lerc1_decoded<T: Sample>(blob: Seq<u8>, b: Layout, shared: Option<Seq<u8>>, limited: bool)
    requires
        bytes::stands_at(blob, 0, blob_bytes(b)),
        blob.len() <= usize::MAX,
        layout_ok(b),
        sheet_of(b).finite(true),
        b.validity is Shared ==> shared == shared_of(b) && lerc1::source_parsed(blob, None) is Err,
        lerc1::buffer_fault(sheet_of(b).grid) is None,
        limited ==> b.width * b.height * T::kind().width()
            <= allocation::MAX_DECODED_ALLOCATION_BYTES,
    ensures
        lerc1::decoded::<T>(blob, shared, limited) matches Ok((facts, samples, entries)) && {
            let sheet = sheet_of(b);
            let n = sheet.pieces.len() as int;
            &&& entries == entries_of(b)
            &&& samples.len() == b.width * b.height
            &&& forall|k: int, i: int|
                0 <= k < n && 0 <= i < sheet.listed(k).len() ==> samples[#[trigger] sheet.listed(
                    k,
                )[i]] == T::demoted(
                    piece_value(sheet.pieces[k], i, b.max_z_error, b.max_value),
                )
            &&& forall|p: int|
                0 <= p < samples.len() && !blocks::is_valid(entries, p) ==> #[trigger] samples[p]
                    == T::zero()
            &&& facts == (BlobFacts { z_min: facts.z_min, z_max: facts.z_max, ..facts_of(b) })
            &&& valid_of(b) > 0 ==> is_range(sheet, n, true, facts.z_min, facts.z_max)
        },
{
    let sheet = sheet_of(b);
    let n = sheet.pieces.len() as int;
    let pixels = sheet.grid.pixels();
    lemma_parsed_back(blob, b);
    let parts = lerc1::parsed(blob, shared)->Ok_0;
    let blank = allocation::repeated(T::zero(), pixels);
    assert(0 * sheet.grid.blocks_x() == 0) by (nonlinear_arith);
    assert(b.width * b.height * T::kind().width() == pixels * T::kind().width());
    lemma_written_back::<T>(parts, sheet, 0, 0, 0, blank, lerc1::top(), lerc1::bottom());
    let (samples, low, high) = lerc1::blocks_written(
        parts,
        0,
        0,
        0,
        blank,
        lerc1::top(),
        lerc1::bottom(),
    )->Ok_0;
    if valid_of(b) > 0 {
        lemma_some_listed(b);
        assert(is_range(sheet, n, true, low, high));
        lemma_range_finite(sheet, n, true, low, high);
    }
}

proof fn lemma_range_finite(sheet: Sheet, n: int, rounded: bool, low: Double, high: Double)
    requires
        n == sheet.pieces.len(),
        sheet.finite(rounded),
        is_range(sheet, n, rounded, low, high),
    ensures
        low.finite(),
        high.finite(),
{
    let (j, i) = choose|j: int, i: int|
        0 <= j < n && 0 <= i < sheet.listed(j).len() && #[trigger] sheet.value(j, i, rounded)
            == low;
    assert(sheet.value(j, i, rounded).finite());
    let (c, d) = choose|j: int, i: int|
        0 <= j < n && 0 <= i < sheet.listed(j).len() && #[trigger] sheet.value(j, i, rounded)
            == high;
    assert(sheet.value(c, d, rounded).finite());
}

/// Inspecting a blob gives its mask and metadata, and, where asked for, the least and the
/// greatest of the numbers that its blocks stand for.
pub proof fn law_lerc1_inspected(blob: Seq<u8>, b: Layout, shared: Option<Seq<u8>>, with_range: bool)
    requires
        bytes::stands_at(blob, 0, blob_bytes(b)),
        blob.len() <= usize::MAX,
        layout_ok(b),
        sheet_of(b).finite(false),
        b.validity is Shared ==> shared == shared_of(b) && lerc1::source_parsed(blob, None) is Err,
        lerc1::buffer_fault(sheet_of(b).grid) is None,
    ensures
        lerc1::inspected(blob, shared, with_range) matches Ok((facts, entries)) && {
            let sheet = sheet_of(b);
            &&& entries == entries_of(b)
            &&& facts == (BlobFacts { z_min: facts.z_min, z_max: facts.z_max, ..facts_of(b) })
            &&& if with_range && valid_of(b) > 0 {
                is_range(sheet, sheet.pieces.len() as int, false, facts.z_min, facts.z_max)
            } else {
                facts == facts_of(b)
            }
        },
{
    let sheet = sheet_of(b);
    let n = sheet.pieces.len() as int;
    lemma_parsed_back(blob, b);
    let parts = lerc1::parsed(blob, shared)->Ok_0;
    assert(0 * sheet.grid.blocks_x() == 0) by (nonlinear_arith);
    if with_range && valid_of(b) > 0 {
        lemma_scanned_back(parts, sheet, 0, 0, 0, lerc1::top(), lerc1::bottom());
        let (low, high) = lerc1::blocks_scanned(parts, 0, 0, 0, lerc1::top(), lerc1::bottom())->Ok_0;
        lemma_some_listed(b);
        assert(is_range(sheet, n, false, low, high));
        lemma_range_finite(sheet, n, false, low, high);
    }
}

} // verus!
