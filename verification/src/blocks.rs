//! Rectangular blocks of a raster and the valid pixels inside them.

use crate::raster;
use crate::sample::Sample;
use vstd::prelude::*;

verus! {

/// Whether a pixel is valid; without a mask every pixel is.
pub open spec fn is_valid(mask: Option<Seq<u8>>, pixel: int) -> bool {
    match mask {
        Some(entries) => entries[pixel] != 0,
        None => true,
    }
}

/// The contents of an optional mask.
pub open spec fn mask_seq(mask: Option<&[u8]>) -> Option<Seq<u8>> {
    match mask {
        Some(entries) => Some(entries@),
        None => None,
    }
}

/// Whether a mask, if there is one, has an entry for each pixel.
pub open spec fn mask_fits(mask: Option<Seq<u8>>, pixels: nat) -> bool {
    match mask {
        Some(entries) => entries.len() == pixels,
        None => true,
    }
}

/// The valid pixels among `start..start + count`, in order.
pub open spec fn run_pixels(mask: Option<Seq<u8>>, start: int, count: nat) -> Seq<int>
    decreases count,
{
    if count == 0 {
        seq![]
    } else {
        let before = run_pixels(mask, start, (count - 1) as nat);
        let pixel = start + count - 1;
        if is_valid(mask, pixel) {
            before.push(pixel)
        } else {
            before
        }
    }
}

/// The valid pixels of a block, row by row.
pub open spec fn block_pixels(
    mask: Option<Seq<u8>>,
    width: int,
    x: int,
    y: int,
    cols: nat,
    rows: nat,
) -> Seq<int>
    decreases rows,
{
    if rows == 0 {
        seq![]
    } else {
        block_pixels(mask, width, x, y, cols, (rows - 1) as nat) + run_pixels(
            mask,
            (y + rows - 1) * width + x,
            cols,
        )
    }
}

/// Every listed pixel of a run lies in it and is valid; the list ascends.
pub proof fn lemma_run_pixels(mask: Option<Seq<u8>>, start: int, count: nat)
    ensures
        run_pixels(mask, start, count).len() <= count,
        forall|i: int|
            #![trigger run_pixels(mask, start, count)[i]]
            0 <= i < run_pixels(mask, start, count).len() ==> start <= run_pixels(
                mask,
                start,
                count,
            )[i] < start + count && is_valid(mask, run_pixels(mask, start, count)[i]),
        forall|i: int, j: int|
            #![trigger run_pixels(mask, start, count)[i], run_pixels(mask, start, count)[j]]
            0 <= i < j < run_pixels(mask, start, count).len() ==> run_pixels(
                mask,
                start,
                count,
            )[i] < run_pixels(mask, start, count)[j],
    decreases count,
{
    if count > 0 {
        lemma_run_pixels(mask, start, (count - 1) as nat);
    }
}

/// Without a mask a run lists every pixel.
pub proof fn lemma_run_all(start: int, count: nat)
    ensures
        run_pixels(None, start, count) == Seq::new(count, |i: int| start + i),
    decreases count,
{
    if count > 0 {
        lemma_run_all(start, (count - 1) as nat);
    }
    assert(run_pixels(None, start, count) =~= Seq::new(count, |i: int| start + i));
}

/// A run splits anywhere.
pub proof fn lemma_run_split(mask: Option<Seq<u8>>, start: int, first: nat, second: nat)
    ensures
        run_pixels(mask, start, first + second) == run_pixels(mask, start, first) + run_pixels(
            mask,
            start + first,
            second,
        ),
    decreases second,
{
    if second == 0 {
        assert(run_pixels(mask, start, first) =~= run_pixels(mask, start, first) + run_pixels(
            mask,
            start + first,
            0,
        ));
    } else {
        lemma_run_split(mask, start, first, (second - 1) as nat);
        assert(run_pixels(mask, start, first + second) =~= run_pixels(mask, start, first)
            + run_pixels(mask, start + first, second));
    }
}

/// A run over a whole mask has as many pixels as the mask has valid entries.
pub proof fn lemma_run_count(mask: Seq<u8>, count: nat)
    requires
        count <= mask.len(),
    ensures
        run_pixels(Some(mask), 0, count).len() == raster::count_valid(
            mask.subrange(0, count as int),
        ),
    decreases count,
{
    if count > 0 {
        lemma_run_count(mask, (count - 1) as nat);
        assert(mask.subrange(0, count as int).drop_last() =~= mask.subrange(0, count - 1));
    }
}

/// The pixels of a block that lies inside the raster.
pub proof fn lemma_block_pixels(
    mask: Option<Seq<u8>>,
    width: nat,
    height: nat,
    x: nat,
    y: nat,
    cols: nat,
    rows: nat,
)
    requires
        x + cols <= width,
        y + rows <= height,
    ensures
        block_pixels(mask, width as int, x as int, y as int, cols, rows).len() <= cols * rows,
        forall|i: int|
            #![trigger block_pixels(mask, width as int, x as int, y as int, cols, rows)[i]]
            0 <= i < block_pixels(mask, width as int, x as int, y as int, cols, rows).len() ==> 0
                <= y * width <= block_pixels(mask, width as int, x as int, y as int, cols, rows)[i]
                < (y + rows) * width <= width * height && is_valid(
                mask,
                block_pixels(mask, width as int, x as int, y as int, cols, rows)[i],
            ),
        forall|i: int, j: int|
            #![trigger block_pixels(mask, width as int, x as int, y as int, cols, rows)[i], block_pixels(mask, width as int, x as int, y as int, cols, rows)[j]]
            0 <= i < j < block_pixels(mask, width as int, x as int, y as int, cols, rows).len()
                ==> block_pixels(mask, width as int, x as int, y as int, cols, rows)[i]
                < block_pixels(mask, width as int, x as int, y as int, cols, rows)[j],
    decreases rows,
{
    assert(0 <= y * width) by (nonlinear_arith);
    assert((y + rows) * width <= width * height) by (nonlinear_arith)
        requires
            y + rows <= height,
    ;
    if rows == 0 {
        assert(cols * 0 == 0) by (nonlinear_arith);
    } else {
        let r1 = (rows - 1) as nat;
        lemma_block_pixels(mask, width, height, x, y, cols, r1);
        let start = (y + rows - 1) * width + x;
        lemma_run_pixels(mask, start, cols);
        assert(cols * rows == cols * r1 + cols) by (nonlinear_arith)
            requires
                r1 == rows - 1,
        ;
        assert((y + rows) * width == (y + r1) * width + width) by (nonlinear_arith)
            requires
                r1 == rows - 1,
        ;
        assert((y + r1) * width >= y * width) by (nonlinear_arith);
    }
}

/// The first pixels of rows `y..` of a full-width block are a run.
pub proof fn lemma_block_full_width(mask: Option<Seq<u8>>, width: nat, y: nat, rows: nat)
    ensures
        block_pixels(mask, width as int, 0, y as int, width, rows) == run_pixels(
            mask,
            (y * width) as int,
            rows * width,
        ),
    decreases rows,
{
    if rows == 0 {
        assert(0 * width == 0) by (nonlinear_arith);
    } else {
        let r1 = (rows - 1) as nat;
        lemma_block_full_width(mask, width, y, r1);
        lemma_run_split(mask, (y * width) as int, r1 * width, width);
        assert(r1 * width + width == rows * width && y * width + r1 * width == (y + rows - 1)
            * width) by (nonlinear_arith)
            requires
                r1 == rows - 1,
        ;
    }
}

/// Whether the pixel is valid.
pub fn pixel_is_valid(mask: Option<&[u8]>, pixel: usize) -> (r: bool)
    requires
        mask_seq(mask) matches Some(entries) ==> pixel < entries.len(),
    ensures
        r == is_valid(mask_seq(mask), pixel as int),
{
    match mask {
        Some(entries) => entries[pixel] != 0,
        None => true,
    }
}

/// Lists the valid pixels of a block.
pub fn list_block(
    mask: Option<&[u8]>,
    width: usize,
    height: usize,
    x: usize,
    y: usize,
    cols: usize,
    rows: usize,
) -> (r: Vec<usize>)
    requires
        x + cols <= width,
        y + rows <= height,
        width * height <= usize::MAX,
        mask_fits(mask_seq(mask), (width * height) as nat),
    ensures
        r@.map_values(|p: usize| p as int) == block_pixels(
            mask_seq(mask),
            width as int,
            x as int,
            y as int,
            cols as nat,
            rows as nat,
        ),
{
    let ghost entries = mask_seq(mask);
    let mut list: Vec<usize> = Vec::new();
    let mut row: usize = 0;
    while row < rows
        invariant
            row <= rows,
            x + cols <= width,
            y + rows <= height,
            width * height <= usize::MAX,
            entries == mask_seq(mask),
            mask_fits(entries, (width * height) as nat),
            list@.map_values(|p: usize| p as int) =~= block_pixels(
                entries,
                width as int,
                x as int,
                y as int,
                cols as nat,
                row as nat,
            ),
        decreases rows - row,
    {
        proof {
            assert((y + row) * width + width <= width * height) by (nonlinear_arith)
                requires
                    y + row + 1 <= height,
            ;
            assert(0 <= (y + row) * width) by (nonlinear_arith);
        }
        let start: usize = (y + row) * width + x;
        let ghost before = list@.map_values(|p: usize| p as int);
        let mut col: usize = 0;
        while col < cols
            invariant
                col <= cols,
                start + cols <= width * height,
                width * height <= usize::MAX,
                entries == mask_seq(mask),
                mask_fits(entries, (width * height) as nat),
                list@.map_values(|p: usize| p as int) =~= before + run_pixels(
                    entries,
                    start as int,
                    col as nat,
                ),
            decreases cols - col,
        {
            let pixel: usize = start + col;
            let ghost so_far = list@.map_values(|p: usize| p as int);
            if pixel_is_valid(mask, pixel) {
                list.push(pixel);
                proof {
                    assert(list@.map_values(|p: usize| p as int) =~= so_far.push(pixel as int));
                }
            }
            col += 1;
        }
        row += 1;
    }
    list
}

/// Lists the valid pixels among the first `count`.
pub fn list_run(mask: Option<&[u8]>, count: usize) -> (r: Vec<usize>)
    requires
        mask_fits(mask_seq(mask), count as nat),
    ensures
        r@.map_values(|p: usize| p as int) == run_pixels(mask_seq(mask), 0, count as nat),
{
    let ghost entries = mask_seq(mask);
    let mut list: Vec<usize> = Vec::new();
    let mut pixel: usize = 0;
    while pixel < count
        invariant
            pixel <= count,
            entries == mask_seq(mask),
            mask_fits(entries, count as nat),
            list@.map_values(|p: usize| p as int) =~= run_pixels(entries, 0, pixel as nat),
        decreases count - pixel,
    {
        if pixel_is_valid(mask, pixel) {
            list.push(pixel);
        }
        pixel += 1;
    }
    list
}

/// Counts valid mask entries in a rectangular row-major block.
pub fn count_valid_in_block(
    mask: &[u8],
    width: usize,
    x0: usize,
    y0: usize,
    block_width: usize,
    block_height: usize,
) -> (r: usize)
    requires
        x0 + block_width <= width,
        (y0 + block_height) * width <= mask@.len(),
    ensures
        r == block_pixels(
            Some(mask@),
            width as int,
            x0 as int,
            y0 as int,
            block_width as nat,
            block_height as nat,
        ).len(),
{
    let len: usize = mask.len();
    let mut count: usize = 0;
    let mut row: usize = 0;
    while row < block_height
        invariant
            row <= block_height,
            len == mask@.len(),
            x0 + block_width <= width,
            (y0 + block_height) * width <= len,
            count == block_pixels(
                Some(mask@),
                width as int,
                x0 as int,
                y0 as int,
                block_width as nat,
                row as nat,
            ).len(),
            count <= row * width,
        decreases block_height - row,
    {
        proof {
            assert((y0 + row) * width + width <= (y0 + block_height) * width && 0 <= (y0 + row)
                * width && row * width + width <= (y0 + block_height) * width && (row + 1) * width
                == row * width + width) by (nonlinear_arith)
                requires
                    0 <= y0,
                    row + 1 <= block_height,
            ;
            if width > 0 {
                assert(y0 + row <= (y0 + row) * width) by (nonlinear_arith)
                    requires
                        width >= 1,
                ;
            } else {
                lemma_run_pixels(Some(mask@), (y0 + row) * width + x0, 0);
            }
        }
        if width == 0 {
            row += 1;
            continue ;
        }
        let start: usize = (y0 + row) * width + x0;
        let ghost before = count;
        let mut col: usize = 0;
        while col < block_width
            invariant
                col <= block_width,
                len == mask@.len(),
                start + block_width <= len,
                count == before + run_pixels(Some(mask@), start as int, col as nat).len(),
                count <= before + col,
                before + block_width <= len,
            decreases block_width - col,
        {
            if mask[start + col] != 0 {
                count += 1;
            }
            col += 1;
        }
        row += 1;
    }
    count
}

/// The samples with `values[i]` written to depth `dim` of the `i`-th listed pixel, for the
/// first `n` pixels.
pub open spec fn scattered<T>(
    samples: Seq<T>,
    pixels: Seq<int>,
    values: Seq<T>,
    depth: int,
    dim: int,
    n: nat,
) -> Seq<T>
    decreases n,
{
    if n == 0 {
        samples
    } else {
        scattered(samples, pixels, values, depth, dim, (n - 1) as nat).update(
            pixels[n - 1] * depth + dim,
            values[n - 1],
        )
    }
}

pub proof fn lemma_scattered_len<T>(
    samples: Seq<T>,
    pixels: Seq<int>,
    values: Seq<T>,
    depth: int,
    dim: int,
    n: nat,
)
    requires
        forall|i: int|
            0 <= i < n ==> 0 <= #[trigger] pixels[i] * depth + dim < samples.len(),
    ensures
        scattered(samples, pixels, values, depth, dim, n).len() == samples.len(),
    decreases n,
{
    if n > 0 {
        lemma_scattered_len(samples, pixels, values, depth, dim, (n - 1) as nat);
    }
}

/// Writes one value per listed pixel.
pub fn scatter<T: Sample>(
    samples: &mut Vec<T>,
    pixels: &Vec<usize>,
    values: &Vec<T>,
    depth: usize,
    dim: usize,
    total: usize,
)
    requires
        dim < depth,
        values@.len() == pixels@.len(),
        old(samples)@.len() == total * depth,
        forall|i: int| 0 <= i < pixels@.len() ==> #[trigger] pixels@[i] < total,
    ensures
        final(samples)@.len() == old(samples)@.len(),
        final(samples)@ == scattered(
            old(samples)@,
            pixels@.map_values(|p: usize| p as int),
            values@,
            depth as int,
            dim as int,
            pixels@.len(),
        ),
{
    let ghost list = pixels@.map_values(|p: usize| p as int);
    let ghost start = samples@;
    let len: usize = samples.len();
    let mut i: usize = 0;
    while i < pixels.len()
        invariant
            i <= pixels@.len(),
            dim < depth,
            len == total * depth,
            samples@.len() == len,
            values@.len() == pixels@.len(),
            list == pixels@.map_values(|p: usize| p as int),
            forall|j: int| 0 <= j < pixels@.len() ==> #[trigger] pixels@[j] < total,
            samples@ == scattered(start, list, values@, depth as int, dim as int, i as nat),
        decreases pixels@.len() - i,
    {
        let pixel: usize = pixels[i];
        proof {
            raster::lemma_sample_index(pixel as nat, depth as nat, dim as nat, total as nat);
        }
        let index: usize = raster::sample_index(pixel, depth, dim);
        samples.set(index, values[i]);
        i += 1;
    }
}

} // verus!
