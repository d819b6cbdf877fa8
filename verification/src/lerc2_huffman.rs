//! Huffman-coded bodies: 8-bit samples, each a symbol of its own or the difference from a
//! neighbour.

use crate::blocks;
use crate::blocks::{list_run, pixel_is_valid};
use crate::cursor::Cursor;
use crate::error::{Fault, Result};
use crate::float;
use crate::float::Double;
use crate::huffman;
use crate::huffman::{read_huffman_tree, CodeEntry, HuffmanInfo, HuffmanStream, HuffmanTable};
use crate::lerc2_header::Lerc2Header;
use crate::raster;
use crate::sample::Sample;
use crate::types::DataType;
use vstd::prelude::*;

verus! {

/// An 8-bit sample as an integer.
pub open spec fn sample_int<T: Sample>(sample: T) -> int {
    sample.promoted().cast(-128, 255)
}

/// The sample that an integer stands for.
pub open spec fn int_sample<T: Sample>(value: int) -> T {
    T::demoted(float::double_of_int(value))
}

/// The number that a symbol stands for; signed samples count from -128.
pub open spec fn symbol_value(signed: bool, symbol: u32) -> int {
    if signed {
        symbol - 128
    } else {
        symbol as int
    }
}

/// A number taken modulo 256 into the range of the samples.
pub open spec fn wrapped(signed: bool, value: int) -> int {
    let low = value % 256;
    if signed && low >= 128 {
        low - 256
    } else {
        low
    }
}

/// What a difference is added to: the sample to the left where that is valid, else the one
/// above where that is valid, else the last one read.
pub open spec fn predictor<T: Sample>(
    mask: Option<Seq<u8>>,
    width: int,
    depth: int,
    dim: int,
    pixel: int,
    last: int,
    samples: Seq<T>,
) -> int {
    if pixel % width > 0 && blocks::is_valid(mask, pixel - 1) {
        last
    } else if pixel >= width && blocks::is_valid(mask, pixel - width) {
        sample_int(samples[(pixel - width) * depth + dim])
    } else {
        last
    }
}

/// The outcome of reading differences from the `i`-th listed pixel of depth `dim` on.
pub open spec fn deltas_read<T: Sample>(
    entries: Seq<CodeEntry>,
    words: Seq<u32>,
    mask: Option<Seq<u8>>,
    width: int,
    depth: int,
    signed: bool,
    list: Seq<int>,
    dim: nat,
    i: nat,
    last: int,
    samples: Seq<T>,
    p: nat,
) -> std::result::Result<(Seq<T>, nat), Fault>
    decreases depth - dim, list.len() - i,
{
    if dim >= depth {
        Ok((samples, p))
    } else if i >= list.len() {
        deltas_read(
            entries,
            words,
            mask,
            width,
            depth,
            signed,
            list,
            dim + 1,
            0,
            0,
            samples,
            p,
        )
    } else {
        let pixel = list[i as int];
        match huffman::symbol_read(entries, words, p) {
            Err(e) => Err(e),
            Ok((symbol, next)) => {
                let value = wrapped(
                    signed,
                    symbol_value(signed, symbol) + predictor(
                        mask,
                        width,
                        depth,
                        dim as int,
                        pixel,
                        last,
                        samples,
                    ),
                );
                deltas_read(
                    entries,
                    words,
                    mask,
                    width,
                    depth,
                    signed,
                    list,
                    dim,
                    i + 1,
                    value,
                    samples.update(pixel * depth + dim, int_sample(value)),
                    next,
                )
            },
        }
    }
}

/// The outcome of reading plain symbols from depth `dim` of the `i`-th listed pixel on.
pub open spec fn symbols_read<T: Sample>(
    entries: Seq<CodeEntry>,
    words: Seq<u32>,
    depth: int,
    signed: bool,
    list: Seq<int>,
    i: nat,
    dim: nat,
    samples: Seq<T>,
    p: nat,
) -> std::result::Result<(Seq<T>, nat), Fault>
    decreases list.len() - i, depth - dim,
{
    if i >= list.len() {
        Ok((samples, p))
    } else if dim >= depth {
        symbols_read(entries, words, depth, signed, list, i + 1, 0, samples, p)
    } else {
        match huffman::symbol_read(entries, words, p) {
            Err(e) => Err(e),
            Ok((symbol, next)) => symbols_read(
                entries,
                words,
                depth,
                signed,
                list,
                i,
                dim + 1,
                samples.update(
                    list[i as int] * depth + dim,
                    int_sample(symbol_value(signed, symbol)),
                ),
                next,
            ),
        }
    }
}

/// The outcome of reading a Huffman-coded body.
pub open spec fn huffman_read<T: Sample>(
    h: Lerc2Header,
    mask: Option<Seq<u8>>,
    all: Seq<u8>,
    pos: int,
    delta: bool,
    samples: Seq<T>,
) -> std::result::Result<Seq<T>, Fault> {
    let list = blocks::run_pixels(mask, 0, h.pixels());
    let signed = h.data_type == DataType::I8;
    match huffman::tree_read(all, pos, h.version) {
        Err(e) => Err(e),
        Ok((entries, words, start)) => {
            let outcome = if delta {
                deltas_read(
                    entries,
                    words,
                    mask,
                    h.width as int,
                    h.depth as int,
                    signed,
                    list,
                    0,
                    0,
                    0,
                    samples,
                    start,
                )
            } else {
                symbols_read(
                    entries,
                    words,
                    h.depth as int,
                    signed,
                    list,
                    0,
                    0,
                    samples,
                    start,
                )
            };
            match outcome {
                Err(e) => Err(e),
                Ok((read, _)) => Ok(read),
            }
        },
    }
}

/// A sample as an integer.
pub fn sample_to_int<T: Sample>(sample: T) -> (r: i32)
    ensures
        r == sample_int(sample),
        -128 <= r <= 255,
{
    sample.to_f64().to_integer(-128, 255) as i32
}

fn int_to_sample<T: Sample>(value: i32) -> (r: T)
    ensures
        r == int_sample::<T>(value as int),
{
    T::from_f64(Double::from_integer(value as i64))
}

fn value_of_symbol(signed: bool, symbol: u32) -> (r: i32)
    requires
        symbol < 256,
    ensures
        r == symbol_value(signed, symbol),
        -128 <= r <= 255,
{
    if signed {
        symbol as i32 - 128
    } else {
        symbol as i32
    }
}

fn wrap(signed: bool, value: i32) -> (r: i32)
    requires
        -1024 <= value <= 1024,
    ensures
        r == wrapped(signed, value as int),
        -128 <= r <= 255,
{
    let low: i32 = (value + 1024) % 256;
    if signed && low >= 128 {
        low - 256
    } else {
        low
    }
}

/// The predictor of a pixel.
pub fn predict<T: Sample>(
    mask: Option<&[u8]>,
    width: usize,
    depth: usize,
    dim: usize,
    pixel: usize,
    last: i32,
    samples: &Vec<T>,
    total: usize,
) -> (r: i32)
    requires
        0 < width,
        dim < depth,
        pixel < total,
        samples@.len() == total * depth,
        blocks::mask_fits(blocks::mask_seq(mask), total as nat),
        -128 <= last <= 255,
    ensures
        r == predictor(
            blocks::mask_seq(mask),
            width as int,
            depth as int,
            dim as int,
            pixel as int,
            last as int,
            samples@,
        ),
        -128 <= r <= 255,
{
    proof {
        if pixel == 0 {
            vstd::arithmetic::div_mod::lemma_small_mod(0, width as nat);
        }
    }
    if pixel % width > 0 && pixel_is_valid(mask, pixel - 1) {
        last
    } else if pixel >= width && pixel_is_valid(mask, pixel - width) {
        proof {
            raster::lemma_sample_index(
                (pixel - width) as nat,
                depth as nat,
                dim as nat,
                total as nat,
            );
        }
        let _len: usize = samples.len();
        sample_to_int(samples[raster::sample_index(pixel - width, depth, dim)])
    } else {
        last
    }
}

fn read_deltas<T: Sample>(
    table: &HuffmanTable,
    stream: &mut HuffmanStream,
    mask: Option<&[u8]>,
    width: usize,
    depth: usize,
    signed: bool,
    total: usize,
    samples: &mut Vec<T>,
) -> (r: Result<()>)
    requires
        table.wf(),
        table.codes().len() <= 256,
        old(stream).wf(),
        0 < width,
        old(samples)@.len() == total * depth,
        blocks::mask_fits(blocks::mask_seq(mask), total as nat),
    ensures
        final(samples)@.len() == old(samples)@.len(),
        ({
            let whole = deltas_read(
                table.codes(),
                old(stream).all(),
                blocks::mask_seq(mask),
                width as int,
                depth as int,
                signed,
                blocks::run_pixels(blocks::mask_seq(mask), 0, total as nat),
                0,
                0,
                0,
                old(samples)@,
                old(stream).at(),
            );
            match r {
                Ok(_) => whole == Ok::<_, Fault>((final(samples)@, final(stream).at())),
                Err(e) => whole == Err::<(Seq<T>, nat), _>(e@),
            }
        }),
{
    let pixels: Vec<usize> = list_run(mask, total);
    let len: usize = samples.len();
    let ghost entries = blocks::mask_seq(mask);
    let ghost list = blocks::run_pixels(entries, 0, total as nat);
    let ghost words = stream.all();
    let ghost whole = deltas_read(
        table.codes(),
        words,
        entries,
        width as int,
        depth as int,
        signed,
        list,
        0,
        0,
        0,
        samples@,
        stream.at(),
    );
    proof {
        blocks::lemma_run_pixels(entries, 0, total as nat);
    }
    let mut dim: usize = 0;
    let mut i: usize = 0;
    let mut last: i32 = 0;
    while dim < depth
        invariant
            table.wf(),
            table.codes().len() <= 256,
            stream.wf(),
            stream.all() == words,
            0 < width,
            len == total * depth,
            samples@.len() == len,
            old(samples)@.len() == len,
            entries == blocks::mask_seq(mask),
            blocks::mask_fits(entries, total as nat),
            list == pixels@.map_values(|p: usize| p as int),
            list.len() == pixels@.len(),
            forall|j: int| 0 <= j < list.len() ==> 0 <= #[trigger] list[j] < total,
            list == blocks::run_pixels(blocks::mask_seq(mask), 0, total as nat),
            words == old(stream).all(),
            whole == deltas_read(
                table.codes(),
                words,
                entries,
                width as int,
                depth as int,
                signed,
                list,
                0,
                0,
                0,
                old(samples)@,
                old(stream).at(),
            ),
            dim <= depth,
            i <= pixels@.len(),
            -128 <= last <= 255,
            whole == deltas_read(
                table.codes(),
                words,
                entries,
                width as int,
                depth as int,
                signed,
                list,
                dim as nat,
                i as nat,
                last as int,
                samples@,
                stream.at(),
            ),
        decreases depth - dim, pixels@.len() - i,
    {
        if i >= pixels.len() {
            dim += 1;
            i = 0;
            last = 0;
        } else {
            let pixel: usize = pixels[i];
            proof {
                assert(list[i as int] == pixel);
                raster::lemma_sample_index(pixel as nat, depth as nat, dim as nat, total as nat);
            }
            let base: i32 = predict(mask, width, depth, dim, pixel, last, samples, total);
            let symbol: u32 = table.read_symbol(stream)?;
            let value: i32 = wrap(signed, value_of_symbol(signed, symbol) + base);
            samples.set(raster::sample_index(pixel, depth, dim), int_to_sample(value));
            last = value;
            i += 1;
        }
    }
    Ok(())
}

fn read_symbols<T: Sample>(
    table: &HuffmanTable,
    stream: &mut HuffmanStream,
    mask: Option<&[u8]>,
    depth: usize,
    signed: bool,
    total: usize,
    samples: &mut Vec<T>,
) -> (r: Result<()>)
    requires
        table.wf(),
        table.codes().len() <= 256,
        old(stream).wf(),
        old(samples)@.len() == total * depth,
        blocks::mask_fits(blocks::mask_seq(mask), total as nat),
    ensures
        final(samples)@.len() == old(samples)@.len(),
        ({
            let whole = symbols_read(
                table.codes(),
                old(stream).all(),
                depth as int,
                signed,
                blocks::run_pixels(blocks::mask_seq(mask), 0, total as nat),
                0,
                0,
                old(samples)@,
                old(stream).at(),
            );
            match r {
                Ok(_) => whole == Ok::<_, Fault>((final(samples)@, final(stream).at())),
                Err(e) => whole == Err::<(Seq<T>, nat), _>(e@),
            }
        }),
{
    let pixels: Vec<usize> = list_run(mask, total);
    let len: usize = samples.len();
    let ghost list = blocks::run_pixels(blocks::mask_seq(mask), 0, total as nat);
    let ghost words = stream.all();
    let ghost whole = symbols_read(
        table.codes(),
        words,
        depth as int,
        signed,
        list,
        0,
        0,
        samples@,
        stream.at(),
    );
    proof {
        blocks::lemma_run_pixels(blocks::mask_seq(mask), 0, total as nat);
    }
    let mut dim: usize = 0;
    let mut i: usize = 0;
    while i < pixels.len()
        invariant
            table.wf(),
            table.codes().len() <= 256,
            stream.wf(),
            stream.all() == words,
            len == total * depth,
            samples@.len() == len,
            old(samples)@.len() == len,
            list == pixels@.map_values(|p: usize| p as int),
            list.len() == pixels@.len(),
            forall|j: int| 0 <= j < list.len() ==> 0 <= #[trigger] list[j] < total,
            list == blocks::run_pixels(blocks::mask_seq(mask), 0, total as nat),
            words == old(stream).all(),
            whole == symbols_read(
                table.codes(),
                words,
                depth as int,
                signed,
                list,
                0,
                0,
                old(samples)@,
                old(stream).at(),
            ),
            dim <= depth,
            i <= pixels@.len(),
            whole == symbols_read(
                table.codes(),
                words,
                depth as int,
                signed,
                list,
                i as nat,
                dim as nat,
                samples@,
                stream.at(),
            ),
        decreases pixels@.len() - i, depth - dim,
    {
        if dim >= depth {
            i += 1;
            dim = 0;
        } else {
            let pixel: usize = pixels[i];
            proof {
                assert(list[i as int] == pixel);
                raster::lemma_sample_index(pixel as nat, depth as nat, dim as nat, total as nat);
            }
            let symbol: u32 = table.read_symbol(stream)?;
            let value: i32 = value_of_symbol(signed, symbol);
            samples.set(raster::sample_index(pixel, depth, dim), int_to_sample(value));
            dim += 1;
        }
    }
    Ok(())
}

/// Reads a Huffman-coded body. It reaches to the end of the blob.
pub fn decode_huffman<T: Sample>(
    cursor: &mut Cursor,
    h: &Lerc2Header,
    mask: Option<&[u8]>,
    delta: bool,
    samples: &mut Vec<T>,
) -> (r: Result<()>)
    requires
        old(cursor).wf(),
        old(cursor).all().len() <= 0x7fff_ffff,
        h.wf(),
        blocks::mask_fits(blocks::mask_seq(mask), h.pixels()),
        old(samples)@.len() == h.pixels() * h.depth,
    ensures
        final(cursor).wf(),
        final(cursor).all() == old(cursor).all(),
        final(samples)@.len() == old(samples)@.len(),
        match r {
            Ok(_) => {
                &&& huffman_read(
                    *h,
                    blocks::mask_seq(mask),
                    old(cursor).all(),
                    old(cursor).at(),
                    delta,
                    old(samples)@,
                ) == Ok::<_, Fault>(final(samples)@)
                &&& final(cursor).at() == final(cursor).all().len()
            },
            Err(e) => {
                &&& huffman_read(
                    *h,
                    blocks::mask_seq(mask),
                    old(cursor).all(),
                    old(cursor).at(),
                    delta,
                    old(samples)@,
                ) == Err::<Seq<T>, _>(e@)
                &&& final(cursor).at() == if huffman::tree_read(
                    old(cursor).all(),
                    old(cursor).at(),
                    h.version,
                ) is Err {
                    huffman::tree_stop(old(cursor).all(), old(cursor).at(), h.version)
                } else {
                    old(cursor).all().len() as int
                }
            },
        },
{
    let info: HuffmanInfo = read_huffman_tree(cursor, h.version)?;
    let total: usize = h.width as usize * h.height as usize;
    let signed = h.data_type == DataType::I8;
    let mut stream = HuffmanStream::new(info.words.as_slice(), info.start);
    proof {
        info.table.lemma_wf();
    }
    if delta {
        read_deltas(
            &info.table,
            &mut stream,
            mask,
            h.width as usize,
            h.depth as usize,
            signed,
            total,
            samples,
        )
    } else {
        read_symbols(
            &info.table,
            &mut stream,
            mask,
            h.depth as usize,
            signed,
            total,
            samples,
        )
    }
}

} // verus!
