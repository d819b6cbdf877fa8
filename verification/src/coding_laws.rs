//! What the symbols of a Huffman-coded body stand for.

use crate::bit_laws;
use crate::bitpack;
use crate::bitstream;
use crate::blob_laws;
use crate::blocks;
use crate::bytes;
use crate::error::Fault;
use crate::float;
use crate::huffman;
use crate::huffman::CodeEntry;
use crate::huffman_writer;
use crate::lerc2_header::Lerc2Header;
use crate::lerc2_huffman;
use crate::raster;
use crate::sample::Sample;
use crate::stuffed;
use crate::table_laws;
use crate::tiling_laws;
use crate::types::DataType;
use vstd::arithmetic::power2::{lemma2_to64, pow2};
use vstd::prelude::*;

verus! {

/// Whether the codes in some words from bit `p` on are those of some symbols; `ends` tells where
/// each begins and where the last ends.
pub open spec fn symbols_stand(
    entries: Seq<CodeEntry>,
    words: Seq<u32>,
    p: nat,
    symbols: Seq<u32>,
    ends: Seq<nat>,
) -> bool {
    &&& ends.len() == symbols.len() + 1
    &&& ends[0] == p
    &&& forall|k: int|
        0 <= k < symbols.len() ==> #[trigger] symbols[k] < 256 && huffman::symbol_read(
            entries,
            words,
            ends[k],
        ) == Ok::<(u32, nat), Fault>((symbols[k], ends[k + 1]))
}

/// The number of a symbol: signed samples count from -128.
pub open spec fn symbol_number(data_type: DataType, symbol: u32) -> int {
    if data_type == DataType::I8 {
        symbol - 128
    } else {
        symbol as int
    }
}

/// What a difference is taken from: the sample to the left where that is valid, else the one
/// above where that is valid, else the valid one before, else zero.
pub open spec fn neighbour<T: Sample>(
    mask: Option<Seq<u8>>,
    width: int,
    depth: int,
    list: Seq<int>,
    samples: Seq<T>,
    d: int,
    i: int,
) -> int {
    let p = list[i];
    if p % width > 0 && blocks::is_valid(mask, p - 1) {
        tiling_laws::cell(samples, depth, p - 1, d).number()
    } else if p >= width && blocks::is_valid(mask, p - width) {
        tiling_laws::cell(samples, depth, p - width, d).number()
    } else if i > 0 {
        tiling_laws::cell(samples, depth, list[i - 1], d).number()
    } else {
        0
    }
}

/// Whether a sample differs from its neighbour by the number of a symbol, modulo 256.
pub open spec fn differs_by<T: Sample>(
    mask: Option<Seq<u8>>,
    width: int,
    depth: int,
    list: Seq<int>,
    samples: Seq<T>,
    d: int,
    i: int,
    symbol: u32,
) -> bool {
    (tiling_laws::cell(samples, depth, list[i], d).number() - neighbour(
        mask,
        width,
        depth,
        list,
        samples,
        d,
        i,
    ) - symbol_number(T::kind(), symbol)) % 256 == 0
}

proof fn lemma_byte_number<T: Sample>(sample: T)
    requires
        T::kind() == DataType::I8 || T::kind() == DataType::U8,
    ensures
        lerc2_huffman::sample_int(sample) == sample.number(),
        T::kind().least() <= sample.number() <= T::kind().most(),
{
    sample.law_integer();
    let n = sample.number();
    float::lemma_int_exact(n);
    sample.law_regular();
    sample.law_promotion();
}

proof fn lemma_byte_sample<T: Sample>(value: int)
    requires
        T::kind() == DataType::I8 || T::kind() == DataType::U8,
        T::kind().least() <= value <= T::kind().most(),
    ensures
        lerc2_huffman::int_sample::<T>(value).number() == value,
{
    T::law_cast(value);
    let t = lerc2_huffman::int_sample::<T>(value);
    t.law_integer();
    float::lemma_int_order(t.number(), value);
}

/// The listed pixels of a raster.
spec fn lists(mask: Option<Seq<u8>>, pixels: nat, list: Seq<int>) -> bool {
    &&& list == blocks::run_pixels(mask, 0, pixels)
    &&& forall|i: int| 0 <= i < list.len() ==> 0 <= #[trigger] list[i] < pixels
    &&& forall|i: int, j: int|
        #![trigger list[i], list[j]]
        0 <= i < j < list.len() ==> list[i] < list[j]
}

proof fn lemma_lists(mask: Option<Seq<u8>>, pixels: nat)
    ensures
        lists(mask, pixels, blocks::run_pixels(mask, 0, pixels)),
{
    blocks::lemma_run_pixels(mask, 0, pixels);
}

/// A valid pixel just before a listed one is listed just before it.
proof fn lemma_left_listed(mask: Option<Seq<u8>>, pixels: nat, list: Seq<int>, i: int)
    requires
        lists(mask, pixels, list),
        0 <= i < list.len(),
        list[i] > 0,
        blocks::is_valid(mask, list[i] - 1),
    ensures
        i > 0,
        list[i - 1] == list[i] - 1,
{
    let q = list[i] - 1;
    tiling_laws::lemma_run_has(mask, 0, pixels, q);
    let j = choose|j: int| 0 <= j < list.len() && list[j] == q;
    if j > i {
        assert(list[i] < list[j]);
    }
    if j < i - 1 {
        assert(list[j] < list[i - 1] && list[i - 1] < list[i]);
    }
}

/// Whether the samples before depth `dim` and the `i`-th pixel are read.
spec fn deltas_done<T: Sample>(
    mask: Option<Seq<u8>>,
    width: int,
    depth: int,
    list: Seq<int>,
    symbols: Seq<u32>,
    samples: Seq<T>,
    dim: int,
    i: int,
) -> bool {
    forall|d: int, j: int|
        0 <= d && 0 <= j < list.len() && (d < dim || (d == dim && j < i)) ==> #[trigger] differs_by(
            mask,
            width,
            depth,
            list,
            samples,
            d,
            j,
            symbols[d * list.len() + j],
        )
}

/// Writing a sample leaves the ones before as they are.
proof fn lemma_deltas_step<T: Sample>(
    mask: Option<Seq<u8>>,
    pixels: nat,
    width: int,
    depth: int,
    list: Seq<int>,
    symbols: Seq<u32>,
    samples: Seq<T>,
    dim: int,
    i: int,
    sample: T,
)
    requires
        lists(mask, pixels, list),
        0 < width,
        0 <= dim < depth,
        0 <= i < list.len(),
        samples.len() == pixels * depth,
        deltas_done(mask, width, depth, list, symbols, samples, dim, i),
        (sample.number() - neighbour(mask, width, depth, list, samples, dim, i) - symbol_number(
            T::kind(),
            symbols[dim * list.len() + i],
        )) % 256 == 0,
    ensures
        deltas_done(
            mask,
            width,
            depth,
            list,
            symbols,
            samples.update(list[i] * depth + dim, sample),
            dim,
            i + 1,
        ),
{
    let after = samples.update(list[i] * depth + dim, sample);
    raster::lemma_sample_index(list[i] as nat, depth as nat, dim as nat, pixels);
    assert forall|d: int, j: int|
        0 <= d && 0 <= j < list.len() && (d < dim || (d == dim && j < i
            + 1)) implies #[trigger] differs_by(
        mask,
        width,
        depth,
        list,
        after,
        d,
        j,
        symbols[d * list.len() + j],
    ) by {
        let p = list[j];
        assert forall|q: int|
            0 <= q < pixels && (d != dim || q != list[i]) implies #[trigger] tiling_laws::cell(
            after,
            depth,
            q,
            d,
        ) == tiling_laws::cell(samples, depth, q, d) by {
            raster::lemma_sample_index(q as nat, depth as nat, d as nat, pixels);
            if q * depth + d == list[i] * depth + dim {
                tiling_laws::lemma_cell_places(q, d, list[i], dim, depth);
            }
        }
        if j > 0 {
            assert(list[j - 1] < list[j]);
        }
        if d < dim {
            assert(differs_by(mask, width, depth, list, samples, d, j, symbols[d * list.len() + j]));
            lemma_neighbour_kept(mask, width, depth, list, samples, after, d, j);
        } else if j < i {
            assert(list[j] < list[i]);
            assert(differs_by(mask, width, depth, list, samples, d, j, symbols[d * list.len() + j]));
            lemma_neighbour_kept(mask, width, depth, list, samples, after, d, j);
        } else {
            lemma_neighbour_kept(mask, width, depth, list, samples, after, d, j);
            assert(tiling_laws::cell(after, depth, list[i], dim) == sample);
        }
    }
}

/// A neighbour depends on the cells before only.
proof fn lemma_neighbour_kept<T: Sample>(
    mask: Option<Seq<u8>>,
    width: int,
    depth: int,
    list: Seq<int>,
    samples: Seq<T>,
    after: Seq<T>,
    d: int,
    j: int,
)
    requires
        0 < width,
        0 <= j < list.len(),
        0 <= list[j],
        j > 0 ==> 0 <= list[j - 1] < list[j],
        forall|q: int|
            0 <= q < list[j] ==> #[trigger] tiling_laws::cell(after, depth, q, d)
                == tiling_laws::cell(samples, depth, q, d),
    ensures
        neighbour(mask, width, depth, list, after, d, j) == neighbour(
            mask,
            width,
            depth,
            list,
            samples,
            d,
            j,
        ),
{
    let p = list[j];
    if p % width > 0 {
        assert(p > 0) by {
            if p == 0 {
                vstd::arithmetic::div_mod::lemma_small_mod(0, width as nat);
            }
        }
    }
}

/// The number that is read lies in the range of the samples and is what the difference makes.
proof fn lemma_wrapped(data_type: DataType, sum: int)
    requires
        data_type == DataType::I8 || data_type == DataType::U8,
    ensures
        ({
            let v = lerc2_huffman::wrapped(data_type == DataType::I8, sum);
            &&& data_type.least() <= v <= data_type.most()
            &&& (v - sum) % 256 == 0
        }),
{
    let low = sum % 256;
    assert(sum == 256 * (sum / 256) + low);
}

#[verifier::rlimit(40)]
#[verifier::spinoff_prover]
proof fn lemma_deltas_back<T: Sample>(
    entries: Seq<CodeEntry>,
    words: Seq<u32>,
    mask: Option<Seq<u8>>,
    pixels: nat,
    width: int,
    depth: int,
    list: Seq<int>,
    symbols: Seq<u32>,
    ends: Seq<nat>,
    dim: nat,
    i: nat,
    last: int,
    samples: Seq<T>,
    p: nat,
)
    requires
        T::kind() == DataType::I8 || T::kind() == DataType::U8,
        lists(mask, pixels, list),
        0 < width,
        0 <= dim <= depth,
        i <= list.len(),
        dim == depth ==> i == 0,
        symbols.len() == depth * list.len(),
        symbols_stand(entries, words, ends[0], symbols, ends),
        p == ends[(dim * list.len() + i) as int],
        samples.len() == pixels * depth,
        dim < depth ==> last == (if i > 0 {
            tiling_laws::cell(samples, depth, list[i - 1], dim as int).number()
        } else {
            0
        }),
        deltas_done(mask, width, depth, list, symbols, samples, dim as int, i as int),
    ensures
        lerc2_huffman::deltas_read::<T>(
            entries,
            words,
            mask,
            width,
            depth,
            T::kind() == DataType::I8,
            list,
            dim,
            i,
            last,
            samples,
            p,
        ) matches Ok((out, _)) && out.len() == samples.len() && deltas_done(
            mask,
            width,
            depth,
            list,
            symbols,
            out,
            depth,
            0,
        ) && forall|q: int, d: int|
            0 <= q < pixels && 0 <= d < depth && !list.contains(q) ==> #[trigger] tiling_laws::cell(
                out,
                depth,
                q,
                d,
            ) == tiling_laws::cell(samples, depth, q, d),
    decreases depth - dim, list.len() - i,
{
    let n = list.len() as int;
    if dim >= depth {
    } else if i >= n {
        assert(dim * n + i == (dim + 1) * n + 0) by (nonlinear_arith)
            requires
                i == n,
        ;
        assert forall|d: int, j: int|
            0 <= d && 0 <= j < n && (d < dim + 1 || (d == dim + 1 && j
                < 0)) implies #[trigger] differs_by(
            mask,
            width,
            depth,
            list,
            samples,
            d,
            j,
            symbols[d * list.len() + j],
        ) by {}
        lemma_deltas_back(
            entries,
            words,
            mask,
            pixels,
            width,
            depth,
            list,
            symbols,
            ends,
            dim + 1,
            0,
            0,
            samples,
            p,
        );
    } else {
        let k = dim * n + i;
        assert(0 <= dim * n && dim * n + i < depth * n) by (nonlinear_arith)
            requires
                0 <= dim,
                dim + 1 <= depth,
                0 <= i < n,
        ;
        let symbol = symbols[k];
        let pixel = list[i as int];
        let signed = T::kind() == DataType::I8;
        let near = lerc2_huffman::predictor(mask, width, depth, dim as int, pixel, last, samples);
        lemma_predictor(mask, pixels, width, depth, list, samples, dim as int, i as int, last);
        let sum = lerc2_huffman::symbol_value(signed, symbol) + near;
        let value = lerc2_huffman::wrapped(signed, sum);
        lemma_wrapped(T::kind(), sum);
        lemma_byte_sample::<T>(value);
        let sample = lerc2_huffman::int_sample::<T>(value);
        let after = samples.update(pixel * depth + dim, sample);
        assert(value - near - symbol_number(T::kind(), symbol) == value - sum);
        lemma_deltas_step(
            mask,
            pixels,
            width,
            depth,
            list,
            symbols,
            samples,
            dim as int,
            i as int,
            sample,
        );
        raster::lemma_sample_index(pixel as nat, depth as nat, dim, pixels);
        assert(tiling_laws::cell(after, depth, pixel, dim as int) == sample);
        lemma_deltas_back(
            entries,
            words,
            mask,
            pixels,
            width,
            depth,
            list,
            symbols,
            ends,
            dim,
            i + 1,
            value,
            after,
            ends[k + 1],
        );
        let out = lerc2_huffman::deltas_read::<T>(
            entries,
            words,
            mask,
            width,
            depth,
            signed,
            list,
            dim,
            i + 1,
            value,
            after,
            ends[k + 1],
        )->Ok_0.0;
        assert forall|q: int, d: int|
            0 <= q < pixels && 0 <= d < depth && !list.contains(q) implies #[trigger] tiling_laws::cell(
            out,
            depth,
            q,
            d,
        ) == tiling_laws::cell(samples, depth, q, d) by {
            raster::lemma_sample_index(q as nat, depth as nat, d as nat, pixels);
            if q * depth + d == pixel * depth + dim {
                tiling_laws::lemma_cell_places(q, d, pixel, dim as int, depth);
            }
            assert(tiling_laws::cell(after, depth, q, d) == tiling_laws::cell(samples, depth, q, d));
        }
    }
}

/// What is added to a difference is the neighbour.
proof fn lemma_predictor<T: Sample>(
    mask: Option<Seq<u8>>,
    pixels: nat,
    width: int,
    depth: int,
    list: Seq<int>,
    samples: Seq<T>,
    dim: int,
    i: int,
    last: int,
)
    requires
        T::kind() == DataType::I8 || T::kind() == DataType::U8,
        lists(mask, pixels, list),
        0 < width,
        0 <= i < list.len(),
        last == (if i > 0 {
            tiling_laws::cell(samples, depth, list[i - 1], dim).number()
        } else {
            0
        }),
    ensures
        lerc2_huffman::predictor(mask, width, depth, dim, list[i], last, samples) == neighbour(
            mask,
            width,
            depth,
            list,
            samples,
            dim,
            i,
        ),
{
    let p = list[i];
    if p % width > 0 && blocks::is_valid(mask, p - 1) {
        assert(p > 0) by {
            if p == 0 {
                vstd::arithmetic::div_mod::lemma_small_mod(0, width as nat);
            }
        }
        lemma_left_listed(mask, pixels, list, i);
    } else if p >= width && blocks::is_valid(mask, p - width) {
        lemma_byte_number(tiling_laws::cell(samples, depth, p - width, dim));
    }
}

/// Reading a body of differences: every valid sample differs from its neighbour, modulo 256, by
/// the number of its symbol; the symbols of the first depth come first. Other samples stay.
pub proof fn law_differences_read<T: Sample>(
    h: Lerc2Header,
    mask: Option<Seq<u8>>,
    all: Seq<u8>,
    pos: int,
    samples: Seq<T>,
    symbols: Seq<u32>,
    ends: Seq<nat>,
)
    requires
        h.data_type == T::kind(),
        T::kind() == DataType::I8 || T::kind() == DataType::U8,
        h.width > 0,
        symbols.len() == h.depth * blocks::run_pixels(mask, 0, h.pixels()).len(),
        huffman::tree_read(all, pos, h.version) matches Ok((entries, words, start))
            && symbols_stand(entries, words, start, symbols, ends),
        samples.len() == h.pixels() * h.depth,
    ensures
        ({
            let list = blocks::run_pixels(mask, 0, h.pixels());
            lerc2_huffman::huffman_read(h, mask, all, pos, true, samples) matches Ok(out) && {
                &&& out.len() == samples.len()
                &&& forall|d: int, i: int|
                    0 <= d < h.depth && 0 <= i < list.len() ==> #[trigger] differs_by(
                        mask,
                        h.width as int,
                        h.depth as int,
                        list,
                        out,
                        d,
                        i,
                        symbols[d * list.len() + i],
                    )
                &&& forall|q: int, d: int|
                    0 <= q < h.pixels() && 0 <= d < h.depth && !blocks::is_valid(mask, q)
                        ==> #[trigger] tiling_laws::cell(out, h.depth as int, q, d)
                        == tiling_laws::cell(samples, h.depth as int, q, d)
            }
        }),
{
    let list = blocks::run_pixels(mask, 0, h.pixels());
    let (entries, words, start) = huffman::tree_read(all, pos, h.version)->Ok_0;
    lemma_lists(mask, h.pixels());
    assert(0 * list.len() == 0) by (nonlinear_arith);
    lemma_deltas_back(
        entries,
        words,
        mask,
        h.pixels(),
        h.width as int,
        h.depth as int,
        list,
        symbols,
        ends,
        0,
        0,
        0,
        samples,
        start,
    );
    let out = lerc2_huffman::huffman_read(h, mask, all, pos, true, samples)->Ok_0;
    assert forall|q: int, d: int|
        0 <= q < h.pixels() && 0 <= d < h.depth && !blocks::is_valid(
            mask,
            q,
        ) implies #[trigger] tiling_laws::cell(out, h.depth as int, q, d) == tiling_laws::cell(
        samples,
        h.depth as int,
        q,
        d,
    ) by {
        tiling_laws::lemma_run_has(mask, 0, h.pixels(), q);
    }
}

/// Whether the samples before the `i`-th pixel and depth `dim` are read.
spec fn symbols_done<T: Sample>(
    depth: int,
    list: Seq<int>,
    symbols: Seq<u32>,
    samples: Seq<T>,
    i: int,
    dim: int,
) -> bool {
    forall|j: int, d: int|
        0 <= j && 0 <= d < depth && (j < i || (j == i && d < dim)) ==> (#[trigger] tiling_laws::cell(
            samples,
            depth,
            list[j],
            d,
        )).number() == symbol_number(T::kind(), symbols[j * depth + d])
}

#[verifier::rlimit(40)]
#[verifier::spinoff_prover]
proof fn lemma_symbols_back<T: Sample>(
    entries: Seq<CodeEntry>,
    words: Seq<u32>,
    mask: Option<Seq<u8>>,
    pixels: nat,
    depth: int,
    list: Seq<int>,
    symbols: Seq<u32>,
    ends: Seq<nat>,
    i: nat,
    dim: nat,
    samples: Seq<T>,
    p: nat,
)
    requires
        T::kind() == DataType::I8 || T::kind() == DataType::U8,
        lists(mask, pixels, list),
        dim <= depth,
        i <= list.len(),
        i == list.len() ==> dim == 0,
        symbols.len() == list.len() * depth,
        symbols_stand(entries, words, ends[0], symbols, ends),
        p == ends[i * depth + dim],
        samples.len() == pixels * depth,
        symbols_done(depth, list, symbols, samples, i as int, dim as int),
    ensures
        lerc2_huffman::symbols_read::<T>(
            entries,
            words,
            depth,
            T::kind() == DataType::I8,
            list,
            i,
            dim,
            samples,
            p,
        ) matches Ok((out, _)) && out.len() == samples.len() && symbols_done(
            depth,
            list,
            symbols,
            out,
            list.len() as int,
            0,
        ),
    decreases list.len() - i, depth - dim,
{
    if i >= list.len() {
    } else if dim >= depth {
        assert(i * depth + dim == (i + 1) * depth + 0) by (nonlinear_arith)
            requires
                dim == depth,
        ;
        lemma_symbols_back(
            entries,
            words,
            mask,
            pixels,
            depth,
            list,
            symbols,
            ends,
            i + 1,
            0,
            samples,
            p,
        );
    } else {
        let n = list.len() as int;
        let k = i * depth + dim;
        assert(0 <= i * depth && i * depth + dim < n * depth) by (nonlinear_arith)
            requires
                0 <= i,
                i + 1 <= n,
                0 <= dim < depth,
        ;
        let symbol = symbols[k];
        let pixel = list[i as int];
        let value = lerc2_huffman::symbol_value(T::kind() == DataType::I8, symbol);
        lemma_byte_sample::<T>(value);
        let sample = lerc2_huffman::int_sample::<T>(value);
        let after = samples.update(pixel * depth + dim, sample);
        raster::lemma_sample_index(pixel as nat, depth as nat, dim, pixels);
        assert forall|j: int, d: int|
            0 <= j && 0 <= d < depth && (j < i || (j == i && d < dim
                + 1)) implies (#[trigger] tiling_laws::cell(after, depth, list[j], d)).number()
            == symbol_number(T::kind(), symbols[j * depth + d]) by {
            raster::lemma_sample_index(list[j] as nat, depth as nat, d as nat, pixels);
            if list[j] * depth + d == pixel * depth + dim {
                tiling_laws::lemma_cell_places(list[j], d, pixel, dim as int, depth);
                if j < i {
                    assert(list[j] < list[i as int]);
                }
            } else {
                assert(tiling_laws::cell(after, depth, list[j], d) == tiling_laws::cell(
                    samples,
                    depth,
                    list[j],
                    d,
                ));
            }
        }
        lemma_symbols_back(
            entries,
            words,
            mask,
            pixels,
            depth,
            list,
            symbols,
            ends,
            i,
            dim + 1,
            after,
            ends[k + 1],
        );
    }
}

/// Reading a body of symbols: every valid sample is the number of its symbol; the symbols of the
/// first pixel come first.
pub proof fn law_symbols_read<T: Sample>(
    h: Lerc2Header,
    mask: Option<Seq<u8>>,
    all: Seq<u8>,
    pos: int,
    samples: Seq<T>,
    symbols: Seq<u32>,
    ends: Seq<nat>,
)
    requires
        h.data_type == T::kind(),
        T::kind() == DataType::I8 || T::kind() == DataType::U8,
        symbols.len() == blocks::run_pixels(mask, 0, h.pixels()).len() * h.depth,
        huffman::tree_read(all, pos, h.version) matches Ok((entries, words, start))
            && symbols_stand(entries, words, start, symbols, ends),
        samples.len() == h.pixels() * h.depth,
    ensures
        ({
            let list = blocks::run_pixels(mask, 0, h.pixels());
            lerc2_huffman::huffman_read(h, mask, all, pos, false, samples) matches Ok(out)
                && out.len() == samples.len() && forall|i: int, d: int|
                0 <= i < list.len() && 0 <= d < h.depth ==> (#[trigger] tiling_laws::cell(
                    out,
                    h.depth as int,
                    list[i],
                    d,
                )).number() == symbol_number(T::kind(), symbols[i * h.depth + d])
        }),
{
    let list = blocks::run_pixels(mask, 0, h.pixels());
    let (entries, words, start) = huffman::tree_read(all, pos, h.version)->Ok_0;
    lemma_lists(mask, h.pixels());
    assert(0 * h.depth == 0) by (nonlinear_arith);
    lemma_symbols_back(
        entries,
        words,
        mask,
        h.pixels(),
        h.depth as int,
        list,
        symbols,
        ends,
        0,
        0,
        samples,
        start,
    );
}

/// The lengths of the codes of so many symbols from one on; behind the last symbol follows the
/// first.
pub open spec fn stored_lengths(entries: Seq<CodeEntry>, i0: int, count: nat) -> Seq<u32> {
    Seq::new(count, |t: int| entries[(i0 + t) % (entries.len() as int)].len as u32)
}

/// The bytes of a code table: its format, the number of symbols, the first and the end of those
/// whose lengths are stored, the lengths, and the codes of all symbols in their order.
pub open spec fn codebook_bytes(
    entries: Seq<CodeEntry>,
    i0: int,
    count: nat,
    format: nat,
    bits: nat,
    code: nat,
    version: u32,
) -> Seq<u8> {
    bytes::le_bytes(format, 4) + bytes::le_bytes(entries.len(), 4) + bytes::le_bytes(i0 as nat, 4)
        + bytes::le_bytes((i0 + count) as nat, 4) + table_laws::plain_bytes(
        stored_lengths(entries, i0, count),
        bits,
        code,
        version,
    ) + bitstream::word_bytes(bitstream::stream_words(entries))
}

/// Whether a code table can be stored so: a symbol whose length is not stored has no code.
pub open spec fn codebook_fits(
    entries: Seq<CodeEntry>,
    i0: int,
    count: nat,
    format: nat,
    bits: nat,
    code: nat,
) -> bool {
    &&& huffman_writer::table_fits(entries)
    &&& 0 <= i0 < entries.len() <= 256
    &&& 0 < count <= entries.len()
    &&& 2 <= format < 0x8000_0000
    &&& bits <= 31
    &&& code <= 2
    &&& count < vstd::arithmetic::power::pow(256, table_laws::count_bytes(code))
    &&& forall|t: int| 0 <= t < count ==> #[trigger] stored_lengths(entries, i0, count)[t] < pow2(bits)
    &&& forall|t: int|
        count <= t < entries.len() ==> (#[trigger] entries[(i0 + t) % (entries.len() as int)]).len
            == 0
}

proof fn lemma_codes_back(entries: Seq<CodeEntry>, lens: Seq<u8>, behind: Seq<u32>, n: nat)
    requires
        huffman_writer::table_fits(entries),
        n <= entries.len(),
        lens == Seq::new(entries.len(), |i: int| entries[i].len),
    ensures
        huffman::codes_read(bitstream::stream_words(entries) + behind, lens, n) == Ok::<
            (Seq<CodeEntry>, nat),
            Fault,
        >((entries.subrange(0, n as int), bitstream::code_bits(entries.subrange(0, n as int)))),
    decreases n,
{
    lemma2_to64();
    if n == 0 {
        assert(entries.subrange(0, 0) =~= seq![]);
    } else {
        let m = (n - 1) as nat;
        lemma_codes_back(entries, lens, behind, m);
        let e = entries[m as int];
        assert(e.wf());
        assert(entries.subrange(0, m as int).push(e) =~= entries.subrange(0, n as int));
        assert(entries.subrange(0, n as int).drop_last() =~= entries.subrange(0, m as int));
        if e.len > 0 {
            bit_laws::law_stream_roundtrip(entries, behind, m);
        }
    }
}

/// Where symbol `j` stands among those from `i0` on.
proof fn lemma_turned(size: int, i0: int, j: int)
    requires
        0 <= i0 < size,
        0 <= j < size,
    ensures
        0 <= huffman::length_place(size, i0, j) < size,
        (i0 + huffman::length_place(size, i0, j)) % size == j,
{
    let t = huffman::length_place(size, i0, j);
    if j >= i0 {
        vstd::arithmetic::div_mod::lemma_small_mod(j as nat, size as nat);
    } else {
        vstd::arithmetic::div_mod::lemma_mod_add_multiples_vanish(j, size);
        vstd::arithmetic::div_mod::lemma_small_mod(j as nat, size as nat);
        assert(i0 + t == size + j);
    }
}

/// Reading a code table gives every symbol its code, whichever symbol the stored lengths begin
/// with. The symbols of the body begin with the next word.
#[verifier::rlimit(40)]
#[verifier::spinoff_prover]
pub proof fn law_codebook_read(
    all: Seq<u8>,
    pos: int,
    entries: Seq<CodeEntry>,
    i0: int,
    count: nat,
    format: nat,
    bits: nat,
    code: nat,
    version: u32,
)
    requires
        codebook_fits(entries, i0, count, format, bits, code),
        bytes::stands_at(all, pos, codebook_bytes(entries, i0, count, format, bits, code, version)),
        all.len() <= usize::MAX,
    ensures
        ({
            let end = pos + codebook_bytes(entries, i0, count, format, bits, code, version).len();
            let front = bitstream::stream_words(entries);
            huffman::tree_read(all, pos, version) == Ok::<(Seq<CodeEntry>, Seq<u32>, nat), Fault>(
                (
                    entries,
                    front + bitpack::words_of(all.subrange(end, all.len() as int)),
                    32 * front.len(),
                ),
            )
        }),
{
    let size = entries.len();
    let lens = stored_lengths(entries, i0, count);
    let front = bitstream::stream_words(entries);
    let words = bitstream::word_bytes(front);
    let body = table_laws::plain_bytes(lens, bits, code, version);
    let i1 = (i0 + count) as nat;
    let (a, b, c, d) = (
        bytes::le_bytes(format, 4),
        bytes::le_bytes(size, 4),
        bytes::le_bytes(i0 as nat, 4),
        bytes::le_bytes(i1, 4),
    );
    bytes::lemma_le_bytes_len(format, 4);
    bytes::lemma_le_bytes_len(size, 4);
    bytes::lemma_le_bytes_len(i0 as nat, 4);
    bytes::lemma_le_bytes_len(i1, 4);
    bytes::lemma_stands_split(all, pos, a + b + c + d + body, words);
    bytes::lemma_stands_split(all, pos, a + b + c + d, body);
    bytes::lemma_stands_split(all, pos, a + b + c, d);
    bytes::lemma_stands_split(all, pos, a + b, c);
    bytes::lemma_stands_split(all, pos, a, b);
    blob_laws::lemma_number_back(all, pos, format);
    blob_laws::lemma_number_back(all, pos + 4, size);
    blob_laws::lemma_number_back(all, pos + 8, i0 as nat);
    blob_laws::lemma_number_back(all, pos + 12, i1);
    table_laws::law_plain_roundtrip(all, pos + 16, lens, bits, code, version, count, false);
    let (levels, next) = stuffed::levels_decoded(all, pos + 16, version, count, false)->Ok_0;
    lemma2_to64();
    assert forall|t: int| 0 <= t < count implies #[trigger] huffman::level_number(levels, t)
        == lens[t] && lens[t] <= 31 by {
        let s = (i0 + t) % (size as int);
        assert(0 <= s < size);
        assert(entries[s].len <= 31);
    }
    let all_lens = huffman::lengths_of(levels, size as int, i0, count as int);
    let wanted = Seq::new(size, |i: int| entries[i].len);
    assert forall|j: int| 0 <= j < size implies #[trigger] all_lens[j] == wanted[j] by {
        let t = huffman::length_place(size as int, i0, j);
        lemma_turned(size as int, i0, j);
        if t < count {
            assert(huffman::level_number(levels, t) == lens[t]);
        } else {
            assert(entries[(i0 + t) % (size as int)].len == 0);
        }
    }
    assert(all_lens =~= wanted);
    let end = pos + codebook_bytes(entries, i0, count, format, bits, code, version).len();
    let rest = all.subrange(end, all.len() as int);
    assert(all.subrange(next, all.len() as int) =~= words + rest);
    bit_laws::lemma_words_back(front, rest);
    lemma_codes_back(entries, wanted, bitpack::words_of(rest), size);
    assert(entries.subrange(0, size as int) =~= entries);
    bit_laws::lemma_stream_words(entries);
}

} // verus!
