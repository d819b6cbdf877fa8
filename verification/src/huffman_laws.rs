//! What is read back of a Huffman-coded body.

use crate::bit_laws;
use crate::bitpack;
use crate::bitstream;
use crate::blocks;
use crate::bytes;
use crate::cursor;
use crate::error::Fault;
use crate::float;
use crate::huffman;
use crate::huffman::CodeEntry;
use crate::huffman_writer;
use crate::lerc2_header::Lerc2Header;
use crate::lerc2_huffman;
use crate::raster;
use crate::sample::Sample;
use crate::stuffed;
use crate::tiling_laws;
use crate::types::DataType;
use vstd::arithmetic::power2::*;
use vstd::prelude::*;

verus! {

/// Two codes that both begin a field clash.
proof fn lemma_field_clash(words: Seq<u32>, p: nat, a: CodeEntry, b: CodeEntry)
    requires
        p / 32 < words.len(),
        a.len <= 32,
        b.len <= 32,
        bitpack::high_field(words, p, a.len as nat) == a.code,
        bitpack::high_field(words, p, b.len as nat) == b.code,
    ensures
        huffman_writer::clash(a, b),
{
    if a.len <= b.len {
        bit_laws::lemma_high_prefix(words, p, b.len as nat, a.len as nat);
    } else {
        bit_laws::lemma_high_prefix(words, p, a.len as nat, b.len as nat);
    }
}

/// Where only one code begins the bits, its symbol is looked up.
proof fn lemma_quick_found(entries: Seq<CodeEntry>, quick: nat, x: nat, s: nat, count: nat)
    requires
        s < count <= entries.len(),
        0 < entries[s as int].len <= quick,
        x / pow2((quick - entries[s as int].len) as nat) == entries[s as int].code,
        forall|t: int|
            0 <= t < entries.len() && t != s && 0 < (#[trigger] entries[t]).len <= quick ==> x / pow2(
                (quick - entries[t].len) as nat,
            ) != entries[t].code,
    ensures
        huffman::quick_symbol(entries, quick, x, count) == Some(s),
    decreases count,
{
    if count - 1 > s {
        let e = entries[count - 1];
        assert(!(0 < e.len <= quick && x / pow2((quick - e.len) as nat) == e.code));
        lemma_quick_found(entries, quick, x, s, (count - 1) as nat);
    }
}

/// Where no short code begins the bits, none is looked up.
proof fn lemma_quick_missing(entries: Seq<CodeEntry>, quick: nat, x: nat, count: nat)
    requires
        count <= entries.len(),
        forall|t: int|
            0 <= t < entries.len() && 0 < (#[trigger] entries[t]).len <= quick ==> x / pow2(
                (quick - entries[t].len) as nat,
            ) != entries[t].code,
    ensures
        huffman::quick_symbol(entries, quick, x, count) == None::<nat>,
    decreases count,
{
    if count > 0 {
        let e = entries[count - 1];
        assert(!(0 < e.len <= quick && x / pow2((quick - e.len) as nat) == e.code));
        lemma_quick_missing(entries, quick, x, (count - 1) as nat);
    }
}

/// The symbol of the one long code that is walked to.
proof fn lemma_path_found(entries: Seq<CodeEntry>, quick: nat, v: nat, k: nat, s: nat, count: nat)
    requires
        s < count <= entries.len(),
        entries.len() <= 256,
        entries[s as int].len > quick,
        entries[s as int].len == k,
        entries[s as int].code == v,
        forall|t: int|
            0 <= t < entries.len() && t != s && (#[trigger] entries[t]).len == k && k > quick
                ==> entries[t].code != v,
    ensures
        huffman::path_symbol(entries, quick, v, k, count) == Some(s as u32),
    decreases count,
{
    if count - 1 > s {
        let e = entries[count - 1];
        assert(!(e.len > quick && e.len == k && e.code == v));
        lemma_path_found(entries, quick, v, k, s, (count - 1) as nat);
    }
}

/// Walking along a code arrives at its symbol.
proof fn lemma_walked(
    entries: Seq<CodeEntry>,
    words: Seq<u32>,
    p: nat,
    quick: nat,
    max: nat,
    s: nat,
    k: nat,
)
    requires
        huffman_writer::prefix_free(entries),
        huffman_writer::table_fits(entries),
        s < entries.len() <= 256,
        p / 32 < words.len(),
        bitpack::high_field(words, p, entries[s as int].len as nat) == entries[s as int].code,
        quick < entries[s as int].len <= max <= 32,
        k < entries[s as int].len,
    ensures
        huffman::walked(entries, quick, bitpack::high_field(words, p, max), max, k) == Ok::<
            (u32, nat),
            Fault,
        >((s as u32, entries[s as int].len as nat)),
    decreases max - k,
{
    let e = entries[s as int];
    let value = bitpack::high_field(words, p, max);
    let v = value / pow2((max - k - 1) as nat);
    bit_laws::lemma_high_prefix(words, p, max, k + 1);
    bit_laws::lemma_high_prefix(words, p, e.len as nat, k + 1);
    assert(v == bitpack::high_field(words, p, k + 1));
    assert(huffman::leads_to(e, quick, v, k + 1));
    assert(huffman::path_exists(entries, quick, v, k + 1, entries.len())) by {
        assert(huffman::leads_to(entries[s as int], quick, v, k + 1));
    }
    if e.len > k + 1 {
        assert(huffman::path_continues(entries, quick, v, k + 1)) by {
            assert(huffman::leads_to(entries[s as int], quick, v, k + 1));
        }
        lemma_walked(entries, words, p, quick, max, s, k + 1);
    } else {
        lemma2_to64();
        assert(v == e.code);
        if huffman::path_continues(entries, quick, v, k + 1) {
            let t = choose|t: int|
                0 <= t < entries.len() && huffman::leads_to(
                    #[trigger] entries[t],
                    quick,
                    v,
                    k + 1,
                ) && entries[t].len > k + 1;
            assert(huffman_writer::clash(entries[s as int], entries[t]));
        }
        assert forall|t: int|
            0 <= t < entries.len() && t != s && (#[trigger] entries[t]).len == k + 1 && k + 1
                > quick implies entries[t].code != v by {
            if entries[t].code == v {
                assert(entries[t].code as nat / pow2(0) == v);
                assert(huffman_writer::clash(entries[s as int], entries[t]));
            }
        }
        lemma_path_found(entries, quick, v, k + 1, s, entries.len());
    }
}

/// Where the bits of a code stand, its symbol is read.
pub proof fn law_symbol_roundtrip(entries: Seq<CodeEntry>, words: Seq<u32>, p: nat, s: nat)
    requires
        huffman_writer::prefix_free(entries),
        huffman_writer::table_fits(entries),
        s < entries.len() <= 256,
        entries[s as int].len > 0,
        p / 32 < words.len(),
        bitpack::high_field(words, p, entries[s as int].len as nat) == entries[s as int].code,
    ensures
        huffman::symbol_read(entries, words, p) == Ok::<(u32, nat), Fault>(
            (s as u32, p + entries[s as int].len as nat),
        ),
{
    let e = entries[s as int];
    assert(huffman::table_wf(entries)) by {
        assert forall|t: int| 0 <= t < entries.len() implies (#[trigger] entries[t]).wf() by {}
    }
    huffman::lemma_longest(entries);
    let quick = huffman::quick_width(entries);
    let x = bitpack::high_field(words, p, quick);
    assert(e.len <= huffman::longest(entries));
    assert forall|t: int|
        0 <= t < entries.len() && t != s && 0 < (#[trigger] entries[t]).len <= quick implies x
        / pow2((quick - entries[t].len) as nat) != entries[t].code by {
        if x / pow2((quick - entries[t].len) as nat) == entries[t].code {
            bit_laws::lemma_high_prefix(words, p, quick, entries[t].len as nat);
            lemma_field_clash(words, p, e, entries[t]);
        }
    }
    if e.len <= quick {
        bit_laws::lemma_high_prefix(words, p, quick, e.len as nat);
        lemma_quick_found(entries, quick, x, s, entries.len());
    } else {
        lemma_quick_missing(entries, quick, x, entries.len());
        lemma_walked(entries, words, p, quick, huffman::longest(entries), s, 0);
    }
}

/// How many of the stored codes belong to the first `n` symbols.
spec fn stored_before(entries: Seq<CodeEntry>, n: int) -> int {
    let first = huffman_writer::first_used(entries, 0);
    let last = huffman_writer::last_used(entries, entries.len());
    if n < first {
        0
    } else if n > last {
        last - first
    } else {
        n - first
    }
}

/// Reading the codes of the first `n` symbols gives them back.
proof fn lemma_codes_back(entries: Seq<CodeEntry>, lens: Seq<u8>, behind: Seq<u32>, n: nat)
    requires
        huffman_writer::table_fits(entries),
        exists|s: int| 0 <= s < entries.len() && (#[trigger] entries[s]).len != 0,
        n <= entries.len(),
        lens == Seq::new(entries.len(), |i: int| entries[i].len),
    ensures
        huffman::codes_read(
            bitstream::stream_words(huffman_writer::stored_entries(entries)) + behind,
            lens,
            n,
        ) == Ok::<(Seq<CodeEntry>, nat), Fault>(
            (
                entries.subrange(0, n as int),
                bitstream::code_bits(
                    huffman_writer::stored_entries(entries).subrange(
                        0,
                        stored_before(entries, n as int),
                    ),
                ),
            ),
        ),
    decreases n,
{
    let stored = huffman_writer::stored_entries(entries);
    let words = bitstream::stream_words(stored) + behind;
    huffman_writer::lemma_stored(entries);
    lemma2_to64();
    if n == 0 {
        assert(entries.subrange(0, 0) =~= seq![]);
        assert(stored.subrange(0, 0) =~= seq![]);
    } else {
        let m = (n - 1) as nat;
        lemma_codes_back(entries, lens, behind, m);
        let first = huffman_writer::first_used(entries, 0);
        let last = huffman_writer::last_used(entries, entries.len());
        let e = entries[m as int];
        assert(e.wf());
        let k = stored_before(entries, m as int);
        assert(entries.subrange(0, m as int).push(e) =~= entries.subrange(0, n as int));
        if first <= m < last {
            assert(stored[k] == e);
            assert(stored.subrange(0, k + 1).drop_last() =~= stored.subrange(0, k));
            assert(stored_before(entries, n as int) == k + 1);
            if e.len > 0 {
                assert(huffman_writer::table_fits(stored)) by {
                    assert forall|s: int| 0 <= s < stored.len() implies (#[trigger] stored[s]).len
                        <= 31 && stored[s].wf() by {
                        assert(stored[s] == entries[s + first]);
                    }
                }
                bit_laws::law_stream_roundtrip(stored, behind, k as nat);
            }
        } else {
            assert(stored_before(entries, n as int) == k);
            assert(e.len == 0);
        }
    }
}

/// Reading a 32-bit field.
proof fn lemma_field_back(all: Seq<u8>, pos: int, value: nat)
    requires
        bytes::stands_at(all, pos, bytes::le_bytes(value, 4)),
        value < 0x8000_0000,
        all.len() <= usize::MAX,
    ensures
        cursor::take_i32(all, pos) == Ok::<int, Fault>(value as int),
{
    bytes::lemma_pow256();
    bytes::lemma_le_roundtrip(value, 4);
}

/// Reading a code table gives the codes back, and the words behind it.
#[verifier::rlimit(40)]
pub proof fn law_table_roundtrip(all: Seq<u8>, pos: int, entries: Seq<CodeEntry>, version: u32)
    requires
        bytes::stands_at(all, pos, huffman_writer::table_bytes(entries)),
        all.len() <= usize::MAX,
        huffman_writer::table_fits(entries),
        entries.len() == 256,
        exists|s: int| 0 <= s < entries.len() && (#[trigger] entries[s]).len != 0,
        version >= 3,
    ensures
        ({
            let front = bitstream::stream_words(huffman_writer::stored_entries(entries));
            let end = pos + huffman_writer::table_bytes(entries).len();
            huffman::tree_read(all, pos, version) == Ok::<(Seq<CodeEntry>, Seq<u32>, nat), Fault>(
                (
                    entries,
                    front + bitpack::words_of(all.subrange(end, all.len() as int)),
                    32 * front.len(),
                ),
            )
        }),
{
    let stored = huffman_writer::stored_entries(entries);
    let first = huffman_writer::first_used(entries, 0);
    let last = huffman_writer::last_used(entries, entries.len());
    let lens = huffman_writer::lengths(stored);
    let front = bitstream::stream_words(stored);
    let words = bitstream::word_bytes(front);
    let body = stuffed::stuffed_bytes(lens);
    let (a, b, c, d) = (
        bytes::le_bytes(2, 4),
        bytes::le_bytes(256, 4),
        bytes::le_bytes(first, 4),
        bytes::le_bytes(last, 4),
    );
    huffman_writer::lemma_stored(entries);
    bytes::lemma_le_bytes_len(2, 4);
    bytes::lemma_le_bytes_len(256, 4);
    bytes::lemma_le_bytes_len(first, 4);
    bytes::lemma_le_bytes_len(last, 4);
    let end = pos + huffman_writer::table_bytes(entries).len();
    bytes::lemma_stands_split(all, pos, a + b + c + d + body, words);
    bytes::lemma_stands_split(all, pos, a + b + c + d, body);
    bytes::lemma_stands_split(all, pos, a + b + c, d);
    bytes::lemma_stands_split(all, pos, a + b, c);
    bytes::lemma_stands_split(all, pos, a, b);
    lemma_field_back(all, pos, 2);
    lemma_field_back(all, pos + 4, 256);
    lemma_field_back(all, pos + 8, first);
    lemma_field_back(all, pos + 12, last);
    assert(stored.len() == last - first);
    assert forall|s: int| 0 <= s < stored.len() implies (#[trigger] stored[s]).len <= 31
        && stored[s].wf() && stored[s] == entries[s + first] by {
        assert(stored[s] == entries[s + first]);
    }
    assert(huffman_writer::table_fits(stored));
    huffman_writer::lemma_short_lengths(stored);
    stuffed::law_stuffed_roundtrip(all, pos + 16, lens, version, stored.len(), false);
    // the first stored code is in use
    let s = choose|s: int| 0 <= s < entries.len() && (#[trigger] entries[s]).len != 0;
    assert(first <= s < last);
    assert(lens[s - first] == entries[s].len);
    stuffed::lemma_largest(lens);
    assert(stuffed::largest(lens) > 0);
    let levels = stuffed::as_levels(lens);
    let next = pos + 16 + body.len();
    assert(stuffed::levels_decoded(all, pos + 16, version, (last - first) as nat, false) == Ok::<
        (Seq<Option<u32>>, int),
        Fault,
    >((levels, next)));
    assert forall|i: int| 0 <= i < levels.len() implies #[trigger] huffman::level_number(levels, i)
        == stored[i].len by {
        assert(levels[i] == Some(lens[i]));
    }
    let all_lens = huffman::lengths_of(levels, 256, first as int, last - first);
    let wanted = Seq::new(entries.len(), |i: int| entries[i].len);
    assert forall|j: int| 0 <= j < 256 implies #[trigger] all_lens[j] == wanted[j] by {
        let at = huffman::length_place(256, first as int, j);
        if at < last - first {
            if j >= first {
                assert(huffman::level_number(levels, at) == stored[at].len);
            } else {
                assert(at >= last - first);
            }
        } else {
            assert(entries[j].len == 0);
        }
    }
    assert(all_lens =~= wanted);
    let rest = all.subrange(end, all.len() as int);
    assert(all.subrange(next, all.len() as int) =~= words + rest);
    bit_laws::lemma_words_back(front, rest);
    lemma_codes_back(entries, wanted, bitpack::words_of(rest), 256);
    assert(entries.subrange(0, 256) =~= entries);
    assert(stored.subrange(0, stored_before(entries, 256)) =~= stored);
    bit_laws::lemma_stream_words(stored);
}

/// The `k`-th symbol of a payload is read at its place.
proof fn lemma_symbol_at(
    entries: Seq<CodeEntry>,
    symbols: Seq<u8>,
    front: Seq<u32>,
    behind: Seq<u32>,
    k: nat,
)
    requires
        huffman_writer::codes_for(symbols) == Some(entries),
        k < symbols.len(),
    ensures
        ({
            let codes = huffman_writer::symbol_codes(entries, symbols);
            let words = front + (bitstream::stream_words(codes) + behind);
            let p = 32 * front.len() + bitstream::code_bits(codes.subrange(0, k as int));
            huffman::symbol_read(entries, words, p) == Ok::<(u32, nat), Fault>(
                (
                    symbols[k as int] as u32,
                    32 * front.len() + bitstream::code_bits(codes.subrange(0, k as int + 1)),
                ),
            )
        }),
{
    huffman_writer::law_codes_prefix_free(symbols);
    let codes = huffman_writer::symbol_codes(entries, symbols);
    let stream = bitstream::stream_words(codes) + behind;
    let p = bitstream::code_bits(codes.subrange(0, k as int));
    assert(huffman_writer::table_fits(codes)) by {
        assert forall|i: int| 0 <= i < codes.len() implies (#[trigger] codes[i]).len <= 31
            && codes[i].wf() by {
            assert(codes[i] == entries[symbols[i] as int]);
        }
    }
    let s = symbols[k as int];
    assert(codes[k as int] == entries[s as int]);
    assert(entries[s as int].len > 0);
    bit_laws::law_stream_roundtrip(codes, behind, k);
    bit_laws::lemma_field_behind(front, stream, p, codes[k as int].len as nat);
    let q = 32 * front.len() + p;
    assert(q / 32 == front.len() + p / 32);
    law_symbol_roundtrip(entries, front + stream, q, s as nat);
    assert(codes.subrange(0, k as int + 1).drop_last() =~= codes.subrange(0, k as int));
}

/// An 8-bit sample comes back from its number.
proof fn lemma_small_sample<T: Sample>(sample: T)
    requires
        T::kind() == DataType::I8 || T::kind() == DataType::U8,
    ensures
        lerc2_huffman::int_sample::<T>(lerc2_huffman::sample_int(sample)) == sample,
        T::kind() == DataType::I8 ==> -128 <= lerc2_huffman::sample_int(sample) <= 127,
        T::kind() == DataType::U8 ==> 0 <= lerc2_huffman::sample_int(sample) <= 255,
{
    sample.law_integer();
    let n = sample.number();
    float::lemma_int_exact(n);
    sample.law_regular();
    sample.law_promotion();
    assert(lerc2_huffman::sample_int(sample) == n);
}

/// A number of the range comes back from its symbol.
proof fn lemma_symbol_value(signed: bool, value: int)
    requires
        if signed {
            -128 <= value <= 127
        } else {
            0 <= value <= 255
        },
    ensures
        lerc2_huffman::symbol_value(
            signed,
            huffman_writer::symbol_of(signed, value) as u32,
        ) == value,
{
}

/// A number of the range comes back from its distance to a predictor.
proof fn lemma_symbol_delta(signed: bool, value: int, from: int)
    requires
        if signed {
            -128 <= value <= 127
        } else {
            0 <= value <= 255
        },
        -1024 <= from <= 1024,
    ensures
        lerc2_huffman::wrapped(
            signed,
            lerc2_huffman::symbol_value(
                signed,
                huffman_writer::symbol_of(signed, value - from) as u32,
            ) + from,
        ) == value,
{
}

/// Whether the listed cells so far hold the samples and the unlisted ones are as they were.
spec fn cells_back<T>(
    pixels: nat,
    depth: int,
    list: Seq<int>,
    stored: Seq<T>,
    blank: Seq<T>,
    out: Seq<T>,
    done: spec_fn(int, int) -> bool,
) -> bool {
    &&& out.len() == pixels * depth
    &&& stored.len() == out.len()
    &&& blank.len() == out.len()
    &&& forall|j: int, d: int|
        0 <= j < list.len() && 0 <= d < depth && done(j, d) ==> #[trigger] tiling_laws::cell(
            out,
            depth,
            list[j],
            d,
        ) == tiling_laws::cell(stored, depth, list[j], d)
    &&& forall|p: int, d: int|
        0 <= p < pixels && 0 <= d < depth && !list.contains(p) ==> #[trigger] tiling_laws::cell(
            out,
            depth,
            p,
            d,
        ) == tiling_laws::cell(blank, depth, p, d)
}

/// Whether a list of pixels ascends and stays within the raster.
spec fn ascending(list: Seq<int>, pixels: nat) -> bool {
    &&& forall|i: int| 0 <= i < list.len() ==> 0 <= #[trigger] list[i] < pixels
    &&& forall|i: int, j: int|
        #![trigger list[i], list[j]]
        0 <= i < j < list.len() ==> list[i] < list[j]
}

/// Writing one cell.
proof fn lemma_cell_back<T>(
    pixels: nat,
    depth: int,
    list: Seq<int>,
    stored: Seq<T>,
    blank: Seq<T>,
    out: Seq<T>,
    before: spec_fn(int, int) -> bool,
    after: spec_fn(int, int) -> bool,
    i: int,
    dim: int,
)
    requires
        ascending(list, pixels),
        cells_back(pixels, depth, list, stored, blank, out, before),
        0 <= i < list.len(),
        0 <= dim < depth,
        forall|j: int, d: int|
            0 <= j < list.len() && 0 <= d < depth && (j != i || d != dim) && #[trigger] after(j, d)
                ==> before(j, d),
    ensures
        cells_back(
            pixels,
            depth,
            list,
            stored,
            blank,
            out.update(list[i] * depth + dim, stored[list[i] * depth + dim]),
            after,
        ),
{
    let next = out.update(list[i] * depth + dim, stored[list[i] * depth + dim]);
    raster::lemma_sample_index(list[i] as nat, depth as nat, dim as nat, pixels);
    assert forall|j: int, d: int|
        0 <= j < list.len() && 0 <= d < depth && after(j, d) implies #[trigger] tiling_laws::cell(
        next,
        depth,
        list[j],
        d,
    ) == tiling_laws::cell(stored, depth, list[j], d) by {
        raster::lemma_sample_index(list[j] as nat, depth as nat, d as nat, pixels);
        if list[j] * depth + d == list[i] * depth + dim {
        } else {
            assert(before(j, d));
            assert(tiling_laws::cell(out, depth, list[j], d) == tiling_laws::cell(
                stored,
                depth,
                list[j],
                d,
            ));
        }
    }
    assert forall|p: int, d: int|
        0 <= p < pixels && 0 <= d < depth && !list.contains(p) implies #[trigger] tiling_laws::cell(
        next,
        depth,
        p,
        d,
    ) == tiling_laws::cell(blank, depth, p, d) by {
        raster::lemma_sample_index(p as nat, depth as nat, d as nat, pixels);
        assert(tiling_laws::cell(out, depth, p, d) == tiling_laws::cell(blank, depth, p, d));
        if p * depth + d == list[i] * depth + dim {
            tiling_laws::lemma_cell_places(p, d, list[i], dim, depth);
            assert(list.contains(list[i]));
        }
    }
}

/// Reading plain symbols gives the samples back.
#[verifier::rlimit(40)]
proof fn lemma_plain_back<T: Sample>(
    entries: Seq<CodeEntry>,
    symbols: Seq<u8>,
    front: Seq<u32>,
    behind: Seq<u32>,
    pixels: nat,
    depth: int,
    list: Seq<int>,
    stored: Seq<T>,
    blank: Seq<T>,
    i: nat,
    dim: nat,
    k: nat,
    out: Seq<T>,
) -> (r: (Seq<T>, nat))
    requires
        T::kind() == DataType::I8 || T::kind() == DataType::U8,
        huffman_writer::codes_for(symbols) == Some(entries),
        ascending(list, pixels),
        depth > 0,
        i <= list.len(),
        dim <= depth,
        k <= symbols.len(),
        symbols.subrange(k as int, symbols.len() as int) == huffman_writer::plain_symbols(
            depth,
            T::kind() == DataType::I8,
            list,
            stored,
            i,
            dim,
        ),
        cells_back(
            pixels,
            depth,
            list,
            stored,
            blank,
            out,
            |j: int, d: int| j < i || (j == i && d < dim),
        ),
    ensures
        ({
            let codes = huffman_writer::symbol_codes(entries, symbols);
            let words = front + (bitstream::stream_words(codes) + behind);
            let p = 32 * front.len() + bitstream::code_bits(codes.subrange(0, k as int));
            lerc2_huffman::symbols_read(
                entries,
                words,
                depth,
                T::kind() == DataType::I8,
                list,
                i,
                dim,
                out,
                p,
            ) == Ok::<(Seq<T>, nat), Fault>(r)
        }),
        cells_back(pixels, depth, list, stored, blank, r.0, |j: int, d: int| true),
    decreases list.len() - i, depth - dim,
{
    let signed = T::kind() == DataType::I8;
    let codes = huffman_writer::symbol_codes(entries, symbols);
    let words = front + (bitstream::stream_words(codes) + behind);
    let p = 32 * front.len() + bitstream::code_bits(codes.subrange(0, k as int));
    if i >= list.len() {
        (out, p)
    } else if dim >= depth {
        lemma_plain_back(
            entries,
            symbols,
            front,
            behind,
            pixels,
            depth,
            list,
            stored,
            blank,
            i + 1,
            0,
            k,
            out,
        )
    } else {
        let at = list[i as int] * depth + dim;
        let value = lerc2_huffman::sample_int(stored[at]);
        let part = symbols.subrange(k as int, symbols.len() as int);
        let rest = huffman_writer::plain_symbols(depth, signed, list, stored, i, dim + 1);
        assert(part == seq![huffman_writer::symbol_of(signed, value)] + rest);
        assert(part[0] == symbols[k as int]);
        assert(symbols.subrange(k as int + 1, symbols.len() as int) =~= rest) by {
            assert(part.subrange(1, part.len() as int) =~= rest);
            assert(part.subrange(1, part.len() as int) =~= symbols.subrange(
                k as int + 1,
                symbols.len() as int,
            ));
        }
        lemma_symbol_at(entries, symbols, front, behind, k);
        lemma_small_sample(stored[at]);
        lemma_symbol_value(signed, value);
        lemma_cell_back(
            pixels,
            depth,
            list,
            stored,
            blank,
            out,
            |j: int, d: int| j < i || (j == i && d < dim),
            |j: int, d: int| j < i || (j == i && d < dim + 1),
            i as int,
            dim as int,
        );
        let next = out.update(at, stored[at]);
        lemma_plain_back(
            entries,
            symbols,
            front,
            behind,
            pixels,
            depth,
            list,
            stored,
            blank,
            i,
            dim + 1,
            k + 1,
            next,
        )
    }
}

/// The predictor sees the same neighbours in what was read as in what was stored.
proof fn lemma_same_predictor<T: Sample>(
    mask: Option<Seq<u8>>,
    width: int,
    pixels: nat,
    depth: int,
    dim: int,
    i: int,
    last: int,
    stored: Seq<T>,
    blank: Seq<T>,
    out: Seq<T>,
)
    requires
        T::kind() == DataType::I8 || T::kind() == DataType::U8,
        width > 0,
        0 <= dim < depth,
        0 <= i < blocks::run_pixels(mask, 0, pixels).len(),
        ascending(blocks::run_pixels(mask, 0, pixels), pixels),
        -1024 <= last <= 1024,
        cells_back(
            pixels,
            depth,
            blocks::run_pixels(mask, 0, pixels),
            stored,
            blank,
            out,
            |j: int, d: int| d < dim || (d == dim && j < i),
        ),
    ensures
        ({
            let pixel = blocks::run_pixels(mask, 0, pixels)[i];
            let from = lerc2_huffman::predictor(mask, width, depth, dim, pixel, last, stored);
            &&& lerc2_huffman::predictor(mask, width, depth, dim, pixel, last, out) == from
            &&& -1024 <= from <= 1024
        }),
{
    let list = blocks::run_pixels(mask, 0, pixels);
    let pixel = list[i];
    if pixel >= width && blocks::is_valid(mask, pixel - width) {
        tiling_laws::lemma_run_has(mask, 0, pixels, pixel - width);
        let j = choose|j: int| 0 <= j < list.len() && list[j] == pixel - width;
        assert(j < i) by {
            if j > i {
                assert(list[i] < list[j]);
            }
        }
        assert(tiling_laws::cell(out, depth, list[j], dim) == tiling_laws::cell(
            stored,
            depth,
            list[j],
            dim,
        ));
        lemma_small_sample(stored[(pixel - width) * depth + dim]);
    }
}

/// Reading differences gives the samples back.
#[verifier::rlimit(40)]
proof fn lemma_delta_back<T: Sample>(
    entries: Seq<CodeEntry>,
    symbols: Seq<u8>,
    front: Seq<u32>,
    behind: Seq<u32>,
    mask: Option<Seq<u8>>,
    width: int,
    pixels: nat,
    depth: int,
    stored: Seq<T>,
    blank: Seq<T>,
    dim: nat,
    i: nat,
    last: int,
    k: nat,
    out: Seq<T>,
) -> (r: (Seq<T>, nat))
    requires
        T::kind() == DataType::I8 || T::kind() == DataType::U8,
        huffman_writer::codes_for(symbols) == Some(entries),
        ascending(blocks::run_pixels(mask, 0, pixels), pixels),
        width > 0,
        depth > 0,
        i <= blocks::run_pixels(mask, 0, pixels).len(),
        dim <= depth,
        k <= symbols.len(),
        -1024 <= last <= 1024,
        symbols.subrange(k as int, symbols.len() as int) == huffman_writer::delta_symbols(
            mask,
            width,
            depth,
            T::kind() == DataType::I8,
            blocks::run_pixels(mask, 0, pixels),
            stored,
            dim,
            i,
            last,
        ),
        cells_back(
            pixels,
            depth,
            blocks::run_pixels(mask, 0, pixels),
            stored,
            blank,
            out,
            |j: int, d: int| d < dim || (d == dim && j < i),
        ),
    ensures
        ({
            let codes = huffman_writer::symbol_codes(entries, symbols);
            let words = front + (bitstream::stream_words(codes) + behind);
            let p = 32 * front.len() + bitstream::code_bits(codes.subrange(0, k as int));
            lerc2_huffman::deltas_read(
                entries,
                words,
                mask,
                width,
                depth,
                T::kind() == DataType::I8,
                blocks::run_pixels(mask, 0, pixels),
                dim,
                i,
                last,
                out,
                p,
            ) == Ok::<(Seq<T>, nat), Fault>(r)
        }),
        cells_back(
            pixels,
            depth,
            blocks::run_pixels(mask, 0, pixels),
            stored,
            blank,
            r.0,
            |j: int, d: int| true,
        ),
    decreases depth - dim, blocks::run_pixels(mask, 0, pixels).len() - i,
{
    let signed = T::kind() == DataType::I8;
    let list = blocks::run_pixels(mask, 0, pixels);
    let codes = huffman_writer::symbol_codes(entries, symbols);
    let words = front + (bitstream::stream_words(codes) + behind);
    let p = 32 * front.len() + bitstream::code_bits(codes.subrange(0, k as int));
    if dim >= depth {
        (out, p)
    } else if i >= list.len() {
        lemma_delta_back(
            entries,
            symbols,
            front,
            behind,
            mask,
            width,
            pixels,
            depth,
            stored,
            blank,
            dim + 1,
            0,
            0,
            k,
            out,
        )
    } else {
        let at = list[i as int] * depth + dim;
        let value = lerc2_huffman::sample_int(stored[at]);
        let from = lerc2_huffman::predictor(
            mask,
            width,
            depth,
            dim as int,
            list[i as int],
            last,
            stored,
        );
        let part = symbols.subrange(k as int, symbols.len() as int);
        let rest = huffman_writer::delta_symbols(
            mask,
            width,
            depth,
            signed,
            list,
            stored,
            dim,
            i + 1,
            value,
        );
        assert(part == seq![huffman_writer::symbol_of(signed, value - from)] + rest);
        assert(part[0] == symbols[k as int]);
        assert(symbols.subrange(k as int + 1, symbols.len() as int) =~= rest) by {
            assert(part.subrange(1, part.len() as int) =~= rest);
            assert(part.subrange(1, part.len() as int) =~= symbols.subrange(
                k as int + 1,
                symbols.len() as int,
            ));
        }
        lemma_symbol_at(entries, symbols, front, behind, k);
        lemma_small_sample(stored[at]);
        lemma_same_predictor(
            mask,
            width,
            pixels,
            depth,
            dim as int,
            i as int,
            last,
            stored,
            blank,
            out,
        );
        lemma_symbol_delta(signed, value, from);
        lemma_cell_back(
            pixels,
            depth,
            list,
            stored,
            blank,
            out,
            |j: int, d: int| d < dim || (d == dim && j < i),
            |j: int, d: int| d < dim || (d == dim && j < i + 1),
            i as int,
            dim as int,
        );
        let next = out.update(at, stored[at]);
        lemma_delta_back(
            entries,
            symbols,
            front,
            behind,
            mask,
            width,
            pixels,
            depth,
            stored,
            blank,
            dim,
            i + 1,
            value,
            k + 1,
            next,
        )
    }
}

/// Whether every valid pixel holds its samples and every other one is as it was.
pub open spec fn body_exact<T: Sample>(
    h: Lerc2Header,
    mask: Option<Seq<u8>>,
    stored: Seq<T>,
    blank: Seq<T>,
    read: Seq<T>,
) -> bool {
    &&& read.len() == blank.len()
    &&& forall|p: int, d: int|
        0 <= p < h.pixels() && 0 <= d < h.depth ==> #[trigger] tiling_laws::cell(
            read,
            h.depth as int,
            p,
            d,
        ) == if blocks::is_valid(mask, p) {
            tiling_laws::cell(stored, h.depth as int, p, d)
        } else {
            tiling_laws::cell(blank, h.depth as int, p, d)
        }
}

/// The symbols of a raster, plain or as differences.
pub open spec fn raster_symbols<T: Sample>(
    h: Lerc2Header,
    mask: Option<Seq<u8>>,
    delta: bool,
    stored: Seq<T>,
) -> Seq<u8> {
    let list = blocks::run_pixels(mask, 0, h.pixels());
    let signed = T::kind() == DataType::I8;
    if delta {
        huffman_writer::delta_symbols(
            mask,
            h.width as int,
            h.depth as int,
            signed,
            list,
            stored,
            0,
            0,
            0,
        )
    } else {
        huffman_writer::plain_symbols(h.depth as int, signed, list, stored, 0, 0)
    }
}

/// Reading a Huffman-coded body gives every valid sample back exactly and leaves the others
/// alone.
#[verifier::rlimit(40)]
pub proof fn law_huffman_roundtrip<T: Sample>(
    h: Lerc2Header,
    mask: Option<Seq<u8>>,
    all: Seq<u8>,
    pos: int,
    delta: bool,
    stored: Seq<T>,
    blank: Seq<T>,
) -> (read: Seq<T>)
    requires
        T::kind() == DataType::I8 || T::kind() == DataType::U8,
        h.data_type == T::kind(),
        h.version >= 3,
        h.width > 0,
        h.depth > 0,
        stored.len() == h.pixels() * h.depth as nat,
        blank.len() == stored.len(),
        all.len() <= usize::MAX,
        huffman_writer::codes_for(raster_symbols(h, mask, delta, stored)) is Some,
        ({
            let symbols = raster_symbols(h, mask, delta, stored);
            let entries = huffman_writer::codes_for(symbols)->0;
            bytes::stands_at(
                all,
                pos,
                huffman_writer::table_bytes(entries) + huffman_writer::payload_bytes(
                    entries,
                    symbols,
                ),
            )
        }),
    ensures
        lerc2_huffman::huffman_read(h, mask, all, pos, delta, blank) == Ok::<Seq<T>, Fault>(read),
        body_exact(h, mask, stored, blank, read),
{
    let symbols = raster_symbols(h, mask, delta, stored);
    let entries = huffman_writer::codes_for(symbols)->0;
    let list = blocks::run_pixels(mask, 0, h.pixels());
    let depth = h.depth as int;
    huffman_writer::law_codes_prefix_free(symbols);
    let table = huffman_writer::table_bytes(entries);
    let payload = huffman_writer::payload_bytes(entries, symbols);
    bytes::lemma_stands_split(all, pos, table, payload);
    law_table_roundtrip(all, pos, entries, h.version);
    let end = pos + table.len();
    let front = bitstream::stream_words(huffman_writer::stored_entries(entries));
    let stream = bitstream::stream_words(huffman_writer::symbol_codes(entries, symbols));
    let tail = all.subrange(end + payload.len(), all.len() as int);
    assert(all.subrange(end, all.len() as int) =~= payload + tail);
    bit_laws::lemma_words_back(stream.push(0), tail);
    let behind = seq![0u32] + bitpack::words_of(tail);
    assert(stream.push(0) + bitpack::words_of(tail) =~= stream + behind);
    blocks::lemma_run_pixels(mask, 0, h.pixels());
    assert(ascending(list, h.pixels()));
    assert(symbols.subrange(0, symbols.len() as int) =~= symbols);
    let codes = huffman_writer::symbol_codes(entries, symbols);
    assert(bitstream::code_bits(codes.subrange(0, 0)) == 0);
    let r = if delta {
        lemma_delta_back(
            entries,
            symbols,
            front,
            behind,
            mask,
            h.width as int,
            h.pixels(),
            depth,
            stored,
            blank,
            0,
            0,
            0,
            0,
            blank,
        )
    } else {
        lemma_plain_back(
            entries,
            symbols,
            front,
            behind,
            h.pixels(),
            depth,
            list,
            stored,
            blank,
            0,
            0,
            0,
            blank,
        )
    };
    let read = r.0;
    assert forall|p: int, d: int| 0 <= p < h.pixels() && 0 <= d < h.depth implies #[trigger] tiling_laws::cell(
        read,
        depth,
        p,
        d,
    ) == if blocks::is_valid(mask, p) {
        tiling_laws::cell(stored, depth, p, d)
    } else {
        tiling_laws::cell(blank, depth, p, d)
    } by {
        tiling_laws::lemma_run_has(mask, 0, h.pixels(), p);
        if blocks::is_valid(mask, p) {
            let j = choose|j: int| 0 <= j < list.len() && list[j] == p;
            assert(tiling_laws::cell(read, depth, list[j], d) == tiling_laws::cell(
                stored,
                depth,
                list[j],
                d,
            ));
        }
    }
    read
}

} // verus!
