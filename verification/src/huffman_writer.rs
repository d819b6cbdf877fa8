//! Writing Huffman-coded bodies: symbols, their codes, the code table and the coded stream.

use crate::bitstream;
use crate::bitstream::{push_words, MsbBitWriter};
use crate::blocks;
use crate::blocks::list_run;
use crate::bytes;
use crate::bytes::push_u32;
use crate::error::{Error, Fault, Result};
use crate::huffman::CodeEntry;
use crate::lerc2_huffman;
use crate::lerc2_huffman::{predict, sample_to_int};
use crate::raster;
use crate::rounding::power;
use crate::sample::Sample;
use crate::stuffed;
use crate::stuffed::write_raw_block;
use vstd::arithmetic::power2::*;
use vstd::prelude::*;

verus! {

/// The symbol of a sample or of a difference; signed samples count from -128.
pub open spec fn symbol_of(signed: bool, value: int) -> u8 {
    if signed {
        ((value + 128) % 256) as u8
    } else {
        (value % 256) as u8
    }
}

/// The symbols of the samples from depth `dim` of the `i`-th listed pixel on.
pub open spec fn plain_symbols<T: Sample>(
    depth: int,
    signed: bool,
    list: Seq<int>,
    samples: Seq<T>,
    i: nat,
    dim: nat,
) -> Seq<u8>
    decreases list.len() - i, depth - dim,
{
    if i >= list.len() {
        seq![]
    } else if dim >= depth {
        plain_symbols(depth, signed, list, samples, i + 1, 0)
    } else {
        seq![
            symbol_of(signed, lerc2_huffman::sample_int(samples[list[i as int] * depth + dim])),
        ] + plain_symbols(depth, signed, list, samples, i, dim + 1)
    }
}

/// The symbols of the differences from the `i`-th listed pixel of depth `dim` on.
pub open spec fn delta_symbols<T: Sample>(
    mask: Option<Seq<u8>>,
    width: int,
    depth: int,
    signed: bool,
    list: Seq<int>,
    samples: Seq<T>,
    dim: nat,
    i: nat,
    last: int,
) -> Seq<u8>
    decreases depth - dim, list.len() - i,
{
    if dim >= depth {
        seq![]
    } else if i >= list.len() {
        delta_symbols(mask, width, depth, signed, list, samples, dim + 1, 0, 0)
    } else {
        let pixel = list[i as int];
        let value = lerc2_huffman::sample_int(samples[pixel * depth + dim]);
        seq![
            symbol_of(
                signed,
                value - lerc2_huffman::predictor(
                    mask,
                    width,
                    depth,
                    dim as int,
                    pixel,
                    last,
                    samples,
                ),
            ),
        ] + delta_symbols(mask, width, depth, signed, list, samples, dim, i + 1, value)
    }
}

/// How often a symbol occurs.
pub open spec fn frequency(symbols: Seq<u8>, s: nat) -> nat
    decreases symbols.len(),
{
    if symbols.len() == 0 {
        0
    } else {
        frequency(symbols.drop_last(), s) + if symbols.last() == s {
            1nat
        } else {
            0nat
        }
    }
}

/// A symbol and its code, as far as it is known.
#[derive(Debug, Clone, Copy, PartialEq, Eq, Structural)]
pub struct Leaf {
    pub symbol: u32,
    pub len: u8,
    pub code: u32,
}

/// Symbols that share the beginning of their codes.
#[verifier::ext_equal]
pub struct GroupSeq {
    /// How often one of them occurs.
    pub freq: nat,
    /// The least of them.
    pub least: nat,
    pub leaves: Seq<Leaf>,
}

/// One group for each symbol below `n` that occurs.
pub open spec fn singles(symbols: Seq<u8>, n: nat) -> Seq<GroupSeq>
    decreases n,
{
    if n == 0 {
        seq![]
    } else {
        let before = singles(symbols, (n - 1) as nat);
        let s = (n - 1) as nat;
        if frequency(symbols, s) == 0 {
            before
        } else {
            before.push(
                GroupSeq {
                    freq: frequency(symbols, s),
                    least: s,
                    leaves: seq![Leaf { symbol: s as u32, len: 0, code: 0 }],
                },
            )
        }
    }
}

/// Whether a group is rarer than another, or as rare with a smaller symbol.
pub open spec fn rarer(a: GroupSeq, b: GroupSeq) -> bool {
    a.freq < b.freq || (a.freq == b.freq && a.least < b.least)
}

/// The place of the rarest group.
pub open spec fn rarest(groups: Seq<GroupSeq>) -> int
    decreases groups.len(),
{
    if groups.len() <= 1 {
        0
    } else {
        let k = rarest(groups.drop_last());
        if rarer(groups.last(), groups[k]) {
            groups.len() - 1
        } else {
            k
        }
    }
}

/// Codes with one more bit in front.
pub open spec fn lengthened(leaves: Seq<Leaf>, bit: nat) -> Seq<Leaf> {
    Seq::new(
        leaves.len(),
        |i: int|
            Leaf {
                symbol: leaves[i].symbol,
                len: (leaves[i].len + 1) as u8,
                code: (leaves[i].code + bit * pow2(leaves[i].len as nat)) as u32,
            },
    )
}

/// Two groups made one: the codes of the first go on from a zero bit, those of the second
/// from a one bit.
pub open spec fn joined(a: GroupSeq, b: GroupSeq) -> GroupSeq {
    GroupSeq {
        freq: a.freq + b.freq,
        least: if a.least < b.least {
            a.least
        } else {
            b.least
        },
        leaves: lengthened(a.leaves, 0) + lengthened(b.leaves, 1),
    }
}

/// Whether a code cannot take another bit.
pub open spec fn full_length(leaves: Seq<Leaf>) -> bool {
    exists|i: int| 0 <= i < leaves.len() && (#[trigger] leaves[i]).len >= 31
}

/// The groups after the two rarest have been made one.
pub open spec fn merged_once(groups: Seq<GroupSeq>) -> Seq<GroupSeq> {
    let i = rarest(groups);
    let rest = groups.remove(i);
    let j = rarest(rest);
    rest.remove(j).push(joined(groups[i], rest[j]))
}

/// Whether making the two rarest groups one would give a code of more than 31 bits.
pub open spec fn merge_overlong(groups: Seq<GroupSeq>) -> bool {
    let i = rarest(groups);
    let rest = groups.remove(i);
    full_length(groups[i].leaves) || full_length(rest[rarest(rest)].leaves)
}

proof fn lemma_rarest(groups: Seq<GroupSeq>)
    requires
        groups.len() > 0,
    ensures
        0 <= rarest(groups) < groups.len(),
    decreases groups.len(),
{
    if groups.len() > 1 {
        lemma_rarest(groups.drop_last());
    }
}

/// Making two groups one leaves one group fewer.
pub proof fn lemma_merged_len(groups: Seq<GroupSeq>)
    requires
        groups.len() > 1,
    ensures
        merged_once(groups).len() == groups.len() - 1,
        0 <= rarest(groups) < groups.len(),
        0 <= rarest(groups.remove(rarest(groups))) < groups.len() - 1,
{
    lemma_rarest(groups);
    lemma_rarest(groups.remove(rarest(groups)));
}

/// The codes of all symbols, found by making the two rarest groups one until one is left;
/// there are none where a code would take more than 31 bits.
pub open spec fn all_merged(groups: Seq<GroupSeq>) -> Option<Seq<Leaf>>
    decreases groups.len(),
{
    if groups.len() == 0 {
        None
    } else if groups.len() == 1 {
        Some(groups[0].leaves)
    } else if merge_overlong(groups) {
        None
    } else {
        proof {
            lemma_merged_len(groups);
        }
        all_merged(merged_once(groups))
    }
}

/// A code of no bits is given one.
pub open spec fn at_least_one_bit(leaves: Seq<Leaf>) -> Seq<Leaf> {
    Seq::new(
        leaves.len(),
        |i: int|
            if leaves[i].len == 0 {
                Leaf { symbol: leaves[i].symbol, len: 1, code: leaves[i].code }
            } else {
                leaves[i]
            },
    )
}

/// The code of a symbol among the leaves, or the empty code.
pub open spec fn entry_of(leaves: Seq<Leaf>, s: int) -> CodeEntry
    decreases leaves.len(),
{
    if leaves.len() == 0 {
        CodeEntry { len: 0, code: 0 }
    } else if leaves.last().symbol == s {
        CodeEntry { len: leaves.last().len, code: leaves.last().code }
    } else {
        entry_of(leaves.drop_last(), s)
    }
}

/// The codes of the 256 symbols.
pub open spec fn code_table(leaves: Seq<Leaf>) -> Seq<CodeEntry> {
    Seq::new(256, |s: int| entry_of(leaves, s))
}

/// The Huffman codes for some symbols, unless there are no symbols or a code would take more
/// than 31 bits.
pub open spec fn codes_for(symbols: Seq<u8>) -> Option<Seq<CodeEntry>> {
    match all_merged(singles(symbols, 256)) {
        None => None,
        Some(leaves) => Some(code_table(at_least_one_bit(leaves))),
    }
}

/// The first symbol from `n` on that has a code.
pub open spec fn first_used(entries: Seq<CodeEntry>, n: nat) -> nat
    decreases entries.len() - n,
{
    if n >= entries.len() || entries[n as int].len != 0 {
        n
    } else {
        first_used(entries, n + 1)
    }
}

/// The end of the symbols below `n` that have a code.
pub open spec fn last_used(entries: Seq<CodeEntry>, n: nat) -> nat
    decreases n,
{
    if n == 0 || entries[n - 1].len != 0 {
        n
    } else {
        last_used(entries, (n - 1) as nat)
    }
}

/// The code lengths of a part of a table.
pub open spec fn lengths(entries: Seq<CodeEntry>) -> Seq<u32> {
    Seq::new(entries.len(), |i: int| entries[i].len as u32)
}

/// The part of a table that is stored.
pub open spec fn stored_entries(entries: Seq<CodeEntry>) -> Seq<CodeEntry> {
    let first = first_used(entries, 0);
    let last = last_used(entries, entries.len());
    entries.subrange(first as int, last as int)
}

/// The bytes of a code table.
pub open spec fn table_bytes(entries: Seq<CodeEntry>) -> Seq<u8> {
    bytes::le_bytes(2, 4) + bytes::le_bytes(entries.len(), 4) + bytes::le_bytes(
        first_used(entries, 0),
        4,
    ) + bytes::le_bytes(last_used(entries, entries.len()), 4) + stuffed::stuffed_bytes(
        lengths(stored_entries(entries)),
    ) + bitstream::word_bytes(bitstream::stream_words(stored_entries(entries)))
}

/// The codes of symbols.
pub open spec fn symbol_codes(entries: Seq<CodeEntry>, symbols: Seq<u8>) -> Seq<CodeEntry> {
    Seq::new(symbols.len(), |i: int| entries[symbols[i] as int])
}

/// The bytes of coded symbols; a word of zeros follows the last.
pub open spec fn payload_bytes(entries: Seq<CodeEntry>, symbols: Seq<u8>) -> Seq<u8> {
    bitstream::word_bytes(bitstream::stream_words(symbol_codes(entries, symbols)).push(0))
}

/// The outcome of counting the bits that the symbols below `n` take.
pub open spec fn payload_bits(entries: Seq<CodeEntry>, symbols: Seq<u8>, n: nat) -> std::result::Result<
    nat,
    Fault,
>
    decreases n,
{
    if n == 0 {
        Ok(0)
    } else {
        match payload_bits(entries, symbols, (n - 1) as nat) {
            Err(e) => Err(e),
            Ok(before) => {
                let bits = frequency(symbols, (n - 1) as nat) * entries[n - 1].len as nat;
                if bits > usize::MAX {
                    Err(Fault::SizeOverflow("Huffman symbol payload bit count"@))
                } else if before + bits > usize::MAX {
                    Err(Fault::SizeOverflow("Huffman payload bit count"@))
                } else {
                    Ok(before + bits)
                }
            },
        }
    }
}

/// The bytes that table and coded symbols take, where there are codes.
pub open spec fn candidate_size(symbols: Seq<u8>) -> std::result::Result<Option<nat>, Fault> {
    match codes_for(symbols) {
        None => Ok(None),
        Some(entries) => match payload_bits(entries, symbols, 256) {
            Err(e) => Err(e),
            Ok(bits) => Ok(Some(table_bytes(entries).len() + 4 * ((bits + 31) / 32 + 1))),
        },
    }
}

/// The shorter of the two Huffman encodings, plain symbols winning a tie: whether it codes
/// differences, and its size.
pub open spec fn huffman_choice(plain: Seq<u8>, delta: Seq<u8>) -> std::result::Result<
    Option<(bool, nat)>,
    Fault,
> {
    match candidate_size(plain) {
        Err(e) => Err(e),
        Ok(first) => match candidate_size(delta) {
            Err(e) => Err(e),
            Ok(second) => Ok(
                match (first, second) {
                    (Some(a), Some(b)) => if a <= b {
                        Some((false, a))
                    } else {
                        Some((true, b))
                    },
                    (Some(a), None) => Some((false, a)),
                    (None, Some(b)) => Some((true, b)),
                    (None, None) => None,
                },
            ),
        },
    }
}

/// A Huffman-coded body.
pub open spec fn huffman_body(delta: bool, symbols: Seq<u8>) -> Seq<u8> {
    let entries = codes_for(symbols)->0;
    seq![
        0u8,
        if delta {
            1u8
        } else {
            2u8
        },
    ] + table_bytes(entries) + payload_bytes(entries, symbols)
}

fn to_symbol(signed: bool, value: i32) -> (r: u8)
    requires
        -1024 <= value <= 1024,
    ensures
        r == symbol_of(signed, value as int),
{
    if signed {
        ((value + 1024 + 128) % 256) as u8
    } else {
        ((value + 1024) % 256) as u8
    }
}

/// Lists the symbols of the samples.
pub fn list_plain<T: Sample>(
    samples: &Vec<T>,
    mask: Option<&[u8]>,
    total: usize,
    depth: usize,
    signed: bool,
) -> (r: Vec<u8>)
    requires
        samples@.len() == total * depth,
        blocks::mask_fits(blocks::mask_seq(mask), total as nat),
    ensures
        r@ == plain_symbols(
            depth as int,
            signed,
            blocks::run_pixels(blocks::mask_seq(mask), 0, total as nat),
            samples@,
            0,
            0,
        ),
{
    let _len: usize = samples.len();
    let pixels: Vec<usize> = list_run(mask, total);
    let ghost entries = blocks::mask_seq(mask);
    let ghost list = blocks::run_pixels(entries, 0, total as nat);
    let ghost whole = plain_symbols(depth as int, signed, list, samples@, 0, 0);
    let mut out: Vec<u8> = Vec::new();
    assert(whole =~= out@ + whole);
    let mut i: usize = 0;
    while i < pixels.len()
        invariant
            i <= pixels@.len(),
            samples@.len() == total * depth,
            samples@.len() <= usize::MAX,
            list == blocks::run_pixels(entries, 0, total as nat),
            list == pixels@.map_values(|p: usize| p as int),
            whole == out@ + plain_symbols(depth as int, signed, list, samples@, i as nat, 0),
        decreases pixels@.len() - i,
    {
        let pixel: usize = pixels[i];
        proof {
            blocks::lemma_run_pixels(entries, 0, total as nat);
            assert(list[i as int] == pixel);
        }
        let mut dim: usize = 0;
        while dim < depth
            invariant
                i < pixels@.len(),
                dim <= depth,
                samples@.len() == total * depth,
                samples@.len() <= usize::MAX,
                pixel < total,
                list == pixels@.map_values(|p: usize| p as int),
                list[i as int] == pixel,
                whole == out@ + plain_symbols(
                    depth as int,
                    signed,
                    list,
                    samples@,
                    i as nat,
                    dim as nat,
                ),
            decreases depth - dim,
        {
            proof {
                raster::lemma_sample_index(pixel as nat, depth as nat, dim as nat, total as nat);
            }
            let symbol: u8 = to_symbol(
                signed,
                sample_to_int(samples[raster::sample_index(pixel, depth, dim)]),
            );
            proof {
                let rest = plain_symbols(
                    depth as int,
                    signed,
                    list,
                    samples@,
                    i as nat,
                    (dim + 1) as nat,
                );
                assert(out@ + (seq![symbol] + rest) =~= out@.push(symbol) + rest);
            }
            out.push(symbol);
            dim += 1;
        }
        i += 1;
    }
    assert(whole =~= out@);
    out
}

/// Lists the symbols of the differences.
pub fn list_delta<T: Sample>(
    samples: &Vec<T>,
    mask: Option<&[u8]>,
    width: usize,
    total: usize,
    depth: usize,
    signed: bool,
) -> (r: Vec<u8>)
    requires
        0 < width,
        samples@.len() == total * depth,
        blocks::mask_fits(blocks::mask_seq(mask), total as nat),
    ensures
        r@ == delta_symbols(
            blocks::mask_seq(mask),
            width as int,
            depth as int,
            signed,
            blocks::run_pixels(blocks::mask_seq(mask), 0, total as nat),
            samples@,
            0,
            0,
            0,
        ),
{
    let _len: usize = samples.len();
    let pixels: Vec<usize> = list_run(mask, total);
    let ghost entries = blocks::mask_seq(mask);
    let ghost list = blocks::run_pixels(entries, 0, total as nat);
    let ghost whole = delta_symbols(
        entries,
        width as int,
        depth as int,
        signed,
        list,
        samples@,
        0,
        0,
        0,
    );
    let mut out: Vec<u8> = Vec::new();
    assert(whole =~= out@ + whole);
    let mut dim: usize = 0;
    while dim < depth
        invariant
            0 < width,
            dim <= depth,
            samples@.len() == total * depth,
            samples@.len() <= usize::MAX,
            entries == blocks::mask_seq(mask),
            blocks::mask_fits(entries, total as nat),
            list == blocks::run_pixels(entries, 0, total as nat),
            list == pixels@.map_values(|p: usize| p as int),
            whole == out@ + delta_symbols(
                entries,
                width as int,
                depth as int,
                signed,
                list,
                samples@,
                dim as nat,
                0,
                0,
            ),
        decreases depth - dim,
    {
        let mut last: i32 = 0;
        let mut i: usize = 0;
        while i < pixels.len()
            invariant
                0 < width,
                dim < depth,
                i <= pixels@.len(),
                -128 <= last <= 255,
                samples@.len() == total * depth,
                samples@.len() <= usize::MAX,
                entries == blocks::mask_seq(mask),
                blocks::mask_fits(entries, total as nat),
                list == blocks::run_pixels(entries, 0, total as nat),
                list == pixels@.map_values(|p: usize| p as int),
                whole == out@ + delta_symbols(
                    entries,
                    width as int,
                    depth as int,
                    signed,
                    list,
                    samples@,
                    dim as nat,
                    i as nat,
                    last as int,
                ),
            decreases pixels@.len() - i,
        {
            let pixel: usize = pixels[i];
            proof {
                blocks::lemma_run_pixels(entries, 0, total as nat);
                assert(list[i as int] == pixel);
                raster::lemma_sample_index(pixel as nat, depth as nat, dim as nat, total as nat);
            }
            let value: i32 = sample_to_int(samples[raster::sample_index(pixel, depth, dim)]);
            let before: i32 = predict(mask, width, depth, dim, pixel, last, samples, total);
            let symbol: u8 = to_symbol(signed, value - before);
            proof {
                let rest = delta_symbols(
                    entries,
                    width as int,
                    depth as int,
                    signed,
                    list,
                    samples@,
                    dim as nat,
                    (i + 1) as nat,
                    value as int,
                );
                assert(out@ + (seq![symbol] + rest) =~= out@.push(symbol) + rest);
            }
            out.push(symbol);
            last = value;
            i += 1;
        }
        dim += 1;
    }
    assert(whole =~= out@);
    out
}

/// Counts how often each symbol occurs.
fn histogram(symbols: &Vec<u8>) -> (r: Vec<u64>)
    ensures
        r@.len() == 256,
        forall|s: int| 0 <= s < 256 ==> #[trigger] r@[s] == frequency(symbols@, s as nat),
{
    let mut counts: Vec<u64> = Vec::with_capacity(256);
    let mut s: usize = 0;
    while s < 256
        invariant
            s <= 256,
            counts@.len() == s,
            forall|t: int| 0 <= t < s ==> #[trigger] counts@[t] == 0,
        decreases 256 - s,
    {
        counts.push(0);
        s += 1;
    }
    let mut i: usize = 0;
    assert(symbols@.subrange(0, 0) =~= seq![]);
    while i < symbols.len()
        invariant
            i <= symbols@.len(),
            counts@.len() == 256,
            forall|t: int|
                0 <= t < 256 ==> #[trigger] counts@[t] == frequency(
                    symbols@.subrange(0, i as int),
                    t as nat,
                ),
            forall|t: int| 0 <= t < 256 ==> #[trigger] counts@[t] <= i,
        decreases symbols@.len() - i,
    {
        proof {
            assert(symbols@.subrange(0, i + 1).drop_last() =~= symbols@.subrange(0, i as int));
        }
        let k: usize = symbols[i] as usize;
        let count: u64 = counts[k];
        counts.set(k, count + 1);
        i += 1;
    }
    assert(symbols@.subrange(0, symbols@.len() as int) =~= symbols@);
    counts
}

/// Symbols that share the beginning of their codes.
pub struct CodeGroup {
    freq: u128,
    least: u32,
    leaves: Vec<Leaf>,
}

impl View for CodeGroup {
    type V = GroupSeq;

    closed spec fn view(&self) -> GroupSeq {
        GroupSeq { freq: self.freq as nat, least: self.least as nat, leaves: self.leaves@ }
    }
}

spec fn groups_view(groups: Seq<CodeGroup>) -> Seq<GroupSeq> {
    Seq::new(groups.len(), |i: int| groups[i]@)
}

/// Frequencies stay far from overflow, codes fit their lengths.
spec fn groups_bounded(groups: Seq<GroupSeq>) -> bool {
    &&& groups.len() <= 256
    &&& freq_sum(groups) <= 0x100_0000_0000_0000_0000
    &&& forall|i: int, j: int|
        #![trigger groups[i].leaves[j]]
        0 <= i < groups.len() && 0 <= j < groups[i].leaves.len() ==> groups[i].leaves[j].len <= 31
            && groups[i].leaves[j].code < pow2(groups[i].leaves[j].len as nat)
}

spec fn freq_sum(groups: Seq<GroupSeq>) -> nat
    decreases groups.len(),
{
    if groups.len() == 0 {
        0
    } else {
        freq_sum(groups.drop_last()) + groups.last().freq
    }
}

proof fn lemma_freq_remove(groups: Seq<GroupSeq>, i: int)
    requires
        0 <= i < groups.len(),
    ensures
        freq_sum(groups) == freq_sum(groups.remove(i)) + groups[i].freq,
    decreases groups.len(),
{
    if i < groups.len() - 1 {
        lemma_freq_remove(groups.drop_last(), i);
        assert(groups.remove(i).drop_last() =~= groups.drop_last().remove(i));
    } else {
        assert(groups.remove(i) =~= groups.drop_last());
    }
}

/// The place of the rarest group.
fn find_rarest(groups: &Vec<CodeGroup>) -> (r: usize)
    requires
        groups@.len() > 0,
    ensures
        r < groups@.len(),
        r == rarest(groups_view(groups@)),
{
    let ghost all = groups_view(groups@);
    let mut best: usize = 0;
    let mut i: usize = 1;
    while i < groups.len()
        invariant
            1 <= i <= groups@.len(),
            best < i,
            all == groups_view(groups@),
            best == rarest(all.subrange(0, i as int)),
        decreases groups@.len() - i,
    {
        proof {
            assert(all.subrange(0, i + 1).drop_last() =~= all.subrange(0, i as int));
        }
        let a: &CodeGroup = &groups[i];
        let b: &CodeGroup = &groups[best];
        if a.freq < b.freq || (a.freq == b.freq && a.least < b.least) {
            best = i;
        }
        i += 1;
    }
    assert(all.subrange(0, all.len() as int) =~= all);
    best
}

/// Appends codes with one more bit in front.
fn push_lengthened(out: &mut Vec<Leaf>, leaves: &Vec<Leaf>, bit: u32)
    requires
        bit <= 1,
        !full_length(leaves@),
        forall|i: int|
            0 <= i < leaves@.len() ==> (#[trigger] leaves@[i]).code < pow2(leaves@[i].len as nat),
    ensures
        final(out)@ == old(out)@ + lengthened(leaves@, bit as nat),
        forall|i: int|
            0 <= i < leaves@.len() ==> (#[trigger] lengthened(leaves@, bit as nat)[i]).len <= 31
                && lengthened(leaves@, bit as nat)[i].code < pow2(
                lengthened(leaves@, bit as nat)[i].len as nat,
            ),
{
    let ghost before = out@;
    let ghost all = lengthened(leaves@, bit as nat);
    let mut i: usize = 0;
    while i < leaves.len()
        invariant
            i <= leaves@.len(),
            bit <= 1,
            !full_length(leaves@),
            all == lengthened(leaves@, bit as nat),
            forall|j: int|
                0 <= j < leaves@.len() ==> (#[trigger] leaves@[j]).code < pow2(
                    leaves@[j].len as nat,
                ),
            out@ =~= before + all.subrange(0, i as int),
            forall|j: int|
                0 <= j < i ==> (#[trigger] all[j]).len <= 31 && all[j].code < pow2(
                    all[j].len as nat,
                ),
        decreases leaves@.len() - i,
    {
        let leaf: Leaf = leaves[i];
        proof {
            assert(leaves@[i as int].len < 31);
            lemma_pow2_unfold((leaf.len + 1) as nat);
            lemma2_to64();
            lemma_pow2_strictly_increases(leaf.len as nat, 31);
            assert(0 * pow2(leaf.len as nat) == 0 && 1 * pow2(leaf.len as nat) == pow2(
                leaf.len as nat,
            )) by (nonlinear_arith);
        }
        let top: u32 = power(leaf.len as u32) as u32;
        let code: u32 = if bit == 1 { leaf.code + top } else { leaf.code };
        let longer = Leaf { symbol: leaf.symbol, len: leaf.len + 1, code };
        out.push(longer);
        proof {
            assert(all[i as int] == longer);
        }
        i += 1;
    }
    assert(all.subrange(0, all.len() as int) =~= all);
}

/// Whether a code cannot take another bit.
fn is_full_length(leaves: &Vec<Leaf>) -> (r: bool)
    ensures
        r == full_length(leaves@),
{
    let mut i: usize = 0;
    while i < leaves.len()
        invariant
            i <= leaves@.len(),
            forall|j: int| 0 <= j < i ==> (#[trigger] leaves@[j]).len < 31,
        decreases leaves@.len() - i,
    {
        if leaves[i].len >= 31 {
            return true;
        }
        i += 1;
    }
    false
}

/// Makes the two rarest groups one.
#[verifier::rlimit(40)]
fn merge_once(groups: &mut Vec<CodeGroup>) -> (r: bool)
    requires
        old(groups)@.len() > 1,
        groups_bounded(groups_view(old(groups)@)),
    ensures
        r == !merge_overlong(groups_view(old(groups)@)),
        r ==> groups_view(final(groups)@) == merged_once(groups_view(old(groups)@)),
        r ==> final(groups)@.len() == old(groups)@.len() - 1,
        r ==> groups_bounded(groups_view(final(groups)@)),
{
    let ghost all = groups_view(groups@);
    let i: usize = find_rarest(groups);
    let a: CodeGroup = groups.remove(i);
    let ghost rest = groups_view(groups@);
    proof {
        assert(rest =~= all.remove(i as int));
        lemma_freq_remove(all, i as int);
    }
    let j: usize = find_rarest(groups);
    let b: CodeGroup = groups.remove(j);
    let ghost others = groups_view(groups@);
    proof {
        assert(others =~= rest.remove(j as int));
        lemma_freq_remove(rest, j as int);
        assert(all[i as int] == a@);
        assert(rest[j as int] == b@);
    }
    if is_full_length(&a.leaves) || is_full_length(&b.leaves) {
        return false;
    }
    proof {
        assert forall|k: int| 0 <= k < a.leaves@.len() implies (#[trigger] a.leaves@[k]).code
            < pow2(a.leaves@[k].len as nat) by {
            assert(all[i as int].leaves[k] == a.leaves@[k]);
        }
        let jj: int = if j < i { j as int } else { j as int + 1 };
        assert(all[jj] == b@);
        assert forall|k: int| 0 <= k < b.leaves@.len() implies (#[trigger] b.leaves@[k]).code
            < pow2(b.leaves@[k].len as nat) by {
            assert(all[jj].leaves[k] == b.leaves@[k]);
        }
    }
    let mut leaves: Vec<Leaf> = Vec::new();
    push_lengthened(&mut leaves, &a.leaves, 0);
    push_lengthened(&mut leaves, &b.leaves, 1);
    let group = CodeGroup {
        freq: a.freq + b.freq,
        least: if a.least < b.least { a.least } else { b.least },
        leaves,
    };
    proof {
        assert(group.leaves@ =~= joined(a@, b@).leaves);
        assert(group@ =~= joined(a@, b@));
    }
    groups.push(group);
    proof {
        let after = groups_view(groups@);
        assert(after =~= others.push(group@));
        assert(after.drop_last() =~= others);
        assert forall|x: int, k: int|
            #![trigger after[x].leaves[k]]
            0 <= x < after.len() && 0 <= k < after[x].leaves.len() implies after[x].leaves[k].len
            <= 31 && after[x].leaves[k].code < pow2(after[x].leaves[k].len as nat) by {
            if x < others.len() {
                let y: int = if x < j { x } else { x + 1 };
                assert(others[x] == rest[y]);
                let z: int = if y < i { y } else { y + 1 };
                assert(rest[y] == all[z]);
                assert(all[z].leaves[k] == after[x].leaves[k]);
            } else if k < a.leaves@.len() {
                assert(after[x].leaves[k] == lengthened(a.leaves@, 0)[k]);
            } else {
                assert(after[x].leaves[k] == lengthened(b.leaves@, 1)[k - a.leaves@.len()]);
            }
        }
    }
    true
}

proof fn lemma_frequency_sum(symbols: Seq<u8>, n: nat)
    requires
        n <= 256,
        symbols.len() <= usize::MAX,
    ensures
        singles(symbols, n).len() <= n,
        freq_sum(singles(symbols, n)) <= n * symbols.len(),
    decreases n,
{
    if n > 0 {
        lemma_frequency_sum(symbols, (n - 1) as nat);
        lemma_frequency_bound(symbols, (n - 1) as nat);
        let before = singles(symbols, (n - 1) as nat);
        if frequency(symbols, (n - 1) as nat) != 0 {
            assert(singles(symbols, n).drop_last() =~= before);
        }
        assert((n - 1) * symbols.len() + symbols.len() == n * symbols.len()) by (nonlinear_arith);
    } else {
        assert(0 * symbols.len() == 0) by (nonlinear_arith);
    }
}

proof fn lemma_frequency_bound(symbols: Seq<u8>, s: nat)
    ensures
        frequency(symbols, s) <= symbols.len(),
    decreases symbols.len(),
{
    if symbols.len() > 0 {
        lemma_frequency_bound(symbols.drop_last(), s);
    }
}

/// The groups to begin with.
fn single_groups(symbols: &Vec<u8>, counts: &Vec<u64>) -> (r: Vec<CodeGroup>)
    requires
        counts@.len() == 256,
        forall|s: int| 0 <= s < 256 ==> #[trigger] counts@[s] == frequency(symbols@, s as nat),
    ensures
        groups_view(r@) == singles(symbols@, 256),
        groups_bounded(groups_view(r@)),
{
    let _len: usize = symbols.len();
    let mut groups: Vec<CodeGroup> = Vec::new();
    let mut s: usize = 0;
    proof {
        lemma2_to64();
        assert(groups_view(groups@) =~= seq![]);
    }
    while s < 256
        invariant
            s <= 256,
            pow2(0) == 1,
            counts@.len() == 256,
            forall|t: int| 0 <= t < 256 ==> #[trigger] counts@[t] == frequency(symbols@, t as nat),
            groups_view(groups@) == singles(symbols@, s as nat),
            forall|i: int, j: int|
                #![trigger groups_view(groups@)[i].leaves[j]]
                0 <= i < groups_view(groups@).len() && 0 <= j < groups_view(
                    groups@,
                )[i].leaves.len() ==> groups_view(groups@)[i].leaves[j].len == 0 && groups_view(
                    groups@,
                )[i].leaves[j].code == 0,
        decreases 256 - s,
    {
        let freq: u64 = counts[s];
        if freq != 0 {
            let ghost before = groups_view(groups@);
            let mut leaves: Vec<Leaf> = Vec::new();
            leaves.push(Leaf { symbol: s as u32, len: 0, code: 0 });
            let group = CodeGroup { freq: freq as u128, least: s as u32, leaves };
            proof {
                assert(group.leaves@ =~= seq![Leaf { symbol: s as u32, len: 0, code: 0 }]);
            }
            groups.push(group);
            proof {
                assert(groups_view(groups@) =~= before.push(group@));
                assert forall|i: int, j: int|
                    #![trigger groups_view(groups@)[i].leaves[j]]
                    0 <= i < groups_view(groups@).len() && 0 <= j < groups_view(
                        groups@,
                    )[i].leaves.len() implies groups_view(groups@)[i].leaves[j].len == 0
                    && groups_view(groups@)[i].leaves[j].code == 0 by {
                    if i < before.len() {
                        assert(before[i].leaves[j] == groups_view(groups@)[i].leaves[j]);
                    }
                }
            }
        }
        s += 1;
    }
    proof {
        lemma_frequency_sum(symbols@, 256);
        assert(256 * symbols@.len() <= 0x100_0000_0000_0000_0000) by (nonlinear_arith)
            requires
                symbols@.len() <= usize::MAX,
                usize::MAX <= 0xffff_ffff_ffff_ffff,
        ;
    }
    groups
}

/// The leaves of the last group of a merge, each with at least one bit.
fn merge_all(symbols: &Vec<u8>, counts: &Vec<u64>) -> (r: Option<Vec<Leaf>>)
    requires
        counts@.len() == 256,
        forall|s: int| 0 <= s < 256 ==> #[trigger] counts@[s] == frequency(symbols@, s as nat),
    ensures
        match r {
            Some(leaves) => {
                &&& all_merged(singles(symbols@, 256)) == Some(leaves@)
                &&& forall|i: int|
                    0 <= i < leaves@.len() ==> (#[trigger] leaves@[i]).len <= 31 && leaves@[i].code
                        < pow2(leaves@[i].len as nat)
            },
            None => all_merged(singles(symbols@, 256)) is None,
        },
{
    let mut groups: Vec<CodeGroup> = single_groups(symbols, counts);
    let ghost whole = all_merged(groups_view(groups@));
    if groups.len() == 0 {
        return None;
    }
    while groups.len() > 1
        invariant
            groups@.len() >= 1,
            groups_bounded(groups_view(groups@)),
            whole == all_merged(singles(symbols@, 256)),
            whole == all_merged(groups_view(groups@)),
        decreases groups@.len(),
    {
        if !merge_once(&mut groups) {
            return None;
        }
    }
    let ghost last = groups_view(groups@);
    let group: CodeGroup = groups.remove(0);
    proof {
        assert(last[0] == group@);
        assert forall|i: int| 0 <= i < group.leaves@.len() implies (#[trigger] group.leaves@[i]).len
            <= 31 && group.leaves@[i].code < pow2(group.leaves@[i].len as nat) by {
            assert(last[0].leaves[i] == group.leaves@[i]);
        }
    }
    Some(group.leaves)
}

/// The code of a symbol among the leaves.
fn find_entry(leaves: &Vec<Leaf>, s: u32) -> (r: CodeEntry)
    requires
        forall|i: int|
            0 <= i < leaves@.len() ==> (#[trigger] leaves@[i]).len <= 31 && leaves@[i].code < pow2(
                leaves@[i].len as nat,
            ),
    ensures
        r == entry_of(at_least_one_bit(leaves@), s as int),
        r.len <= 31,
        r.wf(),
{
    let ghost all = at_least_one_bit(leaves@);
    let mut entry = CodeEntry { len: 0, code: 0 };
    let mut i: usize = 0;
    proof {
        lemma2_to64();
        assert(all.subrange(0, 0) =~= seq![]);
    }
    while i < leaves.len()
        invariant
            i <= leaves@.len(),
            all == at_least_one_bit(leaves@),
            pow2(0) == 1,
            pow2(1) == 2,
            forall|j: int|
                0 <= j < leaves@.len() ==> (#[trigger] leaves@[j]).len <= 31 && leaves@[j].code
                    < pow2(leaves@[j].len as nat),
            entry == entry_of(all.subrange(0, i as int), s as int),
            entry.len <= 31,
            entry.wf(),
        decreases leaves@.len() - i,
    {
        proof {
            assert(all.subrange(0, i + 1).drop_last() =~= all.subrange(0, i as int));
        }
        let leaf: Leaf = leaves[i];
        if leaf.symbol == s {
            entry = CodeEntry { len: if leaf.len == 0 { 1 } else { leaf.len }, code: leaf.code };
        }
        i += 1;
    }
    assert(all.subrange(0, all.len() as int) =~= all);
    entry
}

/// Whether every code has at most 31 bits and fits them.
pub open spec fn table_fits(entries: Seq<CodeEntry>) -> bool {
    forall|s: int| 0 <= s < entries.len() ==> (#[trigger] entries[s]).len <= 31 && entries[s].wf()
}

/// Builds the Huffman codes for some symbols.
pub fn build_codes(symbols: &Vec<u8>) -> (r: Option<Vec<CodeEntry>>)
    ensures
        match r {
            Some(entries) => {
                &&& codes_for(symbols@) == Some(entries@)
                &&& entries@.len() == 256
                &&& table_fits(entries@)
            },
            None => codes_for(symbols@) is None,
        },
{
    let counts: Vec<u64> = histogram(symbols);
    let leaves: Vec<Leaf> = match merge_all(symbols, &counts) {
        Some(leaves) => leaves,
        None => {
            return None;
        },
    };
    let ghost table = code_table(at_least_one_bit(leaves@));
    let mut entries: Vec<CodeEntry> = Vec::with_capacity(256);
    let mut s: u32 = 0;
    while s < 256
        invariant
            s <= 256,
            table == code_table(at_least_one_bit(leaves@)),
            forall|j: int|
                0 <= j < leaves@.len() ==> (#[trigger] leaves@[j]).len <= 31 && leaves@[j].code
                    < pow2(leaves@[j].len as nat),
            entries@.len() == s,
            forall|t: int| 0 <= t < s ==> #[trigger] entries@[t] == table[t],
            table_fits(entries@),
        decreases 256 - s,
    {
        let entry: CodeEntry = find_entry(&leaves, s);
        entries.push(entry);
        s += 1;
    }
    assert(entries@ =~= table);
    Some(entries)
}

proof fn lemma_first_used(entries: Seq<CodeEntry>, n: nat)
    requires
        n <= entries.len(),
    ensures
        n <= first_used(entries, n) <= entries.len(),
        first_used(entries, n) < entries.len() ==> entries[first_used(entries, n) as int].len != 0,
        forall|s: int| n <= s < first_used(entries, n) ==> (#[trigger] entries[s]).len == 0,
    decreases entries.len() - n,
{
    if n < entries.len() && entries[n as int].len == 0 {
        lemma_first_used(entries, n + 1);
    }
}

proof fn lemma_last_used(entries: Seq<CodeEntry>, n: nat)
    requires
        n <= entries.len(),
    ensures
        last_used(entries, n) <= n,
        last_used(entries, n) > 0 ==> entries[last_used(entries, n) - 1].len != 0,
        forall|s: int| last_used(entries, n) <= s < n ==> (#[trigger] entries[s]).len == 0,
    decreases n,
{
    if n > 0 && entries[n - 1].len == 0 {
        lemma_last_used(entries, (n - 1) as nat);
    }
}

/// The stored part of a table runs from its first code to its last.
pub proof fn lemma_stored(entries: Seq<CodeEntry>)
    requires
        exists|s: int| 0 <= s < entries.len() && (#[trigger] entries[s]).len != 0,
    ensures
        first_used(entries, 0) < last_used(entries, entries.len()) <= entries.len(),
        forall|s: int|
            0 <= s < entries.len() && !(first_used(entries, 0) <= s < last_used(
                entries,
                entries.len(),
            )) ==> (#[trigger] entries[s]).len == 0,
{
    lemma_first_used(entries, 0);
    lemma_last_used(entries, entries.len());
    let s = choose|s: int| 0 <= s < entries.len() && (#[trigger] entries[s]).len != 0;
    assert(first_used(entries, 0) <= s);
    assert(s < last_used(entries, entries.len()));
}

/// Every leaf has a code of at least one bit.
proof fn lemma_leaves_used(leaves: Seq<Leaf>, s: int)
    requires
        exists|i: int| 0 <= i < leaves.len() && (#[trigger] leaves[i]).symbol == s,
        forall|i: int| 0 <= i < leaves.len() ==> (#[trigger] leaves[i]).len >= 1,
    ensures
        entry_of(leaves, s).len >= 1,
    decreases leaves.len(),
{
    if leaves.last().symbol != s {
        let i = choose|i: int| 0 <= i < leaves.len() && (#[trigger] leaves[i]).symbol == s;
        assert(leaves.drop_last()[i].symbol == s);
        lemma_leaves_used(leaves.drop_last(), s);
    }
}

/// The codes of a part of a table, written one after the other.
fn entry_words(entries: &Vec<CodeEntry>, first: usize, last: usize) -> (r: Vec<u32>)
    requires
        first <= last <= entries@.len(),
        table_fits(entries@),
    ensures
        r@ == bitstream::stream_words(entries@.subrange(first as int, last as int)),
{
    let ghost part = entries@.subrange(first as int, last as int);
    let mut writer = MsbBitWriter::new();
    let mut s: usize = first;
    assert(part.subrange(0, 0) =~= seq![]);
    while s < last
        invariant
            first <= s <= last <= entries@.len(),
            table_fits(entries@),
            part == entries@.subrange(first as int, last as int),
            writer.wf(),
            writer.codes() =~= part.subrange(0, s - first),
        decreases last - s,
    {
        writer.push_bits(entries[s]);
        s += 1;
    }
    assert(part.subrange(0, part.len() as int) =~= part);
    writer.into_words()
}

/// Writes a code table.
pub fn build_table_bytes(entries: &Vec<CodeEntry>) -> (r: Vec<u8>)
    requires
        entries@.len() == 256,
        table_fits(entries@),
        exists|s: int| 0 <= s < entries@.len() && (#[trigger] entries@[s]).len != 0,
    ensures
        r@ == table_bytes(entries@),
{
    proof {
        lemma_stored(entries@);
    }
    let mut first: usize = 0;
    while first < 256 && entries[first].len == 0
        invariant
            first <= 256,
            entries@.len() == 256,
            first_used(entries@, 0) == first_used(entries@, first as nat),
        decreases 256 - first,
    {
        first += 1;
    }
    let mut last: usize = 256;
    while last > 0 && entries[last - 1].len == 0
        invariant
            last <= 256,
            entries@.len() == 256,
            last_used(entries@, 256) == last_used(entries@, last as nat),
        decreases last,
    {
        last -= 1;
    }
    let ghost part = entries@.subrange(first as int, last as int);
    let mut lens: Vec<u32> = Vec::new();
    let mut s: usize = first;
    while s < last
        invariant
            first <= s <= last <= 256,
            entries@.len() == 256,
            part == entries@.subrange(first as int, last as int),
            lens@ =~= lengths(part).subrange(0, s - first),
        decreases last - s,
    {
        lens.push(entries[s].len as u32);
        s += 1;
    }
    assert(lens@ =~= lengths(part));
    let mut out: Vec<u8> = Vec::new();
    push_u32(&mut out, 2);
    push_u32(&mut out, 256);
    push_u32(&mut out, first as u32);
    push_u32(&mut out, last as u32);
    let ghost head = out@;
    proof {
        lemma_short_lengths(part);
    }
    let written = write_raw_block(&mut out, lens.as_slice());
    let words: Vec<u32> = entry_words(entries, first, last);
    push_words(&mut out, &words);
    proof {
        assert(part == stored_entries(entries@));
        assert(out@ =~= table_bytes(entries@));
    }
    out
}

/// Code lengths of at most 31 take five bits.
pub proof fn lemma_short_lengths(part: Seq<CodeEntry>)
    requires
        forall|s: int| 0 <= s < part.len() ==> (#[trigger] part[s]).len <= 31,
    ensures
        stuffed::largest(lengths(part)) <= 31,
        stuffed::bits_needed(stuffed::largest(lengths(part))) <= 5,
    decreases part.len(),
{
    lemma_largest_below(lengths(part), 31);
    stuffed::lemma_bits_monotone(stuffed::largest(lengths(part)), 31);
    reveal_with_fuel(stuffed::bits_needed, 7);
}

proof fn lemma_largest_below(values: Seq<u32>, limit: nat)
    requires
        forall|i: int| 0 <= i < values.len() ==> #[trigger] values[i] <= limit,
    ensures
        stuffed::largest(values) <= limit,
    decreases values.len(),
{
    if values.len() > 0 {
        lemma_largest_below(values.drop_last(), limit);
    }
}

/// Counts the bits that coded symbols take.
fn count_bits(entries: &Vec<CodeEntry>, symbols: &Vec<u8>, counts: &Vec<u64>) -> (r: Result<usize>)
    requires
        entries@.len() == 256,
        counts@.len() == 256,
        forall|s: int| 0 <= s < 256 ==> #[trigger] counts@[s] == frequency(symbols@, s as nat),
    ensures
        match r {
            Ok(bits) => payload_bits(entries@, symbols@, 256) == Ok::<nat, Fault>(bits as nat),
            Err(e) => payload_bits(entries@, symbols@, 256) == Err::<nat, Fault>(e@),
        },
{
    let _len: usize = symbols.len();
    let mut total: usize = 0;
    let mut s: usize = 0;
    while s < 256
        invariant
            s <= 256,
            entries@.len() == 256,
            counts@.len() == 256,
            symbols@.len() <= usize::MAX,
            forall|t: int| 0 <= t < 256 ==> #[trigger] counts@[t] == frequency(symbols@, t as nat),
            payload_bits(entries@, symbols@, s as nat) == Ok::<nat, Fault>(total as nat),
        decreases 256 - s,
    {
        proof {
            lemma_frequency_bound(symbols@, s as nat);
        }
        let count: u128 = counts[s] as u128;
        let len: u128 = entries[s].len as u128;
        proof {
            assert(count * len <= 0x1_0000_0000_0000_0000 * 255) by (nonlinear_arith)
                requires
                    count <= 0x1_0000_0000_0000_0000,
                    len <= 255,
            ;
        }
        let bits: u128 = count * len;
        if bits > usize::MAX as u128 {
            proof {
                lemma_bits_fault(entries@, symbols@, (s + 1) as nat, 256);
            }
            return Err(Error::SizeOverflow("Huffman symbol payload bit count"));
        }
        if bits as usize > usize::MAX - total {
            proof {
                lemma_bits_fault(entries@, symbols@, (s + 1) as nat, 256);
            }
            return Err(Error::SizeOverflow("Huffman payload bit count"));
        }
        total = total + bits as usize;
        s += 1;
    }
    Ok(total)
}

proof fn lemma_bits_fault(entries: Seq<CodeEntry>, symbols: Seq<u8>, n: nat, m: nat)
    requires
        n <= m,
        payload_bits(entries, symbols, n) is Err,
    ensures
        payload_bits(entries, symbols, m) == payload_bits(entries, symbols, n),
    decreases m - n,
{
    if n < m {
        lemma_bits_fault(entries, symbols, n, (m - 1) as nat);
    }
}

/// Whether one of two codes begins the other.
pub open spec fn clash(a: CodeEntry, b: CodeEntry) -> bool {
    ||| a.len <= b.len && b.code as nat / pow2((b.len - a.len) as nat) == a.code
    ||| b.len <= a.len && a.code as nat / pow2((a.len - b.len) as nat) == b.code
}

/// Whether no code of a table begins another.
pub open spec fn prefix_free(entries: Seq<CodeEntry>) -> bool {
    forall|s: int, t: int|
        #![trigger entries[s], entries[t]]
        0 <= s < entries.len() && 0 <= t < entries.len() && s != t && entries[s].len > 0
            && entries[t].len > 0 ==> !clash(entries[s], entries[t])
}

spec fn leaf_code(leaf: Leaf) -> CodeEntry {
    CodeEntry { len: leaf.len, code: leaf.code }
}

spec fn fitted(leaves: Seq<Leaf>) -> bool {
    forall|i: int|
        0 <= i < leaves.len() ==> (#[trigger] leaves[i]).len <= 31 && leaves[i].code < pow2(
            leaves[i].len as nat,
        )
}

spec fn apart(leaves: Seq<Leaf>) -> bool {
    forall|i: int, j: int|
        #![trigger leaves[i], leaves[j]]
        0 <= i < leaves.len() && 0 <= j < leaves.len() && i != j ==> !clash(
            leaf_code(leaves[i]),
            leaf_code(leaves[j]),
        )
}

spec fn has_symbol(leaves: Seq<Leaf>, s: int) -> bool {
    exists|i: int| 0 <= i < leaves.len() && (#[trigger] leaves[i]).symbol == s
}

spec fn some_symbol(groups: Seq<GroupSeq>, s: int) -> bool {
    exists|g: int| 0 <= g < groups.len() && has_symbol((#[trigger] groups[g]).leaves, s)
}

spec fn groups_apart(groups: Seq<GroupSeq>) -> bool {
    forall|g: int|
        0 <= g < groups.len() ==> fitted((#[trigger] groups[g]).leaves) && apart(groups[g].leaves)
}

/// A bit in front keeps codes apart that were.
proof fn lemma_lengthened_pair(x: Leaf, y: Leaf, bit: nat)
    requires
        bit <= 1,
        x.len <= 30,
        y.len <= 30,
        x.code < pow2(x.len as nat),
        y.code < pow2(y.len as nat),
        !clash(leaf_code(x), leaf_code(y)),
        x.len <= y.len,
    ensures
        !clash(
            leaf_code(lengthened(seq![x], bit)[0]),
            leaf_code(lengthened(seq![y], bit)[0]),
        ),
{
    let d = (y.len - x.len) as nat;
    let (p, q, w) = (pow2(x.len as nat), pow2(y.len as nat), pow2(d));
    lemma_pow2_pos(d);
    lemma_pow2_adds(d, x.len as nat);
    lemma2_to64();
    if y.len < 31 {
        vstd::arithmetic::power2::lemma_pow2_strictly_increases(y.len as nat, 31);
    }
    lemma_pow2_strictly_increases(x.len as nat, 31);
    assert(bit * p <= p && bit * q <= q) by (nonlinear_arith)
        requires
            bit <= 1,
    ;
    assert(bit * q == w * (bit * p)) by (nonlinear_arith)
        requires
            q == w * p,
    ;
    vstd::arithmetic::div_mod::lemma_div_multiples_vanish_fancy(
        (bit * p) as int,
        0,
        w as int,
    );
    vstd::arithmetic::div_mod::lemma_fundamental_div_mod(y.code as int, w as int);
    let k = y.code as nat / w;
    let m = y.code as nat % w;
    assert(w * (bit * p) + (w * k + m) == w * (bit * p + k) + m) by (nonlinear_arith);
    vstd::arithmetic::div_mod::lemma_fundamental_div_mod_converse(
        (y.code + bit * q) as int,
        w as int,
        (bit * p + k) as int,
        m as int,
    );
    if x.len == y.len {
        assert(d == 0);
        vstd::arithmetic::div_mod::lemma_div_basics(x.code as int);
        vstd::arithmetic::div_mod::lemma_div_basics(y.code as int);
        vstd::arithmetic::div_mod::lemma_div_basics((x.code + bit * p) as int);
        vstd::arithmetic::div_mod::lemma_div_basics((y.code + bit * q) as int);
    }
}

/// Codes that go on from different bits are apart.
proof fn lemma_crossed_pair(x: Leaf, y: Leaf)
    requires
        x.len <= 30,
        y.len <= 30,
        x.code < pow2(x.len as nat),
        y.code < pow2(y.len as nat),
    ensures
        !clash(leaf_code(lengthened(seq![x], 0)[0]), leaf_code(lengthened(seq![y], 1)[0])),
{
    let (p, q) = (pow2(x.len as nat), pow2(y.len as nat));
    lemma2_to64();
    lemma_pow2_strictly_increases(x.len as nat, 31);
    lemma_pow2_strictly_increases(y.len as nat, 31);
    assert(0 * p == 0 && 1 * q == q) by (nonlinear_arith);
    if x.len <= y.len {
        let d = (y.len - x.len) as nat;
        let w = pow2(d);
        lemma_pow2_pos(d);
        lemma_pow2_adds(d, x.len as nat);
        vstd::arithmetic::div_mod::lemma_fundamental_div_mod((y.code + q) as int, w as int);
        let k = (y.code + q) / w as int;
        assert(k >= p) by (nonlinear_arith)
            requires
                y.code + q == w * k + (y.code + q) % w as int,
                ((y.code + q) % w as int) < w,
                q == w * p,
                w > 0,
                y.code >= 0,
        ;
    }
    if y.len <= x.len {
        let d = (x.len - y.len) as nat;
        lemma_pow2_pos(d);
        vstd::arithmetic::div_mod::lemma_div_nonincreasing(x.code as int, pow2(d) as int);
        lemma_pow2_adds(d, y.len as nat);
        vstd::arithmetic::mul::lemma_mul_is_commutative(q as int, pow2(d) as int);
        vstd::arithmetic::div_mod::lemma_multiply_divide_lt(
            x.code as int,
            pow2(d) as int,
            q as int,
        );
    }
}

/// Joining two groups keeps codes apart and loses no symbol.
proof fn lemma_joined(a: GroupSeq, b: GroupSeq)
    requires
        fitted(a.leaves),
        fitted(b.leaves),
        apart(a.leaves),
        apart(b.leaves),
        !full_length(a.leaves),
        !full_length(b.leaves),
    ensures
        fitted(joined(a, b).leaves),
        apart(joined(a, b).leaves),
        forall|s: int|
            has_symbol(a.leaves, s) || has_symbol(b.leaves, s) ==> #[trigger] has_symbol(
                joined(a, b).leaves,
                s,
            ),
{
    let all = joined(a, b).leaves;
    let n = a.leaves.len() as int;
    lemma2_to64();
    assert forall|i: int| 0 <= i < all.len() implies (#[trigger] all[i]).len <= 31 && all[i].code
        < pow2(all[i].len as nat) by {
        let old_leaf = if i < n {
            a.leaves[i]
        } else {
            b.leaves[i - n]
        };
        assert(old_leaf.len < 31);
        lemma_pow2_unfold((old_leaf.len + 1) as nat);
        lemma_pow2_strictly_increases(old_leaf.len as nat, 31);
        assert(0 * pow2(old_leaf.len as nat) == 0 && 1 * pow2(old_leaf.len as nat) == pow2(
            old_leaf.len as nat,
        )) by (nonlinear_arith);
    }
    assert forall|i: int, j: int|
        #![trigger all[i], all[j]]
        0 <= i < all.len() && 0 <= j < all.len() && i != j implies !clash(
        leaf_code(all[i]),
        leaf_code(all[j]),
    ) by {
        if i < n && j < n {
            let (x, y) = (a.leaves[i], a.leaves[j]);
            assert(all[i] == lengthened(seq![x], 0)[0]);
            assert(all[j] == lengthened(seq![y], 0)[0]);
            assert(x.len < 31 && y.len < 31);
            if x.len <= y.len {
                lemma_lengthened_pair(x, y, 0);
            } else {
                lemma_lengthened_pair(y, x, 0);
            }
        } else if i >= n && j >= n {
            let (x, y) = (b.leaves[i - n], b.leaves[j - n]);
            assert(all[i] == lengthened(seq![x], 1)[0]);
            assert(all[j] == lengthened(seq![y], 1)[0]);
            assert(x.len < 31 && y.len < 31);
            if x.len <= y.len {
                lemma_lengthened_pair(x, y, 1);
            } else {
                lemma_lengthened_pair(y, x, 1);
            }
        } else {
            let (x, y) = if i < n {
                (a.leaves[i], b.leaves[j - n])
            } else {
                (a.leaves[j], b.leaves[i - n])
            };
            assert(x.len < 31 && y.len < 31);
            lemma_crossed_pair(x, y);
            if i < n {
                assert(all[i] == lengthened(seq![x], 0)[0]);
                assert(all[j] == lengthened(seq![y], 1)[0]);
            } else {
                assert(all[j] == lengthened(seq![x], 0)[0]);
                assert(all[i] == lengthened(seq![y], 1)[0]);
            }
        }
    }
    assert forall|s: int| has_symbol(a.leaves, s) || has_symbol(b.leaves, s) implies #[trigger] has_symbol(
        all,
        s,
    ) by {
        if has_symbol(a.leaves, s) {
            let i = choose|i: int| 0 <= i < a.leaves.len() && (#[trigger] a.leaves[i]).symbol == s;
            assert(all[i].symbol == s);
        } else {
            let i = choose|i: int| 0 <= i < b.leaves.len() && (#[trigger] b.leaves[i]).symbol == s;
            assert(all[n + i].symbol == s);
        }
    }
}

/// Merging keeps codes apart and loses no symbol.
proof fn lemma_all_merged(groups: Seq<GroupSeq>)
    requires
        groups_apart(groups),
    ensures
        all_merged(groups) matches Some(leaves) ==> fitted(leaves) && apart(leaves) && forall|
            s: int,
        |
            some_symbol(groups, s) ==> #[trigger] has_symbol(leaves, s),
    decreases groups.len(),
{
    if groups.len() == 1 {
    } else if groups.len() > 1 && !merge_overlong(groups) {
        lemma_merged_len(groups);
        let i = rarest(groups);
        let rest = groups.remove(i);
        let j = rarest(rest);
        let others = rest.remove(j);
        let after = merged_once(groups);
        let jj: int = if j < i {
            j
        } else {
            j + 1
        };
        assert(rest[j] == groups[jj]);
        lemma_joined(groups[i], rest[j]);
        assert forall|g: int| 0 <= g < after.len() implies fitted((#[trigger] after[g]).leaves)
            && apart(after[g].leaves) by {
            if g < others.len() {
                let y: int = if g < j {
                    g
                } else {
                    g + 1
                };
                let z: int = if y < i {
                    y
                } else {
                    y + 1
                };
                assert(after[g] == groups[z]);
            }
        }
        lemma_all_merged(after);
        assert forall|s: int| some_symbol(groups, s) implies some_symbol(after, s) by {
            let g = choose|g: int|
                0 <= g < groups.len() && has_symbol((#[trigger] groups[g]).leaves, s);
            if g == i || g == jj {
                assert(has_symbol(joined(groups[i], rest[j]).leaves, s));
                assert(after[after.len() - 1] == joined(groups[i], rest[j]));
            } else {
                let y: int = if g < i {
                    g
                } else {
                    g - 1
                };
                let z: int = if y < j {
                    y
                } else {
                    y - 1
                };
                assert(rest[y] == groups[g]);
                assert(others[z] == rest[y]);
                assert(after[z] == groups[g]);
            }
        }
    }
}

proof fn lemma_singles(symbols: Seq<u8>, n: nat)
    requires
        n <= 256,
    ensures
        groups_apart(singles(symbols, n)),
        forall|s: int|
            0 <= s < n && frequency(symbols, s as nat) > 0 ==> #[trigger] some_symbol(
                singles(symbols, n),
                s,
            ),
    decreases n,
{
    lemma2_to64();
    if n > 0 {
        let before = singles(symbols, (n - 1) as nat);
        let after = singles(symbols, n);
        lemma_singles(symbols, (n - 1) as nat);
        assert forall|s: int| 0 <= s < n && frequency(symbols, s as nat) > 0 implies #[trigger] some_symbol(
            after,
            s,
        ) by {
            if s == n - 1 {
                assert(after.last().leaves[0].symbol == s);
                assert(has_symbol(after[after.len() - 1].leaves, s));
            } else {
                assert(some_symbol(before, s));
                let g = choose|g: int|
                    0 <= g < before.len() && has_symbol((#[trigger] before[g]).leaves, s);
                assert(after[g] == before[g]);
            }
        }
    }
}

proof fn lemma_entry_of(leaves: Seq<Leaf>, s: int) -> (i: int)
    requires
        has_symbol(leaves, s),
    ensures
        0 <= i < leaves.len(),
        leaves[i].symbol == s,
        entry_of(leaves, s) == leaf_code(leaves[i]),
    decreases leaves.len(),
{
    if leaves.last().symbol == s {
        leaves.len() - 1
    } else {
        let k = choose|k: int| 0 <= k < leaves.len() && (#[trigger] leaves[k]).symbol == s;
        assert(leaves.drop_last()[k].symbol == s);
        lemma_entry_of(leaves.drop_last(), s)
    }
}

proof fn lemma_entry_absent(leaves: Seq<Leaf>, s: int)
    requires
        !has_symbol(leaves, s),
    ensures
        entry_of(leaves, s) == (CodeEntry { len: 0, code: 0 }),
    decreases leaves.len(),
{
    if leaves.len() > 0 {
        let n = leaves.len() - 1;
        assert(leaves[n].symbol != s);
        if has_symbol(leaves.drop_last(), s) {
            let k = choose|k: int|
                0 <= k < leaves.drop_last().len() && (#[trigger] leaves.drop_last()[k]).symbol == s;
            assert(leaves[k].symbol == s);
        }
        lemma_entry_absent(leaves.drop_last(), s);
    }
}

/// No Huffman code begins another, and every symbol that occurs has a code.
#[verifier::rlimit(40)]
pub proof fn law_codes_prefix_free(symbols: Seq<u8>)
    requires
        codes_for(symbols) is Some,
    ensures
        codes_for(symbols)->0.len() == 256,
        table_fits(codes_for(symbols)->0),
        prefix_free(codes_for(symbols)->0),
        forall|i: int|
            0 <= i < symbols.len() ==> codes_for(symbols)->0[(#[trigger] symbols[i]) as int].len
                > 0,
        exists|s: int| 0 <= s < 256 && (#[trigger] codes_for(symbols)->0[s]).len > 0,
{
    let groups = singles(symbols, 256);
    let leaves = all_merged(groups)->0;
    let all = at_least_one_bit(leaves);
    let entries = codes_for(symbols)->0;
    lemma2_to64();
    lemma_singles(symbols, 256);
    lemma_all_merged(groups);
    assert forall|i: int| 0 <= i < leaves.len() && leaves.len() > 1 implies (#[trigger] leaves[i]).len
        > 0 by {
        let j: int = if i == 0 {
            1
        } else {
            0
        };
        if leaves[i].len == 0 {
            let y = leaves[j];
            vstd::arithmetic::div_mod::lemma_basic_div(
                y.code as int,
                pow2(y.len as nat) as int,
            );
            assert(clash(leaf_code(leaves[i]), leaf_code(leaves[j])));
        }
    }
    assert(fitted(all));
    assert forall|i: int, j: int|
        #![trigger all[i], all[j]]
        0 <= i < all.len() && 0 <= j < all.len() && i != j implies !clash(
        leaf_code(all[i]),
        leaf_code(all[j]),
    ) by {
        assert(leaves[i].len > 0 && leaves[j].len > 0);
    }
    assert forall|s: int| has_symbol(leaves, s) implies has_symbol(all, s) by {
        let i = choose|i: int| 0 <= i < leaves.len() && (#[trigger] leaves[i]).symbol == s;
        assert(all[i].symbol == s);
    }
    assert forall|s: int| 0 <= s < 256 implies (#[trigger] entries[s]).len <= 31 && entries[s].wf() by {
        if has_symbol(all, s) {
            let i = lemma_entry_of(all, s);
        } else {
            lemma_entry_absent(all, s);
        }
    }
    assert forall|s: int, t: int|
        #![trigger entries[s], entries[t]]
        0 <= s < entries.len() && 0 <= t < entries.len() && s != t && entries[s].len > 0
            && entries[t].len > 0 implies !clash(entries[s], entries[t]) by {
        if !has_symbol(all, s) {
            lemma_entry_absent(all, s);
        }
        if !has_symbol(all, t) {
            lemma_entry_absent(all, t);
        }
        let i = lemma_entry_of(all, s);
        let j = lemma_entry_of(all, t);
        assert(i != j);
    }
    assert forall|i: int| 0 <= i < symbols.len() implies entries[(#[trigger] symbols[i]) as int].len
        > 0 by {
        let s = symbols[i] as int;
        lemma_frequency_positive(symbols, i);
        assert(some_symbol(groups, s));
        assert(has_symbol(leaves, s));
        let k = lemma_entry_of(all, s);
    }
    assert(symbols.len() > 0) by {
        if symbols.len() == 0 {
            lemma_no_singles(symbols, 256);
        }
    }
    assert(entries[symbols[0] as int].len > 0);
}

proof fn lemma_no_singles(symbols: Seq<u8>, n: nat)
    requires
        symbols.len() == 0,
    ensures
        singles(symbols, n).len() == 0,
    decreases n,
{
    if n > 0 {
        lemma_no_singles(symbols, (n - 1) as nat);
    }
}

proof fn lemma_frequency_positive(symbols: Seq<u8>, i: int)
    requires
        0 <= i < symbols.len(),
    ensures
        frequency(symbols, symbols[i] as nat) > 0,
    decreases symbols.len(),
{
    if i < symbols.len() - 1 {
        lemma_frequency_positive(symbols.drop_last(), i);
    }
}

/// A Huffman encoding of a body.
pub struct HuffmanPlan {
    pub delta: bool,
    pub symbols: Vec<u8>,
    pub entries: Vec<CodeEntry>,
    pub table: Vec<u8>,
    pub data_len: usize,
}

impl HuffmanPlan {
    /// The codes are those of the symbols.
    pub open spec fn wf(self) -> bool {
        &&& codes_for(self.symbols@) == Some(self.entries@)
        &&& self.table@ == table_bytes(self.entries@)
        &&& candidate_size(self.symbols@) == Ok::<Option<nat>, Fault>(Some(self.data_len as nat))
    }
}

/// A table takes little room.
proof fn lemma_table_len(entries: Seq<CodeEntry>)
    requires
        entries.len() == 256,
        table_fits(entries),
        exists|s: int| 0 <= s < entries.len() && (#[trigger] entries[s]).len != 0,
    ensures
        table_bytes(entries).len() <= 2000,
{
    lemma_stored(entries);
    let part = stored_entries(entries);
    lemma_short_lengths(part);
    stuffed::lemma_stuffed_len(lengths(part));
    let bits = stuffed::bits_needed(stuffed::largest(lengths(part)));
    assert(bits * part.len() <= 5 * 256) by (nonlinear_arith)
        requires
            bits <= 5,
            part.len() <= 256,
    ;
    assert forall|i: int| 0 <= i < part.len() implies (#[trigger] part[i]).len <= 31 by {
        assert(part[i] == entries[first_used(entries, 0) + i]);
    }
    lemma_bits_bound(part);
    let count = (bitstream::code_bits(part) + 31) / 32;
    bitstream::lemma_high_words_len(
        bitstream::code_number(part) * pow2((32 * count - bitstream::code_bits(part)) as nat),
        count,
    );
    bitstream::lemma_word_bytes_len(bitstream::stream_words(part));
    bytes::lemma_le_bytes_len(2, 4);
    bytes::lemma_le_bytes_len(256, 4);
    bytes::lemma_le_bytes_len(first_used(entries, 0), 4);
    bytes::lemma_le_bytes_len(last_used(entries, entries.len()), 4);
}

proof fn lemma_bits_bound(part: Seq<CodeEntry>)
    requires
        forall|i: int| 0 <= i < part.len() ==> (#[trigger] part[i]).len <= 31,
    ensures
        bitstream::code_bits(part) <= 31 * part.len(),
    decreases part.len(),
{
    if part.len() > 0 {
        assert forall|i: int| 0 <= i < part.drop_last().len() implies (#[trigger] part.drop_last()[i]).len
            <= 31 by {
            assert(part.drop_last()[i] == part[i]);
        }
        lemma_bits_bound(part.drop_last());
    }
}

/// Plans a Huffman encoding of some symbols.
fn plan_symbols(symbols: Vec<u8>, delta: bool) -> (r: Result<Option<HuffmanPlan>>)
    ensures
        match r {
            Ok(Some(plan)) => plan.wf() && plan.symbols@ == symbols@ && plan.delta == delta,
            Ok(None) => candidate_size(symbols@) == Ok::<Option<nat>, Fault>(None),
            Err(e) => candidate_size(symbols@) == Err::<Option<nat>, Fault>(e@),
        },
{
    let entries: Vec<CodeEntry> = match build_codes(&symbols) {
        Some(entries) => entries,
        None => {
            return Ok(None);
        },
    };
    proof {
        law_codes_prefix_free(symbols@);
        lemma_table_len(entries@);
    }
    let counts: Vec<u64> = histogram(&symbols);
    let bits: usize = count_bits(&entries, &symbols, &counts)?;
    let table: Vec<u8> = build_table_bytes(&entries);
    let words: usize = bits / 32 + if bits % 32 != 0 { 1 } else { 0 };
    let data_len: usize = table.len() + 4 * (words + 1);
    Ok(Some(HuffmanPlan { delta, symbols, entries, table, data_len }))
}

/// Plans the shorter of the two Huffman encodings.
pub fn plan_huffman(plain: Vec<u8>, delta: Vec<u8>) -> (r: Result<Option<HuffmanPlan>>)
    ensures
        match r {
            Ok(Some(plan)) => {
                &&& plan.wf()
                &&& plan.symbols@ == if plan.delta {
                    delta@
                } else {
                    plain@
                }
                &&& huffman_choice(plain@, delta@) == Ok::<Option<(bool, nat)>, Fault>(
                    Some((plan.delta, plan.data_len as nat)),
                )
            },
            Ok(None) => huffman_choice(plain@, delta@) == Ok::<Option<(bool, nat)>, Fault>(None),
            Err(e) => huffman_choice(plain@, delta@) == Err::<Option<(bool, nat)>, Fault>(e@),
        },
{
    let first: Option<HuffmanPlan> = plan_symbols(plain, false)?;
    let second: Option<HuffmanPlan> = plan_symbols(delta, true)?;
    match (first, second) {
        (Some(a), Some(b)) => if a.data_len <= b.data_len {
            Ok(Some(a))
        } else {
            Ok(Some(b))
        },
        (Some(a), None) => Ok(Some(a)),
        (None, Some(b)) => Ok(Some(b)),
        (None, None) => Ok(None),
    }
}

/// Appends a Huffman-coded body.
pub fn write_huffman(out: &mut Vec<u8>, plan: &HuffmanPlan)
    requires
        plan.wf(),
    ensures
        final(out)@ == old(out)@ + huffman_body(plan.delta, plan.symbols@),
{
    let ghost before = out@;
    proof {
        law_codes_prefix_free(plan.symbols@);
    }
    let ghost codes = symbol_codes(plan.entries@, plan.symbols@);
    let mut writer = MsbBitWriter::new();
    let mut i: usize = 0;
    assert(codes.subrange(0, 0) =~= seq![]);
    while i < plan.symbols.len()
        invariant
            i <= plan.symbols@.len(),
            plan.entries@.len() == 256,
            table_fits(plan.entries@),
            codes == symbol_codes(plan.entries@, plan.symbols@),
            writer.wf(),
            writer.codes() =~= codes.subrange(0, i as int),
        decreases plan.symbols@.len() - i,
    {
        writer.push_bits(plan.entries[plan.symbols[i] as usize]);
        i += 1;
    }
    assert(codes.subrange(0, codes.len() as int) =~= codes);
    let mut words: Vec<u32> = writer.into_words();
    words.push(0);
    out.push(0);
    out.push(if plan.delta { 1 } else { 2 });
    bytes::push_bytes(out, plan.table.as_slice());
    push_words(out, &words);
    proof {
        assert(out@ =~= before + huffman_body(plan.delta, plan.symbols@));
    }
}

} // verus!
