//! What the bits and the runs of a stored mask stand for, and what counts as valid.

use crate::allocation;
use crate::blocks;
use crate::bytes;
use crate::cursor;
use crate::error::Fault;
use crate::mask;
use crate::raster;
use vstd::arithmetic::power2::{lemma2_to64, pow2};
use vstd::prelude::*;

verus! {

/// Pixel `i` of a bitset is bit `7 - i % 8` of byte `i / 8`.
pub proof fn law_mask_bits(bitset: Seq<u8>, count: nat, i: int)
    requires
        0 <= i < count <= 8 * bitset.len(),
    ensures
        mask::unpacked(bitset, count).len() == count,
        mask::unpacked(bitset, count)[i] == (bitset[i / 8] as nat / pow2((7 - i % 8) as nat)) % 2,
{
    lemma2_to64();
}

/// A mask with invalid pixels behind it.
spec fn padded(mask: Seq<u8>) -> Seq<u8> {
    Seq::new(
        8 * mask::bitset_len(mask.len()),
        |i: int|
            if i < mask.len() {
                mask[i]
            } else {
                0u8
            },
    )
}

proof fn lemma_padded(mask: Seq<u8>, j: int, k: nat)
    requires
        0 <= j < mask::bitset_len(mask.len()),
        k <= 8,
    ensures
        mask::partial_byte(mask, j, k) == mask::partial_byte(padded(mask), j, k),
    decreases k,
{
    if k > 0 {
        lemma_padded(mask, j, (k - 1) as nat);
    }
}

/// Bit `7 - i % 8` of byte `i / 8` of a packed mask is set where pixel `i` is valid. The bits
/// behind the last pixel are not set.
pub proof fn law_packed_bits(mask: Seq<u8>, i: int)
    requires
        0 <= i < 8 * mask::packed(mask).len(),
    ensures
        8 * mask::packed(mask).len() < mask.len() + 8,
        mask.len() <= 8 * mask::packed(mask).len(),
        (mask::packed(mask)[i / 8] as nat / pow2((7 - i % 8) as nat)) % 2 == 1 <==> i < mask.len()
            && mask[i] != 0,
{
    let full = padded(mask);
    let bits = mask::packed(full);
    assert(bits =~= mask::packed(mask)) by {
        assert forall|j: int| 0 <= j < bits.len() implies bits[j] == mask::packed(mask)[j] by {
            lemma_padded(mask, j, 8);
        }
    }
    mask::law_bitset_roundtrip(full);
    law_mask_bits(bits, full.len(), i);
    assert(mask::unpacked(bits, full.len())[i] == mask::normalized(full)[i]);
}

/// A run of a stored bitset.
pub enum Run {
    /// Bytes as they are.
    Literal(Seq<u8>),
    /// A byte so many times.
    Repeat(u8, nat),
}

/// A number of two bytes, the lower byte first.
pub open spec fn two_bytes(value: int) -> Seq<u8> {
    seq![(value % 256) as u8, (value / 256) as u8]
}

/// The bytes of a run: its length and the bytes, or its length taken from 65536 and the byte.
pub open spec fn run_bytes(run: Run) -> Seq<u8> {
    match run {
        Run::Literal(found) => two_bytes(found.len() as int) + found,
        Run::Repeat(value, count) => two_bytes(0x1_0000 - count).push(value),
    }
}

/// The bytes that a run stands for.
pub open spec fn run_bits(run: Run) -> Seq<u8> {
    match run {
        Run::Literal(found) => found,
        Run::Repeat(value, count) => Seq::new(count, |i: int| value),
    }
}

/// Whether the length of a run can be stored.
pub open spec fn run_fits(run: Run) -> bool {
    0 < run_bits(run).len() < 0x8000
}

/// The bytes of the runs from the `k`-th on and of the end mark.
pub open spec fn runs_from(runs: Seq<Run>, k: nat) -> Seq<u8>
    decreases runs.len() - k,
{
    if k >= runs.len() {
        two_bytes(0x8000)
    } else {
        run_bytes(runs[k as int]) + runs_from(runs, k + 1)
    }
}

/// The bytes that the runs from the `k`-th on stand for.
pub open spec fn bits_from(runs: Seq<Run>, k: nat) -> Seq<u8>
    decreases runs.len() - k,
{
    if k >= runs.len() {
        seq![]
    } else {
        run_bits(runs[k as int]) + bits_from(runs, k + 1)
    }
}

proof fn lemma_two_bytes(all: Seq<u8>, pos: int, value: int)
    requires
        0 <= value < 0x1_0000,
        bytes::stands_at(all, pos, two_bytes(value)),
        all.len() <= usize::MAX,
    ensures
        cursor::take_i16(all, pos) == Ok::<int, Fault>(
            if value < 0x8000 {
                value
            } else {
                value - 0x1_0000
            },
        ),
{
    reveal_with_fuel(bytes::le_bytes, 3);
    assert(bytes::le_bytes(value as nat, 2) =~= two_bytes(value));
    mask::lemma_take_number_2(all, pos, value as nat);
}

proof fn lemma_runs_read(runs: Seq<Run>, k: nat, all: Seq<u8>, pos: int, out: Seq<u8>, limit: nat)
    requires
        forall|i: int| 0 <= i < runs.len() ==> #[trigger] run_fits(runs[i]),
        bytes::stands_at(all, pos, runs_from(runs, k)),
        all.len() <= usize::MAX,
        out.len() + bits_from(runs, k).len() <= limit <= usize::MAX,
    ensures
        mask::runs_decoded(all, pos, out, limit) == Ok::<(Seq<u8>, int), Fault>(
            (out + bits_from(runs, k), pos + runs_from(runs, k).len()),
        ),
    decreases runs.len() - k,
{
    if k >= runs.len() {
        lemma_two_bytes(all, pos, 0x8000);
        assert(out + bits_from(runs, k) =~= out);
    } else {
        let run = runs[k as int];
        assert(run_fits(run));
        let rest = runs_from(runs, k + 1);
        bytes::lemma_stands_split(all, pos, run_bytes(run), rest);
        let next = pos + run_bytes(run).len();
        let more = out + run_bits(run);
        assert(out + bits_from(runs, k) =~= more + bits_from(runs, k + 1));
        lemma_runs_read(runs, k + 1, all, next, more, limit);
        match run {
            Run::Literal(found) => {
                bytes::lemma_stands_split(all, pos, two_bytes(found.len() as int), found);
                lemma_two_bytes(all, pos, found.len() as int);
            },
            Run::Repeat(value, count) => {
                let head = two_bytes(0x1_0000 - count);
                assert(run_bytes(run) =~= head + seq![value]);
                bytes::lemma_stands_split(all, pos, head, seq![value]);
                lemma_two_bytes(all, pos, 0x1_0000 - count);
                assert(all.subrange(pos + 2, pos + 3)[0] == value);
                assert(run_bits(run) =~= allocation::repeated(value, count));
            },
        }
    }
}

/// Reading stored runs gives the bytes that they stand for, one run after another.
pub proof fn law_runs_read(runs: Seq<Run>)
    requires
        forall|i: int| 0 <= i < runs.len() ==> #[trigger] run_fits(runs[i]),
        bits_from(runs, 0).len() <= allocation::MAX_DECODED_ALLOCATION_BYTES,
        runs_from(runs, 0).len() <= usize::MAX,
    ensures
        mask::bitset_decoded(runs_from(runs, 0), bits_from(runs, 0).len()) == Ok::<Seq<u8>, Fault>(
            bits_from(runs, 0),
        ),
{
    let all = runs_from(runs, 0);
    assert(all.subrange(0, all.len() as int) =~= all);
    let none: Seq<u8> = seq![];
    lemma_runs_read(runs, 0, all, 0, none, bits_from(runs, 0).len());
    assert(none + bits_from(runs, 0) =~= bits_from(runs, 0));
}

/// The valid entries of a mask are those that are not zero, whatever they are.
pub proof fn law_valid_count(mask: Seq<u8>)
    ensures
        raster::count_valid(mask) == mask.filter(|entry: u8| entry > 0).len(),
    decreases mask.len(),
{
    reveal(Seq::filter);
    if mask.len() > 0 {
        law_valid_count(mask.drop_last());
    }
}

/// The listed pixels of a mask are as many as it has valid entries.
pub proof fn law_listed_count(mask: Seq<u8>)
    ensures
        blocks::run_pixels(Some(mask), 0, mask.len()).len() == raster::count_valid(mask),
{
    lemma_listed(mask, mask.len());
    assert(mask.subrange(0, mask.len() as int) =~= mask);
}

proof fn lemma_listed(mask: Seq<u8>, count: nat)
    requires
        count <= mask.len(),
    ensures
        blocks::run_pixels(Some(mask), 0, count).len() == raster::count_valid(
            mask.subrange(0, count as int),
        ),
    decreases count,
{
    if count > 0 {
        lemma_listed(mask, (count - 1) as nat);
        assert(mask.subrange(0, count as int).drop_last() =~= mask.subrange(0, count - 1));
    }
}

proof fn lemma_run_to_end(bits: Seq<u8>, end: int)
    requires
        0 <= end <= bits.len(),
        forall|i: int| 0 <= i < bits.len() ==> #[trigger] bits[i] == bits[0],
    ensures
        mask::run_end(bits, 0, end) == bits.len(),
    decreases bits.len() - end,
{
    if end < bits.len() {
        lemma_run_to_end(bits, end + 1);
    }
}

/// A bitset of one repeated byte is stored as one run.
pub proof fn law_uniform_stored(value: u8, count: nat)
    requires
        2 <= count < 0x8000,
    ensures
        mask::bitset_encoded(Seq::new(count, |i: int| value)) == runs_from(
            seq![Run::Repeat(value, count)],
            0,
        ),
        mask::bitset_encoded(Seq::new(count, |i: int| value)).len() == 5,
{
    let bits = Seq::new(count, |i: int| value);
    lemma_run_to_end(bits, 1);
    reveal_with_fuel(mask::segments, 3);
    reveal_with_fuel(bytes::le_bytes, 3);
    reveal_with_fuel(runs_from, 3);
    assert(bits.subrange(0, 0) =~= seq![]);
    assert(bits.subrange(count as int, count as int) =~= seq![]);
    assert(bytes::le_bytes((0x1_0000 - count) as nat, 2) =~= two_bytes(0x1_0000 - count));
    assert(bytes::le_bytes(0x8000, 2) =~= two_bytes(0x8000));
    assert(mask::bitset_encoded(bits) =~= runs_from(seq![Run::Repeat(value, count)], 0));
}

proof fn lemma_literals_len(run: Seq<u8>)
    requires
        run.len() < 0x8000,
    ensures
        mask::literals(run).len() == if run.len() == 0 {
            0
        } else {
            2 + run.len()
        },
{
    bytes::lemma_le_bytes_len(run.len(), 2);
}

proof fn lemma_segments_short(bits: Seq<u8>, start: int, offset: int)
    requires
        0 <= start <= offset <= bits.len() < 0x8000,
    ensures
        mask::segments(bits, start, offset).len() <= if start == bits.len() {
            0
        } else {
            2 + bits.len() - start
        },
    decreases bits.len() - offset,
{
    let n = bits.len() as int;
    if offset >= n {
        lemma_literals_len(bits.subrange(start, n));
    } else {
        let end = mask::run_end(bits, offset, offset + 1);
        mask::lemma_run_end(bits, offset, offset + 1);
        if end - offset >= mask::repeat_threshold(start == offset, end == n) {
            let count = (end - offset) as nat;
            lemma_literals_len(bits.subrange(start, offset));
            bytes::lemma_le_bytes_len((0x1_0000 - count) as nat, 2);
            assert(mask::repeats(bits[offset], count).len() == 3);
            lemma_segments_short(bits, end, end);
        } else {
            lemma_segments_short(bits, start, end);
        }
    }
}

/// A stored bitset takes no more than its bytes as they are, their length and the end mark.
pub proof fn law_runs_short(bits: Seq<u8>)
    requires
        bits.len() < 0x8000,
    ensures
        mask::bitset_encoded(bits).len() <= bits.len() + 4,
{
    lemma_segments_short(bits, 0, 0);
    bytes::lemma_le_bytes_len(0x8000, 2);
}

} // verus!
