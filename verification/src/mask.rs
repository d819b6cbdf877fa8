//! Validity masks as bitsets and as run-length encoded bytes.

use crate::allocation;
use crate::allocation::{check_allocation, filled};
use crate::bytes;
use crate::bytes::{push_bytes, push_u16};
use crate::cursor;
use crate::cursor::Cursor;
use crate::error::{Error, Fault, Result};
use vstd::prelude::*;
use vstd::slice::slice_subrange;

verus! {

/// The weight of a mask bit inside its byte; the first pixel of eight is the highest bit.
pub open spec fn bit_weight(k: int) -> nat {
    if k == 0 {
        128
    } else if k == 1 {
        64
    } else if k == 2 {
        32
    } else if k == 3 {
        16
    } else if k == 4 {
        8
    } else if k == 5 {
        4
    } else if k == 6 {
        2
    } else {
        1
    }
}

/// Bit `k` of a byte, counted from the highest.
pub open spec fn bit_of(byte: u8, k: int) -> u8 {
    ((byte as nat / bit_weight(k)) % 2) as u8
}

/// The number of bytes that hold `count` bits.
pub open spec fn bitset_len(count: nat) -> nat {
    (count + 7) / 8
}

/// The mask that a bitset stands for: one byte per pixel.
pub open spec fn unpacked(bitset: Seq<u8>, count: nat) -> Seq<u8> {
    Seq::new(count, |i: int| bit_of(bitset[i / 8], i % 8))
}

/// The weight that pixel `i` adds to its byte of the bitset.
pub open spec fn pixel_weight(mask: Seq<u8>, i: int) -> nat {
    if i < mask.len() && mask[i] != 0 {
        bit_weight(i % 8)
    } else {
        0
    }
}

/// The weights of the first `k` pixels of byte `j`.
pub open spec fn partial_byte(mask: Seq<u8>, j: int, k: nat) -> nat
    decreases k,
{
    if k == 0 {
        0
    } else {
        partial_byte(mask, j, (k - 1) as nat) + pixel_weight(mask, 8 * j + k - 1)
    }
}

/// The bitset of a mask.
pub open spec fn packed(mask: Seq<u8>) -> Seq<u8> {
    Seq::new(bitset_len(mask.len()), |j: int| partial_byte(mask, j, 8) as u8)
}

/// A mask with every nonzero entry replaced by one.
pub open spec fn normalized(mask: Seq<u8>) -> Seq<u8> {
    Seq::new(
        mask.len(),
        |i: int|
            if mask[i] != 0 {
                1u8
            } else {
                0u8
            },
    )
}

proof fn lemma_partial_byte_bound(mask: Seq<u8>, j: int)
    requires
        j >= 0,
    ensures
        partial_byte(mask, j, 0) == 0,
        partial_byte(mask, j, 1) <= 128,
        partial_byte(mask, j, 2) <= 192,
        partial_byte(mask, j, 3) <= 224,
        partial_byte(mask, j, 4) <= 240,
        partial_byte(mask, j, 5) <= 248,
        partial_byte(mask, j, 6) <= 252,
        partial_byte(mask, j, 7) <= 254,
        partial_byte(mask, j, 8) <= 255,
        partial_byte(mask, j, 8) == pixel_weight(mask, 8 * j) + pixel_weight(mask, 8 * j + 1)
            + pixel_weight(mask, 8 * j + 2) + pixel_weight(mask, 8 * j + 3) + pixel_weight(
            mask,
            8 * j + 4,
        ) + pixel_weight(mask, 8 * j + 5) + pixel_weight(mask, 8 * j + 6) + pixel_weight(
            mask,
            8 * j + 7,
        ),
{
    reveal_with_fuel(partial_byte, 9);
    assert((8 * j) % 8 == 0 && (8 * j + 1) % 8 == 1 && (8 * j + 2) % 8 == 2 && (8 * j + 3) % 8 == 3
        && (8 * j + 4) % 8 == 4 && (8 * j + 5) % 8 == 5 && (8 * j + 6) % 8 == 6 && (8 * j + 7) % 8
        == 7);
}

/// The binary digits of a byte.
proof fn lemma_byte_digits(
    b: nat,
    b0: nat,
    b1: nat,
    b2: nat,
    b3: nat,
    b4: nat,
    b5: nat,
    b6: nat,
    b7: nat,
)
    requires
        b0 <= 1,
        b1 <= 1,
        b2 <= 1,
        b3 <= 1,
        b4 <= 1,
        b5 <= 1,
        b6 <= 1,
        b7 <= 1,
        b == 128 * b0 + 64 * b1 + 32 * b2 + 16 * b3 + 8 * b4 + 4 * b5 + 2 * b6 + b7,
    ensures
        (b / 128) % 2 == b0,
        (b / 64) % 2 == b1,
        (b / 32) % 2 == b2,
        (b / 16) % 2 == b3,
        (b / 8) % 2 == b4,
        (b / 4) % 2 == b5,
        (b / 2) % 2 == b6,
        b % 2 == b7,
{
    assert(b / 128 == b0);
    assert(b / 64 == 2 * b0 + b1);
    assert(b / 32 == 2 * (2 * b0 + b1) + b2);
    assert(b / 16 == 2 * (4 * b0 + 2 * b1 + b2) + b3);
    assert(b / 8 == 2 * (8 * b0 + 4 * b1 + 2 * b2 + b3) + b4);
    assert(b / 4 == 2 * (16 * b0 + 8 * b1 + 4 * b2 + 2 * b3 + b4) + b5);
    assert(b / 2 == 2 * (32 * b0 + 16 * b1 + 8 * b2 + 4 * b3 + 2 * b4 + b5) + b6);
}

spec fn flag(mask: Seq<u8>, i: int) -> nat {
    if i < mask.len() && mask[i] != 0 {
        1
    } else {
        0
    }
}

proof fn lemma_packed_bits(mask: Seq<u8>, j: int)
    requires
        j >= 0,
    ensures
        forall|k: int|
            0 <= k < 8 ==> #[trigger] bit_of(partial_byte(mask, j, 8) as u8, k) == flag(
                mask,
                8 * j + k,
            ),
{
    lemma_partial_byte_bound(mask, j);
    assert((8 * j) % 8 == 0 && (8 * j + 1) % 8 == 1 && (8 * j + 2) % 8 == 2 && (8 * j + 3) % 8 == 3
        && (8 * j + 4) % 8 == 4 && (8 * j + 5) % 8 == 5 && (8 * j + 6) % 8 == 6 && (8 * j + 7) % 8
        == 7);
    lemma_byte_digits(
        partial_byte(mask, j, 8),
        flag(mask, 8 * j),
        flag(mask, 8 * j + 1),
        flag(mask, 8 * j + 2),
        flag(mask, 8 * j + 3),
        flag(mask, 8 * j + 4),
        flag(mask, 8 * j + 5),
        flag(mask, 8 * j + 6),
        flag(mask, 8 * j + 7),
    );
    let byte = partial_byte(mask, j, 8) as u8;
    assert(bit_of(byte, 0) == flag(mask, 8 * j));
    assert(bit_of(byte, 1) == flag(mask, 8 * j + 1));
    assert(bit_of(byte, 2) == flag(mask, 8 * j + 2));
    assert(bit_of(byte, 3) == flag(mask, 8 * j + 3));
    assert(bit_of(byte, 4) == flag(mask, 8 * j + 4));
    assert(bit_of(byte, 5) == flag(mask, 8 * j + 5));
    assert(bit_of(byte, 6) == flag(mask, 8 * j + 6));
    assert(bit_of(byte, 7) == flag(mask, 8 * j + 7));
}

proof fn lemma_partial_fits(mask: Seq<u8>, j: int, k: nat)
    requires
        j >= 0,
        k < 8,
    ensures
        partial_byte(mask, j, k) + bit_weight(k as int) <= 255,
        partial_byte(mask, j, k + 1) == partial_byte(mask, j, k) + pixel_weight(mask, 8 * j + k),
        (8 * j + k) % 8 == k,
{
    lemma_partial_byte_bound(mask, j);
}

/// Unpacking a packed mask gives the mask back, as zeros and ones.
pub proof fn law_bitset_roundtrip(mask: Seq<u8>)
    ensures
        packed(mask).len() == bitset_len(mask.len()),
        unpacked(packed(mask), mask.len()) == normalized(mask),
{
    let bits = packed(mask);
    assert forall|i: int| 0 <= i < mask.len() implies unpacked(bits, mask.len())[i] == normalized(
        mask,
    )[i] by {
        let j = i / 8;
        let k = i % 8;
        assert(i == 8 * j + k && 0 <= k < 8 && 0 <= j < bits.len());
        lemma_packed_bits(mask, j);
        assert(bits[j] == partial_byte(mask, j, 8) as u8);
        assert(bit_of(bits[j], k) == flag(mask, 8 * j + k));
    }
    assert(unpacked(bits, mask.len()) =~= normalized(mask));
}

fn weight(k: usize) -> (r: u8)
    requires
        k < 8,
    ensures
        r == bit_weight(k as int),
{
    if k == 0 {
        128
    } else if k == 1 {
        64
    } else if k == 2 {
        32
    } else if k == 3 {
        16
    } else if k == 4 {
        8
    } else if k == 5 {
        4
    } else if k == 6 {
        2
    } else {
        1
    }
}

/// Packs a mask into a bitset, eight pixels to a byte.
pub fn pack_mask_bitset(mask: &[u8], pixel_count: usize) -> (r: Result<Vec<u8>>)
    ensures
        match r {
            Ok(bitset) => mask@.len() == pixel_count && bitset@ == packed(mask@),
            Err(e) => mask@.len() != pixel_count && e@ == Fault::InvalidArgument(
                "mask length does not match the raster dimensions"@,
            ),
        },
{
    if mask.len() != pixel_count {
        return Err(Error::InvalidArgument("mask length does not match the raster dimensions"));
    }
    let count: usize = pixel_count / 8 + if pixel_count % 8 != 0 { 1 } else { 0 };
    let mut bitset: Vec<u8> = Vec::with_capacity(count);
    let mut j: usize = 0;
    while j < count
        invariant
            j <= count,
            pixel_count == mask@.len(),
            count == bitset_len(pixel_count as nat),
            bitset@ =~= packed(mask@).subrange(0, j as int),
        decreases count - j,
    {
        let mut byte: u8 = 0;
        let mut k: usize = 0;
        while k < 8
            invariant
                k <= 8,
                j < count,
                pixel_count == mask@.len(),
                count == bitset_len(pixel_count as nat),
                byte == partial_byte(mask@, j as int, k as nat),
            decreases 8 - k,
        {
            proof {
                lemma_partial_fits(mask@, j as int, k as nat);
            }
            if k < pixel_count - 8 * j {
                if mask[8 * j + k] != 0 {
                    byte = byte + weight(k);
                }
            }
            k += 1;
        }
        proof {
            lemma_partial_byte_bound(mask@, j as int);
        }
        bitset.push(byte);
        j += 1;
    }
    Ok(bitset)
}

/// Unpacks a bitset into a mask of zeros and ones.
pub fn unpack_mask_bitset(bitset: &[u8], num_pixels: usize) -> (r: Result<Vec<u8>>)
    requires
        bitset@.len() >= bitset_len(num_pixels as nat),
    ensures
        match r {
            Ok(mask) => allocation::allocation_fault(
                num_pixels as nat,
                1,
                "Lerc2 unpacked mask"@,
            ) is None && mask@ == unpacked(bitset@, num_pixels as nat),
            Err(e) => allocation::allocation_fault(num_pixels as nat, 1, "Lerc2 unpacked mask"@)
                == Some(e@),
        },
{
    check_allocation(num_pixels, 1, "Lerc2 unpacked mask")?;
    let mut mask: Vec<u8> = Vec::with_capacity(num_pixels);
    let mut i: usize = 0;
    while i < num_pixels
        invariant
            i <= num_pixels,
            bitset@.len() >= bitset_len(num_pixels as nat),
            mask@ =~= unpacked(bitset@, i as nat),
        decreases num_pixels - i,
    {
        let byte: u8 = bitset[i / 8];
        mask.push((byte / weight(i % 8)) % 2);
        i += 1;
    }
    Ok(mask)
}

/// The error for a run that ends past the bitset.
pub open spec fn run_fault(end: nat, limit: nat) -> Option<Fault> {
    if end > usize::MAX {
        Some(Fault::SizeOverflow("Lerc2 mask RLE run end"@))
    } else if end > limit {
        Some(Fault::InvalidBlob("mask RLE expands past bitset length"@))
    } else {
        None
    }
}

/// Runs decoded from `pos` on, appended to `out`, with the position after the sentinel. A
/// positive count announces that many literal bytes, a negative one a byte to repeat, and the
/// smallest number ends the list.
pub open spec fn runs_decoded(
    encoded: Seq<u8>,
    pos: int,
    out: Seq<u8>,
    limit: nat,
) -> std::result::Result<(Seq<u8>, int), Fault>
    decreases encoded.len() - pos,
{
    match cursor::take_i16(encoded, pos) {
        Err(e) => Err(e),
        Ok(count) => if count == -32768 {
            Ok((out, pos + 2))
        } else if count > 0 {
            match cursor::take(encoded, pos + 2, count) {
                Err(e) => Err(e),
                Ok(run) => match run_fault((out.len() + count) as nat, limit) {
                    Some(e) => Err(e),
                    None => runs_decoded(encoded, pos + 2 + count, out + run, limit),
                },
            }
        } else {
            match cursor::take_u8(encoded, pos + 2) {
                Err(e) => Err(e),
                Ok(value) => match run_fault((out.len() - count) as nat, limit) {
                    Some(e) => Err(e),
                    None => runs_decoded(
                        encoded,
                        pos + 3,
                        out + allocation::repeated(value, (-count) as nat),
                        limit,
                    ),
                },
            }
        },
    }
}

/// The outcome of decoding a run-length encoded bitset.
pub open spec fn bitset_decoded(encoded: Seq<u8>, len: nat) -> std::result::Result<Seq<u8>, Fault> {
    match allocation::allocation_fault(len, 1, "Lerc2 mask bitset"@) {
        Some(e) => Err(e),
        None => match runs_decoded(encoded, 0, seq![], len) {
            Err(e) => Err(e),
            Ok((out, end)) => if out.len() != len {
                Err(Fault::InvalidBlob("mask RLE ended before filling bitset"@))
            } else if end != encoded.len() {
                Err(Fault::InvalidBlob("mask RLE contains trailing bytes after sentinel"@))
            } else {
                Ok(out)
            },
        },
    }
}

fn check_run(done: usize, count: usize, limit: usize) -> (r: Result<()>)
    ensures
        match r {
            Ok(_) => run_fault((done + count) as nat, limit as nat) is None,
            Err(e) => run_fault((done + count) as nat, limit as nat) == Some(e@),
        },
{
    match done.checked_add(count) {
        None => Err(Error::SizeOverflow("Lerc2 mask RLE run end")),
        Some(end) => if end > limit {
            Err(Error::invalid_blob("mask RLE expands past bitset length"))
        } else {
            Ok(())
        },
    }
}

/// Decodes a run-length encoded bitset of `bitset_len` bytes.
pub fn decode_mask_rle(encoded: &[u8], bitset_len: usize) -> (r: Result<Vec<u8>>)
    ensures
        match r {
            Ok(bitset) => bitset_decoded(encoded@, bitset_len as nat) == Ok::<_, Fault>(bitset@),
            Err(e) => bitset_decoded(encoded@, bitset_len as nat) == Err::<Seq<u8>, _>(e@),
        },
{
    check_allocation(bitset_len, 1, "Lerc2 mask bitset")?;
    let mut bitset: Vec<u8> = Vec::with_capacity(bitset_len);
    let mut inner = Cursor::new(encoded);
    loop
        invariant_except_break
            bitset@.len() <= bitset_len,
            runs_decoded(encoded@, 0, seq![], bitset_len as nat) == runs_decoded(
                encoded@,
                inner.at(),
                bitset@,
                bitset_len as nat,
            ),
        invariant
            inner.wf(),
            inner.all() == encoded@,
            allocation::allocation_fault(bitset_len as nat, 1, "Lerc2 mask bitset"@) is None,
        ensures
            runs_decoded(encoded@, 0, seq![], bitset_len as nat) == Ok::<_, Fault>(
                (bitset@, inner.at()),
            ),
        decreases encoded@.len() - inner.at(),
    {
        let count: i16 = inner.read_i16()?;
        if count == -32768 {
            break;
        }
        if count > 0 {
            let run: &[u8] = inner.read_bytes(count as usize)?;
            check_run(bitset.len(), count as usize, bitset_len)?;
            push_bytes(&mut bitset, run);
        } else {
            let n: usize = (-(count as i32)) as usize;
            let value: u8 = inner.read_u8()?;
            check_run(bitset.len(), n, bitset_len)?;
            let run: Vec<u8> = filled(value, n);
            push_bytes(&mut bitset, run.as_slice());
        }
    }
    if bitset.len() != bitset_len {
        return Err(Error::invalid_blob("mask RLE ended before filling bitset"));
    }
    if inner.offset() != encoded.len() {
        return Err(Error::invalid_blob("mask RLE contains trailing bytes after sentinel"));
    }
    Ok(bitset)
}

/// Literal bytes in pieces of at most `i16::MAX`, each behind its length.
pub open spec fn literals(run: Seq<u8>) -> Seq<u8>
    decreases run.len(),
{
    if run.len() == 0 {
        seq![]
    } else if run.len() <= 32767 {
        bytes::le_bytes(run.len(), 2) + run
    } else {
        bytes::le_bytes(32767, 2) + run.subrange(0, 32767) + literals(
            run.subrange(32767, run.len() as int),
        )
    }
}

/// A repeated byte in pieces of at most `i16::MAX`, each behind its negated length.
pub open spec fn repeats(value: u8, count: nat) -> Seq<u8>
    decreases count,
{
    if count == 0 {
        seq![]
    } else if count <= 32767 {
        bytes::le_bytes((0x1_0000 - count) as nat, 2) + seq![value]
    } else {
        bytes::le_bytes(0x8001, 2) + seq![value] + repeats(value, (count - 32767) as nat)
    }
}

/// Where the run of equal bytes that starts at `offset` ends, looking from `end` on.
pub open spec fn run_end(bits: Seq<u8>, offset: int, end: int) -> int
    decreases bits.len() - end,
{
    if 0 <= end < bits.len() && bits[end] == bits[offset] {
        run_end(bits, offset, end + 1)
    } else {
        end
    }
}

/// How long a run must be to be stored as a repetition: less where it saves the length of a
/// literal piece before or after it.
pub open spec fn repeat_threshold(starts: bool, ends: bool) -> nat {
    if starts && ends {
        2
    } else if starts || ends {
        4
    } else {
        6
    }
}

/// The segments for the bytes from `start` on, where those before `offset` are known to
/// become literals.
pub open spec fn segments(bits: Seq<u8>, start: int, offset: int) -> Seq<u8>
    decreases bits.len() - offset,
{
    if offset < 0 || offset >= bits.len() {
        literals(bits.subrange(start, bits.len() as int))
    } else {
        let end = run_end(bits, offset, offset + 1);
        if end <= offset || end > bits.len() {
            seq![]
        } else if end - offset >= repeat_threshold(start == offset, end == bits.len()) {
            literals(bits.subrange(start, offset)) + repeats(bits[offset], (end - offset) as nat)
                + segments(bits, end, end)
        } else {
            segments(bits, start, end)
        }
    }
}

/// The run-length encoding of a bitset.
pub open spec fn bitset_encoded(bits: Seq<u8>) -> Seq<u8> {
    segments(bits, 0, 0) + bytes::le_bytes(0x8000, 2)
}

pub proof fn lemma_run_end(bits: Seq<u8>, offset: int, end: int)
    requires
        0 <= offset < end <= bits.len(),
        forall|i: int| offset <= i < end ==> bits[i] == bits[offset],
    ensures
        end <= run_end(bits, offset, end) <= bits.len(),
        forall|i: int| offset <= i < run_end(bits, offset, end) ==> bits[i] == bits[offset],
    decreases bits.len() - end,
{
    if end < bits.len() && bits[end] == bits[offset] {
        lemma_run_end(bits, offset, end + 1);
    }
}

/// Appends literal bytes.
fn push_literals(out: &mut Vec<u8>, run: &[u8])
    ensures
        final(out)@ == old(out)@ + literals(run@),
{
    let ghost before = out@;
    let len: usize = run.len();
    let mut offset: usize = 0;
    proof {
        assert(run@.subrange(0, len as int) =~= run@);
    }
    while offset < len
        invariant
            offset <= len,
            len == run@.len(),
            before + literals(run@) == out@ + literals(run@.subrange(offset as int, len as int)),
        decreases len - offset,
    {
        let chunk: usize = if len - offset < 32767 { len - offset } else { 32767 };
        let ghost rest = run@.subrange(offset as int, len as int);
        let ghost so_far = out@;
        push_u16(out, chunk as u16);
        push_bytes(out, slice_subrange(run, offset, offset + chunk));
        offset += chunk;
        proof {
            let piece = run@.subrange(offset - chunk, offset as int);
            let tail = run@.subrange(offset as int, len as int);
            assert(rest.subrange(0, chunk as int) =~= piece);
            assert(rest.subrange(chunk as int, rest.len() as int) =~= tail);
            if rest.len() <= 32767 {
                assert(tail =~= seq![]);
                assert(rest =~= piece);
            }
            assert(so_far + literals(rest) =~= out@ + literals(tail));
        }
    }
    proof {
        assert(run@.subrange(len as int, len as int) =~= seq![]);
        assert(out@ + seq![] =~= out@);
    }
}

/// Appends a repeated byte.
fn push_repeats(out: &mut Vec<u8>, value: u8, count: usize)
    ensures
        final(out)@ == old(out)@ + repeats(value, count as nat),
{
    let ghost before = out@;
    let mut left: usize = count;
    while left > 0
        invariant
            before + repeats(value, count as nat) == out@ + repeats(value, left as nat),
        decreases left,
    {
        let chunk: usize = if left < 32767 { left } else { 32767 };
        let ghost so_far = out@;
        let ghost had = left as nat;
        push_u16(out, (0x1_0000 - chunk as u32) as u16);
        out.push(value);
        left -= chunk;
        proof {
            if had == 32767 {
                assert(repeats(value, had) =~= bytes::le_bytes(0x8001, 2) + seq![value]);
            }
            assert(so_far + repeats(value, had) =~= out@ + repeats(value, left as nat));
        }
    }
    proof {
        assert(out@ + seq![] =~= out@);
    }
}

/// Run-length encodes a bitset.
pub fn encode_bitset(bits: &[u8]) -> (r: Vec<u8>)
    ensures
        r@ == bitset_encoded(bits@),
{
    let len: usize = bits.len();
    let mut out: Vec<u8> = Vec::new();
    let mut start: usize = 0;
    let mut offset: usize = 0;
    proof {
        assert(out@ + segments(bits@, 0, 0) =~= segments(bits@, 0, 0));
    }
    while offset < len
        invariant
            start <= offset <= len,
            len == bits@.len(),
            segments(bits@, 0, 0) == out@ + segments(bits@, start as int, offset as int),
        decreases len - offset,
    {
        let value: u8 = bits[offset];
        let mut end: usize = offset + 1;
        while end < len && bits[end] == value
            invariant
                offset < end <= len,
                len == bits@.len(),
                value == bits@[offset as int],
                forall|i: int| offset <= i < end ==> bits@[i] == value,
                run_end(bits@, offset as int, offset + 1) == run_end(
                    bits@,
                    offset as int,
                    end as int,
                ),
            decreases len - end,
        {
            end += 1;
        }
        let threshold: usize = if start == offset && end == len {
            2
        } else if start == offset || end == len {
            4
        } else {
            6
        };
        let ghost so_far = out@;
        if end - offset >= threshold {
            push_literals(&mut out, slice_subrange(bits, start, offset));
            push_repeats(&mut out, value, end - offset);
            proof {
                assert(so_far + segments(bits@, start as int, offset as int) =~= out@ + segments(
                    bits@,
                    end as int,
                    end as int,
                ));
            }
            start = end;
        }
        offset = end;
    }
    let ghost so_far = out@;
    push_literals(&mut out, slice_subrange(bits, start, len));
    push_u16(&mut out, 0x8000);
    out
}

/// The bytes that store a mask: none unless it is stored here and is neither full nor empty.
pub open spec fn mask_payload(mask: Option<Seq<u8>>, pixels: nat, valid: nat) -> Seq<u8> {
    if valid == 0 || valid == pixels {
        seq![]
    } else {
        match mask {
            Some(entries) => bitset_encoded(packed(entries)),
            None => seq![],
        }
    }
}

pub proof fn lemma_take_number_2(encoded: Seq<u8>, pos: int, value: nat)
    requires
        0 <= pos,
        pos + 2 <= encoded.len() <= usize::MAX,
        value < 0x1_0000,
        encoded.subrange(pos, pos + 2) == bytes::le_bytes(value, 2),
    ensures
        cursor::take_i16(encoded, pos) == Ok::<int, Fault>(bytes::signed(value, 0x1_0000)),
{
    bytes::lemma_pow256();
    bytes::lemma_le_roundtrip(value, 2);
}

/// Decoding a literal piece appends its bytes.
proof fn lemma_decode_literals(encoded: Seq<u8>, pos: int, run: Seq<u8>, out: Seq<u8>, limit: nat)
    requires
        0 <= pos,
        pos + literals(run).len() <= encoded.len() <= usize::MAX,
        encoded.subrange(pos, pos + literals(run).len()) == literals(run),
        out.len() + run.len() <= limit <= usize::MAX,
    ensures
        runs_decoded(encoded, pos, out, limit) == runs_decoded(
            encoded,
            pos + literals(run).len(),
            out + run,
            limit,
        ),
    decreases run.len(),
{
    if run.len() == 0 {
        assert(out + run =~= out);
    } else {
        let chunk: nat = if run.len() <= 32767 {
            run.len()
        } else {
            32767
        };
        bytes::lemma_le_bytes_len(chunk, 2);
        let piece = run.subrange(0, chunk as int);
        let rest = run.subrange(chunk as int, run.len() as int);
        let all = literals(run);
        if run.len() <= 32767 {
            assert(piece =~= run);
            assert(rest =~= seq![]);
            assert(literals(rest) =~= seq![]);
        }
        assert(all =~= bytes::le_bytes(chunk, 2) + piece + literals(rest));
        assert(encoded.subrange(pos, pos + 2) =~= all.subrange(0, 2));
        assert(all.subrange(0, 2) =~= bytes::le_bytes(chunk, 2));
        lemma_take_number_2(encoded, pos, chunk);
        assert(encoded.subrange(pos + 2, pos + 2 + chunk) =~= all.subrange(2, 2int + chunk));
        assert(all.subrange(2, 2int + chunk) =~= piece);
        assert(cursor::take(encoded, pos + 2, chunk as int) == Ok::<Seq<u8>, Fault>(piece));
        assert(encoded.subrange(pos + 2 + chunk, pos + all.len()) =~= all.subrange(
            2int + chunk,
            all.len() as int,
        ));
        assert(all.subrange(2int + chunk, all.len() as int) =~= literals(rest));
        lemma_decode_literals(encoded, pos + 2 + chunk, rest, out + piece, limit);
        assert((out + piece) + rest =~= out + run);
    }
}

/// Decoding a repetition appends its bytes.
proof fn lemma_decode_repeats(
    encoded: Seq<u8>,
    pos: int,
    value: u8,
    count: nat,
    out: Seq<u8>,
    limit: nat,
)
    requires
        0 <= pos,
        pos + repeats(value, count).len() <= encoded.len() <= usize::MAX,
        encoded.subrange(pos, pos + repeats(value, count).len()) == repeats(value, count),
        out.len() + count <= limit <= usize::MAX,
    ensures
        runs_decoded(encoded, pos, out, limit) == runs_decoded(
            encoded,
            pos + repeats(value, count).len(),
            out + allocation::repeated(value, count),
            limit,
        ),
    decreases count,
{
    if count == 0 {
        assert(out + allocation::repeated(value, count) =~= out);
    } else {
        let chunk: nat = if count <= 32767 {
            count
        } else {
            32767
        };
        let code = (0x1_0000 - chunk) as nat;
        bytes::lemma_le_bytes_len(code, 2);
        let all = repeats(value, count);
        let rest = repeats(value, (count - chunk) as nat);
        assert(all =~= bytes::le_bytes(code, 2) + seq![value] + rest);
        assert(encoded.subrange(pos, pos + 2) =~= all.subrange(0, 2));
        assert(all.subrange(0, 2) =~= bytes::le_bytes(code, 2));
        lemma_take_number_2(encoded, pos, code);
        assert(encoded.subrange(pos, pos + all.len())[2] == all[2]);
        assert(encoded[pos + 2] == value);
        assert(encoded.subrange(pos + 3, pos + all.len()) =~= all.subrange(3, all.len() as int));
        assert(all.subrange(3, all.len() as int) =~= rest);
        let out1 = out + allocation::repeated(value, chunk);
        assert(cursor::take_u8(encoded, pos + 2) == Ok::<u8, Fault>(value));
        lemma_decode_repeats(encoded, pos + 3, value, (count - chunk) as nat, out1, limit);
        assert(out1 + allocation::repeated(value, (count - chunk) as nat) =~= out
            + allocation::repeated(value, count));
    }
}

#[verifier::rlimit(40)]
proof fn lemma_decode_segments(encoded: Seq<u8>, pos: int, bits: Seq<u8>, start: int, offset: int)
    requires
        0 <= pos,
        0 <= start <= offset <= bits.len() <= usize::MAX,
        pos + segments(bits, start, offset).len() <= encoded.len() <= usize::MAX,
        encoded.subrange(pos, pos + segments(bits, start, offset).len()) == segments(
            bits,
            start,
            offset,
        ),
    ensures
        runs_decoded(encoded, pos, bits.subrange(0, start), bits.len()) == runs_decoded(
            encoded,
            pos + segments(bits, start, offset).len(),
            bits,
            bits.len(),
        ),
    decreases bits.len() - offset,
{
    let done = bits.subrange(0, start);
    if offset == bits.len() {
        let run = bits.subrange(start, bits.len() as int);
        lemma_decode_literals(encoded, pos, run, done, bits.len());
        assert(done + run =~= bits);
    } else {
        lemma_run_end(bits, offset, offset + 1);
        let end = run_end(bits, offset, offset + 1);
        if end - offset >= repeat_threshold(start == offset, end == bits.len()) {
            let run = bits.subrange(start, offset);
            let a = literals(run);
            let b = repeats(bits[offset], (end - offset) as nat);
            let c = segments(bits, end, end);
            assert(segments(bits, start, offset) == a + b + c);
            bytes::lemma_stands_split(encoded, pos, a + b, c);
            bytes::lemma_stands_split(encoded, pos, a, b);
            lemma_decode_literals(encoded, pos, run, done, bits.len());
            let p1 = pos + a.len();
            lemma_decode_repeats(
                encoded,
                p1,
                bits[offset],
                (end - offset) as nat,
                done + run,
                bits.len(),
            );
            assert((done + run) + allocation::repeated(bits[offset], (end - offset) as nat)
                =~= bits.subrange(0, end));
            let p2 = p1 + b.len();
            lemma_decode_segments(encoded, p2, bits, end, end);
        } else {
            lemma_decode_segments(encoded, pos, bits, start, end);
        }
    }
}

/// Decoding an encoded bitset gives it back.
pub proof fn law_mask_rle_roundtrip(bits: Seq<u8>)
    requires
        bits.len() <= allocation::MAX_DECODED_ALLOCATION_BYTES,
        bitset_encoded(bits).len() <= usize::MAX,
    ensures
        bitset_decoded(bitset_encoded(bits), bits.len()) == Ok::<Seq<u8>, Fault>(bits),
{
    let encoded = bitset_encoded(bits);
    let body = segments(bits, 0, 0);
    bytes::lemma_le_bytes_len(0x8000, 2);
    assert(encoded.subrange(0, body.len() as int) =~= body);
    assert(bits.subrange(0, 0) =~= seq![]);
    lemma_decode_segments(encoded, 0, bits, 0, 0);
    assert(encoded.subrange(body.len() as int, body.len() + 2int) =~= bytes::le_bytes(0x8000, 2));
    lemma_take_number_2(encoded, body.len() as int, 0x8000);
}

/// Storing a mask and reading it back gives the mask, as zeros and ones.
pub proof fn law_mask_roundtrip(mask: Seq<u8>)
    requires
        mask.len() <= allocation::MAX_DECODED_ALLOCATION_BYTES,
        bitset_encoded(packed(mask)).len() <= usize::MAX,
    ensures
        bitset_decoded(bitset_encoded(packed(mask)), bitset_len(mask.len())) == Ok::<
            Seq<u8>,
            Fault,
        >(packed(mask)),
        unpacked(packed(mask), mask.len()) == normalized(mask),
{
    law_bitset_roundtrip(mask);
    law_mask_rle_roundtrip(packed(mask));
}

} // verus!
