//! Bit-stuffed blocks: a header byte, a count, and numbers of equal bit width, either plain or
//! through a look-up table.

use crate::allocation;
use crate::allocation::filled;
use crate::bitpack;
use crate::bitpack::{pack_lsb_bits_into, unstuff_v2, unstuff_v3, words_from_padded};
use crate::bytes;
use crate::bytes::{push_u16, push_u32};
use crate::cursor;
use crate::cursor::Cursor;
use crate::error::{Error, Fault, Result};
use crate::float;
use crate::float::Double;
use vstd::arithmetic::power2::*;
use vstd::prelude::*;

verus! {

/// The least number of bits that hold `n`.
pub open spec fn bits_needed(n: nat) -> nat
    decreases n,
{
    if n == 0 {
        0
    } else {
        1 + bits_needed(n / 2)
    }
}

/// A number fits the bits that it needs, and no fewer.
pub proof fn lemma_bits_needed(n: nat)
    ensures
        n < pow2(bits_needed(n)),
        n > 0 ==> bits_needed(n) > 0 && pow2((bits_needed(n) - 1) as nat) <= n,
    decreases n,
{
    lemma2_to64();
    if n > 0 {
        lemma_bits_needed(n / 2);
        lemma_pow2_unfold(bits_needed(n));
        if n / 2 > 0 {
            lemma_pow2_unfold((bits_needed(n) - 1) as nat);
        }
    }
}

/// Smaller numbers need no more bits.
pub proof fn lemma_bits_monotone(a: nat, b: nat)
    requires
        a <= b,
    ensures
        bits_needed(a) <= bits_needed(b),
    decreases b,
{
    if a > 0 {
        lemma_bits_monotone(a / 2, b / 2);
    }
}

proof fn lemma_bits_bound(n: nat, b: nat)
    requires
        n < pow2(b),
    ensures
        bits_needed(n) <= b,
    decreases b,
{
    lemma2_to64();
    if n > 0 {
        if b > 0 {
            lemma_pow2_unfold(b);
            lemma_bits_bound(n / 2, (b - 1) as nat);
        }
    }
}

/// Returns the minimum bit width needed to represent `max_index`.
pub fn bits_required(max_index: usize) -> (r: u8)
    ensures
        r == bits_needed(max_index as nat),
        r <= 64,
{
    proof {
        lemma2_to64_rest();
        lemma_bits_bound(max_index as nat, 64);
    }
    let mut bits: u8 = 0;
    let mut value: usize = max_index;
    while value > 0
        invariant
            bits + bits_needed(value as nat) == bits_needed(max_index as nat),
            bits_needed(max_index as nat) <= 64,
        decreases value,
    {
        bits += 1;
        value = value / 2;
    }
    bits
}

/// The width of the count field for each value of the top two header bits; zero where there
/// is none.
pub open spec fn count_width(code: nat) -> nat {
    if code == 0 {
        4
    } else if code == 1 {
        2
    } else if code == 2 {
        1
    } else {
        0
    }
}

/// The numbers of a bit-stuffed payload.
pub open spec fn unstuffed(data: Seq<u8>, version: u32, bits: nat, count: nat) -> Seq<u32> {
    if version >= 3 {
        bitpack::low_first(bitpack::words_of(data), bits, count)
    } else {
        bitpack::high_first(bitpack::words_of(data), bits, count)
    }
}

/// Each number as a level of its own.
pub open spec fn as_levels(values: Seq<u32>) -> Seq<Option<u32>> {
    values.map_values(|n: u32| Some(n))
}

/// The levels that a look-up table and indices into it stand for: entry zero is the base.
pub open spec fn looked_up(table: Seq<u32>, indices: Seq<u32>) -> Seq<Option<u32>> {
    indices.map_values(
        |i: u32|
            if i == 0 {
                None
            } else {
                Some(table[i - 1])
            },
    )
}

/// The outcome of reading the part of a block behind a look-up table's count.
pub open spec fn table_levels(
    all: Seq<u8>,
    pos: int,
    version: u32,
    bits: nat,
    count: nat,
) -> std::result::Result<(Seq<Option<u32>>, int), Fault> {
    match cursor::take_u8(all, pos) {
        Err(e) => Err(e),
        Ok(entries) => if entries == 0 {
            Err(Fault::InvalidBlob("LUT-compressed block has zero LUT bytes"@))
        } else {
            let n = (entries - 1) as nat;
            let table_len = bitpack::packed_len(bits, n);
            let index_bits = bits_needed(n);
            let index_len = bitpack::packed_len(index_bits, count);
            match cursor::take(all, pos + 1, table_len as int) {
                Err(e) => Err(e),
                Ok(table_data) => match cursor::take(all, pos + 1 + table_len, index_len as int) {
                    Err(e) => Err(e),
                    Ok(index_data) => {
                        let table = unstuffed(table_data, version, bits, n);
                        let indices = unstuffed(index_data, version, index_bits, count);
                        if forall|i: int|
                            0 <= i < indices.len() ==> #[trigger] indices[i] <= table.len() {
                            Ok((looked_up(table, indices), pos + 1 + table_len + index_len))
                        } else {
                            Err(Fault::InvalidBlob("bit-stuffed LUT index is outside the LUT"@))
                        }
                    },
                },
            }
        },
    }
}

/// The outcome of reading a bit-stuffed block of at most `capacity` numbers: each is a level
/// above the base, or `None` for the base itself. A look-up table needs a base.
pub open spec fn levels_decoded(
    all: Seq<u8>,
    pos: int,
    version: u32,
    capacity: nat,
    based: bool,
) -> std::result::Result<(Seq<Option<u32>>, int), Fault> {
    match cursor::take_u8(all, pos) {
        Err(e) => Err(e),
        Ok(header) => {
            let width = count_width((header / 64) as nat);
            let bits = (header % 32) as nat;
            if width == 0 {
                Err(Fault::InvalidBlob("invalid valid pixel count field width"@))
            } else {
                match cursor::take_number(all, pos + 1, width as int) {
                    Err(e) => Err(e),
                    Ok(count) => if count > capacity {
                        Err(
                            Fault::InvalidBlob(
                                "bit-stuffed block expands beyond its output buffer"@,
                            ),
                        )
                    } else if (header / 32) % 2 == 1 {
                        if !based {
                            Err(
                                Fault::InvalidBlob(
                                    "LUT-compressed block is missing its base offset"@,
                                ),
                            )
                        } else {
                            table_levels(all, pos + 1 + width, version, bits, count)
                        }
                    } else if bits == 0 {
                        Ok((allocation::repeated(None, count), pos + 1 + width))
                    } else {
                        match cursor::take(
                            all,
                            pos + 1 + width,
                            bitpack::packed_len(bits, count) as int,
                        ) {
                            Err(e) => Err(e),
                            Ok(data) => Ok(
                                (
                                    as_levels(unstuffed(data, version, bits, count)),
                                    pos + 1 + width + bitpack::packed_len(bits, count),
                                ),
                            ),
                        }
                    },
                }
            }
        },
    }
}

/// Where reading the part of a block behind a look-up table's count stops when it fails.
pub open spec fn table_stop(all: Seq<u8>, pos: int, bits: nat, count: nat) -> int {
    match cursor::take_u8(all, pos) {
        Err(_) => pos,
        Ok(entries) => {
            let n = (entries - 1) as nat;
            let table_len = bitpack::packed_len(bits, n);
            let index_len = bitpack::packed_len(bits_needed(n), count);
            if entries == 0 || cursor::take(all, pos + 1, table_len as int) is Err {
                pos + 1
            } else if cursor::take(all, pos + 1 + table_len, index_len as int) is Err {
                pos + 1 + table_len
            } else {
                pos + 1 + table_len + index_len
            }
        },
    }
}

/// Where reading a bit-stuffed block stops when it fails.
pub open spec fn levels_stop(all: Seq<u8>, pos: int, capacity: nat, based: bool) -> int {
    match cursor::take_u8(all, pos) {
        Err(_) => pos,
        Ok(header) => {
            let width = count_width((header / 64) as nat);
            match cursor::take_number(all, pos + 1, width as int) {
                Err(_) => pos + 1,
                Ok(count) => if width != 0 && count <= capacity && (header / 32) % 2 == 1 && based {
                    table_stop(all, pos + 1 + width, (header % 32) as nat, count)
                } else {
                    pos + 1 + width
                },
            }
        },
    }
}

/// Whether the bits of so many numbers can be counted.
pub open spec fn countable(count: nat) -> bool {
    32 * count + 96 <= usize::MAX
}

/// The byte length of `count` packed numbers.
pub fn packed_byte_len(bits: u32, count: usize) -> (r: usize)
    requires
        bits <= 32,
        countable(count as nat),
    ensures
        r == bitpack::packed_len(bits as nat, count as nat),
{
    proof {
        assert(0 <= bits * count <= 32 * count) by (nonlinear_arith)
            requires
                bits <= 32,
                count >= 0,
        ;
    }
    (bits as usize * count + 7) / 8
}

/// Unpacks a payload of exactly the bytes that `count` numbers take.
pub fn unstuff(data: &[u8], version: u32, bits: u32, count: usize) -> (r: Vec<u32>)
    requires
        bits <= 32,
        countable(count as nat),
        data@.len() == bitpack::packed_len(bits as nat, count as nat),
    ensures
        r@ == unstuffed(data@, version, bits as nat, count as nat),
        r@.len() == count,
{
    proof {
        assert(0 <= bits * count <= 32 * count && count * bits == bits * count)
            by (nonlinear_arith)
            requires
                bits <= 32,
                count >= 0,
        ;
    }
    let words: Vec<u32> = words_from_padded(data);
    if version >= 3 {
        unstuff_v3(words.as_slice(), bits, count)
    } else {
        unstuff_v2(words.as_slice(), bits, count)
    }
}

fn read_table(cursor: &mut Cursor, version: u32, bits: u32, count: usize) -> (r: Result<
    Vec<Option<u32>>,
>)
    requires
        old(cursor).wf(),
        bits <= 31,
        countable(count as nat),
    ensures
        final(cursor).wf(),
        final(cursor).all() == old(cursor).all(),
        match r {
            Ok(levels) => table_levels(
                old(cursor).all(),
                old(cursor).at(),
                version,
                bits as nat,
                count as nat,
            ) == Ok::<_, Fault>((levels@, final(cursor).at())),
            Err(e) => {
                &&& table_levels(
                    old(cursor).all(),
                    old(cursor).at(),
                    version,
                    bits as nat,
                    count as nat,
                ) == Err::<(Seq<Option<u32>>, int), _>(e@)
                &&& final(cursor).at() == table_stop(
                    old(cursor).all(),
                    old(cursor).at(),
                    bits as nat,
                    count as nat,
                )
            },
        },
{
    let entries: u8 = cursor.read_u8()?;
    if entries == 0 {
        return Err(Error::invalid_blob("LUT-compressed block has zero LUT bytes"));
    }
    let n: usize = entries as usize - 1;
    let table_data: &[u8] = cursor.read_bytes(packed_byte_len(bits, n))?;
    proof {
        lemma2_to64();
        lemma_bits_bound(n as nat, 8);
    }
    let index_bits: u32 = bits_required(n) as u32;
    let index_data: &[u8] = cursor.read_bytes(packed_byte_len(index_bits, count))?;
    let table: Vec<u32> = unstuff(table_data, version, bits, n);
    let indices: Vec<u32> = unstuff(index_data, version, index_bits, count);
    let mut levels: Vec<Option<u32>> = Vec::with_capacity(count);
    let mut i: usize = 0;
    while i < count
        invariant
            i <= count,
            count == indices@.len(),
            table@.len() == n,
            forall|j: int| 0 <= j < i ==> #[trigger] indices@[j] <= table@.len(),
            levels@ =~= looked_up(table@, indices@).subrange(0, i as int),
        ensures
            i == count || indices@[i as int] > table@.len(),
            i <= count,
            count == indices@.len(),
            forall|j: int| 0 <= j < i ==> #[trigger] indices@[j] <= table@.len(),
            levels@ =~= looked_up(table@, indices@).subrange(0, i as int),
        decreases count - i,
    {
        let index: usize = indices[i] as usize;
        if index > n {
            break;
        }
        levels.push(if index == 0 { None } else { Some(table[index - 1]) });
        i += 1;
    }
    if i < count {
        proof {
            assert(!(indices@[i as int] <= table@.len()));
        }
        return Err(Error::invalid_blob("bit-stuffed LUT index is outside the LUT"));
    }
    proof {
        assert(levels@ =~= looked_up(table@, indices@));
    }
    Ok(levels)
}

/// Reads a bit-stuffed block.
pub fn decode_bits(cursor: &mut Cursor, version: u32, capacity: usize, based: bool) -> (r: Result<
    Vec<Option<u32>>,
>)
    requires
        old(cursor).wf(),
        countable(capacity as nat),
    ensures
        final(cursor).wf(),
        final(cursor).all() == old(cursor).all(),
        match r {
            Ok(levels) => levels_decoded(
                old(cursor).all(),
                old(cursor).at(),
                version,
                capacity as nat,
                based,
            ) == Ok::<_, Fault>((levels@, final(cursor).at())),
            Err(e) => {
                &&& levels_decoded(
                    old(cursor).all(),
                    old(cursor).at(),
                    version,
                    capacity as nat,
                    based,
                ) == Err::<(Seq<Option<u32>>, int), _>(e@)
                &&& final(cursor).at() == levels_stop(
                    old(cursor).all(),
                    old(cursor).at(),
                    capacity as nat,
                    based,
                )
            },
        },
{
    let header: u8 = cursor.read_u8()?;
    let bits: u32 = (header % 32) as u32;
    let code: u8 = header / 64;
    let count: usize = if code == 2 {
        let ghost at = cursor.at();
        let value: u8 = cursor.read_u8()?;
        proof {
            reveal_with_fuel(bytes::le_value, 2);
        }
        value as usize
    } else if code == 1 {
        cursor.read_u16()? as usize
    } else if code == 0 {
        cursor.read_u32()? as usize
    } else {
        return Err(Error::invalid_blob("invalid valid pixel count field width"));
    };
    if count > capacity {
        return Err(Error::invalid_blob("bit-stuffed block expands beyond its output buffer"));
    }
    if (header / 32) % 2 == 1 {
        if !based {
            return Err(Error::invalid_blob("LUT-compressed block is missing its base offset"));
        }
        return read_table(cursor, version, bits, count);
    }
    if bits == 0 {
        return Ok(filled(None, count));
    }
    let data: &[u8] = cursor.read_bytes(packed_byte_len(bits, count))?;
    let values: Vec<u32> = unstuff(data, version, bits, count);
    let mut levels: Vec<Option<u32>> = Vec::with_capacity(count);
    let mut i: usize = 0;
    while i < count
        invariant
            i <= count,
            count == values@.len(),
            levels@ =~= as_levels(values@).subrange(0, i as int),
        decreases count - i,
    {
        levels.push(Some(values[i]));
        i += 1;
    }
    proof {
        assert(levels@ =~= as_levels(values@));
    }
    Ok(levels)
}

/// The number of steps from the base to the largest value; without a step there is no limit.
pub open spec fn level_limit(offset: Double, scale: Double, max_value: Double) -> Double {
    if scale.same(Double { bits: 0 }) {
        Double { bits: float::DOUBLE_INFINITY }
    } else {
        max_value.difference(offset).quotient(scale)
    }
}

/// The value of level `n`: so many steps above the base, or the largest value once that many
/// steps reach it.
pub open spec fn quantized(offset: Double, scale: Double, max_value: Double, n: u32) -> Double {
    let steps = float::double_of_int(n as int);
    if steps.below(level_limit(offset, scale, max_value)) {
        offset.sum(steps.product(scale))
    } else {
        max_value
    }
}

/// The value of a level.
pub open spec fn level_value(
    offset: Double,
    scale: Double,
    max_value: Double,
    level: Option<u32>,
) -> Double {
    match level {
        None => offset,
        Some(n) => quantized(offset, scale, max_value, n),
    }
}

/// The values of levels.
pub open spec fn level_values(
    offset: Double,
    scale: Double,
    max_value: Double,
    levels: Seq<Option<u32>>,
) -> Seq<Double> {
    levels.map_values(|level: Option<u32>| level_value(offset, scale, max_value, level))
}

/// The number of steps from the base to the largest value.
pub fn quantized_nmax(offset: Double, scale: Double, max_value: Double) -> (r: Double)
    ensures
        r == level_limit(offset, scale, max_value),
{
    if scale.equals(Double { bits: 0 }) {
        Double { bits: float::DOUBLE_INFINITY }
    } else {
        max_value.minus(offset).over(scale)
    }
}

/// The value of level `n`.
pub fn quantized_value(
    offset: Double,
    scale: Double,
    max_value: Double,
    n: u32,
    limit: Double,
) -> (r: Double)
    requires
        limit == level_limit(offset, scale, max_value),
    ensures
        r == quantized(offset, scale, max_value, n),
{
    let steps = Double::from_integer(n as i64);
    if steps.less_than(limit) {
        offset.plus(steps.times(scale))
    } else {
        max_value
    }
}

/// Turns levels into values.
pub fn value_levels(
    offset: Double,
    scale: Double,
    max_value: Double,
    levels: &Vec<Option<u32>>,
) -> (r: Vec<Double>)
    ensures
        r@ == level_values(offset, scale, max_value, levels@),
{
    let limit = quantized_nmax(offset, scale, max_value);
    let mut out: Vec<Double> = Vec::with_capacity(levels.len());
    let mut i: usize = 0;
    while i < levels.len()
        invariant
            i <= levels@.len(),
            limit == level_limit(offset, scale, max_value),
            out@ =~= level_values(offset, scale, max_value, levels@).subrange(0, i as int),
        decreases levels@.len() - i,
    {
        let value = match levels[i] {
            None => offset,
            Some(n) => quantized_value(offset, scale, max_value, n, limit),
        };
        out.push(value);
        i += 1;
    }
    proof {
        assert(out@ =~= level_values(offset, scale, max_value, levels@));
    }
    out
}

/// The largest of some numbers, or zero.
pub open spec fn largest(values: Seq<u32>) -> nat
    decreases values.len(),
{
    if values.len() == 0 {
        0
    } else {
        let before = largest(values.drop_last());
        if values.last() > before {
            values.last() as nat
        } else {
            before
        }
    }
}

/// The header code for a count: the narrowest field that holds it.
pub open spec fn count_code(count: nat) -> nat {
    if count <= 0xff {
        2
    } else if count <= 0xffff {
        1
    } else {
        0
    }
}

/// A plain bit-stuffed block.
pub open spec fn stuffed_bytes(values: Seq<u32>) -> Seq<u8> {
    let bits = bits_needed(largest(values));
    let code = count_code(values.len());
    seq![(64 * code + bits) as u8] + bytes::le_bytes(values.len(), count_width(code)) + if bits
        == 0 {
        seq![]
    } else {
        bytes::le_bytes(
            bitpack::packed_number(values, bits),
            bitpack::packed_len(bits, values.len()),
        )
    }
}

/// The length of a plain bit-stuffed block.
pub proof fn lemma_stuffed_len(values: Seq<u32>)
    ensures
        stuffed_bytes(values).len() == 1 + count_width(count_code(values.len()))
            + bitpack::packed_len(bits_needed(largest(values)), values.len()),
{
    let bits = bits_needed(largest(values));
    let code = count_code(values.len());
    bytes::lemma_le_bytes_len(values.len(), count_width(code));
    bytes::lemma_le_bytes_len(
        bitpack::packed_number(values, bits),
        bitpack::packed_len(bits, values.len()),
    );
    assert(0 * values.len() == 0) by (nonlinear_arith);
}

pub proof fn lemma_largest(values: Seq<u32>)
    ensures
        largest(values) <= u32::MAX,
        forall|i: int| 0 <= i < values.len() ==> #[trigger] values[i] <= largest(values),
    decreases values.len(),
{
    if values.len() > 0 {
        lemma_largest(values.drop_last());
        assert forall|i: int| 0 <= i < values.len() implies #[trigger] values[i] <= largest(
            values,
        ) by {
            if i < values.len() - 1 {
                assert(values.drop_last()[i] == values[i]);
            }
        }
    }
}

/// The largest of some numbers, or zero.
pub fn max_of(values: &[u32]) -> (r: u32)
    ensures
        r == largest(values@),
{
    let mut max: u32 = 0;
    let mut i: usize = 0;
    while i < values.len()
        invariant
            i <= values@.len(),
            max == largest(values@.subrange(0, i as int)),
        decreases values@.len() - i,
    {
        proof {
            assert(values@.subrange(0, i + 1).drop_last() =~= values@.subrange(0, i as int));
        }
        if values[i] > max {
            max = values[i];
        }
        i += 1;
    }
    proof {
        assert(values@.subrange(0, values@.len() as int) =~= values@);
    }
    max
}

/// Appends a plain bit-stuffed block.
pub fn write_raw_block(out: &mut Vec<u8>, values: &[u32]) -> (r: Result<()>)
    ensures
        match r {
            Ok(_) => {
                &&& bits_needed(largest(values@)) <= 31
                &&& values@.len() <= u32::MAX
                &&& final(out)@ == old(out)@ + stuffed_bytes(values@)
            },
            Err(e) => if bits_needed(largest(values@)) > 31 {
                e@ == Fault::Internal("bit-stuffed payload exceeds the Lerc2 bit width limit"@)
            } else {
                values@.len() > u32::MAX && e@ == Fault::SizeOverflow(
                    "tile valid-value count as u32"@,
                )
            },
        },
{
    let max: u32 = max_of(values);
    let bits: u8 = bits_required(max as usize);
    if bits > 31 {
        return Err(Error::Internal("bit-stuffed payload exceeds the Lerc2 bit width limit"));
    }
    let count: usize = values.len();
    let ghost before = out@;
    proof {
        bytes::lemma_le_bytes_1(count as nat % 256);
    }
    if count <= 0xff {
        out.push(128 + bits);
        proof {
            bytes::lemma_le_bytes_1(count as nat);
        }
        out.push(count as u8);
    } else if count <= 0xffff {
        out.push(64 + bits);
        push_u16(out, count as u16);
    } else if count as u64 <= 0xffff_ffff {
        out.push(bits);
        push_u32(out, count as u32);
    } else {
        return Err(Error::SizeOverflow("tile valid-value count as u32"));
    }
    let ghost code = count_code(count as nat);
    let ghost head = seq![(64 * code + bits) as u8] + bytes::le_bytes(
        count as nat,
        count_width(code),
    );
    assert(out@ =~= before + head);
    if bits != 0 {
        proof {
            lemma_bits_needed(max as nat);
            lemma_largest(values@);
            assert forall|i: int| 0 <= i < values@.len() implies #[trigger] values@[i] < pow2(
                bits as nat,
            ) by {}
        }
        pack_lsb_bits_into(values, bits as u32, out);
    }
    proof {
        assert(out@ =~= before + stuffed_bytes(values@));
    }
    Ok(())
}

/// Reading a plain bit-stuffed block gives its numbers back; where all are zero they read as
/// the base.
pub proof fn law_stuffed_roundtrip(
    all: Seq<u8>,
    pos: int,
    values: Seq<u32>,
    version: u32,
    capacity: nat,
    based: bool,
)
    requires
        bytes::stands_at(all, pos, stuffed_bytes(values)),
        all.len() <= usize::MAX,
        values.len() <= capacity,
        values.len() <= u32::MAX,
        bits_needed(largest(values)) <= 31,
        version >= 3,
    ensures
        levels_decoded(all, pos, version, capacity, based) == Ok::<
            (Seq<Option<u32>>, int),
            Fault,
        >(
            (
                if largest(values) == 0 {
                    allocation::repeated(None, values.len())
                } else {
                    as_levels(values)
                },
                pos + stuffed_bytes(values).len(),
            ),
        ),
{
    let bits = bits_needed(largest(values));
    let code = count_code(values.len());
    let width = count_width(code);
    let count = values.len();
    let header = (64 * code + bits) as u8;
    let a = seq![header];
    let b = bytes::le_bytes(count, width);
    bytes::lemma_le_bytes_len(count, width);
    let c = if bits == 0 {
        seq![]
    } else {
        bytes::le_bytes(
            bitpack::packed_number(values, bits),
            bitpack::packed_len(bits, count),
        )
    };
    bytes::lemma_le_bytes_len(
        bitpack::packed_number(values, bits),
        bitpack::packed_len(bits, count),
    );
    assert(stuffed_bytes(values) == a + b + c);
    bytes::lemma_stands_split(all, pos, a + b, c);
    bytes::lemma_stands_split(all, pos, a, b);
    assert(all.subrange(pos, pos + 1)[0] == a[0]);
    assert(cursor::take_u8(all, pos) == Ok::<u8, Fault>(header));
    assert(header / 64 == code && header % 32 == bits && (header / 32) % 2 == 0);
    bytes::lemma_pow256();
    bytes::lemma_le_roundtrip(count, width);
    assert(cursor::take_number(all, pos + 1, width as int) == Ok::<nat, Fault>(count));
    lemma_bits_needed(largest(values));
    lemma_largest(values);
    if bits == 0 {
        assert(largest(values) == 0);
    } else {
        assert(largest(values) > 0);
        assert(cursor::take(all, pos + 1 + width, c.len() as int) == Ok::<Seq<u8>, Fault>(c));
        assert forall|i: int| 0 <= i < values.len() implies #[trigger] values[i] < pow2(bits) by {}
        bitpack::law_pack_roundtrip(values, bits);
    }
}

} // verus!
