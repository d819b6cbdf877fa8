//! Blocks of numbers that are stored through a look-up table.

use crate::bitpack;
use crate::bytes;
use crate::cursor;
use crate::error::Fault;
use crate::stuffed;
use crate::word_laws;
use vstd::arithmetic::power2::*;
use vstd::prelude::*;

verus! {

/// The bytes of packed numbers: from the lowest bits upwards, or before version 3 from the
/// highest bits of each word downwards.
pub open spec fn packed_bytes(values: Seq<u32>, bits: nat, version: u32) -> Seq<u8> {
    if version >= 3 {
        bytes::le_bytes(
            bitpack::packed_number(values, bits),
            bitpack::packed_len(bits, values.len()),
        )
    } else {
        word_laws::high_bytes(values, bits)
    }
}

/// Unpacking gives packed numbers back.
pub proof fn lemma_packed_back(values: Seq<u32>, bits: nat, version: u32)
    requires
        bits <= 32,
        forall|i: int| 0 <= i < values.len() ==> #[trigger] values[i] < pow2(bits),
    ensures
        packed_bytes(values, bits, version).len() == bitpack::packed_len(bits, values.len()),
        stuffed::unstuffed(packed_bytes(values, bits, version), version, bits, values.len())
            == values,
{
    if version >= 3 {
        bytes::lemma_le_bytes_len(
            bitpack::packed_number(values, bits),
            bitpack::packed_len(bits, values.len()),
        );
        bitpack::law_pack_roundtrip(values, bits);
    } else {
        word_laws::law_high_roundtrip(values, bits);
    }
}

/// Where a number first stands in a table, counted from one; zero where it does not.
pub open spec fn place_in(table: Seq<u32>, value: u32) -> nat
    decreases table.len(),
{
    if table.len() == 0 {
        0
    } else {
        let before = place_in(table.drop_last(), value);
        if before == 0 && table.last() == value {
            table.len()
        } else {
            before
        }
    }
}

proof fn lemma_place_in(table: Seq<u32>, value: u32)
    ensures
        place_in(table, value) <= table.len(),
        place_in(table, value) > 0 ==> table[place_in(table, value) - 1] == value,
        table.contains(value) ==> place_in(table, value) > 0,
    decreases table.len(),
{
    if table.len() > 0 {
        let front = table.drop_last();
        lemma_place_in(front, value);
        if table.contains(value) && table.last() != value {
            let k = choose|k: int| 0 <= k < table.len() && table[k] == value;
            assert(front[k] == value);
        }
    }
}

/// What each level is stored as: zero for the base, else the place of the level in the table.
pub open spec fn places(levels: Seq<u32>, table: Seq<u32>) -> Seq<u32> {
    Seq::new(
        levels.len(),
        |i: int|
            if levels[i] == 0 {
                0u32
            } else {
                place_in(table, levels[i]) as u32
            },
    )
}

/// The bits that a place in the table takes: as many as the number of entries has.
pub open spec fn place_bits(entries: nat) -> nat {
    if entries == 0 {
        0
    } else if entries < 2 {
        1
    } else if entries < 4 {
        2
    } else if entries < 8 {
        3
    } else if entries < 16 {
        4
    } else if entries < 32 {
        5
    } else if entries < 64 {
        6
    } else if entries < 128 {
        7
    } else {
        8
    }
}

/// A block with a look-up table: a header byte with the flag of a table and the bits of its
/// entries, the number of levels, one more than the number of entries, the entries, and the
/// places of the levels.
pub open spec fn tabled_bytes(
    levels: Seq<u32>,
    table: Seq<u32>,
    bits: nat,
    code: nat,
    version: u32,
) -> Seq<u8> {
    seq![(64 * code + 32 + bits) as u8] + bytes::le_bytes(
        levels.len(),
        count_bytes(code),
    ) + seq![(table.len() + 1) as u8] + packed_bytes(table, bits, version) + packed_bytes(
        places(levels, table),
        place_bits(table.len()),
        version,
    )
}

/// The bytes of the number of levels.
pub open spec fn count_bytes(code: nat) -> nat {
    if code == 0 {
        4
    } else if code == 1 {
        2
    } else {
        1
    }
}

/// A block without a look-up table.
pub open spec fn plain_bytes(levels: Seq<u32>, bits: nat, code: nat, version: u32) -> Seq<u8> {
    seq![(64 * code + bits) as u8] + bytes::le_bytes(levels.len(), count_bytes(code))
        + packed_bytes(levels, bits, version)
}

proof fn lemma_place_bits(entries: nat)
    requires
        entries <= 254,
    ensures
        place_bits(entries) == stuffed::bits_needed(entries),
        entries < pow2(place_bits(entries)),
        place_bits(entries) <= 8,
{
    lemma2_to64();
    reveal_with_fuel(stuffed::bits_needed, 10);
}

/// Reads the byte that stands at a position.
pub proof fn lemma_byte(all: Seq<u8>, pos: int, byte: u8)
    requires
        bytes::stands_at(all, pos, seq![byte]),
        all.len() <= usize::MAX,
    ensures
        cursor::take_u8(all, pos) == Ok::<u8, Fault>(byte),
{
    assert(all.subrange(pos, pos + 1)[0] == seq![byte][0]);
}

/// Reads the header and the count of a block.
proof fn lemma_block_head(all: Seq<u8>, pos: int, header: u8, code: nat, count: nat)
    requires
        bytes::stands_at(all, pos, seq![header] + bytes::le_bytes(count, count_bytes(code))),
        all.len() <= usize::MAX,
        code <= 2,
        count < vstd::arithmetic::power::pow(256, count_bytes(code)),
    ensures
        cursor::take_u8(all, pos) == Ok::<u8, Fault>(header),
        stuffed::count_width(code) == count_bytes(code),
        cursor::take_number(all, pos + 1, count_bytes(code) as int) == Ok::<nat, Fault>(count),
{
    let b = bytes::le_bytes(count, count_bytes(code));
    bytes::lemma_stands_split(all, pos, seq![header], b);
    lemma_byte(all, pos, header);
    bytes::lemma_le_roundtrip(count, count_bytes(code));
}

/// Reading a block with a look-up table gives back every level; the base reads as none.
#[verifier::rlimit(40)]
#[verifier::spinoff_prover]
pub proof fn law_table_roundtrip(
    all: Seq<u8>,
    pos: int,
    levels: Seq<u32>,
    table: Seq<u32>,
    bits: nat,
    code: nat,
    version: u32,
    capacity: nat,
)
    requires
        bytes::stands_at(all, pos, tabled_bytes(levels, table, bits, code, version)),
        all.len() <= usize::MAX,
        bits <= 31,
        code <= 2,
        levels.len() <= capacity,
        levels.len() < vstd::arithmetic::power::pow(256, count_bytes(code)),
        table.len() <= 254,
        forall|k: int| 0 <= k < table.len() ==> #[trigger] table[k] < pow2(bits),
        forall|i: int|
            0 <= i < levels.len() && #[trigger] levels[i] != 0 ==> table.contains(levels[i]),
    ensures
        stuffed::levels_decoded(all, pos, version, capacity, true) matches Ok((read, next))
            && next == pos + tabled_bytes(levels, table, bits, code, version).len() && read.len()
            == levels.len() && forall|i: int|
            0 <= i < levels.len() ==> #[trigger] read[i] == if levels[i] == 0 {
                None
            } else {
                Some(levels[i])
            },
{
    let count = levels.len();
    let width = count_bytes(code);
    let n = table.len();
    let header = (64 * code + 32 + bits) as u8;
    let head = seq![header] + bytes::le_bytes(count, width);
    let entries = (n + 1) as u8;
    let chosen = places(levels, table);
    let index_bits = place_bits(n);
    let stored_table = packed_bytes(table, bits, version);
    let stored_places = packed_bytes(chosen, index_bits, version);
    bytes::lemma_le_bytes_len(count, width);
    assert(tabled_bytes(levels, table, bits, code, version) == head + seq![entries] + stored_table
        + stored_places);
    bytes::lemma_stands_split(all, pos, head + seq![entries] + stored_table, stored_places);
    bytes::lemma_stands_split(all, pos, head + seq![entries], stored_table);
    bytes::lemma_stands_split(all, pos, head, seq![entries]);
    lemma_block_head(all, pos, header, code, count);
    assert(header / 64 == code && header % 32 == bits && (header / 32) % 2 == 1);
    let at = pos + 1 + width;
    lemma_byte(all, at, entries);
    lemma_place_bits(n);
    lemma_packed_back(table, bits, version);
    assert forall|i: int| 0 <= i < chosen.len() implies #[trigger] chosen[i] <= n by {
        lemma_place_in(table, levels[i]);
    }
    lemma_packed_back(chosen, index_bits, version);
    assert(cursor::take(all, at + 1, stored_table.len() as int) == Ok::<Seq<u8>, Fault>(
        stored_table,
    ));
    assert(cursor::take(all, at + 1 + stored_table.len(), stored_places.len() as int) == Ok::<
        Seq<u8>,
        Fault,
    >(stored_places));
    let read = stuffed::looked_up(table, chosen);
    assert(stuffed::table_levels(all, at, version, bits, count) == Ok::<
        (Seq<Option<u32>>, int),
        Fault,
    >((read, at + 1 + stored_table.len() + stored_places.len())));
    assert forall|i: int| 0 <= i < count implies #[trigger] read[i] == if levels[i] == 0 {
        None
    } else {
        Some(levels[i])
    } by {
        lemma_place_in(table, levels[i]);
    }
}

/// Reading a block without a look-up table gives back every level, in any version; levels of no
/// bits read as the base.
#[verifier::rlimit(40)]
#[verifier::spinoff_prover]
pub proof fn law_plain_roundtrip(
    all: Seq<u8>,
    pos: int,
    levels: Seq<u32>,
    bits: nat,
    code: nat,
    version: u32,
    capacity: nat,
    based: bool,
)
    requires
        bytes::stands_at(all, pos, plain_bytes(levels, bits, code, version)),
        all.len() <= usize::MAX,
        bits <= 31,
        code <= 2,
        levels.len() <= capacity,
        levels.len() < vstd::arithmetic::power::pow(256, count_bytes(code)),
        forall|i: int| 0 <= i < levels.len() ==> #[trigger] levels[i] < pow2(bits),
    ensures
        stuffed::levels_decoded(all, pos, version, capacity, based) matches Ok((read, next))
            && next == pos + plain_bytes(levels, bits, code, version).len() && read.len()
            == levels.len() && forall|i: int|
            0 <= i < levels.len() ==> #[trigger] read[i] == if bits == 0 {
                None
            } else {
                Some(levels[i])
            },
{
    let count = levels.len();
    let width = count_bytes(code);
    let header = (64 * code + bits) as u8;
    let head = seq![header] + bytes::le_bytes(count, width);
    let stored = packed_bytes(levels, bits, version);
    bytes::lemma_le_bytes_len(count, width);
    bytes::lemma_stands_split(all, pos, head, stored);
    lemma_block_head(all, pos, header, code, count);
    assert(header / 64 == code && header % 32 == bits && (header / 32) % 2 == 0);
    lemma_packed_back(levels, bits, version);
    let at = pos + 1 + width;
    if bits == 0 {
        assert(bits * count == 0) by (nonlinear_arith)
            requires
                bits == 0,
        ;
    } else {
        assert(cursor::take(all, at, stored.len() as int) == Ok::<Seq<u8>, Fault>(stored));
        assert(stuffed::levels_decoded(all, pos, version, capacity, based) == Ok::<
            (Seq<Option<u32>>, int),
            Fault,
        >((stuffed::as_levels(levels), at + stored.len())));
    }
}

} // verus!
