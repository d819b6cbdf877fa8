//! Little-endian integers as byte sequences.

use vstd::arithmetic::power::*;
use vstd::prelude::*;

verus! {

/// The number that a little-endian byte sequence stands for.
pub open spec fn le_value(bytes: Seq<u8>) -> nat
    decreases bytes.len(),
{
    if bytes.len() == 0 {
        0
    } else {
        bytes[0] as nat + 256 * le_value(bytes.drop_first())
    }
}

/// The low `len` bytes of a number, least significant first.
pub open spec fn le_bytes(value: nat, len: nat) -> Seq<u8>
    decreases len,
{
    if len == 0 {
        seq![]
    } else {
        seq![(value % 256) as u8] + le_bytes(value / 256, (len - 1) as nat)
    }
}

/// The signed number with these two's-complement bits.
pub open spec fn signed(value: nat, modulus: nat) -> int {
    if 2 * value < modulus {
        value as int
    } else {
        value - modulus
    }
}

/// The two's-complement bits of a signed number.
pub open spec fn unsigned(value: int, modulus: nat) -> nat {
    if value < 0 {
        (value + modulus) as nat
    } else {
        value as nat
    }
}

pub proof fn lemma_le_bytes_len(value: nat, len: nat)
    ensures
        le_bytes(value, len).len() == len,
    decreases len,
{
    if len > 0 {
        lemma_le_bytes_len(value / 256, (len - 1) as nat);
    }
}

/// The lowest byte stands first: byte `i` counts `256^i`.
pub proof fn law_byte_order(value: nat, len: nat, i: nat)
    requires
        i < len,
    ensures
        le_bytes(value, len).len() == len,
        le_bytes(value, len)[i as int] == (value / vstd::arithmetic::power::pow(256, i) as nat)
            % 256,
    decreases len,
{
    lemma_le_bytes_len(value, len);
    vstd::arithmetic::power::lemma_pow_positive(256, i);
    if i == 0 {
        vstd::arithmetic::power::lemma_pow0(256);
        vstd::arithmetic::div_mod::lemma_div_basics(value as int);
    } else {
        let m = (i - 1) as nat;
        law_byte_order(value / 256, (len - 1) as nat, m);
        vstd::arithmetic::power::lemma_pow_positive(256, m);
        reveal(vstd::arithmetic::power::pow);
        let w = vstd::arithmetic::power::pow(256, m);
        assert(vstd::arithmetic::power::pow(256, i) == 256 * w);
        vstd::arithmetic::div_mod::lemma_div_denominator(value as int, 256, w);
    }
}

/// Reading back what was written gives the number, as far as the bytes can hold it.
pub proof fn lemma_le_roundtrip(value: nat, len: nat)
    requires
        value < pow(256, len),
    ensures
        le_bytes(value, len).len() == len,
        le_value(le_bytes(value, len)) == value,
    decreases len,
{
    lemma_le_bytes_len(value, len);
    reveal(pow);
    if len > 0 {
        assert(value / 256 < pow(256, (len - 1) as nat)) by {
            assert(pow(256, len) == 256 * pow(256, (len - 1) as nat));
        }
        lemma_le_roundtrip(value / 256, (len - 1) as nat);
        assert(le_bytes(value, len).drop_first() =~= le_bytes(value / 256, (len - 1) as nat));
    }
}

pub proof fn lemma_le_value_2(b: Seq<u8>)
    requires
        b.len() == 2,
    ensures
        le_value(b) == b[0] + 256 * b[1],
        le_value(b) < 0x1_0000,
{
    reveal_with_fuel(le_value, 3);
}

pub proof fn lemma_le_value_4(b: Seq<u8>)
    requires
        b.len() == 4,
    ensures
        le_value(b) == b[0] + 0x100 * b[1] + 0x1_0000 * b[2] + 0x100_0000 * b[3],
        le_value(b) < 0x1_0000_0000,
{
    reveal_with_fuel(le_value, 5);
}

pub proof fn lemma_le_value_8(b: Seq<u8>)
    requires
        b.len() == 8,
    ensures
        le_value(b) == le_value(b.subrange(0, 4)) + 0x1_0000_0000 * le_value(b.subrange(4, 8)),
        le_value(b) < 0x1_0000_0000_0000_0000,
{
    reveal_with_fuel(le_value, 9);
    lemma_le_value_4(b.subrange(0, 4));
    lemma_le_value_4(b.subrange(4, 8));
}

pub proof fn lemma_le_bytes_1(value: nat)
    requires
        value < 256,
    ensures
        le_bytes(value, 1) =~= seq![value as u8],
{
    reveal_with_fuel(le_bytes, 2);
}

pub proof fn lemma_le_bytes_2(value: nat)
    requires
        value < 0x1_0000,
    ensures
        le_bytes(value, 2) =~= seq![(value % 256) as u8, (value / 256) as u8],
{
    reveal_with_fuel(le_bytes, 3);
}

pub proof fn lemma_le_bytes_4(value: nat)
    requires
        value < 0x1_0000_0000,
    ensures
        le_bytes(value, 4) =~= seq![
            (value % 256) as u8,
            (value / 256 % 256) as u8,
            (value / 0x1_0000 % 256) as u8,
            (value / 0x100_0000) as u8,
        ],
{
    reveal_with_fuel(le_bytes, 5);
    assert(value / 256 / 256 == value / 0x1_0000);
    assert(value / 256 / 256 / 256 == value / 0x100_0000);
}

/// `256^len` for the widths in use.
pub proof fn lemma_pow256()
    ensures
        pow(256, 1) == 0x100,
        pow(256, 2) == 0x1_0000,
        pow(256, 4) == 0x1_0000_0000,
        pow(256, 8) == 0x1_0000_0000_0000_0000,
{
    reveal(pow);
    reveal_with_fuel(pow, 9);
}

/// Reads a 16-bit number.
pub fn read_u16(bytes: &[u8]) -> (r: u16)
    requires
        bytes@.len() == 2,
    ensures
        r == le_value(bytes@),
{
    proof {
        lemma_le_value_2(bytes@);
    }
    bytes[0] as u16 + 256 * (bytes[1] as u16)
}

/// Reads a 32-bit number.
pub fn read_u32(bytes: &[u8]) -> (r: u32)
    requires
        bytes@.len() == 4,
    ensures
        r == le_value(bytes@),
{
    proof {
        lemma_le_value_4(bytes@);
    }
    bytes[0] as u32 + 0x100 * (bytes[1] as u32) + 0x1_0000 * (bytes[2] as u32) + 0x100_0000 * (
    bytes[3] as u32)
}

/// Reads a 64-bit number.
pub fn read_u64(bytes: &[u8]) -> (r: u64)
    requires
        bytes@.len() == 8,
    ensures
        r == le_value(bytes@),
{
    proof {
        lemma_le_value_8(bytes@);
    }
    let low: u32 = read_u32(vstd::slice::slice_subrange(bytes, 0, 4));
    let high: u32 = read_u32(vstd::slice::slice_subrange(bytes, 4, 8));
    low as u64 + 0x1_0000_0000 * (high as u64)
}

/// Reinterprets 8 bits as a signed number.
pub fn signed_8(value: u8) -> (r: i8)
    ensures
        r == signed(value as nat, 0x100),
{
    if value < 0x80 {
        value as i8
    } else {
        (value as i16 - 0x100) as i8
    }
}

/// Reinterprets 16 bits as a signed number.
pub fn signed_16(value: u16) -> (r: i16)
    ensures
        r == signed(value as nat, 0x1_0000),
{
    if value < 0x8000 {
        value as i16
    } else {
        (value as i32 - 0x1_0000) as i16
    }
}

/// Reinterprets 32 bits as a signed number.
pub fn signed_32(value: u32) -> (r: i32)
    ensures
        r == signed(value as nat, 0x1_0000_0000),
{
    if value < 0x8000_0000 {
        value as i32
    } else {
        (value as i64 - 0x1_0000_0000) as i32
    }
}

/// The two's-complement bits of a signed 8-bit number.
pub fn unsigned_8(value: i8) -> (r: u8)
    ensures
        r == unsigned(value as int, 0x100),
{
    if value < 0 {
        (value as i16 + 0x100) as u8
    } else {
        value as u8
    }
}

/// The two's-complement bits of a signed 16-bit number.
pub fn unsigned_16(value: i16) -> (r: u16)
    ensures
        r == unsigned(value as int, 0x1_0000),
{
    if value < 0 {
        (value as i32 + 0x1_0000) as u16
    } else {
        value as u16
    }
}

/// The two's-complement bits of a signed 32-bit number.
pub fn unsigned_32(value: i32) -> (r: u32)
    ensures
        r == unsigned(value as int, 0x1_0000_0000),
{
    if value < 0 {
        (value as i64 + 0x1_0000_0000) as u32
    } else {
        value as u32
    }
}

/// Appends a 16-bit number.
pub fn push_u16(out: &mut Vec<u8>, value: u16)
    ensures
        final(out)@ == old(out)@ + le_bytes(value as nat, 2),
{
    proof {
        lemma_le_bytes_2(value as nat);
    }
    out.push((value % 256) as u8);
    out.push((value / 256) as u8);
}

/// Appends a 32-bit number.
pub fn push_u32(out: &mut Vec<u8>, value: u32)
    ensures
        final(out)@ == old(out)@ + le_bytes(value as nat, 4),
{
    proof {
        lemma_le_bytes_4(value as nat);
    }
    out.push((value % 256) as u8);
    out.push((value / 256 % 256) as u8);
    out.push((value / 0x1_0000 % 256) as u8);
    out.push((value / 0x100_0000) as u8);
}

pub proof fn lemma_le_bytes_8(value: nat)
    requires
        value < 0x1_0000_0000_0000_0000,
    ensures
        le_bytes(value, 8) == le_bytes(value % 0x1_0000_0000, 4) + le_bytes(
            value / 0x1_0000_0000,
            4,
        ),
{
    lemma_le_split(value, 4, 4);
    lemma_pow256();
}

/// The bytes of a number split anywhere.
pub proof fn lemma_le_split(value: nat, low: nat, high: nat)
    ensures
        le_bytes(value, low + high) == le_bytes(value % (pow(256, low) as nat), low) + le_bytes(
            value / (pow(256, low) as nat),
            high,
        ),
    decreases low,
{
    lemma_pow_positive(256, low);
    let p = pow(256, low) as nat;
    if low == 0 {
        reveal(pow);
        assert(value % 1 == 0 && value / 1 == value);
        assert(le_bytes(value, high) =~= le_bytes(0, 0) + le_bytes(value, high));
    } else {
        let l1 = (low - 1) as nat;
        lemma_pow_positive(256, l1);
        let p1 = pow(256, l1) as nat;
        reveal(pow);
        assert(p == 256 * p1);
        lemma_le_split(value / 256, l1, high);
        vstd::arithmetic::div_mod::lemma_div_denominator(value as int, 256, p1 as int);
        vstd::arithmetic::div_mod::lemma_mod_breakdown(value as int, 256, p1 as int);
        let v = value % p;
        assert(v % 256 == value % 256 && v / 256 == (value / 256) % p1) by {
            assert(v == 256 * ((value / 256) % p1) + value % 256);
        }
        assert(le_bytes(value, low + high) =~= le_bytes(v, low) + le_bytes(value / p, high)) by {
            assert(le_bytes(v, low) == seq![(v % 256) as u8] + le_bytes(v / 256, l1));
            assert((low + high - 1) as nat == l1 + high);
        }
    }
}

/// Appends a 64-bit number.
pub fn push_u64(out: &mut Vec<u8>, value: u64)
    ensures
        final(out)@ == old(out)@ + le_bytes(value as nat, 8),
{
    proof {
        lemma_le_bytes_8(value as nat);
    }
    push_u32(out, (value % 0x1_0000_0000) as u32);
    push_u32(out, (value / 0x1_0000_0000) as u32);
    proof {
        let a = le_bytes((value % 0x1_0000_0000) as nat, 4);
        let b = le_bytes((value / 0x1_0000_0000) as nat, 4);
        assert((old(out)@ + a) + b =~= old(out)@ + (a + b));
    }
}

/// Whether `part` stands in `all` at `pos`.
pub open spec fn stands_at(all: Seq<u8>, pos: int, part: Seq<u8>) -> bool {
    &&& 0 <= pos
    &&& pos + part.len() <= all.len()
    &&& all.subrange(pos, pos + part.len()) == part
}

/// Where two parts stand together, each stands by itself.
pub proof fn lemma_stands_split(all: Seq<u8>, pos: int, first: Seq<u8>, second: Seq<u8>)
    requires
        stands_at(all, pos, first + second),
    ensures
        stands_at(all, pos, first),
        stands_at(all, pos + first.len(), second),
{
    let both = first + second;
    assert(all.subrange(pos, pos + first.len()) =~= both.subrange(0, first.len() as int));
    assert(both.subrange(0, first.len() as int) =~= first);
    assert(all.subrange(pos + first.len(), pos + both.len()) =~= both.subrange(
        first.len() as int,
        both.len() as int,
    ));
    assert(both.subrange(first.len() as int, both.len() as int) =~= second);
}

/// Appends every byte of `tail`.
pub fn push_bytes(out: &mut Vec<u8>, tail: &[u8])
    ensures
        final(out)@ == old(out)@ + tail@,
{
    let ghost before = out@;
    let mut i: usize = 0;
    while i < tail.len()
        invariant
            i <= tail@.len(),
            out@ == before + tail@.subrange(0, i as int),
        decreases tail@.len() - i,
    {
        out.push(tail[i]);
        i += 1;
        proof {
            assert(before + tail@.subrange(0, i as int) =~= (before + tail@.subrange(
                0,
                i - 1,
            )).push(tail@[i - 1]));
        }
    }
    proof {
        assert(tail@.subrange(0, tail@.len() as int) =~= tail@);
    }
}

} // verus!
