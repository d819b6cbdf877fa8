//! Numbers of equal bit width packed into bytes and 32-bit words.

use crate::bytes;
use crate::rounding::power;
use vstd::arithmetic::div_mod::*;
use vstd::arithmetic::power::*;
use vstd::arithmetic::power2::*;
use vstd::bits::*;
use vstd::prelude::*;

verus! {

/// Byte `i`, or zero past the end.
pub open spec fn padded_byte(data: Seq<u8>, i: int) -> nat {
    if 0 <= i < data.len() {
        data[i] as nat
    } else {
        0
    }
}

/// The `j`-th little-endian word of bytes padded with zeros.
pub open spec fn word_of(data: Seq<u8>, j: int) -> nat {
    padded_byte(data, 4 * j) + 0x100 * padded_byte(data, 4 * j + 1) + 0x1_0000 * padded_byte(
        data,
        4 * j + 2,
    ) + 0x100_0000 * padded_byte(data, 4 * j + 3)
}

/// The words of bytes padded to 32-bit alignment.
pub open spec fn words_of(data: Seq<u8>) -> Seq<u32> {
    Seq::new((data.len() + 3) / 4, |j: int| word_of(data, j) as u32)
}

/// The number whose base-`2^32` digits are the words, least significant first.
pub open spec fn number_of(words: Seq<u32>) -> nat
    decreases words.len(),
{
    if words.len() == 0 {
        0
    } else {
        words[0] as nat + 0x1_0000_0000 * number_of(words.drop_first())
    }
}

/// The `i`-th group of `bits` binary digits of a number, least significant first.
pub open spec fn field_of(number: nat, i: nat, bits: nat) -> nat {
    (number / pow2(i * bits)) % pow2(bits)
}

/// The number whose groups of `bits` binary digits are the values, least significant first.
pub open spec fn packed_number(values: Seq<u32>, bits: nat) -> nat
    decreases values.len(),
{
    if values.len() == 0 {
        0
    } else {
        packed_number(values.drop_last(), bits) + values.last() as nat * pow2(
            ((values.len() - 1) * bits) as nat,
        )
    }
}

/// Word `w`, or zero past the end.
pub open spec fn padded_word(words: Seq<u32>, w: int) -> nat {
    if 0 <= w < words.len() {
        words[w] as nat
    } else {
        0
    }
}

/// The values of a payload whose bits run from the lowest bit of each word upwards.
pub open spec fn low_first(words: Seq<u32>, bits: nat, count: nat) -> Seq<u32> {
    Seq::new(count, |i: int| field_of(number_of(words), i as nat, bits) as u32)
}

/// The words of a payload stored from the highest bit of each word downwards, whose last word
/// lacks `missing` bytes.
pub open spec fn lifted(words: Seq<u32>, missing: nat) -> Seq<u32> {
    if words.len() == 0 {
        words
    } else {
        words.update(
            words.len() - 1,
            ((words.last() * pow2(8 * missing)) % 0x1_0000_0000) as u32,
        )
    }
}

/// The `bits` binary digits from digit `start` on, counted from the highest bit of the first
/// word.
pub open spec fn high_field(words: Seq<u32>, start: nat, bits: nat) -> nat {
    let w = (start / 32) as int;
    let off = start % 32;
    let pair = padded_word(words, w) * 0x1_0000_0000 + padded_word(words, w + 1);
    (pair / pow2((64 - off - bits) as nat)) % pow2(bits)
}

/// The bytes that `count` numbers of `bits` bits take.
pub open spec fn packed_len(bits: nat, count: nat) -> nat {
    (bits * count + 7) / 8
}

/// The values of a payload whose bits run from the highest bit of each word downwards.
pub open spec fn high_first(words: Seq<u32>, bits: nat, count: nat) -> Seq<u32> {
    let missing = (4 * words.len() - packed_len(bits, count)) as nat;
    let whole = lifted(words, missing);
    Seq::new(count, |i: int| high_field(whole, (i * bits) as nat, bits) as u32)
}

pub proof fn lemma_word_bound(data: Seq<u8>, j: int)
    ensures
        word_of(data, j) < 0x1_0000_0000,
{
}

/// The words of padded bytes and the bytes themselves stand for one number.
pub proof fn lemma_number_of_bytes(data: Seq<u8>)
    ensures
        number_of(words_of(data)) == bytes::le_value(data),
    decreases data.len(),
{
    let words = words_of(data);
    if data.len() == 0 {
    } else {
        lemma_word_bound(data, 0);
        let cut: int = if data.len() < 4 {
            data.len() as int
        } else {
            4
        };
        let rest = data.subrange(cut, data.len() as int);
        lemma_number_of_bytes(rest);
        assert(words.drop_first() =~= words_of(rest)) by {
            assert forall|j: int| 0 <= j < words_of(rest).len() implies words.drop_first()[j]
                == words_of(rest)[j] by {
                assert(word_of(data, j + 1) == word_of(rest, j));
            }
        }
        reveal_with_fuel(bytes::le_value, 5);
        let d1 = data.drop_first();
        if data.len() == 1 {
            assert(d1 =~= seq![]);
        } else {
            let d2 = d1.drop_first();
            if data.len() == 2 {
                assert(d2 =~= seq![]);
            } else {
                let d3 = d2.drop_first();
                if data.len() == 3 {
                    assert(d3 =~= seq![]);
                } else {
                    assert(d3.drop_first() =~= rest);
                }
            }
        }
        if data.len() < 4 {
            assert(rest =~= seq![]);
        }
    }
}

/// Pads a byte slice to 32-bit alignment and returns little-endian words.
pub fn words_from_padded(data: &[u8]) -> (r: Vec<u32>)
    ensures
        r@ == words_of(data@),
{
    let len: usize = data.len();
    let count: usize = len / 4 + if len % 4 != 0 { 1 } else { 0 };
    let mut words: Vec<u32> = Vec::with_capacity(count);
    let mut j: usize = 0;
    while j < count
        invariant
            j <= count,
            len == data@.len(),
            count == (len + 3) / 4,
            words@ =~= words_of(data@).subrange(0, j as int),
        decreases count - j,
    {
        let base: usize = 4 * j;
        let left: usize = len - base;
        let b0: u32 = data[base] as u32;
        let b1: u32 = if left > 1 { data[base + 1] as u32 } else { 0 };
        let b2: u32 = if left > 2 { data[base + 2] as u32 } else { 0 };
        let b3: u32 = if left > 3 { data[base + 3] as u32 } else { 0 };
        proof {
            lemma_word_bound(data@, j as int);
        }
        words.push(b0 + 0x100 * b1 + 0x1_0000 * b2 + 0x100_0000 * b3);
        j += 1;
    }
    words
}

/// Dropping whole words from a number.
proof fn lemma_number_tail(words: Seq<u32>, w: nat)
    requires
        w <= words.len(),
    ensures
        number_of(words) / pow2(32 * w) == number_of(words.subrange(w as int, words.len() as int)),
    decreases w,
{
    lemma2_to64();
    lemma2_to64_rest();
    if w == 0 {
        assert(words.subrange(0, words.len() as int) =~= words);
        assert(number_of(words) / 1 == number_of(words));
    } else {
        let rest = words.drop_first();
        let w1 = (w - 1) as nat;
        lemma_number_tail(rest, w1);
        lemma_pow2_adds(32, 32 * w1);
        lemma_pow2_pos(32 * w1);
        assert(number_of(words) / 0x1_0000_0000 == number_of(rest));
        lemma_div_denominator(
            number_of(words) as int,
            0x1_0000_0000,
            pow2(32 * w1) as int,
        );
        assert(rest.subrange(w1 as int, rest.len() as int) =~= words.subrange(
            w as int,
            words.len() as int,
        ));
        assert(32 + 32 * w1 == 32 * w);
    }
}

proof fn lemma_number_pair(words: Seq<u32>)
    ensures
        exists|rest: nat|
            number_of(words) == padded_word(words, 0) + 0x1_0000_0000 * padded_word(words, 1)
                + #[trigger] (0x1_0000_0000_0000_0000 * rest),
{
    reveal_with_fuel(number_of, 3);
    if words.len() >= 2 {
        let rest = number_of(words.drop_first().drop_first());
        assert(words.drop_first()[0] == words[1]);
        assert(number_of(words) == padded_word(words, 0) + 0x1_0000_0000 * padded_word(words, 1)
            + 0x1_0000_0000_0000_0000 * rest);
    } else {
        if words.len() == 1 {
            assert(words.drop_first() =~= seq![]);
        }
        assert(number_of(words) == padded_word(words, 0) + 0x1_0000_0000 * padded_word(words, 1)
            + 0x1_0000_0000_0000_0000 * 0);
    }
}

/// A group of at most 32 digits lies in two neighbouring words.
proof fn lemma_field_in_pair(words: Seq<u32>, start: nat, bits: nat)
    requires
        bits <= 32,
        start / 32 <= words.len(),
    ensures
        (number_of(words) / pow2(start)) % pow2(bits) == ((padded_word(words, (start / 32) as int)
            + 0x1_0000_0000 * padded_word(words, (start / 32) as int + 1)) / pow2(start % 32))
            % pow2(bits),
{
    let w = start / 32;
    let off = start % 32;
    let number = number_of(words);
    lemma_number_tail(words, w);
    lemma_pow2_adds(32 * w, off);
    lemma_pow2_pos(32 * w);
    lemma_pow2_pos(off);
    lemma_div_denominator(number as int, pow2(32 * w) as int, pow2(off) as int);
    let tail = words.subrange(w as int, words.len() as int);
    lemma_number_pair(tail);
    let pair = padded_word(tail, 0) + 0x1_0000_0000 * padded_word(tail, 1);
    let rest = choose|rest: nat|
        number_of(tail) == pair + #[trigger] (0x1_0000_0000_0000_0000 * rest);
    let d = pow2(off);
    let e = pow2((64 - off) as nat);
    lemma_pow2_adds(off, (64 - off) as nat);
    lemma2_to64_rest();
    assert(0x1_0000_0000_0000_0000 * rest == d * (e * rest)) by (nonlinear_arith)
        requires
            d * e == 0x1_0000_0000_0000_0000,
    ;
    // (pair + d * (e * rest)) / d == pair / d + e * rest
    lemma_fundamental_div_mod(pair as int, d as int);
    let q = pair / d;
    let r = pair % d;
    assert(number_of(tail) == d * (q + e * rest) + r) by (nonlinear_arith)
        requires
            number_of(tail) == pair + d * (e * rest),
            pair == d * q + r,
    ;
    lemma_fundamental_div_mod_converse(
        number_of(tail) as int,
        d as int,
        (q + e * rest) as int,
        r as int,
    );
    // and e is a multiple of 2^bits
    let m = pow2(bits);
    let g = pow2((64 - off - bits) as nat);
    lemma_pow2_adds(bits, (64 - off - bits) as nat);
    lemma_pow2_pos(bits);
    assert(e * rest == m * (g * rest)) by (nonlinear_arith)
        requires
            m * g == e,
    ;
    lemma_mod_multiples_vanish((g * rest) as int, q as int, m as int);
    assert(m * (g * rest) + q == q + e * rest);
}

/// Unpacks `count` numbers of `bits` bits, lowest bits first.
pub fn unstuff_v3(words: &[u32], bits: u32, count: usize) -> (r: Vec<u32>)
    requires
        bits <= 32,
        count * bits <= 32 * words@.len(),
        32 * words@.len() <= usize::MAX,
    ensures
        r@ == low_first(words@, bits as nat, count as nat),
{
    let len: usize = words.len();
    let modulus: u64 = power(bits) as u64;
    let mut out: Vec<u32> = Vec::with_capacity(count);
    proof {
        lemma2_to64();
        if bits < 32 {
            lemma_pow2_strictly_increases(bits as nat, 32);
        }
        lemma_pow2_pos(bits as nat);
        assert(0 * bits == 0) by (nonlinear_arith);
    }
    let mut start: usize = 0;
    let mut i: usize = 0;
    while i < count
        invariant
            i <= count,
            bits <= 32,
            len == words@.len(),
            count * bits <= 32 * len,
            32 * len <= usize::MAX,
            start == i * bits,
            modulus == pow2(bits as nat),
            0 < modulus <= 0x1_0000_0000,
            out@ =~= low_first(words@, bits as nat, i as nat),
        decreases count - i,
    {
        proof {
            assert(i * bits + bits == (i + 1) * bits && (i + 1) * bits <= count * bits)
                by (nonlinear_arith)
                requires
                    i + 1 <= count,
            ;
        }
        let w: usize = start / 32;
        let off: u64 = (start % 32) as u64;
        let low: u64 = if w < len { words[w] as u64 } else { 0 };
        let high: u64 = if w < len && w + 1 < len { words[w + 1] as u64 } else { 0 };
        let pair: u64 = low + 0x1_0000_0000 * high;
        proof {
            lemma_field_in_pair(words@, start as nat, bits as nat);
            lemma_u64_shr_is_div(pair, off);
        }
        let value: u64 = (pair >> off) % modulus;
        out.push(value as u32);
        start = start + bits as usize;
        i += 1;
    }
    out
}

/// Unpacks `count` numbers of `bits` bits, highest bits first; the last word holds only the
/// bytes that the payload has.
pub fn unstuff_v2(words: &[u32], bits: u32, count: usize) -> (r: Vec<u32>)
    requires
        bits <= 32,
        32 * words@.len() + 64 <= usize::MAX,
        packed_len(bits as nat, count as nat) <= 4 * words@.len() < packed_len(
            bits as nat,
            count as nat,
        ) + 4,
    ensures
        r@ == high_first(words@, bits as nat, count as nat),
{
    let len: usize = words.len();
    let ghost total = bits as nat * count as nat;
    proof {
        assert(count as nat * bits as nat == total) by (nonlinear_arith)
            requires
                total == bits as nat * count as nat,
        ;
    }
    let used: usize = (bits as usize * count + 7) / 8;
    let missing: usize = 4 * len - used;
    let ghost whole = lifted(words@, missing as nat);
    let modulus: u64 = power(bits) as u64;
    let lift: u64 = power(8 * missing as u32) as u64;
    let mut out: Vec<u32> = Vec::with_capacity(count);
    proof {
        lemma2_to64();
        if bits < 32 {
            lemma_pow2_strictly_increases(bits as nat, 32);
        }
        lemma_pow2_pos(bits as nat);
        assert(0 * bits == 0) by (nonlinear_arith);
    }
    let mut start: usize = 0;
    let mut i: usize = 0;
    while i < count
        invariant
            i <= count,
            bits <= 32,
            len == words@.len(),
            missing < 4,
            missing == 4 * words@.len() - packed_len(bits as nat, count as nat),
            lift == pow2(8 * missing as nat),
            lift <= 0x100_0000,
            whole == lifted(words@, missing as nat),
            bits as nat * count as nat <= 32 * len,
            32 * len + 64 <= usize::MAX,
            start == i * bits,
            modulus == pow2(bits as nat),
            0 < modulus <= 0x1_0000_0000,
            out@.len() == i,
            forall|j: int|
                0 <= j < i ==> out@[j] == high_field(whole, (j * bits) as nat, bits as nat) as u32,
        decreases count - i,
    {
        proof {
            assert(i * bits + bits == (i + 1) * bits && (i + 1) * bits <= bits * count)
                by (nonlinear_arith)
                requires
                    i + 1 <= count,
            ;
        }
        let w: usize = start / 32;
        let off: u64 = (start % 32) as u64;
        let high: u64 = lifted_word(words, w, lift, missing);
        let low: u64 = lifted_word(words, w + 1, lift, missing);
        let pair: u64 = high * 0x1_0000_0000 + low;
        let shift: u64 = 64 - off - bits as u64;
        let value: u64 = if shift == 64 {
            proof {
                lemma2_to64_rest();
                lemma_basic_div(pair as int, pow2(64) as int);
                lemma_small_mod(0, modulus as nat);
            }
            0
        } else {
            proof {
                lemma_u64_shr_is_div(pair, shift);
            }
            (pair >> shift) % modulus
        };
        out.push(value as u32);
        start = start + bits as usize;
        i += 1;
    }
    proof {
        assert(out@ =~= high_first(words@, bits as nat, count as nat));
    }
    out
}

fn lifted_word(words: &[u32], w: usize, lift: u64, missing: usize) -> (r: u64)
    requires
        missing < 4,
        lift == pow2(8 * missing as nat),
        lift <= 0x100_0000,
    ensures
        r == padded_word(lifted(words@, missing as nat), w as int),
        r < 0x1_0000_0000,
{
    let len: usize = words.len();
    if w >= len {
        return 0;
    }
    if w == len - 1 {
        proof {
            assert(words@[w as int] * lift <= 0xffff_ffff * 0x100_0000) by (nonlinear_arith)
                requires
                    words@[w as int] <= 0xffff_ffff,
                    lift <= 0x100_0000,
            ;
        }
        ((words[w] as u64) * lift) % 0x1_0000_0000
    } else {
        words[w] as u64
    }
}

/// A packed number fits its digits.
pub proof fn lemma_packed_bound(values: Seq<u32>, bits: nat)
    requires
        forall|i: int| 0 <= i < values.len() ==> #[trigger] values[i] < pow2(bits),
    ensures
        packed_number(values, bits) < pow2(values.len() * bits),
    decreases values.len(),
{
    lemma2_to64();
    if values.len() == 0 {
        assert(0 * bits == 0) by (nonlinear_arith);
    } else {
        let front = values.drop_last();
        lemma_packed_bound(front, bits);
        let n1 = ((values.len() - 1) * bits) as nat;
        lemma_pow2_adds(n1, bits);
        assert(n1 + bits == values.len() * bits) by (nonlinear_arith)
            requires
                n1 == (values.len() - 1) * bits,
        ;
        let v = values.last() as nat;
        assert(values[values.len() - 1] < pow2(bits));
        assert(packed_number(front, bits) + v * pow2(n1) < pow2(n1) * pow2(bits))
            by (nonlinear_arith)
            requires
                packed_number(front, bits) < pow2(n1),
                v + 1 <= pow2(bits),
        ;
    }
}

/// Each value comes back out of a packed number.
pub proof fn law_packed_fields(values: Seq<u32>, bits: nat, i: nat)
    requires
        i < values.len(),
        forall|j: int| 0 <= j < values.len() ==> #[trigger] values[j] < pow2(bits),
    ensures
        field_of(packed_number(values, bits), i, bits) == values[i as int],
    decreases values.len(),
{
    let front = values.drop_last();
    let n1 = ((values.len() - 1) * bits) as nat;
    let v = values.last() as nat;
    let low = packed_number(front, bits);
    let m = pow2(bits);
    lemma_pow2_pos(bits);
    lemma_packed_bound(front, bits);
    lemma_pow2_pos(i * bits);
    let d = pow2(i * bits);
    if i == front.len() {
        assert(n1 == i * bits);
        lemma_fundamental_div_mod_converse((low + v * d) as int, d as int, v as int, low as int);
        assert(values[i as int] < m);
        lemma_small_mod(v, m);
    } else {
        law_packed_fields(front, bits, i);
        // v * 2^n1 is a multiple of 2^(i * bits) * 2^bits.
        let g_exp = (n1 - i * bits - bits) as nat;
        assert(i * bits + bits <= n1) by (nonlinear_arith)
            requires
                i + 1 <= values.len() - 1,
                n1 == (values.len() - 1) * bits,
        ;
        lemma_pow2_adds(i * bits, bits);
        lemma_pow2_adds(i * bits + bits, g_exp);
        let g = pow2(g_exp);
        assert(v * pow2(n1) == d * (m * (v * g))) by (nonlinear_arith)
            requires
                pow2(n1) == (d * m) * g,
        ;
        lemma_fundamental_div_mod(low as int, d as int);
        let q = low / d;
        let r = low % d;
        assert(low + v * pow2(n1) == d * (q + m * (v * g)) + r) by (nonlinear_arith)
            requires
                low == d * q + r,
                v * pow2(n1) == d * (m * (v * g)),
        ;
        lemma_fundamental_div_mod_converse(
            (low + v * pow2(n1)) as int,
            d as int,
            (q + m * (v * g)) as int,
            r as int,
        );
        lemma_mod_multiples_vanish((v * g) as int, q as int, m as int);
        assert(m * (v * g) + q == q + m * (v * g));
    }
}

/// Bytes are determined by their number.
proof fn lemma_le_unique(data: Seq<u8>)
    ensures
        bytes::le_bytes(bytes::le_value(data), data.len()) == data,
    decreases data.len(),
{
    if data.len() > 0 {
        lemma_le_unique(data.drop_first());
        let v = bytes::le_value(data);
        assert(v % 256 == data[0] && v / 256 == bytes::le_value(data.drop_first()));
        assert(data =~= seq![data[0]] + data.drop_first());
    } else {
        assert(data =~= seq![]);
    }
}

proof fn lemma_le_push(data: Seq<u8>, byte: u8)
    ensures
        bytes::le_value(data.push(byte)) == bytes::le_value(data) + byte * pow2(8 * data.len()),
    decreases data.len(),
{
    lemma2_to64();
    if data.len() == 0 {
        reveal_with_fuel(bytes::le_value, 2);
        assert(data.push(byte).drop_first() =~= seq![]);
        assert(data.push(byte)[0] == byte);
        assert(bytes::le_value(data.push(byte)) == byte as nat);
        assert(pow2(8 * data.len()) == 1);
        assert(byte * pow2(8 * data.len()) == byte) by (nonlinear_arith)
            requires
                pow2(8 * data.len()) == 1,
        ;
    } else {
        let rest = data.drop_first();
        lemma_le_push(rest, byte);
        assert(data.push(byte).drop_first() =~= rest.push(byte));
        lemma_pow2_adds(8, 8 * rest.len());
        assert(8 + 8 * rest.len() == 8 * data.len());
        assert(data.push(byte)[0] == data[0]);
        assert(256 * (byte * pow2(8 * rest.len())) == byte * (256 * pow2(8 * rest.len())))
            by (nonlinear_arith);
    }
}

/// Appends numbers of `bits` bits, lowest bits first.
pub fn pack_lsb_bits_into(values: &[u32], bits: u32, out: &mut Vec<u8>)
    requires
        1 <= bits <= 31,
        forall|i: int| 0 <= i < values@.len() ==> #[trigger] values@[i] < pow2(bits as nat),
    ensures
        final(out)@ == old(out)@ + bytes::le_bytes(
            packed_number(values@, bits as nat),
            packed_len(bits as nat, values@.len()),
        ),
{
    let ghost before = out@;
    let ghost mut emitted: Seq<u8> = seq![];
    let mut acc: u64 = 0;
    let mut held: u32 = 0;
    let mut i: usize = 0;
    proof {
        lemma2_to64();
        assert(0 * pow2(0) == 0);
        assert(values@.subrange(0, 0) =~= seq![]);
        assert(0 * bits == 0) by (nonlinear_arith);
    }
    while i < values.len()
        invariant
            i <= values@.len(),
            1 <= bits <= 31,
            held < 8,
            acc < pow2(held as nat),
            forall|j: int| 0 <= j < values@.len() ==> #[trigger] values@[j] < pow2(bits as nat),
            out@ =~= before + emitted,
            8 * emitted.len() + held == i * bits,
            bytes::le_value(emitted) + acc * pow2(8 * emitted.len()) == packed_number(
                values@.subrange(0, i as int),
                bits as nat,
            ),
        decreases values@.len() - i,
    {
        let ghost acc0 = acc as nat;
        let ghost held0 = held as nat;
        let ghost v = values@[i as int] as nat;
        let unit: u64 = power(held) as u64;
        proof {
            lemma2_to64();
            lemma_pow2_adds(held0, bits as nat);
            if held0 + bits < 38 {
                lemma_pow2_strictly_increases((held0 + bits) as nat, 38);
            }
            if held0 < 7 {
                lemma_pow2_strictly_increases(held0, 7);
            }
            lemma2_to64_rest();
            assert(acc0 + v * unit < pow2(held0) * pow2(bits as nat)) by (nonlinear_arith)
                requires
                    acc0 < pow2(held0),
                    v + 1 <= pow2(bits as nat),
                    unit == pow2(held0),
            ;
            assert(values@[i as int] * unit <= acc0 + v * unit);
            let e8 = 8 * emitted.len();
            lemma_pow2_adds(e8, held0);
            assert((acc0 + v * unit) * pow2(e8) == acc0 * pow2(e8) + v * (pow2(e8) * unit))
                by (nonlinear_arith);
            assert(values@.subrange(0, i + 1).drop_last() =~= values@.subrange(0, i as int));
            assert(i * bits + bits == (i + 1) * bits) by (nonlinear_arith);
        }
        acc = acc + (values[i] as u64) * unit;
        held = held + bits;
        i += 1;
        while held >= 8
            invariant
                held <= 38,
                1 <= i <= values@.len(),
                1 <= bits <= 31,
                acc < pow2(held as nat),
                out@ =~= before + emitted,
                8 * emitted.len() + held == i * bits,
                bytes::le_value(emitted) + acc * pow2(8 * emitted.len()) == packed_number(
                    values@.subrange(0, i as int),
                    bits as nat,
                ),
            decreases held,
        {
            let byte: u8 = (acc % 256) as u8;
            proof {
                lemma2_to64();
                lemma_pow2_adds(8, (held - 8) as nat);
                assert(acc / 256 < pow2((held - 8) as nat));
                lemma_le_push(emitted, byte);
                let e8 = 8 * emitted.len();
                lemma_pow2_adds(e8, 8);
                let q = (acc / 256) as nat;
                assert(acc * pow2(e8) == byte * pow2(e8) + q * (pow2(e8) * 256))
                    by (nonlinear_arith)
                    requires
                        acc == byte + 256 * q,
                ;
                emitted = emitted.push(byte);
            }
            out.push(byte);
            acc = acc / 256;
            held = held - 8;
        }
    }
    proof {
        assert(values@.subrange(0, values@.len() as int) =~= values@);
        let count = values@.len();
        assert(bits as nat * count == count * bits) by (nonlinear_arith);
        lemma2_to64();
    }
    if held != 0 {
        proof {
            if held < 7 {
                lemma_pow2_strictly_increases(held as nat, 7);
            }
            lemma_le_push(emitted, acc as u8);
            emitted = emitted.push(acc as u8);
        }
        out.push(acc as u8);
    } else {
        proof {
            assert(acc * pow2(8 * emitted.len()) == 0) by (nonlinear_arith)
                requires
                    acc == 0,
            ;
        }
    }
    proof {
        lemma_le_unique(emitted);
    }
}

/// What was packed is unpacked.
pub proof fn law_pack_roundtrip(values: Seq<u32>, bits: nat)
    requires
        bits <= 32,
        forall|i: int| 0 <= i < values.len() ==> #[trigger] values[i] < pow2(bits),
    ensures
        low_first(
            words_of(
                bytes::le_bytes(packed_number(values, bits), packed_len(bits, values.len())),
            ),
            bits,
            values.len(),
        ) == values,
{
    let number = packed_number(values, bits);
    let len = packed_len(bits, values.len());
    lemma_packed_bound(values, bits);
    let count = values.len();
    assert(bits * count == count * bits) by (nonlinear_arith);
    lemma_pow256_pow2(len);
    if values.len() * bits < 8 * len {
        lemma_pow2_strictly_increases(values.len() * bits, 8 * len);
    }
    bytes::lemma_le_roundtrip(number, len);
    lemma_number_of_bytes(bytes::le_bytes(number, len));
    assert forall|i: int| 0 <= i < values.len() implies field_of(number, i as nat, bits)
        == values[i] by {
        law_packed_fields(values, bits, i as nat);
    }
    assert(low_first(words_of(bytes::le_bytes(number, len)), bits, values.len()) =~= values);
}

/// `256^n` is `2^(8n)`.
pub proof fn lemma_pow256_pow2(n: nat)
    ensures
        pow(256, n) == pow2(8 * n),
    decreases n,
{
    reveal(pow);
    lemma2_to64();
    if n > 0 {
        lemma_pow256_pow2((n - 1) as nat);
        lemma_pow2_adds(8, 8 * (n - 1) as nat);
    }
}

} // verus!
