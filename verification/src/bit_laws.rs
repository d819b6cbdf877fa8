//! What is read back of a bit stream.

use crate::bitpack;
use crate::bitstream;
use crate::bytes;
use crate::huffman::CodeEntry;
use crate::huffman_writer;
use vstd::arithmetic::div_mod::*;
use vstd::arithmetic::mul::*;
use vstd::arithmetic::power2::*;
use vstd::prelude::*;

verus! {

/// Dropping binary digits in two steps.
proof fn lemma_drop_twice(x: nat, a: nat, b: nat)
    ensures
        x / pow2(a) / pow2(b) == x / pow2(a + b),
{
    lemma_pow2_pos(a);
    lemma_pow2_pos(b);
    lemma_pow2_adds(a, b);
    lemma_div_denominator(x as int, pow2(a) as int, pow2(b) as int);
}

/// The low digits that remain after the lowest are dropped.
proof fn lemma_middle(x: nat, a: nat, b: nat)
    ensures
        (x % pow2(a + b)) / pow2(b) == (x / pow2(b)) % pow2(a),
{
    lemma_pow2_pos(a);
    lemma_pow2_pos(b);
    lemma_pow2_adds(a, b);
    lemma_pow2_pos(a + b);
    let (pa, pb, s) = (pow2(a), pow2(b), pow2(a + b));
    lemma_fundamental_div_mod(x as int, s as int);
    let (q, r) = (x / s, x % s);
    lemma_fundamental_div_mod(r as int, pb as int);
    let (u, t) = (r / pb, r % pb);
    assert(u < pa) by (nonlinear_arith)
        requires
            r == pb * u + t,
            t >= 0,
            r < s,
            s == pa * pb,
            pb > 0,
    ;
    assert(x == pb * (pa * q + u) + t) by (nonlinear_arith)
        requires
            x == s * q + r,
            r == pb * u + t,
            s == pa * pb,
    ;
    lemma_mul_is_commutative(pb as int, (pa * q + u) as int);
    lemma_mul_is_commutative(pa as int, q as int);
    lemma_fundamental_div_mod_converse(x as int, pb as int, (pa * q + u) as int, t as int);
    lemma_fundamental_div_mod_converse((pa * q + u) as int, pa as int, q as int, u as int);
}

/// The digits above a smaller number.
proof fn lemma_above(high: nat, low: nat, b: nat)
    requires
        low < pow2(b),
    ensures
        (high * pow2(b) + low) / pow2(b) == high,
        (high * pow2(b) + low) % pow2(b) == low,
{
    lemma_pow2_pos(b);
    lemma_mul_is_commutative(high as int, pow2(b) as int);
    lemma_fundamental_div_mod_converse(
        (high * pow2(b) + low) as int,
        pow2(b) as int,
        high as int,
        low as int,
    );
}

/// Words take 32 digits each.
proof fn lemma_big_bound(words: Seq<u32>)
    ensures
        bitstream::big_number(words) < pow2(32 * words.len()),
    decreases words.len(),
{
    lemma2_to64();
    if words.len() > 0 {
        let front = words.drop_last();
        lemma_big_bound(front);
        lemma_pow2_adds(32 * front.len(), 32);
        let (x, y) = (bitstream::big_number(front), pow2(32 * front.len()));
        assert(x * 0x1_0000_0000 + 0x1_0000_0000 <= y * 0x1_0000_0000) by (nonlinear_arith)
            requires
                x + 1 <= y,
        ;
        assert(32 * words.len() == 32 * front.len() + 32);
    }
}

/// The number of words that stand one behind the other.
proof fn lemma_big_split(a: Seq<u32>, b: Seq<u32>)
    ensures
        bitstream::big_number(a + b) == bitstream::big_number(a) * pow2(32 * b.len())
            + bitstream::big_number(b),
    decreases b.len(),
{
    lemma2_to64();
    if b.len() == 0 {
        assert(a + b =~= a);
        assert(bitstream::big_number(a) * pow2(0) == bitstream::big_number(a)) by (nonlinear_arith)
            requires
                pow2(0) == 1,
        ;
    } else {
        let front = b.drop_last();
        lemma_big_split(a, front);
        assert((a + b).drop_last() =~= a + front);
        assert((a + b).last() == b.last());
        lemma_pow2_adds(32 * front.len(), 32);
        assert(32 * b.len() == 32 * front.len() + 32);
        let (x, y, z) = (
            bitstream::big_number(a),
            pow2(32 * front.len()),
            bitstream::big_number(front),
        );
        assert((x * y + z) * 0x1_0000_0000 == x * (y * 0x1_0000_0000) + z * 0x1_0000_0000)
            by (nonlinear_arith);
        assert(pow2(32 * b.len()) == y * 0x1_0000_0000);
    }
}

/// The digits of two neighbouring words.
proof fn lemma_big_pair(words: Seq<u32>, i: nat)
    requires
        i + 1 < words.len(),
    ensures
        (bitstream::big_number(words) / pow2((32 * (words.len() - i - 2)) as nat)) % pow2(64)
            == words[i as int] as nat * 0x1_0000_0000 + words[i as int + 1] as nat,
{
    lemma2_to64();
    let a = words.subrange(0, i as int + 2);
    let b = words.subrange(i as int + 2, words.len() as int);
    assert(a + b =~= words);
    lemma_big_split(a, b);
    lemma_big_bound(b);
    lemma_above(bitstream::big_number(a), bitstream::big_number(b), 32 * b.len());
    let c = a.drop_last();
    assert(c.drop_last() =~= words.subrange(0, i as int));
    let top = bitstream::big_number(c.drop_last());
    let low = words[i as int] as nat * 0x1_0000_0000 + words[i as int + 1] as nat;
    assert(bitstream::big_number(a) == bitstream::big_number(c) * 0x1_0000_0000 + words[i as int + 1]);
    assert(bitstream::big_number(c) == top * 0x1_0000_0000 + words[i as int]);
    assert(bitstream::big_number(a) == top * pow2(64) + low) by (nonlinear_arith)
        requires
            bitstream::big_number(a) == bitstream::big_number(c) * 0x1_0000_0000 + words[i as int + 1],
            bitstream::big_number(c) == top * 0x1_0000_0000 + words[i as int],
            pow2(64) == 0x1_0000_0000 * 0x1_0000_0000,
            low == words[i as int] as nat * 0x1_0000_0000 + words[i as int + 1] as nat,
    ;
    lemma_above(top, low, 64);
}

/// The digits of a field are digits of the number of all words.
proof fn lemma_high_field(words: Seq<u32>, p: nat, m: nat)
    requires
        p / 32 < words.len(),
        m <= 32,
    ensures
        p + m <= 32 * (words.len() + 1),
        bitpack::high_field(words, p, m) == (bitstream::big_number(words.push(0)) / pow2(
            (32 * (words.len() + 1) - p - m) as nat,
        )) % pow2(m),
{
    let all = words.push(0);
    let i = p / 32;
    let off = p % 32;
    lemma_big_pair(all, i);
    let big = bitstream::big_number(all);
    let low = (32 * (all.len() - i - 2)) as nat;
    let d = (64 - off - m) as nat;
    let pair = bitpack::padded_word(words, i as int) * 0x1_0000_0000 + bitpack::padded_word(
        words,
        i as int + 1,
    );
    assert(pair == (big / pow2(low)) % pow2(64));
    lemma_middle(big / pow2(low), off + m, d);
    assert(off + m + d == 64);
    lemma_drop_twice(big, low, d);
    assert(low + d == 32 * (words.len() + 1) - p - m);
    let x = big / pow2(low + d);
    // (x % 2^(off+m)) % 2^m == x % 2^m
    lemma_pow2_adds(off, m);
    lemma_pow2_pos(off);
    lemma_pow2_pos(m);
    lemma_mod_mod(x as int, pow2(m) as int, pow2(off) as int);
    lemma_mul_is_commutative(pow2(m) as int, pow2(off) as int);
}

/// The first digits of a field are the shorter field.
pub proof fn lemma_high_prefix(words: Seq<u32>, p: nat, m: nat, k: nat)
    requires
        p / 32 < words.len(),
        k <= m <= 32,
    ensures
        bitpack::high_field(words, p, m) / pow2((m - k) as nat) == bitpack::high_field(words, p, k),
        bitpack::high_field(words, p, m) < pow2(m),
{
    lemma_high_field(words, p, m);
    lemma_high_field(words, p, k);
    let big = bitstream::big_number(words.push(0));
    let low = (32 * (words.len() + 1) - p - m) as nat;
    let d = (m - k) as nat;
    lemma_middle(big / pow2(low), k, d);
    lemma_drop_twice(big, low, d);
    assert(k + d == m);
    lemma_pow2_pos(m);
}

/// Words in front of a stream shift its fields.
pub proof fn lemma_field_behind(front: Seq<u32>, words: Seq<u32>, p: nat, m: nat)
    ensures
        bitpack::high_field(front + words, 32 * front.len() + p, m) == bitpack::high_field(
            words,
            p,
            m,
        ),
{
    let q = 32 * front.len() + p;
    let w = (p / 32) as int;
    assert(q / 32 == front.len() + p / 32 && q % 32 == p % 32);
    assert(bitpack::padded_word(front + words, front.len() as int + w) == bitpack::padded_word(words, w));
    assert(bitpack::padded_word(front + words, front.len() as int + w + 1) == bitpack::padded_word(
        words,
        w + 1,
    ));
}

/// Codes take as many digits as their lengths say.
proof fn lemma_code_bound(codes: Seq<CodeEntry>)
    requires
        huffman_writer::table_fits(codes),
    ensures
        bitstream::code_number(codes) < pow2(bitstream::code_bits(codes)),
    decreases codes.len(),
{
    lemma2_to64();
    if codes.len() > 0 {
        let front = codes.drop_last();
        assert(huffman_writer::table_fits(front)) by {
            assert forall|s: int| 0 <= s < front.len() implies (#[trigger] front[s]).len <= 31
                && front[s].wf() by {
                assert(front[s] == codes[s]);
            }
        }
        lemma_code_bound(front);
        assert(codes[codes.len() - 1].wf());
        lemma_pow2_adds(bitstream::code_bits(front), codes.last().len as nat);
        let (x, y, z, c) = (
            bitstream::code_number(front),
            pow2(bitstream::code_bits(front)),
            pow2(codes.last().len as nat),
            codes.last().code as nat,
        );
        assert(x * z + c < y * z) by (nonlinear_arith)
            requires
                x + 1 <= y,
                c < z,
        ;
    }
}

/// The number of codes that stand one behind the other.
pub proof fn lemma_code_split(a: Seq<CodeEntry>, b: Seq<CodeEntry>)
    ensures
        bitstream::code_bits(a + b) == bitstream::code_bits(a) + bitstream::code_bits(b),
        bitstream::code_number(a + b) == bitstream::code_number(a) * pow2(bitstream::code_bits(b))
            + bitstream::code_number(b),
    decreases b.len(),
{
    lemma2_to64();
    if b.len() == 0 {
        assert(a + b =~= a);
        assert(bitstream::code_number(a) * pow2(0) == bitstream::code_number(a))
            by (nonlinear_arith)
            requires
                pow2(0) == 1,
        ;
    } else {
        let front = b.drop_last();
        lemma_code_split(a, front);
        assert((a + b).drop_last() =~= a + front);
        assert((a + b).last() == b.last());
        let len = b.last().len as nat;
        lemma_pow2_adds(bitstream::code_bits(front), len);
        let (x, y, z, l) = (
            bitstream::code_number(a),
            pow2(bitstream::code_bits(front)),
            bitstream::code_number(front),
            pow2(len),
        );
        assert((x * y + z) * l == x * (y * l) + z * l) by (nonlinear_arith);
        assert(pow2(bitstream::code_bits(b)) == y * l);
    }
}

/// The digits of a number that has no more of them.
proof fn lemma_high_words(number: nat, count: nat)
    requires
        number < pow2(32 * count),
    ensures
        bitstream::high_words(number, count).len() == count,
        bitstream::big_number(bitstream::high_words(number, count)) == number,
    decreases count,
{
    lemma2_to64();
    bitstream::lemma_high_words_len(number, count);
    if count > 0 {
        let up = number / 0x1_0000_0000;
        let c = (count - 1) as nat;
        lemma_pow2_adds(32 * c, 32);
        assert(32 * count == 32 * c + 32);
        assert(up < pow2(32 * c)) by (nonlinear_arith)
            requires
                up == number / 0x1_0000_0000,
                number < pow2(32 * c) * 0x1_0000_0000,
        ;
        lemma_high_words(up, c);
        let words = bitstream::high_words(number, count);
        assert(words.drop_last() =~= bitstream::high_words(up, c));
    }
}

/// The words of a stream and the digits of its codes.
pub proof fn lemma_stream_words(codes: Seq<CodeEntry>)
    requires
        huffman_writer::table_fits(codes),
    ensures
        ({
            let bits = bitstream::code_bits(codes);
            let count = (bits + 31) / 32;
            &&& bitstream::stream_words(codes).len() == count
            &&& bitstream::big_number(bitstream::stream_words(codes)) == bitstream::code_number(
                codes,
            ) * pow2((32 * count - bits) as nat)
        }),
{
    let bits = bitstream::code_bits(codes);
    let count = (bits + 31) / 32;
    let pad = (32 * count - bits) as nat;
    lemma_code_bound(codes);
    lemma_pow2_adds(bits, pad);
    lemma_pow2_pos(pad);
    let n = bitstream::code_number(codes);
    assert(n * pow2(pad) < pow2(bits) * pow2(pad)) by (nonlinear_arith)
        requires
            n < pow2(bits),
            pow2(pad) > 0,
    ;
    lemma_high_words(n * pow2(pad), count);
}

/// Every code of a stream is found at the place behind those before it, whatever follows
/// the stream.
pub proof fn law_stream_roundtrip(codes: Seq<CodeEntry>, behind: Seq<u32>, k: nat)
    requires
        huffman_writer::table_fits(codes),
        k < codes.len(),
        codes[k as int].len > 0,
    ensures
        ({
            let words = bitstream::stream_words(codes) + behind;
            let p = bitstream::code_bits(codes.subrange(0, k as int));
            &&& p / 32 < words.len()
            &&& bitpack::high_field(words, p, codes[k as int].len as nat) == codes[k as int].code
        }),
{
    let words = bitstream::stream_words(codes) + behind;
    let before = codes.subrange(0, k as int);
    let upto = codes.subrange(0, k as int + 1);
    let after = codes.subrange(k as int + 1, codes.len() as int);
    let p = bitstream::code_bits(before);
    let e = codes[k as int];
    let m = e.len as nat;
    assert(upto.drop_last() =~= before);
    assert(upto + after =~= codes);
    assert(e.wf());
    lemma_code_split(upto, after);
    assert(huffman_writer::table_fits(after)) by {
        assert forall|s: int| 0 <= s < after.len() implies (#[trigger] after[s]).len <= 31
            && after[s].wf() by {
            assert(after[s] == codes[s + k + 1]);
        }
    }
    lemma_code_bound(after);
    lemma_stream_words(codes);
    let bits = bitstream::code_bits(codes);
    let rest = bitstream::code_bits(after);
    let count = (bits + 31) / 32;
    let pad = (32 * count - bits) as nat;
    assert(bits == p + m + rest);
    lemma_high_field(words, p, m);
    // the words behind the stream
    let tail = behind.push(0);
    assert(words.push(0) =~= bitstream::stream_words(codes) + tail);
    lemma_big_split(bitstream::stream_words(codes), tail);
    lemma_big_bound(tail);
    let big = bitstream::big_number(words.push(0));
    let number = bitstream::code_number(codes);
    lemma_above(
        bitstream::big_number(bitstream::stream_words(codes)),
        bitstream::big_number(tail),
        32 * tail.len(),
    );
    assert(big / pow2(32 * tail.len()) == number * pow2(pad));
    lemma_drop_twice(big, 32 * tail.len(), pad + rest);
    assert(32 * tail.len() + (pad + rest) == 32 * (words.len() + 1) - p - m);
    lemma_pow2_pos(pad);
    lemma_drop_twice(number * pow2(pad), pad, rest);
    lemma_above(number, 0, pad);
    lemma_above(bitstream::code_number(upto), bitstream::code_number(after), rest);
    lemma_above(bitstream::code_number(before), e.code as nat, m);
}

/// The bytes of a word stand at four times its place.
proof fn lemma_word_place(words: Seq<u32>, j: nat)
    requires
        j < words.len(),
    ensures
        bitstream::word_bytes(words).len() == 4 * words.len(),
        bitstream::word_bytes(words).subrange(4 * (j as int), 4 * (j as int) + 4) == bytes::le_bytes(
            words[j as int] as nat,
            4,
        ),
    decreases words.len(),
{
    bitstream::lemma_word_bytes_len(words);
    let front = words.drop_last();
    bitstream::lemma_word_bytes_len(front);
    bytes::lemma_le_bytes_len(words.last() as nat, 4);
    let all = bitstream::word_bytes(words);
    if j < front.len() {
        lemma_word_place(front, j);
        assert(all.subrange(4 * (j as int), 4 * (j as int) + 4) =~= bitstream::word_bytes(front).subrange(
            4 * (j as int),
            4 * (j as int) + 4,
        ));
    } else {
        assert(all.subrange(4 * (j as int), 4 * (j as int) + 4) =~= bytes::le_bytes(words.last() as nat, 4));
    }
}

/// The words of the bytes of words are those words, whatever follows.
pub proof fn lemma_words_back(words: Seq<u32>, behind: Seq<u8>)
    ensures
        bitpack::words_of(bitstream::word_bytes(words) + behind) == words + bitpack::words_of(
            behind,
        ),
{
    let all = bitstream::word_bytes(words) + behind;
    bitstream::lemma_word_bytes_len(words);
    let read = bitpack::words_of(all);
    let n = words.len();
    assert((4 * n + behind.len() + 3) / 4 == n + (behind.len() + 3) / 4);
    assert forall|j: int| 0 <= j < read.len() implies read[j] == (words + bitpack::words_of(
        behind,
    ))[j] by {
        if j < n {
            lemma_word_place(words, j as nat);
            let part = bitstream::word_bytes(words).subrange(4 * j, 4 * (j as int) + 4);
            bytes::lemma_pow256();
            bytes::lemma_le_roundtrip(words[j] as nat, 4);
            bytes::lemma_le_value_4(part);
            assert(part[0] == all[4 * j] && part[1] == all[4 * j + 1] && part[2] == all[4 * j + 2]
                && part[3] == all[4 * j + 3]);
        } else {
            assert(bitpack::word_of(all, j) == bitpack::word_of(behind, j - n));
        }
    }
    assert(read =~= words + bitpack::words_of(behind));
}

} // verus!
