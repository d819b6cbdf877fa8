//! Codes of varying length written from the highest bit of each 32-bit word downwards.

use crate::bytes;
use crate::bytes::push_u32;
use crate::huffman::CodeEntry;
use vstd::arithmetic::div_mod::*;
use vstd::arithmetic::mul::*;
use vstd::arithmetic::power2::*;
use vstd::bits::*;
use vstd::prelude::*;

verus! {

/// The number whose binary digits are those of the codes, one after the other.
pub open spec fn code_number(codes: Seq<CodeEntry>) -> nat
    decreases codes.len(),
{
    if codes.len() == 0 {
        0
    } else {
        code_number(codes.drop_last()) * pow2(codes.last().len as nat) + codes.last().code as nat
    }
}

/// The number of binary digits of the codes.
pub open spec fn code_bits(codes: Seq<CodeEntry>) -> nat
    decreases codes.len(),
{
    if codes.len() == 0 {
        0
    } else {
        code_bits(codes.drop_last()) + codes.last().len as nat
    }
}

/// The lowest `count` base-`2^32` digits of a number, the highest first.
pub open spec fn high_words(number: nat, count: nat) -> Seq<u32>
    decreases count,
{
    if count == 0 {
        seq![]
    } else {
        high_words(number / 0x1_0000_0000, (count - 1) as nat).push(
            (number % 0x1_0000_0000) as u32,
        )
    }
}

/// The words that codes fill, the last one padded with zeros.
pub open spec fn stream_words(codes: Seq<CodeEntry>) -> Seq<u32> {
    let bits = code_bits(codes);
    let count = (bits + 31) / 32;
    high_words(code_number(codes) * pow2((32 * count - bits) as nat), count)
}

/// The little-endian bytes of words.
pub open spec fn word_bytes(words: Seq<u32>) -> Seq<u8>
    decreases words.len(),
{
    if words.len() == 0 {
        seq![]
    } else {
        word_bytes(words.drop_last()) + bytes::le_bytes(words.last() as nat, 4)
    }
}

/// The number whose base-`2^32` digits are the words, the highest first.
pub open spec fn big_number(words: Seq<u32>) -> nat
    decreases words.len(),
{
    if words.len() == 0 {
        0
    } else {
        big_number(words.drop_last()) * 0x1_0000_0000 + words.last() as nat
    }
}

/// Words are the digits of their number.
pub proof fn lemma_big_number(words: Seq<u32>)
    ensures
        high_words(big_number(words), words.len()) == words,
    decreases words.len(),
{
    if words.len() > 0 {
        let front = words.drop_last();
        lemma_big_number(front);
        assert(big_number(words) / 0x1_0000_0000 == big_number(front));
        assert(big_number(words) % 0x1_0000_0000 == words.last());
        assert(front.push(words.last()) =~= words);
    } else {
        assert(high_words(big_number(words), words.len()) =~= words);
    }
}

/// Every word has four bytes.
pub proof fn lemma_word_bytes_len(words: Seq<u32>)
    ensures
        word_bytes(words).len() == 4 * words.len(),
    decreases words.len(),
{
    if words.len() > 0 {
        lemma_word_bytes_len(words.drop_last());
        bytes::lemma_le_bytes_len(words.last() as nat, 4);
    }
}

/// As many digits as are asked for.
pub proof fn lemma_high_words_len(number: nat, count: nat)
    ensures
        high_words(number, count).len() == count,
    decreases count,
{
    if count > 0 {
        lemma_high_words_len(number / 0x1_0000_0000, (count - 1) as nat);
    }
}

/// Collects codes into words.
pub struct MsbBitWriter {
    words: Vec<u32>,
    pending: u64,
    used: u32,
    codes: Ghost<Seq<CodeEntry>>,
}

proof fn lemma_step(big: nat, pending: nat, used: nat, len: nat, code: nat, word: nat, rest: nat)
    requires
        32 <= used + len,
        pending * pow2(len) + code == word * pow2((used + len - 32) as nat) + rest,
    ensures
        (big * pow2(used) + pending) * pow2(len) + code == (big * 0x1_0000_0000 + word) * pow2(
            (used + len - 32) as nat,
        ) + rest,
{
    let t = (used + len - 32) as nat;
    lemma_pow2_adds(used, len);
    lemma_pow2_adds(32, t);
    lemma2_to64();
    let (u, l, p, s) = (pow2(used), pow2(len), pow2(t), pow2(used + len));
    assert((big * u + pending) * l == big * (u * l) + pending * l) by (nonlinear_arith);
    assert((big * 0x1_0000_0000 + word) * p == big * (0x1_0000_0000 * p) + word * p)
        by (nonlinear_arith);
}

proof fn lemma_small_step(big: nat, pending: nat, used: nat, len: nat, code: nat)
    ensures
        (big * pow2(used) + pending) * pow2(len) + code == big * pow2(used + len) + (pending * pow2(
            len,
        ) + code),
{
    lemma_pow2_adds(used, len);
    let (u, l) = (pow2(used), pow2(len));
    assert((big * u + pending) * l == big * (u * l) + pending * l) by (nonlinear_arith);
}

proof fn lemma_append_bound(pending: nat, used: nat, len: nat, code: nat)
    requires
        pending < pow2(used),
        code < pow2(len),
    ensures
        pending * pow2(len) + code < pow2(used + len),
{
    lemma_pow2_adds(used, len);
    let (u, l) = (pow2(used), pow2(len));
    assert(pending * l + code < u * l) by (nonlinear_arith)
        requires
            pending + 1 <= u,
            code < l,
    ;
}

impl MsbBitWriter {
    /// The codes collected so far.
    pub closed spec fn codes(self) -> Seq<CodeEntry> {
        self.codes@
    }

    /// The words hold all but the last few digits of the codes.
    pub closed spec fn wf(self) -> bool {
        let codes = self.codes@;
        &&& self.used < 32
        &&& self.pending < pow2(self.used as nat)
        &&& code_number(codes) == big_number(self.words@) * pow2(self.used as nat) + self.pending
        &&& code_bits(codes) == 32 * self.words@.len() + self.used
    }

    /// No codes yet.
    pub fn new() -> (r: MsbBitWriter)
        ensures
            r.wf(),
            r.codes() == Seq::<CodeEntry>::empty(),
    {
        proof {
            lemma2_to64();
        }
        MsbBitWriter { words: Vec::new(), pending: 0, used: 0, codes: Ghost(Seq::empty()) }
    }

    /// Appends a code of at most 31 bits.
    pub fn push_bits(&mut self, entry: CodeEntry)
        requires
            old(self).wf(),
            entry.len <= 31,
            entry.wf(),
        ensures
            final(self).wf(),
            final(self).codes() == old(self).codes().push(entry),
    {
        let ghost codes = self.codes@;
        let len: u32 = entry.len as u32;
        let total: u32 = self.used + len;
        let ghost big = big_number(self.words@);
        let ghost before = self.words@;
        proof {
            assert(codes.push(entry).drop_last() =~= codes);
            lemma_append_bound(
                self.pending as nat,
                self.used as nat,
                len as nat,
                entry.code as nat,
            );
            lemma2_to64();
            lemma2_to64_rest();
            if total < 63 {
                lemma_pow2_strictly_increases(total as nat, 63);
            }
            lemma_u64_shl_is_mul(self.pending, len as u64);
        }
        let joined: u64 = (self.pending << (len as u64)) + entry.code as u64;
        if total < 32 {
            proof {
                lemma_small_step(
                    big,
                    self.pending as nat,
                    self.used as nat,
                    len as nat,
                    entry.code as nat,
                );
            }
            self.pending = joined;
            self.used = total;
        } else {
            let spare: u32 = total - 32;
            proof {
                lemma_u64_shr_is_div(joined, spare as u64);
                lemma_pow2_pos(spare as nat);
                lemma_fundamental_div_mod(joined as int, pow2(spare as nat) as int);
                lemma_pow2_adds(32, spare as nat);
                lemma_multiply_divide_lt(
                    joined as int,
                    pow2(spare as nat) as int,
                    0x1_0000_0000,
                );
            }
            let word: u64 = joined >> (spare as u64);
            proof {
                lemma_mul_is_commutative(word as int, pow2(spare as nat) as int);
                lemma_u64_shl_is_mul(word, spare as u64);
            }
            let rest: u64 = joined - (word << (spare as u64));
            proof {
                lemma_step(
                    big,
                    self.pending as nat,
                    self.used as nat,
                    len as nat,
                    entry.code as nat,
                    word as nat,
                    rest as nat,
                );
            }
            self.words.push(word as u32);
            self.pending = rest;
            self.used = spare;
            proof {
                assert(self.words@.drop_last() =~= before);
            }
        }
        self.codes = Ghost(codes.push(entry));
    }

    /// Pads the last word with zeros.
    pub fn into_words(self) -> (r: Vec<u32>)
        requires
            self.wf(),
        ensures
            r@ == stream_words(self.codes()),
    {
        let ghost codes = self.codes@;
        let mut words = self.words;
        let used: u32 = self.used;
        let pending: u64 = self.pending;
        proof {
            lemma2_to64();
        }
        if used != 0 {
            let ghost before = words@;
            let gap: u32 = 32 - used;
            proof {
                lemma_append_bound(pending as nat, used as nat, gap as nat, 0);
                lemma_pow2_pos(gap as nat);
                lemma_u64_shl_is_mul(pending, gap as u64);
                lemma_small_step(
                    big_number(before),
                    pending as nat,
                    used as nat,
                    gap as nat,
                    0,
                );
            }
            words.push((pending << (gap as u64)) as u32);
            proof {
                assert(words@.drop_last() =~= before);
                assert((code_bits(codes) + 31) / 32 == words@.len());
                assert(32 * words@.len() - code_bits(codes) == gap);
            }
        } else {
            proof {
                assert((code_bits(codes) + 31) / 32 == words@.len());
                assert(code_number(codes) == big_number(words@)) by (nonlinear_arith)
                    requires
                        code_number(codes) == big_number(words@) * pow2(0) + pending,
                        pow2(0) == 1,
                        pending == 0,
                ;
                assert(code_number(codes) * pow2(0) == code_number(codes)) by (nonlinear_arith)
                    requires
                        pow2(0) == 1,
                ;
            }
        }
        proof {
            lemma_big_number(words@);
        }
        words
    }
}

/// Appends the bytes of words.
pub fn push_words(out: &mut Vec<u8>, words: &Vec<u32>)
    ensures
        final(out)@ == old(out)@ + word_bytes(words@),
{
    let ghost before = out@;
    let mut i: usize = 0;
    assert(words@.subrange(0, 0) =~= seq![]);
    while i < words.len()
        invariant
            i <= words@.len(),
            out@ =~= before + word_bytes(words@.subrange(0, i as int)),
        decreases words@.len() - i,
    {
        proof {
            assert(words@.subrange(0, i + 1).drop_last() =~= words@.subrange(0, i as int));
        }
        push_u32(out, words[i]);
        i += 1;
    }
    assert(words@.subrange(0, words@.len() as int) =~= words@);
}

} // verus!
