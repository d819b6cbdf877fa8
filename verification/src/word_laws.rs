//! Numbers packed from the highest bit of each word downwards, as Lerc1 and the first versions
//! of Lerc2 store them.

use crate::bitpack;
use vstd::arithmetic::div_mod::*;
use vstd::arithmetic::mul::*;
use vstd::arithmetic::power2::*;
use vstd::prelude::*;

verus! {

/// The number whose groups of `bits` binary digits are the values, most significant first.
pub open spec fn leading_number(values: Seq<u32>, bits: nat) -> nat
    decreases values.len(),
{
    if values.len() == 0 {
        0
    } else {
        leading_number(values.drop_last(), bits) * pow2(bits) + values.last() as nat
    }
}

/// The number of words that the values take.
pub open spec fn word_total(bits: nat, count: nat) -> nat {
    (bits * count + 31) / 32
}

/// The binary digits of the values, one after another, filled up with zeros to whole words.
pub open spec fn filled_number(values: Seq<u32>, bits: nat) -> nat {
    leading_number(values, bits) * pow2(
        (32 * word_total(bits, values.len()) - bits * values.len()) as nat,
    )
}

/// The `j`-th word of the filled digits, the most significant first.
pub open spec fn filled_word(values: Seq<u32>, bits: nat, j: nat) -> nat {
    (filled_number(values, bits) / pow2(
        (32 * (word_total(bits, values.len()) - 1 - j)) as nat,
    )) % 0x1_0000_0000
}

/// The bytes of the values: each word with its least significant byte first, and of the last
/// word only the bytes that hold digits.
pub open spec fn high_bytes(values: Seq<u32>, bits: nat) -> Seq<u8> {
    let len = bitpack::packed_len(bits, values.len());
    let words = word_total(bits, values.len());
    let unused = (4 * words - len) as nat;
    Seq::new(
        len,
        |i: int|
            {
                let word = filled_word(values, bits, (i / 4) as nat);
                let kept = if i / 4 + 1 == words {
                    word / pow2(8 * unused)
                } else {
                    word
                };
                ((kept / pow2((8 * (i % 4)) as nat)) % 256) as u8
            },
    )
}

/// The number whose base-`2^32` digits are the words, most significant first.
spec fn leading_words(words: Seq<u32>) -> nat
    decreases words.len(),
{
    if words.len() == 0 {
        0
    } else {
        leading_words(words.drop_last()) * 0x1_0000_0000 + words.last() as nat
    }
}

proof fn lemma_leading_words(words: Seq<u32>, w: nat)
    requires
        w <= words.len(),
    ensures
        leading_words(words) / pow2(32 * w) == leading_words(
            words.subrange(0, words.len() - w),
        ),
    decreases w,
{
    lemma2_to64();
    if w == 0 {
        assert(words.subrange(0, words.len() as int) =~= words);
        assert(leading_words(words) / 1 == leading_words(words));
    } else {
        lemma2_to64_rest();
        let front = words.drop_last();
        let v = (w - 1) as nat;
        lemma_leading_words(front, v);
        lemma_pow2_adds(32, 32 * v);
        lemma_pow2_pos(32 * v);
        assert(leading_words(words) / 0x1_0000_0000 == leading_words(front));
        lemma_div_denominator(
            leading_words(words) as int,
            0x1_0000_0000,
            pow2(32 * v) as int,
        );
        assert(front.subrange(0, front.len() - v) =~= words.subrange(0, words.len() - w));
    }
}

/// `(a * 2^k + b) / 2^k` and its rest.
proof fn lemma_shifted(a: nat, b: nat, k: nat)
    requires
        b < pow2(k),
    ensures
        (a * pow2(k) + b) / pow2(k) == a,
        (a * pow2(k) + b) % pow2(k) == b,
{
    lemma_pow2_pos(k);
    lemma_fundamental_div_mod_converse(
        (a * pow2(k) + b) as int,
        pow2(k) as int,
        a as int,
        b as int,
    );
}

/// Dividing by a power of two in two steps.
proof fn lemma_div_steps(n: nat, a: nat, b: nat)
    ensures
        n / pow2(a + b) == (n / pow2(a)) / pow2(b),
{
    lemma_pow2_pos(a);
    lemma_pow2_pos(b);
    lemma_pow2_adds(a, b);
    lemma_div_denominator(n as int, pow2(a) as int, pow2(b) as int);
}

/// The low digits of a number do not see what is added above them.
proof fn lemma_low_digits(a: nat, b: nat, k: nat, bits: nat)
    requires
        bits <= k,
    ensures
        (a * pow2(k) + b) % pow2(bits) == b % pow2(bits),
{
    lemma_pow2_pos(bits);
    lemma_pow2_adds(bits, (k - bits) as nat);
    let g = pow2((k - bits) as nat);
    assert(a * pow2(k) == pow2(bits) * (a * g)) by (nonlinear_arith)
        requires
            pow2(k) == pow2(bits) * g,
    ;
    lemma_mod_multiples_vanish((a * g) as int, b as int, pow2(bits) as int);
}

/// Digits that lie in one word.
proof fn lemma_inside(x: nat, word: nat, y: nat, down: nat, bits: nat)
    requires
        bits + down <= 32,
        word < 0x1_0000_0000,
        y < 0x1_0000_0000,
    ensures
        ((x * 0x1_0000_0000 + word) / pow2(down)) % pow2(bits) == ((word * 0x1_0000_0000 + y)
            / pow2(32 + down)) % pow2(bits),
{
    lemma2_to64();
    lemma2_to64_rest();
    lemma_div_steps(word * 0x1_0000_0000 + y, 32, down);
    lemma_shifted(word, y, 32);
    lemma_pow2_pos(down);
    let up = (32 - down) as nat;
    lemma_pow2_adds(down, up);
    let (d, u) = (pow2(down), pow2(up));
    lemma_fundamental_div_mod(word as int, d as int);
    let (q, r) = (word / d, word % d);
    assert(x * 0x1_0000_0000 + word == (x * u + q) * d + r) by (nonlinear_arith)
        requires
            d * u == 0x1_0000_0000,
            word == d * q + r,
    ;
    lemma_fundamental_div_mod_converse(
        (x * 0x1_0000_0000 + word) as int,
        d as int,
        (x * u + q) as int,
        r as int,
    );
    lemma_low_digits(x, q, up, bits);
}

/// A group of digits, counted from the highest bit of the first word, is that group of the
/// whole number.
proof fn lemma_high_field(words: Seq<u32>, start: nat, bits: nat)
    requires
        1 <= bits <= 32,
        start + bits <= 32 * words.len(),
    ensures
        bitpack::high_field(words, start, bits) == (leading_words(words) / pow2(
            (32 * words.len() - start - bits) as nat,
        )) % pow2(bits),
{
    lemma2_to64();
    lemma2_to64_rest();
    let w = (start / 32) as int;
    let off = start % 32;
    let total = words.len();
    let rest = (32 * total - start - bits) as nat;
    if off + bits <= 32 {
        let down = (32 - off - bits) as nat;
        let behind = (total - 1 - w) as nat;
        assert(rest == 32 * behind + down);
        lemma_div_steps(leading_words(words), 32 * behind, down);
        lemma_leading_words(words, behind);
        let front = words.subrange(0, w + 1);
        assert(words.len() - behind == w + 1);
        assert(front.last() == words[w]);
        lemma_inside(
            leading_words(front.drop_last()),
            words[w] as nat,
            bitpack::padded_word(words, w + 1),
            down,
            bits,
        );
        assert(64 - off - bits == 32 + down);
    } else {
        let down = (64 - off - bits) as nat;
        let behind = (total - 2 - w) as nat;
        assert(rest == 32 * behind + down);
        lemma_div_steps(leading_words(words), 32 * behind, down);
        lemma_leading_words(words, behind);
        let front = words.subrange(0, w + 2);
        assert(words.len() - behind == w + 2);
        assert(front.last() == words[w + 1]);
        let shorter = front.drop_last();
        assert(shorter.last() == words[w]);
        let pair = words[w] as nat * 0x1_0000_0000 + words[w + 1] as nat;
        let x = leading_words(shorter.drop_last());
        assert(leading_words(shorter) == x * 0x1_0000_0000 + words[w]);
        assert(leading_words(front) == leading_words(shorter) * 0x1_0000_0000 + words[w + 1]);
        assert(leading_words(front) == x * 0x1_0000_0000_0000_0000 + pair);
        let up = (64 - down) as nat;
        lemma_pow2_adds(down, up);
        lemma_pow2_pos(down);
        let (d, u) = (pow2(down), pow2(up));
        lemma_fundamental_div_mod(pair as int, d as int);
        let (q, r) = (pair / d, pair % d);
        assert(x * 0x1_0000_0000_0000_0000 + pair == (x * u + q) * d + r) by (nonlinear_arith)
            requires
                d * u == 0x1_0000_0000_0000_0000,
                pair == d * q + r,
        ;
        lemma_fundamental_div_mod_converse(
            leading_words(front) as int,
            d as int,
            (x * u + q) as int,
            r as int,
        );
        lemma_low_digits(x, q, up, bits);
    }
}

/// A number with so many words is made of its words.
proof fn lemma_words_whole(words: Seq<u32>, number: nat)
    requires
        number < pow2(32 * words.len()),
        forall|j: int|
            0 <= j < words.len() ==> #[trigger] words[j] == (number / pow2(
                (32 * (words.len() - 1 - j)) as nat,
            )) % 0x1_0000_0000,
    ensures
        leading_words(words) == number,
    decreases words.len(),
{
    lemma2_to64();
    lemma2_to64_rest();
    if words.len() == 0 {
    } else {
        let front = words.drop_last();
        let upper = number / 0x1_0000_0000;
        lemma_pow2_adds(32, 32 * front.len());
        assert(upper < pow2(32 * front.len())) by (nonlinear_arith)
            requires
                number < 0x1_0000_0000 * pow2(32 * front.len()),
                upper == number / 0x1_0000_0000,
        ;
        assert forall|j: int| 0 <= j < front.len() implies #[trigger] front[j] == (upper / pow2(
            (32 * (front.len() - 1 - j)) as nat,
        )) % 0x1_0000_0000 by {
            assert(front[j] == words[j]);
            let below = (32 * (front.len() - 1 - j)) as nat;
            lemma_div_steps(number, 32, below);
            assert(32 * (words.len() - 1 - j) == 32 + below);
        }
        lemma_words_whole(front, upper);
        assert(words.last() == words[words.len() - 1]);
        assert(number / 1 == number);
    }
}

/// The digits of one value.
proof fn lemma_leading_digits(values: Seq<u32>, bits: nat, i: nat)
    requires
        i < values.len(),
        forall|j: int| 0 <= j < values.len() ==> #[trigger] values[j] < pow2(bits),
    ensures
        (leading_number(values, bits) / pow2((bits * (values.len() - 1 - i)) as nat)) % pow2(bits)
            == values[i as int],
    decreases values.len(),
{
    let front = values.drop_last();
    let last = values.last() as nat;
    assert(values[values.len() - 1] < pow2(bits));
    if i == front.len() {
        lemma2_to64();
        assert(bits * 0 == 0) by (nonlinear_arith);
        let n = leading_number(values, bits);
        assert(n / 1 == n);
        lemma_shifted(leading_number(front, bits), last, bits);
    } else {
        assert forall|j: int| 0 <= j < front.len() implies #[trigger] front[j] < pow2(bits) by {
            assert(front[j] == values[j]);
        }
        lemma_leading_digits(front, bits, i);
        let m = (bits * (front.len() - 1 - i)) as nat;
        assert(bits * (front.len() - 1 - i) >= 0) by (nonlinear_arith)
            requires
                i < front.len(),
        ;
        assert(bits * (values.len() - 1 - i) == bits + bits * (front.len() - 1 - i))
            by (nonlinear_arith)
            requires
                values.len() == front.len() + 1,
        ;
        lemma_div_steps(leading_number(values, bits), bits, m);
        lemma_shifted(leading_number(front, bits), last, bits);
    }
}

proof fn lemma_leading_bound(values: Seq<u32>, bits: nat)
    requires
        forall|j: int| 0 <= j < values.len() ==> #[trigger] values[j] < pow2(bits),
    ensures
        leading_number(values, bits) < pow2(bits * values.len()),
    decreases values.len(),
{
    lemma2_to64();
    if values.len() == 0 {
        assert(bits * 0 == 0) by (nonlinear_arith);
    } else {
        let front = values.drop_last();
        assert(values[values.len() - 1] < pow2(bits));
        assert forall|j: int| 0 <= j < front.len() implies #[trigger] front[j] < pow2(bits) by {
            assert(front[j] == values[j]);
        }
        lemma_leading_bound(front, bits);
        assert(bits * values.len() == bits * front.len() + bits) by (nonlinear_arith)
            requires
                values.len() == front.len() + 1,
        ;
        lemma_pow2_adds(bits * front.len(), bits);
        let (n, p, q, v) = (
            leading_number(front, bits),
            pow2(bits * front.len()),
            pow2(bits),
            values.last() as nat,
        );
        assert(n * q + v < p * q) by (nonlinear_arith)
            requires
                n + 1 <= p,
                v < q,
        ;
    }
}

/// Four bytes of a word.
proof fn lemma_word_bytes(v: nat)
    requires
        v < 0x1_0000_0000,
    ensures
        (v / pow2(0)) % 256 + 0x100 * ((v / pow2(8)) % 256) + 0x1_0000 * ((v / pow2(16)) % 256)
            + 0x100_0000 * ((v / pow2(24)) % 256) == v,
{
    lemma2_to64();
    assert(v / 1 == v);
}

/// Reading the bytes gives the words back, the last one shifted down by the bytes that it
/// lacks.
proof fn lemma_high_words(values: Seq<u32>, bits: nat, j: int)
    requires
        0 <= j < word_total(bits, values.len()),
    ensures
        ({
            let words = word_total(bits, values.len());
            let unused = (4 * words - bitpack::packed_len(bits, values.len())) as nat;
            let word = filled_word(values, bits, j as nat);
            bitpack::word_of(high_bytes(values, bits), j) == if j + 1 == words {
                word / pow2(8 * unused)
            } else {
                word
            }
        }),
{
    lemma2_to64();
    let data = high_bytes(values, bits);
    let len = bitpack::packed_len(bits, values.len());
    let words = word_total(bits, values.len());
    let unused = (4 * words - len) as nat;
    let word = filled_word(values, bits, j as nat);
    let kept = if j + 1 == words {
        word / pow2(8 * unused)
    } else {
        word
    };
    assert(0 <= unused <= 3);
    lemma_pow2_pos(8 * unused);
    if j + 1 == words {
        let up = (32 - 8 * unused) as nat;
        lemma_pow2_adds(8 * unused, up);
        lemma2_to64_rest();
        assert(kept < pow2(up)) by (nonlinear_arith)
            requires
                kept == word / pow2(8 * unused),
                word < pow2(8 * unused) * pow2(up),
                pow2(8 * unused) > 0,
        ;
        assert(pow2(up) <= 0x1_0000_0000);
        assert forall|k: int| 4 - unused <= k < 4 implies (kept / #[trigger] pow2((8 * k) as nat))
            % 256 == 0 by {
            lemma_pow2_pos((8 * k) as nat);
            if 8 * k > up {
                lemma_pow2_strictly_increases(up, (8 * k) as nat);
            }
            lemma_small_div(kept, pow2((8 * k) as nat));
        }
    }
    assert forall|k: int| 0 <= k < 4 implies #[trigger] bitpack::padded_byte(data, 4 * j + k) == (
    kept / pow2((8 * k) as nat)) % 256 by {
        let i = 4 * j + k;
        assert(i / 4 == j && i % 4 == k);
        if j + 1 < words {
            assert(i < len);
        }
    }
    lemma_word_bytes(kept);
    assert(bitpack::padded_byte(data, 4 * j + 0) == (kept / pow2(0)) % 256);
    assert(bitpack::padded_byte(data, 4 * j + 1) == (kept / pow2(8)) % 256);
    assert(bitpack::padded_byte(data, 4 * j + 2) == (kept / pow2(16)) % 256);
    assert(bitpack::padded_byte(data, 4 * j + 3) == (kept / pow2(24)) % 256);
}

proof fn lemma_small_div(a: nat, b: nat)
    requires
        a < b,
    ensures
        a / b == 0,
{
    lemma_basic_div(a as int, b as int);
}

/// The last word has no digits in the bytes that are not stored.
proof fn lemma_last_whole(values: Seq<u32>, bits: nat)
    requires
        bits * values.len() > 0,
    ensures
        ({
            let words = word_total(bits, values.len());
            let unused = (4 * words - bitpack::packed_len(bits, values.len())) as nat;
            let word = filled_word(values, bits, (words - 1) as nat);
            (word / pow2(8 * unused)) * pow2(8 * unused) == word
        }),
{
    lemma2_to64();
    lemma2_to64_rest();
    let words = word_total(bits, values.len());
    let unused = (4 * words - bitpack::packed_len(bits, values.len())) as nat;
    let spare = (32 * words - bits * values.len()) as nat;
    let word = filled_word(values, bits, (words - 1) as nat);
    let number = filled_number(values, bits);
    let k = 8 * unused;
    assert(k <= spare);
    assert(number / 1 == number);
    lemma_pow2_pos(k);
    lemma_pow2_adds(k, (spare - k) as nat);
    let g = pow2((spare - k) as nat);
    let n = leading_number(values, bits);
    assert(number == pow2(k) * (n * g)) by (nonlinear_arith)
        requires
            number == n * (pow2(k) * g),
    ;
    // the rest of dividing by 2^32 is a multiple of 2^k too
    lemma_pow2_adds(k, (32 - k) as nat);
    let h = pow2((32 - k) as nat);
    lemma_fundamental_div_mod(number as int, 0x1_0000_0000);
    let q = number / 0x1_0000_0000;
    assert(word == pow2(k) * (n * g - h * q)) by (nonlinear_arith)
        requires
            number == pow2(k) * (n * g),
            number == 0x1_0000_0000 * q + word,
            0x1_0000_0000 == pow2(k) * h,
    ;
    let m = n * g - h * q;
    assert(m >= 0) by (nonlinear_arith)
        requires
            word == pow2(k) * m,
            word >= 0,
            pow2(k) > 0,
    ;
    lemma_fundamental_div_mod_converse(word as int, pow2(k) as int, m, 0);
    assert(m * pow2(k) == pow2(k) * m) by (nonlinear_arith);
}

/// Unpacking numbers that were packed from the highest bits downwards gives them back.
pub proof fn law_high_roundtrip(values: Seq<u32>, bits: nat)
    requires
        bits <= 32,
        forall|i: int| 0 <= i < values.len() ==> #[trigger] values[i] < pow2(bits),
    ensures
        high_bytes(values, bits).len() == bitpack::packed_len(bits, values.len()),
        bitpack::high_first(bitpack::words_of(high_bytes(values, bits)), bits, values.len())
            == values,
{
    lemma2_to64();
    let data = high_bytes(values, bits);
    let count = values.len();
    let stored = bitpack::words_of(data);
    let total = word_total(bits, count);
    let missing = (4 * stored.len() - bitpack::packed_len(bits, count)) as nat;
    let whole = bitpack::lifted(stored, missing);
    let found = bitpack::high_first(stored, bits, count);
    assert(stored.len() == total);
    assert forall|i: int| 0 <= i < count implies #[trigger] found[i] == values[i] by {
        if bits == 0 {
            assert(values[i] < pow2(0));
            let start = (i * bits) as nat;
            assert(pow2(bits) == 1);
            let x = (bitpack::padded_word(whole, (start / 32) as int) * 0x1_0000_0000
                + bitpack::padded_word(whole, (start / 32) as int + 1)) / pow2(
                (64 - start % 32 - bits) as nat,
            );
            assert(x % 1 == 0);
        } else {
            assert(bits * count >= count) by (nonlinear_arith)
                requires
                    bits >= 1,
            ;
            lemma_filled_words(values, bits, whole);
            let start = (i * bits) as nat;
            assert(i * bits >= 0 && start + bits <= bits * count) by (nonlinear_arith)
                requires
                    0 <= i < count,
                    start == i * bits,
            ;
            lemma_high_field(whole, start, bits);
            lemma_leading_digits(values, bits, i as nat);
            let spare = (32 * total - bits * count) as nat;
            let below = (bits * (count - 1 - i)) as nat;
            assert(bits * (count - 1 - i) >= 0 && bits * (count - 1 - i) == bits * count - i * bits
                - bits) by (nonlinear_arith)
                requires
                    0 <= i < count,
            ;
            assert(32 * total - start - bits == spare + below);
            lemma_div_steps(filled_number(values, bits), spare, below);
            lemma_pow2_pos(spare);
            lemma_shifted(leading_number(values, bits), 0, spare);
            assert(bitpack::high_field(whole, start, bits) == values[i]);
        }
    }
    assert(found =~= values);
}

/// The words that reading lifts back are those of the filled digits.
proof fn lemma_filled_words(values: Seq<u32>, bits: nat, whole: Seq<u32>)
    requires
        1 <= bits <= 32,
        values.len() > 0,
        forall|i: int| 0 <= i < values.len() ==> #[trigger] values[i] < pow2(bits),
        ({
            let stored = bitpack::words_of(high_bytes(values, bits));
            whole == bitpack::lifted(
                stored,
                (4 * stored.len() - bitpack::packed_len(bits, values.len())) as nat,
            )
        }),
    ensures
        whole.len() == word_total(bits, values.len()),
        leading_words(whole) == filled_number(values, bits),
{
    lemma2_to64();
    lemma2_to64_rest();
    let data = high_bytes(values, bits);
    let count = values.len();
    let stored = bitpack::words_of(data);
    let total = word_total(bits, count);
    let unused = (4 * total - bitpack::packed_len(bits, count)) as nat;
    let number = filled_number(values, bits);
    assert(stored.len() == total);
    assert(bits * count >= 1) by (nonlinear_arith)
        requires
            bits >= 1,
            count >= 1,
    ;
    assert forall|j: int| 0 <= j < total implies #[trigger] whole[j] == filled_word(
        values,
        bits,
        j as nat,
    ) by {
        lemma_high_words(values, bits, j);
        bitpack::lemma_word_bound(data, j);
        if j + 1 == total {
            lemma_last_whole(values, bits);
            let word = filled_word(values, bits, j as nat);
            assert(stored.last() == stored[j]);
            assert(stored[j] == word / pow2(8 * unused));
            assert(stored.last() * pow2(8 * unused) == word);
        }
    }
    lemma_leading_bound(values, bits);
    let spare = (32 * total - bits * count) as nat;
    lemma_pow2_adds(bits * count, spare);
    lemma_pow2_pos(spare);
    assert(number < pow2(32 * total)) by (nonlinear_arith)
        requires
            number == leading_number(values, bits) * pow2(spare),
            leading_number(values, bits) < pow2(bits * count),
            pow2(spare) > 0,
            pow2(32 * total) == pow2(bits * count) * pow2(spare),
    ;
    lemma_words_whole(whole, number);
}

} // verus!
