//! The Fletcher-32 checksum of Lerc2.

use vstd::prelude::*;

verus! {

/// The high half of a sum added to its low half.
pub open spec fn folded(sum: nat) -> nat {
    sum % 0x1_0000 + sum / 0x1_0000
}

/// The two running sums after `n` of `total` big-endian 16-bit words; the sums are folded
/// after every 359 words and after the last.
pub open spec fn fletcher_sums(bytes: Seq<u8>, n: nat, total: nat) -> (nat, nat)
    decreases n,
{
    if n == 0 {
        (0xffff, 0xffff)
    } else {
        let (a, b) = fletcher_sums(bytes, (n - 1) as nat, total);
        let first = a + 0x100 * bytes[2 * n - 2] as nat + bytes[2 * n - 1] as nat;
        let second = b + first;
        if n % 359 == 0 || n == total {
            (folded(first), folded(second))
        } else {
            (first, second)
        }
    }
}

/// The checksum: a last odd byte counts as the high half of a word, and the sums are folded
/// once more.
pub open spec fn fletcher_of(bytes: Seq<u8>) -> nat {
    let total = bytes.len() / 2;
    let (a, b) = fletcher_sums(bytes, total, total);
    let (first, second) = if bytes.len() % 2 == 1 {
        (a + 0x100 * bytes.last() as nat, b + a + 0x100 * bytes.last() as nat)
    } else {
        (a, b)
    };
    (folded(second) % 0x1_0000) * 0x1_0000 + folded(first) % 0x1_0000
}

/// Computes the Fletcher-32 checksum variant used by Lerc2.
pub fn fletcher32(bytes: &[u8]) -> (r: u32)
    ensures
        r == fletcher_of(bytes@),
{
    let mut sum1: u32 = 0xffff;
    let mut sum2: u32 = 0xffff;
    let len: usize = bytes.len();
    let total: usize = len / 2;
    let mut n: usize = 0;
    while n < total
        invariant
            n <= total,
            len == bytes@.len(),
            total == len / 2,
            n % 359 == 0 || n == total,
            (sum1 as nat, sum2 as nat) == fletcher_sums(bytes@, n as nat, total as nat),
            sum1 <= 66048,
            sum2 <= 131070,
        decreases total - n,
    {
        let chunk: usize = if total - n < 359 { total - n } else { 359 };
        let ghost start = n;
        let mut j: usize = 0;
        while j < chunk
            invariant
                j <= chunk <= 359,
                n == start + j,
                start + chunk <= total,
                start % 359 == 0,
                chunk < 359 ==> start + chunk == total,
                len == bytes@.len(),
                total == len / 2,
                j < chunk || chunk == 0 ==> (sum1 as nat, sum2 as nat) == fletcher_sums(
                    bytes@,
                    n as nat,
                    total as nat,
                ),
                j == chunk && chunk > 0 ==> (folded(sum1 as nat), folded(sum2 as nat))
                    == fletcher_sums(bytes@, n as nat, total as nat),
                sum1 <= 66048 + 65535 * j,
                2 * sum2 <= 262140 + 132096 * j + 65535 * (j * (j + 1)),
            decreases chunk - j,
        {
            assert(0 <= j * (j + 1) && j * (j + 1) + 2 * (j + 1) == (j + 1) * (j + 2)
                && (j + 1) * (j + 2) <= 359 * 360) by (nonlinear_arith)
                requires
                    0 <= j,
                    j + 1 <= 359,
            ;
            let high: u32 = bytes[2 * n] as u32;
            let low: u32 = bytes[2 * n + 1] as u32;
            sum1 = sum1 + 0x100 * high + low;
            sum2 = sum2 + sum1;
            n += 1;
            j += 1;
            proof {
                let before = fletcher_sums(bytes@, (n - 1) as nat, total as nat);
                assert(n % 359 == 0 || n == total <==> j == chunk) by {
                    if j < chunk {
                        assert(n % 359 == j) by {
                            assert(start % 359 == 0);
                        }
                    } else if chunk == 359 {
                        assert(n % 359 == 0);
                    }
                }
            }
        }
        sum1 = sum1 % 0x1_0000 + sum1 / 0x1_0000;
        sum2 = sum2 % 0x1_0000 + sum2 / 0x1_0000;
    }
    if len % 2 == 1 {
        let high: u32 = bytes[len - 1] as u32;
        sum1 = sum1 + 0x100 * high;
        sum2 = sum2 + sum1;
    }
    sum1 = sum1 % 0x1_0000 + sum1 / 0x1_0000;
    sum2 = sum2 % 0x1_0000 + sum2 / 0x1_0000;
    (sum2 % 0x1_0000) * 0x1_0000 + sum1 % 0x1_0000
}

/// The `i`-th big-endian 16-bit word; behind an odd last byte there is a zero.
pub open spec fn word_at(bytes: Seq<u8>, i: int) -> int {
    0x100 * bytes[2 * i] + if 2 * i + 1 < bytes.len() {
        bytes[2 * i + 1] as int
    } else {
        0
    }
}

/// The number of words.
pub open spec fn word_count(bytes: Seq<u8>) -> nat {
    (bytes.len() + 1) / 2
}

/// The sum of the first `n` words.
pub open spec fn word_sum(bytes: Seq<u8>, n: nat) -> int
    decreases n,
{
    if n == 0 {
        0
    } else {
        word_sum(bytes, (n - 1) as nat) + word_at(bytes, n - 1)
    }
}

/// The sum of the first `n` words, each times the number of words from it on among `total`.
pub open spec fn weighted_sum(bytes: Seq<u8>, n: nat, total: nat) -> int
    decreases n,
{
    if n == 0 {
        0
    } else {
        weighted_sum(bytes, (n - 1) as nat, total) + (total - (n - 1)) * word_at(bytes, n - 1)
    }
}

proof fn lemma_weighted_more(bytes: Seq<u8>, n: nat, total: nat)
    ensures
        weighted_sum(bytes, n, total + 1) == weighted_sum(bytes, n, total) + word_sum(bytes, n),
    decreases n,
{
    if n > 0 {
        lemma_weighted_more(bytes, (n - 1) as nat, total);
        let w = word_at(bytes, n - 1);
        assert((total + 1 - (n - 1)) * w == (total - (n - 1)) * w + w) by (nonlinear_arith);
    }
}

/// Whether two numbers leave the same rest modulo 65535.
pub open spec fn congruent(a: int, b: int) -> bool {
    a % 65535 == b % 65535
}

proof fn lemma_rest(a: int, q: int, r: int)
    requires
        a == 65535 * q + r,
    ensures
        congruent(a, r),
{
    vstd::arithmetic::div_mod::lemma_mod_multiples_vanish(q, r, 65535);
}

proof fn lemma_congruent_sum(a: int, b: int, c: int, d: int)
    requires
        congruent(a, b),
        congruent(c, d),
    ensures
        congruent(a + c, b + d),
{
    vstd::arithmetic::div_mod::lemma_add_mod_noop(a, c, 65535);
    vstd::arithmetic::div_mod::lemma_add_mod_noop(b, d, 65535);
}

proof fn lemma_folded(sum: nat)
    ensures
        congruent(folded(sum) as int, sum as int),
        sum > 0 ==> folded(sum) > 0,
{
    let q = sum / 0x1_0000;
    assert(sum == folded(sum) + 65535 * q);
    lemma_rest(sum as int, q as int, folded(sum) as int);
}

/// How large the running sums are.
proof fn lemma_sums_bound(bytes: Seq<u8>, n: nat, total: nat)
    requires
        n <= total,
        2 * total <= bytes.len(),
    ensures
        ({
            let (a, b) = fletcher_sums(bytes, n, total);
            let j: int = if n == total {
                0
            } else {
                n as int % 359
            };
            &&& 1 <= a <= 66048 + 65535 * j
            &&& 1 <= b
            &&& 2 * b <= 262140 + 132096 * j + 65535 * (j * (j + 1))
        }),
    decreases n,
{
    if n > 0 {
        let m = (n - 1) as nat;
        lemma_sums_bound(bytes, m, total);
        let (a, b) = fletcher_sums(bytes, m, total);
        let first = a + 0x100 * bytes[2 * n - 2] as nat + bytes[2 * n - 1] as nat;
        let second = b + first;
        assert(first <= a + 65535);
        let i = m as int % 359;
        assert(0 <= i < 359);
        assert(0 <= i * (i + 1) && i * (i + 1) + 2 * (i + 1) == (i + 1) * (i + 2) && (i + 1) * (i
            + 2) <= 359 * 360) by (nonlinear_arith)
            requires
                0 <= i < 359,
        ;
        lemma_folded(first);
        lemma_folded(second);
        if n % 359 != 0 && n != total {
            assert(n as int % 359 == i + 1);
        } else {
            lemma_folded_bound(first, second);
            assert((if n == total {
                0
            } else {
                n as int % 359
            }) == 0);
        }
    }
}

proof fn lemma_folded_bound(first: nat, second: nat)
    requires
        first <= 66048 + 65535 * 359,
        2 * second <= 262140 + 132096 * 359 + 65535 * (359 * 360),
    ensures
        folded(first) <= 66048,
        folded(second) <= 131070,
{
}

/// What the running sums are modulo 65535.
proof fn lemma_sums_rest(bytes: Seq<u8>, n: nat, total: nat)
    requires
        n <= total,
        2 * total <= bytes.len(),
    ensures
        ({
            let (a, b) = fletcher_sums(bytes, n, total);
            &&& congruent(a as int, word_sum(bytes, n))
            &&& congruent(b as int, weighted_sum(bytes, n, n))
        }),
    decreases n,
{
    if n > 0 {
        let m = (n - 1) as nat;
        lemma_sums_rest(bytes, m, total);
        let (a, b) = fletcher_sums(bytes, m, total);
        let w = word_at(bytes, m as int);
        let first = a + 0x100 * bytes[2 * n - 2] as nat + bytes[2 * n - 1] as nat;
        let second = b + first;
        assert(first == a + w);
        lemma_weighted_more(bytes, m, m);
        assert((n - m) * w == w) by (nonlinear_arith)
            requires
                n - m == 1,
        ;
        assert(weighted_sum(bytes, n, n) == weighted_sum(bytes, m, m) + word_sum(bytes, n));
        lemma_congruent_sum(a as int, word_sum(bytes, m), w, w);
        lemma_congruent_sum(
            b as int,
            weighted_sum(bytes, m, m),
            first as int,
            word_sum(bytes, n),
        );
        lemma_folded(first);
        lemma_folded(second);
    }
}

/// The low bits of a folded sum.
proof fn lemma_half(sum: nat, h: int)
    requires
        1 <= sum <= 262398,
        h == folded(sum) as int % 0x1_0000,
    ensures
        0 <= h <= 0xffff,
        sum <= 131070 ==> 0 < h && congruent(sum as int, h),
        sum <= 131328 ==> congruent(sum as int, h) || (h == 0 && congruent(sum as int, 1)),
        congruent(sum as int, h) || (h <= 3 && congruent(sum as int, h + 1)),
{
    let f = folded(sum) as int;
    lemma_folded(sum);
    assert(f <= 65539);
    if f >= 0x1_0000 {
        assert(h == f - 0x1_0000);
        lemma_rest(f, 1, h + 1);
    }
}

/// What the two halves of the checksum are. With `w_1` to `w_n` the big-endian 16-bit words of
/// the bytes, the low half is the sum of all `w_i` and the high half the sum of all
/// `(n + 1 - i) * w_i`, modulo 65535 and with 65535 in place of zero. Behind an odd last byte
/// the sums may come out at 65536 and a little more, of which the halves keep the low bits.
pub proof fn law_checksum_weighs(bytes: Seq<u8>)
    ensures
        ({
            let n = word_count(bytes);
            let low = fletcher_of(bytes) as int % 0x1_0000;
            let high = fletcher_of(bytes) as int / 0x1_0000;
            let odd = bytes.len() % 2 == 1;
            &&& 0 <= low <= 0xffff
            &&& 0 <= high <= 0xffff
            &&& !odd ==> 0 < low && 0 < high
            &&& congruent(word_sum(bytes, n), low) || (odd && low == 0 && congruent(
                word_sum(bytes, n),
                1,
            ))
            &&& congruent(weighted_sum(bytes, n, n), high) || (odd && high <= 3 && congruent(
                weighted_sum(bytes, n, n),
                high + 1,
            ))
        }),
{
    let total = bytes.len() / 2;
    let n = word_count(bytes);
    lemma_sums_bound(bytes, total, total);
    lemma_sums_rest(bytes, total, total);
    let (a, b) = fletcher_sums(bytes, total, total);
    let (first, second) = if bytes.len() % 2 == 1 {
        (a + 0x100 * bytes.last() as nat, b + a + 0x100 * bytes.last() as nat)
    } else {
        (a, b)
    };
    if bytes.len() % 2 == 1 {
        let w = word_at(bytes, total as int);
        assert(w == 0x100 * bytes.last());
        assert(n == total + 1);
        lemma_weighted_more(bytes, total, total);
        assert((n - total) * w == w) by (nonlinear_arith)
            requires
                n - total == 1,
        ;
        lemma_congruent_sum(a as int, word_sum(bytes, total), w, w);
        lemma_congruent_sum(
            b as int,
            weighted_sum(bytes, total, total),
            first as int,
            word_sum(bytes, n),
        );
    }
    lemma_half(first, folded(first) as int % 0x1_0000);
    lemma_half(second, folded(second) as int % 0x1_0000);
    vstd::arithmetic::div_mod::lemma_fundamental_div_mod_converse(
        fletcher_of(bytes) as int,
        0x1_0000,
        folded(second) as int % 0x1_0000,
        folded(first) as int % 0x1_0000,
    );
}

/// Exchanging two words changes only what they add to the weighted sum.
proof fn lemma_exchanged(a: Seq<u8>, b: Seq<u8>, k: int, n: nat, total: nat)
    requires
        a.len() == b.len(),
        0 <= k,
        2 * k + 3 < a.len(),
        forall|i: int|
            0 <= i < word_count(a) && i != k && i != k + 1 ==> word_at(a, i) == #[trigger] word_at(
                b,
                i,
            ),
        word_at(b, k) == word_at(a, k + 1),
        word_at(b, k + 1) == word_at(a, k),
        n <= word_count(a),
    ensures
        n <= k ==> weighted_sum(a, n, total) == weighted_sum(b, n, total),
        n > k + 1 ==> weighted_sum(a, n, total) - weighted_sum(b, n, total) == word_at(a, k)
            - word_at(a, k + 1),
    decreases n,
{
    if n > 0 {
        lemma_exchanged(a, b, k, (n - 1) as nat, total);
        if n == k + 2 {
            lemma_exchanged(a, b, k, k as nat, total);
            let (x, y) = (word_at(a, k), word_at(a, k + 1));
            let t = total - k;
            reveal_with_fuel(weighted_sum, 3);
            assert(t * x + (t - 1) * y - (t * y + (t - 1) * x) == x - y) by (nonlinear_arith);
        }
    }
}

/// Exchanging two neighbouring words that differ modulo 65535 changes the checksum; behind an
/// odd last byte they have to differ by more than one.
pub proof fn law_exchange_noticed(a: Seq<u8>, b: Seq<u8>, k: int)
    requires
        a.len() == b.len(),
        0 <= k,
        2 * k + 3 < a.len(),
        forall|i: int|
            0 <= i < word_count(a) && i != k && i != k + 1 ==> word_at(a, i) == #[trigger] word_at(
                b,
                i,
            ),
        word_at(b, k) == word_at(a, k + 1),
        word_at(b, k + 1) == word_at(a, k),
        !congruent(word_at(a, k), word_at(a, k + 1)),
        a.len() % 2 == 1 ==> !congruent(word_at(a, k), word_at(a, k + 1) + 1) && !congruent(
            word_at(a, k) + 1,
            word_at(a, k + 1),
        ),
    ensures
        fletcher_of(a) != fletcher_of(b),
{
    let n = word_count(a);
    law_checksum_weighs(a);
    law_checksum_weighs(b);
    lemma_exchanged(a, b, k, n, n);
    if fletcher_of(a) == fletcher_of(b) {
        let h = fletcher_of(a) as int / 0x1_0000;
        let (p, q) = (weighted_sum(a, n, n), weighted_sum(b, n, n));
        let (x, y) = (word_at(a, k), word_at(a, k + 1));
        let s = y - q;
        assert(x == p + s && y == q + s);
        if congruent(p, h) && congruent(q, h) {
            lemma_congruent_sum(p, q, s, s);
        } else if congruent(p, h) {
            lemma_congruent_sum(p, h, 1, 1);
            lemma_congruent_sum(p + 1, q, s, s);
        } else if congruent(q, h) {
            lemma_congruent_sum(q, h, 1, 1);
            lemma_congruent_sum(p, q + 1, s, s);
        } else {
            lemma_congruent_sum(p, q, s, s);
        }
    }
}

} // verus!
