//! Reading Huffman codes: the code table, a look-up table for short codes, and a tree for the
//! long ones.

use crate::bitpack;
use crate::bitpack::words_from_padded;
use crate::cursor;
use crate::cursor::Cursor;
use crate::error::{Error, Fault, Result};
use crate::rounding::power;
use crate::stuffed;
use crate::stuffed::decode_bits;
use vstd::arithmetic::div_mod::*;
use vstd::arithmetic::power2::*;
use vstd::bits::*;
use vstd::prelude::*;

verus! {

/// The widest code that is looked up directly.
pub const LUT_BITS_MAX: u32 = 12;

/// One code: `len` bits, highest first. A length of zero stands for no code.
#[derive(Debug, Clone, Copy, PartialEq, Eq, Structural)]
pub struct CodeEntry {
    pub len: u8,
    pub code: u32,
}

impl CodeEntry {
    /// The code has no more than 32 bits and fits them.
    pub open spec fn wf(self) -> bool {
        self.len <= 32 && self.code < pow2(self.len as nat)
    }
}

/// Whether every code of a table fits its length.
pub open spec fn table_wf(entries: Seq<CodeEntry>) -> bool {
    forall|s: int| 0 <= s < entries.len() ==> (#[trigger] entries[s]).wf()
}

/// The outcome of looking at the `n` bits at bit position `p`; bits past the last word are
/// zero.
pub open spec fn peeked(words: Seq<u32>, p: nat, n: nat) -> std::result::Result<nat, Fault> {
    if n == 0 {
        Ok(0)
    } else if p / 32 >= words.len() {
        Err(Fault::Truncated { offset: 4 * (p / 32), needed: 4, available: 0 })
    } else {
        Ok(bitpack::high_field(words, p, n))
    }
}

/// The codes of the first `count` symbols, read one after the other, and the bit position
/// behind them.
pub open spec fn codes_read(words: Seq<u32>, lens: Seq<u8>, count: nat) -> std::result::Result<
    (Seq<CodeEntry>, nat),
    Fault,
>
    decreases count,
{
    if count == 0 {
        Ok((seq![], 0))
    } else {
        match codes_read(words, lens, (count - 1) as nat) {
            Err(e) => Err(e),
            Ok((entries, p)) => match peeked(words, p, lens[count - 1] as nat) {
                Err(e) => Err(e),
                Ok(code) => Ok(
                    (
                        entries.push(CodeEntry { len: lens[count - 1], code: code as u32 }),
                        p + lens[count - 1] as nat,
                    ),
                ),
            },
        }
    }
}

/// The number of a level; the base counts as zero.
pub open spec fn level_number(levels: Seq<Option<u32>>, i: int) -> nat {
    if 0 <= i < levels.len() {
        match levels[i] {
            Some(n) => n as nat,
            None => 0,
        }
    } else {
        0
    }
}

/// The place in the stored list of the length of symbol `j`, where symbols `i0..` are stored
/// and wrap round after the last.
pub open spec fn length_place(size: int, i0: int, j: int) -> int {
    if j >= i0 {
        j - i0
    } else {
        j + size - i0
    }
}

/// The code lengths of all symbols.
pub open spec fn lengths_of(levels: Seq<Option<u32>>, size: int, i0: int, count: int) -> Seq<u8> {
    Seq::new(
        size as nat,
        |j: int|
            if length_place(size, i0, j) < count {
                level_number(levels, length_place(size, i0, j)) as u8
            } else {
                0u8
            },
    )
}

/// The longest code length.
pub open spec fn longest(entries: Seq<CodeEntry>) -> nat
    decreases entries.len(),
{
    if entries.len() == 0 {
        0
    } else {
        let before = longest(entries.drop_last());
        if entries.last().len > before {
            entries.last().len as nat
        } else {
            before
        }
    }
}

/// The width of the look-up table.
pub open spec fn quick_width(entries: Seq<CodeEntry>) -> nat {
    if longest(entries) < LUT_BITS_MAX {
        longest(entries)
    } else {
        LUT_BITS_MAX as nat
    }
}

/// The last of the first `count` symbols whose code has at most `quick` bits and begins the
/// `quick` bits of `x`.
pub open spec fn quick_symbol(
    entries: Seq<CodeEntry>,
    quick: nat,
    x: nat,
    count: nat,
) -> Option<nat>
    decreases count,
{
    if count == 0 {
        None
    } else {
        let e = entries[count - 1];
        if 0 < e.len <= quick && x / pow2((quick - e.len) as nat) == e.code {
            Some((count - 1) as nat)
        } else {
            quick_symbol(entries, quick, x, (count - 1) as nat)
        }
    }
}

/// Whether a code longer than `quick` bits begins with the `k` bits of `v`.
pub open spec fn leads_to(e: CodeEntry, quick: nat, v: nat, k: nat) -> bool {
    e.len > quick && e.len >= k && e.code as nat / pow2((e.len - k) as nat) == v
}

/// Whether one of the first `count` codes, if long, begins with the `k` bits of `v`.
pub open spec fn path_exists(
    entries: Seq<CodeEntry>,
    quick: nat,
    v: nat,
    k: nat,
    count: nat,
) -> bool {
    exists|s: int| 0 <= s < count && leads_to(#[trigger] entries[s], quick, v, k)
}

/// Whether a long code goes on after the `k` bits of `v`.
pub open spec fn path_continues(entries: Seq<CodeEntry>, quick: nat, v: nat, k: nat) -> bool {
    exists|s: int|
        0 <= s < entries.len() && leads_to(#[trigger] entries[s], quick, v, k) && entries[s].len > k
}

/// The last of the first `count` symbols with a long code of exactly the `k` bits of `v`.
pub open spec fn path_symbol(
    entries: Seq<CodeEntry>,
    quick: nat,
    v: nat,
    k: nat,
    count: nat,
) -> Option<u32>
    decreases count,
{
    if count == 0 {
        None
    } else {
        let e = entries[count - 1];
        if e.len > quick && e.len == k && e.code == v {
            Some((count - 1) as u32)
        } else {
            path_symbol(entries, quick, v, k, (count - 1) as nat)
        }
    }
}

/// The outcome of following the bits of `value`, `max` of them, after the first `k`: the
/// symbol and the bits it takes.
pub open spec fn walked(
    entries: Seq<CodeEntry>,
    quick: nat,
    value: nat,
    max: nat,
    k: nat,
) -> std::result::Result<(u32, nat), Fault>
    decreases max - k,
{
    if k >= max {
        Err(Fault::InvalidBlob("Huffman symbol exceeded the configured code width"@))
    } else {
        let v = value / pow2((max - k - 1) as nat);
        if !path_exists(entries, quick, v, k + 1, entries.len()) {
            if v % 2 == 0 {
                Err(Fault::InvalidBlob("Huffman decode walked a missing left node"@))
            } else {
                Err(Fault::InvalidBlob("Huffman decode walked a missing right node"@))
            }
        } else if path_continues(entries, quick, v, k + 1) {
            walked(entries, quick, value, max, k + 1)
        } else {
            match path_symbol(entries, quick, v, k + 1, entries.len()) {
                Some(s) => Ok((s, k + 1)),
                None => Err(Fault::InvalidBlob("Huffman leaf is missing a symbol"@)),
            }
        }
    }
}

/// The outcome of reading one symbol at bit position `p`: the symbol and the next position.
pub open spec fn symbol_read(entries: Seq<CodeEntry>, words: Seq<u32>, p: nat) -> std::result::Result<
    (u32, nat),
    Fault,
> {
    let quick = quick_width(entries);
    match peeked(words, p, quick) {
        Err(e) => Err(e),
        Ok(x) => match quick_symbol(entries, quick, x, entries.len()) {
            Some(s) => Ok((s as u32, p + entries[s as int].len as nat)),
            None => match peeked(words, p, longest(entries)) {
                Err(e) => Err(e),
                Ok(value) => match walked(entries, quick, value, longest(entries), 0) {
                    Err(e) => Err(e),
                    Ok((s, used)) => Ok((s, p + used)),
                },
            },
        },
    }
}

/// A code tree: a node below every beginning of a long code.
#[derive(Debug)]
pub struct HuffmanNode {
    value: Option<u32>,
    left: Option<Box<HuffmanNode>>,
    right: Option<Box<HuffmanNode>>,
}

impl HuffmanNode {
    spec fn child(self, bit: nat) -> Option<HuffmanNode> {
        if bit == 0 {
            match self.left {
                Some(node) => Some(*node),
                None => None,
            }
        } else {
            match self.right {
                Some(node) => Some(*node),
                None => None,
            }
        }
    }

    /// The node below the `k` bits of `v`.
    spec fn below(self, v: nat, k: nat) -> Option<HuffmanNode>
        decreases k,
    {
        if k == 0 {
            Some(self)
        } else {
            let half = pow2((k - 1) as nat);
            match self.child(v / half) {
                Some(node) => node.below(v % half, (k - 1) as nat),
                None => None,
            }
        }
    }

    spec fn empty() -> HuffmanNode {
        HuffmanNode { value: None, left: None, right: None }
    }
}

/// What adding a code does to the node below the `k` bits of `v`.
spec fn grown(
    before: Option<HuffmanNode>,
    after: Option<HuffmanNode>,
    code: nat,
    len: nat,
    v: nat,
    k: nat,
    symbol: u32,
) -> bool {
    if k <= len && code / pow2((len - k) as nat) == v {
        &&& after is Some
        &&& after->0.value == (if k == len {
            Some(symbol)
        } else if before is Some {
            before->0.value
        } else {
            None
        })
    } else {
        &&& after is Some <==> before is Some
        &&& after is Some ==> after->0.value == before->0.value
    }
}

proof fn lemma_split_prefix(code: nat, len: nat, v: nat, k: nat)
    requires
        1 <= k <= len,
    ensures
        code / pow2((len - k) as nat) == v <==> (code / pow2((len - 1) as nat) == v / pow2(
            (k - 1) as nat,
        ) && (code % pow2((len - 1) as nat)) / pow2((len - k) as nat) == v % pow2(
            (k - 1) as nat,
        )),
{
    let a = pow2((len - k) as nat);
    let b = pow2((k - 1) as nat);
    let c = pow2((len - 1) as nat);
    lemma_pow2_adds((len - k) as nat, (k - 1) as nat);
    lemma_pow2_pos((len - k) as nat);
    lemma_pow2_pos((k - 1) as nat);
    lemma_div_denominator(code as int, a as int, b as int);
    let w = code / a;
    // code / c == w / b, and (code % c) / a == w % b
    lemma_fundamental_div_mod(code as int, a as int);
    lemma_fundamental_div_mod(w as int, b as int);
    let r = code % a;
    let q = w / b;
    let s = w % b;
    assert(code == c * q + (a * s + r)) by (nonlinear_arith)
        requires
            code == a * w + r,
            w == b * q + s,
            c == a * b,
    ;
    assert(0 <= a * s + r < c) by (nonlinear_arith)
        requires
            0 <= r,
            r < a,
            0 <= s,
            s + 1 <= b,
            c == a * b,
    ;
    lemma_fundamental_div_mod_converse(code as int, c as int, q as int, (a * s + r) as int);
    lemma_fundamental_div_mod_converse((a * s + r) as int, a as int, s as int, r as int);
    lemma_fundamental_div_mod(v as int, b as int);
}

/// Adds the code of a symbol below a node.
fn insert_huffman_code(node: HuffmanNode, code: u32, len: u32, symbol: u32) -> (r: HuffmanNode)
    requires
        len <= 32,
        code < pow2(len as nat),
    ensures
        forall|v: nat, k: nat|
            v < pow2(k) ==> grown(
                #[trigger] node.below(v, k),
                r.below(v, k),
                code as nat,
                len as nat,
                v,
                k,
                symbol,
            ),
    decreases len,
{
    proof {
        lemma2_to64();
    }
    if len == 0 {
        let r = HuffmanNode { value: Some(symbol), left: node.left, right: node.right };
        proof {
            assert forall|v: nat, k: nat| v < pow2(k) implies grown(
                #[trigger] node.below(v, k),
                r.below(v, k),
                code as nat,
                0,
                v,
                k,
                symbol,
            ) by {
                if k == 0 {
                    assert(code as nat / 1 == 0);
                } else {
                    let half = pow2((k - 1) as nat);
                    assert(node.child(v / half) == r.child(v / half));
                }
            }
        }
        return r;
    }
    let half: u32 = power(len - 1) as u32;
    proof {
        lemma_pow2_unfold(len as nat);
        lemma_pow2_pos((len - 1) as nat);
        if len < 32 {
            lemma_pow2_strictly_increases(len as nat, 32);
        }
        lemma_fundamental_div_mod(code as int, half as int);
        assert(code / half < 2) by (nonlinear_arith)
            requires
                code < 2 * half,
                code == half * (code / half) + code % half,
                0 <= code % half,
                half > 0,
        ;
    }
    let bit: u32 = code / half;
    let rest: u32 = code % half;
    let HuffmanNode { value, left, right } = node;
    let ghost old_child = node.child(bit as nat);
    let r = if bit == 0 {
        let child: HuffmanNode = match left {
            Some(b) => *b,
            None => HuffmanNode { value: None, left: None, right: None },
        };
        let ghost child0 = child;
        let child = insert_huffman_code(child, rest, len - 1, symbol);
        let r = HuffmanNode { value, left: Some(Box::new(child)), right };
        proof {
            lemma_grown_step(node, r, child0, child, code as nat, len as nat, symbol);
        }
        r
    } else {
        let child: HuffmanNode = match right {
            Some(b) => *b,
            None => HuffmanNode { value: None, left: None, right: None },
        };
        let ghost child0 = child;
        let child = insert_huffman_code(child, rest, len - 1, symbol);
        let r = HuffmanNode { value, left, right: Some(Box::new(child)) };
        proof {
            lemma_grown_step(node, r, child0, child, code as nat, len as nat, symbol);
        }
        r
    };
    r
}

proof fn lemma_empty_below(v: nat, k: nat)
    ensures
        k > 0 ==> HuffmanNode::empty().below(v, k) is None,
{
}

proof fn lemma_grown_step(
    node: HuffmanNode,
    r: HuffmanNode,
    child0: HuffmanNode,
    child: HuffmanNode,
    code: nat,
    len: nat,
    symbol: u32,
)
    requires
        1 <= len <= 32,
        code < pow2(len),
        r.value == node.value,
        ({
            let bit = code / pow2((len - 1) as nat);
            &&& bit < 2
            &&& r.child(bit) == Some(child)
            &&& r.child((1 - bit) as nat) == node.child((1 - bit) as nat)
            &&& child0 == (match node.child(bit) {
                Some(n) => n,
                None => HuffmanNode::empty(),
            })
        }),
        forall|v: nat, k: nat|
            v < pow2(k) ==> grown(
                #[trigger] child0.below(v, k),
                child.below(v, k),
                code % pow2((len - 1) as nat),
                (len - 1) as nat,
                v,
                k,
                symbol,
            ),
    ensures
        forall|v: nat, k: nat|
            v < pow2(k) ==> grown(
                #[trigger] node.below(v, k),
                r.below(v, k),
                code,
                len,
                v,
                k,
                symbol,
            ),
{
    let half = pow2((len - 1) as nat);
    let bit = code / half;
    assert forall|v: nat, k: nat| v < pow2(k) implies grown(
        #[trigger] node.below(v, k),
        r.below(v, k),
        code,
        len,
        v,
        k,
        symbol,
    ) by {
        lemma2_to64();
        if k == 0 {
            lemma_basic_div(code as int, pow2(len) as int);
        } else {
            let kh = pow2((k - 1) as nat);
            lemma_pow2_pos((k - 1) as nat);
            lemma_pow2_unfold(k);
            let top = v / kh;
            let low = v % kh;
            lemma_fundamental_div_mod(v as int, kh as int);
            assert(top < 2) by (nonlinear_arith)
                requires
                    v < 2 * kh,
                    v == kh * top + low,
                    0 <= low,
                    kh > 0,
            ;
            if k <= len {
                lemma_split_prefix(code, len, v, k);
            }
            if top == bit {
                assert(grown(
                    child0.below(low, (k - 1) as nat),
                    child.below(low, (k - 1) as nat),
                    code % half,
                    (len - 1) as nat,
                    low,
                    (k - 1) as nat,
                    symbol,
                ));
                lemma_empty_below(low, (k - 1) as nat);
                match node.child(bit) {
                    Some(n) => {},
                    None => {
                        if k > 1 {
                            assert(child0.below(low, (k - 1) as nat) is None);
                        } else {
                            assert(child0.below(low, 0) == Some(HuffmanNode::empty()));
                            assert(low == 0);
                            lemma_basic_div((code % half) as int, half as int);
                        }
                    },
                }
            } else {
                assert(top == (1 - bit) as nat);
            }
        }
    }
}

/// A child lies one bit further.
proof fn lemma_below_child(node: HuffmanNode, v: nat, k: nat, bit: nat)
    requires
        bit < 2,
        v < pow2(k),
    ensures
        node.below(2 * v + bit, k + 1) == (match node.below(v, k) {
            Some(n) => n.child(bit),
            None => None,
        }),
    decreases k,
{
    lemma2_to64();
    lemma_pow2_unfold(k + 1);
    let half = pow2(k);
    let w = 2 * v + bit;
    lemma_pow2_pos(k);
    if k == 0 {
        assert(w / 1 == bit);
        assert(w % 1 == 0);
        assert(node.below(w, 1) == (match node.child(bit) {
            Some(n) => n.below(0, 0),
            None => None,
        }));
    } else {
        let q = pow2((k - 1) as nat);
        lemma_pow2_unfold(k);
        lemma_pow2_pos((k - 1) as nat);
        let top = v / q;
        let low = v % q;
        lemma_fundamental_div_mod(v as int, q as int);
        assert(w == half * top + (2 * low + bit)) by (nonlinear_arith)
            requires
                w == 2 * v + bit,
                v == q * top + low,
                half == 2 * q,
        ;
        lemma_fundamental_div_mod_converse(
            w as int,
            half as int,
            top as int,
            (2 * low + bit) as int,
        );
        match node.child(top) {
            Some(n) => {
                lemma_below_child(n, low, (k - 1) as nat, bit);
            },
            None => {},
        }
    }
}

/// A position in a stream of 32-bit words whose bits run from the highest downwards.
#[derive(Debug)]
pub struct HuffmanStream<'a> {
    words: &'a [u32],
    src_ptr: usize,
    bit_pos: u32,
}

impl<'a> HuffmanStream<'a> {
    /// The words of the stream.
    pub closed spec fn all(self) -> Seq<u32> {
        self.words@
    }

    /// The bit position.
    pub closed spec fn at(self) -> nat {
        32 * self.src_ptr as nat + self.bit_pos as nat
    }

    /// The position lies in the words or just behind them.
    pub closed spec fn wf(self) -> bool {
        &&& self.bit_pos < 32
        &&& self.words@.len() <= usize::MAX / 4 - 2
        &&& self.src_ptr <= self.words@.len() + 1
    }

    /// Starts at the first bit of a word.
    pub fn new(words: &'a [u32], src_ptr: usize) -> (r: HuffmanStream<'a>)
        requires
            words@.len() <= usize::MAX / 4 - 2,
            src_ptr <= words@.len() + 1,
        ensures
            r.wf(),
            r.all() == words@,
            r.at() == 32 * src_ptr,
    {
        HuffmanStream { words, src_ptr, bit_pos: 0 }
    }

    /// Looks at the next `num_bits` bits.
    pub fn peek_bits(&self, num_bits: u32) -> (r: Result<u32>)
        requires
            self.wf(),
            num_bits <= 32,
        ensures
            match r {
                Ok(value) => {
                    &&& peeked(self.all(), self.at(), num_bits as nat) == Ok::<_, Fault>(
                        value as nat,
                    )
                    &&& value < pow2(num_bits as nat)
                    &&& num_bits > 0 ==> self.at() / 32 < self.all().len()
                },
                Err(e) => peeked(self.all(), self.at(), num_bits as nat) == Err::<nat, _>(e@),
            },
    {
        proof {
            lemma2_to64();
        }
        if num_bits == 0 {
            return Ok(0);
        }
        if self.src_ptr >= self.words.len() {
            return Err(Error::Truncated { offset: self.src_ptr * 4, needed: 4, available: 0 });
        }
        let word: u64 = self.words[self.src_ptr] as u64;
        let next: u64 = if self.src_ptr + 1 < self.words.len() {
            self.words[self.src_ptr + 1] as u64
        } else {
            0
        };
        let pair: u64 = word * 0x1_0000_0000 + next;
        let shift: u64 = 64 - self.bit_pos as u64 - num_bits as u64;
        let modulus: u64 = power(num_bits) as u64;
        proof {
            lemma_u64_shr_is_div(pair, shift);
            lemma_pow2_pos(num_bits as nat);
            if num_bits < 32 {
                lemma_pow2_strictly_increases(num_bits as nat, 32);
            }
        }
        let value: u64 = (pair >> shift) % modulus;
        Ok(value as u32)
    }

    /// Moves on by at most 32 bits.
    pub fn advance(&mut self, bits: u32)
        requires
            old(self).wf(),
            bits <= 32,
            bits > 0 ==> old(self).at() / 32 < old(self).all().len(),
        ensures
            final(self).wf(),
            final(self).all() == old(self).all(),
            final(self).at() == old(self).at() + bits,
    {
        let total: u32 = self.bit_pos + bits;
        self.src_ptr = self.src_ptr + (total / 32) as usize;
        self.bit_pos = total % 32;
    }

    /// The index of the first word that has not been begun.
    pub fn next_word(&self) -> (r: usize)
        requires
            self.wf(),
            self.at() <= 32 * self.all().len() + 31,
        ensures
            r == (self.at() + 31) / 32,
            r <= self.all().len() + 1,
    {
        if self.bit_pos > 0 {
            self.src_ptr + 1
        } else {
            self.src_ptr
        }
    }
}

/// A code table with its look-up structures.
#[derive(Debug)]
pub struct HuffmanTable {
    entries: Vec<CodeEntry>,
    quick_bits: u32,
    max_bits: u32,
    quick_lut: Vec<Option<u16>>,
    tree: HuffmanNode,
}

spec fn tree_matches(
    tree: HuffmanNode,
    entries: Seq<CodeEntry>,
    quick: nat,
    count: nat,
) -> bool {
    forall|v: nat, k: nat|
        v < pow2(k) && k > 0 ==> {
            &&& (#[trigger] tree.below(v, k)) is Some <==> path_exists(entries, quick, v, k, count)
            &&& tree.below(v, k) is Some ==> tree.below(v, k)->0.value == path_symbol(
                entries,
                quick,
                v,
                k,
                count,
            )
        }
}

spec fn lut_matches(
    lut: Seq<Option<u16>>,
    entries: Seq<CodeEntry>,
    quick: nat,
    count: nat,
) -> bool {
    &&& lut.len() == pow2(quick)
    &&& forall|x: int|
        0 <= x < lut.len() ==> match quick_symbol(entries, quick, x as nat, count) {
            Some(s) => #[trigger] lut[x] == Some(s as u16),
            None => lut[x] is None,
        }
}

impl HuffmanTable {
    /// The codes by symbol.
    pub closed spec fn codes(self) -> Seq<CodeEntry> {
        self.entries@
    }

    /// The look-up structures agree with the codes.
    pub closed spec fn wf(self) -> bool {
        &&& self.entries@.len() <= 256
        &&& table_wf(self.entries@)
        &&& self.max_bits == longest(self.entries@)
        &&& self.max_bits <= 32
        &&& self.quick_bits == quick_width(self.entries@)
        &&& lut_matches(
            self.quick_lut@,
            self.entries@,
            self.quick_bits as nat,
            self.entries@.len(),
        )
        &&& tree_matches(self.tree, self.entries@, self.quick_bits as nat, self.entries@.len())
    }

    /// A table has at most 256 symbols.
    pub proof fn lemma_wf(self)
        requires
            self.wf(),
        ensures
            self.codes().len() <= 256,
            table_wf(self.codes()),
    {
    }
}

pub proof fn lemma_longest(entries: Seq<CodeEntry>)
    requires
        table_wf(entries),
    ensures
        longest(entries) <= 32,
        forall|s: int| 0 <= s < entries.len() ==> (#[trigger] entries[s]).len <= longest(entries),
    decreases entries.len(),
{
    if entries.len() > 0 {
        assert(table_wf(entries.drop_last())) by {
            assert forall|s: int| 0 <= s < entries.drop_last().len() implies (
            #[trigger] entries.drop_last()[s]).wf() by {
                assert(entries[s].wf());
            }
        }
        lemma_longest(entries.drop_last());
        assert(entries[entries.len() - 1].wf());
        assert forall|s: int| 0 <= s < entries.len() implies (#[trigger] entries[s]).len
            <= longest(entries) by {
            if s < entries.len() - 1 {
                assert(entries.drop_last()[s] == entries[s]);
            }
        }
    }
}

/// Fills the part of the look-up table that one short code takes.
fn fill_lut(lut: &mut Vec<Option<u16>>, entry: CodeEntry, quick: u32, symbol: u16)
    requires
        entry.wf(),
        0 < entry.len <= quick <= 12,
        old(lut)@.len() == pow2(quick as nat),
    ensures
        final(lut)@.len() == old(lut)@.len(),
        forall|x: int|
            0 <= x < final(lut)@.len() ==> #[trigger] final(lut)@[x] == (if (x as nat) / pow2(
                (quick - entry.len) as nat,
            ) == entry.code {
                Some(symbol)
            } else {
                old(lut)@[x]
            }),
{
    let free: u32 = quick - entry.len as u32;
    let len: usize = lut.len();
    proof {
        lemma2_to64();
        if free < 12 {
            lemma_pow2_strictly_increases(free as nat, 12);
        }
    }
    let span: usize = power(free) as usize;
    let ghost before = lut@;
    proof {
        lemma_pow2_adds(entry.len as nat, free as nat);
        lemma_pow2_pos(free as nat);
        if quick < 12 {
            lemma_pow2_strictly_increases(quick as nat, 12);
        }
        assert(entry.code * span + span <= pow2(quick as nat)) by (nonlinear_arith)
            requires
                entry.code + 1 <= pow2(entry.len as nat),
                pow2(entry.len as nat) * pow2(free as nat) == pow2(quick as nat),
                span == pow2(free as nat),
        ;
        assert(0 <= entry.code * span) by (nonlinear_arith)
            requires
                entry.code >= 0,
                span >= 0,
        ;
    }
    let base: usize = entry.code as usize * span;
    let mut extra: usize = 0;
    while extra < span
        invariant
            extra <= span,
            base + span <= len,
            lut@.len() == len,
            lut@.len() == before.len(),
            forall|x: int|
                0 <= x < lut@.len() ==> #[trigger] lut@[x] == (if base <= x < base + extra {
                    Some(symbol)
                } else {
                    before[x]
                }),
        decreases span - extra,
    {
        lut.set(base + extra, Some(symbol));
        extra += 1;
    }
    proof {
        assert forall|x: int| 0 <= x < lut@.len() implies #[trigger] lut@[x] == (if (x as nat)
            / pow2(free as nat) == entry.code {
            Some(symbol)
        } else {
            before[x]
        }) by {
            lemma_fundamental_div_mod(x, span as int);
            let q = x / (span as int);
            if base <= x < base + span {
                lemma_fundamental_div_mod_converse(
                    x,
                    span as int,
                    entry.code as int,
                    x - base,
                );
            } else {
                if q == entry.code {
                    assert(x == span * entry.code + x % (span as int));
                    assert(span * entry.code == base) by (nonlinear_arith)
                        requires
                            base == entry.code * span,
                    ;
                }
            }
        }
    }
}

impl HuffmanTable {
    /// Builds the look-up structures of a code table.
    pub fn new(entries: Vec<CodeEntry>) -> (r: HuffmanTable)
        requires
            entries@.len() <= 256,
            table_wf(entries@),
        ensures
            r.wf(),
            r.codes() == entries@,
    {
        let mut max_bits: u32 = 0;
        let mut i: usize = 0;
        while i < entries.len()
            invariant
                i <= entries@.len(),
                max_bits == longest(entries@.subrange(0, i as int)),
            decreases entries@.len() - i,
        {
            proof {
                assert(entries@.subrange(0, i + 1).drop_last() =~= entries@.subrange(
                    0,
                    i as int,
                ));
            }
            if entries[i].len as u32 > max_bits {
                max_bits = entries[i].len as u32;
            }
            i += 1;
        }
        proof {
            assert(entries@.subrange(0, entries@.len() as int) =~= entries@);
            lemma_longest(entries@);
            lemma2_to64();
        }
        let quick_bits: u32 = if max_bits < LUT_BITS_MAX { max_bits } else { LUT_BITS_MAX };
        proof {
            if quick_bits < 12 {
                lemma_pow2_strictly_increases(quick_bits as nat, 12);
            }
        }
        let mut quick_lut: Vec<Option<u16>> = crate::allocation::filled(
            None,
            power(quick_bits) as usize,
        );
        let mut tree = HuffmanNode { value: None, left: None, right: None };
        proof {
            assert(tree == HuffmanNode::empty());
            assert forall|v: nat, k: nat| v < pow2(k) && k > 0 implies (#[trigger] tree.below(
                v,
                k,
            )) is None by {
                lemma_empty_below(v, k);
            }
        }
        let mut s: usize = 0;
        while s < entries.len()
            invariant
                s <= entries@.len(),
                entries@.len() <= 256,
                table_wf(entries@),
                quick_bits <= 12,
                lut_matches(quick_lut@, entries@, quick_bits as nat, s as nat),
                tree_matches(tree, entries@, quick_bits as nat, s as nat),
            decreases entries@.len() - s,
        {
            let entry: CodeEntry = entries[s];
            let ghost lut0 = quick_lut@;
            let ghost tree0 = tree;
            assert(entry.wf());
            if entry.len > 0 && entry.len as u32 <= quick_bits {
                fill_lut(&mut quick_lut, entry, quick_bits, s as u16);
                proof {
                    lemma_tree_keep(tree, entries@, quick_bits as nat, s as nat);
                    assert forall|x: int| 0 <= x < quick_lut@.len() implies match quick_symbol(
                        entries@,
                        quick_bits as nat,
                        x as nat,
                        (s + 1) as nat,
                    ) {
                        Some(t) => #[trigger] quick_lut@[x] == Some(t as u16),
                        None => quick_lut@[x] is None,
                    } by {
                        assert(match quick_symbol(
                            entries@,
                            quick_bits as nat,
                            x as nat,
                            s as nat,
                        ) {
                            Some(t) => lut0[x] == Some(t as u16),
                            None => lut0[x] is None,
                        });
                    }
                }
            } else if entry.len > 0 {
                tree = insert_huffman_code(tree, entry.code, entry.len as u32, s as u32);
                proof {
                    lemma_tree_grow(tree0, tree, entries@, quick_bits as nat, s as nat);
                    lemma_lut_keep(quick_lut@, entries@, quick_bits as nat, s as nat);
                }
            } else {
                proof {
                    lemma_tree_keep(tree, entries@, quick_bits as nat, s as nat);
                    lemma_lut_keep(quick_lut@, entries@, quick_bits as nat, s as nat);
                }
            }
            s += 1;
        }
        HuffmanTable { entries, quick_bits, max_bits, quick_lut, tree }
    }

    /// Reads one symbol.
    pub fn read_symbol(&self, stream: &mut HuffmanStream) -> (r: Result<u32>)
        requires
            self.wf(),
            old(stream).wf(),
        ensures
            final(stream).wf(),
            final(stream).all() == old(stream).all(),
            match r {
                Ok(symbol) => {
                    &&& symbol_read(self.codes(), old(stream).all(), old(stream).at()) == Ok::<
                        _,
                        Fault,
                    >((symbol, final(stream).at()))
                    &&& symbol < self.codes().len()
                },
                Err(e) => symbol_read(self.codes(), old(stream).all(), old(stream).at()) == Err::<
                    (u32, nat),
                    _,
                >(e@),
            },
    {
        let ghost entries = self.entries@;
        let ghost quick = self.quick_bits as nat;
        let x: u32 = stream.peek_bits(self.quick_bits)?;
        proof {
            lemma_quick_symbol(entries, quick, x as nat, entries.len());
        }
        match self.quick_lut[x as usize] {
            Some(symbol) => {
                let s: usize = symbol as usize;
                proof {
                    assert(quick_symbol(entries, quick, x as nat, entries.len()) is Some);
                    assert(entries[s as int].wf());
                }
                let len: u32 = self.entries[s].len as u32;
                stream.advance(len);
                return Ok(s as u32);
            },
            None => {},
        }
        let value: u32 = stream.peek_bits(self.max_bits)?;
        let max: u32 = self.max_bits;
        let mut node: &HuffmanNode = &self.tree;
        let mut used: u32 = 0;
        proof {
            lemma2_to64();
            lemma_basic_div(value as int, pow2(max as nat) as int);
        }
        while used < max
            invariant
                self.wf(),
                entries == self.entries@,
                quick == self.quick_bits,
                max == self.max_bits,
                max <= 32,
                used <= max,
                value < pow2(max as nat),
                stream.wf(),
                stream.all() == old(stream).all(),
                stream.at() == old(stream).at(),
                max > 0 ==> stream.at() / 32 < stream.all().len(),
                ({
                    let v = value as nat / pow2((max - used) as nat);
                    v < pow2(used as nat) && self.tree.below(v, used as nat) == Some(*node)
                }),
                walked(entries, quick, value as nat, max as nat, 0) == walked(
                    entries,
                    quick,
                    value as nat,
                    max as nat,
                    used as nat,
                ),
                peeked(stream.all(), stream.at(), quick) == Ok::<nat, Fault>(x as nat),
                quick_symbol(entries, quick, x as nat, entries.len()) is None,
                peeked(stream.all(), stream.at(), max as nat) == Ok::<nat, Fault>(value as nat),
            decreases max - used,
        {
            let ghost v = value as nat / pow2((max - used) as nat);
            let left: u32 = max - used - 1;
            let unit: u64 = power(left) as u64;
            proof {
                lemma2_to64();
                if left < 32 {
                    lemma_pow2_strictly_increases(left as nat, 32);
                }
                lemma_pow2_pos(left as nat);
                lemma_pow2_pos((left + 1) as nat);
            }
            let w: u32 = (value as u64 / unit) as u32;
            let bit: u32 = w % 2;
            proof {
                lemma_pow2_adds(left as nat, 1);
                lemma_div_denominator(value as int, pow2(left as nat) as int, 2);
                assert(v == w as nat / 2);
                lemma_pow2_unfold((used + 1) as nat);
                assert((w as nat) < pow2((used + 1) as nat));
                lemma_below_child(self.tree, v, used as nat, bit as nat);
                assert(2 * v + bit == w);
            }
            if bit == 0 {
                match &node.left {
                    Some(child) => {
                        node = child;
                    },
                    None => {
                        return Err(
                            Error::invalid_blob("Huffman decode walked a missing left node"),
                        );
                    },
                }
            } else {
                match &node.right {
                    Some(child) => {
                        node = child;
                    },
                    None => {
                        return Err(
                            Error::invalid_blob("Huffman decode walked a missing right node"),
                        );
                    },
                }
            }
            proof {
                lemma_leaf(
                    self.tree,
                    *node,
                    entries,
                    quick,
                    w as nat,
                    (used + 1) as nat,
                );
            }
            if node.left.is_none() && node.right.is_none() {
                match node.value {
                    Some(symbol) => {
                        proof {
                            lemma_path_symbol(
                                entries,
                                quick,
                                w as nat,
                                (used + 1) as nat,
                                entries.len(),
                            );
                        }
                        stream.advance(used + 1);
                        return Ok(symbol);
                    },
                    None => {
                        return Err(Error::invalid_blob("Huffman leaf is missing a symbol"));
                    },
                }
            }
            used += 1;
        }
        Err(Error::invalid_blob("Huffman symbol exceeded the configured code width"))
    }
}

proof fn lemma_quick_symbol(entries: Seq<CodeEntry>, quick: nat, x: nat, count: nat)
    requires
        count <= entries.len(),
    ensures
        match quick_symbol(entries, quick, x, count) {
            Some(s) => s < count && 0 < entries[s as int].len <= quick,
            None => true,
        },
    decreases count,
{
    if count > 0 {
        lemma_quick_symbol(entries, quick, x, (count - 1) as nat);
    }
}

proof fn lemma_path_symbol(entries: Seq<CodeEntry>, quick: nat, v: nat, k: nat, count: nat)
    requires
        count <= entries.len() <= 256,
    ensures
        match path_symbol(entries, quick, v, k, count) {
            Some(s) => s < count,
            None => true,
        },
    decreases count,
{
    if count > 0 {
        lemma_path_symbol(entries, quick, v, k, (count - 1) as nat);
    }
}

proof fn lemma_walked(entries: Seq<CodeEntry>, quick: nat, value: nat, max: nat, k: nat)
    requires
        entries.len() <= 256,
    ensures
        walked(entries, quick, value, max, k) matches Ok((s, _)) ==> s < entries.len(),
    decreases max - k,
{
    if k < max {
        let v = value / pow2((max - k - 1) as nat);
        lemma_path_symbol(entries, quick, v, k + 1, entries.len());
        lemma_walked(entries, quick, value, max, k + 1);
    }
}

/// A symbol is one of the table.
pub proof fn lemma_symbol_bound(entries: Seq<CodeEntry>, words: Seq<u32>, p: nat)
    requires
        entries.len() <= 256,
    ensures
        symbol_read(entries, words, p) matches Ok((s, _)) ==> s < entries.len(),
{
    let quick = quick_width(entries);
    if let Ok(x) = peeked(words, p, quick) {
        lemma_quick_symbol(entries, quick, x, entries.len());
    }
    if let Ok(value) = peeked(words, p, longest(entries)) {
        lemma_walked(entries, quick, value, longest(entries), 0);
    }
}

proof fn lemma_codes_len(words: Seq<u32>, lens: Seq<u8>, count: nat)
    ensures
        codes_read(words, lens, count) matches Ok((entries, _)) ==> entries.len() == count,
    decreases count,
{
    if count > 0 {
        lemma_codes_len(words, lens, (count - 1) as nat);
    }
}

proof fn lemma_lut_keep(lut: Seq<Option<u16>>, entries: Seq<CodeEntry>, quick: nat, count: nat)
    requires
        count < entries.len(),
        lut_matches(lut, entries, quick, count),
        !(0 < entries[count as int].len <= quick),
    ensures
        lut_matches(lut, entries, quick, count + 1),
{
    assert forall|x: int| 0 <= x < lut.len() implies match quick_symbol(
        entries,
        quick,
        x as nat,
        count + 1,
    ) {
        Some(s) => #[trigger] lut[x] == Some(s as u16),
        None => lut[x] is None,
    } by {
        assert(quick_symbol(entries, quick, x as nat, count + 1) == quick_symbol(
            entries,
            quick,
            x as nat,
            count,
        ));
    }
}

proof fn lemma_tree_keep(tree: HuffmanNode, entries: Seq<CodeEntry>, quick: nat, count: nat)
    requires
        count < entries.len(),
        tree_matches(tree, entries, quick, count),
        entries[count as int].len <= quick,
    ensures
        tree_matches(tree, entries, quick, count + 1),
{
    assert forall|v: nat, k: nat| v < pow2(k) && k > 0 implies ({
        &&& (#[trigger] tree.below(v, k)) is Some <==> path_exists(
            entries,
            quick,
            v,
            k,
            count + 1,
        )
        &&& tree.below(v, k) is Some ==> tree.below(v, k)->0.value == path_symbol(
            entries,
            quick,
            v,
            k,
            count + 1,
        )
    }) by {
        if path_exists(entries, quick, v, k, count + 1) {
            let s = choose|s: int|
                0 <= s < count + 1 && leads_to(#[trigger] entries[s], quick, v, k);
            assert(s < count);
        }
    }
}

proof fn lemma_tree_grow(
    before: HuffmanNode,
    after: HuffmanNode,
    entries: Seq<CodeEntry>,
    quick: nat,
    count: nat,
)
    requires
        count < entries.len(),
        tree_matches(before, entries, quick, count),
        entries[count as int].len > quick,
        entries[count as int].wf(),
        forall|v: nat, k: nat|
            v < pow2(k) ==> grown(
                #[trigger] before.below(v, k),
                after.below(v, k),
                entries[count as int].code as nat,
                entries[count as int].len as nat,
                v,
                k,
                count as u32,
            ),
    ensures
        tree_matches(after, entries, quick, count + 1),
{
    let e = entries[count as int];
    assert forall|v: nat, k: nat| v < pow2(k) && k > 0 implies ({
        &&& (#[trigger] after.below(v, k)) is Some <==> path_exists(
            entries,
            quick,
            v,
            k,
            count + 1,
        )
        &&& after.below(v, k) is Some ==> after.below(v, k)->0.value == path_symbol(
            entries,
            quick,
            v,
            k,
            count + 1,
        )
    }) by {
        let b = before.below(v, k);
        assert(grown(
            b,
            after.below(v, k),
            e.code as nat,
            e.len as nat,
            v,
            k,
            count as u32,
        ));
        lemma2_to64();
        if k == e.len {
            assert(e.code as nat / 1 == e.code);
        }
        if leads_to(e, quick, v, k) {
            assert(path_exists(entries, quick, v, k, count + 1));
            if b is None {
                lemma_no_symbol(entries, quick, v, k, count);
            }
        } else {
            if path_exists(entries, quick, v, k, count + 1) {
                let s = choose|s: int|
                    0 <= s < count + 1 && leads_to(#[trigger] entries[s], quick, v, k);
                assert(s < count);
            }
            if path_exists(entries, quick, v, k, count) {
                let s = choose|s: int|
                    0 <= s < count && leads_to(#[trigger] entries[s], quick, v, k);
                assert(leads_to(entries[s], quick, v, k));
            }
        }
    }
}

proof fn lemma_no_symbol(entries: Seq<CodeEntry>, quick: nat, v: nat, k: nat, count: nat)
    requires
        !path_exists(entries, quick, v, k, count),
    ensures
        path_symbol(entries, quick, v, k, count) is None,
    decreases count,
{
    lemma2_to64();
    if count > 0 {
        let e = entries[count - 1];
        assert(!leads_to(e, quick, v, k));
        if e.len == k {
            assert(e.code as nat / 1 == e.code);
        }
        assert(!path_exists(entries, quick, v, k, (count - 1) as nat)) by {
            if path_exists(entries, quick, v, k, (count - 1) as nat) {
                let s = choose|s: int|
                    0 <= s < count - 1 && leads_to(#[trigger] entries[s], quick, v, k);
                assert(leads_to(entries[s], quick, v, k));
            }
        }
        lemma_no_symbol(entries, quick, v, k, (count - 1) as nat);
    }
}

/// A node without children is where no code goes on.
proof fn lemma_leaf(
    tree: HuffmanNode,
    node: HuffmanNode,
    entries: Seq<CodeEntry>,
    quick: nat,
    v: nat,
    k: nat,
)
    requires
        tree_matches(tree, entries, quick, entries.len()),
        v < pow2(k),
        k > 0,
        tree.below(v, k) == Some(node),
    ensures
        path_continues(entries, quick, v, k) <==> node.child(0) is Some || node.child(1) is Some,
{
    lemma_pow2_unfold(k + 1);
    lemma_below_child(tree, v, k, 0);
    lemma_below_child(tree, v, k, 1);
    lemma2_to64();
    if path_continues(entries, quick, v, k) {
        let s = choose|s: int|
            0 <= s < entries.len() && leads_to(#[trigger] entries[s], quick, v, k) && entries[s].len
                > k;
        let e = entries[s];
        let w = e.code as nat / pow2((e.len - k - 1) as nat);
        lemma_pow2_adds((e.len - k - 1) as nat, 1);
        lemma_pow2_pos((e.len - k - 1) as nat);
        lemma_div_denominator(e.code as int, pow2((e.len - k - 1) as nat) as int, 2);
        assert(w / 2 == v);
        assert(leads_to(entries[s], quick, w, k + 1));
        assert(tree.below(w, k + 1) is Some);
        assert(w == 2 * v || w == 2 * v + 1);
    }
    if node.child(0) is Some || node.child(1) is Some {
        let bit: nat = if node.child(0) is Some {
            0
        } else {
            1
        };
        let w = 2 * v + bit;
        assert(tree.below(w, k + 1) is Some);
        assert(path_exists(entries, quick, w, k + 1, entries.len()));
        let s = choose|s: int|
            0 <= s < entries.len() && leads_to(#[trigger] entries[s], quick, w, k + 1);
        let e = entries[s];
        lemma_pow2_adds((e.len - k - 1) as nat, 1);
        lemma_pow2_pos((e.len - k - 1) as nat);
        lemma_div_denominator(e.code as int, pow2((e.len - k - 1) as nat) as int, 2);
        assert(leads_to(entries[s], quick, v, k));
    }
}

/// Whether the numbers at the head of a code table can be: at most 256 symbols, of which the
/// lengths of `i0..i1` are stored.
pub open spec fn table_head_ok(size: int, i0: int, i1: int) -> bool {
    0 < size <= 256 && 0 <= i0 < size && i0 < i1 && i1 - i0 <= size
}

/// The outcome of reading a code table at `pos`: the codes, the words that follow the code
/// lengths, and the bit position at which the symbols begin.
pub open spec fn tree_read(all: Seq<u8>, pos: int, version: u32) -> std::result::Result<
    (Seq<CodeEntry>, Seq<u32>, nat),
    Fault,
> {
    match cursor::take_i32(all, pos) {
        Err(e) => Err(e),
        Ok(format) => if format < 2 {
            Err(Fault::UnsupportedFeature("Huffman version < 2"@))
        } else {
            match cursor::take_i32(all, pos + 4) {
                Err(e) => Err(e),
                Ok(size) => match cursor::take_i32(all, pos + 8) {
                    Err(e) => Err(e),
                    Ok(i0) => match cursor::take_i32(all, pos + 12) {
                        Err(e) => Err(e),
                        Ok(i1) => if !table_head_ok(size, i0, i1) {
                            Err(Fault::InvalidBlob("invalid Huffman table header"@))
                        } else {
                            lengths_read(all, pos + 16, version, size, i0, i1)
                        },
                    },
                },
            }
        },
    }
}

/// The part of [`tree_read`] behind the head.
pub open spec fn lengths_read(
    all: Seq<u8>,
    pos: int,
    version: u32,
    size: int,
    i0: int,
    i1: int,
) -> std::result::Result<(Seq<CodeEntry>, Seq<u32>, nat), Fault> {
    match stuffed::levels_decoded(all, pos, version, (i1 - i0) as nat, false) {
        Err(e) => Err(e),
        Ok((levels, next)) => if exists|i: int|
            0 <= i < levels.len() && #[trigger] level_number(levels, i) > 32 {
            Err(Fault::InvalidBlob("invalid Huffman code length"@))
        } else {
            let words = bitpack::words_of(all.subrange(next, all.len() as int));
            match codes_read(words, lengths_of(levels, size, i0, i1 - i0), size as nat) {
                Err(e) => Err(e),
                Ok((entries, p)) => Ok((entries, words, 32 * ((p + 31) / 32))),
            }
        },
    }
}

/// Where reading a code table at `pos` stops when it fails.
pub open spec fn tree_stop(all: Seq<u8>, pos: int, version: u32) -> int {
    match (
        cursor::take_i32(all, pos),
        cursor::take_i32(all, pos + 4),
        cursor::take_i32(all, pos + 8),
        cursor::take_i32(all, pos + 12),
    ) {
        (Err(_), _, _, _) => pos,
        (Ok(format), Err(_), _, _) => pos + 4,
        (Ok(format), Ok(_), Err(_), _) => if format < 2 {
            pos + 4
        } else {
            pos + 8
        },
        (Ok(format), Ok(_), Ok(_), Err(_)) => if format < 2 {
            pos + 4
        } else {
            pos + 12
        },
        (Ok(format), Ok(size), Ok(i0), Ok(i1)) => if format < 2 {
            pos + 4
        } else if !table_head_ok(size, i0, i1) {
            pos + 16
        } else {
            match stuffed::levels_decoded(all, pos + 16, version, (i1 - i0) as nat, false) {
                Err(_) => stuffed::levels_stop(all, pos + 16, (i1 - i0) as nat, false),
                Ok((levels, next)) => if exists|i: int|
                    0 <= i < levels.len() && #[trigger] level_number(levels, i) > 32 {
                    next
                } else {
                    all.len() as int
                },
            }
        },
    }
}

/// A table has at most 256 symbols.
pub proof fn lemma_tree_size(all: Seq<u8>, pos: int, version: u32)
    ensures
        tree_read(all, pos, version) matches Ok((entries, _, _)) ==> entries.len() <= 256,
{
    if let Ok(size) = cursor::take_i32(all, pos + 4) {
        if let Ok(i0) = cursor::take_i32(all, pos + 8) {
            if let Ok(i1) = cursor::take_i32(all, pos + 12) {
                if let Ok((levels, next)) = stuffed::levels_decoded(
                    all,
                    pos + 16,
                    version,
                    (i1 - i0) as nat,
                    false,
                ) {
                    let words = bitpack::words_of(all.subrange(next, all.len() as int));
                    lemma_codes_len(
                        words,
                        lengths_of(levels, size as int, i0 as int, i1 - i0),
                        size as nat,
                    );
                }
            }
        }
    }
}

/// A code table, the words behind it, and the word at which the symbols begin.
#[derive(Debug)]
pub struct HuffmanInfo {
    pub table: HuffmanTable,
    pub words: Vec<u32>,
    pub start: usize,
}

impl HuffmanInfo {
    /// The table is well formed and the symbols begin no further than just behind the words.
    pub open spec fn wf(self) -> bool {
        &&& self.table.wf()
        &&& self.words@.len() <= usize::MAX / 4 - 2
        &&& self.start <= self.words@.len() + 1
    }
}

proof fn lemma_levels_len(all: Seq<u8>, pos: int, version: u32, capacity: nat, based: bool)
    ensures
        match stuffed::levels_decoded(all, pos, version, capacity, based) {
            Ok((levels, next)) => levels.len() <= capacity,
            Err(_) => true,
        },
{
}

/// The stored code lengths, unless one exceeds 32 bits.
fn stored_lengths(levels: &Vec<Option<u32>>, count: usize) -> (r: Option<Vec<u8>>)
    requires
        levels@.len() <= count,
    ensures
        match r {
            Some(stored) => {
                &&& stored@.len() == count
                &&& forall|j: int|
                    0 <= j < count ==> #[trigger] level_number(levels@, j) == stored@[j]
                        && stored@[j] <= 32
            },
            None => exists|i: int|
                0 <= i < levels@.len() && #[trigger] level_number(levels@, i) > 32,
        },
{
    let mut stored: Vec<u8> = Vec::with_capacity(count);
    let mut i: usize = 0;
    while i < count
        invariant
            i <= count,
            levels@.len() <= count,
            stored@.len() == i,
            forall|j: int| 0 <= j < i ==> level_number(levels@, j) == #[trigger] stored@[j],
            forall|j: int| 0 <= j < i ==> #[trigger] stored@[j] <= 32,
        decreases count - i,
    {
        let n: u32 = if i < levels.len() {
            match levels[i] {
                Some(n) => n,
                None => 0,
            }
        } else {
            0
        };
        proof {
            assert(n == level_number(levels@, i as int));
        }
        if n > 32 {
            return None;
        }
        stored.push(n as u8);
        i += 1;
    }
    Some(stored)
}

/// Reads the codes of all symbols; gives them and the first word that has not been begun.
fn read_codes(words: &[u32], lens: &Vec<u8>) -> (r: Result<(Vec<CodeEntry>, usize)>)
    requires
        words@.len() <= usize::MAX / 4 - 2,
        forall|j: int| 0 <= j < lens@.len() ==> #[trigger] lens@[j] <= 32,
    ensures
        match r {
            Ok((entries, start)) => {
                &&& codes_read(words@, lens@, lens@.len()) matches Ok((read, p))
                &&& read == entries@
                &&& start == (p + 31) / 32
                &&& start <= words@.len() + 1
                &&& entries@.len() == lens@.len()
                &&& table_wf(entries@)
            },
            Err(e) => codes_read(words@, lens@, lens@.len()) == Err::<
                (Seq<CodeEntry>, nat),
                _,
            >(e@),
        },
{
    let mut entries: Vec<CodeEntry> = Vec::with_capacity(lens.len());
    let mut stream = HuffmanStream::new(words, 0);
    let mut j: usize = 0;
    while j < lens.len()
        invariant
            j <= lens@.len(),
            forall|t: int| 0 <= t < lens@.len() ==> #[trigger] lens@[t] <= 32,
            stream.wf(),
            stream.all() == words@,
            stream.at() <= 32 * words@.len() + 31,
            entries@.len() == j,
            table_wf(entries@),
            codes_read(words@, lens@, j as nat) == Ok::<_, Fault>((entries@, stream.at())),
        decreases lens@.len() - j,
    {
        let len: u8 = lens[j];
        proof {
            assert(lens@[j as int] <= 32);
            lemma_codes_read_err(words@, lens@, (j + 1) as nat, lens@.len());
        }
        let code: u32 = stream.peek_bits(len as u32)?;
        stream.advance(len as u32);
        entries.push(CodeEntry { len, code });
        j += 1;
    }
    let start: usize = stream.next_word();
    Ok((entries, start))
}

/// Reads a code table; everything behind it becomes words.
pub fn read_huffman_tree(cursor: &mut Cursor, version: u32) -> (r: Result<HuffmanInfo>)
    requires
        old(cursor).wf(),
        old(cursor).all().len() <= 0x7fff_ffff,
    ensures
        final(cursor).wf(),
        final(cursor).all() == old(cursor).all(),
        match r {
            Ok(info) => {
                &&& info.wf()
                &&& tree_read(old(cursor).all(), old(cursor).at(), version) == Ok::<_, Fault>(
                    (info.table.codes(), info.words@, 32 * info.start as nat),
                )
                &&& final(cursor).at() == final(cursor).all().len()
            },
            Err(e) => {
                &&& tree_read(old(cursor).all(), old(cursor).at(), version) == Err::<
                    (Seq<CodeEntry>, Seq<u32>, nat),
                    _,
                >(e@)
                &&& final(cursor).at() == tree_stop(old(cursor).all(), old(cursor).at(), version)
            },
        },
{
    let format: i32 = cursor.read_i32()?;
    if format < 2 {
        return Err(Error::UnsupportedFeature("Huffman version < 2"));
    }
    let size: i32 = cursor.read_i32()?;
    let i0: i32 = cursor.read_i32()?;
    let i1: i32 = cursor.read_i32()?;
    if size <= 0 || size > 256 || i0 < 0 || i0 >= size || i1 <= i0 || i1 - i0 > size {
        return Err(Error::invalid_blob("invalid Huffman table header"));
    }
    let count: usize = (i1 - i0) as usize;
    let symbols: usize = size as usize;
    let first: usize = i0 as usize;
    proof {
        lemma_levels_len(cursor.all(), cursor.at(), version, count as nat, false);
    }
    let levels: Vec<Option<u32>> = decode_bits(cursor, version, count, false)?;
    let stored: Vec<u8> = match stored_lengths(&levels, count) {
        Some(stored) => stored,
        None => {
            return Err(Error::invalid_blob("invalid Huffman code length"));
        },
    };
    let ghost lens_spec = lengths_of(levels@, size as int, i0 as int, count as int);
    let mut lens: Vec<u8> = Vec::with_capacity(symbols);
    let mut j: usize = 0;
    while j < symbols
        invariant
            j <= symbols,
            symbols <= 256,
            first < symbols,
            count <= symbols,
            stored@.len() == count,
            forall|t: int|
                0 <= t < count ==> #[trigger] level_number(levels@, t) == stored@[t] && stored@[t]
                    <= 32,
            lens_spec == lengths_of(levels@, symbols as int, first as int, count as int),
            lens@ =~= lens_spec.subrange(0, j as int),
            forall|t: int| 0 <= t < j ==> #[trigger] lens@[t] <= 32,
        decreases symbols - j,
    {
        let place: usize = if j >= first { j - first } else { j + symbols - first };
        proof {
            assert(place == length_place(symbols as int, first as int, j as int));
            if place < count {
                assert(level_number(levels@, place as int) == stored@[place as int]);
            }
        }
        lens.push(if place < count { stored[place] } else { 0 });
        j += 1;
    }
    proof {
        assert(lens@ =~= lens_spec);
        assert forall|i: int| 0 <= i < levels@.len() implies #[trigger] level_number(levels@, i)
            <= 32 by {}
    }
    let rest: &[u8] = cursor.read_bytes(cursor.remaining())?;
    let words: Vec<u32> = words_from_padded(rest);
    let (entries, start) = read_codes(words.as_slice(), &lens)?;
    Ok(HuffmanInfo { table: HuffmanTable::new(entries), words, start })
}

/// Once reading codes fails, reading more of them fails the same way.
proof fn lemma_codes_read_err(words: Seq<u32>, lens: Seq<u8>, count: nat, total: nat)
    requires
        count <= total,
    ensures
        codes_read(words, lens, count) matches Err(e) ==> codes_read(words, lens, total) == Err::<
            (Seq<CodeEntry>, nat),
            Fault,
        >(e),
    decreases total - count,
{
    if count < total {
        lemma_codes_read_err(words, lens, count + 1, total);
    }
}

} // verus!
