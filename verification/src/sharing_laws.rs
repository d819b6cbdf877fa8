//! What the bands of a file of the Lerc1 format share: a band without a mask of its own has that
//! of the band before it.

use crate::bands;
use crate::blocks;
use crate::bytes;
use crate::error::Fault;
use crate::lerc1;
use crate::lerc1_laws;
use crate::lerc1_laws::{Layout, Validity};
use crate::reader;
use crate::sample::Sample;
use crate::types::BlobFacts;
use vstd::prelude::*;

verus! {

/// The blobs from the `k`-th on, one behind the other.
pub open spec fn blobs_from(layouts: Seq<Layout>, k: nat) -> Seq<u8>
    decreases layouts.len() - k,
{
    if k >= layouts.len() {
        seq![]
    } else {
        lerc1_laws::blob_bytes(layouts[k as int]) + blobs_from(layouts, k + 1)
    }
}

/// Whether the `k`-th blob can be read: it is well laid out, and where it has no mask of its
/// own, it cannot be taken to have one, and the mask is that of the blob before it.
pub open spec fn member_ok(layouts: Seq<Layout>, k: nat) -> bool {
    let b = layouts[k as int];
    &&& lerc1_laws::layout_ok(b)
    &&& lerc1_laws::sheet_of(b).finite(false)
    &&& lerc1_laws::sheet_of(b).finite(true)
    &&& lerc1::buffer_fault(lerc1_laws::sheet_of(b).grid) is None
    &&& b.validity matches Validity::Shared(entries) ==> {
        &&& k > 0
        &&& lerc1_laws::entries_of(layouts[k - 1]) == Some(entries)
        &&& lerc1::source_parsed(blobs_from(layouts, k), None) is Err
    }
}

/// Whether samples are those of a blob.
pub open spec fn band_is<T: Sample>(samples: Seq<T>, b: Layout) -> bool {
    let sheet = lerc1_laws::sheet_of(b);
    &&& samples.len() == b.width * b.height
    &&& forall|k: int, i: int|
        0 <= k < sheet.pieces.len() && 0 <= i < sheet.listed(k).len()
            ==> samples[#[trigger] sheet.listed(k)[i]] == T::demoted(
            lerc1_laws::piece_value(sheet.pieces[k], i, b.max_z_error, b.max_value),
        )
    &&& forall|p: int|
        0 <= p < samples.len() && !blocks::is_valid(lerc1_laws::entries_of(b), p)
            ==> #[trigger] samples[p] == T::zero()
}

/// The mask that the `k`-th blob is given.
spec fn given(layouts: Seq<Layout>, k: nat) -> Option<Seq<u8>> {
    if k == 0 {
        None
    } else {
        lerc1_laws::entries_of(layouts[k - 1])
    }
}

proof fn lemma_member(layouts: Seq<Layout>, k: nat)
    requires
        k < layouts.len(),
        member_ok(layouts, k),
        blobs_from(layouts, k).len() <= usize::MAX,
    ensures
        ({
            let all = blobs_from(layouts, k);
            let b = layouts[k as int];
            &&& bytes::stands_at(all, 0, lerc1_laws::blob_bytes(b))
            &&& lerc1::has_lerc1_magic(all)
            &&& 0 < lerc1_laws::facts_of(b).blob_size == lerc1_laws::blob_bytes(b).len()
            &&& all.len() == lerc1_laws::blob_bytes(b).len() + blobs_from(layouts, k + 1).len()
            &&& all.subrange(lerc1_laws::blob_bytes(b).len() as int, all.len() as int)
                == blobs_from(layouts, k + 1)
        }),
{
    let all = blobs_from(layouts, k);
    let b = layouts[k as int];
    let bytes = lerc1_laws::blob_bytes(b);
    let rest = blobs_from(layouts, k + 1);
    assert(all.subrange(0, bytes.len() as int) =~= bytes);
    assert(all.subrange(bytes.len() as int, all.len() as int) =~= rest);
    lerc1_laws::lemma_head_len(b);
    assert(all.subrange(0, 9) =~= lerc1::magic_lerc1());
}

/// Reading the `k`-th blob.
#[verifier::rlimit(40)]
#[verifier::spinoff_prover]
proof fn lemma_member_read<T: Sample>(layouts: Seq<Layout>, k: nat)
    requires
        k < layouts.len(),
        member_ok(layouts, k),
        blobs_from(layouts, k).len() <= usize::MAX,
    ensures
        ({
            let all = blobs_from(layouts, k);
            let b = layouts[k as int];
            &&& lerc1::has_lerc1_magic(all)
            &&& reader::first_masked(all, given(layouts, k), None) == Ok::<
                (BlobFacts, Option<Seq<u8>>),
                Fault,
            >((lerc1_laws::facts_of(b), lerc1_laws::entries_of(b)))
            &&& reader::first_decoded::<T>(all, given(layouts, k), None, false) matches Ok(
                (facts, samples, entries),
            ) && facts.blob_size == lerc1_laws::facts_of(b).blob_size && band_is(samples, b)
                && entries == lerc1_laws::entries_of(b)
        }),
{
    lemma_member(layouts, k);
    let all = blobs_from(layouts, k);
    let b = layouts[k as int];
    lerc1_laws::law_lerc1_inspected(all, b, given(layouts, k), false);
    lerc1_laws::law_lerc1_decoded::<T>(all, b, given(layouts, k), false);
}

/// What follows the `k`-th blob in a file.
proof fn lemma_member_left(layouts: Seq<Layout>, k: nat, blob: Seq<u8>, offset: nat, next: nat)
    requires
        k < layouts.len(),
        member_ok(layouts, k),
        blob.len() <= usize::MAX,
        offset <= blob.len(),
        bands::rest_of(blob, offset) == blobs_from(layouts, k),
        next == offset + lerc1_laws::facts_of(layouts[k as int]).blob_size as nat,
    ensures
        offset < blob.len(),
        bands::advanced(
            offset,
            lerc1_laws::facts_of(layouts[k as int]).blob_size as nat,
            blob.len(),
        ) == Ok::<nat, Fault>(next),
        next <= blob.len(),
        bands::rest_of(blob, next) == blobs_from(layouts, k + 1),
{
    lemma_member(layouts, k);
    let slice = bands::rest_of(blob, offset);
    assert(bands::rest_of(blob, next) =~= slice.subrange(next - offset, slice.len() as int));
}

proof fn lemma_masks_back(
    layouts: Seq<Layout>,
    k: nat,
    blob: Seq<u8>,
    offset: nat,
    found: Seq<BlobFacts>,
    masks: Seq<Option<Seq<u8>>>,
)
    requires
        k <= layouts.len(),
        forall|i: nat| i < layouts.len() ==> #[trigger] member_ok(layouts, i),
        blob.len() <= usize::MAX,
        offset <= blob.len(),
        bands::rest_of(blob, offset) == blobs_from(layouts, k),
        found == Seq::new(k, |i: int| lerc1_laws::facts_of(layouts[i])),
        masks == Seq::new(k, |i: int| lerc1_laws::entries_of(layouts[i])),
    ensures
        bands::masks_read(blob, offset, given(layouts, k), None, found, masks) == Ok::<
            (Seq<BlobFacts>, Seq<Option<Seq<u8>>>),
            Fault,
        >(
            (
                Seq::new(layouts.len(), |i: int| lerc1_laws::facts_of(layouts[i])),
                Seq::new(layouts.len(), |i: int| lerc1_laws::entries_of(layouts[i])),
            ),
        ),
    decreases layouts.len() - k,
{
    if k < layouts.len() {
        let b = layouts[k as int];
        let slice = bands::rest_of(blob, offset);
        assert(member_ok(layouts, k));
        let next = offset + lerc1_laws::facts_of(b).blob_size as nat;
        lemma_member_left(layouts, k, blob, offset, next);
        lemma_member_read::<u8>(layouts, k);
        let more = found.push(lerc1_laws::facts_of(b));
        let others = masks.push(lerc1_laws::entries_of(b));
        assert(more =~= Seq::new(k + 1, |i: int| lerc1_laws::facts_of(layouts[i])));
        assert(others =~= Seq::new(k + 1, |i: int| lerc1_laws::entries_of(layouts[i])));
        lemma_masks_back(layouts, k + 1, blob, next, more, others);
    }
}

/// Reading the masks of a file gives for every blob its mask, which is the one before where it
/// has none of its own, and its metadata.
pub proof fn law_masks_shared(layouts: Seq<Layout>)
    requires
        forall|i: nat| i < layouts.len() ==> #[trigger] member_ok(layouts, i),
        blobs_from(layouts, 0).len() <= usize::MAX,
    ensures
        bands::masks_read(blobs_from(layouts, 0), 0, None, None, seq![], seq![]) == Ok::<
            (Seq<BlobFacts>, Seq<Option<Seq<u8>>>),
            Fault,
        >(
            (
                Seq::new(layouts.len(), |i: int| lerc1_laws::facts_of(layouts[i])),
                Seq::new(layouts.len(), |i: int| lerc1_laws::entries_of(layouts[i])),
            ),
        ),
{
    let blob = blobs_from(layouts, 0);
    let found: Seq<BlobFacts> = seq![];
    let masks: Seq<Option<Seq<u8>>> = seq![];
    assert(bands::rest_of(blob, 0) =~= blob);
    assert(found =~= Seq::new(0, |i: int| lerc1_laws::facts_of(layouts[i])));
    assert(masks =~= Seq::new(0, |i: int| lerc1_laws::entries_of(layouts[i])));
    lemma_masks_back(layouts, 0, blob, 0, found, masks);
}

proof fn lemma_bands_back<T: Sample>(
    layouts: Seq<Layout>,
    k: nat,
    blob: Seq<u8>,
    offset: nat,
    found: Seq<BlobFacts>,
    read: Seq<Seq<T>>,
)
    requires
        k <= layouts.len(),
        forall|i: nat| i < layouts.len() ==> #[trigger] member_ok(layouts, i),
        blob.len() <= usize::MAX,
        offset <= blob.len(),
        bands::rest_of(blob, offset) == blobs_from(layouts, k),
        read.len() == k,
        forall|i: int| 0 <= i < k ==> band_is(#[trigger] read[i], layouts[i]),
    ensures
        bands::typed_bands::<T>(blob, offset, given(layouts, k), None, found, read) matches Ok(
            (_, out),
        ) && out.len() == layouts.len() && forall|i: int|
            0 <= i < layouts.len() ==> band_is(#[trigger] out[i], layouts[i]),
    decreases layouts.len() - k,
{
    if k < layouts.len() {
        let b = layouts[k as int];
        let slice = bands::rest_of(blob, offset);
        assert(member_ok(layouts, k));
        let next = offset + lerc1_laws::facts_of(b).blob_size as nat;
        lemma_member_left(layouts, k, blob, offset, next);
        lemma_member_read::<T>(layouts, k);
        let (facts, samples, mask) = reader::first_decoded::<T>(
            slice,
            given(layouts, k),
            None,
            false,
        )->Ok_0;
        lemma_bands_back(layouts, k + 1, blob, next, found.push(facts), read.push(samples));
    }
}

/// Decoding a file gives for every blob its samples, in the order of the blobs.
pub proof fn law_bands_in_order<T: Sample>(layouts: Seq<Layout>)
    requires
        forall|i: nat| i < layouts.len() ==> #[trigger] member_ok(layouts, i),
        blobs_from(layouts, 0).len() <= usize::MAX,
    ensures
        bands::typed_bands::<T>(blobs_from(layouts, 0), 0, None, None, seq![], seq![]) matches Ok(
            (_, out),
        ) && out.len() == layouts.len() && forall|i: int|
            0 <= i < layouts.len() ==> band_is(#[trigger] out[i], layouts[i]),
{
    let blob = blobs_from(layouts, 0);
    assert(bands::rest_of(blob, 0) =~= blob);
    lemma_bands_back::<T>(layouts, 0, blob, 0, seq![], seq![]);
}

} // verus!
