//! What the ways of reading a blob have in common.

use crate::bands;
use crate::error::Fault;
use crate::lerc1;
use crate::reader;
use crate::sample::Sample;
use crate::types::{BlobFacts, PixelSeq};
use vstd::prelude::*;

verus! {

/// Whether inspected metadata is that of the decoded blob. The value range of a Lerc1 blob comes
/// from decoding alone.
pub open spec fn same_facts(blob: Seq<u8>, inspected: BlobFacts, decoded: BlobFacts) -> bool {
    if lerc1::has_lerc1_magic(blob) {
        lerc1::ranged(inspected, decoded.z_min, decoded.z_max) == decoded
    } else {
        inspected == decoded
    }
}

/// Inspecting a blob that can be decoded gives the metadata and the mask that decoding gives.
pub proof fn law_inspection_agrees<T: Sample>(
    blob: Seq<u8>,
    lerc1_mask: Option<Seq<u8>>,
    lerc2_mask: Option<Seq<u8>>,
    limited: bool,
)
    requires
        reader::first_decoded::<T>(blob, lerc1_mask, lerc2_mask, limited) is Ok,
    ensures
        ({
            let (facts, _, mask) = reader::first_decoded::<T>(
                blob,
                lerc1_mask,
                lerc2_mask,
                limited,
            )->Ok_0;
            &&& reader::first_masked(blob, lerc1_mask, lerc2_mask) matches Ok((found, entries))
                && same_facts(blob, found, facts) && entries == mask
            &&& lerc1_mask is None && lerc2_mask is None ==> (reader::first_inspected(
                blob,
                false,
            ) matches Ok(found) && same_facts(blob, found, facts))
        }),
{
}

/// A Lerc1 blob that is read without a shared mask is read the same way with one.
proof fn lemma_mask_unused(blob: Seq<u8>, shared: Option<Seq<u8>>)
    requires
        lerc1::parsed(blob, None) is Ok,
    ensures
        lerc1::parsed(blob, shared) == lerc1::parsed(blob, None),
{
}

/// What decoding in the native type found was decoded as samples of some type.
proof fn lemma_native_parts(
    blob: Seq<u8>,
    lerc1_mask: Option<Seq<u8>>,
    lerc2_mask: Option<Seq<u8>>,
)
    requires
        reader::native_decoded(blob, lerc1_mask, lerc2_mask) is Ok,
    ensures
        ({
            let (facts, _, mask) = reader::native_decoded(blob, lerc1_mask, lerc2_mask)->Ok_0;
            reader::first_masked(blob, lerc1_mask, lerc2_mask) matches Ok((found, entries))
                && same_facts(blob, found, facts) && entries == mask
        }),
{
}

proof fn lemma_counted(
    blob: Seq<u8>,
    offset: nat,
    shared: Option<Seq<u8>>,
    lerc1_mask: Option<Seq<u8>>,
    lerc2_mask: Option<Seq<u8>>,
    found: Seq<BlobFacts>,
    pixels: Seq<PixelSeq>,
    masks: Seq<Option<Seq<u8>>>,
)
    requires
        lerc1_mask is None || lerc1_mask == shared,
        bands::native_bands(blob, offset, lerc1_mask, lerc2_mask, found, pixels, masks) is Ok,
    ensures
        ({
            let (all, _, _) = bands::native_bands(
                blob,
                offset,
                lerc1_mask,
                lerc2_mask,
                found,
                pixels,
                masks,
            )->Ok_0;
            bands::blobs_counted(blob, offset, shared, found.len()) == Ok::<nat, Fault>(all.len())
        }),
    decreases blob.len() - offset,
{
    if offset < blob.len() {
        let slice = bands::rest_of(blob, offset);
        lemma_native_parts(slice, lerc1_mask, lerc2_mask);
        let (facts, samples, mask) = reader::native_decoded(slice, lerc1_mask, lerc2_mask)->Ok_0;
        let next = bands::advanced(offset, facts.blob_size as nat, blob.len())->Ok_0;
        let left = if lerc1::has_lerc1_magic(slice) {
            if lerc1_mask is None {
                lemma_mask_unused(slice, shared);
            }
            mask
        } else {
            shared
        };
        lemma_counted(
            blob,
            next,
            left,
            bands::left_to_lerc1(slice, mask),
            bands::left_to_lerc2(slice, mask),
            found.push(facts),
            pixels.push(samples),
            masks.push(mask),
        );
    }
}

/// Counting the blobs of a band set gives as many as decoding it.
pub proof fn law_count_agrees(blob: Seq<u8>)
    requires
        bands::native_bands(blob, 0, None, None, seq![], seq![], seq![]) is Ok,
    ensures
        ({
            let (all, _, _) = bands::native_bands(
                blob,
                0,
                None,
                None,
                seq![],
                seq![],
                seq![],
            )->Ok_0;
            bands::blobs_counted(blob, 0, None, 0) == Ok::<nat, Fault>(all.len())
        }),
{
    lemma_counted(blob, 0, None, None, None, seq![], seq![], seq![]);
}

} // verus!
