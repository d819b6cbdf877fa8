//! What the ways to decode a band set have in common.

use crate::bands;
use crate::bands::BandElement;
use crate::error::Fault;
use crate::materialize;
use crate::raster;
use crate::reader;
use crate::sample::Sample;
use crate::types;
use crate::types::{BandLayout, BlobFacts, PixelSeq};
use vstd::prelude::*;

verus! {

/// Decoding a band set into a buffer gives what decoding it to a vector gives, where the buffer
/// has a place for every sample of every band; a buffer of another length is refused.
pub proof fn law_slice_agrees<T: Sample>(
    blob: Seq<u8>,
    layout: BandLayout,
    mask: Option<Seq<u8>>,
    len: nat,
)
    requires
        bands::set_scanned::<T>(blob, mask) is Ok,
    ensures
        ({
            let found = bands::set_scanned::<T>(blob, mask)->Ok_0;
            let depth: int = if found[0].depth == 0 {
                1
            } else {
                found[0].depth as int
            };
            let wanted = found[0].width * found[0].height * found.len() * depth;
            &&& len == wanted ==> (bands::vec_decoded::<T>(blob, layout, mask) is Ok
                ==> bands::slice_decoded::<T>(blob, layout, mask, len) == bands::vec_decoded::<T>(
                blob,
                layout,
                mask,
            ))
            &&& len != wanted ==> bands::slice_decoded::<T>(blob, layout, mask, len) matches Err(
                Fault::InvalidArgument(_),
            )
        }),
{
}

proof fn lemma_all_overlaid<T>(
    out: Seq<T>,
    all: Seq<Seq<T>>,
    layout: BandLayout,
    pixels: nat,
    depth: nat,
)
    requires
        all.len() > 0,
        depth > 0,
        out.len() == raster::band_total(pixels, depth, all.len()),
    ensures
        bands::overlaid(out, all, all.len(), layout, pixels, depth) == bands::arranged(
            all,
            layout,
            pixels,
            depth,
        ),
{
    let a = bands::overlaid(out, all, all.len(), layout, pixels, depth);
    let b = bands::arranged(all, layout, pixels, depth);
    assert forall|x: int| 0 <= x < a.len() implies a[x] == b[x] by {
        materialize::law_slot_covers(layout, pixels, depth, all.len(), x as nat);
    }
    assert(a =~= b);
}

/// Copying a decoded band set into a buffer of its size writes what moving it to a vector gives,
/// whatever the buffer held.
pub proof fn law_copy_agrees<T: BandElement>(
    infos: Seq<BlobFacts>,
    pixels: Seq<PixelSeq>,
    layout: BandLayout,
    out: Seq<T>,
)
    requires
        pixels.len() == infos.len(),
        infos.len() > 1,
        out.len() == types::band_set_values(infos),
    ensures
        bands::set_copied::<T>(infos, pixels, layout, out) == bands::set_materialized::<T>(
            infos,
            pixels,
            layout,
        ),
{
    let p = infos[0].pixels();
    let depth = materialize::lanes(infos[0].depth as nat);
    let n = infos.len();
    assert(p * n * depth == (p * depth) * n) by (nonlinear_arith);
    lemma_all_overlaid(out, bands::accepted_all::<T>(pixels), layout, p, depth);
}

/// The strict functions give what the others give, of an input that is one blob and nothing
/// behind it, and refuse every other.
pub proof fn law_strict_info(
    outcome: std::result::Result<BlobFacts, Fault>,
    len: nat,
    strict_api: Seq<char>,
    permissive_api: Seq<char>,
)
    ensures
        reader::strict_info(outcome, len, strict_api, permissive_api) matches Ok(facts) ==> outcome
            == Ok::<BlobFacts, Fault>(facts) && facts.blob_size == len,
        outcome matches Ok(facts) ==> facts.blob_size == len ==> reader::strict_info(
            outcome,
            len,
            strict_api,
            permissive_api,
        ) == outcome,
        outcome is Err ==> reader::strict_info(outcome, len, strict_api, permissive_api) == outcome,
{
}

} // verus!
