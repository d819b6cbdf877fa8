//! What is read back of an encoded band set.

use crate::allocation;
use crate::analysis;
use crate::band_encoder;
use crate::bands;
use crate::blob_laws;
use crate::blocks;
use crate::body_laws;
use crate::encoder;
use crate::encoder::Ready;
use crate::error::Fault;
use crate::lerc1;
use crate::lerc2;
use crate::lerc2_header;
use crate::mask;
use crate::materialize;
use crate::no_data;
use crate::options::EncodeOptions;
use crate::plan::Frame;
use crate::raster;
use crate::raster::{BandSetView, MaskView};
use crate::raster_laws;
use crate::reader;
use crate::sample::Sample;
use crate::size_laws;
use crate::tile_laws;
use crate::tiling_laws;
use crate::types;
use crate::types::{BandLayout, BlobFacts, Version};
use vstd::arithmetic::div_mod::*;
use vstd::prelude::*;

verus! {

/// Every band is prepared by itself.
pub proof fn lemma_bands_readied<'a, T: Sample>(
    view: BandSetView<'a, T>,
    entries: Option<Seq<u8>>,
    options: EncodeOptions,
    n: nat,
)
    requires
        band_encoder::bands_readied(view, entries, options, n) is Ok,
    ensures
        ({
            let found = band_encoder::bands_readied(view, entries, options, n)->Ok_0;
            &&& found.len() == n
            &&& forall|b: int|
                0 <= b < n ==> encoder::readied(
                    band_encoder::band_samples(view, b),
                    band_encoder::set_frame(view, options),
                    entries,
                    options,
                ) == Ok::<Ready<T>, Fault>(#[trigger] found[b])
        }),
    decreases n,
{
    if n > 0 {
        lemma_bands_readied(view, entries, options, (n - 1) as nat);
    }
}

/// Whether every band is stored in a way that keeps it.
pub open spec fn all_keep<'a, T: Sample>(
    view: BandSetView<'a, T>,
    options: EncodeOptions,
    found: Seq<Ready<T>>,
) -> bool {
    forall|b: int|
        0 <= b < found.len() ==> raster_laws::keeps(
            band_encoder::band_samples(view, b),
            band_encoder::set_frame(view, options),
            options,
            (#[trigger] found[b]).found,
        )
}

/// What is known of the request behind an encoded band set.
pub open spec fn set_requested<'a, 'b, T: Sample>(
    view: BandSetView<'a, T>,
    entries: Option<MaskView<'b>>,
    options: EncodeOptions,
) -> bool {
    &&& view.wf()
    &&& entries matches Some(m) ==> m.wf()
    &&& view.columns() > 0
    &&& view.rows() > 0
    &&& band_encoder::set_encoded(view, entries, options) is Ok
    &&& all_keep(view, options, prepared(view, entries, options))
}

/// The prepared bands of a band set.
pub open spec fn prepared<'a, 'b, T: Sample>(
    view: BandSetView<'a, T>,
    entries: Option<MaskView<'b>>,
    options: EncodeOptions,
) -> Seq<Ready<T>> {
    band_encoder::set_readied(view, entries, options)->Ok_0
}

/// What every band of an encoded band set fulfils.
proof fn lemma_band<'a, 'b, T: Sample>(
    view: BandSetView<'a, T>,
    entries: Option<MaskView<'b>>,
    options: EncodeOptions,
    b: int,
)
    requires
        set_requested(view, entries, options),
        0 <= b < view.bands(),
    ensures
        ({
            let frame = band_encoder::set_frame(view, options);
            let mask = encoder::mask_entries(entries);
            let found = prepared(view, entries, options);
            &&& found.len() == view.bands()
            &&& raster_laws::requested(
                band_encoder::band_samples(view, b),
                frame,
                mask,
                options,
            )
            &&& encoder::readied(band_encoder::band_samples(view, b), frame, mask, options) == Ok::<
                Ready<T>,
                Fault,
            >(found[b])
            &&& encoder::blob_fault(
                found[b],
                frame,
                band_encoder::band_payload(found, frame, b),
                (found.len() - 1 - b) as nat,
            ) is None
            &&& 4 <= found[b].version <= 6
            &&& !found[b].found.derived ==> found[b].found.mask == mask
        }),
{
    let frame = band_encoder::set_frame(view, options);
    let mask = encoder::mask_entries(entries);
    let found = prepared(view, entries, options);
    lemma_bands_readied(view, mask, options, view.bands() as nat);
    view.lemma_wf();
    assert(found[b] == found[b]);
    if band_encoder::bands_fault(found, frame, (b + 1) as nat) is Some {
        band_encoder::lemma_fault_stays(found, frame, (b + 1) as nat, found.len());
    }
    blob_laws::lemma_versions(found[b], frame);
}

/// The blobs of the bands from the `k`-th on.
pub open spec fn bands_from<T: Sample>(found: Seq<Ready<T>>, frame: Frame, k: nat) -> Seq<u8>
    decreases found.len() - k,
{
    if k >= found.len() {
        seq![]
    } else {
        encoder::blob_of(
            found[k as int],
            frame,
            band_encoder::band_payload(found, frame, k as int),
            (found.len() - 1 - k) as nat,
        ) + bands_from(found, frame, k + 1)
    }
}

/// The blobs of a band set are those of the first bands and of the others.
proof fn lemma_bands_split<T: Sample>(found: Seq<Ready<T>>, frame: Frame, k: nat)
    requires
        k <= found.len(),
    ensures
        band_encoder::bands_bytes(found, frame, found.len()) == band_encoder::bands_bytes(
            found,
            frame,
            k,
        ) + bands_from(found, frame, k),
    decreases found.len() - k,
{
    if k < found.len() {
        lemma_bands_split(found, frame, k + 1);
        let blob = encoder::blob_of(
            found[k as int],
            frame,
            band_encoder::band_payload(found, frame, k as int),
            (found.len() - 1 - k) as nat,
        );
        assert(band_encoder::bands_bytes(found, frame, k + 1) == band_encoder::bands_bytes(
            found,
            frame,
            k,
        ) + blob);
        assert(band_encoder::bands_bytes(found, frame, k) + blob + bands_from(found, frame, k + 1)
            =~= band_encoder::bands_bytes(found, frame, k) + (blob + bands_from(
            found,
            frame,
            k + 1,
        )));
    } else {
        assert(band_encoder::bands_bytes(found, frame, k) + bands_from(found, frame, k)
            =~= band_encoder::bands_bytes(found, frame, k));
    }
}

/// The bytes from a band on, and how far they reach.
proof fn lemma_band_place<T: Sample>(found: Seq<Ready<T>>, frame: Frame, k: nat)
    requires
        k < found.len(),
        forall|b: int| 0 <= b < found.len() ==> (#[trigger] found[b]).version >= 4,
    ensures
        ({
            let data = band_encoder::bands_bytes(found, frame, found.len());
            let offset = band_encoder::bands_bytes(found, frame, k).len();
            let payload = band_encoder::band_payload(found, frame, k as int);
            let size = encoder::blob_size(found[k as int], frame, payload);
            &&& bands::rest_of(data, offset) == encoder::blob_of(
                found[k as int],
                frame,
                payload,
                (found.len() - 1 - k) as nat,
            ) + bands_from(found, frame, k + 1)
            &&& offset + size == band_encoder::bands_bytes(found, frame, k + 1).len()
            &&& offset + size + bands_from(found, frame, k + 1).len() == data.len()
            &&& size > 0
        }),
{
    let data = band_encoder::bands_bytes(found, frame, found.len());
    let front = band_encoder::bands_bytes(found, frame, k);
    let payload = band_encoder::band_payload(found, frame, k as int);
    lemma_bands_split(found, frame, k);
    lemma_bands_split(found, frame, k + 1);
    assert(found[k as int].version >= 4);
    encoder::lemma_blob_len(found[k as int], frame, payload, (found.len() - 1 - k) as nat);
    assert(data.subrange(front.len() as int, data.len() as int) =~= bands_from(found, frame, k));
}

/// A mask that is not stored with a band is handed down by the band before it.
proof fn lemma_payload_fits<'a, 'b, T: Sample>(
    view: BandSetView<'a, T>,
    entries: Option<MaskView<'b>>,
    options: EncodeOptions,
    k: nat,
    before: Option<Seq<u8>>,
)
    requires
        set_requested(view, entries, options),
        k < view.bands(),
        k > 0 ==> body_laws::masks_agree(
            before,
            prepared(view, entries, options)[k - 1].found.mask,
            view.pixels(),
        ) && blocks::mask_fits(before, view.pixels()),
    ensures
        ({
            let frame = band_encoder::set_frame(view, options);
            let found = prepared(view, entries, options);
            blob_laws::payload_fits(
                found[k as int].found,
                frame.pixels(),
                band_encoder::band_payload(found, frame, k as int),
                before,
            )
        }),
{
    let frame = band_encoder::set_frame(view, options);
    let found = prepared(view, entries, options);
    let ready = found[k as int];
    let pixels = frame.pixels();
    lemma_band(view, entries, options, k as int);
    if k == 0 || band_encoder::some_derived(found) || ready.found.derived {
    } else if ready.found.valid == 0 || ready.found.valid == pixels {
    } else {
        lemma_band(view, entries, options, k - 1);
        assert(!found[k - 1].found.derived);
        assert(ready.found.mask == found[k - 1].found.mask);
        encoder::lemma_plannable(
            band_encoder::band_samples(view, k as int),
            frame,
            encoder::mask_entries(entries),
            options,
        );
        if before is None {
            body_laws::lemma_runs_agree(before, ready.found.mask, 0, pixels, pixels);
            body_laws::lemma_unmasked(pixels);
        }
        assert(blob_laws::handed_down(before, ready.found.mask, pixels));
    }
}

/// A written blob carries the signature of its format.
pub proof fn lemma_signature<T: Sample>(
    ready: Ready<T>,
    frame: Frame,
    payload: Seq<u8>,
    remaining: nat,
    behind: Seq<u8>,
)
    ensures
        ({
            let data = encoder::blob_of(ready, frame, payload, remaining) + behind;
            lerc2_header::has_lerc2_magic(data) && !lerc1::has_lerc1_magic(data)
        }),
{
    let data = encoder::blob_of(ready, frame, payload, remaining) + behind;
    let magic = lerc2_header::magic_lerc2();
    assert(data.subrange(0, 6) =~= magic);
    assert(data.subrange(0, 6)[0] == data[0]);
    if lerc1::has_lerc1_magic(data) {
        assert(data.subrange(0, 9)[0] == data[0]);
    }
}

/// Whether the metadata of a band is that of its raster.
pub open spec fn facts_kept<T: Sample>(facts: BlobFacts, frame: Frame) -> bool {
    &&& facts.version is Lerc2
    &&& facts.data_type == T::kind()
    &&& facts.width == frame.width
    &&& facts.height == frame.height
    &&& facts.depth == frame.depth
}

/// Whether a decoded band is the one that was encoded.
#[verifier::opaque]
pub open spec fn band_returned<'a, 'b, T: Sample>(
    view: BandSetView<'a, T>,
    entries: Option<MaskView<'b>>,
    options: EncodeOptions,
    b: int,
    facts: BlobFacts,
    out: Seq<T>,
    out_mask: Option<Seq<u8>>,
) -> bool {
    let frame = band_encoder::set_frame(view, options);
    &&& facts_kept::<T>(facts, frame)
    &&& raster_laws::returned(
        band_encoder::band_samples(view, b),
        frame,
        encoder::mask_entries(entries),
        options,
        out,
        out_mask,
    )
}

/// One step of decoding.
proof fn lemma_typed_step<T: Sample>(
    data: Seq<u8>,
    offset: nat,
    before: Option<Seq<u8>>,
    facts: Seq<BlobFacts>,
    outs: Seq<Seq<T>>,
    part: (BlobFacts, Seq<T>, Option<Seq<u8>>),
    next: nat,
)
    requires
        offset < data.len(),
        lerc2_header::has_lerc2_magic(bands::rest_of(data, offset)),
        !lerc1::has_lerc1_magic(bands::rest_of(data, offset)),
        lerc2::decoded::<T>(bands::rest_of(data, offset), before, false) == Ok::<
            (BlobFacts, Seq<T>, Option<Seq<u8>>),
            Fault,
        >(part),
        bands::advanced(offset, part.0.blob_size as nat, data.len()) == Ok::<nat, Fault>(next),
    ensures
        bands::typed_bands::<T>(data, offset, None, before, facts, outs) == bands::typed_bands::<T>(
            data,
            next,
            None,
            part.2,
            facts.push(part.0),
            outs.push(part.1),
        ),
{
    let slice = bands::rest_of(data, offset);
    assert(reader::first_decoded::<T>(slice, None, before, false) == lerc2::decoded::<T>(
        slice,
        before,
        false,
    ));
}

/// Decoding a band gives it back and goes on behind it.
#[verifier::rlimit(40)]
proof fn lemma_band_back<'a, 'b, T: Sample>(
    view: BandSetView<'a, T>,
    entries: Option<MaskView<'b>>,
    options: EncodeOptions,
    k: nat,
    before: Option<Seq<u8>>,
    facts: Seq<BlobFacts>,
    outs: Seq<Seq<T>>,
) -> (part: (BlobFacts, Seq<T>, Option<Seq<u8>>))
    requires
        set_requested(view, entries, options),
        view.pixels() * view.layers() as nat * T::kind().width()
            <= allocation::MAX_DECODED_ALLOCATION_BYTES,
        band_encoder::set_encoded(view, entries, options)->Ok_0.len() <= usize::MAX,
        k < view.bands(),
        k > 0 ==> body_laws::masks_agree(
            before,
            prepared(view, entries, options)[k - 1].found.mask,
            view.pixels(),
        ) && blocks::mask_fits(before, view.pixels()),
        forall|b: int|
            0 <= b < view.bands() ==> (#[trigger] prepared(view, entries, options)[b]).version >= 4,
        prepared(view, entries, options).len() == view.bands(),
    ensures
        ({
            let frame = band_encoder::set_frame(view, options);
            let found = prepared(view, entries, options);
            let data = band_encoder::set_encoded(view, entries, options)->Ok_0;
            bands::typed_bands::<T>(
                data,
                band_encoder::bands_bytes(found, frame, k).len(),
                None,
                before,
                facts,
                outs,
            ) == bands::typed_bands::<T>(
                data,
                band_encoder::bands_bytes(found, frame, k + 1).len(),
                None,
                part.2,
                facts.push(part.0),
                outs.push(part.1),
            )
        }),
        band_returned(view, entries, options, k as int, part.0, part.1, part.2),
        body_laws::masks_agree(
            part.2,
            prepared(view, entries, options)[k as int].found.mask,
            view.pixels(),
        ),
        blocks::mask_fits(part.2, view.pixels()),
{
    reveal(band_returned);
    let frame = band_encoder::set_frame(view, options);
    let mask = encoder::mask_entries(entries);
    let found = prepared(view, entries, options);
    let data = band_encoder::set_encoded(view, entries, options)->Ok_0;
    let payload = band_encoder::band_payload(found, frame, k as int);
    let remaining = (found.len() - 1 - k) as nat;
    let behind = bands_from(found, frame, k + 1);
    lemma_band(view, entries, options, k as int);
    lemma_band_place(found, frame, k);
    lemma_payload_fits(view, entries, options, k, before);
    lemma_signature(found[k as int], frame, payload, remaining, behind);
    let part = raster_laws::lemma_written_returned(
        band_encoder::band_samples(view, k as int),
        frame,
        mask,
        options,
        found[k as int],
        payload,
        remaining,
        before,
        false,
        behind,
    );
    lemma_typed_step(
        data,
        band_encoder::bands_bytes(found, frame, k).len(),
        before,
        facts,
        outs,
        part,
        band_encoder::bands_bytes(found, frame, k + 1).len(),
    );
    part
}

/// How many bands are prepared, and with which versions.
proof fn lemma_band_versions<'a, 'b, T: Sample>(
    view: BandSetView<'a, T>,
    entries: Option<MaskView<'b>>,
    options: EncodeOptions,
)
    requires
        set_requested(view, entries, options),
    ensures
        prepared(view, entries, options).len() == view.bands(),
        forall|b: int|
            0 <= b < view.bands() ==> (#[trigger] prepared(view, entries, options)[b]).version >= 4,
{
    let found = prepared(view, entries, options);
    lemma_bands_readied(view, encoder::mask_entries(entries), options, view.bands() as nat);
    assert forall|b: int| 0 <= b < view.bands() implies (#[trigger] found[b]).version >= 4 by {
        lemma_band(view, entries, options, b);
    }
}

/// Behind the last band there is nothing more to decode.
proof fn lemma_bands_done<'a, 'b, T: Sample>(
    view: BandSetView<'a, T>,
    entries: Option<MaskView<'b>>,
    options: EncodeOptions,
    before: Option<Seq<u8>>,
    facts: Seq<BlobFacts>,
    outs: Seq<Seq<T>>,
)
    requires
        set_requested(view, entries, options),
    ensures
        ({
            let frame = band_encoder::set_frame(view, options);
            let found = prepared(view, entries, options);
            let data = band_encoder::set_encoded(view, entries, options)->Ok_0;
            bands::typed_bands::<T>(
                data,
                band_encoder::bands_bytes(found, frame, view.bands() as nat).len(),
                None,
                before,
                facts,
                outs,
            ) == Ok::<(Seq<BlobFacts>, Seq<Seq<T>>), Fault>((facts, outs))
        }),
{
    lemma_band_versions(view, entries, options);
}

/// A band more has come back.
proof fn lemma_returned_more<'a, 'b, T: Sample>(
    view: BandSetView<'a, T>,
    entries: Option<MaskView<'b>>,
    options: EncodeOptions,
    parts: (Seq<BlobFacts>, Seq<Seq<T>>, Seq<Option<Seq<u8>>>),
    part: (BlobFacts, Seq<T>, Option<Seq<u8>>),
)
    requires
        parts.0.len() == parts.1.len(),
        parts.0.len() == parts.2.len(),
        forall|b: int|
            0 <= b < parts.0.len() ==> band_returned(
                view,
                entries,
                options,
                b,
                #[trigger] parts.0[b],
                parts.1[b],
                parts.2[b],
            ),
        band_returned(view, entries, options, parts.0.len() as int, part.0, part.1, part.2),
    ensures
        forall|b: int|
            0 <= b <= parts.0.len() ==> band_returned(
                view,
                entries,
                options,
                b,
                #[trigger] parts.0.push(part.0)[b],
                parts.1.push(part.1)[b],
                parts.2.push(part.2)[b],
            ),
{
    assert forall|b: int| 0 <= b <= parts.0.len() implies band_returned(
        view,
        entries,
        options,
        b,
        #[trigger] parts.0.push(part.0)[b],
        parts.1.push(part.1)[b],
        parts.2.push(part.2)[b],
    ) by {
        if b < parts.0.len() {
            assert(parts.0.push(part.0)[b] == parts.0[b]);
        }
    }
}

/// Decoding the bands from the `k`-th on gives them back.
#[verifier::rlimit(60)]
#[verifier::spinoff_prover]
proof fn lemma_bands_returned<'a, 'b, T: Sample>(
    view: BandSetView<'a, T>,
    entries: Option<MaskView<'b>>,
    options: EncodeOptions,
    k: nat,
    before: Option<Seq<u8>>,
    facts: Seq<BlobFacts>,
    outs: Seq<Seq<T>>,
    masks: Seq<Option<Seq<u8>>>,
) -> (r: (Seq<BlobFacts>, Seq<Seq<T>>, Seq<Option<Seq<u8>>>))
    requires
        set_requested(view, entries, options),
        view.pixels() * view.layers() as nat * T::kind().width()
            <= allocation::MAX_DECODED_ALLOCATION_BYTES,
        band_encoder::set_encoded(view, entries, options)->Ok_0.len() <= usize::MAX,
        k <= view.bands(),
        facts.len() == k,
        outs.len() == k,
        masks.len() == k,
        k == 0 ==> before is None,
        k > 0 ==> body_laws::masks_agree(
            before,
            prepared(view, entries, options)[k - 1].found.mask,
            view.pixels(),
        ) && blocks::mask_fits(before, view.pixels()),
        forall|b: int|
            0 <= b < k ==> band_returned(
                view,
                entries,
                options,
                b,
                #[trigger] facts[b],
                outs[b],
                masks[b],
            ),
    ensures
        ({
            let frame = band_encoder::set_frame(view, options);
            let found = prepared(view, entries, options);
            let data = band_encoder::set_encoded(view, entries, options)->Ok_0;
            bands::typed_bands::<T>(
                data,
                band_encoder::bands_bytes(found, frame, k).len(),
                None,
                before,
                facts,
                outs,
            ) == Ok::<(Seq<BlobFacts>, Seq<Seq<T>>), Fault>((r.0, r.1))
        }),
        r.0.len() == view.bands(),
        r.1.len() == view.bands(),
        r.2.len() == view.bands(),
        forall|b: int|
            0 <= b < view.bands() ==> band_returned(
                view,
                entries,
                options,
                b,
                #[trigger] r.0[b],
                r.1[b],
                r.2[b],
            ),
    decreases view.bands() - k,
{
    if k == view.bands() {
        lemma_bands_done(view, entries, options, before, facts, outs);
        (facts, outs, masks)
    } else {
        lemma_band_versions(view, entries, options);
        let part = lemma_band_back(view, entries, options, k, before, facts, outs);
        lemma_returned_more(view, entries, options, (facts, outs, masks), part);
        lemma_bands_returned(
            view,
            entries,
            options,
            k + 1,
            part.2,
            facts.push(part.0),
            outs.push(part.1),
            masks.push(part.2),
        )
    }
}

/// A sample of a decoded band, wherever it is put.
proof fn lemma_sample_back<'a, 'b, T: Sample>(
    view: BandSetView<'a, T>,
    entries: Option<MaskView<'b>>,
    options: EncodeOptions,
    layout: BandLayout,
    r: SetBack<T>,
    outs: Seq<Seq<T>>,
    b: int,
    p: int,
    d: int,
)
    requires
        set_requested(view, entries, options),
        0 <= b < view.bands(),
        0 <= p < view.pixels(),
        0 <= d < view.layers(),
        outs.len() == view.bands(),
        r.samples == bands::arranged(outs, layout, view.pixels(), view.layers() as nat),
        band_returned(view, entries, options, b, r.facts[b], outs[b], r.masks[b]),
    ensures
        sample_returned(view, entries, options, layout, r, b, p, d),
{
    reveal(band_returned);
    let pixels = view.pixels();
    let depth = view.layers() as nat;
    let count = view.bands() as nat;
    let v = p * depth + d;
    lemma_band(view, entries, options, b);
    raster::lemma_sample_index(p as nat, depth, d as nat, pixels);
    lemma_fundamental_div_mod_converse(v, depth as int, p, d);
    materialize::law_slot_owned(layout, pixels, depth, count, b as nat, v as nat);
    assert(tiling_laws::cell(outs[b], depth as int, p, d) == outs[b][v]);
    assert(tiling_laws::cell(band_encoder::band_samples(view, b), depth as int, p, d) == view.at(
        b,
        p,
        d,
    ));
    let x = raster::band_index(layout, pixels, depth, count, b as nat, p as nat, d as nat);
    assert(r.samples[x as int] == outs[b][v]);
    assert(blocks::is_valid(r.masks[b], p) == blocks::is_valid(r.masks[b], p));
}

/// The metadata of a decoded band is that of its raster.
proof fn lemma_facts_back<'a, 'b, T: Sample>(
    view: BandSetView<'a, T>,
    entries: Option<MaskView<'b>>,
    options: EncodeOptions,
    b: int,
    facts: BlobFacts,
    out: Seq<T>,
    out_mask: Option<Seq<u8>>,
)
    requires
        band_returned(view, entries, options, b, facts, out, out_mask),
    ensures
        facts_kept::<T>(facts, band_encoder::set_frame(view, options)),
{
    reveal(band_returned);
}

/// Whether a band says how many follow it, where its version has room for that.
pub open spec fn numbered(facts: BlobFacts, left: int) -> bool {
    facts.version matches Version::Lerc2(version) && facts.remaining_band_count == if version >= 6 {
        left
    } else {
        0
    }
}

/// Parsing a band finds its metadata.
#[verifier::rlimit(40)]
proof fn lemma_band_parsed<'a, 'b, T: Sample>(
    view: BandSetView<'a, T>,
    entries: Option<MaskView<'b>>,
    options: EncodeOptions,
    k: nat,
) -> (facts: BlobFacts)
    requires
        set_requested(view, entries, options),
        band_encoder::set_encoded(view, entries, options)->Ok_0.len() <= usize::MAX,
        k < view.bands(),
        forall|b: int|
            0 <= b < view.bands() ==> (#[trigger] prepared(view, entries, options)[b]).version >= 4,
        prepared(view, entries, options).len() == view.bands(),
    ensures
        ({
            let frame = band_encoder::set_frame(view, options);
            let found = prepared(view, entries, options);
            let data = band_encoder::set_encoded(view, entries, options)->Ok_0;
            let offset = band_encoder::bands_bytes(found, frame, k).len();
            &&& bands::step_parsed(bands::rest_of(data, offset), None) == Ok::<
                (BlobFacts, Option<Seq<u8>>),
                Fault,
            >((facts, None))
            &&& facts_kept::<T>(facts, frame)
            &&& numbered(facts, view.bands() - 1 - k)
            &&& facts.blob_size == encoder::blob_size(
                found[k as int],
                frame,
                band_encoder::band_payload(found, frame, k as int),
            )
        }),
{
    let frame = band_encoder::set_frame(view, options);
    let mask = encoder::mask_entries(entries);
    let found = prepared(view, entries, options);
    let ready = found[k as int];
    let payload = band_encoder::band_payload(found, frame, k as int);
    let remaining = (found.len() - 1 - k) as nat;
    let behind = bands_from(found, frame, k + 1);
    lemma_band(view, entries, options, k as int);
    lemma_band_place(found, frame, k);
    lemma_signature(ready, frame, payload, remaining, behind);
    raster_laws::lemma_sound(band_encoder::band_samples(view, k as int), frame, mask, options);
    blob_laws::lemma_versions(ready, frame);
    let encoding = blob_laws::mask_kept(ready.found, frame.pixels(), payload);
    blob_laws::law_header_roundtrip(ready, frame, payload, remaining, encoding, behind);
    blob_laws::header_of(ready, frame, payload, remaining, encoding).facts()
}

/// One step of scanning.
proof fn lemma_scan_step(
    data: Seq<u8>,
    offset: nat,
    facts: Seq<BlobFacts>,
    part: BlobFacts,
    next: nat,
)
    requires
        offset < data.len(),
        bands::step_parsed(bands::rest_of(data, offset), None) == Ok::<
            (BlobFacts, Option<Seq<u8>>),
            Fault,
        >((part, None)),
        bands::advanced(offset, part.blob_size as nat, data.len()) == Ok::<nat, Fault>(next),
    ensures
        bands::blobs_scanned(data, offset, None, facts) == bands::blobs_scanned(
            data,
            next,
            None,
            facts.push(part),
        ),
{
}

/// Scanning a band finds its metadata and goes on behind it.
proof fn lemma_band_scanned<'a, 'b, T: Sample>(
    view: BandSetView<'a, T>,
    entries: Option<MaskView<'b>>,
    options: EncodeOptions,
    k: nat,
    facts: Seq<BlobFacts>,
) -> (part: BlobFacts)
    requires
        set_requested(view, entries, options),
        band_encoder::set_encoded(view, entries, options)->Ok_0.len() <= usize::MAX,
        k < view.bands(),
        forall|b: int|
            0 <= b < view.bands() ==> (#[trigger] prepared(view, entries, options)[b]).version >= 4,
        prepared(view, entries, options).len() == view.bands(),
    ensures
        ({
            let frame = band_encoder::set_frame(view, options);
            let found = prepared(view, entries, options);
            let data = band_encoder::set_encoded(view, entries, options)->Ok_0;
            bands::blobs_scanned(
                data,
                band_encoder::bands_bytes(found, frame, k).len(),
                None,
                facts,
            ) == bands::blobs_scanned(
                data,
                band_encoder::bands_bytes(found, frame, k + 1).len(),
                None,
                facts.push(part),
            )
        }),
        facts_kept::<T>(part, band_encoder::set_frame(view, options)),
        numbered(part, view.bands() - 1 - k),
{
    let frame = band_encoder::set_frame(view, options);
    let found = prepared(view, entries, options);
    let data = band_encoder::set_encoded(view, entries, options)->Ok_0;
    let part = lemma_band_parsed(view, entries, options, k);
    lemma_band_place(found, frame, k);
    lemma_scan_step(
        data,
        band_encoder::bands_bytes(found, frame, k).len(),
        facts,
        part,
        band_encoder::bands_bytes(found, frame, k + 1).len(),
    );
    part
}

/// Scanning the bands from the `k`-th on finds their metadata.
proof fn lemma_bands_scanned<'a, 'b, T: Sample>(
    view: BandSetView<'a, T>,
    entries: Option<MaskView<'b>>,
    options: EncodeOptions,
    k: nat,
    facts: Seq<BlobFacts>,
) -> (r: Seq<BlobFacts>)
    requires
        set_requested(view, entries, options),
        band_encoder::set_encoded(view, entries, options)->Ok_0.len() <= usize::MAX,
        k <= view.bands(),
        facts.len() == k,
        forall|b: int|
            0 <= b < k ==> facts_kept::<T>(
                #[trigger] facts[b],
                band_encoder::set_frame(view, options),
            ) && numbered(facts[b], view.bands() - 1 - b),
    ensures
        ({
            let frame = band_encoder::set_frame(view, options);
            let found = prepared(view, entries, options);
            let data = band_encoder::set_encoded(view, entries, options)->Ok_0;
            bands::blobs_scanned(
                data,
                band_encoder::bands_bytes(found, frame, k).len(),
                None,
                facts,
            ) == Ok::<Seq<BlobFacts>, Fault>(r)
        }),
        r.len() == view.bands(),
        forall|b: int|
            0 <= b < view.bands() ==> facts_kept::<T>(
                #[trigger] r[b],
                band_encoder::set_frame(view, options),
            ) && numbered(r[b], view.bands() - 1 - b),
    decreases view.bands() - k,
{
    let frame = band_encoder::set_frame(view, options);
    let mask = encoder::mask_entries(entries);
    let found = prepared(view, entries, options);
    let data = band_encoder::set_encoded(view, entries, options)->Ok_0;
    let offset = band_encoder::bands_bytes(found, frame, k).len();
    lemma_bands_readied(view, mask, options, view.bands() as nat);
    assert(found.len() == view.bands());
    assert forall|b: int| 0 <= b < found.len() implies (#[trigger] found[b]).version >= 4 by {
        lemma_band(view, entries, options, b);
    }
    if k == view.bands() {
        facts
    } else {
        let part = lemma_band_scanned(view, entries, options, k, facts);
        let next = facts.push(part);
        assert forall|b: int| 0 <= b < k + 1 implies facts_kept::<T>(#[trigger] next[b], frame)
            && numbered(next[b], view.bands() - 1 - b) by {
            if b < k {
                assert(next[b] == facts[b]);
            }
        }
        lemma_bands_scanned(view, entries, options, k + 1, next)
    }
}

/// Scanning an encoded band set finds its bands, and each says how many follow it, where its
/// version has room for that.
pub proof fn law_bands_numbered<'a, 'b, T: Sample>(
    view: BandSetView<'a, T>,
    entries: Option<MaskView<'b>>,
    options: EncodeOptions,
) -> (r: Seq<BlobFacts>)
    requires
        set_requested(view, entries, options),
    ensures
        bands::blobs_scanned(
            band_encoder::set_encoded(view, entries, options)->Ok_0,
            0,
            None,
            seq![],
        ) == Ok::<Seq<BlobFacts>, Fault>(r),
        r.len() == view.bands(),
        forall|b: int|
            0 <= b < view.bands() ==> #[trigger] numbered(r[b], view.bands() - 1 - b),
{
    let frame = band_encoder::set_frame(view, options);
    let found = prepared(view, entries, options);
    view.lemma_wf();
    lemma_set_size(view, entries, options);
    assert(band_encoder::bands_bytes(found, frame, 0).len() == 0);
    let none = Seq::<BlobFacts>::empty();
    lemma_bands_scanned(view, entries, options, 0, none)
}

/// Bands of the type asked for are accepted.
proof fn lemma_types_accepted<T: Sample>(facts: Seq<BlobFacts>, i: nat)
    requires
        forall|b: int| 0 <= b < facts.len() ==> (#[trigger] facts[b]).data_type == T::kind(),
    ensures
        bands::type_fault::<T>(facts, i) is None,
    decreases facts.len() - i,
{
    if i < facts.len() {
        lemma_types_accepted::<T>(facts, i + 1);
    }
}

/// A decoded band set: its metadata, its samples and, band by band, which pixels are valid.
pub struct SetBack<T> {
    pub facts: Seq<BlobFacts>,
    pub samples: Seq<T>,
    pub masks: Seq<Option<Seq<u8>>>,
}

/// Decoding an encoded band set gives every band back, in whichever layout: the same valid
/// pixels, except those whose samples are all the sentinel, and every one of their samples
/// within the requested error.
#[verifier::rlimit(60)]
pub proof fn law_set_roundtrip<'a, 'b, T: Sample>(
    view: BandSetView<'a, T>,
    entries: Option<MaskView<'b>>,
    options: EncodeOptions,
    layout: BandLayout,
) -> (r: SetBack<T>)
    requires
        set_requested(view, entries, options),
        view.samples().len() * T::kind().width() <= allocation::MAX_DECODED_ALLOCATION_BYTES,
    ensures
        bands::vec_decoded::<T>(
            band_encoder::set_encoded(view, entries, options)->Ok_0,
            layout,
            None,
        ) == Ok::<(Seq<BlobFacts>, Seq<T>), Fault>((r.facts, r.samples)),
        r.facts.len() == view.bands(),
        r.masks.len() == view.bands(),
        r.samples.len() == view.samples().len(),
        forall|b: int|
            0 <= b < view.bands() ==> facts_kept::<T>(
                #[trigger] r.facts[b],
                band_encoder::set_frame(view, options),
            ),
        forall|b: int, p: int, d: int|
            0 <= b < view.bands() && 0 <= p < view.pixels() && 0 <= d < view.layers()
                ==> sample_returned(view, entries, options, layout, r, b, p, d),
{
    let frame = band_encoder::set_frame(view, options);
    let mask = encoder::mask_entries(entries);
    let found = prepared(view, entries, options);
    let data = band_encoder::set_encoded(view, entries, options)->Ok_0;
    let pixels = view.pixels();
    let depth = view.layers() as nat;
    let count = view.bands() as nat;
    view.lemma_wf();
    lemma_set_size(view, entries, options);
    let width = T::kind().width();
    assert(pixels * depth <= (pixels * depth) * count && (pixels * depth) * width <= ((pixels
        * depth) * count) * width) by (nonlinear_arith)
        requires
            count >= 1,
            width >= 1,
            pixels * depth >= 0,
    ;
    let none = Seq::<BlobFacts>::empty();
    let scanned = lemma_bands_scanned(view, entries, options, 0, none);
    assert(band_encoder::bands_bytes(found, frame, 0).len() == 0);
    assert(bands::blobs_scanned(data, 0, None, seq![]) == Ok::<Seq<BlobFacts>, Fault>(scanned));
    assert forall|b: int| 0 <= b < scanned.len() implies (#[trigger] scanned[b]).data_type
        == T::kind() && types::same_shape(scanned[b], scanned[0]) by {
        assert(facts_kept::<T>(scanned[0], frame));
        assert(facts_kept::<T>(scanned[b], frame));
    }
    lemma_types_accepted::<T>(scanned, 0);
    assert(facts_kept::<T>(scanned[0], frame));
    assert(types::band_set_values(scanned) == (pixels * depth) * count) by (nonlinear_arith)
        requires
            types::band_set_values(scanned) == pixels * count * depth,
    ;
    let (facts, outs, masks) = lemma_bands_returned(
        view,
        entries,
        options,
        0,
        None,
        none,
        Seq::<Seq<T>>::empty(),
        Seq::<Option<Seq<u8>>>::empty(),
    );
    lemma_facts_back(view, entries, options, 0, facts[0], outs[0], masks[0]);
    let samples = bands::arranged(outs, layout, pixels, depth);
    let r = SetBack { facts, samples, masks };
    assert forall|b: int| 0 <= b < view.bands() implies facts_kept::<T>(
        #[trigger] r.facts[b],
        frame,
    ) by {
        lemma_facts_back(view, entries, options, b, facts[b], outs[b], masks[b]);
    }
    assert forall|b: int, p: int, d: int|
        0 <= b < view.bands() && 0 <= p < view.pixels() && 0 <= d < view.layers() implies sample_returned(
        view,
        entries,
        options,
        layout,
        r,
        b,
        p,
        d,
    ) by {
        assert(facts[b] == r.facts[b]);
        lemma_sample_back(view, entries, options, layout, r, outs, b, p, d);
    }
    r
}

/// Whether a sample of a decoded band set is the one that was encoded.
pub open spec fn sample_returned<'a, 'b, T: Sample>(
    view: BandSetView<'a, T>,
    entries: Option<MaskView<'b>>,
    options: EncodeOptions,
    layout: BandLayout,
    r: SetBack<T>,
    b: int,
    p: int,
    d: int,
) -> bool {
    let x = raster::band_index(
        layout,
        view.pixels(),
        view.layers() as nat,
        view.bands() as nat,
        b as nat,
        p as nat,
        d as nat,
    ) as int;
    let kept = blocks::is_valid(encoder::mask_entries(entries), p) && (
    options.no_data_value matches Some(v) ==> !analysis::all_no_data(
        band_encoder::band_samples(view, b),
        view.layers() as nat,
        p,
        no_data::through::<T>(v),
    ));
    &&& blocks::is_valid(r.masks[b], p) == kept
    &&& kept ==> tile_laws::sample_kept(
        r.samples[x],
        view.at(b, p, d),
        options.max_z_error,
        raster_laws::raster_reach(prepared(view, entries, options)[b].found),
    )
    &&& kept ==> (options.no_data_value matches Some(v) && view.at(b, p, d).promoted().same(
        no_data::through::<T>(v),
    ) ==> r.samples[x].promoted().same(no_data::through::<T>(options.no_data_value->0)))
    &&& !kept ==> r.samples[x] == T::zero()
}

/// An encoded band set is no larger than its bound.
pub proof fn law_set_bound_holds<'a, 'b, T: Sample>(
    view: BandSetView<'a, T>,
    entries: Option<MaskView<'b>>,
    options: EncodeOptions,
)
    requires
        view.wf(),
        entries matches Some(m) ==> m.wf(),
        band_encoder::set_encoded(view, entries, options) is Ok,
    ensures
        band_encoder::set_bound(view, entries, options) is Ok,
        band_encoder::set_encoded(view, entries, options)->Ok_0.len()
            <= band_encoder::set_bound(view, entries, options)->Ok_0,
        band_encoder::set_bound(view, entries, options)->Ok_0 <= usize::MAX,
{
    let frame = band_encoder::set_frame(view, options);
    let mask = encoder::mask_entries(entries);
    let found = prepared(view, entries, options);
    view.lemma_wf();
    lemma_bands_readied(view, mask, options, view.bands() as nat);
    assert forall|b: int| 0 <= b < found.len() implies (#[trigger] found[b]).version >= 4 by {
        blob_laws::lemma_versions(found[b], frame);
    }
    band_encoder::lemma_bytes_len(found, frame, found.len());
    lemma_sizes_bounded(view, entries, options, found.len());
}

proof fn lemma_sizes_bounded<'a, 'b, T: Sample>(
    view: BandSetView<'a, T>,
    entries: Option<MaskView<'b>>,
    options: EncodeOptions,
    n: nat,
)
    requires
        view.wf(),
        entries matches Some(m) ==> m.wf(),
        band_encoder::set_readied(view, entries, options) is Ok,
        n <= view.bands(),
        band_encoder::bounds_sum(
            prepared(view, entries, options),
            band_encoder::set_frame(view, options),
            n,
        ) is Ok,
    ensures
        ({
            let frame = band_encoder::set_frame(view, options);
            let found = prepared(view, entries, options);
            &&& band_encoder::sizes_sum(found, frame, n) <= band_encoder::bounds_sum(
                found,
                frame,
                n,
            )->Ok_0
            &&& band_encoder::bounds_sum(found, frame, n)->Ok_0 <= usize::MAX
        }),
    decreases n,
{
    let frame = band_encoder::set_frame(view, options);
    let mask = encoder::mask_entries(entries);
    let found = prepared(view, entries, options);
    view.lemma_wf();
    lemma_bands_readied(view, mask, options, view.bands() as nat);
    if n > 0 {
        let b = n - 1;
        lemma_sizes_bounded(view, entries, options, b as nat);
        assert(encoder::readied(band_encoder::band_samples(view, b), frame, mask, options) == Ok::<
            Ready<T>,
            Fault,
        >(found[b]));
        encoder::lemma_plannable(band_encoder::band_samples(view, b), frame, mask, options);
        size_laws::lemma_blob_bounded(
            found[b],
            frame,
            band_encoder::band_payload(found, frame, b),
        );
    }
}

/// An encoded band set fits in memory.
proof fn lemma_set_size<'a, 'b, T: Sample>(
    view: BandSetView<'a, T>,
    entries: Option<MaskView<'b>>,
    options: EncodeOptions,
)
    requires
        set_requested(view, entries, options),
    ensures
        band_encoder::set_encoded(view, entries, options)->Ok_0.len() <= usize::MAX,
{
    law_set_bound_holds(view, entries, options);
}

/// A buffer as large as the upper bound is large enough to encode a band set into, and both
/// ways of encoding write the same bytes.
pub proof fn law_set_bound_suffices<'a, 'b, T: Sample>(
    view: BandSetView<'a, T>,
    entries: Option<MaskView<'b>>,
    options: EncodeOptions,
    available: nat,
)
    requires
        view.wf(),
        entries matches Some(m) ==> m.wf(),
        band_encoder::set_encoded(view, entries, options) is Ok,
        band_encoder::set_bound(view, entries, options)->Ok_0 <= available <= usize::MAX,
    ensures
        band_encoder::set_encoded_into(view, entries, options, available)
            == band_encoder::set_encoded(view, entries, options),
{
    let frame = band_encoder::set_frame(view, options);
    let mask = encoder::mask_entries(entries);
    let found = prepared(view, entries, options);
    law_set_bound_holds(view, entries, options);
    lemma_bands_readied(view, mask, options, view.bands() as nat);
    assert forall|b: int| 0 <= b < found.len() implies (#[trigger] found[b]).version >= 4 by {
        blob_laws::lemma_versions(found[b], frame);
    }
    band_encoder::lemma_bytes_len(found, frame, found.len());
    assert(!band_encoder::long_mask(found, frame)) by {
        assert forall|b: int| 0 <= b < found.len() implies (#[trigger] band_encoder::band_payload(
            found,
            frame,
            b,
        )).len() <= u32::MAX by {
            if band_encoder::bands_fault(found, frame, (b + 1) as nat) is Some {
                band_encoder::lemma_fault_stays(found, frame, (b + 1) as nat, found.len());
            }
        }
    }
}

} // verus!
