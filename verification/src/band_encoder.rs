//! Encoding band sets as concatenated Lerc2 blobs.

use crate::blocks;
use crate::encoder;
use crate::encoder::{
    bound_blob, check_blob, check_request, copy_to_front, entries_of, header_len, mask_bytes,
    prepare_band, push_blob, total, write_rest, PreparedBand, Ready,
};
use crate::error::{Error, Fault, Result};
use crate::options::EncodeOptions;
use crate::plan::Frame;
use crate::raster::{BandSetView, MaskView};
use crate::sample::Sample;
use vstd::prelude::*;

verus! {

/// The shape of every band of a set, divided into blocks.
pub open spec fn set_frame<'a, T: Sample>(view: BandSetView<'a, T>, options: EncodeOptions) -> Frame {
    Frame {
        width: view.columns(),
        height: view.rows(),
        depth: view.layers(),
        micro_block_size: options.micro_block_size,
    }
}

/// The samples of one band, pixel by pixel.
pub open spec fn band_samples<'a, T: Sample>(view: BandSetView<'a, T>, band: int) -> Seq<T> {
    Seq::new(
        view.pixels() * view.layers() as nat,
        |x: int| view.at(band, x / view.layers() as int, x % view.layers() as int),
    )
}

/// The outcome of preparing the first `n` bands.
pub open spec fn bands_readied<'a, T: Sample>(
    view: BandSetView<'a, T>,
    entries: Option<Seq<u8>>,
    options: EncodeOptions,
    n: nat,
) -> std::result::Result<Seq<Ready<T>>, Fault>
    decreases n,
{
    if n == 0 {
        Ok(seq![])
    } else {
        match bands_readied(view, entries, options, (n - 1) as nat) {
            Err(e) => Err(e),
            Ok(before) => match encoder::readied(
                band_samples(view, n - 1),
                set_frame(view, options),
                entries,
                options,
            ) {
                Err(e) => Err(e),
                Ok(ready) => Ok(before.push(ready)),
            },
        }
    }
}

/// The outcome of preparing a band set.
pub open spec fn set_readied<'a, 'b, T: Sample>(
    view: BandSetView<'a, T>,
    entries: Option<MaskView<'b>>,
    options: EncodeOptions,
) -> std::result::Result<Seq<Ready<T>>, Fault> {
    match encoder::request_fault(view.columns(), view.rows(), entries, options) {
        Some(e) => Err(e),
        None => bands_readied(
            view,
            encoder::mask_entries(entries),
            options,
            view.bands() as nat,
        ),
    }
}

/// Whether the sentinel gave some band a mask of its own.
pub open spec fn some_derived<T>(bands: Seq<Ready<T>>) -> bool {
    exists|i: int| 0 <= i < bands.len() && (#[trigger] bands[i]).found.derived
}

/// The mask bytes of a band: the first band stores the shared mask, all bands store theirs
/// once they differ.
pub open spec fn band_payload<T: Sample>(bands: Seq<Ready<T>>, frame: Frame, i: int) -> Seq<u8> {
    encoder::payload_of(bands[i], frame, i == 0 || some_derived(bands))
}

/// The outcome of bounding the size of the first `n` bands.
pub open spec fn bounds_sum<T: Sample>(bands: Seq<Ready<T>>, frame: Frame, n: nat) -> std::result::Result<
    nat,
    Fault,
>
    decreases n,
{
    if n == 0 {
        Ok(0)
    } else {
        match bounds_sum(bands, frame, (n - 1) as nat) {
            Err(e) => Err(e),
            Ok(before) => match encoder::bound_of(
                bands[n - 1],
                frame,
                band_payload(bands, frame, n - 1),
            ) {
                Err(e) => Err(e),
                Ok(bound) => if before + bound > usize::MAX {
                    Err(Fault::SizeOverflow("encoded band set size"@))
                } else {
                    Ok(before + bound)
                },
            },
        }
    }
}

/// Whether the mask of some band is too long to be stored.
pub open spec fn long_mask<T: Sample>(bands: Seq<Ready<T>>, frame: Frame) -> bool {
    exists|i: int|
        0 <= i < bands.len() && (#[trigger] band_payload(bands, frame, i)).len() > u32::MAX
}

/// The bytes that the first `n` bands take.
pub open spec fn sizes_sum<T: Sample>(bands: Seq<Ready<T>>, frame: Frame, n: nat) -> nat
    decreases n,
{
    if n == 0 {
        0
    } else {
        sizes_sum(bands, frame, (n - 1) as nat) + encoder::blob_size(
            bands[n - 1],
            frame,
            band_payload(bands, frame, n - 1),
        )
    }
}

/// Why one of the first `n` bands cannot be written, if one cannot.
pub open spec fn bands_fault<T: Sample>(bands: Seq<Ready<T>>, frame: Frame, n: nat) -> Option<Fault>
    decreases n,
{
    if n == 0 {
        None
    } else {
        match bands_fault(bands, frame, (n - 1) as nat) {
            Some(e) => Some(e),
            None => encoder::blob_fault(
                bands[n - 1],
                frame,
                band_payload(bands, frame, n - 1),
                (bands.len() - n) as nat,
            ),
        }
    }
}

/// The blobs of the first `n` bands; each says how many follow it.
pub open spec fn bands_bytes<T: Sample>(bands: Seq<Ready<T>>, frame: Frame, n: nat) -> Seq<u8>
    decreases n,
{
    if n == 0 {
        seq![]
    } else {
        bands_bytes(bands, frame, (n - 1) as nat) + encoder::blob_of(
            bands[n - 1],
            frame,
            band_payload(bands, frame, n - 1),
            (bands.len() - n) as nat,
        )
    }
}

/// The outcome of bounding the size of an encoded band set.
pub open spec fn set_bound<'a, 'b, T: Sample>(
    view: BandSetView<'a, T>,
    entries: Option<MaskView<'b>>,
    options: EncodeOptions,
) -> std::result::Result<nat, Fault> {
    match set_readied(view, entries, options) {
        Err(e) => Err(e),
        Ok(bands) => bounds_sum(bands, set_frame(view, options), bands.len()),
    }
}

/// The outcome of encoding a band set.
pub open spec fn set_encoded<'a, 'b, T: Sample>(
    view: BandSetView<'a, T>,
    entries: Option<MaskView<'b>>,
    options: EncodeOptions,
) -> std::result::Result<Seq<u8>, Fault> {
    let frame = set_frame(view, options);
    match set_readied(view, entries, options) {
        Err(e) => Err(e),
        Ok(bands) => match bounds_sum(bands, frame, bands.len()) {
            Err(e) => Err(e),
            Ok(_) => match bands_fault(bands, frame, bands.len()) {
                Some(e) => Err(e),
                None => Ok(bands_bytes(bands, frame, bands.len())),
            },
        },
    }
}

/// The outcome of encoding a band set into a buffer of `available` bytes.
pub open spec fn set_encoded_into<'a, 'b, T: Sample>(
    view: BandSetView<'a, T>,
    entries: Option<MaskView<'b>>,
    options: EncodeOptions,
    available: nat,
) -> std::result::Result<Seq<u8>, Fault> {
    let frame = set_frame(view, options);
    match set_readied(view, entries, options) {
        Err(e) => Err(e),
        Ok(bands) => {
            let size = sizes_sum(bands, frame, bands.len());
            if long_mask(bands, frame) {
                Err(Fault::SizeOverflow("mask payload length as u32"@))
            } else if size > usize::MAX {
                Err(Fault::SizeOverflow("encoded band set size"@))
            } else if size > available {
                Err(Fault::OutputTooSmall { needed: size, available })
            } else {
                match bands_fault(bands, frame, bands.len()) {
                    Some(e) => Err(e),
                    None => Ok(bands_bytes(bands, frame, bands.len())),
                }
            }
        },
    }
}

/// Collects the samples of one band.
fn collect_band<T: Sample>(view: BandSetView<T>, band: usize) -> (r: Vec<T>)
    requires
        view.wf(),
        band < view.bands(),
    ensures
        r@ == band_samples(view, band as int),
{
    proof {
        view.lemma_wf();
    }
    let depth: usize = view.depth() as usize;
    let pixels: usize = view.width() as usize * view.height() as usize;
    let len: usize = pixels * depth;
    let ghost all = band_samples(view, band as int);
    let mut out: Vec<T> = Vec::new();
    let mut x: usize = 0;
    while x < len
        invariant
            x <= len,
            len == pixels * depth,
            depth > 0,
            pixels == view.pixels(),
            depth == view.layers(),
            view.wf(),
            band < view.bands(),
            all == band_samples(view, band as int),
            all.len() == len,
            out@ =~= all.subrange(0, x as int),
        decreases len - x,
    {
        proof {
            vstd::arithmetic::div_mod::lemma_multiply_divide_lt(
                x as int,
                depth as int,
                pixels as int,
            );
            vstd::arithmetic::mul::lemma_mul_is_commutative(pixels as int, depth as int);
        }
        out.push(view.sample(band, x / depth, x % depth));
        x += 1;
    }
    assert(out@ =~= all);
    out
}

/// The prepared bands.
pub open spec fn readies<T: Sample>(bands: Seq<PreparedBand<T>>) -> Seq<Ready<T>> {
    Seq::new(bands.len(), |i: int| bands[i].ready())
}

spec fn all_fit<T: Sample>(bands: Seq<PreparedBand<T>>, frame: Frame) -> bool {
    forall|i: int| 0 <= i < bands.len() ==> (#[trigger] bands[i]).wf(frame)
}

proof fn lemma_readied_stops<'a, T: Sample>(
    view: BandSetView<'a, T>,
    entries: Option<Seq<u8>>,
    options: EncodeOptions,
    n: nat,
    m: nat,
)
    requires
        n <= m,
        bands_readied(view, entries, options, n) is Err,
    ensures
        bands_readied(view, entries, options, m) == bands_readied(view, entries, options, n),
    decreases m - n,
{
    if n < m {
        lemma_readied_stops(view, entries, options, n, (m - 1) as nat);
    }
}

/// Prepares every band.
fn prepare_band_set<T: Sample>(
    view: BandSetView<T>,
    entries: Option<MaskView>,
    options: EncodeOptions,
) -> (r: Result<(Vec<PreparedBand<T>>, Frame)>)
    requires
        view.wf(),
        entries matches Some(m) ==> m.wf(),
    ensures
        match r {
            Ok((bands, frame)) => {
                &&& frame == set_frame(view, options)
                &&& frame.wf()
                &&& all_fit(bands@, frame)
                &&& set_readied(view, entries, options) == Ok::<_, Fault>(readies(bands@))
            },
            Err(e) => set_readied(view, entries, options) == Err::<Seq<Ready<T>>, _>(e@),
        },
{
    check_request(view.width(), view.height(), entries, options)?;
    proof {
        view.lemma_wf();
    }
    let frame = Frame {
        width: view.width(),
        height: view.height(),
        depth: view.depth(),
        micro_block_size: options.micro_block_size,
    };
    let count: usize = view.band_count();
    let ghost given = encoder::mask_entries(entries);
    let mut bands: Vec<PreparedBand<T>> = Vec::new();
    assert(readies(bands@) =~= seq![]);
    let mut i: usize = 0;
    while i < count
        invariant
            i <= count,
            count == view.bands(),
            view.wf(),
            frame == set_frame(view, options),
            frame.wf(),
            options.max_z_error.finite(),
            given == encoder::mask_entries(entries),
            blocks::mask_fits(given, frame.pixels()),
            encoder::request_fault(view.columns(), view.rows(), entries, options) is None,
            bands@.len() == i,
            all_fit(bands@, frame),
            bands_readied(view, given, options, i as nat) == Ok::<_, Fault>(readies(bands@)),
        decreases count - i,
    {
        let samples: Vec<T> = collect_band(view, i);
        let ghost before = readies(bands@);
        match prepare_band(samples, frame, entries_of(entries), options) {
            Ok(band) => {
                bands.push(band);
                assert(readies(bands@) =~= before.push(band.ready()));
            },
            Err(e) => {
                proof {
                    lemma_readied_stops(view, given, options, (i + 1) as nat, count as nat);
                }
                return Err(e);
            },
        }
        i += 1;
    }
    Ok((bands, frame))
}

/// Whether the sentinel gave some band a mask of its own.
fn is_some_derived<T: Sample>(bands: &Vec<PreparedBand<T>>) -> (r: bool)
    ensures
        r == some_derived(readies(bands@)),
{
    let mut i: usize = 0;
    while i < bands.len()
        invariant
            i <= bands@.len(),
            forall|j: int| 0 <= j < i ==> !(#[trigger] readies(bands@)[j]).found.derived,
        decreases bands@.len() - i,
    {
        if bands[i].analysis.derived {
            assert(readies(bands@)[i as int].found.derived);
            return true;
        }
        i += 1;
    }
    false
}

/// The mask bytes of every band.
fn list_payloads<T: Sample>(bands: &Vec<PreparedBand<T>>, frame: Frame) -> (r: Vec<Vec<u8>>)
    requires
        all_fit(bands@, frame),
    ensures
        r@.len() == bands@.len(),
        forall|i: int|
            0 <= i < bands@.len() ==> (#[trigger] r@[i])@ == band_payload(
                readies(bands@),
                frame,
                i,
            ),
{
    let derived = is_some_derived(bands);
    let mut out: Vec<Vec<u8>> = Vec::new();
    let mut i: usize = 0;
    while i < bands.len()
        invariant
            i <= bands@.len(),
            all_fit(bands@, frame),
            derived == some_derived(readies(bands@)),
            out@.len() == i,
            forall|j: int|
                0 <= j < i ==> (#[trigger] out@[j])@ == band_payload(readies(bands@), frame, j),
        decreases bands@.len() - i,
    {
        out.push(mask_bytes(&bands[i], frame, i == 0 || derived));
        i += 1;
    }
    out
}

proof fn lemma_bounds_stop<T: Sample>(bands: Seq<Ready<T>>, frame: Frame, n: nat, m: nat)
    requires
        n <= m,
        bounds_sum(bands, frame, n) is Err,
    ensures
        bounds_sum(bands, frame, m) == bounds_sum(bands, frame, n),
    decreases m - n,
{
    if n < m {
        lemma_bounds_stop(bands, frame, n, (m - 1) as nat);
    }
}

/// Bounds the size of all bands.
fn bound_bands<T: Sample>(bands: &Vec<PreparedBand<T>>, frame: Frame, payloads: &Vec<Vec<u8>>) -> (r:
    Result<usize>)
    requires
        all_fit(bands@, frame),
        payloads@.len() == bands@.len(),
        forall|i: int|
            0 <= i < bands@.len() ==> (#[trigger] payloads@[i])@ == band_payload(
                readies(bands@),
                frame,
                i,
            ),
    ensures
        match r {
            Ok(sum) => bounds_sum(readies(bands@), frame, bands@.len()) == Ok::<nat, Fault>(
                sum as nat,
            ),
            Err(e) => bounds_sum(readies(bands@), frame, bands@.len()) == Err::<nat, Fault>(e@),
        },
{
    let ghost all = readies(bands@);
    let mut sum: usize = 0;
    let mut i: usize = 0;
    while i < bands.len()
        invariant
            i <= bands@.len(),
            all == readies(bands@),
            all_fit(bands@, frame),
            payloads@.len() == bands@.len(),
            forall|j: int|
                0 <= j < bands@.len() ==> (#[trigger] payloads@[j])@ == band_payload(
                    all,
                    frame,
                    j,
                ),
            bounds_sum(all, frame, i as nat) == Ok::<nat, Fault>(sum as nat),
        decreases bands@.len() - i,
    {
        proof {
            if bounds_sum(all, frame, (i + 1) as nat) is Err {
                lemma_bounds_stop(all, frame, (i + 1) as nat, bands@.len());
            }
        }
        let bound: usize = bound_blob(
            &bands[i],
            frame,
            payloads[i].len(),
            Ghost(payloads@[i as int]@),
        )?;
        sum = total(sum, bound, "encoded band set size")?;
        i += 1;
    }
    Ok(sum)
}

pub proof fn lemma_fault_stays<T: Sample>(bands: Seq<Ready<T>>, frame: Frame, n: nat, m: nat)
    requires
        n <= m,
        bands_fault(bands, frame, n) is Some,
    ensures
        bands_fault(bands, frame, m) == bands_fault(bands, frame, n),
    decreases m - n,
{
    if n < m {
        lemma_fault_stays(bands, frame, n, (m - 1) as nat);
    }
}

/// Writes all bands.
#[verifier::rlimit(40)]
fn write_bands<T: Sample>(bands: &Vec<PreparedBand<T>>, frame: Frame, payloads: &Vec<Vec<u8>>) -> (r:
    Result<Vec<u8>>)
    requires
        all_fit(bands@, frame),
        payloads@.len() == bands@.len(),
        forall|i: int|
            0 <= i < bands@.len() ==> (#[trigger] payloads@[i])@ == band_payload(
                readies(bands@),
                frame,
                i,
            ),
    ensures
        match r {
            Ok(out) => bands_fault(readies(bands@), frame, bands@.len()) is None && out@
                == bands_bytes(readies(bands@), frame, bands@.len()),
            Err(e) => bands_fault(readies(bands@), frame, bands@.len()) == Some(e@),
        },
{
    let ghost all = readies(bands@);
    let count: usize = bands.len();
    let mut out: Vec<u8> = Vec::new();
    let mut i: usize = 0;
    while i < count
        invariant
            i <= count,
            count == bands@.len(),
            all == readies(bands@),
            all_fit(bands@, frame),
            payloads@.len() == bands@.len(),
            forall|j: int|
                0 <= j < bands@.len() ==> (#[trigger] payloads@[j])@ == band_payload(
                    all,
                    frame,
                    j,
                ),
            bands_fault(all, frame, i as nat) is None,
            out@ =~= bands_bytes(all, frame, i as nat),
        decreases count - i,
    {
        let band: &PreparedBand<T> = &bands[i];
        let payload: &Vec<u8> = &payloads[i];
        assert(all[i as int] == band.ready());
        assert(payload@ == band_payload(all, frame, i as int));
        proof {
            if bands_fault(all, frame, (i + 1) as nat) is Some {
                lemma_fault_stays(all, frame, (i + 1) as nat, count as nat);
            }
        }
        if payload.len() as u64 > 0xffff_ffff {
            return Err(Error::SizeOverflow("mask payload length as u32"));
        }
        let rest: Vec<u8> = write_rest(band, frame, payload);
        let remaining: usize = count - 1 - i;
        let size: u32 = check_blob(band.plan.version, payload.len(), rest.len(), remaining)?;
        let stored: u32 = if band.plan.version >= 6 { remaining as u32 } else { 0 };
        let ghost before = out@;
        push_blob(&mut out, band, frame, &rest, size, stored, Ghost(payload@));
        proof {
            if band.plan.version < 6 {
                encoder::lemma_unnumbered(all[i as int], frame, payload@, 0, remaining as nat);
            }
        }
        i += 1;
    }
    Ok(out)
}

/// Returns a conservative output-buffer size for a concatenated band set.
///
/// # Errors
/// Returns an error for invalid options, shapes, masks, sample values, or
/// overflowing aggregate sizes.
pub fn encoded_band_set_len_upper_bound<T: Sample>(
    band_set: BandSetView<T>,
    mask: Option<MaskView>,
    options: EncodeOptions,
) -> (r: Result<usize>)
    requires
        band_set.wf(),
        mask matches Some(m) ==> m.wf(),
    ensures
        match r {
            Ok(bound) => set_bound(band_set, mask, options) == Ok::<nat, Fault>(bound as nat),
            Err(e) => set_bound(band_set, mask, options) == Err::<nat, Fault>(e@),
        },
{
    let (bands, frame) = prepare_band_set(band_set, mask, options)?;
    let payloads: Vec<Vec<u8>> = list_payloads(&bands, frame);
    bound_bands(&bands, frame, &payloads)
}

/// Encodes a multi-band raster as concatenated Lerc2 blobs.
///
/// A supplied mask is stored by the first band and inherited by later bands
/// unless no-data filtering produces distinct per-band masks.
///
/// # Errors
/// Returns an error when inputs or options are invalid or encoding fails.
pub fn encode_band_set<T: Sample>(
    band_set: BandSetView<T>,
    mask: Option<MaskView>,
    options: EncodeOptions,
) -> (r: Result<Vec<u8>>)
    requires
        band_set.wf(),
        mask matches Some(m) ==> m.wf(),
    ensures
        match r {
            Ok(out) => set_encoded(band_set, mask, options) == Ok::<Seq<u8>, Fault>(out@),
            Err(e) => set_encoded(band_set, mask, options) == Err::<Seq<u8>, Fault>(e@),
        },
{
    let (bands, frame) = prepare_band_set(band_set, mask, options)?;
    let payloads: Vec<Vec<u8>> = list_payloads(&bands, frame);
    bound_bands(&bands, frame, &payloads)?;
    write_bands(&bands, frame, &payloads)
}

/// The bytes that all bands take.
fn size_bands<T: Sample>(bands: &Vec<PreparedBand<T>>, frame: Frame, payloads: &Vec<Vec<u8>>) -> (r:
    Result<usize>)
    requires
        all_fit(bands@, frame),
        payloads@.len() == bands@.len(),
        forall|i: int|
            0 <= i < bands@.len() ==> (#[trigger] payloads@[i])@ == band_payload(
                readies(bands@),
                frame,
                i,
            ),
        !long_mask(readies(bands@), frame),
    ensures
        match r {
            Ok(sum) => sum == sizes_sum(readies(bands@), frame, bands@.len()),
            Err(e) => sizes_sum(readies(bands@), frame, bands@.len()) > usize::MAX && e@
                == Fault::SizeOverflow("encoded band set size"@),
        },
{
    let ghost all = readies(bands@);
    let mut sum: usize = 0;
    let mut i: usize = 0;
    while i < bands.len()
        invariant
            i <= bands@.len(),
            all == readies(bands@),
            all_fit(bands@, frame),
            !long_mask(all, frame),
            payloads@.len() == bands@.len(),
            forall|j: int|
                0 <= j < bands@.len() ==> (#[trigger] payloads@[j])@ == band_payload(
                    all,
                    frame,
                    j,
                ),
            sum == sizes_sum(all, frame, i as nat),
        decreases bands@.len() - i,
    {
        assert(payloads@[i as int]@ == band_payload(all, frame, i as int));
        let rest: Vec<u8> = write_rest(&bands[i], frame, &payloads[i]);
        proof {
            lemma_sizes_grow(all, frame, (i + 1) as nat, bands@.len());
        }
        let size: usize = total(
            header_len(bands[i].plan.version),
            rest.len(),
            "encoded band set size",
        )?;
        sum = total(sum, size, "encoded band set size")?;
        i += 1;
    }
    Ok(sum)
}

proof fn lemma_sizes_grow<T: Sample>(bands: Seq<Ready<T>>, frame: Frame, n: nat, m: nat)
    requires
        n <= m,
    ensures
        sizes_sum(bands, frame, n) <= sizes_sum(bands, frame, m),
    decreases m - n,
{
    if n < m {
        lemma_sizes_grow(bands, frame, n, (m - 1) as nat);
    }
}

/// Whether a mask is too long to be stored.
fn is_long_mask<T: Sample>(bands: &Vec<PreparedBand<T>>, frame: Frame, payloads: &Vec<Vec<u8>>) -> (r:
    bool)
    requires
        payloads@.len() == bands@.len(),
        forall|i: int|
            0 <= i < bands@.len() ==> (#[trigger] payloads@[i])@ == band_payload(
                readies(bands@),
                frame,
                i,
            ),
    ensures
        r == long_mask(readies(bands@), frame),
{
    let ghost all = readies(bands@);
    let mut i: usize = 0;
    while i < payloads.len()
        invariant
            i <= payloads@.len(),
            all == readies(bands@),
            payloads@.len() == bands@.len(),
            forall|j: int|
                0 <= j < bands@.len() ==> (#[trigger] payloads@[j])@ == band_payload(
                    all,
                    frame,
                    j,
                ),
            forall|j: int|
                0 <= j < i ==> (#[trigger] band_payload(all, frame, j)).len() <= u32::MAX,
        decreases payloads@.len() - i,
    {
        assert(payloads@[i as int]@ == band_payload(all, frame, i as int));
        if payloads[i].len() as u64 > 0xffff_ffff {
            return true;
        }
        i += 1;
    }
    false
}

pub proof fn lemma_bytes_len<T: Sample>(bands: Seq<Ready<T>>, frame: Frame, n: nat)
    requires
        n <= bands.len(),
        forall|i: int| 0 <= i < bands.len() ==> (#[trigger] bands[i]).version >= 4,
    ensures
        bands_bytes(bands, frame, n).len() == sizes_sum(bands, frame, n),
    decreases n,
{
    if n > 0 {
        lemma_bytes_len(bands, frame, (n - 1) as nat);
        assert(bands[n - 1].version >= 4);
        encoder::lemma_blob_len(
            bands[n - 1],
            frame,
            band_payload(bands, frame, n - 1),
            (bands.len() - n) as nat,
        );
    }
}

/// Encodes a multi-band raster directly into a caller-provided byte slice.
///
/// Returns the total number of concatenated bytes written.
///
/// # Errors
/// In addition to validation and encoding errors, returns
/// [`Error::OutputTooSmall`] when `out` is insufficient. `out` is left as it was after an
/// error.
pub fn encode_band_set_into<T: Sample>(
    band_set: BandSetView<T>,
    mask: Option<MaskView>,
    options: EncodeOptions,
    out: &mut [u8],
) -> (r: Result<usize>)
    requires
        band_set.wf(),
        mask matches Some(m) ==> m.wf(),
    ensures
        match r {
            Ok(written) => {
                &&& set_encoded_into(band_set, mask, options, old(out)@.len()) is Ok
                &&& written == set_encoded_into(
                    band_set,
                    mask,
                    options,
                    old(out)@.len(),
                )->Ok_0.len()
                &&& final(out)@ == encoder::overwritten(
                    old(out)@,
                    set_encoded_into(band_set, mask, options, old(out)@.len())->Ok_0,
                )
            },
            Err(e) => {
                &&& set_encoded_into(band_set, mask, options, old(out)@.len()) == Err::<
                    Seq<u8>,
                    Fault,
                >(e@)
                &&& final(out)@ == old(out)@
            },
        },
{
    let available: usize = out.len();
    let (bands, frame) = prepare_band_set(band_set, mask, options)?;
    let payloads: Vec<Vec<u8>> = list_payloads(&bands, frame);
    if is_long_mask(&bands, frame, &payloads) {
        return Err(Error::SizeOverflow("mask payload length as u32"));
    }
    let needed: usize = size_bands(&bands, frame, &payloads)?;
    if needed > available {
        return Err(Error::OutputTooSmall { needed, available });
    }
    let written: Vec<u8> = write_bands(&bands, frame, &payloads)?;
    proof {
        let all = readies(bands@);
        assert forall|i: int| 0 <= i < all.len() implies (#[trigger] all[i]).version >= 4 by {
            assert(bands@[i].wf(frame));
        }
        lemma_bytes_len(all, frame, all.len());
    }
    copy_to_front(out, &written);
    Ok(needed)
}

} // verus!
