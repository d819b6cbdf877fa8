//! Reading Lerc2 blobs: mask, depth ranges and samples.

use crate::allocation;
use crate::allocation::{check_allocation, filled};
use crate::blocks;
use crate::blocks::pixel_is_valid;
use crate::cursor;
use crate::cursor::Cursor;
use crate::error::{Error, Fault, Result};
use crate::float::Double;
use crate::lerc2_body;
use crate::lerc2_body::{
    decode_tiles, needs_encode_mode_flag, supports_integer_huffman, write_constant_pixels,
    write_swept, DepthRanges,
};
use crate::lerc2_header;
use crate::lerc2_header::{parse, Lerc2Header};
use crate::lerc2_huffman;
use crate::lerc2_huffman::decode_huffman;
use crate::mask;
use crate::mask::{decode_mask_rle, unpack_mask_bitset};
use crate::raster;
use crate::raster::valid_entries;
use crate::sample::Sample;
use crate::text;
use crate::text::{push_decimal, sentence};
use crate::types;
use crate::types::{copy_vec, BlobFacts, BlobInfo, MaskEncoding};
use crate::values;
use crate::values::{output_value, read_typed_values, read_values_as};
use vstd::prelude::*;

verus! {

/// What is wrong with a mask taken from elsewhere, if anything.
pub open spec fn external_mask_fault(h: Lerc2Header, entries: Seq<u8>) -> Option<Fault> {
    if entries.len() != h.pixels() {
        Some(
            Fault::InvalidBlob("inherited mask length does not match the current LERC blob"@),
        )
    } else if raster::count_valid(entries) != h.valid_pixel_count {
        Some(
            Fault::InvalidBlob("inherited mask valid count does not match the current LERC blob"@),
        )
    } else {
        None
    }
}

/// The outcome of decoding stored mask bytes.
pub open spec fn stored_mask(h: Lerc2Header, field: Seq<u8>) -> std::result::Result<
    Seq<u8>,
    Fault,
> {
    match mask::bitset_decoded(field, mask::bitset_len(h.pixels())) {
        Err(e) => Err(e),
        Ok(bitset) => match allocation::allocation_fault(
            h.pixels(),
            1,
            "Lerc2 unpacked mask"@,
        ) {
            Some(e) => Err(e),
            None => if raster::count_valid(mask::unpacked(bitset, h.pixels()))
                != h.valid_pixel_count {
                Err(
                    Fault::InvalidBlob(
                        "decoded mask valid count does not match the Lerc2 header"@,
                    ),
                )
            } else {
                Ok(mask::unpacked(bitset, h.pixels()))
            },
        },
    }
}

/// The outcome of reading the mask: the mask, if not every pixel is valid, and the position
/// behind it.
pub open spec fn mask_read(
    h: Lerc2Header,
    all: Seq<u8>,
    pos: int,
    inherited: Option<Seq<u8>>,
) -> std::result::Result<(Option<Seq<u8>>, int), Fault> {
    match h.mask_encoding {
        MaskEncoding::AllValid => Ok((None, pos)),
        MaskEncoding::ImplicitAllInvalid => match allocation::allocation_fault(
            h.pixels(),
            1,
            "Lerc2 implicit mask"@,
        ) {
            Some(e) => Err(e),
            None => Ok((Some(allocation::repeated(0u8, h.pixels())), pos)),
        },
        MaskEncoding::External => match inherited {
            None => Err(
                Fault::UnsupportedFeature(
                    "Lerc2 external masks require a caller-supplied mask via the *_with_mask APIs"@,
                ),
            ),
            Some(entries) => match external_mask_fault(h, entries) {
                Some(e) => Err(e),
                None => Ok((Some(entries), pos)),
            },
        },
        MaskEncoding::Explicit => match cursor::take(all, pos, h.mask_num_bytes as int) {
            Err(e) => Err(e),
            Ok(field) => match stored_mask(h, field) {
                Err(e) => Err(e),
                Ok(entries) => Ok((Some(entries), pos + h.mask_num_bytes)),
            },
        },
    }
}

/// Whether a mask has an entry for each pixel and as many valid ones as the header says.
pub open spec fn mask_agrees(h: Lerc2Header, entries: Option<Seq<u8>>) -> bool {
    match entries {
        None => h.valid_pixel_count == h.pixels(),
        Some(m) => m.len() == h.pixels() && raster::count_valid(m) == h.valid_pixel_count,
    }
}

/// Whether ranges per depth are stored.
pub open spec fn has_ranges(h: Lerc2Header) -> bool {
    h.version >= 4 && h.valid_pixel_count != 0 && !h.z_min.same(h.z_max)
}

/// Whether every value is finite.
pub open spec fn all_finite(values: Seq<Double>) -> bool {
    forall|i: int| 0 <= i < values.len() ==> (#[trigger] values[i]).finite()
}

/// Whether some minimum exceeds its maximum.
pub open spec fn some_crossed(min_values: Seq<Double>, max_values: Seq<Double>) -> bool {
    exists|i: int| 0 <= i < min_values.len() && max_values[i].below(#[trigger] min_values[i])
}

/// The outcome of reading the stored ranges.
pub open spec fn stored_ranges(h: Lerc2Header, all: Seq<u8>, pos: int) -> std::result::Result<
    (Seq<Double>, Seq<Double>),
    Fault,
> {
    let len = h.depth as nat * h.data_type.width();
    if len > usize::MAX {
        Err(Fault::SizeOverflow("Lerc2 depth-range byte count"@))
    } else {
        match cursor::take(all, pos, len as int) {
            Err(e) => Err(e),
            Ok(first) => match cursor::take(all, pos + len, len as int) {
                Err(e) => Err(e),
                Ok(second) => {
                    let min_values = values::doubles_of(first, h.data_type);
                    let max_values = values::doubles_of(second, h.data_type);
                    if !all_finite(min_values) || !all_finite(max_values) {
                        Err(Fault::InvalidBlob("Lerc2 per-depth range values must be finite"@))
                    } else if some_crossed(min_values, max_values) {
                        Err(Fault::InvalidBlob("Lerc2 per-depth minimum exceeds its maximum"@))
                    } else {
                        Ok((min_values, max_values))
                    }
                },
            },
        }
    }
}

/// The outcome of reading the ranges, if there are any, and the position behind them.
pub open spec fn ranges_read(h: Lerc2Header, all: Seq<u8>, pos: int) -> std::result::Result<
    (Option<(Seq<Double>, Seq<Double>)>, int),
    Fault,
> {
    if !has_ranges(h) {
        Ok((None, pos))
    } else {
        match stored_ranges(h, all, pos) {
            Err(e) => Err(e),
            Ok(pair) => Ok((Some(pair), pos + 2 * (h.depth * h.data_type.width()))),
        }
    }
}

/// The metadata together with the ranges; a no-data sentinel hides them.
pub open spec fn public_facts(
    h: Lerc2Header,
    ranges: Option<(Seq<Double>, Seq<Double>)>,
) -> BlobFacts {
    match ranges {
        Some((min_values, max_values)) => if h.original_no_data is Some {
            h.facts()
        } else {
            BlobFacts {
                min_values: Some(min_values),
                max_values: Some(max_values),
                ..h.facts()
            }
        },
        None => h.facts(),
    }
}

/// Whether each minimum equals its maximum.
pub open spec fn all_same(min_values: Seq<Double>, max_values: Seq<Double>) -> bool {
    forall|i: int| 0 <= i < min_values.len() ==> (#[trigger] min_values[i]).same(max_values[i])
}

/// The value of each depth, where the ranges leave only one.
pub open spec fn constant_ranges(ranges: Option<(Seq<Double>, Seq<Double>)>) -> Option<
    Seq<Double>,
> {
    match ranges {
        Some((min_values, max_values)) => if all_same(min_values, max_values) {
            Some(max_values)
        } else {
            None
        },
        None => None,
    }
}

/// The outcome of reading a body that stores every sample as it is.
pub open spec fn sweep_read<T: Sample>(
    h: Lerc2Header,
    entries: Option<Seq<u8>>,
    all: Seq<u8>,
    pos: int,
    samples: Seq<T>,
) -> std::result::Result<(Seq<T>, int), Fault> {
    let count = h.valid_pixel_count as nat * h.depth as nat;
    let len = count * h.data_type.width();
    if len > usize::MAX {
        Err(Fault::SizeOverflow("Lerc2 one-sweep byte count"@))
    } else {
        match allocation::allocation_fault(
            count,
            T::kind().width(),
            "Lerc2 one-sweep raw values"@,
        ) {
            Some(e) => Err(e),
            None => match cursor::take(all, pos, len as int) {
                Err(e) => Err(e),
                Ok(field) => Ok(
                    (
                        lerc2_body::swept(
                            samples,
                            blocks::run_pixels(entries, 0, h.pixels()),
                            values::converted::<T>(field, h.data_type),
                            h.depth as int,
                        ),
                        pos + len,
                    ),
                ),
            },
        }
    }
}

/// Whether an encode mode may occur in a version.
pub open spec fn mode_allowed(mode: u8, version: u32) -> bool {
    mode <= 3 && (version < 6 ==> mode <= 2) && (version < 4 ==> mode <= 1)
}

/// The outcome of reading a body behind its encode mode.
pub open spec fn mode_read<T: Sample>(
    h: Lerc2Header,
    ranges: Option<(Seq<Double>, Seq<Double>)>,
    entries: Option<Seq<u8>>,
    all: Seq<u8>,
    pos: int,
    samples: Seq<T>,
    mode: u8,
) -> std::result::Result<(Seq<T>, int), Fault> {
    if !mode_allowed(mode, h.version) {
        Err(
            Fault::InvalidBlob(
                "invalid Lerc2 encode mode flag "@ + text::decimal_text(mode as nat),
            ),
        )
    } else if mode == 0 {
        lerc2_body::tiles_read(h, ranges, entries, all, 0, 0, 0, samples, pos)
    } else if !lerc2_body::huffman_possible(h.data_type, h.max_z_error) {
        Err(Fault::UnsupportedFeature("Lerc2 floating-point Huffman decode"@))
    } else {
        match lerc2_huffman::huffman_read(h, entries, all, pos, mode == 1, samples) {
            Err(e) => Err(e),
            Ok(read) => Ok((read, all.len() as int)),
        }
    }
}

/// The outcome of reading the body: the samples and the position behind it.
pub open spec fn body_read<T: Sample>(
    h: Lerc2Header,
    ranges: Option<(Seq<Double>, Seq<Double>)>,
    entries: Option<Seq<u8>>,
    all: Seq<u8>,
    pos: int,
    samples: Seq<T>,
) -> std::result::Result<(Seq<T>, int), Fault> {
    let list = blocks::run_pixels(entries, 0, h.pixels());
    if h.valid_pixel_count == 0 {
        Ok((samples, pos))
    } else if h.z_min.same(h.z_max) {
        let row = allocation::repeated(
            values::output::<T>(h.z_max, h.data_type),
            h.depth as nat,
        );
        Ok((lerc2_body::constant_written(samples, list, row, h.depth as int), pos))
    } else if constant_ranges(ranges) is Some {
        let row = outputs::<T>(constant_ranges(ranges)->0, h);
        Ok((lerc2_body::constant_written(samples, list, row, h.depth as int), pos))
    } else {
        match cursor::take_u8(all, pos) {
            Err(e) => Err(e),
            Ok(sweep) => if sweep != 0 {
                sweep_read(h, entries, all, pos + 1, samples)
            } else if !lerc2_body::has_mode(h.data_type, h.max_z_error, h.version) {
                lerc2_body::tiles_read(h, ranges, entries, all, 0, 0, 0, samples, pos + 1)
            } else {
                match cursor::take_u8(all, pos + 1) {
                    Err(e) => Err(e),
                    Ok(mode) => mode_read(h, ranges, entries, all, pos + 2, samples, mode),
                }
            },
        }
    }
}

/// The output samples for one value per depth.
pub open spec fn outputs<T: Sample>(found: Seq<Double>, h: Lerc2Header) -> Seq<T> {
    Seq::new(found.len(), |i: int| values::output::<T>(found[i], h.data_type))
}

/// The sentinel in the encoded samples and the one it stands for, where they differ.
pub open spec fn no_data_mapping<T: Sample>(h: Lerc2Header) -> Option<(T, T)> {
    match (h.encoded_no_data, h.original_no_data) {
        (Some(encoded), Some(original)) => {
            let from = values::output::<T>(encoded, h.data_type);
            let to = values::output::<T>(original, h.data_type);
            if from.promoted().same(to.promoted()) {
                None
            } else {
                Some((from, to))
            }
        },
        _ => None,
    }
}

/// The samples with the sentinel put back in the valid pixels.
pub open spec fn remapped<T: Sample>(
    samples: Seq<T>,
    entries: Option<Seq<u8>>,
    depth: int,
    mapping: Option<(T, T)>,
) -> Seq<T> {
    match mapping {
        None => samples,
        Some((from, to)) => Seq::new(
            samples.len(),
            |x: int|
                if blocks::is_valid(entries, x / depth) && samples[x].promoted().same(
                    from.promoted(),
                ) {
                    to
                } else {
                    samples[x]
                },
        ),
    }
}

/// The outcome of decoding what follows a header.
pub open spec fn payload_decoded<T: Sample>(
    h: Lerc2Header,
    all: Seq<u8>,
    pos: int,
    inherited: Option<Seq<u8>>,
) -> std::result::Result<(BlobFacts, Seq<T>, Option<Seq<u8>>), Fault> {
    match mask_read(h, all, pos, inherited) {
        Err(e) => Err(e),
        Ok((entries, at)) => match ranges_read(h, all, at) {
            Err(e) => Err(e),
            Ok((ranges, body)) => {
                let blank = allocation::repeated(T::zero(), h.pixels() * h.depth as nat);
                match body_read::<T>(h, ranges, entries, all, body, blank) {
                    Err(e) => Err(e),
                    Ok((samples, end)) => if end != all.len() {
                        Err(
                            Fault::InvalidBlob(
                                "Lerc2 pixel payload contains "@ + text::decimal_text(
                                    (all.len() - end) as nat,
                                ) + " trailing bytes"@,
                            ),
                        )
                    } else {
                        Ok(
                            (
                                public_facts(h, ranges),
                                remapped(samples, entries, h.depth as int, no_data_mapping::<T>(h)),
                                entries,
                            ),
                        )
                    },
                }
            },
        },
    }
}

/// What is wrong with the buffer for the samples, if anything.
pub open spec fn output_fault<T: Sample>(h: Lerc2Header, limited: bool) -> Option<Fault> {
    if limited {
        allocation::allocation_fault(
            h.pixels() * h.depth as nat,
            T::kind().width(),
            "Lerc2 pixel output"@,
        )
    } else {
        None
    }
}

/// The outcome of decoding a Lerc2 blob to samples of type `T`: metadata, samples and mask.
/// Only a limited buffer is held to the limit on allocations.
pub open spec fn decoded<T: Sample>(
    blob: Seq<u8>,
    inherited: Option<Seq<u8>>,
    limited: bool,
) -> std::result::Result<(BlobFacts, Seq<T>, Option<Seq<u8>>), Fault> {
    match lerc2_header::header_parsed(blob) {
        Err(e) => Err(e),
        Ok(h) => if h.pixels() * h.depth as nat > usize::MAX {
            Err(Fault::SizeOverflow("blob sample count"@))
        } else {
            match output_fault::<T>(h, limited) {
                Some(e) => Err(e),
                None => payload_decoded::<T>(
                    h,
                    blob.subrange(0, h.blob_size as int),
                    lerc2_header::header_size(h.version) + 4,
                    inherited,
                ),
            }
        },
    }
}

/// The outcome of reading the metadata of a Lerc2 blob; a mask from elsewhere may be missing.
pub open spec fn inspected(blob: Seq<u8>, inherited: Option<Seq<u8>>) -> std::result::Result<
    BlobFacts,
    Fault,
> {
    match lerc2_header::header_parsed(blob) {
        Err(e) => Err(e),
        Ok(h) => {
            let all = blob.subrange(0, h.blob_size as int);
            let pos = lerc2_header::header_size(h.version) + 4;
            let behind = match h.mask_encoding {
                MaskEncoding::External => match inherited {
                    Some(entries) => match external_mask_fault(h, entries) {
                        Some(e) => Err(e),
                        None => Ok(pos),
                    },
                    None => Ok(pos),
                },
                MaskEncoding::Explicit => match mask_read(h, all, pos, None) {
                    Err(e) => Err(e),
                    Ok((_, at)) => Ok(at),
                },
                _ => Ok(pos),
            };
            match behind {
                Err(e) => Err(e),
                Ok(at) => match ranges_read(h, all, at) {
                    Err(e) => Err(e),
                    Ok((ranges, _)) => Ok(public_facts(h, ranges)),
                },
            }
        },
    }
}

/// The outcome of reading the metadata and the mask of a Lerc2 blob.
pub open spec fn inspected_with_mask(
    blob: Seq<u8>,
    inherited: Option<Seq<u8>>,
) -> std::result::Result<(BlobFacts, Option<Seq<u8>>), Fault> {
    match lerc2_header::header_parsed(blob) {
        Err(e) => Err(e),
        Ok(h) => {
            let all = blob.subrange(0, h.blob_size as int);
            match mask_read(h, all, lerc2_header::header_size(h.version) + 4, inherited) {
                Err(e) => Err(e),
                Ok((entries, at)) => match ranges_read(h, all, at) {
                    Err(e) => Err(e),
                    Ok((ranges, _)) => Ok((public_facts(h, ranges), entries)),
                },
            }
        },
    }
}

/// A mask of zeros has no valid entry.
pub proof fn lemma_no_valid(len: nat)
    ensures
        raster::count_valid(allocation::repeated(0u8, len)) == 0,
    decreases len,
{
    if len > 0 {
        assert(allocation::repeated(0u8, len).drop_last() =~= allocation::repeated(
            0u8,
            (len - 1) as nat,
        ));
        lemma_no_valid((len - 1) as nat);
    }
}

/// Checks a mask taken from elsewhere.
fn validate_external_mask(h: &Lerc2Header, entries: &[u8]) -> (r: Result<()>)
    requires
        h.wf(),
    ensures
        match r {
            Ok(_) => external_mask_fault(*h, entries@) is None,
            Err(e) => external_mask_fault(*h, entries@) == Some(e@),
        },
{
    if entries.len() != h.width as usize * h.height as usize {
        return Err(
            Error::invalid_blob("inherited mask length does not match the current LERC blob"),
        );
    }
    if valid_entries(entries) != h.valid_pixel_count as usize {
        return Err(
            Error::invalid_blob("inherited mask valid count does not match the current LERC blob"),
        );
    }
    Ok(())
}

/// Decodes stored mask bytes.
fn read_stored_mask(h: &Lerc2Header, field: &[u8]) -> (r: Result<Vec<u8>>)
    requires
        h.wf(),
    ensures
        match r {
            Ok(entries) => stored_mask(*h, field@) == Ok::<_, Fault>(entries@),
            Err(e) => stored_mask(*h, field@) == Err::<Seq<u8>, _>(e@),
        },
{
    let pixels: usize = h.width as usize * h.height as usize;
    let len: usize = pixels / 8 + if pixels % 8 != 0 { 1 } else { 0 };
    let bitset: Vec<u8> = decode_mask_rle(field, len)?;
    let entries: Vec<u8> = unpack_mask_bitset(bitset.as_slice(), pixels)?;
    if valid_entries(entries.as_slice()) != h.valid_pixel_count as usize {
        return Err(
            Error::invalid_blob("decoded mask valid count does not match the Lerc2 header"),
        );
    }
    Ok(entries)
}

/// Reads the mask.
fn read_mask(cursor: &mut Cursor, h: &Lerc2Header, inherited: Option<&[u8]>) -> (r: Result<
    Option<Vec<u8>>,
>)
    requires
        old(cursor).wf(),
        h.wf(),
    ensures
        final(cursor).wf(),
        final(cursor).all() == old(cursor).all(),
        match r {
            Ok(entries) => mask_read(
                *h,
                old(cursor).all(),
                old(cursor).at(),
                blocks::mask_seq(inherited),
            ) == Ok::<_, Fault>((types::optional_seq(entries), final(cursor).at())) && mask_agrees(
                *h,
                types::optional_seq(entries),
            ),
            Err(e) => mask_read(
                *h,
                old(cursor).all(),
                old(cursor).at(),
                blocks::mask_seq(inherited),
            ) == Err::<(Option<Seq<u8>>, int), _>(e@),
        },
{
    let pixels: usize = h.width as usize * h.height as usize;
    match h.mask_encoding {
        MaskEncoding::AllValid => Ok(None),
        MaskEncoding::ImplicitAllInvalid => {
            check_allocation(pixels, 1, "Lerc2 implicit mask")?;
            proof {
                lemma_no_valid(pixels as nat);
            }
            Ok(Some(filled(0u8, pixels)))
        },
        MaskEncoding::External => match inherited {
            None => Err(
                Error::UnsupportedFeature(
                    "Lerc2 external masks require a caller-supplied mask via the *_with_mask APIs",
                ),
            ),
            Some(entries) => {
                validate_external_mask(h, entries)?;
                Ok(Some(copy_vec(entries)))
            },
        },
        MaskEncoding::Explicit => {
            let field: &[u8] = cursor.read_bytes(h.mask_num_bytes)?;
            let entries: Vec<u8> = read_stored_mask(h, field)?;
            Ok(Some(entries))
        },
    }
}

fn are_finite(found: &Vec<Double>) -> (r: bool)
    ensures
        r == all_finite(found@),
{
    let mut i: usize = 0;
    while i < found.len()
        invariant
            i <= found@.len(),
            forall|j: int| 0 <= j < i ==> (#[trigger] found@[j]).finite(),
        decreases found@.len() - i,
    {
        if !found[i].is_finite() {
            return false;
        }
        i += 1;
    }
    true
}

fn are_crossed(min_values: &Vec<Double>, max_values: &Vec<Double>) -> (r: bool)
    requires
        min_values@.len() == max_values@.len(),
    ensures
        r == some_crossed(min_values@, max_values@),
{
    let mut i: usize = 0;
    while i < min_values.len()
        invariant
            i <= min_values@.len(),
            min_values@.len() == max_values@.len(),
            forall|j: int| 0 <= j < i ==> !max_values@[j].below(#[trigger] min_values@[j]),
        decreases min_values@.len() - i,
    {
        if max_values[i].less_than(min_values[i]) {
            assert(max_values@[i as int].below(min_values@[i as int]));
            return true;
        }
        i += 1;
    }
    false
}

fn are_same(min_values: &Vec<Double>, max_values: &Vec<Double>) -> (r: bool)
    requires
        min_values@.len() == max_values@.len(),
    ensures
        r == all_same(min_values@, max_values@),
{
    let mut i: usize = 0;
    while i < min_values.len()
        invariant
            i <= min_values@.len(),
            min_values@.len() == max_values@.len(),
            forall|j: int| 0 <= j < i ==> (#[trigger] min_values@[j]).same(max_values@[j]),
        decreases min_values@.len() - i,
    {
        if !min_values[i].equals(max_values[i]) {
            return false;
        }
        i += 1;
    }
    true
}

/// A number of whole samples is as many samples.
pub proof fn lemma_aligned(count: nat, width: nat)
    requires
        width > 0,
    ensures
        (count * width) % width == 0,
        (count * width) / width == count,
{
    vstd::arithmetic::div_mod::lemma_mod_multiples_basic(count as int, width as int);
    vstd::arithmetic::div_mod::lemma_div_multiples_vanish(count as int, width as int);
    vstd::arithmetic::mul::lemma_mul_is_commutative(count as int, width as int);
}

/// Reads the ranges per depth.
fn read_depth_ranges(cursor: &mut Cursor, h: &Lerc2Header) -> (r: Result<DepthRanges>)
    requires
        old(cursor).wf(),
    ensures
        final(cursor).wf(),
        final(cursor).all() == old(cursor).all(),
        match r {
            Ok(ranges) => stored_ranges(*h, old(cursor).all(), old(cursor).at()) == Ok::<_, Fault>(
                (ranges.min_values@, ranges.max_values@),
            ) && final(cursor).at() == old(cursor).at() + 2 * (h.depth * h.data_type.width())
                && ranges.min_values@.len() == h.depth && ranges.max_values@.len() == h.depth,
            Err(e) => stored_ranges(*h, old(cursor).all(), old(cursor).at()) == Err::<
                (Seq<Double>, Seq<Double>),
                _,
            >(e@),
        },
{
    let width: usize = h.data_type.byte_len();
    let len: usize = match (h.depth as usize).checked_mul(width) {
        Some(len) => len,
        None => {
            return Err(Error::SizeOverflow("Lerc2 depth-range byte count"));
        },
    };
    proof {
        lemma_aligned(h.depth as nat, h.data_type.width());
    }
    let first: &[u8] = cursor.read_bytes(len)?;
    let min_values: Vec<Double> = read_typed_values(first, h.data_type)?;
    let second: &[u8] = cursor.read_bytes(len)?;
    let max_values: Vec<Double> = read_typed_values(second, h.data_type)?;
    if !are_finite(&min_values) || !are_finite(&max_values) {
        return Err(Error::invalid_blob("Lerc2 per-depth range values must be finite"));
    }
    if are_crossed(&min_values, &max_values) {
        return Err(Error::invalid_blob("Lerc2 per-depth minimum exceeds its maximum"));
    }
    Ok(DepthRanges { min_values, max_values })
}

/// Reads the ranges per depth, where there are any.
fn read_public_depth_ranges(cursor: &mut Cursor, h: &Lerc2Header) -> (r: Result<
    (BlobInfo, Option<DepthRanges>),
>)
    requires
        old(cursor).wf(),
    ensures
        final(cursor).wf(),
        final(cursor).all() == old(cursor).all(),
        match r {
            Ok((info, ranges)) => ranges_read(*h, old(cursor).all(), old(cursor).at()) == Ok::<
                _,
                Fault,
            >((lerc2_body::ranges_seq(ranges), final(cursor).at())) && info@ == public_facts(
                *h,
                lerc2_body::ranges_seq(ranges),
            ) && lerc2_body::ranges_fit(lerc2_body::ranges_seq(ranges), h.depth as nat),
            Err(e) => ranges_read(*h, old(cursor).all(), old(cursor).at()) == Err::<
                (Option<(Seq<Double>, Seq<Double>)>, int),
                _,
            >(e@),
        },
{
    let mut info: BlobInfo = h.info();
    if !(h.version >= 4 && h.valid_pixel_count != 0 && !h.z_min.equals(h.z_max)) {
        return Ok((info, None));
    }
    let ranges: DepthRanges = read_depth_ranges(cursor, h)?;
    if !info.uses_no_data_value() {
        info.min_values = Some(copy_vec(ranges.min_values.as_slice()));
        info.max_values = Some(copy_vec(ranges.max_values.as_slice()));
    }
    Ok((info, Some(ranges)))
}

/// The number of valid pixels is the length of their list.
pub proof fn lemma_valid_list(h: Lerc2Header, entries: Option<Seq<u8>>)
    requires
        mask_agrees(h, entries),
    ensures
        blocks::run_pixels(entries, 0, h.pixels()).len() == h.valid_pixel_count,
{
    match entries {
        None => {
            blocks::lemma_run_all(0, h.pixels());
        },
        Some(m) => {
            blocks::lemma_run_count(m, h.pixels());
            assert(m.subrange(0, h.pixels() as int) =~= m);
        },
    }
}

/// Reads a body that stores every sample as it is.
fn decode_one_sweep<T: Sample>(
    cursor: &mut Cursor,
    h: &Lerc2Header,
    entries: Option<&[u8]>,
    samples: &mut Vec<T>,
) -> (r: Result<()>)
    requires
        old(cursor).wf(),
        h.wf(),
        mask_agrees(*h, blocks::mask_seq(entries)),
        old(samples)@.len() == h.pixels() * h.depth,
    ensures
        final(cursor).wf(),
        final(cursor).all() == old(cursor).all(),
        final(samples)@.len() == old(samples)@.len(),
        match r {
            Ok(_) => sweep_read(
                *h,
                blocks::mask_seq(entries),
                old(cursor).all(),
                old(cursor).at(),
                old(samples)@,
            ) == Ok::<_, Fault>((final(samples)@, final(cursor).at())),
            Err(e) => sweep_read(
                *h,
                blocks::mask_seq(entries),
                old(cursor).all(),
                old(cursor).at(),
                old(samples)@,
            ) == Err::<(Seq<T>, int), _>(e@),
        },
{
    let valid: usize = h.valid_pixel_count as usize;
    let depth: usize = h.depth as usize;
    let _all: usize = samples.len();
    let pixels: usize = h.width as usize * h.height as usize;
    proof {
        assert(valid * depth <= pixels * depth) by (nonlinear_arith)
            requires
                valid <= pixels,
        ;
        lemma_valid_list(*h, blocks::mask_seq(entries));
        lemma_aligned((valid * depth) as nat, h.data_type.width());
    }
    let count: usize = valid * depth;
    let len: usize = match count.checked_mul(h.data_type.byte_len()) {
        Some(len) => len,
        None => {
            return Err(Error::SizeOverflow("Lerc2 one-sweep byte count"));
        },
    };
    check_allocation(count, T::data_type().byte_len(), "Lerc2 one-sweep raw values")?;
    let field: &[u8] = cursor.read_bytes(len)?;
    let raw: Vec<T> = read_values_as::<T>(field, h.data_type)?;
    write_swept(samples, entries, pixels, depth, &raw);
    Ok(())
}

fn output_row<T: Sample>(found: &Vec<Double>, h: &Lerc2Header) -> (r: Vec<T>)
    ensures
        r@ == outputs::<T>(found@, *h),
{
    let mut row: Vec<T> = Vec::with_capacity(found.len());
    let mut i: usize = 0;
    while i < found.len()
        invariant
            i <= found@.len(),
            row@.len() == i,
            forall|j: int| 0 <= j < i ==> #[trigger] row@[j] == outputs::<T>(found@, *h)[j],
        decreases found@.len() - i,
    {
        row.push(output_value(found[i], h.data_type));
        i += 1;
    }
    assert(row@ =~= outputs::<T>(found@, *h));
    row
}

/// Reads a body behind its encode mode.
fn decode_mode<T: Sample>(
    cursor: &mut Cursor,
    h: &Lerc2Header,
    ranges: &Option<DepthRanges>,
    entries: Option<&[u8]>,
    samples: &mut Vec<T>,
    mode: u8,
) -> (r: Result<()>)
    requires
        old(cursor).wf(),
        old(cursor).all().len() <= 0x7fff_ffff,
        h.wf(),
        mask_agrees(*h, blocks::mask_seq(entries)),
        lerc2_body::ranges_fit(lerc2_body::ranges_seq(*ranges), h.depth as nat),
        old(samples)@.len() == h.pixels() * h.depth,
    ensures
        final(cursor).wf(),
        final(cursor).all() == old(cursor).all(),
        final(samples)@.len() == old(samples)@.len(),
        match r {
            Ok(_) => mode_read(
                *h,
                lerc2_body::ranges_seq(*ranges),
                blocks::mask_seq(entries),
                old(cursor).all(),
                old(cursor).at(),
                old(samples)@,
                mode,
            ) == Ok::<_, Fault>((final(samples)@, final(cursor).at())),
            Err(e) => mode_read(
                *h,
                lerc2_body::ranges_seq(*ranges),
                blocks::mask_seq(entries),
                old(cursor).all(),
                old(cursor).at(),
                old(samples)@,
                mode,
            ) == Err::<(Seq<T>, int), _>(e@),
        },
{
    if mode > 3 || (h.version < 6 && mode > 2) || (h.version < 4 && mode > 1) {
        let mut reason: String = "invalid Lerc2 encode mode flag ".to_owned();
        push_decimal(&mut reason, mode as u64);
        return Err(Error::InvalidBlob(reason));
    }
    if mode == 0 {
        return decode_tiles(cursor, h, ranges, entries, samples);
    }
    if !supports_integer_huffman(h.data_type, h.max_z_error) {
        return Err(Error::UnsupportedFeature("Lerc2 floating-point Huffman decode"));
    }
    decode_huffman(cursor, h, entries, mode == 1, samples)
}

/// Reads the body.
fn decode_pixels<T: Sample>(
    cursor: &mut Cursor,
    h: &Lerc2Header,
    ranges: &Option<DepthRanges>,
    entries: Option<&[u8]>,
    samples: &mut Vec<T>,
) -> (r: Result<()>)
    requires
        old(cursor).wf(),
        old(cursor).all().len() <= 0x7fff_ffff,
        h.wf(),
        mask_agrees(*h, blocks::mask_seq(entries)),
        lerc2_body::ranges_fit(lerc2_body::ranges_seq(*ranges), h.depth as nat),
        old(samples)@.len() == h.pixels() * h.depth,
    ensures
        final(cursor).wf(),
        final(cursor).all() == old(cursor).all(),
        final(samples)@.len() == old(samples)@.len(),
        match r {
            Ok(_) => body_read(
                *h,
                lerc2_body::ranges_seq(*ranges),
                blocks::mask_seq(entries),
                old(cursor).all(),
                old(cursor).at(),
                old(samples)@,
            ) == Ok::<_, Fault>((final(samples)@, final(cursor).at())),
            Err(e) => body_read(
                *h,
                lerc2_body::ranges_seq(*ranges),
                blocks::mask_seq(entries),
                old(cursor).all(),
                old(cursor).at(),
                old(samples)@,
            ) == Err::<(Seq<T>, int), _>(e@),
        },
{
    if h.valid_pixel_count == 0 {
        return Ok(());
    }
    let pixels: usize = h.width as usize * h.height as usize;
    let depth: usize = h.depth as usize;
    if h.z_min.equals(h.z_max) {
        let row: Vec<T> = filled(output_value::<T>(h.z_max, h.data_type), depth);
        write_constant_pixels(samples, entries, pixels, depth, &row);
        return Ok(());
    }
    if let Some(found) = ranges {
        if are_same(&found.min_values, &found.max_values) {
            let row: Vec<T> = output_row(&found.max_values, h);
            write_constant_pixels(samples, entries, pixels, depth, &row);
            return Ok(());
        }
    }
    let sweep: u8 = cursor.read_u8()?;
    if sweep != 0 {
        return decode_one_sweep(cursor, h, entries, samples);
    }
    if !needs_encode_mode_flag(h.data_type, h.max_z_error, h.version) {
        return decode_tiles(cursor, h, ranges, entries, samples);
    }
    let mode: u8 = cursor.read_u8()?;
    decode_mode(cursor, h, ranges, entries, samples, mode)
}

/// Puts the no-data sentinel back.
fn remap_no_data<T: Sample>(samples: &mut Vec<T>, h: &Lerc2Header, entries: Option<&[u8]>)
    requires
        h.wf(),
        blocks::mask_fits(blocks::mask_seq(entries), h.pixels()),
        old(samples)@.len() == h.pixels() * h.depth,
    ensures
        final(samples)@ == remapped(
            old(samples)@,
            blocks::mask_seq(entries),
            h.depth as int,
            no_data_mapping::<T>(*h),
        ),
{
    let (encoded, original) = match (h.encoded_no_data, h.original_no_data) {
        (Some(encoded), Some(original)) => (encoded, original),
        _ => {
            return ;
        },
    };
    let from: T = output_value(encoded, h.data_type);
    let to: T = output_value(original, h.data_type);
    let sentinel = from.to_f64();
    if sentinel.equals(to.to_f64()) {
        return ;
    }
    let depth: usize = h.depth as usize;
    let pixels: usize = h.width as usize * h.height as usize;
    let ghost before = samples@;
    let ghost wanted = remapped(
        before,
        blocks::mask_seq(entries),
        depth as int,
        Some((from, to)),
    );
    let mut x: usize = 0;
    while x < samples.len()
        invariant
            x <= samples@.len(),
            samples@.len() == before.len(),
            before.len() == pixels * depth,
            depth > 0,
            blocks::mask_fits(blocks::mask_seq(entries), pixels as nat),
            sentinel == from.promoted(),
            wanted == remapped(
                before,
                blocks::mask_seq(entries),
                depth as int,
                Some((from, to)),
            ),
            forall|j: int| 0 <= j < x ==> #[trigger] samples@[j] == wanted[j],
            forall|j: int| x <= j < samples@.len() ==> #[trigger] samples@[j] == before[j],
        decreases samples@.len() - x,
    {
        proof {
            assert((x as int) / (depth as int) < pixels) by {
                vstd::arithmetic::mul::lemma_mul_is_commutative(pixels as int, depth as int);
                vstd::arithmetic::div_mod::lemma_multiply_divide_lt(
                    x as int,
                    depth as int,
                    pixels as int,
                );
            }
        }
        if pixel_is_valid(entries, x / depth) && samples[x].to_f64().equals(sentinel) {
            samples.set(x, to);
        }
        x += 1;
    }
    proof {
        assert(samples@ =~= wanted);
    }
}

/// A borrowed view of an optional mask.
pub fn borrow_mask(entries: &Option<Vec<u8>>) -> (r: Option<&[u8]>)
    ensures
        blocks::mask_seq(r) == types::optional_seq(*entries),
{
    match entries {
        Some(m) => Some(m.as_slice()),
        None => None,
    }
}

/// The contents of a decoding result.
pub open spec fn decoded_view<T>(parts: (BlobInfo, Vec<T>, Option<Vec<u8>>)) -> (
    BlobFacts,
    Seq<T>,
    Option<Seq<u8>>,
) {
    (parts.0@, parts.1@, types::optional_seq(parts.2))
}

/// Decodes a Lerc2 blob to samples of type `T`.
pub fn decode_lerc2<T: Sample>(
    blob: &[u8],
    inherited: Option<&[u8]>,
    limited: bool,
) -> (r: Result<(BlobInfo, Vec<T>, Option<Vec<u8>>)>)
    ensures
        match r {
            Ok(parts) => decoded::<T>(blob@, blocks::mask_seq(inherited), limited) == Ok::<
                _,
                Fault,
            >(decoded_view(parts)) && parts.1@.len() == parts.0@.samples() && parts.0.blob_size
                <= blob@.len(),
            Err(e) => decoded::<T>(blob@, blocks::mask_seq(inherited), limited) == Err::<
                (BlobFacts, Seq<T>, Option<Seq<u8>>),
                _,
            >(e@),
        },
{
    let (h, mut cursor) = parse(blob)?;
    let pixels: usize = h.width as usize * h.height as usize;
    let count: usize = match pixels.checked_mul(h.depth as usize) {
        Some(count) => count,
        None => {
            return Err(Error::SizeOverflow("blob sample count"));
        },
    };
    if limited {
        check_allocation(count, T::data_type().byte_len(), "Lerc2 pixel output")?;
    }
    let mut samples: Vec<T> = filled(T::default_value(), count);
    let entries: Option<Vec<u8>> = read_mask(&mut cursor, &h, inherited)?;
    let (info, ranges) = read_public_depth_ranges(&mut cursor, &h)?;
    decode_pixels(&mut cursor, &h, &ranges, borrow_mask(&entries), &mut samples)?;
    if cursor.remaining() != 0 {
        return Err(
            Error::InvalidBlob(
                sentence(
                    "Lerc2 pixel payload contains ",
                    cursor.remaining() as u64,
                    " trailing bytes",
                ),
            ),
        );
    }
    remap_no_data(&mut samples, &h, borrow_mask(&entries));
    Ok((info, samples, entries))
}

/// Reads the metadata of a Lerc2 blob.
pub fn inspect_lerc2(blob: &[u8], inherited: Option<&[u8]>) -> (r: Result<BlobInfo>)
    ensures
        match r {
            Ok(info) => inspected(blob@, blocks::mask_seq(inherited)) == Ok::<_, Fault>(info@)
                && info.blob_size <= blob@.len(),
            Err(e) => inspected(blob@, blocks::mask_seq(inherited)) == Err::<BlobFacts, _>(e@),
        },
{
    let (h, mut cursor) = parse(blob)?;
    match h.mask_encoding {
        MaskEncoding::External => {
            if let Some(entries) = inherited {
                validate_external_mask(&h, entries)?;
            }
        },
        MaskEncoding::Explicit => {
            read_mask(&mut cursor, &h, None)?;
        },
        _ => {},
    }
    let (info, _) = read_public_depth_ranges(&mut cursor, &h)?;
    Ok(info)
}

/// Reads the metadata and the mask of a Lerc2 blob.
pub fn inspect_lerc2_with_mask(blob: &[u8], inherited: Option<&[u8]>) -> (r: Result<
    (BlobInfo, Option<Vec<u8>>),
>)
    ensures
        match r {
            Ok((info, entries)) => inspected_with_mask(blob@, blocks::mask_seq(inherited)) == Ok::<
                _,
                Fault,
            >((info@, types::optional_seq(entries))) && info.blob_size <= blob@.len()
                && blocks::mask_fits(types::optional_seq(entries), info@.pixels()),
            Err(e) => inspected_with_mask(blob@, blocks::mask_seq(inherited)) == Err::<
                (BlobFacts, Option<Seq<u8>>),
                _,
            >(e@),
        },
{
    let (h, mut cursor) = parse(blob)?;
    let entries: Option<Vec<u8>> = read_mask(&mut cursor, &h, inherited)?;
    let (info, _) = read_public_depth_ranges(&mut cursor, &h)?;
    Ok((info, entries))
}

} // verus!
