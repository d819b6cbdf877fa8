//! What an encoder has to know of a raster: valid pixels, value ranges, and the sentinel.

use crate::blocks;
use crate::blocks::{list_run, pixel_is_valid};
use crate::error::{Error, Fault, Result};
use crate::float;
use crate::float::Double;
use crate::lerc2::borrow_mask;
use crate::lerc2_body;
use crate::lerc2_body::{gather, DepthRanges};
use crate::no_data;
use crate::no_data::{check_sentinel, effective_max_z_error, resolve_no_data_encoding};
use crate::options::EncodeOptions;
use crate::raster;
use crate::sample::Sample;
use crate::types;
use crate::types::copy_vec;
use crate::values;
use crate::values::promote_all;
use vstd::prelude::*;

verus! {

/// Whether a number is the sentinel.
pub open spec fn is_sentinel(value: Double, skip: Option<Double>) -> bool {
    match skip {
        Some(nd) => value.same(nd),
        None => false,
    }
}

/// The smallest of the numbers other than the sentinel, or infinity.
pub open spec fn lowest(found: Seq<Double>, skip: Option<Double>) -> Double
    decreases found.len(),
{
    if found.len() == 0 {
        Double { bits: float::DOUBLE_INFINITY }
    } else {
        let before = lowest(found.drop_last(), skip);
        if is_sentinel(found.last(), skip) {
            before
        } else {
            before.lesser(found.last())
        }
    }
}

/// The largest of the numbers other than the sentinel, or minus infinity.
pub open spec fn highest(found: Seq<Double>, skip: Option<Double>) -> Double
    decreases found.len(),
{
    if found.len() == 0 {
        Double { bits: (float::DOUBLE_SIGN + float::DOUBLE_INFINITY) as u64 }
    } else {
        let before = highest(found.drop_last(), skip);
        if is_sentinel(found.last(), skip) {
            before
        } else {
            before.greater(found.last())
        }
    }
}

/// Whether the sentinel occurs.
pub open spec fn occurs(found: Seq<Double>, nd: Double) -> bool {
    exists|i: int| 0 <= i < found.len() && (#[trigger] found[i]).same(nd)
}

/// The samples of the listed pixels at one depth, as doubles.
pub open spec fn depth_values<T: Sample>(
    samples: Seq<T>,
    list: Seq<int>,
    depth: nat,
    dim: int,
) -> Seq<Double> {
    values::promoted_all(lerc2_body::gathered(samples, list, depth as int, dim))
}

/// Whether a pixel is nothing but sentinels.
pub open spec fn all_no_data<T: Sample>(samples: Seq<T>, depth: nat, pixel: int, nd: Double) -> bool {
    forall|dim: int|
        0 <= dim < depth ==> (#[trigger] samples[pixel * depth as int + dim]).promoted().same(nd)
}

/// Whether a pixel holds a sentinel.
pub open spec fn some_no_data<T: Sample>(samples: Seq<T>, depth: nat, pixel: int, nd: Double) -> bool {
    exists|dim: int|
        0 <= dim < depth && (#[trigger] samples[pixel * depth as int + dim]).promoted().same(nd)
}

/// Whether every sample of a pixel is an ordinary number.
pub open spec fn pixel_finite<T: Sample>(samples: Seq<T>, depth: nat, pixel: int) -> bool {
    forall|dim: int|
        0 <= dim < depth ==> (#[trigger] samples[pixel * depth as int + dim]).promoted().finite()
}

/// Whether the valid pixels hold ordinary numbers only.
pub open spec fn valid_finite<T: Sample>(
    samples: Seq<T>,
    pixels: nat,
    depth: nat,
    mask: Option<Seq<u8>>,
) -> bool {
    forall|p: int|
        0 <= p < pixels && #[trigger] blocks::is_valid(mask, p) ==> pixel_finite(samples, depth, p)
}

/// Whether a valid pixel is nothing but sentinels.
pub open spec fn emptied<T: Sample>(
    samples: Seq<T>,
    pixels: nat,
    depth: nat,
    mask: Option<Seq<u8>>,
    nd: Double,
) -> bool {
    exists|p: int|
        0 <= p < pixels && #[trigger] blocks::is_valid(mask, p) && all_no_data(
            samples,
            depth,
            p,
            nd,
        )
}

/// Whether a valid pixel holds both the sentinel and something else.
pub open spec fn mixed<T: Sample>(
    samples: Seq<T>,
    pixels: nat,
    depth: nat,
    mask: Option<Seq<u8>>,
    nd: Double,
) -> bool {
    exists|p: int|
        0 <= p < pixels && #[trigger] blocks::is_valid(mask, p) && some_no_data(
            samples,
            depth,
            p,
            nd,
        ) && !all_no_data(samples, depth, p, nd)
}

/// The mask without the pixels that are nothing but sentinels.
pub open spec fn narrowed_mask<T: Sample>(
    samples: Seq<T>,
    pixels: nat,
    depth: nat,
    mask: Option<Seq<u8>>,
    nd: Double,
) -> Seq<u8> {
    Seq::new(
        pixels,
        |p: int|
            if blocks::is_valid(mask, p) && all_no_data(samples, depth, p, nd) {
                0u8
            } else {
                match mask {
                    Some(entries) => entries[p],
                    None => 1u8,
                }
            },
    )
}

/// Whether the sentinel changes the mask.
pub open spec fn mask_derived<T: Sample>(
    samples: Seq<T>,
    pixels: nat,
    depth: nat,
    mask: Option<Seq<u8>>,
    nd: Option<Double>,
) -> bool {
    match nd {
        Some(v) => emptied(samples, pixels, depth, mask, v),
        None => false,
    }
}

/// The mask that is encoded.
pub open spec fn final_mask<T: Sample>(
    samples: Seq<T>,
    pixels: nat,
    depth: nat,
    mask: Option<Seq<u8>>,
    nd: Option<Double>,
) -> Option<Seq<u8>> {
    if mask_derived(samples, pixels, depth, mask, nd) {
        Some(narrowed_mask(samples, pixels, depth, mask, nd->0))
    } else {
        mask
    }
}

/// The bounds of each depth, the stand-in for the sentinel counted where the sentinel occurs.
pub open spec fn depth_lows<T: Sample>(
    samples: Seq<T>,
    list: Seq<int>,
    depth: nat,
    nd: Option<Double>,
    counted: Option<Double>,
) -> Seq<Double> {
    Seq::new(
        depth,
        |dim: int|
            {
                let found = depth_values(samples, list, depth, dim);
                match counted {
                    Some(v) => if occurs(found, nd->0) {
                        lowest(found, nd).lesser(v)
                    } else {
                        lowest(found, nd)
                    },
                    None => lowest(found, nd),
                }
            },
    )
}

/// The upper bounds of each depth.
pub open spec fn depth_highs<T: Sample>(
    samples: Seq<T>,
    list: Seq<int>,
    depth: nat,
    nd: Option<Double>,
    counted: Option<Double>,
) -> Seq<Double> {
    Seq::new(
        depth,
        |dim: int|
            {
                let found = depth_values(samples, list, depth, dim);
                match counted {
                    Some(v) => if occurs(found, nd->0) {
                        highest(found, nd).greater(v)
                    } else {
                        highest(found, nd)
                    },
                    None => highest(found, nd),
                }
            },
    )
}

/// The samples with the sentinel replaced by what stands for it.
pub open spec fn replaced<T: Sample>(samples: Seq<T>, original: Double, encoded: Double) -> Seq<T> {
    let from = T::demoted(original);
    let to = T::demoted(encoded);
    if from.promoted().same(to.promoted()) {
        samples
    } else {
        Seq::new(
            samples.len(),
            |x: int|
                if samples[x].promoted().same(from.promoted()) {
                    to
                } else {
                    samples[x]
                },
        )
    }
}

/// What the analysis of a raster finds.
#[verifier::ext_equal]
pub struct Findings<T> {
    /// The mask that is encoded.
    pub mask: Option<Seq<u8>>,
    /// Whether the sentinel changed the mask.
    pub derived: bool,
    /// The number of valid pixels.
    pub valid: nat,
    pub max_z_error: Double,
    pub z_min: Double,
    pub z_max: Double,
    /// Whether a sentinel was asked for.
    pub sentinel: bool,
    /// The sentinel and what stands for it, where it stands beside other samples of a pixel.
    pub original_no_data: Option<Double>,
    pub encoded_no_data: Option<Double>,
    /// The bounds of each depth, unless all samples are the same.
    pub ranges: Option<(Seq<Double>, Seq<Double>)>,
    /// The samples that are encoded.
    pub samples: Seq<T>,
    /// Whether the samples may be Huffman coded.
    pub codable: bool,
}

/// The stand-in for the sentinel and the error bound that goes with it.
pub open spec fn settled<T: Sample>(
    samples: Seq<T>,
    pixels: nat,
    depth: nat,
    mask: Option<Seq<u8>>,
    nd: Option<Double>,
    requested: Double,
) -> (Double, Option<Double>) {
    let list = blocks::run_pixels(final_mask(samples, pixels, depth, mask, nd), 0, pixels);
    let bound = no_data::effective_error(T::kind(), requested);
    if nd is Some && mixed(samples, pixels, depth, mask, nd->0) {
        let low = lowest(depth_lows(samples, list, depth, nd, None), None);
        let high = highest(depth_highs(samples, list, depth, nd, None), None);
        let (error, encoded) = no_data::stand_in::<T>(nd->0, low, high, bound);
        (error, Some(encoded))
    } else {
        (bound, None)
    }
}

/// What is found in a raster whose sentinel is known.
pub open spec fn found_in<T: Sample>(
    samples: Seq<T>,
    pixels: nat,
    depth: nat,
    mask: Option<Seq<u8>>,
    nd: Option<Double>,
    options: EncodeOptions,
) -> Findings<T> {
    let entries = final_mask(samples, pixels, depth, mask, nd);
    let list = blocks::run_pixels(entries, 0, pixels);
    let (error, encoded) = settled(samples, pixels, depth, mask, nd, options.max_z_error);
    let original = if encoded is Some {
        options.no_data_value
    } else {
        None
    };
    let lows = depth_lows(samples, list, depth, nd, encoded);
    let highs = depth_highs(samples, list, depth, nd, encoded);
    let zero = Double { bits: 0 };
    let z_min = if list.len() == 0 {
        zero
    } else {
        lowest(lows, None)
    };
    let z_max = if list.len() == 0 {
        zero
    } else {
        highest(highs, None)
    };
    Findings {
        mask: entries,
        derived: mask_derived(samples, pixels, depth, mask, nd),
        valid: list.len(),
        max_z_error: error,
        z_min,
        z_max,
        sentinel: options.no_data_value is Some,
        original_no_data: original,
        encoded_no_data: encoded,
        ranges: if list.len() != 0 && !z_min.same(z_max) {
            Some((lows, highs))
        } else {
            None
        },
        samples: if original is Some && encoded is Some {
            replaced(samples, original->0, encoded->0)
        } else {
            samples
        },
        codable: match (encoded, nd) {
            (None, None) => true,
            (Some(a), Some(b)) => a.same(b),
            _ => false,
        },
    }
}

/// The outcome of analysing a raster.
pub open spec fn analysed<T: Sample>(
    samples: Seq<T>,
    pixels: nat,
    depth: nat,
    mask: Option<Seq<u8>>,
    options: EncodeOptions,
) -> std::result::Result<Findings<T>, Fault> {
    match no_data::sentinel::<T>(options.no_data_value, depth) {
        Err(e) => Err(e),
        Ok(nd) => if !valid_finite(samples, pixels, depth, mask) {
            Err(Fault::InvalidArgument("valid raster samples must be finite"@))
        } else {
            let found = found_in(samples, pixels, depth, mask, nd, options);
            if found.valid > u32::MAX {
                Err(Fault::SizeOverflow("valid pixel count as u32"@))
            } else {
                Ok(found)
            }
        },
    }
}

/// What the analysis of a raster found.
pub struct RasterAnalysis<T> {
    pub mask: Option<Vec<u8>>,
    pub derived: bool,
    pub valid: u32,
    pub max_z_error: Double,
    pub z_min: Double,
    pub z_max: Double,
    pub sentinel: bool,
    pub original_no_data: Option<Double>,
    pub encoded_no_data: Option<Double>,
    pub ranges: Option<DepthRanges>,
    pub samples: Vec<T>,
    pub codable: bool,
}

impl<T: Sample> View for RasterAnalysis<T> {
    type V = Findings<T>;

    open spec fn view(&self) -> Findings<T> {
        Findings {
            mask: types::optional_seq(self.mask),
            derived: self.derived,
            valid: self.valid as nat,
            max_z_error: self.max_z_error,
            z_min: self.z_min,
            z_max: self.z_max,
            sentinel: self.sentinel,
            original_no_data: self.original_no_data,
            encoded_no_data: self.encoded_no_data,
            ranges: lerc2_body::ranges_seq(self.ranges),
            samples: self.samples@,
            codable: self.codable,
        }
    }
}

/// The bounds of some numbers and whether the sentinel is among them.
fn bounds_of(found: &Vec<Double>, skip: Option<Double>) -> (r: (Double, Double, bool))
    ensures
        r.0 == lowest(found@, skip),
        r.1 == highest(found@, skip),
        skip is None ==> !r.2,
        skip matches Some(nd) ==> r.2 == occurs(found@, nd),
{
    let mut low = Double { bits: float::DOUBLE_INFINITY };
    let mut high = Double { bits: float::DOUBLE_SIGN + float::DOUBLE_INFINITY };
    let mut seen = false;
    let mut i: usize = 0;
    assert(found@.subrange(0, 0) =~= seq![]);
    while i < found.len()
        invariant
            i <= found@.len(),
            low == lowest(found@.subrange(0, i as int), skip),
            high == highest(found@.subrange(0, i as int), skip),
            skip is None ==> !seen,
            skip matches Some(nd) ==> (seen <==> exists|j: int|
                0 <= j < i && (#[trigger] found@[j]).same(nd)),
        decreases found@.len() - i,
    {
        proof {
            assert(found@.subrange(0, i + 1).drop_last() =~= found@.subrange(0, i as int));
        }
        let value = found[i];
        let skipped = match skip {
            Some(nd) => value.equals(nd),
            None => false,
        };
        if skipped {
            seen = true;
        } else {
            low = low.min(value);
            high = high.max(value);
        }
        i += 1;
    }
    assert(found@.subrange(0, found@.len() as int) =~= found@);
    (low, high, seen)
}

/// Whether every sample of a pixel is an ordinary number.
fn is_pixel_finite<T: Sample>(samples: &Vec<T>, depth: usize, pixel: usize, total: usize) -> (r: bool)
    requires
        pixel < total,
        samples@.len() == total * depth,
    ensures
        r == pixel_finite(samples@, depth as nat, pixel as int),
{
    let _len: usize = samples.len();
    let mut dim: usize = 0;
    while dim < depth
        invariant
            dim <= depth,
            pixel < total,
            samples@.len() == total * depth,
            samples@.len() <= usize::MAX,
            forall|d: int|
                0 <= d < dim ==> (#[trigger] samples@[pixel * depth as int + d]).promoted().finite(),
        decreases depth - dim,
    {
        proof {
            raster::lemma_sample_index(pixel as nat, depth as nat, dim as nat, total as nat);
        }
        if !samples[raster::sample_index(pixel, depth, dim)].to_f64().is_finite() {
            return false;
        }
        dim += 1;
    }
    true
}

/// Whether the valid pixels hold ordinary numbers only.
fn are_valid_finite<T: Sample>(
    samples: &Vec<T>,
    mask: Option<&[u8]>,
    depth: usize,
    total: usize,
) -> (r: bool)
    requires
        samples@.len() == total * depth,
        blocks::mask_fits(blocks::mask_seq(mask), total as nat),
    ensures
        r == valid_finite(samples@, total as nat, depth as nat, blocks::mask_seq(mask)),
{
    let ghost entries = blocks::mask_seq(mask);
    let mut pixel: usize = 0;
    while pixel < total
        invariant
            pixel <= total,
            samples@.len() == total * depth,
            entries == blocks::mask_seq(mask),
            blocks::mask_fits(entries, total as nat),
            forall|p: int|
                0 <= p < pixel && #[trigger] blocks::is_valid(entries, p) ==> pixel_finite(
                    samples@,
                    depth as nat,
                    p,
                ),
        decreases total - pixel,
    {
        if pixel_is_valid(mask, pixel) && !is_pixel_finite(samples, depth, pixel, total) {
            return false;
        }
        pixel += 1;
    }
    true
}

/// Whether the samples of a pixel are all sentinels, and whether some are.
fn sentinels_in<T: Sample>(
    samples: &Vec<T>,
    depth: usize,
    pixel: usize,
    total: usize,
    nd: Double,
) -> (r: (bool, bool))
    requires
        pixel < total,
        samples@.len() == total * depth,
    ensures
        r.0 == all_no_data(samples@, depth as nat, pixel as int, nd),
        r.1 == some_no_data(samples@, depth as nat, pixel as int, nd),
{
    let _len: usize = samples.len();
    let mut every = true;
    let mut any = false;
    let mut dim: usize = 0;
    while dim < depth
        invariant
            dim <= depth,
            pixel < total,
            samples@.len() == total * depth,
            samples@.len() <= usize::MAX,
            every <==> (forall|d: int|
                0 <= d < dim ==> (#[trigger] samples@[pixel * depth as int + d]).promoted().same(
                    nd,
                )),
            any <==> (exists|d: int|
                0 <= d < dim && (#[trigger] samples@[pixel * depth as int + d]).promoted().same(nd)),
        decreases depth - dim,
    {
        proof {
            raster::lemma_sample_index(pixel as nat, depth as nat, dim as nat, total as nat);
        }
        if samples[raster::sample_index(pixel, depth, dim)].to_f64().equals(nd) {
            any = true;
        } else {
            every = false;
        }
        dim += 1;
    }
    (every, any)
}

/// Looks for sentinels: the narrowed mask where it differs, and whether a pixel is mixed.
fn filter_no_data<T: Sample>(
    samples: &Vec<T>,
    mask: Option<&[u8]>,
    depth: usize,
    total: usize,
    nd: Double,
) -> (r: (Option<Vec<u8>>, bool))
    requires
        samples@.len() == total * depth,
        blocks::mask_fits(blocks::mask_seq(mask), total as nat),
    ensures
        match r.0 {
            Some(entries) => emptied(
                samples@,
                total as nat,
                depth as nat,
                blocks::mask_seq(mask),
                nd,
            ) && entries@ == narrowed_mask(
                samples@,
                total as nat,
                depth as nat,
                blocks::mask_seq(mask),
                nd,
            ),
            None => !emptied(samples@, total as nat, depth as nat, blocks::mask_seq(mask), nd),
        },
        r.1 == mixed(samples@, total as nat, depth as nat, blocks::mask_seq(mask), nd),
{
    let ghost entries = blocks::mask_seq(mask);
    let ghost target = narrowed_mask(samples@, total as nat, depth as nat, entries, nd);
    let mut out: Vec<u8> = Vec::new();
    let mut dropped = false;
    let mut both = false;
    let mut pixel: usize = 0;
    while pixel < total
        invariant
            pixel <= total,
            samples@.len() == total * depth,
            entries == blocks::mask_seq(mask),
            blocks::mask_fits(entries, total as nat),
            target == narrowed_mask(samples@, total as nat, depth as nat, entries, nd),
            out@ =~= target.subrange(0, pixel as int),
            dropped <==> exists|p: int|
                0 <= p < pixel && #[trigger] blocks::is_valid(entries, p) && all_no_data(
                    samples@,
                    depth as nat,
                    p,
                    nd,
                ),
            both <==> exists|p: int|
                0 <= p < pixel && #[trigger] blocks::is_valid(entries, p) && some_no_data(
                    samples@,
                    depth as nat,
                    p,
                    nd,
                ) && !all_no_data(samples@, depth as nat, p, nd),
        decreases total - pixel,
    {
        let entry: u8 = match mask {
            Some(m) => m[pixel],
            None => 1,
        };
        let (every, any) = sentinels_in(samples, depth, pixel, total, nd);
        assert(blocks::is_valid(entries, pixel as int) == (entry != 0));
        if entry != 0 && every {
            dropped = true;
            out.push(0);
        } else {
            if entry != 0 && any {
                both = true;
            }
            out.push(entry);
        }
        pixel += 1;
    }
    assert(out@ =~= target);
    if dropped {
        (Some(out), both)
    } else {
        (None, both)
    }
}

/// The bounds of every depth.
struct DepthBounds {
    lows: Vec<Double>,
    highs: Vec<Double>,
    seen: Vec<bool>,
}

fn bounds_by_depth<T: Sample>(
    samples: &Vec<T>,
    pixels: &Vec<usize>,
    depth: usize,
    total: usize,
    nd: Option<Double>,
) -> (r: DepthBounds)
    requires
        samples@.len() == total * depth,
        forall|i: int| 0 <= i < pixels@.len() ==> #[trigger] pixels@[i] < total,
    ensures
        r.lows@ == depth_lows(
            samples@,
            pixels@.map_values(|p: usize| p as int),
            depth as nat,
            nd,
            None,
        ),
        r.highs@ == depth_highs(
            samples@,
            pixels@.map_values(|p: usize| p as int),
            depth as nat,
            nd,
            None,
        ),
        r.seen@.len() == depth,
        nd matches Some(v) ==> forall|dim: int|
            0 <= dim < depth ==> #[trigger] r.seen@[dim] == occurs(
                depth_values(
                    samples@,
                    pixels@.map_values(|p: usize| p as int),
                    depth as nat,
                    dim,
                ),
                v,
            ),
{
    let ghost list = pixels@.map_values(|p: usize| p as int);
    let ghost all_lows = depth_lows(samples@, list, depth as nat, nd, None);
    let ghost all_highs = depth_highs(samples@, list, depth as nat, nd, None);
    let mut lows: Vec<Double> = Vec::new();
    let mut highs: Vec<Double> = Vec::new();
    let mut seen: Vec<bool> = Vec::new();
    let mut dim: usize = 0;
    while dim < depth
        invariant
            dim <= depth,
            samples@.len() == total * depth,
            forall|i: int| 0 <= i < pixels@.len() ==> #[trigger] pixels@[i] < total,
            list == pixels@.map_values(|p: usize| p as int),
            all_lows == depth_lows(samples@, list, depth as nat, nd, None),
            all_highs == depth_highs(samples@, list, depth as nat, nd, None),
            lows@ =~= all_lows.subrange(0, dim as int),
            highs@ =~= all_highs.subrange(0, dim as int),
            seen@.len() == dim,
            nd matches Some(v) ==> forall|d: int|
                0 <= d < dim ==> #[trigger] seen@[d] == occurs(
                    depth_values(samples@, list, depth as nat, d),
                    v,
                ),
        decreases depth - dim,
    {
        let gathered: Vec<T> = gather(samples, pixels, depth, dim, total);
        let found: Vec<Double> = promote_all(gathered.as_slice());
        let (low, high, any) = bounds_of(&found, nd);
        lows.push(low);
        highs.push(high);
        seen.push(any);
        dim += 1;
    }
    assert(lows@ =~= all_lows);
    assert(highs@ =~= all_highs);
    DepthBounds { lows, highs, seen }
}

/// Counts the stand-in where the sentinel occurs.
fn count_stand_in(bounds: &mut DepthBounds, value: Double)
    requires
        old(bounds).lows@.len() == old(bounds).seen@.len(),
        old(bounds).highs@.len() == old(bounds).seen@.len(),
    ensures
        final(bounds).seen@ == old(bounds).seen@,
        final(bounds).lows@ == Seq::new(
            old(bounds).seen@.len(),
            |dim: int|
                if old(bounds).seen@[dim] {
                    old(bounds).lows@[dim].lesser(value)
                } else {
                    old(bounds).lows@[dim]
                },
        ),
        final(bounds).highs@ == Seq::new(
            old(bounds).seen@.len(),
            |dim: int|
                if old(bounds).seen@[dim] {
                    old(bounds).highs@[dim].greater(value)
                } else {
                    old(bounds).highs@[dim]
                },
        ),
{
    let ghost lows = bounds.lows@;
    let ghost highs = bounds.highs@;
    let ghost seen = bounds.seen@;
    let mut dim: usize = 0;
    while dim < bounds.seen.len()
        invariant
            dim <= seen.len(),
            bounds.seen@ == seen,
            lows.len() == seen.len(),
            highs.len() == seen.len(),
            bounds.lows@.len() == seen.len(),
            bounds.highs@.len() == seen.len(),
            forall|d: int|
                0 <= d < seen.len() ==> #[trigger] bounds.lows@[d] == if d < dim && seen[d] {
                    lows[d].lesser(value)
                } else {
                    lows[d]
                },
            forall|d: int|
                0 <= d < seen.len() ==> #[trigger] bounds.highs@[d] == if d < dim && seen[d] {
                    highs[d].greater(value)
                } else {
                    highs[d]
                },
        decreases seen.len() - dim,
    {
        if bounds.seen[dim] {
            let low = bounds.lows[dim].min(value);
            bounds.lows.set(dim, low);
            let high = bounds.highs[dim].max(value);
            bounds.highs.set(dim, high);
        }
        dim += 1;
    }
    assert(bounds.lows@ =~= Seq::new(
        seen.len(),
        |d: int|
            if seen[d] {
                lows[d].lesser(value)
            } else {
                lows[d]
            },
    ));
    assert(bounds.highs@ =~= Seq::new(
        seen.len(),
        |d: int|
            if seen[d] {
                highs[d].greater(value)
            } else {
                highs[d]
            },
    ));
}

/// Replaces the sentinel by what stands for it.
fn replace_sentinel<T: Sample>(samples: &mut Vec<T>, original: Double, encoded: Double)
    ensures
        final(samples)@ == replaced(old(samples)@, original, encoded),
{
    let from = T::from_f64(original);
    let to = T::from_f64(encoded);
    if from.to_f64().equals(to.to_f64()) {
        return ;
    }
    let ghost before = samples@;
    let mut i: usize = 0;
    while i < samples.len()
        invariant
            i <= samples@.len(),
            samples@.len() == before.len(),
            forall|x: int|
                0 <= x < before.len() ==> #[trigger] samples@[x] == if x < i
                    && before[x].promoted().same(from.promoted()) {
                    to
                } else {
                    before[x]
                },
        decreases samples@.len() - i,
    {
        if samples[i].to_f64().equals(from.to_f64()) {
            samples.set(i, to);
        }
        i += 1;
    }
    assert(samples@ =~= replaced(before, original, encoded));
}

/// Analyses a raster.
#[verifier::rlimit(60)]
pub fn prepare_raster<T: Sample>(
    samples: Vec<T>,
    mask: Option<&[u8]>,
    depth: u32,
    total: usize,
    options: EncodeOptions,
) -> (r: Result<RasterAnalysis<T>>)
    requires
        depth > 0,
        samples@.len() == total * depth,
        blocks::mask_fits(blocks::mask_seq(mask), total as nat),
        options.max_z_error.finite(),
    ensures
        match r {
            Ok(analysis) => analysed(
                samples@,
                total as nat,
                depth as nat,
                blocks::mask_seq(mask),
                options,
            ) == Ok::<_, Fault>(analysis@),
            Err(e) => analysed(
                samples@,
                total as nat,
                depth as nat,
                blocks::mask_seq(mask),
                options,
            ) == Err::<Findings<T>, _>(e@),
        },
{
    let layers: usize = depth as usize;
    let nd: Option<Double> = check_sentinel::<T>(options.no_data_value, depth)?;
    if !are_valid_finite(&samples, mask, layers, total) {
        return Err(Error::InvalidArgument("valid raster samples must be finite"));
    }
    let ghost given = blocks::mask_seq(mask);
    let (narrowed, both) = match nd {
        Some(v) => filter_no_data(&samples, mask, layers, total, v),
        None => (None, false),
    };
    let derived = narrowed.is_some();
    let entries: Option<Vec<u8>> = match narrowed {
        Some(found) => Some(found),
        None => match mask {
            Some(m) => Some(copy_vec(m)),
            None => None,
        },
    };
    let ghost list = blocks::run_pixels(types::optional_seq(entries), 0, total as nat);
    proof {
        assert(types::optional_seq(entries) == final_mask(
            samples@,
            total as nat,
            depth as nat,
            given,
            nd,
        ));
        blocks::lemma_run_pixels(types::optional_seq(entries), 0, total as nat);
    }
    let pixels: Vec<usize> = list_run(borrow_mask(&entries), total);
    assert forall|i: int| 0 <= i < pixels@.len() implies #[trigger] pixels@[i] < total by {
        assert(list[i] == pixels@[i]);
    }
    let mut bounds = bounds_by_depth(&samples, &pixels, layers, total, nd);
    let mut error = effective_max_z_error(T::data_type(), options.max_z_error);
    let mut encoded: Option<Double> = None;
    proof {
        lemma_effective_finite(T::kind(), options.max_z_error);
    }
    if both {
        let (low, _, _) = bounds_of(&bounds.lows, None);
        let (_, high, _) = bounds_of(&bounds.highs, None);
        if let Some(v) = nd {
            let (bound, stand_in) = resolve_no_data_encoding::<T>(v, low, high, error);
            error = bound;
            encoded = Some(stand_in);
            count_stand_in(&mut bounds, stand_in);
        }
    }
    proof {
        assert((error, encoded) == settled(
            samples@,
            total as nat,
            depth as nat,
            given,
            nd,
            options.max_z_error,
        ));
        assert(bounds.lows@ =~= depth_lows(samples@, list, depth as nat, nd, encoded));
        assert(bounds.highs@ =~= depth_highs(samples@, list, depth as nat, nd, encoded));
    }
    if pixels.len() > 0xffff_ffff {
        return Err(Error::SizeOverflow("valid pixel count as u32"));
    }
    let zero = Double { bits: 0 };
    let (z_min, _, _) = if pixels.len() == 0 {
        (zero, zero, false)
    } else {
        bounds_of(&bounds.lows, None)
    };
    let (_, z_max, _) = if pixels.len() == 0 {
        (zero, zero, false)
    } else {
        bounds_of(&bounds.highs, None)
    };
    let original: Option<Double> = if encoded.is_some() { options.no_data_value } else { None };
    let ranges: Option<DepthRanges> = if pixels.len() != 0 && !z_min.equals(z_max) {
        Some(DepthRanges { min_values: bounds.lows, max_values: bounds.highs })
    } else {
        None
    };
    let codable = match (encoded, nd) {
        (None, None) => true,
        (Some(a), Some(b)) => a.equals(b),
        _ => false,
    };
    let ghost before = samples@;
    let mut stored: Vec<T> = samples;
    if let (Some(from), Some(to)) = (original, encoded) {
        replace_sentinel(&mut stored, from, to);
    }
    let analysis = RasterAnalysis {
        mask: entries,
        derived,
        valid: pixels.len() as u32,
        max_z_error: error,
        z_min,
        z_max,
        sentinel: options.no_data_value.is_some(),
        original_no_data: original,
        encoded_no_data: encoded,
        ranges,
        samples: stored,
        codable,
    };
    proof {
        let found = found_in(before, total as nat, depth as nat, given, nd, options);
        assert(analysis@.ranges == found.ranges);
        assert(analysis@ =~= found);
    }
    Ok(analysis)
}

/// An error bound stays finite.
proof fn lemma_effective_finite(data_type: crate::types::DataType, requested: Double)
    requires
        requested.finite(),
    ensures
        no_data::effective_error(data_type, requested).finite(),
{
    if requested.exponent() < 1074 {
        float::lemma_floored_finite(requested);
    }
}

} // verus!
