//! Choosing the body of a blob: the shortest of the possible encodings.

use crate::analysis::{Findings, RasterAnalysis};
use crate::blocks;
use crate::error::{Error, Fault, Result};
use crate::float::Double;
use crate::huffman_writer;
use crate::huffman_writer::{list_delta, list_plain, plan_huffman, write_huffman, HuffmanPlan};
use crate::lerc2;
use crate::lerc2::borrow_mask;
use crate::lerc2_body;
use crate::lerc2_body::{needs_encode_mode_flag, ranges_seq, supports_integer_huffman};
use crate::raster;
use crate::sample::Sample;
use crate::tiling;
use crate::tiling::{plan_tiles, write_tiles, PlacedShape, TilingOptions, TilingPlan};
use crate::types::DataType;
use crate::values;
use vstd::prelude::*;

verus! {

/// The shape of a raster and of the blocks it is divided into.
#[derive(Debug, Clone, Copy)]
pub struct Frame {
    pub width: u32,
    pub height: u32,
    pub depth: u32,
    pub micro_block_size: u32,
}

impl Frame {
    /// `width * height`.
    pub open spec fn pixels(self) -> nat {
        self.width as nat * self.height as nat
    }

    /// The depth and the block size are usable, the pixels can be counted.
    pub open spec fn wf(self) -> bool {
        &&& self.depth > 0
        &&& 2 <= self.micro_block_size <= 32
        &&& self.pixels() <= usize::MAX
        &&& self.pixels() * self.depth as nat <= usize::MAX
    }

    /// The blocks, stored with an error bound.
    pub open spec fn tiling(self, max_z_error: Double) -> TilingOptions {
        TilingOptions {
            width: self.width,
            height: self.height,
            depth: self.depth,
            micro_block_size: self.micro_block_size,
            max_z_error,
        }
    }
}

/// The body of a blob.
#[verifier::ext_equal]
pub enum BodyShape {
    /// All samples of a depth are the same: nothing is stored.
    Empty,
    /// The samples as they are.
    Sweep,
    Tiled(Seq<PlacedShape>),
    /// Coded symbols, of differences if the flag is set.
    Huffman(bool, Seq<u8>),
}

/// The version that a blob needs: the sixth where a sentinel was asked for.
pub open spec fn needed_version(sentinel: bool, version: u32) -> u32 {
    if sentinel {
        6
    } else {
        version
    }
}

/// Whether all samples of each depth are the same.
pub open spec fn constant<T>(found: Findings<T>) -> bool {
    found.valid == 0 || found.z_min.same(found.z_max) || (found.ranges matches Some((low, high))
        && lerc2::all_same(low, high))
}

/// The symbols of the samples.
pub open spec fn plain_of<T: Sample>(found: Findings<T>, frame: Frame) -> Seq<u8> {
    huffman_writer::plain_symbols(
        frame.depth as int,
        T::kind() == DataType::I8,
        blocks::run_pixels(found.mask, 0, frame.pixels()),
        found.samples,
        0,
        0,
    )
}

/// The symbols of the differences.
pub open spec fn delta_of<T: Sample>(found: Findings<T>, frame: Frame) -> Seq<u8> {
    huffman_writer::delta_symbols(
        found.mask,
        frame.width as int,
        frame.depth as int,
        T::kind() == DataType::I8,
        blocks::run_pixels(found.mask, 0, frame.pixels()),
        found.samples,
        0,
        0,
        0,
    )
}

/// The outcome of looking for a Huffman encoding.
pub open spec fn coded<T: Sample>(found: Findings<T>, frame: Frame) -> std::result::Result<
    Option<(bool, nat)>,
    Fault,
> {
    if found.codable && lerc2_body::huffman_possible(T::kind(), found.max_z_error) {
        huffman_writer::huffman_choice(plain_of(found, frame), delta_of(found, frame))
    } else {
        Ok(None)
    }
}

/// The choice between tiles, Huffman codes and plain samples, given the tiles.
pub open spec fn body_among<T: Sample>(
    found: Findings<T>,
    frame: Frame,
    tiles: Seq<PlacedShape>,
) -> std::result::Result<(u32, BodyShape), Fault> {
    let sentinel = found.sentinel;
    let tiles_version = needed_version(sentinel, tiling::tiles_version(tiles));
    let flag: nat = if lerc2_body::has_mode(T::kind(), found.max_z_error, tiles_version) {
        1
    } else {
        0
    };
    let tiled = tiling::tiles_size(tiles) + flag;
    let sweep = found.valid * frame.depth as nat * T::kind().width();
    if tiled > usize::MAX {
        Err(Fault::SizeOverflow("tiled body byte count"@))
    } else {
        match coded(found, frame) {
            Err(e) => Err(e),
            Ok(choice) => {
                let chosen = match choice {
                    Some((delta, size)) => if size + 1 < tiled {
                        choice
                    } else {
                        None
                    },
                    None => None,
                };
                let best = match chosen {
                    Some((_, size)) => size + 1,
                    None => tiled,
                };
                if sweep > usize::MAX {
                    Err(Fault::SizeOverflow("one-sweep byte count"@))
                } else if sweep <= best {
                    Ok((needed_version(sentinel, 4), BodyShape::Sweep))
                } else {
                    match chosen {
                        Some((delta, _)) => Ok(
                            (
                                needed_version(sentinel, 4),
                                BodyShape::Huffman(
                                    delta,
                                    if delta {
                                        delta_of(found, frame)
                                    } else {
                                        plain_of(found, frame)
                                    },
                                ),
                            ),
                        ),
                        None => Ok((tiles_version, BodyShape::Tiled(tiles))),
                    }
                }
            },
        }
    }
}

/// The outcome of planning a blob: its version and its body.
pub open spec fn body_planned<T: Sample>(found: Findings<T>, frame: Frame) -> std::result::Result<
    (u32, BodyShape),
    Fault,
> {
    let tiles = tiling::planned(
        frame.tiling(found.max_z_error),
        found.mask,
        found.samples,
        0,
        0,
        0,
    );
    if constant(found) {
        Ok((needed_version(found.sentinel, 4), BodyShape::Empty))
    } else {
        match tiling::tiling_fault(tiles) {
            Some(e) => Err(e),
            None => body_among(found, frame, tiles),
        }
    }
}

/// The samples of the first `n` listed pixels.
pub open spec fn listed_rows<T>(samples: Seq<T>, list: Seq<int>, depth: int, n: nat) -> Seq<T>
    decreases n,
{
    if n == 0 {
        seq![]
    } else {
        listed_rows(samples, list, depth, (n - 1) as nat) + samples.subrange(
            list[n - 1] * depth,
            list[n - 1] * depth + depth,
        )
    }
}

/// The bytes of a body.
pub open spec fn body_bytes<T: Sample>(
    found: Findings<T>,
    frame: Frame,
    version: u32,
    shape: BodyShape,
) -> Seq<u8> {
    let list = blocks::run_pixels(found.mask, 0, frame.pixels());
    match shape {
        BodyShape::Empty => seq![],
        BodyShape::Sweep => seq![1u8] + values::encoded_all(
            listed_rows(found.samples, list, frame.depth as int, list.len()),
        ),
        BodyShape::Tiled(tiles) => seq![0u8] + (if lerc2_body::has_mode(
            T::kind(),
            found.max_z_error,
            version,
        ) {
            seq![0u8]
        } else {
            seq![]
        }) + tiling::tiles_bytes(tiles, version),
        BodyShape::Huffman(delta, symbols) => huffman_writer::huffman_body(delta, symbols),
    }
}

/// A planned body.
pub enum BodyPlan {
    Empty,
    Sweep,
    Tiled(TilingPlan),
    Huffman(HuffmanPlan),
}

impl View for BodyPlan {
    type V = BodyShape;

    open spec fn view(&self) -> BodyShape {
        match self {
            BodyPlan::Empty => BodyShape::Empty,
            BodyPlan::Sweep => BodyShape::Sweep,
            BodyPlan::Tiled(plan) => BodyShape::Tiled(tiling::tiles_view(plan.tiles@)),
            BodyPlan::Huffman(plan) => BodyShape::Huffman(plan.delta, plan.symbols@),
        }
    }
}

/// The version and the body of a blob.
pub struct EncodePlan {
    pub version: u32,
    pub body: BodyPlan,
}

impl EncodePlan {
    /// The parts of the plan agree with one another.
    pub open spec fn wf(self) -> bool {
        match self.body {
            BodyPlan::Tiled(plan) => plan.wf(),
            BodyPlan::Huffman(plan) => plan.wf(),
            _ => true,
        }
    }
}

fn version_with_no_data(sentinel: bool, version: u32) -> (r: u32)
    ensures
        r == needed_version(sentinel, version),
{
    if sentinel {
        6
    } else {
        version
    }
}

/// Whether all samples of each depth are the same.
pub fn is_constant<T: Sample>(analysis: &RasterAnalysis<T>) -> (r: bool)
    requires
        lerc2_body::ranges_seq(analysis.ranges) matches Some((low, high)) ==> low.len()
            == high.len(),
    ensures
        r == constant(analysis@),
{
    if analysis.valid == 0 || analysis.z_min.equals(analysis.z_max) {
        return true;
    }
    match &analysis.ranges {
        Some(ranges) => {
            let mut i: usize = 0;
            while i < ranges.min_values.len()
                invariant
                    i <= ranges.min_values@.len(),
                    ranges.min_values@.len() == ranges.max_values@.len(),
                    analysis.valid != 0,
                    !analysis.z_min.same(analysis.z_max),
                    analysis@.ranges == Some((ranges.min_values@, ranges.max_values@)),
                    forall|j: int|
                        0 <= j < i ==> (#[trigger] ranges.min_values@[j]).same(
                            ranges.max_values@[j],
                        ),
                decreases ranges.min_values@.len() - i,
            {
                if !ranges.min_values[i].equals(ranges.max_values[i]) {
                    assert(!lerc2::all_same(ranges.min_values@, ranges.max_values@));
                    return false;
                }
                i += 1;
            }
            true
        },
        None => false,
    }
}

/// What planning relies on.
pub open spec fn plannable<T: Sample>(found: Findings<T>, frame: Frame) -> bool {
    &&& frame.wf()
    &&& found.samples.len() == frame.pixels() * frame.depth as nat
    &&& blocks::mask_fits(found.mask, frame.pixels())
    &&& found.valid == blocks::run_pixels(found.mask, 0, frame.pixels()).len()
    &&& lerc2_body::ranges_fit(found.ranges, frame.depth as nat)
}

/// Plans a Huffman encoding where one is possible.
fn plan_coded<T: Sample>(analysis: &RasterAnalysis<T>, frame: Frame) -> (r: Result<
    Option<HuffmanPlan>,
>)
    requires
        plannable(analysis@, frame),
        frame.width > 0,
    ensures
        match r {
            Ok(Some(plan)) => {
                &&& plan.wf()
                &&& plan.symbols@ == if plan.delta {
                    delta_of(analysis@, frame)
                } else {
                    plain_of(analysis@, frame)
                }
                &&& coded(analysis@, frame) == Ok::<Option<(bool, nat)>, Fault>(
                    Some((plan.delta, plan.data_len as nat)),
                )
            },
            Ok(None) => coded(analysis@, frame) == Ok::<Option<(bool, nat)>, Fault>(None),
            Err(e) => coded(analysis@, frame) == Err::<Option<(bool, nat)>, Fault>(e@),
        },
{
    if !analysis.codable || !supports_integer_huffman(T::data_type(), analysis.max_z_error) {
        return Ok(None);
    }
    let total: usize = frame.width as usize * frame.height as usize;
    let signed = T::data_type() == DataType::I8;
    let depth: usize = frame.depth as usize;
    let plain: Vec<u8> = list_plain(
        &analysis.samples,
        borrow_mask(&analysis.mask),
        total,
        depth,
        signed,
    );
    let delta: Vec<u8> = list_delta(
        &analysis.samples,
        borrow_mask(&analysis.mask),
        frame.width as usize,
        total,
        depth,
        signed,
    );
    plan_huffman(plain, delta)
}

/// Plans the body of a blob.
#[verifier::rlimit(40)]
pub fn select_encode_plan<T: Sample>(analysis: &RasterAnalysis<T>, frame: Frame) -> (r: Result<
    EncodePlan,
>)
    requires
        plannable(analysis@, frame),
    ensures
        match r {
            Ok(plan) => plan.wf() && body_planned(analysis@, frame) == Ok::<_, Fault>(
                (plan.version, plan.body@),
            ),
            Err(e) => body_planned(analysis@, frame) == Err::<(u32, BodyShape), Fault>(e@),
        },
{
    let sentinel = analysis.sentinel;
    if is_constant(analysis) {
        return Ok(EncodePlan { version: version_with_no_data(sentinel, 4), body: BodyPlan::Empty });
    }
    proof {
        blocks::lemma_run_pixels(analysis@.mask, 0, frame.pixels());
        assert(frame.width > 0 && frame.height > 0) by (nonlinear_arith)
            requires
                0 < frame.width as nat * frame.height as nat,
        ;
    }
    let options = TilingOptions {
        width: frame.width,
        height: frame.height,
        depth: frame.depth,
        micro_block_size: frame.micro_block_size,
        max_z_error: analysis.max_z_error,
    };
    let tiled_plan: TilingPlan = plan_tiles(
        &analysis.samples,
        borrow_mask(&analysis.mask),
        options,
    )?;
    let tiled_version: u32 = version_with_no_data(sentinel, tiled_plan.version);
    let data_type = T::data_type();
    let mut best: usize = tiled_plan.data_len;
    if needs_encode_mode_flag(data_type, analysis.max_z_error, tiled_version) {
        if best == usize::MAX {
            return Err(Error::SizeOverflow("tiled body byte count"));
        }
        best += 1;
    }
    let coded_plan: Option<HuffmanPlan> = plan_coded(analysis, frame)?;
    let selected: Option<HuffmanPlan> = match coded_plan {
        Some(plan) => if best > 0 && plan.data_len < best - 1 {
            best = plan.data_len + 1;
            Some(plan)
        } else {
            None
        },
        None => None,
    };
    let depth: usize = frame.depth as usize;
    let width: usize = data_type.byte_len();
    let valid: usize = analysis.valid as usize;
    proof {
        assert(valid * depth <= frame.pixels() * frame.depth as nat) by (nonlinear_arith)
            requires
                valid <= frame.pixels(),
                depth == frame.depth,
        ;
    }
    let sweep: usize = match (valid * depth).checked_mul(width) {
        Some(len) => len,
        None => {
            return Err(Error::SizeOverflow("one-sweep byte count"));
        },
    };
    if sweep <= best {
        return Ok(EncodePlan { version: version_with_no_data(sentinel, 4), body: BodyPlan::Sweep });
    }
    match selected {
        Some(plan) => Ok(
            EncodePlan { version: version_with_no_data(sentinel, 4), body: BodyPlan::Huffman(plan) },
        ),
        None => Ok(EncodePlan { version: tiled_version, body: BodyPlan::Tiled(tiled_plan) }),
    }
}

/// Appends the bytes of a range of samples.
fn push_samples<T: Sample>(out: &mut Vec<u8>, samples: &Vec<T>, start: usize, count: usize)
    requires
        start + count <= samples@.len(),
    ensures
        final(out)@ == old(out)@ + values::encoded_all(
            samples@.subrange(start as int, start + count),
        ),
{
    let ghost before = out@;
    let ghost part = samples@.subrange(start as int, start + count);
    let len: usize = samples.len();
    let mut i: usize = 0;
    assert(part.subrange(0, 0) =~= seq![]);
    while i < count
        invariant
            i <= count,
            len == samples@.len(),
            start + count <= len,
            part == samples@.subrange(start as int, start + count),
            out@ =~= before + values::encoded_all(part.subrange(0, i as int)),
        decreases count - i,
    {
        proof {
            assert(part.subrange(0, i + 1).drop_last() =~= part.subrange(0, i as int));
        }
        samples[start + i].write_le(out);
        i += 1;
    }
    assert(part.subrange(0, count as int) =~= part);
}

/// The bytes of samples come one after the other.
pub proof fn lemma_encoded_split<T: Sample>(first: Seq<T>, second: Seq<T>)
    ensures
        values::encoded_all(first + second) == values::encoded_all(first) + values::encoded_all(
            second,
        ),
    decreases second.len(),
{
    if second.len() == 0 {
        assert(first + second =~= first);
        assert(values::encoded_all(first) + values::encoded_all(second) =~= values::encoded_all(
            first,
        ));
    } else {
        lemma_encoded_split(first, second.drop_last());
        assert((first + second).drop_last() =~= first + second.drop_last());
        assert(values::encoded_all(first + second) =~= values::encoded_all(first)
            + values::encoded_all(second));
    }
}

/// Appends the samples of the valid pixels as they are.
fn write_one_sweep<T: Sample>(
    out: &mut Vec<u8>,
    samples: &Vec<T>,
    mask: Option<&[u8]>,
    depth: usize,
    total: usize,
)
    requires
        depth > 0,
        samples@.len() == total * depth,
        blocks::mask_fits(blocks::mask_seq(mask), total as nat),
    ensures
        final(out)@ == old(out)@ + values::encoded_all(
            listed_rows(
                samples@,
                blocks::run_pixels(blocks::mask_seq(mask), 0, total as nat),
                depth as int,
                blocks::run_pixels(blocks::mask_seq(mask), 0, total as nat).len(),
            ),
        ),
{
    let _len: usize = samples.len();
    let ghost before = out@;
    let ghost entries = blocks::mask_seq(mask);
    let ghost list = blocks::run_pixels(entries, 0, total as nat);
    let pixels: Vec<usize> = blocks::list_run(mask, total);
    let mut i: usize = 0;
    proof {
        assert(values::encoded_all(Seq::<T>::empty()) =~= seq![]);
    }
    while i < pixels.len()
        invariant
            i <= pixels@.len(),
            depth > 0,
            samples@.len() == total * depth,
            samples@.len() <= usize::MAX,
            list == blocks::run_pixels(entries, 0, total as nat),
            list == pixels@.map_values(|p: usize| p as int),
            out@ =~= before + values::encoded_all(
                listed_rows(samples@, list, depth as int, i as nat),
            ),
        decreases pixels@.len() - i,
    {
        let pixel: usize = pixels[i];
        proof {
            blocks::lemma_run_pixels(entries, 0, total as nat);
            assert(list[i as int] == pixel);
            raster::lemma_sample_index(
                pixel as nat,
                depth as nat,
                (depth - 1) as nat,
                total as nat,
            );
            lemma_encoded_split(
                listed_rows(samples@, list, depth as int, i as nat),
                samples@.subrange(pixel * depth as int, pixel * depth as int + depth),
            );
            assert(0 <= pixel * depth) by (nonlinear_arith);
        }
        push_samples(out, samples, pixel * depth, depth);
        i += 1;
    }
}

/// Appends a planned body.
pub fn write_body<T: Sample>(
    out: &mut Vec<u8>,
    analysis: &RasterAnalysis<T>,
    frame: Frame,
    plan: &EncodePlan,
)
    requires
        plannable(analysis@, frame),
        plan.wf(),
    ensures
        final(out)@ == old(out)@ + body_bytes(analysis@, frame, plan.version, plan.body@),
{
    let ghost before = out@;
    match &plan.body {
        BodyPlan::Empty => {},
        BodyPlan::Sweep => {
            out.push(1);
            write_one_sweep(
                out,
                &analysis.samples,
                borrow_mask(&analysis.mask),
                frame.depth as usize,
                frame.width as usize * frame.height as usize,
            );
        },
        BodyPlan::Tiled(tiled_plan) => {
            out.push(0);
            if needs_encode_mode_flag(T::data_type(), analysis.max_z_error, plan.version) {
                out.push(0);
            }
            write_tiles(out, tiled_plan, plan.version);
        },
        BodyPlan::Huffman(coded_plan) => {
            write_huffman(out, coded_plan);
        },
    }
    assert(out@ =~= before + body_bytes(analysis@, frame, plan.version, plan.body@));
}

} // verus!
