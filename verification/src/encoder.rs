//! Encoding rasters as Lerc2 blobs.

use crate::analysis;
use crate::analysis::{prepare_raster, Findings, RasterAnalysis};
use crate::blocks;
use crate::bytes;
use crate::bytes::{push_bytes, push_u32, push_u64};
use crate::checksum;
use crate::checksum::fletcher32;
use crate::error::{Error, Fault, Result};
use crate::float::Double;
use crate::lerc2_body;
use crate::lerc2_body::{div_up, needs_encode_mode_flag};
use crate::lerc2_header;
use crate::mask;
use crate::mask::{encode_bitset, pack_mask_bitset};
use crate::options;
use crate::options::EncodeOptions;
use crate::plan;
use crate::plan::{is_constant, select_encode_plan, write_body, BodyShape, EncodePlan, Frame};
use crate::raster::{MaskView, RasterView};
use crate::sample::Sample;
use crate::types::{copy_vec, DataType};
use crate::values;
use crate::values::append_value_as;
use vstd::prelude::*;

verus! {

/// A raster that is ready to be written.
#[verifier::ext_equal]
pub struct Ready<T> {
    pub found: Findings<T>,
    pub version: u32,
    pub shape: BodyShape,
}

/// The outcome of preparing a raster.
pub open spec fn readied<T: Sample>(
    samples: Seq<T>,
    frame: Frame,
    entries: Option<Seq<u8>>,
    options: EncodeOptions,
) -> std::result::Result<Ready<T>, Fault> {
    match analysis::analysed(samples, frame.pixels(), frame.depth as nat, entries, options) {
        Err(e) => Err(e),
        Ok(found) => match plan::body_planned(found, frame) {
            Err(e) => Err(e),
            Ok((version, shape)) => Ok(Ready { found, version, shape }),
        },
    }
}

/// The bytes that store the mask; a mask that is not stored here has none.
pub open spec fn payload_of<T>(ready: Ready<T>, frame: Frame, stored: bool) -> Seq<u8> {
    let entries = if stored || ready.found.derived {
        ready.found.mask
    } else {
        None
    };
    mask::mask_payload(entries, frame.pixels(), ready.found.valid)
}

/// The bytes of numbers in the type of the raster.
pub open spec fn scalars_bytes(found: Seq<Double>, data_type: DataType) -> Seq<u8>
    decreases found.len(),
{
    if found.len() == 0 {
        seq![]
    } else {
        scalars_bytes(found.drop_last(), data_type) + values::scalar_bytes(found.last(), data_type)
    }
}

/// The bytes of the ranges, where they are stored.
pub open spec fn ranges_bytes(
    ranges: Option<(Seq<Double>, Seq<Double>)>,
    data_type: DataType,
) -> Seq<u8> {
    match ranges {
        Some((low, high)) => scalars_bytes(low, data_type) + scalars_bytes(high, data_type),
        None => seq![],
    }
}

/// What follows the fixed header: the mask, the ranges and the body.
pub open spec fn rest_bytes<T: Sample>(ready: Ready<T>, frame: Frame, payload: Seq<u8>) -> Seq<u8> {
    bytes::le_bytes(payload.len(), 4) + payload + ranges_bytes(ready.found.ranges, T::kind())
        + plan::body_bytes(ready.found, frame, ready.version, ready.shape)
}

/// A sentinel as a header field.
pub open spec fn no_data_bits(value: Option<Double>) -> nat {
    match value {
        Some(v) => v.bits as nat,
        None => 0,
    }
}

/// The part of the fixed header that the checksum covers.
pub open spec fn fields_bytes<T: Sample>(
    found: Findings<T>,
    frame: Frame,
    version: u32,
    size: nat,
    remaining: nat,
) -> Seq<u8> {
    bytes::le_bytes(frame.height as nat, 4) + bytes::le_bytes(frame.width as nat, 4)
        + bytes::le_bytes(frame.depth as nat, 4) + bytes::le_bytes(found.valid, 4)
        + bytes::le_bytes(frame.micro_block_size as nat, 4) + bytes::le_bytes(size, 4)
        + bytes::le_bytes(T::kind().number(), 4) + (if version >= 6 {
        bytes::le_bytes(remaining, 4) + seq![
            if found.original_no_data is Some {
                1u8
            } else {
                0u8
            },
            0u8,
            0u8,
            0u8,
        ]
    } else {
        seq![]
    }) + bytes::le_bytes(found.max_z_error.bits as nat, 8) + bytes::le_bytes(
        found.z_min.bits as nat,
        8,
    ) + bytes::le_bytes(found.z_max.bits as nat, 8) + (if version >= 6 {
        bytes::le_bytes(no_data_bits(found.encoded_no_data), 8) + bytes::le_bytes(
            no_data_bits(found.original_no_data),
            8,
        )
    } else {
        seq![]
    })
}

/// A blob with its signature, version and checksum in front.
pub open spec fn sealed(version: u32, tail: Seq<u8>) -> Seq<u8> {
    lerc2_header::magic_lerc2() + bytes::le_bytes(version as nat, 4) + bytes::le_bytes(
        checksum::fletcher_of(tail),
        4,
    ) + tail
}

/// The number of bytes of a blob.
pub open spec fn blob_size<T: Sample>(ready: Ready<T>, frame: Frame, payload: Seq<u8>) -> nat {
    (lerc2_header::header_size(ready.version) + rest_bytes(ready, frame, payload).len()) as nat
}

/// The bytes of a blob that `remaining` more blobs follow.
pub open spec fn blob_of<T: Sample>(
    ready: Ready<T>,
    frame: Frame,
    payload: Seq<u8>,
    remaining: nat,
) -> Seq<u8> {
    sealed(
        ready.version,
        fields_bytes(
            ready.found,
            frame,
            ready.version,
            blob_size(ready, frame, payload),
            remaining,
        ) + rest_bytes(ready, frame, payload),
    )
}

/// Why a blob cannot be written, if it cannot.
pub open spec fn blob_fault<T: Sample>(
    ready: Ready<T>,
    frame: Frame,
    payload: Seq<u8>,
    remaining: nat,
) -> Option<Fault> {
    if payload.len() > u32::MAX {
        Some(Fault::SizeOverflow("mask payload length as u32"@))
    } else if ready.version >= 6 && remaining > 0x7fff_ffff {
        Some(Fault::SizeOverflow("remaining band count as i32"@))
    } else if blob_size(ready, frame, payload) > 0x7fff_ffff {
        Some(Fault::SizeOverflow("Lerc2 blob-size header field"@))
    } else {
        None
    }
}

/// The number of blocks of a raster.
pub open spec fn tile_count(frame: Frame) -> nat {
    (lerc2_body::block_count(frame.width as int, frame.micro_block_size as int)
        * lerc2_body::block_count(frame.height as int, frame.micro_block_size as int)) as nat
}

/// The outcome of bounding the size of a blob.
pub open spec fn bound_of<T: Sample>(ready: Ready<T>, frame: Frame, payload: Seq<u8>) -> std::result::Result<
    nat,
    Fault,
> {
    let width = T::kind().width();
    let ranges: nat = if ready.found.ranges is Some {
        2 * (frame.depth as nat * width)
    } else {
        0
    };
    let prefix: nat = if plan::constant(ready.found) {
        0
    } else if lerc2_body::has_mode(T::kind(), ready.found.max_z_error, ready.version) {
        2
    } else {
        1
    };
    let raw = ready.found.valid * frame.depth as nat * width;
    let total = (lerc2_header::header_size(ready.version) + 4 + payload.len() + ranges + prefix
        + tile_count(frame) * frame.depth as nat + raw) as nat;
    if ranges > usize::MAX {
        Err(Fault::SizeOverflow("depth-range byte count"@))
    } else if raw > usize::MAX {
        Err(Fault::SizeOverflow("raw tile payload byte count"@))
    } else if total > usize::MAX {
        Err(Fault::SizeOverflow("encoded upper bound"@))
    } else {
        Ok(total)
    }
}

/// The shape of a raster view, divided into blocks.
pub open spec fn raster_frame<'a, T: Sample>(view: RasterView<'a, T>, options: EncodeOptions) -> Frame {
    Frame {
        width: view.columns(),
        height: view.rows(),
        depth: view.layers(),
        micro_block_size: options.micro_block_size,
    }
}

/// The entries of an optional mask view.
pub open spec fn mask_entries<'a>(view: Option<MaskView<'a>>) -> Option<Seq<u8>> {
    match view {
        Some(m) => Some(m.entries()),
        None => None,
    }
}

/// What is wrong with options and mask, if anything.
pub open spec fn request_fault<'a>(
    width: u32,
    height: u32,
    view: Option<MaskView<'a>>,
    options: EncodeOptions,
) -> Option<Fault> {
    if options::options_fault(options) is Some {
        options::options_fault(options)
    } else if view matches Some(m) && (m.columns() != width || m.rows() != height) {
        Some(Fault::InvalidArgument("mask dimensions must match the raster dimensions"@))
    } else {
        None
    }
}

/// The outcome of preparing a raster view.
pub open spec fn raster_readied<'a, 'b, T: Sample>(
    view: RasterView<'a, T>,
    entries: Option<MaskView<'b>>,
    options: EncodeOptions,
) -> std::result::Result<Ready<T>, Fault> {
    match request_fault(view.columns(), view.rows(), entries, options) {
        Some(e) => Err(e),
        None => readied(
            view.samples(),
            raster_frame(view, options),
            mask_entries(entries),
            options,
        ),
    }
}

/// The outcome of bounding the size of an encoded raster.
pub open spec fn raster_bound<'a, 'b, T: Sample>(
    view: RasterView<'a, T>,
    entries: Option<MaskView<'b>>,
    options: EncodeOptions,
) -> std::result::Result<nat, Fault> {
    let frame = raster_frame(view, options);
    match raster_readied(view, entries, options) {
        Err(e) => Err(e),
        Ok(ready) => bound_of(ready, frame, payload_of(ready, frame, true)),
    }
}

/// The outcome of encoding a raster.
pub open spec fn raster_encoded<'a, 'b, T: Sample>(
    view: RasterView<'a, T>,
    entries: Option<MaskView<'b>>,
    options: EncodeOptions,
) -> std::result::Result<Seq<u8>, Fault> {
    let frame = raster_frame(view, options);
    match raster_readied(view, entries, options) {
        Err(e) => Err(e),
        Ok(ready) => {
            let payload = payload_of(ready, frame, true);
            match bound_of(ready, frame, payload) {
                Err(e) => Err(e),
                Ok(_) => match blob_fault(ready, frame, payload, 0) {
                    Some(e) => Err(e),
                    None => Ok(blob_of(ready, frame, payload, 0)),
                },
            }
        },
    }
}

/// The outcome of encoding a raster into a buffer of `available` bytes.
pub open spec fn raster_encoded_into<'a, 'b, T: Sample>(
    view: RasterView<'a, T>,
    entries: Option<MaskView<'b>>,
    options: EncodeOptions,
    available: nat,
) -> std::result::Result<Seq<u8>, Fault> {
    let frame = raster_frame(view, options);
    match raster_readied(view, entries, options) {
        Err(e) => Err(e),
        Ok(ready) => {
            let payload = payload_of(ready, frame, true);
            let size = blob_size(ready, frame, payload);
            if payload.len() > u32::MAX {
                Err(Fault::SizeOverflow("mask payload length as u32"@))
            } else if size > usize::MAX {
                Err(Fault::SizeOverflow("encoded blob size"@))
            } else if size > available {
                Err(Fault::OutputTooSmall { needed: size, available })
            } else {
                match blob_fault(ready, frame, payload, 0) {
                    Some(e) => Err(e),
                    None => Ok(blob_of(ready, frame, payload, 0)),
                }
            }
        },
    }
}

/// A buffer with bytes written to its beginning.
pub open spec fn overwritten(before: Seq<u8>, written: Seq<u8>) -> Seq<u8> {
    written + before.subrange(written.len() as int, before.len() as int)
}

/// A raster that is ready to be written.
pub struct PreparedBand<T> {
    pub analysis: RasterAnalysis<T>,
    pub plan: EncodePlan,
}

impl<T: Sample> PreparedBand<T> {
    /// The prepared raster.
    pub open spec fn ready(self) -> Ready<T> {
        Ready { found: self.analysis@, version: self.plan.version, shape: self.plan.body@ }
    }

    /// The plan fits the raster.
    pub open spec fn wf(self, frame: Frame) -> bool {
        &&& plan::plannable(self.analysis@, frame)
        &&& self.plan.wf()
        &&& 4 <= self.plan.version <= 6
    }
}

/// What is found in a raster can be planned.
pub proof fn lemma_plannable<T: Sample>(
    samples: Seq<T>,
    frame: Frame,
    entries: Option<Seq<u8>>,
    options: EncodeOptions,
)
    requires
        frame.wf(),
        samples.len() == frame.pixels() * frame.depth as nat,
        blocks::mask_fits(entries, frame.pixels()),
        analysis::analysed(samples, frame.pixels(), frame.depth as nat, entries, options) is Ok,
    ensures
        plan::plannable(
            analysis::analysed(samples, frame.pixels(), frame.depth as nat, entries, options)->Ok_0,
            frame,
        ),
{
}

proof fn lemma_planned_version<T: Sample>(found: Findings<T>, frame: Frame)
    ensures
        plan::body_planned(found, frame) matches Ok((version, _)) ==> 4 <= version <= 6,
{
}

/// Prepares a raster.
pub(crate) fn prepare_band<T: Sample>(
    samples: Vec<T>,
    frame: Frame,
    entries: Option<&[u8]>,
    options: EncodeOptions,
) -> (r: Result<PreparedBand<T>>)
    requires
        frame.wf(),
        samples@.len() == frame.pixels() * frame.depth as nat,
        blocks::mask_fits(blocks::mask_seq(entries), frame.pixels()),
        options.max_z_error.finite(),
    ensures
        match r {
            Ok(band) => band.wf(frame) && readied(
                samples@,
                frame,
                blocks::mask_seq(entries),
                options,
            ) == Ok::<_, Fault>(band.ready()),
            Err(e) => readied(samples@, frame, blocks::mask_seq(entries), options) == Err::<
                Ready<T>,
                _,
            >(e@),
        },
{
    let total: usize = frame.width as usize * frame.height as usize;
    let ghost given = samples@;
    let analysis: RasterAnalysis<T> = prepare_raster(
        samples,
        entries,
        frame.depth,
        total,
        options,
    )?;
    proof {
        lemma_plannable(given, frame, blocks::mask_seq(entries), options);
        lemma_planned_version(analysis@, frame);
    }
    let plan: EncodePlan = select_encode_plan(&analysis, frame)?;
    Ok(PreparedBand { analysis, plan })
}

/// Encodes the mask.
pub(crate) fn mask_bytes<T: Sample>(band: &PreparedBand<T>, frame: Frame, stored: bool) -> (r: Vec<u8>)
    requires
        band.wf(frame),
    ensures
        r@ == payload_of(band.ready(), frame, stored),
{
    let total: usize = frame.width as usize * frame.height as usize;
    let valid: usize = band.analysis.valid as usize;
    if valid == 0 || valid == total || !(stored || band.analysis.derived) {
        return Vec::new();
    }
    match &band.analysis.mask {
        Some(entries) => match pack_mask_bitset(entries.as_slice(), total) {
            Ok(bits) => encode_bitset(bits.as_slice()),
            Err(_) => Vec::new(),
        },
        None => Vec::new(),
    }
}

/// Appends numbers in the type of the raster.
fn push_scalars(out: &mut Vec<u8>, found: &Vec<Double>, data_type: DataType)
    ensures
        final(out)@ == old(out)@ + scalars_bytes(found@, data_type),
{
    let ghost before = out@;
    let mut i: usize = 0;
    assert(found@.subrange(0, 0) =~= seq![]);
    while i < found.len()
        invariant
            i <= found@.len(),
            out@ =~= before + scalars_bytes(found@.subrange(0, i as int), data_type),
        decreases found@.len() - i,
    {
        proof {
            assert(found@.subrange(0, i + 1).drop_last() =~= found@.subrange(0, i as int));
        }
        append_value_as(out, found[i], data_type);
        i += 1;
    }
    assert(found@.subrange(0, found@.len() as int) =~= found@);
}

/// Writes what follows the fixed header.
pub(crate) fn write_rest<T: Sample>(band: &PreparedBand<T>, frame: Frame, payload: &Vec<u8>) -> (r: Vec<u8>)
    requires
        band.wf(frame),
        payload@.len() <= u32::MAX,
    ensures
        r@ == rest_bytes(band.ready(), frame, payload@),
{
    let mut out: Vec<u8> = Vec::new();
    push_u32(&mut out, payload.len() as u32);
    push_bytes(&mut out, payload.as_slice());
    if let Some(ranges) = &band.analysis.ranges {
        push_scalars(&mut out, &ranges.min_values, T::data_type());
        push_scalars(&mut out, &ranges.max_values, T::data_type());
    }
    let ghost head = out@;
    proof {
        assert(head =~= bytes::le_bytes(payload@.len(), 4) + payload@ + ranges_bytes(
            band.ready().found.ranges,
            T::kind(),
        ));
    }
    write_body(&mut out, &band.analysis, frame, &band.plan);
    out
}

pub(crate) fn header_len(version: u32) -> (r: usize)
    requires
        4 <= version <= 6,
    ensures
        r == lerc2_header::header_size(version),
        66 <= r <= 90,
{
    if version >= 6 {
        90
    } else {
        66
    }
}

fn push_no_data(out: &mut Vec<u8>, value: Option<Double>)
    ensures
        final(out)@ == old(out)@ + bytes::le_bytes(no_data_bits(value), 8),
{
    match value {
        Some(v) => push_u64(out, v.bits),
        None => push_u64(out, 0),
    }
}

/// Writes the part of the fixed header that the checksum covers.
fn write_fields<T: Sample>(
    analysis: &RasterAnalysis<T>,
    frame: Frame,
    version: u32,
    size: u32,
    remaining: u32,
) -> (r: Vec<u8>)
    ensures
        r@ == fields_bytes(analysis@, frame, version, size as nat, remaining as nat),
{
    let mut out: Vec<u8> = Vec::new();
    push_u32(&mut out, frame.height);
    push_u32(&mut out, frame.width);
    push_u32(&mut out, frame.depth);
    push_u32(&mut out, analysis.valid);
    push_u32(&mut out, frame.micro_block_size);
    push_u32(&mut out, size);
    push_u32(&mut out, T::data_type().code() as u32);
    if version >= 6 {
        push_u32(&mut out, remaining);
        out.push(if analysis.original_no_data.is_some() { 1 } else { 0 });
        out.push(0);
        out.push(0);
        out.push(0);
    }
    push_u64(&mut out, analysis.max_z_error.bits);
    push_u64(&mut out, analysis.z_min.bits);
    push_u64(&mut out, analysis.z_max.bits);
    if version >= 6 {
        push_no_data(&mut out, analysis.encoded_no_data);
        push_no_data(&mut out, analysis.original_no_data);
    }
    assert(out@ =~= fields_bytes(analysis@, frame, version, size as nat, remaining as nat));
    out
}

/// Appends a blob.
pub(crate) fn push_blob<T: Sample>(
    out: &mut Vec<u8>,
    band: &PreparedBand<T>,
    frame: Frame,
    rest: &Vec<u8>,
    size: u32,
    remaining: u32,
    Ghost(payload): Ghost<Seq<u8>>,
)
    requires
        band.wf(frame),
        rest@ == rest_bytes(band.ready(), frame, payload),
        size == blob_size(band.ready(), frame, payload),
    ensures
        final(out)@ == old(out)@ + blob_of(band.ready(), frame, payload, remaining as nat),
{
    let ghost before = out@;
    let mut tail: Vec<u8> = write_fields(
        &band.analysis,
        frame,
        band.plan.version,
        size,
        remaining,
    );
    push_bytes(&mut tail, rest.as_slice());
    let sum: u32 = fletcher32(tail.as_slice());
    out.push(76);
    out.push(101);
    out.push(114);
    out.push(99);
    out.push(50);
    out.push(32);
    push_u32(out, band.plan.version);
    push_u32(out, sum);
    push_bytes(out, tail.as_slice());
    assert(out@ =~= before + blob_of(band.ready(), frame, payload, remaining as nat));
}

/// Checks that a blob can be written and gives its size.
pub(crate) fn check_blob(version: u32, payload_len: usize, rest_len: usize, remaining: usize) -> (r: Result<u32>)
    requires
        4 <= version <= 6,
    ensures
        match r {
            Ok(size) => {
                &&& payload_len <= u32::MAX
                &&& !(version >= 6 && remaining > 0x7fff_ffff)
                &&& size == lerc2_header::header_size(version) + rest_len
                &&& size <= 0x7fff_ffff
            },
            Err(e) => if payload_len > u32::MAX {
                e@ == Fault::SizeOverflow("mask payload length as u32"@)
            } else if version >= 6 && remaining > 0x7fff_ffff {
                e@ == Fault::SizeOverflow("remaining band count as i32"@)
            } else {
                lerc2_header::header_size(version) + rest_len > 0x7fff_ffff && e@
                    == Fault::SizeOverflow("Lerc2 blob-size header field"@)
            },
        },
{
    if payload_len as u64 > 0xffff_ffff {
        return Err(Error::SizeOverflow("mask payload length as u32"));
    }
    if version >= 6 && remaining as u64 > 0x7fff_ffff {
        return Err(Error::SizeOverflow("remaining band count as i32"));
    }
    let head: usize = header_len(version);
    if rest_len as u64 > 0x7fff_ffff - head as u64 {
        return Err(Error::SizeOverflow("Lerc2 blob-size header field"));
    }
    Ok((head + rest_len) as u32)
}

/// A product that may not exceed the range of `usize`.
fn product(a: usize, b: usize, label: &'static str) -> (r: Result<usize>)
    ensures
        match r {
            Ok(v) => v == a * b,
            Err(e) => a * b > usize::MAX && e@ == Fault::SizeOverflow(label@),
        },
{
    match a.checked_mul(b) {
        Some(v) => Ok(v),
        None => Err(Error::SizeOverflow(label)),
    }
}

/// A sum that may not exceed the range of `usize`.
pub(crate) fn total(a: usize, b: usize, label: &'static str) -> (r: Result<usize>)
    ensures
        match r {
            Ok(v) => v == a + b,
            Err(e) => a + b > usize::MAX && e@ == Fault::SizeOverflow(label@),
        },
{
    match a.checked_add(b) {
        Some(v) => Ok(v),
        None => Err(Error::SizeOverflow(label)),
    }
}

/// A raster has at most as many blocks as pixels.
proof fn lemma_tile_count(frame: Frame)
    requires
        frame.wf(),
    ensures
        0 <= lerc2_body::block_count(frame.width as int, frame.micro_block_size as int)
            <= frame.width,
        0 <= lerc2_body::block_count(frame.height as int, frame.micro_block_size as int)
            <= frame.height,
        tile_count(frame) <= frame.pixels(),
        tile_count(frame) * frame.depth as nat <= frame.pixels() * frame.depth as nat,
{
    let micro = frame.micro_block_size as int;
    lerc2_body::lemma_div_up(frame.width as int, micro);
    lerc2_body::lemma_div_up(frame.height as int, micro);
    let a = lerc2_body::block_count(frame.width as int, micro);
    let b = lerc2_body::block_count(frame.height as int, micro);
    assert(0 <= a * b <= frame.width as nat * frame.height as nat) by (nonlinear_arith)
        requires
            0 <= a <= frame.width as nat,
            0 <= b <= frame.height as nat,
    ;
    let (t, p, d) = (tile_count(frame), frame.pixels(), frame.depth as nat);
    assert(t * d <= p * d) by (nonlinear_arith)
        requires
            t <= p,
    ;
}

/// Bounds the size of a blob.
pub(crate) fn bound_blob<T: Sample>(band: &PreparedBand<T>, frame: Frame, payload_len: usize, Ghost(payload): Ghost<
    Seq<u8>,
>) -> (r: Result<usize>)
    requires
        band.wf(frame),
        payload_len == payload.len(),
    ensures
        match r {
            Ok(bound) => bound_of(band.ready(), frame, payload) == Ok::<nat, Fault>(bound as nat),
            Err(e) => bound_of(band.ready(), frame, payload) == Err::<nat, Fault>(e@),
        },
{
    let micro: usize = frame.micro_block_size as usize;
    let depth: usize = frame.depth as usize;
    let data_type = T::data_type();
    let width: usize = data_type.byte_len();
    let valid: usize = band.analysis.valid as usize;
    proof {
        lemma_tile_count(frame);
        blocks::lemma_run_pixels(band.analysis@.mask, 0, frame.pixels());
        assert(valid * depth <= frame.pixels() * frame.depth as nat) by (nonlinear_arith)
            requires
                valid <= frame.pixels(),
                depth == frame.depth,
        ;
        assert(2 * (depth * width) == (depth * 2) * width) by (nonlinear_arith);
    }
    let tiles: usize = div_up(frame.width as usize, micro) * div_up(frame.height as usize, micro);
    let ranges: usize = if band.analysis.ranges.is_some() {
        product(product(depth, 2, "depth-range byte count")?, width, "depth-range byte count")?
    } else {
        0
    };
    let raw: usize = product(valid * depth, width, "raw tile payload byte count")?;
    let prefix: usize = if is_constant(&band.analysis) {
        0
    } else if needs_encode_mode_flag(data_type, band.analysis.max_z_error, band.plan.version) {
        2
    } else {
        1
    };
    let label = "encoded upper bound";
    let mut bound: usize = header_len(band.plan.version) + 4;
    bound = total(bound, payload_len, label)?;
    bound = total(bound, ranges, label)?;
    bound = total(bound, prefix, label)?;
    bound = total(bound, tiles * depth, label)?;
    total(bound, raw, label)
}

/// Checks options and mask.
pub(crate) fn check_request(width: u32, height: u32, view: Option<MaskView>, options: EncodeOptions) -> (r:
    Result<()>)
    ensures
        match r {
            Ok(_) => request_fault(width, height, view, options) is None,
            Err(e) => request_fault(width, height, view, options) == Some(e@),
        },
{
    options.validate()?;
    if let Some(m) = view {
        if m.width() != width || m.height() != height {
            return Err(
                Error::InvalidArgument("mask dimensions must match the raster dimensions"),
            );
        }
    }
    Ok(())
}

/// The entries of an optional mask view.
pub(crate) fn entries_of<'a>(view: Option<MaskView<'a>>) -> (r: Option<&'a [u8]>)
    ensures
        blocks::mask_seq(r) == mask_entries(view),
{
    match view {
        Some(m) => Some(m.data()),
        None => None,
    }
}

/// Prepares a raster view.
fn prepare_single<T: Sample>(
    view: RasterView<T>,
    entries: Option<MaskView>,
    options: EncodeOptions,
) -> (r: Result<(PreparedBand<T>, Frame)>)
    requires
        view.wf(),
        entries matches Some(m) ==> m.wf(),
    ensures
        match r {
            Ok((band, frame)) => frame == raster_frame(view, options) && frame.wf() && band.wf(
                frame,
            ) && raster_readied(view, entries, options) == Ok::<_, Fault>(band.ready()),
            Err(e) => raster_readied(view, entries, options) == Err::<Ready<T>, _>(e@),
        },
{
    check_request(view.width(), view.height(), entries, options)?;
    let frame = Frame {
        width: view.width(),
        height: view.height(),
        depth: view.depth(),
        micro_block_size: options.micro_block_size,
    };
    let band: PreparedBand<T> = prepare_band(
        copy_vec(view.data()),
        frame,
        entries_of(entries),
        options,
    )?;
    Ok((band, frame))
}

/// Returns a conservative output-buffer size for encoding one raster.
///
/// # Errors
/// Returns an error for invalid options or dimensions, invalid samples or
/// masks, unsupported no-data use, or overflowing size calculations.
pub fn encoded_len_upper_bound<T: Sample>(
    raster: RasterView<T>,
    mask: Option<MaskView>,
    options: EncodeOptions,
) -> (r: Result<usize>)
    requires
        raster.wf(),
        mask matches Some(m) ==> m.wf(),
    ensures
        match r {
            Ok(bound) => raster_bound(raster, mask, options) == Ok::<nat, Fault>(bound as nat),
            Err(e) => raster_bound(raster, mask, options) == Err::<nat, Fault>(e@),
        },
{
    let (band, frame) = prepare_single(raster, mask, options)?;
    let payload: Vec<u8> = mask_bytes(&band, frame, true);
    bound_blob(&band, frame, payload.len(), Ghost(payload@))
}

/// Encodes one raster as a self-contained Lerc2 blob.
///
/// # Errors
/// Returns an error when the inputs or options are invalid or size arithmetic
/// overflows.
pub fn encode<T: Sample>(
    raster: RasterView<T>,
    mask: Option<MaskView>,
    options: EncodeOptions,
) -> (r: Result<Vec<u8>>)
    requires
        raster.wf(),
        mask matches Some(m) ==> m.wf(),
    ensures
        match r {
            Ok(blob) => raster_encoded(raster, mask, options) == Ok::<Seq<u8>, Fault>(blob@),
            Err(e) => raster_encoded(raster, mask, options) == Err::<Seq<u8>, Fault>(e@),
        },
{
    let (band, frame) = prepare_single(raster, mask, options)?;
    let payload: Vec<u8> = mask_bytes(&band, frame, true);
    bound_blob(&band, frame, payload.len(), Ghost(payload@))?;
    if payload.len() as u64 > 0xffff_ffff {
        return Err(Error::SizeOverflow("mask payload length as u32"));
    }
    let rest: Vec<u8> = write_rest(&band, frame, &payload);
    let size: u32 = check_blob(band.plan.version, payload.len(), rest.len(), 0)?;
    let mut out: Vec<u8> = Vec::new();
    push_blob(&mut out, &band, frame, &rest, size, 0, Ghost(payload@));
    assert(out@ =~= blob_of(band.ready(), frame, payload@, 0));
    Ok(out)
}

/// Copies bytes to the beginning of a buffer.
pub(crate) fn copy_to_front(out: &mut [u8], bytes: &Vec<u8>)
    requires
        bytes@.len() <= old(out)@.len(),
    ensures
        final(out)@ == overwritten(old(out)@, bytes@),
{
    let ghost before = out@;
    let len: usize = out.len();
    let mut i: usize = 0;
    while i < bytes.len()
        invariant
            i <= bytes@.len() <= len,
            before.len() == len,
            out@.len() == len,
            forall|j: int|
                0 <= j < len ==> #[trigger] out@[j] == if j < i {
                    bytes@[j]
                } else {
                    before[j]
                },
        decreases bytes@.len() - i,
    {
        out[i] = bytes[i];
        i += 1;
    }
    assert(out@ =~= overwritten(before, bytes@));
}

/// Encodes one raster directly into a caller-provided byte slice.
///
/// Returns the number of bytes written.
///
/// # Errors
/// In addition to validation and encoding errors, returns
/// [`Error::OutputTooSmall`] when `out` cannot hold the blob. `out` is left as it was after
/// an error.
pub fn encode_into<T: Sample>(
    raster: RasterView<T>,
    mask: Option<MaskView>,
    options: EncodeOptions,
    out: &mut [u8],
) -> (r: Result<usize>)
    requires
        raster.wf(),
        mask matches Some(m) ==> m.wf(),
    ensures
        match r {
            Ok(written) => {
                &&& raster_encoded_into(raster, mask, options, old(out)@.len()) is Ok
                &&& written == raster_encoded_into(
                    raster,
                    mask,
                    options,
                    old(out)@.len(),
                )->Ok_0.len()
                &&& final(out)@ == overwritten(
                    old(out)@,
                    raster_encoded_into(raster, mask, options, old(out)@.len())->Ok_0,
                )
            },
            Err(e) => {
                &&& raster_encoded_into(raster, mask, options, old(out)@.len()) == Err::<
                    Seq<u8>,
                    Fault,
                >(e@)
                &&& final(out)@ == old(out)@
            },
        },
{
    let available: usize = out.len();
    let (band, frame) = prepare_single(raster, mask, options)?;
    let payload: Vec<u8> = mask_bytes(&band, frame, true);
    if payload.len() as u64 > 0xffff_ffff {
        return Err(Error::SizeOverflow("mask payload length as u32"));
    }
    let rest: Vec<u8> = write_rest(&band, frame, &payload);
    let needed: usize = total(header_len(band.plan.version), rest.len(), "encoded blob size")?;
    if needed > available {
        return Err(Error::OutputTooSmall { needed, available });
    }
    let size: u32 = check_blob(band.plan.version, payload.len(), rest.len(), 0)?;
    let mut blob: Vec<u8> = Vec::new();
    push_blob(&mut blob, &band, frame, &rest, size, 0, Ghost(payload@));
    proof {
        assert(blob@ =~= blob_of(band.ready(), frame, payload@, 0));
        lemma_blob_len(band.ready(), frame, payload@, 0);
    }
    copy_to_front(out, &blob);
    Ok(needed)
}

/// A blob has as many bytes as its header says.
pub proof fn lemma_blob_len<T: Sample>(
    ready: Ready<T>,
    frame: Frame,
    payload: Seq<u8>,
    remaining: nat,
)
    requires
        ready.version >= 4,
    ensures
        blob_of(ready, frame, payload, remaining).len() == blob_size(ready, frame, payload),
        fields_bytes(
            ready.found,
            frame,
            ready.version,
            blob_size(ready, frame, payload),
            remaining,
        ).len() == lerc2_header::header_size(ready.version) - 14,
{
    let found = ready.found;
    let size = blob_size(ready, frame, payload);
    lemma_fields_len(found, frame, ready.version, size, remaining);
    let tail = fields_bytes(found, frame, ready.version, size, remaining) + rest_bytes(
        ready,
        frame,
        payload,
    );
    bytes::lemma_le_bytes_len(ready.version as nat, 4);
    bytes::lemma_le_bytes_len(checksum::fletcher_of(tail), 4);
}

proof fn lemma_fields_len<T: Sample>(
    found: Findings<T>,
    frame: Frame,
    version: u32,
    size: nat,
    remaining: nat,
)
    requires
        version >= 4,
    ensures
        fields_bytes(found, frame, version, size, remaining).len() == lerc2_header::header_size(
            version,
        ) - 14,
{
    bytes::lemma_le_bytes_len(frame.height as nat, 4);
    bytes::lemma_le_bytes_len(frame.width as nat, 4);
    bytes::lemma_le_bytes_len(frame.depth as nat, 4);
    bytes::lemma_le_bytes_len(found.valid, 4);
    bytes::lemma_le_bytes_len(frame.micro_block_size as nat, 4);
    bytes::lemma_le_bytes_len(size, 4);
    bytes::lemma_le_bytes_len(T::kind().number(), 4);
    bytes::lemma_le_bytes_len(remaining, 4);
    bytes::lemma_le_bytes_len(found.max_z_error.bits as nat, 8);
    bytes::lemma_le_bytes_len(found.z_min.bits as nat, 8);
    bytes::lemma_le_bytes_len(found.z_max.bits as nat, 8);
    bytes::lemma_le_bytes_len(no_data_bits(found.encoded_no_data), 8);
    bytes::lemma_le_bytes_len(no_data_bits(found.original_no_data), 8);
}

/// Before the sixth version a blob does not say how many follow it.
pub proof fn lemma_unnumbered<T: Sample>(
    ready: Ready<T>,
    frame: Frame,
    payload: Seq<u8>,
    a: nat,
    b: nat,
)
    requires
        ready.version < 6,
    ensures
        blob_of(ready, frame, payload, a) == blob_of(ready, frame, payload, b),
{
}

} // verus!
