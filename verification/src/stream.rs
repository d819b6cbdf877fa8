//! Taking one blob off a byte stream without reading past its end.
//!
//! [`StreamReader`] decides how many bytes are wanted next; the caller fetches them.

use crate::blocks;
use crate::bytes;
use crate::bytes::{push_bytes, read_u32, signed_32};
use crate::error::{Error, Fault, Result};
use crate::lerc1;
use crate::lerc1::{is_lerc1, parse_lerc1};
use crate::lerc2_header;
use crate::lerc2_header::is_lerc2;
use vstd::prelude::*;
use vstd::slice::slice_subrange;

verus! {

/// The bytes that tell the formats apart.
pub const MAGIC_LEN: usize = 10;

/// The bytes of a Lerc1 blob up to and with its first section header.
pub const LERC1_FIRST_HEADER_END: usize = 50;

/// The bytes of a Lerc1 section header.
pub const LERC1_SECTION_HEADER_LEN: usize = 16;

/// The largest blob that a stream may declare.
pub const MAX_STREAM_BLOB_BYTES: usize = 536_870_912;

/// What the bytes up to the current target are.
#[derive(Debug, Clone, Copy, PartialEq, Eq, Structural)]
pub enum StreamPhase {
    /// The signature.
    Magic,
    /// A Lerc2 header up to the blob size.
    Lerc2Prefix,
    /// A whole Lerc2 blob.
    Lerc2Body,
    /// A Lerc1 header and the header of its first section.
    Lerc1Header,
    /// The first section of a Lerc1 blob: its mask, or its pixels where the mask is shared.
    Lerc1First,
    /// The header of the pixel section of a Lerc1 blob.
    Lerc1PixelHeader,
    /// A Lerc1 blob with its pixel section.
    Lerc1Pixels,
}

/// What to do once a target is reached.
#[derive(Debug, Clone, Copy, PartialEq, Eq, Structural)]
pub enum StreamStep {
    /// The blob is complete.
    Done,
    /// Read on, up to so many bytes in all.
    Read(StreamPhase, usize),
}

/// The error for a blob that is too large.
pub open spec fn size_fault() -> Fault {
    Fault::InvalidBlob("declared stream blob size exceeds the decoder limit"@)
}

/// The step to a target of `len` bytes.
pub open spec fn step_to(phase: StreamPhase, len: nat) -> std::result::Result<StreamStep, Fault> {
    if len > usize::MAX {
        Err(Fault::SizeOverflow("stream blob length"@))
    } else if len > MAX_STREAM_BLOB_BYTES {
        Err(size_fault())
    } else {
        Ok(StreamStep::Read(phase, len as usize))
    }
}

/// The length of a Lerc2 header up to and with the blob size.
pub open spec fn prefix_len(version: u32) -> nat {
    (lerc2_header::count_offset(version) + 12) as nat
}

/// The step behind the signature.
pub open spec fn after_magic(blob: Seq<u8>) -> std::result::Result<StreamStep, Fault> {
    if lerc2_header::has_lerc2_magic(blob) {
        let version = lerc2_header::integer_at(blob, 6);
        if !(1 <= version <= 6) {
            Err(
                Fault::UnsupportedVersion(
                    if version < 0 {
                        0
                    } else {
                        version as u32
                    },
                ),
            )
        } else {
            step_to(StreamPhase::Lerc2Prefix, prefix_len(version as u32))
        }
    } else if lerc1::has_lerc1_magic(blob) {
        step_to(StreamPhase::Lerc1Header, LERC1_FIRST_HEADER_END as nat)
    } else {
        Err(Fault::InvalidMagic)
    }
}

/// The step behind a Lerc2 prefix.
pub open spec fn after_prefix(blob: Seq<u8>) -> std::result::Result<StreamStep, Fault> {
    let declared = lerc2_header::integer_at(blob, blob.len() - 4);
    if declared <= 0 {
        Err(Fault::InvalidHeader("non-positive blob size"@))
    } else if declared > MAX_STREAM_BLOB_BYTES {
        Err(size_fault())
    } else if declared < blob.len() {
        Err(Fault::InvalidHeader("blob size is smaller than the fixed Lerc2 prefix"@))
    } else {
        Ok(StreamStep::Read(StreamPhase::Lerc2Body, declared as usize))
    }
}

/// The step behind bytes that parse as a Lerc1 blob.
pub open spec fn whole_lerc1(size: nat, len: nat) -> std::result::Result<StreamStep, Fault> {
    if size != len {
        Err(
            Fault::InvalidBlob("Lerc1 section length does not match the parsed blob length"@),
        )
    } else {
        Ok(StreamStep::Done)
    }
}

/// The step behind the first section of a Lerc1 blob: if it is all there is, the blob is
/// complete, and if something is missing, the pixels follow.
pub open spec fn after_first(blob: Seq<u8>, shared: Option<Seq<u8>>) -> std::result::Result<
    StreamStep,
    Fault,
> {
    match lerc1::parsed(blob, None) {
        Ok(parts) => whole_lerc1(parts.facts.blob_size as nat, blob.len()),
        Err(inline) => match (shared, lerc1::parsed(blob, shared)) {
            (Some(_), Ok(parts)) => whole_lerc1(parts.facts.blob_size as nat, blob.len()),
            _ => if inline is Truncated {
                step_to(
                    StreamPhase::Lerc1PixelHeader,
                    blob.len() + LERC1_SECTION_HEADER_LEN as nat,
                )
            } else {
                Err(inline)
            },
        },
    }
}

/// The step behind bytes that reach the target of a phase.
pub open spec fn stepped(phase: StreamPhase, blob: Seq<u8>, shared: Option<Seq<u8>>) ->
    std::result::Result<StreamStep, Fault> {
    match phase {
        StreamPhase::Magic => after_magic(blob),
        StreamPhase::Lerc2Prefix => after_prefix(blob),
        StreamPhase::Lerc2Body => Ok(StreamStep::Done),
        StreamPhase::Lerc1Header => step_to(
            StreamPhase::Lerc1First,
            blob.len() + lerc2_header::number_at(blob, 42) as nat,
        ),
        StreamPhase::Lerc1First => after_first(blob, shared),
        StreamPhase::Lerc1PixelHeader => step_to(
            StreamPhase::Lerc1Pixels,
            blob.len() + lerc2_header::number_at(blob, blob.len() - 8) as nat,
        ),
        StreamPhase::Lerc1Pixels => match lerc1::parsed(blob, shared) {
            Ok(parts) => whole_lerc1(parts.facts.blob_size as nat, blob.len()),
            Err(e) => Err(e),
        },
    }
}

/// The fewest bytes that a phase's target can have.
pub open spec fn least_target(phase: StreamPhase) -> nat {
    match phase {
        StreamPhase::Magic => MAGIC_LEN as nat,
        StreamPhase::Lerc2Prefix => 30,
        StreamPhase::Lerc2Body => 30,
        _ => LERC1_FIRST_HEADER_END as nat,
    }
}

/// A number of four bytes.
fn number_in(blob: &[u8], pos: usize) -> (r: u32)
    requires
        pos + 4 <= blob@.len(),
    ensures
        r == bytes::le_value(blob@.subrange(pos as int, pos + 4)),
        r == lerc2_header::number_at(blob@, pos as int),
{
    let _len: usize = blob.len();
    read_u32(slice_subrange(blob, pos, pos + 4))
}

/// Decides on the step to a target of `len` bytes.
fn check_target(phase: StreamPhase, at: usize, more: usize) -> (r: Result<StreamStep>)
    ensures
        match r {
            Ok(step) => step_to(phase, (at + more) as nat) == Ok::<_, Fault>(step),
            Err(e) => step_to(phase, (at + more) as nat) == Err::<StreamStep, _>(e@),
        },
{
    match at.checked_add(more) {
        None => Err(Error::SizeOverflow("stream blob length")),
        Some(target) => if target > MAX_STREAM_BLOB_BYTES {
            Err(Error::invalid_blob("declared stream blob size exceeds the decoder limit"))
        } else {
            Ok(StreamStep::Read(phase, target))
        },
    }
}

fn check_whole(size: usize, len: usize) -> (r: Result<StreamStep>)
    ensures
        match r {
            Ok(step) => whole_lerc1(size as nat, len as nat) == Ok::<_, Fault>(step),
            Err(e) => whole_lerc1(size as nat, len as nat) == Err::<StreamStep, _>(e@),
        },
{
    if size != len {
        return Err(
            Error::invalid_blob("Lerc1 section length does not match the parsed blob length"),
        );
    }
    Ok(StreamStep::Done)
}

fn decide_magic(blob: &[u8]) -> (r: Result<StreamStep>)
    requires
        blob@.len() >= MAGIC_LEN,
    ensures
        match r {
            Ok(step) => after_magic(blob@) == Ok::<_, Fault>(step),
            Err(e) => after_magic(blob@) == Err::<StreamStep, _>(e@),
        },
{
    if is_lerc2(blob) {
        let version: i32 = signed_32(number_in(blob, 6));
        if version < 1 || version > 6 {
            return Err(
                Error::UnsupportedVersion(if version < 0 { 0 } else { version as u32 }),
            );
        }
        let end: usize = 30 + if version >= 3 { 4 } else { 0 } + if version >= 4 { 4 } else { 0 };
        return check_target(StreamPhase::Lerc2Prefix, end, 0);
    }
    if is_lerc1(blob) {
        return check_target(StreamPhase::Lerc1Header, LERC1_FIRST_HEADER_END, 0);
    }
    Err(Error::InvalidMagic)
}

fn decide_prefix(blob: &[u8]) -> (r: Result<StreamStep>)
    requires
        blob@.len() >= 4,
    ensures
        match r {
            Ok(step) => after_prefix(blob@) == Ok::<_, Fault>(step),
            Err(e) => after_prefix(blob@) == Err::<StreamStep, _>(e@),
        },
{
    let len: usize = blob.len();
    let declared: i32 = signed_32(number_in(blob, len - 4));
    if declared <= 0 {
        return Err(Error::InvalidHeader("non-positive blob size"));
    }
    let size: usize = declared as usize;
    if size > MAX_STREAM_BLOB_BYTES {
        return Err(Error::invalid_blob("declared stream blob size exceeds the decoder limit"));
    }
    if size < len {
        return Err(Error::InvalidHeader("blob size is smaller than the fixed Lerc2 prefix"));
    }
    Ok(StreamStep::Read(StreamPhase::Lerc2Body, size))
}

fn decide_first(blob: &[u8], shared: Option<&[u8]>) -> (r: Result<StreamStep>)
    ensures
        match r {
            Ok(step) => after_first(blob@, blocks::mask_seq(shared)) == Ok::<_, Fault>(step),
            Err(e) => after_first(blob@, blocks::mask_seq(shared)) == Err::<StreamStep, _>(e@),
        },
{
    let inline = match parse_lerc1(blob, None) {
        Ok(parts) => {
            return check_whole(parts.info.blob_size, blob.len());
        },
        Err(e) => e,
    };
    if shared.is_some() {
        match parse_lerc1(blob, shared) {
            Ok(parts) => {
                return check_whole(parts.info.blob_size, blob.len());
            },
            Err(_) => {},
        }
    }
    match inline {
        Error::Truncated { .. } => check_target(
            StreamPhase::Lerc1PixelHeader,
            blob.len(),
            LERC1_SECTION_HEADER_LEN,
        ),
        other => Err(other),
    }
}

/// Decides what to do once the target of a phase is reached.
pub fn decide_step(phase: StreamPhase, blob: &[u8], shared: Option<&[u8]>) -> (r: Result<
    StreamStep,
>)
    requires
        blob@.len() >= least_target(phase),
    ensures
        match r {
            Ok(step) => stepped(phase, blob@, blocks::mask_seq(shared)) == Ok::<_, Fault>(step),
            Err(e) => stepped(phase, blob@, blocks::mask_seq(shared)) == Err::<StreamStep, _>(e@),
        },
{
    let len: usize = blob.len();
    match phase {
        StreamPhase::Magic => decide_magic(blob),
        StreamPhase::Lerc2Prefix => decide_prefix(blob),
        StreamPhase::Lerc2Body => Ok(StreamStep::Done),
        StreamPhase::Lerc1Header => check_target(
            StreamPhase::Lerc1First,
            len,
            number_in(blob, 42) as usize,
        ),
        StreamPhase::Lerc1First => decide_first(blob, shared),
        StreamPhase::Lerc1PixelHeader => check_target(
            StreamPhase::Lerc1Pixels,
            len,
            number_in(blob, len - 8) as usize,
        ),
        StreamPhase::Lerc1Pixels => match parse_lerc1(blob, shared) {
            Ok(parts) => check_whole(parts.info.blob_size, len),
            Err(e) => Err(e),
        },
    }
}

/// How far a stream reader has come.
pub struct Progress {
    /// The bytes taken in.
    pub held: Seq<u8>,
    pub phase: StreamPhase,
    /// How many bytes there have to be before the next decision.
    pub goal: nat,
    /// Whether the blob is complete.
    pub complete: bool,
}

/// Where a reader is that has taken in a piece, and has decided once if that reached its goal.
pub open spec fn taken(progress: Progress, piece: Seq<u8>, shared: Option<Seq<u8>>) ->
    std::result::Result<Progress, Fault> {
    let held = progress.held + piece;
    if held.len() != progress.goal {
        Ok(Progress { held, ..progress })
    } else {
        match stepped(progress.phase, held, shared) {
            Err(e) => Err(e),
            Ok(StreamStep::Done) => Ok(Progress { held, complete: true, ..progress }),
            Ok(StreamStep::Read(phase, target)) => Ok(
                Progress { held, phase, goal: target as nat, ..progress },
            ),
        }
    }
}

/// The bytes of one blob while they arrive.
pub struct StreamReader {
    blob: Vec<u8>,
    phase: StreamPhase,
    target: usize,
}

impl StreamReader {
    /// The bytes so far.
    pub closed spec fn buffered(&self) -> Seq<u8> {
        self.blob@
    }

    /// What the bytes up to the target are.
    pub closed spec fn stage(&self) -> StreamPhase {
        self.phase
    }

    /// How many bytes there have to be before the next decision.
    pub closed spec fn goal(&self) -> nat {
        self.target as nat
    }

    pub open spec fn wf(&self) -> bool {
        &&& self.buffered().len() <= self.goal() <= MAX_STREAM_BLOB_BYTES
        &&& self.goal() >= least_target(self.stage())
        &&& self.stage() == StreamPhase::Magic ==> self.goal() == MAGIC_LEN
    }

    /// Starts in front of a blob.
    pub fn new() -> (r: StreamReader)
        ensures
            r.wf(),
            r.buffered() == Seq::<u8>::empty(),
            r.stage() == StreamPhase::Magic,
            r.goal() == MAGIC_LEN,
    {
        StreamReader { blob: Vec::new(), phase: StreamPhase::Magic, target: MAGIC_LEN }
    }

    /// The number of bytes to fetch before the next decision.
    pub fn wanted(&self) -> (r: usize)
        requires
            self.wf(),
        ensures
            r == self.goal() - self.buffered().len(),
    {
        self.target - self.blob.len()
    }

    /// Takes in bytes that were fetched.
    pub fn accept(&mut self, fetched: &[u8])
        requires
            old(self).wf(),
            fetched@.len() <= old(self).goal() - old(self).buffered().len(),
        ensures
            final(self).wf(),
            final(self).buffered() == old(self).buffered() + fetched@,
            final(self).stage() == old(self).stage(),
            final(self).goal() == old(self).goal(),
    {
        push_bytes(&mut self.blob, fetched);
    }

    /// The end of the stream was reached: in front of a blob that is no error, inside one
    /// bytes are missing.
    pub fn at_end(&self) -> (r: Result<()>)
        requires
            self.wf(),
            self.buffered().len() < self.goal(),
        ensures
            match r {
                Ok(_) => self.stage() == StreamPhase::Magic && self.buffered().len() == 0,
                Err(e) => !(self.stage() == StreamPhase::Magic && self.buffered().len() == 0) && e@
                    == (Fault::Truncated {
                    offset: self.buffered().len(),
                    needed: (self.goal() - self.buffered().len()) as nat,
                    available: 0,
                }),
            },
    {
        if self.phase == StreamPhase::Magic && self.blob.len() == 0 {
            return Ok(());
        }
        Err(
            Error::Truncated {
                offset: self.blob.len(),
                needed: self.target - self.blob.len(),
                available: 0,
            },
        )
    }

    /// Decides what comes next once the target is reached; `true` says that the blob is
    /// complete.
    pub fn advance(&mut self, shared: Option<&[u8]>) -> (r: Result<bool>)
        requires
            old(self).wf(),
            old(self).buffered().len() == old(self).goal(),
        ensures
            final(self).wf(),
            final(self).buffered() == old(self).buffered(),
            ({
                let step = stepped(old(self).stage(), old(self).buffered(), blocks::mask_seq(shared));
                match r {
                    Ok(complete) => if complete {
                        &&& step == Ok::<_, Fault>(StreamStep::Done)
                        &&& final(self).stage() == old(self).stage()
                        &&& final(self).goal() == old(self).goal()
                    } else {
                        step == Ok::<_, Fault>(
                            StreamStep::Read(final(self).stage(), final(self).goal() as usize),
                        )
                    },
                    Err(e) => {
                        &&& step == Err::<StreamStep, _>(e@)
                        &&& final(self).stage() == old(self).stage()
                        &&& final(self).goal() == old(self).goal()
                    },
                }
            }),
    {
        let step: StreamStep = decide_step(self.phase, self.blob.as_slice(), shared)?;
        match step {
            StreamStep::Done => Ok(true),
            StreamStep::Read(phase, target) => {
                self.phase = phase;
                self.target = target;
                Ok(false)
            },
        }
    }

    /// Where the reader is, given whether it is complete.
    pub open spec fn progress(&self, complete: bool) -> Progress {
        Progress { held: self.buffered(), phase: self.stage(), goal: self.goal(), complete }
    }

    /// Takes in bytes that were fetched, and decides what comes next if they reach the target;
    /// `true` says that the blob is complete.
    pub fn take(&mut self, fetched: &[u8], shared: Option<&[u8]>) -> (r: Result<bool>)
        requires
            old(self).wf(),
            fetched@.len() <= old(self).goal() - old(self).buffered().len(),
        ensures
            final(self).wf(),
            final(self).buffered() == old(self).buffered() + fetched@,
            match r {
                Ok(complete) => taken(
                    old(self).progress(false),
                    fetched@,
                    blocks::mask_seq(shared),
                ) == Ok::<_, Fault>(final(self).progress(complete)),
                Err(e) => taken(
                    old(self).progress(false),
                    fetched@,
                    blocks::mask_seq(shared),
                ) == Err::<Progress, _>(e@),
            },
    {
        self.accept(fetched);
        if self.wanted() > 0 {
            return Ok(false);
        }
        self.advance(shared)
    }

    /// Hands out the bytes of the blob.
    pub fn into_blob(self) -> (r: Vec<u8>)
        ensures
            r@ == self.buffered(),
    {
        self.blob
    }
}

/// A complete Lerc2 blob has the length that its header declares, and no byte more was asked
/// for.
pub proof fn law_declared_length(blob: Seq<u8>, prefix: Seq<u8>, target: usize)
    requires
        stepped(StreamPhase::Lerc2Prefix, prefix, None) == Ok::<_, Fault>(
            StreamStep::Read(StreamPhase::Lerc2Body, target),
        ),
        blob.len() == target,
    ensures
        blob.len() == lerc2_header::integer_at(prefix, prefix.len() - 4),
        stepped(StreamPhase::Lerc2Body, blob, None) == Ok::<_, Fault>(StreamStep::Done),
{
}

} // verus!
