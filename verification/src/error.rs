//! Errors of the codec.

use crate::text;
use crate::text::{push_decimal, push_hex};
use std::io::ErrorKind;
use vstd::prelude::*;
use vstd::string::StringExecFns;

verus! {

/// Result type used throughout the codec.
pub type Result<T> = std::result::Result<T, Error>;

/// Errors returned while validating, decoding, or encoding LERC data.
#[derive(Debug, PartialEq)]
#[non_exhaustive]
pub enum Error {
    /// Input ended before a required field or payload was complete.
    Truncated {
        /// Byte offset at which the incomplete read began.
        offset: usize,
        /// Number of bytes required by the read.
        needed: usize,
        /// Number of bytes available from `offset`.
        available: usize,
    },
    /// A caller-provided output buffer cannot hold the result.
    OutputTooSmall {
        /// Minimum number of bytes required.
        needed: usize,
        /// Number of bytes supplied by the caller.
        available: usize,
    },
    /// The input does not start with a supported LERC signature.
    InvalidMagic,
    /// The blob uses a format version this implementation does not support.
    UnsupportedVersion(u32),
    /// The blob requests a recognized but unsupported format feature.
    UnsupportedFeature(&'static str),
    /// A fixed header field violates the LERC format constraints.
    InvalidHeader(&'static str),
    /// A public API argument is invalid.
    InvalidArgument(&'static str),
    /// Encoded data is structurally inconsistent or corrupt.
    InvalidBlob(String),
    /// Checked size arithmetic overflowed.
    SizeOverflow(&'static str),
    /// An internal codec invariant was violated.
    Internal(&'static str),
    /// Reading from a stream failed.
    Io {
        /// Portable category of the underlying I/O failure.
        kind: ErrorKind,
        /// Contextualized error message.
        message: String,
    },
    /// A Lerc2 checksum did not match the encoded payload.
    ChecksumMismatch {
        /// Checksum stored in the blob header.
        expected: u32,
        /// Checksum computed from the payload.
        actual: u32,
    },
}

/// What an [`Error`] says, with texts as character sequences.
#[verifier::ext_equal]
pub enum Fault {
    Truncated { offset: nat, needed: nat, available: nat },
    OutputTooSmall { needed: nat, available: nat },
    InvalidMagic,
    UnsupportedVersion(u32),
    UnsupportedFeature(Seq<char>),
    InvalidHeader(Seq<char>),
    InvalidArgument(Seq<char>),
    InvalidBlob(Seq<char>),
    SizeOverflow(Seq<char>),
    Internal(Seq<char>),
    Io { kind: ErrorKind, message: Seq<char> },
    ChecksumMismatch { expected: u32, actual: u32 },
}

impl View for Error {
    type V = Fault;

    open spec fn view(&self) -> Fault {
        match *self {
            Error::Truncated { offset, needed, available } => Fault::Truncated {
                offset: offset as nat,
                needed: needed as nat,
                available: available as nat,
            },
            Error::OutputTooSmall { needed, available } => Fault::OutputTooSmall {
                needed: needed as nat,
                available: available as nat,
            },
            Error::InvalidMagic => Fault::InvalidMagic,
            Error::UnsupportedVersion(version) => Fault::UnsupportedVersion(version),
            Error::UnsupportedFeature(feature) => Fault::UnsupportedFeature(feature@),
            Error::InvalidHeader(reason) => Fault::InvalidHeader(reason@),
            Error::InvalidArgument(reason) => Fault::InvalidArgument(reason@),
            Error::InvalidBlob(reason) => Fault::InvalidBlob(reason@),
            Error::SizeOverflow(context) => Fault::SizeOverflow(context@),
            Error::Internal(reason) => Fault::Internal(reason@),
            Error::Io { kind, message } => Fault::Io { kind, message: message@ },
            Error::ChecksumMismatch { expected, actual } => Fault::ChecksumMismatch {
                expected,
                actual,
            },
        }
    }
}

impl Clone for Error {
    fn clone(&self) -> (r: Error)
        ensures
            r@ == self@,
    {
        match self {
            Error::Truncated { offset, needed, available } => Error::Truncated {
                offset: *offset,
                needed: *needed,
                available: *available,
            },
            Error::OutputTooSmall { needed, available } => Error::OutputTooSmall {
                needed: *needed,
                available: *available,
            },
            Error::InvalidMagic => Error::InvalidMagic,
            Error::UnsupportedVersion(version) => Error::UnsupportedVersion(*version),
            Error::UnsupportedFeature(feature) => Error::UnsupportedFeature(feature),
            Error::InvalidHeader(reason) => Error::InvalidHeader(reason),
            Error::InvalidArgument(reason) => Error::InvalidArgument(reason),
            Error::InvalidBlob(reason) => Error::InvalidBlob(reason.clone()),
            Error::SizeOverflow(context) => Error::SizeOverflow(context),
            Error::Internal(reason) => Error::Internal(reason),
            Error::Io { kind, message } => Error::Io { kind: *kind, message: message.clone() },
            Error::ChecksumMismatch { expected, actual } => Error::ChecksumMismatch {
                expected: *expected,
                actual: *actual,
            },
        }
    }
}

/// `std::io::ErrorKind`, the portable category of an I/O failure; carried, never looked into.
#[verifier::external_type_specification]
#[verifier::external_body]
pub struct ExErrorKind(std::io::ErrorKind);

/// `std::io::Error`; carried, never looked into.
#[verifier::external_type_specification]
#[verifier::external_body]
pub struct ExIoError(std::io::Error);

/// `std::io::Error::kind`. Which kind an error reports is decided by the operating system or by
/// whoever made it, so nothing is claimed of it.
#[verifier::external_body]
fn io_error_kind(error: &std::io::Error) -> ErrorKind {
    error.kind()
}

/// The `Display` text of a `std::io::Error`. It may come from the operating system, so nothing
/// is claimed of it.
#[verifier::external_body]
fn io_error_text(error: &std::io::Error) -> String {
    format!("{}", error)
}

impl Fault {
    /// The text shown to users.
    pub open spec fn text(self) -> Seq<char> {
        match self {
            Fault::Truncated { offset, needed, available } => "truncated input at offset "@
                + text::decimal_text(offset) + ": need "@ + text::decimal_text(needed)
                + " bytes, have "@ + text::decimal_text(available),
            Fault::OutputTooSmall { needed, available } => "output buffer too small: need "@
                + text::decimal_text(needed) + " bytes, have "@ + text::decimal_text(available),
            Fault::InvalidMagic => "invalid LERC magic"@,
            Fault::UnsupportedVersion(version) => "unsupported LERC version "@
                + text::decimal_text(version as nat),
            Fault::UnsupportedFeature(feature) => "unsupported LERC feature: "@ + feature,
            Fault::InvalidHeader(reason) => "invalid LERC header: "@ + reason,
            Fault::InvalidArgument(reason) => "invalid argument: "@ + reason,
            Fault::InvalidBlob(reason) => "invalid LERC blob: "@ + reason,
            Fault::SizeOverflow(context) => "size overflow while computing "@ + context,
            Fault::Internal(reason) => "internal codec invariant failed: "@ + reason,
            Fault::Io { kind, message } => "I/O error: "@ + message,
            Fault::ChecksumMismatch { expected, actual } =>
                "LERC checksum mismatch: expected 0x"@ + text::hex_text(expected as nat, 8)
                    + ", got 0x"@ + text::hex_text(actual as nat, 8),
        }
    }
}

impl Error {
    /// Constructs a corrupt-blob error from its reason.
    pub fn invalid_blob(reason: &str) -> (r: Error)
        ensures
            r@ == Fault::InvalidBlob(reason@),
    {
        Error::InvalidBlob(reason.to_owned())
    }

    /// Puts an I/O failure and the operation it interrupted into one error.
    pub fn io_parts(context: &str, kind: ErrorKind, reason: &str) -> (r: Error)
        ensures
            r@ == (Fault::Io { kind, message: context@ + ": "@ + reason@ }),
    {
        let mut message: String = context.to_owned();
        message.append(": ");
        message.append(reason);
        Error::Io { kind, message }
    }

    /// Converts an I/O error while retaining its portable kind and operation context.
    pub fn io(context: &'static str, error: std::io::Error) -> (r: Error)
        ensures
            r@ is Io,
            exists|reason: Seq<char>| r@->message == #[trigger] (context@ + ": "@ + reason),
    {
        let kind: ErrorKind = io_error_kind(&error);
        let reason: String = io_error_text(&error);
        Error::io_parts(context, kind, reason.as_str())
    }

    /// The text shown to users.
    pub fn message(&self) -> (s: String)
        ensures
            s@ == self@.text(),
    {
        let mut s: String = String::new();
        proof {
            assert(s@ =~= Seq::<char>::empty());
            broadcast use crate::error::lemma_empty_prefix;
        }
        match self {
            Error::Truncated { offset, needed, available } => {
                s.append("truncated input at offset ");
                push_decimal(&mut s, *offset as u64);
                s.append(": need ");
                push_decimal(&mut s, *needed as u64);
                s.append(" bytes, have ");
                push_decimal(&mut s, *available as u64);
            },
            Error::OutputTooSmall { needed, available } => {
                s.append("output buffer too small: need ");
                push_decimal(&mut s, *needed as u64);
                s.append(" bytes, have ");
                push_decimal(&mut s, *available as u64);
            },
            Error::InvalidMagic => {
                s.append("invalid LERC magic");
            },
            Error::UnsupportedVersion(version) => {
                s.append("unsupported LERC version ");
                push_decimal(&mut s, *version as u64);
            },
            Error::UnsupportedFeature(feature) => {
                s.append("unsupported LERC feature: ");
                s.append(feature);
            },
            Error::InvalidHeader(reason) => {
                s.append("invalid LERC header: ");
                s.append(reason);
            },
            Error::InvalidArgument(reason) => {
                s.append("invalid argument: ");
                s.append(reason);
            },
            Error::InvalidBlob(reason) => {
                s.append("invalid LERC blob: ");
                s.append(reason.as_str());
            },
            Error::SizeOverflow(context) => {
                s.append("size overflow while computing ");
                s.append(context);
            },
            Error::Internal(reason) => {
                s.append("internal codec invariant failed: ");
                s.append(reason);
            },
            Error::Io { kind: _, message } => {
                s.append("I/O error: ");
                s.append(message.as_str());
            },
            Error::ChecksumMismatch { expected, actual } => {
                s.append("LERC checksum mismatch: expected 0x");
                push_hex(&mut s, *expected as u64, 8);
                s.append(", got 0x");
                push_hex(&mut s, *actual as u64, 8);
            },
        }
        s
    }
}

pub broadcast proof fn lemma_empty_prefix(s: Seq<char>)
    ensures
        #[trigger] (Seq::<char>::empty() + s) == s,
{
    assert(Seq::<char>::empty() + s =~= s);
}

} // verus!
