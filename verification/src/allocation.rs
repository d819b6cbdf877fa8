//! Limits on what a blob may make the decoder allocate.

use crate::error::{Error, Fault, Result};
use crate::text;
use crate::text::push_decimal;
use vstd::prelude::*;
use vstd::string::StringExecFns;

verus! {

/// The largest single buffer that decoding may ask for.
pub const MAX_DECODED_ALLOCATION_BYTES: usize = 536_870_912;

/// What is wrong with a buffer of `len` elements of `size` bytes, if anything.
pub open spec fn allocation_fault(len: nat, size: nat, label: Seq<char>) -> Option<Fault> {
    if len * size > usize::MAX {
        Some(Fault::SizeOverflow(label))
    } else if len * size > MAX_DECODED_ALLOCATION_BYTES {
        Some(
            Fault::InvalidBlob(
                label + " allocation request of "@ + text::decimal_text(len * size)
                    + " bytes exceeds decoder limit of "@ + text::decimal_text(
                    MAX_DECODED_ALLOCATION_BYTES as nat,
                ) + " bytes"@,
            ),
        )
    } else {
        None
    }
}

/// Multiplies two counts.
pub fn checked_mul(a: usize, b: usize, label: &'static str) -> (r: Result<usize>)
    ensures
        match r {
            Ok(product) => product == a as nat * b as nat,
            Err(e) => a as nat * b as nat > usize::MAX && e@ == Fault::SizeOverflow(label@),
        },
{
    match a.checked_mul(b) {
        Some(product) => Ok(product),
        None => Err(Error::SizeOverflow(label)),
    }
}

/// Checks that a buffer of `len` elements of `size` bytes stays within the limit.
pub fn check_allocation(len: usize, size: usize, label: &'static str) -> (r: Result<()>)
    ensures
        match r {
            Ok(_) => allocation_fault(len as nat, size as nat, label@) is None,
            Err(e) => allocation_fault(len as nat, size as nat, label@) == Some(e@),
        },
{
    let bytes: usize = checked_mul(len, size, label)?;
    if bytes > MAX_DECODED_ALLOCATION_BYTES {
        let mut reason: String = label.to_owned();
        reason.append(" allocation request of ");
        push_decimal(&mut reason, bytes as u64);
        reason.append(" bytes exceeds decoder limit of ");
        push_decimal(&mut reason, MAX_DECODED_ALLOCATION_BYTES as u64);
        reason.append(" bytes");
        return Err(Error::InvalidBlob(reason));
    }
    Ok(())
}

/// `len` copies of a value.
pub open spec fn repeated<T>(value: T, len: nat) -> Seq<T> {
    Seq::new(len, |i: int| value)
}

/// A vector of `len` copies of a value.
pub fn filled<T: Copy>(value: T, len: usize) -> (r: Vec<T>)
    ensures
        r@ == repeated(value, len as nat),
{
    let mut out: Vec<T> = Vec::with_capacity(len);
    let mut i: usize = 0;
    while i < len
        invariant
            i <= len,
            out@ =~= repeated(value, i as nat),
        decreases len - i,
    {
        out.push(value);
        i += 1;
    }
    out
}

} // verus!
