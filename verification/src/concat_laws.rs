//! Concatenated Lerc2 blobs: what follows a blob does not change what is read of it, counts add
//! up, and decoding the blobs one by one is decoding them together.

use crate::bands;
use crate::bytes;
use crate::error::Fault;
use crate::float::{Double, Single};
use crate::lerc1;
use crate::lerc2_header;
use crate::reader;
use crate::sample::Sample;
use crate::types::{BlobFacts, PixelSeq};
use vstd::prelude::*;

verus! {

/// Whether the bytes are one Lerc2 blob and nothing else.
pub open spec fn whole(blob: Seq<u8>) -> bool {
    &&& lerc2_header::has_lerc2_magic(blob)
    &&& lerc2_header::header_parsed(blob) matches Ok(h)
    &&& h.blob_size == blob.len()
}

/// Whether each of some byte strings is one Lerc2 blob.
pub open spec fn all_whole(blobs: Seq<Seq<u8>>) -> bool {
    forall|i: int| 0 <= i < blobs.len() ==> whole(#[trigger] blobs[i])
}

/// Byte strings, one after another.
pub open spec fn joined(blobs: Seq<Seq<u8>>) -> Seq<u8>
    decreases blobs.len(),
{
    if blobs.len() == 0 {
        seq![]
    } else {
        blobs[0] + joined(blobs.drop_first())
    }
}

/// Joining two lists joins what each of them joins to.
pub proof fn lemma_joined(a: Seq<Seq<u8>>, b: Seq<Seq<u8>>)
    ensures
        joined(a + b) == joined(a) + joined(b),
    decreases a.len(),
{
    if a.len() == 0 {
        assert(a + b =~= b);
        assert(joined(a) + joined(b) =~= joined(b));
    } else {
        lemma_joined(a.drop_first(), b);
        assert((a + b).drop_first() =~= a.drop_first() + b);
        assert(joined(a + b) =~= joined(a) + joined(b));
    }
}

/// Fields that fit end to end are none of them short.
proof fn lemma_no_short_field(len: nat, pos: nat, widths: Seq<usize>, i: nat)
    requires
        pos + lerc2_header::widths_sum(widths, i) <= len,
    ensures
        lerc2_header::short_field(len, pos, widths, i) is None,
    decreases widths.len() - i,
{
    if i < widths.len() {
        lemma_no_short_field(len, pos + widths[i as int] as nat, widths, i + 1);
    }
}

/// The fixed header is read from its own bytes.
proof fn lemma_fields_local(a: Seq<u8>, b: Seq<u8>, version: u32)
    requires
        1 <= version <= 6,
        lerc2_header::header_size(version) <= a.len(),
        lerc2_header::header_size(version) <= b.len(),
        forall|i: int| 0 <= i < lerc2_header::header_size(version) ==> a[i] == b[i],
    ensures
        lerc2_header::raw_header(a, version) == lerc2_header::raw_header(b, version),
{
    let n = lerc2_header::header_size(version);
    assert forall|x: int, y: int| 0 <= x <= y <= n implies #[trigger] a.subrange(x, y) == b.subrange(
        x,
        y,
    ) by {
        assert(a.subrange(x, y) =~= b.subrange(x, y));
    }
}

/// A parsed header reaches no further than the blob that it declares: any bytes that begin with
/// that blob parse to the same header.
pub proof fn lemma_header_local(a: Seq<u8>, b: Seq<u8>)
    requires
        lerc2_header::header_parsed(a) matches Ok(h) && h.blob_size <= b.len() && a.subrange(
            0,
            h.blob_size as int,
        ) == b.subrange(0, h.blob_size as int),
    ensures
        lerc2_header::header_parsed(b) == lerc2_header::header_parsed(a),
        lerc2_header::has_lerc2_magic(b),
        lerc2_header::header_parsed(a) matches Ok(h) && 0 < h.blob_size <= a.len()
            && lerc2_header::header_size(h.version) + 4 <= h.blob_size,
{
    let h = lerc2_header::header_parsed(a)->Ok_0;
    let n = h.blob_size as int;
    let version = h.version;
    let end = lerc2_header::header_size(version);
    bytes::lemma_le_value_4(a.subrange(6, 10));
    assert(end + 4 <= n <= a.len());
    assert forall|i: int| 0 <= i < n implies a[i] == b[i] by {
        assert(a.subrange(0, n)[i] == b.subrange(0, n)[i]);
    }
    assert forall|x: int, y: int| 0 <= x <= y <= n implies #[trigger] a.subrange(x, y) == b.subrange(
        x,
        y,
    ) by {
        assert(a.subrange(x, y) =~= b.subrange(x, y));
    }
    lerc2_header::lemma_field_widths(version);
    lemma_no_short_field(b.len(), 10, lerc2_header::field_widths(version), 0);
    lemma_fields_local(a, b, version);
    assert(a.subrange(0, 6) == b.subrange(0, 6));
    assert(a.subrange(6, 10) == b.subrange(6, 10));
    assert(a.subrange(14, n) == b.subrange(14, n));
    assert(a.subrange(end, end + 4) == b.subrange(end, end + 4));
}

/// Bytes behind a whole blob.
pub proof fn lemma_whole_then(blob: Seq<u8>, rest: Seq<u8>)
    requires
        whole(blob),
    ensures
        lerc2_header::header_parsed(blob + rest) == lerc2_header::header_parsed(blob),
        lerc2_header::has_lerc2_magic(blob + rest),
        !lerc1::has_lerc1_magic(blob + rest),
        !lerc1::has_lerc1_magic(blob),
        blob.len() > 0,
        (blob + rest).subrange(0, blob.len() as int) == blob,
{
    let h = lerc2_header::header_parsed(blob)->Ok_0;
    assert(blob.subrange(0, blob.len() as int) =~= blob);
    assert((blob + rest).subrange(0, blob.len() as int) =~= blob);
    lemma_header_local(blob, blob + rest);
    lemma_magic_apart(blob);
    lemma_magic_apart(blob + rest);
}

proof fn lemma_decoded_local<T: Sample>(
    blob: Seq<u8>,
    rest: Seq<u8>,
    lerc1_mask: Option<Seq<u8>>,
    lerc2_mask: Option<Seq<u8>>,
)
    requires
        whole(blob),
    ensures
        reader::first_decoded::<T>(blob + rest, lerc1_mask, lerc2_mask, true)
            == reader::first_decoded::<T>(blob, lerc1_mask, lerc2_mask, true),
        reader::first_decoded::<T>(blob, lerc1_mask, lerc2_mask, true) matches Ok(parts)
            ==> parts.0.blob_size == blob.len(),
{
    lemma_whole_then(blob, rest);
    assert(blob.subrange(0, blob.len() as int) =~= blob);
}

/// What is decoded of a whole Lerc2 blob does not depend on the bytes behind it, and its
/// metadata give its length.
#[verifier::rlimit(40)]
#[verifier::spinoff_prover]
pub proof fn law_rest_ignored(
    blob: Seq<u8>,
    rest: Seq<u8>,
    lerc1_mask: Option<Seq<u8>>,
    lerc2_mask: Option<Seq<u8>>,
)
    requires
        whole(blob),
    ensures
        reader::native_decoded(blob + rest, lerc1_mask, lerc2_mask) == reader::native_decoded(
            blob,
            lerc1_mask,
            lerc2_mask,
        ),
        reader::native_decoded(blob, lerc1_mask, lerc2_mask) matches Ok(parts)
            ==> parts.0.blob_size == blob.len(),
{
    lemma_whole_then(blob, rest);
    lemma_decoded_local::<i8>(blob, rest, lerc1_mask, lerc2_mask);
    lemma_decoded_local::<u8>(blob, rest, lerc1_mask, lerc2_mask);
    lemma_decoded_local::<i16>(blob, rest, lerc1_mask, lerc2_mask);
    lemma_decoded_local::<u16>(blob, rest, lerc1_mask, lerc2_mask);
    lemma_decoded_local::<i32>(blob, rest, lerc1_mask, lerc2_mask);
    lemma_decoded_local::<u32>(blob, rest, lerc1_mask, lerc2_mask);
    lemma_decoded_local::<Single>(blob, rest, lerc1_mask, lerc2_mask);
    lemma_decoded_local::<Double>(blob, rest, lerc1_mask, lerc2_mask);
}

proof fn lemma_size_decoded<T: Sample>(
    blob: Seq<u8>,
    lerc1_mask: Option<Seq<u8>>,
    lerc2_mask: Option<Seq<u8>>,
)
    requires
        lerc2_header::has_lerc2_magic(blob),
        !lerc1::has_lerc1_magic(blob),
    ensures
        reader::first_decoded::<T>(blob, lerc1_mask, lerc2_mask, true) matches Ok(parts)
            ==> lerc2_header::header_parsed(blob) matches Ok(h) && h.blob_size
            == parts.0.blob_size,
{
}

proof fn lemma_size_native(
    blob: Seq<u8>,
    lerc1_mask: Option<Seq<u8>>,
    lerc2_mask: Option<Seq<u8>>,
)
    requires
        lerc2_header::has_lerc2_magic(blob),
        !lerc1::has_lerc1_magic(blob),
    ensures
        reader::native_decoded(blob, lerc1_mask, lerc2_mask) matches Ok(parts)
            ==> lerc2_header::header_parsed(blob) matches Ok(h) && h.blob_size
            == parts.0.blob_size,
{
    lemma_size_decoded::<i8>(blob, lerc1_mask, lerc2_mask);
    lemma_size_decoded::<u8>(blob, lerc1_mask, lerc2_mask);
    lemma_size_decoded::<i16>(blob, lerc1_mask, lerc2_mask);
    lemma_size_decoded::<u16>(blob, lerc1_mask, lerc2_mask);
    lemma_size_decoded::<i32>(blob, lerc1_mask, lerc2_mask);
    lemma_size_decoded::<u32>(blob, lerc1_mask, lerc2_mask);
    lemma_size_decoded::<Single>(blob, lerc1_mask, lerc2_mask);
    lemma_size_decoded::<Double>(blob, lerc1_mask, lerc2_mask);
}

/// A blob that begins with one signature does not begin with the other.
proof fn lemma_magic_apart(blob: Seq<u8>)
    requires
        lerc2_header::has_lerc2_magic(blob),
    ensures
        !lerc1::has_lerc1_magic(blob),
{
    assert(blob.subrange(0, 6)[0] == 76);
    if lerc1::has_lerc1_magic(blob) {
        assert(blob.subrange(0, 9)[0] == 67);
    }
}

/// A Lerc2 blob that is accepted as the only one in its bytes has the length that its header
/// declares.
pub proof fn law_decoded_whole(
    blob: Seq<u8>,
    mask: Option<Seq<u8>>,
    strict_api: Seq<char>,
    permissive_api: Seq<char>,
)
    requires
        lerc2_header::has_lerc2_magic(blob),
        reader::strictly(
            reader::native_decoded(blob, mask, mask),
            blob.len(),
            strict_api,
            permissive_api,
        ) is Ok,
    ensures
        whole(blob),
{
    let outcome = reader::native_decoded(blob, mask, mask);
    reader::law_strict_consumes(outcome, blob.len(), strict_api, permissive_api);
    lemma_magic_apart(blob);
    lemma_size_native(blob, mask, mask);
}

/// Counting goes on behind bytes in front as it would without them.
#[verifier::rlimit(60)]
#[verifier::spinoff_prover]
proof fn lemma_count_shifted(
    front: Seq<u8>,
    rest: Seq<u8>,
    offset: nat,
    shared: Option<Seq<u8>>,
    base: nat,
    count: nat,
)
    requires
        (front + rest).len() <= usize::MAX,
        offset <= rest.len(),
    ensures
        bands::blobs_counted(rest, offset, shared, count) matches Ok(n) ==> bands::blobs_counted(
            front + rest,
            front.len() + offset,
            shared,
            base + count,
        ) == Ok::<nat, Fault>(base + n),
    decreases rest.len() - offset,
{
    if offset < rest.len() && bands::blobs_counted(rest, offset, shared, count) is Ok {
        let slice = bands::rest_of(rest, offset);
        assert(bands::rest_of(front + rest, front.len() + offset) =~= slice);
        let (facts, left) = bands::step_parsed(slice, shared)->Ok_0;
        let next = bands::advanced(offset, facts.blob_size as nat, rest.len())->Ok_0;
        lemma_count_shifted(
            front,
            rest,
            next,
            if lerc1::has_lerc1_magic(slice) {
                left
            } else {
                shared
            },
            base,
            count + 1,
        );
    }
}

/// The first of some Lerc2 blobs counts one, whatever follows.
#[verifier::rlimit(40)]
#[verifier::spinoff_prover]
proof fn lemma_count_step(front: Seq<u8>, blob: Seq<u8>, rest: Seq<u8>, count: nat)
    requires
        whole(blob),
        (front + (blob + rest)).len() <= usize::MAX,
    ensures
        bands::blobs_counted(front + (blob + rest), front.len(), None, count)
            == bands::blobs_counted(
            front + (blob + rest),
            front.len() + blob.len(),
            None,
            count + 1,
        ),
{
    let all = front + (blob + rest);
    lemma_whole_then(blob, rest);
    assert(bands::rest_of(all, front.len()) =~= blob + rest);
}

/// Counting passes over Lerc2 blobs one by one.
#[verifier::rlimit(60)]
#[verifier::spinoff_prover]
proof fn lemma_count_passes(front: Seq<u8>, blobs: Seq<Seq<u8>>, rest: Seq<u8>, count: nat)
    requires
        all_whole(blobs),
        (front + (joined(blobs) + rest)).len() <= usize::MAX,
    ensures
        bands::blobs_counted(front + (joined(blobs) + rest), front.len(), None, count)
            == bands::blobs_counted(
            front + (joined(blobs) + rest),
            front.len() + joined(blobs).len(),
            None,
            count + blobs.len(),
        ),
    decreases blobs.len(),
{
    if blobs.len() > 0 {
        let tail = joined(blobs.drop_first());
        lemma_rest_whole(blobs);
        assert(joined(blobs) + rest =~= blobs[0] + (tail + rest));
        lemma_count_step(front, blobs[0], tail + rest, count);
        let longer = front + blobs[0];
        assert(front + (blobs[0] + (tail + rest)) =~= longer + (tail + rest));
        lemma_count_passes(longer, blobs.drop_first(), rest, count + 1);
    }
}

/// Counts add up: the blobs of a concatenation of Lerc2 blobs, followed by bytes that hold
/// `more` blobs of either format, are so many more. On its own the concatenation holds the
/// blobs that it was joined from.
pub proof fn law_counts_add(blobs: Seq<Seq<u8>>, rest: Seq<u8>, more: nat)
    requires
        all_whole(blobs),
        (joined(blobs) + rest).len() <= usize::MAX,
        bands::blobs_counted(rest, 0, None, 0) == Ok::<nat, Fault>(more),
    ensures
        bands::blobs_counted(joined(blobs), 0, None, 0) == Ok::<nat, Fault>(blobs.len()),
        bands::blobs_counted(joined(blobs) + rest, 0, None, 0) == Ok::<nat, Fault>(
            blobs.len() + more,
        ),
{
    let none = Seq::<u8>::empty();
    lemma_count_passes(none, blobs, rest, 0);
    assert(none + (joined(blobs) + rest) =~= joined(blobs) + rest);
    lemma_count_shifted(joined(blobs), rest, 0, None, blobs.len(), 0);
    lemma_count_passes(none, blobs, none, 0);
    assert(none + (joined(blobs) + none) =~= joined(blobs));
}

/// Bytes behind concatenated Lerc2 blobs that begin with no signature are an error.
pub proof fn law_count_refuses(blobs: Seq<Seq<u8>>, rest: Seq<u8>)
    requires
        all_whole(blobs),
        (joined(blobs) + rest).len() <= usize::MAX,
        rest.len() > 0,
        !lerc1::has_lerc1_magic(rest),
        !lerc2_header::has_lerc2_magic(rest),
    ensures
        bands::blobs_counted(joined(blobs) + rest, 0, None, 0) == Err::<nat, Fault>(
            Fault::InvalidMagic,
        ),
{
    let none = Seq::<u8>::empty();
    let all = joined(blobs) + rest;
    lemma_count_passes(none, blobs, rest, 0);
    assert(none + all =~= all);
    assert(bands::rest_of(all, joined(blobs).len()) =~= rest);
}

/// What a band set builder holds after blobs were pushed one by one: metadata, samples and
/// masks, given the masks for the next Lerc1 and the next Lerc2 blob.
pub open spec fn pushed(
    blobs: Seq<Seq<u8>>,
    lerc1_mask: Option<Seq<u8>>,
    lerc2_mask: Option<Seq<u8>>,
    infos: Seq<BlobFacts>,
    found: Seq<PixelSeq>,
    masks: Seq<Option<Seq<u8>>>,
) -> std::result::Result<(Seq<BlobFacts>, Seq<PixelSeq>, Seq<Option<Seq<u8>>>), Fault>
    decreases blobs.len(),
{
    if blobs.len() == 0 {
        Ok((infos, found, masks))
    } else {
        match reader::native_decoded(blobs[0], lerc1_mask, lerc2_mask) {
            Err(e) => Err(e),
            Ok((facts, pixels, mask)) => pushed(
                blobs.drop_first(),
                bands::left_to_lerc1(blobs[0], mask),
                bands::left_to_lerc2(blobs[0], mask),
                infos.push(facts),
                found.push(pixels),
                masks.push(mask),
            ),
        }
    }
}

/// Decoding the first of some Lerc2 blobs, and going on behind it.
#[verifier::rlimit(60)]
#[verifier::spinoff_prover]
proof fn lemma_native_step(
    front: Seq<u8>,
    blob: Seq<u8>,
    rest: Seq<u8>,
    lerc1_mask: Option<Seq<u8>>,
    lerc2_mask: Option<Seq<u8>>,
    infos: Seq<BlobFacts>,
    found: Seq<PixelSeq>,
    masks: Seq<Option<Seq<u8>>>,
)
    requires
        whole(blob),
        (front + (blob + rest)).len() <= usize::MAX,
    ensures
        bands::native_bands(
            front + (blob + rest),
            front.len(),
            lerc1_mask,
            lerc2_mask,
            infos,
            found,
            masks,
        ) == match reader::native_decoded(blob, lerc1_mask, lerc2_mask) {
            Err(e) => Err(e),
            Ok((facts, pixels, mask)) => bands::native_bands(
                front + (blob + rest),
                front.len() + blob.len(),
                bands::left_to_lerc1(blob, mask),
                bands::left_to_lerc2(blob, mask),
                infos.push(facts),
                found.push(pixels),
                masks.push(mask),
            ),
        },
{
    let all = front + (blob + rest);
    lemma_whole_then(blob, rest);
    law_rest_ignored(blob, rest, lerc1_mask, lerc2_mask);
    assert(bands::rest_of(all, front.len()) =~= blob + rest);
}

/// All blobs but the first.
proof fn lemma_rest_whole(blobs: Seq<Seq<u8>>)
    requires
        all_whole(blobs),
        blobs.len() > 0,
    ensures
        whole(blobs[0]),
        all_whole(blobs.drop_first()),
{
    assert forall|i: int| 0 <= i < blobs.drop_first().len() implies whole(
        #[trigger] blobs.drop_first()[i],
    ) by {
        assert(whole(blobs[i + 1]));
    }
}

#[verifier::rlimit(60)]
#[verifier::spinoff_prover]
proof fn lemma_pushed(
    front: Seq<u8>,
    blobs: Seq<Seq<u8>>,
    lerc1_mask: Option<Seq<u8>>,
    lerc2_mask: Option<Seq<u8>>,
    infos: Seq<BlobFacts>,
    found: Seq<PixelSeq>,
    masks: Seq<Option<Seq<u8>>>,
)
    requires
        all_whole(blobs),
        (front + joined(blobs)).len() <= usize::MAX,
    ensures
        bands::native_bands(
            front + joined(blobs),
            front.len(),
            lerc1_mask,
            lerc2_mask,
            infos,
            found,
            masks,
        ) == pushed(blobs, lerc1_mask, lerc2_mask, infos, found, masks),
    decreases blobs.len(),
{
    if blobs.len() > 0 {
        let blob = blobs[0];
        let tail = joined(blobs.drop_first());
        lemma_rest_whole(blobs);
        lemma_native_step(front, blob, tail, lerc1_mask, lerc2_mask, infos, found, masks);
        if let Ok((facts, pixels, mask)) = reader::native_decoded(blob, lerc1_mask, lerc2_mask) {
            let longer = front + blob;
            assert(longer + tail =~= front + (blob + tail));
            lemma_pushed(
                longer,
                blobs.drop_first(),
                bands::left_to_lerc1(blob, mask),
                bands::left_to_lerc2(blob, mask),
                infos.push(facts),
                found.push(pixels),
                masks.push(mask),
            );
        }
    }
}

/// Pushing Lerc2 blobs one by one and finishing the set is decoding their concatenation as a
/// band set: the same metadata, samples and masks in the same order, or the same error.
pub proof fn law_pushed_agrees(blobs: Seq<Seq<u8>>, mask: Option<Seq<u8>>)
    requires
        all_whole(blobs),
        joined(blobs).len() <= usize::MAX,
    ensures
        bands::set_native(joined(blobs), mask) == match pushed(
            blobs,
            mask,
            mask,
            seq![],
            seq![],
            seq![],
        ) {
            Err(e) => Err(e),
            Ok(parts) => match bands::set_fault(parts.0) {
                Some(e) => Err(e),
                None => Ok(parts),
            },
        },
{
    let none = Seq::<u8>::empty();
    lemma_pushed(none, blobs, mask, mask, seq![], seq![], seq![]);
    assert(none + joined(blobs) =~= joined(blobs));
}

} // verus!
