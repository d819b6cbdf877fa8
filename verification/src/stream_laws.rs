//! Taking a Lerc2 blob off a stream: it is taken whole, whatever pieces it arrives in, and no
//! byte behind it is asked for.

use crate::bytes;
use crate::concat_laws;
use crate::error::Fault;
use crate::lerc2_header;
use crate::stream;
use crate::stream::{Progress, StreamPhase, StreamStep, MAGIC_LEN, MAX_STREAM_BLOB_BYTES};
use vstd::prelude::*;

verus! {

/// A new reader: nothing taken in, and the signature asked for.
pub open spec fn started() -> Progress {
    Progress {
        held: seq![],
        phase: StreamPhase::Magic,
        goal: MAGIC_LEN as nat,
        complete: false,
    }
}

/// Where a reader is that has taken in pieces one after another.
pub open spec fn fed(pieces: Seq<Seq<u8>>, shared: Option<Seq<u8>>) -> std::result::Result<
    Progress,
    Fault,
>
    decreases pieces.len(),
{
    if pieces.len() == 0 {
        Ok(started())
    } else {
        match fed(pieces.drop_last(), shared) {
            Err(e) => Err(e),
            Ok(progress) => stream::taken(progress, pieces.last(), shared),
        }
    }
}

/// Whether each piece is one that the reader could take when it came: it was not complete, and
/// had asked for as many bytes at least.
pub open spec fn asked_for(pieces: Seq<Seq<u8>>, shared: Option<Seq<u8>>) -> bool
    decreases pieces.len(),
{
    pieces.len() > 0 ==> {
        &&& asked_for(pieces.drop_last(), shared)
        &&& fed(pieces.drop_last(), shared) matches Ok(progress)
        &&& !progress.complete
        &&& progress.held.len() + pieces.last().len() <= progress.goal
    }
}

/// The length of a Lerc2 header up to and with the blob size.
pub open spec fn prefix_of(blob: Seq<u8>) -> nat {
    stream::prefix_len(lerc2_header::number_at(blob, 6))
}

/// Whether a reader that is given the bytes of a blob is where it has to be.
pub open spec fn on_track(progress: Progress, blob: Seq<u8>) -> bool {
    let n = progress.held.len();
    let prefix = prefix_of(blob);
    &&& n <= blob.len()
    &&& progress.held == blob.subrange(0, n as int)
    &&& progress.complete == (n == blob.len())
    &&& if n < MAGIC_LEN {
        progress.phase == StreamPhase::Magic && progress.goal == MAGIC_LEN
    } else if n < prefix {
        progress.phase == StreamPhase::Lerc2Prefix && progress.goal == prefix
    } else {
        progress.phase == StreamPhase::Lerc2Body && progress.goal == blob.len()
    }
}

/// The decisions on a whole blob.
proof fn lemma_decisions(blob: Seq<u8>, shared: Option<Seq<u8>>)
    requires
        concat_laws::whole(blob),
        blob.len() <= MAX_STREAM_BLOB_BYTES,
    ensures
        ({
            let prefix = prefix_of(blob);
            &&& MAGIC_LEN < prefix < blob.len()
            &&& stream::stepped(
                StreamPhase::Magic,
                blob.subrange(0, MAGIC_LEN as int),
                shared,
            ) == Ok::<_, Fault>(StreamStep::Read(StreamPhase::Lerc2Prefix, prefix as usize))
            &&& stream::stepped(
                StreamPhase::Lerc2Prefix,
                blob.subrange(0, prefix as int),
                shared,
            ) == Ok::<_, Fault>(StreamStep::Read(StreamPhase::Lerc2Body, blob.len() as usize))
        }),
{
    let h = lerc2_header::header_parsed(blob)->Ok_0;
    let version = h.version;
    let prefix = stream::prefix_len(version);
    concat_laws::lemma_header_local(blob, blob);
    bytes::lemma_le_value_4(blob.subrange(6, 10));
    assert(lerc2_header::number_at(blob, 6) == version);
    let magic = blob.subrange(0, MAGIC_LEN as int);
    assert(magic.subrange(6, 10) =~= blob.subrange(6, 10));
    assert(magic.subrange(0, 6) =~= blob.subrange(0, 6));
    let c = lerc2_header::count_offset(version);
    let head = blob.subrange(0, prefix as int);
    assert(head.subrange(prefix - 4, prefix as int) =~= blob.subrange(c + 8, c + 12));
    let raw = lerc2_header::raw_header(blob, version);
    assert(raw.blob_size == h.blob_size);
    assert(lerc2_header::integer_at(head, prefix - 4) == raw.blob_size);
}

/// A piece of a blob keeps the reader on its way.
proof fn lemma_piece_taken(
    blob: Seq<u8>,
    progress: Progress,
    piece: Seq<u8>,
    shared: Option<Seq<u8>>,
)
    requires
        concat_laws::whole(blob),
        blob.len() <= MAX_STREAM_BLOB_BYTES,
        on_track(progress, blob),
        !progress.complete,
        progress.held.len() + piece.len() <= progress.goal,
        progress.held.len() + piece.len() <= blob.len(),
        progress.held + piece == blob.subrange(0, (progress.held.len() + piece.len()) as int),
    ensures
        stream::taken(progress, piece, shared) matches Ok(next) && on_track(next, blob) && next.held
            == progress.held + piece,
{
    lemma_decisions(blob, shared);
}

/// A Lerc2 blob of at most the size that a stream may declare is taken off a stream whole,
/// whatever follows it and whatever pieces the stream gives: as long as each piece is one that
/// was asked for, no decision fails, nothing is ever asked for beyond the end of the blob, and
/// the reader is complete exactly when it holds the whole blob.
pub proof fn law_blob_taken(
    blob: Seq<u8>,
    rest: Seq<u8>,
    pieces: Seq<Seq<u8>>,
    shared: Option<Seq<u8>>,
)
    requires
        concat_laws::whole(blob),
        blob.len() <= MAX_STREAM_BLOB_BYTES,
        asked_for(pieces, shared),
        concat_laws::joined(pieces).len() <= (blob + rest).len(),
        concat_laws::joined(pieces) == (blob + rest).subrange(
            0,
            concat_laws::joined(pieces).len() as int,
        ),
    ensures
        fed(pieces, shared) matches Ok(progress) && {
            &&& progress.held == concat_laws::joined(pieces)
            &&& progress.held.len() <= progress.goal <= blob.len()
            &&& progress.complete <==> progress.held == blob
            &&& progress.held == blob.subrange(0, progress.held.len() as int)
        },
{
    lemma_taken_off(blob, rest, pieces, shared);
    let progress = fed(pieces, shared)->Ok_0;
    lemma_decisions(blob, shared);
    assert(blob.subrange(0, blob.len() as int) =~= blob);
}

proof fn lemma_taken_off(
    blob: Seq<u8>,
    rest: Seq<u8>,
    pieces: Seq<Seq<u8>>,
    shared: Option<Seq<u8>>,
)
    requires
        concat_laws::whole(blob),
        blob.len() <= MAX_STREAM_BLOB_BYTES,
        asked_for(pieces, shared),
        concat_laws::joined(pieces).len() <= (blob + rest).len(),
        concat_laws::joined(pieces) == (blob + rest).subrange(
            0,
            concat_laws::joined(pieces).len() as int,
        ),
    ensures
        fed(pieces, shared) matches Ok(progress) && on_track(progress, blob) && progress.held
            == concat_laws::joined(pieces),
    decreases pieces.len(),
{
    lemma_decisions(blob, shared);
    if pieces.len() == 0 {
        assert(blob.subrange(0, 0) =~= Seq::<u8>::empty());
    } else {
        let before = pieces.drop_last();
        let piece = pieces.last();
        let gathered = concat_laws::joined(pieces);
        let held = concat_laws::joined(before);
        lemma_joined_last(pieces);
        assert(held =~= gathered.subrange(0, held.len() as int));
        assert(held =~= (blob + rest).subrange(0, held.len() as int));
        lemma_taken_off(blob, rest, before, shared);
        let progress = fed(before, shared)->Ok_0;
        assert(progress.goal <= blob.len());
        assert(gathered =~= blob.subrange(0, gathered.len() as int)) by {
            assert forall|i: int| 0 <= i < gathered.len() implies gathered[i] == blob[i] by {
                assert(gathered[i] == (blob + rest)[i]);
            }
        }
        lemma_piece_taken(blob, progress, piece, shared);
    }
}

/// The last of joined pieces comes last.
proof fn lemma_joined_last(pieces: Seq<Seq<u8>>)
    requires
        pieces.len() > 0,
    ensures
        concat_laws::joined(pieces) == concat_laws::joined(pieces.drop_last()) + pieces.last(),
{
    let one = seq![pieces.last()];
    assert(pieces.drop_last() + one =~= pieces);
    concat_laws::lemma_joined(pieces.drop_last(), one);
    assert(one.drop_first() =~= Seq::<Seq<u8>>::empty());
    assert(concat_laws::joined(one.drop_first()) =~= Seq::<u8>::empty());
    assert(concat_laws::joined(one) == one[0] + concat_laws::joined(one.drop_first()));
    assert(concat_laws::joined(one) =~= pieces.last());
}

} // verus!
