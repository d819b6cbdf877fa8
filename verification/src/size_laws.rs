//! How many bytes encoding takes at most.

use crate::analysis::Findings;
use crate::bitstream;
use crate::blob_laws;
use crate::blocks;
use crate::bytes;
use crate::encoder;
use crate::encoder::Ready;
use crate::error::Fault;
use crate::huffman::CodeEntry;
use crate::huffman_writer;
use crate::lerc2_body;
use crate::options::EncodeOptions;
use crate::plan;
use crate::plan::{BodyShape, Frame};
use crate::raster::{MaskView, RasterView};
use crate::sample::Sample;
use crate::tiling;
use crate::values;
use vstd::prelude::*;

verus! {

/// The bits that the symbols below `n` take.
spec fn bits_below(entries: Seq<CodeEntry>, symbols: Seq<u8>, n: nat) -> nat
    decreases n,
{
    if n == 0 {
        0
    } else {
        bits_below(entries, symbols, (n - 1) as nat) + huffman_writer::frequency(
            symbols,
            (n - 1) as nat,
        ) * entries[n - 1].len as nat
    }
}

/// One more symbol takes as many more bits as its code has.
proof fn lemma_bits_push(entries: Seq<CodeEntry>, symbols: Seq<u8>, n: nat)
    requires
        symbols.len() > 0,
    ensures
        bits_below(entries, symbols, n) == bits_below(entries, symbols.drop_last(), n) + if (
        symbols.last() as nat) < n {
            entries[symbols.last() as int].len as nat
        } else {
            0
        },
    decreases n,
{
    if n > 0 {
        let s = (n - 1) as nat;
        lemma_bits_push(entries, symbols, s);
        let (f, g, l) = (
            huffman_writer::frequency(symbols, s),
            huffman_writer::frequency(symbols.drop_last(), s),
            entries[s as int].len as nat,
        );
        if symbols.last() == s {
            assert((g + 1) * l == g * l + l) by (nonlinear_arith);
        }
    }
}

/// Counting bits by symbol or by place gives the same number.
proof fn lemma_bits_counted(entries: Seq<CodeEntry>, symbols: Seq<u8>)
    ensures
        bits_below(entries, symbols, 256) == bitstream::code_bits(
            huffman_writer::symbol_codes(entries, symbols),
        ),
    decreases symbols.len(),
{
    let codes = huffman_writer::symbol_codes(entries, symbols);
    if symbols.len() == 0 {
        lemma_no_bits(entries, symbols, 256);
    } else {
        lemma_bits_push(entries, symbols, 256);
        lemma_bits_counted(entries, symbols.drop_last());
        assert(codes.drop_last() =~= huffman_writer::symbol_codes(entries, symbols.drop_last()));
    }
}

proof fn lemma_no_bits(entries: Seq<CodeEntry>, symbols: Seq<u8>, n: nat)
    requires
        symbols.len() == 0,
    ensures
        bits_below(entries, symbols, n) == 0,
    decreases n,
{
    if n > 0 {
        lemma_no_bits(entries, symbols, (n - 1) as nat);
        let l = entries[n - 1].len as nat;
        assert(0 * l == 0) by (nonlinear_arith);
    }
}

proof fn lemma_payload_bits(entries: Seq<CodeEntry>, symbols: Seq<u8>, n: nat)
    requires
        huffman_writer::payload_bits(entries, symbols, n) is Ok,
    ensures
        huffman_writer::payload_bits(entries, symbols, n)->Ok_0 == bits_below(
            entries,
            symbols,
            n,
        ),
    decreases n,
{
    if n > 0 {
        lemma_payload_bits(entries, symbols, (n - 1) as nat);
    }
}

/// A Huffman-coded body has the size that it was chosen by, and two more bytes.
pub proof fn law_huffman_size(delta: bool, symbols: Seq<u8>, size: nat)
    requires
        huffman_writer::candidate_size(symbols) == Ok::<Option<nat>, Fault>(Some(size)),
    ensures
        huffman_writer::huffman_body(delta, symbols).len() == size + 2,
{
    let entries = huffman_writer::codes_for(symbols)->0;
    let codes = huffman_writer::symbol_codes(entries, symbols);
    lemma_payload_bits(entries, symbols, 256);
    lemma_bits_counted(entries, symbols);
    let bits = bitstream::code_bits(codes);
    let count = (bits + 31) / 32;
    let number = bitstream::code_number(codes) * vstd::arithmetic::power2::pow2(
        (32 * count - bits) as nat,
    );
    bitstream::lemma_high_words_len(number, count);
    bitstream::lemma_word_bytes_len(bitstream::stream_words(codes).push(0));
}

/// A body takes no more than the samples as they are, and its two flags.
proof fn lemma_body_size<T: Sample>(found: Findings<T>, frame: Frame, version: u32, shape: BodyShape)
    requires
        plan::plannable(found, frame),
        plan::body_planned(found, frame) == Ok::<(u32, BodyShape), Fault>((version, shape)),
    ensures
        plan::constant(found) ==> plan::body_bytes(found, frame, version, shape).len() == 0,
        !plan::constant(found) ==> plan::body_bytes(found, frame, version, shape).len()
            <= found.valid * frame.depth as nat * T::kind().width() + if lerc2_body::has_mode(
            T::kind(),
            found.max_z_error,
            version,
        ) {
            2int
        } else {
            1int
        },
{
    let list = blocks::run_pixels(found.mask, 0, frame.pixels());
    let sweep = found.valid * frame.depth as nat * T::kind().width();
    match shape {
        BodyShape::Empty => {},
        BodyShape::Sweep => {
            blocks::lemma_run_pixels(found.mask, 0, frame.pixels());
            assert forall|i: int| 0 <= i < list.len() implies 0 <= #[trigger] list[i]
                < frame.pixels() by {}
            lemma_rows_len(found.samples, list, frame.depth as nat, list.len(), frame.pixels());
            values::lemma_encoded_len(
                plan::listed_rows(found.samples, list, frame.depth as int, list.len()),
            );
        },
        BodyShape::Tiled(tiles) => {
            tiling::lemma_tiles_size(tiles, version);
        },
        BodyShape::Huffman(delta, symbols) => {
            let choice = plan::coded(found, frame)->Ok_0->0;
            law_huffman_size(delta, symbols, choice.1);
        },
    }
}

pub proof fn lemma_rows_len<T>(samples: Seq<T>, list: Seq<int>, depth: nat, n: nat, pixels: nat)
    requires
        n <= list.len(),
        samples.len() == pixels * depth,
        forall|i: int| 0 <= i < list.len() ==> 0 <= #[trigger] list[i] < pixels,
    ensures
        plan::listed_rows(samples, list, depth as int, n).len() == n * depth,
    decreases n,
{
    if n > 0 {
        let m = (n - 1) as nat;
        lemma_rows_len(samples, list, depth, m, pixels);
        let q = list[m as int];
        assert(0 <= q * depth && q * depth + depth <= pixels * depth && m * depth + depth == n
            * depth) by (nonlinear_arith)
            requires
                0 <= q,
                q + 1 <= pixels,
                n == m + 1,
                depth >= 0,
        ;
    } else {
        assert(0 * depth == 0) by (nonlinear_arith);
    }
}

/// A blob is no larger than its bound.
pub proof fn lemma_blob_bounded<T: Sample>(ready: Ready<T>, frame: Frame, payload: Seq<u8>)
    requires
        plan::plannable(ready.found, frame),
        plan::body_planned(ready.found, frame) == Ok::<(u32, BodyShape), Fault>(
            (ready.version, ready.shape),
        ),
        encoder::bound_of(ready, frame, payload) is Ok,
    ensures
        encoder::blob_size(ready, frame, payload) <= encoder::bound_of(ready, frame, payload)->Ok_0,
{
    let found = ready.found;
    lemma_body_size(found, frame, ready.version, ready.shape);
    bytes::lemma_le_bytes_len(payload.len(), 4);
    match found.ranges {
        Some((low, high)) => {
            blob_laws::lemma_scalars_back(low, T::kind());
            blob_laws::lemma_scalars_back(high, T::kind());
        },
        None => {},
    }
}

/// The upper bound is conservative: an encoded raster is never larger.
pub proof fn law_bound_holds<'a, 'b, T: Sample>(
    view: RasterView<'a, T>,
    entries: Option<MaskView<'b>>,
    options: EncodeOptions,
)
    requires
        view.wf(),
        entries matches Some(m) ==> m.wf(),
        encoder::raster_encoded(view, entries, options) is Ok,
    ensures
        encoder::raster_bound(view, entries, options) is Ok,
        encoder::raster_encoded(view, entries, options)->Ok_0.len() <= encoder::raster_bound(
            view,
            entries,
            options,
        )->Ok_0,
{
    let frame = encoder::raster_frame(view, options);
    let ready = encoder::raster_readied(view, entries, options)->Ok_0;
    let payload = encoder::payload_of(ready, frame, true);
    encoder::lemma_plannable(view.samples(), frame, encoder::mask_entries(entries), options);
    blob_laws::lemma_versions(ready, frame);
    encoder::lemma_blob_len(ready, frame, payload, 0);
    lemma_blob_bounded(ready, frame, payload);
}

/// A buffer as large as the upper bound is large enough to encode into, and both ways of
/// encoding write the same bytes.
pub proof fn law_bound_suffices<'a, 'b, T: Sample>(
    view: RasterView<'a, T>,
    entries: Option<MaskView<'b>>,
    options: EncodeOptions,
    available: nat,
)
    requires
        view.wf(),
        entries matches Some(m) ==> m.wf(),
        encoder::raster_encoded(view, entries, options) is Ok,
        encoder::raster_bound(view, entries, options)->Ok_0 <= available <= usize::MAX,
    ensures
        encoder::raster_encoded_into(view, entries, options, available)
            == encoder::raster_encoded(view, entries, options),
{
    let frame = encoder::raster_frame(view, options);
    let ready = encoder::raster_readied(view, entries, options)->Ok_0;
    let payload = encoder::payload_of(ready, frame, true);
    law_bound_holds(view, entries, options);
    blob_laws::lemma_versions(ready, frame);
    encoder::lemma_blob_len(ready, frame, payload, 0);
}

/// Encoding into a buffer writes what encoding gives, to the front of the buffer, and leaves
/// the rest as it was; a buffer that is too small is refused with the size that it takes.
pub proof fn law_written_in_front<'a, 'b, T: Sample>(
    view: RasterView<'a, T>,
    entries: Option<MaskView<'b>>,
    options: EncodeOptions,
    before: Seq<u8>,
)
    requires
        view.wf(),
        entries matches Some(m) ==> m.wf(),
        encoder::raster_encoded(view, entries, options) is Ok,
    ensures
        ({
            let blob = encoder::raster_encoded(view, entries, options)->Ok_0;
            let after = encoder::overwritten(before, blob);
            &&& blob.len() > before.len() ==> encoder::raster_encoded_into(
                view,
                entries,
                options,
                before.len(),
            ) == Err::<Seq<u8>, Fault>(
                Fault::OutputTooSmall { needed: blob.len(), available: before.len() },
            )
            &&& blob.len() <= before.len() ==> {
                &&& encoder::raster_encoded_into(view, entries, options, before.len()) == Ok::<
                    Seq<u8>,
                    Fault,
                >(blob)
                &&& after.len() == before.len()
                &&& forall|i: int|
                    0 <= i < before.len() ==> #[trigger] after[i] == if i < blob.len() {
                        blob[i]
                    } else {
                        before[i]
                    }
            }
        }),
{
    let frame = encoder::raster_frame(view, options);
    let ready = encoder::raster_readied(view, entries, options)->Ok_0;
    let payload = encoder::payload_of(ready, frame, true);
    blob_laws::lemma_versions(ready, frame);
    encoder::lemma_blob_len(ready, frame, payload, 0);
}

} // verus!
