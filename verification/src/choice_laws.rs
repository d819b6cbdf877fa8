//! What the encoder chooses: of the possible encodings the shortest.

use crate::analysis::Findings;
use crate::blocks;
use crate::error::Fault;
use crate::float::Double;
use crate::format_laws;
use crate::huffman_writer;
use crate::lerc1;
use crate::lerc2_body;
use crate::plan;
use crate::plan::{BodyShape, Frame};
use crate::sample::Sample;
use crate::size_laws;
use crate::tile_laws;
use crate::tile_plan;
use crate::tiling;
use crate::types::DataType;
use crate::values;
use vstd::prelude::*;

verus! {

/// The tiles of a raster.
pub open spec fn tiles_of<T: Sample>(found: Findings<T>, frame: Frame) -> Seq<tiling::PlacedShape> {
    tiling::planned(frame.tiling(found.max_z_error), found.mask, found.samples, 0, 0, 0)
}

/// A body is no longer than the samples as they are, than tiles, and than codes where those may
/// be used; it is empty where every depth holds a single value.
pub proof fn law_body_shortest<T: Sample>(
    found: Findings<T>,
    frame: Frame,
    version: u32,
    shape: BodyShape,
)
    requires
        plan::plannable(found, frame),
        plan::body_planned(found, frame) == Ok::<(u32, BodyShape), Fault>((version, shape)),
    ensures
        plan::constant(found) <==> plan::body_bytes(found, frame, version, shape).len() == 0,
        plan::body_bytes(found, frame, version, shape).len() <= plan::body_bytes(
            found,
            frame,
            version,
            BodyShape::Sweep,
        ).len(),
        ({
            let tiles = tiles_of(found, frame);
            let other = plan::needed_version(found.sentinel, tiling::tiles_version(tiles));
            plan::body_bytes(found, frame, version, shape).len() <= plan::body_bytes(
                found,
                frame,
                other,
                BodyShape::Tiled(tiles),
            ).len()
        }),
        !plan::constant(found) && found.codable && lerc2_body::huffman_possible(
            T::kind(),
            found.max_z_error,
        ) ==> {
            let plain = plan::plain_of(found, frame);
            let delta = plan::delta_of(found, frame);
            &&& huffman_writer::candidate_size(plain) matches Ok(Some(_)) ==> plan::body_bytes(
                found,
                frame,
                version,
                shape,
            ).len() <= huffman_writer::huffman_body(false, plain).len()
            &&& huffman_writer::candidate_size(delta) matches Ok(Some(_)) ==> plan::body_bytes(
                found,
                frame,
                version,
                shape,
            ).len() <= huffman_writer::huffman_body(true, delta).len()
        },
{
    let list = blocks::run_pixels(found.mask, 0, frame.pixels());
    let tiles = tiles_of(found, frame);
    let other = plan::needed_version(found.sentinel, tiling::tiles_version(tiles));
    blocks::lemma_run_pixels(found.mask, 0, frame.pixels());
    assert forall|i: int| 0 <= i < list.len() implies 0 <= #[trigger] list[i] < frame.pixels() by {}
    size_laws::lemma_rows_len(found.samples, list, frame.depth as nat, list.len(), frame.pixels());
    values::lemma_encoded_len(
        plan::listed_rows(found.samples, list, frame.depth as int, list.len()),
    );
    tiling::lemma_tiles_size(tiles, other);
    tiling::lemma_tiles_size(tiles, version);
    let plain = plan::plain_of(found, frame);
    let delta = plan::delta_of(found, frame);
    if let Ok(Some(size)) = huffman_writer::candidate_size(plain) {
        size_laws::law_huffman_size(false, plain, size);
    }
    if let Ok(Some(size)) = huffman_writer::candidate_size(delta) {
        size_laws::law_huffman_size(true, delta, size);
    }
}

proof fn lemma_reduced_width(value: Double, data_type: DataType)
    ensures
        tile_plan::reduction(value, data_type).1.width() <= data_type.width(),
{
}

/// A tile that may be stored raw is no longer than that.
proof fn lemma_chosen_short(found: Seq<Double>, raw: Seq<u8>, base: DataType, max_z_error: Double)
    requires
        base.width() <= raw.len(),
    ensures
        tile_plan::chosen(found, Some(raw), base, max_z_error, false) matches Some(shape)
            && shape.body.len() <= raw.len(),
{
    reveal(tile_plan::chosen);
    let low = lerc1::least(lerc1::top(), found);
    let used = tile_plan::reduction(low, base).1;
    lemma_reduced_width(low, base);
    tile_laws::lemma_scalar_roundtrip(low, used);
}

/// A tile is no longer than its samples as they are, nor than it is without differences from the
/// depth before.
pub proof fn law_tile_shortest<T: Sample>(
    current: Seq<T>,
    previous: Option<Seq<T>>,
    max_z_error: Double,
    depth: nat,
)
    ensures
        tile_plan::tile_shape(current, previous, max_z_error, depth).body.len()
            <= tile_plan::tile_shape(current, None, max_z_error, depth).body.len(),
        current.len() > 0 ==> tile_plan::tile_shape(current, None, max_z_error, depth).body.len()
            <= current.len() * T::kind().width(),
{
    values::lemma_encoded_len(current);
    if current.len() > 0 {
        let n = current.len();
        let w = T::kind().width();
        assert(w <= n * w) by (nonlinear_arith)
            requires
                n >= 1,
        ;
        lemma_chosen_short(
            values::promoted_all(current),
            values::encoded_all(current),
            T::kind(),
            max_z_error,
        );
    }
}

/// The offset of a tile is stored in the narrowest of the types that it may have.
pub proof fn law_offset_narrowest(value: Double, data_type: DataType, tc: nat)
    requires
        tc < format_laws::offset_types(data_type).len(),
        tile_plan::fits(value, format_laws::offset_types(data_type)[tc as int]),
    ensures
        tile_plan::reduction(value, data_type).1.width() <= format_laws::offset_types(
            data_type,
        )[tc as int].width(),
{
}

} // verus!
