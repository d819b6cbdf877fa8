//! Where the samples of rasters, band sets and masks stand in arrays.

use crate::bands;
use crate::error::Fault;
use crate::float::Double;
use crate::materialize;
use crate::nd;
use crate::nd::NdArrayElement;
use crate::raster;
use crate::reader;
use crate::sample::Sample;
use crate::types;
use crate::types::{BandLayout, BlobFacts, PixelSeq};
use vstd::arithmetic::div_mod::*;
use vstd::prelude::*;

verus! {

/// The position of an element among the samples of an array, the last axis varying fastest.
pub open spec fn position(shape: Seq<usize>, index: Seq<nat>) -> nat
    decreases shape.len(),
{
    if shape.len() == 0 {
        0
    } else {
        position(shape.drop_last(), index.drop_last()) * shape.last() as nat + index.last()
    }
}

/// Whether an array has an element at an index: one number for each axis, below its length.
pub open spec fn has_element(shape: Seq<usize>, index: Seq<nat>) -> bool {
    &&& index.len() == shape.len()
    &&& forall|k: int| 0 <= k < shape.len() ==> #[trigger] index[k] < shape[k]
}

/// The element at an index of an array, given its axis lengths and samples.
pub open spec fn element<T>(array: (Seq<usize>, Seq<T>), index: Seq<nat>) -> T {
    array.1[position(array.0, index) as int]
}

proof fn lemma_position_2(shape: Seq<usize>, index: Seq<nat>)
    requires
        shape.len() == 2,
        index.len() == 2,
    ensures
        position(shape, index) == index[0] * shape[1] + index[1],
{
    reveal_with_fuel(position, 3);
    assert(0 * shape[0] == 0) by (nonlinear_arith);
}

proof fn lemma_position_3(shape: Seq<usize>, index: Seq<nat>)
    requires
        shape.len() == 3,
        index.len() == 3,
    ensures
        position(shape, index) == (index[0] * shape[1] + index[1]) * shape[2] + index[2],
{
    lemma_position_2(shape.drop_last(), index.drop_last());
}

proof fn lemma_position_4(shape: Seq<usize>, index: Seq<nat>)
    requires
        shape.len() == 4,
        index.len() == 4,
    ensures
        position(shape, index) == ((index[0] * shape[1] + index[1]) * shape[2] + index[2])
            * shape[3] + index[3],
{
    lemma_position_3(shape.drop_last(), index.drop_last());
}

/// Where a sample of a raster stands: row, column, and the depth where there are several.
pub open spec fn raster_index(depth: nat, y: nat, x: nat, d: nat) -> Seq<nat> {
    if depth <= 1 {
        seq![y, x]
    } else {
        seq![y, x, d]
    }
}

/// In the array of a raster the element at a row, a column and a depth is the sample of that
/// pixel at that depth; the pixels of a raster follow each other row by row.
pub proof fn law_raster_elements<T>(facts: BlobFacts, values: Seq<T>, label: Seq<char>)
    ensures
        nd::built(facts.shape(), values, label) matches Ok(array) ==> forall|y: nat, x: nat, d: nat|

            y < facts.height && x < facts.width && d < materialize::lanes(facts.depth as nat)
                ==> has_element(
                array.0,
                #[trigger] raster_index(facts.depth as nat, y, x, d),
            ) && element(array, raster_index(facts.depth as nat, y, x, d)) == values[(y
                * facts.width + x) * materialize::lanes(facts.depth as nat) + d],
{
    if let Ok(array) = nd::built(facts.shape(), values, label) {
        let depth = materialize::lanes(facts.depth as nat);
        assert forall|y: nat, x: nat, d: nat|
            y < facts.height && x < facts.width && d < depth implies has_element(
            array.0,
            #[trigger] raster_index(facts.depth as nat, y, x, d),
        ) && element(array, raster_index(facts.depth as nat, y, x, d)) == values[(y * facts.width
            + x) * depth + d] by {
            let index = raster_index(facts.depth as nat, y, x, d);
            if facts.depth <= 1 {
                lemma_position_2(array.0, index);
                let p = y * facts.width + x;
                assert(p * 1 + 0 == p);
            } else {
                lemma_position_3(array.0, index);
            }
        }
    }
}

/// In the array of a mask the element at a row and a column is the entry of that pixel.
pub proof fn law_mask_elements(facts: BlobFacts, mask: Option<Seq<u8>>, label: Seq<char>)
    ensures
        nd::mask_built(nd::mask_shape(facts), mask, label) matches Ok(found) ==> (found is Some
            <==> mask is Some) && (found matches Some(array) ==> forall|y: nat, x: nat|
            y < facts.height && x < facts.width ==> has_element(array.0, #[trigger] seq![y, x])
                && element(array, seq![y, x]) == mask->Some_0[y * facts.width + x]),
{
    if let Ok(Some(array)) = nd::mask_built(nd::mask_shape(facts), mask, label) {
        assert forall|y: nat, x: nat|
            y < facts.height && x < facts.width implies has_element(array.0, #[trigger] seq![y, x])
            && element(array, seq![y, x]) == mask->Some_0[y * facts.width + x] by {
            lemma_position_2(array.0, seq![y, x]);
        }
    }
}

/// Where a sample of a band set stands: row, column and band, or band, row and column, and the
/// depth where there are several; one band stands as a raster does.
pub open spec fn set_index(
    layout: BandLayout,
    bands: nat,
    depth: nat,
    b: nat,
    y: nat,
    x: nat,
    d: nat,
) -> Seq<nat> {
    if bands == 1 {
        raster_index(depth, y, x, d)
    } else {
        match layout {
            BandLayout::Interleaved => if depth <= 1 {
                seq![y, x, b]
            } else {
                seq![y, x, b, d]
            },
            BandLayout::Bsq => if depth <= 1 {
                seq![b, y, x]
            } else {
                seq![b, y, x, d]
            },
        }
    }
}

/// The samples of a band set that lie in one buffer.
proof fn lemma_arranged_at<T>(
    outs: Seq<Seq<T>>,
    layout: BandLayout,
    pixels: nat,
    depth: nat,
    b: nat,
    p: nat,
    d: nat,
)
    requires
        depth > 0,
        b < outs.len(),
        p < pixels,
        d < depth,
    ensures
        ({
            let x = raster::band_index(layout, pixels, depth, outs.len(), b, p, d);
            &&& x < raster::band_total(pixels, depth, outs.len())
            &&& bands::arranged(outs, layout, pixels, depth)[x as int] == outs[b as int][(p * depth
                + d) as int]
        }),
{
    let v = p * depth + d;
    raster::lemma_sample_index(p, depth, d, pixels);
    lemma_fundamental_div_mod_converse(v as int, depth as int, p as int, d as int);
    materialize::law_slot_owned(layout, pixels, depth, outs.len(), b, v);
}

/// The position of a sample of a band set.
proof fn lemma_set_position(
    infos: Seq<BlobFacts>,
    layout: BandLayout,
    b: nat,
    y: nat,
    x: nat,
    d: nat,
)
    requires
        0 < infos.len() <= usize::MAX,
        b < infos.len(),
        y < infos[0].height,
        x < infos[0].width,
        d < materialize::lanes(infos[0].depth as nat),
    ensures
        ({
            let shape = types::band_set_shape(infos, layout);
            let index = set_index(layout, infos.len(), infos[0].depth as nat, b, y, x, d);
            &&& has_element(shape, index)
            &&& position(shape, index) == raster::band_index(
                layout,
                infos[0].pixels(),
                materialize::lanes(infos[0].depth as nat),
                infos.len(),
                b,
                y * infos[0].width as nat + x,
                d,
            )
        }),
{
    let shape = types::band_set_shape(infos, layout);
    let depth = materialize::lanes(infos[0].depth as nat);
    let n = infos.len();
    let index = set_index(layout, n, infos[0].depth as nat, b, y, x, d);
    let (h, w) = (infos[0].height as nat, infos[0].width as nat);
    let p = y * w + x;
    if shape.len() == 2 {
        lemma_position_2(shape, index);
        assert(depth == 1 && n == 1 && b == 0 && d == 0);
        assert(p * (depth * n) + b * depth + d == p && b * (infos[0].pixels() * depth) + p * depth
            + d == p) by (nonlinear_arith)
            requires
                depth == 1,
                n == 1,
                b == 0,
                d == 0,
        ;
    } else if shape.len() == 3 {
        lemma_position_3(shape, index);
        if n == 1 {
            assert(b == 0);
            assert(p * (depth * n) + b * depth + d == p * depth + d && b * (infos[0].pixels()
                * depth) + p * depth + d == p * depth + d) by (nonlinear_arith)
                requires
                    n == 1,
                    b == 0,
            ;
        } else if layout == BandLayout::Interleaved {
            assert(p * (depth * n) + b * depth + d == p * n + b) by (nonlinear_arith)
                requires
                    depth == 1,
                    d == 0,
            ;
        } else {
            assert(infos[0].pixels() == w * h);
            assert(b * ((w * h) * depth) + (y * w + x) * depth + d == (b * h + y) * w + x)
                by (nonlinear_arith)
                requires
                    depth == 1,
                    d == 0,
            ;
        }
    } else {
        lemma_position_4(shape, index);
        if layout == BandLayout::Interleaved {
            assert(p * (depth * n) + b * depth + d == (p * n + b) * depth + d) by (nonlinear_arith);
        } else {
            assert(infos[0].pixels() == w * h);
            assert(b * ((w * h) * depth) + (y * w + x) * depth + d == ((b * h + y) * w + x) * depth
                + d) by (nonlinear_arith);
        }
    }
}

/// Whether the element of an array at every band, row, column and depth is the sample that the
/// band has there.
pub open spec fn holds_bands<T>(
    array: (Seq<usize>, Seq<T>),
    layout: BandLayout,
    facts: BlobFacts,
    outs: Seq<Seq<T>>,
) -> bool {
    forall|b: nat, y: nat, x: nat, d: nat|
        b < outs.len() && y < facts.height && x < facts.width && d < materialize::lanes(
            facts.depth as nat,
        ) ==> has_element(
            array.0,
            #[trigger] set_index(layout, outs.len(), facts.depth as nat, b, y, x, d),
        ) && element(array, set_index(layout, outs.len(), facts.depth as nat, b, y, x, d))
            == outs[b as int][(y * facts.width + x) * materialize::lanes(facts.depth as nat) + d]
}

proof fn lemma_pixel(h: nat, w: nat, y: nat, x: nat)
    requires
        y < h,
        x < w,
    ensures
        y * w + x < w * h,
{
    assert(y * w + x < w * h) by (nonlinear_arith)
        requires
            y + 1 <= h,
            x < w,
    ;
}

proof fn lemma_holds_bands<T>(
    infos: Seq<BlobFacts>,
    outs: Seq<Seq<T>>,
    layout: BandLayout,
    label: Seq<char>,
)
    requires
        0 < infos.len() <= usize::MAX,
        outs.len() == infos.len(),
    ensures
        nd::built(
            types::band_set_shape(infos, layout),
            bands::arranged(
                outs,
                layout,
                infos[0].pixels(),
                materialize::lanes(infos[0].depth as nat),
            ),
            label,
        ) matches Ok(array) ==> holds_bands(array, layout, infos[0], outs),
{
    let facts = infos[0];
    let depth = materialize::lanes(facts.depth as nat);
    let shape = types::band_set_shape(infos, layout);
    let values = bands::arranged(outs, layout, facts.pixels(), depth);
    if let Ok(array) = nd::built(shape, values, label) {
        assert forall|b: nat, y: nat, x: nat, d: nat|
            b < outs.len() && y < facts.height && x < facts.width && d < depth implies has_element(
            array.0,
            #[trigger] set_index(layout, outs.len(), facts.depth as nat, b, y, x, d),
        ) && element(array, set_index(layout, outs.len(), facts.depth as nat, b, y, x, d))
            == outs[b as int][(y * facts.width + x) * depth + d] by {
            lemma_set_position(infos, layout, b, y, x, d);
            lemma_pixel(facts.height as nat, facts.width as nat, y, x);
            lemma_arranged_at(
                outs,
                layout,
                facts.pixels(),
                depth,
                b,
                y * facts.width as nat + x,
                d,
            );
        }
    }
}

/// As many bands are decoded as have metadata.
proof fn lemma_typed_count<T: Sample>(
    blob: Seq<u8>,
    offset: nat,
    lerc1_mask: Option<Seq<u8>>,
    lerc2_mask: Option<Seq<u8>>,
    found: Seq<BlobFacts>,
    outs: Seq<Seq<T>>,
)
    requires
        found.len() == outs.len(),
        found.len() <= offset,
    ensures
        bands::typed_bands(blob, offset, lerc1_mask, lerc2_mask, found, outs) matches Ok(
            (facts, all),
        ) ==> facts.len() == all.len() && (facts.len() <= blob.len() || facts.len() <= offset),
    decreases blob.len() - offset,
{
    if offset < blob.len() {
        let slice = bands::rest_of(blob, offset);
        if let Ok((facts, samples, mask)) = reader::first_decoded::<T>(
            slice,
            lerc1_mask,
            lerc2_mask,
            false,
        ) {
            if let Ok(next) = bands::advanced(offset, facts.blob_size as nat, blob.len()) {
                lemma_typed_count(
                    blob,
                    next,
                    bands::left_to_lerc1(slice, mask),
                    bands::left_to_lerc2(slice, mask),
                    found.push(facts),
                    outs.push(samples),
                );
            }
        }
    }
}

/// The samples of a decoded band set are those of its bands.
proof fn lemma_vec_parts<T: Sample>(blob: Seq<u8>, layout: BandLayout, mask: Option<Seq<u8>>)
    requires
        blob.len() <= usize::MAX,
    ensures
        bands::vec_decoded::<T>(blob, layout, mask) matches Ok((facts, values))
            ==> bands::typed_bands::<T>(blob, 0, mask, mask, seq![], seq![]) matches Ok((found, outs))
            && found == facts && facts.len() == outs.len() && facts.len() <= usize::MAX && values
            == bands::arranged(
            outs,
            layout,
            facts[0].pixels(),
            materialize::lanes(facts[0].depth as nat),
        ),
{
    lemma_typed_count::<T>(blob, 0, mask, mask, seq![], seq![]);
    if let Ok((facts, values)) = bands::vec_decoded::<T>(blob, layout, mask) {
        assert(bands::set_decoded::<T>(blob, layout, mask) == Ok::<(Seq<BlobFacts>, Seq<T>), Fault>(
            (facts, values),
        ));
    }
}

/// In the array of a decoded band set the element at a band, a row, a column and a depth is the
/// sample that decoding the band gives for that pixel and depth.
pub proof fn law_set_elements<T: NdArrayElement>(
    blob: Seq<u8>,
    layout: BandLayout,
    mask: Option<Seq<u8>>,
)
    requires
        blob.len() <= usize::MAX,
    ensures
        nd::bands_built::<T>(bands::vec_decoded::<T>(blob, layout, mask), layout) matches Ok(array)
            ==> bands::typed_bands::<T>(blob, 0, mask, mask, seq![], seq![]) matches Ok(
            (facts, outs),
        ) && facts.len() == outs.len() && holds_bands(array, layout, facts[0], outs),
{
    lemma_vec_parts::<T>(blob, layout, mask);
    if let Ok((facts, values)) = bands::vec_decoded::<T>(blob, layout, mask) {
        let outs = bands::typed_bands::<T>(blob, 0, mask, mask, seq![], seq![])->Ok_0.1;
        if facts.len() > 0 {
            lemma_holds_bands(
                facts,
                outs,
                layout,
                "failed to build ndarray from decoded band set: "@,
            );
        }
    }
}

/// In the array of a decoded band set's own samples the element at a band, a row, a column and
/// a depth is the sample of the band for that pixel and depth.
pub proof fn law_materialized_elements<T: NdArrayElement>(
    infos: Seq<BlobFacts>,
    pixels: Seq<PixelSeq>,
    layout: BandLayout,
)
    requires
        0 < infos.len() <= usize::MAX,
        pixels.len() == infos.len(),
    ensures
        nd::set_built::<T>(infos, pixels, layout) matches Ok(array) ==> holds_bands(
            array,
            layout,
            infos[0],
            bands::accepted_all::<T>(pixels),
        ),
{
    let outs = bands::accepted_all::<T>(pixels);
    let facts = infos[0];
    let depth = materialize::lanes(facts.depth as nat);
    let label = "failed to build ndarray from decoded band set: "@;
    if let Ok(array) = nd::set_built::<T>(infos, pixels, layout) {
        if infos.len() == 1 {
            let values = outs[0];
            assert(array == (types::band_set_shape(infos, layout), values));
            assert(types::band_set_shape(infos, layout) =~= facts.shape());
            law_raster_elements(facts, values, label);
            assert(nd::built(facts.shape(), values, label) == Ok::<(Seq<usize>, Seq<T>), Fault>(
                array,
            ));
            assert forall|b: nat, y: nat, x: nat, d: nat|
                b < outs.len() && y < facts.height && x < facts.width && d
                    < depth implies has_element(
                array.0,
                #[trigger] set_index(layout, outs.len(), facts.depth as nat, b, y, x, d),
            ) && element(array, set_index(layout, outs.len(), facts.depth as nat, b, y, x, d))
                == outs[b as int][(y * facts.width + x) * depth + d] by {
                assert(set_index(layout, 1, facts.depth as nat, b, y, x, d) == raster_index(
                    facts.depth as nat,
                    y,
                    x,
                    d,
                ));
            }
        } else {
            lemma_holds_bands(infos, outs, layout, label);
        }
    }
}

/// In the array of all masks of a band set the element at a row, a column and a band is the
/// entry of that pixel in the mask of that band, and one where the band has no mask.
pub proof fn law_band_mask_elements(infos: Seq<BlobFacts>, masks: Seq<Option<Seq<u8>>>)
    requires
        1 < infos.len() <= usize::MAX,
        masks.len() == infos.len(),
    ensures
        nd::set_mask_built(infos, masks) matches Ok(Some(array)) ==> forall|b: nat, y: nat, x: nat|

            b < masks.len() && y < infos[0].height && x < infos[0].width ==> has_element(
                array.0,
                #[trigger] seq![y, x, b],
            ) && element(array, seq![y, x, b]) == match masks[b as int] {
                Some(entries) => entries[y * infos[0].width + x],
                None => 1u8,
            },
{
    let facts = infos[0];
    let n = infos.len();
    if let Ok(Some(array)) = nd::set_mask_built(infos, masks) {
        let merged = bands::masks_merged(masks, facts.pixels());
        assert(array == (types::band_set_mask_shape(infos), merged));
        assert forall|b: nat, y: nat, x: nat|
            b < masks.len() && y < facts.height && x < facts.width implies has_element(
            array.0,
            #[trigger] seq![y, x, b],
        ) && element(array, seq![y, x, b]) == match masks[b as int] {
            Some(entries) => entries[y * facts.width + x],
            None => 1u8,
        } by {
            lemma_position_3(array.0, seq![y, x, b]);
            lemma_pixel(facts.height as nat, facts.width as nat, y, x);
            let p = y * facts.width as nat + x;
            let at = p * n + b;
            lemma_fundamental_div_mod_converse(at as int, n as int, p as int, b as int);
            assert(at < facts.pixels() * n) by (nonlinear_arith)
                requires
                    at == p * n + b,
                    p + 1 <= facts.pixels(),
                    b < n,
            ;
        }
    }
}

/// The only band of a set has its mask as the array, by row and column.
pub proof fn law_only_mask_elements(infos: Seq<BlobFacts>, masks: Seq<Option<Seq<u8>>>)
    requires
        infos.len() == 1,
        masks.len() == 1,
    ensures
        nd::set_mask_built(infos, masks) matches Ok(found) ==> (found is Some <==> masks[0] is Some)
            && (found matches Some(array) ==> forall|y: nat, x: nat|
            y < infos[0].height && x < infos[0].width ==> has_element(
                array.0,
                #[trigger] seq![y, x],
            ) && element(array, seq![y, x]) == masks[0]->Some_0[y * infos[0].width + x]),
{
    if let Ok(Some(array)) = nd::set_mask_built(infos, masks) {
        assert(masks[0] is Some);
        assert forall|y: nat, x: nat|
            y < infos[0].height && x < infos[0].width implies has_element(
            array.0,
            #[trigger] seq![y, x],
        ) && element(array, seq![y, x]) == masks[0]->Some_0[y * infos[0].width + x] by {
            lemma_position_2(array.0, seq![y, x]);
        }
    }
}

/// Whether the element of an array at every row, column and depth is the sample that a raster
/// has there.
pub open spec fn holds_raster<T>(
    array: (Seq<usize>, Seq<T>),
    facts: BlobFacts,
    values: Seq<T>,
) -> bool {
    forall|y: nat, x: nat, d: nat|
        y < facts.height && x < facts.width && d < materialize::lanes(facts.depth as nat)
            ==> has_element(
            array.0,
            #[trigger] raster_index(facts.depth as nat, y, x, d),
        ) && element(array, raster_index(facts.depth as nat, y, x, d)) == values[(y * facts.width
            + x) * materialize::lanes(facts.depth as nat) + d]
}

/// In the array of a decoded blob the element at a row, a column and a depth is the sample of
/// that pixel at that depth.
pub proof fn law_blob_elements<T: NdArrayElement>(
    outcome: std::result::Result<(BlobFacts, PixelSeq, Option<Seq<u8>>), Fault>,
)
    ensures
        nd::blob_built::<T>(outcome) matches Ok(array) ==> outcome matches Ok((facts, pixels, _))
            && T::accepted(pixels) matches Some(values) && holds_raster(array, facts, values),
{
    if let Ok(array) = nd::blob_built::<T>(outcome) {
        let (facts, pixels, _) = outcome->Ok_0;
        let values = T::accepted(pixels)->0;
        let label = "failed to build ndarray from decoded pixels: "@;
        law_raster_elements(facts, values, label);
        assert(nd::built(facts.shape(), values, label) == Ok::<(Seq<usize>, Seq<T>), Fault>(array));
    }
}

/// The same holds of the array of a blob whose samples are promoted.
pub proof fn law_promoted_elements(
    outcome: std::result::Result<(BlobFacts, Seq<Double>, Option<Seq<u8>>), Fault>,
)
    ensures
        nd::promoted_built(outcome) matches Ok(array) ==> outcome matches Ok((facts, values, _))
            && holds_raster(array, facts, values),
{
    if let Ok(array) = nd::promoted_built(outcome) {
        let (facts, values, _) = outcome->Ok_0;
        let label = "failed to build ndarray from decoded pixels: "@;
        law_raster_elements(facts, values, label);
        assert(nd::built(facts.shape(), values, label) == Ok::<(Seq<usize>, Seq<Double>), Fault>(
            array,
        ));
    }
}

/// In the array of a decoded mask the element at a row and a column is the entry of that pixel;
/// a blob without a mask gives none.
pub proof fn law_blob_mask_elements(
    outcome: std::result::Result<(BlobFacts, Option<Seq<u8>>), Fault>,
    len: nat,
    strict_api: Seq<char>,
    permissive_api: Seq<char>,
)
    ensures
        nd::blob_mask_built(outcome, len, strict_api, permissive_api) matches Ok(found)
            ==> outcome matches Ok((facts, mask)) && facts.blob_size == len && (found is Some
            <==> mask is Some) && (found matches Some(array) ==> forall|y: nat, x: nat|
            y < facts.height && x < facts.width ==> has_element(array.0, #[trigger] seq![y, x])
                && element(array, seq![y, x]) == mask->Some_0[y * facts.width + x]),
{
    if let Ok((facts, mask)) = outcome {
        law_mask_elements(facts, mask, "failed to build ndarray from decoded mask: "@);
    }
}

} // verus!
