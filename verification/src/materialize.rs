//! Placing the samples of single bands into the buffer of a band set.

use crate::allocation;
use crate::allocation::filled;
use crate::raster;
use crate::sample::Sample;
use crate::text;
use crate::text::sentence;
use crate::types::BandLayout;
use vstd::arithmetic::div_mod::*;
use vstd::prelude::*;

verus! {

/// The order in which a writer promises to deliver its samples.
#[derive(Debug, Clone, Copy, PartialEq, Eq, Structural)]
pub enum BandWriteOrder {
    /// Pixel by pixel.
    PixelMajor,
    /// Depth by depth.
    DimMajor,
    /// No order.
    Arbitrary,
}

/// Why samples could not be placed.
#[derive(Debug, PartialEq, Eq)]
pub struct MaterializeError {
    message: String,
}

impl View for MaterializeError {
    type V = Seq<char>;

    closed spec fn view(&self) -> Seq<char> {
        self.message@
    }
}

impl Clone for MaterializeError {
    fn clone(&self) -> (r: MaterializeError)
        ensures
            r@ == self@,
    {
        MaterializeError { message: self.message.clone() }
    }
}

impl MaterializeError {
    fn new(message: &str) -> (r: MaterializeError)
        ensures
            r@ == message@,
    {
        MaterializeError { message: message.to_owned() }
    }

    fn about(before: &str, n: usize, after: &str) -> (r: MaterializeError)
        ensures
            r@ == before@ + text::decimal_text(n as nat) + after@,
    {
        MaterializeError { message: sentence(before, n as u64, after) }
    }

    /// The message.
    pub fn message(&self) -> (r: &str)
        ensures
            r@ == self@,
    {
        self.message.as_str()
    }
}

/// Samples per pixel, at least one.
pub open spec fn lanes(depth: nat) -> nat {
    if depth == 0 {
        1
    } else {
        depth
    }
}

/// Where the `v`-th sample of a band lies in the buffer of its band set.
pub open spec fn slot(
    layout: BandLayout,
    pixels: nat,
    depth: nat,
    bands: nat,
    band: nat,
    v: nat,
) -> nat {
    raster::band_index(layout, pixels, depth, bands, band, v / depth, v % depth)
}

/// The band whose sample lies at a place of the buffer.
pub open spec fn owner(layout: BandLayout, pixels: nat, depth: nat, bands: nat, x: nat) -> nat {
    match layout {
        BandLayout::Interleaved => (x / depth) % bands,
        BandLayout::Bsq => x / (pixels * depth),
    }
}

/// Which sample of its band lies at a place of the buffer.
pub open spec fn rank(layout: BandLayout, pixels: nat, depth: nat, bands: nat, x: nat) -> nat {
    match layout {
        BandLayout::Interleaved => ((x / depth) / bands) * depth + x % depth,
        BandLayout::Bsq => x % (pixels * depth),
    }
}

/// A sample's place tells its band and its position in the band.
pub proof fn law_slot_owned(
    layout: BandLayout,
    pixels: nat,
    depth: nat,
    bands: nat,
    band: nat,
    v: nat,
)
    requires
        depth > 0,
        band < bands,
        v < pixels * depth,
    ensures
        slot(layout, pixels, depth, bands, band, v) < raster::band_total(pixels, depth, bands),
        owner(layout, pixels, depth, bands, slot(layout, pixels, depth, bands, band, v)) == band,
        rank(layout, pixels, depth, bands, slot(layout, pixels, depth, bands, band, v)) == v,
{
    let pixel = v / depth;
    let dim = v % depth;
    lemma_fundamental_div_mod(v as int, depth as int);
    assert(depth * pixel == pixel * depth) by (nonlinear_arith);
    assert(pixel < pixels) by (nonlinear_arith)
        requires
            pixel * depth <= v,
            v < pixels * depth,
            depth > 0,
    ;
    raster::lemma_band_index_bound(layout, pixels, depth, bands, band, pixel, dim);
    let x = slot(layout, pixels, depth, bands, band, v);
    match layout {
        BandLayout::Interleaved => {
            let cell = pixel * bands + band;
            assert(x == cell * depth + dim) by (nonlinear_arith)
                requires
                    x == pixel * (depth * bands) + band * depth + dim,
                    cell == pixel * bands + band,
            ;
            lemma_fundamental_div_mod_converse(x as int, depth as int, cell as int, dim as int);
            lemma_fundamental_div_mod_converse(
                cell as int,
                bands as int,
                pixel as int,
                band as int,
            );
        },
        BandLayout::Bsq => {
            lemma_fundamental_div_mod_converse(
                x as int,
                (pixels * depth) as int,
                band as int,
                v as int,
            );
        },
    }
}

/// Every place of the buffer holds a sample of some band.
pub proof fn law_slot_covers(layout: BandLayout, pixels: nat, depth: nat, bands: nat, x: nat)
    requires
        depth > 0,
        x < raster::band_total(pixels, depth, bands),
    ensures
        owner(layout, pixels, depth, bands, x) < bands,
        rank(layout, pixels, depth, bands, x) < pixels * depth,
        slot(
            layout,
            pixels,
            depth,
            bands,
            owner(layout, pixels, depth, bands, x),
            rank(layout, pixels, depth, bands, x),
        ) == x,
{
    assert(bands > 0) by (nonlinear_arith)
        requires
            0 <= x,
            x < (pixels * depth) * bands,
    ;
    assert(pixels * depth > 0) by (nonlinear_arith)
        requires
            0 <= x,
            x < (pixels * depth) * bands,
            bands > 0,
    ;
    match layout {
        BandLayout::Interleaved => {
            let cell = x / depth;
            let dim = x % depth;
            let pixel = cell / bands;
            let band = cell % bands;
            lemma_fundamental_div_mod(x as int, depth as int);
            lemma_fundamental_div_mod(cell as int, bands as int);
            let v = pixel * depth + dim;
            assert(x == pixel * (depth * bands) + band * depth + dim) by (nonlinear_arith)
                requires
                    x == depth * cell + dim,
                    cell == bands * pixel + band,
            ;
            assert(pixel < pixels) by (nonlinear_arith)
                requires
                    x == pixel * (depth * bands) + band * depth + dim,
                    x < (pixels * depth) * bands,
                    depth > 0,
                    bands > 0,
                    band >= 0,
                    dim >= 0,
            ;
            assert(v < pixels * depth) by (nonlinear_arith)
                requires
                    v == pixel * depth + dim,
                    pixel + 1 <= pixels,
                    dim < depth,
            ;
            lemma_fundamental_div_mod_converse(v as int, depth as int, pixel as int, dim as int);
        },
        BandLayout::Bsq => {
            let size = pixels * depth;
            let band = x / size;
            let v = x % size;
            lemma_fundamental_div_mod(x as int, size as int);
            assert(band < bands) by (nonlinear_arith)
                requires
                    x == size * band + v,
                    x < size * bands,
                    size > 0,
                    v >= 0,
            ;
            lemma_fundamental_div_mod(v as int, depth as int);
            assert(depth * (v / depth) == (v / depth) * depth) by (nonlinear_arith);
            assert(size * band == band * size) by (nonlinear_arith);
        },
    }
}

/// The buffer with the samples of one band put in place.
pub open spec fn band_placed<T>(
    out: Seq<T>,
    values: Seq<T>,
    layout: BandLayout,
    pixels: nat,
    depth: nat,
    bands: nat,
    band: nat,
) -> Seq<T> {
    Seq::new(
        out.len(),
        |x: int|
            if x < raster::band_total(pixels, depth, bands) && owner(
                layout,
                pixels,
                depth,
                bands,
                x as nat,
            ) == band {
                values[rank(layout, pixels, depth, bands, x as nat) as int]
            } else {
                out[x]
            },
    )
}

/// How long a buffer has to be for every sample of one band to lie in it.
pub open spec fn band_room(
    layout: BandLayout,
    pixels: nat,
    depth: nat,
    bands: nat,
    band: nat,
) -> nat {
    if pixels == 0 {
        0
    } else {
        match layout {
            BandLayout::Interleaved => (((pixels - 1) * bands + band + 1) * depth) as nat,
            BandLayout::Bsq => (band + 1) * (pixels * depth),
        }
    }
}

/// A buffer with room for a band holds every sample of it, and a buffer for every band has room
/// for each.
pub proof fn lemma_room(
    layout: BandLayout,
    pixels: nat,
    depth: nat,
    bands: nat,
    band: nat,
)
    requires
        band < bands,
    ensures
        pixels * depth <= band_room(layout, pixels, depth, bands, band),
        band_room(layout, pixels, depth, bands, band) <= raster::band_total(pixels, depth, bands),
        forall|pixel: nat, dim: nat|
            pixel < pixels && dim < depth ==> #[trigger] raster::band_index(
                layout,
                pixels,
                depth,
                bands,
                band,
                pixel,
                dim,
            ) < band_room(layout, pixels, depth, bands, band),
{
    let room = band_room(layout, pixels, depth, bands, band);
    if pixels == 0 {
        assert(0 * depth == 0 && (0 * depth) * bands == 0) by (nonlinear_arith);
    } else {
        let cells = (pixels - 1) * bands + band + 1;
        assert(pixels <= cells && cells <= pixels * bands) by (nonlinear_arith)
            requires
                cells == (pixels - 1) * bands + band + 1,
                band + 1 <= bands,
                pixels >= 1,
                band >= 0,
        ;
        assert(pixels * depth <= cells * depth && cells * depth <= (pixels * depth) * bands)
            by (nonlinear_arith)
            requires
                pixels <= cells,
                cells <= pixels * bands,
                depth >= 0,
        ;
        let size = pixels * depth;
        assert(size <= (band + 1) * size && (band + 1) * size <= size * bands) by (nonlinear_arith)
            requires
                size >= 0,
                0 <= band,
                band + 1 <= bands,
        ;
        assert forall|pixel: nat, dim: nat|
            pixel < pixels && dim < depth implies #[trigger] raster::band_index(
            layout,
            pixels,
            depth,
            bands,
            band,
            pixel,
            dim,
        ) < room by {
            assert(pixel * (depth * bands) + band * depth + dim < cells * depth)
                by (nonlinear_arith)
                requires
                    cells == (pixels - 1) * bands + band + 1,
                    pixel + 1 <= pixels,
                    dim + 1 <= depth,
                    bands >= 0,
                    depth >= 0,
            ;
            assert(band * size + pixel * depth + dim < (band + 1) * size) by (nonlinear_arith)
                requires
                    size == pixels * depth,
                    pixel + 1 <= pixels,
                    dim + 1 <= depth,
            ;
        }
    }
}

/// Whether a buffer holds the first samples of one band, and what it held before elsewhere.
spec fn partly_placed<T>(
    now: Seq<T>,
    before: Seq<T>,
    values: Seq<T>,
    layout: BandLayout,
    pixels: nat,
    depth: nat,
    bands: nat,
    band: nat,
    done: nat,
) -> bool {
    &&& now.len() == before.len()
    &&& forall|x: int|
        #![trigger now[x]]
        0 <= x < now.len() ==> now[x] == (if x < raster::band_total(pixels, depth, bands) && owner(
            layout,
            pixels,
            depth,
            bands,
            x as nat,
        ) == band && rank(layout, pixels, depth, bands, x as nat) < done {
            values[rank(layout, pixels, depth, bands, x as nat) as int]
        } else {
            before[x]
        })
}

proof fn lemma_place_next<T>(
    now: Seq<T>,
    before: Seq<T>,
    values: Seq<T>,
    layout: BandLayout,
    pixels: nat,
    depth: nat,
    bands: nat,
    band: nat,
    v: nat,
)
    requires
        depth > 0,
        band < bands,
        v < pixels * depth,
        slot(layout, pixels, depth, bands, band, v) < now.len(),
        partly_placed(now, before, values, layout, pixels, depth, bands, band, v),
    ensures
        partly_placed(
            now.update(slot(layout, pixels, depth, bands, band, v) as int, values[v as int]),
            before,
            values,
            layout,
            pixels,
            depth,
            bands,
            band,
            v + 1,
        ),
{
    let place = slot(layout, pixels, depth, bands, band, v);
    law_slot_owned(layout, pixels, depth, bands, band, v);
    let next = now.update(place as int, values[v as int]);
    assert forall|x: int| #![trigger next[x]] 0 <= x < next.len() implies next[x] == (if x
        < raster::band_total(pixels, depth, bands) && owner(
        layout,
        pixels,
        depth,
        bands,
        x as nat,
    ) == band && rank(layout, pixels, depth, bands, x as nat) < v + 1 {
        values[rank(layout, pixels, depth, bands, x as nat) as int]
    } else {
        before[x]
    }) by {
        if x != place {
            assert(next[x] == now[x]);
            if x < raster::band_total(pixels, depth, bands) {
                law_slot_covers(layout, pixels, depth, bands, x as nat);
            }
        }
    }
}

/// Computes the place of a sample.
fn place_of(
    layout: BandLayout,
    pixels: usize,
    depth: usize,
    bands: usize,
    band: usize,
    pixel: usize,
    dim: usize,
) -> (r: usize)
    requires
        band < bands,
        pixel < pixels,
        dim < depth,
        raster::band_index(
            layout,
            pixels as nat,
            depth as nat,
            bands as nat,
            band as nat,
            pixel as nat,
            dim as nat,
        ) <= usize::MAX,
    ensures
        r == raster::band_index(
            layout,
            pixels as nat,
            depth as nat,
            bands as nat,
            band as nat,
            pixel as nat,
            dim as nat,
        ),
{
    proof {
        let cell = pixel as nat * bands as nat + band as nat;
        assert(pixel as nat * (depth as nat * bands as nat) + band as nat * depth as nat == cell
            * depth as nat) by (nonlinear_arith)
            requires
                cell == pixel as nat * bands as nat + band as nat,
        ;
        assert(cell <= cell * depth as nat) by (nonlinear_arith)
            requires
                depth >= 1,
        ;
        let row = band as nat * pixels as nat + pixel as nat;
        assert(band as nat * (pixels as nat * depth as nat) + pixel as nat * depth as nat == row
            * depth as nat) by (nonlinear_arith)
            requires
                row == band as nat * pixels as nat + pixel as nat,
        ;
        assert(row <= row * depth as nat) by (nonlinear_arith)
            requires
                depth >= 1,
        ;
    }
    match layout {
        BandLayout::Interleaved => (pixel * bands + band) * depth + dim,
        BandLayout::Bsq => (band * pixels + pixel) * depth + dim,
    }
}

/// What is wrong with a band's samples and index, if anything.
pub open spec fn band_fault(
    pixels: nat,
    depth: nat,
    band: nat,
    bands: nat,
    len: nat,
) -> Option<Seq<char>> {
    if pixels * lanes(depth) > usize::MAX {
        Some("decoded band length overflows usize"@)
    } else if len != pixels * lanes(depth) {
        Some("decoded band length does not match its metadata"@)
    } else if band >= bands {
        Some(
            "band index "@ + text::decimal_text(band) + " exceeds band count "@
                + text::decimal_text(bands),
        )
    } else {
        None
    }
}

fn index_error(band: usize, bands: usize) -> (r: MaterializeError)
    ensures
        r@ == "band index "@ + text::decimal_text(band as nat) + " exceeds band count "@
            + text::decimal_text(bands as nat),
{
    let mut message: String = sentence("band index ", band as u64, " exceeds band count ");
    crate::text::push_decimal(&mut message, bands as u64);
    MaterializeError { message }
}

/// Computes the length of a band.
fn band_len(pixels: usize, depth: usize) -> (r: std::result::Result<usize, MaterializeError>)
    ensures
        match r {
            Ok(len) => len == pixels as nat * lanes(depth as nat),
            Err(e) => pixels as nat * lanes(depth as nat) > usize::MAX && e@
                == "decoded band length overflows usize"@,
        },
{
    match pixels.checked_mul(if depth == 0 { 1 } else { depth }) {
        Some(len) => Ok(len),
        None => Err(MaterializeError::new("decoded band length overflows usize")),
    }
}

/// Copies the samples of one band to their places.
pub fn copy_band_values_into_slice<T: Copy>(
    out: &mut [T],
    values: &[T],
    pixel_count: usize,
    depth: usize,
    band_index: usize,
    band_count: usize,
    layout: BandLayout,
) -> (r: std::result::Result<(), MaterializeError>)
    requires
        band_fault(
            pixel_count as nat,
            depth as nat,
            band_index as nat,
            band_count as nat,
            values@.len(),
        ) is None ==> band_room(
            layout,
            pixel_count as nat,
            lanes(depth as nat),
            band_count as nat,
            band_index as nat,
        ) <= old(out)@.len(),
    ensures
        match r {
            Ok(_) => band_fault(
                pixel_count as nat,
                depth as nat,
                band_index as nat,
                band_count as nat,
                values@.len(),
            ) is None && final(out)@ == band_placed(
                old(out)@,
                values@,
                layout,
                pixel_count as nat,
                lanes(depth as nat),
                band_count as nat,
                band_index as nat,
            ),
            Err(e) => band_fault(
                pixel_count as nat,
                depth as nat,
                band_index as nat,
                band_count as nat,
                values@.len(),
            ) == Some(e@) && final(out)@ == old(out)@,
        },
{
    let len: usize = band_len(pixel_count, depth)?;
    if values.len() != len {
        return Err(MaterializeError::new("decoded band length does not match its metadata"));
    }
    if band_index >= band_count {
        return Err(index_error(band_index, band_count));
    }
    let _room: usize = out.len();
    let width: usize = if depth == 0 { 1 } else { depth };
    let ghost before = out@;
    let mut v: usize = 0;
    while v < len
        invariant
            v <= len,
            values@.len() == len,
            len == pixel_count as nat * width as nat,
            width > 0,
            band_index < band_count,
            out@.len() == before.len(),
            before.len() <= usize::MAX,
            band_room(
                layout,
                pixel_count as nat,
                width as nat,
                band_count as nat,
                band_index as nat,
            ) <= before.len(),
            partly_placed(
                out@,
                before,
                values@,
                layout,
                pixel_count as nat,
                width as nat,
                band_count as nat,
                band_index as nat,
                v as nat,
            ),
        decreases len - v,
    {
        proof {
            lemma_fundamental_div_mod(v as int, width as int);
            assert((v as nat / width as nat) < pixel_count) by {
                vstd::arithmetic::mul::lemma_mul_is_commutative(pixel_count as int, width as int);
                lemma_multiply_divide_lt(v as int, width as int, pixel_count as int);
            }
            lemma_room(
                layout,
                pixel_count as nat,
                width as nat,
                band_count as nat,
                band_index as nat,
            );
            lemma_place_next(
                out@,
                before,
                values@,
                layout,
                pixel_count as nat,
                width as nat,
                band_count as nat,
                band_index as nat,
                v as nat,
            );
        }
        let place: usize = place_of(
            layout,
            pixel_count,
            width,
            band_count,
            band_index,
            v / width,
            v % width,
        );
        out[place] = values[v];
        v += 1;
    }
    proof {
        let wanted = band_placed(
            before,
            values@,
            layout,
            pixel_count as nat,
            width as nat,
            band_count as nat,
            band_index as nat,
        );
        assert forall|x: int| 0 <= x < out@.len() implies out@[x] == wanted[x] by {
            if x < raster::band_total(pixel_count as nat, width as nat, band_count as nat) {
                law_slot_covers(
                    layout,
                    pixel_count as nat,
                    width as nat,
                    band_count as nat,
                    x as nat,
                );
            }
        }
        assert(out@ =~= wanted);
    }
    Ok(())
}

/// Random access to the samples of one band.
pub trait BandWriter<T: Sample> {
    /// The number of pixels.
    spec fn pixels(&self) -> nat;

    /// Samples per pixel, at least one.
    spec fn layers(&self) -> nat;

    /// Whether samples can be written.
    spec fn ready(&self) -> bool;

    /// The sample at a pixel and a depth, if there is one.
    spec fn held(&self, pixel: int, dim: int) -> Option<T>;

    /// Sets every sample to zero.
    fn fill_default(&mut self)
        requires
            old(self).ready(),
        ensures
            final(self).ready(),
            final(self).pixels() == old(self).pixels(),
            final(self).layers() == old(self).layers(),
            forall|p: int, d: int|
                0 <= p < final(self).pixels() && 0 <= d < final(self).layers()
                    ==> #[trigger] final(self).held(p, d) == Some(T::zero()),
    ;

    /// Writes one sample.
    fn write(&mut self, pixel: usize, dim: usize, value: T)
        requires
            old(self).ready(),
            pixel < old(self).pixels(),
            dim < old(self).layers(),
        ensures
            final(self).ready(),
            final(self).pixels() == old(self).pixels(),
            final(self).layers() == old(self).layers(),
            forall|p: int, d: int|
                0 <= p < final(self).pixels() && 0 <= d < final(self).layers()
                    ==> #[trigger] final(self).held(p, d) == (if p == pixel && d == dim {
                    Some(value)
                } else {
                    old(self).held(p, d)
                }),
    ;

    /// Reads one sample back.
    fn read(&self, pixel: usize, dim: usize) -> (r: T)
        requires
            self.ready(),
            pixel < self.pixels(),
            dim < self.layers(),
            self.held(pixel as int, dim as int) is Some,
        ensures
            self.held(pixel as int, dim as int) == Some(r),
    ;

    /// Samples per pixel.
    fn depth(&self) -> (r: usize)
        requires
            self.ready(),
        ensures
            lanes(r as nat) == self.layers(),
    ;

    /// Announces the order of the writes to come. It changes no sample.
    fn set_write_order(&mut self, order: BandWriteOrder)
        requires
            old(self).ready(),
        ensures
            final(self).ready(),
            final(self).pixels() == old(self).pixels(),
            final(self).layers() == old(self).layers(),
            forall|p: int, d: int|
                0 <= p < final(self).pixels() && 0 <= d < final(self).layers()
                    ==> #[trigger] final(self).held(p, d) == old(self).held(p, d),
    ;
}

/// One band of a caller's buffer.
pub struct BandSink<'a, T> {
    /// The buffer that holds every band.
    pub out: &'a mut [T],
    /// Pixels per band.
    pub pixel_count: usize,
    /// Samples per pixel, at least one.
    pub depth: usize,
    /// The number of bands.
    pub band_count: usize,
    /// Which band it is.
    pub band_index: usize,
    /// How the bands lie in the buffer.
    pub layout: BandLayout,
}

impl<'a, T> BandSink<'a, T> {
    /// The whole buffer.
    pub open spec fn buffer(&self) -> Seq<T> {
        self.out@
    }

    pub open spec fn pixel_total(&self) -> nat {
        self.pixel_count as nat
    }

    pub open spec fn layer_total(&self) -> nat {
        self.depth as nat
    }

    pub open spec fn band_total(&self) -> nat {
        self.band_count as nat
    }

    pub open spec fn band(&self) -> nat {
        self.band_index as nat
    }

    pub open spec fn order(&self) -> BandLayout {
        self.layout
    }

    /// The band exists and the buffer has room for it.
    pub open spec fn wf(&self) -> bool {
        &&& self.layer_total() > 0
        &&& self.band() < self.band_total()
        &&& band_room(
            self.order(),
            self.pixel_total(),
            self.layer_total(),
            self.band_total(),
            self.band(),
        ) <= self.buffer().len() <= usize::MAX
    }

    /// Where a sample lies in the buffer.
    pub open spec fn place(&self, pixel: int, dim: int) -> int {
        raster::band_index(
            self.order(),
            self.pixel_total(),
            self.layer_total(),
            self.band_total(),
            self.band(),
            pixel as nat,
            dim as nat,
        ) as int
    }

    proof fn lemma_place(&self, pixel: int, dim: int)
        requires
            self.wf(),
            0 <= pixel < self.pixel_total(),
            0 <= dim < self.layer_total(),
        ensures
            0 <= self.place(pixel, dim) < self.buffer().len(),
    {
        lemma_room(
            self.order(),
            self.pixel_total(),
            self.layer_total(),
            self.band_total(),
            self.band(),
        );
    }

    /// Whether two sinks stand for the same band of the same buffer.
    pub open spec fn same_target(&self, other: &BandSink<'a, T>) -> bool {
        &&& self.pixel_total() == other.pixel_total()
        &&& self.layer_total() == other.layer_total()
        &&& self.band_total() == other.band_total()
        &&& self.band() == other.band()
        &&& self.order() == other.order()
        &&& self.buffer().len() == other.buffer().len()
    }
}

impl<'a, T: Sample> BandSink<'a, T> {
    /// Borrows one band of a buffer; a depth of zero counts as one.
    pub fn new(
        out: &'a mut [T],
        pixel_count: usize,
        depth: usize,
        band_index: usize,
        band_count: usize,
        layout: BandLayout,
    ) -> (r: BandSink<'a, T>)
        ensures
            r.buffer() == old(out)@,
            final(r.out)@ == final(out)@,
            r.pixel_total() == pixel_count,
            r.layer_total() == lanes(depth as nat),
            r.band_total() == band_count,
            r.band() == band_index,
            r.order() == layout,
    {
        BandSink {
            out,
            pixel_count,
            depth: if depth == 0 { 1 } else { depth },
            band_count,
            band_index,
            layout,
        }
    }

    /// Sets every sample of the band to zero.
    pub fn fill_default(&mut self)
        requires
            old(self).wf(),
        ensures
            final(self).same_target(old(self)),
            final(final(self).out)@ == final(old(self).out)@,
            final(self).buffer() == band_placed(
                old(self).buffer(),
                Seq::new(old(self).pixel_total() * old(self).layer_total(), |v: int| T::zero()),
                old(self).order(),
                old(self).pixel_total(),
                old(self).layer_total(),
                old(self).band_total(),
                old(self).band(),
            ),
    {
        let ghost before = self.buffer();
        let ghost size = self.pixel_total() * self.layer_total();
        let ghost zeros = Seq::new(size, |v: int| T::zero());
        proof {
            lemma_room(
                self.order(),
                self.pixel_total(),
                self.layer_total(),
                self.band_total(),
                self.band(),
            );
        }
        let len: usize = self.pixel_count * self.depth;
        let mut v: usize = 0;
        while v < len
            invariant
                v <= len,
                len == size,
                size == self.pixel_total() * self.layer_total(),
                zeros == Seq::new(size, |v: int| T::zero()),
                self.wf(),
                self.same_target(old(self)),
                final(self.out)@ == final(old(self).out)@,
                self.buffer().len() == before.len(),
                partly_placed(
                    self.buffer(),
                    before,
                    zeros,
                    self.order(),
                    self.pixel_total(),
                    self.layer_total(),
                    self.band_total(),
                    self.band(),
                    v as nat,
                ),
            decreases len - v,
        {
            proof {
                assert((v as nat / self.depth as nat) < self.pixel_count) by {
                    vstd::arithmetic::mul::lemma_mul_is_commutative(
                        self.pixel_count as int,
                        self.depth as int,
                    );
                    lemma_multiply_divide_lt(v as int, self.depth as int, self.pixel_count as int);
                }
                self.lemma_place((v / self.depth) as int, (v % self.depth) as int);
                lemma_place_next(
                    self.buffer(),
                    before,
                    zeros,
                    self.order(),
                    self.pixel_total(),
                    self.layer_total(),
                    self.band_total(),
                    self.band(),
                    v as nat,
                );
            }
            let place: usize = place_of(
                self.layout,
                self.pixel_count,
                self.depth,
                self.band_count,
                self.band_index,
                v / self.depth,
                v % self.depth,
            );
            let zero: T = T::default_value();
            self.out[place] = zero;
            v += 1;
        }
        proof {
            let wanted = band_placed(
                before,
                zeros,
                self.order(),
                self.pixel_total(),
                self.layer_total(),
                self.band_total(),
                self.band(),
            );
            assert forall|x: int| 0 <= x < before.len() implies self.buffer()[x] == wanted[x] by {
                if x < raster::band_total(
                    self.pixel_total(),
                    self.layer_total(),
                    self.band_total(),
                ) {
                    law_slot_covers(
                        self.order(),
                        self.pixel_total(),
                        self.layer_total(),
                        self.band_total(),
                        x as nat,
                    );
                }
            }
            assert(self.buffer() =~= wanted);
        }
    }

    /// Writes one sample.
    pub fn write(&mut self, pixel: usize, dim: usize, value: T)
        requires
            old(self).wf(),
            pixel < old(self).pixel_total(),
            dim < old(self).layer_total(),
        ensures
            final(self).same_target(old(self)),
            final(final(self).out)@ == final(old(self).out)@,
            final(self).buffer() == old(self).buffer().update(
                old(self).place(pixel as int, dim as int),
                value,
            ),
    {
        proof {
            self.lemma_place(pixel as int, dim as int);
        }
        let place: usize = place_of(
            self.layout,
            self.pixel_count,
            self.depth,
            self.band_count,
            self.band_index,
            pixel,
            dim,
        );
        self.out[place] = value;
    }

    /// Reads one sample.
    pub fn read(&self, pixel: usize, dim: usize) -> (r: T)
        requires
            self.wf(),
            pixel < self.pixel_total(),
            dim < self.layer_total(),
        ensures
            r == self.buffer()[self.place(pixel as int, dim as int)],
    {
        proof {
            self.lemma_place(pixel as int, dim as int);
        }
        let place: usize = place_of(
            self.layout,
            self.pixel_count,
            self.depth,
            self.band_count,
            self.band_index,
            pixel,
            dim,
        );
        self.out[place]
    }

    /// Samples per pixel.
    pub fn depth(&self) -> (r: usize)
        ensures
            r == self.layer_total(),
    {
        self.depth
    }
}

impl<'a, T: Sample> BandWriter<T> for BandSink<'a, T> {
    open spec fn pixels(&self) -> nat {
        self.pixel_total()
    }

    open spec fn layers(&self) -> nat {
        self.layer_total()
    }

    open spec fn ready(&self) -> bool {
        self.wf()
    }

    open spec fn held(&self, pixel: int, dim: int) -> Option<T> {
        Some(self.buffer()[self.place(pixel, dim)])
    }

    fn fill_default(&mut self)
        ensures
            final(self).same_target(old(self)),
            final(final(self).out)@ == final(old(self).out)@,
            final(self).buffer() == band_placed(
                old(self).buffer(),
                Seq::new(old(self).pixel_total() * old(self).layer_total(), |v: int| T::zero()),
                old(self).order(),
                old(self).pixel_total(),
                old(self).layer_total(),
                old(self).band_total(),
                old(self).band(),
            ),
    {
        BandSink::fill_default(self);
        proof {
            assert forall|p: int, d: int|
                0 <= p < self.pixel_total() && 0 <= d
                    < self.layer_total() implies #[trigger] self.held(p, d) == Some(T::zero()) by {
                let depth = self.layer_total();
                let v = (p * depth + d) as nat;
                self.lemma_place(p, d);
                raster::lemma_sample_index(p as nat, depth, d as nat, self.pixel_total());
                lemma_fundamental_div_mod_converse(v as int, depth as int, p, d);
                law_slot_owned(
                    self.order(),
                    self.pixel_total(),
                    depth,
                    self.band_total(),
                    self.band(),
                    v,
                );
            }
        }
    }

    fn write(&mut self, pixel: usize, dim: usize, value: T)
        ensures
            final(self).same_target(old(self)),
            final(final(self).out)@ == final(old(self).out)@,
            final(self).buffer() == old(self).buffer().update(
                old(self).place(pixel as int, dim as int),
                value,
            ),
    {
        let ghost before = self.buffer();
        BandSink::write(self, pixel, dim, value);
        proof {
            self.lemma_place(pixel as int, dim as int);
            assert forall|p: int, d: int|
                0 <= p < self.pixel_total() && 0 <= d < self.layer_total() && !(p == pixel && d
                    == dim) implies #[trigger] self.held(p, d) == Some(
                before[self.place(p, d)],
            ) by {
                self.lemma_place(p, d);
                if self.place(p, d) == self.place(pixel as int, dim as int) {
                    raster::law_band_index_injective(
                        self.order(),
                        self.pixel_total(),
                        self.layer_total(),
                        self.band_total(),
                        self.band(),
                        p as nat,
                        d as nat,
                        self.band(),
                        pixel as nat,
                        dim as nat,
                    );
                }
            }
        }
    }

    fn read(&self, pixel: usize, dim: usize) -> T {
        BandSink::read(self, pixel, dim)
    }

    fn depth(&self) -> usize {
        BandSink::depth(self)
    }

    fn set_write_order(&mut self, order: BandWriteOrder)
        ensures
            final(self).same_target(old(self)),
            final(final(self).out)@ == final(old(self).out)@,
            final(self).buffer() == old(self).buffer(),
    {
    }
}

/// Collects the bands of a band set, each exactly once, in any order.
pub struct BandMaterializer<T> {
    pixel_count: usize,
    depth: usize,
    band_count: usize,
    layout: BandLayout,
    out: Vec<Option<T>>,
    written_bands: Vec<bool>,
    active_band: Option<usize>,
}

/// A sample for each value.
pub open spec fn present<T>(values: Seq<T>) -> Seq<Option<T>> {
    Seq::new(values.len(), |i: int| Some(values[i]))
}

/// `len` missing samples.
pub open spec fn missing<T>(len: nat) -> Seq<Option<T>> {
    Seq::new(len, |i: int| None)
}

impl<T> BandMaterializer<T> {
    pub closed spec fn pixel_total(&self) -> nat {
        self.pixel_count as nat
    }

    /// Samples per pixel, as given.
    pub closed spec fn given_depth(&self) -> nat {
        self.depth as nat
    }

    pub closed spec fn band_total(&self) -> nat {
        self.band_count as nat
    }

    pub closed spec fn order(&self) -> BandLayout {
        self.layout
    }

    /// The buffer; samples that were not written yet are missing.
    pub closed spec fn contents(&self) -> Seq<Option<T>> {
        self.out@
    }

    /// Which bands are complete.
    pub closed spec fn written(&self) -> Seq<bool> {
        self.written_bands@
    }

    /// The band that a writer was opened for.
    pub closed spec fn active(&self) -> Option<nat> {
        match self.active_band {
            Some(band) => Some(band as nat),
            None => None,
        }
    }

    /// Samples per pixel, at least one.
    pub open spec fn layer_total(&self) -> nat {
        lanes(self.given_depth())
    }

    /// Whether a buffer holds every sample of a band.
    pub open spec fn complete(&self, band: nat) -> bool {
        forall|v: nat|
            v < self.pixel_total() * self.layer_total() ==> self.contents()[#[trigger] slot(
                self.order(),
                self.pixel_total(),
                self.layer_total(),
                self.band_total(),
                band,
                v,
            ) as int] is Some
    }

    pub open spec fn wf(&self) -> bool {
        &&& self.contents().len() == raster::band_total(
            self.pixel_total(),
            self.layer_total(),
            self.band_total(),
        )
        &&& self.contents().len() <= usize::MAX
        &&& self.pixel_total() * self.layer_total() <= usize::MAX
        &&& self.written().len() == self.band_total()
        &&& self.active() matches Some(band) ==> band < self.band_total() && !self.written()[
            band as int
        ]
        &&& forall|band: nat|
            band < self.band_total() && self.written()[band as int] ==> #[trigger] self.complete(
                band,
            )
    }

    /// Whether two materializers have one shape.
    pub open spec fn same_shape(&self, other: &BandMaterializer<T>) -> bool {
        &&& self.pixel_total() == other.pixel_total()
        &&& self.given_depth() == other.given_depth()
        &&& self.band_total() == other.band_total()
        &&& self.order() == other.order()
    }

    /// The buffer with one band put in place.
    pub open spec fn placed(&self, values: Seq<Option<T>>, band: nat) -> Seq<Option<T>> {
        band_placed(
            self.contents(),
            values,
            self.order(),
            self.pixel_total(),
            self.layer_total(),
            self.band_total(),
            band,
        )
    }

    /// Why a band cannot be written, if it cannot.
    pub open spec fn refusal(&self, band: nat) -> Option<Seq<char>> {
        if band >= self.band_total() {
            Some(
                "band index "@ + text::decimal_text(band) + " exceeds band count "@
                    + text::decimal_text(self.band_total()),
            )
        } else if self.written()[band as int] {
            Some(
                "band index "@ + text::decimal_text(band) + " was materialized more than once"@,
            )
        } else {
            None
        }
    }

    /// Putting one band in place leaves the others complete.
    proof fn lemma_others_complete(&self, after: &BandMaterializer<T>, values: Seq<Option<T>>, band: nat)
        requires
            self.wf(),
            after.same_shape(self),
            band < self.band_total(),
            values.len() == self.pixel_total() * self.layer_total(),
            after.contents() == self.placed(values, band),
        ensures
            forall|other: nat|
                other < self.band_total() && other != band && self.complete(other)
                    ==> #[trigger] after.complete(other),
            (forall|v: int| 0 <= v < values.len() ==> #[trigger] values[v] is Some)
                ==> after.complete(band),
    {
        assert forall|other: nat|
            other < self.band_total() && other != band && self.complete(
                other,
            ) implies #[trigger] after.complete(other) by {
            assert forall|v: nat|
                v < after.pixel_total() * after.layer_total() implies after.contents()[#[trigger] slot(
                after.order(),
                after.pixel_total(),
                after.layer_total(),
                after.band_total(),
                other,
                v,
            ) as int] is Some by {
                law_slot_owned(
                    self.order(),
                    self.pixel_total(),
                    self.layer_total(),
                    self.band_total(),
                    other,
                    v,
                );
            }
        }
        if forall|v: int| 0 <= v < values.len() ==> #[trigger] values[v] is Some {
            assert forall|v: nat|
                v < after.pixel_total() * after.layer_total() implies after.contents()[#[trigger] slot(
                after.order(),
                after.pixel_total(),
                after.layer_total(),
                after.band_total(),
                band,
                v,
            ) as int] is Some by {
                law_slot_owned(
                    self.order(),
                    self.pixel_total(),
                    self.layer_total(),
                    self.band_total(),
                    band,
                    v,
                );
                assert(values[v as int] is Some);
            }
        }
    }

    proof fn lemma_band_fits(&self)
        requires
            self.wf(),
            self.band_total() > 0,
        ensures
            self.pixel_total() * self.layer_total() <= self.contents().len(),
            forall|band: nat|
                band < self.band_total() ==> #[trigger] band_room(
                    self.order(),
                    self.pixel_total(),
                    self.layer_total(),
                    self.band_total(),
                    band,
                ) <= self.contents().len(),
    {
        assert forall|band: nat| band < self.band_total() implies #[trigger] band_room(
            self.order(),
            self.pixel_total(),
            self.layer_total(),
            self.band_total(),
            band,
        ) <= self.contents().len() by {
            lemma_room(
                self.order(),
                self.pixel_total(),
                self.layer_total(),
                self.band_total(),
                band,
            );
        }
        let size = self.pixel_total() * self.layer_total();
        assert(size <= size * self.band_total()) by (nonlinear_arith)
            requires
                self.band_total() >= 1,
        ;
    }
}

/// Whether one materializer is what another becomes when a complete band is copied into it.
pub open spec fn copied<T>(
    before: BandMaterializer<T>,
    after: BandMaterializer<T>,
    band: nat,
    values: Seq<T>,
) -> bool {
    &&& before.refusal(band) is None
    &&& values.len() == before.pixel_total() * before.layer_total()
    &&& after.wf()
    &&& after.same_shape(&before)
    &&& after.contents() == before.placed(present(values), band)
    &&& after.written() == before.written().update(band as int, true)
    &&& after.active() is None
}

/// Whether one materializer is what another becomes when a sample of its open band is written.
pub open spec fn sample_written<T>(
    before: BandMaterializer<T>,
    after: BandMaterializer<T>,
    band: nat,
    pixel: nat,
    dim: nat,
    value: T,
) -> bool {
    &&& after.wf()
    &&& after.same_shape(&before)
    &&& after.active() == before.active()
    &&& after.written() == before.written()
    &&& after.contents() == before.contents().update(
        raster::band_index(
            before.order(),
            before.pixel_total(),
            before.layer_total(),
            before.band_total(),
            band,
            pixel,
            dim,
        ) as int,
        Some(value),
    )
}

/// Whether one materializer is what another becomes when every sample of its open band is set to
/// one value.
pub open spec fn band_filled<T>(
    before: BandMaterializer<T>,
    after: BandMaterializer<T>,
    band: nat,
    value: T,
) -> bool {
    &&& after.wf()
    &&& after.same_shape(&before)
    &&& after.active() == before.active()
    &&& after.written() == before.written()
    &&& after.contents() == before.placed(
        present(
            allocation::repeated(value, before.pixel_total() * before.layer_total()),
        ),
        band,
    )
}

/// Whether one materializer is what another becomes when its open band is finished.
pub open spec fn band_closed<T>(
    before: BandMaterializer<T>,
    after: BandMaterializer<T>,
    band: nat,
) -> bool {
    &&& before.complete(band)
    &&& after.wf()
    &&& after.same_shape(&before)
    &&& after.contents() == before.contents()
    &&& after.written() == before.written().update(band as int, true)
    &&& after.active() is None
}

/// Whether one materializer is what another becomes when a band is opened: nothing of the band
/// is written.
pub open spec fn band_opened<T>(
    before: BandMaterializer<T>,
    after: BandMaterializer<T>,
    band: nat,
) -> bool {
    &&& after.wf()
    &&& after.same_shape(&before)
    &&& after.active() == Some(band)
    &&& after.written() == before.written()
    &&& after.contents() == before.placed(
        missing::<T>(before.pixel_total() * before.layer_total()),
        band,
    )
}

/// What is done to a band through its writer.
pub enum WriterStep<T> {
    /// One sample is written.
    Write(nat, nat, T),
    /// Every sample is set to one value.
    Fill(T),
}

/// Whether one materializer is what another becomes by a step of the writer of a band.
pub open spec fn step_taken<T>(
    before: BandMaterializer<T>,
    after: BandMaterializer<T>,
    band: nat,
    step: WriterStep<T>,
) -> bool {
    match step {
        WriterStep::Write(pixel, dim, value) => pixel < before.pixel_total() && dim
            < before.layer_total() && sample_written(before, after, band, pixel, dim, value),
        WriterStep::Fill(value) => band_filled(before, after, band, value),
    }
}

/// The samples of a band, pixel by pixel, after the steps of its writer.
pub open spec fn steps_left<T>(
    steps: Seq<WriterStep<T>>,
    pixels: nat,
    depth: nat,
) -> Seq<Option<T>>
    decreases steps.len(),
{
    if steps.len() == 0 {
        missing(pixels * depth)
    } else {
        match steps.last() {
            WriterStep::Write(pixel, dim, value) => steps_left(
                steps.drop_last(),
                pixels,
                depth,
            ).update((pixel * depth + dim) as int, Some(value)),
            WriterStep::Fill(value) => present(allocation::repeated(value, pixels * depth)),
        }
    }
}

/// Whether materializers follow one from another by the steps of the writer of a band, from the
/// one in which it was opened on.
pub open spec fn steps_taken<T>(
    before: BandMaterializer<T>,
    states: Seq<BandMaterializer<T>>,
    steps: Seq<WriterStep<T>>,
    band: nat,
) -> bool {
    &&& before.wf()
    &&& before.refusal(band) is None
    &&& states.len() == steps.len() + 1
    &&& band_opened(before, states[0], band)
    &&& forall|i: int|
        0 <= i < steps.len() ==> step_taken(states[i], states[i + 1], band, #[trigger] steps[i])
}

/// Writing one sample into a buffer in which a band was put in place is putting the band in
/// place with that sample.
proof fn lemma_placed_update<T>(
    before: BandMaterializer<T>,
    samples: Seq<Option<T>>,
    band: nat,
    pixel: nat,
    dim: nat,
    value: Option<T>,
)
    requires
        before.wf(),
        band < before.band_total(),
        pixel < before.pixel_total(),
        dim < before.layer_total(),
        samples.len() == before.pixel_total() * before.layer_total(),
    ensures
        before.placed(samples, band).update(
            raster::band_index(
                before.order(),
                before.pixel_total(),
                before.layer_total(),
                before.band_total(),
                band,
                pixel,
                dim,
            ) as int,
            value,
        ) == before.placed(
            samples.update((pixel * before.layer_total() + dim) as int, value),
            band,
        ),
{
    let (pixels, depth, bands) = (
        before.pixel_total(),
        before.layer_total(),
        before.band_total(),
    );
    let v = pixel * depth + dim;
    raster::lemma_sample_index(pixel, depth, dim, pixels);
    lemma_fundamental_div_mod_converse(v as int, depth as int, pixel as int, dim as int);
    law_slot_owned(before.order(), pixels, depth, bands, band, v);
    let place = slot(before.order(), pixels, depth, bands, band, v);
    let left = before.placed(samples, band).update(place as int, value);
    let right = before.placed(samples.update(v as int, value), band);
    assert forall|x: int| 0 <= x < left.len() implies left[x] == right[x] by {
        law_slot_covers(before.order(), pixels, depth, bands, x as nat);
    }
    assert(left =~= right);
}

proof fn lemma_steps<T>(
    before: BandMaterializer<T>,
    states: Seq<BandMaterializer<T>>,
    steps: Seq<WriterStep<T>>,
    band: nat,
)
    requires
        steps_taken(before, states, steps, band),
    ensures
        ({
            let last = states[steps.len() as int];
            let samples = steps_left(steps, before.pixel_total(), before.layer_total());
            &&& last.wf()
            &&& last.same_shape(&before)
            &&& last.active() == Some(band)
            &&& last.written() == before.written()
            &&& samples.len() == before.pixel_total() * before.layer_total()
            &&& last.contents() == before.placed(samples, band)
        }),
    decreases steps.len(),
{
    if steps.len() > 0 {
        let n = steps.len() - 1;
        let fewer = steps.drop_last();
        let front = states.drop_last();
        assert forall|i: int| 0 <= i < fewer.len() implies step_taken(
            front[i],
            front[i + 1],
            band,
            #[trigger] fewer[i],
        ) by {
            assert(step_taken(states[i], states[i + 1], band, steps[i]));
        }
        lemma_steps(before, front, fewer, band);
        let (prior, last) = (states[n], states[n + 1]);
        let (pixels, depth) = (before.pixel_total(), before.layer_total());
        let samples = steps_left(fewer, pixels, depth);
        assert(step_taken(prior, last, band, steps[n]));
        match steps[n] {
            WriterStep::Write(pixel, dim, value) => {
                raster::lemma_sample_index(pixel, depth, dim, pixels);
                lemma_placed_update(before, samples, band, pixel, dim, Some(value));
                assert(steps_left(steps, pixels, depth) == samples.update(
                    (pixel * depth + dim) as int,
                    Some(value),
                ));
            },
            WriterStep::Fill(value) => {
                let all = present(allocation::repeated(value, pixels * depth));
                assert(before.placed(samples, band).len() == before.contents().len());
                assert(prior.placed(all, band) =~= before.placed(all, band));
                assert(steps_left(steps, pixels, depth) == all);
                assert(all.len() == pixels * depth);
            },
        }
    }
}

/// A band that was opened, written through its writer in any order, and finished is as if its
/// samples, as they were last written, had been copied at once; it can be finished exactly when
/// each of them was written. No other band is touched, finished or not.
pub proof fn law_writer_copies<T>(
    before: BandMaterializer<T>,
    states: Seq<BandMaterializer<T>>,
    steps: Seq<WriterStep<T>>,
    band: nat,
    after: BandMaterializer<T>,
    values: Seq<T>,
)
    requires
        steps_taken(before, states, steps, band),
    ensures
        ({
            let last = states[steps.len() as int];
            let samples = steps_left(steps, before.pixel_total(), before.layer_total());
            &&& last.contents() == before.placed(samples, band)
            &&& last.written() == before.written()
            &&& last.active() == Some(band)
            &&& last.complete(band) <==> forall|v: int|
                0 <= v < samples.len() ==> #[trigger] samples[v] is Some
            &&& band_closed(last, after, band) && samples == present(values) ==> copied(
                before,
                after,
                band,
                values,
            )
        }),
{
    lemma_steps(before, states, steps, band);
    let last = states[steps.len() as int];
    let (pixels, depth, bands) = (
        before.pixel_total(),
        before.layer_total(),
        before.band_total(),
    );
    let samples = steps_left(steps, pixels, depth);
    if last.complete(band) {
        assert forall|v: int| 0 <= v < samples.len() implies #[trigger] samples[v] is Some by {
            law_slot_owned(before.order(), pixels, depth, bands, band, v as nat);
            assert(last.contents()[slot(
                last.order(),
                last.pixel_total(),
                last.layer_total(),
                last.band_total(),
                band,
                v as nat,
            ) as int] is Some);
        }
    }
    if forall|v: int| 0 <= v < samples.len() ==> #[trigger] samples[v] is Some {
        before.lemma_others_complete(&last, samples, band);
    }
    if samples == present(values) {
        assert(present(values).len() == values.len());
    }
}

/// Whether a materializer is new: no band is written or open.
pub open spec fn fresh<T>(start: BandMaterializer<T>) -> bool {
    &&& start.wf()
    &&& start.active() is None
    &&& forall|band: int| 0 <= band < start.band_total() ==> !#[trigger] start.written()[band]
}

/// Whether materializers follow one from another, from a new one on, by copying the bands
/// `order[0]`, `order[1]` and so on.
pub open spec fn copies<T>(
    states: Seq<BandMaterializer<T>>,
    order: Seq<nat>,
    given: Seq<Seq<T>>,
) -> bool {
    &&& states.len() == order.len() + 1
    &&& given.len() == order.len()
    &&& fresh(states[0])
    &&& forall|i: int|
        0 <= i < order.len() ==> copied(states[i], states[i + 1], #[trigger] order[i], given[i])
}

/// Whether a materializer holds the first `n` bands of an order, and no others.
spec fn holds_first<T>(
    now: BandMaterializer<T>,
    order: Seq<nat>,
    given: Seq<Seq<T>>,
    n: int,
) -> bool {
    &&& now.active() is None
    &&& forall|band: int|
        0 <= band < now.band_total() ==> (#[trigger] now.written()[band] <==> exists|i: int|
            0 <= i < n && #[trigger] order[i] == band)
    &&& forall|i: int|
        0 <= i < n ==> #[trigger] order[i] < now.band_total() && given[i].len()
            == now.pixel_total() * now.layer_total()
    &&& forall|i: int, v: nat|
        #![trigger order[i], given[i][v as int]]
        0 <= i < n && v < now.pixel_total() * now.layer_total() ==> now.contents()[slot(
            now.order(),
            now.pixel_total(),
            now.layer_total(),
            now.band_total(),
            order[i],
            v,
        ) as int] == Some(given[i][v as int])
}

/// Copying one more band.
proof fn lemma_copy_next<T>(
    before: BandMaterializer<T>,
    after: BandMaterializer<T>,
    order: Seq<nat>,
    given: Seq<Seq<T>>,
    n: int,
)
    requires
        0 <= n < order.len(),
        given.len() == order.len(),
        before.wf(),
        copied(before, after, order[n], given[n]),
        holds_first(before, order, given, n),
    ensures
        holds_first(after, order, given, n + 1),
{
    assert forall|band: int| 0 <= band < after.band_total() implies (
    #[trigger] after.written()[band] <==> exists|i: int|
        0 <= i < n + 1 && #[trigger] order[i] == band) by {
        assert(before.written()[band] <==> exists|i: int|
            0 <= i < n && #[trigger] order[i] == band);
        assert(order[n] == order[n]);
        if after.written()[band] && band != order[n] {
            let i = choose|i: int| 0 <= i < n && #[trigger] order[i] == band;
            assert(0 <= i < n + 1 && order[i] == band);
        }
    }
    assert forall|i: int, v: nat|
        #![trigger order[i], given[i][v as int]]
        0 <= i < n + 1 && v < after.pixel_total()
            * after.layer_total() implies after.contents()[slot(
        after.order(),
        after.pixel_total(),
        after.layer_total(),
        after.band_total(),
        order[i],
        v,
    ) as int] == Some(given[i][v as int]) by {
        law_slot_owned(
            after.order(),
            after.pixel_total(),
            after.layer_total(),
            after.band_total(),
            order[i],
            v,
        );
        if i < n {
            assert(before.written()[order[i] as int]);
            assert(order[i] != order[n]);
        }
    }
}

proof fn lemma_copies<T>(
    states: Seq<BandMaterializer<T>>,
    order: Seq<nat>,
    given: Seq<Seq<T>>,
    n: int,
)
    requires
        copies(states, order, given),
        0 <= n <= order.len(),
    ensures
        states[n].wf(),
        states[n].same_shape(&states[0]),
        holds_first(states[n], order, given, n),
    decreases n,
{
    if n > 0 {
        lemma_copies(states, order, given, n - 1);
        assert(copied(states[n - 1], states[n - 1 + 1], order[n - 1], given[n - 1]));
        lemma_copy_next(states[n - 1], states[n], order, given, n - 1);
    }
}

/// Bands copied into a new materializer, each once and in any order, are complete exactly when
/// every band is among them; the finished buffer then holds each sample of each band at the
/// place that the layout gives it, and nothing else.
pub proof fn law_bands_materialized<T>(
    states: Seq<BandMaterializer<T>>,
    order: Seq<nat>,
    given: Seq<Seq<T>>,
    out: Seq<T>,
)
    requires
        copies(states, order, given),
    ensures
        ({
            let last = states[order.len() as int];
            let pixels = last.pixel_total();
            let depth = last.layer_total();
            let bands = last.band_total();
            &&& last.wf()
            &&& last.same_shape(&states[0])
            &&& last.active() is None
            &&& (forall|band: int| 0 <= band < bands ==> #[trigger] last.written()[band]) <==> (
            forall|band: nat| #[trigger] in_order(order, band) <==> band < bands)
            &&& last.contents().len() == raster::band_total(pixels, depth, bands)
            &&& present(out) == last.contents() ==> out.len() == raster::band_total(
                pixels,
                depth,
                bands,
            ) && forall|i: int, pixel: nat, dim: nat|
                #![trigger given[i][(pixel * depth + dim) as int]]
                0 <= i < order.len() && pixel < pixels && dim < depth ==> out[raster::band_index(
                    last.order(),
                    pixels,
                    depth,
                    bands,
                    order[i],
                    pixel,
                    dim,
                ) as int] == given[i][(pixel * depth + dim) as int]
        }),
{
    let n = order.len() as int;
    let last = states[n];
    let pixels = last.pixel_total();
    let depth = last.layer_total();
    let bands = last.band_total();
    lemma_copies(states, order, given, n);
    if forall|band: int| 0 <= band < bands ==> #[trigger] last.written()[band] {
        assert forall|band: nat| #[trigger] in_order(order, band) <==> band < bands by {
            if band < bands {
                assert(last.written()[band as int]);
            }
        }
    }
    if forall|band: nat| #[trigger] in_order(order, band) <==> band < bands {
        assert forall|band: int| 0 <= band < bands implies #[trigger] last.written()[band] by {
            assert(in_order(order, band as nat));
        }
    }
    if present(out) == last.contents() {
        assert(present(out).len() == out.len());
        assert forall|i: int, pixel: nat, dim: nat|
            #![trigger given[i][(pixel * depth + dim) as int]]
            0 <= i < order.len() && pixel < pixels && dim < depth implies out[raster::band_index(
            last.order(),
            pixels,
            depth,
            bands,
            order[i],
            pixel,
            dim,
        ) as int] == given[i][(pixel * depth + dim) as int] by {
            let v = pixel * depth + dim;
            assert(v < pixels * depth) by (nonlinear_arith)
                requires
                    v == pixel * depth + dim,
                    pixel < pixels,
                    dim < depth,
            ;
            lemma_fundamental_div_mod_converse(v as int, depth as int, pixel as int, dim as int);
            law_slot_owned(last.order(), pixels, depth, bands, order[i], v);
            let x = slot(last.order(), pixels, depth, bands, order[i], v) as int;
            assert(last.contents()[x] == Some(given[i][v as int]));
            assert(present(out)[x] == Some(out[x]));
        }
    }
}

/// Whether a band is among those copied.
pub open spec fn in_order(order: Seq<nat>, band: nat) -> bool {
    exists|i: int| 0 <= i < order.len() && #[trigger] order[i] == band
}

fn wrap_values<T: Copy>(values: &[T]) -> (r: Vec<Option<T>>)
    ensures
        r@ == present(values@),
{
    let mut out: Vec<Option<T>> = Vec::with_capacity(values.len());
    let mut i: usize = 0;
    while i < values.len()
        invariant
            i <= values@.len(),
            out@.len() == i,
            forall|j: int| 0 <= j < i ==> #[trigger] out@[j] == Some(values@[j]),
        decreases values@.len() - i,
    {
        out.push(Some(values[i]));
        i += 1;
    }
    assert(out@ =~= present(values@));
    out
}

fn missing_values<T: Copy>(len: usize) -> (r: Vec<Option<T>>)
    ensures
        r@ == missing::<T>(len as nat),
{
    let mut out: Vec<Option<T>> = Vec::with_capacity(len);
    let mut i: usize = 0;
    while i < len
        invariant
            i <= len,
            out@.len() == i,
            forall|j: int| 0 <= j < i ==> #[trigger] out@[j] == None::<T>,
        decreases len - i,
    {
        out.push(None);
        i += 1;
    }
    assert(out@ =~= missing::<T>(len as nat));
    out
}

impl<T: Copy> BandMaterializer<T> {
    /// Starts with no band written.
    pub fn new(pixel_count: usize, depth: usize, band_count: usize, layout: BandLayout) -> (r:
        std::result::Result<BandMaterializer<T>, MaterializeError>)
        ensures
            match r {
                Ok(m) => {
                    &&& m.wf()
                    &&& m.pixel_total() == pixel_count
                    &&& m.given_depth() == depth
                    &&& m.band_total() == band_count
                    &&& m.order() == layout
                    &&& m.contents() == missing::<T>(
                        raster::band_total(
                            pixel_count as nat,
                            lanes(depth as nat),
                            band_count as nat,
                        ),
                    )
                    &&& m.written() == Seq::new(band_count as nat, |i: int| false)
                    &&& m.active() is None
                },
                Err(e) => if pixel_count as nat * lanes(depth as nat) > usize::MAX {
                    e@ == "decoded band length overflows usize"@
                } else {
                    raster::band_total(
                        pixel_count as nat,
                        lanes(depth as nat),
                        band_count as nat,
                    ) > usize::MAX && e@ == "decoded band set length overflows usize"@
                },
            },
    {
        let len: usize = band_len(pixel_count, depth)?;
        let total: usize = match len.checked_mul(band_count) {
            Some(total) => total,
            None => {
                return Err(MaterializeError::new("decoded band set length overflows usize"));
            },
        };
        let mut written_bands: Vec<bool> = Vec::with_capacity(band_count);
        let mut i: usize = 0;
        while i < band_count
            invariant
                i <= band_count,
                written_bands@.len() == i,
                forall|j: int| 0 <= j < i ==> !#[trigger] written_bands@[j],
            decreases band_count - i,
        {
            written_bands.push(false);
            i += 1;
        }
        let r = BandMaterializer {
            pixel_count,
            depth,
            band_count,
            layout,
            out: missing_values(total),
            written_bands,
            active_band: None,
        };
        assert(r.written() =~= Seq::new(band_count as nat, |i: int| false));
        Ok(r)
    }

    fn check_band(&self, band_index: usize) -> (r: std::result::Result<(), MaterializeError>)
        requires
            self.wf(),
        ensures
            match r {
                Ok(_) => self.refusal(band_index as nat) is None,
                Err(e) => self.refusal(band_index as nat) == Some(e@),
            },
    {
        if band_index >= self.band_count {
            return Err(index_error(band_index, self.band_count));
        }
        if self.written_bands[band_index] {
            return Err(
                MaterializeError::about(
                    "band index ",
                    band_index,
                    " was materialized more than once",
                ),
            );
        }
        Ok(())
    }

    /// Writes one complete band.
    pub fn copy_band(&mut self, band_index: usize, values: &[T]) -> (r: std::result::Result<
        (),
        MaterializeError,
    >)
        requires
            old(self).wf(),
        ensures
            final(self).wf(),
            final(self).same_shape(old(self)),
            match r {
                Ok(_) => copied(*old(self), *final(self), band_index as nat, values@),
                Err(e) => {
                    &&& final(self).contents() == old(self).contents()
                    &&& final(self).written() == old(self).written()
                    &&& final(self).active() == old(self).active()
                    &&& match old(self).refusal(band_index as nat) {
                        Some(reason) => e@ == reason,
                        None => values@.len() != old(self).pixel_total() * old(self).layer_total()
                            && e@ == "decoded band length does not match its metadata"@,
                    }
                },
            },
    {
        self.check_band(band_index)?;
        proof {
            self.lemma_band_fits();
        }
        if values.len() != self.pixel_count * if self.depth == 0 { 1 } else { self.depth } {
            return Err(MaterializeError::new("decoded band length does not match its metadata"));
        }
        let wrapped: Vec<Option<T>> = wrap_values(values);
        copy_band_values_into_slice(
            self.out.as_mut_slice(),
            wrapped.as_slice(),
            self.pixel_count,
            self.depth,
            band_index,
            self.band_count,
            self.layout,
        )?;
        self.active_band = None;
        self.written_bands.set(band_index, true);
        proof {
            old(self).lemma_others_complete(self, present(values@), band_index as nat);
        }
        Ok(())
    }

    /// Writes one complete band, its samples computed from their position.
    pub fn copy_band_with<F: Fn(usize) -> T>(&mut self, band_index: usize, value_at: F) -> (r:
        std::result::Result<(), MaterializeError>)
        requires
            old(self).wf(),
            forall|i: usize|
                i < old(self).pixel_total() * old(self).layer_total() ==> #[trigger] call_requires(
                    value_at,
                    (i,),
                ),
        ensures
            final(self).wf(),
            final(self).same_shape(old(self)),
            match r {
                Ok(_) => {
                    &&& old(self).refusal(band_index as nat) is None
                    &&& exists|values: Seq<T>|
                        {
                            &&& values.len() == old(self).pixel_total() * old(self).layer_total()
                            &&& forall|i: usize|
                                i < values.len() ==> call_ensures(
                                    value_at,
                                    (i,),
                                    #[trigger] values[i as int],
                                )
                            &&& final(self).contents() == old(self).placed(
                                #[trigger] present(values),
                                band_index as nat,
                            )
                        }
                    &&& final(self).written() == old(self).written().update(band_index as int, true)
                    &&& final(self).active() is None
                },
                Err(e) => {
                    &&& final(self).contents() == old(self).contents()
                    &&& final(self).written() == old(self).written()
                    &&& final(self).active() == old(self).active()
                    &&& old(self).refusal(band_index as nat) == Some(e@)
                },
            },
    {
        self.check_band(band_index)?;
        let len: usize = self.pixel_count * if self.depth == 0 { 1 } else { self.depth };
        let mut values: Vec<T> = Vec::with_capacity(len);
        let mut i: usize = 0;
        while i < len
            invariant
                i <= len,
                len == old(self).pixel_total() * old(self).layer_total(),
                forall|j: usize| j < len ==> #[trigger] call_requires(value_at, (j,)),
                values@.len() == i,
                forall|j: usize|
                    j < i ==> call_ensures(value_at, (j,), #[trigger] values@[j as int]),
            decreases len - i,
        {
            values.push(value_at(i));
            i += 1;
        }
        self.copy_band(band_index, values.as_slice())
    }

    /// Whether every sample of a band is there.
    fn band_is_complete(&self, band_index: usize) -> (r: bool)
        requires
            self.wf(),
            band_index < self.band_total(),
        ensures
            r == self.complete(band_index as nat),
    {
        let width: usize = if self.depth == 0 { 1 } else { self.depth };
        let len: usize = self.pixel_count * width;
        let mut v: usize = 0;
        while v < len
            invariant
                v <= len,
                self.wf(),
                width == self.layer_total(),
                len == self.pixel_total() * self.layer_total(),
                width > 0,
                band_index < self.band_total(),
                forall|w: nat|
                    w < v ==> self.contents()[#[trigger] slot(
                        self.order(),
                        self.pixel_total(),
                        self.layer_total(),
                        self.band_total(),
                        band_index as nat,
                        w,
                    ) as int] is Some,
            decreases len - v,
        {
            proof {
                law_slot_owned(
                    self.order(),
                    self.pixel_total(),
                    self.layer_total(),
                    self.band_total(),
                    band_index as nat,
                    v as nat,
                );
                assert((v as nat / width as nat) < self.pixel_count) by {
                    vstd::arithmetic::mul::lemma_mul_is_commutative(
                        self.pixel_count as int,
                        width as int,
                    );
                    lemma_multiply_divide_lt(v as int, width as int, self.pixel_count as int);
                }
            }
            let place: usize = place_of(
                self.layout,
                self.pixel_count,
                width,
                self.band_count,
                band_index,
                v / width,
                v % width,
            );
            if self.out[place].is_none() {
                return false;
            }
            v += 1;
        }
        true
    }

    /// Hands out the buffer once every band was written.
    pub fn finish(self) -> (r: std::result::Result<Vec<T>, MaterializeError>)
        requires
            self.wf(),
        ensures
            match r {
                Ok(values) => {
                    &&& self.active() is None
                    &&& forall|band: int| 0 <= band < self.band_total() ==> #[trigger] self.written()[band]
                    &&& present(values@) == self.contents()
                },
                Err(e) => match self.active() {
                    Some(band) => if self.complete(band) {
                        e@ == "band "@ + text::decimal_text(band)
                            + " was not finalized before finishing the output buffer"@
                    } else {
                        e@ == "band "@ + text::decimal_text(band)
                            + " was finalized before all decoded values were initialized"@
                    },
                    None => e@ == "not all decoded bands were materialized into the output buffer"@
                        && exists|band: int|
                        0 <= band < self.band_total() && !#[trigger] self.written()[band],
                },
            },
    {
        if let Some(band) = self.active_band {
            if self.band_is_complete(band) {
                return Err(
                    MaterializeError::about(
                        "band ",
                        band,
                        " was not finalized before finishing the output buffer",
                    ),
                );
            }
            return Err(
                MaterializeError::about(
                    "band ",
                    band,
                    " was finalized before all decoded values were initialized",
                ),
            );
        }
        let mut band: usize = 0;
        while band < self.band_count
            invariant
                band <= self.band_count,
                self.wf(),
                self.active() is None,
                forall|b: int| 0 <= b < band ==> #[trigger] self.written()[b],
            decreases self.band_count - band,
        {
            if !self.written_bands[band] {
                assert(!self.written()[band as int]);
                return Err(
                    MaterializeError::new(
                        "not all decoded bands were materialized into the output buffer",
                    ),
                );
            }
            band += 1;
        }
        let mut values: Vec<T> = Vec::with_capacity(self.out.len());
        let mut x: usize = 0;
        while x < self.out.len()
            invariant
                x <= self.out@.len(),
                self.wf(),
                self.contents() == self.out@,
                forall|b: int| 0 <= b < self.band_total() ==> #[trigger] self.written()[b],
                values@.len() == x,
                forall|j: int| 0 <= j < x ==> Some(#[trigger] values@[j]) == self.out@[j],
            decreases self.out@.len() - x,
        {
            proof {
                law_slot_covers(
                    self.order(),
                    self.pixel_total(),
                    self.layer_total(),
                    self.band_total(),
                    x as nat,
                );
                let band = owner(
                    self.order(),
                    self.pixel_total(),
                    self.layer_total(),
                    self.band_total(),
                    x as nat,
                );
                assert(self.written()[band as int]);
                assert(self.complete(band));
            }
            match self.out[x] {
                Some(value) => values.push(value),
                None => {
                    assert(false);
                },
            }
            x += 1;
        }
        proof {
            assert(present(values@) =~= self.contents());
        }
        Ok(values)
    }

    /// Opens one band for random access. What an unfinished writer left of it is dropped.
    pub fn band_writer(&mut self, band_index: usize) -> (r: std::result::Result<
        MaterializerBandWriter<'_, T>,
        MaterializeError,
    >)
        requires
            old(self).wf(),
        ensures
            match r {
                Ok(w) => {
                    &&& old(self).refusal(band_index as nat) is None
                    &&& w.band_index == band_index
                    &&& *final(self) == *final(w.materializer)
                    &&& w.started(old(self))
                },
                Err(e) => old(self).refusal(band_index as nat) == Some(e@) && final(self).contents()
                    == old(self).contents() && final(self).written() == old(self).written()
                    && final(self).active() == old(self).active() && final(self).same_shape(
                    old(self),
                ),
            },
    {
        self.check_band(band_index)?;
        proof {
            self.lemma_band_fits();
        }
        let len: usize = self.pixel_count * if self.depth == 0 { 1 } else { self.depth };
        let blank: Vec<Option<T>> = missing_values(len);
        copy_band_values_into_slice(
            self.out.as_mut_slice(),
            blank.as_slice(),
            self.pixel_count,
            self.depth,
            band_index,
            self.band_count,
            self.layout,
        )?;
        self.active_band = Some(band_index);
        proof {
            old(self).lemma_others_complete(self, missing::<T>(len as nat), band_index as nat);
        }
        Ok(MaterializerBandWriter { materializer: self, band_index })
    }
}

/// Random access to one band of a [`BandMaterializer`].
pub struct MaterializerBandWriter<'a, T> {
    pub materializer: &'a mut BandMaterializer<T>,
    pub band_index: usize,
}

impl<'a, T> MaterializerBandWriter<'a, T> {
    /// The materializer as it is now.
    pub open spec fn target(&self) -> BandMaterializer<T> {
        *self.materializer
    }

    /// The band is open, and nothing of it was written.
    pub open spec fn started(&self, before: &BandMaterializer<T>) -> bool {
        band_opened(*before, self.target(), self.band_index as nat)
    }

    /// Where a sample lies in the buffer.
    pub open spec fn place(&self, pixel: int, dim: int) -> int {
        raster::band_index(
            self.target().order(),
            self.target().pixel_total(),
            self.target().layer_total(),
            self.target().band_total(),
            self.band_index as nat,
            pixel as nat,
            dim as nat,
        ) as int
    }
}

impl<'a, T: Sample> MaterializerBandWriter<'a, T> {
    proof fn lemma_place(&self, pixel: int, dim: int)
        requires
            self.ready(),
            0 <= pixel < self.pixels(),
            0 <= dim < self.layers(),
        ensures
            0 <= self.place(pixel, dim) < self.target().contents().len(),
    {
        raster::lemma_band_index_bound(
            self.target().order(),
            self.target().pixel_total(),
            self.target().layer_total(),
            self.target().band_total(),
            self.band_index as nat,
            pixel as nat,
            dim as nat,
        );
    }

    /// Marks the band as written once every sample of it is there.
    pub fn finish(self) -> (r: std::result::Result<(), MaterializeError>)
        requires
            self.ready(),
        ensures
            match r {
                Ok(_) => band_closed(
                    self.target(),
                    *final(self.materializer),
                    self.band_index as nat,
                ),
                Err(e) => {
                    &&& !self.target().complete(self.band_index as nat)
                    &&& *final(self.materializer) == self.target()
                    &&& e@ == "band "@ + text::decimal_text(self.band_index as nat)
                        + " was finalized before all decoded values were initialized"@
                },
            },
    {
        let ghost before = self.target();
        if !self.materializer.band_is_complete(self.band_index) {
            return Err(
                MaterializeError::about(
                    "band ",
                    self.band_index,
                    " was finalized before all decoded values were initialized",
                ),
            );
        }
        let band: usize = self.band_index;
        self.materializer.written_bands.set(band, true);
        self.materializer.active_band = None;
        proof {
            assert forall|b: nat|
                b < before.band_total() && (before.written()[b as int] || b
                    == band) implies #[trigger] self.materializer.complete(b) by {
                assert(before.complete(b));
                assert(self.materializer.contents() == before.contents());
            }
        }
        Ok(())
    }
}

impl<'a, T: Sample> BandWriter<T> for MaterializerBandWriter<'a, T> {
    open spec fn pixels(&self) -> nat {
        self.target().pixel_total()
    }

    open spec fn layers(&self) -> nat {
        self.target().layer_total()
    }

    open spec fn ready(&self) -> bool {
        self.target().wf() && self.target().active() == Some(self.band_index as nat)
    }

    open spec fn held(&self, pixel: int, dim: int) -> Option<T> {
        self.target().contents()[self.place(pixel, dim)]
    }

    fn fill_default(&mut self)
        ensures
            *final(final(self).materializer) == *final(old(self).materializer),
            final(self).band_index == old(self).band_index,
            band_filled(
                old(self).target(),
                final(self).target(),
                old(self).band_index as nat,
                T::zero(),
            ),
    {
        let ghost before = self.target();
        proof {
            before.lemma_band_fits();
        }
        let width: usize = if self.materializer.depth == 0 { 1 } else { self.materializer.depth };
        let len: usize = self.materializer.pixel_count * width;
        let zeros: Vec<T> = filled(T::default_value(), len);
        let wrapped: Vec<Option<T>> = wrap_values(zeros.as_slice());
        let pixel_count: usize = self.materializer.pixel_count;
        let depth: usize = self.materializer.depth;
        let band_count: usize = self.materializer.band_count;
        let layout: BandLayout = self.materializer.layout;
        let _ = copy_band_values_into_slice(
            self.materializer.out.as_mut_slice(),
            wrapped.as_slice(),
            pixel_count,
            depth,
            self.band_index,
            band_count,
            layout,
        );
        proof {
            let now = self.target();
            before.lemma_others_complete(&now, present(zeros@), self.band_index as nat);
            assert forall|p: int, d: int|
                0 <= p < self.pixels() && 0 <= d < self.layers() implies #[trigger] self.held(p, d)
                == Some(T::zero()) by {
                let v = (p * width + d) as nat;
                raster::lemma_sample_index(p as nat, width as nat, d as nat, pixel_count as nat);
                lemma_fundamental_div_mod_converse(v as int, width as int, p, d);
                law_slot_owned(
                    layout,
                    pixel_count as nat,
                    width as nat,
                    band_count as nat,
                    self.band_index as nat,
                    v,
                );
            }
        }
    }

    fn write(&mut self, pixel: usize, dim: usize, value: T)
        ensures
            *final(final(self).materializer) == *final(old(self).materializer),
            final(self).band_index == old(self).band_index,
            sample_written(
                old(self).target(),
                final(self).target(),
                old(self).band_index as nat,
                pixel as nat,
                dim as nat,
                value,
            ),
    {
        let ghost before = self.target();
        proof {
            self.lemma_place(pixel as int, dim as int);
        }
        let width: usize = if self.materializer.depth == 0 { 1 } else { self.materializer.depth };
        let place: usize = place_of(
            self.materializer.layout,
            self.materializer.pixel_count,
            width,
            self.materializer.band_count,
            self.band_index,
            pixel,
            dim,
        );
        self.materializer.out.set(place, Some(value));
        proof {
            let now = self.target();
            assert(now.contents() == before.contents().update(place as int, Some(value)));
            assert forall|b: nat|
                b < before.band_total() && before.written()[b as int] implies #[trigger] now.complete(
                b,
            ) by {
                assert(before.complete(b));
                assert forall|v: nat|
                    v < now.pixel_total() * now.layer_total() implies now.contents()[#[trigger] slot(
                    now.order(),
                    now.pixel_total(),
                    now.layer_total(),
                    now.band_total(),
                    b,
                    v,
                ) as int] is Some by {
                    law_slot_owned(
                        before.order(),
                        before.pixel_total(),
                        before.layer_total(),
                        before.band_total(),
                        b,
                        v,
                    );
                }
            }
            assert forall|p: int, d: int|
                0 <= p < self.pixels() && 0 <= d < self.layers() && !(p == pixel && d
                    == dim) implies #[trigger] self.held(p, d) == before.contents()[self.place(
                p,
                d,
            )] by {
                raster::lemma_band_index_bound(
                    before.order(),
                    before.pixel_total(),
                    before.layer_total(),
                    before.band_total(),
                    self.band_index as nat,
                    p as nat,
                    d as nat,
                );
                if self.place(p, d) == place {
                    raster::law_band_index_injective(
                        before.order(),
                        before.pixel_total(),
                        before.layer_total(),
                        before.band_total(),
                        self.band_index as nat,
                        p as nat,
                        d as nat,
                        self.band_index as nat,
                        pixel as nat,
                        dim as nat,
                    );
                }
            }
        }
    }

    fn read(&self, pixel: usize, dim: usize) -> T {
        proof {
            self.lemma_place(pixel as int, dim as int);
        }
        let width: usize = if self.materializer.depth == 0 { 1 } else { self.materializer.depth };
        let place: usize = place_of(
            self.materializer.layout,
            self.materializer.pixel_count,
            width,
            self.materializer.band_count,
            self.band_index,
            pixel,
            dim,
        );
        match self.materializer.out[place] {
            Some(value) => value,
            None => T::default_value(),
        }
    }

    fn depth(&self) -> usize {
        self.materializer.depth
    }

    fn set_write_order(&mut self, order: BandWriteOrder)
        ensures
            *final(final(self).materializer) == *final(old(self).materializer),
            final(self).band_index == old(self).band_index,
            final(self).target() == old(self).target(),
    {
    }
}

} // verus!
