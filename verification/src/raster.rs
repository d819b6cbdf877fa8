//! Raster views and the conversions between samples, bytes and doubles.

use crate::error::{Error, Fault, Result};
use crate::sample;
use crate::sample::Sample;
use crate::types::{BandLayout, DataType};
use vstd::prelude::*;

verus! {

/// The error for a pixel count beyond the address space.
pub open spec fn pixel_count_fault() -> Fault {
    Fault::SizeOverflow("pixel count"@)
}

/// What is wrong with the sample count of a raster, if anything.
pub open spec fn sample_count_fault(width: u32, height: u32, depth: u32) -> Option<Fault> {
    if depth == 0 {
        Some(Fault::InvalidArgument("depth must be greater than zero"@))
    } else if width as nat * height as nat > usize::MAX {
        Some(pixel_count_fault())
    } else if (width as nat * height as nat) * depth as nat > usize::MAX {
        Some(Fault::SizeOverflow("sample count"@))
    } else {
        None
    }
}

/// Computes `width * height` using checked, platform-portable arithmetic.
pub fn pixel_count_from_dims(width: u32, height: u32) -> (r: Result<usize>)
    ensures
        match r {
            Ok(count) => count == width as nat * height as nat,
            Err(e) => width as nat * height as nat > usize::MAX && e@ == pixel_count_fault(),
        },
{
    match (width as usize).checked_mul(height as usize) {
        Some(count) => Ok(count),
        None => Err(Error::SizeOverflow("pixel count")),
    }
}

/// Computes `width * height * depth` using checked arithmetic.
pub fn sample_count_from_dims(width: u32, height: u32, depth: u32) -> (r: Result<usize>)
    ensures
        match r {
            Ok(count) => sample_count_fault(width, height, depth) is None && count == (width as nat
                * height as nat) * depth as nat && width as nat * height as nat <= usize::MAX,
            Err(e) => sample_count_fault(width, height, depth) == Some(e@),
        },
{
    if depth == 0 {
        return Err(Error::InvalidArgument("depth must be greater than zero"));
    }
    let pixels: usize = pixel_count_from_dims(width, height)?;
    match pixels.checked_mul(depth as usize) {
        Some(count) => Ok(count),
        None => Err(Error::SizeOverflow("sample count")),
    }
}

/// Computes the pixel-interleaved sample index `pixel * depth + dim`.
pub fn sample_index(pixel: usize, depth: usize, dim: usize) -> (r: usize)
    requires
        pixel * depth + dim <= usize::MAX,
    ensures
        r == pixel * depth + dim,
{
    proof {
        assert(0 <= pixel * depth <= pixel * depth + dim) by (nonlinear_arith);
    }
    pixel * depth + dim
}

/// An index built from a pixel and a depth stays inside the raster.
pub proof fn lemma_sample_index(pixel: nat, depth: nat, dim: nat, pixels: nat)
    requires
        pixel < pixels,
        dim < depth,
    ensures
        pixel * depth + dim < pixels * depth,
        pixel * depth <= pixel * depth + dim,
{
    assert(pixel * depth + dim < pixels * depth) by (nonlinear_arith)
        requires
            pixel + 1 <= pixels,
            dim < depth,
    ;
}

/// Borrowed, dimension-checked view of one pixel-interleaved raster band.
#[derive(Debug, Copy, PartialEq)]
pub struct RasterView<'a, T: Sample> {
    width: u32,
    height: u32,
    depth: u32,
    data: &'a [T],
}

impl<'a, T: Sample> Clone for RasterView<'a, T> {
    fn clone(&self) -> (r: RasterView<'a, T>)
        ensures
            r == *self,
    {
        *self
    }
}

impl<'a, T: Sample> RasterView<'a, T> {
    pub closed spec fn columns(self) -> u32 {
        self.width
    }

    pub closed spec fn rows(self) -> u32 {
        self.height
    }

    pub closed spec fn layers(self) -> u32 {
        self.depth
    }

    /// The samples, pixel by pixel.
    pub closed spec fn samples(self) -> Seq<T> {
        self.data@
    }

    /// `width * height`.
    pub open spec fn pixels(self) -> nat {
        self.columns() as nat * self.rows() as nat
    }

    /// The depth is positive and the samples fill the dimensions.
    pub open spec fn wf(self) -> bool {
        &&& self.layers() > 0
        &&& self.samples().len() == self.pixels() * self.layers() as nat
        &&& self.pixels() <= usize::MAX
        &&& self.samples().len() <= usize::MAX
    }

    /// Creates a raster view.
    ///
    /// # Errors
    /// Returns an error when depth is zero, dimensions overflow, or `data` has
    /// a different length than `width * height * depth`.
    pub fn new(width: u32, height: u32, depth: u32, data: &'a [T]) -> (r: Result<
        RasterView<'a, T>,
    >)
        ensures
            match r {
                Ok(view) => {
                    &&& view.wf()
                    &&& view.columns() == width
                    &&& view.rows() == height
                    &&& view.layers() == depth
                    &&& view.samples() == data@
                },
                Err(e) => match sample_count_fault(width, height, depth) {
                    Some(fault) => e@ == fault,
                    None => data@.len() != (width as nat * height as nat) * depth as nat && e@
                        == Fault::InvalidArgument(
                        "raster slice length does not match its dimensions"@,
                    ),
                },
            },
    {
        let expected_len: usize = sample_count_from_dims(width, height, depth)?;
        if data.len() != expected_len {
            return Err(
                Error::InvalidArgument("raster slice length does not match its dimensions"),
            );
        }
        Ok(RasterView { width, height, depth, data })
    }

    /// Returns the raster width in pixels.
    pub fn width(self) -> (r: u32)
        ensures
            r == self.columns(),
    {
        self.width
    }

    /// Returns the raster height in pixels.
    pub fn height(self) -> (r: u32)
        ensures
            r == self.rows(),
    {
        self.height
    }

    /// Returns the number of samples per pixel.
    pub fn depth(self) -> (r: u32)
        ensures
            r == self.layers(),
    {
        self.depth
    }

    /// Returns the underlying pixel-interleaved sample slice.
    pub fn data(self) -> (r: &'a [T])
        ensures
            r@ == self.samples(),
    {
        self.data
    }

    /// Returns the encoded sample type.
    pub fn data_type(self) -> (r: DataType)
        ensures
            r == T::kind(),
    {
        T::data_type()
    }

    /// Returns `width * height` using checked arithmetic.
    pub fn pixel_count(self) -> (r: Result<usize>)
        ensures
            match r {
                Ok(count) => count == self.pixels(),
                Err(e) => self.pixels() > usize::MAX && e@ == pixel_count_fault(),
            },
    {
        pixel_count_from_dims(self.width, self.height)
    }

    /// Returns the total sample count using checked arithmetic.
    pub fn sample_count(self) -> (r: Result<usize>)
        ensures
            match r {
                Ok(count) => count == self.pixels() * self.layers() as nat && self.layers() > 0,
                Err(e) => sample_count_fault(self.columns(), self.rows(), self.layers()) == Some(
                    e@,
                ),
            },
    {
        sample_count_from_dims(self.width, self.height, self.depth)
    }

    /// Returns one sample by flat pixel index and depth index.
    pub fn sample(self, pixel: usize, dim: usize) -> (r: T)
        requires
            self.wf(),
            pixel < self.pixels(),
            dim < self.layers(),
        ensures
            r == self.samples()[pixel * self.layers() + dim],
    {
        proof {
            lemma_sample_index(pixel as nat, self.layers() as nat, dim as nat, self.pixels());
        }
        self.data[sample_index(pixel, self.depth as usize, dim)]
    }
}

/// Where a sample of a band set lies in its buffer.
pub open spec fn band_index(
    layout: BandLayout,
    pixels: nat,
    depth: nat,
    bands: nat,
    band: nat,
    pixel: nat,
    dim: nat,
) -> nat {
    match layout {
        BandLayout::Interleaved => pixel * (depth * bands) + band * depth + dim,
        BandLayout::Bsq => band * (pixels * depth) + pixel * depth + dim,
    }
}

/// The samples of a band set of this shape.
pub open spec fn band_total(pixels: nat, depth: nat, bands: nat) -> nat {
    (pixels * depth) * bands
}

/// Every sample of a band set lies inside its buffer.
pub proof fn lemma_band_index_bound(
    layout: BandLayout,
    pixels: nat,
    depth: nat,
    bands: nat,
    band: nat,
    pixel: nat,
    dim: nat,
)
    requires
        band < bands,
        pixel < pixels,
        dim < depth,
    ensures
        band_index(layout, pixels, depth, bands, band, pixel, dim) < band_total(
            pixels,
            depth,
            bands,
        ),
{
    assert(band * depth + dim < depth * bands) by (nonlinear_arith)
        requires
            band + 1 <= bands,
            dim < depth,
    ;
    assert(pixel * (depth * bands) + depth * bands <= pixels * (depth * bands)) by (nonlinear_arith)
        requires
            pixel + 1 <= pixels,
    ;
    assert(pixels * (depth * bands) == (pixels * depth) * bands) by (nonlinear_arith);
    assert(pixel * depth + dim < pixels * depth) by (nonlinear_arith)
        requires
            pixel + 1 <= pixels,
            dim < depth,
    ;
    assert(band * (pixels * depth) + pixels * depth <= (pixels * depth) * bands)
        by (nonlinear_arith)
        requires
            band + 1 <= bands,
    ;
}

proof fn lemma_mixed_radix(a: nat, b: nat, c: nat, d: nat, base: nat)
    requires
        b < base,
        d < base,
        a * base + b == c * base + d,
    ensures
        a == c,
        b == d,
{
    assert(a == c) by (nonlinear_arith)
        requires
            0 <= b,
            b < base,
            0 <= d,
            d < base,
            a * base + b == c * base + d,
    ;
}

/// No two samples of a band set share a place, in either layout.
pub proof fn law_band_index_injective(
    layout: BandLayout,
    pixels: nat,
    depth: nat,
    bands: nat,
    band1: nat,
    pixel1: nat,
    dim1: nat,
    band2: nat,
    pixel2: nat,
    dim2: nat,
)
    requires
        band1 < bands,
        pixel1 < pixels,
        dim1 < depth,
        band2 < bands,
        pixel2 < pixels,
        dim2 < depth,
        band_index(layout, pixels, depth, bands, band1, pixel1, dim1) == band_index(
            layout,
            pixels,
            depth,
            bands,
            band2,
            pixel2,
            dim2,
        ),
    ensures
        band1 == band2,
        pixel1 == pixel2,
        dim1 == dim2,
{
    match layout {
        BandLayout::Interleaved => {
            let b1 = band1 * depth + dim1;
            let b2 = band2 * depth + dim2;
            assert(b1 < depth * bands) by (nonlinear_arith)
                requires
                    b1 == band1 * depth + dim1,
                    band1 + 1 <= bands,
                    dim1 < depth,
            ;
            assert(b2 < depth * bands) by (nonlinear_arith)
                requires
                    b2 == band2 * depth + dim2,
                    band2 + 1 <= bands,
                    dim2 < depth,
            ;
            lemma_mixed_radix(pixel1, b1, pixel2, b2, depth * bands);
            lemma_mixed_radix(band1, dim1, band2, dim2, depth);
        },
        BandLayout::Bsq => {
            let p1 = pixel1 * depth + dim1;
            let p2 = pixel2 * depth + dim2;
            lemma_sample_index(pixel1, depth, dim1, pixels);
            lemma_sample_index(pixel2, depth, dim2, pixels);
            lemma_mixed_radix(band1, p1, band2, p2, pixels * depth);
            lemma_mixed_radix(pixel1, dim1, pixel2, dim2, depth);
        },
    }
}

/// Borrowed, dimension-checked view of a multi-band raster.
#[derive(Debug, Copy, PartialEq)]
pub struct BandSetView<'a, T: Sample> {
    width: u32,
    height: u32,
    depth: u32,
    band_count: usize,
    layout: BandLayout,
    data: &'a [T],
    pixel_count: usize,
    pixel_stride: usize,
    band_stride: usize,
}

impl<'a, T: Sample> Clone for BandSetView<'a, T> {
    fn clone(&self) -> (r: BandSetView<'a, T>)
        ensures
            r == *self,
    {
        *self
    }
}

impl<'a, T: Sample> BandSetView<'a, T> {
    pub closed spec fn columns(self) -> u32 {
        self.width
    }

    pub closed spec fn rows(self) -> u32 {
        self.height
    }

    pub closed spec fn layers(self) -> u32 {
        self.depth
    }

    pub closed spec fn bands(self) -> usize {
        self.band_count
    }

    pub closed spec fn order(self) -> BandLayout {
        self.layout
    }

    /// The samples in their layout.
    pub closed spec fn samples(self) -> Seq<T> {
        self.data@
    }

    /// `width * height`.
    pub open spec fn pixels(self) -> nat {
        self.columns() as nat * self.rows() as nat
    }

    /// The cached counts agree with the dimensions, which the samples fill.
    pub closed spec fn wf(self) -> bool {
        &&& self.depth > 0
        &&& self.band_count > 0
        &&& self.pixel_count == self.pixels()
        &&& self.pixel_stride == self.depth as nat * self.band_count as nat
        &&& self.band_stride == self.pixels() * self.depth as nat
        &&& self.data@.len() == band_total(
            self.pixels(),
            self.depth as nat,
            self.band_count as nat,
        )
        &&& self.data@.len() <= usize::MAX
    }

    /// The sample of one band at a pixel and a depth.
    pub open spec fn at(self, band: int, pixel: int, dim: int) -> T {
        self.samples()[band_index(
            self.order(),
            self.pixels(),
            self.layers() as nat,
            self.bands() as nat,
            band as nat,
            pixel as nat,
            dim as nat,
        ) as int]
    }

    /// What follows from a view being well formed.
    pub proof fn lemma_wf(self)
        requires
            self.wf(),
        ensures
            self.layers() > 0,
            self.bands() > 0,
            self.pixels() <= usize::MAX,
            self.pixels() * self.layers() as nat <= usize::MAX,
            self.samples().len() == band_total(
                self.pixels(),
                self.layers() as nat,
                self.bands() as nat,
            ),
            self.samples().len() <= usize::MAX,
    {
    }

    /// Creates a band-set view over interleaved or band-sequential samples.
    ///
    /// # Errors
    /// Returns an error for zero bands or depth, overflowing dimensions, or a
    /// sample slice whose length does not match the declared shape.
    pub fn new(
        width: u32,
        height: u32,
        depth: u32,
        band_count: usize,
        layout: BandLayout,
        data: &'a [T],
    ) -> (r: Result<BandSetView<'a, T>>)
        ensures
            match r {
                Ok(view) => {
                    &&& view.wf()
                    &&& view.columns() == width
                    &&& view.rows() == height
                    &&& view.layers() == depth
                    &&& view.bands() == band_count
                    &&& view.order() == layout
                    &&& view.samples() == data@
                },
                Err(e) => e@ == ({
                    let samples = (width as nat * height as nat) * depth as nat;
                    if band_count == 0 {
                        Fault::InvalidArgument("band_count must be greater than zero"@)
                    } else if let Some(fault) = sample_count_fault(width, height, depth) {
                        fault
                    } else if depth as nat * band_count as nat > usize::MAX {
                        Fault::SizeOverflow("interleaved pixel stride"@)
                    } else if samples * band_count as nat > usize::MAX {
                        Fault::SizeOverflow("band set value count"@)
                    } else {
                        Fault::InvalidArgument(
                            "band set slice length does not match its dimensions"@,
                        )
                    }
                }) && !(sample_count_fault(width, height, depth) is None && band_count > 0
                    && depth as nat * band_count as nat <= usize::MAX && data@.len() == ((
                width as nat * height as nat) * depth as nat) * band_count as nat),
            },
    {
        if band_count == 0 {
            return Err(Error::InvalidArgument("band_count must be greater than zero"));
        }
        let band_sample_count: usize = sample_count_from_dims(width, height, depth)?;
        let pixel_count: usize = pixel_count_from_dims(width, height)?;
        let pixel_stride: usize = match (depth as usize).checked_mul(band_count) {
            Some(stride) => stride,
            None => {
                return Err(Error::SizeOverflow("interleaved pixel stride"));
            },
        };
        let data_len: usize = data.len();
        let expected_len: usize = match band_sample_count.checked_mul(band_count) {
            Some(len) => len,
            None => {
                return Err(Error::SizeOverflow("band set value count"));
            },
        };
        if data_len != expected_len {
            return Err(
                Error::InvalidArgument("band set slice length does not match its dimensions"),
            );
        }
        Ok(
            BandSetView {
                width,
                height,
                depth,
                band_count,
                layout,
                data,
                pixel_count,
                pixel_stride,
                band_stride: band_sample_count,
            },
        )
    }

    /// Returns the raster width in pixels.
    pub fn width(self) -> (r: u32)
        ensures
            r == self.columns(),
    {
        self.width
    }

    /// Returns the raster height in pixels.
    pub fn height(self) -> (r: u32)
        ensures
            r == self.rows(),
    {
        self.height
    }

    /// Returns the number of samples per pixel in each band.
    pub fn depth(self) -> (r: u32)
        ensures
            r == self.layers(),
    {
        self.depth
    }

    /// Returns the number of bands.
    pub fn band_count(self) -> (r: usize)
        ensures
            r == self.bands(),
    {
        self.band_count
    }

    /// Returns the memory layout of the supplied samples.
    pub fn layout(self) -> (r: BandLayout)
        ensures
            r == self.order(),
    {
        self.layout
    }

    /// Returns the underlying sample slice.
    pub fn data(self) -> (r: &'a [T])
        ensures
            r@ == self.samples(),
    {
        self.data
    }

    /// Returns the encoded sample type.
    pub fn data_type(self) -> (r: DataType)
        ensures
            r == T::kind(),
    {
        T::data_type()
    }

    /// Returns the checked pixel count cached at construction.
    pub fn pixel_count(self) -> (r: Result<usize>)
        requires
            self.wf(),
        ensures
            r matches Ok(count) && count == self.pixels(),
    {
        Ok(self.pixel_count)
    }

    /// Returns the sample count of one band.
    pub fn band_sample_count(self) -> (r: Result<usize>)
        requires
            self.wf(),
        ensures
            r matches Ok(count) && count == self.pixels() * self.layers() as nat,
    {
        Ok(self.band_stride)
    }

    /// Returns the total number of samples across every band.
    pub fn value_count(self) -> (r: Result<usize>)
        requires
            self.wf(),
        ensures
            r matches Ok(count) && count == self.samples().len(),
    {
        Ok(self.data.len())
    }

    /// Returns one sample by band, flat pixel, and depth index.
    pub fn sample(self, band: usize, pixel: usize, dim: usize) -> (r: T)
        requires
            self.wf(),
            band < self.bands(),
            pixel < self.pixels(),
            dim < self.layers(),
        ensures
            r == self.at(band as int, pixel as int, dim as int),
    {
        let depth: usize = self.depth as usize;
        proof {
            lemma_band_index_bound(
                self.order(),
                self.pixels(),
                depth as nat,
                self.bands() as nat,
                band as nat,
                pixel as nat,
                dim as nat,
            );
            assert(0 <= pixel * self.pixel_stride && 0 <= band * depth && 0 <= band
                * self.band_stride && 0 <= pixel * depth) by (nonlinear_arith)
                requires
                    pixel >= 0,
                    band >= 0,
                    depth >= 0,
                    self.pixel_stride >= 0,
                    self.band_stride >= 0,
            ;
        }
        let index: usize = match self.layout {
            BandLayout::Interleaved => pixel * self.pixel_stride + band * depth + dim,
            BandLayout::Bsq => band * self.band_stride + pixel * depth + dim,
        };
        self.data[index]
    }
}

/// The number of nonzero entries.
pub open spec fn count_valid(mask: Seq<u8>) -> nat
    decreases mask.len(),
{
    if mask.len() == 0 {
        0
    } else {
        count_valid(mask.drop_last()) + if mask.last() != 0 {
            1nat
        } else {
            0nat
        }
    }
}

pub proof fn lemma_count_valid_bound(mask: Seq<u8>)
    ensures
        count_valid(mask) <= mask.len(),
    decreases mask.len(),
{
    if mask.len() > 0 {
        lemma_count_valid_bound(mask.drop_last());
    }
}

/// Counts nonzero mask entries.
pub fn valid_entries(mask: &[u8]) -> (r: usize)
    ensures
        r == count_valid(mask@),
{
    let mut count: usize = 0;
    let mut i: usize = 0;
    while i < mask.len()
        invariant
            i <= mask@.len(),
            count <= i,
            count == count_valid(mask@.subrange(0, i as int)),
        decreases mask@.len() - i,
    {
        proof {
            assert(mask@.subrange(0, i + 1).drop_last() =~= mask@.subrange(0, i as int));
        }
        if mask[i] != 0 {
            count += 1;
        }
        i += 1;
    }
    proof {
        assert(mask@.subrange(0, mask@.len() as int) =~= mask@);
    }
    count
}

/// Borrowed, dimension-checked validity mask; zero is invalid and nonzero is valid.
#[derive(Debug, Clone, Copy, PartialEq, Eq)]
pub struct MaskView<'a> {
    width: u32,
    height: u32,
    data: &'a [u8],
}

impl<'a> MaskView<'a> {
    pub closed spec fn columns(self) -> u32 {
        self.width
    }

    pub closed spec fn rows(self) -> u32 {
        self.height
    }

    /// One byte per pixel.
    pub closed spec fn entries(self) -> Seq<u8> {
        self.data@
    }

    /// The entries fill the dimensions.
    pub open spec fn wf(self) -> bool {
        self.entries().len() == self.columns() as nat * self.rows() as nat
    }

    /// Creates a validity-mask view.
    ///
    /// # Errors
    /// Returns an error when dimensions overflow or the mask length differs
    /// from `width * height`.
    pub fn new(width: u32, height: u32, data: &'a [u8]) -> (r: Result<MaskView<'a>>)
        ensures
            match r {
                Ok(view) => {
                    &&& view.wf()
                    &&& view.columns() == width
                    &&& view.rows() == height
                    &&& view.entries() == data@
                },
                Err(e) => if width as nat * height as nat > usize::MAX {
                    e@ == pixel_count_fault()
                } else {
                    data@.len() != width as nat * height as nat && e@ == Fault::InvalidArgument(
                        "mask slice length does not match its dimensions"@,
                    )
                },
            },
    {
        let expected_len: usize = pixel_count_from_dims(width, height)?;
        if data.len() != expected_len {
            return Err(Error::InvalidArgument("mask slice length does not match its dimensions"));
        }
        Ok(MaskView { width, height, data })
    }

    /// Returns the mask width in pixels.
    pub fn width(self) -> (r: u32)
        ensures
            r == self.columns(),
    {
        self.width
    }

    /// Returns the mask height in pixels.
    pub fn height(self) -> (r: u32)
        ensures
            r == self.rows(),
    {
        self.height
    }

    /// Returns the underlying byte mask.
    pub fn data(self) -> (r: &'a [u8])
        ensures
            r@ == self.entries(),
    {
        self.data
    }

    /// Returns the checked number of mask pixels.
    pub fn pixel_count(self) -> (r: Result<usize>)
        ensures
            match r {
                Ok(count) => count == self.columns() as nat * self.rows() as nat,
                Err(e) => self.columns() as nat * self.rows() as nat > usize::MAX && e@
                    == pixel_count_fault(),
            },
    {
        pixel_count_from_dims(self.width, self.height)
    }

    /// Counts nonzero, valid mask entries.
    pub fn valid_count(self) -> (r: usize)
        ensures
            r == count_valid(self.entries()),
    {
        valid_entries(self.data)
    }
}

} // verus!
