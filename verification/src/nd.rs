//! Handing decoded samples out as `ndarray` arrays.

use crate::bands;
use crate::bands::{
    decode_band_set_vec, decode_band_set_vec_with_mask, inspect_band_masks, merge_band_masks,
    BandElement, DecodedBandSet,
};
use crate::error::{Error, Fault, Result};
use crate::float::{Double, Single};
use crate::reader;
use crate::reader::{
    decode, decode_to_f64, decode_to_f64_with_mask, decode_with_mask, ensure_single_blob_consumed,
    inspect_first_mask_with_info, Decoded, DecodedF64,
};
use crate::types;
use crate::types::{
    copy_optional_vec, copy_vec, BandLayout, BandSetInfo, BlobFacts, BlobInfo, PixelData, PixelSeq,
};
use vstd::prelude::*;
use vstd::string::StringExecFns;

verus! {

/// An array of any number of axes, held by the `ndarray` crate.
#[verifier::external_body]
#[verifier::reject_recursive_types(T)]
pub struct NdArray<T> {
    /// The array itself.
    pub inner: ndarray::ArrayD<T>,
}

/// The product of some axis lengths.
pub open spec fn product(shape: Seq<usize>) -> nat
    decreases shape.len(),
{
    if shape.len() == 0 {
        1
    } else {
        product(shape.drop_last()) * shape.last() as nat
    }
}

/// The product of the axis lengths that are not zero.
pub open spec fn nonzero_product(shape: Seq<usize>) -> nat
    decreases shape.len(),
{
    if shape.len() == 0 {
        1
    } else if shape.last() == 0 {
        nonzero_product(shape.drop_last())
    } else {
        nonzero_product(shape.drop_last()) * shape.last() as nat
    }
}

/// Why `len` samples do not make an array of a shape, if they do not.
pub open spec fn shape_fault(shape: Seq<usize>, len: nat) -> Option<Seq<char>> {
    if nonzero_product(shape) > isize::MAX {
        Some("ShapeError/Overflow: arithmetic overflow"@)
    } else if product(shape) > len {
        Some("ShapeError/OutOfBounds: out of bounds indexing"@)
    } else if product(shape) < len {
        Some("ShapeError/IncompatibleShape: incompatible shapes"@)
    } else {
        None
    }
}

/// Sample types that arrays can hold.
pub trait NdArrayElement: BandElement {
    /// The axis lengths of an array.
    spec fn shape_of(array: NdArray<Self>) -> Seq<usize>;

    /// The samples of an array, the last axis varying fastest.
    spec fn values_of(array: NdArray<Self>) -> Seq<Self>;

    /// Makes an array of a shape from its samples.
    fn from_shape_vec(shape: &[usize], values: Vec<Self>) -> (r: std::result::Result<
        NdArray<Self>,
        String,
    >)
        ensures
            match r {
                Ok(array) => shape_fault(shape@, values@.len()) is None && Self::shape_of(array)
                    == shape@ && Self::values_of(array) == values@,
                Err(reason) => shape_fault(shape@, values@.len()) == Some(reason@),
            },
    ;
}

/// The axis lengths that an array of `i8` samples holds.
pub uninterp spec fn shape_i8(array: NdArray<i8>) -> Seq<usize>;

/// The samples that an array of `i8` samples holds, the last axis varying fastest.
pub uninterp spec fn values_i8(array: NdArray<i8>) -> Seq<i8>;

/// Calls `ndarray::ArrayBase::from_shape_vec` with a dynamic shape in standard order: the array
/// has the given axis lengths and keeps the samples in their order. It fails, with the text of
/// its `ShapeError`, when the product of the nonzero axis lengths exceeds `isize::MAX` and when
/// the product of the axis lengths is not the number of samples.
#[verifier::external_body]
fn array_i8(shape: &[usize], values: Vec<i8>) -> (r: std::result::Result<NdArray<i8>, String>)
    ensures
        match r {
            Ok(array) => shape_fault(shape@, values@.len()) is None && shape_i8(array) == shape@
                && values_i8(array) == values@,
            Err(reason) => shape_fault(shape@, values@.len()) == Some(reason@),
        },
{
    match ndarray::ArrayD::from_shape_vec(ndarray::IxDyn(shape), values) {
        Ok(inner) => Ok(NdArray { inner }),
        Err(e) => Err(e.to_string()),
    }
}

impl NdArrayElement for i8 {
    open spec fn shape_of(array: NdArray<i8>) -> Seq<usize> {
        shape_i8(array)
    }

    open spec fn values_of(array: NdArray<i8>) -> Seq<i8> {
        values_i8(array)
    }

    fn from_shape_vec(shape: &[usize], values: Vec<i8>) -> std::result::Result<
        NdArray<i8>,
        String,
    > {
        array_i8(shape, values)
    }
}

/// The axis lengths that an array of `u8` samples holds.
pub uninterp spec fn shape_u8(array: NdArray<u8>) -> Seq<usize>;

/// The samples that an array of `u8` samples holds, the last axis varying fastest.
pub uninterp spec fn values_u8(array: NdArray<u8>) -> Seq<u8>;

/// Calls `ndarray::ArrayBase::from_shape_vec` with a dynamic shape in standard order: the array
/// has the given axis lengths and keeps the samples in their order. It fails, with the text of
/// its `ShapeError`, when the product of the nonzero axis lengths exceeds `isize::MAX` and when
/// the product of the axis lengths is not the number of samples.
#[verifier::external_body]
fn array_u8(shape: &[usize], values: Vec<u8>) -> (r: std::result::Result<NdArray<u8>, String>)
    ensures
        match r {
            Ok(array) => shape_fault(shape@, values@.len()) is None && shape_u8(array) == shape@
                && values_u8(array) == values@,
            Err(reason) => shape_fault(shape@, values@.len()) == Some(reason@),
        },
{
    match ndarray::ArrayD::from_shape_vec(ndarray::IxDyn(shape), values) {
        Ok(inner) => Ok(NdArray { inner }),
        Err(e) => Err(e.to_string()),
    }
}

impl NdArrayElement for u8 {
    open spec fn shape_of(array: NdArray<u8>) -> Seq<usize> {
        shape_u8(array)
    }

    open spec fn values_of(array: NdArray<u8>) -> Seq<u8> {
        values_u8(array)
    }

    fn from_shape_vec(shape: &[usize], values: Vec<u8>) -> std::result::Result<
        NdArray<u8>,
        String,
    > {
        array_u8(shape, values)
    }
}

/// The axis lengths that an array of `i16` samples holds.
pub uninterp spec fn shape_i16(array: NdArray<i16>) -> Seq<usize>;

/// The samples that an array of `i16` samples holds, the last axis varying fastest.
pub uninterp spec fn values_i16(array: NdArray<i16>) -> Seq<i16>;

/// Calls `ndarray::ArrayBase::from_shape_vec` with a dynamic shape in standard order: the array
/// has the given axis lengths and keeps the samples in their order. It fails, with the text of
/// its `ShapeError`, when the product of the nonzero axis lengths exceeds `isize::MAX` and when
/// the product of the axis lengths is not the number of samples.
#[verifier::external_body]
fn array_i16(shape: &[usize], values: Vec<i16>) -> (r: std::result::Result<NdArray<i16>, String>)
    ensures
        match r {
            Ok(array) => shape_fault(shape@, values@.len()) is None && shape_i16(array) == shape@
                && values_i16(array) == values@,
            Err(reason) => shape_fault(shape@, values@.len()) == Some(reason@),
        },
{
    match ndarray::ArrayD::from_shape_vec(ndarray::IxDyn(shape), values) {
        Ok(inner) => Ok(NdArray { inner }),
        Err(e) => Err(e.to_string()),
    }
}

impl NdArrayElement for i16 {
    open spec fn shape_of(array: NdArray<i16>) -> Seq<usize> {
        shape_i16(array)
    }

    open spec fn values_of(array: NdArray<i16>) -> Seq<i16> {
        values_i16(array)
    }

    fn from_shape_vec(shape: &[usize], values: Vec<i16>) -> std::result::Result<
        NdArray<i16>,
        String,
    > {
        array_i16(shape, values)
    }
}

/// The axis lengths that an array of `u16` samples holds.
pub uninterp spec fn shape_u16(array: NdArray<u16>) -> Seq<usize>;

/// The samples that an array of `u16` samples holds, the last axis varying fastest.
pub uninterp spec fn values_u16(array: NdArray<u16>) -> Seq<u16>;

/// Calls `ndarray::ArrayBase::from_shape_vec` with a dynamic shape in standard order: the array
/// has the given axis lengths and keeps the samples in their order. It fails, with the text of
/// its `ShapeError`, when the product of the nonzero axis lengths exceeds `isize::MAX` and when
/// the product of the axis lengths is not the number of samples.
#[verifier::external_body]
fn array_u16(shape: &[usize], values: Vec<u16>) -> (r: std::result::Result<NdArray<u16>, String>)
    ensures
        match r {
            Ok(array) => shape_fault(shape@, values@.len()) is None && shape_u16(array) == shape@
                && values_u16(array) == values@,
            Err(reason) => shape_fault(shape@, values@.len()) == Some(reason@),
        },
{
    match ndarray::ArrayD::from_shape_vec(ndarray::IxDyn(shape), values) {
        Ok(inner) => Ok(NdArray { inner }),
        Err(e) => Err(e.to_string()),
    }
}

impl NdArrayElement for u16 {
    open spec fn shape_of(array: NdArray<u16>) -> Seq<usize> {
        shape_u16(array)
    }

    open spec fn values_of(array: NdArray<u16>) -> Seq<u16> {
        values_u16(array)
    }

    fn from_shape_vec(shape: &[usize], values: Vec<u16>) -> std::result::Result<
        NdArray<u16>,
        String,
    > {
        array_u16(shape, values)
    }
}

/// The axis lengths that an array of `i32` samples holds.
pub uninterp spec fn shape_i32(array: NdArray<i32>) -> Seq<usize>;

/// The samples that an array of `i32` samples holds, the last axis varying fastest.
pub uninterp spec fn values_i32(array: NdArray<i32>) -> Seq<i32>;

/// Calls `ndarray::ArrayBase::from_shape_vec` with a dynamic shape in standard order: the array
/// has the given axis lengths and keeps the samples in their order. It fails, with the text of
/// its `ShapeError`, when the product of the nonzero axis lengths exceeds `isize::MAX` and when
/// the product of the axis lengths is not the number of samples.
#[verifier::external_body]
fn array_i32(shape: &[usize], values: Vec<i32>) -> (r: std::result::Result<NdArray<i32>, String>)
    ensures
        match r {
            Ok(array) => shape_fault(shape@, values@.len()) is None && shape_i32(array) == shape@
                && values_i32(array) == values@,
            Err(reason) => shape_fault(shape@, values@.len()) == Some(reason@),
        },
{
    match ndarray::ArrayD::from_shape_vec(ndarray::IxDyn(shape), values) {
        Ok(inner) => Ok(NdArray { inner }),
        Err(e) => Err(e.to_string()),
    }
}

impl NdArrayElement for i32 {
    open spec fn shape_of(array: NdArray<i32>) -> Seq<usize> {
        shape_i32(array)
    }

    open spec fn values_of(array: NdArray<i32>) -> Seq<i32> {
        values_i32(array)
    }

    fn from_shape_vec(shape: &[usize], values: Vec<i32>) -> std::result::Result<
        NdArray<i32>,
        String,
    > {
        array_i32(shape, values)
    }
}

/// The axis lengths that an array of `u32` samples holds.
pub uninterp spec fn shape_u32(array: NdArray<u32>) -> Seq<usize>;

/// The samples that an array of `u32` samples holds, the last axis varying fastest.
pub uninterp spec fn values_u32(array: NdArray<u32>) -> Seq<u32>;

/// Calls `ndarray::ArrayBase::from_shape_vec` with a dynamic shape in standard order: the array
/// has the given axis lengths and keeps the samples in their order. It fails, with the text of
/// its `ShapeError`, when the product of the nonzero axis lengths exceeds `isize::MAX` and when
/// the product of the axis lengths is not the number of samples.
#[verifier::external_body]
fn array_u32(shape: &[usize], values: Vec<u32>) -> (r: std::result::Result<NdArray<u32>, String>)
    ensures
        match r {
            Ok(array) => shape_fault(shape@, values@.len()) is None && shape_u32(array) == shape@
                && values_u32(array) == values@,
            Err(reason) => shape_fault(shape@, values@.len()) == Some(reason@),
        },
{
    match ndarray::ArrayD::from_shape_vec(ndarray::IxDyn(shape), values) {
        Ok(inner) => Ok(NdArray { inner }),
        Err(e) => Err(e.to_string()),
    }
}

impl NdArrayElement for u32 {
    open spec fn shape_of(array: NdArray<u32>) -> Seq<usize> {
        shape_u32(array)
    }

    open spec fn values_of(array: NdArray<u32>) -> Seq<u32> {
        values_u32(array)
    }

    fn from_shape_vec(shape: &[usize], values: Vec<u32>) -> std::result::Result<
        NdArray<u32>,
        String,
    > {
        array_u32(shape, values)
    }
}

/// The axis lengths that an array of `f32` samples holds.
pub uninterp spec fn shape_f32(array: NdArray<Single>) -> Seq<usize>;

/// The samples that an array of `f32` samples holds, the last axis varying fastest.
pub uninterp spec fn values_f32(array: NdArray<Single>) -> Seq<Single>;

/// Calls `ndarray::ArrayBase::from_shape_vec` with a dynamic shape in standard order: the array
/// has the given axis lengths and keeps the samples in their order. It fails, with the text of
/// its `ShapeError`, when the product of the nonzero axis lengths exceeds `isize::MAX` and when
/// the product of the axis lengths is not the number of samples.
#[verifier::external_body]
fn array_f32(shape: &[usize], values: Vec<Single>) -> (r: std::result::Result<NdArray<Single>, String>)
    ensures
        match r {
            Ok(array) => shape_fault(shape@, values@.len()) is None && shape_f32(array) == shape@
                && values_f32(array) == values@,
            Err(reason) => shape_fault(shape@, values@.len()) == Some(reason@),
        },
{
    match ndarray::ArrayD::from_shape_vec(ndarray::IxDyn(shape), values) {
        Ok(inner) => Ok(NdArray { inner }),
        Err(e) => Err(e.to_string()),
    }
}

impl NdArrayElement for Single {
    open spec fn shape_of(array: NdArray<Single>) -> Seq<usize> {
        shape_f32(array)
    }

    open spec fn values_of(array: NdArray<Single>) -> Seq<Single> {
        values_f32(array)
    }

    fn from_shape_vec(shape: &[usize], values: Vec<Single>) -> std::result::Result<
        NdArray<Single>,
        String,
    > {
        array_f32(shape, values)
    }
}

/// The axis lengths that an array of `f64` samples holds.
pub uninterp spec fn shape_f64(array: NdArray<Double>) -> Seq<usize>;

/// The samples that an array of `f64` samples holds, the last axis varying fastest.
pub uninterp spec fn values_f64(array: NdArray<Double>) -> Seq<Double>;

/// Calls `ndarray::ArrayBase::from_shape_vec` with a dynamic shape in standard order: the array
/// has the given axis lengths and keeps the samples in their order. It fails, with the text of
/// its `ShapeError`, when the product of the nonzero axis lengths exceeds `isize::MAX` and when
/// the product of the axis lengths is not the number of samples.
#[verifier::external_body]
fn array_f64(shape: &[usize], values: Vec<Double>) -> (r: std::result::Result<NdArray<Double>, String>)
    ensures
        match r {
            Ok(array) => shape_fault(shape@, values@.len()) is None && shape_f64(array) == shape@
                && values_f64(array) == values@,
            Err(reason) => shape_fault(shape@, values@.len()) == Some(reason@),
        },
{
    match ndarray::ArrayD::from_shape_vec(ndarray::IxDyn(shape), values) {
        Ok(inner) => Ok(NdArray { inner }),
        Err(e) => Err(e.to_string()),
    }
}

impl NdArrayElement for Double {
    open spec fn shape_of(array: NdArray<Double>) -> Seq<usize> {
        shape_f64(array)
    }

    open spec fn values_of(array: NdArray<Double>) -> Seq<Double> {
        values_f64(array)
    }

    fn from_shape_vec(shape: &[usize], values: Vec<Double>) -> std::result::Result<
        NdArray<Double>,
        String,
    > {
        array_f64(shape, values)
    }
}

/// The axis lengths and samples of an array.
pub open spec fn held<T: NdArrayElement>(array: NdArray<T>) -> (Seq<usize>, Seq<T>) {
    (T::shape_of(array), T::values_of(array))
}

/// The outcome of making an array.
pub open spec fn built<T>(shape: Seq<usize>, values: Seq<T>, before: Seq<char>) ->
    std::result::Result<(Seq<usize>, Seq<T>), Fault> {
    match shape_fault(shape, values.len()) {
        Some(reason) => Err(Fault::InvalidBlob(before + reason)),
        None => Ok((shape, values)),
    }
}

/// Whether a result is an outcome.
pub open spec fn yields<T: NdArrayElement>(
    r: Result<NdArray<T>>,
    outcome: std::result::Result<(Seq<usize>, Seq<T>), Fault>,
) -> bool {
    match r {
        Ok(array) => outcome == Ok::<_, Fault>(held(array)),
        Err(e) => outcome == Err::<(Seq<usize>, Seq<T>), _>(e@),
    }
}

/// Whether an optional result is an outcome.
pub open spec fn yields_optional(
    r: Result<Option<NdArray<u8>>>,
    outcome: std::result::Result<Option<(Seq<usize>, Seq<u8>)>, Fault>,
) -> bool {
    match r {
        Ok(Some(array)) => outcome == Ok::<_, Fault>(Some(held(array))),
        Ok(None) => outcome == Ok::<Option<(Seq<usize>, Seq<u8>)>, Fault>(None),
        Err(e) => outcome == Err::<Option<(Seq<usize>, Seq<u8>)>, _>(e@),
    }
}

/// Makes an array.
fn build<T: NdArrayElement>(shape: &Vec<usize>, values: Vec<T>, before: &str) -> (r: Result<
    NdArray<T>,
>)
    ensures
        yields(r, built(shape@, values@, before@)),
{
    match T::from_shape_vec(shape.as_slice(), values) {
        Ok(array) => Ok(array),
        Err(reason) => {
            let mut message: String = before.to_owned();
            message.append(reason.as_str());
            Err(Error::InvalidBlob(message))
        },
    }
}

/// The outcome of making an array of native samples.
pub open spec fn pixels_built<T: NdArrayElement>(facts: BlobFacts, pixels: PixelSeq) ->
    std::result::Result<(Seq<usize>, Seq<T>), Fault> {
    match T::accepted(pixels) {
        None => Err(bands::element_fault(pixels.kind(), T::kind())),
        Some(values) => built(
            facts.shape(),
            values,
            "failed to build ndarray from decoded pixels: "@,
        ),
    }
}

/// The outcome of making an array of an optional mask.
pub open spec fn mask_built(shape: Seq<usize>, mask: Option<Seq<u8>>, before: Seq<char>) ->
    std::result::Result<Option<(Seq<usize>, Seq<u8>)>, Fault> {
    match mask {
        None => Ok(None),
        Some(entries) => match built(shape, entries, before) {
            Ok(array) => Ok(Some(array)),
            Err(e) => Err(e),
        },
    }
}

/// The axis lengths of a mask.
pub open spec fn mask_shape(facts: BlobFacts) -> Seq<usize> {
    seq![facts.height as usize, facts.width as usize]
}

fn build_pixels<T: NdArrayElement>(info: &BlobInfo, pixels: PixelData) -> (r: Result<NdArray<T>>)
    ensures
        yields(r, pixels_built::<T>(info@, pixels@)),
{
    let shape: Vec<usize> = info.ndarray_shape();
    let values: Vec<T> = T::from_pixel_data(pixels)?;
    build(&shape, values, "failed to build ndarray from decoded pixels: ")
}

fn build_mask(shape: &Vec<usize>, mask: Option<Vec<u8>>, before: &str) -> (r: Result<
    Option<NdArray<u8>>,
>)
    ensures
        yields_optional(r, mask_built(shape@, types::optional_seq(mask), before@)),
{
    match mask {
        None => Ok(None),
        Some(entries) => {
            let array: NdArray<u8> = build(shape, entries, before)?;
            Ok(Some(array))
        },
    }
}

impl Decoded {
    /// Copies the pixels into an array.
    pub fn to_ndarray<T: NdArrayElement>(&self) -> (r: Result<NdArray<T>>)
        ensures
            yields(r, pixels_built::<T>(self.info@, self.pixels@)),
    {
        build_pixels(&self.info, self.pixels.clone())
    }

    /// Moves the pixels into an array.
    pub fn into_ndarray<T: NdArrayElement>(self) -> (r: Result<NdArray<T>>)
        ensures
            yields(r, pixels_built::<T>(self.info@, self.pixels@)),
    {
        build_pixels(&self.info, self.pixels)
    }

    /// Moves the optional mask into an array.
    pub fn into_mask_ndarray(self) -> (r: Result<Option<NdArray<u8>>>)
        ensures
            yields_optional(
                r,
                mask_built(
                    mask_shape(self.info@),
                    types::optional_seq(self.mask),
                    "failed to build ndarray from decoded mask: "@,
                ),
            ),
    {
        let shape: Vec<usize> = self.info.mask_ndarray_shape();
        build_mask(&shape, self.mask, "failed to build ndarray from decoded mask: ")
    }

    /// Copies the optional mask into an array.
    pub fn mask_ndarray(&self) -> (r: Result<Option<NdArray<u8>>>)
        ensures
            yields_optional(
                r,
                mask_built(
                    mask_shape(self.info@),
                    types::optional_seq(self.mask),
                    "failed to build ndarray from decoded mask: "@,
                ),
            ),
    {
        let shape: Vec<usize> = self.info.mask_ndarray_shape();
        build_mask(
            &shape,
            copy_optional_vec(&self.mask),
            "failed to build ndarray from decoded mask: ",
        )
    }
}

impl DecodedF64 {
    /// Copies the promoted pixels into an array.
    pub fn to_ndarray(&self) -> (r: Result<NdArray<Double>>)
        ensures
            yields(
                r,
                built(
                    self.info@.shape(),
                    self.pixels@,
                    "failed to build ndarray from decoded pixels: "@,
                ),
            ),
    {
        let shape: Vec<usize> = self.info.ndarray_shape();
        build(
            &shape,
            copy_vec(self.pixels.as_slice()),
            "failed to build ndarray from decoded pixels: ",
        )
    }

    /// Moves the promoted pixels into an array.
    pub fn into_ndarray(self) -> (r: Result<NdArray<Double>>)
        ensures
            yields(
                r,
                built(
                    self.info@.shape(),
                    self.pixels@,
                    "failed to build ndarray from decoded pixels: "@,
                ),
            ),
    {
        let shape: Vec<usize> = self.info.ndarray_shape();
        build(&shape, self.pixels, "failed to build ndarray from decoded pixels: ")
    }

    /// Moves the optional mask into an array.
    pub fn into_mask_ndarray(self) -> (r: Result<Option<NdArray<u8>>>)
        ensures
            yields_optional(
                r,
                mask_built(
                    mask_shape(self.info@),
                    types::optional_seq(self.mask),
                    "failed to build ndarray from decoded mask: "@,
                ),
            ),
    {
        let shape: Vec<usize> = self.info.mask_ndarray_shape();
        build_mask(&shape, self.mask, "failed to build ndarray from decoded mask: ")
    }

    /// Copies the optional mask into an array.
    pub fn mask_ndarray(&self) -> (r: Result<Option<NdArray<u8>>>)
        ensures
            yields_optional(
                r,
                mask_built(
                    mask_shape(self.info@),
                    types::optional_seq(self.mask),
                    "failed to build ndarray from decoded mask: "@,
                ),
            ),
    {
        let shape: Vec<usize> = self.info.mask_ndarray_shape();
        build_mask(
            &shape,
            copy_optional_vec(&self.mask),
            "failed to build ndarray from decoded mask: ",
        )
    }
}

/// The outcome of making an array of all bands.
pub open spec fn set_built<T: NdArrayElement>(
    infos: Seq<BlobFacts>,
    pixels: Seq<PixelSeq>,
    layout: BandLayout,
) -> std::result::Result<(Seq<usize>, Seq<T>), Fault> {
    match bands::set_materialized::<T>(infos, pixels, layout) {
        Err(e) => Err(e),
        Ok(values) => built(
            types::band_set_shape(infos, layout),
            values,
            "failed to build ndarray from decoded band set: "@,
        ),
    }
}

/// What an array of band masks is made from, for the message of a failure.
pub open spec fn set_mask_label(infos: Seq<BlobFacts>) -> Seq<char> {
    if infos.len() == 1 {
        "failed to build ndarray from decoded mask: "@
    } else {
        "failed to build ndarray from decoded band mask: "@
    }
}

/// The outcome of making an array of all masks.
pub open spec fn set_mask_built(infos: Seq<BlobFacts>, masks: Seq<Option<Seq<u8>>>) ->
    std::result::Result<Option<(Seq<usize>, Seq<u8>)>, Fault> {
    match bands::set_mask(infos, masks) {
        Err(e) => Err(e),
        Ok(merged) => mask_built(types::band_set_mask_shape(infos), merged, set_mask_label(infos)),
    }
}

fn build_band_masks(info: &BandSetInfo, masks: &Vec<Option<Vec<u8>>>) -> (r: Result<
    Option<NdArray<u8>>,
>)
    requires
        info.wf(),
    ensures
        yields_optional(r, set_mask_built(info@, bands::optional_nested(masks@))),
{
    let merged: Option<Vec<u8>> = merge_band_masks(info, masks)?;
    let shape: Vec<usize> = info.band_mask_ndarray_shape();
    if info.band_count() == 1 {
        build_mask(&shape, merged, "failed to build ndarray from decoded mask: ")
    } else {
        build_mask(&shape, merged, "failed to build ndarray from decoded band mask: ")
    }
}

impl DecodedBandSet {
    /// Moves the band set into an array using the requested layout.
    pub fn into_ndarray_with_layout<T: NdArrayElement>(self, layout: BandLayout) -> (r: Result<
        NdArray<T>,
    >)
        requires
            self.info.wf(),
        ensures
            yields(r, set_built::<T>(self.info@, self@.1, layout)),
    {
        let shape: Vec<usize> = self.info.ndarray_shape_for_layout(layout);
        let values: Vec<T> = self.into_vec_with_layout(layout)?;
        build(&shape, values, "failed to build ndarray from decoded band set: ")
    }

    /// Moves the band set into an interleaved array.
    pub fn into_ndarray<T: NdArrayElement>(self) -> (r: Result<NdArray<T>>)
        requires
            self.info.wf(),
        ensures
            yields(r, set_built::<T>(self.info@, self@.1, BandLayout::Interleaved)),
    {
        self.into_ndarray_with_layout(BandLayout::Interleaved)
    }

    /// Copies the band set into an interleaved array.
    pub fn to_ndarray<T: NdArrayElement>(&self) -> (r: Result<NdArray<T>>)
        requires
            self.info.wf(),
        ensures
            yields(r, set_built::<T>(self.info@, self@.1, BandLayout::Interleaved)),
    {
        let copy: DecodedBandSet = self.clone();
        proof {
            assert(copy.info@ == self.info@ && copy@.1 == self@.1);
            assert(copy.info.bands@.len() == copy.info@.len());
        }
        copy.into_ndarray()
    }

    /// Copies per-band masks into an array.
    pub fn band_mask_ndarray(&self) -> (r: Result<Option<NdArray<u8>>>)
        requires
            self.info.wf(),
        ensures
            yields_optional(r, set_mask_built(self.info@, self@.2)),
    {
        build_band_masks(&self.info, &self.band_masks)
    }

    /// Moves per-band masks into an array.
    pub fn into_band_mask_ndarray(self) -> (r: Result<Option<NdArray<u8>>>)
        requires
            self.info.wf(),
        ensures
            yields_optional(r, set_mask_built(self.info@, self@.2)),
    {
        build_band_masks(&self.info, &self.band_masks)
    }
}

/// The outcome of decoding one blob to an array.
pub open spec fn blob_built<T: NdArrayElement>(
    outcome: std::result::Result<(BlobFacts, PixelSeq, Option<Seq<u8>>), Fault>,
) -> std::result::Result<(Seq<usize>, Seq<T>), Fault> {
    match outcome {
        Err(e) => Err(e),
        Ok((facts, pixels, _)) => pixels_built::<T>(facts, pixels),
    }
}

/// The outcome of decoding one blob to an array of promoted samples.
pub open spec fn promoted_built(
    outcome: std::result::Result<(BlobFacts, Seq<Double>, Option<Seq<u8>>), Fault>,
) -> std::result::Result<(Seq<usize>, Seq<Double>), Fault> {
    match outcome {
        Err(e) => Err(e),
        Ok((facts, pixels, _)) => built(
            facts.shape(),
            pixels,
            "failed to build ndarray from decoded pixels: "@,
        ),
    }
}

/// Strictly decodes one native-typed blob into an array.
pub fn decode_ndarray<T: NdArrayElement>(blob: &[u8]) -> (r: Result<NdArray<T>>)
    ensures
        yields(
            r,
            blob_built::<T>(
                reader::strictly(
                    reader::native_decoded(blob@, None, None),
                    blob@.len(),
                    "decode"@,
                    "decode_first"@,
                ),
            ),
        ),
{
    decode(blob)?.into_ndarray()
}

/// Strictly decodes one externally masked blob into an array.
pub fn decode_ndarray_with_mask<T: NdArrayElement>(blob: &[u8], mask: &[u8]) -> (r: Result<
    NdArray<T>,
>)
    ensures
        yields(
            r,
            blob_built::<T>(
                reader::strictly(
                    reader::native_decoded(blob@, Some(mask@), Some(mask@)),
                    blob@.len(),
                    "decode_with_mask"@,
                    "decode_first_with_mask"@,
                ),
            ),
        ),
{
    decode_with_mask(blob, mask)?.into_ndarray()
}

/// Strictly decodes one blob into an array of promoted samples.
pub fn decode_ndarray_f64(blob: &[u8]) -> (r: Result<NdArray<Double>>)
    ensures
        yields(
            r,
            promoted_built(
                reader::strictly(
                    reader::first_decoded::<Double>(blob@, None, None, true),
                    blob@.len(),
                    "decode_to_f64"@,
                    "decode_first_to_f64"@,
                ),
            ),
        ),
{
    decode_to_f64(blob)?.into_ndarray()
}

/// Strictly decodes one externally masked blob into an array of promoted samples.
pub fn decode_ndarray_f64_with_mask(blob: &[u8], mask: &[u8]) -> (r: Result<NdArray<Double>>)
    ensures
        yields(
            r,
            promoted_built(
                reader::strictly(
                    reader::first_decoded::<Double>(blob@, Some(mask@), Some(mask@), true),
                    blob@.len(),
                    "decode_to_f64_with_mask"@,
                    "decode_first_to_f64_with_mask"@,
                ),
            ),
        ),
{
    decode_to_f64_with_mask(blob, mask)?.into_ndarray()
}

/// The outcome of reading the mask of one blob into an array.
pub open spec fn blob_mask_built(
    outcome: std::result::Result<(BlobFacts, Option<Seq<u8>>), Fault>,
    len: nat,
    strict_api: Seq<char>,
    permissive_api: Seq<char>,
) -> std::result::Result<Option<(Seq<usize>, Seq<u8>)>, Fault> {
    match outcome {
        Err(e) => Err(e),
        Ok((facts, mask)) => match reader::consumed_fault(
            len,
            facts.blob_size as nat,
            strict_api,
            permissive_api,
        ) {
            Some(e) => Err(e),
            None => mask_built(
                mask_shape(facts),
                mask,
                "failed to build ndarray from decoded mask: "@,
            ),
        },
    }
}

/// Strictly decodes one blob's validity mask as an array.
pub fn decode_mask_ndarray(blob: &[u8]) -> (r: Result<Option<NdArray<u8>>>)
    ensures
        yields_optional(
            r,
            blob_mask_built(
                reader::first_masked(blob@, None, None),
                blob@.len(),
                "decode_mask_ndarray"@,
                "inspect_first"@,
            ),
        ),
{
    let (info, mask) = inspect_first_mask_with_info(blob, None, None)?;
    ensure_single_blob_consumed(
        blob.len(),
        info.blob_size,
        "decode_mask_ndarray",
        "inspect_first",
    )?;
    let shape: Vec<usize> = info.mask_ndarray_shape();
    build_mask(&shape, mask, "failed to build ndarray from decoded mask: ")
}

/// Strictly decodes one blob's externally seeded mask as an array.
pub fn decode_mask_ndarray_with_mask(blob: &[u8], mask: &[u8]) -> (r: Result<Option<NdArray<u8>>>)
    ensures
        yields_optional(
            r,
            blob_mask_built(
                reader::first_masked(blob@, Some(mask@), Some(mask@)),
                blob@.len(),
                "decode_mask_ndarray_with_mask"@,
                "inspect_first_with_mask"@,
            ),
        ),
{
    let (info, entries) = inspect_first_mask_with_info(blob, Some(mask), Some(mask))?;
    ensure_single_blob_consumed(
        blob.len(),
        info.blob_size,
        "decode_mask_ndarray_with_mask",
        "inspect_first_with_mask",
    )?;
    let shape: Vec<usize> = info.mask_ndarray_shape();
    build_mask(&shape, entries, "failed to build ndarray from decoded mask: ")
}

/// The outcome of decoding a band set to an array.
pub open spec fn bands_built<T: NdArrayElement>(
    outcome: std::result::Result<(Seq<BlobFacts>, Seq<T>), Fault>,
    layout: BandLayout,
) -> std::result::Result<(Seq<usize>, Seq<T>), Fault> {
    match outcome {
        Err(e) => Err(e),
        Ok((infos, values)) => built(
            types::band_set_shape(infos, layout),
            values,
            "failed to build ndarray from decoded band set: "@,
        ),
    }
}

/// Decodes a band set into an array using `layout`.
pub fn decode_band_set_ndarray_with_layout<T: NdArrayElement>(
    blob: &[u8],
    layout: BandLayout,
) -> (r: Result<NdArray<T>>)
    ensures
        yields(r, bands_built::<T>(bands::vec_decoded::<T>(blob@, layout, None), layout)),
{
    let (info, values) = decode_band_set_vec::<T>(blob, layout)?;
    let shape: Vec<usize> = info.ndarray_shape_for_layout(layout);
    build(&shape, values, "failed to build ndarray from decoded band set: ")
}

/// Decodes an externally masked band set into an array using `layout`.
pub fn decode_band_set_ndarray_with_layout_and_mask<T: NdArrayElement>(
    blob: &[u8],
    layout: BandLayout,
    mask: &[u8],
) -> (r: Result<NdArray<T>>)
    ensures
        yields(r, bands_built::<T>(bands::vec_decoded::<T>(blob@, layout, Some(mask@)), layout)),
{
    let (info, values) = decode_band_set_vec_with_mask::<T>(blob, mask, layout)?;
    let shape: Vec<usize> = info.ndarray_shape_for_layout(layout);
    build(&shape, values, "failed to build ndarray from decoded band set: ")
}

/// Decodes a band set into an interleaved array.
pub fn decode_band_set_ndarray<T: NdArrayElement>(blob: &[u8]) -> (r: Result<NdArray<T>>)
    ensures
        yields(
            r,
            bands_built::<T>(
                bands::vec_decoded::<T>(blob@, BandLayout::Interleaved, None),
                BandLayout::Interleaved,
            ),
        ),
{
    decode_band_set_ndarray_with_layout(blob, BandLayout::Interleaved)
}

/// Decodes an externally masked band set into an interleaved array.
pub fn decode_band_set_ndarray_with_mask<T: NdArrayElement>(blob: &[u8], mask: &[u8]) -> (r: Result<
    NdArray<T>,
>)
    ensures
        yields(
            r,
            bands_built::<T>(
                bands::vec_decoded::<T>(blob@, BandLayout::Interleaved, Some(mask@)),
                BandLayout::Interleaved,
            ),
        ),
{
    decode_band_set_ndarray_with_layout_and_mask(blob, BandLayout::Interleaved, mask)
}

/// Decodes and promotes a band set into an array using `layout`.
pub fn decode_band_set_ndarray_f64_with_layout(blob: &[u8], layout: BandLayout) -> (r: Result<
    NdArray<Double>,
>)
    ensures
        yields(
            r,
            bands_built::<Double>(bands::vec_decoded::<Double>(blob@, layout, None), layout),
        ),
{
    decode_band_set_ndarray_with_layout::<Double>(blob, layout)
}

/// Decodes and promotes an externally masked band set using `layout`.
pub fn decode_band_set_ndarray_f64_with_layout_and_mask(
    blob: &[u8],
    layout: BandLayout,
    mask: &[u8],
) -> (r: Result<NdArray<Double>>)
    ensures
        yields(
            r,
            bands_built::<Double>(bands::vec_decoded::<Double>(blob@, layout, Some(mask@)), layout),
        ),
{
    decode_band_set_ndarray_with_layout_and_mask::<Double>(blob, layout, mask)
}

/// Decodes and promotes a band set into an interleaved array.
pub fn decode_band_set_ndarray_f64(blob: &[u8]) -> (r: Result<NdArray<Double>>)
    ensures
        yields(
            r,
            bands_built::<Double>(
                bands::vec_decoded::<Double>(blob@, BandLayout::Interleaved, None),
                BandLayout::Interleaved,
            ),
        ),
{
    decode_band_set_ndarray_f64_with_layout(blob, BandLayout::Interleaved)
}

/// Decodes and promotes an externally masked band set into an interleaved array.
pub fn decode_band_set_ndarray_f64_with_mask(blob: &[u8], mask: &[u8]) -> (r: Result<
    NdArray<Double>,
>)
    ensures
        yields(
            r,
            bands_built::<Double>(
                bands::vec_decoded::<Double>(blob@, BandLayout::Interleaved, Some(mask@)),
                BandLayout::Interleaved,
            ),
        ),
{
    decode_band_set_ndarray_f64_with_layout_and_mask(blob, BandLayout::Interleaved, mask)
}

/// The outcome of reading the masks of a band set into an array.
pub open spec fn band_masks_built(
    outcome: std::result::Result<(Seq<BlobFacts>, Seq<Option<Seq<u8>>>), Fault>,
) -> std::result::Result<Option<(Seq<usize>, Seq<u8>)>, Fault> {
    match outcome {
        Err(e) => Err(e),
        Ok((infos, masks)) => set_mask_built(infos, masks),
    }
}

/// Returns decoded band masks as an array without decoding pixel values.
pub fn decode_band_mask_ndarray(blob: &[u8]) -> (r: Result<Option<NdArray<u8>>>)
    ensures
        yields_optional(r, band_masks_built(bands::set_masks(blob@, None))),
{
    let (info, masks) = inspect_band_masks(blob, None)?;
    build_band_masks(&info, &masks)
}

/// Returns band masks seeded by an external mask as an array.
pub fn decode_band_mask_ndarray_with_mask(blob: &[u8], mask: &[u8]) -> (r: Result<
    Option<NdArray<u8>>,
>)
    ensures
        yields_optional(r, band_masks_built(bands::set_masks(blob@, Some(mask@)))),
{
    let (info, masks) = inspect_band_masks(blob, Some(mask))?;
    build_band_masks(&info, &masks)
}

} // verus!
