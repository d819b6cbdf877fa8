//! Blobs that were tampered with, and requests that the encoder refuses.

use lerc::band_encoder::encoded_band_set_len_upper_bound;
use lerc::checksum::fletcher32;
use lerc::encoder::{encode, encoded_len_upper_bound};
use lerc::error::Error;
use lerc::float::{Double, Single};
use lerc::options::EncodeOptions;
use lerc::raster::{BandSetView, MaskView, RasterView};
use lerc::reader::decode;
use lerc::types::BandLayout;

fn d(value: f64) -> Double {
    Double { bits: value.to_bits() }
}

fn s(value: f32) -> Single {
    Single { bits: value.to_bits() }
}

fn sample_blob() -> Vec<u8> {
    let pixels = vec![1u8, 2, 3, 4, 5, 6, 7, 8];
    encode(
        RasterView::new(4, 2, 1, &pixels).unwrap(),
        None,
        EncodeOptions::new()
            .with_max_z_error(d(0.5))
            .with_micro_block_size(2),
    )
    .unwrap()
}

#[test]
fn rejects_blob_with_corrupted_checksum() {
    let mut blob = sample_blob();
    blob[10..14].fill(0);

    assert!(matches!(decode(&blob), Err(Error::ChecksumMismatch { .. })));
}

#[test]
fn rejects_blob_with_oversized_declared_length() {
    let mut blob = sample_blob();
    let declared = (blob.len() as i32 + 1).to_le_bytes();
    blob[34..38].copy_from_slice(&declared);

    assert!(matches!(decode(&blob), Err(Error::Truncated { .. })));
}

#[test]
fn rejects_blob_with_invalid_mask_length() {
    let pixels = vec![1u8, 2, 3, 4];
    let mask = vec![1u8, 0, 1, 1];
    let mut blob = encode(
        RasterView::new(2, 2, 1, &pixels).unwrap(),
        Some(MaskView::new(2, 2, &mask).unwrap()),
        EncodeOptions::default(),
    )
    .unwrap();

    blob[66..70].copy_from_slice(&1u32.to_le_bytes());
    let checksum = fletcher32(&blob[14..]);
    blob[10..14].copy_from_slice(&checksum.to_le_bytes());

    assert!(matches!(decode(&blob), Err(Error::Truncated { .. })));
}

#[test]
fn rejects_no_data_for_unit_depth_rasters() {
    let pixels = vec![s(1.0), s(-9999.0), s(3.0), s(4.0)];
    let raster = RasterView::new(2, 2, 1, &pixels).unwrap();
    let options = EncodeOptions::new().with_no_data_value(d(-9999.0));

    assert!(matches!(
        encode(raster, None, options),
        Err(Error::InvalidArgument(_))
    ));
    assert!(matches!(
        encoded_len_upper_bound(raster, None, options),
        Err(Error::InvalidArgument(_))
    ));

    let band_set = BandSetView::new(2, 2, 1, 1, BandLayout::Bsq, &pixels).unwrap();
    assert!(matches!(
        encoded_band_set_len_upper_bound(band_set, None, options),
        Err(Error::InvalidArgument(_))
    ));
}

#[test]
fn rejects_non_finite_no_data_value() {
    let pixels = vec![s(1.0), s(-9999.0), s(3.0), s(4.0)];

    assert!(matches!(
        encode(
            RasterView::new(1, 2, 2, &pixels).unwrap(),
            None,
            EncodeOptions::new().with_no_data_value(d(f64::NAN)),
        ),
        Err(Error::InvalidArgument(_))
    ));
}

#[test]
fn rejects_micro_block_sizes_outside_the_supported_range() {
    let pixels = vec![1u8, 2, 3, 4];
    let raster = RasterView::new(2, 2, 1, &pixels).unwrap();

    for micro_block_size in [0, 1, 65, u32::MAX] {
        let result = encode(
            raster,
            None,
            EncodeOptions::new().with_micro_block_size(micro_block_size),
        );
        assert!(
            matches!(result, Err(Error::InvalidArgument(_))),
            "micro_block_size={micro_block_size}: {result:?}"
        );
    }
}

#[test]
fn rejects_no_data_outside_the_raster_type_range() {
    let pixels = vec![1u8, 2, 3, 4, 5, 6, 7, 8];
    let raster = RasterView::new(2, 2, 2, &pixels).unwrap();
    let result = encode(
        raster,
        None,
        EncodeOptions::new().with_no_data_value(d(256.0)),
    );
    assert!(matches!(result, Err(Error::InvalidArgument(_))));
}

#[test]
fn rejects_unusable_error_bounds_and_masks() {
    let pixels = vec![1u8, 2, 3, 4];
    let raster = RasterView::new(2, 2, 1, &pixels).unwrap();
    for bound in [-1.0, f64::NAN, f64::INFINITY] {
        match encode(raster, None, EncodeOptions::new().with_max_z_error(d(bound))) {
            Err(Error::InvalidArgument(text)) => {
                assert_eq!(text, "max_z_error must be finite and non-negative")
            }
            other => panic!("{other:?}"),
        }
    }
    let mask = vec![1u8, 1];
    match encode(
        raster,
        Some(MaskView::new(2, 1, &mask).unwrap()),
        EncodeOptions::new(),
    ) {
        Err(Error::InvalidArgument(text)) => {
            assert_eq!(text, "mask dimensions must match the raster dimensions")
        }
        other => panic!("{other:?}"),
    }
}
