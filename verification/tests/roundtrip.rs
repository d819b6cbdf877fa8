//! What the encoder writes, the decoder reads back.

use lerc::band_encoder::{
    encode_band_set, encode_band_set_into, encoded_band_set_len_upper_bound,
};
use lerc::bands::decode_band_set;
use lerc::encoder::{encode, encode_into, encoded_len_upper_bound};
use lerc::error::Error;
use lerc::float::{Double, Single};
use lerc::options::EncodeOptions;
use lerc::raster::{BandSetView, MaskView, RasterView};
use lerc::reader::{decode, decode_to_f64, get_blob_info, inspect_first};
use lerc::sample::Sample;
use lerc::types::{BandLayout, BlobInfo, MaskEncoding, PixelData, Version};

fn d(value: f64) -> Double {
    Double { bits: value.to_bits() }
}

fn s(value: f32) -> Single {
    Single { bits: value.to_bits() }
}

fn options(max_z_error: f64, micro_block_size: u32) -> EncodeOptions {
    EncodeOptions::new()
        .with_max_z_error(d(max_z_error))
        .with_micro_block_size(micro_block_size)
}

fn body_offset(blob: &[u8], info: &BlobInfo) -> usize {
    let header_len = match info.version {
        Version::Lerc2(version) if version >= 6 => 90,
        Version::Lerc2(_) => 66,
        Version::Lerc1(_) => unreachable!("writer only emits Lerc2"),
    };
    let mask_num_bytes =
        u32::from_le_bytes(blob[header_len..header_len + 4].try_into().unwrap()) as usize;
    let range_len = info
        .min_values
        .as_ref()
        .map(|_| info.depth as usize * 2 * info.data_type.byte_len())
        .unwrap_or(0);
    header_len + 4 + mask_num_bytes + range_len
}

#[test]
fn roundtrips_constant_u16_raster() {
    let pixels = vec![9u16; 6];
    let raster = RasterView::new(3, 2, 1, &pixels).unwrap();
    let blob = encode(raster, None, EncodeOptions::default()).unwrap();

    let info = get_blob_info(&blob).unwrap();
    assert_eq!(info.version, Version::Lerc2(4));
    assert_eq!(info.blob_size, blob.len());
    assert_eq!(info.width, 3);
    assert_eq!(info.height, 2);
    assert_eq!(info.depth, 1);
    assert_eq!(info.valid_pixel_count, 6);

    let decoded = decode(&blob).unwrap();
    assert_eq!(decoded.pixels, PixelData::U16(pixels));
    assert_eq!(decoded.mask, None);
}

#[test]
fn selects_one_sweep_when_tile_headers_would_dominate() {
    let pixels = vec![5u16, 9, 6, 10];
    let raster = RasterView::new(4, 1, 1, &pixels).unwrap();
    let blob = encode(raster, None, options(0.0, 2)).unwrap();
    let info = get_blob_info(&blob).unwrap();
    let offset = body_offset(&blob, &info);

    assert_eq!(info.version, Version::Lerc2(4));
    assert_eq!(blob[offset], 1);
    assert_eq!(decode(&blob).unwrap().pixels, PixelData::U16(pixels));
}

#[test]
fn selects_huffman_for_repeated_lossless_u8_data() {
    let pixels: Vec<u8> = (0..256)
        .map(|index| if index % 64 < 48 { 7 } else { 9 })
        .collect();
    let raster = RasterView::new(16, 16, 1, &pixels).unwrap();
    let blob = encode(raster, None, options(0.5, 2)).unwrap();
    let info = get_blob_info(&blob).unwrap();
    let offset = body_offset(&blob, &info);

    assert_eq!(info.version, Version::Lerc2(4));
    assert_eq!(blob[offset], 0);
    assert_ne!(blob[offset + 1], 0);
    assert_eq!(decode(&blob).unwrap().pixels, PixelData::U8(pixels));
}

#[test]
fn roundtrips_signed_huffman_i8_data() {
    let pixels: Vec<i8> = (0..256)
        .map(|index| if index % 32 < 24 { -7 } else { 11 })
        .collect();
    let raster = RasterView::new(16, 16, 1, &pixels).unwrap();
    let blob = encode(raster, None, options(0.5, 2)).unwrap();
    let info = get_blob_info(&blob).unwrap();
    let offset = body_offset(&blob, &info);

    assert_eq!(info.version, Version::Lerc2(4));
    assert_eq!(blob[offset], 0);
    assert_ne!(blob[offset + 1], 0);
    assert_eq!(decode(&blob).unwrap().pixels, PixelData::I8(pixels));
}

#[test]
fn selects_v5_diff_tiles_for_lossless_depth_data() {
    let mut pixels = Vec::new();
    for value in 0u16..8 {
        pixels.push(value);
        pixels.push(value);
    }
    let raster = RasterView::new(4, 2, 2, &pixels).unwrap();
    let blob = encode(raster, None, options(0.5, 8)).unwrap();
    let info = get_blob_info(&blob).unwrap();
    let offset = body_offset(&blob, &info);

    assert_eq!(info.version, Version::Lerc2(5));
    assert_eq!(blob[offset], 0);
    assert_ne!(blob[offset + 8] & 4, 0);
    assert_eq!(decode(&blob).unwrap().pixels, PixelData::U16(pixels));
}

#[test]
fn roundtrips_lossless_f64_raster() {
    let pixels: Vec<Double> = [1.25f64, -2.5, 3.75, 4.5, -5.25, 6.0]
        .iter()
        .map(|&v| d(v))
        .collect();
    let raster = RasterView::new(3, 2, 1, &pixels).unwrap();
    let blob = encode(raster, None, options(0.0, 2)).unwrap();

    let decoded = decode(&blob).unwrap();
    assert_eq!(decoded.pixels, PixelData::F64(pixels));
}

#[test]
fn encoded_len_upper_bound_is_conservative() {
    let pixels = vec![9u16; 6];
    let raster = RasterView::new(3, 2, 1, &pixels).unwrap();
    let upper = encoded_len_upper_bound(raster, None, EncodeOptions::default()).unwrap();
    let blob = encode(raster, None, EncodeOptions::default()).unwrap();

    assert!(upper >= blob.len());
    assert!(upper > blob.len());
}

#[test]
fn roundtrips_bitstuffed_u8_tiles_exactly() {
    let pixels = vec![1u8, 2, 3, 4, 5, 6, 7, 8];
    let raster = RasterView::new(4, 2, 1, &pixels).unwrap();

    let upper_bound = encoded_len_upper_bound(raster, None, options(0.5, 2)).unwrap();
    let blob = encode(raster, None, options(0.5, 2)).unwrap();
    assert!(blob.len() <= upper_bound);

    let decoded = decode(&blob).unwrap();
    assert_eq!(decoded.pixels, PixelData::U8(pixels));
}

#[test]
fn roundtrips_masked_f32_raster_with_depth() {
    let pixels = [
        10.0f32, 20.0, 11.0, 21.0, 12.0, 22.0, 13.0, 23.0, 14.0, 24.0, 15.0, 25.0,
    ];
    let samples: Vec<Single> = pixels.iter().map(|&v| s(v)).collect();
    let mask = vec![1u8, 0, 1, 1, 0, 1];
    let raster = RasterView::new(3, 2, 2, &samples).unwrap();
    let mask = MaskView::new(3, 2, &mask).unwrap();

    let blob = encode(raster, Some(mask), options(0.25, 2)).unwrap();
    let decoded = decode(&blob).unwrap();
    match decoded.pixels {
        PixelData::F32(values) => {
            assert_eq!(values.len(), pixels.len());
            for (pixel, (&m, chunk)) in [1u8, 0, 1, 1, 0, 1]
                .iter()
                .zip(values.chunks_exact(2))
                .enumerate()
            {
                let expected = &pixels[pixel * 2..pixel * 2 + 2];
                if m != 0 {
                    for (&actual, &expected) in chunk.iter().zip(expected) {
                        assert!((f32::from_bits(actual.bits) - expected).abs() <= 0.25);
                    }
                } else {
                    assert_eq!(chunk, &[s(0.0), s(0.0)]);
                }
            }
        }
        other => panic!("expected f32 pixels, got {other:?}"),
    }
    assert_eq!(decoded.mask, Some(vec![1, 0, 1, 1, 0, 1]));
    assert_eq!(decoded.info.min_values, Some(vec![d(10.0), d(20.0)]));
    assert_eq!(decoded.info.max_values, Some(vec![d(15.0), d(25.0)]));
}

#[test]
fn roundtrips_shared_mask_band_set_from_interleaved_input() {
    let pixels = vec![10u8, 50, 0, 0, 11, 51, 12, 52];
    let mask_pixels = vec![1u8, 0, 1, 1];
    let band_set = BandSetView::new(2, 2, 1, 2, BandLayout::Interleaved, &pixels).unwrap();
    let mask = MaskView::new(2, 2, &mask_pixels).unwrap();

    let upper =
        encoded_band_set_len_upper_bound(band_set, Some(mask), EncodeOptions::default()).unwrap();
    let blob = encode_band_set(band_set, Some(mask), EncodeOptions::default()).unwrap();
    assert!(upper >= blob.len());

    let first_info = inspect_first(&blob).unwrap();
    let second_info = get_blob_info(&blob[first_info.blob_size..]).unwrap();
    assert_eq!(first_info.mask_encoding, MaskEncoding::Explicit);
    assert_eq!(first_info.mask_count(), 1);
    assert_eq!(second_info.mask_encoding, MaskEncoding::External);
    assert_eq!(second_info.mask_count(), 0);

    let decoded = decode_band_set(&blob).unwrap();
    assert_eq!(decoded.info.band_count(), 2);
    assert_eq!(decoded.info.mask_count(), 1);
    assert_eq!(
        decoded.band_masks,
        vec![Some(mask_pixels.clone()), Some(mask_pixels.clone())]
    );
    assert_eq!(decoded.bands[0], PixelData::U8(vec![10, 0, 11, 12]));
    assert_eq!(decoded.bands[1], PixelData::U8(vec![50, 0, 51, 52]));
}

#[test]
fn roundtrips_shared_mask_band_set_from_bsq_input() {
    let pixels = vec![10u8, 0, 11, 12, 50, 0, 51, 52];
    let mask_pixels = vec![1u8, 0, 1, 1];
    let band_set = BandSetView::new(2, 2, 1, 2, BandLayout::Bsq, &pixels).unwrap();
    let mask = MaskView::new(2, 2, &mask_pixels).unwrap();

    let blob = encode_band_set(band_set, Some(mask), EncodeOptions::default()).unwrap();
    let decoded = decode_band_set(&blob).unwrap();
    assert_eq!(decoded.info.band_count(), 2);
    assert_eq!(decoded.info.mask_count(), 1);
    assert_eq!(
        decoded.band_masks,
        vec![Some(mask_pixels.clone()), Some(mask_pixels.clone())]
    );
    assert_eq!(decoded.bands[0], PixelData::U8(vec![10, 0, 11, 12]));
    assert_eq!(decoded.bands[1], PixelData::U8(vec![50, 0, 51, 52]));
}

#[test]
fn compresses_repeated_mask_bytes() {
    let pixels = vec![7u8; 256];
    let mask_pixels: Vec<u8> = (0..256).map(|index| u8::from(index >= 128)).collect();
    let raster = RasterView::new(256, 1, 1, &pixels).unwrap();
    let mask = MaskView::new(256, 1, &mask_pixels).unwrap();

    let blob = encode(raster, Some(mask), EncodeOptions::default()).unwrap();
    let mask_num_bytes = u32::from_le_bytes(blob[66..70].try_into().unwrap()) as usize;
    let literal_mask_num_bytes = 256usize.div_ceil(8) + 4;

    assert_eq!(mask_num_bytes, 8);
    assert!(mask_num_bytes < literal_mask_num_bytes);

    let decoded = decode(&blob).unwrap();
    assert_eq!(decoded.mask, Some(mask_pixels.clone()));
    assert_eq!(
        decoded.pixels,
        PixelData::U8(
            mask_pixels
                .iter()
                .map(|&value| if value != 0 { 7 } else { 0 })
                .collect()
        )
    );
}

#[test]
fn encode_band_set_into_reports_small_output_buffers() {
    let pixels = vec![10u8, 50, 0, 0, 11, 51, 12, 52];
    let mask_pixels = vec![1u8, 0, 1, 1];
    let band_set = BandSetView::new(2, 2, 1, 2, BandLayout::Interleaved, &pixels).unwrap();
    let mask = MaskView::new(2, 2, &mask_pixels).unwrap();
    let blob = encode_band_set(band_set, Some(mask), EncodeOptions::default()).unwrap();
    let mut out = vec![0u8; blob.len() - 1];

    assert!(matches!(
        encode_band_set_into(band_set, Some(mask), EncodeOptions::default(), &mut out),
        Err(Error::OutputTooSmall { .. })
    ));
}

#[test]
fn emits_per_depth_constant_blob_without_tile_payload() {
    let pixels = vec![10u8, 20, 10, 20, 10, 20, 10, 20];
    let raster = RasterView::new(2, 2, 2, &pixels).unwrap();
    let blob = encode(raster, None, EncodeOptions::default()).unwrap();

    let decoded = decode(&blob).unwrap();
    assert_eq!(decoded.pixels, PixelData::U8(pixels));
    assert_eq!(decoded.info.min_values, Some(vec![d(10.0), d(20.0)]));
    assert_eq!(decoded.info.max_values, Some(vec![d(10.0), d(20.0)]));
}

#[test]
fn encode_into_reports_small_output_buffers() {
    let pixels = vec![1u8, 2, 3, 4];
    let raster = RasterView::new(2, 2, 1, &pixels).unwrap();
    let blob = encode(raster, None, EncodeOptions::default()).unwrap();
    let mut out = vec![0u8; blob.len() - 1];

    assert!(matches!(
        encode_into(raster, None, EncodeOptions::default(), &mut out),
        Err(Error::OutputTooSmall { .. })
    ));
}

#[test]
fn rejects_non_finite_valid_samples() {
    let pixels = vec![s(1.0), s(f32::NAN), s(3.0), s(4.0)];
    let raster = RasterView::new(2, 2, 1, &pixels).unwrap();

    assert!(matches!(
        encode(raster, None, EncodeOptions::default()),
        Err(Error::InvalidArgument(_))
    ));
}

/// A small generator of repeatable test data.
struct Lcg(u64);

impl Lcg {
    fn next(&mut self) -> u64 {
        self.0 = self
            .0
            .wrapping_mul(6364136223846793005)
            .wrapping_add(1442695040888963407);
        self.0 >> 11
    }
}

fn check_roundtrip<T: Sample>(depth: usize, values: &[T], validity: &[bool], max_z_error: f64, exact: bool) {
    let mask_data: Vec<u8> = validity.iter().map(|&valid| u8::from(valid)).collect();
    let raster = RasterView::new(7, 5, depth as u32, &values[..35 * depth]).unwrap();
    let mask = MaskView::new(7, 5, &mask_data).unwrap();
    let blob = encode(raster, Some(mask), options(max_z_error, 4)).unwrap();
    let decoded = decode_to_f64(&blob).unwrap();
    let tolerance = if exact { 0.0 } else { max_z_error } + 1e-9;

    assert_eq!(decoded.pixels.len(), 35 * depth);
    for (pixel, &valid) in validity.iter().enumerate() {
        if !valid {
            continue;
        }
        for dim in 0..depth {
            let index = pixel * depth + dim;
            let expected = f64::from_bits(values[index].to_f64().bits);
            let actual = f64::from_bits(decoded.pixels[index].bits);
            assert!(
                (actual - expected).abs() <= tolerance,
                "sample {index}: expected {expected}, got {actual}, tolerance {tolerance}"
            );
        }
    }
}

fn check_all<T: Sample>(make: fn(u64) -> T, exact: bool) {
    let mut lcg = Lcg(42);
    for round in 0..12 {
        let depth = if round % 2 == 0 { 1 } else { 3 };
        let max_z_error = [0.0, 0.5, 0.001][round % 3];
        let values: Vec<T> = (0..105).map(|_| make(lcg.next())).collect();
        let validity: Vec<bool> = (0..35).map(|_| lcg.next() % 4 != 0).collect();
        check_roundtrip(depth, &values, &validity, max_z_error, exact);
    }
}

#[test]
fn roundtrips_i8() {
    check_all::<i8>(|x| x as i8, true);
}

#[test]
fn roundtrips_u8() {
    check_all::<u8>(|x| x as u8, true);
}

#[test]
fn roundtrips_i16() {
    check_all::<i16>(|x| x as i16, true);
}

#[test]
fn roundtrips_u16() {
    check_all::<u16>(|x| x as u16, true);
}

#[test]
fn roundtrips_i32() {
    check_all::<i32>(|x| x as i32, true);
}

#[test]
fn roundtrips_u32() {
    check_all::<u32>(|x| x as u32, true);
}

#[test]
fn roundtrips_f32() {
    check_all::<Single>(|x| s((x % 2_000_000) as f32 / 100.0 - 10_000.0), false);
}

#[test]
fn roundtrips_f64() {
    check_all::<Double>(|x| d((x % 2_000_000_000) as f64 / 100_000.0 - 10_000.0), false);
}

#[test]
fn narrow_ranges_are_bit_stuffed_and_restored() {
    let mut lcg = Lcg(7);
    let values: Vec<i32> = (0..64 * 64).map(|_| (lcg.next() % 60) as i32 - 1_000_000).collect();
    let raster = RasterView::new(64, 64, 1, &values).unwrap();
    let blob = encode(raster, None, EncodeOptions::new()).unwrap();
    assert!(blob.len() < 64 * 64);
    assert_eq!(decode(&blob).unwrap().pixels, PixelData::I32(values));
}

#[test]
fn integer_errors_stay_within_the_bound() {
    let mut lcg = Lcg(11);
    for bound in [1i64, 3, 10] {
        let values: Vec<i16> = (0..32 * 32).map(|_| lcg.next() as i16 / 16).collect();
        let raster = RasterView::new(32, 32, 1, &values).unwrap();
        let blob = encode(raster, None, options(bound as f64, 8)).unwrap();
        match decode(&blob).unwrap().pixels {
            PixelData::I16(found) => {
                for (a, b) in found.iter().zip(&values) {
                    assert!((i64::from(*a) - i64::from(*b)).abs() <= bound);
                }
            }
            other => panic!("expected i16 pixels, got {other:?}"),
        }
    }
}

#[test]
fn huffman_codes_of_many_symbols_are_restored() {
    let mut lcg = Lcg(3);
    let values: Vec<u8> = (0..96 * 64)
        .map(|_| {
            let x = lcg.next();
            (x % 7 * (x / 7 % 5) * (x / 35 % 3)) as u8
        })
        .collect();
    let raster = RasterView::new(96, 64, 1, &values).unwrap();
    let blob = encode(raster, None, EncodeOptions::new()).unwrap();
    let info = get_blob_info(&blob).unwrap();
    let offset = body_offset(&blob, &info);
    assert_eq!(blob[offset], 0);
    assert_eq!(blob[offset + 1], 2);
    assert_eq!(decode(&blob).unwrap().pixels, PixelData::U8(values));
}

#[test]
fn smooth_bytes_are_coded_as_differences() {
    let values: Vec<u8> = (0..64 * 64).map(|i| ((i % 64) * 3 + i / 64) as u8).collect();
    let mask: Vec<u8> = (0..64 * 64).map(|i| u8::from(i % 97 != 5)).collect();
    let raster = RasterView::new(64, 64, 1, &values).unwrap();
    let view = MaskView::new(64, 64, &mask).unwrap();
    let blob = encode(raster, Some(view), EncodeOptions::new()).unwrap();
    let info = get_blob_info(&blob).unwrap();
    let offset = body_offset(&blob, &info);
    assert_eq!(blob[offset + 1], 1);
    match decode(&blob).unwrap().pixels {
        PixelData::U8(found) => {
            for i in 0..values.len() {
                assert_eq!(found[i], if mask[i] != 0 { values[i] } else { 0 });
            }
        }
        other => panic!("expected u8 pixels, got {other:?}"),
    }
}

#[test]
fn no_data_rasters_come_back_with_their_sentinel() {
    let no_data = -9999.0f32;
    let mut pixels = Vec::new();
    for row in 0..8 {
        for col in 0..16 {
            if col < 8 {
                pixels.push(s(row as f32));
                pixels.push(s(no_data));
            } else {
                pixels.push(s(7.0 + row as f32));
                pixels.push(s(9.0));
            }
        }
    }
    let raster = RasterView::new(16, 8, 2, &pixels).unwrap();
    let blob = encode(
        raster,
        None,
        options(0.25, 8).with_no_data_value(d(f64::from(no_data))),
    )
    .unwrap();
    let decoded = decode(&blob).unwrap();
    assert_eq!(decoded.info.version, Version::Lerc2(6));
    assert_eq!(decoded.info.no_data_value, Some(d(-9999.0)));
    match decoded.pixels {
        PixelData::F32(found) => {
            for i in 0..found.len() {
                let (a, b) = (f32::from_bits(found[i].bits), f32::from_bits(pixels[i].bits));
                if b == no_data {
                    assert_eq!(a, no_data);
                } else {
                    assert!((a - b).abs() <= 0.25);
                }
            }
        }
        other => panic!("expected f32 pixels, got {other:?}"),
    }
}

#[test]
fn integer_no_data_and_masked_diff_tiles_are_restored() {
    let no_data = -2_000_000_000i32;
    let pixels = vec![
        -117_000_351,
        -91_000_273,
        -87_000_261,
        -87_000_261,
        -87_000_261,
        -87_000_261,
        -87_000_261,
        -87_000_261,
        -87_000_261,
        -87_000_261,
        -87_000_261,
        -74_000_222,
        -110_000_330,
        -98_000_294,
        no_data,
        no_data,
    ];
    let mask = vec![0, 1, 1, 1, 1, 1, 1, 1];
    let blob = encode(
        RasterView::new(4, 2, 2, &pixels).unwrap(),
        Some(MaskView::new(4, 2, &mask).unwrap()),
        options(0.5, 9).with_no_data_value(d(f64::from(no_data))),
    )
    .unwrap();
    let decoded = decode(&blob).unwrap();
    assert_eq!(decoded.mask, Some(vec![0, 1, 1, 1, 1, 1, 1, 0]));
    match decoded.pixels {
        PixelData::I32(found) => assert_eq!(&found[2..14], &pixels[2..14]),
        other => panic!("expected i32 pixels, got {other:?}"),
    }
}

#[test]
fn encoding_into_a_buffer_writes_the_same_bytes() {
    let pixels = vec![1u8, 2, 3, 4];
    let raster = RasterView::new(2, 2, 1, &pixels).unwrap();
    let blob = encode(raster, None, EncodeOptions::default()).unwrap();
    let mut out = vec![0xaau8; blob.len() + 3];
    let written = encode_into(raster, None, EncodeOptions::default(), &mut out).unwrap();
    assert_eq!(written, blob.len());
    assert_eq!(&out[..written], &blob[..]);
    assert_eq!(&out[written..], &[0xaa, 0xaa, 0xaa]);
}

#[test]
fn sentinels_of_single_bands_get_masks_of_their_own() {
    // Two bands of two pixels with two depths; the first pixel of the second band is empty.
    let pixels = vec![1i16, 2, 3, 4, -1, -1, 5, 6];
    let band_set = BandSetView::new(2, 1, 2, 2, BandLayout::Bsq, &pixels).unwrap();
    let blob = encode_band_set(
        band_set,
        None,
        EncodeOptions::new().with_no_data_value(d(-1.0)),
    )
    .unwrap();
    let decoded = decode_band_set(&blob).unwrap();
    assert_eq!(decoded.band_masks, vec![None, Some(vec![0, 1])]);
    assert_eq!(decoded.bands[0], PixelData::I16(vec![1, 2, 3, 4]));
    assert_eq!(decoded.bands[1], PixelData::I16(vec![0, 0, 5, 6]));
}
