//! The laws of the library on concrete values.

use lerc::band_encoder::{
    encode_band_set, encode_band_set_into, encoded_band_set_len_upper_bound,
};
use lerc::bands::{
    arrange_bands, decode_band_set, decode_band_set_vec, decode_parallel_band, get_band_count,
    scan_parallel_bands, BandSetBuilder,
};
use lerc::bitpack::{pack_lsb_bits_into, unstuff_v3, words_from_padded};
use lerc::blocks::{count_valid_in_block, list_block, list_run};
use lerc::checksum::fletcher32;
use lerc::cursor::Cursor;
use lerc::encoder::{encode, encode_into, encoded_len_upper_bound};
use lerc::error::Error;
use lerc::float::{Double, Single};
use lerc::huffman::{read_huffman_tree, CodeEntry, HuffmanStream};
use lerc::huffman_writer::{build_codes, build_table_bytes};
use lerc::mask::{decode_mask_rle, encode_bitset, pack_mask_bitset, unpack_mask_bitset};
use lerc::materialize::{
    copy_band_values_into_slice, BandMaterializer, BandSink, BandWriteOrder, BandWriter,
};
use lerc::nd::{decode_band_mask_ndarray, decode_ndarray, decode_ndarray_f64, NdArrayElement};
use lerc::options::EncodeOptions;
use lerc::raster::{BandSetView, MaskView, RasterView};
use lerc::reader::{decode, decode_first, decode_to_f64, get_blob_info, inspect_first};
use lerc::stream::StreamReader;
use lerc::stuffed::{decode_bits, write_raw_block};
use lerc::tile_plan::{append_samples, reduce_data_type};
use lerc::types::{BandLayout, DataType, PixelData, Version};
use lerc::values::read_vec;
use ndarray::IxDyn;

struct Lcg(u64);

impl Lcg {
    fn next(&mut self) -> u64 {
        self.0 = self.0.wrapping_mul(6364136223846793005).wrapping_add(1442695040888963407);
        self.0 >> 33
    }
}

fn d(value: f64) -> Double {
    Double { bits: value.to_bits() }
}

fn s(value: f32) -> Single {
    Single { bits: value.to_bits() }
}

fn ramp(count: usize) -> Vec<u16> {
    (0..count).map(|i| (i * 37 % 1001) as u16).collect()
}

#[test]
fn lossy_singles_stay_near_their_bound() {
    let mut lcg = Lcg(5);
    for bound in [0.001f64, 0.25, 3.0] {
        let values: Vec<Single> = (0..24 * 16 * 2)
            .map(|_| s((lcg.next() % 100_000) as f32 / 37.0 - 900.0))
            .collect();
        let raster = RasterView::new(24, 16, 2, &values).unwrap();
        let options = EncodeOptions::new().with_max_z_error(d(bound)).with_micro_block_size(8);
        let blob = encode(raster, None, options).unwrap();
        match decode(&blob).unwrap().pixels {
            PixelData::F32(found) => {
                for (a, b) in found.iter().zip(&values) {
                    let (a, b) = (f32::from_bits(a.bits), f32::from_bits(b.bits));
                    // Half a unit in the last place of a sample below 2048.
                    assert!(f64::from((a - b).abs()) <= bound + 0.0001, "{a} and {b}");
                }
            }
            other => panic!("expected f32 pixels, got {other:?}"),
        }
    }
}

#[test]
fn lossy_doubles_stay_near_their_bound() {
    let mut lcg = Lcg(6);
    for bound in [0.001f64, 0.5, 20.0] {
        let values: Vec<Double> = (0..24 * 16)
            .map(|_| d((lcg.next() % 1_000_000) as f64 / 7.0))
            .collect();
        let raster = RasterView::new(24, 16, 1, &values).unwrap();
        let options = EncodeOptions::new().with_max_z_error(d(bound)).with_micro_block_size(8);
        let blob = encode(raster, None, options).unwrap();
        let found = decode_to_f64(&blob).unwrap();
        for (a, b) in found.pixels.iter().zip(&values) {
            let (a, b) = (f64::from_bits(a.bits), f64::from_bits(b.bits));
            assert!((a - b).abs() <= bound + 1e-8, "{a} and {b}");
        }
    }
}

#[test]
fn masks_survive_packing_and_run_lengths() {
    let mask: Vec<u8> = (0..1003).map(|i| u8::from(i % 5 == 0 || i > 400)).collect();
    let bitset = pack_mask_bitset(&mask, mask.len()).unwrap();
    assert_eq!(bitset.len(), 126);
    assert_eq!(bitset[0], 0b1000_0100);
    let encoded = encode_bitset(&bitset);
    assert!(encoded.len() < bitset.len());
    let decoded = decode_mask_rle(&encoded, bitset.len()).unwrap();
    assert_eq!(decoded, bitset);
    assert_eq!(unpack_mask_bitset(&decoded, mask.len()).unwrap(), mask);
    assert_eq!(
        pack_mask_bitset(&mask, 5).unwrap_err().message(),
        "invalid argument: mask length does not match the raster dimensions"
    );
}

#[test]
fn packed_numbers_are_unpacked() {
    let values: Vec<u32> = (0..77).map(|i| i * 13 % 64).collect();
    let mut packed = Vec::new();
    pack_lsb_bits_into(&values, 6, &mut packed);
    assert_eq!(packed.len(), 58);
    assert_eq!(packed[0], 0b0100_0000);
    let words = words_from_padded(&packed);
    assert_eq!(unstuff_v3(&words, 6, 77), values);
}

#[test]
fn stuffed_blocks_are_read_back() {
    let values: Vec<u32> = (0..40).map(|i| i * i % 300).collect();
    let mut bytes = Vec::new();
    write_raw_block(&mut bytes, &values).unwrap();
    let mut cursor = Cursor::new(&bytes);
    let levels = decode_bits(&mut cursor, 4, values.len(), true).unwrap();
    let expected: Vec<Option<u32>> = values.iter().map(|&value| Some(value)).collect();
    assert_eq!(levels, expected);
    assert_eq!(cursor.remaining(), 0);
    assert_eq!(
        write_raw_block(&mut bytes, &[u32::MAX]).unwrap_err(),
        Error::Internal("bit-stuffed payload exceeds the Lerc2 bit width limit")
    );
}

#[test]
fn huffman_codes_are_prefix_free_and_tables_are_read_back() {
    let symbols: Vec<u8> = (0..500u32).map(|i| (i * i % 23) as u8).collect();
    let entries = build_codes(&symbols).unwrap();
    let used: Vec<CodeEntry> = entries.iter().copied().filter(|e| e.len > 0).collect();
    assert_eq!(used.len(), 12);
    for (i, a) in used.iter().enumerate() {
        for (j, b) in used.iter().enumerate() {
            if i != j && a.len <= b.len {
                assert_ne!(b.code >> (b.len - a.len), a.code);
            }
        }
    }
    let mut bytes = build_table_bytes(&entries);
    // One symbol behind the table: its code in the high bits of a word.
    let entry = entries[9];
    let word = entry.code << (32 - u32::from(entry.len));
    bytes.extend_from_slice(&word.to_le_bytes());
    bytes.extend_from_slice(&[0; 4]);
    let mut cursor = Cursor::new(&bytes);
    let found = read_huffman_tree(&mut cursor, 4).unwrap();
    let mut stream = HuffmanStream::new(&found.words, found.start);
    assert_eq!(found.table.read_symbol(&mut stream).unwrap(), 9);
    assert_eq!(build_codes(&Vec::new()), None);
}

#[test]
fn samples_survive_their_bytes() {
    let singles = vec![s(1.5), s(-0.0), s(f32::MAX)];
    let mut bytes = Vec::new();
    append_samples(&mut bytes, &singles);
    assert_eq!(bytes.len(), 12);
    assert_eq!(read_vec::<Single>(&bytes).unwrap(), singles);
    let shorts = vec![-2i16, 300];
    let mut bytes = Vec::new();
    append_samples(&mut bytes, &shorts);
    assert_eq!(bytes, vec![0xfe, 0xff, 0x2c, 0x01]);
    assert_eq!(read_vec::<i16>(&bytes).unwrap(), shorts);
}

#[test]
fn offsets_are_reduced_to_types_that_hold_them() {
    assert_eq!(reduce_data_type(d(-5.0), DataType::I16), (2, DataType::I8));
    assert_eq!(reduce_data_type(d(200.0), DataType::I16), (1, DataType::U8));
    assert_eq!(reduce_data_type(d(2000.0), DataType::I16), (0, DataType::I16));
    assert_eq!(reduce_data_type(d(0.5), DataType::F64).1, DataType::F32);
}

#[test]
fn every_valid_pixel_is_in_one_block() {
    let mask: Vec<u8> = (0..35).map(|i| u8::from(i % 4 != 1)).collect();
    let mut seen = vec![0usize; 35];
    for y in [0, 3] {
        for x in [0, 3, 6] {
            let cols = if x == 6 { 1 } else { 3 };
            let rows = if y == 3 { 2 } else { 3 };
            for pixel in list_block(Some(&mask), 7, 5, x, y, cols, rows) {
                seen[pixel] += 1;
            }
        }
    }
    let expected: Vec<usize> = mask.iter().map(|&entry| usize::from(entry)).collect();
    assert_eq!(seen, expected);
    assert_eq!(list_run(Some(&mask), 4), vec![0, 2, 3]);
}

#[test]
fn a_buffer_of_the_upper_bound_is_large_enough() {
    for (count, bound) in [(64, 0.0), (64, 4.0), (1, 0.0)] {
        let pixels = ramp(count);
        let raster = RasterView::new(count as u32, 1, 1, &pixels).unwrap();
        let options = EncodeOptions::new().with_max_z_error(d(bound));
        let limit = encoded_len_upper_bound(raster, None, options).unwrap();
        let mut out = vec![0u8; limit];
        let written = encode_into(raster, None, options, &mut out).unwrap();
        assert!(written <= limit);
        assert_eq!(out[..written], encode(raster, None, options).unwrap());
    }
}

#[test]
fn a_buffer_of_the_upper_bound_takes_a_band_set() {
    let pixels = ramp(6 * 4 * 3);
    let set = BandSetView::new(6, 4, 1, 3, BandLayout::Bsq, &pixels).unwrap();
    let options = EncodeOptions::new();
    let limit = encoded_band_set_len_upper_bound(set, None, options).unwrap();
    let mut out = vec![0u8; limit];
    let written = encode_band_set_into(set, None, options, &mut out).unwrap();
    assert_eq!(out[..written], encode_band_set(set, None, options).unwrap());
}

#[test]
fn band_sets_come_back_in_either_layout() {
    let bsq = ramp(4 * 2 * 2 * 3);
    let mut interleaved = vec![0u16; bsq.len()];
    for band in 0..3 {
        for pixel in 0..8 {
            for dim in 0..2 {
                interleaved[(pixel * 3 + band) * 2 + dim] = bsq[(band * 8 + pixel) * 2 + dim];
            }
        }
    }
    for (layout, pixels) in [(BandLayout::Bsq, &bsq), (BandLayout::Interleaved, &interleaved)] {
        let set = BandSetView::new(4, 2, 2, 3, layout, pixels).unwrap();
        let blob = encode_band_set(set, None, EncodeOptions::new()).unwrap();
        let (info, found) = decode_band_set_vec::<u16>(&blob, BandLayout::Bsq).unwrap();
        assert_eq!(info.band_count(), 3);
        assert_eq!(found, bsq);
        let (_, found) = decode_band_set_vec::<u16>(&blob, BandLayout::Interleaved).unwrap();
        assert_eq!(found, interleaved);
    }
}

#[test]
fn bands_decoded_on_their_own_make_the_same_set() {
    let pixels = ramp(4 * 3 * 3);
    let mask: Vec<u8> = (0..12).map(|i| u8::from(i != 5)).collect();
    let set = BandSetView::new(4, 3, 1, 3, BandLayout::Bsq, &pixels).unwrap();
    let view = MaskView::new(4, 3, &mask).unwrap();
    let blob = encode_band_set(set, Some(view), EncodeOptions::new()).unwrap();
    let listed = scan_parallel_bands(&blob, None).unwrap();
    assert_eq!(listed.len(), 3);
    assert_eq!(listed[0].inherited_mask, None);
    assert_eq!(listed[1].inherited_mask, Some(mask));
    for layout in [BandLayout::Bsq, BandLayout::Interleaved] {
        let (info, expected) = decode_band_set_vec::<u16>(&blob, layout).unwrap();
        let mut bands = Vec::new();
        // The order in which the bands are decoded does not matter.
        for band in listed.iter().rev() {
            let (_, samples) = decode_parallel_band::<u16>(&blob, band).unwrap();
            bands.insert(0, samples);
        }
        let mut out = vec![0u16; info.value_count().unwrap()];
        arrange_bands(&mut out, &bands, 12, 1, layout);
        assert_eq!(out, expected);
    }
}

#[test]
fn strict_decoding_consumes_the_whole_input() {
    let pixels = ramp(9);
    let raster = RasterView::new(3, 3, 1, &pixels).unwrap();
    let mut blob = encode(raster, None, EncodeOptions::new()).unwrap();
    assert_eq!(decode(&blob).unwrap().info.blob_size, blob.len());
    blob.extend_from_slice(&[1, 2, 3]);
    assert!(decode(&blob)
        .unwrap_err()
        .message()
        .contains("only accepts a single LERC blob; found 3 trailing bytes"));
    assert_eq!(decode_first(&blob).unwrap().pixels, PixelData::U16(pixels));
    assert_eq!(inspect_first(&blob).unwrap().blob_size, blob.len() - 3);
}

/// Feeds a reader until its blob is complete and says how many bytes it took.
fn feed(reader: &mut StreamReader, bytes: &[u8], step: usize) -> Result<usize, Error> {
    let mut taken = 0;
    loop {
        let wanted = reader.wanted();
        let count = wanted.min(step).min(bytes.len() - taken);
        if count == 0 && wanted > 0 {
            reader.at_end()?;
            return Ok(taken);
        }
        let complete = reader.take(&bytes[taken..taken + count], None)?;
        taken += count;
        if complete {
            return Ok(taken);
        }
    }
}

#[test]
fn streams_take_exactly_one_blob() {
    let pixels = ramp(30);
    let raster = RasterView::new(6, 5, 1, &pixels).unwrap();
    let blob = encode(raster, None, EncodeOptions::new()).unwrap();
    let mut two = blob.clone();
    two.extend_from_slice(&blob);
    for step in [1, 7, 4096] {
        let mut reader = StreamReader::new();
        assert_eq!(feed(&mut reader, &two, step).unwrap(), blob.len());
        assert_eq!(reader.into_blob(), blob);
    }
    let mut reader = StreamReader::new();
    assert_eq!(feed(&mut reader, &[], 1).unwrap(), 0);
    let mut reader = StreamReader::new();
    assert_eq!(
        feed(&mut reader, &blob[..40], 16).unwrap_err(),
        Error::Truncated { offset: 40, needed: blob.len() - 40, available: 0 }
    );
    let mut reader = StreamReader::new();
    assert_eq!(feed(&mut reader, b"no such format", 16).unwrap_err(), Error::InvalidMagic);

    let mut builder = BandSetBuilder::new(None);
    builder.push(&blob).unwrap();
    builder.push(&blob).unwrap();
    assert_eq!(builder.finish().unwrap(), decode_band_set(&two).unwrap());
}

#[test]
fn slots_of_bands_are_filled_once() {
    for (layout, expected) in [
        (BandLayout::Bsq, vec![1u8, 2, 3, 4, 5, 6, 7, 8]),
        (BandLayout::Interleaved, vec![1, 2, 5, 6, 3, 4, 7, 8]),
    ] {
        let mut set = BandMaterializer::new(2, 2, 2, layout).unwrap();
        set.copy_band(1, &[5, 6, 7, 8]).unwrap();
        set.copy_band_with(0, |i: usize| [1u8, 2, 3, 4][i]).unwrap();
        assert_eq!(set.finish().unwrap(), expected);
    }
    let mut set = BandMaterializer::<u8>::new(2, 2, 2, BandLayout::Bsq).unwrap();
    set.copy_band(0, &[1, 2, 3, 4]).unwrap();
    assert!(set.finish().is_err());
}

#[test]
fn bands_may_be_copied_in_any_order() {
    let band = |b: usize| (0..6).map(|i| (10 * b + i) as u16).collect::<Vec<u16>>();
    for order in [[0, 1, 2], [2, 0, 1], [1, 2, 0]] {
        for layout in [BandLayout::Interleaved, BandLayout::Bsq] {
            let mut set = BandMaterializer::new(3, 2, 3, layout).unwrap();
            for b in order {
                set.copy_band(b, &band(b)).unwrap();
            }
            let out = set.finish().unwrap();
            assert_eq!(out.len(), 18);
            for b in 0..3 {
                for p in 0..3 {
                    for k in 0..2 {
                        let place = match layout {
                            BandLayout::Interleaved => (p * 3 + b) * 2 + k,
                            BandLayout::Bsq => (b * 3 + p) * 2 + k,
                        };
                        assert_eq!(out[place], band(b)[p * 2 + k]);
                    }
                }
            }
        }
    }
    let mut set = BandMaterializer::new(3, 2, 3, BandLayout::Bsq).unwrap();
    set.copy_band(2, &band(2)).unwrap();
    assert!(set.copy_band(2, &band(2)).is_err());
    set.copy_band(0, &band(0)).unwrap();
    assert!(set.finish().is_err());
}

#[test]
fn writers_place_samples_as_copies_do() {
    let band = |b: usize| (0..6).map(|i| (10 * b + i) as u16).collect::<Vec<u16>>();
    for layout in [BandLayout::Interleaved, BandLayout::Bsq] {
        let mut copied = BandMaterializer::new(3, 2, 2, layout).unwrap();
        copied.copy_band(0, &band(0)).unwrap();
        copied.copy_band(1, &band(1)).unwrap();
        let expected = copied.finish().unwrap();

        let mut set = BandMaterializer::new(3, 2, 2, layout).unwrap();
        let mut writer = set.band_writer(1).unwrap();
        writer.set_write_order(BandWriteOrder::DimMajor);
        for dim in 0..2 {
            for pixel in 0..3 {
                writer.write(pixel, dim, band(1)[pixel * 2 + dim]);
            }
        }
        writer.finish().unwrap();
        let mut writer = set.band_writer(0).unwrap();
        writer.set_write_order(BandWriteOrder::Arbitrary);
        writer.fill_default();
        for place in [5usize, 0, 3, 2, 4, 1] {
            writer.write(place / 2, place % 2, 99);
            writer.write(place / 2, place % 2, band(0)[place]);
        }
        writer.finish().unwrap();
        assert_eq!(set.finish().unwrap(), expected);
    }
}

#[test]
fn unwritten_samples_of_a_writer_default_only_when_filled() {
    let mut set = BandMaterializer::<u16>::new(2, 2, 2, BandLayout::Bsq).unwrap();
    let mut writer = set.band_writer(1).unwrap();
    writer.set_write_order(BandWriteOrder::Arbitrary);
    writer.fill_default();
    writer.write(1, 0, 7);
    writer.finish().unwrap();
    set.copy_band(0, &[1, 2, 3, 4]).unwrap();
    assert_eq!(set.finish().unwrap(), vec![1, 2, 3, 4, 0, 0, 7, 0]);

    let mut set = BandMaterializer::<u16>::new(2, 1, 2, BandLayout::Bsq).unwrap();
    let mut writer = set.band_writer(1).unwrap();
    writer.write(0, 0, 7);
    assert_eq!(
        writer.finish().unwrap_err().message(),
        "band 1 was finalized before all decoded values were initialized"
    );
}

#[test]
fn a_buffer_needs_room_for_the_band_that_is_copied() {
    let mut out = [0u8; 4];
    copy_band_values_into_slice(&mut out, &[1, 2, 3, 4], 2, 2, 0, 3, BandLayout::Bsq).unwrap();
    assert_eq!(out, [1, 2, 3, 4]);
    let mut out = [0u8; 8];
    copy_band_values_into_slice(&mut out, &[5, 6, 7, 8], 2, 2, 0, 3, BandLayout::Interleaved)
        .unwrap();
    assert_eq!(out, [5, 6, 0, 0, 0, 0, 7, 8]);

    let mut out = [9u8; 4];
    let mut sink = BandSink {
        out: &mut out,
        pixel_count: 2,
        depth: 1,
        band_count: 3,
        band_index: 0,
        layout: BandLayout::Interleaved,
    };
    BandWriter::fill_default(&mut sink);
    BandWriter::write(&mut sink, 1, 0, 5);
    assert_eq!(out, [0, 9, 9, 5]);

    let problem = copy_band_values_into_slice(&mut out, &[1], 2, 1, 0, 3, BandLayout::Bsq);
    let problem = problem.unwrap_err();
    assert_eq!(problem.message(), "decoded band length does not match its metadata");
    assert_eq!(problem.clone(), problem);
}

#[test]
fn coarse_bounds_leave_absent_samples_apart() {
    // Twice the bound below the lowest sample lies outside the type.
    let pixels: Vec<u8> = (0..64usize)
        .flat_map(|p| [2 + (p % 19) as u8, if p % 3 == 0 { 200 } else { 2 + (p % 7) as u8 }])
        .collect();
    let raster = RasterView::new(8, 8, 2, &pixels).unwrap();
    let options = EncodeOptions::new().with_max_z_error(d(5.0)).with_no_data_value(d(200.0));
    let decoded = decode(&encode(raster, None, options).unwrap()).unwrap();
    assert_eq!(decoded.info.no_data_value, Some(d(200.0)));
    match decoded.pixels {
        PixelData::U8(found) => {
            for (a, b) in found.iter().zip(&pixels) {
                assert_eq!(*a == 200, *b == 200);
                assert!(a.abs_diff(*b) <= 5);
            }
        }
        other => panic!("expected u8 pixels, got {other:?}"),
    }
}

#[test]
fn coarse_bounds_leave_absent_floats_apart() {
    let values: Vec<f64> = (0..64usize)
        .flat_map(|p| [p as f64 / 8.0 - 3.0, if p % 5 == 0 { 1.5 } else { p as f64 / 4.0 - 9.0 }])
        .collect();
    let bound = 0.75;
    let options = EncodeOptions::new().with_max_z_error(d(bound)).with_no_data_value(d(1.5));

    let doubles: Vec<Double> = values.iter().map(|v| d(*v)).collect();
    let raster = RasterView::new(8, 8, 2, &doubles).unwrap();
    match decode(&encode(raster, None, options).unwrap()).unwrap().pixels {
        PixelData::F64(found) => {
            for (a, b) in found.iter().zip(&values) {
                assert_eq!(*a == d(1.5), *b == 1.5);
                assert!((f64::from_bits(a.bits) - b).abs() <= bound);
            }
        }
        other => panic!("expected f64 pixels, got {other:?}"),
    }

    let singles: Vec<Single> = values.iter().map(|v| s(*v as f32)).collect();
    let raster = RasterView::new(8, 8, 2, &singles).unwrap();
    match decode(&encode(raster, None, options).unwrap()).unwrap().pixels {
        PixelData::F32(found) => {
            for (a, b) in found.iter().zip(&values) {
                assert_eq!(*a == s(1.5), *b == 1.5);
                assert!((f64::from(f32::from_bits(a.bits)) - b).abs() <= bound);
            }
        }
        other => panic!("expected f32 pixels, got {other:?}"),
    }
}

#[test]
fn mask_arrays_need_masks_of_their_bands() {
    let pixels = [1u8, 2, 3, 4];
    let mask = [1u8, 0];
    let encoded = |bands: usize| {
        let set = BandSetView::new(2, 1, 1, bands, BandLayout::Bsq, &pixels[..2 * bands]);
        let view = MaskView::new(2, 1, &mask).unwrap();
        encode_band_set(set.unwrap(), Some(view), EncodeOptions::new()).unwrap()
    };

    let mut one = decode_band_set(&encoded(1)).unwrap();
    assert_eq!(one.band_mask_ndarray().unwrap().unwrap().inner.as_slice().unwrap(), [1, 0]);
    for len in [1usize, 3] {
        one.band_masks[0] = Some(vec![1; len]);
        match one.band_mask_ndarray() {
            Err(Error::InvalidBlob(reason)) => {
                assert!(reason.starts_with("failed to build ndarray from decoded mask: "));
            }
            other => panic!("unexpected outcome: {:?}", other.is_ok()),
        }
    }
    one.band_masks = vec![None, Some(vec![1])];
    let array = one.into_band_mask_ndarray().unwrap().unwrap();
    assert_eq!(array.inner.as_slice().unwrap(), [0, 0]);

    let mut two = decode_band_set(&encoded(2)).unwrap();
    two.band_masks = vec![Some(vec![1, 0, 1, 1]), None];
    let array = two.band_mask_ndarray().unwrap().unwrap();
    assert_eq!(array.inner.as_slice().unwrap(), [1, 1, 0, 1]);
    two.band_masks = vec![Some(vec![1]), None];
    assert!(matches!(two.band_mask_ndarray(), Err(Error::InvalidBlob(_))));
    two.band_masks = vec![Some(vec![1, 1])];
    match two.band_mask_ndarray() {
        Err(Error::InvalidBlob(reason)) => {
            assert!(reason.starts_with("failed to build ndarray from decoded band mask: "));
        }
        other => panic!("unexpected outcome: {:?}", other.is_ok()),
    }
    two.band_masks = vec![None, None];
    assert!(two.band_mask_ndarray().unwrap().is_none());
}

#[test]
fn views_of_equal_contents_are_equal() {
    let (a, b) = ([1u16, 2, 3, 4], [1u16, 2, 3, 4]);
    assert_eq!(RasterView::new(2, 2, 1, &a).unwrap(), RasterView::new(2, 2, 1, &b).unwrap());
    assert_ne!(RasterView::new(2, 2, 1, &a).unwrap(), RasterView::new(2, 1, 2, &b).unwrap());
    let set = |layout| BandSetView::new(2, 1, 1, 2, layout, &a).unwrap();
    assert_eq!(set(BandLayout::Bsq), set(BandLayout::Bsq));
    assert_ne!(set(BandLayout::Bsq), set(BandLayout::Interleaved));
    assert_eq!(MaskView::new(2, 1, &[1, 0]).unwrap(), MaskView::new(2, 1, &[1, 0]).unwrap());
    assert_ne!(MaskView::new(2, 1, &[1, 0]).unwrap(), MaskView::new(2, 1, &[1, 1]).unwrap());
}

#[test]
fn counts_of_concatenations_add_up() {
    let blob = |value: u16| {
        let pixels = [value, 2, 3, 4];
        encode(RasterView::new(2, 2, 1, &pixels).unwrap(), None, EncodeOptions::new()).unwrap()
    };
    let mut a = blob(1);
    a.extend_from_slice(&blob(5));
    let mut b = blob(9);
    b.extend_from_slice(&blob(7));
    b.extend_from_slice(&blob(8));
    let mut both = a.clone();
    both.extend_from_slice(&b);
    assert_eq!(get_band_count(&a).unwrap(), 2);
    assert_eq!(get_band_count(&b).unwrap(), 3);
    assert_eq!(get_band_count(&both).unwrap(), 5);
    a.extend_from_slice(b"trailing bytes");
    assert_eq!(get_band_count(&a).unwrap_err(), Error::InvalidMagic);
}

#[test]
fn failed_reads_stop_where_they_fail() {
    // A table head with an empty run of symbols: the four numbers are read.
    let mut head = Vec::new();
    for number in [2i32, 256, 3, 3] {
        head.extend_from_slice(&number.to_le_bytes());
    }
    let mut cursor = Cursor::new(&head);
    assert!(read_huffman_tree(&mut cursor, 4).is_err());
    assert_eq!(cursor.offset(), 16);
    // An old table: nothing behind the first number is read.
    let old = 1i32.to_le_bytes();
    let mut cursor = Cursor::new(&old);
    assert!(read_huffman_tree(&mut cursor, 4).is_err());
    assert_eq!(cursor.offset(), 4);
    // Code lengths that are cut off.
    let mut short = Vec::new();
    for number in [2i32, 256, 0, 8] {
        short.extend_from_slice(&number.to_le_bytes());
    }
    short.extend_from_slice(&[0x83, 8, 0xff]);
    let mut cursor = Cursor::new(&short);
    assert!(read_huffman_tree(&mut cursor, 4).is_err());
    assert_eq!(cursor.offset(), 18);
    // More numbers than there is room for, and a look-up table without entries.
    let mut cursor = Cursor::new(&[0x83, 9, 1, 2, 3, 4]);
    assert!(decode_bits(&mut cursor, 4, 8, true).is_err());
    assert_eq!(cursor.offset(), 2);
    let mut cursor = Cursor::new(&[0xa3, 8, 0, 2, 3, 4]);
    assert!(decode_bits(&mut cursor, 4, 8, true).is_err());
    assert_eq!(cursor.offset(), 3);
}

#[test]
fn long_blocks_of_numbers_come_back() {
    let values: Vec<u32> = (0..70_000u32).map(|i| i * 29 % 1021).collect();
    let mut bytes = Vec::new();
    write_raw_block(&mut bytes, &values).unwrap();
    let mut cursor = Cursor::new(&bytes);
    let levels = decode_bits(&mut cursor, 6, 1 << 40, true).unwrap();
    assert_eq!(cursor.remaining(), 0);
    assert!(levels.iter().zip(&values).all(|(level, value)| *level == Some(*value)));
    assert_eq!(levels.len(), values.len());
}

fn doubles(blob: &[u8]) -> Vec<f64> {
    match decode(blob).unwrap().pixels {
        PixelData::F64(found) => found.iter().map(|value| f64::from_bits(value.bits)).collect(),
        other => panic!("expected f64 pixels, got {other:?}"),
    }
}

#[test]
fn huge_doubles_stay_near_their_bound() {
    let mut lcg = Lcg(21);
    for bound in [1e300f64, 1e306, 4e307] {
        let mut given = vec![1e308, 1.7e308];
        given.extend((0..254).map(|_| 1e308 + (lcg.next() % 70_001) as f64 * 1e303));
        let pixels: Vec<Double> = given.iter().map(|value| d(*value)).collect();
        let raster = RasterView::new(16, 16, 1, &pixels).unwrap();
        let options = EncodeOptions::new().with_max_z_error(d(bound));
        let blob = encode(raster, None, options).unwrap();
        for (found, value) in doubles(&blob).iter().zip(&given) {
            assert!((found - value).abs() <= bound + 1e294, "{found:e} and {value:e}");
        }
    }
}

#[test]
fn levels_beyond_the_range_of_doubles_overflow() {
    // The first block stores zeros as level two above its lowest sample; two steps overflow, and
    // so does the distance to the largest sample, which would limit them.
    let mut given = vec![0.0f64; 128];
    given[0] = -1.7e308;
    for row in 0..8 {
        for column in 8..16 {
            given[row * 16 + column] = 1.7e308;
        }
    }
    let pixels: Vec<Double> = given.iter().map(|value| d(*value)).collect();
    let raster = RasterView::new(16, 8, 1, &pixels).unwrap();
    let options = EncodeOptions::new().with_max_z_error(d(5e307));
    let found = doubles(&encode(raster, None, options).unwrap());
    assert_eq!(found[0], -1.7e308);
    assert_eq!(found[1], f64::INFINITY);
    assert_eq!(found[8], 1.7e308);
}

#[test]
fn negative_zero_may_lose_its_sign() {
    let values = vec![s(-0.0), s(-0.0), s(-0.0), s(-0.0)];
    let raster = RasterView::new(2, 2, 1, &values).unwrap();
    let blob = encode(raster, None, EncodeOptions::new()).unwrap();
    match decode(&blob).unwrap().pixels {
        PixelData::F32(found) => {
            for value in found {
                assert_eq!(f32::from_bits(value.bits), 0.0);
            }
        }
        other => panic!("expected f32 pixels, got {other:?}"),
    }
}

#[test]
fn arrays_hold_the_samples_of_every_type() {
    fn check<T: NdArrayElement + lerc::sample::Sample + PartialEq + std::fmt::Debug>(
        values: Vec<T>,
    ) {
        let raster = RasterView::new(3, 2, 1, &values).unwrap();
        let blob = encode(raster, None, EncodeOptions::new()).unwrap();
        let array = decode_ndarray::<T>(&blob).unwrap();
        assert_eq!(array.inner.shape(), &[2, 3]);
        for (i, value) in values.iter().enumerate() {
            assert_eq!(array.inner[IxDyn(&[i / 3, i % 3])], *value);
        }
        let doubles = decode_ndarray_f64(&blob).unwrap();
        assert_eq!(doubles.inner.shape(), &[2, 3]);
        assert_eq!(doubles.inner[IxDyn(&[1, 2])], values[5].to_f64());
    }
    check(vec![-3i8, 2, 1, 0, 5, 127]);
    check(vec![3u8, 2, 1, 0, 5, 255]);
    check(vec![-3i16, 2, 1, 0, 5, 1000]);
    check(vec![3u16, 2, 1, 0, 5, 60000]);
    check(vec![-3i32, 2, 1, 0, 5, 1 << 30]);
    check(vec![3u32, 2, 1, 0, 5, 4_000_000_000]);
    check(vec![s(-3.5), s(2.0), s(1.0), s(0.0), s(5.25), s(1e6)]);
    check(vec![d(-3.5), d(2.0), d(1.0), d(0.0), d(5.25), d(1e100)]);
}

#[test]
fn arrays_of_a_wrong_shape_are_refused() {
    fn check<T: NdArrayElement>(value: T) {
        assert_eq!(
            T::from_shape_vec(&[2, 2], vec![value; 3]).err().unwrap(),
            "ShapeError/OutOfBounds: out of bounds indexing"
        );
        assert_eq!(
            T::from_shape_vec(&[2, 2], vec![value; 5]).err().unwrap(),
            "ShapeError/IncompatibleShape: incompatible shapes"
        );
        assert_eq!(
            T::from_shape_vec(&[usize::MAX, 2], vec![value; 2]).err().unwrap(),
            "ShapeError/Overflow: arithmetic overflow"
        );
        let array = T::from_shape_vec(&[2, 1, 2], vec![value; 4]).ok().unwrap();
        assert_eq!(array.inner.shape(), &[2, 1, 2]);
    }
    check(1i8);
    check(1u8);
    check(1i16);
    check(1u16);
    check(1i32);
    check(1u32);
    check(s(1.0));
    check(d(1.0));
}

#[test]
fn failures_of_input_keep_their_kind_and_context() {
    let inner = std::io::Error::new(std::io::ErrorKind::TimedOut, "too slow");
    let error = Error::io("reading a LERC blob", inner);
    assert_eq!(
        error,
        Error::Io {
            kind: std::io::ErrorKind::TimedOut,
            message: "reading a LERC blob: too slow".to_string(),
        }
    );
    assert_eq!(error.message(), "I/O error: reading a LERC blob: too slow");
}

#[test]
fn errors_have_their_texts() {
    let pixels = ramp(16);
    let raster = RasterView::new(4, 4, 1, &pixels).unwrap();
    let blob = encode(raster, None, EncodeOptions::new()).unwrap();

    assert_eq!(
        decode(&blob[..20]).unwrap_err().message(),
        "truncated input at offset 18: need 4 bytes, have 2"
    );
    assert_eq!(
        encode_into(raster, None, EncodeOptions::new(), &mut [0; 8]).unwrap_err(),
        Error::OutputTooSmall { needed: blob.len(), available: 8 }
    );
    assert_eq!(
        Error::OutputTooSmall { needed: 90, available: 8 }.message(),
        "output buffer too small: need 90 bytes, have 8"
    );
    assert_eq!(decode(&[0; 64]).unwrap_err().message(), "invalid LERC magic");

    let mut other = blob.clone();
    other[6] = 9;
    assert_eq!(decode(&other).unwrap_err().message(), "unsupported LERC version 9");

    let mut other = blob.clone();
    other[18..22].copy_from_slice(&0u32.to_le_bytes());
    let sum = fletcher32(&other[14..]);
    other[10..14].copy_from_slice(&sum.to_le_bytes());
    assert!(get_blob_info(&other).unwrap_err().message().starts_with("invalid LERC header: "));

    let mut other = blob.clone();
    let last = other.len() - 1;
    other[last] ^= 1;
    let expected = u32::from_le_bytes(other[10..14].try_into().unwrap());
    let actual = fletcher32(&other[14..]);
    assert_eq!(decode(&other).unwrap_err(), Error::ChecksumMismatch { expected, actual });
    assert_eq!(
        Error::ChecksumMismatch { expected: 0x12ab, actual: 0xffff_ffff }.message(),
        "LERC checksum mismatch: expected 0x000012ab, got 0xffffffff"
    );
    assert_eq!(
        RasterView::new(4, 5, 1, &pixels).err().unwrap().message(),
        "invalid argument: raster slice length does not match its dimensions"
    );
    assert_eq!(
        RasterView::new(u32::MAX, u32::MAX, u32::MAX, &pixels).err().unwrap().message(),
        "size overflow while computing sample count"
    );
    assert_eq!(
        Error::UnsupportedFeature("Huffman version < 2").message(),
        "unsupported LERC feature: Huffman version < 2"
    );
    assert_eq!(
        Error::Internal("broken").message(),
        "internal codec invariant failed: broken"
    );
    assert_eq!(Error::invalid_blob("odd").message(), "invalid LERC blob: odd");
}

#[test]
fn masks_of_earlier_blobs_are_required() {
    let pixels = ramp(8);
    let mask = vec![1, 0, 1, 1];
    let set = BandSetView::new(2, 2, 1, 2, BandLayout::Bsq, &pixels).unwrap();
    let view = MaskView::new(2, 2, &mask).unwrap();
    let blob = encode_band_set(set, Some(view), EncodeOptions::new()).unwrap();
    let first = inspect_first(&blob).unwrap();
    assert_eq!(first.version, Version::Lerc2(4));
    assert_eq!(
        decode(&blob[first.blob_size..]).unwrap_err(),
        Error::UnsupportedFeature(
            "Lerc2 external masks require a caller-supplied mask via the *_with_mask APIs"
        )
    );
}

#[test]
fn decoding_to_doubles_promotes_the_native_samples() {
    let mask: Vec<u8> = (0..48).map(|i| u8::from(i % 7 != 3)).collect();
    let view = MaskView::new(8, 6, &mask).unwrap();
    let bytes: Vec<i8> = (0..48).map(|i| (i * i % 100) as i8 - 50).collect();
    let singles: Vec<Single> = (0..96).map(|i| s(i as f32 * 0.37 - 9.5)).collect();
    let blobs = [
        encode(RasterView::new(8, 6, 1, &bytes).unwrap(), Some(view), EncodeOptions::new()),
        encode(
            RasterView::new(8, 6, 2, &singles).unwrap(),
            Some(view),
            EncodeOptions::new().with_max_z_error(d(0.25)),
        ),
    ];
    for blob in blobs {
        let blob = blob.unwrap();
        let native = decode(&blob).unwrap();
        let doubles = decode_to_f64(&blob).unwrap();
        assert_eq!(doubles.pixels, native.pixels.to_f64());
        assert_eq!(doubles.mask, native.mask);
        assert_eq!(doubles.info, native.info);
    }
}

#[test]
fn inspecting_and_counting_agree_with_decoding() {
    let pixels = ramp(4 * 3 * 2);
    let set = BandSetView::new(4, 3, 1, 2, BandLayout::Bsq, &pixels).unwrap();
    let blob = encode_band_set(set, None, EncodeOptions::new()).unwrap();
    let decoded = decode_band_set(&blob).unwrap();
    assert_eq!(get_band_count(&blob).unwrap(), decoded.bands.len());
    let first = inspect_first(&blob).unwrap();
    assert_eq!(first, decode_first(&blob).unwrap().info);
    assert_eq!(get_blob_info(&blob[..first.blob_size]).unwrap(), first);
}

#[test]
fn versions_follow_what_is_stored() {
    fn version(depth: u32, pixels: &[u16], no_data: Option<f64>) -> u32 {
        let columns = pixels.len() as u32 / depth;
        let raster = RasterView::new(columns, 1, depth, pixels).unwrap();
        let options = match no_data {
            Some(value) => EncodeOptions::new().with_no_data_value(d(value)),
            None => EncodeOptions::new(),
        };
        let blob = encode(raster, None, options).unwrap();
        u32::from_le_bytes(blob[6..10].try_into().unwrap())
    }
    assert_eq!(version(1, &ramp(64), None), 4);
    let steps: Vec<u16> = ramp(64).iter().flat_map(|&value| [value, value + 1]).collect();
    assert_eq!(version(2, &steps, None), 5);
    assert_eq!(version(2, &[1, 2, 9, 4], Some(9.0)), 6);
    // The sixth version goes with the option, wherever the sentinel stands.
    assert_eq!(version(2, &[1, 2, 3, 4], Some(9.0)), 6);
    assert_eq!(version(2, &[9, 9, 3, 4], Some(9.0)), 6);
    assert_eq!(version(2, &[5, 5, 5, 5], Some(9.0)), 6);
    assert_eq!(version(2, &steps, Some(65_000.0)), 6);
    assert_eq!(version(2, &[1, 2, 3, 4], None), 5);
}

#[test]
fn sentinels_among_lossy_integers_come_back() {
    let mut lcg = Lcg(9);
    let mut pixels = Vec::new();
    for _ in 0..64 {
        pixels.push(1000 + (lcg.next() % 500) as i16);
        pixels.push(if lcg.next() % 3 == 0 { -9999 } else { 1000 + (lcg.next() % 500) as i16 });
    }
    let raster = RasterView::new(8, 8, 2, &pixels).unwrap();
    let options = EncodeOptions::new().with_max_z_error(d(10.0)).with_no_data_value(d(-9999.0));
    let blob = encode(raster, None, options).unwrap();
    let decoded = decode(&blob).unwrap();
    assert_eq!(decoded.info.no_data_value, Some(d(-9999.0)));
    assert_eq!(decoded.info.max_z_error, d(10.0));
    match decoded.pixels {
        PixelData::I16(found) => {
            for (a, b) in found.iter().zip(&pixels) {
                if *b == -9999 {
                    assert_eq!(*a, -9999);
                } else {
                    assert!((a - b).abs() <= 10, "{a} and {b}");
                }
            }
        }
        other => panic!("expected i16 pixels, got {other:?}"),
    }
}

#[test]
fn decoded_band_sets_hand_out_samples_and_masks() {
    let pixels = ramp(4 * 3 * 2);
    let mask: Vec<u8> = (0..12).map(|i| u8::from(i != 7)).collect();
    let set = BandSetView::new(4, 3, 1, 2, BandLayout::Bsq, &pixels).unwrap();
    let view = MaskView::new(4, 3, &mask).unwrap();
    let blob = encode_band_set(set, Some(view), EncodeOptions::new()).unwrap();
    let decoded = decode_band_set(&blob).unwrap();
    let (_, expected) = decode_band_set_vec::<u16>(&blob, BandLayout::Interleaved).unwrap();

    let array = decoded.to_ndarray::<u16>().unwrap();
    assert_eq!(array.inner.shape(), &[3, 4, 2]);
    assert_eq!(array.inner[IxDyn(&[2, 1, 1])], pixels[12 + 9]);
    let masks = decoded.band_mask_ndarray().unwrap().unwrap();
    assert_eq!(masks.inner.shape(), &[3, 4, 2]);
    assert_eq!(masks.inner[IxDyn(&[1, 3, 0])], 0);
    assert_eq!(masks.inner[IxDyn(&[1, 3, 1])], 0);
    assert_eq!(masks.inner[IxDyn(&[1, 2, 1])], 1);
    let again = decode_band_mask_ndarray(&blob).unwrap().unwrap();
    assert_eq!(again.inner, masks.inner);

    let mut out = vec![0u16; 24];
    decoded.clone().copy_into_slice(BandLayout::Interleaved, &mut out).unwrap();
    assert_eq!(out, expected);
    let mut short = vec![7u16; 3];
    assert!(decoded.clone().copy_into_slice(BandLayout::Bsq, &mut short).is_err());
    assert_eq!(short, vec![7, 7, 7]);
    assert!(decoded.clone().into_vec_with_layout::<u8>(BandLayout::Bsq).is_err());
    assert_eq!(decoded.into_vec_with_layout::<u16>(BandLayout::Interleaved).unwrap(), expected);
    assert_eq!(count_valid_in_block(&mask, 4, 2, 1, 2, 2), 3);
}

#[test]
fn options_can_drop_the_sentinel() {
    let options = EncodeOptions::new().with_no_data_value(d(3.0));
    assert_eq!(options.no_data_value, Some(d(3.0)));
    assert_eq!(options.without_no_data_value(), EncodeOptions::new());
    assert!(EncodeOptions::new().with_max_z_error(d(-1.0)).validate().is_err());
    assert!(EncodeOptions::new().validate().is_ok());
}
