//! A reader and writer for the LERC raster compression format.
//!
//! [`encoder`] and [`band_encoder`] write Lerc2 blobs; [`reader`], [`bands`] and [`nd`] read
//! blobs of both formats; [`stream`] finds the end of a blob while its bytes arrive. The modules
//! whose names end in `_laws` state what reading gives back of what was written.

use vstd::prelude::*;

pub mod agreement_laws;
pub mod allocation;
pub mod analysis;
pub mod arithmetic_laws;
pub mod band_encoder;
pub mod band_laws;
pub mod bands;
pub mod bit_laws;
pub mod bitpack;
pub mod bitstream;
pub mod blob_laws;
pub mod blocks;
pub mod body_laws;
pub mod bytes;
pub mod checksum;
pub mod choice_laws;
pub mod coding_laws;
pub mod concat_laws;
pub mod cursor;
pub mod decode_laws;
pub mod encoder;
pub mod error;
pub mod float;
pub mod float_error;
pub mod float_laws;
pub mod format_laws;
pub mod huffman;
pub mod huffman_laws;
pub mod huffman_writer;
pub mod lerc2_header;
pub mod lerc1;
pub mod lerc1_laws;
pub mod lerc2;
pub mod lerc2_body;
pub mod lerc2_huffman;
pub mod lerc2_laws;
pub mod mask;
pub mod mask_laws;
pub mod materialize;
pub mod nd;
pub mod nd_laws;
pub mod no_data;
pub mod options;
pub mod plan;
pub mod promotion_laws;
pub mod range_laws;
pub mod raster;
pub mod raster_laws;
pub mod reader;
pub mod reader_laws;
pub mod refusal_laws;
pub mod rounding;
pub mod sample;
pub mod sentinel_laws;
pub mod sharing_laws;
pub mod size_laws;
pub mod stream;
pub mod stream_laws;
pub mod stuffed;
pub mod table_laws;
pub mod text;
pub mod tile_plan;
pub mod tile_laws;
pub mod tiling;
pub mod tiling_laws;
pub mod types;
pub mod values;
pub mod word_laws;

verus! {

} // verus!
