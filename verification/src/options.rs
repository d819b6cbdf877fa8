//! What an encoder is asked for.

use crate::error::{Error, Fault, Result};
use crate::float::Double;
use vstd::prelude::*;

verus! {

/// Controls the accuracy and representation of a newly encoded LERC blob.
#[derive(Debug, Clone, Copy, PartialEq, Eq, Structural)]
#[non_exhaustive]
pub struct EncodeOptions {
    /// Maximum absolute reconstruction error for valid samples.
    pub max_z_error: Double,
    /// Width and height of the square micro-blocks used by tiled encoding.
    pub micro_block_size: u32,
    /// Optional per-sample no-data sentinel for rasters whose depth is greater than one.
    pub no_data_value: Option<Double>,
}

/// What is wrong with options, if anything.
pub open spec fn options_fault(options: EncodeOptions) -> Option<Fault> {
    if !options.max_z_error.finite() || options.max_z_error.below(Double { bits: 0 }) {
        Some(Fault::InvalidArgument("max_z_error must be finite and non-negative"@))
    } else if !(2 <= options.micro_block_size <= 32) {
        Some(Fault::InvalidArgument("micro_block_size must be in the range 2..=32"@))
    } else if options.no_data_value matches Some(value) && !value.finite() {
        Some(Fault::InvalidArgument("no_data_value must be finite when provided"@))
    } else {
        None
    }
}

impl EncodeOptions {
    /// Creates lossless options with canonical 8-by-8 micro-blocks.
    pub fn new() -> (r: EncodeOptions)
        ensures
            r.max_z_error == (Double { bits: 0 }),
            r.micro_block_size == 8,
            r.no_data_value is None,
            options_fault(r) is None,
    {
        EncodeOptions { max_z_error: Double { bits: 0 }, micro_block_size: 8, no_data_value: None }
    }

    /// Sets the requested maximum absolute reconstruction error.
    pub fn with_max_z_error(self, max_z_error: Double) -> (r: EncodeOptions)
        ensures
            r == (EncodeOptions { max_z_error, ..self }),
    {
        EncodeOptions {
            max_z_error,
            micro_block_size: self.micro_block_size,
            no_data_value: self.no_data_value,
        }
    }

    /// Sets the square micro-block size. Supported values are 2 through 32.
    pub fn with_micro_block_size(self, micro_block_size: u32) -> (r: EncodeOptions)
        ensures
            r == (EncodeOptions { micro_block_size, ..self }),
    {
        EncodeOptions {
            max_z_error: self.max_z_error,
            micro_block_size,
            no_data_value: self.no_data_value,
        }
    }

    /// Sets the no-data sentinel used by multidimensional rasters, which are then written as
    /// Lerc2 version 6.
    pub fn with_no_data_value(self, no_data_value: Double) -> (r: EncodeOptions)
        ensures
            r == (EncodeOptions { no_data_value: Some(no_data_value), ..self }),
    {
        EncodeOptions {
            max_z_error: self.max_z_error,
            micro_block_size: self.micro_block_size,
            no_data_value: Some(no_data_value),
        }
    }

    /// Removes a previously configured no-data sentinel.
    pub fn without_no_data_value(self) -> (r: EncodeOptions)
        ensures
            r == (EncodeOptions { no_data_value: None, ..self }),
    {
        EncodeOptions {
            max_z_error: self.max_z_error,
            micro_block_size: self.micro_block_size,
            no_data_value: None,
        }
    }

    /// Checks the options.
    pub fn validate(self) -> (r: Result<()>)
        ensures
            match r {
                Ok(_) => options_fault(self) is None,
                Err(e) => options_fault(self) == Some(e@),
            },
    {
        if !self.max_z_error.is_finite() || self.max_z_error.less_than(Double { bits: 0 }) {
            return Err(Error::InvalidArgument("max_z_error must be finite and non-negative"));
        }
        if self.micro_block_size < 2 || self.micro_block_size > 32 {
            return Err(Error::InvalidArgument("micro_block_size must be in the range 2..=32"));
        }
        if let Some(value) = self.no_data_value {
            if !value.is_finite() {
                return Err(Error::InvalidArgument("no_data_value must be finite when provided"));
            }
        }
        Ok(())
    }
}

impl Default for EncodeOptions {
    fn default() -> (r: EncodeOptions)
        ensures
            r.max_z_error == (Double { bits: 0 }),
            r.micro_block_size == 8,
            r.no_data_value is None,
    {
        EncodeOptions::new()
    }
}

} // verus!
