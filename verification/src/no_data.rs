//! No-data sentinels: what is accepted as one, and what stands for it in a blob.

use crate::error::{Error, Fault, Result};
use crate::float;
use crate::float::Double;
use crate::sample::Sample;
use crate::types::DataType;
use vstd::prelude::*;

verus! {

/// The bits of the largest finite single.
pub const SINGLE_MAX_BITS: u64 = 0x47ef_ffff_e000_0000;

/// The bits of the largest finite double.
pub const DOUBLE_MAX_BITS: u64 = 0x7fef_ffff_ffff_ffff;

/// The bits of `4.0`.
pub const FOUR_BITS: u64 = 0x4010_0000_0000_0000;

/// The smallest number of a type.
pub open spec fn type_low(data_type: DataType) -> Double {
    match data_type {
        DataType::I8 => float::double_of_int(-128),
        DataType::U8 => float::double_of_int(0),
        DataType::I16 => float::double_of_int(-32768),
        DataType::U16 => float::double_of_int(0),
        DataType::I32 => float::double_of_int(-0x8000_0000),
        DataType::U32 => float::double_of_int(0),
        DataType::F32 => Double { bits: (float::DOUBLE_SIGN + SINGLE_MAX_BITS) as u64 },
        DataType::F64 => Double { bits: (float::DOUBLE_SIGN + DOUBLE_MAX_BITS) as u64 },
    }
}

/// The largest number of a type.
pub open spec fn type_high(data_type: DataType) -> Double {
    match data_type {
        DataType::I8 => float::double_of_int(127),
        DataType::U8 => float::double_of_int(255),
        DataType::I16 => float::double_of_int(32767),
        DataType::U16 => float::double_of_int(65535),
        DataType::I32 => float::double_of_int(0x7fff_ffff),
        DataType::U32 => float::double_of_int(0xffff_ffff),
        DataType::F32 => Double { bits: SINGLE_MAX_BITS },
        DataType::F64 => Double { bits: DOUBLE_MAX_BITS },
    }
}

/// Numeric `<=`.
pub open spec fn at_most(a: Double, b: Double) -> bool {
    a.below(b) || a.same(b)
}

/// A number put through the sample type and back.
pub open spec fn through<T: Sample>(value: Double) -> Double {
    T::demoted(value).promoted()
}

/// The outcome of checking a requested sentinel: the number that the samples are compared to.
pub open spec fn sentinel<T: Sample>(value: Option<Double>, depth: nat) -> std::result::Result<
    Option<Double>,
    Fault,
> {
    match value {
        None => Ok(None),
        Some(v) => if depth <= 1 {
            Err(Fault::InvalidArgument("no_data_value requires depth greater than one"@))
        } else if T::kind() != DataType::F64 && !(at_most(type_low(T::kind()), v) && at_most(
            v,
            type_high(T::kind()),
        )) {
            Err(Fault::InvalidArgument("no_data_value is outside the raster data type range"@))
        } else {
            Ok(Some(through::<T>(v)))
        },
    }
}

/// The error bound that integers of this type are stored with: a whole number, or one half
/// where they are kept exactly.
pub open spec fn effective_error(data_type: DataType, requested: Double) -> Double {
    if data_type.integer() {
        requested.floored().greater(Double { bits: float::HALF_BITS })
    } else {
        requested
    }
}

/// The error bound that keeps every sample.
pub open spec fn lossless_error(data_type: DataType) -> Double {
    if data_type.integer() {
        Double { bits: float::HALF_BITS }
    } else {
        Double { bits: 0 }
    }
}

/// How far from the other samples a sentinel has to be.
pub open spec fn exclusion(data_type: DataType, max_z_error: Double) -> Double {
    if data_type.integer() {
        max_z_error.floored()
    } else {
        Double { bits: float::TWO_BITS }.product(max_z_error)
    }
}

/// What stands for the sentinel among integers: a number just outside the range of the other
/// samples, where there is one. With an error bound it has to be further than the bound below
/// them, and of their type; else the samples are kept exactly.
pub open spec fn integer_stand_in<T: Sample>(
    original: Double,
    low: Double,
    high: Double,
    max_z_error: Double,
) -> (Double, Double) {
    let one = Double { bits: float::ONE_BITS };
    let half = Double { bits: float::HALF_BITS };
    let far = low.difference(max_z_error.floored().sum(one));
    let far_below = through::<T>(far);
    let below = through::<T>(low.difference(one));
    let above = through::<T>(high.sum(one));
    if !far.below(type_low(T::kind())) && far_below.below(low) {
        (max_z_error, far_below)
    } else if below.below(low) {
        (half, below)
    } else if high.below(above) && above.below(original) {
        (half, above)
    } else {
        (half, original)
    }
}

/// Numbers below the lowest sample, or half of it.
pub open spec fn candidates(low: Double, max_z_error: Double) -> Seq<Double> {
    let half_or_twice = if (Double { bits: 0 }).below(low) {
        low.quotient(Double { bits: float::TWO_BITS })
    } else {
        low.product(Double { bits: float::TWO_BITS })
    };
    seq![
        low.difference(Double { bits: FOUR_BITS }.product(max_z_error)),
        low.difference(Double { bits: 0x3f1a_36e2_eb1c_432d }),
        low.difference(Double { bits: 0x3f50_624d_d2f1_a9fc }),
        low.difference(Double { bits: 0x3f84_7ae1_47ae_147b }),
        low.difference(Double { bits: 0x3fb9_9999_9999_999a }),
        low.difference(Double { bits: float::ONE_BITS }),
        low.difference(Double { bits: 0x4024_0000_0000_0000 }),
        low.difference(Double { bits: 0x4059_0000_0000_0000 }),
        low.difference(Double { bits: 0x408f_4000_0000_0000 }),
        low.difference(Double { bits: 0x40c3_8800_0000_0000 }),
        half_or_twice,
    ]
}

/// The numbers that may stand for the sentinel among floating-point samples.
#[verifier::opaque]
pub open spec fn stand_ins<T: Sample>(low: Double, max_z_error: Double) -> Seq<Double> {
    let found = candidates(low, max_z_error);
    Seq::new(found.len(), |i: int| through::<T>(found[i]))
}

/// The greatest of the candidates that are finite, above `floor` and below `threshold`.
pub open spec fn best_stand_in(found: Seq<Double>, floor: Double, threshold: Double) -> Option<Double>
    decreases found.len(),
{
    if found.len() == 0 {
        None
    } else {
        let best = best_stand_in(found.drop_last(), floor, threshold);
        let candidate = found.last();
        if candidate.finite() && floor.below(candidate) && candidate.below(threshold) && (
        best matches Some(b) ==> b.below(candidate)) {
            Some(candidate)
        } else {
            best
        }
    }
}

/// What stands for the sentinel among floating-point samples.
pub open spec fn float_stand_in<T: Sample>(original: Double, low: Double, max_z_error: Double) -> (
    Double,
    Double,
) {
    let threshold = through::<T>(
        low.difference(Double { bits: float::TWO_BITS }.product(max_z_error)),
    );
    match best_stand_in(stand_ins::<T>(low, max_z_error), type_low(T::kind()), threshold) {
        Some(candidate) => (max_z_error, candidate),
        None => if at_most(low, original) {
            (Double { bits: 0 }, original)
        } else {
            (max_z_error, original)
        },
    }
}

/// The error bound and the stand-in for a sentinel, given the range of the other samples.
pub open spec fn stand_in<T: Sample>(
    original: Double,
    low: Double,
    high: Double,
    max_z_error: Double,
) -> (Double, Double) {
    let distance = exclusion(T::kind(), max_z_error);
    if !T::kind().integer() && max_z_error.same(Double { bits: 0 }) {
        (max_z_error, original)
    } else if at_most(low.difference(distance), original) && at_most(
        original,
        high.sum(distance),
    ) {
        (lossless_error(T::kind()), original)
    } else if T::kind().integer() {
        integer_stand_in::<T>(original, low, high, max_z_error)
    } else {
        float_stand_in::<T>(original, low, max_z_error)
    }
}

fn low_of(data_type: DataType) -> (r: Double)
    ensures
        r == type_low(data_type),
{
    match data_type {
        DataType::I8 => Double::from_integer(-128),
        DataType::U8 => Double::from_integer(0),
        DataType::I16 => Double::from_integer(-32768),
        DataType::U16 => Double::from_integer(0),
        DataType::I32 => Double::from_integer(-0x8000_0000),
        DataType::U32 => Double::from_integer(0),
        DataType::F32 => Double { bits: float::DOUBLE_SIGN + SINGLE_MAX_BITS },
        DataType::F64 => Double { bits: float::DOUBLE_SIGN + DOUBLE_MAX_BITS },
    }
}

fn high_of(data_type: DataType) -> (r: Double)
    ensures
        r == type_high(data_type),
{
    match data_type {
        DataType::I8 => Double::from_integer(127),
        DataType::U8 => Double::from_integer(255),
        DataType::I16 => Double::from_integer(32767),
        DataType::U16 => Double::from_integer(65535),
        DataType::I32 => Double::from_integer(0x7fff_ffff),
        DataType::U32 => Double::from_integer(0xffff_ffff),
        DataType::F32 => Double { bits: SINGLE_MAX_BITS },
        DataType::F64 => Double { bits: DOUBLE_MAX_BITS },
    }
}

fn not_above(a: Double, b: Double) -> (r: bool)
    ensures
        r == at_most(a, b),
{
    a.less_than(b) || a.equals(b)
}

fn pass_through<T: Sample>(value: Double) -> (r: Double)
    ensures
        r == through::<T>(value),
{
    T::from_f64(value).to_f64()
}

/// Checks a requested sentinel.
pub fn check_sentinel<T: Sample>(value: Option<Double>, depth: u32) -> (r: Result<Option<Double>>)
    ensures
        match r {
            Ok(found) => sentinel::<T>(value, depth as nat) == Ok::<Option<Double>, Fault>(found),
            Err(e) => sentinel::<T>(value, depth as nat) == Err::<Option<Double>, Fault>(e@),
        },
{
    match value {
        None => Ok(None),
        Some(v) => {
            if depth <= 1 {
                return Err(
                    Error::InvalidArgument("no_data_value requires depth greater than one"),
                );
            }
            let data_type = T::data_type();
            if data_type != DataType::F64 && !(not_above(low_of(data_type), v) && not_above(
                v,
                high_of(data_type),
            )) {
                return Err(
                    Error::InvalidArgument("no_data_value is outside the raster data type range"),
                );
            }
            Ok(Some(pass_through::<T>(v)))
        },
    }
}

/// The error bound that samples are stored with.
pub fn effective_max_z_error(data_type: DataType, requested: Double) -> (r: Double)
    requires
        requested.finite(),
    ensures
        r == effective_error(data_type, requested),
{
    if data_type.is_integer() {
        requested.floor().max(Double { bits: float::HALF_BITS })
    } else {
        requested
    }
}

fn resolve_integer_no_data<T: Sample>(
    original: Double,
    low: Double,
    high: Double,
    max_z_error: Double,
) -> (r: (Double, Double))
    requires
        max_z_error.finite(),
    ensures
        r == integer_stand_in::<T>(original, low, high, max_z_error),
{
    let one = Double { bits: float::ONE_BITS };
    let half = Double { bits: float::HALF_BITS };
    let far = low.minus(max_z_error.floor().plus(one));
    let far_below = pass_through::<T>(far);
    if !far.less_than(low_of(T::data_type())) && far_below.less_than(low) {
        return (max_z_error, far_below);
    }
    let below = pass_through::<T>(low.minus(one));
    if below.less_than(low) {
        return (half, below);
    }
    let above = pass_through::<T>(high.plus(one));
    if high.less_than(above) && above.less_than(original) {
        return (half, above);
    }
    (half, original)
}

fn list_stand_ins<T: Sample>(low: Double, max_z_error: Double) -> (r: Vec<Double>)
    ensures
        r@ == stand_ins::<T>(low, max_z_error),
{
    let two = Double { bits: float::TWO_BITS };
    let half_or_twice = if (Double { bits: 0 }).less_than(low) {
        low.over(two)
    } else {
        low.times(two)
    };
    let mut out: Vec<Double> = Vec::with_capacity(11);
    out.push(pass_through::<T>(low.minus((Double { bits: FOUR_BITS }).times(max_z_error))));
    out.push(pass_through::<T>(low.minus(Double { bits: 0x3f1a_36e2_eb1c_432d })));
    out.push(pass_through::<T>(low.minus(Double { bits: 0x3f50_624d_d2f1_a9fc })));
    out.push(pass_through::<T>(low.minus(Double { bits: 0x3f84_7ae1_47ae_147b })));
    out.push(pass_through::<T>(low.minus(Double { bits: 0x3fb9_9999_9999_999a })));
    out.push(pass_through::<T>(low.minus(Double { bits: float::ONE_BITS })));
    out.push(pass_through::<T>(low.minus(Double { bits: 0x4024_0000_0000_0000 })));
    out.push(pass_through::<T>(low.minus(Double { bits: 0x4059_0000_0000_0000 })));
    out.push(pass_through::<T>(low.minus(Double { bits: 0x408f_4000_0000_0000 })));
    out.push(pass_through::<T>(low.minus(Double { bits: 0x40c3_8800_0000_0000 })));
    out.push(pass_through::<T>(half_or_twice));
    proof {
        reveal(stand_ins);
        assert(out@ =~= stand_ins::<T>(low, max_z_error));
    }
    out
}

fn resolve_float_no_data<T: Sample>(original: Double, low: Double, max_z_error: Double) -> (r: (
    Double,
    Double,
))
    ensures
        r == float_stand_in::<T>(original, low, max_z_error),
{
    let floor = low_of(T::data_type());
    let threshold = pass_through::<T>(
        low.minus((Double { bits: float::TWO_BITS }).times(max_z_error)),
    );
    let found: Vec<Double> = list_stand_ins::<T>(low, max_z_error);
    let mut best: Option<Double> = None;
    let mut i: usize = 0;
    assert(found@.subrange(0, 0) =~= seq![]);
    while i < found.len()
        invariant
            i <= found@.len(),
            best == best_stand_in(found@.subrange(0, i as int), floor, threshold),
        decreases found@.len() - i,
    {
        proof {
            assert(found@.subrange(0, i + 1).drop_last() =~= found@.subrange(0, i as int));
        }
        let candidate = found[i];
        let better = match best {
            Some(b) => b.less_than(candidate),
            None => true,
        };
        if candidate.is_finite() && floor.less_than(candidate) && candidate.less_than(threshold)
            && better {
            best = Some(candidate);
        }
        i += 1;
    }
    assert(found@.subrange(0, found@.len() as int) =~= found@);
    match best {
        Some(candidate) => (max_z_error, candidate),
        None => if not_above(low, original) {
            (Double { bits: 0 }, original)
        } else {
            (max_z_error, original)
        },
    }
}

/// Finds the error bound and the stand-in for a sentinel.
pub fn resolve_no_data_encoding<T: Sample>(
    original: Double,
    low: Double,
    high: Double,
    max_z_error: Double,
) -> (r: (Double, Double))
    requires
        max_z_error.finite(),
    ensures
        r == stand_in::<T>(original, low, high, max_z_error),
{
    let data_type = T::data_type();
    if !data_type.is_integer() && max_z_error.equals(Double { bits: 0 }) {
        return (max_z_error, original);
    }
    let distance = if data_type.is_integer() {
        max_z_error.floor()
    } else {
        (Double { bits: float::TWO_BITS }).times(max_z_error)
    };
    if not_above(low.minus(distance), original) && not_above(original, high.plus(distance)) {
        let lossless = if data_type.is_integer() {
            Double { bits: float::HALF_BITS }
        } else {
            Double { bits: 0 }
        };
        return (lossless, original);
    }
    if data_type.is_integer() {
        resolve_integer_no_data::<T>(original, low, high, max_z_error)
    } else {
        resolve_float_no_data::<T>(original, low, max_z_error)
    }
}

} // verus!
