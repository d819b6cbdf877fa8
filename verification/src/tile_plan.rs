//! Choosing how a tile is stored: the shortest of its encodings.

use crate::float;
use crate::float::Double;
use crate::lerc1;
use crate::lerc2_body;
use crate::lerc2_body::is_near_half;
use crate::sample::Sample;
use crate::stuffed;
use crate::stuffed::{bits_required, max_of, write_raw_block};
use crate::types;
use crate::types::DataType;
use crate::values;
use crate::values::{append_value_as, coerce_f64_to_data_type, promote_all};
use vstd::prelude::*;

verus! {

/// The bits of `0.000000000001`.
pub const EPSILON_BITS: u64 = 0x3d71_9799_812d_ea11;

/// Whether a number is a value of an integer or single-precision type.
pub open spec fn fits(value: Double, data_type: DataType) -> bool {
    values::coerced(value, data_type).same(value)
}

/// The narrowest type that an offset can be stored in, with its reduction code.
pub open spec fn reduction(value: Double, data_type: DataType) -> (nat, DataType) {
    match data_type {
        DataType::I8 | DataType::U8 => (0, data_type),
        DataType::I16 => if fits(value, DataType::I8) {
            (2, DataType::I8)
        } else if fits(value, DataType::U8) {
            (1, DataType::U8)
        } else {
            (0, DataType::I16)
        },
        DataType::U16 => if fits(value, DataType::U8) {
            (1, DataType::U8)
        } else {
            (0, DataType::U16)
        },
        DataType::I32 => if fits(value, DataType::U8) {
            (3, DataType::U8)
        } else if fits(value, DataType::I16) {
            (2, DataType::I16)
        } else if fits(value, DataType::U16) {
            (1, DataType::U16)
        } else {
            (0, DataType::I32)
        },
        DataType::U32 => if fits(value, DataType::U8) {
            (2, DataType::U8)
        } else if fits(value, DataType::U16) {
            (1, DataType::U16)
        } else {
            (0, DataType::U32)
        },
        DataType::F32 => if fits(value, DataType::U8) {
            (2, DataType::U8)
        } else if fits(value, DataType::I16) {
            (1, DataType::I16)
        } else {
            (0, DataType::F32)
        },
        DataType::F64 => if fits(value, DataType::I16) {
            (3, DataType::I16)
        } else if fits(value, DataType::I32) {
            (2, DataType::I32)
        } else if fits(value, DataType::F32) {
            (1, DataType::F32)
        } else {
            (0, DataType::F64)
        },
    }
}

/// A reader recovers the type of an offset from its reduction code.
pub proof fn law_reduction_inverse(value: Double, data_type: DataType)
    ensures
        reduction(value, data_type).0 < 4,
        types::type_of_code(
            lerc2_body::reduced_code(data_type, reduction(value, data_type).0 as int),
        ) == Some(reduction(value, data_type).1),
{
}

/// A reduced type holds the offset, where the type itself does.
pub proof fn law_reduction_fits(value: Double, data_type: DataType)
    requires
        fits(value, data_type),
    ensures
        fits(value, reduction(value, data_type).1),
{
}

/// The narrowest type that an offset can be stored in.
pub fn reduce_data_type(value: Double, data_type: DataType) -> (r: (u8, DataType))
    ensures
        (r.0 as nat, r.1) == reduction(value, data_type),
{
    let i8_fits = coerce_f64_to_data_type(value, DataType::I8).equals(value);
    let u8_fits = coerce_f64_to_data_type(value, DataType::U8).equals(value);
    let i16_fits = coerce_f64_to_data_type(value, DataType::I16).equals(value);
    let u16_fits = coerce_f64_to_data_type(value, DataType::U16).equals(value);
    match data_type {
        DataType::I8 | DataType::U8 => (0, data_type),
        DataType::I16 => if i8_fits {
            (2, DataType::I8)
        } else if u8_fits {
            (1, DataType::U8)
        } else {
            (0, DataType::I16)
        },
        DataType::U16 => if u8_fits {
            (1, DataType::U8)
        } else {
            (0, DataType::U16)
        },
        DataType::I32 => if u8_fits {
            (3, DataType::U8)
        } else if i16_fits {
            (2, DataType::I16)
        } else if u16_fits {
            (1, DataType::U16)
        } else {
            (0, DataType::I32)
        },
        DataType::U32 => if u8_fits {
            (2, DataType::U8)
        } else if u16_fits {
            (1, DataType::U16)
        } else {
            (0, DataType::U32)
        },
        DataType::F32 => if u8_fits {
            (2, DataType::U8)
        } else if i16_fits {
            (1, DataType::I16)
        } else {
            (0, DataType::F32)
        },
        DataType::F64 => if i16_fits {
            (3, DataType::I16)
        } else if coerce_f64_to_data_type(value, DataType::I32).equals(value) {
            (2, DataType::I32)
        } else if coerce_f64_to_data_type(value, DataType::F32).equals(value) {
            (1, DataType::F32)
        } else {
            (0, DataType::F64)
        },
    }
}

/// The width of a quantization step.
pub open spec fn step(max_z_error: Double) -> Double {
    Double { bits: float::TWO_BITS }.product(max_z_error)
}

/// What a reconstructed value may be off by: the error bound and a margin for rounding.
pub open spec fn tolerance(max_z_error: Double) -> Double {
    max_z_error.sum(
        max_z_error.absolute().product(Double { bits: EPSILON_BITS }).sum(
            Double { bits: EPSILON_BITS },
        ),
    )
}

/// The number of steps from the offset to the largest value, where it is a positive 32-bit
/// number.
pub open spec fn top_level(offset: Double, max_value: Double, max_z_error: Double) -> Option<u32> {
    max_value.difference(offset).quotient(step(max_z_error)).positive_ceiling()
}

/// The level of a value.
pub open spec fn level_of(value: Double, offset: Double, max_z_error: Double, top: u32) -> u32 {
    value.difference(offset).quotient(step(max_z_error)).level(top) as u32
}

/// The value that a level stands for.
pub open spec fn rebuilt(
    level: u32,
    offset: Double,
    max_value: Double,
    max_z_error: Double,
    top: u32,
) -> Double {
    if level < top {
        offset.sum(float::double_of_int(level as int).product(step(max_z_error)))
    } else {
        max_value
    }
}

/// Whether the level of a value stands for it closely enough.
pub open spec fn close(
    value: Double,
    offset: Double,
    max_value: Double,
    max_z_error: Double,
    top: u32,
) -> bool {
    !tolerance(max_z_error).below(
        rebuilt(
            level_of(value, offset, max_z_error, top),
            offset,
            max_value,
            max_z_error,
            top,
        ).difference(value).absolute(),
    )
}

/// The levels of some values.
pub open spec fn levels_of(
    found: Seq<Double>,
    offset: Double,
    max_z_error: Double,
    top: u32,
) -> Seq<u32> {
    Seq::new(found.len(), |i: int| level_of(found[i], offset, max_z_error, top))
}

/// Whether every level stands for its value closely enough.
pub open spec fn all_close(
    found: Seq<Double>,
    offset: Double,
    max_value: Double,
    max_z_error: Double,
    top: u32,
) -> bool {
    forall|i: int|
        0 <= i < found.len() ==> close(#[trigger] found[i], offset, max_value, max_z_error, top)
}

/// The levels of a tile, where bit stuffing can store it within the error bound.
#[verifier::opaque]
pub open spec fn quantized_levels(
    found: Seq<Double>,
    offset: Double,
    max_value: Double,
    max_z_error: Double,
) -> Option<Seq<u32>> {
    if !(Double { bits: 0 }).below(max_z_error) {
        None
    } else {
        match top_level(offset, max_value, max_z_error) {
            None => None,
            Some(top) => {
                let levels = levels_of(found, offset, max_z_error, top);
                if all_close(found, offset, max_value, max_z_error, top) && 1
                    <= stuffed::bits_needed(stuffed::largest(levels)) <= 31 {
                    Some(levels)
                } else {
                    None
                }
            },
        }
    }
}

/// How one tile is stored.
#[verifier::ext_equal]
pub struct TileShape {
    /// Whether the values are differences from the depth before.
    pub diff: bool,
    /// Zero for raw samples, one for bit stuffing, two for zeros, three for a constant.
    pub code: nat,
    /// The reduction code of the offset.
    pub type_code: nat,
    /// The bytes behind the header byte.
    pub body: Seq<u8>,
}

/// The shortest encoding of some values; raw samples are an alternative where they are given.
#[verifier::opaque]
pub open spec fn chosen(
    found: Seq<Double>,
    raw: Option<Seq<u8>>,
    base: DataType,
    max_z_error: Double,
    diff: bool,
) -> Option<TileShape> {
    let low = lerc1::least(lerc1::top(), found);
    let high = lerc1::greatest(lerc1::bottom(), found);
    let (type_code, offset_type) = reduction(low, base);
    let offset = values::scalar_bytes(low, offset_type);
    let plain = match raw {
        Some(data) => Some(TileShape { diff: false, code: 0, type_code: 0, body: data }),
        None => None,
    };
    if found.len() == 0 || (low.same(Double { bits: 0 }) && high.same(Double { bits: 0 })) {
        Some(TileShape { diff, code: 2, type_code: 0, body: seq![] })
    } else if low.same(high) {
        Some(TileShape { diff, code: 3, type_code, body: offset })
    } else {
        match quantized_levels(found, low, high, max_z_error) {
            None => plain,
            Some(levels) => {
                let body = offset + stuffed::stuffed_bytes(levels);
                if raw is None || body.len() < raw->0.len() {
                    Some(TileShape { diff, code: 1, type_code, body })
                } else {
                    plain
                }
            },
        }
    }
}

/// The codes of a tile have two bits each; raw samples are never differences.
pub proof fn lemma_chosen_codes(
    found: Seq<Double>,
    raw: Option<Seq<u8>>,
    base: DataType,
    max_z_error: Double,
    diff: bool,
)
    ensures
        raw is Some ==> chosen(found, raw, base, max_z_error, diff) is Some,
        chosen(found, raw, base, max_z_error, diff) matches Some(shape) ==> shape.code < 4
            && shape.type_code < 4 && (shape.diff == diff || shape.code == 0) && (raw is None ==>
        shape.diff == diff && shape.code != 0),
        !diff ==> (chosen(found, raw, base, max_z_error, diff) matches Some(shape) ==> !shape.diff),
{
    reveal(chosen);
    law_reduction_inverse(lerc1::least(lerc1::top(), found), base);
}

/// The differences between two depths of a tile.
pub open spec fn differences(current: Seq<Double>, previous: Seq<Double>) -> Seq<Double> {
    Seq::new(current.len(), |i: int| current[i].difference(previous[i]))
}

/// The bits of `-2147483648.0`.
pub const I32_MIN_BITS: u64 = 0xc1e0_0000_0000_0000;

/// The bits of `2147483647.0`.
pub const I32_MAX_BITS: u64 = 0x41df_ffff_ffc0_0000;

/// Whether every difference is within the range of a 32-bit integer.
pub open spec fn all_bounded(found: Seq<Double>) -> bool {
    forall|i: int|
        0 <= i < found.len() ==> !(#[trigger] found[i]).below(Double { bits: I32_MIN_BITS })
            && !(Double { bits: I32_MAX_BITS }).below(found[i])
}

/// Whether tiles may hold differences between depths.
pub open spec fn diff_possible(data_type: DataType, max_z_error: Double, depth: nat) -> bool {
    depth > 1 && data_type.integer() && lerc2_body::near_half(max_z_error)
}

/// How a tile is stored at one depth: as differences from the depth before where that is
/// shorter.
pub open spec fn tile_shape<T: Sample>(
    current: Seq<T>,
    previous: Option<Seq<T>>,
    max_z_error: Double,
    depth: nat,
) -> TileShape {
    let found = values::promoted_all(current);
    let absolute = chosen(
        found,
        Some(values::encoded_all(current)),
        T::kind(),
        max_z_error,
        false,
    )->0;
    match previous {
        None => absolute,
        Some(before) => {
            let steps = differences(found, values::promoted_all(before));
            if diff_possible(T::kind(), max_z_error, depth) && all_bounded(steps) {
                match chosen(steps, None, DataType::I32, max_z_error, true) {
                    None => absolute,
                    Some(shape) => if shape.body.len() < absolute.body.len() {
                        shape
                    } else {
                        absolute
                    },
                }
            } else {
                absolute
            }
        },
    }
}

/// The codes of a planned tile have two bits each.
pub proof fn lemma_shape_codes<T: Sample>(
    current: Seq<T>,
    previous: Option<Seq<T>>,
    max_z_error: Double,
    depth: nat,
)
    ensures
        tile_shape(current, previous, max_z_error, depth).code < 4,
        tile_shape(current, previous, max_z_error, depth).type_code < 4,
{
    let found = values::promoted_all(current);
    lemma_chosen_codes(
        found,
        Some(values::encoded_all(current)),
        T::kind(),
        max_z_error,
        false,
    );
    if let Some(before) = previous {
        lemma_chosen_codes(
            differences(found, values::promoted_all(before)),
            None,
            DataType::I32,
            max_z_error,
            true,
        );
    }
}

/// How one tile is stored.
pub struct TilePlan {
    pub diff: bool,
    pub code: u8,
    pub type_code: u8,
    pub body: Vec<u8>,
}

impl View for TilePlan {
    type V = TileShape;

    open spec fn view(&self) -> TileShape {
        TileShape {
            diff: self.diff,
            code: self.code as nat,
            type_code: self.type_code as nat,
            body: self.body@,
        }
    }
}

/// Quantizes the values of a tile.
fn try_levels(found: &Vec<Double>, offset: Double, max_value: Double, max_z_error: Double) -> (r:
    Option<Vec<u32>>)
    ensures
        match r {
            Some(levels) => quantized_levels(found@, offset, max_value, max_z_error) == Some(
                levels@,
            ),
            None => quantized_levels(found@, offset, max_value, max_z_error) is None,
        },
{
    if !(Double { bits: 0 }).less_than(max_z_error) {
        proof {
            reveal(quantized_levels);
        }
        return None;
    }
    let scale = Double { bits: float::TWO_BITS }.times(max_z_error);
    let top: u32 = match max_value.minus(offset).over(scale).ceil_level() {
        Some(top) => top,
        None => {
            proof {
                reveal(quantized_levels);
            }
            return None;
        },
    };
    let epsilon = Double { bits: EPSILON_BITS };
    let limit = max_z_error.plus(max_z_error.abs().times(epsilon).plus(epsilon));
    let mut levels: Vec<u32> = Vec::with_capacity(found.len());
    let mut i: usize = 0;
    while i < found.len()
        invariant
            i <= found@.len(),
            scale == step(max_z_error),
            top_level(offset, max_value, max_z_error) == Some(top),
            limit == tolerance(max_z_error),
            (Double { bits: 0 }).below(max_z_error),
            levels@.len() == i,
            forall|j: int|
                0 <= j < i ==> #[trigger] levels@[j] == level_of(
                    found@[j],
                    offset,
                    max_z_error,
                    top,
                ),
            forall|j: int|
                0 <= j < i ==> close(#[trigger] found@[j], offset, max_value, max_z_error, top),
        decreases found@.len() - i,
    {
        let level: u32 = found[i].minus(offset).over(scale).to_level(top);
        let rebuilt = if level < top {
            offset.plus(Double::from_integer(level as i64).times(scale))
        } else {
            max_value
        };
        if limit.less_than(rebuilt.minus(found[i]).abs()) {
            proof {
                assert(!close(found@[i as int], offset, max_value, max_z_error, top));
                assert(!all_close(found@, offset, max_value, max_z_error, top));
                reveal(quantized_levels);
            }
            return None;
        }
        levels.push(level);
        i += 1;
    }
    proof {
        reveal(quantized_levels);
        assert(levels@ =~= levels_of(found@, offset, max_z_error, top));
    }
    let bits: u8 = bits_required(max_of(levels.as_slice()) as usize);
    if bits == 0 || bits > 31 {
        return None;
    }
    Some(levels)
}

/// The smallest and the largest value.
fn min_max(found: &Vec<Double>) -> (r: (Double, Double))
    ensures
        r.0 == lerc1::least(lerc1::top(), found@),
        r.1 == lerc1::greatest(lerc1::bottom(), found@),
{
    lerc1::widen_range(
        Double { bits: float::DOUBLE_INFINITY },
        Double { bits: float::DOUBLE_SIGN + float::DOUBLE_INFINITY },
        found,
    )
}

/// Chooses the shortest encoding of some values.
fn choose_block_plan(
    found: &Vec<Double>,
    raw: Option<Vec<u8>>,
    base: DataType,
    max_z_error: Double,
    diff: bool,
) -> (r: Option<TilePlan>)
    requires
        found@.len() <= 1024,
    ensures
        match r {
            Some(plan) => chosen(
                found@,
                types::optional_seq(raw),
                base,
                max_z_error,
                diff,
            ) == Some(plan@),
            None => chosen(found@, types::optional_seq(raw), base, max_z_error, diff) is None,
        },
{
    proof {
        reveal(chosen);
        reveal(quantized_levels);
    }
    if found.len() == 0 {
        return Some(TilePlan { diff, code: 2, type_code: 0, body: Vec::new() });
    }
    let (low, high) = min_max(found);
    let zero = Double { bits: 0 };
    if low.equals(zero) && high.equals(zero) {
        return Some(TilePlan { diff, code: 2, type_code: 0, body: Vec::new() });
    }
    let (type_code, offset_type) = reduce_data_type(low, base);
    let mut body: Vec<u8> = Vec::new();
    append_value_as(&mut body, low, offset_type);
    proof {
        assert(body@ =~= values::scalar_bytes(low, offset_type));
    }
    if low.equals(high) {
        return Some(TilePlan { diff, code: 3, type_code, body });
    }
    if let Some(levels) = try_levels(found, low, high, max_z_error) {
        let written = write_raw_block(&mut body, levels.as_slice());
        let shorter = match &raw {
            Some(data) => body.len() < data.len(),
            None => true,
        };
        if shorter {
            return Some(TilePlan { diff, code: 1, type_code, body });
        }
    }
    match raw {
        Some(data) => Some(TilePlan { diff: false, code: 0, type_code: 0, body: data }),
        None => None,
    }
}

/// The differences between two depths, where all of them are in range.
fn build_diff_values(current: &Vec<Double>, previous: &Vec<Double>) -> (r: Option<Vec<Double>>)
    requires
        current@.len() == previous@.len(),
    ensures
        match r {
            Some(steps) => steps@ == differences(current@, previous@) && all_bounded(steps@),
            None => !all_bounded(differences(current@, previous@)),
        },
{
    let ghost wanted = differences(current@, previous@);
    let mut steps: Vec<Double> = Vec::with_capacity(current.len());
    let mut i: usize = 0;
    while i < current.len()
        invariant
            i <= current@.len(),
            current@.len() == previous@.len(),
            wanted == differences(current@, previous@),
            steps@.len() == i,
            forall|j: int|
                0 <= j < i ==> #[trigger] steps@[j] == wanted[j] && !steps@[j].below(
                    Double { bits: I32_MIN_BITS },
                ) && !(Double { bits: I32_MAX_BITS }).below(steps@[j]),
        decreases current@.len() - i,
    {
        let step = current[i].minus(previous[i]);
        if step.less_than(Double { bits: I32_MIN_BITS }) || (Double { bits: I32_MAX_BITS }).less_than(
            step,
        ) {
            assert(wanted[i as int] == step);
            return None;
        }
        steps.push(step);
        i += 1;
    }
    assert(steps@ =~= wanted);
    Some(steps)
}

/// Appends the bytes of some samples.
pub fn append_samples<T: Sample>(out: &mut Vec<u8>, samples: &[T])
    ensures
        final(out)@ == old(out)@ + values::encoded_all(samples@),
{
    let ghost before = out@;
    let mut i: usize = 0;
    proof {
        assert(samples@.subrange(0, 0) =~= seq![]);
    }
    while i < samples.len()
        invariant
            i <= samples@.len(),
            out@ =~= before + values::encoded_all(samples@.subrange(0, i as int)),
        decreases samples@.len() - i,
    {
        proof {
            assert(samples@.subrange(0, i + 1).drop_last() =~= samples@.subrange(0, i as int));
        }
        samples[i].write_le(out);
        i += 1;
    }
    proof {
        assert(samples@.subrange(0, samples@.len() as int) =~= samples@);
    }
}

/// Plans one tile at one depth.
pub fn plan_tile<T: Sample>(
    current: &Vec<T>,
    previous: Option<&Vec<T>>,
    max_z_error: Double,
    depth: usize,
) -> (r: TilePlan)
    requires
        current@.len() <= 1024,
        previous matches Some(before) ==> before@.len() == current@.len(),
    ensures
        r@ == tile_shape(
            current@,
            match previous {
                Some(before) => Some(before@),
                None => None,
            },
            max_z_error,
            depth as nat,
        ),
{
    let found: Vec<Double> = promote_all(current.as_slice());
    let mut raw: Vec<u8> = Vec::new();
    append_samples(&mut raw, current.as_slice());
    proof {
        assert(raw@ =~= values::encoded_all(current@));
    }
    proof {
        lemma_chosen_codes(
            found@,
            Some(raw@),
            T::kind(),
            max_z_error,
            false,
        );
    }
    let absolute: TilePlan = match choose_block_plan(
        &found,
        Some(raw),
        T::data_type(),
        max_z_error,
        false,
    ) {
        Some(plan) => plan,
        None => TilePlan { diff: false, code: 2, type_code: 0, body: Vec::new() },
    };
    if let Some(before) = previous {
        if depth > 1 && T::data_type().is_integer() && is_near_half(max_z_error) {
            let earlier: Vec<Double> = promote_all(before.as_slice());
            if let Some(steps) = build_diff_values(&found, &earlier) {
                if let Some(plan) = choose_block_plan(
                    &steps,
                    None,
                    DataType::I32,
                    max_z_error,
                    true,
                ) {
                    if plan.body.len() < absolute.body.len() {
                        return plan;
                    }
                }
            }
        }
    }
    absolute
}

} // verus!
