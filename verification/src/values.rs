//! Sample payloads: little-endian bytes read as samples or as doubles.

use crate::bytes;
use crate::error::{Error, Result};
use crate::float::{Double, Single};
use crate::sample;
use crate::sample::Sample;
use crate::types::{DataType, PixelData, PixelSeq};
use vstd::arithmetic::div_mod::*;
use vstd::arithmetic::mul::*;
use vstd::prelude::*;
use vstd::slice::slice_subrange;

verus! {

/// The `i`-th group of `width` bytes.
pub open spec fn chunk(bytes: Seq<u8>, i: int, width: int) -> Seq<u8> {
    bytes.subrange(i * width, (i + 1) * width)
}

/// The double that the bytes of one scalar stand for.
pub open spec fn scalar_value(bytes: Seq<u8>, data_type: DataType) -> Double {
    match data_type {
        DataType::I8 => i8::decoded(bytes).promoted(),
        DataType::U8 => u8::decoded(bytes).promoted(),
        DataType::I16 => i16::decoded(bytes).promoted(),
        DataType::U16 => u16::decoded(bytes).promoted(),
        DataType::I32 => i32::decoded(bytes).promoted(),
        DataType::U32 => u32::decoded(bytes).promoted(),
        DataType::F32 => Single::decoded(bytes).promoted(),
        DataType::F64 => Double::decoded(bytes).promoted(),
    }
}

/// A double put through another representation and back.
pub open spec fn coerced(value: Double, data_type: DataType) -> Double {
    match data_type {
        DataType::I8 => i8::demoted(value).promoted(),
        DataType::U8 => u8::demoted(value).promoted(),
        DataType::I16 => i16::demoted(value).promoted(),
        DataType::U16 => u16::demoted(value).promoted(),
        DataType::I32 => i32::demoted(value).promoted(),
        DataType::U32 => u32::demoted(value).promoted(),
        DataType::F32 => Single::demoted(value).promoted(),
        DataType::F64 => value,
    }
}

/// The bytes of a double in another representation.
pub open spec fn scalar_bytes(value: Double, data_type: DataType) -> Seq<u8> {
    match data_type {
        DataType::I8 => i8::demoted(value).encoded(),
        DataType::U8 => u8::demoted(value).encoded(),
        DataType::I16 => i16::demoted(value).encoded(),
        DataType::U16 => u16::demoted(value).encoded(),
        DataType::I32 => i32::demoted(value).encoded(),
        DataType::U32 => u32::demoted(value).encoded(),
        DataType::F32 => Single::demoted(value).encoded(),
        DataType::F64 => value.encoded(),
    }
}

/// The output sample for a decoded value: rounded through the source type before it is
/// promoted to double precision.
pub open spec fn output<T: Sample>(value: Double, source_type: DataType) -> T {
    if T::kind() == DataType::F64 && source_type != DataType::F64 {
        T::demoted(coerced(value, source_type))
    } else {
        T::demoted(value)
    }
}

/// The samples of a payload.
pub open spec fn samples_of<T: Sample>(bytes: Seq<u8>) -> Seq<T> {
    let width = T::kind().width();
    Seq::new(bytes.len() / width, |i: int| T::decoded(chunk(bytes, i, width as int)))
}

/// The samples of a payload of another type, converted.
pub open spec fn converted<T: Sample>(bytes: Seq<u8>, source_type: DataType) -> Seq<T> {
    if source_type == T::kind() {
        samples_of::<T>(bytes)
    } else {
        let width = source_type.width();
        Seq::new(
            bytes.len() / width,
            |i: int| T::demoted(scalar_value(chunk(bytes, i, width as int), source_type)),
        )
    }
}

/// The samples of a payload as doubles.
pub open spec fn doubles_of(bytes: Seq<u8>, data_type: DataType) -> Seq<Double> {
    let width = data_type.width();
    Seq::new(
        bytes.len() / width,
        |i: int| scalar_value(chunk(bytes, i, width as int), data_type),
    )
}

proof fn lemma_chunk_bounds(len: nat, i: nat, width: nat)
    requires
        width > 0,
        i < len / width,
    ensures
        0 <= i * width <= (i + 1) * width <= len,
        (i + 1) * width - i * width == width,
{
    lemma_fundamental_div_mod(len as int, width as int);
    assert((i + 1) * width <= width * (len / width)) by (nonlinear_arith)
        requires
            i + 1 <= len / width,
    ;
    assert((i + 1) * width == i * width + width) by (nonlinear_arith);
}

/// The `i`-th group of `width` bytes.
fn chunk_at(bytes: &[u8], i: usize, width: usize) -> (r: &[u8])
    requires
        width > 0,
        i < bytes@.len() as nat / width as nat,
    ensures
        r@ == chunk(bytes@, i as int, width as int),
        r@.len() == width,
{
    let _len: usize = bytes.len();
    proof {
        lemma_chunk_bounds(bytes@.len() as nat, i as nat, width as nat);
    }
    let start: usize = i * width;
    slice_subrange(bytes, start, start + width)
}

/// Reads one little-endian scalar and promotes it to a double.
pub fn read_scalar(bytes: &[u8], data_type: DataType) -> (r: Result<Double>)
    ensures
        match r {
            Ok(value) => bytes@.len() == data_type.width() && value == scalar_value(
                bytes@,
                data_type,
            ),
            Err(e) => bytes@.len() != data_type.width() && e@ == sample::scalar_width_fault(),
        },
{
    match data_type {
        DataType::I8 => {
            let value: i8 = i8::read_le(bytes)?;
            Ok(value.to_f64())
        },
        DataType::U8 => {
            let value: u8 = u8::read_le(bytes)?;
            Ok(value.to_f64())
        },
        DataType::I16 => {
            let value: i16 = i16::read_le(bytes)?;
            Ok(value.to_f64())
        },
        DataType::U16 => {
            let value: u16 = u16::read_le(bytes)?;
            Ok(value.to_f64())
        },
        DataType::I32 => {
            let value: i32 = i32::read_le(bytes)?;
            Ok(value.to_f64())
        },
        DataType::U32 => {
            let value: u32 = u32::read_le(bytes)?;
            Ok(value.to_f64())
        },
        DataType::F32 => {
            let value = Single::read_le(bytes)?;
            Ok(value.to_f64())
        },
        DataType::F64 => {
            let value = Double::read_le(bytes)?;
            Ok(value.to_f64())
        },
    }
}

/// Reads an aligned little-endian sample buffer.
pub fn read_vec<T: Sample>(bytes: &[u8]) -> (r: Result<Vec<T>>)
    ensures
        match r {
            Ok(values) => bytes@.len() % T::kind().width() == 0 && values@ == samples_of::<T>(
                bytes@,
            ),
            Err(e) => bytes@.len() % T::kind().width() != 0 && e@ == sample::alignment_fault(),
        },
{
    let size: usize = T::data_type().byte_len();
    if bytes.len() % size != 0 {
        return Err(
            Error::invalid_blob("typed value payload length is not aligned to its data type"),
        );
    }
    let count: usize = bytes.len() / size;
    let mut out: Vec<T> = Vec::with_capacity(count);
    let mut i: usize = 0;
    while i < count
        invariant
            i <= count,
            size == T::kind().width(),
            size > 0,
            bytes@.len() % (size as nat) == 0,
            count == bytes@.len() / (size as nat),
            out@.len() == i,
            forall|j: int| 0 <= j < i ==> out@[j] == samples_of::<T>(bytes@)[j],
        decreases count - i,
    {
        let value: T = T::read_le(chunk_at(bytes, i, size))?;
        out.push(value);
        i += 1;
    }
    proof {
        assert(out@ =~= samples_of::<T>(bytes@));
    }
    Ok(out)
}

/// Reads an aligned little-endian sample buffer as promoted doubles.
pub fn read_typed_values(bytes: &[u8], data_type: DataType) -> (r: Result<Vec<Double>>)
    ensures
        match r {
            Ok(values) => bytes@.len() % data_type.width() == 0 && values@ == doubles_of(
                bytes@,
                data_type,
            ),
            Err(e) => bytes@.len() % data_type.width() != 0 && e@ == sample::alignment_fault(),
        },
{
    let size: usize = data_type.byte_len();
    if bytes.len() % size != 0 {
        return Err(
            Error::invalid_blob("typed value payload length is not aligned to its data type"),
        );
    }
    let count: usize = bytes.len() / size;
    let mut out: Vec<Double> = Vec::with_capacity(count);
    let mut i: usize = 0;
    while i < count
        invariant
            i <= count,
            size == data_type.width(),
            size > 0,
            bytes@.len() % (size as nat) == 0,
            count == bytes@.len() / (size as nat),
            out@.len() == i,
            forall|j: int| 0 <= j < i ==> out@[j] == doubles_of(bytes@, data_type)[j],
        decreases count - i,
    {
        let value = read_scalar(chunk_at(bytes, i, size), data_type)?;
        out.push(value);
        i += 1;
    }
    proof {
        assert(out@ =~= doubles_of(bytes@, data_type));
    }
    Ok(out)
}

/// Decodes little-endian samples and converts them directly to `T`.
pub fn read_values_as<T: Sample>(bytes: &[u8], source_type: DataType) -> (r: Result<Vec<T>>)
    ensures
        match r {
            Ok(values) => bytes@.len() % source_type.width() == 0 && values@ == converted::<T>(
                bytes@,
                source_type,
            ),
            Err(e) => bytes@.len() % source_type.width() != 0 && e@ == sample::alignment_fault(),
        },
{
    if source_type == T::data_type() {
        return read_vec::<T>(bytes);
    }
    let doubles: Vec<Double> = read_typed_values(bytes, source_type)?;
    let mut out: Vec<T> = Vec::with_capacity(doubles.len());
    let mut i: usize = 0;
    while i < doubles.len()
        invariant
            i <= doubles@.len(),
            doubles@ == doubles_of(bytes@, source_type),
            source_type != T::kind(),
            out@.len() == i,
            forall|j: int| 0 <= j < i ==> out@[j] == converted::<T>(bytes@, source_type)[j],
        decreases doubles@.len() - i,
    {
        out.push(T::from_f64(doubles[i]));
        i += 1;
    }
    proof {
        assert(out@ =~= converted::<T>(bytes@, source_type));
    }
    Ok(out)
}

/// Rounds or truncates a double through the specified primitive representation.
pub fn coerce_f64_to_data_type(value: Double, data_type: DataType) -> (r: Double)
    ensures
        r == coerced(value, data_type),
{
    match data_type {
        DataType::I8 => i8::from_f64(value).to_f64(),
        DataType::U8 => u8::from_f64(value).to_f64(),
        DataType::I16 => i16::from_f64(value).to_f64(),
        DataType::U16 => u16::from_f64(value).to_f64(),
        DataType::I32 => i32::from_f64(value).to_f64(),
        DataType::U32 => u32::from_f64(value).to_f64(),
        DataType::F32 => Single::from_f64(value).to_f64(),
        DataType::F64 => value,
    }
}

/// Converts a decoded value to an output sample while preserving source-type rounding.
pub fn output_value<T: Sample>(value: Double, source_type: DataType) -> (r: T)
    ensures
        r == output::<T>(value, source_type),
{
    if T::data_type() == DataType::F64 && source_type != DataType::F64 {
        T::from_f64(coerce_f64_to_data_type(value, source_type))
    } else {
        T::from_f64(value)
    }
}

/// Converts and appends one scalar in the requested little-endian representation.
pub fn append_value_as(out: &mut Vec<u8>, value: Double, data_type: DataType)
    ensures
        final(out)@ == old(out)@ + scalar_bytes(value, data_type),
{
    match data_type {
        DataType::I8 => i8::from_f64(value).write_le(out),
        DataType::U8 => u8::from_f64(value).write_le(out),
        DataType::I16 => i16::from_f64(value).write_le(out),
        DataType::U16 => u16::from_f64(value).write_le(out),
        DataType::I32 => i32::from_f64(value).write_le(out),
        DataType::U32 => u32::from_f64(value).write_le(out),
        DataType::F32 => Single::from_f64(value).write_le(out),
        DataType::F64 => value.write_le(out),
    }
}

/// The promoted samples of a buffer.
pub open spec fn promoted_all<T: Sample>(values: Seq<T>) -> Seq<Double> {
    Seq::new(values.len(), |i: int| values[i].promoted())
}

/// The promoted samples of a buffer of any type.
pub open spec fn promoted_pixels(pixels: PixelSeq) -> Seq<Double> {
    match pixels {
        PixelSeq::I8(values) => promoted_all(values),
        PixelSeq::U8(values) => promoted_all(values),
        PixelSeq::I16(values) => promoted_all(values),
        PixelSeq::U16(values) => promoted_all(values),
        PixelSeq::I32(values) => promoted_all(values),
        PixelSeq::U32(values) => promoted_all(values),
        PixelSeq::F32(values) => promoted_all(values),
        PixelSeq::F64(values) => values,
    }
}

/// Promotes every sample of a slice.
pub fn promote_all<T: Sample>(values: &[T]) -> (r: Vec<Double>)
    ensures
        r@ == promoted_all(values@),
{
    let mut out: Vec<Double> = Vec::with_capacity(values.len());
    let mut i: usize = 0;
    while i < values.len()
        invariant
            i <= values@.len(),
            out@ =~= promoted_all(values@.subrange(0, i as int)),
        decreases values@.len() - i,
    {
        out.push(values[i].to_f64());
        i += 1;
    }
    proof {
        assert(values@.subrange(0, values@.len() as int) =~= values@);
    }
    out
}

impl PixelData {
    /// Promotes all samples to a new buffer of doubles.
    pub fn to_f64(&self) -> (r: Vec<Double>)
        ensures
            r@ == promoted_pixels(self@),
    {
        match self {
            PixelData::I8(values) => promote_all(values.as_slice()),
            PixelData::U8(values) => promote_all(values.as_slice()),
            PixelData::I16(values) => promote_all(values.as_slice()),
            PixelData::U16(values) => promote_all(values.as_slice()),
            PixelData::I32(values) => promote_all(values.as_slice()),
            PixelData::U32(values) => promote_all(values.as_slice()),
            PixelData::F32(values) => promote_all(values.as_slice()),
            PixelData::F64(values) => crate::types::copy_vec(values.as_slice()),
        }
    }
}

/// The bytes of consecutive samples.
pub open spec fn encoded_all<T: Sample>(values: Seq<T>) -> Seq<u8>
    decreases values.len(),
{
    if values.len() == 0 {
        seq![]
    } else {
        encoded_all(values.drop_last()) + values.last().encoded()
    }
}

pub proof fn lemma_encoded_len<T: Sample>(values: Seq<T>)
    ensures
        encoded_all(values).len() == values.len() * T::kind().width(),
    decreases values.len(),
{
    if values.len() > 0 {
        lemma_encoded_len(values.drop_last());
        values.last().law_codec();
        assert((values.len() - 1) * T::kind().width() + T::kind().width() == values.len()
            * T::kind().width()) by (nonlinear_arith);
    } else {
        assert(0 * T::kind().width() == 0) by (nonlinear_arith);
    }
}

/// Reading back the bytes of samples gives the samples.
pub proof fn law_samples_roundtrip<T: Sample>(values: Seq<T>)
    ensures
        encoded_all(values).len() % T::kind().width() == 0,
        samples_of::<T>(encoded_all(values)) == values,
    decreases values.len(),
{
    let w = T::kind().width();
    lemma_encoded_len(values);
    lemma_mod_multiples_basic(values.len() as int, w as int);
    lemma_div_multiples_vanish(values.len() as int, w as int);
    lemma_mul_is_commutative(values.len() as int, w as int);
    let all = encoded_all(values);
    if values.len() > 0 {
        let front = values.drop_last();
        law_samples_roundtrip(front);
        lemma_encoded_len(front);
        lemma_div_multiples_vanish(front.len() as int, w as int);
        lemma_mul_is_commutative(front.len() as int, w as int);
        values.last().law_codec();
        assert forall|i: int| 0 <= i < values.len() implies samples_of::<T>(all)[i] == values[i] by {
            let n = front.len();
            if i < n {
                lemma_chunk_bounds(encoded_all(front).len(), i as nat, w);
                assert(chunk(all, i, w as int) =~= chunk(encoded_all(front), i, w as int));
                assert(samples_of::<T>(encoded_all(front))[i] == front[i]);
            } else {
                assert((n + 1) * w == n * w + w) by (nonlinear_arith);
                assert(chunk(all, i, w as int) =~= values.last().encoded());
            }
        }
    }
    assert(samples_of::<T>(all) =~= values);
}

/// The number that bytes stand for, the lowest byte first.
pub open spec fn digits_number(bytes: Seq<u8>, n: nat) -> int
    decreases n,
{
    if n == 0 {
        0
    } else {
        digits_number(bytes, (n - 1) as nat) + bytes[n - 1] * vstd::arithmetic::power::pow(
            256,
            (n - 1) as nat,
        )
    }
}

proof fn lemma_digits(value: nat, len: nat, n: nat)
    requires
        n <= len,
    ensures
        digits_number(bytes::le_bytes(value, len), n) == value as int
            % vstd::arithmetic::power::pow(256, n),
    decreases n,
{
    vstd::arithmetic::power::lemma_pow_positive(256, n);
    if n == 0 {
        vstd::arithmetic::power::lemma_pow0(256);
    } else {
        let m = (n - 1) as nat;
        let w = vstd::arithmetic::power::pow(256, m);
        lemma_digits(value, len, m);
        bytes::law_byte_order(value, len, m);
        vstd::arithmetic::power::lemma_pow_positive(256, m);
        vstd::arithmetic::power::lemma_pow_adds(256, m, 1);
        vstd::arithmetic::power::lemma_pow1(256);
        vstd::arithmetic::div_mod::lemma_mod_breakdown(value as int, w, 256);
        let byte = (value as int / w) % 256;
        assert(byte * w == w * byte) by (nonlinear_arith);
    }
}

/// The bytes of a sample are those of its number, or of its bit pattern, the lowest first; a
/// negative number counts from the end of the range.
pub proof fn law_sample_bytes(a: i8, b: u8, c: i16, d: u16, e: i32, f: u32, g: Single, h: Double)
    ensures
        a.encoded().len() == 1 && digits_number(a.encoded(), 1) == a as int % 0x100,
        b.encoded().len() == 1 && digits_number(b.encoded(), 1) == b,
        c.encoded().len() == 2 && digits_number(c.encoded(), 2) == c as int % 0x1_0000,
        d.encoded().len() == 2 && digits_number(d.encoded(), 2) == d,
        e.encoded().len() == 4 && digits_number(e.encoded(), 4) == e as int % 0x1_0000_0000,
        f.encoded().len() == 4 && digits_number(f.encoded(), 4) == f,
        g.encoded().len() == 4 && digits_number(g.encoded(), 4) == g.bits,
        h.encoded().len() == 8 && digits_number(h.encoded(), 8) == h.bits,
{
    bytes::lemma_pow256();
    a.law_codec();
    b.law_codec();
    c.law_codec();
    d.law_codec();
    e.law_codec();
    f.law_codec();
    g.law_codec();
    h.law_codec();
    lemma_digits(bytes::unsigned(a as int, 0x100), 1, 1);
    lemma_digits(b as nat, 1, 1);
    lemma_digits(bytes::unsigned(c as int, 0x1_0000), 2, 2);
    lemma_digits(d as nat, 2, 2);
    lemma_digits(bytes::unsigned(e as int, 0x1_0000_0000), 4, 4);
    lemma_digits(f as nat, 4, 4);
    lemma_digits(g.bits as nat, 4, 4);
    lemma_digits(h.bits as nat, 8, 8);
}

} // verus!
