//! The sample types of the format and their conversions.

use crate::bytes;
use crate::bytes::{
    push_u16, push_u32, push_u64, read_u16, read_u32, read_u64, signed_16, signed_32, signed_8,
    unsigned_16, unsigned_32, unsigned_8,
};
use crate::error::{Error, Fault, Result};
use crate::float;
use crate::float::{Double, Single};
use crate::types::{DataType, PixelData, PixelSeq};
use vstd::prelude::*;

verus! {

/// The error for a scalar whose bytes do not have its type's width.
pub open spec fn scalar_width_fault() -> Fault {
    Fault::InvalidBlob("typed scalar byte length does not match its data type"@)
}

/// The error for a payload that is not a whole number of samples.
pub open spec fn alignment_fault() -> Fault {
    Fault::InvalidBlob("typed value payload length is not aligned to its data type"@)
}

/// Primitive sample types supported by LERC.
///
/// Implemented for `i8`, `u8`, `i16`, `u16`, `i32`, `u32`, [`Single`] and [`Double`].
pub trait Sample: Copy + Sized {
    /// The runtime type.
    spec fn kind() -> DataType;

    /// The sample as a double.
    spec fn promoted(self) -> Double;

    /// The sample that a double is cast to.
    spec fn demoted(value: Double) -> Self;

    /// The little-endian bytes of the sample.
    spec fn encoded(self) -> Seq<u8>;

    /// The sample that little-endian bytes stand for.
    spec fn decoded(bytes: Seq<u8>) -> Self;

    /// The default sample, zero.
    spec fn zero() -> Self;

    /// Whether the sample is an ordinary number: no NaN, no infinity.
    spec fn regular(self) -> bool;

    /// The number that an integer sample stands for.
    spec fn number(self) -> int;

    /// A buffer of samples with its runtime type.
    spec fn gathered(values: Seq<Self>) -> PixelSeq;

    /// Encoding has the type's width, decoding undoes it.
    proof fn law_codec(self)
        ensures
            self.encoded().len() == Self::kind().width(),
            Self::decoded(self.encoded()) == self,
    ;

    /// Promotion keeps every ordinary number.
    proof fn law_promotion(self)
        requires
            self.regular(),
        ensures
            self.promoted().finite(),
            Self::demoted(self.promoted()) == self,
    ;

    /// A sample that promotes to an ordinary number is one.
    proof fn law_regular(self)
        requires
            self.promoted().finite(),
        ensures
            self.regular(),
    ;

    /// An integer sample promotes to its number, which lies in the range of the type.
    proof fn law_integer(self)
        requires
            Self::kind().integer(),
        ensures
            self.promoted() == float::double_of_int(self.number()),
            Self::kind().least() <= self.number() <= Self::kind().most(),
    ;

    /// Every integer in the range of an integer type is a sample.
    proof fn law_cast(value: int)
        requires
            Self::kind().integer(),
            Self::kind().least() <= value <= Self::kind().most(),
        ensures
            Self::demoted(float::double_of_int(value)).promoted() == float::double_of_int(value),
    ;

    /// Both zeros become zero, and the default sample is zero.
    proof fn law_zero(value: Double)
        requires
            value.zero(),
        ensures
            Self::demoted(value).promoted().zero(),
            Self::zero().promoted().zero(),
    ;

    /// Single precision keeps the number of a single-precision sample.
    proof fn law_single(self)
        requires
            Self::kind() == DataType::F32,
            self.promoted().finite(),
        ensures
            self.promoted().narrowed().widened() == self.promoted(),
    ;

    /// Corresponding runtime [`DataType`].
    fn data_type() -> (r: DataType)
        ensures
            r == Self::kind(),
    ;

    /// The default sample, zero.
    fn default_value() -> (r: Self)
        ensures
            r == Self::zero(),
    ;

    /// Converts a double with Rust's numeric-cast semantics.
    fn from_f64(value: Double) -> (r: Self)
        ensures
            r == Self::demoted(value),
    ;

    /// Promotes the sample to a double.
    fn to_f64(self) -> (r: Double)
        ensures
            r == self.promoted(),
    ;

    /// Reads one little-endian sample.
    fn read_le(bytes: &[u8]) -> (r: Result<Self>)
        ensures
            match r {
                Ok(value) => bytes@.len() == Self::kind().width() && value == Self::decoded(bytes@),
                Err(e) => bytes@.len() != Self::kind().width() && e@ == scalar_width_fault(),
            },
    ;

    /// Appends one little-endian sample.
    fn write_le(self, out: &mut Vec<u8>)
        ensures
            final(out)@ == old(out)@ + self.encoded(),
    ;

    /// Wraps a homogeneous buffer in [`PixelData`].
    fn into_pixel_data(values: Vec<Self>) -> (r: PixelData)
        ensures
            r@ == Self::gathered(values@),
    ;
}

impl Sample for i8 {
    open spec fn kind() -> DataType {
        DataType::I8
    }

    open spec fn promoted(self) -> Double {
        float::double_of_int(self as int)
    }

    open spec fn demoted(value: Double) -> i8 {
        value.cast(-128, 127) as i8
    }

    open spec fn encoded(self) -> Seq<u8> {
        bytes::le_bytes(bytes::unsigned(self as int, 0x100), 1)
    }

    open spec fn decoded(bytes: Seq<u8>) -> i8 {
        bytes::signed(bytes::le_value(bytes), 0x100) as i8
    }

    open spec fn zero() -> i8 {
        0
    }

    open spec fn regular(self) -> bool {
        true
    }

    open spec fn number(self) -> int {
        self as int
    }

    open spec fn gathered(values: Seq<i8>) -> PixelSeq {
        PixelSeq::I8(values)
    }

    proof fn law_codec(self) {
        bytes::lemma_pow256();
        bytes::lemma_le_roundtrip(bytes::unsigned(self as int, 0x100), 1);
    }

    proof fn law_promotion(self) {
        float::lemma_int_exact(self as int);
    }

    proof fn law_regular(self) {
    }

    proof fn law_integer(self) {
    }

    proof fn law_cast(value: int) {
        float::lemma_int_exact(value);
    }

    proof fn law_zero(value: Double) {
        float::lemma_zero_truncates(value);
        float::lemma_int_exact(0);
    }

    proof fn law_single(self) {
    }

    fn data_type() -> DataType {
        DataType::I8
    }

    fn default_value() -> i8 {
        0
    }

    fn from_f64(value: Double) -> i8 {
        value.to_integer(-128, 127) as i8
    }

    fn to_f64(self) -> Double {
        Double::from_integer(self as i64)
    }

    fn read_le(bytes: &[u8]) -> Result<i8> {
        if bytes.len() != 1 {
            return Err(
                Error::invalid_blob("typed scalar byte length does not match its data type"),
            );
        }
        proof {
            reveal_with_fuel(bytes::le_value, 2);
        }
        Ok(signed_8(bytes[0]))
    }

    fn write_le(self, out: &mut Vec<u8>) {
        proof {
            bytes::lemma_le_bytes_1(bytes::unsigned(self as int, 0x100));
        }
        out.push(unsigned_8(self));
    }

    fn into_pixel_data(values: Vec<i8>) -> PixelData {
        PixelData::I8(values)
    }
}

impl Sample for u8 {
    open spec fn kind() -> DataType {
        DataType::U8
    }

    open spec fn promoted(self) -> Double {
        float::double_of_int(self as int)
    }

    open spec fn demoted(value: Double) -> u8 {
        value.cast(0, 255) as u8
    }

    open spec fn encoded(self) -> Seq<u8> {
        bytes::le_bytes(self as nat, 1)
    }

    open spec fn decoded(bytes: Seq<u8>) -> u8 {
        bytes::le_value(bytes) as u8
    }

    open spec fn zero() -> u8 {
        0
    }

    open spec fn regular(self) -> bool {
        true
    }

    open spec fn number(self) -> int {
        self as int
    }

    open spec fn gathered(values: Seq<u8>) -> PixelSeq {
        PixelSeq::U8(values)
    }

    proof fn law_codec(self) {
        bytes::lemma_pow256();
        bytes::lemma_le_roundtrip(self as nat, 1);
    }

    proof fn law_promotion(self) {
        float::lemma_int_exact(self as int);
    }

    proof fn law_regular(self) {
    }

    proof fn law_integer(self) {
    }

    proof fn law_cast(value: int) {
        float::lemma_int_exact(value);
    }

    proof fn law_zero(value: Double) {
        float::lemma_zero_truncates(value);
        float::lemma_int_exact(0);
    }

    proof fn law_single(self) {
    }

    fn data_type() -> DataType {
        DataType::U8
    }

    fn default_value() -> u8 {
        0
    }

    fn from_f64(value: Double) -> u8 {
        value.to_integer(0, 255) as u8
    }

    fn to_f64(self) -> Double {
        Double::from_integer(self as i64)
    }

    fn read_le(bytes: &[u8]) -> Result<u8> {
        if bytes.len() != 1 {
            return Err(
                Error::invalid_blob("typed scalar byte length does not match its data type"),
            );
        }
        proof {
            reveal_with_fuel(bytes::le_value, 2);
        }
        Ok(bytes[0])
    }

    fn write_le(self, out: &mut Vec<u8>) {
        proof {
            bytes::lemma_le_bytes_1(self as nat);
        }
        out.push(self);
    }

    fn into_pixel_data(values: Vec<u8>) -> PixelData {
        PixelData::U8(values)
    }
}

impl Sample for i16 {
    open spec fn kind() -> DataType {
        DataType::I16
    }

    open spec fn promoted(self) -> Double {
        float::double_of_int(self as int)
    }

    open spec fn demoted(value: Double) -> i16 {
        value.cast(-32768, 32767) as i16
    }

    open spec fn encoded(self) -> Seq<u8> {
        bytes::le_bytes(bytes::unsigned(self as int, 0x1_0000), 2)
    }

    open spec fn decoded(bytes: Seq<u8>) -> i16 {
        bytes::signed(bytes::le_value(bytes), 0x1_0000) as i16
    }

    open spec fn zero() -> i16 {
        0
    }

    open spec fn regular(self) -> bool {
        true
    }

    open spec fn number(self) -> int {
        self as int
    }

    open spec fn gathered(values: Seq<i16>) -> PixelSeq {
        PixelSeq::I16(values)
    }

    proof fn law_codec(self) {
        bytes::lemma_pow256();
        bytes::lemma_le_roundtrip(bytes::unsigned(self as int, 0x1_0000), 2);
    }

    proof fn law_promotion(self) {
        float::lemma_int_exact(self as int);
    }

    proof fn law_regular(self) {
    }

    proof fn law_integer(self) {
    }

    proof fn law_cast(value: int) {
        float::lemma_int_exact(value);
    }

    proof fn law_zero(value: Double) {
        float::lemma_zero_truncates(value);
        float::lemma_int_exact(0);
    }

    proof fn law_single(self) {
    }

    fn data_type() -> DataType {
        DataType::I16
    }

    fn default_value() -> i16 {
        0
    }

    fn from_f64(value: Double) -> i16 {
        value.to_integer(-32768, 32767) as i16
    }

    fn to_f64(self) -> Double {
        Double::from_integer(self as i64)
    }

    fn read_le(bytes: &[u8]) -> Result<i16> {
        if bytes.len() != 2 {
            return Err(
                Error::invalid_blob("typed scalar byte length does not match its data type"),
            );
        }
        Ok(signed_16(read_u16(bytes)))
    }

    fn write_le(self, out: &mut Vec<u8>) {
        push_u16(out, unsigned_16(self));
    }

    fn into_pixel_data(values: Vec<i16>) -> PixelData {
        PixelData::I16(values)
    }
}

impl Sample for u16 {
    open spec fn kind() -> DataType {
        DataType::U16
    }

    open spec fn promoted(self) -> Double {
        float::double_of_int(self as int)
    }

    open spec fn demoted(value: Double) -> u16 {
        value.cast(0, 65535) as u16
    }

    open spec fn encoded(self) -> Seq<u8> {
        bytes::le_bytes(self as nat, 2)
    }

    open spec fn decoded(bytes: Seq<u8>) -> u16 {
        bytes::le_value(bytes) as u16
    }

    open spec fn zero() -> u16 {
        0
    }

    open spec fn regular(self) -> bool {
        true
    }

    open spec fn number(self) -> int {
        self as int
    }

    open spec fn gathered(values: Seq<u16>) -> PixelSeq {
        PixelSeq::U16(values)
    }

    proof fn law_codec(self) {
        bytes::lemma_pow256();
        bytes::lemma_le_roundtrip(self as nat, 2);
    }

    proof fn law_promotion(self) {
        float::lemma_int_exact(self as int);
    }

    proof fn law_regular(self) {
    }

    proof fn law_integer(self) {
    }

    proof fn law_cast(value: int) {
        float::lemma_int_exact(value);
    }

    proof fn law_zero(value: Double) {
        float::lemma_zero_truncates(value);
        float::lemma_int_exact(0);
    }

    proof fn law_single(self) {
    }

    fn data_type() -> DataType {
        DataType::U16
    }

    fn default_value() -> u16 {
        0
    }

    fn from_f64(value: Double) -> u16 {
        value.to_integer(0, 65535) as u16
    }

    fn to_f64(self) -> Double {
        Double::from_integer(self as i64)
    }

    fn read_le(bytes: &[u8]) -> Result<u16> {
        if bytes.len() != 2 {
            return Err(
                Error::invalid_blob("typed scalar byte length does not match its data type"),
            );
        }
        Ok(read_u16(bytes))
    }

    fn write_le(self, out: &mut Vec<u8>) {
        push_u16(out, self);
    }

    fn into_pixel_data(values: Vec<u16>) -> PixelData {
        PixelData::U16(values)
    }
}

impl Sample for i32 {
    open spec fn kind() -> DataType {
        DataType::I32
    }

    open spec fn promoted(self) -> Double {
        float::double_of_int(self as int)
    }

    open spec fn demoted(value: Double) -> i32 {
        value.cast(-2147483648, 2147483647) as i32
    }

    open spec fn encoded(self) -> Seq<u8> {
        bytes::le_bytes(bytes::unsigned(self as int, 0x1_0000_0000), 4)
    }

    open spec fn decoded(bytes: Seq<u8>) -> i32 {
        bytes::signed(bytes::le_value(bytes), 0x1_0000_0000) as i32
    }

    open spec fn zero() -> i32 {
        0
    }

    open spec fn regular(self) -> bool {
        true
    }

    open spec fn number(self) -> int {
        self as int
    }

    open spec fn gathered(values: Seq<i32>) -> PixelSeq {
        PixelSeq::I32(values)
    }

    proof fn law_codec(self) {
        bytes::lemma_pow256();
        bytes::lemma_le_roundtrip(bytes::unsigned(self as int, 0x1_0000_0000), 4);
    }

    proof fn law_promotion(self) {
        float::lemma_int_exact(self as int);
    }

    proof fn law_regular(self) {
    }

    proof fn law_integer(self) {
    }

    proof fn law_cast(value: int) {
        float::lemma_int_exact(value);
    }

    proof fn law_zero(value: Double) {
        float::lemma_zero_truncates(value);
        float::lemma_int_exact(0);
    }

    proof fn law_single(self) {
    }

    fn data_type() -> DataType {
        DataType::I32
    }

    fn default_value() -> i32 {
        0
    }

    fn from_f64(value: Double) -> i32 {
        value.to_integer(-2147483648, 2147483647) as i32
    }

    fn to_f64(self) -> Double {
        Double::from_integer(self as i64)
    }

    fn read_le(bytes: &[u8]) -> Result<i32> {
        if bytes.len() != 4 {
            return Err(
                Error::invalid_blob("typed scalar byte length does not match its data type"),
            );
        }
        Ok(signed_32(read_u32(bytes)))
    }

    fn write_le(self, out: &mut Vec<u8>) {
        push_u32(out, unsigned_32(self));
    }

    fn into_pixel_data(values: Vec<i32>) -> PixelData {
        PixelData::I32(values)
    }
}

impl Sample for u32 {
    open spec fn kind() -> DataType {
        DataType::U32
    }

    open spec fn promoted(self) -> Double {
        float::double_of_int(self as int)
    }

    open spec fn demoted(value: Double) -> u32 {
        value.cast(0, 4294967295) as u32
    }

    open spec fn encoded(self) -> Seq<u8> {
        bytes::le_bytes(self as nat, 4)
    }

    open spec fn decoded(bytes: Seq<u8>) -> u32 {
        bytes::le_value(bytes) as u32
    }

    open spec fn zero() -> u32 {
        0
    }

    open spec fn regular(self) -> bool {
        true
    }

    open spec fn number(self) -> int {
        self as int
    }

    open spec fn gathered(values: Seq<u32>) -> PixelSeq {
        PixelSeq::U32(values)
    }

    proof fn law_codec(self) {
        bytes::lemma_pow256();
        bytes::lemma_le_roundtrip(self as nat, 4);
    }

    proof fn law_promotion(self) {
        float::lemma_int_exact(self as int);
    }

    proof fn law_regular(self) {
    }

    proof fn law_integer(self) {
    }

    proof fn law_cast(value: int) {
        float::lemma_int_exact(value);
    }

    proof fn law_zero(value: Double) {
        float::lemma_zero_truncates(value);
        float::lemma_int_exact(0);
    }

    proof fn law_single(self) {
    }

    fn data_type() -> DataType {
        DataType::U32
    }

    fn default_value() -> u32 {
        0
    }

    fn from_f64(value: Double) -> u32 {
        value.to_integer(0, 4294967295) as u32
    }

    fn to_f64(self) -> Double {
        Double::from_integer(self as i64)
    }

    fn read_le(bytes: &[u8]) -> Result<u32> {
        if bytes.len() != 4 {
            return Err(
                Error::invalid_blob("typed scalar byte length does not match its data type"),
            );
        }
        Ok(read_u32(bytes))
    }

    fn write_le(self, out: &mut Vec<u8>) {
        push_u32(out, self);
    }

    fn into_pixel_data(values: Vec<u32>) -> PixelData {
        PixelData::U32(values)
    }
}

impl Sample for Single {
    open spec fn kind() -> DataType {
        DataType::F32
    }

    open spec fn promoted(self) -> Double {
        self.widened()
    }

    open spec fn demoted(value: Double) -> Single {
        value.narrowed()
    }

    open spec fn encoded(self) -> Seq<u8> {
        bytes::le_bytes(self.bits as nat, 4)
    }

    open spec fn decoded(bytes: Seq<u8>) -> Single {
        Single { bits: bytes::le_value(bytes) as u32 }
    }

    open spec fn zero() -> Single {
        Single { bits: 0 }
    }

    open spec fn regular(self) -> bool {
        self.finite()
    }

    open spec fn number(self) -> int {
        0
    }

    open spec fn gathered(values: Seq<Single>) -> PixelSeq {
        PixelSeq::F32(values)
    }

    proof fn law_codec(self) {
        bytes::lemma_pow256();
        bytes::lemma_le_roundtrip(self.bits as nat, 4);
    }

    proof fn law_promotion(self) {
        float::lemma_widen_exact(self);
    }

    proof fn law_regular(self) {
        float::lemma_widen_finite(self);
    }

    proof fn law_integer(self) {
    }

    proof fn law_cast(value: int) {
    }

    proof fn law_zero(value: Double) {
        float::lemma_narrow_zero(value);
    }

    proof fn law_single(self) {
        float::lemma_widen_finite(self);
        float::lemma_widen_exact(self);
    }

    fn data_type() -> DataType {
        DataType::F32
    }

    fn default_value() -> Single {
        Single { bits: 0 }
    }

    fn from_f64(value: Double) -> Single {
        value.narrow()
    }

    fn to_f64(self) -> Double {
        self.widen()
    }

    fn read_le(bytes: &[u8]) -> Result<Single> {
        if bytes.len() != 4 {
            return Err(
                Error::invalid_blob("typed scalar byte length does not match its data type"),
            );
        }
        Ok(Single { bits: read_u32(bytes) })
    }

    fn write_le(self, out: &mut Vec<u8>) {
        push_u32(out, self.bits);
    }

    fn into_pixel_data(values: Vec<Single>) -> PixelData {
        PixelData::F32(values)
    }
}

impl Sample for Double {
    open spec fn kind() -> DataType {
        DataType::F64
    }

    open spec fn promoted(self) -> Double {
        self
    }

    open spec fn demoted(value: Double) -> Double {
        value
    }

    open spec fn encoded(self) -> Seq<u8> {
        bytes::le_bytes(self.bits as nat, 8)
    }

    open spec fn decoded(bytes: Seq<u8>) -> Double {
        Double { bits: bytes::le_value(bytes) as u64 }
    }

    open spec fn zero() -> Double {
        Double { bits: 0 }
    }

    open spec fn regular(self) -> bool {
        self.finite()
    }

    open spec fn number(self) -> int {
        0
    }

    open spec fn gathered(values: Seq<Double>) -> PixelSeq {
        PixelSeq::F64(values)
    }

    proof fn law_codec(self) {
        bytes::lemma_pow256();
        bytes::lemma_le_roundtrip(self.bits as nat, 8);
    }

    proof fn law_promotion(self) {
    }

    proof fn law_regular(self) {
    }

    proof fn law_integer(self) {
    }

    proof fn law_cast(value: int) {
    }

    proof fn law_zero(value: Double) {
    }

    proof fn law_single(self) {
    }

    fn data_type() -> DataType {
        DataType::F64
    }

    fn default_value() -> Double {
        Double { bits: 0 }
    }

    fn from_f64(value: Double) -> Double {
        value
    }

    fn to_f64(self) -> Double {
        self
    }

    fn read_le(bytes: &[u8]) -> Result<Double> {
        if bytes.len() != 8 {
            return Err(
                Error::invalid_blob("typed scalar byte length does not match its data type"),
            );
        }
        Ok(Double { bits: read_u64(bytes) })
    }

    fn write_le(self, out: &mut Vec<u8>) {
        push_u64(out, self.bits);
    }

    fn into_pixel_data(values: Vec<Double>) -> PixelData {
        PixelData::F64(values)
    }
}

} // verus!
