//! The contents of a GGUF file: tensor types, metadata values, tensor
//! descriptions and the file as a whole.

use vstd::hash_map::StringHashMap;
use vstd::prelude::*;
use vstd::string::*;

use crate::error::GgufError;
use crate::text::{decimal, decimal_int, decimal_string, decimal_string_signed};

verus! {

/// GGML tensor element types. The ids that stand for them on disk are those of
/// `enum ggml_type` in ggml.h; ids 4 and 5 belonged to types that were removed.
#[derive(Debug, Clone, Copy, PartialEq, Eq, Structural, Hash)]
#[allow(non_camel_case_types)]
pub enum GgmlType {
    F32,
    F16,
    Q4_0,
    Q4_1,
    Q5_0,
    Q5_1,
    Q8_0,
    Q8_1,
    Q2_K,
    Q3_K,
    Q4_K,
    Q5_K,
    Q6_K,
    Q8_K,
    IQ2_XXS,
    IQ2_XS,
    IQ3_XXS,
    IQ1_S,
    IQ4_NL,
    IQ3_S,
    IQ2_S,
    IQ4_XS,
    I8,
    I16,
    I32,
    I64,
    F64,
    IQ1_M,
    BF16,
    Q4_0_4_4,
    Q4_0_4_8,
    Q4_0_8_8,
}

impl GgmlType {
    /// The id that stands for this type on disk.
    pub open spec fn spec_id(self) -> u32 {
        match self {
            GgmlType::F32 => 0,
            GgmlType::F16 => 1,
            GgmlType::Q4_0 => 2,
            GgmlType::Q4_1 => 3,
            GgmlType::Q5_0 => 6,
            GgmlType::Q5_1 => 7,
            GgmlType::Q8_0 => 8,
            GgmlType::Q8_1 => 9,
            GgmlType::Q2_K => 10,
            GgmlType::Q3_K => 11,
            GgmlType::Q4_K => 12,
            GgmlType::Q5_K => 13,
            GgmlType::Q6_K => 14,
            GgmlType::Q8_K => 15,
            GgmlType::IQ2_XXS => 16,
            GgmlType::IQ2_XS => 17,
            GgmlType::IQ3_XXS => 18,
            GgmlType::IQ1_S => 19,
            GgmlType::IQ4_NL => 20,
            GgmlType::IQ3_S => 21,
            GgmlType::IQ2_S => 22,
            GgmlType::IQ4_XS => 23,
            GgmlType::I8 => 24,
            GgmlType::I16 => 25,
            GgmlType::I32 => 26,
            GgmlType::I64 => 27,
            GgmlType::F64 => 28,
            GgmlType::IQ1_M => 29,
            GgmlType::BF16 => 30,
            GgmlType::Q4_0_4_4 => 31,
            GgmlType::Q4_0_4_8 => 32,
            GgmlType::Q4_0_8_8 => 33,
        }
    }

    /// Number of elements in one quantization block of this type.
    pub open spec fn spec_block_size(self) -> nat {
        match self {
            GgmlType::F32 | GgmlType::F16 | GgmlType::I8 | GgmlType::I16 | GgmlType::I32 | GgmlType::I64 | GgmlType::F64 | GgmlType::BF16 => 1,
            GgmlType::Q4_0 | GgmlType::Q4_1 | GgmlType::Q5_0 | GgmlType::Q5_1 | GgmlType::Q8_0 | GgmlType::Q8_1 | GgmlType::IQ4_NL | GgmlType::Q4_0_4_4 | GgmlType::Q4_0_4_8 | GgmlType::Q4_0_8_8 => 32,
            GgmlType::Q2_K | GgmlType::Q3_K | GgmlType::Q4_K | GgmlType::Q5_K | GgmlType::Q6_K | GgmlType::Q8_K | GgmlType::IQ2_XXS | GgmlType::IQ2_XS | GgmlType::IQ3_XXS | GgmlType::IQ1_S | GgmlType::IQ3_S | GgmlType::IQ2_S | GgmlType::IQ4_XS | GgmlType::IQ1_M => 256,
        }
    }

    /// Number of bytes of one quantization block of this type.
    pub open spec fn spec_block_bytes(self) -> nat {
        match self {
            GgmlType::F32 => 4,
            GgmlType::F16 => 2,
            GgmlType::Q4_0 => 18,
            GgmlType::Q4_1 => 20,
            GgmlType::Q5_0 => 22,
            GgmlType::Q5_1 => 24,
            GgmlType::Q8_0 => 34,
            GgmlType::Q8_1 => 40,
            GgmlType::Q2_K => 84,
            GgmlType::Q3_K => 110,
            GgmlType::Q4_K => 144,
            GgmlType::Q5_K => 176,
            GgmlType::Q6_K => 210,
            GgmlType::Q8_K => 292,
            GgmlType::IQ2_XXS => 66,
            GgmlType::IQ2_XS => 74,
            GgmlType::IQ3_XXS => 98,
            GgmlType::IQ1_S => 50,
            GgmlType::IQ4_NL => 18,
            GgmlType::IQ3_S => 110,
            GgmlType::IQ2_S => 82,
            GgmlType::IQ4_XS => 136,
            GgmlType::I8 => 1,
            GgmlType::I16 => 2,
            GgmlType::I32 => 4,
            GgmlType::I64 => 8,
            GgmlType::F64 => 8,
            GgmlType::IQ1_M => 56,
            GgmlType::BF16 => 2,
            GgmlType::Q4_0_4_4 => 18,
            GgmlType::Q4_0_4_8 => 18,
            GgmlType::Q4_0_8_8 => 18,
        }
    }

    /// Bytes that `n` elements take: whole blocks, the last one possibly in part
    /// used.
    pub open spec fn spec_type_size(self, n: nat) -> nat {
        ((n + self.spec_block_size() - 1) as nat / self.spec_block_size()) * self.spec_block_bytes()
    }

    /// The name of this type.
    pub open spec fn spec_name(self) -> Seq<char> {
        match self {
            GgmlType::F32 => "F32"@,
            GgmlType::F16 => "F16"@,
            GgmlType::Q4_0 => "Q4_0"@,
            GgmlType::Q4_1 => "Q4_1"@,
            GgmlType::Q5_0 => "Q5_0"@,
            GgmlType::Q5_1 => "Q5_1"@,
            GgmlType::Q8_0 => "Q8_0"@,
            GgmlType::Q8_1 => "Q8_1"@,
            GgmlType::Q2_K => "Q2_K"@,
            GgmlType::Q3_K => "Q3_K"@,
            GgmlType::Q4_K => "Q4_K"@,
            GgmlType::Q5_K => "Q5_K"@,
            GgmlType::Q6_K => "Q6_K"@,
            GgmlType::Q8_K => "Q8_K"@,
            GgmlType::IQ2_XXS => "IQ2_XXS"@,
            GgmlType::IQ2_XS => "IQ2_XS"@,
            GgmlType::IQ3_XXS => "IQ3_XXS"@,
            GgmlType::IQ1_S => "IQ1_S"@,
            GgmlType::IQ4_NL => "IQ4_NL"@,
            GgmlType::IQ3_S => "IQ3_S"@,
            GgmlType::IQ2_S => "IQ2_S"@,
            GgmlType::IQ4_XS => "IQ4_XS"@,
            GgmlType::I8 => "I8"@,
            GgmlType::I16 => "I16"@,
            GgmlType::I32 => "I32"@,
            GgmlType::I64 => "I64"@,
            GgmlType::F64 => "F64"@,
            GgmlType::IQ1_M => "IQ1_M"@,
            GgmlType::BF16 => "BF16"@,
            GgmlType::Q4_0_4_4 => "Q4_0_4_4"@,
            GgmlType::Q4_0_4_8 => "Q4_0_4_8"@,
            GgmlType::Q4_0_8_8 => "Q4_0_8_8"@,
        }
    }

    /// The type with the on-disk id `v`.
    pub fn from_u32(v: u32) -> (r: Result<Self, GgufError>)
        ensures
            r is Ok <==> v <= 33 && v != 4 && v != 5,
            r matches Ok(t) ==> t.spec_id() == v,
            r matches Err(e) ==> e == GgufError::UnknownTensorType(v),
    {
        match v {
            0 => Ok(GgmlType::F32),
            1 => Ok(GgmlType::F16),
            2 => Ok(GgmlType::Q4_0),
            3 => Ok(GgmlType::Q4_1),
            6 => Ok(GgmlType::Q5_0),
            7 => Ok(GgmlType::Q5_1),
            8 => Ok(GgmlType::Q8_0),
            9 => Ok(GgmlType::Q8_1),
            10 => Ok(GgmlType::Q2_K),
            11 => Ok(GgmlType::Q3_K),
            12 => Ok(GgmlType::Q4_K),
            13 => Ok(GgmlType::Q5_K),
            14 => Ok(GgmlType::Q6_K),
            15 => Ok(GgmlType::Q8_K),
            16 => Ok(GgmlType::IQ2_XXS),
            17 => Ok(GgmlType::IQ2_XS),
            18 => Ok(GgmlType::IQ3_XXS),
            19 => Ok(GgmlType::IQ1_S),
            20 => Ok(GgmlType::IQ4_NL),
            21 => Ok(GgmlType::IQ3_S),
            22 => Ok(GgmlType::IQ2_S),
            23 => Ok(GgmlType::IQ4_XS),
            24 => Ok(GgmlType::I8),
            25 => Ok(GgmlType::I16),
            26 => Ok(GgmlType::I32),
            27 => Ok(GgmlType::I64),
            28 => Ok(GgmlType::F64),
            29 => Ok(GgmlType::IQ1_M),
            30 => Ok(GgmlType::BF16),
            31 => Ok(GgmlType::Q4_0_4_4),
            32 => Ok(GgmlType::Q4_0_4_8),
            33 => Ok(GgmlType::Q4_0_8_8),
            _ => Err(GgufError::UnknownTensorType(v)),
        }
    }

    /// The on-disk id of this type.
    pub fn id(&self) -> (v: u32)
        ensures
            v == self.spec_id(),
    {
        match self {
            GgmlType::F32 => 0,
            GgmlType::F16 => 1,
            GgmlType::Q4_0 => 2,
            GgmlType::Q4_1 => 3,
            GgmlType::Q5_0 => 6,
            GgmlType::Q5_1 => 7,
            GgmlType::Q8_0 => 8,
            GgmlType::Q8_1 => 9,
            GgmlType::Q2_K => 10,
            GgmlType::Q3_K => 11,
            GgmlType::Q4_K => 12,
            GgmlType::Q5_K => 13,
            GgmlType::Q6_K => 14,
            GgmlType::Q8_K => 15,
            GgmlType::IQ2_XXS => 16,
            GgmlType::IQ2_XS => 17,
            GgmlType::IQ3_XXS => 18,
            GgmlType::IQ1_S => 19,
            GgmlType::IQ4_NL => 20,
            GgmlType::IQ3_S => 21,
            GgmlType::IQ2_S => 22,
            GgmlType::IQ4_XS => 23,
            GgmlType::I8 => 24,
            GgmlType::I16 => 25,
            GgmlType::I32 => 26,
            GgmlType::I64 => 27,
            GgmlType::F64 => 28,
            GgmlType::IQ1_M => 29,
            GgmlType::BF16 => 30,
            GgmlType::Q4_0_4_4 => 31,
            GgmlType::Q4_0_4_8 => 32,
            GgmlType::Q4_0_8_8 => 33,
        }
    }

    /// Block size: number of elements per quantization block.
    pub fn block_size(&self) -> (n: usize)
        ensures
            n == self.spec_block_size(),
    {
        match self {
            GgmlType::F32 => 1,
            GgmlType::F16 => 1,
            GgmlType::Q4_0 => 32,
            GgmlType::Q4_1 => 32,
            GgmlType::Q5_0 => 32,
            GgmlType::Q5_1 => 32,
            GgmlType::Q8_0 => 32,
            GgmlType::Q8_1 => 32,
            GgmlType::Q2_K => 256,
            GgmlType::Q3_K => 256,
            GgmlType::Q4_K => 256,
            GgmlType::Q5_K => 256,
            GgmlType::Q6_K => 256,
            GgmlType::Q8_K => 256,
            GgmlType::IQ2_XXS => 256,
            GgmlType::IQ2_XS => 256,
            GgmlType::IQ3_XXS => 256,
            GgmlType::IQ1_S => 256,
            GgmlType::IQ4_NL => 32,
            GgmlType::IQ3_S => 256,
            GgmlType::IQ2_S => 256,
            GgmlType::IQ4_XS => 256,
            GgmlType::I8 => 1,
            GgmlType::I16 => 1,
            GgmlType::I32 => 1,
            GgmlType::I64 => 1,
            GgmlType::F64 => 1,
            GgmlType::IQ1_M => 256,
            GgmlType::BF16 => 1,
            GgmlType::Q4_0_4_4 => 32,
            GgmlType::Q4_0_4_8 => 32,
            GgmlType::Q4_0_8_8 => 32,
        }
    }

    /// Byte size of one quantization block.
    pub fn block_bytes(&self) -> (n: usize)
        ensures
            n == self.spec_block_bytes(),
    {
        match self {
            GgmlType::F32 => 4,
            GgmlType::F16 => 2,
            GgmlType::Q4_0 => 18,  // f16 scale, 32 nibbles
            GgmlType::Q4_1 => 20,  // f16 scale and min, 32 nibbles
            GgmlType::Q5_0 => 22,
            GgmlType::Q5_1 => 24,
            GgmlType::Q8_0 => 34,  // f16 scale, 32 i8 values
            GgmlType::Q8_1 => 40,
            GgmlType::Q2_K => 84,  // 16 scale/min nibble pairs, 64 quant bytes, f16 d and dmin
            GgmlType::Q3_K => 110,
            GgmlType::Q4_K => 144,
            GgmlType::Q5_K => 176,
            GgmlType::Q6_K => 210,
            GgmlType::Q8_K => 292,
            GgmlType::IQ2_XXS => 66,
            GgmlType::IQ2_XS => 74,
            GgmlType::IQ3_XXS => 98,
            GgmlType::IQ1_S => 50,
            GgmlType::IQ4_NL => 18,
            GgmlType::IQ3_S => 110,
            GgmlType::IQ2_S => 82,
            GgmlType::IQ4_XS => 136,
            GgmlType::I8 => 1,
            GgmlType::I16 => 2,
            GgmlType::I32 => 4,
            GgmlType::I64 => 8,
            GgmlType::F64 => 8,
            GgmlType::IQ1_M => 56,
            GgmlType::BF16 => 2,
            GgmlType::Q4_0_4_4 => 18,
            GgmlType::Q4_0_4_8 => 18,
            GgmlType::Q4_0_8_8 => 18,
        }
    }

    /// Total bytes needed for `n` elements of this type.
    pub fn type_size(&self, n: usize) -> (bytes: usize)
        requires
            self.spec_type_size(n as nat) <= usize::MAX,
        ensures
            bytes == self.spec_type_size(n as nat),
    {
        self.checked_type_size(n).unwrap()
    }

    /// Total bytes needed for `n` elements of this type, or nothing where that
    /// number does not fit a `usize`.
    pub fn checked_type_size(&self, n: usize) -> (bytes: Option<usize>)
        ensures
            bytes is Some <==> self.spec_type_size(n as nat) <= usize::MAX,
            bytes matches Some(b) ==> b == self.spec_type_size(n as nat),
    {
        let size: usize = self.block_size();
        let whole: usize = n / size;
        let blocks: usize = if n % size == 0 {
            whole
        } else {
            whole + 1
        };
        blocks.checked_mul(self.block_bytes())
    }

    /// Human-readable name.
    pub fn name(&self) -> (s: &'static str)
        ensures
            s@ == self.spec_name(),
    {
        match self {
            GgmlType::F32 => "F32",
            GgmlType::F16 => "F16",
            GgmlType::Q4_0 => "Q4_0",
            GgmlType::Q4_1 => "Q4_1",
            GgmlType::Q5_0 => "Q5_0",
            GgmlType::Q5_1 => "Q5_1",
            GgmlType::Q8_0 => "Q8_0",
            GgmlType::Q8_1 => "Q8_1",
            GgmlType::Q2_K => "Q2_K",
            GgmlType::Q3_K => "Q3_K",
            GgmlType::Q4_K => "Q4_K",
            GgmlType::Q5_K => "Q5_K",
            GgmlType::Q6_K => "Q6_K",
            GgmlType::Q8_K => "Q8_K",
            GgmlType::IQ2_XXS => "IQ2_XXS",
            GgmlType::IQ2_XS => "IQ2_XS",
            GgmlType::IQ3_XXS => "IQ3_XXS",
            GgmlType::IQ1_S => "IQ1_S",
            GgmlType::IQ4_NL => "IQ4_NL",
            GgmlType::IQ3_S => "IQ3_S",
            GgmlType::IQ2_S => "IQ2_S",
            GgmlType::IQ4_XS => "IQ4_XS",
            GgmlType::I8 => "I8",
            GgmlType::I16 => "I16",
            GgmlType::I32 => "I32",
            GgmlType::I64 => "I64",
            GgmlType::F64 => "F64",
            GgmlType::IQ1_M => "IQ1_M",
            GgmlType::BF16 => "BF16",
            GgmlType::Q4_0_4_4 => "Q4_0_4_4",
            GgmlType::Q4_0_4_8 => "Q4_0_4_8",
            GgmlType::Q4_0_8_8 => "Q4_0_8_8",
        }
    }
}

/// Distinct tensor types have distinct on-disk ids, so reading an id gives back
/// the type whose id was written.
pub proof fn law_type_id_identifies_type(a: GgmlType, b: GgmlType)
    requires
        a.spec_id() == b.spec_id(),
    ensures
        a == b,
{
}

/// The on-disk ids are the numbers up to 33 without 4 and 5.
pub proof fn law_type_id_range(t: GgmlType)
    ensures
        t.spec_id() <= 33,
        t.spec_id() != 4,
        t.spec_id() != 5,
{
}

/// Element type for metadata arrays. Arrays of arrays do not exist.
#[derive(Debug, Clone, Copy, PartialEq, Eq, Structural)]
pub enum MetadataArrayType {
    U8,
    I8,
    U16,
    I16,
    U32,
    I32,
    Float32,
    Bool,
    String,
    U64,
    I64,
    Float64,
}

impl MetadataArrayType {
    /// The id of this element type in a file.
    pub open spec fn spec_id(self) -> u32 {
        match self {
            MetadataArrayType::U8 => 0,
            MetadataArrayType::I8 => 1,
            MetadataArrayType::U16 => 2,
            MetadataArrayType::I16 => 3,
            MetadataArrayType::U32 => 4,
            MetadataArrayType::I32 => 5,
            MetadataArrayType::Float32 => 6,
            MetadataArrayType::Bool => 7,
            MetadataArrayType::String => 8,
            MetadataArrayType::U64 => 10,
            MetadataArrayType::I64 => 11,
            MetadataArrayType::Float64 => 12,
        }
    }

    /// The name of this element type.
    pub open spec fn spec_name(self) -> Seq<char> {
        match self {
            MetadataArrayType::U8 => "U8"@,
            MetadataArrayType::I8 => "I8"@,
            MetadataArrayType::U16 => "U16"@,
            MetadataArrayType::I16 => "I16"@,
            MetadataArrayType::U32 => "U32"@,
            MetadataArrayType::I32 => "I32"@,
            MetadataArrayType::Float32 => "Float32"@,
            MetadataArrayType::Bool => "Bool"@,
            MetadataArrayType::String => "String"@,
            MetadataArrayType::U64 => "U64"@,
            MetadataArrayType::I64 => "I64"@,
            MetadataArrayType::Float64 => "Float64"@,
        }
    }

    /// The element type with the id `v`.
    pub fn from_u32(v: u32) -> (r: Result<Self, GgufError>)
        ensures
            r is Ok <==> v <= 12 && v != 9,
            r matches Ok(t) ==> t.spec_id() == v,
            r matches Err(e) ==> e == GgufError::UnknownMetadataType(v),
    {
        match v {
            0 => Ok(MetadataArrayType::U8),
            1 => Ok(MetadataArrayType::I8),
            2 => Ok(MetadataArrayType::U16),
            3 => Ok(MetadataArrayType::I16),
            4 => Ok(MetadataArrayType::U32),
            5 => Ok(MetadataArrayType::I32),
            6 => Ok(MetadataArrayType::Float32),
            7 => Ok(MetadataArrayType::Bool),
            8 => Ok(MetadataArrayType::String),
            10 => Ok(MetadataArrayType::U64),
            11 => Ok(MetadataArrayType::I64),
            12 => Ok(MetadataArrayType::Float64),
            _ => Err(GgufError::UnknownMetadataType(v)),
        }
    }

    /// The name of this element type.
    pub fn name(&self) -> (s: &'static str)
        ensures
            s@ == self.spec_name(),
    {
        match self {
            MetadataArrayType::U8 => "U8",
            MetadataArrayType::I8 => "I8",
            MetadataArrayType::U16 => "U16",
            MetadataArrayType::I16 => "I16",
            MetadataArrayType::U32 => "U32",
            MetadataArrayType::I32 => "I32",
            MetadataArrayType::Float32 => "Float32",
            MetadataArrayType::Bool => "Bool",
            MetadataArrayType::String => "String",
            MetadataArrayType::U64 => "U64",
            MetadataArrayType::I64 => "I64",
            MetadataArrayType::Float64 => "Float64",
        }
    }
}

/// Distinct element types have distinct ids.
pub proof fn law_array_type_id_identifies_type(a: MetadataArrayType, b: MetadataArrayType)
    requires
        a.spec_id() == b.spec_id(),
    ensures
        a == b,
{
}

/// A floating-point number by its IEEE 754 bits, in the width it was stored in.
#[derive(Debug, Clone, Copy, PartialEq, Eq, Structural)]
pub enum FloatBits {
    /// The 32 bits of a binary32 number.
    Single(u32),
    /// The 64 bits of a binary64 number.
    Double(u64),
}

/// GGUF metadata values. Floating-point numbers are held by their bits.
#[derive(Debug)]
pub enum MetadataValue {
    U8(u8),
    I8(i8),
    U16(u16),
    I16(i16),
    U32(u32),
    I32(i32),
    Float32(u32),
    Bool(bool),
    String(String),
    Array(MetadataArrayType, Vec<MetadataValue>),
    U64(u64),
    I64(i64),
    Float64(u64),
}

/// A metadata value as mathematics sees it: text is a sequence of characters and
/// an array is a sequence of values.
pub enum Meta {
    U8(u8),
    I8(i8),
    U16(u16),
    I16(i16),
    U32(u32),
    I32(i32),
    Float32(u32),
    Bool(bool),
    Text(Seq<char>),
    Array(MetadataArrayType, Seq<Meta>),
    U64(u64),
    I64(i64),
    Float64(u64),
}

/// How a metadata value is shown to people.
#[derive(Debug)]
pub enum ShownValue {
    /// The text to show.
    Text(String),
    /// A number to show with six decimals.
    Float(FloatBits),
}

/// The 64-bit two's complement reading of an unsigned number.
pub open spec fn wrapped_i64(v: u64) -> i64 {
    if v <= i64::MAX {
        v as i64
    } else {
        (v - 0x1_0000_0000_0000_0000) as i64
    }
}

impl Meta {
    /// The value as an unsigned number: unsigned values only.
    pub open spec fn number(self) -> Option<u64> {
        match self {
            Meta::U8(v) => Some(v as u64),
            Meta::U16(v) => Some(v as u64),
            Meta::U32(v) => Some(v as u64),
            Meta::U64(v) => Some(v),
            _ => None,
        }
    }

    /// The value as a signed number: integers only, with 64-bit wrap-around.
    pub open spec fn integer(self) -> Option<i64> {
        match self {
            Meta::U8(v) => Some(v as i64),
            Meta::I8(v) => Some(v as i64),
            Meta::U16(v) => Some(v as i64),
            Meta::I16(v) => Some(v as i64),
            Meta::U32(v) => Some(v as i64),
            Meta::I32(v) => Some(v as i64),
            Meta::U64(v) => Some(wrapped_i64(v)),
            Meta::I64(v) => Some(v),
            _ => None,
        }
    }

    /// The text of a string value.
    pub open spec fn text(self) -> Option<Seq<char>> {
        match self {
            Meta::Text(s) => Some(s),
            _ => None,
        }
    }

    /// The elements of an array value.
    pub open spec fn items(self) -> Option<Seq<Meta>> {
        match self {
            Meta::Array(_, items) => Some(items),
            _ => None,
        }
    }

    /// The bits of a floating-point value.
    pub open spec fn float(self) -> Option<FloatBits> {
        match self {
            Meta::Float32(v) => Some(FloatBits::Single(v)),
            Meta::Float64(v) => Some(FloatBits::Double(v)),
            _ => None,
        }
    }

    /// The value of a boolean.
    pub open spec fn flag(self) -> Option<bool> {
        match self {
            Meta::Bool(v) => Some(v),
            _ => None,
        }
    }

    /// The id of the value's type in a file.
    pub open spec fn spec_type_id(self) -> u32 {
        match self {
            Meta::U8(_) => 0,
            Meta::I8(_) => 1,
            Meta::U16(_) => 2,
            Meta::I16(_) => 3,
            Meta::U32(_) => 4,
            Meta::I32(_) => 5,
            Meta::Float32(_) => 6,
            Meta::Bool(_) => 7,
            Meta::Text(_) => 8,
            Meta::Array(_, _) => 9,
            Meta::U64(_) => 10,
            Meta::I64(_) => 11,
            Meta::Float64(_) => 12,
        }
    }

    /// The text shown for a value that is no floating-point number.
    pub open spec fn shown_text(self) -> Seq<char> {
        match self {
            Meta::U8(v) => decimal(v as nat),
            Meta::I8(v) => decimal_int(v as int),
            Meta::U16(v) => decimal(v as nat),
            Meta::I16(v) => decimal_int(v as int),
            Meta::U32(v) => decimal(v as nat),
            Meta::I32(v) => decimal_int(v as int),
            Meta::Bool(v) => if v {
                "true"@
            } else {
                "false"@
            },
            Meta::Text(s) => s,
            Meta::Array(kind, items) => "Array("@ + kind.spec_name() + ", "@ + decimal(items.len())
                + " items)"@,
            Meta::U64(v) => decimal(v as nat),
            Meta::I64(v) => decimal_int(v as int),
            _ => Seq::empty(),
        }
    }
}

/// The mathematical reading of a metadata value.
pub open spec fn meta(v: MetadataValue) -> Meta
    decreases v,
{
    match v {
        MetadataValue::U8(x) => Meta::U8(x),
        MetadataValue::I8(x) => Meta::I8(x),
        MetadataValue::U16(x) => Meta::U16(x),
        MetadataValue::I16(x) => Meta::I16(x),
        MetadataValue::U32(x) => Meta::U32(x),
        MetadataValue::I32(x) => Meta::I32(x),
        MetadataValue::Float32(x) => Meta::Float32(x),
        MetadataValue::Bool(x) => Meta::Bool(x),
        MetadataValue::String(s) => Meta::Text(s@),
        MetadataValue::Array(kind, items) => Meta::Array(
            kind,
            Seq::new(
                items@.len(),
                |i: int|
                    if 0 <= i < items@.len() {
                        meta(items@[i])
                    } else {
                        arbitrary()
                    },
            ),
        ),
        MetadataValue::U64(x) => Meta::U64(x),
        MetadataValue::I64(x) => Meta::I64(x),
        MetadataValue::Float64(x) => Meta::Float64(x),
    }
}

/// The mathematical reading of several metadata values.
pub open spec fn metas(items: Seq<MetadataValue>) -> Seq<Meta> {
    Seq::new(items.len(), |i: int| meta(items[i]))
}

proof fn lemma_array_items(v: MetadataValue)
    ensures
        v matches MetadataValue::Array(kind, items) ==> meta(v) == Meta::Array(
            kind,
            metas(items@),
        ),
{
    if let MetadataValue::Array(kind, items) = v {
        assert(meta(v)->Array_1 =~= metas(items@));
    }
}

impl View for MetadataValue {
    type V = Meta;

    open spec fn view(&self) -> Meta {
        meta(*self)
    }
}

fn i64_of_u64(v: u64) -> (r: i64)
    ensures
        r == wrapped_i64(v),
{
    if v <= i64::MAX as u64 {
        v as i64
    } else {
        (v as i128 - 0x1_0000_0000_0000_0000) as i64
    }
}

impl MetadataValue {
    /// Get the GGUF type ID for this value.
    pub fn type_id(&self) -> (id: u32)
        ensures
            id == self@.spec_type_id(),
    {
        match self {
            MetadataValue::U8(_) => 0,
            MetadataValue::I8(_) => 1,
            MetadataValue::U16(_) => 2,
            MetadataValue::I16(_) => 3,
            MetadataValue::U32(_) => 4,
            MetadataValue::I32(_) => 5,
            MetadataValue::Float32(_) => 6,
            MetadataValue::Bool(_) => 7,
            MetadataValue::String(_) => 8,
            MetadataValue::Array(_, _) => 9,
            MetadataValue::U64(_) => 10,
            MetadataValue::I64(_) => 11,
            MetadataValue::Float64(_) => 12,
        }
    }

    /// Try to get a u64 from this value: any unsigned integer.
    pub fn as_u64(&self) -> (r: Option<u64>)
        ensures
            r == self@.number(),
    {
        match self {
            MetadataValue::U8(v) => Some(*v as u64),
            MetadataValue::U16(v) => Some(*v as u64),
            MetadataValue::U32(v) => Some(*v as u64),
            MetadataValue::U64(v) => Some(*v),
            _ => None,
        }
    }

    /// Try to get an i64 from this value: any integer, signed or not.
    pub fn as_i64(&self) -> (r: Option<i64>)
        ensures
            r == self@.integer(),
    {
        match self {
            MetadataValue::U8(v) => Some(*v as i64),
            MetadataValue::I8(v) => Some(*v as i64),
            MetadataValue::U16(v) => Some(*v as i64),
            MetadataValue::I16(v) => Some(*v as i64),
            MetadataValue::U32(v) => Some(*v as i64),
            MetadataValue::I32(v) => Some(*v as i64),
            MetadataValue::U64(v) => Some(i64_of_u64(*v)),
            MetadataValue::I64(v) => Some(*v),
            _ => None,
        }
    }

    /// Try to get a string reference.
    pub fn as_str(&self) -> (r: Option<&str>)
        ensures
            r is Some <==> self@.text() is Some,
            r matches Some(s) ==> self@.text() == Some(s@),
    {
        match self {
            MetadataValue::String(s) => Some(s.as_str()),
            _ => None,
        }
    }

    /// Try to get the elements of an array value.
    pub fn as_array(&self) -> (r: Option<&[MetadataValue]>)
        ensures
            r is Some <==> self@.items() is Some,
            r matches Some(items) ==> self@.items() == Some(metas(items@)),
    {
        proof {
            lemma_array_items(*self);
        }
        match self {
            MetadataValue::Array(_, items) => Some(items.as_slice()),
            _ => None,
        }
    }

    /// Try to get a floating-point number, by its bits.
    pub fn as_f32(&self) -> (r: Option<FloatBits>)
        ensures
            r == self@.float(),
    {
        match self {
            MetadataValue::Float32(v) => Some(FloatBits::Single(*v)),
            MetadataValue::Float64(v) => Some(FloatBits::Double(*v)),
            _ => None,
        }
    }

    /// Try to get bool.
    pub fn as_bool(&self) -> (r: Option<bool>)
        ensures
            r == self@.flag(),
    {
        match self {
            MetadataValue::Bool(v) => Some(*v),
            _ => None,
        }
    }

    /// Format for display. Floating-point values are shown with six decimals,
    /// which is left to the caller; everything else comes as text.
    pub fn display_value(&self) -> (shown: ShownValue)
        ensures
            match shown {
                ShownValue::Float(bits) => self@.float() == Some(bits),
                ShownValue::Text(s) => self@.float() is None && s@ == self@.shown_text(),
            },
    {
        proof {
            lemma_array_items(*self);
        }
        match self {
            MetadataValue::U8(v) => ShownValue::Text(decimal_string(*v as u64)),
            MetadataValue::I8(v) => ShownValue::Text(decimal_string_signed(*v as i64)),
            MetadataValue::U16(v) => ShownValue::Text(decimal_string(*v as u64)),
            MetadataValue::I16(v) => ShownValue::Text(decimal_string_signed(*v as i64)),
            MetadataValue::U32(v) => ShownValue::Text(decimal_string(*v as u64)),
            MetadataValue::I32(v) => ShownValue::Text(decimal_string_signed(*v as i64)),
            MetadataValue::Float32(v) => ShownValue::Float(FloatBits::Single(*v)),
            MetadataValue::Bool(v) => ShownValue::Text(
                if *v {
                    "true".to_owned()
                } else {
                    "false".to_owned()
                },
            ),
            MetadataValue::String(s) => ShownValue::Text(s.clone()),
            MetadataValue::Array(kind, items) => {
                let count = decimal_string(items.len() as u64);
                ShownValue::Text(
                    "Array(".to_owned().concat(kind.name()).concat(", ").concat(
                        count.as_str(),
                    ).concat(" items)"),
                )
            },
            MetadataValue::U64(v) => ShownValue::Text(decimal_string(*v)),
            MetadataValue::I64(v) => ShownValue::Text(decimal_string_signed(*v)),
            MetadataValue::Float64(v) => ShownValue::Float(FloatBits::Double(*v)),
        }
    }
}

/// Product of a sequence of dimensions.
pub open spec fn product(dims: Seq<u64>) -> nat
    decreases dims.len(),
{
    if dims.len() == 0 {
        1
    } else {
        product(dims.drop_last()) * (dims.last() as nat)
    }
}

/// Whether every partial product of the dimensions fits a `usize`, so that
/// multiplying them up from the first never overflows.
pub open spec fn product_fits(dims: Seq<u64>) -> bool {
    forall|k: int| 0 <= k <= dims.len() ==> product(#[trigger] dims.take(k)) <= usize::MAX
}

/// The product of the dimensions, or nothing where multiplying them up
/// overflows.
pub fn checked_product(dims: &[u64]) -> (r: Option<usize>)
    ensures
        r is Some <==> product_fits(dims@),
        r matches Some(n) ==> n == product(dims@),
{
    let mut n: usize = 1;
    let mut i: usize = 0;
    proof {
        assert(dims@.take(0).len() == 0);
    }
    while i < dims.len()
        invariant
            i <= dims@.len(),
            n == product(dims@.take(i as int)),
            forall|k: int| 0 <= k <= i ==> product(#[trigger] dims@.take(k)) <= usize::MAX,
        decreases dims@.len() - i,
    {
        proof {
            let next = dims@.take(i as int + 1);
            assert(next.drop_last() =~= dims@.take(i as int));
            assert(next.last() == dims@[i as int]);
            assert(product(next) == n as nat * (dims@[i as int] as nat));
        }
        let d: u64 = dims[i];
        if d > usize::MAX as u64 && n != 0 {
            proof {
                assert(n as nat * (d as nat) > usize::MAX) by (nonlinear_arith)
                    requires
                        n >= 1,
                        d > usize::MAX,
                ;
                assert(!product_fits(dims@)) by {
                    assert(product(dims@.take(i as int + 1)) > usize::MAX);
                }
            }
            return None;
        }
        if n == 0 {
            proof {
                assert(0 * (d as nat) == 0) by (nonlinear_arith);
            }
        } else {
            match n.checked_mul(d as usize) {
                Some(m) => {
                    n = m;
                },
                None => {
                    proof {
                        assert(!product_fits(dims@)) by {
                            assert(product(dims@.take(i as int + 1)) > usize::MAX);
                        }
                    }
                    return None;
                },
            }
        }
        i += 1;
    }
    proof {
        assert(dims@.take(dims@.len() as int) =~= dims@);
    }
    Some(n)
}

/// Information about a single tensor in the GGUF file.
#[derive(Debug)]
pub struct TensorInfo {
    pub name: String,
    pub n_dims: u32,
    pub dims: Vec<u64>,
    pub ggml_type: GgmlType,
    pub byte_offset: u64,
}

/// A tensor description as mathematics sees it.
#[verifier::ext_equal]
pub struct TensorView {
    pub name: Seq<char>,
    pub n_dims: u32,
    pub dims: Seq<u64>,
    pub ggml_type: GgmlType,
    pub byte_offset: u64,
}

impl View for TensorInfo {
    type V = TensorView;

    open spec fn view(&self) -> TensorView {
        TensorView {
            name: self.name@,
            n_dims: self.n_dims,
            dims: self.dims@,
            ggml_type: self.ggml_type,
            byte_offset: self.byte_offset,
        }
    }
}

impl TensorView {
    /// Total number of elements.
    pub open spec fn spec_n_elements(self) -> nat {
        product(self.dims)
    }

    /// Bytes of the tensor's data.
    pub open spec fn spec_byte_size(self) -> nat {
        self.ggml_type.spec_type_size(self.spec_n_elements())
    }

    /// Whether the number of elements and of bytes can be computed without
    /// overflow.
    pub open spec fn sized(self) -> bool {
        product_fits(self.dims) && self.spec_byte_size() <= usize::MAX
    }
}

/// The numerals of `parts`, separated by commas.
pub open spec fn comma_separated(parts: Seq<u64>) -> Seq<char>
    decreases parts.len(),
{
    if parts.len() == 0 {
        Seq::empty()
    } else if parts.len() == 1 {
        decimal(parts[0] as nat)
    } else {
        comma_separated(parts.drop_last()) + ", "@ + decimal(parts.last() as nat)
    }
}

impl TensorInfo {
    /// Total number of elements in this tensor.
    pub fn n_elements(&self) -> (n: usize)
        requires
            product_fits(self@.dims),
        ensures
            n == self@.spec_n_elements(),
    {
        checked_product(self.dims.as_slice()).unwrap()
    }

    /// Byte size of this tensor's data.
    pub fn byte_size(&self) -> (n: usize)
        requires
            self@.sized(),
        ensures
            n == self@.spec_byte_size(),
    {
        self.ggml_type.type_size(self.n_elements())
    }

    /// Byte size of this tensor's data, or nothing where computing it overflows.
    pub fn checked_byte_size(&self) -> (n: Option<usize>)
        ensures
            n is Some <==> self@.sized(),
            n matches Some(b) ==> b == self@.spec_byte_size(),
    {
        match checked_product(self.dims.as_slice()) {
            Some(count) => self.ggml_type.checked_type_size(count),
            None => None,
        }
    }

    /// Shape as a human-readable string, e.g. "[4096, 4096]".
    pub fn shape_str(&self) -> (s: String)
        ensures
            s@ == "["@ + comma_separated(self@.dims) + "]"@,
    {
        let mut s = "[".to_owned();
        let mut i: usize = 0;
        let ghost dims = self.dims@;
        proof {
            assert("["@ + comma_separated(dims.take(0)) =~= "["@);
        }
        while i < self.dims.len()
            invariant
                dims == self.dims@,
                i <= dims.len(),
                s@ == "["@ + comma_separated(dims.take(i as int)),
            decreases dims.len() - i,
        {
            let numeral = decimal_string(self.dims[i]);
            proof {
                let next = dims.take(i as int + 1);
                assert(next.drop_last() =~= dims.take(i as int));
                assert(next.last() == dims[i as int]);
                assert("["@ + (comma_separated(dims.take(i as int)) + ", "@ + numeral@) =~= "["@
                    + comma_separated(dims.take(i as int)) + ", "@ + numeral@);
                if i == 0 {
                    assert("["@ + comma_separated(dims.take(0)) + numeral@ =~= "["@ + numeral@);
                }
            }
            if i > 0 {
                s.append(", ");
            }
            s.append(numeral.as_str());
            i += 1;
        }
        proof {
            assert(dims.take(dims.len() as int) =~= dims);
        }
        s.append("]");
        s
    }
}

/// Metadata of a file: keys with their values. The keys keep the order in which
/// they first came; a key that comes again replaces the value.
pub struct Metadata {
    positions: StringHashMap<usize>,
    entries: Vec<(String, MetadataValue)>,
}

impl View for Metadata {
    type V = Map<Seq<char>, MetadataValue>;

    closed spec fn view(&self) -> Map<Seq<char>, MetadataValue> {
        Map::new(
            |k: Seq<char>|
                self.positions@.contains_key(k) && self.positions@[k] < self.entries@.len(),
            |k: Seq<char>| self.entries@[self.positions@[k] as int].1,
        )
    }
}

impl Metadata {
    /// Every entry is found under its key, and under no other.
    pub closed spec fn wf(&self) -> bool {
        &&& forall|k: Seq<char>|
            #![trigger self.positions@.contains_key(k)]
            self.positions@.contains_key(k) ==> self.positions@[k] < self.entries@.len()
                && self.entries@[self.positions@[k] as int].0@ == k
        &&& forall|i: int|
            #![trigger self.entries@[i]]
            0 <= i < self.entries@.len() ==> self.positions@.contains_key(self.entries@[i].0@)
                && self.positions@[self.entries@[i].0@] == i
    }

    /// The keys, in the order in which they first came.
    pub closed spec fn spec_keys(&self) -> Seq<Seq<char>> {
        self.entries@.map_values(|e: (String, MetadataValue)| e.0@)
    }

    /// No metadata.
    pub fn new() -> (m: Self)
        ensures
            m.wf(),
            m@ == Map::<Seq<char>, MetadataValue>::empty(),
            m.spec_keys() == Seq::<Seq<char>>::empty(),
    {
        let m = Metadata { positions: StringHashMap::new(), entries: Vec::new() };
        proof {
            assert(m@ =~= Map::<Seq<char>, MetadataValue>::empty());
            assert(m.spec_keys() =~= Seq::<Seq<char>>::empty());
        }
        m
    }

    /// Sets the value of a key.
    pub fn insert(&mut self, key: String, value: MetadataValue)
        requires
            old(self).wf(),
        ensures
            final(self).wf(),
            final(self)@ == old(self)@.insert(key@, value),
            final(self).spec_keys() == (if old(self)@.contains_key(key@) {
                old(self).spec_keys()
            } else {
                old(self).spec_keys().push(key@)
            }),
    {
        let ghost before = *self;
        let ghost k0 = key@;
        let found: Option<usize> = match self.positions.get(key.as_str()) {
            Some(p) => Some(*p),
            None => None,
        };
        match found {
            Some(p) => {
                self.entries.set(p, (key, value));
                proof {
                    assert(self@ =~= before@.insert(k0, value));
                    assert(self.spec_keys() =~= before.spec_keys());
                }
            },
            None => {
                let p: usize = self.entries.len();
                self.positions.insert(key.clone(), p);
                self.entries.push((key, value));
                proof {
                    assert(self@ =~= before@.insert(k0, value));
                    assert(self.spec_keys() =~= before.spec_keys().push(k0));
                }
            },
        }
    }

    /// The value of a key.
    pub fn get(&self, key: &str) -> (r: Option<&MetadataValue>)
        ensures
            r is Some <==> self@.contains_key(key@),
            r matches Some(v) ==> *v == self@[key@],
    {
        match self.positions.get(key) {
            Some(p) => {
                if *p < self.entries.len() {
                    Some(&self.entries[*p].1)
                } else {
                    None
                }
            },
            None => None,
        }
    }

    /// How many keys there are.
    pub fn len(&self) -> (n: usize)
        ensures
            n == self.spec_keys().len(),
    {
        self.entries.len()
    }

    /// Whether there is no key.
    pub fn is_empty(&self) -> (r: bool)
        ensures
            r == (self.spec_keys().len() == 0),
    {
        self.entries.len() == 0
    }

    /// The key that came first at place `i`, with its value.
    pub fn entry(&self, i: usize) -> (r: (&str, &MetadataValue))
        requires
            self.wf(),
            i < self.spec_keys().len(),
        ensures
            r.0@ == self.spec_keys()[i as int],
            self@.contains_key(r.0@),
            self@[r.0@] == *r.1,
    {
        (self.entries[i].0.as_str(), &self.entries[i].1)
    }
}

/// Each key of the metadata stands at one place of the key sequence, and every
/// place holds a key: walking the places visits every entry once.
pub proof fn law_metadata_keys(m: Metadata)
    requires
        m.wf(),
    ensures
        m.spec_keys().no_duplicates(),
        forall|k: Seq<char>| m@.contains_key(k) <==> m.spec_keys().contains(k),
{
    let keys = m.spec_keys();
    assert forall|i: int, j: int| 0 <= i < keys.len() && 0 <= j < keys.len() && i != j implies keys[i]
        != keys[j] by {
        assert(m.positions@[m.entries@[i].0@] == i);
        assert(m.positions@[m.entries@[j].0@] == j);
    }
    assert forall|k: Seq<char>| m@.contains_key(k) <==> keys.contains(k) by {
        if m@.contains_key(k) {
            assert(m.positions@.contains_key(k));
            assert(keys[m.positions@[k] as int] == k);
        }
        if keys.contains(k) {
            let i = choose|i: int| 0 <= i < keys.len() && keys[i] == k;
            assert(m.entries@[i].0@ == k);
            assert(m.positions@.contains_key(m.entries@[i].0@));
        }
    }
}

/// Parsed GGUF file contents.
pub struct GgufFile {
    pub version: u32,
    pub tensor_count: u64,
    pub metadata: Metadata,
    pub tensors: Vec<TensorInfo>,
    /// Byte offset where the tensor data section begins (after alignment).
    pub data_offset: u64,
}

/// The contents of a file as mathematics sees them.
#[verifier::ext_equal]
pub struct FileView {
    pub version: u32,
    pub tensor_count: u64,
    pub metadata: Map<Seq<char>, Meta>,
    pub tensors: Seq<TensorView>,
    pub data_offset: u64,
}

/// The metadata of a map of values, each as mathematics sees it.
pub open spec fn metadata_view(m: Map<Seq<char>, MetadataValue>) -> Map<Seq<char>, Meta> {
    m.map_values(|v: MetadataValue| meta(v))
}

/// Several tensor descriptions as mathematics sees them.
pub open spec fn tensor_views(tensors: Seq<TensorInfo>) -> Seq<TensorView> {
    tensors.map_values(|t: TensorInfo| t@)
}

impl View for GgufFile {
    type V = FileView;

    open spec fn view(&self) -> FileView {
        FileView {
            version: self.version,
            tensor_count: self.tensor_count,
            metadata: metadata_view(self.metadata@),
            tensors: tensor_views(self.tensors@),
            data_offset: self.data_offset,
        }
    }
}

/// Whether every element of an array is text.
pub open spec fn all_text(items: Seq<Meta>) -> bool {
    forall|i: int| 0 <= i < items.len() ==> (#[trigger] items[i]).text() is Some
}

/// Whether every element of an array is an integer.
pub open spec fn all_integers(items: Seq<Meta>) -> bool {
    forall|i: int| 0 <= i < items.len() ==> (#[trigger] items[i]).integer() is Some
}

/// Sum of the sizes of the tensors' data.
pub open spec fn total_bytes(tensors: Seq<TensorView>) -> nat
    decreases tensors.len(),
{
    if tensors.len() == 0 {
        0
    } else {
        total_bytes(tensors.drop_last()) + tensors.last().spec_byte_size()
    }
}

impl FileView {
    /// The value of a key.
    pub open spec fn meta(self, key: Seq<char>) -> Option<Meta> {
        if self.metadata.contains_key(key) {
            Some(self.metadata[key])
        } else {
            None
        }
    }

    /// The text of a key that holds a string.
    pub open spec fn text(self, key: Seq<char>) -> Option<Seq<char>> {
        match self.meta(key) {
            Some(m) => m.text(),
            None => None,
        }
    }

    /// The number of a key that holds an unsigned integer.
    pub open spec fn number(self, key: Seq<char>) -> Option<u64> {
        match self.meta(key) {
            Some(m) => m.number(),
            None => None,
        }
    }

    /// The bits of a key that holds a floating-point number.
    pub open spec fn float(self, key: Seq<char>) -> Option<FloatBits> {
        match self.meta(key) {
            Some(m) => m.float(),
            None => None,
        }
    }

    /// The value of a key that holds a boolean.
    pub open spec fn flag(self, key: Seq<char>) -> Option<bool> {
        match self.meta(key) {
            Some(m) => m.flag(),
            None => None,
        }
    }

    /// The elements of a key that holds an array.
    pub open spec fn items(self, key: Seq<char>) -> Option<Seq<Meta>> {
        match self.meta(key) {
            Some(m) => m.items(),
            None => None,
        }
    }

    /// The elements of a key that holds an array of strings.
    pub open spec fn texts(self, key: Seq<char>) -> Option<Seq<Seq<char>>> {
        match self.items(key) {
            Some(items) => if all_text(items) {
                Some(Seq::new(items.len(), |i: int| items[i].text()->0))
            } else {
                None
            },
            None => None,
        }
    }

    /// The elements of a key that holds an array of integers.
    pub open spec fn integers(self, key: Seq<char>) -> Option<Seq<i64>> {
        match self.items(key) {
            Some(items) => if all_integers(items) {
                Some(Seq::new(items.len(), |i: int| items[i].integer()->0))
            } else {
                None
            },
            None => None,
        }
    }
}

/// The views of several string slices.
pub open spec fn str_views(v: Seq<&str>) -> Seq<Seq<char>> {
    Seq::new(v.len(), |i: int| v[i]@)
}

impl GgufFile {
    /// Get a metadata value by key.
    pub fn get(&self, key: &str) -> (r: Option<&MetadataValue>)
        ensures
            r is Some <==> self@.meta(key@) is Some,
            r matches Some(v) ==> self@.meta(key@) == Some(v@),
    {
        self.metadata.get(key)
    }

    /// Get a string metadata value.
    pub fn get_string(&self, key: &str) -> (r: Option<&str>)
        ensures
            r is Some <==> self@.text(key@) is Some,
            r matches Some(s) ==> self@.text(key@) == Some(s@),
    {
        match self.get(key) {
            Some(v) => v.as_str(),
            None => None,
        }
    }

    /// Get a u64 metadata value (any unsigned integer).
    pub fn get_u64(&self, key: &str) -> (r: Option<u64>)
        ensures
            r == self@.number(key@),
    {
        match self.get(key) {
            Some(v) => v.as_u64(),
            None => None,
        }
    }

    /// Get a floating-point metadata value, by its bits.
    pub fn get_f32(&self, key: &str) -> (r: Option<FloatBits>)
        ensures
            r == self@.float(key@),
    {
        match self.get(key) {
            Some(v) => v.as_f32(),
            None => None,
        }
    }

    /// Get a bool metadata value.
    pub fn get_bool(&self, key: &str) -> (r: Option<bool>)
        ensures
            r == self@.flag(key@),
    {
        match self.get(key) {
            Some(v) => v.as_bool(),
            None => None,
        }
    }

    /// The elements of an array metadata value.
    fn get_array(&self, key: &str) -> (r: Option<&[MetadataValue]>)
        ensures
            r is Some <==> self@.items(key@) is Some,
            r matches Some(items) ==> self@.items(key@) == Some(metas(items@)),
    {
        match self.get(key) {
            Some(v) => v.as_array(),
            None => None,
        }
    }

    /// Get a string-array metadata value (e.g. tokenizer.ggml.tokens).
    pub fn get_str_array(&self, key: &str) -> (r: Option<Vec<&str>>)
        ensures
            r is Some <==> self@.texts(key@) is Some,
            r matches Some(v) ==> self@.texts(key@) == Some(str_views(v@)),
    {
        let items = match self.get_array(key) {
            Some(items) => items,
            None => {
                return None;
            },
        };
        let ghost all = metas(items@);
        let mut out: Vec<&str> = Vec::new();
        let mut i: usize = 0;
        while i < items.len()
            invariant
                all == metas(items@),
                self@.items(key@) == Some(all),
                i <= items@.len(),
                out@.len() == i,
                forall|j: int|
                    0 <= j < i ==> (#[trigger] all[j]).text() == Some(out@[j]@),
            decreases items@.len() - i,
        {
            match items[i].as_str() {
                Some(s) => {
                    out.push(s);
                },
                None => {
                    proof {
                        assert(all[i as int].text() is None);
                    }
                    return None;
                },
            }
            i += 1;
        }
        proof {
            assert(all_text(all));
            assert(self@.texts(key@)->0 =~= str_views(out@));
        }
        Some(out)
    }

    /// Get an integer-array metadata value (e.g. tokenizer.ggml.token_type,
    /// or per-layer lfm2.attention.head_count_kv). Returns None if the key is
    /// absent or not an array of integers.
    pub fn get_i64_array(&self, key: &str) -> (r: Option<Vec<i64>>)
        ensures
            r is Some <==> self@.integers(key@) is Some,
            r matches Some(v) ==> self@.integers(key@) == Some(v@),
    {
        let items = match self.get_array(key) {
            Some(items) => items,
            None => {
                return None;
            },
        };
        let ghost all = metas(items@);
        let mut out: Vec<i64> = Vec::new();
        let mut i: usize = 0;
        while i < items.len()
            invariant
                all == metas(items@),
                self@.items(key@) == Some(all),
                i <= items@.len(),
                out@.len() == i,
                forall|j: int| 0 <= j < i ==> (#[trigger] all[j]).integer() == Some(out@[j]),
            decreases items@.len() - i,
        {
            match items[i].as_i64() {
                Some(v) => {
                    out.push(v);
                },
                None => {
                    proof {
                        assert(all[i as int].integer() is None);
                    }
                    return None;
                },
            }
            i += 1;
        }
        proof {
            assert(all_integers(all));
            assert(self@.integers(key@)->0 =~= out@);
        }
        Some(out)
    }

    /// Get the model architecture string.
    pub fn architecture(&self) -> (r: Option<&str>)
        ensures
            r is Some <==> self@.text("general.architecture"@) is Some,
            r matches Some(s) ==> self@.text("general.architecture"@) == Some(s@),
    {
        self.get_string("general.architecture")
    }

    /// Get the model name.
    pub fn name(&self) -> (r: Option<&str>)
        ensures
            r is Some <==> self@.text("general.name"@) is Some,
            r matches Some(s) ==> self@.text("general.name"@) == Some(s@),
    {
        self.get_string("general.name")
    }

    /// Total size of all tensor data in bytes.
    pub fn total_tensor_bytes(&self) -> (n: u64)
        requires
            forall|i: int| 0 <= i < self@.tensors.len() ==> (#[trigger] self@.tensors[i]).sized(),
            total_bytes(self@.tensors) <= u64::MAX,
        ensures
            n == total_bytes(self@.tensors),
    {
        self.checked_total_tensor_bytes().unwrap()
    }

    /// Total size of all tensor data in bytes, or nothing where adding it up
    /// overflows.
    pub fn checked_total_tensor_bytes(&self) -> (n: Option<u64>)
        ensures
            n is Some <==> total_bytes(self@.tensors) <= u64::MAX && forall|i: int|
                0 <= i < self@.tensors.len() ==> (#[trigger] self@.tensors[i]).sized(),
            n matches Some(b) ==> b == total_bytes(self@.tensors),
    {
        let ghost all = self@.tensors;
        let mut sum: u64 = 0;
        let mut i: usize = 0;
        proof {
            assert(all.take(0).len() == 0);
        }
        while i < self.tensors.len()
            invariant
                all == self@.tensors,
                i <= self.tensors@.len(),
                sum == total_bytes(all.take(i as int)),
                forall|j: int| 0 <= j < i ==> (#[trigger] all[j]).sized(),
            decreases self.tensors@.len() - i,
        {
            proof {
                let next = all.take(i as int + 1);
                assert(next.drop_last() =~= all.take(i as int));
                assert(next.last() == self.tensors@[i as int]@);
                lemma_total_bytes_grows(all, i as int + 1);
                assert(all[i as int] == self.tensors@[i as int]@);
            }
            match self.tensors[i].checked_byte_size() {
                Some(b) => {
                    match sum.checked_add(b as u64) {
                        Some(next) => {
                            sum = next;
                        },
                        None => {
                            return None;
                        },
                    }
                },
                None => {
                    return None;
                },
            }
            i += 1;
        }
        proof {
            assert(all.take(all.len() as int) =~= all);
        }
        Some(sum)
    }
}

proof fn lemma_total_bytes_grows(tensors: Seq<TensorView>, k: int)
    requires
        0 <= k <= tensors.len(),
    ensures
        total_bytes(tensors.take(k)) <= total_bytes(tensors),
    decreases tensors.len() - k,
{
    if k == tensors.len() {
        assert(tensors.take(k) =~= tensors);
    } else {
        lemma_total_bytes_grows(tensors, k + 1);
        assert(tensors.take(k + 1).drop_last() =~= tensors.take(k));
    }
}

} // verus!
