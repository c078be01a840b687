//! The GGUF container format, version 2 and 3: what a file's bytes mean, and
//! the parser that reads them.
//!
//! A file is a header (magic, version, number of tensors, number of metadata
//! entries), the metadata entries, the tensor descriptions, and the tensor data
//! from the next multiple of 32 on. Numbers are little-endian; a string is its
//! byte length, as a 64-bit number, and its UTF-8 bytes.

use vstd::prelude::*;
use vstd::slice::{slice_subrange, slice_to_vec};
use vstd::utf8::*;

use crate::error::{GgufError, Result};
use crate::text::string_from_utf8;
use crate::types::{
    meta, metadata_view, metas, tensor_views, FileView, GgmlType, GgufFile, Meta, Metadata,
    MetadataArrayType, MetadataValue, TensorInfo, TensorView,
};

verus! {

/// The little-endian number in the `n` bytes of `data` from `pos` on.
pub open spec fn number_at(data: Seq<u8>, pos: int, n: nat) -> nat
    decreases n,
{
    if n == 0 {
        0
    } else {
        data[pos] as nat + 256 * number_at(data, pos + 1, (n - 1) as nat)
    }
}

/// A number in its two's complement reading: the upper half of the range is
/// negative.
pub open spec fn signed(v: nat, modulus: nat) -> int {
    if 2 * v < modulus {
        v as int
    } else {
        v - modulus
    }
}

/// Outcome of reading something at a position: what was read and the position
/// behind it, or the error.
pub type Read<T> = core::result::Result<(T, int), GgufError>;

/// Reading a number of `n` bytes.
pub open spec fn number(data: Seq<u8>, pos: int, n: nat) -> Read<nat> {
    if pos + n <= data.len() {
        Ok((number_at(data, pos, n), pos + n))
    } else {
        Err(GgufError::UnexpectedEof(pos as usize))
    }
}

/// Reading a string.
pub open spec fn string(data: Seq<u8>, pos: int) -> Read<Seq<char>> {
    match number(data, pos, 8) {
        Err(e) => Err(e),
        Ok((len, start)) => {
            let bytes = data.subrange(start, start + len);
            if start + len > data.len() {
                Err(GgufError::UnexpectedEof(start as usize))
            } else if !valid_utf8(bytes) {
                Err(GgufError::InvalidString(start as usize))
            } else {
                Ok((decode_utf8(bytes), start + len))
            }
        },
    }
}

/// The number of bytes of a metadata value of fixed size.
pub open spec fn width(id: u32) -> nat {
    if id == 0 || id == 1 || id == 7 {
        1
    } else if id == 2 || id == 3 {
        2
    } else if id == 4 || id == 5 || id == 6 {
        4
    } else {
        8
    }
}

/// The metadata value of fixed size whose bytes make up the number `v`.
pub open spec fn fixed_value(id: u32, v: nat) -> Meta {
    if id == 0 {
        Meta::U8(v as u8)
    } else if id == 1 {
        Meta::I8(signed(v, 0x100) as i8)
    } else if id == 2 {
        Meta::U16(v as u16)
    } else if id == 3 {
        Meta::I16(signed(v, 0x1_0000) as i16)
    } else if id == 4 {
        Meta::U32(v as u32)
    } else if id == 5 {
        Meta::I32(signed(v, 0x1_0000_0000) as i32)
    } else if id == 6 {
        Meta::Float32(v as u32)
    } else if id == 7 {
        Meta::Bool(v != 0)
    } else if id == 10 {
        Meta::U64(v as u64)
    } else if id == 11 {
        Meta::I64(signed(v, 0x1_0000_0000_0000_0000) as i64)
    } else {
        Meta::Float64(v as u64)
    }
}

/// Reading a metadata value that is no array.
pub open spec fn scalar(data: Seq<u8>, pos: int, id: u32) -> Read<Meta> {
    if id == 8 {
        match string(data, pos) {
            Err(e) => Err(e),
            Ok((s, p)) => Ok((Meta::Text(s), p)),
        }
    } else if id == 9 || id > 12 {
        Err(GgufError::UnknownMetadataType(id))
    } else {
        match number(data, pos, width(id)) {
            Err(e) => Err(e),
            Ok((v, p)) => Ok((fixed_value(id, v), p)),
        }
    }
}

/// Reading `count` metadata values of one type, none of them an array.
pub open spec fn scalars(data: Seq<u8>, pos: int, id: u32, count: nat) -> Read<Seq<Meta>>
    decreases count,
{
    if count == 0 {
        Ok((Seq::empty(), pos))
    } else {
        match scalars(data, pos, id, (count - 1) as nat) {
            Err(e) => Err(e),
            Ok((items, p)) => match scalar(data, p, id) {
                Err(e) => Err(e),
                Ok((item, q)) => Ok((items.push(item), q)),
            },
        }
    }
}

/// The array element type with a given id, for the ids that have one.
pub open spec fn array_type(id: u32) -> MetadataArrayType {
    choose|t: MetadataArrayType| t.spec_id() == id
}

/// Reading a metadata value of the type `id`.
pub open spec fn value(data: Seq<u8>, pos: int, id: u32) -> Read<Meta> {
    if id != 9 {
        scalar(data, pos, id)
    } else {
        match number(data, pos, 4) {
            Err(e) => Err(e),
            Ok((elem, p)) => if elem == 9 || elem > 12 {
                Err(GgufError::UnknownMetadataType(elem as u32))
            } else {
                match number(data, p, 8) {
                    Err(e) => Err(e),
                    Ok((count, q)) => match scalars(data, q, elem as u32, count) {
                        Err(e) => Err(e),
                        Ok((items, r)) => Ok((Meta::Array(array_type(elem as u32), items), r)),
                    },
                }
            },
        }
    }
}

/// Reading one metadata entry: its key and its value.
pub open spec fn entry(data: Seq<u8>, pos: int) -> Read<(Seq<char>, Meta)> {
    match string(data, pos) {
        Err(e) => Err(e),
        Ok((key, p)) => match number(data, p, 4) {
            Err(e) => Err(e),
            Ok((id, q)) => match value(data, q, id as u32) {
                Err(e) => Err(e),
                Ok((v, r)) => Ok(((key, v), r)),
            },
        },
    }
}

/// Reading `count` metadata entries. A key that comes again replaces the value.
pub open spec fn entries(data: Seq<u8>, pos: int, count: nat) -> Read<Map<Seq<char>, Meta>>
    decreases count,
{
    if count == 0 {
        Ok((Map::empty(), pos))
    } else {
        match entries(data, pos, (count - 1) as nat) {
            Err(e) => Err(e),
            Ok((m, p)) => match entry(data, p) {
                Err(e) => Err(e),
                Ok((kv, q)) => Ok((m.insert(kv.0, kv.1), q)),
            },
        }
    }
}

/// Reading `count` dimensions.
pub open spec fn dimensions(data: Seq<u8>, pos: int, count: nat) -> Read<Seq<u64>>
    decreases count,
{
    if count == 0 {
        Ok((Seq::empty(), pos))
    } else {
        match dimensions(data, pos, (count - 1) as nat) {
            Err(e) => Err(e),
            Ok((dims, p)) => match number(data, p, 8) {
                Err(e) => Err(e),
                Ok((d, q)) => Ok((dims.push(d as u64), q)),
            },
        }
    }
}

/// The tensor type with a given id, for the ids that have one.
pub open spec fn tensor_type(id: u32) -> GgmlType {
    choose|t: GgmlType| t.spec_id() == id
}

/// Reading one tensor description.
pub open spec fn tensor(data: Seq<u8>, pos: int) -> Read<TensorView> {
    match string(data, pos) {
        Err(e) => Err(e),
        Ok((name, p1)) => match number(data, p1, 4) {
            Err(e) => Err(e),
            Ok((n_dims, p2)) => match dimensions(data, p2, n_dims) {
                Err(e) => Err(e),
                Ok((dims, p3)) => match number(data, p3, 4) {
                    Err(e) => Err(e),
                    Ok((id, p4)) => if id > 33 || id == 4 || id == 5 {
                        Err(GgufError::UnknownTensorType(id as u32))
                    } else {
                        match number(data, p4, 8) {
                            Err(e) => Err(e),
                            Ok((offset, p5)) => Ok(
                                (
                                    TensorView {
                                        name,
                                        n_dims: n_dims as u32,
                                        dims,
                                        ggml_type: tensor_type(id as u32),
                                        byte_offset: offset as u64,
                                    },
                                    p5,
                                ),
                            ),
                        }
                    },
                },
            },
        },
    }
}

/// Reading `count` tensor descriptions.
pub open spec fn tensors(data: Seq<u8>, pos: int, count: nat) -> Read<Seq<TensorView>>
    decreases count,
{
    if count == 0 {
        Ok((Seq::empty(), pos))
    } else {
        match tensors(data, pos, (count - 1) as nat) {
            Err(e) => Err(e),
            Ok((ts, p)) => match tensor(data, p) {
                Err(e) => Err(e),
                Ok((t, q)) => Ok((ts.push(t), q)),
            },
        }
    }
}

/// The least multiple of `alignment` that is not below `offset`.
pub open spec fn aligned(offset: int, alignment: int) -> int {
    (offset + alignment - 1) / alignment * alignment
}

/// What the bytes of a file mean.
pub open spec fn file(data: Seq<u8>) -> core::result::Result<FileView, GgufError> {
    if data.len() < 4 {
        Err(GgufError::UnexpectedEof(0))
    } else if data.take(4) != seq![0x47u8, 0x47, 0x55, 0x46] {
        Err(GgufError::InvalidMagic)
    } else {
        match number(data, 4, 4) {
            Err(e) => Err(e),
            Ok((version, _)) => if version < 2 || version > 3 {
                Err(GgufError::UnsupportedVersion(version as u32))
            } else {
                match number(data, 8, 8) {
                    Err(e) => Err(e),
                    Ok((tensor_count, _)) => match number(data, 16, 8) {
                        Err(e) => Err(e),
                        Ok((entry_count, _)) => match entries(data, 24, entry_count) {
                            Err(e) => Err(e),
                            Ok((metadata, p)) => match tensors(data, p, tensor_count) {
                                Err(e) => Err(e),
                                Ok((ts, end)) => Ok(
                                    FileView {
                                        version: version as u32,
                                        tensor_count: tensor_count as u64,
                                        metadata,
                                        tensors: ts,
                                        data_offset: aligned(end, 32) as u64,
                                    },
                                ),
                            },
                        },
                    },
                }
            },
        }
    }
}

/// The least multiple of `alignment` that is not below `offset`.
pub fn align_to(offset: usize, alignment: usize) -> (r: usize)
    requires
        alignment > 0,
        offset + alignment - 1 <= usize::MAX,
    ensures
        r == aligned(offset as int, alignment as int),
        r % alignment == 0,
        offset <= r < offset + alignment,
{
    let r: usize = offset + (alignment - 1) - (offset + (alignment - 1)) % alignment;
    proof {
        let up = offset + alignment - 1;
        let a = alignment as int;
        vstd::arithmetic::div_mod::lemma_fundamental_div_mod(up, a);
        assert(up / a * a == a * (up / a)) by (nonlinear_arith);
        vstd::arithmetic::div_mod::lemma_mod_multiples_basic(up / a, a);
    }
    r
}

/// A position in the bytes of a file.
struct Cursor<'a> {
    data: &'a [u8],
    pos: usize,
}


/// Whether an outcome with a value of the library's own stands for the outcome
/// `expected` of reading: the same error, or the value read and the position
/// behind it.
spec fn stands<T, V>(
    got: Result<T>,
    value: spec_fn(T) -> V,
    pos: int,
    expected: Read<V>,
) -> bool {
    match got {
        Ok(v) => expected == Ok::<(V, int), GgufError>((value(v), pos)),
        Err(e) => expected == Err::<(V, int), GgufError>(e),
    }
}

proof fn lemma_number_bound(data: Seq<u8>, pos: int, n: nat)
    ensures
        n == 1 ==> number_at(data, pos, n) < 0x100,
        n == 2 ==> number_at(data, pos, n) < 0x1_0000,
        n == 4 ==> number_at(data, pos, n) < 0x1_0000_0000,
        n == 8 ==> number_at(data, pos, n) < 0x1_0000_0000_0000_0000,
{
    reveal_with_fuel(number_at, 9);
}

proof fn lemma_scalars_error(data: Seq<u8>, pos: int, id: u32, k: nat, count: nat)
    requires
        k <= count,
    ensures
        scalars(data, pos, id, k) matches Err(e) ==> scalars(data, pos, id, count) == Err::<
            (Seq<Meta>, int),
            GgufError,
        >(e),
    decreases count,
{
    if k < count {
        lemma_scalars_error(data, pos, id, k, (count - 1) as nat);
    }
}

proof fn lemma_entries_error(data: Seq<u8>, pos: int, k: nat, count: nat)
    requires
        k <= count,
    ensures
        entries(data, pos, k) matches Err(e) ==> entries(data, pos, count) == Err::<
            (Map<Seq<char>, Meta>, int),
            GgufError,
        >(e),
    decreases count,
{
    if k < count {
        lemma_entries_error(data, pos, k, (count - 1) as nat);
    }
}

proof fn lemma_dimensions_error(data: Seq<u8>, pos: int, k: nat, count: nat)
    requires
        k <= count,
    ensures
        dimensions(data, pos, k) matches Err(e) ==> dimensions(data, pos, count) == Err::<
            (Seq<u64>, int),
            GgufError,
        >(e),
    decreases count,
{
    if k < count {
        lemma_dimensions_error(data, pos, k, (count - 1) as nat);
    }
}

proof fn lemma_tensors_error(data: Seq<u8>, pos: int, k: nat, count: nat)
    requires
        k <= count,
    ensures
        tensors(data, pos, k) matches Err(e) ==> tensors(data, pos, count) == Err::<
            (Seq<TensorView>, int),
            GgufError,
        >(e),
    decreases count,
{
    if k < count {
        lemma_tensors_error(data, pos, k, (count - 1) as nat);
    }
}

impl<'a> Cursor<'a> {
    spec fn wf(&self) -> bool {
        self.pos <= self.data@.len()
    }

    /// How many bytes are left.
    fn remaining(&self) -> (n: usize)
        requires
            self.wf(),
        ensures
            n == self.data@.len() - self.pos,
    {
        self.data.len() - self.pos
    }

    fn read_u8(&mut self) -> (r: Result<u8>)
        requires
            old(self).wf(),
        ensures
            final(self).wf(),
            final(self).data == old(self).data,
            stands(
                r,
                |v: u8| v as nat,
                final(self).pos as int,
                number(old(self).data@, old(self).pos as int, 1),
            ),
            r is Err ==> final(self).pos == old(self).pos,
    {
        if self.remaining() < 1 {
            return Err(GgufError::UnexpectedEof(self.pos));
        }
        proof {
            reveal_with_fuel(number_at, 2);
        }
        let v: u8 = self.data[self.pos];
        self.pos = self.pos + 1;
        Ok(v)
    }

    fn read_u16(&mut self) -> (r: Result<u16>)
        requires
            old(self).wf(),
        ensures
            final(self).wf(),
            final(self).data == old(self).data,
            stands(
                r,
                |v: u16| v as nat,
                final(self).pos as int,
                number(old(self).data@, old(self).pos as int, 2),
            ),
            r is Err ==> final(self).pos == old(self).pos,
    {
        if self.remaining() < 2 {
            return Err(GgufError::UnexpectedEof(self.pos));
        }
        proof {
            reveal_with_fuel(number_at, 3);
        }
        let p: usize = self.pos;
        let v: u16 = self.data[p] as u16 + 0x100 * self.data[p + 1] as u16;
        self.pos = p + 2;
        Ok(v)
    }

    fn read_u32(&mut self) -> (r: Result<u32>)
        requires
            old(self).wf(),
        ensures
            final(self).wf(),
            final(self).data == old(self).data,
            stands(
                r,
                |v: u32| v as nat,
                final(self).pos as int,
                number(old(self).data@, old(self).pos as int, 4),
            ),
            r is Err ==> final(self).pos == old(self).pos,
    {
        if self.remaining() < 4 {
            return Err(GgufError::UnexpectedEof(self.pos));
        }
        proof {
            reveal_with_fuel(number_at, 5);
        }
        let p: usize = self.pos;
        let v: u32 = self.data[p] as u32 + 0x100 * self.data[p + 1] as u32 + 0x1_0000
            * self.data[p + 2] as u32 + 0x100_0000 * self.data[p + 3] as u32;
        self.pos = p + 4;
        Ok(v)
    }

    fn read_u64(&mut self) -> (r: Result<u64>)
        requires
            old(self).wf(),
        ensures
            final(self).wf(),
            final(self).data == old(self).data,
            stands(
                r,
                |v: u64| v as nat,
                final(self).pos as int,
                number(old(self).data@, old(self).pos as int, 8),
            ),
            r is Err ==> final(self).pos == old(self).pos,
    {
        if self.remaining() < 8 {
            return Err(GgufError::UnexpectedEof(self.pos));
        }
        proof {
            reveal_with_fuel(number_at, 9);
        }
        let p: usize = self.pos;
        let v: u64 = self.data[p] as u64 + 0x100 * self.data[p + 1] as u64 + 0x1_0000
            * self.data[p + 2] as u64 + 0x100_0000 * self.data[p + 3] as u64 + 0x1_0000_0000
            * self.data[p + 4] as u64 + 0x100_0000_0000 * self.data[p + 5] as u64
            + 0x1_0000_0000_0000 * self.data[p + 6] as u64 + 0x100_0000_0000_0000
            * self.data[p + 7] as u64;
        self.pos = p + 8;
        Ok(v)
    }

    fn read_string(&mut self) -> (r: Result<String>)
        requires
            old(self).wf(),
        ensures
            final(self).wf(),
            final(self).data == old(self).data,
            stands(
                r,
                |v: String| v@,
                final(self).pos as int,
                string(old(self).data@, old(self).pos as int),
            ),
            r matches Err(GgufError::UnexpectedEof(p)) ==> final(self).pos == p,
            r matches Err(GgufError::InvalidString(p)) ==> final(self).pos == p + number_at(
                old(self).data@,
                old(self).pos as int,
                8,
            ),
    {
        let len: u64 = match self.read_u64() {
            Ok(v) => v,
            Err(e) => {
                return Err(e);
            },
        };
        let left: usize = self.data.len() - self.pos;
        if len > left as u64 {
            return Err(GgufError::UnexpectedEof(self.pos));
        }
        let start: usize = self.pos;
        let end: usize = start + len as usize;
        let bytes = slice_to_vec(slice_subrange(self.data, start, end));
        self.pos = end;
        match string_from_utf8(bytes) {
            Some(s) => Ok(s),
            None => Err(GgufError::InvalidString(start)),
        }
    }

    /// Reads a metadata value that is no array.
    fn read_scalar(&mut self, type_id: u32) -> (r: Result<MetadataValue>)
        requires
            old(self).wf(),
        ensures
            final(self).wf(),
            final(self).data == old(self).data,
            stands(
                r,
                |v: MetadataValue| meta(v),
                final(self).pos as int,
                scalar(old(self).data@, old(self).pos as int, type_id),
            ),
            type_id == 9 || type_id > 12 ==> r == Err::<MetadataValue, GgufError>(
                GgufError::UnknownMetadataType(type_id),
            ) && final(self).pos == old(self).pos,
            r matches Err(GgufError::UnexpectedEof(p)) ==> final(self).pos == p,
    {
        proof {
            lemma_number_bound(self.data@, self.pos as int, width(type_id));
        }
        match type_id {
            0 => match self.read_u8() {
                Ok(v) => Ok(MetadataValue::U8(v)),
                Err(e) => Err(e),
            },
            1 => match self.read_u8() {
                Ok(v) => Ok(MetadataValue::I8(i8_of(v))),
                Err(e) => Err(e),
            },
            2 => match self.read_u16() {
                Ok(v) => Ok(MetadataValue::U16(v)),
                Err(e) => Err(e),
            },
            3 => match self.read_u16() {
                Ok(v) => Ok(MetadataValue::I16(i16_of(v))),
                Err(e) => Err(e),
            },
            4 => match self.read_u32() {
                Ok(v) => Ok(MetadataValue::U32(v)),
                Err(e) => Err(e),
            },
            5 => match self.read_u32() {
                Ok(v) => Ok(MetadataValue::I32(i32_of(v))),
                Err(e) => Err(e),
            },
            6 => match self.read_u32() {
                Ok(v) => Ok(MetadataValue::Float32(v)),
                Err(e) => Err(e),
            },
            7 => match self.read_u8() {
                Ok(v) => Ok(MetadataValue::Bool(v != 0)),
                Err(e) => Err(e),
            },
            8 => match self.read_string() {
                Ok(v) => Ok(MetadataValue::String(v)),
                Err(e) => Err(e),
            },
            10 => match self.read_u64() {
                Ok(v) => Ok(MetadataValue::U64(v)),
                Err(e) => Err(e),
            },
            11 => match self.read_u64() {
                Ok(v) => Ok(MetadataValue::I64(i64_of(v))),
                Err(e) => Err(e),
            },
            12 => match self.read_u64() {
                Ok(v) => Ok(MetadataValue::Float64(v)),
                Err(e) => Err(e),
            },
            _ => Err(GgufError::UnknownMetadataType(type_id)),
        }
    }

    fn read_metadata_value(&mut self, type_id: u32) -> (r: Result<MetadataValue>)
        requires
            old(self).wf(),
        ensures
            final(self).wf(),
            final(self).data == old(self).data,
            stands(
                r,
                |v: MetadataValue| meta(v),
                final(self).pos as int,
                value(old(self).data@, old(self).pos as int, type_id),
            ),
            type_id > 12 ==> r == Err::<MetadataValue, GgufError>(
                GgufError::UnknownMetadataType(type_id),
            ) && final(self).pos == old(self).pos,
            r matches Err(GgufError::UnexpectedEof(p)) ==> final(self).pos == p,
    {
        if type_id != 9 {
            return self.read_scalar(type_id);
        }
        proof {
            lemma_number_bound(self.data@, self.pos as int, 4);
            lemma_number_bound(self.data@, self.pos as int + 4, 8);
        }
        let elem_type_id: u32 = match self.read_u32() {
            Ok(v) => v,
            Err(e) => {
                return Err(e);
            },
        };
        let elem_type = match MetadataArrayType::from_u32(elem_type_id) {
            Ok(t) => t,
            Err(e) => {
                return Err(e);
            },
        };
        proof {
            crate::types::law_array_type_id_identifies_type(elem_type, array_type(elem_type_id));
        }
        let count: u64 = match self.read_u64() {
            Ok(v) => v,
            Err(e) => {
                return Err(e);
            },
        };
        let ghost data = self.data@;
        let ghost start = self.pos as int;
        let mut items: Vec<MetadataValue> = Vec::new();
        let mut i: u64 = 0;
        proof {
            assert(metas(items@) =~= Seq::empty());
        }
        while i < count
            invariant
                i <= count,
                type_id == 9,
                self.wf(),
                self.data == old(self).data,
                data == self.data@,
                value(old(self).data@, old(self).pos as int, type_id) == (match scalars(
                    data,
                    start,
                    elem_type_id,
                    count as nat,
                ) {
                    Err(e) => Err::<(Meta, int), GgufError>(e),
                    Ok((items, r)) => Ok((Meta::Array(elem_type, items), r)),
                }),
                scalars(data, start, elem_type_id, i as nat) == Ok::<(Seq<Meta>, int), GgufError>(
                    (metas(items@), self.pos as int),
                ),
            decreases count - i,
        {
            let ghost before = items@;
            match self.read_scalar(elem_type_id) {
                Ok(v) => {
                    items.push(v);
                    proof {
                        assert(metas(items@) =~= metas(before).push(meta(v)));
                    }
                },
                Err(e) => {
                    proof {
                        lemma_scalars_error(
                            data,
                            start,
                            elem_type_id,
                            (i + 1) as nat,
                            count as nat,
                        );
                    }
                    return Err(e);
                },
            }
            i += 1;
        }
        let result = MetadataValue::Array(elem_type, items);
        proof {
            assert(meta(result)->Array_1 =~= metas(items@));
        }
        Ok(result)
    }

    /// Reads one tensor description.
    fn read_tensor(&mut self) -> (r: Result<TensorInfo>)
        requires
            old(self).wf(),
        ensures
            final(self).wf(),
            final(self).data == old(self).data,
            stands(
                r,
                |t: TensorInfo| t@,
                final(self).pos as int,
                tensor(old(self).data@, old(self).pos as int),
            ),
    {
        let name = match self.read_string() {
            Ok(v) => v,
            Err(e) => {
                return Err(e);
            },
        };
        let n_dims: u32 = match self.read_u32() {
            Ok(v) => v,
            Err(e) => {
                return Err(e);
            },
        };
        let ghost data = self.data@;
        let ghost start = self.pos as int;
        let mut dims: Vec<u64> = Vec::new();
        let mut i: u32 = 0;
        while i < n_dims
            invariant
                i <= n_dims,
                self.wf(),
                self.data == old(self).data,
                data == self.data@,
                dimensions(data, start, i as nat) == Ok::<(Seq<u64>, int), GgufError>(
                    (dims@, self.pos as int),
                ),
                dimensions(data, start, n_dims as nat) matches Err(e) ==> tensor(
                    old(self).data@,
                    old(self).pos as int,
                ) == Err::<(TensorView, int), GgufError>(e),
            decreases n_dims - i,
        {
            match self.read_u64() {
                Ok(d) => {
                    dims.push(d);
                },
                Err(e) => {
                    proof {
                        lemma_dimensions_error(data, start, (i + 1) as nat, n_dims as nat);
                    }
                    return Err(e);
                },
            }
            i += 1;
        }
        let ggml_type_id: u32 = match self.read_u32() {
            Ok(v) => v,
            Err(e) => {
                return Err(e);
            },
        };
        let ggml_type = match GgmlType::from_u32(ggml_type_id) {
            Ok(t) => t,
            Err(e) => {
                return Err(e);
            },
        };
        proof {
            crate::types::law_type_id_identifies_type(ggml_type, tensor_type(ggml_type_id));
        }
        let byte_offset: u64 = match self.read_u64() {
            Ok(v) => v,
            Err(e) => {
                return Err(e);
            },
        };
        Ok(TensorInfo { name, n_dims, dims, ggml_type, byte_offset })
    }
}

fn i8_of(v: u8) -> (r: i8)
    ensures
        r == signed(v as nat, 0x100),
{
    if v < 0x80 {
        v as i8
    } else {
        (v as i16 - 0x100) as i8
    }
}

fn i16_of(v: u16) -> (r: i16)
    ensures
        r == signed(v as nat, 0x1_0000),
{
    if v < 0x8000 {
        v as i16
    } else {
        (v as i32 - 0x1_0000) as i16
    }
}

fn i32_of(v: u32) -> (r: i32)
    ensures
        r == signed(v as nat, 0x1_0000_0000),
{
    if v < 0x8000_0000 {
        v as i32
    } else {
        (v as i64 - 0x1_0000_0000) as i32
    }
}

fn i64_of(v: u64) -> (r: i64)
    ensures
        r == signed(v as nat, 0x1_0000_0000_0000_0000),
{
    if v < 0x8000_0000_0000_0000 {
        v as i64
    } else {
        (v as i128 - 0x1_0000_0000_0000_0000) as i64
    }
}

/// Parse a GGUF file from raw bytes. Pure function — no I/O.
///
/// Every slice in memory meets the bound on its length.
pub fn parse(data: &[u8]) -> (r: Result<GgufFile>)
    requires
        data@.len() <= isize::MAX,
    ensures
        match r {
            Ok(f) => file(data@) == Ok::<FileView, GgufError>(f@) && f.metadata.wf(),
            Err(e) => file(data@) == Err::<FileView, GgufError>(e),
        },
{
    let mut cursor = Cursor { data, pos: 0 };

    // Header
    if cursor.remaining() < 4 {
        return Err(GgufError::UnexpectedEof(0));
    }
    let magic_ok: bool = data[0] == 0x47 && data[1] == 0x47 && data[2] == 0x55 && data[3] == 0x46;
    proof {
        assert(magic_ok <==> data@.take(4) =~= seq![0x47u8, 0x47, 0x55, 0x46]) by {
            if magic_ok {
                assert(data@.take(4) =~= seq![0x47u8, 0x47, 0x55, 0x46]);
            } else {
                assert(data@.take(4)[0] == data@[0]);
                assert(data@.take(4)[1] == data@[1]);
                assert(data@.take(4)[2] == data@[2]);
                assert(data@.take(4)[3] == data@[3]);
            }
        }
    }
    if !magic_ok {
        return Err(GgufError::InvalidMagic);
    }
    cursor.pos = 4;
    proof {
        lemma_number_bound(data@, 4, 4);
        lemma_number_bound(data@, 8, 8);
        lemma_number_bound(data@, 16, 8);
    }
    let version: u32 = match cursor.read_u32() {
        Ok(v) => v,
        Err(e) => {
            return Err(e);
        },
    };
    if version < 2 || version > 3 {
        return Err(GgufError::UnsupportedVersion(version));
    }
    let tensor_count: u64 = match cursor.read_u64() {
        Ok(v) => v,
        Err(e) => {
            return Err(e);
        },
    };
    let metadata_kv_count: u64 = match cursor.read_u64() {
        Ok(v) => v,
        Err(e) => {
            return Err(e);
        },
    };

    // Metadata
    let mut metadata = Metadata::new();
    let mut i: u64 = 0;
    proof {
        assert(metadata_view(metadata@) =~= Map::empty());
    }
    while i < metadata_kv_count
        invariant
            i <= metadata_kv_count,
            cursor.wf(),
            cursor.data == data,
            metadata.wf(),
            entries(data@, 24, i as nat) == Ok::<(Map<Seq<char>, Meta>, int), GgufError>(
                (metadata_view(metadata@), cursor.pos as int),
            ),
            entries(data@, 24, metadata_kv_count as nat) matches Err(e) ==> file(data@) == Err::<
                FileView,
                GgufError,
            >(e),
        decreases metadata_kv_count - i,
    {
        let ghost at = cursor.pos as int;
        let ghost before = metadata@;
        proof {
            lemma_entries_error(data@, 24, (i + 1) as nat, metadata_kv_count as nat);
        }
        let key = match cursor.read_string() {
            Ok(v) => v,
            Err(e) => {
                return Err(e);
            },
        };
        proof {
            lemma_number_bound(data@, cursor.pos as int, 4);
        }
        let value_type_id: u32 = match cursor.read_u32() {
            Ok(v) => v,
            Err(e) => {
                return Err(e);
            },
        };
        let value = match cursor.read_metadata_value(value_type_id) {
            Ok(v) => v,
            Err(e) => {
                return Err(e);
            },
        };
        let ghost k = key@;
        metadata.insert(key, value);
        proof {
            assert(metadata_view(metadata@) =~= metadata_view(before).insert(k, meta(value)));
        }
        i += 1;
    }

    // Tensor info
    let ghost start = cursor.pos as int;
    let mut infos: Vec<TensorInfo> = Vec::new();
    let mut j: u64 = 0;
    proof {
        assert(tensor_views(infos@) =~= Seq::empty());
    }
    while j < tensor_count
        invariant
            j <= tensor_count,
            cursor.wf(),
            cursor.data == data,
            tensors(data@, start, j as nat) == Ok::<(Seq<TensorView>, int), GgufError>(
                (tensor_views(infos@), cursor.pos as int),
            ),
            tensors(data@, start, tensor_count as nat) matches Err(e) ==> file(data@) == Err::<
                FileView,
                GgufError,
            >(e),
        decreases tensor_count - j,
    {
        let ghost before = infos@;
        proof {
            lemma_tensors_error(data@, start, (j + 1) as nat, tensor_count as nat);
        }
        match cursor.read_tensor() {
            Ok(t) => {
                infos.push(t);
                proof {
                    assert(tensor_views(infos@) =~= tensor_views(before).push(t@));
                }
            },
            Err(e) => {
                return Err(e);
            },
        }
        j += 1;
    }

    // Data section starts at next 32-byte aligned position after cursor
    let data_offset: u64 = align_to(cursor.pos, 32) as u64;

    Ok(GgufFile { version, tensor_count, metadata, tensors: infos, data_offset })
}

/// An aligned offset is a multiple of the alignment, and the first one that is not below.
pub proof fn law_aligned_offsets_are_the_next_multiple(offset: int, alignment: int)
    requires
        0 <= offset,
        0 < alignment,
    ensures
        aligned(offset, alignment) % alignment == 0,
        offset <= aligned(offset, alignment) < offset + alignment,
{
    let up = offset + alignment - 1;
    let n = up / alignment;
    vstd::arithmetic::div_mod::lemma_fundamental_div_mod(up, alignment);
    vstd::arithmetic::div_mod::lemma_mod_bound(up, alignment);
    assert(n * alignment == alignment * n) by (nonlinear_arith);
    vstd::arithmetic::div_mod::lemma_mod_multiples_basic(n, alignment);
}

/// A byte of a boolean is true where it is not zero, whatever else it is.
pub proof fn law_every_byte_but_zero_is_true(data: Seq<u8>, pos: int)
    requires
        0 <= pos < data.len(),
    ensures
        scalar(data, pos, 7) == Ok::<(Meta, int), GgufError>((Meta::Bool(data[pos] != 0), pos + 1)),
{
    reveal_with_fuel(number_at, 2);
}

/// Reading ends early at the first place where bytes are missing, and the error names it:
/// that of a number, or that behind the length of a string.
pub proof fn law_early_ends_are_named(data: Seq<u8>, pos: int, n: nat)
    requires
        0 <= pos <= data.len(),
    ensures
        pos + n > data.len() ==> number(data, pos, n) == Err::<(nat, int), GgufError>(
            GgufError::UnexpectedEof(pos as usize),
        ),
        pos + 8 > data.len() ==> string(data, pos) == Err::<(Seq<char>, int), GgufError>(
            GgufError::UnexpectedEof(pos as usize),
        ),
        pos + 8 <= data.len() && pos + 8 + number_at(data, pos, 8) > data.len() ==> string(
            data,
            pos,
        ) == Err::<(Seq<char>, int), GgufError>(GgufError::UnexpectedEof((pos + 8) as usize)),
        data.len() < 4 ==> file(data) == Err::<FileView, GgufError>(GgufError::UnexpectedEof(0)),
{
}

/// What a file cannot hold is refused by its own error: another magic number, a version that
/// is neither 2 nor 3, text that is no UTF-8, values of an unknown type, and arrays of
/// arrays.
pub proof fn law_what_is_refused(data: Seq<u8>, pos: int, id: u32)
    requires
        0 <= pos,
    ensures
        data.len() >= 4 && !(data[0] == 'G' as u8 && data[1] == 'G' as u8 && data[2] == 'U' as u8
            && data[3] == 'F' as u8) ==> file(data) == Err::<FileView, GgufError>(
            GgufError::InvalidMagic,
        ),
        data.len() >= 8 && data[0] == 'G' as u8 && data[1] == 'G' as u8 && data[2] == 'U' as u8
            && data[3] == 'F' as u8 && number_at(data, 4, 4) != 2 && number_at(data, 4, 4) != 3
            ==> file(data) == Err::<FileView, GgufError>(
            GgufError::UnsupportedVersion(number_at(data, 4, 4) as u32),
        ),
        id > 12 ==> value(data, pos, id) == Err::<(Meta, int), GgufError>(
            GgufError::UnknownMetadataType(id),
        ),
        pos + 4 <= data.len() && (number_at(data, pos, 4) == 9 || number_at(data, pos, 4) > 12)
            ==> value(data, pos, 9) == Err::<(Meta, int), GgufError>(
            GgufError::UnknownMetadataType(number_at(data, pos, 4) as u32),
        ),
        ({
            let end = pos + 8 + number_at(data, pos, 8);
            pos + 8 <= data.len() && end <= data.len() && !valid_utf8(
                data.subrange(pos + 8, end),
            ) ==> string(data, pos) == Err::<(Seq<char>, int), GgufError>(
                GgufError::InvalidString((pos + 8) as usize),
            )
        }),
{
    if data.len() >= 4 {
        let magic = seq![0x47u8, 0x47, 0x55, 0x46];
        if data[0] == 'G' as u8 && data[1] == 'G' as u8 && data[2] == 'U' as u8 && data[3]
            == 'F' as u8 {
            assert(data.take(4) =~= magic);
        } else {
            assert(data.take(4)[0] == data[0] && data.take(4)[1] == data[1] && data.take(4)[2]
                == data[2] && data.take(4)[3] == data[3]);
            assert(magic[0] == 0x47 && magic[1] == 0x47 && magic[2] == 0x55 && magic[3] == 0x46);
        }
    }
}

} // verus!
