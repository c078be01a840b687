//! Quantized tensor rows: where a row lies in the data of a file, and the whole
//! numbers that its values are computed from.

use vstd::prelude::*;
use vstd::string::*;

use crate::error::{GgufError, Result};
use crate::parser::number_at;
use crate::quant::block::{
    accumulated, blocks_of, half_at, lemma_accumulated_next, quantized_elements, read_half,
    takes_in, Element, Weight,
};
use crate::quant::order::{adds, is_lanes_dot, is_quarters_dot};
use crate::quant::q5_k::{block_dot, BlockDot};
use crate::quant::q8_k::Q8KRow;
use crate::text::{decimal, push_decimal};
use crate::types::{checked_product, product, product_fits, GgmlType, TensorInfo, TensorView};

pub mod block;
pub mod order;
pub mod packing;
pub mod q2_k;
pub mod q4_k;
pub mod q5_0;
pub mod q5_k;
pub mod q6_k;
pub mod q8_0;
pub mod q8_k;

verus! {

/// A row of a tensor, decoded up to floating-point arithmetic.
#[derive(Debug)]
pub enum Row {
    /// Single-precision (binary32) values, by their bits.
    Single(Vec<u32>),
    /// Half-precision (binary16) values, by their bits.
    Half(Vec<u16>),
    /// Quantized weights.
    Quantized(Vec<Weight>),
}

impl TensorView {
    /// The number of elements of a row: the innermost dimension.
    pub open spec fn row_len(self) -> nat {
        self.dims[0] as nat
    }

    /// The number of rows. A tensor of one dimension is one row.
    pub open spec fn row_count(self) -> nat {
        if self.n_dims == 1 {
            1
        } else {
            product(self.dims.skip(1))
        }
    }

    /// The bytes of a row.
    pub open spec fn row_bytes(self) -> nat {
        self.ggml_type.spec_type_size(self.row_len())
    }

    /// Where a row begins in the data section. A tensor of one dimension is one
    /// row, whatever the index.
    pub open spec fn row_offset(self, row: nat) -> nat {
        if self.n_dims == 1 {
            self.byte_offset as nat
        } else {
            self.byte_offset as nat + row * self.row_bytes()
        }
    }

    /// Whether the tensor has a row of that index.
    pub open spec fn has_row(self, row: nat) -> bool {
        self.n_dims == 1 || row < self.row_count()
    }

    /// Whether the place of the row can be computed: the tensor has the
    /// dimensions that it counts, and no number on the way overflows.
    pub open spec fn row_computable(self, row: nat) -> bool {
        self.n_dims > 0 ==> {
            &&& self.dims.len() > 0
            &&& self.dims[0] <= usize::MAX
            &&& self.n_dims > 1 ==> product_fits(self.dims.skip(1))
            &&& self.has_row(row) ==> self.row_offset(row) + self.row_bytes() <= usize::MAX
        }
    }
}

/// The message for a row index that the tensor does not have.
pub open spec fn row_out_of_range(row: nat, rows: nat) -> Seq<char> {
    "row index "@ + decimal(row) + " out of range (tensor has "@ + decimal(rows) + " rows)"@
}

/// The message for a row that the data section does not hold.
pub open spec fn row_beyond_data(row: nat, offset: nat, need: nat, len: nat) -> Seq<char> {
    "tensor row "@ + decimal(row) + " extends beyond data section (offset "@ + decimal(offset)
        + ", need "@ + decimal(need) + " bytes, have "@ + decimal(
        if offset <= len {
            (len - offset) as nat
        } else {
            0
        },
    ) + ")"@
}

/// Whether `e` is the error for a row that cannot be had.
pub open spec fn is_row_error(t: TensorView, len: nat, row: nat, e: GgufError) -> bool {
    if t.n_dims == 0 {
        e.is_backend("tensor has 0 dimensions"@)
    } else if !t.has_row(row) {
        e.is_backend(row_out_of_range(row, t.row_count()))
    } else {
        &&& t.row_offset(row) + t.row_bytes() > len
        &&& e.is_backend(row_beyond_data(row, t.row_offset(row), t.row_bytes(), len))
    }
}

/// Whether a row can be had from a data section of `len` bytes.
pub open spec fn row_present(t: TensorView, len: nat, row: nat) -> bool {
    t.n_dims > 0 && t.has_row(row) && t.row_offset(row) + t.row_bytes() <= len
}

fn shape_of_rows(tensor: &TensorInfo) -> (n: Option<usize>)
    requires
        tensor.n_dims > 0,
        tensor.dims@.len() > 0,
    ensures
        n is Some <==> tensor.n_dims == 1 || product_fits(tensor.dims@.skip(1)),
        n matches Some(rows) ==> rows == tensor@.row_count(),
{
    if tensor.n_dims == 1 {
        return Some(1);
    }
    let rest = vstd::slice::slice_subrange(tensor.dims.as_slice(), 1, tensor.dims.len());
    proof {
        assert(rest@ =~= tensor.dims@.skip(1));
    }
    checked_product(rest)
}

/// Whether the place of a row can be computed without overflow.
pub fn row_computable(tensor: &TensorInfo, row: usize) -> (r: bool)
    ensures
        r == tensor@.row_computable(row as nat),
{
    if tensor.n_dims == 0 {
        return true;
    }
    if tensor.dims.len() == 0 || tensor.dims[0] > usize::MAX as u64 {
        return false;
    }
    let rows: usize = match shape_of_rows(tensor) {
        Some(rows) => rows,
        None => {
            return false;
        },
    };
    if tensor.n_dims != 1 && row >= rows {
        return true;
    }
    let bytes: usize = match tensor.ggml_type.checked_type_size(tensor.dims[0] as usize) {
        Some(bytes) => bytes,
        None => {
            proof {
                assert(tensor@.row_offset(row as nat) >= 0) by (nonlinear_arith);
            }
            return false;
        },
    };
    let index: usize = if tensor.n_dims == 1 {
        0
    } else {
        row
    };
    proof {
        assert(0 <= index * bytes <= 0xFFFF_FFFF_FFFF_FFFF * 0xFFFF_FFFF_FFFF_FFFF) by (
        nonlinear_arith)
            requires
                0 <= index <= 0xFFFF_FFFF_FFFF_FFFF,
                0 <= bytes <= 0xFFFF_FFFF_FFFF_FFFF,
        ;
    }
    let end: u128 = tensor.byte_offset as u128 + index as u128 * bytes as u128 + bytes as u128;
    proof {
        let b = tensor@.row_bytes();
        assert(b == bytes);
        assert(index as u128 * bytes as u128 == index as nat * b);
        if tensor.n_dims == 1 {
            assert(0 * b == 0) by (nonlinear_arith);
        }
        assert(end == tensor@.row_offset(row as nat) + b);
    }
    end <= usize::MAX as u128
}

/// Resolve the byte slice and element count for one row of a tensor.
///
/// GGUF dimension order: `dims[0]` is the innermost (contiguous) dimension.
/// For a 2D weight tensor `[in_dim, out_dim]`, each row in memory has `dims[0]`
/// elements and there are `product(dims[1..])` rows. 1D tensors are a single row.
pub fn row_view<'a>(tensor: &TensorInfo, data: &'a [u8], row: usize) -> (r: Result<
    (&'a [u8], usize),
>)
    requires
        tensor@.row_computable(row as nat),
    ensures
        match r {
            Ok((bytes, len)) => {
                &&& row_present(tensor@, data@.len(), row as nat)
                &&& bytes@ == data@.skip(tensor@.row_offset(row as nat) as int)
                &&& len == tensor@.row_len()
            },
            Err(e) => {
                &&& !row_present(tensor@, data@.len(), row as nat)
                &&& is_row_error(tensor@, data@.len(), row as nat, e)
            },
        },
{
    if tensor.n_dims == 0 {
        return Err(GgufError::BackendError("tensor has 0 dimensions".to_owned()));
    }
    let row_len: usize = tensor.dims[0] as usize;
    let n_rows: usize = shape_of_rows(tensor).unwrap();
    if tensor.n_dims != 1 && row >= n_rows {
        let mut s = "row index ".to_owned();
        push_decimal(&mut s, row as u64);
        s.append(" out of range (tensor has ");
        push_decimal(&mut s, n_rows as u64);
        s.append(" rows)");
        return Err(GgufError::BackendError(s));
    }
    proof {
        assert(0 <= row * tensor@.row_bytes()) by (nonlinear_arith);
    }
    let bytes_per_row: usize = tensor.ggml_type.type_size(row_len);
    let row_byte_offset: usize = if tensor.n_dims == 1 {
        tensor.byte_offset as usize
    } else {
        tensor.byte_offset as usize + row * bytes_per_row
    };
    let have: usize = data.len();
    if row_byte_offset + bytes_per_row > have {
        let left: usize = if row_byte_offset <= have {
            have - row_byte_offset
        } else {
            0
        };
        let mut s = "tensor row ".to_owned();
        push_decimal(&mut s, row as u64);
        s.append(" extends beyond data section (offset ");
        push_decimal(&mut s, row_byte_offset as u64);
        s.append(", need ");
        push_decimal(&mut s, bytes_per_row as u64);
        s.append(" bytes, have ");
        push_decimal(&mut s, left as u64);
        s.append(")");
        return Err(GgufError::BackendError(s));
    }
    let bytes = vstd::slice::slice_subrange(data, row_byte_offset, have);
    proof {
        assert(bytes@ =~= data@.skip(row_byte_offset as int));
    }
    Ok((bytes, row_len))
}

/// The single-precision values of a row, by their bits.
pub open spec fn single_values(data: Seq<u8>, n: nat) -> Seq<u32> {
    Seq::new(n, |i: int| number_at(data, 4 * i, 4) as u32)
}

/// The half-precision values of a row, by their bits.
pub open spec fn half_values(data: Seq<u8>, n: nat) -> Seq<u16> {
    Seq::new(n, |i: int| half_at(data, 2 * i))
}

/// The values of a row of bfloat16 numbers, by their single-precision bits: a
/// bfloat16 number is the upper half of a binary32 number.
pub open spec fn brain_values(data: Seq<u8>, n: nat) -> Seq<u32> {
    Seq::new(n, |i: int| (half_at(data, 2 * i) * 0x1_0000) as u32)
}

/// Reads a row of F32 values, by their bits.
pub fn dequant_f32(data: &[u8], n: usize) -> (out: Vec<u32>)
    requires
        4 * n <= data@.len(),
    ensures
        out@ == single_values(data@, n as nat),
{
    let len: usize = data.len();
    let mut out: Vec<u32> = Vec::new();
    let mut i: usize = 0;
    while i < n
        invariant
            i <= n,
            len == data@.len(),
            4 * n <= len,
            out@ == single_values(data@, i as nat),
        decreases n - i,
    {
        proof {
            reveal_with_fuel(number_at, 5);
        }
        let p: usize = 4 * i;
        let v: u32 = data[p] as u32 + 0x100 * data[p + 1] as u32 + 0x1_0000 * data[p + 2] as u32
            + 0x100_0000 * data[p + 3] as u32;
        out.push(v);
        proof {
            assert(out@ =~= single_values(data@, i as nat + 1));
        }
        i += 1;
    }
    out
}

/// Reads a row of F16 values, by their bits.
pub fn dequant_f16(data: &[u8], n: usize) -> (out: Vec<u16>)
    requires
        2 * n <= data@.len(),
    ensures
        out@ == half_values(data@, n as nat),
{
    let len: usize = data.len();
    let mut out: Vec<u16> = Vec::new();
    let mut i: usize = 0;
    while i < n
        invariant
            i <= n,
            len == data@.len(),
            2 * n <= len,
            out@ == half_values(data@, i as nat),
        decreases n - i,
    {
        out.push(read_half(data, 2 * i));
        proof {
            assert(out@ =~= half_values(data@, i as nat + 1));
        }
        i += 1;
    }
    out
}

/// Reads a row of BF16 values, by their single-precision bits.
pub fn dequant_bf16(data: &[u8], n: usize) -> (out: Vec<u32>)
    requires
        2 * n <= data@.len(),
    ensures
        out@ == brain_values(data@, n as nat),
{
    let len: usize = data.len();
    let mut out: Vec<u32> = Vec::new();
    let mut i: usize = 0;
    while i < n
        invariant
            i <= n,
            len == data@.len(),
            2 * n <= len,
            out@ == brain_values(data@, i as nat),
        decreases n - i,
    {
        out.push(read_half(data, 2 * i) as u32 * 0x1_0000);
        proof {
            assert(out@ =~= brain_values(data@, i as nat + 1));
        }
        i += 1;
    }
    out
}

/// Whether the rows of a tensor type can be decoded.
pub open spec fn decodable(ty: GgmlType) -> bool {
    match ty {
        GgmlType::F32
        | GgmlType::F16
        | GgmlType::BF16
        | GgmlType::Q8_0
        | GgmlType::Q5_0
        | GgmlType::Q4_K
        | GgmlType::Q5_K
        | GgmlType::Q6_K
        | GgmlType::Q2_K => true,
        _ => false,
    }
}

/// Whether `row` holds the first `n` values of type `ty` in `data`.
pub open spec fn holds_row(ty: GgmlType, data: Seq<u8>, n: nat, row: Row) -> bool {
    match ty {
        GgmlType::F32 => row matches Row::Single(v) && v@ == single_values(data, n),
        GgmlType::F16 => row matches Row::Half(v) && v@ == half_values(data, n),
        GgmlType::BF16 => row matches Row::Single(v) && v@ == brain_values(data, n),
        GgmlType::Q8_0 => row matches Row::Quantized(v) && v@ == q8_0::weights_of(data, n),
        GgmlType::Q5_0 => row matches Row::Quantized(v) && v@ == q5_0::weights_of(data, n),
        GgmlType::Q4_K => row matches Row::Quantized(v) && v@ == q4_k::weights_of(data, n),
        GgmlType::Q5_K => row matches Row::Quantized(v) && v@ == q5_k::weights_of(data, n),
        GgmlType::Q6_K => row matches Row::Quantized(v) && v@ == q6_k::weights_of(data, n),
        GgmlType::Q2_K => row matches Row::Quantized(v) && v@ == q2_k::weights_of(data, n),
        _ => false,
    }
}

fn quantized(r: Result<Vec<Weight>>) -> (row: Result<Row>)
    ensures
        match r {
            Ok(v) => row matches Ok(Row::Quantized(w)) && w@ == v@,
            Err(e) => row == Err::<Row, GgufError>(e),
        },
{
    match r {
        Ok(v) => Ok(Row::Quantized(v)),
        Err(e) => Err(e),
    }
}

/// The bytes of `n` values of each type that can be decoded.
pub(crate) proof fn lemma_row_bytes(t: GgmlType, n: nat)
    ensures
        t == GgmlType::F32 ==> t.spec_type_size(n) == 4 * n,
        t == GgmlType::F16 ==> t.spec_type_size(n) == 2 * n,
        t == GgmlType::BF16 ==> t.spec_type_size(n) == 2 * n,
        t == GgmlType::Q8_0 ==> t.spec_type_size(n) == blocks_of(n, 32) * 34,
        t == GgmlType::Q5_0 ==> t.spec_type_size(n) == blocks_of(n, 32) * 22,
        t == GgmlType::Q4_K ==> t.spec_type_size(n) == blocks_of(n, 256) * 144,
        t == GgmlType::Q5_K ==> t.spec_type_size(n) == blocks_of(n, 256) * 176,
        t == GgmlType::Q6_K ==> t.spec_type_size(n) == blocks_of(n, 256) * 210,
        t == GgmlType::Q2_K && n % 256 == 0 ==> t.spec_type_size(n) == 84 * (n / 256),
{
    match t {
        GgmlType::F32 | GgmlType::F16 | GgmlType::BF16 => {
            assert((n + 1 - 1) as nat / 1nat == n);
        },
        _ => {},
    }
}

/// Decode one row of a tensor.
///
/// `data` is the full tensor data section (starting at `GgufFile::data_offset`).
/// `row` is the 0-based row index.
///
/// Returns the values of that row. For 1D tensors (norm weights), the entire
/// tensor is one "row".
pub fn dequant_row(tensor: &TensorInfo, data: &[u8], row: usize) -> (r: Result<Row>)
    requires
        tensor@.row_computable(row as nat),
    ensures
        match r {
            Ok(values) => {
                &&& row_present(tensor@, data@.len(), row as nat)
                &&& tensor.ggml_type == GgmlType::Q2_K ==> tensor@.row_len() % 256 == 0
                &&& holds_row(
                    tensor.ggml_type,
                    data@.skip(tensor@.row_offset(row as nat) as int),
                    tensor@.row_len(),
                    values,
                )
            },
            Err(e) => if !row_present(tensor@, data@.len(), row as nat) {
                is_row_error(tensor@, data@.len(), row as nat, e)
            } else if !decodable(tensor.ggml_type) {
                e.is_backend(
                    "dequantization not yet implemented for "@ + tensor.ggml_type.spec_name(),
                )
            } else {
                &&& tensor.ggml_type == GgmlType::Q2_K
                &&& tensor@.row_len() % 256 != 0
                &&& e.is_backend(q2_k::ragged(tensor@.row_len()))
            },
        },
{
    let (row_data, row_len) = row_view(tensor, data, row)?;
    proof {
        let n = row_len as nat;
        let t = tensor.ggml_type;
        let have: nat = row_data@.len();
        assert(have >= tensor@.row_bytes());
        lemma_row_bytes(t, n);
    }
    match tensor.ggml_type {
        GgmlType::F32 => Ok(Row::Single(dequant_f32(row_data, row_len))),
        GgmlType::F16 => Ok(Row::Half(dequant_f16(row_data, row_len))),
        GgmlType::BF16 => Ok(Row::Single(dequant_bf16(row_data, row_len))),
        GgmlType::Q8_0 => quantized(q8_0::dequant_q8_0(row_data, row_len)),
        GgmlType::Q5_0 => quantized(q5_0::dequant_q5_0(row_data, row_len)),
        GgmlType::Q4_K => quantized(q4_k::dequant_q4_k(row_data, row_len)),
        GgmlType::Q5_K => quantized(q5_k::dequant_q5_k(row_data, row_len)),
        GgmlType::Q6_K => quantized(q6_k::dequant_q6_k(row_data, row_len)),
        GgmlType::Q2_K => quantized(q2_k::dequant_q2_k(row_data, row_len)),
        other => Err(
            GgufError::BackendError(
                "dequantization not yet implemented for ".to_owned().concat(other.name()),
            ),
        ),
    }
}

/// The first `n` values of type `ty` in `data`.
pub open spec fn elements_of(ty: GgmlType, data: Seq<u8>, n: nat) -> Seq<Element> {
    match ty {
        GgmlType::F32 => single_elements(single_values(data, n)),
        GgmlType::F16 => half_elements(half_values(data, n)),
        GgmlType::BF16 => single_elements(brain_values(data, n)),
        GgmlType::Q8_0 => quantized_elements(q8_0::weights_of(data, n)),
        GgmlType::Q5_0 => quantized_elements(q5_0::weights_of(data, n)),
        GgmlType::Q4_K => quantized_elements(q4_k::weights_of(data, n)),
        GgmlType::Q5_K => quantized_elements(q5_k::weights_of(data, n)),
        GgmlType::Q6_K => quantized_elements(q6_k::weights_of(data, n)),
        GgmlType::Q2_K => quantized_elements(q2_k::weights_of(data, n)),
        _ => Seq::empty(),
    }
}

/// Single-precision values, each as a value of a row.
pub open spec fn single_elements(values: Seq<u32>) -> Seq<Element> {
    Seq::new(values.len(), |i: int| Element::Single(values[i]))
}

/// Half-precision values, each as a value of a row.
pub open spec fn half_elements(values: Seq<u16>) -> Seq<Element> {
    Seq::new(values.len(), |i: int| Element::Half(values[i]))
}

impl Row {
    /// The values of the row.
    pub open spec fn elements(&self) -> Seq<Element> {
        match self {
            Row::Single(v) => single_elements(v@),
            Row::Half(v) => half_elements(v@),
            Row::Quantized(v) => quantized_elements(v@),
        }
    }

    /// The number of values.
    pub fn len(&self) -> (n: usize)
        ensures
            n == self.elements().len(),
    {
        match self {
            Row::Single(v) => v.len(),
            Row::Half(v) => v.len(),
            Row::Quantized(v) => v.len(),
        }
    }

    /// The value `i`.
    pub fn element(&self, i: usize) -> (e: Element)
        requires
            i < self.elements().len(),
        ensures
            e == self.elements()[i as int],
    {
        match self {
            Row::Single(v) => Element::Single(v[i]),
            Row::Half(v) => Element::Half(v[i]),
            Row::Quantized(v) => Element::Quantized(v[i]),
        }
    }
}

/// A row that was decoded holds the values that lie in the data.
pub proof fn law_decoded_row_holds_the_values(ty: GgmlType, data: Seq<u8>, n: nat, row: Row)
    requires
        holds_row(ty, data, n, row),
    ensures
        row.elements() == elements_of(ty, data, n),
        row.elements().len() == n,
{
}

/// Takes the values of a row and the elements of `x` into `start`, one pair after
/// the other, as far as both go.
pub(crate) fn accumulate_row<A: Copy, F: Fn(A, Element, A) -> A>(
    start: A,
    row: &Row,
    x: &[A],
    take_in: &F,
) -> (total: A)
    requires
        takes_in(*take_in),
    ensures
        is_zipped_sum(*take_in, start, row.elements(), x@, total),
{
    let len: usize = row.len();
    let n: usize = if len < x.len() {
        len
    } else {
        x.len()
    };
    let ghost values = row.elements();
    let mut acc: A = start;
    let mut i: usize = 0;
    proof {
        assert(values.take(0).len() == 0);
    }
    while i < n
        invariant
            i <= n,
            n <= x@.len(),
            n <= values.len(),
            values == row.elements(),
            takes_in(*take_in),
            accumulated(*take_in, start, values.take(i as int), x@.take(i as int), acc),
        decreases n - i,
    {
        let ghost before = acc;
        acc = take_in(acc, row.element(i), x[i]);
        proof {
            lemma_accumulated_next(*take_in, start, values, x@, i as int, before, acc);
        }
        i += 1;
    }
    acc
}

/// Whether `total` comes from `start` by taking in the pairs of a value and an
/// element, as far as both go.
pub open spec fn is_zipped_sum<A, F: Fn(A, Element, A) -> A>(
    take_in: F,
    start: A,
    values: Seq<Element>,
    x: Seq<A>,
    total: A,
) -> bool {
    let n = if values.len() <= x.len() {
        values.len() as int
    } else {
        x.len() as int
    };
    accumulated(take_in, start, values.take(n), x.take(n), total)
}

/// Whether `total` is the product of the first `x.len()` values of type `ty` in
/// `data` with `x`. Q8_0 is computed block by block, Q4_K and Q5_K by groups of lanes,
/// Q6_K by quarters, and every other type value by value.
pub open spec fn is_row_dot<
    A,
    W: Fn(A, i32, A) -> A,
    S: Fn(A, u16, A) -> A,
    F: Fn(A, Element, A) -> A,
    P: Fn(A, A) -> A,
>(
    ty: GgmlType,
    data: Seq<u8>,
    x: Seq<A>,
    zero: A,
    within: W,
    scaled: S,
    take_in: F,
    plus: P,
    total: A,
) -> bool {
    let values = elements_of(ty, data, x.len());
    match ty {
        GgmlType::Q8_0 => q8_0::is_dot(data, x, zero, within, scaled, total),
        GgmlType::Q4_K | GgmlType::Q5_K => is_lanes_dot(take_in, plus, zero, values, x, total),
        GgmlType::Q6_K => is_quarters_dot(take_in, zero, values, x, total),
        _ => accumulated(take_in, zero, values, x, total),
    }
}

/// Fused dequant + dot product of one tensor row with `x`.
///
/// Q8_0 is summed block by block; of the other formats the row is decoded first.
/// `x.len()` must equal the row length (`tensor.dims[0]`). `within` and `scaled`
/// are the sums of Q8_0 (see [`q8_0::dot_q8_0`]); `take_in` takes a value of the
/// row and an element of `x` into a sum, and `plus` adds up sums.
pub fn dot_row<
    A: Copy,
    W: Fn(A, i32, A) -> A,
    S: Fn(A, u16, A) -> A,
    F: Fn(A, Element, A) -> A,
    P: Fn(A, A) -> A,
>(
    tensor: &TensorInfo,
    data: &[u8],
    row: usize,
    x: &[A],
    zero: A,
    within: &W,
    scaled: &S,
    take_in: &F,
    plus: &P,
) -> (r: Result<A>)
    requires
        tensor@.row_computable(row as nat),
        tensor.n_dims > 0 ==> tensor@.row_len() == x@.len(),
        takes_in(*within),
        takes_in(*scaled),
        takes_in(*take_in),
        adds(*plus),
    ensures
        match r {
            Ok(total) => {
                &&& row_present(tensor@, data@.len(), row as nat)
                &&& decodable(tensor.ggml_type)
                &&& tensor.ggml_type == GgmlType::Q2_K ==> tensor@.row_len() % 256 == 0
                &&& is_row_dot(
                    tensor.ggml_type,
                    data@.skip(tensor@.row_offset(row as nat) as int),
                    x@,
                    zero,
                    *within,
                    *scaled,
                    *take_in,
                    *plus,
                    total,
                )
            },
            Err(e) => if !row_present(tensor@, data@.len(), row as nat) {
                is_row_error(tensor@, data@.len(), row as nat, e)
            } else if !decodable(tensor.ggml_type) {
                e.is_backend(
                    "dequantization not yet implemented for "@ + tensor.ggml_type.spec_name(),
                )
            } else {
                &&& tensor.ggml_type == GgmlType::Q2_K
                &&& tensor@.row_len() % 256 != 0
                &&& e.is_backend(q2_k::ragged(tensor@.row_len()))
            },
        },
{
    let (row_data, row_len) = row_view(tensor, data, row)?;
    proof {
        lemma_row_bytes(tensor.ggml_type, row_len as nat);
    }
    match tensor.ggml_type {
        GgmlType::Q8_0 => q8_0::dot_q8_0(row_data, x, zero, within, scaled),
        GgmlType::Q4_K => q4_k::dot_q4_k(row_data, x, zero, take_in, plus),
        GgmlType::Q5_K => q5_k::dot_q5_k(row_data, x, zero, take_in, plus),
        GgmlType::Q6_K => q6_k::dot_q6_k(row_data, x, zero, take_in),
        _ => {
            let values = dequant_row(tensor, data, row)?;
            proof {
                law_decoded_row_holds_the_values(
                    tensor.ggml_type,
                    row_data@,
                    row_len as nat,
                    values,
                );
                assert(values.elements().take(x@.len() as int) =~= values.elements());
                assert(x@.take(x@.len() as int) =~= x@);
            }
            Ok(accumulate_row(zero, &values, x, take_in))
        },
    }
}

/// Fused Q5_K × Q8_K dot product for one tensor row, the whole-number part,
/// against an activation already quantized once (by the caller, shared across
/// every row of the matmul). See [`q5_k::dot_q5_k_q8k`].
pub fn dot_row_q5k_q8k(tensor: &TensorInfo, data: &[u8], row: usize, q8k: &Q8KRow) -> (r: Result<
    Vec<BlockDot>,
>)
    requires
        tensor@.row_computable(row as nat),
        tensor.ggml_type == GgmlType::Q5_K,
        tensor.n_dims > 0 ==> tensor@.row_len() == q8k.n,
        q8k.shaped(),
        blocks_of(q8k.n as nat, 256) * 256 <= usize::MAX,
    ensures
        match r {
            Ok(dots) => {
                let bytes = data@.skip(tensor@.row_offset(row as nat) as int);
                &&& row_present(tensor@, data@.len(), row as nat)
                &&& dots@.len() == q8k.d@.len()
                &&& forall|b: int|
                    0 <= b < dots@.len() ==> #[trigger] dots@[b] == block_dot(bytes, *q8k, b)
            },
            Err(e) => {
                &&& !row_present(tensor@, data@.len(), row as nat)
                &&& is_row_error(tensor@, data@.len(), row as nat, e)
            },
        },
{
    let (row_data, row_len) = row_view(tensor, data, row)?;
    proof {
        assert(tensor.ggml_type.spec_type_size(row_len as nat) == blocks_of(row_len as nat, 256)
            * 176);
    }
    q5_k::dot_q5_k_q8k(row_data, q8k)
}

} // verus!
