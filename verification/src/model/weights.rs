//! The tensors of a model by name, and the rows of them that a computation
//! reads.

use vstd::hash_map::StringHashMap;
use vstd::prelude::*;
use vstd::string::*;

use crate::error::{GgufError, Result};
use crate::quant::block::{too_short, Weight};
use crate::quant::{
    decodable, dequant_f16, dequant_f32, holds_row, is_row_error, lemma_row_bytes, q2_k, q4_k,
    q5_0, q5_k, q6_k, q8_0, row_present, row_view, Row,
};
use crate::types::{
    checked_product, product_fits, tensor_views, GgmlType, GgufFile, TensorInfo,
    TensorView,
};

verus! {

/// Map from tensor name to TensorInfo, with a reference to the data section.
/// This is the primary way the model accesses weights.
pub struct WeightMap<'a> {
    positions: StringHashMap<usize>,
    tensors: &'a Vec<TensorInfo>,
    data: &'a [u8],
}

/// The last tensor of a name.
pub open spec fn last_named(tensors: Seq<TensorView>, name: Seq<char>) -> Option<TensorView>
    decreases tensors.len(),
{
    if tensors.len() == 0 {
        None
    } else if tensors.last().name == name {
        Some(tensors.last())
    } else {
        last_named(tensors.drop_last(), name)
    }
}

/// The message for a tensor that is not there: `tensor <name>`.
pub open spec fn tensor_name(name: Seq<char>) -> Seq<char> {
    "tensor "@ + name
}

/// The error for a tensor that is not there.
pub(crate) fn missing_tensor(name: &str) -> (e: GgufError)
    ensures
        e.is_missing(tensor_name(name@)),
{
    GgufError::MissingMetadata("tensor ".to_owned().concat(name))
}

/// Whether a whole tensor of type `ty` can be decoded at once.
pub open spec fn whole_decodable(ty: GgmlType) -> bool {
    decodable(ty) && ty != GgmlType::BF16
}

/// The label of a quantized type in the error for data that is too short.
pub open spec fn dequant_label(ty: GgmlType) -> Seq<char> {
    match ty {
        GgmlType::Q8_0 => "Q8_0 dequant"@,
        GgmlType::Q5_0 => "Q5_0 dequant"@,
        GgmlType::Q4_K => "Q4_K dequant"@,
        GgmlType::Q5_K => "Q5_K dequant"@,
        _ => "Q6_K dequant"@,
    }
}

/// Whether the whole of a tensor can be addressed: its number of elements and of
/// bytes does not overflow, it begins within the data, and where it is not
/// quantized it also ends there.
pub open spec fn whole_addressable(t: TensorView, len: nat) -> bool {
    &&& t.sized()
    &&& t.byte_offset <= len
    &&& (t.ggml_type == GgmlType::F32 || t.ggml_type == GgmlType::F16) ==> t.byte_offset
        + t.spec_byte_size() <= len
}

/// Whether the whole of a tensor can be decoded from a data section of `len`
/// bytes.
pub open spec fn whole_ok(t: TensorView, len: nat) -> bool {
    &&& whole_decodable(t.ggml_type)
    &&& t.ggml_type == GgmlType::Q2_K ==> t.spec_n_elements() % 256 == 0
    &&& t.byte_offset + t.spec_byte_size() <= len
}

/// Whether `e` is the error for a tensor that cannot be decoded as a whole.
pub open spec fn is_whole_error(t: TensorView, len: nat, e: GgufError) -> bool {
    let have = (len - t.byte_offset) as nat;
    if !whole_decodable(t.ggml_type) {
        e.is_backend("dequant not implemented for "@ + t.ggml_type.spec_name())
    } else if t.ggml_type == GgmlType::Q2_K {
        if t.spec_n_elements() % 256 != 0 {
            e.is_backend(q2_k::ragged(t.spec_n_elements()))
        } else {
            e.is_backend(q2_k::short(t.spec_byte_size(), have))
        }
    } else {
        e.is_backend(too_short(dequant_label(t.ggml_type), t.spec_byte_size(), have))
    }
}

/// Whether a row of a tensor can be decoded from a data section of `len` bytes.
pub open spec fn row_ok(t: TensorView, len: nat, row: nat) -> bool {
    &&& row_present(t, len, row)
    &&& decodable(t.ggml_type)
    &&& t.ggml_type == GgmlType::Q2_K ==> t.row_len() % 256 == 0
}

/// Whether `e` is the error for a row that cannot be decoded.
pub open spec fn is_row_fault(t: TensorView, len: nat, row: nat, e: GgufError) -> bool {
    if !row_present(t, len, row) {
        is_row_error(t, len, row, e)
    } else if !decodable(t.ggml_type) {
        e.is_backend("dequantization not yet implemented for "@ + t.ggml_type.spec_name())
    } else {
        e.is_backend(q2_k::ragged(t.row_len()))
    }
}

/// A tensor, or its first row, that is read when a model is loaded.
pub struct Fetch {
    pub name: Seq<char>,
    /// Whether the whole tensor is read; else its first row.
    pub whole: bool,
}

impl Fetch {
    /// Whether reading is defined: the place of what is read can be computed.
    pub open spec fn defined(self, tensors: Seq<TensorView>, len: nat) -> bool {
        last_named(tensors, self.name) matches Some(t) ==> if self.whole {
            whole_addressable(t, len)
        } else {
            t.row_computable(0)
        }
    }

    /// Whether reading succeeds.
    pub open spec fn ok(self, tensors: Seq<TensorView>, len: nat) -> bool {
        match last_named(tensors, self.name) {
            Some(t) => if self.whole {
                whole_ok(t, len)
            } else {
                row_ok(t, len, 0)
            },
            None => false,
        }
    }

    /// Whether `row` is what is read.
    pub open spec fn gives(self, tensors: Seq<TensorView>, data: Seq<u8>, row: Row) -> bool {
        match last_named(tensors, self.name) {
            Some(t) => if self.whole {
                holds_row(
                    t.ggml_type,
                    data.skip(t.byte_offset as int),
                    t.spec_n_elements(),
                    row,
                )
            } else {
                holds_row(t.ggml_type, data.skip(t.row_offset(0) as int), t.row_len(), row)
            },
            None => false,
        }
    }

    /// Whether `e` is the error that reading gives.
    pub open spec fn fails_with(self, tensors: Seq<TensorView>, len: nat, e: GgufError) -> bool {
        match last_named(tensors, self.name) {
            Some(t) => if self.whole {
                is_whole_error(t, len, e)
            } else {
                is_row_fault(t, len, 0, e)
            },
            None => e.is_missing(tensor_name(self.name)),
        }
    }
}

/// Whether the whole of a tensor can be addressed.
pub fn whole_is_addressable(tensor: &TensorInfo, len: usize) -> (r: bool)
    ensures
        r == whole_addressable(tensor@, len as nat),
{
    match tensor.checked_byte_size() {
        None => false,
        Some(size) => {
            if tensor.byte_offset > len as u64 {
                return false;
            }
            let plain: bool = tensor.ggml_type == GgmlType::F32 || tensor.ggml_type
                == GgmlType::F16;
            !plain || size as u64 <= len as u64 - tensor.byte_offset
        },
    }
}

impl<'a> WeightMap<'a> {
    /// The descriptions of the tensors, in the order of the file.
    pub closed spec fn tensor_list(&self) -> Seq<TensorView> {
        tensor_views(self.tensors@)
    }

    /// The data section of the file.
    pub closed spec fn bytes(&self) -> Seq<u8> {
        self.data@
    }

    /// Every name leads to the last tensor of that name.
    pub closed spec fn wf(&self) -> bool {
        forall|name: Seq<char>|
            #![trigger self.positions@.contains_key(name)]
            match last_named(tensor_views(self.tensors@), name) {
                Some(t) => self.positions@.contains_key(name) && self.positions@[name]
                    < self.tensors@.len() && self.tensors@[self.positions@[name] as int]@ == t,
                None => !self.positions@.contains_key(name),
            }
    }

    /// The tensors of a file by name. Of several tensors of one name the last
    /// counts.
    pub fn from_gguf(gguf: &'a GgufFile, data: &'a [u8]) -> (m: Self)
        ensures
            m.wf(),
            m.tensor_list() == gguf@.tensors,
            m.bytes() == data@,
    {
        let mut positions: StringHashMap<usize> = StringHashMap::new();
        let ghost all = gguf@.tensors;
        let mut i: usize = 0;
        while i < gguf.tensors.len()
            invariant
                i <= gguf.tensors@.len(),
                all == tensor_views(gguf.tensors@),
                forall|name: Seq<char>|
                    #![trigger positions@.contains_key(name)]
                    match last_named(all.take(i as int), name) {
                        Some(t) => positions@.contains_key(name) && positions@[name] < i
                            && gguf.tensors@[positions@[name] as int]@ == t,
                        None => !positions@.contains_key(name),
                    },
            decreases gguf.tensors@.len() - i,
        {
            let ghost before = positions@;
            positions.insert(gguf.tensors[i].name.clone(), i);
            proof {
                let next = all.take(i as int + 1);
                assert(next.drop_last() =~= all.take(i as int));
                assert(next.last() == gguf.tensors@[i as int]@);
                assert forall|name: Seq<char>|
                    #![trigger positions@.contains_key(name)]
                    match last_named(next, name) {
                        Some(t) => positions@.contains_key(name) && positions@[name] < i + 1
                            && gguf.tensors@[positions@[name] as int]@ == t,
                        None => !positions@.contains_key(name),
                    } by {
                    if next.last().name != name {
                        assert(before.contains_key(name) == positions@.contains_key(name));
                    }
                }
            }
            i += 1;
        }
        proof {
            assert(all.take(all.len() as int) =~= all);
        }
        WeightMap { positions, tensors: &gguf.tensors, data }
    }

    /// The length of the data section.
    pub fn data_len(&self) -> (n: usize)
        ensures
            n == self.bytes().len(),
    {
        self.data.len()
    }

    /// The data section.
    pub fn data(&self) -> (data: &'a [u8])
        ensures
            data@ == self.bytes(),
    {
        self.data
    }

    /// Get tensor info by name.
    pub fn get(&self, name: &str) -> (r: Option<&TensorInfo>)
        requires
            self.wf(),
        ensures
            match r {
                Some(t) => last_named(self.tensor_list(), name@) == Some(t@),
                None => last_named(self.tensor_list(), name@) is None,
            },
    {
        match self.positions.get(name) {
            Some(p) => {
                proof {
                    assert(self.positions@.contains_key(name@));
                }
                Some(&self.tensors[*p])
            },
            None => {
                proof {
                    assert(!self.positions@.contains_key(name@));
                }
                None
            },
        }
    }

    /// Decode an entire tensor. For 2D+ tensors this flattens all rows.
    pub fn dequant_tensor(&self, name: &str) -> (r: Result<Row>)
        requires
            self.wf(),
            last_named(self.tensor_list(), name@) matches Some(t) ==> whole_addressable(
                t,
                self.bytes().len(),
            ),
        ensures
            match last_named(self.tensor_list(), name@) {
                None => r matches Err(e) && e.is_missing(tensor_name(name@)),
                Some(t) => match r {
                    Ok(row) => {
                        &&& whole_ok(t, self.bytes().len())
                        &&& holds_row(
                            t.ggml_type,
                            self.bytes().skip(t.byte_offset as int),
                            t.spec_n_elements(),
                            row,
                        )
                    },
                    Err(e) => {
                        &&& !whole_ok(t, self.bytes().len())
                        &&& is_whole_error(t, self.bytes().len(), e)
                    },
                },
            },
    {
        let tensor = match self.get(name) {
            Some(t) => t,
            None => {
                return Err(missing_tensor(name));
            },
        };
        let n: usize = tensor.n_elements();
        let len: usize = self.data.len();
        let row_data = vstd::slice::slice_subrange(self.data, tensor.byte_offset as usize, len);
        proof {
            let t = tensor.ggml_type;
            let c = n as nat;
            assert(row_data@ =~= self.bytes().skip(tensor.byte_offset as int));
            lemma_row_bytes(t, c);
        }
        match tensor.ggml_type {
            GgmlType::F32 => Ok(Row::Single(dequant_f32(row_data, n))),
            GgmlType::F16 => Ok(Row::Half(dequant_f16(row_data, n))),
            GgmlType::Q8_0 => quantized_row(q8_0::dequant_q8_0(row_data, n)),
            GgmlType::Q5_0 => quantized_row(q5_0::dequant_q5_0(row_data, n)),
            GgmlType::Q4_K => quantized_row(q4_k::dequant_q4_k(row_data, n)),
            GgmlType::Q5_K => quantized_row(q5_k::dequant_q5_k(row_data, n)),
            GgmlType::Q6_K => quantized_row(q6_k::dequant_q6_k(row_data, n)),
            GgmlType::Q2_K => quantized_row(q2_k::dequant_q2_k(row_data, n)),
            other => Err(
                GgufError::BackendError(
                    "dequant not implemented for ".to_owned().concat(other.name()),
                ),
            ),
        }
    }

    /// Decode a single row of a tensor.
    pub fn dequant_row(&self, name: &str, row: usize) -> (r: Result<Row>)
        requires
            self.wf(),
            last_named(self.tensor_list(), name@) matches Some(t) ==> t.row_computable(row as nat),
        ensures
            match last_named(self.tensor_list(), name@) {
                None => r matches Err(e) && e.is_missing(tensor_name(name@)),
                Some(t) => match r {
                    Ok(values) => {
                        &&& row_ok(t, self.bytes().len(), row as nat)
                        &&& holds_row(
                            t.ggml_type,
                            self.bytes().skip(t.row_offset(row as nat) as int),
                            t.row_len(),
                            values,
                        )
                    },
                    Err(e) => {
                        &&& !row_ok(t, self.bytes().len(), row as nat)
                        &&& is_row_fault(t, self.bytes().len(), row as nat, e)
                    },
                },
            },
    {
        let tensor = match self.get(name) {
            Some(t) => t,
            None => {
                return Err(missing_tensor(name));
            },
        };
        crate::quant::dequant_row(tensor, self.data, row)
    }

    /// Decode a 1D tensor (norm weights, biases).
    pub fn dequant_1d(&self, name: &str) -> (r: Result<Row>)
        requires
            self.wf(),
            last_named(self.tensor_list(), name@) matches Some(t) ==> t.row_computable(0),
        ensures
            match last_named(self.tensor_list(), name@) {
                None => r matches Err(e) && e.is_missing(tensor_name(name@)),
                Some(t) => match r {
                    Ok(values) => {
                        &&& row_ok(t, self.bytes().len(), 0)
                        &&& holds_row(
                            t.ggml_type,
                            self.bytes().skip(t.row_offset(0) as int),
                            t.row_len(),
                            values,
                        )
                    },
                    Err(e) => {
                        &&& !row_ok(t, self.bytes().len(), 0)
                        &&& is_row_fault(t, self.bytes().len(), 0, e)
                    },
                },
            },
    {
        self.dequant_row(name, 0)
    }

    /// Reads a whole tensor or its first row, or nothing where the place of what
    /// is read cannot be computed.
    pub fn fetch(&self, name: &str, whole: bool) -> (r: Option<Result<Row>>)
        requires
            self.wf(),
        ensures
            ({
                let f = Fetch { name: name@, whole };
                let len = self.bytes().len();
                match r {
                    None => !f.defined(self.tensor_list(), len),
                    Some(Ok(row)) => {
                        &&& f.defined(self.tensor_list(), len)
                        &&& f.ok(self.tensor_list(), len)
                        &&& f.gives(self.tensor_list(), self.bytes(), row)
                    },
                    Some(Err(e)) => {
                        &&& f.defined(self.tensor_list(), len)
                        &&& !f.ok(self.tensor_list(), len)
                        &&& f.fails_with(self.tensor_list(), len, e)
                    },
                }
            }),
    {
        let tensor = match self.get(name) {
            Some(t) => t,
            None => {
                return Some(Err(missing_tensor(name)));
            },
        };
        if whole {
            if !whole_is_addressable(tensor, self.data.len()) {
                return None;
            }
            Some(self.dequant_tensor(name))
        } else {
            if !crate::quant::row_computable(tensor, 0) {
                return None;
            }
            Some(self.dequant_1d(name))
        }
    }
}

/// Whether the rows of a type can be decoded.
fn is_decodable(ty: GgmlType) -> (r: bool)
    ensures
        r == decodable(ty),
{
    match ty {
        GgmlType::F32
        | GgmlType::F16
        | GgmlType::BF16
        | GgmlType::Q8_0
        | GgmlType::Q5_0
        | GgmlType::Q4_K
        | GgmlType::Q5_K
        | GgmlType::Q6_K
        | GgmlType::Q2_K => true,
        _ => false,
    }
}

/// Whether a row can be decoded.
pub(crate) fn row_is_ok(t: &TensorInfo, data: &[u8], row: usize) -> (r: bool)
    requires
        t@.row_computable(row as nat),
    ensures
        r == row_ok(t@, data@.len(), row as nat),
{
    match row_view(t, data, row) {
        Ok((_, len)) => is_decodable(t.ggml_type) && (t.ggml_type != GgmlType::Q2_K || len % 256
            == 0),
        Err(_) => false,
    }
}

/// Whether the first rows of a tensor can all be decoded: they can where the last of
/// them can.
pub(crate) fn rows_are_ok(t: &TensorInfo, data: &[u8], rows: usize) -> (r: bool)
    requires
        forall|row: nat| row < rows ==> #[trigger] t@.row_computable(row),
    ensures
        r == (forall|row: nat| row < rows ==> #[trigger] row_ok(t@, data@.len(), row)),
{
    if rows == 0 {
        return true;
    }
    proof {
        assert(t@.row_computable((rows - 1) as nat));
    }
    let r: bool = row_is_ok(t, data, rows - 1);
    proof {
        let last = (rows - 1) as nat;
        if r {
            assert forall|row: nat| row < rows implies #[trigger] row_ok(t@, data@.len(), row) by {
                assert(row * t@.row_bytes() <= last * t@.row_bytes()) by (nonlinear_arith)
                    requires
                        row <= last,
                ;
            }
        } else {
            assert(!row_ok(t@, data@.len(), last));
        }
    }
    r
}

/// Whether the rows of a tensor can be counted without overflow.
pub open spec fn rows_countable(t: TensorView) -> bool {
    t.n_dims == 1 || (t.dims.len() > 0 && product_fits(t.dims.skip(1)))
}

/// The number of rows of a tensor, or nothing where it cannot be computed.
pub fn count_rows(tensor: &TensorInfo) -> (n: Option<usize>)
    ensures
        n is Some <==> rows_countable(tensor@),
        n matches Some(rows) ==> rows == tensor@.row_count(),
{
    if tensor.n_dims == 1 {
        return Some(1);
    }
    if tensor.dims.len() == 0 {
        return None;
    }
    let rest = vstd::slice::slice_subrange(tensor.dims.as_slice(), 1, tensor.dims.len());
    proof {
        assert(rest@ =~= tensor.dims@.skip(1));
    }
    checked_product(rest)
}

fn quantized_row(r: Result<Vec<Weight>>) -> (row: Result<Row>)
    ensures
        match r {
            Ok(v) => row matches Ok(Row::Quantized(w)) && w@ == v@,
            Err(e) => row == Err::<Row, GgufError>(e),
        },
{
    match r {
        Ok(v) => Ok(Row::Quantized(v)),
        Err(e) => Err(e),
    }
}

/// Turns results that are laid out row after row, `batch` values each, into
/// results laid out token after token, `rows` values each.
pub fn token_major<T: Copy>(row_major: &[T], rows: usize, batch: usize) -> (out: Vec<T>)
    requires
        row_major@.len() == rows * batch,
    ensures
        out@.len() == rows * batch,
        forall|t: int, r: int|
            0 <= t < batch && 0 <= r < rows ==> out@[#[trigger] (t * rows + r)] == row_major@[r
                * batch + t],
{
    let total: usize = row_major.len();
    let mut out: Vec<T> = Vec::new();
    let mut t: usize = 0;
    proof {
        assert(0 * rows == 0);
    }
    while t < batch
        invariant
            t <= batch,
            total == row_major@.len(),
            total == rows * batch,
            out@.len() == t * rows,
            forall|s: int, r: int|
                0 <= s < t && 0 <= r < rows ==> out@[#[trigger] (s * rows + r)] == row_major@[r
                    * batch + s],
        decreases batch - t,
    {
        let mut r: usize = 0;
        while r < rows
            invariant
                r <= rows,
                t < batch,
                total == row_major@.len(),
                total == rows * batch,
                out@.len() == t * rows + r,
                forall|s: int, q: int|
                    0 <= s < t && 0 <= q < rows ==> out@[#[trigger] (s * rows + q)] == row_major@[q
                        * batch + s],
                forall|q: int|
                    0 <= q < r ==> out@[#[trigger] (t * rows + q)] == row_major@[q * batch + t],
            decreases rows - r,
        {
            proof {
                assert(r * batch + t < rows * batch) by (nonlinear_arith)
                    requires
                        r < rows,
                        t < batch,
                ;
                assert(0 <= r * batch) by (nonlinear_arith);
                assert forall|s: int, q: int| 0 <= s < t && 0 <= q < rows implies #[trigger] (s
                    * rows + q) < t * rows + r by {
                    assert(s * rows + q < t * rows + r) by (nonlinear_arith)
                        requires
                            s + 1 <= t,
                            0 <= q < rows,
                            0 <= r,
                    ;
                }
            }
            out.push(row_major[r * batch + t]);
            r += 1;
        }
        proof {
            assert((t + 1) * rows == t * rows + rows) by (nonlinear_arith);
        }
        t += 1;
    }
    proof {
        assert(batch * rows == rows * batch) by (nonlinear_arith);
    }
    out
}

} // verus!
