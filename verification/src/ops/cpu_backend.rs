//! CPU backend: dispatches straight to the fused dequant+dot kernels of
//! [`crate::quant`].

use vstd::prelude::*;
use vstd::slice::slice_subrange;
use vstd::string::*;

use crate::error::{GgufError, Result};
use crate::ops::backend_select::{gpu_dequantizable, has_gpu_kernel};
use crate::quant::block::{blocks_of, takes_in, too_short, Element};
use crate::quant::order::adds;
use crate::quant::{is_row_dot, lemma_row_bytes, q4_k, q5_k, q6_k, q8_0};
use crate::types::GgmlType;

verus! {

/// What the fused kernel of a format is called in an error.
pub open spec fn kernel_label(dtype: GgmlType) -> Seq<char> {
    match dtype {
        GgmlType::Q8_0 => "Q8_0 dot"@,
        GgmlType::Q4_K => "Q4_K dot"@,
        GgmlType::Q5_K => "Q5_K dot"@,
        _ => "Q6_K dot"@,
    }
}

/// Whether `e` is the error of row `row` of a matrix of `len` bytes whose rows are
/// `row_bytes` long.
pub open spec fn is_short_row(
    dtype: GgmlType,
    len: nat,
    row_bytes: nat,
    row: nat,
    e: GgufError,
) -> bool {
    &&& row * row_bytes + row_bytes > len
    &&& e.is_backend(
        too_short(kernel_label(dtype), row_bytes, (len - row * row_bytes) as nat),
    )
}

/// Fused dequant + matmul: `out[row] = sum_i dequant(w[row][i]) * x[i]`.
///
/// `dtype` selects the quantization format (must be one of
/// [`crate::ops::GPU_DEQUANT_DTYPES`]). `w` is the raw quantized weight bytes of the
/// matrix, row after row. `x` is the input vector (length = in_dim). `out` receives
/// one number per row; the rows before one that fails are written.
pub fn matmul_dequant<
    A: Copy,
    W: Fn(A, i32, A) -> A,
    S: Fn(A, u16, A) -> A,
    F: Fn(A, Element, A) -> A,
    P: Fn(A, A) -> A,
>(
    dtype: GgmlType,
    w: &[u8],
    x: &[A],
    out: &mut Vec<A>,
    zero: A,
    within: &W,
    scaled: &S,
    take_in: &F,
    plus: &P,
) -> (r: Result<()>)
    requires
        dtype.spec_type_size(x@.len()) <= usize::MAX,
        old(out)@.len() > 0 ==> (old(out)@.len() - 1) * dtype.spec_type_size(x@.len()) <= w@.len(),
        takes_in(*within),
        takes_in(*scaled),
        takes_in(*take_in),
        adds(*plus),
    ensures
        final(out)@.len() == old(out)@.len(),
        ({
            let row_bytes = dtype.spec_type_size(x@.len());
            match r {
                Ok(()) => {
                    &&& old(out)@.len() > 0 ==> gpu_dequantizable(dtype)
                    &&& old(out)@.len() * row_bytes <= w@.len()
                    &&& forall|row: int|
                        0 <= row < old(out)@.len() ==> is_row_dot(
                            dtype,
                            w@.skip(row * row_bytes),
                            x@,
                            zero,
                            *within,
                            *scaled,
                            *take_in,
                            *plus,
                            #[trigger] final(out)@[row],
                        )
                },
                Err(e) => if !gpu_dequantizable(dtype) {
                    &&& old(out)@.len() > 0
                    &&& e.is_backend("matmul_dequant: unsupported dtype "@ + dtype.spec_name())
                    &&& final(out)@ == old(out)@
                } else {
                    exists|failed: nat|
                        {
                            &&& failed < old(out)@.len()
                            &&& #[trigger] is_short_row(dtype, w@.len(), row_bytes, failed, e)
                            &&& forall|row: int|
                                0 <= row < failed ==> is_row_dot(
                                    dtype,
                                    w@.skip(row * row_bytes),
                                    x@,
                                    zero,
                                    *within,
                                    *scaled,
                                    *take_in,
                                    *plus,
                                    #[trigger] final(out)@[row],
                                )
                            &&& forall|row: int|
                                failed <= row < old(out)@.len() ==> #[trigger] final(out)@[row]
                                    == old(out)@[row]
                        }
                },
            }
        }),
{
    let row_bytes: usize = dtype.type_size(x.len());
    let rows: usize = out.len();
    let len: usize = w.len();
    if rows > 0 && !has_gpu_kernel(dtype) {
        return Err(
            GgufError::BackendError(
                "matmul_dequant: unsupported dtype ".to_owned().concat(dtype.name()),
            ),
        );
    }
    proof {
        lemma_row_bytes(dtype, x@.len());
        assert(0 * row_bytes == 0);
    }
    let mut row: usize = 0;
    while row < rows
        invariant
            row <= rows,
            rows == out@.len(),
            rows == old(out)@.len(),
            len == w@.len(),
            rows > 0 ==> gpu_dequantizable(dtype),
            row_bytes == dtype.spec_type_size(x@.len()),
            dtype == GgmlType::Q8_0 ==> row_bytes == blocks_of(x@.len(), 32)
                * 34,
            dtype == GgmlType::Q4_K ==> row_bytes == blocks_of(x@.len(), 256)
                * 144,
            dtype == GgmlType::Q5_K ==> row_bytes == blocks_of(x@.len(), 256)
                * 176,
            dtype == GgmlType::Q6_K ==> row_bytes == blocks_of(x@.len(), 256)
                * 210,
            rows > 0 ==> (rows - 1) * row_bytes <= len,
            row * row_bytes <= len,
            takes_in(*within),
            takes_in(*scaled),
            takes_in(*take_in),
            adds(*plus),
            forall|k: int|
                0 <= k < row ==> is_row_dot(
                    dtype,
                    w@.skip(k * row_bytes),
                    x@,
                    zero,
                    *within,
                    *scaled,
                    *take_in,
                    *plus,
                    #[trigger] out@[k],
                ),
            forall|k: int| row <= k < rows ==> #[trigger] out@[k] == old(out)@[k],
        decreases rows - row,
    {
        let start: usize = row * row_bytes;
        let row_data = slice_subrange(w, start, len);
        proof {
            assert(row_data@ =~= w@.skip(row * row_bytes));
        }
        let product = match dtype {
            GgmlType::Q8_0 => q8_0::dot_q8_0(row_data, x, zero, within, scaled),
            GgmlType::Q4_K => q4_k::dot_q4_k(row_data, x, zero, take_in, plus),
            GgmlType::Q5_K => q5_k::dot_q5_k(row_data, x, zero, take_in, plus),
            _ => q6_k::dot_q6_k(row_data, x, zero, take_in),
        };
        match product {
            Ok(v) => out.set(row, v),
            Err(e) => {
                proof {
                    assert(is_short_row(dtype, w@.len(), row_bytes as nat, row as nat, e));
                }
                return Err(e);
            },
        }
        proof {
            assert((row + 1) * row_bytes == row * row_bytes + row_bytes) by (nonlinear_arith);
        }
        row += 1;
    }
    Ok(())
}

} // verus!
