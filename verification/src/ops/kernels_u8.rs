//! Kernels on plain bytes, for devices that have them: one thread for each row, and
//! the weights are not packed into words.

use vstd::prelude::*;
use vstd::slice::slice_subrange;

use crate::ops::lanes::{kernel_row_bytes, DEQUANT_Q4_K, DEQUANT_Q6_K, DEQUANT_Q8_0};
use crate::quant::block::{accumulate_weights, accumulated, takes_in, Element};
use crate::quant::order::is_quarters_dot;
use crate::quant::{elements_of, q4_k, q6_k, q8_0};
use crate::types::GgmlType;

verus! {

/// The format of a kernel's dtype, where there is a kernel for it.
pub open spec fn kernel_format(dtype: u32) -> Option<GgmlType> {
    if dtype == DEQUANT_Q8_0 {
        Some(GgmlType::Q8_0)
    } else if dtype == DEQUANT_Q4_K {
        Some(GgmlType::Q4_K)
    } else if dtype == DEQUANT_Q6_K {
        Some(GgmlType::Q6_K)
    } else {
        None
    }
}

/// Whether `v` is the product of a row with `x` as the thread of the row computes it:
/// Q8_0 block by block, Q4_K value by value, and Q6_K by quarters.
pub open spec fn is_thread_product<
    A,
    W: Fn(A, i32, A) -> A,
    S: Fn(A, u16, A) -> A,
    F: Fn(A, Element, A) -> A,
>(
    format: GgmlType,
    data: Seq<u8>,
    x: Seq<A>,
    zero: A,
    within: W,
    scaled: S,
    take_in: F,
    v: A,
) -> bool {
    let values = elements_of(format, data, x.len());
    match format {
        GgmlType::Q8_0 => q8_0::is_dot(data, x, zero, within, scaled, v),
        GgmlType::Q6_K => is_quarters_dot(take_in, zero, values, x, v),
        _ => accumulated(take_in, zero, values, x, v),
    }
}

/// What the thread of one row does: `out[row] = sum_i dequant(w[row][i]) * x[i]`. A
/// thread past the last row does nothing, nor does one for a format without a
/// kernel.
pub fn matmul_dequant<
    A: Copy,
    W: Fn(A, i32, A) -> A,
    S: Fn(A, u16, A) -> A,
    F: Fn(A, Element, A) -> A,
>(
    w: &[u8],
    x: &[A],
    out: &mut Vec<A>,
    dtype: u32,
    row_bytes: usize,
    row: usize,
    zero: A,
    within: &W,
    scaled: &S,
    take_in: &F,
)
    requires
        row < old(out)@.len() && kernel_format(dtype) is Some ==> {
            &&& kernel_row_bytes(dtype, x@.len()) <= usize::MAX
            &&& row * row_bytes + kernel_row_bytes(dtype, x@.len()) <= w@.len()
        },
        takes_in(*within),
        takes_in(*scaled),
        takes_in(*take_in),
    ensures
        final(out)@.len() == old(out)@.len(),
        forall|k: int|
            0 <= k < old(out)@.len() && k != row ==> #[trigger] final(out)@[k] == old(out)@[k],
        row < old(out)@.len() ==> match kernel_format(dtype) {
            Some(format) => is_thread_product(
                format,
                w@.skip(row * row_bytes),
                x@,
                zero,
                *within,
                *scaled,
                *take_in,
                final(out)@[row as int],
            ),
            None => final(out)@[row as int] == old(out)@[row as int],
        },
{
    if row >= out.len() {
        return;
    }
    if dtype != DEQUANT_Q8_0 && dtype != DEQUANT_Q4_K && dtype != DEQUANT_Q6_K {
        return;
    }
    let len: usize = w.len();
    proof {
        assert(0 <= row * row_bytes) by (nonlinear_arith);
    }
    let w_base: usize = row * row_bytes;
    let row_data = slice_subrange(w, w_base, len);
    proof {
        assert(row_data@ =~= w@.skip(row * row_bytes));
    }
    let sum = if dtype == DEQUANT_Q8_0 {
        q8_0::dot_q8_0(row_data, x, zero, within, scaled)
    } else if dtype == DEQUANT_Q4_K {
        match q4_k::dequant_q4_k(row_data, x.len()) {
            Ok(weights) => Ok(accumulate_weights(zero, weights.as_slice(), x, take_in)),
            Err(e) => Err(e),
        }
    } else {
        q6_k::dot_q6_k(row_data, x, zero, take_in)
    };
    if let Ok(v) = sum {
        out.set(row, v);
    }
}

/// A kernel goes by the number that its format has in a file.
pub proof fn law_kernels_go_by_the_number_of_their_format(dtype: u32)
    ensures
        kernel_format(dtype) matches Some(t) ==> t.spec_id() == dtype,
        kernel_format(dtype) is Some <==> dtype == 8 || dtype == 12 || dtype == 14,
{
}

} // verus!
