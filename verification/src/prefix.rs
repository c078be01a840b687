//! Files that share their first bytes: what is left of a file that is cut short, and
//! what follows its header.

use vstd::prelude::*;

use crate::error::GgufError;
use crate::parser::{
    aligned, dimensions, entries, entry, file, number, number_at, scalar, scalars, string, tensor,
    tensors, value, width, Read,
};
use crate::types::{FileView, TensorView};

verus! {

/// Whether `short`, the outcome of reading at `pos` in the first `k` of `len` bytes, is
/// what the outcome `full` of reading in all of them leads to: the same where `full`
/// reads no further than `k`, and an early end where it does. A success on the first
/// bytes is a success on all of them.
spec fn follows<T>(full: Read<T>, short: Read<T>, pos: int, k: int, len: int) -> bool {
    &&& short is Ok ==> full == short
    &&& full matches Ok((_, q)) ==> pos <= q <= len && if q <= k {
        short == full
    } else {
        short matches Err(GgufError::UnexpectedEof(p)) && p <= k
    }
}

proof fn lemma_number_at(data: Seq<u8>, k: int, pos: int, n: nat)
    requires
        0 <= pos,
        pos + n <= k <= data.len(),
    ensures
        number_at(data.take(k), pos, n) == number_at(data, pos, n),
    decreases n,
{
    if n > 0 {
        lemma_number_at(data, k, pos + 1, (n - 1) as nat);
    }
}

proof fn lemma_number(data: Seq<u8>, k: int, pos: int, n: nat)
    requires
        0 <= pos <= k <= data.len() <= usize::MAX,
    ensures
        follows(number(data, pos, n), number(data.take(k), pos, n), pos, k, data.len() as int),
{
    if pos + n <= k {
        lemma_number_at(data, k, pos, n);
    }
}

proof fn lemma_string(data: Seq<u8>, k: int, pos: int)
    requires
        0 <= pos <= k <= data.len() <= usize::MAX,
    ensures
        follows(string(data, pos), string(data.take(k), pos), pos, k, data.len() as int),
{
    lemma_number(data, k, pos, 8);
    if let Ok((len, start)) = number(data.take(k), pos, 8) {
        if start + len <= k {
            assert(data.take(k).subrange(start, start + len) =~= data.subrange(
                start,
                start + len,
            ));
        }
    }
}

proof fn lemma_scalar(data: Seq<u8>, k: int, pos: int, id: u32)
    requires
        0 <= pos <= k <= data.len() <= usize::MAX,
    ensures
        follows(scalar(data, pos, id), scalar(data.take(k), pos, id), pos, k, data.len() as int),
{
    lemma_string(data, k, pos);
    lemma_number(data, k, pos, width(id));
}

proof fn lemma_scalars(data: Seq<u8>, k: int, pos: int, id: u32, count: nat)
    requires
        0 <= pos <= k <= data.len() <= usize::MAX,
    ensures
        follows(
            scalars(data, pos, id, count),
            scalars(data.take(k), pos, id, count),
            pos,
            k,
            data.len() as int,
        ),
    decreases count,
{
    if count > 0 {
        lemma_scalars(data, k, pos, id, (count - 1) as nat);
        if let Ok((_, p)) = scalars(data, pos, id, (count - 1) as nat) {
            if p <= k {
                lemma_scalar(data, k, p, id);
            } else {
                lemma_scalar(data, data.len() as int, p, id);
                assert(data.take(data.len() as int) =~= data);
            }
        }
    }
}

proof fn lemma_value(data: Seq<u8>, k: int, pos: int, id: u32)
    requires
        0 <= pos <= k <= data.len() <= usize::MAX,
    ensures
        follows(value(data, pos, id), value(data.take(k), pos, id), pos, k, data.len() as int),
{
    let len = data.len() as int;
    assert(data.take(len) =~= data);
    lemma_scalar(data, k, pos, id);
    lemma_number(data, k, pos, 4);
    if let Ok((elem, p)) = number(data, pos, 4) {
        lemma_number(data, len, p, 8);
        if p <= k {
            lemma_number(data, k, p, 8);
        }
        if let Ok((count, q)) = number(data, p, 8) {
            lemma_scalars(data, len, q, elem as u32, count);
            if q <= k {
                lemma_scalars(data, k, q, elem as u32, count);
            }
        }
    }
}

proof fn lemma_entry(data: Seq<u8>, k: int, pos: int)
    requires
        0 <= pos <= k <= data.len() <= usize::MAX,
    ensures
        follows(entry(data, pos), entry(data.take(k), pos), pos, k, data.len() as int),
{
    let len = data.len() as int;
    assert(data.take(len) =~= data);
    lemma_string(data, k, pos);
    if let Ok((_, p)) = string(data, pos) {
        lemma_number(data, len, p, 4);
        if p <= k {
            lemma_number(data, k, p, 4);
        }
        if let Ok((id, q)) = number(data, p, 4) {
            lemma_value(data, len, q, id as u32);
            if q <= k {
                lemma_value(data, k, q, id as u32);
            }
        }
    }
}

proof fn lemma_entries(data: Seq<u8>, k: int, pos: int, count: nat)
    requires
        0 <= pos <= k <= data.len() <= usize::MAX,
    ensures
        follows(
            entries(data, pos, count),
            entries(data.take(k), pos, count),
            pos,
            k,
            data.len() as int,
        ),
    decreases count,
{
    if count > 0 {
        let len = data.len() as int;
        assert(data.take(len) =~= data);
        lemma_entries(data, k, pos, (count - 1) as nat);
        if let Ok((_, p)) = entries(data, pos, (count - 1) as nat) {
            lemma_entry(data, len, p);
            if p <= k {
                lemma_entry(data, k, p);
            }
        }
    }
}

proof fn lemma_dimensions(data: Seq<u8>, k: int, pos: int, count: nat)
    requires
        0 <= pos <= k <= data.len() <= usize::MAX,
    ensures
        follows(
            dimensions(data, pos, count),
            dimensions(data.take(k), pos, count),
            pos,
            k,
            data.len() as int,
        ),
        dimensions(data, pos, count) matches Ok((dims, _)) ==> dims.len() == count,
    decreases count,
{
    if count > 0 {
        let len = data.len() as int;
        assert(data.take(len) =~= data);
        lemma_dimensions(data, k, pos, (count - 1) as nat);
        if let Ok((_, p)) = dimensions(data, pos, (count - 1) as nat) {
            lemma_number(data, len, p, 8);
            if p <= k {
                lemma_number(data, k, p, 8);
            }
        }
    }
}

/// Whether a description has as many dimensions as it says.
pub open spec fn dimensions_counted(t: TensorView) -> bool {
    t.dims.len() == t.n_dims
}

proof fn lemma_tensor(data: Seq<u8>, k: int, pos: int)
    requires
        0 <= pos <= k <= data.len() <= usize::MAX,
    ensures
        follows(tensor(data, pos), tensor(data.take(k), pos), pos, k, data.len() as int),
        tensor(data, pos) matches Ok((t, _)) ==> dimensions_counted(t),
{
    let len = data.len() as int;
    assert(data.take(len) =~= data);
    lemma_string(data, k, pos);
    if let Ok((_, p1)) = string(data, pos) {
        lemma_number(data, len, p1, 4);
        if p1 <= k {
            lemma_number(data, k, p1, 4);
        }
        reveal_with_fuel(number_at, 5);
        if let Ok((n_dims, p2)) = number(data, p1, 4) {
            lemma_dimensions(data, len, p2, n_dims);
            if p2 <= k {
                lemma_dimensions(data, k, p2, n_dims);
            }
            if let Ok((_, p3)) = dimensions(data, p2, n_dims) {
                lemma_number(data, len, p3, 4);
                if p3 + 4 <= len {
                    lemma_number(data, len, p3 + 4, 8);
                }
                if p3 <= k {
                    lemma_number(data, k, p3, 4);
                    if p3 + 4 <= k {
                        lemma_number(data, k, p3 + 4, 8);
                    }
                }
            }
        }
    }
}

proof fn lemma_tensors(data: Seq<u8>, k: int, pos: int, count: nat)
    requires
        0 <= pos <= k <= data.len() <= usize::MAX,
    ensures
        follows(
            tensors(data, pos, count),
            tensors(data.take(k), pos, count),
            pos,
            k,
            data.len() as int,
        ),
        tensors(data, pos, count) matches Ok((ts, _)) ==> ts.len() == count && forall|i: int|
            0 <= i < ts.len() ==> dimensions_counted(#[trigger] ts[i]),
    decreases count,
{
    if count > 0 {
        let len = data.len() as int;
        assert(data.take(len) =~= data);
        lemma_tensors(data, k, pos, (count - 1) as nat);
        if let Ok((_, p)) = tensors(data, pos, (count - 1) as nat) {
            lemma_tensor(data, len, p);
            if p <= k {
                lemma_tensor(data, k, p);
            }
        }
    }
}

proof fn lemma_entries_count(data: Seq<u8>, pos: int, count: nat)
    ensures
        entries(data, pos, count) matches Ok((m, _)) ==> m.dom().finite() && m.dom().len() <= count,
    decreases count,
{
    if count > 0 {
        lemma_entries_count(data, pos, (count - 1) as nat);
    }
}

/// Where the tensor descriptions of a file end, for a file that can be read.
spec fn header_end(data: Seq<u8>) -> int {
    let entries_end = entries(data, 24, number_at(data, 16, 8))->Ok_0.1;
    tensors(data, entries_end, number_at(data, 8, 8))->Ok_0.1
}

proof fn lemma_file(data: Seq<u8>, k: int)
    requires
        0 <= k <= data.len() <= isize::MAX,
    ensures
        file(data.take(k)) is Ok ==> file(data) == file(data.take(k)),
        file(data) matches Ok(g) ==> 24 <= header_end(data) <= data.len() && g.data_offset
            == aligned(header_end(data), 32) && if header_end(data) <= k {
            file(data.take(k)) == file(data)
        } else {
            file(data.take(k)) matches Err(GgufError::UnexpectedEof(p)) && p <= k
        },
{
    let len = data.len() as int;
    let short = data.take(k);
    assert(data.take(len) =~= data);
    if k >= 4 {
        assert(short.take(4) =~= data.take(4));
        lemma_number(data, k, 4, 4);
    }
    if k >= 8 {
        lemma_number(data, k, 8, 8);
    }
    if k >= 16 {
        lemma_number(data, k, 16, 8);
    }
    if len >= 24 {
        let tensor_count = number_at(data, 8, 8);
        let entry_count = number_at(data, 16, 8);
        lemma_entries(data, len, 24, entry_count);
        if k >= 24 {
            lemma_entries(data, k, 24, entry_count);
        }
        if let Ok((_, p)) = entries(data, 24, entry_count) {
            lemma_tensors(data, len, p, tensor_count);
            if p <= k {
                lemma_tensors(data, k, p, tensor_count);
            }
        }
    }
}

proof fn lemma_aligned(end: int)
    requires
        0 <= end <= isize::MAX,
    ensures
        aligned(end, 32) % 32 == 0,
        end <= aligned(end, 32) < end + 32,
{
}

/// A header that is cut short is refused as an early end: of a file that can be read
/// and whose tensor data start at `g.data_offset`, the first `k` bytes are too few where
/// they stop ahead of the padding before the tensor data. The position that the error
/// names lies within them.
pub proof fn law_a_cut_header_ends_early(data: Seq<u8>, g: FileView, k: int)
    requires
        data.len() <= isize::MAX,
        file(data) == Ok::<FileView, GgufError>(g),
        0 <= k,
        k + 32 <= g.data_offset,
    ensures
        file(data.take(k)) matches Err(GgufError::UnexpectedEof(p)) && p <= k,
{
    lemma_file(data, data.len() as int);
    lemma_aligned(header_end(data));
    lemma_file(data, k);
}

/// What follows the header changes nothing: more bytes behind a file that can be read
/// are ignored.
pub proof fn law_bytes_after_the_header_change_nothing(
    data: Seq<u8>,
    tail: Seq<u8>,
    g: FileView,
)
    requires
        (data + tail).len() <= isize::MAX,
        file(data) == Ok::<FileView, GgufError>(g),
    ensures
        file(data + tail) == Ok::<FileView, GgufError>(g),
{
    assert((data + tail).take(data.len() as int) =~= data);
    lemma_file(data + tail, data.len() as int);
}

/// The header alone decides what a file says: cut behind it, the file reads the same.
pub proof fn law_the_header_suffices(data: Seq<u8>, g: FileView, k: int)
    requires
        data.len() <= isize::MAX,
        file(data) == Ok::<FileView, GgufError>(g),
        g.data_offset <= k <= data.len(),
    ensures
        file(data.take(k)) == Ok::<FileView, GgufError>(g),
{
    lemma_file(data, k);
    lemma_aligned(header_end(data));
}

/// What holds of every file that can be read: its version is 2 or 3, it has as many
/// tensors as its header says and no more entries, each tensor has as many dimensions as
/// it says, and the tensor data start at a multiple of 32, behind the fixed part of the
/// header and at most 31 bytes behind the end of the bytes.
pub proof fn law_a_parsed_file_is_consistent(data: Seq<u8>, g: FileView)
    requires
        data.len() <= isize::MAX,
        file(data) == Ok::<FileView, GgufError>(g),
    ensures
        g.version == 2 || g.version == 3,
        g.version == number_at(data, 4, 4),
        g.tensor_count == number_at(data, 8, 8),
        g.tensors.len() == g.tensor_count,
        g.metadata.dom().finite(),
        g.metadata.dom().len() <= number_at(data, 16, 8),
        forall|i: int| 0 <= i < g.tensors.len() ==> dimensions_counted(#[trigger] g.tensors[i]),
        g.data_offset % 32 == 0,
        24 <= g.data_offset < data.len() + 32,
{
    let len = data.len() as int;
    lemma_file(data, len);
    lemma_aligned(header_end(data));
    assert(number_at(data, 8, 8) < 0x1_0000_0000_0000_0000) by {
        reveal_with_fuel(number_at, 9);
    }
    lemma_entries(data, len, 24, number_at(data, 16, 8));
    lemma_entries_count(data, 24, number_at(data, 16, 8));
    let entries_end = entries(data, 24, number_at(data, 16, 8))->Ok_0.1;
    lemma_tensors(data, len, entries_end, number_at(data, 8, 8));
}

} // verus!
