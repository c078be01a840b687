//! How work is laid out for the GPU: grids, workgroups, and packed weights.

use vstd::prelude::*;

verus! {

/// The largest extent of a grid in one dimension.
pub const MAX_GRID: u32 = 65535;

/// Threads in a workgroup.
pub const THREADS: u32 = 64;

/// The grid of a matmul with `out_dim` rows, one workgroup for each row: as many
/// columns as a grid can have, and as many lines as that takes.
pub fn matmul_grid(out_dim: u32) -> (g: (u32, u32))
    requires
        0 < out_dim,
    ensures
        g.0 == if out_dim <= MAX_GRID {
            out_dim
        } else {
            MAX_GRID
        },
        g.0 * (g.1 - 1) < out_dim <= g.0 * g.1,
{
    let x: u32 = if out_dim <= MAX_GRID {
        out_dim
    } else {
        MAX_GRID
    };
    let y: u32 = ((out_dim as u64 + x as u64 - 1) / x as u64) as u32;
    proof {
        lemma_ceil(out_dim as int, x as int);
    }
    (x, y)
}

proof fn lemma_ceil(n: int, d: int)
    requires
        0 <= n <= u32::MAX,
        0 < d <= u32::MAX,
    ensures
        ({
            let q = (n + d - 1) / d;
            0 <= q <= n && d * (q - 1) < n <= d * q
        }),
{
    let q = (n + d - 1) / d;
    vstd::arithmetic::div_mod::lemma_fundamental_div_mod(n + d - 1, d);
    assert(d * (q - 1) == d * q - d) by (nonlinear_arith);
    assert(0 <= q <= n) by (nonlinear_arith)
        requires
            n + d - 1 == d * q + (n + d - 1) % d,
            0 <= (n + d - 1) % d < d,
            0 < d,
            0 <= n,
    ;
}

/// The workgroups that it takes to have a thread for each of `items`.
pub fn workgroups(items: u32) -> (n: u32)
    ensures
        THREADS * (n - 1) < items <= THREADS * n,
{
    proof {
        lemma_ceil(items as int, THREADS as int);
    }
    ((items as u64 + THREADS as u64 - 1) / THREADS as u64) as u32
}

/// The words that a row of `row_bytes` bytes takes.
pub open spec fn row_words(row_bytes: nat) -> nat {
    (row_bytes + 3) / 4
}

/// A byte of a row, or 0 past its end.
pub open spec fn byte_or_zero(w: Seq<u8>, start: int, row_bytes: int, i: int) -> u32 {
    if i < row_bytes {
        w[start + i] as u32
    } else {
        0
    }
}

/// The word of four bytes, the first the lowest.
pub open spec fn word(b0: u32, b1: u32, b2: u32, b3: u32) -> u32 {
    (b0 + 256 * b1 + 65536 * b2 + 16777216 * b3) as u32
}

/// Word `i` of row `row`, where rows have `row_bytes` bytes each.
pub open spec fn packed_word(w: Seq<u8>, row_bytes: int, row: int, i: int) -> u32 {
    let start = row * row_bytes;
    word(
        byte_or_zero(w, start, row_bytes, 4 * i),
        byte_or_zero(w, start, row_bytes, 4 * i + 1),
        byte_or_zero(w, start, row_bytes, 4 * i + 2),
        byte_or_zero(w, start, row_bytes, 4 * i + 3),
    )
}

/// Whether `packed` is a matrix of `out_dim` rows of `row_bytes` bytes each, packed
/// into rows of `words` words.
pub open spec fn is_packed(
    packed: Seq<u32>,
    w: Seq<u8>,
    row_bytes: int,
    out_dim: int,
    words: int,
) -> bool {
    &&& packed.len() == out_dim * words
    &&& forall|row: int, i: int|
        0 <= row < out_dim && 0 <= i < words ==> packed[#[trigger] (row * words + i)]
            == packed_word(w, row_bytes, row, i)
}

fn read_byte(w: &[u8], start: usize, left: usize, i: usize) -> (b: u32)
    requires
        start + left <= w@.len(),
    ensures
        b == byte_or_zero(w@, start as int, left as int, i as int),
        b < 256,
{
    let n: usize = w.len();
    if i < left {
        assert(start + i < n);
        w[start + i] as u32
    } else {
        0
    }
}

/// Word `i` of the row that starts at `start`.
fn read_word(w: &[u8], start: usize, row_bytes: usize, i: usize) -> (packed: u32)
    requires
        start + row_bytes <= w@.len(),
    ensures
        packed == word(
            byte_or_zero(w@, start as int, row_bytes as int, 4 * i),
            byte_or_zero(w@, start as int, row_bytes as int, 4 * i + 1),
            byte_or_zero(w@, start as int, row_bytes as int, 4 * i + 2),
            byte_or_zero(w@, start as int, row_bytes as int, 4 * i + 3),
        ),
{
    let n: usize = w.len();
    if i > row_bytes / 4 {
        return 0;
    }
    let at: usize = start + 4 * i;
    let left: usize = row_bytes - 4 * i;
    let b0: u32 = read_byte(w, at, left, 0);
    let b1: u32 = read_byte(w, at, left, 1);
    let b2: u32 = read_byte(w, at, left, 2);
    let b3: u32 = read_byte(w, at, left, 3);
    b0 + 256 * b1 + 65536 * b2 + 16777216 * b3
}

/// Pack raw quantized bytes into u32 words, 4 bytes per word (WGSL has no u8).
/// Every row takes `row_u32s` words; those past its bytes are zero.
pub fn pack_bytes_to_u32(
    w: &[u8],
    row_bytes: usize,
    out_dim: usize,
    row_u32s: usize,
) -> (packed: Vec<u32>)
    requires
        out_dim * row_bytes <= w@.len(),
        out_dim > 0 ==> row_words(row_bytes as nat) <= row_u32s,
        out_dim * row_u32s <= usize::MAX,
    ensures
        is_packed(packed@, w@, row_bytes as int, out_dim as int, row_u32s as int),
{
    let len: usize = w.len();
    let ghost words = row_u32s as int;
    let mut packed: Vec<u32> = Vec::new();
    let mut row: usize = 0;
    proof {
        assert(0 * words == 0);
    }
    while row < out_dim
        invariant
            row <= out_dim,
            out_dim * row_bytes <= w@.len(),
            len == w@.len(),
            row_u32s == words,
            packed@.len() == row * words,
            forall|r: int, i: int|
                0 <= r < row && 0 <= i < words ==> packed@[#[trigger] (r * words + i)]
                    == packed_word(w@, row_bytes as int, r, i),
        decreases out_dim - row,
    {
        proof {
            assert(row * row_bytes + row_bytes <= out_dim * row_bytes) by (nonlinear_arith)
                requires
                    row + 1 <= out_dim,
            ;
            assert(0 <= row * row_bytes) by (nonlinear_arith);
        }
        let start: usize = row * row_bytes;
        let mut i: usize = 0;
        while i < row_u32s
            invariant
                i <= row_u32s,
                row < out_dim,
                start == row * row_bytes,
                start + row_bytes <= w@.len(),
                row_u32s == words,
                packed@.len() == row * words + i,
                forall|r: int, k: int|
                    0 <= r < row && 0 <= k < words ==> packed@[#[trigger] (r * words + k)]
                        == packed_word(w@, row_bytes as int, r, k),
                forall|k: int|
                    0 <= k < i ==> packed@[#[trigger] (row * words + k)] == packed_word(
                        w@,
                        row_bytes as int,
                        row as int,
                        k,
                    ),
            decreases row_u32s - i,
        {
            let packed_value: u32 = read_word(w, start, row_bytes, i);
            proof {
                assert forall|r: int, k: int| 0 <= r < row && 0 <= k < words implies #[trigger] (r
                    * words + k) < row * words + i by {
                    assert(r * words + k < row * words + i) by (nonlinear_arith)
                        requires
                            r + 1 <= row,
                            0 <= k < words,
                            0 <= i,
                    ;
                }
            }
            packed.push(packed_value);
            i += 1;
        }
        proof {
            assert((row + 1) * words == row * words + words) by (nonlinear_arith);
        }
        row += 1;
    }
    packed
}

proof fn lemma_word_bytes(b0: u32, b1: u32, b2: u32, b3: u32)
    requires
        b0 < 256,
        b1 < 256,
        b2 < 256,
        b3 < 256,
    ensures
        word(b0, b1, b2, b3) as int % 256 == b0,
        (word(b0, b1, b2, b3) as int / 256) % 256 == b1,
        (word(b0, b1, b2, b3) as int / 65536) % 256 == b2,
        (word(b0, b1, b2, b3) as int / 16777216) % 256 == b3,
{
    let n = word(b0, b1, b2, b3) as int;
    assert(n == b0 + 256 * b1 + 65536 * b2 + 16777216 * b3);
    assert(n / 256 == b1 + 256 * b2 + 65536 * b3);
    assert(n / 65536 == b2 + 256 * b3);
    assert(n / 16777216 == b3);
}

/// Byte `j` of word `i` of a row is byte `4 * i + j` of that row.
pub proof fn law_packing_keeps_the_bytes(
    w: Seq<u8>,
    row_bytes: int,
    row: int,
    i: int,
    j: int,
)
    requires
        0 <= row,
        0 <= i,
        0 <= j < 4,
        4 * i + j < row_bytes,
        (row + 1) * row_bytes <= w.len(),
    ensures
        ({
            let packed = packed_word(w, row_bytes, row, i) as int;
            let shift: int = if j == 0 {
                1
            } else if j == 1 {
                256
            } else if j == 2 {
                65536
            } else {
                16777216
            };
            (packed / shift) % 256 == w[row * row_bytes + 4 * i + j]
        }),
{
    let start = row * row_bytes;
    lemma_word_bytes(
        byte_or_zero(w, start, row_bytes, 4 * i),
        byte_or_zero(w, start, row_bytes, 4 * i + 1),
        byte_or_zero(w, start, row_bytes, 4 * i + 2),
        byte_or_zero(w, start, row_bytes, 4 * i + 3),
    );
}

} // verus!
