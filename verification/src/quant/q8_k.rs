//! Q8_K activation quantization.
//!
//! Not a weight format — this is the intermediate representation llama.cpp
//! quantizes the *activation* vector into before dotting it against a
//! K-quantized weight row: both operands become int8 and the dot product runs
//! as int8×int8→int32 accumulation, with the float scale applied once per
//! 256-element block instead of once per element. Quantizing the activation
//! costs `O(n)` once per matmul call and is shared by every output row.
//!
//! Block layout (256 elements per block), matching llama.cpp's `block_q8_K`:
//!
//!   struct block_q8_K {
//!       float   d;         // block scale
//!       int8_t  qs[256];   // quantized values
//!       int16_t bsums[16]; // sum of qs in each contiguous group of 16
//!   };
//!
//! Stored here as parallel arrays (`Q8KRow`) rather than an array of block
//! structs, since it's produced once per matmul and read by every row.

use vstd::prelude::*;

use crate::quant::block::{block_count, blocks_of};
use crate::single::{is_nan, magnitude, magnitude_of, not_a_number, ZERO};

verus! {

/// Elements of one block.
pub const QK_K: usize = 256;

/// A full activation vector quantized into Q8_K blocks.
#[derive(Debug)]
pub struct Q8KRow {
    /// Per-block scale (binary32, by its bits), length `ceil(n / 256)`.
    pub d: Vec<u32>,
    /// Quantized values, length `ceil(n / 256) * 256` (zero-padded past `n`).
    pub qs: Vec<i8>,
    /// Per-16-group sums of `qs`, length `ceil(n / 256) * 16`.
    pub bsums: Vec<i16>,
    /// Original (unpadded) vector length.
    pub n: usize,
}

/// Sum of `count` values from `start` on.
pub open spec fn group_sum(qs: Seq<i8>, start: int, count: nat) -> int
    decreases count,
{
    if count == 0 {
        0
    } else {
        group_sum(qs, start, (count - 1) as nat) + qs[start + count - 1]
    }
}

impl Q8KRow {
    /// The arrays have the lengths that go with the vector's length.
    pub open spec fn shaped(&self) -> bool {
        &&& self.d@.len() == blocks_of(self.n as nat, 256)
        &&& self.qs@.len() == 256 * self.d@.len()
        &&& self.bsums@.len() == 16 * self.d@.len()
    }

    /// The arrays belong together: each of the sums is that of its group.
    pub open spec fn wf(&self) -> bool {
        &&& self.shaped()
        &&& forall|g: int|
            0 <= g < self.bsums@.len() ==> #[trigger] self.bsums@[g] == group_sum(
                self.qs@,
                16 * g,
                16,
            )
    }

    /// How many blocks there are.
    pub fn n_blocks(&self) -> (n: usize)
        ensures
            n == self.d@.len(),
    {
        self.d.len()
    }
}

/// A rounded value as it is stored: at most 127, in the eight low bits.
pub open spec fn stored(v: i32) -> i8 {
    if v > 127 {
        127
    } else {
        v as i8
    }
}

fn sum_of_group(qs: &Vec<i8>, start: usize) -> (sum: i16)
    requires
        start + 16 <= qs@.len(),
    ensures
        sum == group_sum(qs@, start as int, 16),
{
    let n: usize = qs.len();
    let mut sum: i16 = 0;
    let mut i: usize = 0;
    while i < 16
        invariant
            i <= 16,
            n == qs@.len(),
            start + 16 <= n,
            sum == group_sum(qs@, start as int, i as nat),
            -128 * i <= sum <= 127 * i,
        decreases 16 - i,
    {
        sum = sum + qs[start + i] as i16;
        i += 1;
    }
    sum
}

/// Packs a quantized activation vector: the rounded quotients of its values by
/// their block's scale, and the scales. The blocks are filled up with zeros.
pub fn pack_row_q8_k(rounded: &[i32], d: Vec<u32>) -> (row: Q8KRow)
    requires
        d@.len() == blocks_of(rounded@.len(), 256),
        256 * d@.len() <= usize::MAX,
    ensures
        row.wf(),
        row.n == rounded@.len(),
        row.d@ == d@,
        forall|i: int|
            0 <= i < row.qs@.len() ==> #[trigger] row.qs@[i] == (if i < rounded@.len() {
                stored(rounded@[i])
            } else {
                0
            }),
{
    let n: usize = rounded.len();
    let n_blocks: usize = d.len();
    let mut qs: Vec<i8> = Vec::new();
    let mut i: usize = 0;
    while i < n_blocks * QK_K
        invariant
            i <= 256 * n_blocks <= usize::MAX,
            n == rounded@.len(),
            n <= 256 * n_blocks,
            qs@.len() == i,
            forall|j: int|
                0 <= j < i ==> #[trigger] qs@[j] == (if j < n {
                    stored(rounded@[j])
                } else {
                    0
                }),
        decreases 256 * n_blocks - i,
    {
        let v: i8 = if i < n {
            if rounded[i] > 127 {
                127
            } else {
                rounded[i] as i8
            }
        } else {
            0
        };
        qs.push(v);
        i += 1;
    }
    let mut bsums: Vec<i16> = Vec::new();
    let mut g: usize = 0;
    while g < n_blocks * 16
        invariant
            g <= 16 * n_blocks,
            256 * n_blocks <= usize::MAX,
            qs@.len() == 256 * n_blocks,
            bsums@.len() == g,
            forall|j: int| 0 <= j < g ==> #[trigger] bsums@[j] == group_sum(qs@, 16 * j, 16),
        decreases 16 * n_blocks - g,
    {
        bsums.push(sum_of_group(&qs, g * 16));
        g += 1;
    }
    Q8KRow { d, qs, bsums, n }
}

/// The first number of the largest magnitude, where there is one that is not zero.
pub open spec fn peak(xs: Seq<u32>) -> Option<u32>
    decreases xs.len(),
{
    if xs.len() == 0 {
        None
    } else {
        let v = xs.last();
        let best = peak(xs.drop_last());
        let height = match best {
            Some(m) => magnitude(m),
            None => 0,
        };
        if !is_nan(v) && magnitude(v) > height {
            Some(v)
        } else {
            best
        }
    }
}

/// The elements of block `b`.
pub open spec fn block_of(x: Seq<u32>, b: int) -> Seq<u32> {
    x.subrange(
        256 * b,
        if 256 * b + 256 <= x.len() {
            256 * b + 256
        } else {
            x.len() as int
        },
    )
}

/// Whether `d` and `qs` are the quantization of block `b`: by the largest
/// magnitude `m` in it, the inverse scale is `invert(m)`, the scale is the
/// reciprocal of that, and the values are those that `round` gives, at most 127.
/// A block of zeros has the scale zero.
pub open spec fn block_quantized<
    I: Fn(u32) -> u32,
    R: Fn(u32, u32) -> i32,
    C: Fn(u32) -> u32,
>(
    x: Seq<u32>,
    b: int,
    d: u32,
    qs: Seq<i8>,
    invert: I,
    round: R,
    reciprocal: C,
) -> bool {
    let block = block_of(x, b);
    match peak(block) {
        None => d == ZERO && forall|j: int|
            0 <= j < block.len() ==> #[trigger] qs[256 * b + j] == 0,
        Some(m) => exists|iscale: u32| #[trigger]
            invert.ensures((m,), iscale) && reciprocal.ensures((iscale,), d) && forall|j: int|
                0 <= j < block.len() ==> rounds_to(
                    round,
                    iscale,
                    block[j],
                    #[trigger] qs[256 * b + j],
                ),
    }
}

/// Whether a row is the quantized form of a vector: every block is, and what lies
/// past the vector's end is zero.
pub open spec fn is_quantized<I: Fn(u32) -> u32, R: Fn(u32, u32) -> i32, C: Fn(u32) -> u32>(
    x: Seq<u32>,
    row: Q8KRow,
    invert: I,
    round: R,
    reciprocal: C,
) -> bool {
    &&& row.wf()
    &&& row.n == x.len()
    &&& forall|b: int|
        0 <= b < row.d@.len() ==> block_quantized(
            x,
            b,
            #[trigger] row.d@[b],
            row.qs@,
            invert,
            round,
            reciprocal,
        )
    &&& forall|i: int| x.len() <= i < row.qs@.len() ==> #[trigger] row.qs@[i] == 0
}

/// Whether `q` is what is stored of the rounded product.
pub open spec fn rounds_to<R: Fn(u32, u32) -> i32>(round: R, iscale: u32, v: u32, q: i8) -> bool {
    exists|r: i32| #[trigger] round.ensures((iscale, v), r) && q == stored(r)
}

/// Finds the first number of the largest magnitude in a range.
pub(crate) fn find_peak(x: &[u32], from: usize, to: usize) -> (p: Option<u32>)
    requires
        from <= to <= x@.len(),
    ensures
        p == peak(x@.subrange(from as int, to as int)),
{
    let ghost block = x@.subrange(from as int, to as int);
    let mut best: Option<u32> = None;
    let mut height: u32 = 0;
    let mut i: usize = from;
    proof {
        assert(block.take(0).len() == 0);
    }
    while i < to
        invariant
            from <= i <= to <= x@.len(),
            block == x@.subrange(from as int, to as int),
            best == peak(block.take(i - from)),
            height == match best {
                Some(m) => magnitude(m),
                None => 0,
            },
        decreases to - i,
    {
        proof {
            assert(block.take(i - from + 1).drop_last() =~= block.take(i - from));
            assert(block.take(i - from + 1).last() == x@[i as int]);
        }
        let v: u32 = x[i];
        if !not_a_number(v) && magnitude_of(v) > height {
            best = Some(v);
            height = magnitude_of(v);
        }
        i += 1;
    }
    proof {
        assert(block.take(to - from) =~= block);
    }
    best
}

/// Quantizes an activation vector, given by the bits of its elements, into Q8_K
/// blocks: per-block scale keyed off the largest-magnitude (signed) element,
/// round-to-nearest, clamp to `i8::MAX` (no lower clamp — by construction the most
/// negative value rounds to exactly -127). `invert` is `-127 / m`, `round` the
/// rounded product, and `reciprocal` is `1 / iscale`.
pub fn quantize_row_q8_k<I: Fn(u32) -> u32, R: Fn(u32, u32) -> i32, C: Fn(u32) -> u32>(
    x: &[u32],
    invert: I,
    round: R,
    reciprocal: C,
) -> (row: Q8KRow)
    requires
        256 * blocks_of(x@.len(), 256) <= usize::MAX,
        forall|m: u32| #[trigger] invert.requires((m,)),
        forall|s: u32, v: u32| #[trigger] round.requires((s, v)),
        forall|s: u32| #[trigger] reciprocal.requires((s,)),
    ensures
        is_quantized(x@, row, invert, round, reciprocal),
{
    let n: usize = x.len();
    let n_blocks: usize = block_count(n, QK_K);
    let mut d: Vec<u32> = Vec::new();
    let mut rounded: Vec<i32> = Vec::new();
    let mut b: usize = 0;
    while b < n_blocks
        invariant
            b <= n_blocks,
            n == x@.len(),
            n_blocks == blocks_of(n as nat, 256),
            256 * n_blocks <= usize::MAX,
            forall|m: u32| #[trigger] invert.requires((m,)),
            forall|s: u32, v: u32| #[trigger] round.requires((s, v)),
            forall|s: u32| #[trigger] reciprocal.requires((s,)),
            d@.len() == b,
            rounded@.len() == if 256 * b <= n {
                256 * b
            } else {
                n as int
            },
            forall|c: int|
                0 <= c < b ==> block_rounded(
                    x@,
                    c,
                    #[trigger] d@[c],
                    rounded@,
                    invert,
                    round,
                    reciprocal,
                ),
        decreases n_blocks - b,
    {
        let start: usize = b * QK_K;
        let end: usize = if start + QK_K <= n {
            start + QK_K
        } else {
            n
        };
        let ghost before = rounded@;
        proof {
            assert(x@.subrange(start as int, end as int) =~= block_of(x@, b as int));
        }
        match find_peak(x, start, end) {
            None => {
                let mut j: usize = start;
                while j < end
                    invariant
                        start <= j <= end <= n,
                        rounded@.len() == j,
                        before.len() == start,
                        forall|k: int| 0 <= k < start ==> #[trigger] rounded@[k] == before[k],
                        forall|k: int| start <= k < j ==> #[trigger] rounded@[k] == 0,
                    decreases end - j,
                {
                    rounded.push(0);
                    j += 1;
                }
                d.push(ZERO);
                proof {
                    let block = block_of(x@, b as int);
                    assert forall|k: int| 0 <= k < block.len() implies #[trigger] rounded@[256 * b
                        + k] == 0 by {}
                    assert(block_rounded(
                        x@,
                        b as int,
                        ZERO,
                        rounded@,
                        invert,
                        round,
                        reciprocal,
                    ));
                }
            },
            Some(m) => {
                let iscale: u32 = invert(m);
                let mut j: usize = start;
                while j < end
                    invariant
                        start <= j <= end <= n,
                        n == x@.len(),
                        rounded@.len() == j,
                        before.len() == start,
                        forall|s: u32, v: u32| #[trigger] round.requires((s, v)),
                        forall|k: int| 0 <= k < start ==> #[trigger] rounded@[k] == before[k],
                        forall|k: int|
                            start <= k < j ==> round.ensures(
                                (iscale, x@[k]),
                                #[trigger] rounded@[k],
                            ),
                    decreases end - j,
                {
                    let r: i32 = round(iscale, x[j]);
                    rounded.push(r);
                    j += 1;
                }
                let scale: u32 = reciprocal(iscale);
                d.push(scale);
                proof {
                    let block = block_of(x@, b as int);
                    assert forall|k: int| 0 <= k < block.len() implies round.ensures(
                        (iscale, block[k]),
                        #[trigger] rounded@[256 * b + k],
                    ) by {
                        assert(block[k] == x@[start + k]);
                    }
                    assert(invert.ensures((m,), iscale));
                    assert(block_rounded(
                        x@,
                        b as int,
                        scale,
                        rounded@,
                        invert,
                        round,
                        reciprocal,
                    ));
                }
            },
        }
        proof {
            assert forall|c: int| 0 <= c < b implies block_rounded(
                x@,
                c,
                #[trigger] d@[c],
                rounded@,
                invert,
                round,
                reciprocal,
            ) by {
                lemma_earlier_block(x@, c, d@[c], before, rounded@, invert, round, reciprocal);
            }
        }
        b += 1;
    }
    let ghost scales = d@;
    let row = pack_row_q8_k(rounded.as_slice(), d);
    proof {
        assert forall|c: int| 0 <= c < row.d@.len() implies block_quantized(
            x@,
            c,
            #[trigger] row.d@[c],
            row.qs@,
            invert,
            round,
            reciprocal,
        ) by {
            assert(row.d@[c] == scales[c]);
            lemma_stored_block(x@, c, row.d@[c], rounded@, row.qs@, invert, round, reciprocal);
        }
    }
    row
}

/// As `block_quantized`, before the rounded values are stored.
spec fn block_rounded<I: Fn(u32) -> u32, R: Fn(u32, u32) -> i32, C: Fn(u32) -> u32>(
    x: Seq<u32>,
    b: int,
    d: u32,
    rounded: Seq<i32>,
    invert: I,
    round: R,
    reciprocal: C,
) -> bool {
    let block = block_of(x, b);
    &&& 256 * b + block.len() <= rounded.len()
    &&& match peak(block) {
        None => d == ZERO && forall|j: int|
            0 <= j < block.len() ==> #[trigger] rounded[256 * b + j] == 0,
        Some(m) => exists|iscale: u32| #[trigger]
            invert.ensures((m,), iscale) && reciprocal.ensures((iscale,), d) && forall|j: int|
                0 <= j < block.len() ==> round.ensures(
                    (iscale, block[j]),
                    #[trigger] rounded[256 * b + j],
                ),
    }
}

proof fn lemma_earlier_block<I: Fn(u32) -> u32, R: Fn(u32, u32) -> i32, C: Fn(u32) -> u32>(
    x: Seq<u32>,
    b: int,
    d: u32,
    before: Seq<i32>,
    after: Seq<i32>,
    invert: I,
    round: R,
    reciprocal: C,
)
    requires
        0 <= b,
        block_rounded(x, b, d, before, invert, round, reciprocal),
        before.len() <= after.len(),
        forall|k: int| 0 <= k < before.len() ==> #[trigger] after[k] == before[k],
    ensures
        block_rounded(x, b, d, after, invert, round, reciprocal),
{
    let block = block_of(x, b);
    match peak(block) {
        None => {
            assert forall|j: int| 0 <= j < block.len() implies #[trigger] after[256 * b + j]
                == 0 by {
                assert(before[256 * b + j] == 0);
            }
        },
        Some(m) => {
            let iscale = choose|iscale: u32| #[trigger]
                invert.ensures((m,), iscale) && reciprocal.ensures((iscale,), d) && forall|j: int|
                    0 <= j < block.len() ==> round.ensures(
                        (iscale, block[j]),
                        #[trigger] before[256 * b + j],
                    );
            assert forall|j: int| 0 <= j < block.len() implies round.ensures(
                (iscale, block[j]),
                #[trigger] after[256 * b + j],
            ) by {
                assert(round.ensures((iscale, block[j]), before[256 * b + j]));
            }
        },
    }
}

proof fn lemma_stored_block<I: Fn(u32) -> u32, R: Fn(u32, u32) -> i32, C: Fn(u32) -> u32>(
    x: Seq<u32>,
    b: int,
    d: u32,
    rounded: Seq<i32>,
    qs: Seq<i8>,
    invert: I,
    round: R,
    reciprocal: C,
)
    requires
        0 <= b,
        block_rounded(x, b, d, rounded, invert, round, reciprocal),
        rounded.len() <= qs.len(),
        forall|i: int| 0 <= i < rounded.len() ==> #[trigger] qs[i] == stored(rounded[i]),
    ensures
        block_quantized(x, b, d, qs, invert, round, reciprocal),
{
    let block = block_of(x, b);
    match peak(block) {
        None => {
            assert forall|j: int| 0 <= j < block.len() implies #[trigger] qs[256 * b + j] == 0 by {
                assert(rounded[256 * b + j] == 0);
            }
        },
        Some(m) => {
            let iscale = choose|iscale: u32| #[trigger]
                invert.ensures((m,), iscale) && reciprocal.ensures((iscale,), d) && forall|j: int|
                    0 <= j < block.len() ==> round.ensures(
                        (iscale, block[j]),
                        #[trigger] rounded[256 * b + j],
                    );
            assert forall|j: int| 0 <= j < block.len() implies rounds_to(
                round,
                iscale,
                block[j],
                #[trigger] qs[256 * b + j],
            ) by {
                let r = rounded[256 * b + j];
                assert(round.ensures((iscale, block[j]), r));
            }
        },
    }
}

/// The peak of numbers is one of them, and no other one has a larger magnitude; where there
/// is none, all of them are zero or not a number.
pub proof fn law_the_peak_has_the_largest_magnitude(xs: Seq<u32>, i: int)
    requires
        0 <= i < xs.len(),
    ensures
        match peak(xs) {
            Some(p) => {
                &&& xs.contains(p)
                &&& !is_nan(p) && magnitude(p) > 0
                &&& !is_nan(xs[i]) ==> magnitude(xs[i]) <= magnitude(p)
            },
            None => is_nan(xs[i]) || magnitude(xs[i]) == 0,
        },
    decreases xs.len(),
{
    let front = xs.drop_last();
    let last = xs.len() - 1;
    if front.len() > 0 {
        law_the_peak_has_the_largest_magnitude(
            front,
            if i < last {
                i
            } else {
                0
            },
        );
    }
    if let Some(p) = peak(front) {
        if peak(xs) == Some(p) {
            let k = front.index_of(p);
            assert(xs[k] == p);
        }
    }
    if peak(xs) == Some(xs.last()) {
        assert(xs[last] == xs.last());
    }
}

/// A quantized value is the rounded one, but at most 127.
pub proof fn law_stored_values_are_at_most_127(v: i32)
    requires
        v >= -128,
    ensures
        v <= 127 ==> stored(v) == v,
        v > 127 ==> stored(v) == 127,
{
}

} // verus!
