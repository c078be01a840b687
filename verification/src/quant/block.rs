//! What quantized blocks are made of: half-precision scales, packed bits, and
//! the whole numbers that a weight is computed from.

use vstd::prelude::*;
use vstd::string::*;

use crate::error::{GgufError, Result};
use crate::parser::number_at;
use crate::text::{decimal, push_decimal};

verus! {

/// A weight as it is stored: the value is
/// `(d · scale) · quant − dmin · min`, where `d` and `dmin` are half-precision
/// (binary16) numbers given by their bits.
#[derive(Debug, Clone, Copy, PartialEq, Eq, Structural)]
pub struct Weight {
    pub d: u16,
    pub dmin: u16,
    pub scale: i32,
    pub min: i32,
    pub quant: i32,
}

/// A value of a row as it is stored.
#[derive(Debug, Clone, Copy, PartialEq, Eq, Structural)]
pub enum Element {
    /// A single-precision (binary32) value, by its bits.
    Single(u32),
    /// A half-precision (binary16) value, by its bits.
    Half(u16),
    /// A quantized weight.
    Quantized(Weight),
}

/// The weights of a row, each as a value of it.
pub open spec fn quantized_elements(weights: Seq<Weight>) -> Seq<Element> {
    Seq::new(weights.len(), |i: int| Element::Quantized(weights[i]))
}

/// Whether `total` comes from `start` by taking in the pairs of a value and what
/// it is multiplied with, one after the other.
pub open spec fn accumulated<A, E, X, F: Fn(A, E, X) -> A>(
    take_in: F,
    start: A,
    values: Seq<E>,
    x: Seq<X>,
    total: A,
) -> bool
    decreases values.len(),
{
    if values.len() == 0 {
        total == start
    } else {
        exists|before: A|
            accumulated(take_in, start, values.drop_last(), x.drop_last(), before)
                && #[trigger] take_in.ensures((before, values.last(), x.last()), total)
    }
}

/// Whether `take_in` can be applied to every triple of values.
pub open spec fn takes_in<A, E, X, F: Fn(A, E, X) -> A>(take_in: F) -> bool {
    forall|a: A, e: E, x: X| #[trigger] take_in.requires((a, e, x))
}

pub(crate) proof fn lemma_accumulated_next<A, E, X, F: Fn(A, E, X) -> A>(
    take_in: F,
    start: A,
    values: Seq<E>,
    x: Seq<X>,
    i: int,
    before: A,
    total: A,
)
    requires
        0 <= i < values.len(),
        i < x.len(),
        accumulated(take_in, start, values.take(i), x.take(i), before),
        take_in.ensures((before, values[i], x[i]), total),
    ensures
        accumulated(take_in, start, values.take(i + 1), x.take(i + 1), total),
{
    assert(values.take(i + 1).drop_last() =~= values.take(i));
    assert(x.take(i + 1).drop_last() =~= x.take(i));
    assert(values.take(i + 1).last() == values[i]);
    assert(x.take(i + 1).last() == x[i]);
}

/// Takes values and what they are multiplied with into `start`, one pair after the
/// other.
pub(crate) fn accumulate<A: Copy, E: Copy, X: Copy, F: Fn(A, E, X) -> A>(
    start: A,
    values: &[E],
    x: &[X],
    take_in: &F,
) -> (total: A)
    requires
        values@.len() == x@.len(),
        takes_in(*take_in),
    ensures
        accumulated(*take_in, start, values@, x@, total),
{
    let n: usize = values.len();
    let mut acc: A = start;
    let mut i: usize = 0;
    while i < n
        invariant
            i <= n,
            n == values@.len(),
            n == x@.len(),
            takes_in(*take_in),
            accumulated(*take_in, start, values@.take(i as int), x@.take(i as int), acc),
        decreases n - i,
    {
        let ghost before = acc;
        acc = take_in(acc, values[i], x[i]);
        proof {
            lemma_accumulated_next(*take_in, start, values@, x@, i as int, before, acc);
        }
        i += 1;
    }
    proof {
        assert(values@.take(n as int) =~= values@);
        assert(x@.take(n as int) =~= x@);
    }
    acc
}

/// Takes the weights of a row and what they are multiplied with into `start`, one
/// pair after the other.
pub(crate) fn accumulate_weights<A: Copy, F: Fn(A, Element, A) -> A>(
    start: A,
    weights: &[Weight],
    x: &[A],
    take_in: &F,
) -> (total: A)
    requires
        weights@.len() == x@.len(),
        takes_in(*take_in),
    ensures
        accumulated(*take_in, start, quantized_elements(weights@), x@, total),
{
    let n: usize = weights.len();
    let ghost values = quantized_elements(weights@);
    let mut acc: A = start;
    let mut i: usize = 0;
    proof {
        assert(values.take(0).len() == 0);
    }
    while i < n
        invariant
            i <= n,
            n == weights@.len(),
            n == x@.len(),
            takes_in(*take_in),
            values == quantized_elements(weights@),
            accumulated(*take_in, start, values.take(i as int), x@.take(i as int), acc),
        decreases n - i,
    {
        let ghost before = acc;
        acc = take_in(acc, Element::Quantized(weights[i]), x[i]);
        proof {
            lemma_accumulated_next(*take_in, start, values, x@, i as int, before, acc);
        }
        i += 1;
    }
    proof {
        assert(values.take(n as int) =~= values);
        assert(x@.take(n as int) =~= x@);
    }
    acc
}

/// A byte as a signed number.
pub open spec fn signed_byte(b: u8) -> int {
    if b < 128 {
        b as int
    } else {
        b - 256
    }
}

pub(crate) fn signed_of(b: u8) -> (r: i32)
    ensures
        r == signed_byte(b),
{
    if b < 128 {
        b as i32
    } else {
        b as i32 - 256
    }
}

/// The low four bits of a byte.
pub open spec fn low_nibble(b: u8) -> int {
    (b & 0x0F) as int
}

/// The high four bits of a byte.
pub open spec fn high_nibble(b: u8) -> int {
    (b >> 4) as int
}

/// Bit `k` of a byte.
pub open spec fn bit(b: u8, k: int) -> int {
    ((b >> (k as u8)) & 1) as int
}

/// The pair of bits of a byte that begins at bit `k`.
pub open spec fn bit_pair(b: u8, k: int) -> int {
    ((b >> (k as u8)) & 3) as int
}

pub(crate) proof fn lemma_bit_ranges(b: u8, k: u8)
    ensures
        0 <= low_nibble(b) < 16,
        0 <= high_nibble(b) < 16,
        0 <= bit(b, k as int) < 2,
        0 <= bit_pair(b, k as int) < 4,
{
    assert((b & 0x0F) < 16) by (bit_vector);
    assert((b >> 4) < 16) by (bit_vector);
    assert(((b >> k) & 1) < 2) by (bit_vector);
    assert(((b >> k) & 3) < 4) by (bit_vector);
}

/// The binary16 number at `pos`, by its bits.
pub open spec fn half_at(data: Seq<u8>, pos: int) -> u16 {
    number_at(data, pos, 2) as u16
}

/// A half-precision number keeps its bits where what stands before it is left out.
pub(crate) proof fn lemma_half_shifts(data: Seq<u8>, start: int, pos: int)
    requires
        0 <= start,
        0 <= pos,
        start + pos + 2 <= data.len(),
    ensures
        half_at(data.skip(start), pos) == half_at(data, start + pos),
{
    reveal_with_fuel(number_at, 3);
}

/// Reads the binary16 number at `pos`.
pub(crate) fn read_half(data: &[u8], pos: usize) -> (bits: u16)
    requires
        pos + 2 <= data@.len(),
    ensures
        bits == half_at(data@, pos as int),
        bits == number_at(data@, pos as int, 2),
{
    proof {
        reveal_with_fuel(number_at, 3);
    }
    data[pos] as u16 + 0x100 * data[pos + 1] as u16
}

/// The message for data that is shorter than the blocks of a row.
pub open spec fn too_short(what: Seq<char>, needed: nat, have: nat) -> Seq<char> {
    what + ": need "@ + decimal(needed) + " bytes, have "@ + decimal(have)
}

/// Checks that data holds the bytes needed. `what` names the operation in the
/// error.
pub fn check_length(what: &str, needed: usize, have: usize) -> (r: Result<()>)
    ensures
        r is Ok <==> needed <= have,
        r matches Err(e) ==> e.is_backend(too_short(what@, needed as nat, have as nat)),
{
    if have < needed {
        let mut s = what.to_owned();
        s.append(": need ");
        push_decimal(&mut s, needed as u64);
        s.append(" bytes, have ");
        push_decimal(&mut s, have as u64);
        return Err(GgufError::BackendError(s));
    }
    Ok(())
}

/// The number of blocks of `size` elements that `n` elements take.
pub open spec fn blocks_of(n: nat, size: nat) -> nat {
    ((n + size - 1) / size as int) as nat
}

/// The number of blocks of `size` elements that `n` elements take.
pub(crate) fn block_count(n: usize, size: usize) -> (r: usize)
    requires
        size > 1,
    ensures
        r == blocks_of(n as nat, size as nat),
{
    let whole: usize = n / size;
    let rest: usize = n % size;
    proof {
        vstd::arithmetic::div_mod::lemma_fundamental_div_mod(n as int, size as int);
        let up = n + size - 1;
        let s = size as int;
        if rest == 0 {
            assert(up == s * (whole as int) + (s - 1));
            vstd::arithmetic::div_mod::lemma_fundamental_div_mod_converse(
                up,
                s,
                whole as int,
                s - 1,
            );
        } else {
            assert(s * (whole + 1) == s * (whole as int) + s) by (nonlinear_arith);
            vstd::arithmetic::div_mod::lemma_fundamental_div_mod_converse(
                up,
                s,
                whole + 1,
                rest - 1,
            );
            assert(whole + 1 <= usize::MAX) by (nonlinear_arith)
                requires
                    n == s * (whole as int) + rest,
                    s == size,
                    size > 1,
                    rest > 0,
                    n <= usize::MAX,
            ;
        }
    }
    if rest == 0 {
        whole
    } else {
        whole + 1
    }
}

} // verus!
