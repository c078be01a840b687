//! Arithmetic on single-precision numbers, which are held by their bits.
//!
//! The library decides what is computed from what, and in which order. The single
//! calculations are made by a calculator that is handed in.

use vstd::prelude::*;

use crate::model::llama::kernels::folded;
use crate::quant::block::{accumulated, Element, Weight};
use crate::quant::q5_k::BlockDot;
use crate::single::{is_less, less, NEG_INFINITY, ONE, ZERO};
use crate::types::FloatBits;

verus! {

/// The bits of 2.0.
pub const TWO: u32 = 0x4000_0000;

/// The bits of 20.0.
pub const TWENTY: u32 = 0x41A0_0000;

/// The bits of 127.0.
pub const LARGEST_QUANT: u32 = 0x42FE_0000;

/// The bits of -127.0.
pub const SMALLEST_QUANT: u32 = 0xC2FE_0000;

/// One calculation on single-precision numbers.
#[derive(Debug, Clone, Copy, PartialEq, Eq, Structural)]
pub enum Calc {
    Add(u32, u32),
    Sub(u32, u32),
    Mul(u32, u32),
    Div(u32, u32),
    /// The larger one of two numbers.
    Max(u32, u32),
    /// A power of a number.
    Pow(u32, u32),
    Neg(u32),
    Sqrt(u32),
    Exp(u32),
    /// The natural logarithm.
    Ln(u32),
    Sin(u32),
    Cos(u32),
    /// A whole number.
    OfInt(i32),
    /// A count.
    OfCount(usize),
    /// A half-precision number, given by its bits.
    OfHalf(u16),
    /// A double-precision number, given by its bits.
    OfDouble(u64),
    /// A number rounded to half precision: the result is the bits of that.
    ToHalf(u32),
    /// A number rounded to a whole number: the result is that, as an `i32`, by its
    /// bits.
    Round(u32),
}

/// What a calculator makes of calculations.
pub type Math = spec_fn(Calc) -> u32;

/// What `calc` makes of calculations.
pub open spec fn math<F: Fn(Calc) -> u32>(calc: F) -> Math {
    |c: Calc| choose|r: u32| calc.ensures((c,), r)
}

/// Whether `calc` makes every calculation, and always with the same result.
pub open spec fn computes<F: Fn(Calc) -> u32>(calc: F) -> bool {
    &&& forall|c: Calc| #[trigger] calc.requires((c,))
    &&& forall|c: Calc, r: u32, s: u32| #[trigger]
        calc.ensures((c,), r) && #[trigger] calc.ensures((c,), s) ==> r == s
}

/// Makes a calculation.
pub fn make<F: Fn(Calc) -> u32>(calc: &F, c: Calc) -> (r: u32)
    requires
        computes(*calc),
    ensures
        r == math(*calc)(c),
{
    let r: u32 = calc(c);
    proof {
        let s = choose|r: u32| calc.ensures((c,), r);
        assert(calc.ensures((c,), r));
        assert(calc.ensures((c,), s));
    }
    r
}

// ── Sums ────────────────────────────────────────────────────────────────────

/// What comes from `start` by taking in the pairs of two sequences, one after the
/// other.
pub open spec fn fold2<A, B>(
    f: spec_fn(u32, A, B) -> u32,
    start: u32,
    a: Seq<A>,
    b: Seq<B>,
) -> u32
    decreases a.len(),
{
    if a.len() == 0 {
        start
    } else {
        f(fold2(f, start, a.drop_last(), b.drop_last()), a.last(), b.last())
    }
}

pub(crate) proof fn lemma_accumulated_is_fold<E, X, F: Fn(u32, E, X) -> u32>(
    take_in: F,
    f: spec_fn(u32, E, X) -> u32,
    start: u32,
    values: Seq<E>,
    x: Seq<X>,
    total: u32,
)
    requires
        accumulated(take_in, start, values, x, total),
        forall|a: u32, e: E, y: X, r: u32| #[trigger]
            take_in.ensures((a, e, y), r) ==> r == f(a, e, y),
    ensures
        total == fold2(f, start, values, x),
    decreases values.len(),
{
    if values.len() > 0 {
        let before = choose|before: u32|
            accumulated(take_in, start, values.drop_last(), x.drop_last(), before)
                && #[trigger] take_in.ensures((before, values.last(), x.last()), total);
        lemma_accumulated_is_fold(
            take_in,
            f,
            start,
            values.drop_last(),
            x.drop_last(),
            before,
        );
    }
}

pub(crate) proof fn lemma_folded_is_fold<F: Fn(u32, u32, u32) -> u32>(
    take_in: F,
    f: spec_fn(u32, u32, u32) -> u32,
    start: u32,
    a: Seq<u32>,
    b: Seq<u32>,
    total: u32,
)
    requires
        folded(take_in, start, a, b, total),
        forall|s: u32, x: u32, y: u32, r: u32| #[trigger]
            take_in.ensures((s, x, y), r) ==> r == f(s, x, y),
    ensures
        total == fold2(f, start, a, b),
    decreases a.len(),
{
    if a.len() > 0 {
        let before = choose|before: u32|
            folded(take_in, start, a.drop_last(), b.drop_last(), before)
                && #[trigger] take_in.ensures((before, a.last(), b.last()), total);
        lemma_folded_is_fold(take_in, f, start, a.drop_last(), b.drop_last(), before);
    }
}

/// `acc + a * b`.
pub open spec fn multiply_add(m: Math, acc: u32, a: u32, b: u32) -> u32 {
    m(Calc::Add(acc, m(Calc::Mul(a, b))))
}

/// Taking products into a sum.
pub open spec fn products(m: Math) -> spec_fn(u32, u32, u32) -> u32 {
    |acc: u32, a: u32, b: u32| multiply_add(m, acc, a, b)
}

/// The sum of the products of two vectors.
pub open spec fn dot(m: Math, a: Seq<u32>, b: Seq<u32>) -> u32 {
    fold2(products(m), ZERO, a, b)
}

/// The sum of numbers.
pub open spec fn sum(m: Math, s: Seq<u32>) -> u32
    decreases s.len(),
{
    if s.len() == 0 {
        ZERO
    } else {
        m(Calc::Add(sum(m, s.drop_last()), s.last()))
    }
}

/// The largest one of numbers.
pub open spec fn largest(m: Math, s: Seq<u32>) -> u32
    decreases s.len(),
{
    if s.len() == 0 {
        NEG_INFINITY
    } else {
        m(Calc::Max(largest(m, s.drop_last()), s.last()))
    }
}

/// `acc + a * b`.
pub fn make_multiply_add<F: Fn(Calc) -> u32>(calc: &F, acc: u32, a: u32, b: u32) -> (r: u32)
    requires
        computes(*calc),
    ensures
        r == multiply_add(math(*calc), acc, a, b),
{
    let p: u32 = make(calc, Calc::Mul(a, b));
    make(calc, Calc::Add(acc, p))
}

/// The sum of the products of two vectors.
pub fn make_dot<F: Fn(Calc) -> u32>(calc: &F, a: &[u32], b: &[u32]) -> (r: u32)
    requires
        computes(*calc),
        a@.len() == b@.len(),
    ensures
        r == dot(math(*calc), a@, b@),
{
    let mut acc: u32 = ZERO;
    let mut i: usize = 0;
    while i < a.len()
        invariant
            i <= a@.len(),
            a@.len() == b@.len(),
            computes(*calc),
            acc == dot(math(*calc), a@.take(i as int), b@.take(i as int)),
        decreases a@.len() - i,
    {
        acc = make_multiply_add(calc, acc, a[i], b[i]);
        proof {
            assert(a@.take(i + 1).drop_last() =~= a@.take(i as int));
            assert(b@.take(i + 1).drop_last() =~= b@.take(i as int));
        }
        i += 1;
    }
    proof {
        assert(a@.take(i as int) =~= a@);
        assert(b@.take(i as int) =~= b@);
    }
    acc
}

/// The sum of numbers.
pub fn make_sum<F: Fn(Calc) -> u32>(calc: &F, s: &[u32]) -> (r: u32)
    requires
        computes(*calc),
    ensures
        r == sum(math(*calc), s@),
{
    let mut acc: u32 = ZERO;
    let mut i: usize = 0;
    while i < s.len()
        invariant
            i <= s@.len(),
            computes(*calc),
            acc == sum(math(*calc), s@.take(i as int)),
        decreases s@.len() - i,
    {
        acc = make(calc, Calc::Add(acc, s[i]));
        proof {
            assert(s@.take(i + 1).drop_last() =~= s@.take(i as int));
        }
        i += 1;
    }
    proof {
        assert(s@.take(i as int) =~= s@);
    }
    acc
}

/// The largest one of numbers.
pub fn make_largest<F: Fn(Calc) -> u32>(calc: &F, s: &[u32]) -> (r: u32)
    requires
        computes(*calc),
    ensures
        r == largest(math(*calc), s@),
{
    let mut acc: u32 = NEG_INFINITY;
    let mut i: usize = 0;
    while i < s.len()
        invariant
            i <= s@.len(),
            computes(*calc),
            acc == largest(math(*calc), s@.take(i as int)),
        decreases s@.len() - i,
    {
        acc = make(calc, Calc::Max(acc, s[i]));
        proof {
            assert(s@.take(i + 1).drop_last() =~= s@.take(i as int));
        }
        i += 1;
    }
    proof {
        assert(s@.take(i as int) =~= s@);
    }
    acc
}

// ── Norms ───────────────────────────────────────────────────────────────────

/// The root of the mean square, with `eps` under the root.
pub open spec fn rms(m: Math, eps: u32, x: Seq<u32>) -> u32 {
    m(
        Calc::Sqrt(
            m(Calc::Add(m(Calc::Div(dot(m, x, x), m(Calc::OfCount(x.len() as usize)))), eps)),
        ),
    )
}

/// The root of the sum of squares, with `eps` under the root.
pub open spec fn l2(m: Math, eps: u32, x: Seq<u32>) -> u32 {
    m(Calc::Sqrt(m(Calc::Add(dot(m, x, x), eps))))
}

/// A number with a weight, over a norm: `w * v / norm`.
pub open spec fn weighted(m: Math, w: u32, v: u32, norm: u32) -> u32 {
    m(Calc::Div(m(Calc::Mul(w, v)), norm))
}

/// The root of the mean square, with `eps` under the root.
pub fn make_rms<F: Fn(Calc) -> u32>(calc: &F, eps: u32, x: &[u32]) -> (r: u32)
    requires
        computes(*calc),
    ensures
        r == rms(math(*calc), eps, x@),
{
    let squares: u32 = make_dot(calc, x, x);
    let count: u32 = make(calc, Calc::OfCount(x.len()));
    let mean: u32 = make(calc, Calc::Div(squares, count));
    let padded: u32 = make(calc, Calc::Add(mean, eps));
    make(calc, Calc::Sqrt(padded))
}

/// The root of the sum of squares, with `eps` under the root.
pub fn make_l2<F: Fn(Calc) -> u32>(calc: &F, eps: u32, x: &[u32]) -> (r: u32)
    requires
        computes(*calc),
    ensures
        r == l2(math(*calc), eps, x@),
{
    let squares: u32 = make_dot(calc, x, x);
    let padded: u32 = make(calc, Calc::Add(squares, eps));
    make(calc, Calc::Sqrt(padded))
}

/// A number with a weight, over a norm: `w * v / norm`.
pub fn make_weighted<F: Fn(Calc) -> u32>(calc: &F, w: u32, v: u32, norm: u32) -> (r: u32)
    requires
        computes(*calc),
    ensures
        r == weighted(math(*calc), w, v, norm),
{
    let p: u32 = make(calc, Calc::Mul(w, v));
    make(calc, Calc::Div(p, norm))
}

// ── Activations ─────────────────────────────────────────────────────────────

/// `1 + exp(-x)`.
pub open spec fn logistic_denominator(m: Math, x: u32) -> u32 {
    m(Calc::Add(ONE, m(Calc::Exp(m(Calc::Neg(x))))))
}

/// The logistic function.
pub open spec fn sigmoid(m: Math, x: u32) -> u32 {
    m(Calc::Div(ONE, logistic_denominator(m, x)))
}

/// The sigmoid-weighted linear unit.
pub open spec fn silu(m: Math, x: u32) -> u32 {
    m(Calc::Div(x, logistic_denominator(m, x)))
}

/// `ln(1 + exp(x))`, which is all but `x` where `x` is large.
pub open spec fn softplus(m: Math, x: u32) -> u32 {
    if less(TWENTY, x) {
        x
    } else {
        m(Calc::Ln(m(Calc::Add(ONE, m(Calc::Exp(x))))))
    }
}

/// The decay of a Gated DeltaNet head.
pub open spec fn decay(m: Math, alpha: u32, bias: u32, a: u32) -> u32 {
    m(Calc::Exp(m(Calc::Mul(a, softplus(m, m(Calc::Add(alpha, bias)))))))
}

pub fn make_logistic_denominator<F: Fn(Calc) -> u32>(calc: &F, x: u32) -> (r: u32)
    requires
        computes(*calc),
    ensures
        r == logistic_denominator(math(*calc), x),
{
    let minus: u32 = make(calc, Calc::Neg(x));
    let e: u32 = make(calc, Calc::Exp(minus));
    make(calc, Calc::Add(ONE, e))
}

/// The logistic function.
pub fn make_sigmoid<F: Fn(Calc) -> u32>(calc: &F, x: u32) -> (r: u32)
    requires
        computes(*calc),
    ensures
        r == sigmoid(math(*calc), x),
{
    let d: u32 = make_logistic_denominator(calc, x);
    make(calc, Calc::Div(ONE, d))
}

/// The sigmoid-weighted linear unit.
pub fn make_silu<F: Fn(Calc) -> u32>(calc: &F, x: u32) -> (r: u32)
    requires
        computes(*calc),
    ensures
        r == silu(math(*calc), x),
{
    let d: u32 = make_logistic_denominator(calc, x);
    make(calc, Calc::Div(x, d))
}

/// `ln(1 + exp(x))`, which is all but `x` where `x` is large.
pub fn make_softplus<F: Fn(Calc) -> u32>(calc: &F, x: u32) -> (r: u32)
    requires
        computes(*calc),
    ensures
        r == softplus(math(*calc), x),
{
    if is_less(TWENTY, x) {
        x
    } else {
        let e: u32 = make(calc, Calc::Exp(x));
        let d: u32 = make(calc, Calc::Add(ONE, e));
        make(calc, Calc::Ln(d))
    }
}

/// The decay of a Gated DeltaNet head.
pub fn make_decay<F: Fn(Calc) -> u32>(calc: &F, alpha: u32, bias: u32, a: u32) -> (r: u32)
    requires
        computes(*calc),
    ensures
        r == decay(math(*calc), alpha, bias, a),
{
    let x: u32 = make(calc, Calc::Add(alpha, bias));
    let s: u32 = make_softplus(calc, x);
    let p: u32 = make(calc, Calc::Mul(a, s));
    make(calc, Calc::Exp(p))
}

// ── Attention ───────────────────────────────────────────────────────────────

/// The score of a key for a query: their product over the root of their length.
pub open spec fn score(m: Math, q: Seq<u32>, k: Seq<u32>) -> u32 {
    m(Calc::Div(dot(m, q, k), m(Calc::Sqrt(m(Calc::OfCount(q.len() as usize))))))
}

/// `exp(s - top)`.
pub open spec fn raised(m: Math, s: u32, top: u32) -> u32 {
    m(Calc::Exp(m(Calc::Sub(s, top))))
}

/// The weights that scores give.
pub open spec fn softmax(m: Math, scores: Seq<u32>) -> Seq<u32> {
    let up = Seq::new(scores.len(), |i: int| raised(m, scores[i], largest(m, scores)));
    Seq::new(scores.len(), |i: int| m(Calc::Div(up[i], sum(m, up))))
}

/// The angle by which the pair `d` of `n_rot` dimensions is turned at a position.
pub open spec fn angle(m: Math, pos: usize, d: usize, n_rot: usize, theta: u32) -> u32 {
    m(
        Calc::Div(
            m(Calc::OfCount(pos)),
            m(
                Calc::Pow(
                    theta,
                    m(
                        Calc::Div(
                            m(Calc::Mul(TWO, m(Calc::OfCount(d)))),
                            m(Calc::OfCount(n_rot)),
                        ),
                    ),
                ),
            ),
        ),
    )
}

/// A pair, turned by an angle.
pub open spec fn turned(m: Math, x0: u32, x1: u32, by: u32) -> (u32, u32) {
    let s = m(Calc::Sin(by));
    let c = m(Calc::Cos(by));
    (
        m(Calc::Sub(m(Calc::Mul(x0, c)), m(Calc::Mul(x1, s)))),
        m(Calc::Add(m(Calc::Mul(x0, s)), m(Calc::Mul(x1, c)))),
    )
}

/// The score of a key for a query: their product over the root of their length.
pub fn make_score<F: Fn(Calc) -> u32>(calc: &F, q: &[u32], k: &[u32]) -> (r: u32)
    requires
        computes(*calc),
        q@.len() == k@.len(),
    ensures
        r == score(math(*calc), q@, k@),
{
    let p: u32 = make_dot(calc, q, k);
    let n: u32 = make(calc, Calc::OfCount(q.len()));
    let root: u32 = make(calc, Calc::Sqrt(n));
    make(calc, Calc::Div(p, root))
}

/// `exp(s - top)`.
pub fn make_raised<F: Fn(Calc) -> u32>(calc: &F, s: u32, top: u32) -> (r: u32)
    requires
        computes(*calc),
    ensures
        r == raised(math(*calc), s, top),
{
    let d: u32 = make(calc, Calc::Sub(s, top));
    make(calc, Calc::Exp(d))
}

/// The angle by which the pair `d` of `n_rot` dimensions is turned at a position.
pub fn make_angle<F: Fn(Calc) -> u32>(
    calc: &F,
    pos: usize,
    d: usize,
    n_rot: usize,
    theta: u32,
) -> (r: u32)
    requires
        computes(*calc),
    ensures
        r == angle(math(*calc), pos, d, n_rot, theta),
{
    let p: u32 = make(calc, Calc::OfCount(pos));
    let k: u32 = make(calc, Calc::OfCount(d));
    let twice: u32 = make(calc, Calc::Mul(TWO, k));
    let n: u32 = make(calc, Calc::OfCount(n_rot));
    let e: u32 = make(calc, Calc::Div(twice, n));
    let f: u32 = make(calc, Calc::Pow(theta, e));
    make(calc, Calc::Div(p, f))
}

/// A pair, turned by an angle with this sine and cosine.
pub fn make_turned<F: Fn(Calc) -> u32>(calc: &F, x0: u32, x1: u32, s: u32, c: u32) -> (r: (
    u32,
    u32,
))
    requires
        computes(*calc),
    ensures
        forall|by: u32|
            s == math(*calc)(Calc::Sin(by)) && c == math(*calc)(Calc::Cos(by)) ==> r
                == #[trigger] turned(math(*calc), x0, x1, by),
{
    let a: u32 = make(calc, Calc::Mul(x0, c));
    let b: u32 = make(calc, Calc::Mul(x1, s));
    let y0: u32 = make(calc, Calc::Sub(a, b));
    let d: u32 = make(calc, Calc::Mul(x0, s));
    let e: u32 = make(calc, Calc::Mul(x1, c));
    let y1: u32 = make(calc, Calc::Add(d, e));
    (y0, y1)
}

// ── Decoded values ──────────────────────────────────────────────────────────

/// The value of a quantized weight.
pub open spec fn weight_value(m: Math, w: Weight) -> u32 {
    m(
        Calc::Sub(
            m(
                Calc::Mul(
                    m(Calc::Mul(m(Calc::OfHalf(w.d)), m(Calc::OfInt(w.scale)))),
                    m(Calc::OfInt(w.quant)),
                ),
            ),
            m(Calc::Mul(m(Calc::OfHalf(w.dmin)), m(Calc::OfInt(w.min)))),
        ),
    )
}

/// The value of an element of a row.
pub open spec fn value(m: Math, e: Element) -> u32 {
    match e {
        Element::Single(bits) => bits,
        Element::Half(bits) => m(Calc::OfHalf(bits)),
        Element::Quantized(w) => weight_value(m, w),
    }
}

/// The values of the elements of a row.
pub open spec fn values(m: Math, es: Seq<Element>) -> Seq<u32> {
    Seq::new(es.len(), |i: int| value(m, es[i]))
}

/// A number of a metadata value.
pub open spec fn number(m: Math, b: FloatBits) -> u32 {
    match b {
        FloatBits::Single(bits) => bits,
        FloatBits::Double(bits) => m(Calc::OfDouble(bits)),
    }
}

/// What the blocks of a Q5_K row and of a quantized vector have for a product:
/// `dx * (d * pos - dmin * min)`.
pub open spec fn block_value(m: Math, dot: BlockDot, dx: u32) -> u32 {
    m(
        Calc::Mul(
            dx,
            m(
                Calc::Sub(
                    m(Calc::Mul(m(Calc::OfHalf(dot.d)), m(Calc::OfInt(dot.pos)))),
                    m(Calc::Mul(m(Calc::OfHalf(dot.dmin)), m(Calc::OfInt(dot.min)))),
                ),
            ),
        ),
    )
}

/// The value of a quantized weight.
pub fn make_weight_value<F: Fn(Calc) -> u32>(calc: &F, w: Weight) -> (r: u32)
    requires
        computes(*calc),
    ensures
        r == weight_value(math(*calc), w),
{
    let d: u32 = make(calc, Calc::OfHalf(w.d));
    let scale: u32 = make(calc, Calc::OfInt(w.scale));
    let ds: u32 = make(calc, Calc::Mul(d, scale));
    let quant: u32 = make(calc, Calc::OfInt(w.quant));
    let dq: u32 = make(calc, Calc::Mul(ds, quant));
    let dmin: u32 = make(calc, Calc::OfHalf(w.dmin));
    let min: u32 = make(calc, Calc::OfInt(w.min));
    let low: u32 = make(calc, Calc::Mul(dmin, min));
    make(calc, Calc::Sub(dq, low))
}

/// The value of an element of a row.
pub fn make_value<F: Fn(Calc) -> u32>(calc: &F, e: Element) -> (r: u32)
    requires
        computes(*calc),
    ensures
        r == value(math(*calc), e),
{
    match e {
        Element::Single(bits) => bits,
        Element::Half(bits) => make(calc, Calc::OfHalf(bits)),
        Element::Quantized(w) => make_weight_value(calc, w),
    }
}

/// A number of a metadata value.
pub fn make_number<F: Fn(Calc) -> u32>(calc: &F, b: FloatBits) -> (r: u32)
    requires
        computes(*calc),
    ensures
        r == number(math(*calc), b),
{
    match b {
        FloatBits::Single(bits) => bits,
        FloatBits::Double(bits) => make(calc, Calc::OfDouble(bits)),
    }
}

/// What the blocks of a Q5_K row and of a quantized vector have for a product.
pub fn make_block_value<F: Fn(Calc) -> u32>(calc: &F, dot: BlockDot, dx: u32) -> (r: u32)
    requires
        computes(*calc),
    ensures
        r == block_value(math(*calc), dot, dx),
{
    let d: u32 = make(calc, Calc::OfHalf(dot.d));
    let pos: u32 = make(calc, Calc::OfInt(dot.pos));
    let up: u32 = make(calc, Calc::Mul(d, pos));
    let dmin: u32 = make(calc, Calc::OfHalf(dot.dmin));
    let min: u32 = make(calc, Calc::OfInt(dot.min));
    let low: u32 = make(calc, Calc::Mul(dmin, min));
    let diff: u32 = make(calc, Calc::Sub(up, low));
    make(calc, Calc::Mul(dx, diff))
}

/// A stated number is taken by its bits where it has single precision, and is rounded to
/// that where it has double precision.
pub proof fn law_stated_numbers_are_taken_as_they_are(m: Math, single: u32, double: u64)
    ensures
        number(m, FloatBits::Single(single)) == single,
        number(m, FloatBits::Double(double)) == m(Calc::OfDouble(double)),
{
}

} // verus!
