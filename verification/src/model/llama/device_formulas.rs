//! What the operations that the GPU computes in its own way leave in its memory, number by
//! number.

use vstd::prelude::*;

use crate::calc::{dot, sum, value, Calc, Math};
use crate::model::llama::formulas::{root_mean_square, under_the_root};
use crate::model::llama::launched::{
    device_effect, device_meaning, device_scores, workgroup_dot, Held,
};
use crate::model::llama::load::LlamaModel;
use crate::model::llama::meaning::{tensor, Pass};
use crate::model::llama::program::{after, Buffer, Matrix, Memory, NormRef, Op};
use crate::ops::kernels::attention::{exponentials, peak_score, scaled_score};
use crate::single::ONE;

verus! {

/// What a buffer of the GPU holds after an operation.
pub open spec fn device_left(
    model: LlamaModel,
    p: Pass,
    mem: Memory<Held>,
    op: Op,
    b: Buffer,
) -> Held {
    after(device_meaning(model, p), mem, op)(b)
}

/// The numbers of one slot of a cache layer of the GPU: slots are as wide as all K/V heads
/// together, and follow each other.
pub open spec fn cache_slot(cache: Seq<u32>, width: int, t: int) -> Seq<u32> {
    cache.subrange(t * width, t * width + width)
}

/// The norm of the residual stream on the GPU: every number over the root of the mean of
/// all squares, times its weight.
pub proof fn law_the_gpu_divides_by_the_root_mean_square(
    model: LlamaModel,
    p: Pass,
    mem: Memory<Held>,
    n: NormRef,
    i: int,
)
    requires
        model.spec_norm_weights(n) matches Some(w) && i < w.elements().len(),
        0 <= i < mem(Buffer::X).numbers().len(),
    ensures
        ({
            let m = p.math;
            let x = mem(Buffer::X).numbers();
            device_left(model, p, mem, Op::Norm(n), Buffer::Xn).numbers()[i] == m(
                Calc::Mul(
                    m(Calc::Div(x[i], root_mean_square(m, under_the_root(model, p), x))),
                    value(m, (model.spec_norm_weights(n)->0).elements()[i]),
                ),
            )
        }),
{
    reveal(device_effect);
    assert(Op::Norm(n).reads().map_values(mem)[0] == mem(Buffer::X));
}

/// A matrix of the GPU is multiplied row by row: rows of as many bytes follow each other
/// from the place of the tensor on, and each one meets the whole vector.
pub proof fn law_the_gpu_multiplies_row_by_row(
    model: LlamaModel,
    p: Pass,
    mem: Memory<Held>,
    matrix: Matrix,
    from: Buffer,
    to: Buffer,
    r: int,
)
    requires
        model.spec_matrix_name(matrix) matches Some(name) && (tensor(model, name) matches Some(t)
            && t.n_dims != 1 && 0 <= r < t.row_count()),
    ensures
        ({
            let t = tensor(model, model.spec_matrix_name(matrix)->0)->0;
            let bytes = t.ggml_type.spec_type_size(t.dims[0] as nat);
            device_left(model, p, mem, Op::MatMul(matrix, from, to), to).numbers()[r]
                == workgroup_dot(
                p.math,
                t.ggml_type,
                model.weights.bytes().skip(t.byte_offset + r * bytes),
                mem(from).numbers(),
            )
        }),
{
    reveal(device_effect);
    let op = Op::MatMul(matrix, from, to);
    assert(op.reads().map_values(mem)[0] == mem(from));
}

/// The key and the value of a token come into the slot of its position, and the other slots
/// stay as they are.
pub proof fn law_the_gpu_writes_one_slot(
    model: LlamaModel,
    p: Pass,
    mem: Memory<Held>,
    layer: usize,
    t: int,
    slots: int,
)
    requires
        0 <= t < slots,
        p.pos < slots,
        mem(Buffer::K).numbers().len() == mem(Buffer::V).numbers().len(),
        mem(Buffer::Cache(layer)).keys().len() == slots * mem(Buffer::K).numbers().len(),
        mem(Buffer::Cache(layer)).vals().len() == slots * mem(Buffer::K).numbers().len(),
    ensures
        ({
            let (k, v) = (mem(Buffer::K).numbers(), mem(Buffer::V).numbers());
            let before = mem(Buffer::Cache(layer));
            let now = device_left(model, p, mem, Op::CacheWrite(layer), Buffer::Cache(layer));
            let w = k.len() as int;
            &&& cache_slot(now.keys(), w, t) == if t == p.pos {
                k
            } else {
                cache_slot(before.keys(), w, t)
            }
            &&& cache_slot(now.vals(), w, t) == if t == p.pos {
                v
            } else {
                cache_slot(before.vals(), w, t)
            }
        }),
{
    reveal(device_effect);
    let op = Op::CacheWrite(layer);
    assert(op.reads().map_values(mem)[0] == mem(Buffer::K));
    assert(op.reads().map_values(mem)[1] == mem(Buffer::V));
    assert(op.reads().map_values(mem)[2] == mem(Buffer::Cache(layer)));
    let (k, v) = (mem(Buffer::K).numbers(), mem(Buffer::V).numbers());
    let before = mem(Buffer::Cache(layer));
    let now = device_left(model, p, mem, op, Buffer::Cache(layer));
    let w = k.len() as int;
    let q = p.pos as int;
    lemma_slot(t, w, slots);
    lemma_slot(q, w, slots);
    if t < q {
        lemma_slots_apart(t, q, w);
    } else if q < t {
        lemma_slots_apart(q, t, w);
    }
    if t == q {
        assert(cache_slot(now.keys(), w, t) =~= k);
        assert(cache_slot(now.vals(), w, t) =~= v);
    } else {
        assert(cache_slot(now.keys(), w, t) =~= cache_slot(before.keys(), w, t));
        assert(cache_slot(now.vals(), w, t) =~= cache_slot(before.vals(), w, t));
    }
}

proof fn lemma_slot(t: int, w: int, slots: int)
    requires
        0 <= t < slots,
        0 <= w,
    ensures
        0 <= t * w,
        t * w + w <= slots * w,
{
    assert(0 <= t * w && t * w + w <= slots * w) by (nonlinear_arith)
        requires
            0 <= t,
            t + 1 <= slots,
            0 <= w,
    ;
}

proof fn lemma_slots_apart(a: int, b: int, w: int)
    requires
        a < b,
        0 <= w,
    ensures
        a * w + w <= b * w,
{
    assert(a * w + w <= b * w) by (nonlinear_arith)
        requires
            a + 1 <= b,
            0 <= w,
    ;
}

/// The weights of attention on the GPU: exponentials of the distances of the scores from
/// the largest one.
pub open spec fn raised_scores(m: Math, scores: Seq<u32>) -> Seq<u32> {
    Seq::new(
        scores.len(),
        |t: int| m(Calc::Exp(m(Calc::Sub(scores[t], peak_score(m, scores))))),
    )
}

/// The largest score is what taking the larger one of two gives in turn, from -1e30 on.
pub proof fn law_the_gpu_finds_the_largest_in_turn(m: Math, s: Seq<u32>, x: u32)
    ensures
        peak_score(m, Seq::empty()) == 0xF149_F2CAu32,
        peak_score(m, s.push(x)) == m(Calc::Max(peak_score(m, s), x)),
{
    assert(s.push(x).drop_last() =~= s);
}

/// Number `d` of head `h` of what attention gives on the GPU is the sum of the same number
/// of the values of its K/V head over all positions with their weights, over the sum of
/// the weights; a score is the product of query and key times one over the root of the
/// length of a head. Neighbouring query heads share a K/V head: head `h` has the one at
/// `h` over the size of a group.
pub proof fn law_query_heads_share_their_kv_head_on_the_gpu(
    model: LlamaModel,
    p: Pass,
    mem: Memory<Held>,
    layer: usize,
    h: int,
    d: int,
)
    requires
        0 <= h < model.cfg.head_count,
        0 <= d < model.cfg.head_dim,
        0 < model.cfg.head_count_kv,
        model.cfg.head_count == model.cfg.head_count / model.cfg.head_count_kv
            * model.cfg.head_count_kv,
        mem(Buffer::Cache(layer)).keys().len() >= (p.pos + 1) * (model.cfg.head_count_kv
            * model.cfg.head_dim),
        mem(Buffer::Cache(layer)).vals().len() >= (p.pos + 1) * (model.cfg.head_count_kv
            * model.cfg.head_dim),
    ensures
        ({
            let m = p.math;
            let len = model.cfg.head_dim as int;
            let w = model.cfg.head_count_kv * len;
            let kv = h / (model.cfg.head_count as int / model.cfg.head_count_kv as int);
            let q = mem(Buffer::Q).numbers().subrange(h * len, h * len + len);
            let keys = mem(Buffer::Cache(layer)).keys();
            let vals = mem(Buffer::Cache(layer)).vals();
            let scores = Seq::new(
                (p.pos + 1) as nat,
                |t: int|
                    m(
                        Calc::Mul(
                            dot(m, q, cache_slot(keys, w, t).subrange(kv * len, kv * len + len)),
                            m(
                                Calc::Div(
                                    ONE,
                                    m(Calc::Sqrt(m(Calc::OfCount(model.cfg.head_dim as usize)))),
                                ),
                            ),
                        ),
                    ),
            );
            let weights = raised_scores(m, scores);
            device_left(model, p, mem, Op::Attend(layer), Buffer::AttnOut).numbers()[h * len + d]
                == m(
                Calc::Div(
                    dot(
                        m,
                        weights,
                        Seq::new(
                            (p.pos + 1) as nat,
                            |t: int| cache_slot(vals, w, t)[kv * len + d],
                        ),
                    ),
                    sum(m, weights),
                ),
            )
        }),
{
    reveal(device_effect);
    let m = p.math;
    let len = model.cfg.head_dim as int;
    let kv_heads = model.cfg.head_count_kv as int;
    let heads = model.cfg.head_count as int;
    let group = heads / kv_heads;
    let w = model.cfg.head_count_kv * len;
    let kv = h / group;
    let op = Op::Attend(layer);
    assert(op.reads().map_values(mem)[0] == mem(Buffer::Q));
    assert(op.reads().map_values(mem)[1] == mem(Buffer::Cache(layer)));
    let q = mem(Buffer::Q).numbers().subrange(h * len, h * len + len);
    let keys = mem(Buffer::Cache(layer)).keys();
    let vals = mem(Buffer::Cache(layer)).vals();
    lemma_shared(h, heads, kv_heads, group);
    lemma_slot(kv, len, kv_heads);
    lemma_slot(h, len, heads);
    vstd::arithmetic::div_mod::lemma_fundamental_div_mod_converse(h * len + d, len, h, d);
    let scores = Seq::new(
        (p.pos + 1) as nat,
        |t: int|
            m(
                Calc::Mul(
                    dot(m, q, cache_slot(keys, w, t).subrange(kv * len, kv * len + len)),
                    m(
                        Calc::Div(
                            ONE,
                            m(Calc::Sqrt(m(Calc::OfCount(model.cfg.head_dim as usize)))),
                        ),
                    ),
                ),
            ),
    );
    let own = device_scores(m, mem(Buffer::Q).numbers(), keys, h, p.pos as int, len, kv_heads, group);
    assert forall|t: int| 0 <= t <= p.pos implies own[t] == scores[t] by {
        lemma_slot(t, w, p.pos + 1);
        assert(keys.subrange(t * w + kv * len, t * w + kv * len + len) =~= cache_slot(
            keys,
            w,
            t,
        ).subrange(kv * len, kv * len + len));
        assert(own[t] == scaled_score(m, mem(Buffer::Q).numbers(), keys, h, t, len, kv_heads, group));
    }
    assert(own =~= scores);
    let weights = raised_scores(m, scores);
    assert(exponentials(m, own) =~= weights);
    let column = Seq::new((p.pos + 1) as nat, |t: int| cache_slot(vals, w, t)[kv * len + d]);
    let read = Seq::new(
        weights.len(),
        |t: int| vals[t * (kv_heads * len) + h / group * len + d],
    );
    assert forall|t: int| 0 <= t <= p.pos implies read[t] == column[t] by {
        lemma_slot(t, w, p.pos + 1);
    }
    assert(read =~= column);
}

proof fn lemma_shared(h: int, heads: int, kv_heads: int, group: int)
    requires
        0 <= h < heads,
        0 < kv_heads,
        heads == group * kv_heads,
    ensures
        0 < group,
        0 <= h / group < kv_heads,
{
    assert(0 < group) by (nonlinear_arith)
        requires
            0 < heads,
            0 < kv_heads,
            heads == group * kv_heads,
    ;
    assert(0 <= h / group < kv_heads) by (nonlinear_arith)
        requires
            0 <= h < group * kv_heads,
            0 < group,
    ;
}

/// What attention gives on the GPU is divided, number by number, by one plus the
/// exponential of its negated gate.
pub proof fn law_the_gpu_divides_by_the_logistic_denominator(
    model: LlamaModel,
    p: Pass,
    mem: Memory<Held>,
    i: int,
)
    requires
        0 <= i < mem(Buffer::AttnOut).numbers().len(),
    ensures
        ({
            let m = p.math;
            device_left(model, p, mem, Op::GateAttn, Buffer::AttnOut).numbers()[i] == m(
                Calc::Div(
                    mem(Buffer::AttnOut).numbers()[i],
                    m(
                        Calc::Add(
                            ONE,
                            m(Calc::Exp(m(Calc::Neg(mem(Buffer::QgGate).numbers()[i])))),
                        ),
                    ),
                ),
            )
        }),
{
    reveal(device_effect);
    assert(Op::GateAttn.reads().map_values(mem)[0] == mem(Buffer::AttnOut));
    assert(Op::GateAttn.reads().map_values(mem)[1] == mem(Buffer::QgGate));
}

} // verus!
