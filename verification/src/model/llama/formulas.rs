//! What every operation of a layer leaves in memory, number by number: which numbers of
//! which buffers go into it, and by which formula.

use vstd::prelude::*;

use crate::calc::{dot, fold2, largest, number, raised, softmax, sum, value, values, Calc, Math};
use crate::model::kv_cache::KvCache;
use crate::model::kv_dtype::{
    kv_block, law_half_vector_read_back, law_scaled_vector_read_back, KvDtype,
};
use crate::model::llama::conv::{taps, window};
use crate::model::llama::delta;
use crate::model::llama::load::LlamaModel;
use crate::model::llama::meaning::{
    cache_scale, cell_column, cell_head, cell_row, clamped, conv_of, delta_of, effect, gate_input,
    gate_rows, head_norm_name, head_scores, meaning, packed, query_scale, readings, recalled,
    rotated_of, rows_of, stepped, tensor, Contents, Pass,
};
use crate::model::llama::program::{
    after, forward, run, shapes_of, Buffer, Matrix, Memory, NormRef, Op, Role,
};
use crate::model::llama::types::{GdnDims, Mixer};
use crate::model::totals::{
    law_products_weigh_their_row, numbers_in_all, row_weights, weighed, wraps,
};
use crate::quant::block::{blocks_of, Element, Weight};
use crate::quant::elements_of;
use crate::quant::q8_k::peak;
use crate::single::{less, magnitude, ONE, ZERO};
use crate::types::{product, GgmlType};

verus! {

/// The numbers that a buffer holds after an operation.
pub open spec fn left(
    model: LlamaModel,
    p: Pass,
    mem: Memory<Contents>,
    op: Op,
    b: Buffer,
) -> Seq<u32> {
    after(meaning(model, p), mem, op)(b).numbers()
}

/// The numbers that a buffer holds.
pub open spec fn held(mem: Memory<Contents>, b: Buffer) -> Seq<u32> {
    mem(b).numbers()
}

/// The small number under the roots.
pub open spec fn under_the_root(model: LlamaModel, p: Pass) -> u32 {
    number(p.math, model.cfg.layer_norm_rms_epsilon)
}

/// The root of the mean of squares, with a small number under it.
pub open spec fn root_mean_square(m: Math, eps: u32, x: Seq<u32>) -> u32 {
    m(
        Calc::Sqrt(
            m(Calc::Add(m(Calc::Div(dot(m, x, x), m(Calc::OfCount(x.len() as usize)))), eps)),
        ),
    )
}

proof fn lemma_place(h: int, d: int, len: int)
    requires
        0 <= h,
        0 <= d < len,
    ensures
        0 <= h * len,
        (h * len + d) / len == h,
        (h * len + d) % len == d,
{
    assert(0 <= h * len) by (nonlinear_arith)
        requires
            0 <= h,
            0 <= len,
    ;
    vstd::arithmetic::div_mod::lemma_fundamental_div_mod_converse(h * len + d, len, h, d);
}

proof fn lemma_in_heads(h: int, d: int, len: int, heads: int)
    requires
        0 <= h < heads,
        0 <= d < len,
    ensures
        0 <= h * len + d < heads * len,
{
    assert(0 <= h * len && h * len + len <= heads * len) by (nonlinear_arith)
        requires
            0 <= h,
            h + 1 <= heads,
            0 <= len,
    ;
}

// ── Sums ────────────────────────────────────────────────────────────────────

/// A product of two vectors takes up the products of their elements one by one, from zero
/// on.
pub proof fn law_products_are_taken_up_in_turn(m: Math, a: Seq<u32>, b: Seq<u32>, x: u32, y: u32)
    requires
        a.len() == b.len(),
    ensures
        dot(m, Seq::empty(), Seq::empty()) == 0u32,
        dot(m, a.push(x), b.push(y)) == m(Calc::Add(dot(m, a, b), m(Calc::Mul(x, y)))),
{
    assert(a.push(x).drop_last() =~= a);
    assert(b.push(y).drop_last() =~= b);
}

/// The value of a stored weight is its quant times its scale times the scale of its
/// block, less its minimum times that of its block; other values are stored as they are.
pub proof fn law_values_of_weights(m: Math, d: u16, dmin: u16, scale: i32, min: i32, quant: i32, bits: u32)
    ensures
        value(
            m,
            Element::Quantized(Weight { d, dmin, scale, min, quant }),
        ) == m(
            Calc::Sub(
                m(
                    Calc::Mul(
                        m(Calc::Mul(m(Calc::OfHalf(d)), m(Calc::OfInt(scale)))),
                        m(Calc::OfInt(quant)),
                    ),
                ),
                m(Calc::Mul(m(Calc::OfHalf(dmin)), m(Calc::OfInt(min)))),
            ),
        ),
        value(m, Element::Half(d)) == m(Calc::OfHalf(d)),
        value(m, Element::Single(bits)) == bits,
{
}

// ── The residual stream ─────────────────────────────────────────────────────

/// A pass begins with the row of the token in the embedding table: rows of as many bytes
/// follow each other from the place of the table on.
pub proof fn law_a_pass_begins_with_its_token(
    model: LlamaModel,
    p: Pass,
    mem: Memory<Contents>,
    j: int,
)
    requires
        tensor(model, model.token_embd@) matches Some(t) && t.n_dims != 1,
        0 <= j < left(model, p, mem, Op::Embed, Buffer::X).len(),
    ensures
        ({
            let t = tensor(model, model.token_embd@)->0;
            let bytes = t.ggml_type.spec_type_size(t.dims[0] as nat);
            let row = model.weights.bytes().skip(t.byte_offset + p.token * bytes);
            left(model, p, mem, Op::Embed, Buffer::X)[j] == value(
                p.math,
                elements_of(t.ggml_type, row, t.dims[0] as nat)[j],
            )
        }),
{
    reveal(effect);
}

/// The norm of the residual stream: every number times its weight, over the root of the
/// mean of all squares.
pub proof fn law_the_norm_divides_by_the_root_mean_square(
    model: LlamaModel,
    p: Pass,
    mem: Memory<Contents>,
    n: NormRef,
    i: int,
)
    requires
        model.spec_norm_weights(n) matches Some(w) && 0 <= i < w.elements().len(),
        i < held(mem, Buffer::X).len(),
        i < held(mem, Buffer::Xn).len(),
    ensures
        ({
            let m = p.math;
            let x = held(mem, Buffer::X);
            let w = value(m, (model.spec_norm_weights(n)->0).elements()[i]);
            left(model, p, mem, Op::Norm(n), Buffer::Xn)[i] == m(
                Calc::Div(
                    m(Calc::Mul(w, x[i])),
                    root_mean_square(m, under_the_root(model, p), x),
                ),
            )
        }),
{
    reveal(effect);
    assert(Op::Norm(n).reads().map_values(mem)[0] == mem(Buffer::X));
    assert(Op::Norm(n).reads().map_values(mem)[1] == mem(Buffer::Xn));
}

/// The projection is added to the residual stream, number by number.
pub proof fn law_the_residual_is_added(model: LlamaModel, p: Pass, mem: Memory<Contents>, i: int)
    requires
        0 <= i < held(mem, Buffer::X).len(),
    ensures
        left(model, p, mem, Op::AddResidual, Buffer::X)[i] == (p.math)(
            Calc::Add(held(mem, Buffer::X)[i], held(mem, Buffer::Proj)[i]),
        ),
{
    reveal(effect);
    assert(Op::AddResidual.reads().map_values(mem)[0] == mem(Buffer::X));
    assert(Op::AddResidual.reads().map_values(mem)[1] == mem(Buffer::Proj));
}

/// The two projections of a feed-forward block are combined number by number: the first
/// times its logistic function, times the second.
pub proof fn law_the_gate_is_a_silu(
    model: LlamaModel,
    p: Pass,
    mem: Memory<Contents>,
    layer: usize,
    i: int,
)
    requires
        0 <= i < gate_rows(model, layer),
        i < held(mem, Buffer::FfnAct).len(),
    ensures
        ({
            let m = p.math;
            let g = held(mem, Buffer::Gate)[i];
            left(model, p, mem, Op::SiluMul(layer), Buffer::FfnAct)[i] == m(
                Calc::Mul(
                    m(Calc::Div(g, m(Calc::Add(ONE, m(Calc::Exp(m(Calc::Neg(g)))))))),
                    held(mem, Buffer::Up)[i],
                ),
            )
        }),
{
    reveal(effect);
    let op = Op::SiluMul(layer);
    assert(op.reads().map_values(mem)[0] == mem(Buffer::Gate));
    assert(op.reads().map_values(mem)[1] == mem(Buffer::Up));
    assert(op.reads().map_values(mem)[2] == mem(Buffer::FfnAct));
}

// ── Attention ───────────────────────────────────────────────────────────────

/// The norm of queries and of keys goes head by head: every number times the weight of
/// its place in the head, over the root of the mean square of its own head.
pub proof fn law_heads_are_normed_by_themselves(
    model: LlamaModel,
    p: Pass,
    mem: Memory<Contents>,
    layer: usize,
    queries: bool,
    h: int,
    d: int,
)
    requires
        0 <= h,
        0 <= d < model.cfg.head_dim,
        tensor(model, head_norm_name(model, layer, queries)->0) matches Some(t) && t.n_dims == 1
            && t.dims[0] >= model.cfg.head_dim && (t.ggml_type == GgmlType::F32
            || t.ggml_type == GgmlType::F16),
        ({
            let b = if queries {
                Buffer::Q
            } else {
                Buffer::K
            };
            h * model.cfg.head_dim + d < held(mem, b).len()
        }),
    ensures
        ({
            let m = p.math;
            let len = model.cfg.head_dim as int;
            let (op, b) = if queries {
                (Op::NormQ(layer), Buffer::Q)
            } else {
                (Op::NormK(layer), Buffer::K)
            };
            let t = tensor(model, head_norm_name(model, layer, queries)->0)->0;
            let x = held(mem, b);
            let w = value(
                m,
                elements_of(
                    t.ggml_type,
                    model.weights.bytes().skip(t.byte_offset as int),
                    t.dims[0] as nat,
                )[d],
            );
            left(model, p, mem, op, b)[h * len + d] == m(
                Calc::Div(
                    m(Calc::Mul(w, x[h * len + d])),
                    root_mean_square(
                        m,
                        under_the_root(model, p),
                        x.subrange(h * len, h * len + len),
                    ),
                ),
            )
        }),
{
    reveal(effect);
    let len = model.cfg.head_dim as int;
    let (op, b) = if queries {
        (Op::NormQ(layer), Buffer::Q)
    } else {
        (Op::NormK(layer), Buffer::K)
    };
    assert(op.reads().map_values(mem)[0] == mem(b));
    lemma_place(h, d, len);
}

/// The angle by which pair `d` of `n` rotated numbers is turned at a position: the
/// position over the base to the power `2 d / n`.
pub open spec fn turn(m: Math, pos: usize, d: int, n: usize, base: u32) -> u32 {
    m(
        Calc::Div(
            m(Calc::OfCount(pos)),
            m(
                Calc::Pow(
                    base,
                    m(
                        Calc::Div(
                            m(Calc::Mul(0x4000_0000, m(Calc::OfCount(d as usize)))),
                            m(Calc::OfCount(n)),
                        ),
                    ),
                ),
            ),
        ),
    )
}

/// Queries and keys are rotated head by head: number `d` of the first half of the rotated
/// ones goes with number `d` of the second half, as the two sides of a point that is
/// turned; what is not rotated stays.
pub proof fn law_halves_of_a_head_turn_together(
    model: LlamaModel,
    p: Pass,
    mem: Memory<Contents>,
    partial: bool,
    queries: bool,
    h: int,
    d: int,
)
    requires
        0 <= h,
        0 <= d < model.cfg.head_dim,
        2 * (rotated_of(model, partial) as int / 2) <= model.cfg.head_dim,
        (h + 1) * model.cfg.head_dim <= held(
            mem,
            if queries {
                Buffer::Q
            } else {
                Buffer::K
            },
        ).len(),
    ensures
        ({
            let m = p.math;
            let len = model.cfg.head_dim as int;
            let (op, b) = if queries {
                (Op::RotateQ(partial), Buffer::Q)
            } else {
                (Op::RotateK(partial), Buffer::K)
            };
            let n = rotated_of(model, partial);
            let half = n as int / 2;
            let x = held(mem, b);
            let now = left(model, p, mem, op, b);
            let a = turn(m, p.pos, d, n, number(m, model.cfg.rope_freq_base));
            let (first, second) = (x[h * len + d], x[h * len + half + d]);
            &&& d < half ==> now[h * len + d] == m(
                Calc::Sub(
                    m(Calc::Mul(first, m(Calc::Cos(a)))),
                    m(Calc::Mul(second, m(Calc::Sin(a)))),
                ),
            )
            &&& d < half ==> now[h * len + half + d] == m(
                Calc::Add(
                    m(Calc::Mul(first, m(Calc::Sin(a)))),
                    m(Calc::Mul(second, m(Calc::Cos(a)))),
                ),
            )
            &&& d >= 2 * half ==> now[h * len + d] == first
        }),
{
    reveal(effect);
    let len = model.cfg.head_dim as int;
    let (op, b) = if queries {
        (Op::RotateQ(partial), Buffer::Q)
    } else {
        (Op::RotateK(partial), Buffer::K)
    };
    assert(op.reads().map_values(mem)[0] == mem(b));
    let half = rotated_of(model, partial) as int / 2;
    assert((h + 1) * len == h * len + len) by (nonlinear_arith);
    lemma_place(h, d, len);
    if d < half {
        lemma_place(h, half + d, len);
        assert(h * len + (half + d) == h * len + half + d);
    }
}

/// The weights of attention: exponentials of the distances of the scores from the largest
/// one, over their sum.
pub open spec fn attention_weights(m: Math, scores: Seq<u32>) -> Seq<u32> {
    let up = Seq::new(
        scores.len(),
        |t: int| m(Calc::Exp(m(Calc::Sub(scores[t], largest(m, scores))))),
    );
    Seq::new(scores.len(), |t: int| m(Calc::Div(up[t], sum(m, up))))
}

/// Number `d` of head `h` of what attention gives is the sum of the same number of the
/// values of its K/V head over all positions, each with the weight that the product of
/// query and key gives it, over the root of the length of a head. Neighbouring query heads
/// share a K/V head: head `h` has the one at `h` over the size of a group.
pub proof fn law_query_heads_share_their_kv_head(
    model: LlamaModel,
    p: Pass,
    mem: Memory<Contents>,
    layer: usize,
    h: int,
    d: int,
)
    requires
        0 <= h < model.cfg.head_count,
        0 <= d < model.cfg.head_dim,
        0 < model.cfg.head_count_kv <= model.cfg.head_count,
        p.pos < usize::MAX,
    ensures
        ({
            let m = p.math;
            let len = model.cfg.head_dim as int;
            let kv = h / (model.cfg.head_count as int / model.cfg.head_count_kv as int);
            let q = held(mem, Buffer::Q).subrange(h * len, h * len + len);
            let keys = recalled(p, mem(Buffer::Cache(layer)).keys());
            let vals = recalled(p, mem(Buffer::Cache(layer)).vals());
            let scores = Seq::new(
                (p.pos + 1) as nat,
                |t: int|
                    m(
                        Calc::Div(
                            dot(m, q, keys[t].subrange(kv * len, kv * len + len)),
                            m(Calc::Sqrt(m(Calc::OfCount(q.len() as usize)))),
                        ),
                    ),
            );
            left(model, p, mem, Op::Attend(layer), Buffer::AttnOut)[h * len + d] == dot(
                m,
                attention_weights(m, scores),
                Seq::new((p.pos + 1) as nat, |t: int| vals[t][kv * len + d]),
            )
        }),
{
    reveal(effect);
    let m = p.math;
    let len = model.cfg.head_dim as int;
    let group = model.cfg.head_count as int / model.cfg.head_count_kv as int;
    let kv = h / group;
    let op = Op::Attend(layer);
    assert(op.reads().map_values(mem)[0] == mem(Buffer::Q));
    assert(op.reads().map_values(mem)[1] == mem(Buffer::Cache(layer)));
    lemma_place(h, d, len);
    lemma_in_heads(h, d, len, model.cfg.head_count as int);
    let q = held(mem, Buffer::Q).subrange(h * len, h * len + len);
    let keys = recalled(p, mem(Buffer::Cache(layer)).keys());
    let vals = recalled(p, mem(Buffer::Cache(layer)).vals());
    let scores = Seq::new(
        (p.pos + 1) as nat,
        |t: int|
            m(
                Calc::Div(
                    dot(m, q, keys[t].subrange(kv * len, kv * len + len)),
                    m(Calc::Sqrt(m(Calc::OfCount(q.len() as usize)))),
                ),
            ),
    );
    let own = head_scores(
        m,
        held(mem, Buffer::Q),
        keys,
        len,
        group,
        h,
    );
    assert(own =~= scores);
    let up = Seq::new(
        scores.len(),
        |t: int| m(Calc::Exp(m(Calc::Sub(scores[t], largest(m, scores))))),
    );
    let risen = Seq::new(
        scores.len(),
        |i: int| raised(m, scores[i], largest(m, scores)),
    );
    assert(up =~= risen);
    assert(softmax(m, own) =~= attention_weights(m, scores));
    let column = Seq::new(vals.len(), |t: int| vals[t][(h * len + d) / len / group * len
        + (h * len + d) % len]);
    assert(column =~= Seq::new((p.pos + 1) as nat, |t: int| vals[t][kv * len + d]));
}

/// The largest of several scores is no other than what taking the larger one of two gives
/// in turn, from the negative infinity on.
pub proof fn law_the_largest_is_found_in_turn(m: Math, s: Seq<u32>, x: u32)
    ensures
        largest(m, Seq::empty()) == 0xFF80_0000u32,
        largest(m, s.push(x)) == m(Calc::Max(largest(m, s), x)),
{
    assert(s.push(x).drop_last() =~= s);
}

/// Attention at a position, and at every later one, sees the key of that position as it was
/// written: rounded to half precision, or, in the quantized cache, rounded to a whole number
/// of at most 127 steps of the block's scale. The same holds of the value.
pub proof fn law_attention_sees_what_was_written(
    model: LlamaModel,
    p: Pass,
    later: Pass,
    mem: Memory<Contents>,
    layer: usize,
    vals: bool,
    j: int,
)
    requires
        p.pos < p.slots,
        p.pos <= later.pos,
        later.math == p.math,
        later.dtype == p.dtype,
        later.width == p.width,
        0 <= j < p.width,
        ({
            let x = held(
                mem,
                if vals {
                    Buffer::V
                } else {
                    Buffer::K
                },
            );
            x.len() == p.width
        }),
        mem(Buffer::Cache(layer)).keys().len() == p.slots * p.dtype.spec_bytes_per_token(p.width),
        mem(Buffer::Cache(layer)).vals().len() == p.slots * p.dtype.spec_bytes_per_token(p.width),
    ensures
        ({
            let m = p.math;
            let now = after(meaning(model, p), mem, Op::CacheWrite(layer))(Buffer::Cache(layer));
            let x = held(
                mem,
                if vals {
                    Buffer::V
                } else {
                    Buffer::K
                },
            );
            let seen = recalled(
                later,
                if vals {
                    now.vals()
                } else {
                    now.keys()
                },
            )[p.pos as int];
            &&& seen.len() == p.width
            &&& p.dtype == KvDtype::F16 ==> seen[j] == m(
                Calc::OfHalf(m(Calc::ToHalf(x[j])) as u16),
            )
            &&& p.dtype == KvDtype::Q8_0 ==> {
                let end = if 32 * (j / 32) + 32 <= x.len() {
                    32 * (j / 32) + 32
                } else {
                    x.len() as int
                };
                let scale = block_scale(m, x.subrange(32 * (j / 32), end));
                let steps = m(Calc::Round(m(Calc::Div(x[j], scale)))) as i32;
                let quant = if steps < -127 {
                    -127i32
                } else if steps > 127 {
                    127i32
                } else {
                    steps
                };
                seen[j] == value(
                    m,
                    Element::Quantized(
                        Weight {
                            d: m(Calc::ToHalf(scale)) as u16,
                            dmin: 0,
                            scale: 1,
                            min: 0,
                            quant,
                        },
                    ),
                )
            }
        }),
{
    reveal(effect);
    let m = p.math;
    let op = Op::CacheWrite(layer);
    assert(op.reads().map_values(mem)[0] == mem(Buffer::K));
    assert(op.reads().map_values(mem)[1] == mem(Buffer::V));
    assert(op.reads().map_values(mem)[2] == mem(Buffer::Cache(layer)));
    let now = after(meaning(model, p), mem, op)(Buffer::Cache(layer));
    let stride = p.dtype.spec_bytes_per_token(p.width) as int;
    let (x, bytes, before) = if vals {
        (held(mem, Buffer::V), now.vals(), mem(Buffer::Cache(layer)).vals())
    } else {
        (held(mem, Buffer::K), now.keys(), mem(Buffer::Cache(layer)).keys())
    };
    let new = packed(m, p.dtype, x);
    assert(new.len() == stride);
    assert(0 <= p.pos * stride && p.pos * stride + stride <= p.slots * stride) by (nonlinear_arith)
        requires
            0 <= p.pos,
            p.pos + 1 <= p.slots,
            0 <= stride,
    ;
    assert(bytes.subrange(p.pos * stride, p.pos * stride + stride) =~= new);
    match p.dtype {
        KvDtype::F16 => {
            let bits = Seq::new(x.len(), |i: int| m(Calc::ToHalf(x[i])) as u16);
            law_half_vector_read_back(bits);
            assert(bits[j] == m(Calc::ToHalf(x[j])) as u16);
        },
        KvDtype::Q8_0 => {
            let scales = Seq::new(
                blocks_of(x.len(), 32),
                |b: int|
                    m(
                        Calc::ToHalf(
                            cache_scale(
                                m,
                                kv_block(x, b),
                            ),
                        ),
                    ) as u16,
            );
            let quants = Seq::new(
                x.len(),
                |i: int|
                    clamped(
                        m(
                            Calc::Round(
                                m(
                                    Calc::Div(
                                        x[i],
                                        cache_scale(
                                            m,
                                            kv_block(x, i / 32),
                                        ),
                                    ),
                                ),
                            ),
                        ) as i32,
                    ),
            );
            law_scaled_vector_read_back(scales, quants, j);
            let block = kv_block(x, j / 32);
            assert(block_scale(m, block) == cache_scale(m, block));
            assert(quants[j] as i32 == quants[j]);
            assert(j / 32 < blocks_of(x.len(), 32));
        },
    }
}

/// Writing a key and a value leaves those of the other positions as they are.
pub proof fn law_other_positions_are_seen_unchanged(
    model: LlamaModel,
    p: Pass,
    later: Pass,
    mem: Memory<Contents>,
    layer: usize,
    t: int,
)
    requires
        0 <= t <= later.pos < p.slots,
        p.pos < p.slots,
        t != p.pos,
        later.math == p.math,
        later.dtype == p.dtype,
        later.width == p.width,
        held(mem, Buffer::K).len() == p.width,
        held(mem, Buffer::V).len() == p.width,
        mem(Buffer::Cache(layer)).keys().len() == p.slots * p.dtype.spec_bytes_per_token(p.width),
        mem(Buffer::Cache(layer)).vals().len() == p.slots * p.dtype.spec_bytes_per_token(p.width),
    ensures
        ({
            let before = mem(Buffer::Cache(layer));
            let now = after(meaning(model, p), mem, Op::CacheWrite(layer))(Buffer::Cache(layer));
            &&& recalled(later, now.keys())[t] == recalled(later, before.keys())[t]
            &&& recalled(later, now.vals())[t] == recalled(later, before.vals())[t]
        }),
{
    reveal(effect);
    let op = Op::CacheWrite(layer);
    assert(op.reads().map_values(mem)[0] == mem(Buffer::K));
    assert(op.reads().map_values(mem)[1] == mem(Buffer::V));
    assert(op.reads().map_values(mem)[2] == mem(Buffer::Cache(layer)));
    let before = mem(Buffer::Cache(layer));
    let now = after(meaning(model, p), mem, op)(Buffer::Cache(layer));
    let stride = p.dtype.spec_bytes_per_token(p.width) as int;
    let (k, v) = (held(mem, Buffer::K), held(mem, Buffer::V));
    assert(packed(p.math, p.dtype, k).len() == stride);
    assert(packed(p.math, p.dtype, v).len() == stride);
    assert(0 <= t * stride && t * stride + stride <= p.slots * stride) by (nonlinear_arith)
        requires
            0 <= t,
            t + 1 <= p.slots,
            0 <= stride,
    ;
    assert(t < p.pos ==> t * stride + stride <= p.pos * stride) by (nonlinear_arith)
        requires
            0 <= stride,
    ;
    assert(p.pos < t ==> p.pos * stride + stride <= t * stride) by (nonlinear_arith)
        requires
            0 <= stride,
    ;
    assert(0 <= p.pos * stride && p.pos * stride + stride <= p.slots * stride) by (nonlinear_arith)
        requires
            0 <= p.pos,
            p.pos + 1 <= p.slots,
            0 <= stride,
    ;
    assert(now.keys().subrange(t * stride, t * stride + stride) =~= before.keys().subrange(
        t * stride,
        t * stride + stride,
    ));
    assert(now.vals().subrange(t * stride, t * stride + stride) =~= before.vals().subrange(
        t * stride,
        t * stride + stride,
    ));
}

/// The scale of a block of the quantized cache: its largest magnitude over 127, or one
/// where it has none.
pub open spec fn block_scale(m: Math, block: Seq<u32>) -> u32 {
    match peak(block) {
        Some(p) => m(Calc::Div(magnitude(p) as u32, 0x42FE_0000)),
        None => ONE,
    }
}

/// A fused projection holds, for every head, its query and then its gate.
pub proof fn law_queries_and_gates_take_turns(
    model: LlamaModel,
    p: Pass,
    mem: Memory<Contents>,
    h: int,
    d: int,
)
    requires
        0 <= h < model.cfg.head_count,
        0 <= d < model.cfg.head_dim,
    ensures
        ({
            let len = model.cfg.head_dim as int;
            let raw = held(mem, Buffer::QgRaw);
            &&& left(model, p, mem, Op::SplitQg, Buffer::Q)[h * len + d] == raw[h * (2 * len) + d]
            &&& left(model, p, mem, Op::SplitQg, Buffer::QgGate)[h * len + d] == raw[h * (2 * len)
                + len + d]
        }),
{
    reveal(effect);
    let len = model.cfg.head_dim as int;
    assert(Op::SplitQg.reads().map_values(mem)[0] == mem(Buffer::QgRaw));
    lemma_place(h, d, len);
    lemma_in_heads(h, d, len, model.cfg.head_count as int);
    assert(h * (2 * len) == 2 * (h * len)) by (nonlinear_arith);
}

/// What attention gives is multiplied, number by number, with the logistic function of its
/// gate.
pub proof fn law_gates_open_by_the_logistic_function(
    model: LlamaModel,
    p: Pass,
    mem: Memory<Contents>,
    i: int,
)
    requires
        0 <= i < held(mem, Buffer::AttnOut).len(),
    ensures
        ({
            let m = p.math;
            left(model, p, mem, Op::GateAttn, Buffer::AttnOut)[i] == m(
                Calc::Mul(
                    held(mem, Buffer::AttnOut)[i],
                    m(
                        Calc::Div(
                            ONE,
                            m(
                                Calc::Add(
                                    ONE,
                                    m(Calc::Exp(m(Calc::Neg(held(mem, Buffer::QgGate)[i])))),
                                ),
                            ),
                        ),
                    ),
                ),
            )
        }),
{
    reveal(effect);
    assert(Op::GateAttn.reads().map_values(mem)[0] == mem(Buffer::AttnOut));
    assert(Op::GateAttn.reads().map_values(mem)[1] == mem(Buffer::QgGate));
}

// ── Convolutions ────────────────────────────────────────────────────────────

/// What a channel of a causal convolution sees, the oldest first: its numbers of the
/// history, which holds whole inputs one after the other, and that of the input.
pub open spec fn channel_inputs(
    history: Seq<u32>,
    input: Seq<u32>,
    channels: int,
    kernel: int,
    ch: int,
) -> Seq<u32> {
    Seq::new(
        (kernel - 1) as nat,
        |k: int| history[k * channels + ch],
    ).push(input[ch])
}

/// The taps of a channel, the one for the oldest input first.
pub open spec fn channel_taps(weight: Seq<u32>, kernel: int, ch: int) -> Seq<u32> {
    Seq::new(kernel as nat, |k: int| weight[ch * kernel + k])
}

/// A short convolution: of the three thirds of the projection the first, times the last,
/// goes in; what comes out of a channel is the sum of its last inputs with its taps, times
/// the middle third. The history then ends with the input.
pub proof fn law_short_convolutions_weigh_the_last_inputs(
    model: LlamaModel,
    p: Pass,
    mem: Memory<Contents>,
    layer: usize,
    ch: int,
)
    requires
        0 <= ch < model.cfg.embedding_length,
        1 <= model.l_cache,
        conv_of(model, layer) matches Some(c) && c.conv_weight.elements().len()
            >= model.cfg.embedding_length * model.l_cache,
        held(mem, Buffer::ConvHistory(layer)).len() == (model.l_cache - 1)
            * model.cfg.embedding_length,
    ensures
        ({
            let m = p.math;
            let d = model.cfg.embedding_length as int;
            let bcx = held(mem, Buffer::Bcx);
            let history = held(mem, Buffer::ConvHistory(layer));
            let op = Op::ShortConv(layer);
            let input = Seq::new(d as nat, |j: int| m(Calc::Mul(bcx[j], bcx[2 * d + j])));
            let es = (conv_of(model, layer)->0).conv_weight.elements();
            let taps = Seq::new(es.len(), |i: int| value(m, es[i]));
            let next = left(model, p, mem, op, Buffer::ConvHistory(layer));
            &&& left(model, p, mem, op, Buffer::ConvOut)[ch] == m(
                Calc::Mul(
                    bcx[d + ch],
                    dot(
                        m,
                        channel_taps(taps, model.l_cache as int, ch),
                        channel_inputs(history, input, d, model.l_cache as int, ch),
                    ),
                ),
            )
            &&& left(model, p, mem, op, Buffer::Bx) == input
            &&& next == (history + input).subrange(d, history.len() + d)
        }),
{
    reveal(effect);
    let m = p.math;
    let d = model.cfg.embedding_length as int;
    let k = model.l_cache as int;
    let op = Op::ShortConv(layer);
    assert(op.reads().map_values(mem)[0] == mem(Buffer::Bcx));
    assert(op.reads().map_values(mem)[1] == mem(Buffer::ConvHistory(layer)));
    let bcx = held(mem, Buffer::Bcx);
    let history = held(mem, Buffer::ConvHistory(layer));
    let input = Seq::new(d as nat, |j: int| m(Calc::Mul(bcx[j], bcx[2 * d + j])));
    assert(gate_input(m, bcx, d) =~= input);
    let es = (conv_of(model, layer)->0).conv_weight.elements();
    let taps = Seq::new(es.len(), |i: int| value(m, es[i]));
    assert(values(m, es) =~= taps);
    lemma_taps(taps, k, ch, d);
    lemma_window(history, input, d, k, ch);
    assert(left(model, p, mem, op, Buffer::ConvHistory(layer)) =~= (history + input).subrange(
        d,
        history.len() + d,
    ));
}

proof fn lemma_taps(weight: Seq<u32>, kernel: int, ch: int, channels: int)
    requires
        0 <= ch < channels,
        0 < kernel,
        channels * kernel <= weight.len(),
    ensures
        taps(weight, kernel, ch) == channel_taps(weight, kernel, ch),
{
    assert(0 <= ch * kernel && ch * kernel + kernel <= channels * kernel) by (nonlinear_arith)
        requires
            0 <= ch,
            ch + 1 <= channels,
            0 < kernel,
    ;
    assert(taps(weight, kernel, ch) =~= channel_taps(
        weight,
        kernel,
        ch,
    ));
}

proof fn lemma_window(history: Seq<u32>, input: Seq<u32>, channels: int, kernel: int, ch: int)
    requires
        0 < kernel,
    ensures
        window(history, input, channels, kernel, ch) == channel_inputs(
            history,
            input,
            channels,
            kernel,
            ch,
        ),
{
    assert(window(history, input, channels, kernel, ch)
        =~= channel_inputs(history, input, channels, kernel, ch));
}

/// The convolution of a Gated DeltaNet layer: what comes out of a channel is the sum of
/// its last inputs with its taps, times the logistic function of that. The history then
/// ends with the input.
pub proof fn law_delta_net_convolutions_weigh_the_last_inputs(
    model: LlamaModel,
    p: Pass,
    mem: Memory<Contents>,
    layer: usize,
    ch: int,
)
    requires
        model.gdn_dims matches Some(d) && 0 <= ch < d.conv_dim && 1 <= d.d_conv && held(
            mem,
            Buffer::GdnQkv,
        ).len() == d.conv_dim && (delta_of(model, layer) matches Some(g)
            && g.conv_weight.elements().len() >= d.conv_dim * d.d_conv),
    ensures
        ({
            let m = p.math;
            let dims = model.gdn_dims->0;
            let input = held(mem, Buffer::GdnQkv);
            let history = held(mem, Buffer::GdnHistory(layer));
            let op = Op::GdnConv(layer);
            let es = (delta_of(model, layer)->0).conv_weight.elements();
            let taps = Seq::new(es.len(), |i: int| value(m, es[i]));
            let s = dot(
                m,
                channel_taps(taps, dims.d_conv as int, ch),
                channel_inputs(history, input, dims.conv_dim as int, dims.d_conv as int, ch),
            );
            &&& left(model, p, mem, op, Buffer::GdnConv)[ch] == m(
                Calc::Div(s, m(Calc::Add(ONE, m(Calc::Exp(m(Calc::Neg(s))))))),
            )
            &&& left(model, p, mem, op, Buffer::GdnHistory(layer)) == (history + input).subrange(
                dims.conv_dim as int,
                history.len() + dims.conv_dim,
            )
        }),
{
    reveal(effect);
    let m = p.math;
    let dims = model.gdn_dims->0;
    let op = Op::GdnConv(layer);
    assert(op.reads().map_values(mem)[0] == mem(Buffer::GdnQkv));
    assert(op.reads().map_values(mem)[1] == mem(Buffer::GdnHistory(layer)));
    let input = held(mem, Buffer::GdnQkv);
    let history = held(mem, Buffer::GdnHistory(layer));
    let es = (delta_of(model, layer)->0).conv_weight.elements();
    let taps = Seq::new(es.len(), |i: int| value(m, es[i]));
    assert(values(m, es) =~= taps);
    lemma_taps(taps, dims.d_conv as int, ch, dims.conv_dim as int);
    lemma_window(history, input, dims.conv_dim as int, dims.d_conv as int, ch);
    assert(left(model, p, mem, op, Buffer::GdnHistory(layer)) =~= (history + input).subrange(
        dims.conv_dim as int,
        history.len() + dims.conv_dim,
    ));
}

// ── Gated DeltaNet ──────────────────────────────────────────────────────────

/// The write gate of a head is the logistic function of its number, and its decay the
/// exponential of its factor times `ln(1 + exp(x))`, where `x` is its number and its bias
/// together; above 20 that is `x` itself.
pub proof fn law_gates_and_decays(
    model: LlamaModel,
    p: Pass,
    mem: Memory<Contents>,
    layer: usize,
    h: int,
)
    requires
        0 <= h < held(mem, Buffer::GdnBeta).len(),
        h < held(mem, Buffer::GdnAlpha).len(),
        delta_of(model, layer) matches Some(g) && h < g.ssm_dt_bias.elements().len() && h
            < g.ssm_a.elements().len(),
    ensures
        ({
            let m = p.math;
            let op = Op::GateDecay(layer);
            let g = delta_of(model, layer)->0;
            let x = m(
                Calc::Add(
                    held(mem, Buffer::GdnAlpha)[h],
                    value(m, g.ssm_dt_bias.elements()[h]),
                ),
            );
            let soft = if less(0x41A0_0000, x) {
                x
            } else {
                m(Calc::Ln(m(Calc::Add(ONE, m(Calc::Exp(x))))))
            };
            &&& left(model, p, mem, op, Buffer::GdnBeta)[h] == m(
                Calc::Div(
                    ONE,
                    m(
                        Calc::Add(
                            ONE,
                            m(Calc::Exp(m(Calc::Neg(held(mem, Buffer::GdnBeta)[h])))),
                        ),
                    ),
                ),
            )
            &&& left(model, p, mem, op, Buffer::GdnAlpha)[h] == m(
                Calc::Exp(m(Calc::Mul(value(m, g.ssm_a.elements()[h]), soft))),
            )
        }),
{
    reveal(effect);
    let op = Op::GateDecay(layer);
    assert(op.reads().map_values(mem)[0] == mem(Buffer::GdnBeta));
    assert(op.reads().map_values(mem)[1] == mem(Buffer::GdnAlpha));
}

/// Queries and keys of a Gated DeltaNet layer are divided, head by head, by the root of
/// the sum of the squares of their own head; values stay as they are.
pub proof fn law_keys_are_divided_by_their_length(
    model: LlamaModel,
    p: Pass,
    mem: Memory<Contents>,
    h: int,
    a: int,
)
    requires
        model.gdn_dims matches Some(d) && d.key_dim == d.head_k_dim * d.n_k_heads && 0 <= h < 2
            * d.n_k_heads && 0 <= a < d.head_k_dim && 2 * d.key_dim <= held(
            mem,
            Buffer::GdnConv,
        ).len(),
    ensures
        ({
            let m = p.math;
            let dims = model.gdn_dims->0;
            let len = dims.head_k_dim as int;
            let x = held(mem, Buffer::GdnConv);
            let head = x.subrange(h * len, h * len + len);
            let now = left(model, p, mem, Op::L2Norm, Buffer::GdnConv);
            &&& now[h * len + a] == m(
                Calc::Div(
                    x[h * len + a],
                    m(Calc::Sqrt(m(Calc::Add(dot(m, head, head), under_the_root(model, p))))),
                ),
            )
            &&& forall|i: int| 2 * dims.key_dim <= i < x.len() ==> #[trigger] now[i] == x[i]
        }),
{
    reveal(effect);
    let dims = model.gdn_dims->0;
    let len = dims.head_k_dim as int;
    assert(Op::L2Norm.reads().map_values(mem)[0] == mem(Buffer::GdnConv));
    lemma_place(h, a, len);
    lemma_in_heads(h, a, len, 2 * dims.n_k_heads);
    assert((2 * dims.n_k_heads) * len == 2 * (len * dims.n_k_heads)) by (nonlinear_arith);
}

/// The query of value head `h` is the block of numbers at the place of its Q/K head, the
/// key of the same head lies as far behind it as all queries together take, and its value
/// behind all keys. Q/K heads are repeated in turn: value head `h` has the one at `h`
/// modulo their number.
pub proof fn law_heads_have_their_own_queries_and_keys(
    qkv: Seq<u32>,
    dims: GdnDims,
    h: int,
    a: int,
    b: int,
)
    requires
        dims.key_dim == dims.head_k_dim * dims.n_k_heads,
        dims.n_k_heads > 0,
        0 <= h,
        0 <= a < dims.head_k_dim,
        0 <= b < dims.head_v_dim,
        2 * dims.key_dim <= qkv.len(),
    ensures
        ({
            let at = (h % dims.n_k_heads as int) * dims.head_k_dim + a;
            &&& 0 <= at < dims.key_dim
            &&& delta::query(qkv, dims, h)[a] == qkv[at]
            &&& delta::key(qkv, dims, h)[a] == qkv[dims.key_dim + at]
            &&& delta::value(qkv, dims, h, b) == qkv[dims.key_dim
                + dims.key_dim + h * dims.head_v_dim + b]
        }),
{
    let n = dims.n_k_heads as int;
    vstd::arithmetic::div_mod::lemma_mod_bound(h, n);
    lemma_in_heads(h % n, a, dims.head_k_dim as int, n);
    assert(n * dims.head_k_dim == dims.head_k_dim * n) by (nonlinear_arith);
    lemma_in_heads(h % n, dims.head_k_dim - 1, dims.head_k_dim as int, n);
    lemma_in_heads(h % n, 0, dims.head_k_dim as int, n);
}

/// The state of head `h` is a matrix of as many rows as a key has numbers; its states
/// follow each other, row by row.
pub open spec fn cell_at(dims: GdnDims, h: int, a: int, b: int) -> int {
    h * (dims.head_k_dim * dims.head_v_dim) + a * dims.head_v_dim + b
}

/// One step of the delta rule. What the state of head `h` has for its key is compared with
/// its value; the difference, times the write gate, is written under the key into the
/// state, which decays. The output is what the new state has for the query, over the root
/// of the length of a query.
pub proof fn law_one_step_of_the_delta_rule(
    model: LlamaModel,
    p: Pass,
    mem: Memory<Contents>,
    layer: usize,
    h: int,
    a: int,
    b: int,
)
    requires
        model.gdn_dims matches Some(d) && d.key_dim == d.head_k_dim * d.n_k_heads && d.value_dim
            == d.head_v_dim * d.n_v_heads && 0 < d.n_k_heads && 0 <= h < d.n_v_heads && 0 <= a
            < d.head_k_dim && 0 <= b < d.head_v_dim && held(mem, Buffer::GdnConv).len() == 2
            * d.key_dim + d.value_dim,
    ensures
        ({
            let m = p.math;
            let dims = model.gdn_dims->0;
            let op = Op::Recur(layer);
            let x = held(mem, Buffer::GdnConv);
            let s = held(mem, Buffer::GdnState(layer));
            let at = (h % dims.n_k_heads as int) * dims.head_k_dim;
            let k = Seq::new(dims.head_k_dim as nat, |i: int| x[dims.key_dim + at + i]);
            let q = Seq::new(dims.head_k_dim as nat, |i: int| x[at + i]);
            let v = x[2 * dims.key_dim + h * dims.head_v_dim + b];
            let column = Seq::new(dims.head_k_dim as nat, |i: int| s[cell_at(dims, h, i, b)]);
            let delta = m(
                Calc::Mul(
                    held(mem, Buffer::GdnBeta)[h],
                    m(Calc::Sub(v, dot(m, column, k))),
                ),
            );
            let now = left(model, p, mem, op, Buffer::GdnState(layer));
            let next = Seq::new(dims.head_k_dim as nat, |i: int| now[cell_at(dims, h, i, b)]);
            let scale = m(Calc::Div(ONE, m(Calc::Sqrt(m(Calc::OfCount(dims.head_k_dim))))));
            &&& now[cell_at(dims, h, a, b)] == m(
                Calc::Add(
                    m(Calc::Mul(held(mem, Buffer::GdnAlpha)[h], s[cell_at(dims, h, a, b)])),
                    m(Calc::Mul(k[a], delta)),
                ),
            )
            &&& left(model, p, mem, op, Buffer::GdnOut)[h * dims.head_v_dim + b] == fold2(
                |acc: u32, cell: u32, y: u32|
                    m(Calc::Add(acc, m(Calc::Mul(m(Calc::Mul(scale, y)), cell)))),
                ZERO,
                next,
                q,
            )
        }),
{
    reveal(effect);
    let m = p.math;
    let dims = model.gdn_dims->0;
    let op = Op::Recur(layer);
    assert(op.reads().map_values(mem)[0] == mem(Buffer::GdnConv));
    assert(op.reads().map_values(mem)[1] == mem(Buffer::GdnBeta));
    assert(op.reads().map_values(mem)[2] == mem(Buffer::GdnAlpha));
    assert(op.reads().map_values(mem)[3] == mem(Buffer::GdnState(layer)));
    let x = held(mem, Buffer::GdnConv);
    let s = held(mem, Buffer::GdnState(layer));
    let at = (h % dims.n_k_heads as int) * dims.head_k_dim;
    let k = Seq::new(dims.head_k_dim as nat, |i: int| x[dims.key_dim + at + i]);
    let q = Seq::new(dims.head_k_dim as nat, |i: int| x[at + i]);
    let nv = 2 * dims.key_dim + dims.value_dim;
    assert(delta::key(x, dims, h) =~= k && delta::query(
        x,
        dims,
        h,
    ) =~= q) by {
        assert forall|i: int| 0 <= i < dims.head_k_dim implies delta::key(
            x,
            dims,
            h,
        )[i] == k[i] && delta::query(x, dims, h)[i] == q[i] by {
            law_heads_have_their_own_queries_and_keys(x, dims, h, i, b);
        }
        let n = dims.n_k_heads as int;
        vstd::arithmetic::div_mod::lemma_mod_bound(h, n);
        lemma_in_heads(h % n, dims.head_k_dim - 1, dims.head_k_dim as int, n);
        lemma_in_heads(h % n, 0, dims.head_k_dim as int, n);
        assert(n * dims.head_k_dim == dims.head_k_dim * n) by (nonlinear_arith);
    }
    assert forall|i: int| 0 <= i < dims.head_k_dim implies #[trigger] cell_at(dims, h, i, b)
        == delta::cell(dims, h, i, b) by {
        lemma_cells(dims, h, i, b);
    }
    let column = Seq::new(dims.head_k_dim as nat, |i: int| s[cell_at(dims, h, i, b)]);
    assert(delta::state_column(s, dims, h, b) =~= column);
    let now = left(model, p, mem, op, Buffer::GdnState(layer));
    let next = Seq::new(dims.head_k_dim as nat, |i: int| now[cell_at(dims, h, i, b)]);
    let new = stepped(
        m,
        s,
        x,
        held(mem, Buffer::GdnBeta),
        held(mem, Buffer::GdnAlpha),
        dims,
    );
    assert(now == new);
    assert(delta::state_column(new, dims, h, b) =~= next);
    lemma_cells(dims, h, a, b);
    assert(delta_len(dims, h, a, b));
    lemma_place(h, b, dims.head_v_dim as int);
    lemma_in_heads(h, b, dims.head_v_dim as int, dims.n_v_heads as int);
    assert(dims.n_v_heads * dims.head_v_dim == dims.head_v_dim * dims.n_v_heads) by (nonlinear_arith);
    let scale = m(Calc::Div(ONE, m(Calc::Sqrt(m(Calc::OfCount(dims.head_k_dim))))));
    let taking = |acc: u32, cell: u32, y: u32|
        m(Calc::Add(acc, m(Calc::Mul(m(Calc::Mul(scale, y)), cell))));
    assert(readings(
        m,
        query_scale(m, dims),
    ) =~= taking);
}

/// Whether a cell lies within the states and is taken apart again into where it stands.
spec fn delta_len(dims: GdnDims, h: int, a: int, b: int) -> bool {
    let i = cell_at(dims, h, a, b);
    &&& 0 <= i < delta::state_len(dims)
    &&& cell_head(dims, i) == h
    &&& cell_row(dims, i) == a
    &&& cell_column(dims, i) == b
}

proof fn lemma_cells(dims: GdnDims, h: int, a: int, b: int)
    requires
        0 <= h < dims.n_v_heads,
        0 <= a < dims.head_k_dim,
        0 <= b < dims.head_v_dim,
    ensures
        cell_at(dims, h, a, b) == delta::cell(dims, h, a, b),
        delta_len(dims, h, a, b),
{
    let (hk, hv, n) = (dims.head_k_dim as int, dims.head_v_dim as int, dims.n_v_heads as int);
    assert(h * (hk * hv) + a * hv + b == (h * hk + a) * hv + b) by (nonlinear_arith);
    let r = h * hk + a;
    lemma_in_heads(h, a, hk, n);
    lemma_place(h, a, hk);
    lemma_in_heads(r, b, hv, n * hk);
    lemma_place(r, b, hv);
    assert(cell_at(dims, h, a, b) == r * hv + b);
}

/// What a Gated DeltaNet layer gives is normed head by head, as the residual stream is,
/// and then multiplied, number by number, with `z` times the logistic function of `z`.
pub proof fn law_the_output_is_normed_and_gated(
    model: LlamaModel,
    p: Pass,
    mem: Memory<Contents>,
    layer: usize,
    h: int,
    d: int,
)
    requires
        model.gdn_dims matches Some(dims) && 0 <= h && 0 <= d < dims.head_v_dim && h
            * dims.head_v_dim + d < held(mem, Buffer::GdnOut).len(),
        delta_of(model, layer) matches Some(g) && (model.gdn_dims->0).head_v_dim
            <= g.ssm_norm.elements().len(),
    ensures
        ({
            let m = p.math;
            let len = (model.gdn_dims->0).head_v_dim as int;
            let i = h * len + d;
            let x = held(mem, Buffer::GdnOut);
            let z = held(mem, Buffer::GdnZ)[i];
            let w = value(m, (delta_of(model, layer)->0).ssm_norm.elements()[d]);
            left(model, p, mem, Op::GatedNorm(layer), Buffer::GdnOut)[i] == m(
                Calc::Mul(
                    m(
                        Calc::Div(
                            m(Calc::Mul(w, x[i])),
                            root_mean_square(
                                m,
                                under_the_root(model, p),
                                x.subrange(h * len, h * len + len),
                            ),
                        ),
                    ),
                    m(Calc::Div(z, m(Calc::Add(ONE, m(Calc::Exp(m(Calc::Neg(z)))))))),
                ),
            )
        }),
{
    reveal(effect);
    let op = Op::GatedNorm(layer);
    let len = (model.gdn_dims->0).head_v_dim as int;
    assert(op.reads().map_values(mem)[0] == mem(Buffer::GdnOut));
    assert(op.reads().map_values(mem)[1] == mem(Buffer::GdnZ));
    lemma_place(h, d, len);
}

// ── Products ────────────────────────────────────────────────────────────────

/// Number `r` of the product of a matrix with a vector weighs the whole vector with row
/// `r` of the matrix; what lies behind the rows of the matrix stays. A Q5_K matrix that
/// is no projection of a feed-forward block meets the vector quantized.
pub proof fn law_products_go_row_by_row(
    model: LlamaModel,
    p: Pass,
    mem: Memory<Contents>,
    matrix: Matrix,
    from: Buffer,
    to: Buffer,
    r: int,
)
    requires
        wraps(p.math),
        0 <= r < held(mem, to).len(),
        model.spec_matrix_name(matrix) matches Some(name) && (tensor(model, name) matches Some(t)
            && t.n_dims != 1 && t.dims[0] == held(mem, from).len() && row_weights(
            t,
            model.weights.bytes(),
            r,
            t.dims[0] as nat,
        ).len() == t.dims[0] && (t.ggml_type != GgmlType::Q5_K || matrix matches
        Matrix::Layer(_, Role::FfnGate) || matrix matches Matrix::Layer(_, Role::FfnUp))),
    ensures
        ({
            let t = tensor(model, model.spec_matrix_name(matrix)->0)->0;
            let x = held(mem, from);
            left(model, p, mem, Op::MatMul(matrix, from, to), to)[r] == if r < rows_of(
                model,
                matrix,
            ) {
                weighed(
                    p.math,
                    row_weights(t, model.weights.bytes(), r, x.len()),
                    x,
                ) % numbers_in_all()
            } else {
                held(mem, to)[r] as int
            }
        }),
{
    reveal(effect);
    let op = Op::MatMul(matrix, from, to);
    assert(op.reads().map_values(mem)[0] == mem(from));
    assert(op.reads().map_values(mem)[1] == mem(to));
    let t = tensor(model, model.spec_matrix_name(matrix)->0)->0;
    law_products_weigh_their_row(p.math, t, model.weights.bytes(), r as nat, held(mem, from));
}

// ── Passes ──────────────────────────────────────────────────────────────────

/// The tokens of a batch run one after the other: the one with the number `n` at the
/// position `n` behind the first, in the memory that those before it left, through all
/// operations of a pass.
pub proof fn law_tokens_run_one_after_the_other(
    model: LlamaModel,
    m: Math,
    tokens: Seq<u32>,
    pos: usize,
    cache: KvCache,
    before: Memory<Contents>,
    n: int,
)
    requires
        0 <= n < tokens.len(),
        pos + n <= usize::MAX,
    ensures
        model.after_tokens(m, tokens, pos, cache, before, 0) == before,
        model.after_tokens(m, tokens, pos, cache, before, n + 1) == run(
            meaning(
                model,
                (Pass {
                    math: m,
                    token: tokens[n],
                    pos: (pos + n) as usize,
                    dtype: cache@.dtype,
                    layers: cache@.k.len(),
                    slots: cache@.max_seq_len,
                    width: cache@.head_dim_kv,
                }),
            ),
            model.after_tokens(m, tokens, pos, cache, before, n),
            forward(shapes_of(model.layers@)),
        ),
{
}

/// Operations run one after the other, each in the memory that those before it left; what
/// an operation does not write stays.
pub proof fn law_operations_run_one_after_the_other(
    model: LlamaModel,
    p: Pass,
    mem: Memory<Contents>,
    ops: Seq<Op>,
    op: Op,
    b: Buffer,
)
    ensures
        run(meaning(model, p), mem, Seq::empty()) == mem,
        run(meaning(model, p), mem, ops.push(op)) == after(
            meaning(model, p),
            run(meaning(model, p), mem, ops),
            op,
        ),
        !op.writes(b) ==> after(meaning(model, p), mem, op)(b) == mem(b),
{
    assert(ops.push(op).drop_last() =~= ops);
}

/// But for products, whose output is named, the residual stream is written by the embedding
/// and by additions alone, the normed one by norms, and the cache and the states of a layer
/// each by the one operation that is for them.
pub proof fn law_buffers_are_written_by_their_own_operations(op: Op, layer: usize)
    requires
        !(op is MatMul),
    ensures
        op.writes(Buffer::X) <==> op is Embed || op is AddResidual,
        op.writes(Buffer::Xn) <==> op is Norm,
        op.writes(Buffer::AttnOut) <==> op is Attend || op is GateAttn,
        op.writes(Buffer::FfnAct) <==> op is SiluMul,
        op.writes(Buffer::Cache(layer)) <==> op == Op::CacheWrite(layer),
        op.writes(Buffer::GdnState(layer)) <==> op == Op::Recur(layer),
        op.writes(Buffer::GdnHistory(layer)) <==> op == Op::GdnConv(layer),
        op.writes(Buffer::ConvHistory(layer)) <==> op == Op::ShortConv(layer),
        !op.writes(Buffer::Logits),
{
}

/// What the operations of a layer work with: the kernel of a short convolution or the small
/// tensors of a Gated DeltaNet layer are those of its own mixer; of a matrix all rows are
/// multiplied, of the two projections of a feed-forward block as many as the first one has;
/// where a part of a head is rotated it is as long as the model says, and else the whole
/// head.
pub proof fn law_what_operations_work_with(model: LlamaModel, i: usize, matrix: Matrix)
    requires
        i < model.layers@.len(),
        model.cfg.head_dim <= usize::MAX,
    ensures
        match model.layers@[i as int].mixer {
            Mixer::ShortConv(c) => conv_of(model, i) == Some(c) && delta_of(model, i) is None,
            Mixer::GatedDeltaNet(g) => delta_of(model, i) == Some(g) && conv_of(model, i) is None,
            _ => conv_of(model, i) is None && delta_of(model, i) is None,
        },
        rotated_of(model, true) == model.n_rot,
        rotated_of(model, false) == model.cfg.head_dim,
        matrix matches Matrix::Layer(j, Role::FfnGate) || matrix matches Matrix::Layer(
            j,
            Role::FfnUp,
        ) || (model.spec_matrix_name(matrix) matches Some(name) ==> (tensor(model, name) matches Some(
            t,
        ) ==> t.n_dims != 1 ==> rows_of(model, matrix) == product(t.dims.skip(1)))),
        tensor(model, model.layers@[i as int].ffn_gate@) matches Some(t) ==> rows_of(
            model,
            Matrix::Layer(i, Role::FfnUp),
        ) == t.dims[1] && rows_of(model, Matrix::Layer(i, Role::FfnGate)) == t.dims[1],
        gate_rows(model, i) == rows_of(model, Matrix::Layer(i, Role::FfnGate)),
{
}

} // verus!
