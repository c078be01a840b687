//! What a forward pass computes on the GPU: every launch by what its kernel gives for a
//! whole buffer, and the pass that the launches make up.
//!
//! The GPU keeps keys and values as numbers, divides before it multiplies in a norm,
//! scales a score by multiplication, divides by the sum of the weights last, and adds up a
//! product over the lanes of a workgroup. All else it computes as the CPU does.

use vstd::prelude::*;

use crate::calc::{fold2, lemma_accumulated_is_fold, number, sum, values, Calc, Math};
use crate::model::llama::conv::advanced;
use crate::model::llama::load::LlamaModel;
use crate::model::llama::meaning::{
    added, combined, combined_over, conv_of, decays, delta_of, effect, eps_of, gate_input,
    gate_rows, head_norm_name,
    heads_gated, heads_normed, heads_rotated, keys_normed, read_out, rotated_of, row_values,
    short_convolved, silu_convolved, split_off, stepped, tensor, write_gates, Contents, Pass,
};
use crate::model::llama::program::{
    after, expand, forward, launched_forward, law_both_passes_agree, run, run_launches, shapes_of,
    Buffer, Launch, Meaning, Memory, NormRef, Op,
};
use crate::model::matmul::{element_products, quant_products, scaled_sums};
use crate::ops::kernels::attention::{exponentials, scaled_score, weighted_value};
use crate::ops::kernels::elementwise::{appended, sigmoid_gated};
use crate::ops::kernels::half::half_number;
use crate::ops::kernels::laws::norm_and_rotation;
use crate::ops::kernels::norm::rms_normed;
use crate::ops::lanes::{
    are_lane_sums, halved, is_partial, is_workgroup_product, lane_blocks, lane_deltas, lane_share,
    reduced, LaneOrder,
};
use crate::quant::block::{blocks_of, Element};
use crate::quant::q8_0::{block_part, block_quants};
use crate::quant::elements_of;
use crate::single::ZERO;
use crate::types::{GgmlType, TensorView};

verus! {

/// What a buffer of the GPU holds: numbers, or the keys and values of a cache layer, which
/// are numbers too.
pub enum Held {
    Numbers(Seq<u32>),
    Cache(Seq<u32>, Seq<u32>),
}

impl Held {
    /// The numbers.
    pub open spec fn numbers(self) -> Seq<u32> {
        match self {
            Held::Numbers(s) => s,
            Held::Cache(_, _) => Seq::empty(),
        }
    }

    /// The keys.
    pub open spec fn keys(self) -> Seq<u32> {
        match self {
            Held::Numbers(_) => Seq::empty(),
            Held::Cache(k, _) => k,
        }
    }

    /// The values.
    pub open spec fn vals(self) -> Seq<u32> {
        match self {
            Held::Numbers(_) => Seq::empty(),
            Held::Cache(_, v) => v,
        }
    }
}

// ── Products ────────────────────────────────────────────────────────────────

/// The calculations of a kernel: those of the calculator, with half-precision numbers
/// taken apart by hand.
pub open spec fn kernel_math(m: Math) -> Math {
    |c: Calc|
        match c {
            Calc::OfHalf(bits) => half_number(m, bits),
            _ => m(c),
        }
}

/// The sums within the blocks of a Q8_0 row that a lane owns.
pub open spec fn lane_sums(m: Math, data: Seq<u8>, lane: int, x: Seq<u32>) -> Seq<u32> {
    Seq::new(
        lane_blocks(lane, blocks_of(x.len(), 32) as int) as nat,
        |j: int|
            fold2(
                quant_products(m),
                ZERO,
                block_quants(data, x.len(), lane + 64 * j),
                block_part(x, lane + 64 * j),
            ),
    )
}

/// The elements that a lane visits, in the order of the row's type.
pub open spec fn lane_order(ty: GgmlType) -> LaneOrder {
    if ty == GgmlType::Q6_K {
        LaneOrder::Slots
    } else {
        LaneOrder::Units
    }
}

/// The share of a lane in the product of a row with a vector.
pub open spec fn lane_part(m: Math, ty: GgmlType, data: Seq<u8>, lane: int, x: Seq<u32>) -> u32 {
    match ty {
        GgmlType::Q8_0 => fold2(
            scaled_sums(m),
            ZERO,
            lane_deltas(data, lane, x.len()),
            lane_sums(m, data, lane, x),
        ),
        GgmlType::Q4_K | GgmlType::Q5_K | GgmlType::Q6_K => fold2(
            element_products(m),
            ZERO,
            lane_share(lane_order(ty), lane, elements_of(ty, data, x.len())),
            lane_share(lane_order(ty), lane, x),
        ),
        _ => ZERO,
    }
}

/// Parts added up in halves.
pub open spec fn sum_in_halves(m: Math, parts: Seq<u32>) -> u32
    decreases parts.len(),
{
    if parts.len() <= 1 {
        parts[0]
    } else {
        let half = parts.len() / 2;
        sum_in_halves(
            m,
            Seq::new(half, |i: int| m(Calc::Add(parts[i], parts[i + half as int]))),
        )
    }
}

/// The product of a row with a vector, as a workgroup computes it.
pub open spec fn workgroup_dot(m: Math, ty: GgmlType, data: Seq<u8>, x: Seq<u32>) -> u32 {
    sum_in_halves(m, Seq::new(64, |lane: int| lane_part(kernel_math(m), ty, data, lane, x)))
}

/// The product of a tensor with a vector on the GPU.
pub open spec fn device_product(m: Math, t: TensorView, data: Seq<u8>, x: Seq<u32>) -> Seq<u32> {
    Seq::new(
        t.row_count(),
        |i: int| workgroup_dot(m, t.ggml_type, data.skip(t.row_offset(i as nat) as int), x),
    )
}

proof fn lemma_reduced<P: Fn(u32, u32) -> u32>(m: Math, parts: Seq<u32>, plus: P, v: u32)
    requires
        parts.len() > 0,
        reduced(parts, plus, v),
        forall|a: u32, b: u32, r: u32| #[trigger]
            plus.ensures((a, b), r) ==> r == m(Calc::Add(a, b)),
    ensures
        v == sum_in_halves(m, parts),
    decreases parts.len(),
{
    if parts.len() > 1 {
        let half = choose|half: Seq<u32>|
            {
                &&& half.len() == parts.len() / 2
                &&& #[trigger] halved(parts, plus, half)
                &&& reduced(half, plus, v)
            };
        let n = parts.len() / 2;
        let sums = Seq::new(n, |i: int| m(Calc::Add(parts[i], parts[i + n as int])));
        assert forall|i: int| 0 <= i < n implies half[i] == sums[i] by {
            assert(plus.ensures((parts[i], parts[i + half.len()]), half[i]));
        }
        assert(half =~= sums);
        lemma_reduced(m, half, plus, v);
    }
}

proof fn lemma_lane_part<
    W: Fn(u32, i32, u32) -> u32,
    S: Fn(u32, u16, u32) -> u32,
    E: Fn(u32, Element, u32) -> u32,
>(
    m: Math,
    ty: GgmlType,
    data: Seq<u8>,
    lane: int,
    x: Seq<u32>,
    within: W,
    scaled: S,
    take_in: E,
    v: u32,
)
    requires
        is_partial(ty.spec_id(), data, lane, x, ZERO, within, scaled, take_in, v),
        forall|a: u32, q: i32, y: u32, r: u32| #[trigger]
            within.ensures((a, q, y), r) ==> r == quant_products(m)(a, q, y),
        forall|a: u32, d: u16, y: u32, r: u32| #[trigger]
            scaled.ensures((a, d, y), r) ==> r == scaled_sums(m)(a, d, y),
        forall|a: u32, e: Element, y: u32, r: u32| #[trigger]
            take_in.ensures((a, e, y), r) ==> r == element_products(m)(a, e, y),
    ensures
        v == lane_part(m, ty, data, lane, x),
{
    if ty == GgmlType::Q8_0 {
        let sums = choose|sums: Seq<u32>|
            {
                &&& sums.len() == lane_blocks(lane, blocks_of(x.len(), 32) as int)
                &&& are_lane_sums(data, lane, x, ZERO, within, sums)
                &&& #[trigger] crate::quant::block::accumulated(
                    scaled,
                    ZERO,
                    lane_deltas(data, lane, x.len()),
                    sums,
                    v,
                )
            };
        assert forall|j: int| 0 <= j < sums.len() implies #[trigger] sums[j] == lane_sums(
            m,
            data,
            lane,
            x,
        )[j] by {
            lemma_accumulated_is_fold(
                within,
                quant_products(m),
                ZERO,
                block_quants(data, x.len(), lane + 64 * j),
                block_part(x, lane + 64 * j),
                sums[j],
            );
        }
        assert(sums =~= lane_sums(m, data, lane, x));
        lemma_accumulated_is_fold(
            scaled,
            scaled_sums(m),
            ZERO,
            lane_deltas(data, lane, x.len()),
            sums,
            v,
        );
    } else if ty == GgmlType::Q4_K || ty == GgmlType::Q5_K || ty == GgmlType::Q6_K {
        lemma_accumulated_is_fold(
            take_in,
            element_products(m),
            ZERO,
            lane_share(lane_order(ty), lane, elements_of(ty, data, x.len())),
            lane_share(lane_order(ty), lane, x),
            v,
        );
    }
}

/// What a workgroup of the matmul kernel computes, given the calculations of a kernel, is
/// the product of a row with a vector as the pass on the GPU has it.
pub proof fn law_workgroups_compute_the_product<
    W: Fn(u32, i32, u32) -> u32,
    S: Fn(u32, u16, u32) -> u32,
    E: Fn(u32, Element, u32) -> u32,
    P: Fn(u32, u32) -> u32,
>(
    m: Math,
    ty: GgmlType,
    data: Seq<u8>,
    x: Seq<u32>,
    within: W,
    scaled: S,
    take_in: E,
    plus: P,
    v: u32,
)
    requires
        is_workgroup_product(ty.spec_id(), data, x, ZERO, within, scaled, take_in, plus, v),
        forall|a: u32, q: i32, y: u32, r: u32| #[trigger]
            within.ensures((a, q, y), r) ==> r == quant_products(kernel_math(m))(a, q, y),
        forall|a: u32, d: u16, y: u32, r: u32| #[trigger]
            scaled.ensures((a, d, y), r) ==> r == scaled_sums(kernel_math(m))(a, d, y),
        forall|a: u32, e: Element, y: u32, r: u32| #[trigger]
            take_in.ensures((a, e, y), r) ==> r == element_products(kernel_math(m))(a, e, y),
        forall|a: u32, b: u32, r: u32| #[trigger]
            plus.ensures((a, b), r) ==> r == m(Calc::Add(a, b)),
    ensures
        v == workgroup_dot(m, ty, data, x),
{
    let k = kernel_math(m);
    let parts = choose|parts: Seq<u32>|
        {
            &&& parts.len() == 64
            &&& forall|lane: int|
                0 <= lane < 64 ==> is_partial(
                    ty.spec_id(),
                    data,
                    lane,
                    x,
                    ZERO,
                    within,
                    scaled,
                    take_in,
                    #[trigger] parts[lane],
                )
            &&& #[trigger] reduced(parts, plus, v)
        };
    let shares = Seq::new(64, |lane: int| lane_part(k, ty, data, lane, x));
    assert forall|lane: int| 0 <= lane < 64 implies parts[lane] == shares[lane] by {
        lemma_lane_part(k, ty, data, lane, x, within, scaled, take_in, parts[lane]);
    }
    assert(parts =~= shares);
    lemma_reduced(m, parts, plus, v);
}

// ── Attention ───────────────────────────────────────────────────────────────

/// The scores of query head `h` for the keys up to a position.
pub open spec fn device_scores(
    m: Math,
    q: Seq<u32>,
    keys: Seq<u32>,
    h: int,
    pos: int,
    len: int,
    kv_heads: int,
    group: int,
) -> Seq<u32> {
    Seq::new((pos + 1) as nat, |t: int| scaled_score(m, q, keys, h, t, len, kv_heads, group))
}

/// What attention gives on the GPU.
pub open spec fn device_attended(
    m: Math,
    q: Seq<u32>,
    keys: Seq<u32>,
    vals: Seq<u32>,
    pos: int,
    heads: int,
    kv_heads: int,
    len: int,
) -> Seq<u32> {
    let group = heads / kv_heads;
    Seq::new(
        (heads * len) as nat,
        |i: int|
            {
                let h = i / len;
                let raised = exponentials(
                    m,
                    device_scores(m, q, keys, h, pos, len, kv_heads, group),
                );
                weighted_value(m, vals, raised, sum(m, raised), h, i % len, len, kv_heads, group)
            },
    )
}

/// The three kernels of attention, one after the other, leave what attention gives: the
/// first one a row of scores for each head, the second one the exponentials of that row
/// and their sum, and the third one each element of the result.
pub proof fn law_attention_kernels_compute_attention(
    m: Math,
    q: Seq<u32>,
    keys: Seq<u32>,
    vals: Seq<u32>,
    pos: int,
    heads: int,
    kv_heads: int,
    len: int,
    max_seq: int,
    scores: Seq<u32>,
    weights: Seq<u32>,
    sums: Seq<u32>,
    out: Seq<u32>,
)
    requires
        0 <= pos < max_seq,
        0 < kv_heads <= heads,
        0 < len,
        scores.len() == heads * max_seq,
        weights.len() == heads * max_seq,
        out.len() == heads * len,
        forall|h: int, t: int|
            0 <= h < heads && 0 <= t <= pos ==> scores[#[trigger] (h * max_seq + t)]
                == scaled_score(m, q, keys, h, t, len, kv_heads, heads / kv_heads),
        forall|h: int|
            0 <= h < heads ==> {
                let row = scores.subrange(h * max_seq, h * max_seq + pos + 1);
                &&& weights.subrange(h * max_seq, h * max_seq + pos + 1) == exponentials(m, row)
                &&& #[trigger] sums[h] == sum(m, exponentials(m, row))
            },
        forall|i: int|
            0 <= i < heads * len ==> #[trigger] out[i] == weighted_value(
                m,
                vals,
                weights.subrange(i / len * max_seq, i / len * max_seq + pos + 1),
                sums[i / len],
                i / len,
                i % len,
                len,
                kv_heads,
                heads / kv_heads,
            ),
    ensures
        out == device_attended(m, q, keys, vals, pos, heads, kv_heads, len),
{
    let group = heads / kv_heads;
    let all = device_attended(m, q, keys, vals, pos, heads, kv_heads, len);
    assert forall|i: int| 0 <= i < heads * len implies out[i] == all[i] by {
        let h = i / len;
        assert(0 <= h < heads) by (nonlinear_arith)
            requires
                0 <= i < heads * len,
                0 < len,
                h == i / len,
        ;
        let from = h * max_seq;
        assert(0 <= from && from + max_seq <= heads * max_seq) by (nonlinear_arith)
            requires
                0 <= h,
                h + 1 <= heads,
                0 < max_seq,
                from == h * max_seq,
        ;
        let row = scores.subrange(from, from + pos + 1);
        let expected = device_scores(m, q, keys, h, pos, len, kv_heads, group);
        assert forall|t: int| 0 <= t <= pos implies row[t] == expected[t] by {
            assert(scores[h * max_seq + t] == scaled_score(
                m,
                q,
                keys,
                h,
                t,
                len,
                kv_heads,
                group,
            ));
        }
        assert(row =~= expected);
        assert(sums[h] == sum(m, exponentials(m, row)));
    }
    assert(out =~= all);
}

// ── The meaning of the operations ───────────────────────────────────────────

/// What an operation puts into a buffer that it writes, from what the buffers that it
/// reads hold, on the GPU. The input of a short convolution stays within its kernel; it
/// is given here for the buffer that it has on the CPU.
#[verifier::opaque]
pub open spec fn device_effect(
    model: LlamaModel,
    p: Pass,
    op: Op,
    b: Buffer,
    inputs: Seq<Held>,
) -> Held {
    let m = p.math;
    let eps = eps_of(m, model);
    let theta = number(m, model.cfg.rope_freq_base);
    let len = model.cfg.head_dim as int;
    let a = inputs[0].numbers();
    match op {
        Op::Embed => Held::Numbers(
            row_values(m, model, tensor(model, model.token_embd@)->0, p.token as nat),
        ),
        Op::Norm(n) => Held::Numbers(
            rms_normed(m, eps, values(m, (model.spec_norm_weights(n)->0).elements()), a),
        ),
        Op::MatMul(matrix, _, _) => Held::Numbers(
            device_product(
                m,
                tensor(model, model.spec_matrix_name(matrix)->0)->0,
                model.weights.bytes(),
                a,
            ),
        ),
        Op::NormQ(i) => Held::Numbers(
            heads_normed(
                m,
                eps,
                row_values(m, model, tensor(model, head_norm_name(model, i, true)->0)->0, 0),
                a,
                len,
            ),
        ),
        Op::NormK(i) => Held::Numbers(
            heads_normed(
                m,
                eps,
                row_values(m, model, tensor(model, head_norm_name(model, i, false)->0)->0, 0),
                a,
                len,
            ),
        ),
        Op::RotateQ(partial) | Op::RotateK(partial) => Held::Numbers(
            heads_rotated(m, a, len, rotated_of(model, partial), p.pos, theta),
        ),
        Op::CacheWrite(_) => Held::Cache(
            appended(inputs[2].keys(), a, p.pos as int),
            appended(inputs[2].vals(), inputs[1].numbers(), p.pos as int),
        ),
        Op::Attend(_) => Held::Numbers(
            device_attended(
                m,
                a,
                inputs[1].keys(),
                inputs[1].vals(),
                p.pos as int,
                model.cfg.head_count as int,
                model.cfg.head_count_kv as int,
                len,
            ),
        ),
        Op::SplitQg => Held::Numbers(
            split_off(a, model.cfg.head_count as int, len, b == Buffer::QgGate),
        ),
        Op::GateAttn => Held::Numbers(sigmoid_gated(m, a, inputs[1].numbers())),
        Op::ShortConv(i) => {
            let d = model.cfg.embedding_length as int;
            let history = inputs[1].numbers();
            Held::Numbers(
                if b == Buffer::ConvOut {
                    short_convolved(
                        m,
                        history,
                        values(m, (conv_of(model, i)->0).conv_weight.elements()),
                        a,
                        d,
                        model.l_cache as int,
                    )
                } else if b == Buffer::Bx {
                    gate_input(m, a, d)
                } else {
                    advanced(history, gate_input(m, a, d))
                },
            )
        },
        Op::GateDecay(i) => Held::Numbers(
            if b == Buffer::GdnBeta {
                write_gates(m, a)
            } else {
                decays(
                    m,
                    inputs[1].numbers(),
                    values(m, (delta_of(model, i)->0).ssm_dt_bias.elements()),
                    values(m, (delta_of(model, i)->0).ssm_a.elements()),
                )
            },
        ),
        Op::GdnConv(i) => {
            let history = inputs[1].numbers();
            Held::Numbers(
                if b == Buffer::GdnConv {
                    silu_convolved(
                        m,
                        history,
                        values(m, (delta_of(model, i)->0).conv_weight.elements()),
                        a,
                        model.gdn_dims->0,
                    )
                } else {
                    advanced(history, a)
                },
            )
        },
        Op::L2Norm => Held::Numbers(keys_normed(m, eps, a, model.gdn_dims->0)),
        Op::Recur(_) => {
            let dims = model.gdn_dims->0;
            let next = stepped(
                m,
                inputs[3].numbers(),
                a,
                inputs[1].numbers(),
                inputs[2].numbers(),
                dims,
            );
            Held::Numbers(
                if b == Buffer::GdnOut {
                    read_out(m, next, a, dims)
                } else {
                    next
                },
            )
        },
        Op::GatedNorm(i) => Held::Numbers(
            heads_gated(
                m,
                eps,
                values(m, (delta_of(model, i)->0).ssm_norm.elements()),
                a,
                inputs[1].numbers(),
                (model.gdn_dims->0).head_v_dim as int,
            ),
        ),
        Op::SiluMul(_) => Held::Numbers(combined(m, a, inputs[1].numbers())),
        Op::AddResidual => Held::Numbers(added(m, a, inputs[1].numbers())),
    }
}

/// What the operations compute in a pass on the GPU.
pub open spec fn device_meaning(model: LlamaModel, p: Pass) -> Meaning<Held> {
    |op: Op, b: Buffer, inputs: Seq<Held>| device_effect(model, p, op, b, inputs)
}

/// The memory of the GPU after a launch: that of a single operation, the kernel that
/// normalizes and rotates heads in place, or the one that adds the residual and
/// normalizes the sum.
pub open spec fn after_launch(
    model: LlamaModel,
    p: Pass,
    mem: Memory<Held>,
    launch: Launch,
) -> Memory<Held> {
    let m = p.math;
    let eps = eps_of(m, model);
    match launch {
        Launch::One(op) => after(device_meaning(model, p), mem, op),
        Launch::NormRotateQ(i, partial) => |b: Buffer|
            if b == Buffer::Q {
                Held::Numbers(heads_launched(model, p, i, true, partial, mem(b).numbers()))
            } else {
                mem(b)
            },
        Launch::NormRotateK(i, partial) => |b: Buffer|
            if b == Buffer::K {
                Held::Numbers(heads_launched(model, p, i, false, partial, mem(b).numbers()))
            } else {
                mem(b)
            },
        Launch::AddNorm(n) => {
            let total = added(m, mem(Buffer::X).numbers(), mem(Buffer::Proj).numbers());
            |b: Buffer|
                if b == Buffer::X {
                    Held::Numbers(total)
                } else if b == Buffer::Xn {
                    Held::Numbers(
                        rms_normed(
                            m,
                            eps,
                            values(m, (model.spec_norm_weights(n)->0).elements()),
                            total,
                        ),
                    )
                } else {
                    mem(b)
                }
        },
    }
}

/// What the kernel that normalizes and rotates heads makes of queries or keys.
pub open spec fn heads_launched(
    model: LlamaModel,
    p: Pass,
    i: usize,
    queries: bool,
    partial: bool,
    x: Seq<u32>,
) -> Seq<u32> {
    let m = p.math;
    norm_and_rotation(
        m,
        eps_of(m, model),
        row_values(m, model, tensor(model, head_norm_name(model, i, queries)->0)->0, 0),
        model.cfg.head_dim as int,
        rotated_of(model, partial),
        p.pos,
        number(m, model.cfg.rope_freq_base),
    )(x)
}

/// The memory of the GPU after launches, one after the other.
pub open spec fn after_launches(
    model: LlamaModel,
    p: Pass,
    mem: Memory<Held>,
    launches: Seq<Launch>,
) -> Memory<Held>
    decreases launches.len(),
{
    if launches.len() == 0 {
        mem
    } else {
        after_launch(model, p, after_launches(model, p, mem, launches.drop_last()), launches.last())
    }
}

proof fn lemma_two<V>(f: Meaning<V>, mem: Memory<V>, a: Op, b: Op)
    ensures
        run(f, mem, seq![a, b]) == after(f, after(f, mem, a), b),
{
    assert(seq![a, b].drop_last() =~= seq![a]);
    assert(seq![a].drop_last() =~= Seq::<Op>::empty());
    assert(run(f, mem, Seq::<Op>::empty()) == mem);
    assert(run(f, mem, seq![a]) == after(f, mem, a));
}

/// A launch leaves what its operations leave, one after the other.
pub proof fn law_a_launch_is_its_operations(
    model: LlamaModel,
    p: Pass,
    mem: Memory<Held>,
    launch: Launch,
)
    ensures
        after_launch(model, p, mem, launch) == run(device_meaning(model, p), mem, expand(launch)),
{
    let f = device_meaning(model, p);
    let now = after_launch(model, p, mem, launch);
    match launch {
        Launch::One(op) => {
            assert(seq![op].drop_last() =~= Seq::<Op>::empty());
            assert(run(f, mem, Seq::<Op>::empty()) == mem);
        },
        Launch::NormRotateQ(i, partial) => {
            lemma_heads(model, p, mem, Buffer::Q, Op::NormQ(i), Op::RotateQ(partial), i, partial);
        },
        Launch::NormRotateK(i, partial) => {
            lemma_heads(model, p, mem, Buffer::K, Op::NormK(i), Op::RotateK(partial), i, partial);
        },
        Launch::AddNorm(n) => {
            lemma_add_norm(model, p, mem, n);
        },
    }
}

proof fn lemma_heads(
    model: LlamaModel,
    p: Pass,
    mem: Memory<Held>,
    b: Buffer,
    norm: Op,
    turn: Op,
    i: usize,
    partial: bool,
)
    requires
        b == Buffer::Q && norm == Op::NormQ(i) && turn == Op::RotateQ(partial) || b == Buffer::K
            && norm == Op::NormK(i) && turn == Op::RotateK(partial),
    ensures
        ({
            let f = device_meaning(model, p);
            let launch = if b == Buffer::Q {
                Launch::NormRotateQ(i, partial)
            } else {
                Launch::NormRotateK(i, partial)
            };
            after_launch(model, p, mem, launch) == run(f, mem, seq![norm, turn])
        }),
{
    reveal(device_effect);
    let f = device_meaning(model, p);
    lemma_two(f, mem, norm, turn);
    let mid = after(f, mem, norm);
    let end = after(f, mid, turn);
    let launch = if b == Buffer::Q {
        Launch::NormRotateQ(i, partial)
    } else {
        Launch::NormRotateK(i, partial)
    };
    let now = after_launch(model, p, mem, launch);
    assert(norm.reads().map_values(mem)[0] == mem(b));
    assert(turn.reads().map_values(mid)[0] == mid(b));
    assert forall|c: Buffer| #[trigger] now(c) == end(c) by {
        if c != b {
            assert(!norm.writes(c) && !turn.writes(c));
        }
    }
    assert(now =~= end);
}

proof fn lemma_add_norm(model: LlamaModel, p: Pass, mem: Memory<Held>, n: NormRef)
    ensures
        after_launch(model, p, mem, Launch::AddNorm(n)) == run(
            device_meaning(model, p),
            mem,
            seq![Op::AddResidual, Op::Norm(n)],
        ),
{
    reveal(device_effect);
    let f = device_meaning(model, p);
    lemma_two(f, mem, Op::AddResidual, Op::Norm(n));
    let mid = after(f, mem, Op::AddResidual);
    let end = after(f, mid, Op::Norm(n));
    let now = after_launch(model, p, mem, Launch::AddNorm(n));
    assert(Op::AddResidual.reads().map_values(mem)[0] == mem(Buffer::X));
    assert(Op::AddResidual.reads().map_values(mem)[1] == mem(Buffer::Proj));
    assert(Op::Norm(n).reads().map_values(mid)[0] == mid(Buffer::X));
    assert forall|c: Buffer| #[trigger] now(c) == end(c) by {
        if c != Buffer::X && c != Buffer::Xn {
            assert(!Op::AddResidual.writes(c) && !Op::Norm(n).writes(c));
        }
    }
    assert(now =~= end);
}

proof fn lemma_launches(model: LlamaModel, p: Pass, mem: Memory<Held>, launches: Seq<Launch>)
    ensures
        after_launches(model, p, mem, launches) == run_launches(
            device_meaning(model, p),
            mem,
            launches,
        ),
    decreases launches.len(),
{
    if launches.len() > 0 {
        lemma_launches(model, p, mem, launches.drop_last());
        law_a_launch_is_its_operations(
            model,
            p,
            after_launches(model, p, mem, launches.drop_last()),
            launches.last(),
        );
    }
}

/// The launches of a forward pass, each with what its kernel computes, leave what the
/// operations of the pass leave, one after the other, as the GPU computes them.
pub proof fn law_kernels_compute_the_pass(model: LlamaModel, p: Pass, mem: Memory<Held>)
    requires
        0 < model.layers@.len(),
    ensures
        after_launches(model, p, mem, launched_forward(shapes_of(model.layers@))) == run(
            device_meaning(model, p),
            mem,
            forward(shapes_of(model.layers@)),
        ),
{
    lemma_launches(model, p, mem, launched_forward(shapes_of(model.layers@)));
    law_both_passes_agree(device_meaning(model, p), mem, shapes_of(model.layers@));
}

/// Whether the GPU computes an operation in the order of the CPU.
pub open spec fn computed_alike(op: Op) -> bool {
    match op {
        Op::Norm(_) => false,
        Op::MatMul(_, _, _) => false,
        Op::CacheWrite(_) => false,
        Op::Attend(_) => false,
        Op::GateAttn => false,
        _ => true,
    }
}

/// Whether buffers of the GPU hold the numbers that buffers of the CPU hold.
pub open spec fn same_numbers(held: Seq<Held>, contents: Seq<Contents>) -> bool {
    &&& held.len() == contents.len()
    &&& forall|i: int|
        0 <= i < held.len() ==> (#[trigger] held[i]).numbers() == contents[i].numbers()
}

/// But for the norms of the residual stream, products, attention with its cache, and the
/// gate behind it, the GPU puts into a buffer the very numbers that the CPU does; the
/// combination of a feed-forward block where the block has as many rows as its buffers
/// have numbers.
pub proof fn law_most_operations_are_computed_alike(
    model: LlamaModel,
    p: Pass,
    op: Op,
    b: Buffer,
    held: Seq<Held>,
    contents: Seq<Contents>,
)
    requires
        computed_alike(op),
        same_numbers(held, contents),
        held.len() == op.reads().len(),
        op matches Op::SiluMul(i) ==> gate_rows(model, i) == contents[0].numbers().len()
            == contents[2].numbers().len(),
    ensures
        device_effect(model, p, op, b, held).numbers() == effect(
            model,
            p,
            op,
            b,
            contents,
        ).numbers(),
{
    reveal(device_effect);
    reveal(effect);
    if held.len() > 0 {
        assert(held[0].numbers() == contents[0].numbers());
    }
    if held.len() > 1 {
        assert(held[1].numbers() == contents[1].numbers());
    }
    if held.len() > 2 {
        assert(held[2].numbers() == contents[2].numbers());
    }
    if let Op::SiluMul(i) = op {
        let (gate, up) = (contents[0].numbers(), contents[1].numbers());
        assert(combined(p.math, gate, up) =~= combined_over(
            p.math,
            gate_rows(model, i),
            gate,
            up,
            contents[2].numbers(),
        ));
    }
    if held.len() > 3 {
        assert(held[3].numbers() == contents[3].numbers());
    }
}

} // verus!
