//! What holds of every forward pass.

use vstd::prelude::*;

use crate::calc::Math;
use crate::error::GgufError;
use crate::model::kv_cache::{overwritten, slot, KvCache};
use crate::model::llama::forward::{pass_at, Outcome};
use crate::model::llama::load::LlamaModel;
use crate::model::llama::meaning::{
    effect, fails_with, meaning, memory, packed, pass_of, ready, sizes, succeeds, Contents, Pass,
};
use crate::model::llama::program::{
    after, forward, launched_forward, law_both_passes_agree, run, run_launches, shapes_of, Buffer,
    Matrix, Memory, Op, Role,
};
use crate::model::llama::state::InferenceState;

verus! {

/// Whether the cache layers hold packed vectors, and all other buffers numbers.
pub open spec fn typed(mem: Memory<Contents>) -> bool {
    forall|b: Buffer| (#[trigger] mem(b)) is Packed <==> b is Cache
}

/// Whether the cache layers of a memory have room for every position of a pass.
pub open spec fn roomy(p: Pass, mem: Memory<Contents>) -> bool {
    forall|j: usize|
        j < p.layers ==> {
            &&& (#[trigger] mem(Buffer::Cache(j))).keys().len() == p.slots
                * p.dtype.spec_bytes_per_token(p.width)
            &&& mem(Buffer::Cache(j)).vals().len() == p.slots * p.dtype.spec_bytes_per_token(
                p.width,
            )
        }
}

/// The buffers of a state and of a well-formed cache are of that kind.
pub proof fn law_memory_is_typed(
    state: InferenceState<u32>,
    cache: KvCache,
    m: Math,
    token: u32,
    pos: usize,
)
    requires
        cache.wf(),
    ensures
        typed(memory(state, cache)),
        roomy(pass_of(m, token, pos, cache), memory(state, cache)),
{
    cache.lemma_layers();
}

proof fn lemma_sizes_kept(model: LlamaModel, p: Pass, mem: Memory<Contents>, op: Op)
    requires
        typed(mem),
        roomy(p, mem),
        ready(model, p, sizes(mem), op),
        succeeds(model, p, op),
    ensures
        typed(after(meaning(model, p), mem, op)),
        roomy(p, after(meaning(model, p), mem, op)),
        sizes(after(meaning(model, p), mem, op)) == sizes(mem),
{
    reveal(ready);
    reveal(succeeds);
    reveal(effect);
    let now = after(meaning(model, p), mem, op);
    assert forall|b: Buffer| (#[trigger] now(b)).size() == mem(b).size() && (now(b) is Packed
        <==> b is Cache) by {
        assert(mem(b) is Packed <==> b is Cache);
        assert(sizes(mem)(b) == mem(b).size());
    }
    assert(sizes(now) =~= sizes(mem));
}

proof fn lemma_prefix_kept(model: LlamaModel, p: Pass, mem: Memory<Contents>, k: int)
    requires
        typed(mem),
        roomy(p, mem),
        model.pass_ready(p, sizes(mem)),
        model.pass_succeeds(p),
        0 <= k <= forward(shapes_of(model.layers@)).len(),
    ensures
        ({
            let now = run(meaning(model, p), mem, forward(shapes_of(model.layers@)).take(k));
            typed(now) && roomy(p, now) && sizes(now) == sizes(mem)
        }),
    decreases k,
{
    let ops = forward(shapes_of(model.layers@));
    if k > 0 {
        lemma_prefix_kept(model, p, mem, k - 1);
        let before = run(meaning(model, p), mem, ops.take(k - 1));
        assert(ops.take(k).drop_last() =~= ops.take(k - 1));
        assert(ops.take(k).last() == ops[k - 1]);
        assert(model.comes_to(p, k - 1));
        lemma_sizes_kept(model, p, before, ops[k - 1]);
    }
}

/// The two projections of a feed-forward block succeed or fail together, and with the
/// same errors: the second never fails behind the first.
pub proof fn law_projections_fail_together(
    model: LlamaModel,
    p: Pass,
    i: usize,
    from: Buffer,
    gate: Buffer,
    up: Buffer,
    e: GgufError,
)
    ensures
        ({
            let first = Op::MatMul(Matrix::Layer(i, Role::FfnGate), from, gate);
            let second = Op::MatMul(Matrix::Layer(i, Role::FfnUp), from, up);
            &&& succeeds(model, p, first) == succeeds(model, p, second)
            &&& fails_with(model, p, first, e) == fails_with(model, p, second, e)
        }),
{
    reveal(succeeds);
    reveal(fails_with);
}

/// A pass leaves as much in every buffer as there was before.
pub proof fn law_pass_keeps_the_sizes(model: LlamaModel, p: Pass, mem: Memory<Contents>)
    requires
        typed(mem),
        roomy(p, mem),
        model.pass_ready(p, sizes(mem)),
        model.pass_succeeds(p),
    ensures
        sizes(model.passed(p, mem)) == sizes(mem),
{
    let ops = forward(shapes_of(model.layers@));
    lemma_prefix_kept(model, p, mem, ops.len() as int);
    assert(ops.take(ops.len() as int) =~= ops);
}

/// The passes for the first tokens of a batch leave as much in every buffer as there was
/// before.
proof fn lemma_tokens_kept(
    model: LlamaModel,
    m: Math,
    tokens: Seq<u32>,
    pos: usize,
    cache: KvCache,
    before: Memory<Contents>,
    n: int,
)
    requires
        typed(before),
        roomy(pass_of(m, 0, 0, cache), before),
        model.batch_ready(m, tokens, pos, cache, sizes(before)),
        0 <= n <= tokens.len(),
        forall|i: int|
            0 <= i < n ==> #[trigger] model.pass_succeeds(pass_at(m, tokens, pos, cache, i)),
    ensures
        ({
            let now = model.after_tokens(m, tokens, pos, cache, before, n);
            typed(now) && roomy(pass_of(m, 0, 0, cache), now) && sizes(now) == sizes(before)
        }),
    decreases n,
{
    if n > 0 {
        lemma_tokens_kept(model, m, tokens, pos, cache, before, n - 1);
        let earlier = model.after_tokens(m, tokens, pos, cache, before, n - 1);
        let p = pass_at(m, tokens, pos, cache, n - 1);
        let ops = forward(shapes_of(model.layers@));
        assert(model.batch_comes_to(m, tokens, pos, cache, n - 1));
        assert(model.pass_ready(p, sizes(before)));
        assert(model.pass_succeeds(p));
        lemma_prefix_kept(model, p, earlier, ops.len() as int);
        assert(ops.take(ops.len() as int) =~= ops);
    }
}

/// Whether `calls` are calls of the forward pass for the first tokens of a batch, one
/// after the other, each on the memory that the one before it left, and all but the last
/// of them successful; and whether the last one gives the outcome `r` and leaves the
/// memory `now`. Without tokens there is no call, and the outcome is no logits at all.
pub open spec fn are_calls_in_order(
    model: LlamaModel,
    m: Math,
    tokens: Seq<u32>,
    pos: usize,
    cache: KvCache,
    before: Memory<Contents>,
    calls: Seq<(Outcome, Memory<Contents>)>,
    r: Outcome,
    now: Memory<Contents>,
) -> bool {
    &&& calls.len() <= tokens.len()
    &&& forall|i: int|
        0 <= i < calls.len() ==> model.forward_gives(
            pass_at(m, tokens, pos, cache, i),
            if i == 0 {
                before
            } else {
                calls[i - 1].1
            },
            (#[trigger] calls[i]).0,
            calls[i].1,
        )
    &&& forall|i: int| 0 <= i < calls.len() - 1 ==> (#[trigger] calls[i]).0 is Logits
    &&& if tokens.len() == 0 {
        r == Outcome::Logits(Seq::empty()) && now == before
    } else {
        &&& calls.len() > 0
        &&& calls.last() == (r, now)
        &&& r is Logits ==> calls.len() == tokens.len()
    }
}

/// A batch is its forward passes, called in order: up to the last token, or up to the
/// first error.
pub proof fn law_a_batch_is_its_passes_in_order(
    model: LlamaModel,
    m: Math,
    tokens: Seq<u32>,
    pos: usize,
    state: InferenceState<u32>,
    cache: KvCache,
    r: Outcome,
    now: Memory<Contents>,
)
    requires
        cache.wf(),
        model.batch_gives(m, tokens, pos, cache, memory(state, cache), r, now),
        !(r is Undefined),
    ensures
        exists|calls: Seq<(Outcome, Memory<Contents>)>|
            are_calls_in_order(
                model,
                m,
                tokens,
                pos,
                cache,
                memory(state, cache),
                calls,
                r,
                now,
            ),
{
    let before = memory(state, cache);
    law_memory_is_typed(state, cache, m, 0, 0);
    let n: int = match r {
        Outcome::Fails(e) => 1 + choose|i: int| #[trigger]
            model.batch_stops_at(m, tokens, pos, cache, before, i, e, now),
        _ => tokens.len() as int,
    };
    let calls = Seq::new(
        n as nat,
        |j: int|
            if j == n - 1 {
                (r, now)
            } else {
                let left = model.after_tokens(m, tokens, pos, cache, before, j + 1);
                (Outcome::Logits(left(Buffer::Logits).numbers()), left)
            },
    );
    assert forall|i: int| 0 <= i < calls.len() implies model.forward_gives(
        pass_at(m, tokens, pos, cache, i),
        if i == 0 {
            before
        } else {
            calls[i - 1].1
        },
        (#[trigger] calls[i]).0,
        calls[i].1,
    ) by {
        let p = pass_at(m, tokens, pos, cache, i);
        assert(model.batch_comes_to(m, tokens, pos, cache, i));
        assert(model.pass_ready(p, sizes(before)));
        lemma_tokens_kept(model, m, tokens, pos, cache, before, i);
        if i < n - 1 {
            assert(model.pass_succeeds(p));
            lemma_tokens_kept(model, m, tokens, pos, cache, before, i + 1);
            let left = model.after_tokens(m, tokens, pos, cache, before, i + 1);
            assert(!(left(Buffer::Logits) is Packed));
        }
    }
    assert(are_calls_in_order(model, m, tokens, pos, cache, before, calls, r, now));
}

proof fn lemma_packed_len(p: Pass, x: Seq<u32>)
    requires
        x.len() == p.width,
    ensures
        packed(p.math, p.dtype, x).len() == p.dtype.spec_bytes_per_token(p.width),
{
}

proof fn lemma_other_slot(layer: Seq<u8>, bytes: Seq<u8>, pos: int, t: int, slots: int, stride: int)
    requires
        bytes.len() == stride,
        layer.len() == slots * stride,
        0 <= t < slots,
        0 <= pos < slots,
        t != pos,
    ensures
        slot(overwritten(layer, pos * stride, bytes), t, stride) == slot(layer, t, stride),
{
    assert(0 <= t * stride && t * stride + stride <= slots * stride) by (nonlinear_arith)
        requires
            0 <= t,
            t + 1 <= slots,
            0 <= stride,
    ;
    if t < pos {
        assert(t * stride + stride <= pos * stride) by (nonlinear_arith)
            requires
                t + 1 <= pos,
                0 <= stride,
        ;
    } else {
        assert(pos * stride + stride <= t * stride) by (nonlinear_arith)
            requires
                pos + 1 <= t,
                0 <= stride,
        ;
    }
    assert(slot(overwritten(layer, pos * stride, bytes), t, stride) =~= slot(layer, t, stride));
}

proof fn lemma_step_keeps_slot(
    model: LlamaModel,
    p: Pass,
    mem: Memory<Contents>,
    op: Op,
    j: usize,
    t: int,
)
    requires
        typed(mem),
        roomy(p, mem),
        ready(model, p, sizes(mem), op),
        j < p.layers,
        0 <= t < p.slots,
        t != p.pos,
    ensures
        ({
            let stride = p.dtype.spec_bytes_per_token(p.width) as int;
            let now = after(meaning(model, p), mem, op)(Buffer::Cache(j));
            &&& slot(now.keys(), t, stride) == slot(mem(Buffer::Cache(j)).keys(), t, stride)
            &&& slot(now.vals(), t, stride) == slot(mem(Buffer::Cache(j)).vals(), t, stride)
        }),
{
    reveal(ready);
    reveal(effect);
    let stride = p.dtype.spec_bytes_per_token(p.width) as int;
    if op == Op::CacheWrite(j) {
        let k = mem(Buffer::K).numbers();
        let v = mem(Buffer::V).numbers();
        assert(sizes(mem)(Buffer::K) == mem(Buffer::K).size());
        assert(sizes(mem)(Buffer::V) == mem(Buffer::V).size());
        assert(mem(Buffer::K) is Numbers && mem(Buffer::V) is Numbers);
        let c = mem(Buffer::Cache(j));
        assert(op.reads().map_values(mem)[2] == c);
        lemma_packed_len(p, k);
        lemma_packed_len(p, v);
        lemma_other_slot(
            c.keys(),
            packed(p.math, p.dtype, k),
            p.pos as int,
            t,
            p.slots as int,
            stride,
        );
        lemma_other_slot(
            c.vals(),
            packed(p.math, p.dtype, v),
            p.pos as int,
            t,
            p.slots as int,
            stride,
        );
    }
}

/// A pass writes the keys and values of its own position, and leaves those of every
/// other position as they are.
pub proof fn law_pass_keeps_other_positions(
    model: LlamaModel,
    p: Pass,
    mem: Memory<Contents>,
    j: usize,
    t: int,
)
    requires
        typed(mem),
        roomy(p, mem),
        model.pass_ready(p, sizes(mem)),
        model.pass_succeeds(p),
        j < p.layers,
        0 <= t < p.slots,
        t != p.pos,
    ensures
        ({
            let stride = p.dtype.spec_bytes_per_token(p.width) as int;
            let now = model.passed(p, mem)(Buffer::Cache(j));
            &&& slot(now.keys(), t, stride) == slot(mem(Buffer::Cache(j)).keys(), t, stride)
            &&& slot(now.vals(), t, stride) == slot(mem(Buffer::Cache(j)).vals(), t, stride)
        }),
{
    let ops = forward(shapes_of(model.layers@));
    lemma_prefix_keeps_slot(model, p, mem, j, t, ops.len() as int);
    assert(ops.take(ops.len() as int) =~= ops);
}

proof fn lemma_prefix_keeps_slot(
    model: LlamaModel,
    p: Pass,
    mem: Memory<Contents>,
    j: usize,
    t: int,
    k: int,
)
    requires
        typed(mem),
        roomy(p, mem),
        model.pass_ready(p, sizes(mem)),
        model.pass_succeeds(p),
        j < p.layers,
        0 <= t < p.slots,
        t != p.pos,
        0 <= k <= forward(shapes_of(model.layers@)).len(),
    ensures
        ({
            let stride = p.dtype.spec_bytes_per_token(p.width) as int;
            let now = run(
                meaning(model, p),
                mem,
                forward(shapes_of(model.layers@)).take(k),
            )(Buffer::Cache(j));
            &&& slot(now.keys(), t, stride) == slot(mem(Buffer::Cache(j)).keys(), t, stride)
            &&& slot(now.vals(), t, stride) == slot(mem(Buffer::Cache(j)).vals(), t, stride)
        }),
    decreases k,
{
    let ops = forward(shapes_of(model.layers@));
    if k > 0 {
        lemma_prefix_keeps_slot(model, p, mem, j, t, k - 1);
        lemma_prefix_kept(model, p, mem, k - 1);
        let before = run(meaning(model, p), mem, ops.take(k - 1));
        assert(ops.take(k).drop_last() =~= ops.take(k - 1));
        assert(ops.take(k).last() == ops[k - 1]);
        lemma_step_keeps_slot(model, p, before, ops[k - 1], j, t);
    }
}

/// The launches of the GPU, each computing what its operations compute, leave the
/// same memory as the pass on the CPU.
pub proof fn law_launches_compute_the_pass(model: LlamaModel, p: Pass, mem: Memory<Contents>)
    requires
        0 < model.layers@.len(),
    ensures
        run_launches(meaning(model, p), mem, launched_forward(shapes_of(model.layers@)))
            == model.passed(p, mem),
{
    law_both_passes_agree(meaning(model, p), mem, shapes_of(model.layers@));
}

} // verus!
