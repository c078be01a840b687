//! Greedy runs on the CPU: a prompt, prefill, and the most probable token again and
//! again.

use std::time::Instant;

use vstd::prelude::*;
use vstd::string::*;

use crate::calc::{computes, math, Calc, Math};
use crate::error::{GgufError, Result};
use crate::model::kv_cache::{cache_fits, KvCache};
use crate::model::kv_dtype::KvDtype;
use crate::model::llama::decode::{
    law_greedy_decoding_is_determined, lemma_greedy_agree, lemma_none_longer, most_probable,
    unstopped,
};
use crate::model::llama::forward::{pass_at, same_shape};
use crate::model::llama::meaning::{memory, sizes, Contents, Sizes};
use crate::model::llama::program::{Buffer, Memory};
use crate::model::llama::state::{layer_kinds, lengths};
use crate::model::select::{creation_defined, creation_ok, is_creation_error, try_create_model};
use crate::model::{InferenceState, LlamaModel};
use crate::ops::AnyBackend;
use crate::runner::{positions, token_limit, Generation, RunResult};
use crate::text::utf8_lossy;
use crate::tokenizer::{
    describable, described, is_tokenizer_error, Tokenizer, TokenizerView,
};
use crate::types::GgufFile;

verus! {

/// The token that a run stops at.
pub open spec fn stop_token(t: TokenizerView, stop_at_eos: bool) -> Option<u32> {
    if stop_at_eos {
        t.eos_token_id
    } else {
        None
    }
}

/// Whether the buffers of a model, and a cache for `slots` positions, fit the machine.
pub open spec fn room_for(model: LlamaModel, slots: nat) -> bool {
    let kinds = layer_kinds(model.layers@);
    &&& lengths(model.cfg@, model.l_cache as nat, kinds, model.gdn_dims).fit()
    &&& cache_fits(model.cfg@, slots, KvDtype::F16)
}

/// Whether a run begins with these buffers and this cache: they hold zeros.
pub open spec fn begins(
    model: LlamaModel,
    state: InferenceState<u32>,
    cache: KvCache,
    slots: nat,
) -> bool {
    let kinds = layer_kinds(model.layers@);
    &&& state.is_fresh(0, lengths(model.cfg@, model.l_cache as nat, kinds, model.gdn_dims), kinds)
    &&& cache.is_blank(
        model.cfg.block_count as nat,
        model.cfg.head_count_kv as nat * model.cfg.head_dim as nat,
        slots,
        KvDtype::F16,
    )
}

/// The memory after prefill.
pub open spec fn prefilled(
    model: LlamaModel,
    m: Math,
    prompt: Seq<u32>,
    state: InferenceState<u32>,
    cache: KvCache,
) -> Memory<Contents> {
    model.after_tokens(m, prompt, 0, cache, memory(state, cache), prompt.len() as int)
}

/// Whether prefill goes through.
pub open spec fn prefills(
    model: LlamaModel,
    m: Math,
    prompt: Seq<u32>,
    state: InferenceState<u32>,
    cache: KvCache,
) -> bool {
    model.runs(m, prompt, 0, cache, memory(state, cache), prompt.len() as int)
}

/// Whether a run after a prompt completes with the tokens `ids`.
pub open spec fn completes(
    model: LlamaModel,
    m: Math,
    prompt: Seq<u32>,
    state: InferenceState<u32>,
    cache: KvCache,
    stop: Option<u32>,
    limit: nat,
    ids: Seq<u32>,
    stopped: bool,
) -> bool {
    let pos = prompt.len() as usize;
    let mem = prefilled(model, m, prompt, state, cache);
    &&& prefills(model, m, prompt, state, cache)
    &&& model.is_greedy(m, ids, pos, cache, mem)
    &&& unstopped(ids, stop)
    &&& model.runs(m, ids, pos, cache, mem, ids.len() as int)
    &&& model.ends(m, ids, stopped, pos, cache, mem, stop, limit)
}

/// Whether a run after a prompt comes to the last of the tokens `ids`, in the pass
/// for which it ends.
pub open spec fn comes_to(
    model: LlamaModel,
    m: Math,
    prompt: Seq<u32>,
    state: InferenceState<u32>,
    cache: KvCache,
    stop: Option<u32>,
    limit: nat,
    ids: Seq<u32>,
) -> bool {
    let pos = prompt.len() as usize;
    let mem = prefilled(model, m, prompt, state, cache);
    &&& prefills(model, m, prompt, state, cache)
    &&& model.is_greedy(m, ids, pos, cache, mem)
    &&& unstopped(ids, stop)
    &&& 0 < ids.len() <= limit
    &&& model.runs(m, ids, pos, cache, mem, ids.len() - 1)
}

/// Whether a run fails with the error `e`: in prefill, or in the pass for a token
/// that was generated.
pub open spec fn fails(
    model: LlamaModel,
    m: Math,
    prompt: Seq<u32>,
    state: InferenceState<u32>,
    cache: KvCache,
    stop: Option<u32>,
    limit: nat,
    e: GgufError,
) -> bool {
    let start = memory(state, cache);
    let mem = prefilled(model, m, prompt, state, cache);
    let pos = prompt.len() as usize;
    ||| {
        &&& model.batch_ready(m, prompt, 0, cache, sizes(start))
        &&& exists|i: int, now: Memory<Contents>| #[trigger]
            model.batch_stops_at(m, prompt, 0, cache, start, i, e, now)
    }
    ||| exists|ids: Seq<u32>, now: Memory<Contents>|
        {
            &&& #[trigger] comes_to(model, m, prompt, state, cache, stop, limit, ids)
            &&& model.pass_ready(pass_at(m, ids, pos, cache, ids.len() - 1), sizes(mem))
            &&& #[trigger] model.batch_stops_at(m, ids, pos, cache, mem, ids.len() - 1, e, now)
        }
}

/// Whether a run comes to a pass that is not defined: in prefill, or for a token
/// that was generated.
pub open spec fn gets_stuck(
    model: LlamaModel,
    m: Math,
    prompt: Seq<u32>,
    state: InferenceState<u32>,
    cache: KvCache,
    stop: Option<u32>,
    limit: nat,
) -> bool {
    ||| !model.batch_ready(m, prompt, 0, cache, sizes(memory(state, cache)))
    ||| exists|ids: Seq<u32>|
        {
            &&& #[trigger] comes_to(model, m, prompt, state, cache, stop, limit, ids)
            &&& !model.pass_ready(
                pass_at(m, ids, prompt.len() as usize, cache, ids.len() - 1),
                sizes(prefilled(model, m, prompt, state, cache)),
            )
        }
}

/// Whether a greedy run of a model on a text has this outcome.
pub open spec fn is_run(
    model: LlamaModel,
    m: Math,
    t: TokenizerView,
    text: Seq<char>,
    max_new: nat,
    stop_at_eos: bool,
    outcome: Option<Result<RunResult>>,
) -> bool {
    let prompt = t.framed_ids(text);
    let slots = positions(prompt.len(), max_new, model.cfg.context_length as nat);
    let limit = token_limit(prompt.len(), max_new, slots);
    let stop = stop_token(t, stop_at_eos);
    let countable = t.encodable(text) && prompt.len() + max_new <= usize::MAX;
    match outcome {
        Some(Ok(r)) => {
            &&& countable
            &&& prompt.len() > 0
            &&& room_for(model, slots)
            &&& r.prompt_ids@ == prompt
            &&& r.text@ == utf8_lossy(t.ids_bytes(r.token_ids@))
            &&& r.backend@ == "cpu"@
            &&& exists|state: InferenceState<u32>, cache: KvCache| #[trigger]
                begins(model, state, cache, slots) && completes(
                    model,
                    m,
                    prompt,
                    state,
                    cache,
                    stop,
                    limit,
                    r.token_ids@,
                    r.stopped_eos,
                )
        },
        Some(Err(e)) => {
            &&& countable
            &&& if prompt.len() == 0 {
                e.is_backend("prompt encoded to zero tokens"@)
            } else {
                &&& room_for(model, slots)
                &&& exists|state: InferenceState<u32>, cache: KvCache| #[trigger]
                    begins(model, state, cache, slots) && fails(
                        model,
                        m,
                        prompt,
                        state,
                        cache,
                        stop,
                        limit,
                        e,
                    )
            }
        },
        None => {
            ||| !countable
            ||| {
                &&& prompt.len() > 0
                &&& !room_for(model, slots) || exists|state: InferenceState<u32>, cache: KvCache|
                 #[trigger]
                    begins(model, state, cache, slots) && gets_stuck(
                        model,
                        m,
                        prompt,
                        state,
                        cache,
                        stop,
                        limit,
                    )
            }
        },
    }
}

proof fn lemma_one_beginning(
    model: LlamaModel,
    s1: InferenceState<u32>,
    c1: KvCache,
    s2: InferenceState<u32>,
    c2: KvCache,
    slots: nat,
)
    requires
        begins(model, s1, c1, slots),
        begins(model, s2, c2, slots),
    ensures
        memory(s1, c1) == memory(s2, c2),
        same_shape(c1, c2),
{
    c1.lemma_layers();
    c2.lemma_layers();
    let (a, b) = (memory(s1, c1), memory(s2, c2));
    assert forall|x: Buffer| #[trigger] a(x) == b(x) by {
        match x {
            Buffer::Cache(i) => {
                if i < c1@.k.len() {
                    assert(c1@.k[i as int] =~= c2@.k[i as int]);
                    assert(c1@.v[i as int] =~= c2@.v[i as int]);
                }
            },
            Buffer::ConvHistory(i) => {
                if i < s1.conv_state@.len() {
                    assert(s1.conv_state@[i as int]@ == s2.conv_state@[i as int]@);
                }
            },
            Buffer::GdnHistory(i) => {
                if i < s1.gdn_conv_state@.len() {
                    assert(s1.gdn_conv_state@[i as int]@ == s2.gdn_conv_state@[i as int]@);
                }
            },
            Buffer::GdnState(i) => {
                if i < s1.gdn_recurrent_state@.len() {
                    assert(s1.gdn_recurrent_state@[i as int]@
                        == s2.gdn_recurrent_state@[i as int]@);
                }
            },
            _ => {},
        }
    }
    assert(a =~= b);
}

proof fn lemma_shape_decides(
    model: LlamaModel,
    m: Math,
    ids: Seq<u32>,
    pos: usize,
    a: KvCache,
    b: KvCache,
    before: Memory<Contents>,
    n: int,
)
    requires
        same_shape(a, b),
    ensures
        model.after_tokens(m, ids, pos, a, before, n) == model.after_tokens(
            m,
            ids,
            pos,
            b,
            before,
            n,
        ),
    decreases n,
{
    if n > 0 {
        lemma_shape_decides(model, m, ids, pos, a, b, before, n - 1);
        assert(pass_at(m, ids, pos, a, n - 1) == pass_at(m, ids, pos, b, n - 1));
    }
}

/// What a run begins with decides its passes, whichever buffers and cache that is.
proof fn lemma_beginning_decides(
    model: LlamaModel,
    m: Math,
    prompt: Seq<u32>,
    ids: Seq<u32>,
    s1: InferenceState<u32>,
    c1: KvCache,
    s2: InferenceState<u32>,
    c2: KvCache,
)
    requires
        memory(s1, c1) == memory(s2, c2),
        same_shape(c1, c2),
    ensures
        prefilled(model, m, prompt, s1, c1) == prefilled(model, m, prompt, s2, c2),
        prefills(model, m, prompt, s1, c1) == prefills(model, m, prompt, s2, c2),
        ({
            let pos = prompt.len() as usize;
            let mem = prefilled(model, m, prompt, s1, c1);
            &&& model.is_greedy(m, ids, pos, c1, mem) == model.is_greedy(m, ids, pos, c2, mem)
            &&& forall|n: int| #[trigger]
                model.runs(m, ids, pos, c1, mem, n) == model.runs(m, ids, pos, c2, mem, n)
            &&& forall|n: int| #[trigger]
                model.logits_after(m, ids, pos, c1, mem, n) == model.logits_after(
                    m,
                    ids,
                    pos,
                    c2,
                    mem,
                    n,
                )
            &&& forall|j: int| #[trigger]
                pass_at(m, ids, pos, c1, j) == pass_at(m, ids, pos, c2, j)
            &&& forall|j: int| #[trigger]
                pass_at(m, prompt, 0, c1, j) == pass_at(m, prompt, 0, c2, j)
        }),
{
    let start = memory(s1, c1);
    let pos = prompt.len() as usize;
    lemma_shape_decides(model, m, prompt, 0, c1, c2, start, prompt.len() as int);
    let mem = prefilled(model, m, prompt, s1, c1);
    assert forall|j: int| #[trigger]
        pass_at(m, ids, pos, c1, j) == pass_at(m, ids, pos, c2, j) by {}
    assert forall|j: int| #[trigger]
        pass_at(m, prompt, 0, c1, j) == pass_at(m, prompt, 0, c2, j) by {}
    assert forall|n: int| #[trigger]
        model.logits_after(m, ids, pos, c1, mem, n) == model.logits_after(
            m,
            ids,
            pos,
            c2,
            mem,
            n,
        ) by {
        lemma_shape_decides(model, m, ids, pos, c1, c2, mem, n);
    }
    assert forall|n: int| #[trigger]
        model.runs(m, ids, pos, c1, mem, n) == model.runs(m, ids, pos, c2, mem, n) by {
        lemma_runs_by_shape(model, m, ids, pos, c1, c2, mem, n);
        lemma_runs_by_shape(model, m, ids, pos, c2, c1, mem, n);
    }
    lemma_runs_by_shape(model, m, prompt, 0, c1, c2, start, prompt.len() as int);
    lemma_runs_by_shape(model, m, prompt, 0, c2, c1, start, prompt.len() as int);
    lemma_greedy_by_shape(model, m, ids, pos, c1, c2, mem);
    lemma_greedy_by_shape(model, m, ids, pos, c2, c1, mem);
}

proof fn lemma_runs_by_shape(
    model: LlamaModel,
    m: Math,
    ids: Seq<u32>,
    pos: usize,
    a: KvCache,
    b: KvCache,
    before: Memory<Contents>,
    n: int,
)
    requires
        same_shape(a, b),
    ensures
        model.runs(m, ids, pos, a, before, n) ==> model.runs(m, ids, pos, b, before, n),
{
    if model.runs(m, ids, pos, a, before, n) {
        assert forall|j: int| 0 <= j < n implies {
            &&& model.pass_ready(#[trigger] pass_at(m, ids, pos, b, j), sizes(before))
            &&& model.pass_succeeds(pass_at(m, ids, pos, b, j))
        } by {
            assert(pass_at(m, ids, pos, a, j) == pass_at(m, ids, pos, b, j));
        }
    }
}

proof fn lemma_greedy_by_shape(
    model: LlamaModel,
    m: Math,
    ids: Seq<u32>,
    pos: usize,
    a: KvCache,
    b: KvCache,
    before: Memory<Contents>,
)
    requires
        same_shape(a, b),
    ensures
        model.is_greedy(m, ids, pos, a, before) ==> model.is_greedy(m, ids, pos, b, before),
{
    if model.is_greedy(m, ids, pos, a, before) {
        assert forall|j: int| 0 <= j < ids.len() implies most_probable(
            model.logits_after(m, ids, pos, b, before, j),
            #[trigger] ids[j],
        ) by {
            lemma_shape_decides(model, m, ids, pos, a, b, before, j);
        }
    }
}

/// A run that completes has gone through the pass for every token that a run comes
/// to.
proof fn lemma_completes_through(
    model: LlamaModel,
    m: Math,
    prompt: Seq<u32>,
    state: InferenceState<u32>,
    cache: KvCache,
    stop: Option<u32>,
    limit: nat,
    a: Seq<u32>,
    a_stopped: bool,
    b: Seq<u32>,
)
    requires
        completes(model, m, prompt, state, cache, stop, limit, a, a_stopped),
        comes_to(model, m, prompt, state, cache, stop, limit, b),
    ensures
        ({
            let last = pass_at(m, b, prompt.len() as usize, cache, b.len() - 1);
            &&& model.pass_ready(last, sizes(prefilled(model, m, prompt, state, cache)))
            &&& model.pass_succeeds(last)
        }),
{
    let pos = prompt.len() as usize;
    let mem = prefilled(model, m, prompt, state, cache);
    let n = b.len() as int;
    lemma_none_longer(model, m, a, a_stopped, b, pos, cache, mem, stop, limit);
    lemma_greedy_agree(model, m, b, a, pos, cache, mem, n);
    assert(b[n - 1] == a[n - 1]);
    assert(pass_at(m, a, pos, cache, n - 1) == pass_at(m, b, pos, cache, n - 1));
}

/// Of two tokens that a run comes to, the pass for the earlier one goes through.
proof fn lemma_comes_through(
    model: LlamaModel,
    m: Math,
    prompt: Seq<u32>,
    state: InferenceState<u32>,
    cache: KvCache,
    stop: Option<u32>,
    limit: nat,
    a: Seq<u32>,
    b: Seq<u32>,
)
    requires
        comes_to(model, m, prompt, state, cache, stop, limit, a),
        comes_to(model, m, prompt, state, cache, stop, limit, b),
        a.len() <= b.len(),
    ensures
        ({
            let pos = prompt.len() as usize;
            let mem = prefilled(model, m, prompt, state, cache);
            let last = pass_at(m, a, pos, cache, a.len() - 1);
            if a.len() < b.len() {
                model.pass_ready(last, sizes(mem)) && model.pass_succeeds(last)
            } else {
                last == pass_at(m, b, pos, cache, b.len() - 1)
            }
        }),
{
    let pos = prompt.len() as usize;
    let mem = prefilled(model, m, prompt, state, cache);
    let n = a.len() as int;
    lemma_greedy_agree(model, m, a, b, pos, cache, mem, n);
    assert(a[n - 1] == b[n - 1]);
    assert(pass_at(m, a, pos, cache, n - 1) == pass_at(m, b, pos, cache, n - 1));
}

/// A run either completes, with one result, or fails, or comes to a pass that is not
/// defined.
proof fn lemma_one_way(
    model: LlamaModel,
    m: Math,
    prompt: Seq<u32>,
    state: InferenceState<u32>,
    cache: KvCache,
    stop: Option<u32>,
    limit: nat,
)
    ensures
        forall|a: Seq<u32>, a_stopped: bool, b: Seq<u32>, b_stopped: bool|
            #[trigger] completes(model, m, prompt, state, cache, stop, limit, a, a_stopped)
                && #[trigger] completes(model, m, prompt, state, cache, stop, limit, b, b_stopped)
                ==> a == b && a_stopped == b_stopped,
        forall|a: Seq<u32>, a_stopped: bool, e: GgufError|
            !(#[trigger] completes(model, m, prompt, state, cache, stop, limit, a, a_stopped)
                && #[trigger] fails(model, m, prompt, state, cache, stop, limit, e)),
        forall|a: Seq<u32>, a_stopped: bool|
            !(#[trigger] completes(model, m, prompt, state, cache, stop, limit, a, a_stopped)
                && gets_stuck(model, m, prompt, state, cache, stop, limit)),
        forall|e: GgufError|
            !(#[trigger] fails(model, m, prompt, state, cache, stop, limit, e) && gets_stuck(
                model,
                m,
                prompt,
                state,
                cache,
                stop,
                limit,
            )),
{
    let pos = prompt.len() as usize;
    let start = memory(state, cache);
    let mem = prefilled(model, m, prompt, state, cache);
    if prefills(model, m, prompt, state, cache) {
        assert(model.batch_ready(m, prompt, 0, cache, sizes(start))) by {
            assert forall|i: int| 0 <= i < prompt.len() implies #[trigger] model.pass_ready(
                pass_at(m, prompt, 0, cache, i),
                sizes(start),
            ) by {}
        }
        assert forall|i: int, e: GgufError, now: Memory<Contents>| !#[trigger]
            model.batch_stops_at(m, prompt, 0, cache, start, i, e, now) by {
            if 0 <= i < prompt.len() {
                assert(model.pass_succeeds(pass_at(m, prompt, 0, cache, i)));
            }
        }
    }
    assert forall|a: Seq<u32>, a_stopped: bool, b: Seq<u32>, b_stopped: bool|
        #[trigger] completes(model, m, prompt, state, cache, stop, limit, a, a_stopped)
            && #[trigger] completes(
            model,
            m,
            prompt,
            state,
            cache,
            stop,
            limit,
            b,
            b_stopped,
        ) implies a == b && a_stopped == b_stopped by {
        law_greedy_decoding_is_determined(
            model,
            m,
            a,
            a_stopped,
            b,
            b_stopped,
            pos,
            cache,
            mem,
            stop,
            limit,
        );
    }
    assert forall|a: Seq<u32>, a_stopped: bool, e: GgufError|
        !(#[trigger] completes(model, m, prompt, state, cache, stop, limit, a, a_stopped)
            && #[trigger] fails(model, m, prompt, state, cache, stop, limit, e)) by {
        if completes(model, m, prompt, state, cache, stop, limit, a, a_stopped) && fails(
            model,
            m,
            prompt,
            state,
            cache,
            stop,
            limit,
            e,
        ) {
            let (b, now) = choose|b: Seq<u32>, now: Memory<Contents>|
                {
                    &&& #[trigger] comes_to(model, m, prompt, state, cache, stop, limit, b)
                    &&& model.pass_ready(pass_at(m, b, pos, cache, b.len() - 1), sizes(mem))
                    &&& #[trigger] model.batch_stops_at(
                        m,
                        b,
                        pos,
                        cache,
                        mem,
                        b.len() - 1,
                        e,
                        now,
                    )
                };
            lemma_completes_through(
                model,
                m,
                prompt,
                state,
                cache,
                stop,
                limit,
                a,
                a_stopped,
                b,
            );
        }
    }
    assert forall|a: Seq<u32>, a_stopped: bool|
        !(#[trigger] completes(model, m, prompt, state, cache, stop, limit, a, a_stopped)
            && gets_stuck(model, m, prompt, state, cache, stop, limit)) by {
        if completes(model, m, prompt, state, cache, stop, limit, a, a_stopped) && gets_stuck(
            model,
            m,
            prompt,
            state,
            cache,
            stop,
            limit,
        ) {
            let b = choose|b: Seq<u32>|
                {
                    &&& #[trigger] comes_to(model, m, prompt, state, cache, stop, limit, b)
                    &&& !model.pass_ready(pass_at(m, b, pos, cache, b.len() - 1), sizes(mem))
                };
            lemma_completes_through(
                model,
                m,
                prompt,
                state,
                cache,
                stop,
                limit,
                a,
                a_stopped,
                b,
            );
        }
    }
    assert forall|e: GgufError|
        !(#[trigger] fails(model, m, prompt, state, cache, stop, limit, e) && gets_stuck(
            model,
            m,
            prompt,
            state,
            cache,
            stop,
            limit,
        )) by {
        if fails(model, m, prompt, state, cache, stop, limit, e) && gets_stuck(
            model,
            m,
            prompt,
            state,
            cache,
            stop,
            limit,
        ) {
            let b = choose|b: Seq<u32>|
                {
                    &&& #[trigger] comes_to(model, m, prompt, state, cache, stop, limit, b)
                    &&& !model.pass_ready(pass_at(m, b, pos, cache, b.len() - 1), sizes(mem))
                };
            let (a, now) = choose|a: Seq<u32>, now: Memory<Contents>|
                {
                    &&& #[trigger] comes_to(model, m, prompt, state, cache, stop, limit, a)
                    &&& model.pass_ready(pass_at(m, a, pos, cache, a.len() - 1), sizes(mem))
                    &&& #[trigger] model.batch_stops_at(
                        m,
                        a,
                        pos,
                        cache,
                        mem,
                        a.len() - 1,
                        e,
                        now,
                    )
                };
            if a.len() <= b.len() {
                lemma_comes_through(model, m, prompt, state, cache, stop, limit, a, b);
            } else {
                lemma_comes_through(model, m, prompt, state, cache, stop, limit, b, a);
            }
        }
    }
}

proof fn lemma_ready_by_shape(
    model: LlamaModel,
    m: Math,
    prompt: Seq<u32>,
    a: KvCache,
    b: KvCache,
    n: Sizes,
)
    requires
        same_shape(a, b),
    ensures
        model.batch_ready(m, prompt, 0, a, n) ==> model.batch_ready(m, prompt, 0, b, n),
{
    if model.batch_ready(m, prompt, 0, a, n) {
        assert forall|i: int|
            0 <= i < prompt.len() && model.batch_comes_to(m, prompt, 0, b, i)
            implies #[trigger] model.pass_ready(pass_at(m, prompt, 0, b, i), n) by {
            assert forall|j: int| 0 <= j < i implies #[trigger] model.pass_succeeds(
                pass_at(m, prompt, 0, a, j),
            ) by {
                assert(model.pass_succeeds(pass_at(m, prompt, 0, b, j)));
                assert(pass_at(m, prompt, 0, a, j) == pass_at(m, prompt, 0, b, j));
            }
            assert(model.batch_comes_to(m, prompt, 0, a, i));
            assert(model.pass_ready(pass_at(m, prompt, 0, a, i), n));
            assert(pass_at(m, prompt, 0, a, i) == pass_at(m, prompt, 0, b, i));
        }
    }
}

proof fn lemma_stops_by_shape(
    model: LlamaModel,
    m: Math,
    ids: Seq<u32>,
    pos: usize,
    a: KvCache,
    b: KvCache,
    before: Memory<Contents>,
    i: int,
    e: GgufError,
    now: Memory<Contents>,
)
    requires
        same_shape(a, b),
        model.batch_stops_at(m, ids, pos, a, before, i, e, now),
    ensures
        model.batch_stops_at(m, ids, pos, b, before, i, e, now),
{
    lemma_shape_decides(model, m, ids, pos, a, b, before, i);
    assert forall|j: int| 0 <= j < i implies #[trigger] model.pass_succeeds(
        pass_at(m, ids, pos, b, j),
    ) by {
        assert(pass_at(m, ids, pos, a, j) == pass_at(m, ids, pos, b, j));
    }
    assert(pass_at(m, ids, pos, a, i) == pass_at(m, ids, pos, b, i));
}

/// What a run begins with decides how it ends.
proof fn lemma_same_run(
    model: LlamaModel,
    m: Math,
    prompt: Seq<u32>,
    s1: InferenceState<u32>,
    c1: KvCache,
    s2: InferenceState<u32>,
    c2: KvCache,
    stop: Option<u32>,
    limit: nat,
)
    requires
        memory(s1, c1) == memory(s2, c2),
        same_shape(c1, c2),
    ensures
        forall|ids: Seq<u32>, stopped: bool| #[trigger]
            completes(model, m, prompt, s1, c1, stop, limit, ids, stopped) ==> completes(
                model,
                m,
                prompt,
                s2,
                c2,
                stop,
                limit,
                ids,
                stopped,
            ),
        forall|e: GgufError| #[trigger]
            fails(model, m, prompt, s1, c1, stop, limit, e) ==> fails(
                model,
                m,
                prompt,
                s2,
                c2,
                stop,
                limit,
                e,
            ),
        gets_stuck(model, m, prompt, s1, c1, stop, limit) ==> gets_stuck(
            model,
            m,
            prompt,
            s2,
            c2,
            stop,
            limit,
        ),
{
    let pos = prompt.len() as usize;
    let start = memory(s1, c1);
    let mem = prefilled(model, m, prompt, s1, c1);
    assert forall|ids: Seq<u32>, stopped: bool| #[trigger]
        completes(model, m, prompt, s1, c1, stop, limit, ids, stopped) implies completes(
        model,
        m,
        prompt,
        s2,
        c2,
        stop,
        limit,
        ids,
        stopped,
    ) by {
        lemma_beginning_decides(model, m, prompt, ids, s1, c1, s2, c2);
    }
    assert forall|ids: Seq<u32>| #[trigger]
        comes_to(model, m, prompt, s1, c1, stop, limit, ids) implies comes_to(
        model,
        m,
        prompt,
        s2,
        c2,
        stop,
        limit,
        ids,
    ) by {
        lemma_beginning_decides(model, m, prompt, ids, s1, c1, s2, c2);
    }
    lemma_beginning_decides(model, m, prompt, prompt, s1, c1, s2, c2);
    lemma_ready_by_shape(model, m, prompt, c1, c2, sizes(start));
    lemma_ready_by_shape(model, m, prompt, c2, c1, sizes(start));
    assert forall|e: GgufError| #[trigger]
        fails(model, m, prompt, s1, c1, stop, limit, e) implies fails(
        model,
        m,
        prompt,
        s2,
        c2,
        stop,
        limit,
        e,
    ) by {
        if exists|i: int, now: Memory<Contents>|
            {
                &&& model.batch_ready(m, prompt, 0, c1, sizes(start))
                &&& #[trigger] model.batch_stops_at(m, prompt, 0, c1, start, i, e, now)
            } {
            let (i, now) = choose|i: int, now: Memory<Contents>| #[trigger]
                model.batch_stops_at(m, prompt, 0, c1, start, i, e, now);
            lemma_stops_by_shape(model, m, prompt, 0, c1, c2, start, i, e, now);
        } else {
            let (ids, now) = choose|ids: Seq<u32>, now: Memory<Contents>|
                {
                    &&& #[trigger] comes_to(model, m, prompt, s1, c1, stop, limit, ids)
                    &&& model.pass_ready(pass_at(m, ids, pos, c1, ids.len() - 1), sizes(mem))
                    &&& #[trigger] model.batch_stops_at(
                        m,
                        ids,
                        pos,
                        c1,
                        mem,
                        ids.len() - 1,
                        e,
                        now,
                    )
                };
            lemma_beginning_decides(model, m, prompt, ids, s1, c1, s2, c2);
            lemma_stops_by_shape(model, m, ids, pos, c1, c2, mem, ids.len() - 1, e, now);
            assert(comes_to(model, m, prompt, s2, c2, stop, limit, ids));
            assert(pass_at(m, ids, pos, c1, ids.len() - 1) == pass_at(
                m,
                ids,
                pos,
                c2,
                ids.len() - 1,
            ));
        }
    }
    if gets_stuck(model, m, prompt, s1, c1, stop, limit) && model.batch_ready(
        m,
        prompt,
        0,
        c1,
        sizes(start),
    ) {
        let ids = choose|ids: Seq<u32>|
            {
                &&& #[trigger] comes_to(model, m, prompt, s1, c1, stop, limit, ids)
                &&& !model.pass_ready(pass_at(m, ids, pos, c1, ids.len() - 1), sizes(mem))
            };
        lemma_beginning_decides(model, m, prompt, ids, s1, c1, s2, c2);
        assert(comes_to(model, m, prompt, s2, c2, stop, limit, ids));
        assert(pass_at(m, ids, pos, c1, ids.len() - 1) == pass_at(
            m,
            ids,
            pos,
            c2,
            ids.len() - 1,
        ));
    }
}

/// A greedy run is determined: whether it completes, fails or is not defined follows
/// from the model, the text and the limits, and where it completes so do its tokens
/// and their text.
pub proof fn law_greedy_run_is_determined(
    model: LlamaModel,
    m: Math,
    t: TokenizerView,
    text: Seq<char>,
    max_new: nat,
    stop_at_eos: bool,
    a: Option<Result<RunResult>>,
    b: Option<Result<RunResult>>,
)
    requires
        is_run(model, m, t, text, max_new, stop_at_eos, a),
        is_run(model, m, t, text, max_new, stop_at_eos, b),
    ensures
        match (a, b) {
            (None, None) => true,
            (Some(Err(_)), Some(Err(_))) => true,
            (Some(Ok(x)), Some(Ok(y))) => {
                &&& x.prompt_ids@ == y.prompt_ids@
                &&& x.token_ids@ == y.token_ids@
                &&& x.text@ == y.text@
                &&& x.stopped_eos == y.stopped_eos
            },
            _ => false,
        },
{
    let prompt = t.framed_ids(text);
    let slots = positions(prompt.len(), max_new, model.cfg.context_length as nat);
    let limit = token_limit(prompt.len(), max_new, slots);
    let stop = stop_token(t, stop_at_eos);
    let countable = t.encodable(text) && prompt.len() + max_new <= usize::MAX;
    if countable && prompt.len() > 0 && room_for(model, slots) {
        lemma_outcome_of_one_beginning(model, m, t, text, max_new, stop_at_eos, a);
        lemma_outcome_of_one_beginning(model, m, t, text, max_new, stop_at_eos, b);
        let (state, cache) = beginning(model, slots);
        lemma_one_way(model, m, prompt, state, cache, stop, limit);
    }
}

/// Buffers and a cache that a run begins with.
spec fn beginning(model: LlamaModel, slots: nat) -> (InferenceState<u32>, KvCache) {
    choose|s: InferenceState<u32>, c: KvCache| begins(model, s, c, slots)
}

proof fn lemma_outcome_of_one_beginning(
    model: LlamaModel,
    m: Math,
    t: TokenizerView,
    text: Seq<char>,
    max_new: nat,
    stop_at_eos: bool,
    outcome: Option<Result<RunResult>>,
)
    requires
        is_run(model, m, t, text, max_new, stop_at_eos, outcome),
        t.encodable(text),
        t.framed_ids(text).len() + max_new <= usize::MAX,
        t.framed_ids(text).len() > 0,
        room_for(
            model,
            positions(t.framed_ids(text).len(), max_new, model.cfg.context_length as nat),
        ),
    ensures
        ({
            let prompt = t.framed_ids(text);
            let slots = positions(prompt.len(), max_new, model.cfg.context_length as nat);
            let limit = token_limit(prompt.len(), max_new, slots);
            let stop = stop_token(t, stop_at_eos);
            let (state, cache) = beginning(model, slots);
            match outcome {
                Some(Ok(r)) => completes(
                    model,
                    m,
                    prompt,
                    state,
                    cache,
                    stop,
                    limit,
                    r.token_ids@,
                    r.stopped_eos,
                ),
                Some(Err(e)) => fails(model, m, prompt, state, cache, stop, limit, e),
                None => gets_stuck(model, m, prompt, state, cache, stop, limit),
            }
        }),
{
    let prompt = t.framed_ids(text);
    let slots = positions(prompt.len(), max_new, model.cfg.context_length as nat);
    let limit = token_limit(prompt.len(), max_new, slots);
    let stop = stop_token(t, stop_at_eos);
    let (s1, c1) = choose|s: InferenceState<u32>, c: KvCache| #[trigger]
        begins(model, s, c, slots) && match outcome {
            Some(Ok(r)) => completes(
                model,
                m,
                prompt,
                s,
                c,
                stop,
                limit,
                r.token_ids@,
                r.stopped_eos,
            ),
            Some(Err(e)) => fails(model, m, prompt, s, c, stop, limit, e),
            None => gets_stuck(model, m, prompt, s, c, stop, limit),
        };
    let (s2, c2) = beginning(model, slots);
    assert(begins(model, s1, c1, slots));
    assert(begins(model, s2, c2, slots));
    lemma_one_beginning(model, s1, c1, s2, c2, slots);
    lemma_same_run(model, m, prompt, s1, c1, s2, c2, stop, limit);
}

/// Runs a text through a model on the CPU: prefill, and then greedy decoding of up to
/// `max_new` tokens. `stop_at_eos` halts at the model's EOS token. Nothing is
/// returned where that is not defined: the encoding of the text comes to no end, a
/// length does not fit the machine, or the run comes to a pass that is not defined.
pub fn generate<F: Fn(Calc) -> u32 + Sync>(
    model: &LlamaModel,
    tokenizer: &Tokenizer,
    text: &str,
    max_new: usize,
    stop_at_eos: bool,
    calc: &F,
) -> (outcome: Option<Result<RunResult>>)
    requires
        computes(*calc),
        model.weights.wf(),
        tokenizer.wf(),
    ensures
        is_run(
            *model,
            math(*calc),
            tokenizer@,
            text@,
            max_new as nat,
            stop_at_eos,
            outcome,
        ),
{
    if !tokenizer.can_encode(text) {
        return None;
    }
    let prompt_ids = tokenizer.encode(text);
    let ghost prompt = prompt_ids@;
    if prompt_ids.len().checked_add(max_new).is_none() {
        return None;
    }
    let stop: Option<u32> = if stop_at_eos {
        tokenizer.eos_token_id
    } else {
        None
    };
    let mut generation = match Generation::start(
        prompt_ids,
        max_new,
        model.cfg.context_length,
        stop,
    ) {
        Ok(generation) => generation,
        Err(e) => {
            return Some(Err(e));
        },
    };
    let ghost slots = generation.max_seq as nat;
    let mut cache = match KvCache::for_model(&model.cfg, generation.max_seq, KvDtype::F16) {
        Some(cache) => cache,
        None => {
            return None;
        },
    };
    let mut state = match InferenceState::try_new(
        &model.cfg,
        model.l_cache,
        model.layers.as_slice(),
        model.gdn_dims,
        0u32,
    ) {
        Some(state) => state,
        None => {
            return None;
        },
    };
    let ghost m = math(*calc);
    let ghost (state0, cache0) = (state, cache);
    let ghost limit = token_limit(prompt.len(), max_new as nat, slots);
    proof {
        assert(begins(*model, state0, cache0, slots));
    }

    // One batched pass over the whole prompt.
    let prefill_start = Instant::now();
    match model.forward_batch(
        generation.prompt_ids.as_slice(),
        0,
        &mut cache,
        &mut state,
        calc,
    ) {
        None => {
            proof {
                assert(gets_stuck(*model, m, prompt, state0, cache0, stop, limit));
            }
            return None;
        },
        Some(Err(e)) => {
            proof {
                assert(fails(*model, m, prompt, state0, cache0, stop, limit, e));
            }
            return Some(Err(e));
        },
        Some(Ok(_)) => {},
    }
    let prefill = prefill_start.elapsed();
    let ghost cache1 = cache;
    let ghost mem = memory(state, cache);
    proof {
        assert(mem == prefilled(*model, m, prompt, state0, cache0));
        assert(prefills(*model, m, prompt, state0, cache0));
    }

    let decode_start = Instant::now();
    let decoded = model.decode_greedy(&mut generation, tokenizer, &mut cache, &mut state, calc);
    let ghost ids = generation.token_ids@;
    let ghost pos = prompt.len() as usize;
    proof {
        assert forall|n: int| #[trigger]
            model.after_tokens(m, ids, pos, cache1, mem, n) == model.after_tokens(
                m,
                ids,
                pos,
                cache0,
                mem,
                n,
            ) by {
            lemma_shape_decides(*model, m, ids, pos, cache1, cache0, mem, n);
        }
        assert forall|j: int| #[trigger]
            pass_at(m, ids, pos, cache0, j) == pass_at(m, ids, pos, cache1, j) by {}
        assert(model.is_greedy(m, ids, pos, cache0, mem)) by {
            assert forall|j: int| 0 <= j < ids.len() implies most_probable(
                model.logits_after(m, ids, pos, cache0, mem, j),
                #[trigger] ids[j],
            ) by {
                assert(model.after_tokens(m, ids, pos, cache1, mem, j) == model.after_tokens(
                    m,
                    ids,
                    pos,
                    cache0,
                    mem,
                    j,
                ));
            }
        }
    }
    match decoded {
        None => {
            proof {
                assert(comes_to(*model, m, prompt, state0, cache0, stop, limit, ids));
                assert(gets_stuck(*model, m, prompt, state0, cache0, stop, limit));
            }
            return None;
        },
        Some(Err(e)) => {
            proof {
                let now = memory(state, cache);
                assert(comes_to(*model, m, prompt, state0, cache0, stop, limit, ids));
                assert(model.batch_stops_at(m, ids, pos, cache0, mem, ids.len() - 1, e, now));
                assert(fails(*model, m, prompt, state0, cache0, stop, limit, e));
            }
            return Some(Err(e));
        },
        Some(Ok(())) => {},
    }
    let decode = decode_start.elapsed();
    proof {
        assert(completes(
            *model,
            m,
            prompt,
            state0,
            cache0,
            stop,
            limit,
            ids,
            generation.stopped_eos,
        ));
    }
    Some(Ok(generation.finish("cpu".to_owned(), prefill, decode)))
}

/// Builds the tokenizer and the model of a file, runs a text through it, and then
/// greedily decodes up to `max_new` tokens on the CPU. `stop_at_eos` halts at the
/// model's EOS token (use `false` for benchmarking a fixed token count). Nothing is
/// returned where that is not defined.
pub fn greedy_run<'a, F: Fn(Calc) -> u32 + Sync>(
    gguf: &'a GgufFile,
    data: &'a [u8],
    text: &str,
    max_new: usize,
    stop_at_eos: bool,
    calc: &F,
) -> (outcome: Option<Result<RunResult>>)
    requires
        computes(*calc),
    ensures
        if !describable(gguf@) {
            outcome matches Some(Err(e)) && is_tokenizer_error(gguf@, e)
        } else if !creation_defined(gguf@, data@.len()) {
            outcome is None
        } else if !creation_ok(gguf@, data@.len()) {
            outcome matches Some(Err(e)) && is_creation_error(gguf@, data@.len(), e)
        } else {
            exists|model: LlamaModel<'a>| #[trigger]
                model.is_model_of(gguf@, data@) && is_run(
                    model,
                    math(*calc),
                    described(gguf@),
                    text@,
                    max_new as nat,
                    stop_at_eos,
                    outcome,
                )
        },
{
    let tokenizer = match Tokenizer::from_gguf(gguf) {
        Ok(tokenizer) => tokenizer,
        Err(e) => {
            return Some(Err(e));
        },
    };
    let model = match try_create_model(gguf, data, Some(AnyBackend::Cpu)) {
        Some(Ok(model)) => model,
        Some(Err(e)) => {
            return Some(Err(e));
        },
        None => {
            return None;
        },
    };
    generate(&model, &tokenizer, text, max_new, stop_at_eos, calc)
}

} // verus!
