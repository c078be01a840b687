//! Greedy decoding on the CPU: the most probable token, again and again.

use vstd::prelude::*;

use crate::calc::{computes, math, Calc, Math};
use crate::error::Result;
use crate::model::kv_cache::KvCache;
use crate::model::llama::forward::pass_at;
use crate::model::llama::load::LlamaModel;
use crate::model::llama::meaning::{memory, pass_of, sizes, Contents};
use crate::model::llama::program::{Buffer, Memory};
use crate::model::llama::state::InferenceState;
use crate::runner::{token_limit, Generation};
use crate::sampler::{is_argmax, lemma_argmax_unique};
use crate::tokenizer::Tokenizer;

verus! {

/// Whether a token is the most probable one.
pub open spec fn most_probable(logits: Seq<u32>, token: u32) -> bool {
    exists|i: int| #[trigger] is_argmax(logits, i) && token == i as u32
}

/// Whether a sequence holds no token to stop at.
pub open spec fn unstopped(ids: Seq<u32>, stop: Option<u32>) -> bool {
    forall|j: int| 0 <= j < ids.len() ==> stop != Some(#[trigger] ids[j])
}

impl<'a> LlamaModel<'a> {
    /// The logits after the passes for the first `n` tokens.
    pub open spec fn logits_after(
        &self,
        m: Math,
        ids: Seq<u32>,
        pos: usize,
        cache: KvCache,
        before: Memory<Contents>,
        n: int,
    ) -> Seq<u32> {
        self.after_tokens(m, ids, pos, cache, before, n)(Buffer::Logits).numbers()
    }

    /// Whether every token is the most probable one after the passes for those
    /// before it.
    pub open spec fn is_greedy(
        &self,
        m: Math,
        ids: Seq<u32>,
        pos: usize,
        cache: KvCache,
        before: Memory<Contents>,
    ) -> bool {
        forall|j: int|
            0 <= j < ids.len() ==> most_probable(
                self.logits_after(m, ids, pos, cache, before, j),
                #[trigger] ids[j],
            )
    }

    /// Whether the passes for the first `n` tokens are defined and succeed.
    pub open spec fn runs(
        &self,
        m: Math,
        ids: Seq<u32>,
        pos: usize,
        cache: KvCache,
        before: Memory<Contents>,
        n: int,
    ) -> bool {
        forall|j: int|
            0 <= j < n ==> {
                &&& self.pass_ready(#[trigger] pass_at(m, ids, pos, cache, j), sizes(before))
                &&& self.pass_succeeds(pass_at(m, ids, pos, cache, j))
            }
    }

    /// Whether greedy decoding ends with these tokens: the most probable next one is
    /// to be stopped at, or there are as many as the limit allows.
    pub open spec fn ends(
        &self,
        m: Math,
        ids: Seq<u32>,
        stopped: bool,
        pos: usize,
        cache: KvCache,
        before: Memory<Contents>,
        stop: Option<u32>,
        limit: nat,
    ) -> bool {
        let logits = self.logits_after(m, ids, pos, cache, before, ids.len() as int);
        if stopped {
            ids.len() < limit && stop is Some && most_probable(logits, stop->0)
        } else {
            ids.len() == limit
        }
    }

    proof fn lemma_after_prefix(
        &self,
        m: Math,
        a: Seq<u32>,
        b: Seq<u32>,
        pos: usize,
        cache: KvCache,
        before: Memory<Contents>,
        n: int,
    )
        requires
            n <= a.len(),
            n <= b.len(),
            forall|j: int| 0 <= j < n ==> a[j] == b[j],
        ensures
            self.after_tokens(m, a, pos, cache, before, n) == self.after_tokens(
                m,
                b,
                pos,
                cache,
                before,
                n,
            ),
        decreases n,
    {
        if n > 0 {
            self.lemma_after_prefix(m, a, b, pos, cache, before, n - 1);
        }
    }

    /// Decodes greedily after a prompt went through prefill: chooses the most
    /// probable token and runs it, until there is one to stop at or the generation
    /// has as many as it can take. Nothing is returned where the pass for the last
    /// token is not defined.
    pub fn decode_greedy<F: Fn(Calc) -> u32 + Sync>(
        &self,
        generation: &mut Generation,
        tokenizer: &Tokenizer,
        cache: &mut KvCache,
        state: &mut InferenceState<u32>,
        calc: &F,
    ) -> (r: Option<Result<()>>)
        requires
            computes(*calc),
            self.weights.wf(),
            old(cache).wf(),
            tokenizer.wf(),
            old(generation).wf(),
            old(generation).token_ids@.len() == 0,
            old(generation).bytes@.len() == 0,
            !old(generation).stopped_eos,
        ensures
            final(cache).wf(),
            final(generation).wf(),
            final(generation).prompt_ids@ == old(generation).prompt_ids@,
            final(generation).max_new == old(generation).max_new,
            final(generation).max_seq == old(generation).max_seq,
            final(generation).stop == old(generation).stop,
            final(generation).bytes@ == tokenizer@.ids_bytes(final(generation).token_ids@),
            unstopped(final(generation).token_ids@, old(generation).stop),
            ({
                let m = math(*calc);
                let ids = final(generation).token_ids@;
                let n = ids.len() as int;
                let pos = old(generation).prompt_ids@.len() as usize;
                let first = *old(cache);
                let before = memory(*old(state), *old(cache));
                let now = memory(*final(state), *final(cache));
                &&& self.is_greedy(m, ids, pos, first, before)
                &&& match r {
                    Some(Ok(())) => {
                        &&& self.runs(m, ids, pos, first, before, n)
                        &&& now == self.after_tokens(m, ids, pos, first, before, n)
                        &&& self.ends(
                            m,
                            ids,
                            final(generation).stopped_eos,
                            pos,
                            first,
                            before,
                            old(generation).stop,
                            token_limit(
                                pos as nat,
                                old(generation).max_new as nat,
                                old(generation).max_seq as nat,
                            ),
                        )
                    },
                    Some(Err(e)) => {
                        &&& n > 0
                        &&& !final(generation).stopped_eos
                        &&& self.runs(m, ids, pos, first, before, n - 1)
                        &&& self.pass_ready(pass_at(m, ids, pos, first, n - 1), sizes(before))
                        &&& self.batch_stops_at(m, ids, pos, first, before, n - 1, e, now)
                    },
                    None => {
                        &&& n > 0
                        &&& !final(generation).stopped_eos
                        &&& self.runs(m, ids, pos, first, before, n - 1)
                        &&& !self.pass_ready(pass_at(m, ids, pos, first, n - 1), sizes(before))
                        &&& now == self.after_tokens(m, ids, pos, first, before, n - 1)
                    },
                }
            }),
    {
        let ghost m = math(*calc);
        let ghost first = *cache;
        let ghost before = memory(*state, *cache);
        let ghost prompt = generation.prompt_ids@;
        let ghost pos0 = generation.prompt_ids@.len() as usize;
        let ghost stop = generation.stop;
        proof {
            assert(generation.bytes@ =~= tokenizer@.ids_bytes(generation.token_ids@));
        }
        while generation.active()
            invariant
                m == math(*calc),
                computes(*calc),
                self.weights.wf(),
                tokenizer.wf(),
                first == *old(cache),
                before == memory(*old(state), *old(cache)),
                prompt == old(generation).prompt_ids@,
                pos0 == prompt.len(),
                stop == old(generation).stop,
                cache.wf(),
                generation.wf(),
                generation.prompt_ids@ == prompt,
                generation.max_new == old(generation).max_new,
                generation.max_seq == old(generation).max_seq,
                generation.stop == stop,
                !generation.stopped_eos,
                generation.bytes@ == tokenizer@.ids_bytes(generation.token_ids@),
                unstopped(generation.token_ids@, stop),
                forall|t: u32, q: usize| #[trigger]
                    pass_of(m, t, q, *cache) == pass_of(m, t, q, first),
                sizes(memory(*state, *cache)) == sizes(before),
                self.is_greedy(m, generation.token_ids@, pos0, first, before),
                self.runs(
                    m,
                    generation.token_ids@,
                    pos0,
                    first,
                    before,
                    generation.token_ids@.len() as int,
                ),
                memory(*state, *cache) == self.after_tokens(
                    m,
                    generation.token_ids@,
                    pos0,
                    first,
                    before,
                    generation.token_ids@.len() as int,
                ),
            decreases generation.max_new - generation.token_ids@.len(),
        {
            let ghost ids = generation.token_ids@;
            let ghost n = ids.len() as int;
            proof {
                assert(memory(*state, *cache)(Buffer::Logits).numbers() == state.logits@);
            }
            let (next, pos) = match generation.accept_greedy(state.logits.as_slice(), tokenizer) {
                Some(chosen) => chosen,
                None => {
                    proof {
                        assert(generation.token_ids@ == ids);
                    }
                    return Some(Ok(()));
                },
            };
            let ghost more = generation.token_ids@;
            let ghost p = pass_at(m, more, pos0, first, n);
            proof {
                assert(more == ids.push(next));
                assert forall|j: int| 0 <= j < more.len() implies most_probable(
                    self.logits_after(m, more, pos0, first, before, j),
                    #[trigger] more[j],
                ) by {
                    self.lemma_after_prefix(m, ids, more, pos0, first, before, j);
                    if j < n {
                        assert(ids[j] == more[j]);
                    }
                }
                assert forall|j: int| 0 <= j < n implies {
                    &&& self.pass_ready(#[trigger] pass_at(m, more, pos0, first, j), sizes(before))
                    &&& self.pass_succeeds(pass_at(m, more, pos0, first, j))
                } by {
                    assert(pass_at(m, more, pos0, first, j) == pass_at(m, ids, pos0, first, j));
                }
                self.lemma_after_prefix(m, ids, more, pos0, first, before, n);
                assert(pos == pos0 + n);
                assert(p == pass_of(m, next, pos, *cache));
            }
            if !self.is_pass_ready(next, pos, state, cache) {
                proof {
                    assert(!self.pass_ready(p, sizes(before))) by {
                        assert(p == pass_of(m, next, pos, *cache));
                    }
                }
                return None;
            }
            let ghost earlier = *cache;
            match self.run(next, pos, cache, state, calc) {
                Ok(_) => {},
                Err(e) => {
                    proof {
                        assert(self.batch_stops_at(
                            m,
                            more,
                            pos0,
                            first,
                            before,
                            n,
                            e,
                            memory(*state, *cache),
                        ));
                    }
                    return Some(Err(e));
                },
            }
            proof {
                assert forall|t: u32, q: usize| #[trigger]
                    pass_of(m, t, q, *cache) == pass_of(m, t, q, first) by {
                    assert(pass_of(m, t, q, earlier) == pass_of(m, t, q, first));
                    assert(pass_of(m, next, pos, *cache) == pass_of(m, next, pos, earlier));
                }
            }
        }
        Some(Ok(()))
    }
}

/// Greedy decoding is determined: the tokens that it ends with, and whether it
/// stopped, follow from the model, the memory after prefill, the token to stop at
/// and the limit.
pub proof fn law_greedy_decoding_is_determined(
    model: LlamaModel,
    m: Math,
    a: Seq<u32>,
    a_stopped: bool,
    b: Seq<u32>,
    b_stopped: bool,
    pos: usize,
    cache: KvCache,
    before: Memory<Contents>,
    stop: Option<u32>,
    limit: nat,
)
    requires
        model.is_greedy(m, a, pos, cache, before),
        unstopped(a, stop),
        model.ends(m, a, a_stopped, pos, cache, before, stop, limit),
        model.is_greedy(m, b, pos, cache, before),
        unstopped(b, stop),
        model.ends(m, b, b_stopped, pos, cache, before, stop, limit),
    ensures
        a == b,
        a_stopped == b_stopped,
{
    if a.len() <= b.len() {
        lemma_one_end(model, m, a, a_stopped, b, b_stopped, pos, cache, before, stop, limit);
    } else {
        lemma_one_end(model, m, b, b_stopped, a, a_stopped, pos, cache, before, stop, limit);
    }
}

proof fn lemma_one_end(
    model: LlamaModel,
    m: Math,
    a: Seq<u32>,
    a_stopped: bool,
    b: Seq<u32>,
    b_stopped: bool,
    pos: usize,
    cache: KvCache,
    before: Memory<Contents>,
    stop: Option<u32>,
    limit: nat,
)
    requires
        model.is_greedy(m, a, pos, cache, before),
        model.ends(m, a, a_stopped, pos, cache, before, stop, limit),
        model.is_greedy(m, b, pos, cache, before),
        unstopped(b, stop),
        model.ends(m, b, b_stopped, pos, cache, before, stop, limit),
        a.len() <= b.len(),
    ensures
        a == b,
        a_stopped == b_stopped,
{
    lemma_none_longer(model, m, a, a_stopped, b, pos, cache, before, stop, limit);
    lemma_greedy_agree(model, m, a, b, pos, cache, before, a.len() as int);
    assert(a =~= b);
}

/// No greedy sequence goes on where greedy decoding ends.
pub(crate) proof fn lemma_none_longer(
    model: LlamaModel,
    m: Math,
    a: Seq<u32>,
    a_stopped: bool,
    b: Seq<u32>,
    pos: usize,
    cache: KvCache,
    before: Memory<Contents>,
    stop: Option<u32>,
    limit: nat,
)
    requires
        model.is_greedy(m, a, pos, cache, before),
        model.ends(m, a, a_stopped, pos, cache, before, stop, limit),
        model.is_greedy(m, b, pos, cache, before),
        unstopped(b, stop),
        b.len() <= limit,
    ensures
        b.len() <= a.len(),
{
    let n = a.len() as int;
    if n < b.len() {
        lemma_greedy_agree(model, m, a, b, pos, cache, before, n);
        model.lemma_after_prefix(m, a, b, pos, cache, before, n);
        let logits = model.logits_after(m, a, pos, cache, before, n);
        assert(most_probable(logits, b[n]));
        let i = choose|i: int| #[trigger] is_argmax(logits, i) && stop->0 == i as u32;
        let k = choose|k: int| #[trigger] is_argmax(logits, k) && b[n] == k as u32;
        lemma_argmax_unique(logits, i, k);
        assert(stop == Some(b[n]));
    }
}

/// Greedy sequences agree as far as both go.
pub(crate) proof fn lemma_greedy_agree(
    model: LlamaModel,
    m: Math,
    a: Seq<u32>,
    b: Seq<u32>,
    pos: usize,
    cache: KvCache,
    before: Memory<Contents>,
    n: int,
)
    requires
        model.is_greedy(m, a, pos, cache, before),
        model.is_greedy(m, b, pos, cache, before),
        0 <= n <= a.len() <= b.len(),
    ensures
        forall|j: int| 0 <= j < n ==> a[j] == b[j],
    decreases n,
{
    if n > 0 {
        lemma_greedy_agree(model, m, a, b, pos, cache, before, n - 1);
        model.lemma_after_prefix(m, a, b, pos, cache, before, n - 1);
        let logits = model.logits_after(m, a, pos, cache, before, n - 1);
        assert(most_probable(logits, a[n - 1]));
        assert(most_probable(logits, b[n - 1]));
        let i = choose|i: int| #[trigger] is_argmax(logits, i) && a[n - 1] == i as u32;
        let k = choose|k: int| #[trigger] is_argmax(logits, k) && b[n - 1] == k as u32;
        lemma_argmax_unique(logits, i, k);
    }
}

} // verus!
