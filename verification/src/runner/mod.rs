//! Generation: which token runs next at which position, when it ends, and whole
//! runs on the CPU.

pub mod greedy;
pub mod laws;

pub use greedy::{generate, greedy_run};

use core::time::Duration;

use vstd::prelude::*;
use vstd::string::*;

use crate::error::{GgufError, Result};
use crate::sampler::{argmax, is_argmax};
use crate::text::{string_from_utf8_lossy, utf8_lossy};
use crate::tokenizer::Tokenizer;

verus! {

/// Result of a greedy generation run.
#[derive(Debug)]
pub struct RunResult {
    /// Tokenized prompt (as our tokenizer produced it).
    pub prompt_ids: Vec<u32>,
    /// Greedy-generated token ids (excludes the prompt). Stops early at EOS
    /// when asked to.
    pub token_ids: Vec<u32>,
    /// Decoded text of `token_ids`.
    pub text: String,
    /// Wall time to run the prompt through prefill.
    pub prefill: Duration,
    /// Wall time to generate `token_ids`.
    pub decode: Duration,
    /// Name of the backend that actually ran (e.g. "cpu", "wgpu").
    pub backend: String,
    /// Whether decoding stopped because EOS was hit.
    pub stopped_eos: bool,
}

/// A generation in progress, after the prompt went through prefill.
#[derive(Debug)]
pub struct Generation {
    /// Tokenized prompt.
    pub prompt_ids: Vec<u32>,
    /// The largest number of new tokens.
    pub max_new: usize,
    /// The number of positions, those of the prompt among them.
    pub max_seq: usize,
    /// The token to stop at.
    pub stop: Option<u32>,
    /// The tokens that were generated.
    pub token_ids: Vec<u32>,
    /// The bytes of those tokens.
    pub bytes: Vec<u8>,
    /// Whether the token to stop at was hit.
    pub stopped_eos: bool,
}

/// The number of positions of a generation: prompt and new tokens, as far as the
/// context goes.
pub open spec fn positions(prompt: nat, max_new: nat, context: nat) -> nat {
    if prompt + max_new <= context {
        prompt + max_new
    } else {
        context
    }
}

impl Generation {
    /// The position of the next token.
    pub open spec fn spec_pos(&self) -> nat {
        self.prompt_ids@.len() + self.token_ids@.len()
    }

    /// Whether a generation is in order.
    pub open spec fn wf(&self) -> bool {
        &&& self.prompt_ids@.len() > 0
        &&& self.token_ids@.len() <= self.max_new
        &&& self.prompt_ids@.len() + self.max_new <= usize::MAX
        &&& self.token_ids@.len() > 0 ==> self.spec_pos() <= self.max_seq
    }

    /// Whether another token is to be chosen.
    pub open spec fn wants_token(&self) -> bool {
        !self.stopped_eos && self.token_ids@.len() < self.max_new && self.spec_pos() < self.max_seq
    }

    /// Begins a generation after a prompt. An empty prompt has no next token.
    pub fn start(
        prompt_ids: Vec<u32>,
        max_new: usize,
        context_length: u64,
        stop: Option<u32>,
    ) -> (r: Result<Self>)
        requires
            prompt_ids@.len() + max_new <= usize::MAX,
        ensures
            match r {
                Ok(g) => {
                    &&& prompt_ids@.len() > 0
                    &&& g.wf()
                    &&& g.prompt_ids@ == prompt_ids@
                    &&& g.max_new == max_new
                    &&& g.max_seq == positions(
                        prompt_ids@.len(),
                        max_new as nat,
                        context_length as nat,
                    )
                    &&& g.stop == stop
                    &&& g.token_ids@ == Seq::<u32>::empty()
                    &&& g.bytes@ == Seq::<u8>::empty()
                    &&& !g.stopped_eos
                },
                Err(e) => prompt_ids@.len() == 0 && e.is_backend("prompt encoded to zero tokens"@),
            },
    {
        if prompt_ids.len() == 0 {
            return Err(GgufError::BackendError("prompt encoded to zero tokens".to_owned()));
        }
        let wanted: usize = prompt_ids.len() + max_new;
        let max_seq: usize = if wanted as u64 <= context_length {
            wanted
        } else {
            context_length as usize
        };
        Ok(
            Generation {
                prompt_ids,
                max_new,
                max_seq,
                stop,
                token_ids: Vec::new(),
                bytes: Vec::new(),
                stopped_eos: false,
            },
        )
    }

    /// Whether another token is to be chosen.
    pub fn active(&self) -> (r: bool)
        requires
            self.wf(),
        ensures
            r == self.wants_token(),
    {
        !self.stopped_eos && self.token_ids.len() < self.max_new && self.prompt_ids.len()
            + self.token_ids.len() < self.max_seq
    }

    /// Takes the token that was chosen, and gives the position at which it runs.
    /// Nothing runs where it is the token to stop at.
    pub fn accept(&mut self, next: u32, tokenizer: &Tokenizer) -> (pos: Option<usize>)
        requires
            old(self).wf(),
            old(self).wants_token(),
            tokenizer.wf(),
        ensures
            final(self).wf(),
            final(self).prompt_ids@ == old(self).prompt_ids@,
            final(self).max_new == old(self).max_new,
            final(self).max_seq == old(self).max_seq,
            final(self).stop == old(self).stop,
            old(self).bytes@ == tokenizer@.ids_bytes(old(self).token_ids@) ==> final(self).bytes@
                == tokenizer@.ids_bytes(final(self).token_ids@),
            if old(self).stop == Some(next) {
                &&& pos is None
                &&& final(self).stopped_eos
                &&& final(self).token_ids@ == old(self).token_ids@
                &&& final(self).bytes@ == old(self).bytes@
            } else {
                &&& pos == Some(old(self).spec_pos() as usize)
                &&& old(self).spec_pos() < old(self).max_seq
                &&& !final(self).stopped_eos
                &&& final(self).token_ids@ == old(self).token_ids@.push(next)
                &&& final(self).bytes@ == old(self).bytes@ + tokenizer@.id_bytes(next)
            },
    {
        if let Some(stop) = self.stop {
            if stop == next {
                self.stopped_eos = true;
                return None;
            }
        }
        let pos: usize = self.prompt_ids.len() + self.token_ids.len();
        self.token_ids.push(next);
        let mut piece = tokenizer.token_bytes(next);
        self.bytes.append(&mut piece);
        proof {
            assert(self.token_ids@.drop_last() =~= old(self).token_ids@);
        }
        Some(pos)
    }

    /// Takes the most probable token, given the bits of the logits, and gives it
    /// with the position at which it runs.
    pub fn accept_greedy(&mut self, logits: &[u32], tokenizer: &Tokenizer) -> (r: Option<
        (u32, usize),
    >)
        requires
            old(self).wf(),
            old(self).wants_token(),
            tokenizer.wf(),
        ensures
            final(self).wf(),
            final(self).prompt_ids@ == old(self).prompt_ids@,
            final(self).max_new == old(self).max_new,
            final(self).max_seq == old(self).max_seq,
            final(self).stop == old(self).stop,
            old(self).bytes@ == tokenizer@.ids_bytes(old(self).token_ids@) ==> final(self).bytes@
                == tokenizer@.ids_bytes(final(self).token_ids@),
            exists|i: int| #[trigger]
                is_argmax(logits@, i) && if old(self).stop == Some(i as u32) {
                    &&& r is None
                    &&& final(self).stopped_eos
                    &&& final(self).token_ids@ == old(self).token_ids@
                    &&& final(self).bytes@ == old(self).bytes@
                } else {
                    &&& r == Some((i as u32, old(self).spec_pos() as usize))
                    &&& !final(self).stopped_eos
                    &&& final(self).token_ids@ == old(self).token_ids@.push(i as u32)
                    &&& final(self).bytes@ == old(self).bytes@ + tokenizer@.id_bytes(i as u32)
                },
    {
        let i: usize = argmax(logits);
        let next: u32 = i as u32;
        proof {
            assert(is_argmax(logits@, i as int));
            assert((i as int) as u32 == next);
        }
        match self.accept(next, tokenizer) {
            Some(pos) => Some((next, pos)),
            None => None,
        }
    }

    /// The result of a generation that has ended.
    pub fn finish(self, backend: String, prefill: Duration, decode: Duration) -> (r: RunResult)
        ensures
            r.prompt_ids@ == self.prompt_ids@,
            r.token_ids@ == self.token_ids@,
            r.text@ == utf8_lossy(self.bytes@),
            r.backend@ == backend@,
            r.prefill == prefill,
            r.decode == decode,
            r.stopped_eos == self.stopped_eos,
    {
        let text = string_from_utf8_lossy(self.bytes.as_slice());
        RunResult {
            prompt_ids: self.prompt_ids,
            token_ids: self.token_ids,
            text,
            prefill,
            decode,
            backend,
            stopped_eos: self.stopped_eos,
        }
    }
}

// ── The whole of a generation ───────────────────────────────────────────────

/// What is kept of a sequence of choices: those before the first one to stop at,
/// and no more than `limit`.
pub open spec fn kept_choices(choices: Seq<u32>, stop: Option<u32>, limit: nat) -> Seq<u32>
    decreases choices.len(),
{
    if choices.len() == 0 || limit == 0 || stop == Some(choices[0]) {
        Seq::empty()
    } else {
        seq![choices[0]] + kept_choices(choices.drop_first(), stop, (limit - 1) as nat)
    }
}

/// The tokens of a generation that was offered choices one after the other, and
/// whether it stopped, as `Generation::active` and `Generation::accept` have it.
pub open spec fn offered(
    tokens: Seq<u32>,
    stopped: bool,
    choices: Seq<u32>,
    stop: Option<u32>,
    limit: nat,
) -> Seq<u32>
    decreases choices.len(),
{
    if choices.len() == 0 || stopped || tokens.len() >= limit {
        tokens
    } else if stop == Some(choices[0]) {
        offered(tokens, true, choices.drop_first(), stop, limit)
    } else {
        offered(tokens.push(choices[0]), false, choices.drop_first(), stop, limit)
    }
}

/// The number of tokens that a generation can take: as many as are asked for, and
/// as there are positions left after the prompt.
pub open spec fn token_limit(prompt: nat, max_new: nat, max_seq: nat) -> nat {
    if max_seq <= prompt {
        0
    } else if max_new <= max_seq - prompt {
        max_new
    } else {
        (max_seq - prompt) as nat
    }
}

/// A generation wants a token exactly while it has not stopped and is below its
/// limit.
pub proof fn law_generation_runs_to_its_limit(g: Generation)
    requires
        g.wf(),
    ensures
        g.wants_token() <==> !g.stopped_eos && g.token_ids@.len() < token_limit(
            g.prompt_ids@.len(),
            g.max_new as nat,
            g.max_seq as nat,
        ),
{
}

/// A generation keeps exactly the choices before the first one to stop at, up to
/// its limit.
pub proof fn law_generation_keeps_choices(choices: Seq<u32>, stop: Option<u32>, limit: nat)
    ensures
        offered(Seq::empty(), false, choices, stop, limit) == kept_choices(choices, stop, limit),
        kept_choices(choices, stop, limit).len() <= limit,
        kept_choices(choices, stop, limit).is_prefix_of(choices),
{
    lemma_offered(Seq::empty(), choices, stop, limit);
    assert(Seq::<u32>::empty() + kept_choices(choices, stop, limit) =~= kept_choices(
        choices,
        stop,
        limit,
    ));
    lemma_kept_prefix(choices, stop, limit);
}

proof fn lemma_kept_prefix(choices: Seq<u32>, stop: Option<u32>, limit: nat)
    ensures
        kept_choices(choices, stop, limit).len() <= limit,
        kept_choices(choices, stop, limit).is_prefix_of(choices),
    decreases choices.len(),
{
    if choices.len() == 0 || limit == 0 || stop == Some(choices[0]) {
        assert(kept_choices(choices, stop, limit) =~= choices.take(0));
    } else {
        lemma_kept_prefix(choices.drop_first(), stop, (limit - 1) as nat);
        let rest = kept_choices(choices.drop_first(), stop, (limit - 1) as nat);
        assert(seq![choices[0]] + rest =~= choices.take(1 + rest.len() as int));
    }
}

proof fn lemma_offered(tokens: Seq<u32>, choices: Seq<u32>, stop: Option<u32>, limit: nat)
    requires
        tokens.len() <= limit,
    ensures
        offered(tokens, false, choices, stop, limit) == tokens + kept_choices(
            choices,
            stop,
            (limit - tokens.len()) as nat,
        ),
    decreases choices.len(),
{
    if choices.len() == 0 || tokens.len() >= limit {
        assert(tokens + Seq::empty() =~= tokens);
    } else if stop == Some(choices[0]) {
        assert(offered(tokens, true, choices.drop_first(), stop, limit) == tokens);
        assert(tokens + Seq::empty() =~= tokens);
    } else {
        lemma_offered(tokens.push(choices[0]), choices.drop_first(), stop, limit);
        let rest = kept_choices(
            choices.drop_first(),
            stop,
            (limit - tokens.len() - 1) as nat,
        );
        assert(tokens.push(choices[0]) + rest =~= tokens + (seq![choices[0]] + rest));
    }
}

// ── Prompts and comparisons ─────────────────────────────────────────────────

/// The chat template: the prompt as the turn of a user, and the beginning of the
/// turn of the assistant.
pub open spec fn chat(prompt: Seq<char>) -> Seq<char> {
    "<|im_start|>user\n"@ + prompt + "<|im_end|>\n<|im_start|>assistant\n"@
}

/// Wraps a prompt in the chat template.
pub fn chat_prompt(prompt: &str) -> (s: String)
    ensures
        s@ == chat(prompt@),
{
    let mut s = "<|im_start|>user\n".to_owned();
    s.append(prompt);
    s.append("<|im_end|>\n<|im_start|>assistant\n");
    s
}

/// How two runs compare.
#[derive(Debug, Clone, Copy, PartialEq, Eq, Structural)]
pub enum Drift {
    /// The same tokens.
    Clean,
    /// One is the beginning of the other.
    LengthMismatch,
    /// They differ first at this token.
    Diverges(usize),
}

/// Whether two runs compare that way.
pub open spec fn is_drift(a: Seq<u32>, b: Seq<u32>, d: Drift) -> bool {
    match d {
        Drift::Clean => a == b,
        Drift::LengthMismatch => a != b && (a.is_prefix_of(b) || b.is_prefix_of(a)),
        Drift::Diverges(i) => i < a.len() && i < b.len() && a[i as int] != b[i as int] && a.take(
            i as int,
        ) == b.take(i as int),
    }
}

/// Compares the tokens of two runs.
pub fn compare_runs(a: &[u32], b: &[u32]) -> (d: Drift)
    ensures
        is_drift(a@, b@, d),
{
    let mut i: usize = 0;
    while i < a.len() && i < b.len()
        invariant
            i <= a@.len(),
            i <= b@.len(),
            forall|j: int| 0 <= j < i ==> #[trigger] a@[j] == b@[j],
        decreases a@.len() - i,
    {
        if a[i] != b[i] {
            proof {
                assert(a@.take(i as int) =~= b@.take(i as int));
            }
            return Drift::Diverges(i);
        }
        i += 1;
    }
    if a.len() == b.len() {
        proof {
            assert(a@ =~= b@);
        }
        Drift::Clean
    } else {
        proof {
            if a@.len() < b@.len() {
                assert(a@ =~= b@.take(a@.len() as int));
            } else {
                assert(b@ =~= a@.take(b@.len() as int));
            }
        }
        Drift::LengthMismatch
    }
}

} // verus!
