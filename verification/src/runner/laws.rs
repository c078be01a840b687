//! How long a generation runs, what it is prompted with, and how two runs compare.

use vstd::prelude::*;

use crate::runner::greedy::stop_token;
use crate::runner::{chat, is_drift, positions, token_limit, Drift};
use crate::tokenizer::TokenizerView;

verus! {

/// A run has positions for its prompt and for all tokens that are asked for, and no more
/// than the context has; so it takes as many tokens as are asked for, or as there is room
/// for behind the prompt.
pub proof fn law_a_run_ends_with_its_context(prompt: nat, max_new: nat, context: nat)
    ensures
        ({
            let slots = positions(prompt, max_new, context);
            let limit = token_limit(prompt, max_new, slots);
            &&& slots <= context && slots <= prompt + max_new
            &&& slots == context || slots == prompt + max_new
            &&& limit <= max_new
            &&& prompt <= context ==> prompt + limit == slots
            &&& prompt >= context ==> limit == 0
            &&& prompt <= context && limit < max_new ==> prompt + limit == context
        }),
{
}

/// A run stops at the end token of the vocabulary where it is asked to, and else at none.
pub proof fn law_a_run_stops_where_it_is_asked_to(t: TokenizerView)
    ensures
        stop_token(t, true) == t.eos_token_id,
        stop_token(t, false) is None,
{
}

/// A prompt stands in a chat between the mark of the user and that of the assistant, as it
/// is.
pub proof fn law_a_chat_holds_the_prompt(prompt: Seq<char>)
    ensures
        chat(prompt).take(17) == "<|im_start|>user\n"@,
        chat(prompt).subrange(17, 17 + prompt.len() as int) == prompt,
        chat(prompt).skip(17 + prompt.len() as int) == "<|im_end|>\n<|im_start|>assistant\n"@,
{
    reveal_strlit("<|im_start|>user\n");
    assert("<|im_start|>user\n"@.len() == 17);
    assert(chat(prompt).take(17) =~= "<|im_start|>user\n"@);
    assert(chat(prompt).subrange(17, 17 + prompt.len() as int) =~= prompt);
    assert(chat(prompt).skip(17 + prompt.len() as int) =~= "<|im_end|>\n<|im_start|>assistant\n"@);
}

/// Two runs compare in one way only: they are the same, or one goes on where the other one
/// ends, or there is a first token that differs.
pub proof fn law_runs_compare_in_one_way(a: Seq<u32>, b: Seq<u32>, d: Drift, e: Drift)
    requires
        is_drift(a, b, d),
        is_drift(a, b, e),
    ensures
        d == e,
        is_drift(b, a, d),
        d is Clean <==> a == b,
        d is LengthMismatch ==> a.len() != b.len(),
        d matches Drift::Diverges(i) ==> a[i as int] != b[i as int] && forall|j: int|
            0 <= j < i ==> #[trigger] a[j] == b[j],
{
    if let Drift::Diverges(i) = d {
        lemma_divergence(a, b, i as int);
        assert forall|j: int| 0 <= j < i implies #[trigger] a[j] == b[j] by {
            assert(a.take(i as int)[j] == b.take(i as int)[j]);
        }
        if let Drift::Diverges(k) = e {
            if k < i {
                assert(a.take(i as int)[k as int] == b.take(i as int)[k as int]);
            }
            if i < k {
                assert(a.take(k as int)[i as int] == b.take(k as int)[i as int]);
            }
        }
    }
    if let Drift::Diverges(k) = e {
        lemma_divergence(a, b, k as int);
    }
    if d is LengthMismatch && a.len() == b.len() {
        if a.is_prefix_of(b) {
            assert(b.subrange(0, a.len() as int) =~= b);
        } else {
            assert(a.subrange(0, b.len() as int) =~= a);
        }
    }
}

proof fn lemma_divergence(a: Seq<u32>, b: Seq<u32>, i: int)
    requires
        0 <= i < a.len(),
        i < b.len(),
        a[i] != b[i],
    ensures
        a != b,
        !a.is_prefix_of(b),
        !b.is_prefix_of(a),
{
    if a.is_prefix_of(b) {
        assert(b.subrange(0, a.len() as int)[i] == b[i]);
    }
    if b.is_prefix_of(a) {
        assert(a.subrange(0, b.len() as int)[i] == a[i]);
    }
}

} // verus!
