//! What a report on a file says: which context fits into memory, and which amounts of
//! memory are shown.

use vstd::prelude::*;

use crate::model::info::InfoView;
use crate::model::kv_dtype::KvDtype;
use crate::report::{
    at_most_count, base_tiers, budget_of, near, nearest_gigabyte, Capped, GIGABYTE,
};

verus! {

/// Whether `c` is the longest context of a model with at most `limit` tokens, where each
/// token takes `token` bytes of `available` ones.
pub open spec fn is_longest(c: Capped, token: nat, available: nat, limit: nat) -> bool {
    &&& c.tokens <= limit
    &&& c.tokens * token <= available
    &&& c.capped <==> (limit + 1) * token <= available
    &&& !c.capped ==> (c.tokens + 1) * token > available
    &&& c.capped ==> c.tokens == limit
}

/// The context of a budget is the longest one that fits beside the model, and one token
/// more does not fit, or the model has no longer one.
pub proof fn law_a_budget_is_the_longest_context_that_fits(v: InfoView, ram: nat, model: nat)
    requires
        model < ram <= u64::MAX,
    ensures
        ({
            let row = budget_of(v, ram, model);
            let available = (ram - model) as nat;
            let limit = match v.context_length {
                Some(n) => n as nat,
                None => u64::MAX as nat,
            };
            &&& v.token_bytes(KvDtype::F16) matches Some(b) ==> b > 0 ==> is_longest(
                row.half,
                b,
                available,
                limit,
            )
            &&& v.token_bytes(KvDtype::Q8_0) matches Some(b) ==> b > 0 ==> is_longest(
                row.scaled,
                b,
                available,
                limit,
            )
            &&& v.flat_bytes(3) matches Some(b) ==> (v.block_count matches Some(layers) ==> b * (
            layers as nat) > 0 ==> is_longest(row.three_bits, b * layers as nat, available, limit))
        }),
{
    let available = (ram - model) as nat;
    let limit = match v.context_length {
        Some(n) => n as nat,
        None => u64::MAX as nat,
    };
    if let Some(b) = v.token_bytes(KvDtype::F16) {
        if b > 0 {
            lemma_longest(available, b, limit);
        }
    }
    if let Some(b) = v.token_bytes(KvDtype::Q8_0) {
        if b > 0 {
            lemma_longest(available, b, limit);
        }
    }
    if let (Some(b), Some(layers)) = (v.flat_bytes(3), v.block_count) {
        if b * layers as nat > 0 {
            assert(b != 0) by (nonlinear_arith)
                requires
                    b * layers as nat > 0,
            ;
            lemma_longest(available, b * layers as nat, limit);
        }
    }
}

proof fn lemma_longest(available: nat, token: nat, limit: nat)
    requires
        token > 0,
    ensures
        (available / token) * token <= available,
        (available / token + 1) * token > available,
        available / token > limit ==> (limit + 1) * token <= available,
        available / token > limit ==> limit * token <= available,
        available / token <= limit ==> (limit + 1) * token > available,
        available / token <= available,
{
    let n = available / token;
    vstd::arithmetic::div_mod::lemma_fundamental_div_mod(available as int, token as int);
    vstd::arithmetic::div_mod::lemma_mod_bound(available as int, token as int);
    assert(n * token == token * n) by (nonlinear_arith);
    assert((n + 1) * token == n * token + token) by (nonlinear_arith);
    if n > limit {
        assert((limit + 1) * token <= n * token) by (nonlinear_arith)
            requires
                limit + 1 <= n,
                token > 0,
        ;
        assert(limit * token <= n * token) by (nonlinear_arith)
            requires
                limit <= n,
                token > 0,
        ;
    } else {
        assert((n + 1) * token <= (limit + 1) * token) by (nonlinear_arith)
            requires
                n <= limit,
                token > 0,
        ;
    }
    assert(n <= n * token) by (nonlinear_arith)
        requires
            token > 0,
            n >= 0,
    ;
}

/// Where the model takes all of the memory there is no context.
pub proof fn law_no_memory_no_context(v: InfoView, ram: nat, model: nat)
    requires
        ram <= model,
    ensures
        budget_of(v, ram, model).half.tokens == 0,
        budget_of(v, ram, model).scaled.tokens == 0,
        budget_of(v, ram, model).three_bits.tokens == 0,
        !budget_of(v, ram, model).half.capped,
        !budget_of(v, ram, model).scaled.capped,
        !budget_of(v, ram, model).three_bits.capped,
{
}

/// An amount of memory is near another one where they differ by less than a twentieth of
/// the first; the nearest whole number of gigabytes differs by at most half a gigabyte.
pub proof fn law_amounts_of_memory_are_near(tier: u64, total: u64)
    requires
        tier > 0,
    ensures
        near(tier, total) <==> 19 * (tier * 1073741824) < 20 * total && 20 * total < 21 * (tier
            * 1073741824),
        nearest_gigabyte(total) * 1073741824 <= total + 536870912,
        nearest_gigabyte(total) * 1073741824 > total - 536870912,
        GIGABYTE == 1024 * 1024 * 1024,
{
}

/// What is put among the usual amounts of memory stands behind those that are no larger and
/// before those that are.
pub proof fn law_amounts_of_memory_go_up(n: int, i: int)
    requires
        0 <= i < base_tiers().len(),
    ensures
        0 <= at_most_count(base_tiers(), n) <= base_tiers().len(),
        i < at_most_count(base_tiers(), n) ==> base_tiers()[i] <= n,
        i >= at_most_count(base_tiers(), n) ==> base_tiers()[i] > n,
        i + 1 < base_tiers().len() ==> base_tiers()[i] < base_tiers()[i + 1],
        base_tiers()[0] == 8,
        base_tiers().last() == 256,
{
    assert(base_tiers().take(8) =~= base_tiers());
    lemma_at_most_count(8, n, i);
}

proof fn lemma_at_most_count(k: int, n: int, i: int)
    requires
        0 <= i < k <= 8,
    ensures
        ({
            let at = at_most_count(base_tiers().take(k), n);
            &&& 0 <= at <= k
            &&& i < at ==> base_tiers()[i] <= n
            &&& i >= at ==> base_tiers()[i] > n
        }),
    decreases k,
{
    let front = base_tiers().take(k);
    assert(front.drop_last() =~= base_tiers().take(k - 1));
    assert(base_tiers()[i] <= base_tiers()[k - 1]);
    if front.last() > n {
        if k > 1 {
            lemma_at_most_count(
                k - 1,
                n,
                if i < k - 1 {
                    i
                } else {
                    0
                },
            );
        } else {
            assert(at_most_count(base_tiers().take(0), n) == 0);
        }
    }
}

} // verus!
