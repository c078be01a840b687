//! What an inspection of a file reports.

use vstd::prelude::*;
use vstd::string::*;
use vstd::utf8::*;

use crate::model::info::{longest_context, InfoView, ModelInfo};
use crate::model::kv_dtype::KvDtype;
use crate::text::string_from_utf8;
use crate::types::{product_fits, GgmlType, GgufFile, TensorView};

verus! {

// ── Quantization mix ────────────────────────────────────────────────────────

/// How many tensors have a type.
pub open spec fn count_of(tensors: Seq<TensorView>, t: GgmlType) -> nat
    decreases tensors.len(),
{
    if tensors.len() == 0 {
        0
    } else {
        count_of(tensors.drop_last(), t) + if tensors.last().ggml_type == t {
            1nat
        } else {
            0nat
        }
    }
}

/// Whether entries count each type that occurs, and each once.
pub open spec fn counts_types(entries: Seq<(GgmlType, usize)>, tensors: Seq<TensorView>) -> bool {
    &&& forall|i: int|
        0 <= i < entries.len() ==> (#[trigger] entries[i]).1 == count_of(tensors, entries[i].0)
            && entries[i].1 > 0
    &&& forall|i: int, j: int|
        0 <= i < j < entries.len() ==> (#[trigger] entries[i]).0 != (#[trigger] entries[j]).0
    &&& forall|k: int|
        0 <= k < tensors.len() ==> has_entry(entries, (#[trigger] tensors[k]).ggml_type)
}

/// Whether there is an entry for a type.
pub open spec fn has_entry(entries: Seq<(GgmlType, usize)>, t: GgmlType) -> bool {
    exists|i: int| 0 <= i < entries.len() && (#[trigger] entries[i]).0 == t
}

/// Whether the more frequent types come first.
pub open spec fn most_frequent_first(entries: Seq<(GgmlType, usize)>) -> bool {
    forall|i: int, j: int|
        0 <= i <= j < entries.len() ==> (#[trigger] entries[i]).1 >= (#[trigger] entries[j]).1
}

/// Counts one more tensor.
fn count_type(entries: &mut Vec<(GgmlType, usize)>, t: GgmlType, Ghost(seen): Ghost<Seq<TensorView>>, Ghost(
    next,
): Ghost<TensorView>)
    requires
        counts_types(old(entries)@, seen),
        next.ggml_type == t,
        seen.len() < usize::MAX,
    ensures
        counts_types(final(entries)@, seen.push(next)),
{
    let ghost before = entries@;
    let ghost all = seen.push(next);
    proof {
        assert(all.drop_last() =~= seen);
        assert forall|u: GgmlType| #[trigger] count_of(all, u) == count_of(seen, u) + if u == t {
            1nat
        } else {
            0nat
        } by {}
        lemma_count_bound(seen, t);
    }
    let n: usize = entries.len();
    let mut i: usize = 0;
    while i < n
        invariant
            i <= n,
            n == entries@.len(),
            entries@ == before,
            counts_types(before, seen),
            forall|j: int| 0 <= j < i ==> (#[trigger] before[j]).0 != t,
            all == seen.push(next),
            next.ggml_type == t,
            seen.len() < usize::MAX,
            forall|u: GgmlType| #[trigger]
                count_of(all, u) == count_of(seen, u) + if u == t {
                    1nat
                } else {
                    0nat
                },
        decreases n - i,
    {
        let entry = entries[i];
        if entry.0 == t {
            proof {
                assert(before[i as int].1 == count_of(seen, t));
                lemma_count_bound(seen, t);
            }
            entries.set(i, (entry.0, entry.1 + 1));
            proof {
                let after = entries@;
                assert forall|k: int| 0 <= k < all.len() implies has_entry(
                    after,
                    (#[trigger] all[k]).ggml_type,
                ) by {
                    if k < seen.len() {
                        assert(seen[k] == all[k]);
                        assert(has_entry(before, seen[k].ggml_type));
                        let w = choose|w: int|
                            0 <= w < before.len() && (#[trigger] before[w]).0 == seen[k].ggml_type;
                        assert(after[w].0 == before[w].0);
                    } else {
                        assert(after[i as int].0 == t);
                    }
                }
                assert forall|k: int| 0 <= k < after.len() implies (#[trigger] after[k]).1
                    == count_of(all, after[k].0) && after[k].1 > 0 by {
                    assert(before[k].1 == count_of(seen, before[k].0));
                    if k != i {
                        assert(before[k].0 != t);
                    }
                }
                assert forall|k: int, m: int| 0 <= k < m < after.len() implies (
                #[trigger] after[k]).0 != (#[trigger] after[m]).0 by {
                    assert(before[k].0 != before[m].0);
                }
            }
            return;
        }
        i += 1;
    }
    entries.push((t, 1));
    proof {
        let after = entries@;
        if count_of(seen, t) > 0 {
            lemma_counted_occurs(seen, t);
            let k = choose|k: int| 0 <= k < seen.len() && (#[trigger] seen[k]).ggml_type == t;
            assert(has_entry(before, seen[k].ggml_type));
        }
        assert forall|k: int| 0 <= k < all.len() implies has_entry(
            after,
            (#[trigger] all[k]).ggml_type,
        ) by {
            if k < seen.len() {
                assert(seen[k] == all[k]);
                assert(has_entry(before, seen[k].ggml_type));
                let w = choose|w: int|
                    0 <= w < before.len() && (#[trigger] before[w]).0 == seen[k].ggml_type;
                assert(after[w].0 == before[w].0);
            } else {
                assert(after[n as int].0 == t);
            }
        }
        assert forall|k: int| 0 <= k < after.len() implies (#[trigger] after[k]).1 == count_of(
            all,
            after[k].0,
        ) && after[k].1 > 0 by {
            if k < n {
                assert(after[k] == before[k]);
                assert(before[k].0 != t);
            }
        }
        assert forall|k: int, m: int| 0 <= k < m < after.len() implies (#[trigger] after[k]).0 != (
        #[trigger] after[m]).0 by {
            assert(after[k] == before[k]);
            if m < n {
                assert(after[m] == before[m]);
            }
        }
    }
}

proof fn lemma_count_bound(tensors: Seq<TensorView>, t: GgmlType)
    ensures
        count_of(tensors, t) <= tensors.len(),
    decreases tensors.len(),
{
    if tensors.len() > 0 {
        lemma_count_bound(tensors.drop_last(), t);
    }
}

proof fn lemma_counted_occurs(tensors: Seq<TensorView>, t: GgmlType)
    requires
        count_of(tensors, t) > 0,
    ensures
        exists|k: int| 0 <= k < tensors.len() && (#[trigger] tensors[k]).ggml_type == t,
    decreases tensors.len(),
{
    if tensors.last().ggml_type == t {
        assert(tensors[tensors.len() - 1].ggml_type == t);
    } else {
        lemma_counted_occurs(tensors.drop_last(), t);
        let k = choose|k: int|
            0 <= k < tensors.len() - 1 && (#[trigger] tensors.drop_last()[k]).ggml_type == t;
        assert(tensors[k].ggml_type == t);
    }
}

/// Puts the last of `entries` in its place among those before it, which are in
/// order.
fn sink_last(entries: &mut Vec<(GgmlType, usize)>, k: usize, Ghost(tensors): Ghost<Seq<TensorView>>)
    requires
        k < old(entries)@.len(),
        counts_types(old(entries)@, tensors),
        most_frequent_first(old(entries)@.take(k as int)),
    ensures
        final(entries)@.len() == old(entries)@.len(),
        counts_types(final(entries)@, tensors),
        most_frequent_first(final(entries)@.take(k + 1)),
{
    let mut i: usize = k;
    proof {
        let s = entries@;
        assert forall|a: int, b: int| 0 <= a <= b < k implies (#[trigger] s[a]).1 >= (
        #[trigger] s[b]).1 by {
            assert(s.take(k as int)[a] == s[a]);
            assert(s.take(k as int)[b] == s[b]);
        }
    }
    while i > 0 && entries[i - 1].1 < entries[i].1
        invariant
            i <= k,
            k < entries@.len(),
            entries@.len() == old(entries)@.len(),
            counts_types(entries@, tensors),
            // All but the one at `i` are in order, and it exceeds those after it.
            forall|a: int, b: int|
                0 <= a <= b <= k && a != i && b != i ==> (#[trigger] entries@[a]).1 >= (
                #[trigger] entries@[b]).1,
            forall|b: int| i < b <= k ==> entries@[i as int].1 >= (#[trigger] entries@[b]).1,
        decreases i,
    {
        let ghost before = entries@;
        let upper = entries[i - 1];
        let lower = entries[i];
        entries.set(i - 1, lower);
        entries.set(i, upper);
        proof {
            let after = entries@;
            assert forall|e: int| 0 <= e < after.len() implies (#[trigger] after[e]).1 == count_of(
                tensors,
                after[e].0,
            ) && after[e].1 > 0 by {
                assert(before[i - 1].1 == count_of(tensors, before[i - 1].0));
                assert(before[i as int].1 == count_of(tensors, before[i as int].0));
                assert(before[e].1 == count_of(tensors, before[e].0));
            }
            assert forall|e: int, m: int| 0 <= e < m < after.len() implies (#[trigger] after[e]).0
                != (#[trigger] after[m]).0 by {
                assert(before[i - 1].0 != before[i as int].0);
                assert(e != i && e != i - 1 ==> after[e] == before[e]);
                assert(m != i && m != i - 1 ==> after[m] == before[m]);
                if e != i && e != i - 1 {
                    assert(e < i - 1 ==> before[e].0 != before[i - 1].0 && before[e].0
                        != before[i as int].0);
                    assert(e > i ==> before[i - 1].0 != before[e].0 && before[i as int].0
                        != before[e].0);
                    assert(before[e].0 != before[m].0);
                } else if m != i && m != i - 1 {
                    assert(before[i - 1].0 != before[m].0);
                    assert(before[i as int].0 != before[m].0);
                }
            }
            assert forall|t: int| 0 <= t < tensors.len() implies has_entry(
                after,
                (#[trigger] tensors[t]).ggml_type,
            ) by {
                assert(has_entry(before, tensors[t].ggml_type));
                let w = choose|w: int|
                    0 <= w < before.len() && (#[trigger] before[w]).0 == tensors[t].ggml_type;
                if w == i {
                    assert(after[i - 1].0 == before[w].0);
                } else if w == i - 1 {
                    assert(after[i as int].0 == before[w].0);
                } else {
                    assert(after[w].0 == before[w].0);
                }
            }
            assert(before[i - 1].1 < before[i as int].1);
            assert forall|a: int, b: int| 0 <= a <= b <= k && a != i - 1 && b != i - 1 implies (
            #[trigger] after[a]).1 >= (#[trigger] after[b]).1 by {
                let pa = if a == i {
                    i - 1
                } else {
                    a
                };
                let pb = if b == i {
                    i - 1
                } else {
                    b
                };
                assert(after[a] == before[pa]);
                assert(after[b] == before[pb]);
                assert(before[pa].1 >= before[pb].1);
            }
            assert forall|b: int| i - 1 < b <= k implies after[i - 1].1 >= (
            #[trigger] after[b]).1 by {
                if b > i {
                    assert(after[b] == before[b]);
                    assert(before[i as int].1 >= before[b].1);
                }
            }
        }
        i -= 1;
    }
    proof {
        let s = entries@;
        let t = s.take(k + 1);
        assert forall|a: int, b: int| 0 <= a <= b < t.len() implies (#[trigger] t[a]).1 >= (
        #[trigger] t[b]).1 by {
            assert(t[a] == s[a]);
            assert(t[b] == s[b]);
            if a < i && b == i {
                assert(s[a].1 >= s[i - 1].1);
            }
        }
    }
}

/// How many tensors there are of each quantization format, the most frequent
/// first. Which of two equally frequent formats comes first is left open.
pub fn quant_distribution(gguf: &GgufFile) -> (entries: Vec<(GgmlType, usize)>)
    ensures
        counts_types(entries@, gguf@.tensors),
        most_frequent_first(entries@),
{
    let ghost all = gguf@.tensors;
    let mut entries: Vec<(GgmlType, usize)> = Vec::new();
    let n: usize = gguf.tensors.len();
    let mut i: usize = 0;
    while i < n
        invariant
            i <= n,
            n == gguf.tensors@.len(),
            all == gguf@.tensors,
            counts_types(entries@, all.take(i as int)),
        decreases n - i,
    {
        let t = gguf.tensors[i].ggml_type;
        proof {
            assert(all.take(i as int).push(gguf.tensors@[i as int]@) =~= all.take(i + 1));
        }
        count_type(
            &mut entries,
            t,
            Ghost(all.take(i as int)),
            Ghost(gguf.tensors@[i as int]@),
        );
        i += 1;
    }
    proof {
        assert(all.take(n as int) =~= all);
        assert(entries@.take(0).len() == 0);
    }
    let m: usize = entries.len();
    let mut k: usize = 0;
    while k < m
        invariant
            k <= m,
            m == entries@.len(),
            all == gguf@.tensors,
            counts_types(entries@, all),
            most_frequent_first(entries@.take(k as int)),
        decreases m - k,
    {
        sink_last(&mut entries, k, Ghost(all));
        k += 1;
    }
    proof {
        assert(entries@.take(m as int) =~= entries@);
    }
    entries
}

// ── Parameters ──────────────────────────────────────────────────────────────

/// The number of parameters: of the elements of all tensors.
pub open spec fn parameters(tensors: Seq<TensorView>) -> nat
    decreases tensors.len(),
{
    if tensors.len() == 0 {
        0
    } else {
        parameters(tensors.drop_last()) + tensors.last().spec_n_elements()
    }
}

/// The number of parameters, or nothing where counting them overflows.
pub fn parameter_count(gguf: &GgufFile) -> (n: Option<u64>)
    ensures
        n is Some <==> parameters(gguf@.tensors) <= u64::MAX && forall|i: int|
            0 <= i < gguf@.tensors.len() ==> product_fits((#[trigger] gguf@.tensors[i]).dims),
        n matches Some(c) ==> c == parameters(gguf@.tensors),
{
    let ghost all = gguf@.tensors;
    let mut sum: u64 = 0;
    let mut i: usize = 0;
    proof {
        assert(all.take(0).len() == 0);
    }
    while i < gguf.tensors.len()
        invariant
            all == gguf@.tensors,
            i <= gguf.tensors@.len(),
            sum == parameters(all.take(i as int)),
            forall|j: int| 0 <= j < i ==> product_fits((#[trigger] all[j]).dims),
        decreases gguf.tensors@.len() - i,
    {
        proof {
            let next = all.take(i as int + 1);
            assert(next.drop_last() =~= all.take(i as int));
            assert(next.last() == gguf.tensors@[i as int]@);
            lemma_parameters_grow(all, i as int + 1);
            assert(all[i as int] == gguf.tensors@[i as int]@);
        }
        match crate::types::checked_product(gguf.tensors[i].dims.as_slice()) {
            Some(c) => {
                match sum.checked_add(c as u64) {
                    Some(next) => {
                        sum = next;
                    },
                    None => {
                        return None;
                    },
                }
            },
            None => {
                return None;
            },
        }
        i += 1;
    }
    proof {
        assert(all.take(all.len() as int) =~= all);
    }
    Some(sum)
}

proof fn lemma_parameters_grow(tensors: Seq<TensorView>, k: int)
    requires
        0 <= k <= tensors.len(),
    ensures
        parameters(tensors.take(k)) <= parameters(tensors),
    decreases tensors.len() - k,
{
    if k == tensors.len() {
        assert(tensors.take(k) =~= tensors);
    } else {
        lemma_parameters_grow(tensors, k + 1);
        assert(tensors.take(k + 1).drop_last() =~= tensors.take(k));
    }
}

// ── Units ───────────────────────────────────────────────────────────────────

/// How a number is shown: divided by `divisor`, with that many decimals, and with
/// a suffix.
#[derive(Debug, Clone, Copy)]
pub struct Scale {
    pub divisor: u64,
    pub decimals: u8,
    pub suffix: &'static str,
}

/// The unit of a number of bytes: the largest of which there is at least one.
pub fn byte_scale(bytes: u64) -> (s: Scale)
    ensures
        if bytes >= 1073741824 {
            s.divisor == 1073741824 && s.decimals == 2 && s.suffix@ == " GB"@
        } else if bytes >= 1048576 {
            s.divisor == 1048576 && s.decimals == 1 && s.suffix@ == " MB"@
        } else if bytes >= 1024 {
            s.divisor == 1024 && s.decimals == 1 && s.suffix@ == " KB"@
        } else {
            s.divisor == 1 && s.decimals == 0 && s.suffix@ == " B"@
        },
{
    if bytes >= 1073741824 {
        Scale { divisor: 1073741824, decimals: 2, suffix: " GB" }
    } else if bytes >= 1048576 {
        Scale { divisor: 1048576, decimals: 1, suffix: " MB" }
    } else if bytes >= 1024 {
        Scale { divisor: 1024, decimals: 1, suffix: " KB" }
    } else {
        Scale { divisor: 1, decimals: 0, suffix: " B" }
    }
}

/// The unit of a count: the largest of which there is at least one.
pub fn count_scale(n: u64) -> (s: Scale)
    ensures
        if n >= 1_000_000_000 {
            s.divisor == 1_000_000_000 && s.decimals == 1 && s.suffix@ == "B"@
        } else if n >= 1_000_000 {
            s.divisor == 1_000_000 && s.decimals == 1 && s.suffix@ == "M"@
        } else if n >= 1_000 {
            s.divisor == 1_000 && s.decimals == 1 && s.suffix@ == "K"@
        } else {
            s.divisor == 1 && s.decimals == 0 && s.suffix@ == ""@
        },
{
    if n >= 1_000_000_000 {
        Scale { divisor: 1_000_000_000, decimals: 1, suffix: "B" }
    } else if n >= 1_000_000 {
        Scale { divisor: 1_000_000, decimals: 1, suffix: "M" }
    } else if n >= 1_000 {
        Scale { divisor: 1_000, decimals: 1, suffix: "K" }
    } else {
        Scale { divisor: 1, decimals: 0, suffix: "" }
    }
}

// ── Long texts ──────────────────────────────────────────────────────────────

/// A name that fits `max` bytes: itself where it does, and else its end after
/// three dots. Nothing where that end would begin within a character, or where
/// `max` has no room for the dots.
pub open spec fn shortened_name(name: Seq<char>, max: nat) -> Option<Seq<char>> {
    let bytes = encode_utf8(name);
    if bytes.len() <= max {
        Some(name)
    } else {
        let end = bytes.skip(bytes.len() - max + 3);
        if max >= 3 && valid_utf8(end) {
            Some("..."@ + decode_utf8(end))
        } else {
            None
        }
    }
}

fn copy_range(bytes: &[u8], from: usize, to: usize) -> (v: Vec<u8>)
    requires
        from <= to <= bytes@.len(),
    ensures
        v@ == bytes@.subrange(from as int, to as int),
{
    let mut v: Vec<u8> = Vec::new();
    let mut i: usize = from;
    while i < to
        invariant
            from <= i <= to <= bytes@.len(),
            v@ == bytes@.subrange(from as int, i as int),
        decreases to - i,
    {
        v.push(bytes[i]);
        proof {
            assert(v@ =~= bytes@.subrange(from as int, i + 1));
        }
        i += 1;
    }
    v
}

/// Shortens a name to `max_len` bytes.
pub fn truncate_name(name: &str, max_len: usize) -> (r: Option<String>)
    ensures
        match r {
            Some(s) => shortened_name(name@, max_len as nat) == Some(s@),
            None => shortened_name(name@, max_len as nat) is None,
        },
{
    let bytes = name.as_bytes();
    let n: usize = bytes.len();
    if n <= max_len {
        return Some(name.to_owned());
    }
    if max_len < 3 {
        return None;
    }
    let start: usize = n - (max_len - 3);
    let end = copy_range(bytes, start, n);
    proof {
        assert(end@ =~= bytes@.skip(start as int));
    }
    match string_from_utf8(end) {
        Some(end) => Some("...".to_owned().concat(end.as_str())),
        None => None,
    }
}

/// A value of at most 120 bytes is shown as it is, and of a longer one the first
/// 117 bytes. Nothing where those end within a character.
pub open spec fn shortened_value(value: Seq<char>) -> Option<Seq<char>> {
    let bytes = encode_utf8(value);
    if bytes.len() <= 120 {
        Some(value)
    } else if valid_utf8(bytes.take(117)) {
        Some(decode_utf8(bytes.take(117)))
    } else {
        None
    }
}

/// Shortens a very long value.
pub fn truncate_value(value: &str) -> (r: Option<String>)
    ensures
        match r {
            Some(s) => shortened_value(value@) == Some(s@),
            None => shortened_value(value@) is None,
        },
{
    let bytes = value.as_bytes();
    if bytes.len() <= 120 {
        return Some(value.to_owned());
    }
    let head = copy_range(bytes, 0, 117);
    proof {
        assert(head@ =~= bytes@.take(117));
    }
    string_from_utf8(head)
}

// ── Memory budget ───────────────────────────────────────────────────────────

/// A context length, and whether it was capped at the longest that the model has.
#[derive(Debug, Clone, Copy, PartialEq, Eq, Structural)]
pub struct Capped {
    pub tokens: u64,
    pub capped: bool,
}

/// A context length, capped at `max`.
pub open spec fn cap(tokens: nat, max: u64) -> Capped {
    if tokens > max {
        Capped { tokens: max, capped: true }
    } else {
        Capped { tokens: tokens as u64, capped: false }
    }
}

/// The longest contexts for an amount of memory: with a cache of half-precision
/// numbers, of scaled bytes, and at a flat three bits.
#[derive(Debug, Clone, Copy, PartialEq, Eq, Structural)]
pub struct BudgetRow {
    pub half: Capped,
    pub scaled: Capped,
    pub three_bits: Capped,
}

/// Whether a file states what a memory budget needs.
pub open spec fn has_budget(v: InfoView) -> bool {
    v.heads_kv() is Some && v.spec_head_dim() is Some && v.block_count is Some
}

/// Whether a memory budget can be computed without overflow.
pub open spec fn budget_computable(v: InfoView) -> bool {
    &&& v.context_computable(0, KvDtype::F16)
    &&& v.context_computable(0, KvDtype::Q8_0)
    &&& v.flat_computable(3)
}

/// The longest context that the model has: no limit where none is stated.
pub open spec fn max_context(v: InfoView) -> u64 {
    match v.context_length {
        Some(n) => n,
        None => u64::MAX,
    }
}

/// The longest context at a cache dtype in `available` bytes.
pub open spec fn fitting(v: InfoView, available: nat, dtype: KvDtype) -> nat {
    match v.token_bytes(dtype) {
        Some(t) => longest_context(available, t),
        None => 0,
    }
}

/// The longest context at a flat number of bits in `available` bytes.
pub open spec fn fitting_flat(v: InfoView, available: nat, bits: nat) -> nat {
    match (v.flat_bytes(bits), v.block_count) {
        (Some(b), Some(layers)) => if b == 0 {
            0
        } else {
            available / (b * layers as nat)
        },
        _ => 0,
    }
}

/// The longest contexts for `ram` bytes of memory, of which the model takes
/// `model`. Where nothing is left there is no context.
pub open spec fn budget_of(v: InfoView, ram: nat, model: nat) -> BudgetRow {
    if ram <= model {
        let none = Capped { tokens: 0, capped: false };
        BudgetRow { half: none, scaled: none, three_bits: none }
    } else {
        let available = (ram - model) as nat;
        let max = max_context(v);
        BudgetRow {
            half: cap(fitting(v, available, KvDtype::F16), max),
            scaled: cap(fitting(v, available, KvDtype::Q8_0), max),
            three_bits: cap(fitting_flat(v, available, 3), max),
        }
    }
}

fn cap_context(tokens: u64, max: u64) -> (c: Capped)
    ensures
        c == cap(tokens as nat, max),
{
    if tokens > max {
        Capped { tokens: max, capped: true }
    } else {
        Capped { tokens, capped: false }
    }
}

/// Whether a file states what a memory budget needs.
pub fn budget_stated(info: &ModelInfo) -> (r: bool)
    requires
        info@.divisible(),
    ensures
        r == has_budget(info@),
{
    info.effective_head_count_kv().is_some() && info.head_dim().is_some()
        && info.block_count.is_some()
}

/// The longest contexts for `ram_bytes` of memory, of which the model takes
/// `model_size`. Nothing where computing them overflows.
pub fn budget_row(info: &ModelInfo, ram_bytes: u64, model_size: u64) -> (r: Option<BudgetRow>)
    ensures
        match r {
            Some(row) => (ram_bytes <= model_size || budget_computable(info@)) && row == budget_of(
                info@,
                ram_bytes as nat,
                model_size as nat,
            ),
            None => ram_bytes > model_size && !budget_computable(info@),
        },
{
    let none = Capped { tokens: 0, capped: false };
    if ram_bytes <= model_size {
        return Some(BudgetRow { half: none, scaled: none, three_bits: none });
    }
    if !info.context_computable(0, KvDtype::F16) || !info.context_computable(0, KvDtype::Q8_0)
        || !info.flat_computable(3) {
        return None;
    }
    let available: u64 = ram_bytes - model_size;
    let max: u64 = info.context_length.unwrap_or(u64::MAX);
    let half: u64 = info.max_context_at_kv_dtype(available, KvDtype::F16).unwrap_or(0);
    let scaled: u64 = info.max_context_at_kv_dtype(available, KvDtype::Q8_0).unwrap_or(0);
    let three_bits: u64 = info.max_context_at_kv_bits(available, 3).unwrap_or(0);
    Some(
        BudgetRow {
            half: cap_context(half, max),
            scaled: cap_context(scaled, max),
            three_bits: cap_context(three_bits, max),
        },
    )
}

/// Bytes of a gigabyte.
pub const GIGABYTE: u64 = 1073741824;

/// The amounts of memory, in gigabytes, that a budget is shown for on any system.
pub open spec fn base_tiers() -> Seq<u64> {
    seq![8, 16, 32, 64, 96, 128, 192, 256]
}

/// Whether an amount of memory in gigabytes is within a twentieth of the memory of
/// a system, given in bytes.
pub open spec fn near(tier: u64, total: u64) -> bool {
    let off = tier * GIGABYTE - total;
    let limit = if tier >= 1 {
        tier as int
    } else {
        1
    };
    20 * (if off < 0 {
        -off
    } else {
        off
    }) < limit * GIGABYTE
}

/// An amount of memory in the nearest whole number of gigabytes.
pub open spec fn nearest_gigabyte(total: u64) -> int {
    (total + 536870912) / 1073741824
}

/// How many of `tiers` are at most `n`.
pub open spec fn at_most_count(tiers: Seq<u64>, n: int) -> int
    decreases tiers.len(),
{
    if tiers.len() == 0 {
        0
    } else if tiers.last() <= n {
        tiers.len() as int
    } else {
        at_most_count(tiers.drop_last(), n)
    }
}

/// Whether an amount of memory in gigabytes is that of the system.
pub fn is_current_tier(tier: u64, total: u64) -> (r: bool)
    ensures
        r == (total > 0 && near(tier, total)),
{
    let at: u128 = tier as u128 * GIGABYTE as u128;
    let off: u128 = if at < total as u128 {
        total as u128 - at
    } else {
        at - total as u128
    };
    let limit: u128 = if tier >= 1 {
        tier as u128
    } else {
        1
    };
    total > 0 && 20 * off < limit * GIGABYTE as u128
}

/// The amounts of memory, in gigabytes, that a budget is shown for: the usual ones,
/// and that of the system where none of them is near it.
pub fn ram_tiers(total: u64) -> (tiers: Vec<u64>)
    ensures
        ({
            let base = base_tiers();
            if total == 0 || exists|i: int| 0 <= i < base.len() && near(#[trigger] base[i], total) {
                tiers@ == base
            } else {
                tiers@ == base.insert(
                    at_most_count(base, nearest_gigabyte(total)),
                    nearest_gigabyte(total) as u64,
                )
            }
        }),
{
    let mut tiers: Vec<u64> = vec![8, 16, 32, 64, 96, 128, 192, 256];
    let ghost base = base_tiers();
    proof {
        assert(tiers@ =~= base);
    }
    if total == 0 {
        return tiers;
    }
    let mut i: usize = 0;
    while i < tiers.len()
        invariant
            i <= tiers@.len(),
            total > 0,
            tiers@ == base,
            base == base_tiers(),
            forall|j: int| 0 <= j < i ==> !near(#[trigger] base[j], total),
        decreases tiers@.len() - i,
    {
        if is_current_tier(tiers[i], total) {
            proof {
                assert(near(base[i as int], total));
            }
            return tiers;
        }
        i += 1;
    }
    let rounded: u64 = ((total as u128 + 536870912) / 1073741824) as u64;
    let mut at: usize = tiers.len();
    proof {
        assert(tiers@.take(at as int) =~= tiers@);
    }
    while at > 0 && tiers[at - 1] > rounded
        invariant
            at <= tiers@.len(),
            tiers@ == base,
            at_most_count(base.take(at as int), rounded as int) == at_most_count(
                base,
                rounded as int,
            ),
        decreases at,
    {
        proof {
            assert(base.take(at as int).drop_last() =~= base.take(at - 1));
        }
        at = at - 1;
    }
    proof {
        if at > 0 {
            assert(base.take(at as int).last() == base[at - 1]);
        }
    }
    tiers.insert(at, rounded);
    tiers
}

/// No context of a memory budget is longer than the model has.
pub proof fn law_budget_is_capped(v: InfoView, ram: nat, model: nat)
    ensures
        budget_of(v, ram, model).half.tokens <= max_context(v),
        budget_of(v, ram, model).scaled.tokens <= max_context(v),
        budget_of(v, ram, model).three_bits.tokens <= max_context(v),
{
}

} // verus!
