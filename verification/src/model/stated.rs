//! What a file states is what its model is told to be and runs with.

use vstd::prelude::*;
use vstd::string::*;

use crate::model::config::{
    config_of, first_named, is_config_error, largest_positive, ConfigView,
};
use crate::error::GgufError;
use crate::model::info::{arch_key, stated, InfoView};
use crate::model::kv_dtype::KvDtype;
use crate::model::llama::load::{conv_width, dims_of, rotated_dims};
use crate::model::llama::types::GdnDims;
use crate::types::{FileView, FloatBits, Meta};

verus! {

/// The unsigned number that the metadata of a file has under a key.
pub open spec fn number_under(f: FileView, key: Seq<char>) -> Option<u64> {
    if !f.metadata.contains_key(key) {
        None
    } else {
        match f.metadata[key] {
            Meta::U8(v) => Some(v as u64),
            Meta::U16(v) => Some(v as u64),
            Meta::U32(v) => Some(v as u64),
            Meta::U64(v) => Some(v),
            _ => None,
        }
    }
}

/// The floating-point number that the metadata of a file has under a key.
pub open spec fn float_under(f: FileView, key: Seq<char>) -> Option<FloatBits> {
    if !f.metadata.contains_key(key) {
        None
    } else {
        match f.metadata[key] {
            Meta::Float32(v) => Some(FloatBits::Single(v)),
            Meta::Float64(v) => Some(FloatBits::Double(v)),
            _ => None,
        }
    }
}

/// The text that the metadata of a file has under a key.
pub open spec fn text_under(f: FileView, key: Seq<char>) -> Option<Seq<char>> {
    if !f.metadata.contains_key(key) {
        None
    } else {
        match f.metadata[key] {
            Meta::Text(s) => Some(s),
            _ => None,
        }
    }
}

/// The key of a field of an architecture: the two with a point between them.
pub open spec fn field_of(architecture: Seq<char>, field: Seq<char>) -> Seq<char> {
    architecture + seq!['.'] + field
}

proof fn lemma_key(a: Seq<char>, field: Seq<char>)
    ensures
        arch_key(a, field) == field_of(a, field),
{
    reveal_strlit(".");
    assert(arch_key(a, field) =~= field_of(a, field));
}

/// Whether `v` is the number of a key, or `default` where the key has none.
pub open spec fn is_number_or(f: FileView, key: Seq<char>, v: u64, default: u64) -> bool {
    match number_under(f, key) {
        Some(n) => v == n,
        None => v == default,
    }
}

/// Whether `v` is the floating-point number of a key, or the single-precision number of
/// the bits `default` where the key has none.
pub open spec fn is_float_or(f: FileView, key: Seq<char>, v: FloatBits, default: u32) -> bool {
    match float_under(f, key) {
        Some(n) => v == n,
        None => v == FloatBits::Single(default),
    }
}

/// A configuration has what the metadata of its file states, each field under its own
/// key, and the defaults only where a key is absent: 4096 positions, 32 layers, no
/// feed-forward width, the base 10000 and the epsilon 1e-5; heads share the embedding
/// where their size is not stated.
pub proof fn law_a_configuration_is_what_is_stated(f: FileView, c: ConfigView)
    requires
        config_of(f) == Some(c),
    ensures
        text_under(f, "general.architecture"@) == Some(c.architecture),
        number_under(f, field_of(c.architecture, "attention.head_count"@)) == Some(c.head_count),
        number_under(f, field_of(c.architecture, "embedding_length"@)) == Some(
            c.embedding_length,
        ),
        is_number_or(f, field_of(c.architecture, "context_length"@), c.context_length, 4096),
        is_number_or(f, field_of(c.architecture, "block_count"@), c.block_count, 32),
        is_number_or(
            f,
            field_of(c.architecture, "feed_forward_length"@),
            c.feed_forward_length,
            0,
        ),
        match number_under(f, field_of(c.architecture, "attention.key_length"@)) {
            Some(d) => c.head_dim == d,
            None => c.head_count > 0 ==> c.head_dim * c.head_count <= c.embedding_length
                < c.head_dim * c.head_count + c.head_count,
        },
        is_float_or(
            f,
            field_of(c.architecture, "rope.freq_base"@),
            c.rope_freq_base,
            0x461C_4000,
        ),
        is_float_or(
            f,
            field_of(c.architecture, "attention.layer_norm_rms_epsilon"@),
            c.layer_norm_rms_epsilon,
            0x3727_C5AC,
        ),
        c.rope_scaling_type == text_under(f, field_of(c.architecture, "rope.scaling.type"@)),
        c.rope_scaling_factor == float_under(f, field_of(c.architecture, "rope.scaling.factor"@)),
{
    let a = c.architecture;
    lemma_key(a, "attention.head_count"@);
    lemma_key(a, "embedding_length"@);
    lemma_key(a, "context_length"@);
    lemma_key(a, "block_count"@);
    lemma_key(a, "feed_forward_length"@);
    lemma_key(a, "attention.key_length"@);
    lemma_key(a, "rope.freq_base"@);
    lemma_key(a, "attention.layer_norm_rms_epsilon"@);
    lemma_key(a, "rope.scaling.type"@);
    lemma_key(a, "rope.scaling.factor"@);
    let (e, h) = (c.embedding_length as int, c.head_count as int);
    if h > 0 {
        vstd::arithmetic::div_mod::lemma_fundamental_div_mod(e, h);
        vstd::arithmetic::div_mod::lemma_mod_bound(e, h);
        assert(h * (e / h) == (e / h) * h) by (nonlinear_arith);
    }
}

proof fn lemma_largest_positive(items: Seq<i64>)
    ensures
        match largest_positive(items) {
            Some(m) => {
                &&& 0 < m <= i64::MAX
                &&& items.contains(m as i64)
                &&& forall|i: int| 0 <= i < items.len() ==> #[trigger] items[i] <= m
            },
            None => forall|i: int| 0 <= i < items.len() ==> #[trigger] items[i] <= 0,
        },
    decreases items.len(),
{
    if items.len() > 0 {
        let front = items.drop_last();
        lemma_largest_positive(front);
        assert forall|i: int| 0 <= i < items.len() - 1 implies items[i] == front[i] by {}
        match largest_positive(front) {
            Some(m) => {
                let k = choose|k: int| 0 <= k < front.len() && front[k] == m as i64;
                assert(items[k] == m as i64);
                assert(items.contains(m as i64));
            },
            None => {},
        }
        assert(items.contains(items.last())) by {
            assert(items[items.len() - 1] == items.last());
        }
        if items.last() > 0 {
            assert((items.last() as u64) as i64 == items.last());
        }
    }
}

/// The K/V heads of a configuration are those that are stated; where they are stated
/// layer by layer, the largest positive number of them; and as many as there are heads
/// where none is stated.
pub proof fn law_kv_heads_are_stated(f: FileView, c: ConfigView)
    requires
        config_of(f) == Some(c),
    ensures
        ({
            let key = field_of(c.architecture, "attention.head_count_kv"@);
            match number_under(f, key) {
                Some(n) => c.head_count_kv == n,
                None => match f.integers(key) {
                    Some(items) => if exists|i: int| 0 <= i < items.len() && #[trigger] items[i]
                        > 0 {
                        &&& exists|i: int|
                            0 <= i < items.len() && #[trigger] items[i] == c.head_count_kv
                        &&& forall|i: int|
                            0 <= i < items.len() ==> #[trigger] items[i] <= c.head_count_kv
                    } else {
                        c.head_count_kv == c.head_count
                    },
                    None => c.head_count_kv == c.head_count,
                },
            }
        }),
{
    let key = field_of(c.architecture, "attention.head_count_kv"@);
    lemma_key(c.architecture, "attention.head_count_kv"@);
    match f.integers(key) {
        Some(items) => {
            lemma_largest_positive(items);
            if number_under(f, key) is None && largest_positive(items) is Some {
                let m = largest_positive(items)->0;
                let k = choose|k: int| 0 <= k < items.len() && items[k] == m as i64;
                assert(items[k] == c.head_count_kv);
            }
        },
        None => {},
    }
}

proof fn lemma_first_named(tensors: Seq<crate::types::TensorView>, name: Seq<char>)
    ensures
        match first_named(tensors, name) {
            Some(t) => exists|k: int|
                {
                    &&& 0 <= k < tensors.len()
                    &&& #[trigger] tensors[k] == t
                    &&& t.name == name
                    &&& forall|j: int| 0 <= j < k ==> (#[trigger] tensors[j]).name != name
                },
            None => forall|j: int| 0 <= j < tensors.len() ==> (#[trigger] tensors[j]).name != name,
        },
    decreases tensors.len(),
{
    if tensors.len() > 0 && tensors[0].name != name {
        let rest = tensors.drop_first();
        lemma_first_named(rest, name);
        assert forall|j: int| 1 <= j < tensors.len() implies tensors[j] == rest[j - 1] by {}
        match first_named(rest, name) {
            Some(t) => {
                let k = choose|k: int|
                    {
                        &&& 0 <= k < rest.len()
                        &&& #[trigger] rest[k] == t
                        &&& t.name == name
                        &&& forall|j: int| 0 <= j < k ==> (#[trigger] rest[j]).name != name
                    };
                assert(tensors[k + 1] == t);
                assert forall|j: int| 0 <= j < k + 1 implies (#[trigger] tensors[j]).name
                    != name by {
                    if j > 0 {
                        assert(rest[j - 1].name != name);
                    }
                }
            },
            None => {
                assert forall|j: int| 0 <= j < tensors.len() implies (#[trigger] tensors[j]).name
                    != name by {
                    if j > 0 {
                        assert(rest[j - 1].name != name);
                    }
                }
            },
        }
    } else if tensors.len() > 0 {
        assert(tensors[0].name == name);
    }
}

/// The vocabulary of a configuration has as many tokens as the first embedding table of
/// the file has rows.
pub proof fn law_the_vocabulary_is_that_of_the_embeddings(f: FileView, c: ConfigView)
    requires
        config_of(f) == Some(c),
    ensures
        exists|k: int|
            {
                &&& 0 <= k < f.tensors.len()
                &&& #[trigger] f.tensors[k].name == "token_embd.weight"@
                &&& forall|j: int|
                    0 <= j < k ==> (#[trigger] f.tensors[j]).name != "token_embd.weight"@
                &&& c.vocab_size == f.tensors[k].dims[if f.tensors[k].n_dims >= 2 {
                    1int
                } else {
                    0int
                }]
            },
{
    lemma_first_named(f.tensors, "token_embd.weight"@);
}

/// A file has a configuration where it states the architecture, the heads and the
/// embedding length and has an embedding table; where it has none, the error names the
/// first of these that is missing.
pub proof fn law_a_configuration_needs_its_keys(f: FileView, e: GgufError)
    ensures
        config_of(f) is Some <==> match text_under(f, "general.architecture"@) {
            Some(a) => {
                &&& number_under(f, field_of(a, "attention.head_count"@)) is Some
                &&& number_under(f, field_of(a, "embedding_length"@)) is Some
                &&& exists|k: int|
                    0 <= k < f.tensors.len() && (#[trigger] f.tensors[k]).name
                        == "token_embd.weight"@
            },
            None => false,
        },
        config_of(f) is None && is_config_error(f, e) ==> match text_under(
            f,
            "general.architecture"@,
        ) {
            None => e.is_missing("general.architecture"@),
            Some(a) => if number_under(f, field_of(a, "attention.head_count"@)) is None {
                e.is_missing(field_of(a, "attention.head_count"@))
            } else if number_under(f, field_of(a, "embedding_length"@)) is None {
                e.is_missing(field_of(a, "embedding_length"@))
            } else {
                e.is_missing("token_embd.weight tensor"@)
            },
        },
{
    lemma_first_named(f.tensors, "token_embd.weight"@);
    if let Some(a) = text_under(f, "general.architecture"@) {
        lemma_key(a, "attention.head_count"@);
        lemma_key(a, "embedding_length"@);
    }
}

/// What the information on a model says is what its file states, each field under its own
/// key.
pub proof fn law_information_is_what_is_stated(f: FileView, a: Seq<char>)
    ensures
        ({
            let i = stated(f, a);
            &&& i.architecture == a
            &&& i.name == text_under(f, "general.name"@)
            &&& i.license == text_under(f, "general.license"@)
            &&& i.context_length == number_under(f, field_of(a, "context_length"@))
            &&& i.embedding_length == number_under(f, field_of(a, "embedding_length"@))
            &&& i.block_count == number_under(f, field_of(a, "block_count"@))
            &&& i.head_count == number_under(f, field_of(a, "attention.head_count"@))
            &&& i.head_count_kv == number_under(f, field_of(a, "attention.head_count_kv"@))
            &&& i.feed_forward_length == number_under(f, field_of(a, "feed_forward_length"@))
            &&& i.rope_freq_base == float_under(f, field_of(a, "rope.freq_base"@))
            &&& i.rope_scaling_type == text_under(f, field_of(a, "rope.scaling.type"@))
            &&& i.rope_scaling_factor == float_under(f, field_of(a, "rope.scaling.factor"@))
            &&& i.layer_norm_rms_epsilon == float_under(
                f,
                field_of(a, "attention.layer_norm_rms_epsilon"@),
            )
            &&& match number_under(f, "general.file_type"@) {
                Some(v) => i.file_type == Some(v as u32),
                None => i.file_type is None,
            }
        }),
{
    lemma_key(a, "context_length"@);
    lemma_key(a, "embedding_length"@);
    lemma_key(a, "block_count"@);
    lemma_key(a, "attention.head_count"@);
    lemma_key(a, "attention.head_count_kv"@);
    lemma_key(a, "feed_forward_length"@);
    lemma_key(a, "rope.freq_base"@);
    lemma_key(a, "rope.scaling.type"@);
    lemma_key(a, "rope.scaling.factor"@);
    lemma_key(a, "attention.layer_norm_rms_epsilon"@);
}

/// A model has experts where a file states how many; all of them are used, and they have
/// the width of the feed-forward block, where the file does not state otherwise.
pub proof fn law_experts_are_stated(f: FileView, a: Seq<char>)
    ensures
        match number_under(f, field_of(a, "expert_count"@)) {
            None => stated(f, a).moe is None,
            Some(n) => {
                &&& stated(f, a).moe matches Some(moe)
                &&& moe.expert_count == n
                &&& is_number_or(f, field_of(a, "expert_used_count"@), moe.expert_used_count, n)
                &&& match number_under(f, field_of(a, "expert_feed_forward_length"@)) {
                    Some(w) => moe.expert_feed_forward_length == w,
                    None => is_number_or(
                        f,
                        field_of(a, "feed_forward_length"@),
                        moe.expert_feed_forward_length,
                        0,
                    ),
                }
                &&& moe.expert_shared_count == number_under(f, field_of(a, "expert_shared_count"@))
            },
        },
{
    lemma_key(a, "expert_count"@);
    lemma_key(a, "expert_used_count"@);
    lemma_key(a, "expert_feed_forward_length"@);
    lemma_key(a, "feed_forward_length"@);
    lemma_key(a, "expert_shared_count"@);
}

/// The dimensions of linear-attention layers are those that a file states: the size of
/// the state is that of a key, the groups are the Q/K heads, the rank of the time step is
/// the number of value heads, which share the inner size, and the kernel is that of the
/// convolution.
pub proof fn law_linear_attention_is_stated(f: FileView, a: Seq<char>, d: GdnDims)
    requires
        crate::model::llama::load::dims_defined(f, a),
        dims_of(f, a) == Some(d),
    ensures
        number_under(f, field_of(a, "ssm.state_size"@)) == Some(d.head_k_dim as u64),
        number_under(f, field_of(a, "ssm.group_count"@)) == Some(d.n_k_heads as u64),
        number_under(f, field_of(a, "ssm.time_step_rank"@)) == Some(d.n_v_heads as u64),
        number_under(f, field_of(a, "ssm.conv_kernel"@)) == Some(d.d_conv as u64),
        number_under(f, field_of(a, "ssm.inner_size"@)) matches Some(inner) && d.head_v_dim
            * d.n_v_heads <= inner < d.head_v_dim * d.n_v_heads + d.n_v_heads,
        d.key_dim == d.head_k_dim * d.n_k_heads,
        d.value_dim == d.head_v_dim * d.n_v_heads,
        d.conv_dim == d.key_dim + d.key_dim + d.value_dim,
{
    lemma_key(a, "ssm.state_size"@);
    lemma_key(a, "ssm.group_count"@);
    lemma_key(a, "ssm.time_step_rank"@);
    lemma_key(a, "ssm.conv_kernel"@);
    lemma_key(a, "ssm.inner_size"@);
    let state = number_under(f, field_of(a, "ssm.state_size"@))->0 as int;
    let groups = number_under(f, field_of(a, "ssm.group_count"@))->0 as int;
    let inner = number_under(f, field_of(a, "ssm.inner_size"@))->0 as int;
    let n = number_under(f, field_of(a, "ssm.time_step_rank"@))->0 as int;
    vstd::arithmetic::div_mod::lemma_fundamental_div_mod(inner, n);
    vstd::arithmetic::div_mod::lemma_mod_bound(inner, n);
    vstd::arithmetic::div_mod::lemma_div_pos_is_pos(inner, n);
    assert(n * (inner / n) == (inner / n) * n) by (nonlinear_arith);
    assert(inner / n <= inner) by (nonlinear_arith)
        requires
            n * (inner / n) <= inner,
            n >= 1,
            inner / n >= 0,
    ;
    assert(0 <= state * groups) by (nonlinear_arith)
        requires
            0 <= state,
            0 <= groups,
    ;
    assert(0 <= (inner / n) * n);
    assert(d.head_v_dim == inner / n);
    assert(d.n_v_heads == n);
}

/// The kernel of the short convolutions and the number of rotated dimensions of a head
/// are those that a file states; without, there is no such kernel, and heads are rotated
/// as a whole.
pub proof fn law_kernel_and_rotation_are_stated(f: FileView, c: ConfigView)
    ensures
        is_number_or(
            f,
            field_of(c.architecture, "shortconv.l_cache"@),
            conv_width(f, c.architecture),
            0,
        ),
        is_number_or(
            f,
            field_of(c.architecture, "rope.dimension_count"@),
            rotated_dims(f, c),
            c.head_dim,
        ),
{
    lemma_key(c.architecture, "shortconv.l_cache"@);
    lemma_key(c.architecture, "rope.dimension_count"@);
}

/// A token takes two vectors in every layer, a key and a value, of as many numbers as the
/// K/V heads have together; two bytes for each number in half precision, and 34 bytes for
/// every 32 numbers that are begun in the quantized cache.
pub proof fn law_bytes_of_a_token(
    i: InfoView,
    heads: u64,
    embedding: u64,
    layers: u64,
    blocks: nat,
)
    requires
        i.head_count == Some(heads),
        i.embedding_length == Some(embedding),
        i.block_count == Some(layers),
        heads > 0,
        ({
            let kv = match i.head_count_kv {
                Some(n) => n,
                None => heads,
            };
            let width = kv as nat * (embedding as nat / heads as nat);
            32 * blocks >= width && 32 * blocks < width + 32
        }),
    ensures
        ({
            let kv = match i.head_count_kv {
                Some(n) => n,
                None => heads,
            };
            let width = kv as nat * (embedding as nat / heads as nat);
            &&& i.token_bytes(KvDtype::F16) == Some(2 * (2 * width) * layers as nat)
            &&& i.token_bytes(KvDtype::Q8_0) == Some(2 * (34 * blocks) * layers as nat)
            &&& forall|bits: nat|
                #![trigger i.flat_bytes(bits)]
                i.flat_bytes(bits) == Some((2 * width * bits / 8) as nat)
        }),
{
    let kv = match i.head_count_kv {
        Some(n) => n,
        None => heads,
    };
    let width = kv as nat * (embedding as nat / heads as nat);
    assert((width + 31) / 32 == blocks);
}

} // verus!
