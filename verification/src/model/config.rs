//! The configuration that a model runs with.

use vstd::prelude::*;
use vstd::string::*;

use crate::error::{GgufError, Result};
use crate::model::info::{arch_key, field_float, field_key, field_u64, owned_text, text_view};
use crate::text::str_eq;
use crate::types::{FileView, FloatBits, GgufFile, TensorView};

verus! {

/// Configuration extracted from GGUF metadata. Architecture-agnostic.
#[derive(Debug)]
pub struct ModelConfig {
    pub architecture: String,
    pub context_length: u64,
    pub embedding_length: u64,
    pub block_count: u64,
    pub head_count: u64,
    pub head_count_kv: u64,
    pub head_dim: u64,
    pub feed_forward_length: u64,
    pub rope_freq_base: FloatBits,
    pub rope_scaling_type: Option<String>,
    pub rope_scaling_factor: Option<FloatBits>,
    pub layer_norm_rms_epsilon: FloatBits,
    pub vocab_size: u64,
}

/// A configuration as mathematics sees it.
#[verifier::ext_equal]
pub struct ConfigView {
    pub architecture: Seq<char>,
    pub context_length: u64,
    pub embedding_length: u64,
    pub block_count: u64,
    pub head_count: u64,
    pub head_count_kv: u64,
    pub head_dim: u64,
    pub feed_forward_length: u64,
    pub rope_freq_base: FloatBits,
    pub rope_scaling_type: Option<Seq<char>>,
    pub rope_scaling_factor: Option<FloatBits>,
    pub layer_norm_rms_epsilon: FloatBits,
    pub vocab_size: u64,
}

impl View for ModelConfig {
    type V = ConfigView;

    open spec fn view(&self) -> ConfigView {
        ConfigView {
            architecture: self.architecture@,
            context_length: self.context_length,
            embedding_length: self.embedding_length,
            block_count: self.block_count,
            head_count: self.head_count,
            head_count_kv: self.head_count_kv,
            head_dim: self.head_dim,
            feed_forward_length: self.feed_forward_length,
            rope_freq_base: self.rope_freq_base,
            rope_scaling_type: text_view(self.rope_scaling_type),
            rope_scaling_factor: self.rope_scaling_factor,
            layer_norm_rms_epsilon: self.layer_norm_rms_epsilon,
            vocab_size: self.vocab_size,
        }
    }
}

/// The bits of 10000.0, the base frequency of rotary embeddings where a file
/// states none.
pub const DEFAULT_FREQ_BASE: u32 = 0x461C_4000;

/// The bits of 1e-5, the epsilon of the RMS norm where a file states none.
pub const DEFAULT_EPSILON: u32 = 0x3727_C5AC;

/// The largest positive number of a sequence.
pub open spec fn largest_positive(items: Seq<i64>) -> Option<u64>
    decreases items.len(),
{
    if items.len() == 0 {
        None
    } else {
        match largest_positive(items.drop_last()) {
            Some(m) => if items.last() > m {
                Some(items.last() as u64)
            } else {
                Some(m)
            },
            None => if items.last() > 0 {
                Some(items.last() as u64)
            } else {
                None
            },
        }
    }
}

/// The first tensor of a name.
pub open spec fn first_named(tensors: Seq<TensorView>, name: Seq<char>) -> Option<TensorView>
    decreases tensors.len(),
{
    if tensors.len() == 0 {
        None
    } else if tensors[0].name == name {
        Some(tensors[0])
    } else {
        first_named(tensors.drop_first(), name)
    }
}

/// The number of tokens that an embedding table has rows for: its outer
/// dimension.
pub open spec fn embedding_rows(t: TensorView) -> u64 {
    if t.n_dims >= 2 {
        t.dims[1]
    } else {
        t.dims[0]
    }
}

/// The number of K/V heads that a file states: one number, or the largest of
/// those that it states layer by layer.
pub open spec fn stated_heads_kv(f: FileView, a: Seq<char>) -> Option<u64> {
    let key = arch_key(a, "attention.head_count_kv"@);
    match f.number(key) {
        Some(n) => Some(n),
        None => match f.integers(key) {
            Some(items) => largest_positive(items),
            None => None,
        },
    }
}

/// A number, or a default where there is none.
pub open spec fn or_default(v: Option<u64>, default: u64) -> u64 {
    match v {
        Some(n) => n,
        None => default,
    }
}

/// A floating-point number, or a default where there is none.
pub open spec fn float_or(v: Option<FloatBits>, default: u32) -> FloatBits {
    match v {
        Some(n) => n,
        None => FloatBits::Single(default),
    }
}

/// The configuration that a file states for architecture `a`, given what it has
/// to state.
pub open spec fn configured(
    f: FileView,
    a: Seq<char>,
    heads: u64,
    embedding: u64,
    table: TensorView,
) -> ConfigView {
    ConfigView {
        architecture: a,
        context_length: or_default(f.number(arch_key(a, "context_length"@)), 4096),
        embedding_length: embedding,
        block_count: or_default(f.number(arch_key(a, "block_count"@)), 32),
        head_count: heads,
        head_count_kv: or_default(stated_heads_kv(f, a), heads),
        head_dim: match f.number(arch_key(a, "attention.key_length"@)) {
            Some(d) => d,
            None => embedding / heads,
        },
        feed_forward_length: or_default(f.number(arch_key(a, "feed_forward_length"@)), 0),
        rope_freq_base: float_or(f.float(arch_key(a, "rope.freq_base"@)), DEFAULT_FREQ_BASE),
        rope_scaling_type: f.text(arch_key(a, "rope.scaling.type"@)),
        rope_scaling_factor: f.float(arch_key(a, "rope.scaling.factor"@)),
        layer_norm_rms_epsilon: float_or(
            f.float(arch_key(a, "attention.layer_norm_rms_epsilon"@)),
            DEFAULT_EPSILON,
        ),
        vocab_size: embedding_rows(table),
    }
}

/// Whether the configuration of a file can be computed: where it states no head
/// dimension there are heads to share the embedding, and the embedding table has
/// the dimensions that it counts.
pub open spec fn config_computable(f: FileView) -> bool {
    f.text("general.architecture"@) matches Some(a) ==> {
        &&& f.number(arch_key(a, "attention.head_count"@)) == Some(0u64) && f.number(
            arch_key(a, "embedding_length"@),
        ) is Some ==> f.number(arch_key(a, "attention.key_length"@)) is Some
        &&& first_named(f.tensors, "token_embd.weight"@) matches Some(t) ==> t.dims.len() >= (
        if t.n_dims >= 2 {
            2nat
        } else {
            1nat
        })
    }
}

/// The configuration that a file states, where it states what it has to: the
/// architecture, the number of heads, the embedding length and the embedding
/// table.
pub open spec fn config_of(f: FileView) -> Option<ConfigView> {
    match f.text("general.architecture"@) {
        None => None,
        Some(a) => {
            let heads = f.number(arch_key(a, "attention.head_count"@));
            let embedding = f.number(arch_key(a, "embedding_length"@));
            let table = first_named(f.tensors, "token_embd.weight"@);
            if heads is Some && embedding is Some && table is Some {
                Some(configured(f, a, heads->0, embedding->0, table->0))
            } else {
                None
            }
        },
    }
}

/// Whether `e` is the error for what a file does not state: the first that is
/// missing of the architecture, the number of heads, the embedding length and
/// the embedding table.
pub open spec fn is_config_error(f: FileView, e: GgufError) -> bool {
    match f.text("general.architecture"@) {
        None => e.is_missing("general.architecture"@),
        Some(a) => {
            let heads_key = arch_key(a, "attention.head_count"@);
            let embedding_key = arch_key(a, "embedding_length"@);
            if f.number(heads_key) is None {
                e.is_missing(heads_key)
            } else if f.number(embedding_key) is None {
                e.is_missing(embedding_key)
            } else {
                e.is_missing("token_embd.weight tensor"@)
            }
        },
    }
}

/// Finds the first tensor of a name.
fn find_tensor(gguf: &GgufFile, name: &str) -> (r: Option<usize>)
    ensures
        match r {
            Some(i) => i < gguf.tensors@.len() && first_named(gguf@.tensors, name@) == Some(
                gguf.tensors@[i as int]@,
            ),
            None => first_named(gguf@.tensors, name@) is None,
        },
{
    let ghost all = gguf@.tensors;
    let mut i: usize = 0;
    proof {
        assert(all.skip(0) =~= all);
    }
    while i < gguf.tensors.len()
        invariant
            i <= gguf.tensors@.len(),
            all == gguf@.tensors,
            first_named(all, name@) == first_named(all.skip(i as int), name@),
        decreases gguf.tensors@.len() - i,
    {
        proof {
            assert(all.skip(i as int)[0] == gguf.tensors@[i as int]@);
            assert(all.skip(i as int).drop_first() =~= all.skip(i as int + 1));
        }
        if str_eq(gguf.tensors[i].name.as_str(), name) {
            return Some(i);
        }
        i += 1;
    }
    None
}

fn max_positive(items: &Vec<i64>) -> (r: Option<u64>)
    ensures
        r == largest_positive(items@),
{
    let mut best: Option<u64> = None;
    let mut i: usize = 0;
    proof {
        assert(items@.take(0).len() == 0);
    }
    while i < items.len()
        invariant
            i <= items@.len(),
            best == largest_positive(items@.take(i as int)),
            best matches Some(m) ==> 0 < m <= i64::MAX,
        decreases items@.len() - i,
    {
        proof {
            assert(items@.take(i as int + 1).drop_last() =~= items@.take(i as int));
        }
        let v: i64 = items[i];
        if v > 0 {
            let u: u64 = v as u64;
            match best {
                Some(m) => {
                    if u > m {
                        best = Some(u);
                    }
                },
                None => {
                    best = Some(u);
                },
            }
        }
        i += 1;
    }
    proof {
        assert(items@.take(items@.len() as int) =~= items@);
    }
    best
}

impl ModelConfig {
    /// The configuration that a file states.
    pub fn from_gguf(gguf: &GgufFile) -> (r: Result<Self>)
        requires
            config_computable(gguf@),
        ensures
            match r {
                Ok(cfg) => config_of(gguf@) == Some(cfg@),
                Err(e) => config_of(gguf@) is None && is_config_error(gguf@, e),
            },
    {
        let a = match gguf.get_string("general.architecture") {
            Some(a) => a,
            None => {
                return Err(GgufError::MissingMetadata("general.architecture".to_owned()));
            },
        };
        let head_count: u64 = match field_u64(gguf, a, "attention.head_count") {
            Some(n) => n,
            None => {
                return Err(GgufError::MissingMetadata(field_key(a, "attention.head_count")));
            },
        };
        let embedding_length: u64 = match field_u64(gguf, a, "embedding_length") {
            Some(n) => n,
            None => {
                return Err(GgufError::MissingMetadata(field_key(a, "embedding_length")));
            },
        };
        // Head dimension is explicit in some architectures (Qwen3 decouples it
        // from embedding_length / head_count). Prefer key_length, then fall back
        // to the classic embedding_length / head_count.
        let head_dim: u64 = match field_u64(gguf, a, "attention.key_length") {
            Some(d) => d,
            None => embedding_length / head_count,
        };
        // head_count_kv may be a scalar (dense models) or a per-layer array
        // (LFM2: 0 for short-conv layers, N for attention layers). When it is an
        // array, the KV cache is sized by the largest attention layer's KV heads.
        let head_count_kv: u64 = match field_u64(gguf, a, "attention.head_count_kv") {
            Some(n) => n,
            None => match gguf.get_i64_array(field_key(a, "attention.head_count_kv").as_str()) {
                Some(items) => match max_positive(&items) {
                    Some(m) => m,
                    None => head_count,
                },
                None => head_count,
            },
        };
        // The vocabulary size is that of the embedding table.
        let vocab_size: u64 = match find_tensor(gguf, "token_embd.weight") {
            Some(i) => {
                let t = &gguf.tensors[i];
                if t.n_dims >= 2 {
                    t.dims[1]
                } else {
                    t.dims[0]
                }
            },
            None => {
                return Err(GgufError::MissingMetadata("token_embd.weight tensor".to_owned()));
            },
        };
        let cfg = ModelConfig {
            architecture: a.to_owned(),
            context_length: field_u64(gguf, a, "context_length").unwrap_or(4096),
            embedding_length,
            block_count: field_u64(gguf, a, "block_count").unwrap_or(32),
            head_count,
            head_count_kv,
            head_dim,
            feed_forward_length: field_u64(gguf, a, "feed_forward_length").unwrap_or(0),
            rope_freq_base: field_float(gguf, a, "rope.freq_base").unwrap_or(
                FloatBits::Single(DEFAULT_FREQ_BASE),
            ),
            rope_scaling_type: owned_text(gguf, field_key(a, "rope.scaling.type").as_str()),
            rope_scaling_factor: field_float(gguf, a, "rope.scaling.factor"),
            layer_norm_rms_epsilon: field_float(
                gguf,
                a,
                "attention.layer_norm_rms_epsilon",
            ).unwrap_or(FloatBits::Single(DEFAULT_EPSILON)),
            vocab_size,
        };
        Ok(cfg)
    }

    /// Whether the configuration of a file can be computed.
    pub fn computable(gguf: &GgufFile) -> (r: bool)
        ensures
            r == config_computable(gguf@),
    {
        let a = match gguf.get_string("general.architecture") {
            Some(a) => a,
            None => {
                return true;
            },
        };
        if let Some(heads) = field_u64(gguf, a, "attention.head_count") {
            if heads == 0 && field_u64(gguf, a, "embedding_length").is_some() && field_u64(
                gguf,
                a,
                "attention.key_length",
            ).is_none() {
                return false;
            }
        }
        match find_tensor(gguf, "token_embd.weight") {
            Some(i) => {
                let t = &gguf.tensors[i];
                if t.n_dims >= 2 {
                    t.dims.len() >= 2
                } else {
                    t.dims.len() >= 1
                }
            },
            None => true,
        }
    }

    /// How many query heads share a K/V head.
    pub fn gqa_group_size(&self) -> (n: u64)
        requires
            self.head_count_kv != 0,
        ensures
            n == self.head_count / self.head_count_kv,
    {
        self.head_count / self.head_count_kv
    }
}

} // verus!
