//! What a file says of its model, and what the model costs in memory.

use vstd::prelude::*;
use vstd::string::*;

use crate::error::{GgufError, Result};
use crate::model::kv_dtype::KvDtype;
use crate::types::{total_bytes, FileView, FloatBits, GgufFile};

verus! {

/// Typed view over GGUF metadata for a specific model architecture.
///
/// Fields that are optional in the GGUF spec are `Option<_>` here.
/// Used by the inspection CLI — always shows something useful for any GGUF file.
#[derive(Debug)]
pub struct ModelInfo {
    pub architecture: String,
    pub name: Option<String>,
    pub license: Option<String>,
    pub context_length: Option<u64>,
    pub embedding_length: Option<u64>,
    pub block_count: Option<u64>,
    pub head_count: Option<u64>,
    /// Defaults to `head_count` when absent (MHA, no GQA).
    pub head_count_kv: Option<u64>,
    pub feed_forward_length: Option<u64>,
    pub rope_freq_base: Option<FloatBits>,
    pub rope_scaling_type: Option<String>,
    pub rope_scaling_factor: Option<FloatBits>,
    pub layer_norm_rms_epsilon: Option<FloatBits>,
    pub moe: Option<MoeInfo>,
    pub file_type: Option<u32>,
}

/// MoE-specific model parameters.
#[derive(Debug, Clone, Copy, PartialEq, Eq, Structural)]
pub struct MoeInfo {
    pub expert_count: u64,
    pub expert_used_count: u64,
    pub expert_feed_forward_length: u64,
    pub expert_shared_count: Option<u64>,
}

/// The information on a model as mathematics sees it.
#[verifier::ext_equal]
pub struct InfoView {
    pub architecture: Seq<char>,
    pub name: Option<Seq<char>>,
    pub license: Option<Seq<char>>,
    pub context_length: Option<u64>,
    pub embedding_length: Option<u64>,
    pub block_count: Option<u64>,
    pub head_count: Option<u64>,
    pub head_count_kv: Option<u64>,
    pub feed_forward_length: Option<u64>,
    pub rope_freq_base: Option<FloatBits>,
    pub rope_scaling_type: Option<Seq<char>>,
    pub rope_scaling_factor: Option<FloatBits>,
    pub layer_norm_rms_epsilon: Option<FloatBits>,
    pub moe: Option<MoeInfo>,
    pub file_type: Option<u32>,
}

/// The characters of an optional string.
pub open spec fn text_view(s: Option<String>) -> Option<Seq<char>> {
    match s {
        Some(s) => Some(s@),
        None => None,
    }
}

impl View for ModelInfo {
    type V = InfoView;

    open spec fn view(&self) -> InfoView {
        InfoView {
            architecture: self.architecture@,
            name: text_view(self.name),
            license: text_view(self.license),
            context_length: self.context_length,
            embedding_length: self.embedding_length,
            block_count: self.block_count,
            head_count: self.head_count,
            head_count_kv: self.head_count_kv,
            feed_forward_length: self.feed_forward_length,
            rope_freq_base: self.rope_freq_base,
            rope_scaling_type: text_view(self.rope_scaling_type),
            rope_scaling_factor: self.rope_scaling_factor,
            layer_norm_rms_epsilon: self.layer_norm_rms_epsilon,
            moe: self.moe,
            file_type: self.file_type,
        }
    }
}

/// The key of a field of an architecture: `<architecture>.<field>`.
pub open spec fn arch_key(architecture: Seq<char>, field: Seq<char>) -> Seq<char> {
    architecture + "."@ + field
}

/// The key of a field of an architecture: `<architecture>.<field>`.
pub(crate) fn field_key(architecture: &str, field: &str) -> (key: String)
    ensures
        key@ == arch_key(architecture@, field@),
{
    architecture.to_owned().concat(".").concat(field)
}

/// The number of a field of an architecture.
pub(crate) fn field_u64(gguf: &GgufFile, architecture: &str, field: &str) -> (r: Option<u64>)
    ensures
        r == gguf@.number(arch_key(architecture@, field@)),
{
    gguf.get_u64(field_key(architecture, field).as_str())
}

/// The floating-point number of a field of an architecture.
pub(crate) fn field_float(gguf: &GgufFile, architecture: &str, field: &str) -> (r: Option<
    FloatBits,
>)
    ensures
        r == gguf@.float(arch_key(architecture@, field@)),
{
    gguf.get_f32(field_key(architecture, field).as_str())
}

/// The text of a key, owned.
pub(crate) fn owned_text(gguf: &GgufFile, key: &str) -> (r: Option<String>)
    ensures
        text_view(r) == gguf@.text(key@),
{
    match gguf.get_string(key) {
        Some(s) => Some(s.to_owned()),
        None => None,
    }
}

/// The expert parameters that a file states, where it has experts.
pub open spec fn stated_experts(f: FileView, a: Seq<char>) -> Option<MoeInfo> {
    match f.number(arch_key(a, "expert_count"@)) {
        Some(count) => Some(
            MoeInfo {
                expert_count: count,
                expert_used_count: match f.number(arch_key(a, "expert_used_count"@)) {
                    Some(n) => n,
                    None => count,
                },
                expert_feed_forward_length: match f.number(
                    arch_key(a, "expert_feed_forward_length"@),
                ) {
                    Some(n) => n,
                    None => match f.number(arch_key(a, "feed_forward_length"@)) {
                        Some(n) => n,
                        None => 0,
                    },
                },
                expert_shared_count: f.number(arch_key(a, "expert_shared_count"@)),
            },
        ),
        None => None,
    }
}

/// The information that a file states of its model of architecture `a`.
pub open spec fn stated(f: FileView, a: Seq<char>) -> InfoView {
    InfoView {
        architecture: a,
        name: f.text("general.name"@),
        license: f.text("general.license"@),
        context_length: f.number(arch_key(a, "context_length"@)),
        embedding_length: f.number(arch_key(a, "embedding_length"@)),
        block_count: f.number(arch_key(a, "block_count"@)),
        head_count: f.number(arch_key(a, "attention.head_count"@)),
        head_count_kv: f.number(arch_key(a, "attention.head_count_kv"@)),
        feed_forward_length: f.number(arch_key(a, "feed_forward_length"@)),
        rope_freq_base: f.float(arch_key(a, "rope.freq_base"@)),
        rope_scaling_type: f.text(arch_key(a, "rope.scaling.type"@)),
        rope_scaling_factor: f.float(arch_key(a, "rope.scaling.factor"@)),
        layer_norm_rms_epsilon: f.float(arch_key(a, "attention.layer_norm_rms_epsilon"@)),
        moe: stated_experts(f, a),
        file_type: match f.number("general.file_type"@) {
            Some(v) => Some(v as u32),
            None => None,
        },
    }
}

impl InfoView {
    /// The number of K/V heads: that of the heads where it is not stated.
    pub open spec fn heads_kv(self) -> Option<u64> {
        if self.head_count_kv is Some {
            self.head_count_kv
        } else {
            self.head_count
        }
    }

    /// The dimension of a head.
    pub open spec fn spec_head_dim(self) -> Option<nat> {
        match (self.head_count, self.embedding_length) {
            (Some(h), Some(e)) => Some(e as nat / h as nat),
            _ => None,
        }
    }

    /// Whether the dimension of a head can be computed: there are heads to share
    /// the embedding.
    pub open spec fn divisible(self) -> bool {
        self.head_count == Some(0u64) ==> self.embedding_length is None
    }

    /// The number of elements of a token's K (and of its V) in one layer.
    pub open spec fn kv_width(self) -> Option<nat> {
        match (self.heads_kv(), self.spec_head_dim()) {
            (Some(kv), Some(hd)) => Some(kv as nat * hd),
            _ => None,
        }
    }

    /// The bytes of a token's K and V in one layer.
    pub open spec fn layer_token_bytes(self, dtype: KvDtype) -> Option<nat> {
        match self.kv_width() {
            Some(w) => Some(2 * dtype.spec_bytes_per_token(w)),
            None => None,
        }
    }

    /// The bytes of a token's K and V in all layers.
    pub open spec fn token_bytes(self, dtype: KvDtype) -> Option<nat> {
        match (self.layer_token_bytes(dtype), self.block_count) {
            (Some(b), Some(layers)) => Some(b * layers as nat),
            _ => None,
        }
    }

    /// Whether the bytes of a token in one layer can be computed without
    /// overflow.
    pub open spec fn layer_computable(self, dtype: KvDtype) -> bool {
        &&& self.divisible()
        &&& self.kv_width() matches Some(w) ==> w <= usize::MAX && w <= u64::MAX
            && dtype.spec_bytes_per_token(w) <= usize::MAX && 2 * dtype.spec_bytes_per_token(w)
            <= u64::MAX
    }

    /// Whether the bytes of a context can be computed without overflow.
    pub open spec fn context_computable(self, context_len: nat, dtype: KvDtype) -> bool {
        &&& self.layer_computable(dtype)
        &&& self.token_bytes(dtype) matches Some(b) ==> b <= u64::MAX && b * context_len <= u64::MAX
    }

    /// The bytes of a token in one layer, at a flat number of bits per element.
    pub open spec fn flat_bytes(self, bits: nat) -> Option<nat> {
        match self.kv_width() {
            Some(w) => Some(2 * w * bits / 8),
            None => None,
        }
    }

    /// Whether the longest context at a flat number of bits can be computed:
    /// without overflow, and with a layer to store something in.
    pub open spec fn flat_computable(self, bits: nat) -> bool {
        &&& self.divisible()
        &&& match (self.kv_width(), self.block_count) {
            (Some(w), Some(layers)) => {
                &&& 2 * w * bits <= u64::MAX
                &&& 2 * w <= u64::MAX
                &&& 2 * self.heads_kv()->0 <= u64::MAX
                &&& self.flat_bytes(bits)->0 > 0 ==> layers > 0 && self.flat_bytes(bits)->0
                    * layers as nat <= u64::MAX
            },
            _ => true,
        }
    }
}

impl ModelInfo {
    /// Extract typed model info from a parsed GGUF file.
    pub fn from_gguf(gguf: &GgufFile) -> (r: Result<Self>)
        ensures
            match r {
                Ok(info) => gguf@.text("general.architecture"@) matches Some(a) && info@ == stated(
                    gguf@,
                    a,
                ),
                Err(e) => gguf@.text("general.architecture"@) is None && e.is_missing(
                    "general.architecture"@,
                ),
            },
    {
        let architecture = match gguf.get_string("general.architecture") {
            Some(a) => a,
            None => {
                return Err(GgufError::MissingMetadata("general.architecture".to_owned()));
            },
        };
        let a = architecture;
        let feed_forward_length: Option<u64> = field_u64(gguf, a, "feed_forward_length");
        let moe: Option<MoeInfo> = match field_u64(gguf, a, "expert_count") {
            Some(expert_count) => Some(
                MoeInfo {
                    expert_count,
                    expert_used_count: field_u64(gguf, a, "expert_used_count").unwrap_or(
                        expert_count,
                    ),
                    expert_feed_forward_length: field_u64(
                        gguf,
                        a,
                        "expert_feed_forward_length",
                    ).unwrap_or(feed_forward_length.unwrap_or(0)),
                    expert_shared_count: field_u64(gguf, a, "expert_shared_count"),
                },
            ),
            None => None,
        };
        let file_type: Option<u32> = match gguf.get_u64("general.file_type") {
            Some(v) => Some(v as u32),
            None => None,
        };
        let info = ModelInfo {
            architecture: architecture.to_owned(),
            name: owned_text(gguf, "general.name"),
            license: owned_text(gguf, "general.license"),
            context_length: field_u64(gguf, a, "context_length"),
            embedding_length: field_u64(gguf, a, "embedding_length"),
            block_count: field_u64(gguf, a, "block_count"),
            head_count: field_u64(gguf, a, "attention.head_count"),
            head_count_kv: field_u64(gguf, a, "attention.head_count_kv"),
            feed_forward_length,
            rope_freq_base: field_float(gguf, a, "rope.freq_base"),
            rope_scaling_type: owned_text(gguf, field_key(a, "rope.scaling.type").as_str()),
            rope_scaling_factor: field_float(gguf, a, "rope.scaling.factor"),
            layer_norm_rms_epsilon: field_float(gguf, a, "attention.layer_norm_rms_epsilon"),
            moe,
            file_type,
        };
        Ok(info)
    }

    /// Effective head_count_kv: falls back to head_count when absent (MHA).
    pub fn effective_head_count_kv(&self) -> (r: Option<u64>)
        ensures
            r == self@.heads_kv(),
    {
        match self.head_count_kv {
            Some(n) => Some(n),
            None => self.head_count,
        }
    }

    /// Head dimension = embedding_length / head_count
    pub fn head_dim(&self) -> (r: Option<u64>)
        requires
            self@.divisible(),
        ensures
            match r {
                Some(d) => self@.spec_head_dim() == Some(d as nat),
                None => self@.spec_head_dim() is None,
            },
    {
        match self.head_count {
            Some(h) => match self.embedding_length {
                Some(e) => Some(e / h),
                None => None,
            },
            None => None,
        }
    }

    /// Group size for GQA = head_count / head_count_kv
    pub fn gqa_group_size(&self) -> (r: Option<u64>)
        ensures
            match (self@.heads_kv(), self@.head_count) {
                (Some(kv), Some(h)) => r == Some(
                    if kv == 0 {
                        1
                    } else {
                        h / kv
                    },
                ),
                _ => r is None,
            },
    {
        let kv: u64 = match self.effective_head_count_kv() {
            Some(n) => n,
            None => {
                return None;
            },
        };
        let h: u64 = match self.head_count {
            Some(n) => n,
            None => {
                return None;
            },
        };
        if kv == 0 {
            Some(1)
        } else {
            Some(h / kv)
        }
    }

    /// KV cache memory per token per layer in bytes (half-precision storage).
    /// See [`Self::kv_bytes_per_token_per_layer_for`] for other KV dtypes.
    pub fn kv_bytes_per_token_per_layer(&self) -> (r: Option<u64>)
        requires
            self@.layer_computable(KvDtype::F16),
        ensures
            match r {
                Some(b) => self@.layer_token_bytes(KvDtype::F16) == Some(b as nat),
                None => self@.layer_token_bytes(KvDtype::F16) is None,
            },
    {
        self.kv_bytes_per_token_per_layer_for(KvDtype::F16)
    }

    /// KV cache memory per token per layer in bytes, for a given [`KvDtype`]
    /// — accounts for block/scale overhead (e.g. Q8_0's per-32-element scale),
    /// not just a flat bits-per-element estimate.
    pub fn kv_bytes_per_token_per_layer_for(&self, dtype: KvDtype) -> (r: Option<u64>)
        requires
            self@.layer_computable(dtype),
        ensures
            match r {
                Some(b) => self@.layer_token_bytes(dtype) == Some(b as nat),
                None => self@.layer_token_bytes(dtype) is None,
            },
    {
        let kv: u64 = match self.effective_head_count_kv() {
            Some(n) => n,
            None => {
                return None;
            },
        };
        let hd: u64 = match self.head_dim() {
            Some(n) => n,
            None => {
                return None;
            },
        };
        let head_dim_kv: usize = (kv * hd) as usize;
        // K + V, each `dtype.bytes_per_token(head_dim_kv)`.
        Some(2 * dtype.bytes_per_token(head_dim_kv) as u64)
    }

    /// KV cache total bytes for a given context length (half-precision).
    pub fn kv_cache_bytes(&self, context_len: u64) -> (r: Option<u64>)
        requires
            self@.context_computable(context_len as nat, KvDtype::F16),
        ensures
            match r {
                Some(b) => self@.token_bytes(KvDtype::F16) matches Some(t) && b == t * context_len,
                None => self@.token_bytes(KvDtype::F16) is None,
            },
    {
        self.kv_cache_bytes_for(context_len, KvDtype::F16)
    }

    /// KV cache total bytes for a given context length and [`KvDtype`].
    pub fn kv_cache_bytes_for(&self, context_len: u64, dtype: KvDtype) -> (r: Option<u64>)
        requires
            self@.context_computable(context_len as nat, dtype),
        ensures
            match r {
                Some(b) => self@.token_bytes(dtype) matches Some(t) && b == t * context_len,
                None => self@.token_bytes(dtype) is None,
            },
    {
        let per_token: u64 = match self.kv_bytes_per_token_per_layer_for(dtype) {
            Some(n) => n,
            None => {
                return None;
            },
        };
        let layers: u64 = match self.block_count {
            Some(n) => n,
            None => {
                return None;
            },
        };
        Some(per_token * layers * context_len)
    }

    /// Maximum context length that fits in `available_bytes` of KV cache
    /// at the given bits-per-element (flat estimate, ignores block overhead
    /// — see [`Self::max_context_at_kv_dtype`] for an exact, dtype-aware version).
    pub fn max_context_at_kv_bits(&self, available_bytes: u64, bits: u32) -> (r: Option<u64>)
        requires
            self@.flat_computable(bits as nat),
        ensures
            match r {
                Some(n) => self@.flat_bytes(bits as nat) matches Some(b) && self@.block_count matches Some(
                    layers,
                ) && n == (if b == 0 {
                    0nat
                } else {
                    available_bytes as nat / (b * layers as nat)
                }),
                None => self@.flat_bytes(bits as nat) is None || self@.block_count is None,
            },
    {
        let kv: u64 = match self.effective_head_count_kv() {
            Some(n) => n,
            None => {
                return None;
            },
        };
        let hd: u64 = match self.head_dim() {
            Some(n) => n,
            None => {
                return None;
            },
        };
        let layers: u64 = match self.block_count {
            Some(n) => n,
            None => {
                return None;
            },
        };
        proof {
            assert(2 * kv * hd == 2 * (kv as nat * hd as nat)) by (nonlinear_arith);
            assert((2 * kv * hd) * bits as nat == 2 * (kv as nat * hd as nat) * bits as nat);
        }
        let bytes_per_token_per_layer: u64 = 2 * kv * hd * bits as u64 / 8;
        if bytes_per_token_per_layer == 0 {
            return Some(0);
        }
        let total_per_token: u64 = bytes_per_token_per_layer * layers;
        proof {
            assert(total_per_token > 0) by (nonlinear_arith)
                requires
                    total_per_token == bytes_per_token_per_layer * layers,
                    bytes_per_token_per_layer > 0,
                    layers > 0,
            ;
        }
        Some(available_bytes / total_per_token)
    }

    /// Maximum context length that fits in `available_bytes` of KV cache for
    /// a given [`KvDtype`] — exact, accounts for block/scale overhead.
    pub fn max_context_at_kv_dtype(&self, available_bytes: u64, dtype: KvDtype) -> (r: Option<u64>)
        requires
            self@.context_computable(0, dtype),
        ensures
            match r {
                Some(n) => self@.token_bytes(dtype) matches Some(t) && n == longest_context(
                    available_bytes as nat,
                    t,
                ),
                None => self@.token_bytes(dtype) is None,
            },
    {
        let per_token: u64 = match self.kv_bytes_per_token_per_layer_for(dtype) {
            Some(n) => n,
            None => {
                return None;
            },
        };
        let layers: u64 = match self.block_count {
            Some(n) => n,
            None => {
                return None;
            },
        };
        let total_per_token: u64 = per_token * layers;
        if total_per_token == 0 {
            return Some(0);
        }
        Some(available_bytes / total_per_token)
    }

    /// Model size in bytes (sum of all tensor data).
    pub fn model_bytes(&self, gguf: &GgufFile) -> (n: u64)
        requires
            forall|i: int| 0 <= i < gguf@.tensors.len() ==> (#[trigger] gguf@.tensors[i]).sized(),
            total_bytes(gguf@.tensors) <= u64::MAX,
        ensures
            n == total_bytes(gguf@.tensors),
    {
        gguf.total_tensor_bytes()
    }

    /// Whether the bytes of a context of that length can be computed without
    /// overflow.
    pub fn context_computable(&self, context_len: u64, dtype: KvDtype) -> (r: bool)
        ensures
            r == self@.context_computable(context_len as nat, dtype),
    {
        if let Some(h) = self.head_count {
            if h == 0 && self.embedding_length.is_some() {
                return false;
            }
        }
        let kv: u64 = match self.effective_head_count_kv() {
            Some(n) => n,
            None => {
                return true;
            },
        };
        let hd: u64 = match self.head_dim() {
            Some(n) => n,
            None => {
                return true;
            },
        };
        let width: u64 = match kv.checked_mul(hd) {
            Some(w) => w,
            None => {
                return false;
            },
        };
        if width > usize::MAX as u64 {
            return false;
        }
        let bytes: usize = match dtype.checked_bytes_per_token(width as usize) {
            Some(b) => b,
            None => {
                return false;
            },
        };
        let twice: u64 = match (bytes as u64).checked_mul(2) {
            Some(b) => b,
            None => {
                return false;
            },
        };
        match self.block_count {
            None => true,
            Some(layers) => match twice.checked_mul(layers) {
                None => false,
                Some(token) => token.checked_mul(context_len).is_some(),
            },
        }
    }
}

impl ModelInfo {
    /// Whether the longest context at a flat number of bits can be computed.
    pub fn flat_computable(&self, bits: u32) -> (r: bool)
        ensures
            r == self@.flat_computable(bits as nat),
    {
        if let Some(h) = self.head_count {
            if h == 0 && self.embedding_length.is_some() {
                return false;
            }
        }
        let kv: u64 = match self.effective_head_count_kv() {
            Some(n) => n,
            None => {
                return true;
            },
        };
        let hd: u64 = match self.head_dim() {
            Some(n) => n,
            None => {
                return true;
            },
        };
        let layers: u64 = match self.block_count {
            Some(n) => n,
            None => {
                return true;
            },
        };
        proof {
            let w = kv as nat * hd as nat;
            let b = bits as nat;
            assert(2 * kv * hd == 2 * w) by (nonlinear_arith)
                requires
                    w == kv as nat * hd as nat,
            ;
            assert(0 <= 2 * w * b) by (nonlinear_arith)
                requires
                    0 <= w,
                    0 <= b,
            ;
        }
        let twice: u64 = match kv.checked_mul(2) {
            Some(n) => n,
            None => {
                return false;
            },
        };
        let elements: u64 = match twice.checked_mul(hd) {
            Some(n) => n,
            None => {
                return false;
            },
        };
        let total_bits: u64 = match elements.checked_mul(bits as u64) {
            Some(n) => n,
            None => {
                return false;
            },
        };
        let bytes: u64 = total_bits / 8;
        if bytes == 0 {
            return true;
        }
        layers > 0 && bytes.checked_mul(layers).is_some()
    }
}

/// The longest context that fits into `available` bytes when a token takes
/// `token` bytes; no context where a token takes none.
pub open spec fn longest_context(available: nat, token: nat) -> nat {
    if token == 0 {
        0
    } else {
        available / token
    }
}

/// The longest context fits into the memory available, and one token more does
/// not.
pub proof fn law_longest_context(available: nat, token: nat)
    requires
        token > 0,
    ensures
        longest_context(available, token) * token <= available,
        (longest_context(available, token) + 1) * token > available,
{
    let n = available / token;
    vstd::arithmetic::div_mod::lemma_fundamental_div_mod(available as int, token as int);
    assert(n * token == token * n) by (nonlinear_arith);
    assert((n + 1) * token == n * token + token) by (nonlinear_arith);
}

} // verus!
