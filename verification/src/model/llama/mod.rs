//! Llama-family models.
//!
//! Covers: Llama, Mistral, Qwen2, LFM2 — all dense transformer
//! architectures with the same layer structure:
//!
//!   attn_norm → q/k/v → rope → attention → o_proj → residual
//!   ffn_norm  → gate/up → silu_mul → down → residual
//!
//! Split across: `types` (mixer/layer data defs), `load` (reading a model from a
//! file), `state` (the buffers of a forward pass), `program` and `steps` (the
//! forward pass as a sequence of operations), `meaning` (what those operations
//! compute), `kernels`, `attention`, `conv` and `delta` (their loops), `compute`
//! (the loops on single-precision numbers), `forward` and `checks` (the pass on the
//! CPU, and when it is defined), `laws` (what holds of every pass), `formulas` and
//! `device_formulas` (what every operation leaves, on the CPU and on the GPU), `workgroups`
//! (what products on the GPU are for), `defined` (when operations are defined), `parts`
//! (which tensors a model is made of), `decode` (greedy decoding), `gpu` and `resident`
//! (what the GPU holds of a model), `trace_cpu` (time by phase).

pub mod attention;
pub mod checks;
pub mod compute;
pub mod conv;
pub mod decode;
pub mod defined;
pub mod delta;
pub mod device_formulas;
pub mod formulas;
pub mod forward;
pub mod gpu;
pub mod kernels;
pub mod launched;
pub mod laws;
pub mod load;
pub mod meaning;
pub mod parts;
pub mod products;
pub mod program;
pub mod resident;
pub mod state;
pub mod steps;
pub mod trace_cpu;
pub mod types;
pub mod vectors;
pub mod workgroups;

pub use load::LlamaModel;
pub use state::InferenceState;
