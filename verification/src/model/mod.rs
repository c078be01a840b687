//! Models: what a file says of one, its weights, and its forward pass.

pub mod config;
pub mod info;
pub mod kv_cache;
pub mod kv_dtype;
pub mod llama;
pub mod matmul;
pub mod rows;
pub mod select;
pub mod stated;
pub mod totals;
pub mod weights;

pub use config::ModelConfig;
pub use info::{ModelInfo, MoeInfo};
pub use kv_cache::KvCache;
pub use kv_dtype::KvDtype;
pub use llama::{InferenceState, LlamaModel};
pub use select::{create_model, create_model_with_backend};
pub use weights::WeightMap;
