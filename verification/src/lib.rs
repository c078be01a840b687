//! Reading GGUF language models: the file format, quantized tensors, the
//! tokenizer, and the plan of a forward pass.

pub mod calc;
pub mod clock;
pub mod error;
pub mod format;
pub mod loader;
pub mod model;
pub mod ops;
pub(crate) mod parallel;
pub mod parser;
pub mod prefix;
pub mod probe;
pub mod quant;
pub mod report;
pub mod report_laws;
pub mod runner;
pub mod sampler;
pub mod sampler_laws;
pub mod single;
pub mod stream;
pub mod text;
pub mod tokenizer;
pub mod tokenizer_laws;
pub mod type_laws;
pub mod types;

pub use error::{GgufError, Result};
pub use model::{ModelConfig, ModelInfo, MoeInfo};
pub use parser::parse;
pub use sampler::{Sampler, SamplingConfig};
pub use tokenizer::Tokenizer;
pub use types::{GgmlType, GgufFile, MetadataValue, TensorInfo};
