//! Which implementation runs an architecture.

use vstd::prelude::*;
use vstd::string::*;

use crate::error::{GgufError, Result};
use crate::model::llama::load::{is_model_error, model_defined, model_ok};
use crate::model::llama::LlamaModel;
use crate::ops::AnyBackend;
use crate::text::str_eq;
use crate::types::{FileView, GgufFile};

verus! {

/// Whether an architecture is of the Llama family.
pub open spec fn llama_family(a: Seq<char>) -> bool {
    a == "llama"@ || a == "qwen2"@ || a == "qwen3"@ || a == "qwen35"@ || a == "lfm2"@
}

/// Whether creating the model of a file with `len` bytes of tensor data is
/// defined: a file of an architecture that does not run gives its error at once.
pub open spec fn creation_defined(f: FileView, len: nat) -> bool {
    f.text("general.architecture"@) matches Some(a) && llama_family(a) ==> model_defined(f, len)
}

/// Whether the model of a file can be created.
pub open spec fn creation_ok(f: FileView, len: nat) -> bool {
    f.text("general.architecture"@) matches Some(a) && llama_family(a) && model_ok(f, len)
}

/// Whether `e` is the error of a file whose model cannot be created.
pub open spec fn is_creation_error(f: FileView, len: nat, e: GgufError) -> bool {
    match f.text("general.architecture"@) {
        None => e.is_missing("general.architecture"@),
        Some(a) => if llama_family(a) {
            is_model_error(f, len, e)
        } else {
            e.is_unsupported(a)
        },
    }
}

/// Whether an architecture is of the Llama family.
pub fn is_llama_family(a: &str) -> (r: bool)
    ensures
        r == llama_family(a@),
{
    str_eq(a, "llama") || str_eq(a, "qwen2") || str_eq(a, "qwen3") || str_eq(a, "qwen35")
        || str_eq(a, "lfm2")
}

/// Create the model of a file.
pub fn create_model<'a>(gguf: &'a GgufFile, data: &'a [u8]) -> (r: Result<LlamaModel<'a>>)
    requires
        creation_defined(gguf@, data@.len()),
    ensures
        match r {
            Ok(m) => {
                &&& creation_ok(gguf@, data@.len())
                &&& m.is_model_of(gguf@, data@)
                &&& m.backend == None::<AnyBackend>
            },
            Err(e) => {
                &&& !creation_ok(gguf@, data@.len())
                &&& is_creation_error(gguf@, data@.len(), e)
            },
        },
{
    create_model_with_backend(gguf, data, None)
}

/// Create a model with an optional GPU backend.
pub fn create_model_with_backend<'a>(
    gguf: &'a GgufFile,
    data: &'a [u8],
    backend: Option<AnyBackend>,
) -> (r: Result<LlamaModel<'a>>)
    requires
        creation_defined(gguf@, data@.len()),
    ensures
        match r {
            Ok(m) => {
                &&& creation_ok(gguf@, data@.len())
                &&& m.is_model_of(gguf@, data@)
                &&& m.backend == backend
            },
            Err(e) => {
                &&& !creation_ok(gguf@, data@.len())
                &&& is_creation_error(gguf@, data@.len(), e)
            },
        },
{
    try_create_model(gguf, data, backend).unwrap()
}

/// Create a model, or nothing where that is not defined.
pub fn try_create_model<'a>(
    gguf: &'a GgufFile,
    data: &'a [u8],
    backend: Option<AnyBackend>,
) -> (r: Option<Result<LlamaModel<'a>>>)
    ensures
        match r {
            None => !creation_defined(gguf@, data@.len()),
            Some(Ok(m)) => {
                &&& creation_defined(gguf@, data@.len())
                &&& creation_ok(gguf@, data@.len())
                &&& m.is_model_of(gguf@, data@)
                &&& m.backend == backend
            },
            Some(Err(e)) => {
                &&& creation_defined(gguf@, data@.len())
                &&& !creation_ok(gguf@, data@.len())
                &&& is_creation_error(gguf@, data@.len(), e)
            },
        },
{
    let arch = match gguf.get_string("general.architecture") {
        Some(a) => a,
        None => {
            return Some(Err(GgufError::MissingMetadata("general.architecture".to_owned())));
        },
    };
    if is_llama_family(arch) {
        LlamaModel::try_from_gguf(gguf, data, backend)
    } else {
        Some(Err(GgufError::UnsupportedArchitecture(arch.to_owned())))
    }
}

/// The architectures that run, and no other one does.
pub proof fn law_these_architectures_run(a: Seq<char>)
    ensures
        llama_family("llama"@),
        llama_family("qwen2"@),
        llama_family("qwen3"@),
        llama_family("qwen35"@),
        llama_family("lfm2"@),
        llama_family(a) ==> a == "llama"@ || a == "qwen2"@ || a == "qwen3"@ || a == "qwen35"@ || a
            == "lfm2"@,
{
}

} // verus!
