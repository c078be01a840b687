//! The errors of the library and their messages.

use vstd::prelude::*;
use vstd::string::*;

use crate::text::{decimal, push_decimal};

verus! {

/// Everything that can go wrong while reading a model file or running it.
#[derive(Debug)]
pub enum GgufError {
    /// The file does not begin with `GGUF`.
    InvalidMagic,
    /// A format version other than 2 and 3.
    UnsupportedVersion(u32),
    /// The input ended; the offset is where the read that failed began.
    UnexpectedEof(usize),
    /// A metadata value type id that the format does not define.
    UnknownMetadataType(u32),
    /// A tensor type id that the format does not define.
    UnknownTensorType(u32),
    /// A string that is no UTF-8; the offset is that of its first byte.
    InvalidString(usize),
    /// A key or a tensor that the model needs is not there.
    MissingMetadata(String),
    /// A key holds a value of another type than the one named.
    WrongMetadataType(String, &'static str),
    /// An architecture, or a tensor type, that the library does not run.
    UnsupportedArchitecture(String),
    /// The parts of a split model do not belong together.
    MultiFileMismatch(String),
    /// Input or output failed, with the system's message.
    Io(String),
    /// A compute backend failed, with its message.
    BackendError(String),
}

/// Result of an operation of the library.
pub type Result<T> = core::result::Result<T, GgufError>;

impl GgufError {
    /// The message of an error.
    pub open spec fn spec_message(&self) -> Seq<char> {
        match self {
            GgufError::InvalidMagic => "invalid GGUF magic bytes"@,
            GgufError::UnsupportedVersion(v) => "unsupported GGUF version: "@ + decimal(*v as nat),
            GgufError::UnexpectedEof(at) => "unexpected end of input at byte "@ + decimal(
                *at as nat,
            ),
            GgufError::UnknownMetadataType(t) => "unknown metadata value type: "@ + decimal(
                *t as nat,
            ),
            GgufError::UnknownTensorType(t) => "unknown tensor GGML type: "@ + decimal(*t as nat),
            GgufError::InvalidString(at) => "invalid string at byte offset "@ + decimal(*at as nat),
            GgufError::MissingMetadata(key) => "missing required metadata key: "@ + key@,
            GgufError::WrongMetadataType(key, expected) => "wrong type for metadata key "@ + key@
                + ": expected "@ + expected@,
            GgufError::UnsupportedArchitecture(arch) => "unsupported architecture: "@ + arch@,
            GgufError::MultiFileMismatch(what) => "multi-file mismatch: "@ + what@,
            GgufError::Io(what) => "I/O error: "@ + what@,
            GgufError::BackendError(what) => "backend error: "@ + what@,
        }
    }

    /// Whether this is the error that the key or tensor named is not there.
    pub open spec fn is_missing(&self, what: Seq<char>) -> bool {
        self matches GgufError::MissingMetadata(key) && key@ == what
    }

    /// Whether this is the backend error with the message given.
    pub open spec fn is_backend(&self, what: Seq<char>) -> bool {
        self matches GgufError::BackendError(message) && message@ == what
    }

    /// Whether this is the error that what is named is not supported.
    pub open spec fn is_unsupported(&self, what: Seq<char>) -> bool {
        self matches GgufError::UnsupportedArchitecture(name) && name@ == what
    }

    /// The message of this error, for people.
    pub fn message(&self) -> (s: String)
        ensures
            s@ == self.spec_message(),
    {
        match self {
            GgufError::InvalidMagic => "invalid GGUF magic bytes".to_owned(),
            GgufError::UnsupportedVersion(v) => numbered("unsupported GGUF version: ", *v as u64),
            GgufError::UnexpectedEof(at) => numbered(
                "unexpected end of input at byte ",
                *at as u64,
            ),
            GgufError::UnknownMetadataType(t) => numbered(
                "unknown metadata value type: ",
                *t as u64,
            ),
            GgufError::UnknownTensorType(t) => numbered("unknown tensor GGML type: ", *t as u64),
            GgufError::InvalidString(at) => numbered(
                "invalid string at byte offset ",
                *at as u64,
            ),
            GgufError::MissingMetadata(key) => labelled(
                "missing required metadata key: ",
                key.as_str(),
            ),
            GgufError::WrongMetadataType(key, expected) => labelled(
                "wrong type for metadata key ",
                key.as_str(),
            ).concat(": expected ").concat(*expected),
            GgufError::UnsupportedArchitecture(arch) => labelled(
                "unsupported architecture: ",
                arch.as_str(),
            ),
            GgufError::MultiFileMismatch(what) => labelled(
                "multi-file mismatch: ",
                what.as_str(),
            ),
            GgufError::Io(what) => labelled("I/O error: ", what.as_str()),
            GgufError::BackendError(what) => labelled("backend error: ", what.as_str()),
        }
    }
}

fn numbered(label: &str, n: u64) -> (s: String)
    ensures
        s@ == label@ + decimal(n as nat),
{
    let mut s = label.to_owned();
    push_decimal(&mut s, n);
    s
}

fn labelled(label: &str, text: &str) -> (s: String)
    ensures
        s@ == label@ + text@,
{
    label.to_owned().concat(text)
}

} // verus!
