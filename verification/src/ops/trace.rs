//! Kernel-level tracing: what a timer is for, and what a summary says.

use vstd::prelude::*;
use vstd::string::*;

use crate::text::str_eq;

verus! {

/// How a trace is written.
#[derive(Debug, Clone, Copy, PartialEq, Eq, Structural)]
pub enum TraceFormat {
    Text,
    Json,
}

/// The format that the setting of the trace variable asks for: `json`, and text
/// for everything else.
pub fn format(setting: Option<&str>) -> (f: TraceFormat)
    ensures
        f == if setting matches Some(s) && s@ == "json"@ {
            TraceFormat::Json
        } else {
            TraceFormat::Text
        },
{
    match setting {
        Some(s) => if str_eq(s, "json") {
            TraceFormat::Json
        } else {
            TraceFormat::Text
        },
        None => TraceFormat::Text,
    }
}

/// What a timer of a kernel measures. One without a name is silent.
#[derive(Debug, Clone, Copy)]
pub struct Timer {
    pub name: &'static str,
    /// The bytes that the kernel reads, for its bandwidth.
    pub tensor_bytes: Option<u64>,
}

impl Timer {
    /// A timer, silent where tracing is not enabled.
    pub fn new(enabled: bool, name: &'static str) -> (t: Self)
        ensures
            t.name@ == if enabled {
                name@
            } else {
                ""@
            },
            t.tensor_bytes == None::<u64>,
    {
        if enabled {
            Timer { name, tensor_bytes: None }
        } else {
            Timer { name: "", tensor_bytes: None }
        }
    }

    /// Create a timer with tensor size info for bandwidth calculation.
    /// The size should be in bytes.
    pub fn new_with_size(enabled: bool, name: &'static str, tensor_bytes: u64) -> (t: Self)
        ensures
            t.name@ == if enabled {
                name@
            } else {
                ""@
            },
            t.tensor_bytes == if enabled {
                Some(tensor_bytes)
            } else {
                None
            },
    {
        if enabled {
            Timer { name, tensor_bytes: Some(tensor_bytes) }
        } else {
            Timer { name: "", tensor_bytes: None }
        }
    }

    /// Whether nothing is to be reported.
    pub fn is_silent(&self) -> (r: bool)
        ensures
            r == (self.name@ == ""@),
    {
        str_eq(self.name, "")
    }
}

/// The bytes that all kernels of a trace read.
pub open spec fn traced_bytes(sizes: Seq<Option<u64>>) -> nat
    decreases sizes.len(),
{
    if sizes.len() == 0 {
        0
    } else {
        traced_bytes(sizes.drop_last()) + match sizes.last() {
            Some(n) => n as nat,
            None => 0,
        }
    }
}

/// The bytes that all kernels of a trace read, or nothing where their sum
/// overflows.
pub fn total_traced_bytes(sizes: &[Option<u64>]) -> (r: Option<u64>)
    ensures
        match r {
            Some(n) => n == traced_bytes(sizes@),
            None => traced_bytes(sizes@) > u64::MAX,
        },
{
    let mut sum: u64 = 0;
    let mut i: usize = 0;
    proof {
        assert(sizes@.take(0).len() == 0);
    }
    while i < sizes.len()
        invariant
            i <= sizes@.len(),
            sum == traced_bytes(sizes@.take(i as int)),
        decreases sizes@.len() - i,
    {
        proof {
            assert(sizes@.take(i + 1).drop_last() =~= sizes@.take(i as int));
            lemma_traced_bytes_grow(sizes@, i + 1);
        }
        if let Some(n) = sizes[i] {
            match sum.checked_add(n) {
                Some(next) => {
                    sum = next;
                },
                None => {
                    return None;
                },
            }
        }
        i += 1;
    }
    proof {
        assert(sizes@.take(i as int) =~= sizes@);
    }
    Some(sum)
}

proof fn lemma_traced_bytes_grow(sizes: Seq<Option<u64>>, k: int)
    requires
        0 <= k <= sizes.len(),
    ensures
        traced_bytes(sizes.take(k)) <= traced_bytes(sizes),
    decreases sizes.len() - k,
{
    if k == sizes.len() {
        assert(sizes.take(k) =~= sizes);
    } else {
        lemma_traced_bytes_grow(sizes, k + 1);
        assert(sizes.take(k + 1).drop_last() =~= sizes.take(k));
    }
}

} // verus!
