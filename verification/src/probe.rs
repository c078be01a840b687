//! Which tensors of a file GPU kernels are timed and checked on.

use vstd::prelude::*;

use crate::text::{continues, find_last, str_eq, to_chars};
use crate::types::{product_fits, GgmlType, TensorInfo, TensorView};

verus! {

/// Whether a word stands somewhere in a name.
pub open spec fn mentions(name: Seq<char>, word: Seq<char>) -> bool {
    exists|p: int| #[trigger] continues(name, p, word)
}

/// Whether a word stands somewhere in a name.
pub fn is_mentioned(name: &str, word: &str) -> (r: bool)
    ensures
        r == mentions(name@, word@),
{
    let name_chars = to_chars(name);
    let word_chars = to_chars(word);
    match find_last(name_chars.as_slice(), word_chars.as_slice()) {
        Some(pos) => {
            assert(continues(name@, pos as int, word@));
            true
        },
        None => false,
    }
}

/// Whether a tensor is a projection of the inner layers: a matrix in one of
/// `formats`, with rows of at most `widest` elements where that is given, and
/// neither an embedding nor an output.
pub open spec fn is_projection(
    t: TensorView,
    formats: Seq<GgmlType>,
    widest: Option<u64>,
) -> bool {
    &&& t.n_dims >= 2
    &&& formats.contains(t.ggml_type)
    &&& widest matches Some(w) ==> t.dims[0] <= w
    &&& !mentions(t.name, "token_embd"@)
    &&& !mentions(t.name, "output"@)
    &&& !mentions(t.name, "embd"@)
}

/// Whether a tensor has the dimensions it says it has, and a number of elements
/// that can be computed.
pub open spec fn countable(t: TensorView) -> bool {
    t.n_dims == t.dims.len() && product_fits(t.dims)
}

fn holds_format(formats: &[GgmlType], t: GgmlType) -> (r: bool)
    ensures
        r == formats@.contains(t),
{
    let n: usize = formats.len();
    let mut i: usize = 0;
    while i < n
        invariant
            i <= n,
            n == formats@.len(),
            forall|k: int| 0 <= k < i ==> formats@[k] != t,
        decreases n - i,
    {
        if formats[i] == t {
            assert(formats@[i as int] == t);
            return true;
        }
        i += 1;
    }
    false
}

fn suits(t: &TensorInfo, formats: &[GgmlType], widest: Option<u64>) -> (r: bool)
    requires
        countable(t@),
    ensures
        r == is_projection(t@, formats@, widest),
{
    if t.n_dims < 2 || !holds_format(formats, t.ggml_type) {
        return false;
    }
    if let Some(w) = widest {
        if t.dims[0] > w {
            return false;
        }
    }
    let name = t.name.as_str();
    !is_mentioned(name, "token_embd") && !is_mentioned(name, "output") && !is_mentioned(
        name,
        "embd",
    )
}

/// Whether tensor `i` is the largest projection among the first `n` tensors, the
/// last of those where several are as large.
pub open spec fn is_largest(
    tensors: Seq<TensorInfo>,
    n: int,
    formats: Seq<GgmlType>,
    widest: Option<u64>,
    i: int,
) -> bool {
    &&& 0 <= i < n
    &&& is_projection(tensors[i]@, formats, widest)
    &&& forall|k: int|
        0 <= k < n && #[trigger] is_projection(tensors[k]@, formats, widest)
            ==> tensors[k]@.spec_n_elements() <= tensors[i]@.spec_n_elements()
    &&& forall|k: int|
        i < k < n && #[trigger] is_projection(tensors[k]@, formats, widest)
            ==> tensors[k]@.spec_n_elements() < tensors[i]@.spec_n_elements()
}

/// The projection with the most elements, the last where several have as many; or
/// nothing where there is none.
pub fn largest_projection(
    tensors: &[TensorInfo],
    formats: &[GgmlType],
    widest: Option<u64>,
) -> (r: Option<usize>)
    requires
        forall|i: int| 0 <= i < tensors@.len() ==> countable(#[trigger] tensors@[i]@),
    ensures
        match r {
            Some(i) => is_largest(tensors@, tensors@.len() as int, formats@, widest, i as int),
            None => forall|k: int|
                0 <= k < tensors@.len() ==> !#[trigger] is_projection(
                    tensors@[k]@,
                    formats@,
                    widest,
                ),
        },
{
    let n: usize = tensors.len();
    let mut best: Option<usize> = None;
    let mut most: usize = 0;
    let mut i: usize = 0;
    while i < n
        invariant
            i <= n,
            n == tensors@.len(),
            forall|k: int| 0 <= k < tensors@.len() ==> countable(#[trigger] tensors@[k]@),
            match best {
                Some(b) => is_largest(tensors@, i as int, formats@, widest, b as int) && most
                    == tensors@[b as int]@.spec_n_elements(),
                None => most == 0 && forall|k: int|
                    0 <= k < i ==> !#[trigger] is_projection(tensors@[k]@, formats@, widest),
            },
        decreases n - i,
    {
        assert(countable(tensors@[i as int]@));
        let fits: bool = suits(&tensors[i], formats, widest);
        if fits {
            let elements: usize = tensors[i].n_elements();
            if elements >= most {
                most = elements;
                best = Some(i);
            }
        }
        i += 1;
    }
    best
}

/// Whether the GPU can be checked on a tensor: whether it has the name that is
/// given, or is a matrix in Q4_K where none is.
pub open spec fn is_checked(t: TensorView, name: Option<Seq<char>>) -> bool {
    match name {
        Some(s) => t.name == s,
        None => t.ggml_type == GgmlType::Q4_K && t.n_dims >= 2,
    }
}

/// The tensor that the GPU is checked on: the first of the name, where one is
/// given, else the first matrix in Q4_K; or nothing where there is none.
pub fn checked_tensor(tensors: &[TensorInfo], name: Option<&str>) -> (r: Option<usize>)
    ensures
        ({
            let wanted = match name {
                Some(s) => Some(s@),
                None => None,
            };
            match r {
                Some(i) => i < tensors@.len() && is_checked(tensors@[i as int]@, wanted) && forall|
                    k: int,
                |
                    0 <= k < i ==> !#[trigger] is_checked(tensors@[k]@, wanted),
                None => forall|k: int|
                    0 <= k < tensors@.len() ==> !#[trigger] is_checked(tensors@[k]@, wanted),
            }
        }),
{
    let ghost wanted: Option<Seq<char>> = match name {
        Some(s) => Some(s@),
        None => None,
    };
    let n: usize = tensors.len();
    let mut i: usize = 0;
    while i < n
        invariant
            i <= n,
            n == tensors@.len(),
            wanted == match name {
                Some(s) => Some(s@),
                None => None,
            },
            forall|k: int| 0 <= k < i ==> !#[trigger] is_checked(tensors@[k]@, wanted),
        decreases n - i,
    {
        let t = &tensors[i];
        let found: bool = match name {
            Some(s) => str_eq(t.name.as_str(), s),
            None => t.ggml_type == GgmlType::Q4_K && t.n_dims >= 2,
        };
        assert(found == is_checked(tensors@[i as int]@, wanted));
        if found {
            return Some(i);
        }
        i += 1;
    }
    None
}

} // verus!
