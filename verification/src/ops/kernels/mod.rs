//! What the threads of GPU kernels do, one thread at a time: which cells of a buffer
//! a thread writes, and what it computes for them.
//!
//! `elementwise` and `norm` hold kernels on vectors and on heads, `conv` the causal
//! convolutions, `attention` the three kernels of attention, `delta` that of the delta
//! rule, and `laws` says which of them have threads that can run in any order. `half`
//! holds half-precision numbers.

pub mod attention;
pub mod conv;
pub mod delta;
pub mod elementwise;
pub mod half;
pub mod laws;
pub mod norm;

use vstd::prelude::*;

verus! {

/// Which thread writes a cell.
pub type Owner = spec_fn(int) -> int;

/// Every cell has a thread of its own.
pub open spec fn by_cell() -> Owner {
    |i: int| i
}

/// Every head of `len` cells has a thread of its own.
pub open spec fn by_head(len: int) -> Owner {
    |i: int| i / len
}

/// A buffer after one thread: the cells of the thread hold what `new` has there, and
/// all others what they held before.
pub open spec fn patched(before: Seq<u32>, new: Seq<u32>, owner: Owner, thread: int) -> Seq<u32> {
    Seq::new(
        before.len(),
        |i: int|
            if owner(i) == thread {
                new[i]
            } else {
                before[i]
            },
    )
}

/// What a kernel makes of a buffer.
pub type Kernel = spec_fn(Seq<u32>) -> Seq<u32>;

/// A buffer after threads of a kernel, one after the other.
pub open spec fn after_threads(
    f: Kernel,
    owner: Owner,
    x: Seq<u32>,
    threads: Seq<int>,
) -> Seq<u32>
    decreases threads.len(),
{
    if threads.len() == 0 {
        x
    } else {
        let y = after_threads(f, owner, x, threads.drop_last());
        patched(y, f(y), owner, threads.last())
    }
}

/// Whether two buffers agree on the cells of a thread.
pub open spec fn agree(a: Seq<u32>, b: Seq<u32>, owner: Owner, thread: int) -> bool {
    forall|i: int| 0 <= i < a.len() && owner(i) == thread ==> #[trigger] a[i] == b[i]
}

/// Whether what a kernel gives for the cells of a thread depends on those cells only.
pub open spec fn is_local(f: Kernel, owner: Owner, len: nat) -> bool {
    forall|a: Seq<u32>, b: Seq<u32>, t: int|
        a.len() == len && b.len() == len && #[trigger] agree(a, b, owner, t) ==> agree(
            f(a),
            f(b),
            owner,
            t,
        )
}

/// Threads that keep to their own cells can run in any order: where the thread of every
/// cell that changes runs once, the buffer holds what the kernel makes of it as a whole.
pub proof fn law_threads_run_in_any_order(
    f: Kernel,
    owner: Owner,
    x: Seq<u32>,
    threads: Seq<int>,
)
    requires
        is_local(f, owner, x.len()),
        forall|a: Seq<u32>| a.len() == x.len() ==> (#[trigger] f(a)).len() == x.len(),
        threads.no_duplicates(),
        forall|i: int|
            0 <= i < x.len() ==> threads.contains(#[trigger] owner(i)) || f(x)[i] == x[i],
    ensures
        after_threads(f, owner, x, threads) == f(x),
{
    lemma_some_threads(f, owner, x, threads);
    let y = after_threads(f, owner, x, threads);
    assert forall|i: int| 0 <= i < x.len() implies y[i] == f(x)[i] by {
        assert(threads.contains(owner(i)) || f(x)[i] == x[i]);
    }
    assert(y =~= f(x));
}

proof fn lemma_some_threads(f: Kernel, owner: Owner, x: Seq<u32>, threads: Seq<int>)
    requires
        is_local(f, owner, x.len()),
        forall|a: Seq<u32>| a.len() == x.len() ==> (#[trigger] f(a)).len() == x.len(),
        threads.no_duplicates(),
    ensures
        after_threads(f, owner, x, threads).len() == x.len(),
        forall|i: int|
            0 <= i < x.len() ==> #[trigger] after_threads(f, owner, x, threads)[i]
                == if threads.contains(owner(i)) {
                f(x)[i]
            } else {
                x[i]
            },
    decreases threads.len(),
{
    if threads.len() > 0 {
        let earlier = threads.drop_last();
        let t = threads.last();
        assert(earlier.no_duplicates());
        lemma_some_threads(f, owner, x, earlier);
        let y = after_threads(f, owner, x, earlier);
        assert(!earlier.contains(t)) by {
            if earlier.contains(t) {
                let k = choose|k: int| 0 <= k < earlier.len() && earlier[k] == t;
                assert(threads[k] == threads[threads.len() - 1]);
            }
        }
        assert(agree(y, x, owner, t));
        assert(agree(f(y), f(x), owner, t));
        assert forall|i: int| 0 <= i < x.len() implies #[trigger] after_threads(
            f,
            owner,
            x,
            threads,
        )[i] == if threads.contains(owner(i)) {
            f(x)[i]
        } else {
            x[i]
        } by {
            if owner(i) == t {
                assert(threads[threads.len() - 1] == t);
            } else if threads.contains(owner(i)) {
                let k = choose|k: int| 0 <= k < threads.len() && threads[k] == owner(i);
                assert(earlier[k] == owner(i));
            } else if earlier.contains(owner(i)) {
                let k = choose|k: int| 0 <= k < earlier.len() && earlier[k] == owner(i);
                assert(threads[k] == owner(i));
            }
        }
    }
}

} // verus!
