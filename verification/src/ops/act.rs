//! Activations as the GPU stores them: in half precision, two bytes each, the low
//! byte first.

use vstd::prelude::*;

use crate::calc::{computes, make, math, Calc, Math};

verus! {

/// The bytes of one stored activation.
pub const ACT_SIZE: usize = 2;

/// A number in half precision.
pub open spec fn halved(m: Math, v: u32) -> u16 {
    m(Calc::ToHalf(v)) as u16
}

/// The storage bytes of activations.
pub open spec fn encoded(m: Math, x: Seq<u32>) -> Seq<u8> {
    Seq::new(
        2 * x.len(),
        |i: int|
            if i % 2 == 0 {
                (halved(m, x[i / 2]) % 256) as u8
            } else {
                (halved(m, x[i / 2]) / 256) as u8
            },
    )
}

/// The activation at place `i` of storage bytes.
pub open spec fn decoded_at(m: Math, bytes: Seq<u8>, i: int) -> u32 {
    m(Calc::OfHalf((bytes[2 * i] + 256 * bytes[2 * i + 1]) as u16))
}

/// The first `n` activations of storage bytes, or as many as there are.
pub open spec fn decoded(m: Math, bytes: Seq<u8>, n: nat) -> Seq<u32> {
    let held = bytes.len() / 2;
    Seq::new(
        if n <= held {
            n
        } else {
            held
        },
        |i: int| decoded_at(m, bytes, i),
    )
}

/// Encode an activation slice into its storage bytes for upload to the GPU.
pub fn act_encode<F: Fn(Calc) -> u32>(x: &[u32], calc: &F) -> (bytes: Vec<u8>)
    requires
        computes(*calc),
    ensures
        bytes@ == encoded(math(*calc), x@),
{
    let ghost m = math(*calc);
    let mut bytes: Vec<u8> = Vec::new();
    let mut i: usize = 0;
    while i < x.len()
        invariant
            i <= x@.len(),
            m == math(*calc),
            computes(*calc),
            bytes@ == encoded(m, x@.take(i as int)),
        decreases x@.len() - i,
    {
        let h: u16 = make(calc, Calc::ToHalf(x[i])) as u16;
        let low: u8 = (h % 256) as u8;
        let high: u8 = (h / 256) as u8;
        bytes.push(low);
        bytes.push(high);
        proof {
            assert(bytes@ =~= encoded(m, x@.take(i + 1)));
        }
        i += 1;
    }
    proof {
        assert(x@.take(x@.len() as int) =~= x@);
    }
    bytes
}

/// Decode `n` activations from GPU-readback bytes, or as many as there are.
pub fn act_decode<F: Fn(Calc) -> u32>(bytes: &[u8], n: usize, calc: &F) -> (x: Vec<u32>)
    requires
        computes(*calc),
    ensures
        x@ == decoded(math(*calc), bytes@, n as nat),
{
    let ghost m = math(*calc);
    let len: usize = bytes.len();
    let held: usize = len / 2;
    let count: usize = if n <= held {
        n
    } else {
        held
    };
    let mut x: Vec<u32> = Vec::new();
    let mut i: usize = 0;
    while i < count
        invariant
            i <= count,
            count <= len / 2,
            len == bytes@.len(),
            m == math(*calc),
            computes(*calc),
            x@.len() == i,
            forall|j: int| 0 <= j < i ==> #[trigger] x@[j] == decoded_at(m, bytes@, j),
        decreases count - i,
    {
        let h: u16 = bytes[2 * i] as u16 + 256 * bytes[2 * i + 1] as u16;
        x.push(make(calc, Calc::OfHalf(h)));
        i += 1;
    }
    proof {
        assert(x@ =~= decoded(m, bytes@, n as nat));
    }
    x
}

/// What is read back of activations is what half precision keeps of them.
pub proof fn law_activations_read_back(m: Math, x: Seq<u32>)
    ensures
        encoded(m, x).len() == ACT_SIZE * x.len(),
        decoded(m, encoded(m, x), x.len()) == x.map_values(
            |v: u32| m(Calc::OfHalf(halved(m, v))),
        ),
{
    let bytes = encoded(m, x);
    assert forall|i: int| 0 <= i < x.len() implies #[trigger] decoded_at(m, bytes, i) == m(
        Calc::OfHalf(halved(m, x[i])),
    ) by {
        let h = halved(m, x[i]);
        assert(bytes[2 * i] == (h % 256) as u8);
        assert(bytes[2 * i + 1] == (h / 256) as u8);
    }
    assert(decoded(m, bytes, x.len()) =~= x.map_values(|v: u32| m(Calc::OfHalf(halved(m, v)))));
}

} // verus!
