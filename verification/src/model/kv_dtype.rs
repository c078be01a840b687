//! How the KV cache stores its vectors.

use vstd::prelude::*;
use vstd::string::*;

use crate::parser::number_at;
use crate::quant::block::{block_count, blocks_of, half_at, signed_byte, Weight};
use crate::quant::q8_k::{find_peak, peak};
use crate::quant::{dequant_f16, half_values, q8_0, Row};
use crate::single::{magnitude, magnitude_of, ONE};
use crate::text::{from_chars, str_eq, to_chars};

verus! {

/// KV cache storage dtype — llama.cpp `-ctk`/`-ctv` parity. `F16` (default)
/// takes two bytes per element with no block/scale overhead; `Q8_0` takes about
/// one (GGUF-style block-32, one half-precision scale + 32 signed bytes per
/// block) at a small precision cost.
#[derive(Debug, Clone, Copy, PartialEq, Eq, Structural)]
pub enum KvDtype {
    F16,
    Q8_0,
}

/// A character in ASCII lower case.
pub open spec fn ascii_lower(c: char) -> char {
    if 'A' <= c <= 'Z' {
        ((c as u32 + 32) as u32) as char
    } else {
        c
    }
}

/// A text in ASCII lower case.
pub open spec fn lowercase(s: Seq<char>) -> Seq<char> {
    s.map_values(|c: char| ascii_lower(c))
}

/// A vector as the cache stores it, before it is laid out in bytes.
#[derive(Debug)]
pub enum KvVector {
    /// Half-precision values, by their bits.
    Half(Vec<u16>),
    /// The half-precision scale of each block of 32 values, by its bits, and the
    /// values as multiples of it.
    Scaled(Vec<u16>, Vec<i8>),
}

/// The low byte of a number of 16 bits.
pub open spec fn low_byte(v: u16) -> u8 {
    (v % 256) as u8
}

/// The high byte of a number of 16 bits.
pub open spec fn high_byte(v: u16) -> u8 {
    (v / 256) as u8
}

/// A signed byte as a plain one.
pub open spec fn plain_byte(v: i8) -> u8 {
    if v < 0 {
        (v + 256) as u8
    } else {
        v as u8
    }
}

impl KvDtype {
    /// Bytes that a vector of `n` elements takes.
    pub open spec fn spec_bytes_per_token(self, n: nat) -> nat {
        match self {
            KvDtype::F16 => n * 2,
            KvDtype::Q8_0 => blocks_of(n, 32) * 34,
        }
    }

    /// The dtype that a name stands for, in any case.
    pub open spec fn named(s: Seq<char>) -> Option<KvDtype> {
        if lowercase(s) == "f16"@ {
            Some(KvDtype::F16)
        } else if lowercase(s) == "q8_0"@ || lowercase(s) == "q8"@ {
            Some(KvDtype::Q8_0)
        } else {
            None
        }
    }

    /// The dtype that a name stands for, in any case.
    pub fn parse(s: &str) -> (r: Option<Self>)
        ensures
            r == KvDtype::named(s@),
    {
        let chars = to_chars(s);
        let mut lower: Vec<char> = Vec::new();
        let mut i: usize = 0;
        while i < chars.len()
            invariant
                i <= chars@.len(),
                chars@ == s@,
                lower@ == lowercase(s@.take(i as int)),
            decreases chars@.len() - i,
        {
            let c: char = chars[i];
            let l: char = if 'A' <= c && c <= 'Z' {
                (c as u8 + 32) as char
            } else {
                c
            };
            lower.push(l);
            proof {
                assert(l == ascii_lower(c));
                assert(lowercase(s@.take(i as int + 1)) =~= lowercase(s@.take(i as int)).push(l));
            }
            i += 1;
        }
        proof {
            assert(s@.take(s@.len() as int) =~= s@);
        }
        let text = from_chars(lower.as_slice(), 0, lower.len());
        proof {
            assert(text@ =~= lowercase(s@));
        }
        if str_eq(text.as_str(), "f16") {
            Some(KvDtype::F16)
        } else if str_eq(text.as_str(), "q8_0") || str_eq(text.as_str(), "q8") {
            Some(KvDtype::Q8_0)
        } else {
            None
        }
    }

    /// Bytes needed to store one token's `head_dim_kv`-length K or V vector.
    pub fn bytes_per_token(&self, head_dim_kv: usize) -> (n: usize)
        requires
            self.spec_bytes_per_token(head_dim_kv as nat) <= usize::MAX,
        ensures
            n == self.spec_bytes_per_token(head_dim_kv as nat),
    {
        match self {
            KvDtype::F16 => head_dim_kv * 2,
            // GGUF Q8_0 block: 2-byte scale + 32 signed bytes = 34 bytes/32 elems.
            KvDtype::Q8_0 => block_count(head_dim_kv, 32) * 34,
        }
    }

    /// Bytes needed to store one token's K or V vector, or nothing where that
    /// number does not fit a `usize`.
    pub fn checked_bytes_per_token(&self, head_dim_kv: usize) -> (n: Option<usize>)
        ensures
            n is Some <==> self.spec_bytes_per_token(head_dim_kv as nat) <= usize::MAX,
            n matches Some(b) ==> b == self.spec_bytes_per_token(head_dim_kv as nat),
    {
        match self {
            KvDtype::F16 => head_dim_kv.checked_mul(2),
            KvDtype::Q8_0 => block_count(head_dim_kv, 32).checked_mul(34),
        }
    }

    /// Bits per element — used by the memory-budget calculators.
    pub fn bits_per_element(&self) -> (n: u32)
        ensures
            n == (if *self == KvDtype::F16 {
                16u32
            } else {
                9u32
            }),
    {
        match self {
            KvDtype::F16 => 16,
            KvDtype::Q8_0 => 9,  // 34 bytes / 32 elems * 8 bits, rounded
        }
    }

    /// Whether a vector is one of `n` elements in the form that this dtype
    /// stores.
    pub open spec fn accepts(self, x: KvVector, n: nat) -> bool {
        match x {
            KvVector::Half(bits) => self == KvDtype::F16 && bits@.len() == n,
            KvVector::Scaled(scales, quants) => {
                &&& self == KvDtype::Q8_0
                &&& quants@.len() == n
                &&& scales@.len() == blocks_of(n, 32)
            },
        }
    }
}

/// The elements of block `b` of 32.
pub open spec fn kv_block(x: Seq<u32>, b: int) -> Seq<u32> {
    x.subrange(
        32 * b,
        if 32 * b + 32 <= x.len() {
            32 * b + 32
        } else {
            x.len() as int
        },
    )
}

/// Whether `scale` is the scale of a block: what `scale_of` gives for its largest
/// magnitude, and one where it holds nothing but zeros.
pub open spec fn is_block_scale<S: Fn(u32) -> u32>(
    block: Seq<u32>,
    scale_of: S,
    scale: u32,
) -> bool {
    match peak(block) {
        Some(m) => scale_of.ensures((magnitude(m) as u32,), scale),
        None => scale == ONE,
    }
}

/// Whether `half` and the values from `32 * b` on are the quantization of block
/// `b`.
pub open spec fn kv_block_quantized<
    H: Fn(u32) -> u16,
    S: Fn(u32) -> u32,
    Q: Fn(u32, u32) -> i8,
>(
    x: Seq<u32>,
    b: int,
    half: u16,
    quants: Seq<i8>,
    to_half: H,
    scale_of: S,
    quotient: Q,
) -> bool {
    let block = kv_block(x, b);
    exists|scale: u32| #[trigger]
        is_block_scale(block, scale_of, scale) && to_half.ensures((scale,), half) && forall|j: int|
            0 <= j < block.len() ==> quotient.ensures(
                (block[j], scale),
                #[trigger] quants[32 * b + j],
            )
}

/// Whether a vector is the quantization of `x`: element by element for half
/// precision, and block by block otherwise.
pub open spec fn is_quantized<H: Fn(u32) -> u16, S: Fn(u32) -> u32, Q: Fn(u32, u32) -> i8>(
    x: Seq<u32>,
    v: KvVector,
    to_half: H,
    scale_of: S,
    quotient: Q,
) -> bool {
    match v {
        KvVector::Half(bits) => forall|i: int|
            0 <= i < x.len() ==> to_half.ensures((x[i],), #[trigger] bits@[i]),
        KvVector::Scaled(scales, quants) => forall|b: int|
            0 <= b < scales@.len() ==> kv_block_quantized(
                x,
                b,
                #[trigger] scales@[b],
                quants@,
                to_half,
                scale_of,
                quotient,
            ),
    }
}

fn halves<H: Fn(u32) -> u16>(x: &[u32], to_half: &H) -> (bits: Vec<u16>)
    requires
        forall|v: u32| #[trigger] to_half.requires((v,)),
    ensures
        bits@.len() == x@.len(),
        forall|i: int| 0 <= i < x@.len() ==> to_half.ensures((x@[i],), #[trigger] bits@[i]),
{
    let mut bits: Vec<u16> = Vec::new();
    let mut i: usize = 0;
    while i < x.len()
        invariant
            i <= x@.len(),
            bits@.len() == i,
            forall|v: u32| #[trigger] to_half.requires((v,)),
            forall|j: int| 0 <= j < i ==> to_half.ensures((x@[j],), #[trigger] bits@[j]),
        decreases x@.len() - i,
    {
        let h: u16 = to_half(x[i]);
        bits.push(h);
        i += 1;
    }
    bits
}

/// Quantizes a vector, given by the bits of its elements, to the form that a dtype
/// stores. `to_half` rounds to half precision, `scale_of` divides a magnitude by
/// 127, and `quotient` is the rounded quotient of an element and its scale.
pub fn quantize_kv<H: Fn(u32) -> u16, S: Fn(u32) -> u32, Q: Fn(u32, u32) -> i8>(
    dtype: KvDtype,
    x: &[u32],
    to_half: H,
    scale_of: S,
    quotient: Q,
) -> (v: KvVector)
    requires
        forall|v: u32| #[trigger] to_half.requires((v,)),
        forall|m: u32| #[trigger] scale_of.requires((m,)),
        forall|v: u32, s: u32| #[trigger] quotient.requires((v, s)),
    ensures
        dtype.accepts(v, x@.len()),
        is_quantized(x@, v, to_half, scale_of, quotient),
{
    match dtype {
        KvDtype::F16 => KvVector::Half(halves(x, &to_half)),
        KvDtype::Q8_0 => {
            let n: usize = x.len();
            let n_blocks: usize = block_count(n, 32);
            let mut scales: Vec<u16> = Vec::new();
            let mut quants: Vec<i8> = Vec::new();
            let mut b: usize = 0;
            while b < n_blocks
                invariant
                    b <= n_blocks,
                    n == x@.len(),
                    n_blocks == blocks_of(n as nat, 32),
                    forall|v: u32| #[trigger] to_half.requires((v,)),
                    forall|m: u32| #[trigger] scale_of.requires((m,)),
                    forall|v: u32, s: u32| #[trigger] quotient.requires((v, s)),
                    scales@.len() == b,
                    quants@.len() == if 32 * b <= n {
                        32 * b
                    } else {
                        n as int
                    },
                    forall|c: int|
                        0 <= c < b ==> kv_block_quantized(
                            x@,
                            c,
                            #[trigger] scales@[c],
                            quants@,
                            to_half,
                            scale_of,
                            quotient,
                        ),
                decreases n_blocks - b,
            {
                let start: usize = b * 32;
                let end: usize = if n - start >= 32 {
                    start + 32
                } else {
                    n
                };
                let ghost before = quants@;
                let ghost block = kv_block(x@, b as int);
                proof {
                    assert(x@.subrange(start as int, end as int) =~= block);
                }
                let scale: u32 = match find_peak(x, start, end) {
                    Some(m) => scale_of(magnitude_of(m)),
                    None => ONE,
                };
                proof {
                    assert(is_block_scale(block, scale_of, scale));
                }
                let half: u16 = to_half(scale);
                let mut j: usize = start;
                while j < end
                    invariant
                        start <= j <= end <= n,
                        n == x@.len(),
                        quants@.len() == j,
                        before.len() == start,
                        forall|v: u32, s: u32| #[trigger] quotient.requires((v, s)),
                        forall|k: int| 0 <= k < start ==> #[trigger] quants@[k] == before[k],
                        forall|k: int|
                            start <= k < j ==> quotient.ensures(
                                (x@[k], scale),
                                #[trigger] quants@[k],
                            ),
                    decreases end - j,
                {
                    let q: i8 = quotient(x[j], scale);
                    quants.push(q);
                    j += 1;
                }
                scales.push(half);
                proof {
                    assert forall|k: int| 0 <= k < block.len() implies quotient.ensures(
                        (block[k], scale),
                        #[trigger] quants@[32 * b + k],
                    ) by {
                        assert(block[k] == x@[start + k]);
                    }
                    assert(kv_block_quantized(
                        x@,
                        b as int,
                        half,
                        quants@,
                        to_half,
                        scale_of,
                        quotient,
                    ));
                    assert forall|c: int| 0 <= c < b implies kv_block_quantized(
                        x@,
                        c,
                        #[trigger] scales@[c],
                        quants@,
                        to_half,
                        scale_of,
                        quotient,
                    ) by {
                        let earlier = kv_block(x@, c);
                        assert(kv_block_quantized(
                            x@,
                            c,
                            scales@[c],
                            before,
                            to_half,
                            scale_of,
                            quotient,
                        ));
                        let s = choose|s: u32| #[trigger]
                            is_block_scale(earlier, scale_of, s) && to_half.ensures(
                                (s,),
                                scales@[c],
                            ) && forall|j: int|
                                0 <= j < earlier.len() ==> quotient.ensures(
                                    (earlier[j], s),
                                    #[trigger] before[32 * c + j],
                                );
                        assert forall|j: int| 0 <= j < earlier.len() implies quotient.ensures(
                            (earlier[j], s),
                            #[trigger] quants@[32 * c + j],
                        ) by {
                            assert(quotient.ensures((earlier[j], s), before[32 * c + j]));
                        }
                    }
                }
                b += 1;
            }
            KvVector::Scaled(scales, quants)
        },
    }
}

/// The bytes of half-precision values.
pub open spec fn half_bytes(bits: Seq<u16>) -> Seq<u8> {
    Seq::new(
        2 * bits.len(),
        |i: int|
            if i % 2 == 0 {
                low_byte(bits[i / 2])
            } else {
                high_byte(bits[i / 2])
            },
    )
}

/// The bytes of scaled values: for each block its scale and 32 values, filled up
/// with zeros.
pub open spec fn scaled_bytes(scales: Seq<u16>, quants: Seq<i8>) -> Seq<u8> {
    Seq::new(
        34 * scales.len(),
        |i: int|
            if i % 34 == 0 {
                low_byte(scales[i / 34])
            } else if i % 34 == 1 {
                high_byte(scales[i / 34])
            } else if 32 * (i / 34) + i % 34 - 2 < quants.len() {
                plain_byte(quants[32 * (i / 34) + i % 34 - 2])
            } else {
                0
            },
    )
}

impl KvVector {
    /// The bytes that the vector is stored in.
    pub open spec fn spec_bytes(self) -> Seq<u8> {
        match self {
            KvVector::Half(bits) => half_bytes(bits@),
            KvVector::Scaled(scales, quants) => scaled_bytes(scales@, quants@),
        }
    }

    /// Lays the vector out in bytes.
    pub fn pack(&self) -> (bytes: Vec<u8>)
        requires
            self.spec_bytes().len() <= usize::MAX,
        ensures
            bytes@ == self.spec_bytes(),
    {
        let mut bytes: Vec<u8> = Vec::new();
        match self {
            KvVector::Half(bits) => {
                let mut i: usize = 0;
                while i < bits.len()
                    invariant
                        i <= bits@.len(),
                        bytes@ == half_bytes(bits@).take(2 * i as int),
                    decreases bits@.len() - i,
                {
                    let v: u16 = bits[i];
                    bytes.push((v % 256) as u8);
                    bytes.push((v / 256) as u8);
                    proof {
                        assert(bytes@ =~= half_bytes(bits@).take(2 * (i + 1) as int));
                    }
                    i += 1;
                }
                proof {
                    assert(bytes@ =~= half_bytes(bits@));
                }
            },
            KvVector::Scaled(scales, quants) => {
                let ghost all = scaled_bytes(scales@, quants@);
                let len: usize = quants.len();
                let mut b: usize = 0;
                while b < scales.len()
                    invariant
                        b <= scales@.len(),
                        34 * scales@.len() <= usize::MAX,
                        len == quants@.len(),
                        all == scaled_bytes(scales@, quants@),
                        bytes@ == all.take(34 * b as int),
                    decreases scales@.len() - b,
                {
                    let scale: u16 = scales[b];
                    bytes.push((scale % 256) as u8);
                    bytes.push((scale / 256) as u8);
                    proof {
                        assert(bytes@ =~= all.take(34 * b + 2));
                    }
                    let mut r: usize = 0;
                    while r < 32
                        invariant
                            r <= 32,
                            b < scales@.len(),
                            34 * scales@.len() <= usize::MAX,
                            len == quants@.len(),
                            all == scaled_bytes(scales@, quants@),
                            bytes@ == all.take(34 * b + 2 + r),
                        decreases 32 - r,
                    {
                        let i: usize = 32 * b + r;
                        let byte: u8 = if i < len {
                            let q: i8 = quants[i];
                            if q < 0 {
                                (q as i16 + 256) as u8
                            } else {
                                q as u8
                            }
                        } else {
                            0
                        };
                        bytes.push(byte);
                        proof {
                            let at = 34 * b + 2 + r;
                            assert(at / 34 == b && at % 34 == 2 + r);
                            assert(all[at] == byte);
                            assert(bytes@ =~= all.take(at + 1));
                        }
                        r += 1;
                    }
                    b += 1;
                }
                proof {
                    assert(all.take(34 * scales@.len() as int) =~= all);
                }
            },
        }
        bytes
    }
}

/// Reads the vector of `n` elements that bytes hold.
pub fn unpack(dtype: KvDtype, bytes: &[u8], n: usize) -> (row: Row)
    requires
        dtype.spec_bytes_per_token(n as nat) <= bytes@.len(),
    ensures
        match dtype {
            KvDtype::F16 => row matches Row::Half(v) && v@ == half_values(bytes@, n as nat),
            KvDtype::Q8_0 => row matches Row::Quantized(v) && v@ == q8_0::weights_of(
                bytes@,
                n as nat,
            ),
        },
{
    let len: usize = bytes.len();
    match dtype {
        KvDtype::F16 => Row::Half(dequant_f16(bytes, n)),
        KvDtype::Q8_0 => match q8_0::dequant_q8_0(bytes, n) {
            Ok(v) => Row::Quantized(v),
            Err(_) => Row::Quantized(Vec::new()),
        },
    }
}

proof fn lemma_half_bytes_value(v: u16, data: Seq<u8>, p: int)
    requires
        data[p] == low_byte(v),
        data[p + 1] == high_byte(v),
    ensures
        half_at(data, p) == v,
{
    reveal_with_fuel(number_at, 3);
}

/// Reading half-precision values back gives the values that were stored.
pub proof fn law_half_vector_read_back(bits: Seq<u16>)
    ensures
        half_values(half_bytes(bits), bits.len()) == bits,
{
    let data = half_bytes(bits);
    assert forall|i: int| 0 <= i < bits.len() implies half_values(data, bits.len())[i] == bits[i] by {
        assert(data[2 * i] == low_byte(bits[i]));
        assert(data[2 * i + 1] == high_byte(bits[i]));
        lemma_half_bytes_value(bits[i], data, 2 * i);
    }
    assert(half_values(data, bits.len()) =~= bits);
}

/// Reading scaled values back gives each value with the scale of its block.
pub proof fn law_scaled_vector_read_back(scales: Seq<u16>, quants: Seq<i8>, i: int)
    requires
        scales.len() == blocks_of(quants.len(), 32),
        0 <= i < quants.len(),
    ensures
        q8_0::weights_of(scaled_bytes(scales, quants), quants.len())[i] == (Weight {
            d: scales[i / 32],
            dmin: 0,
            scale: 1,
            min: 0,
            quant: quants[i] as i32,
        }),
{
    let data = scaled_bytes(scales, quants);
    let b = i / 32;
    let r = i % 32;
    let p = 34 * b;
    assert(p / 34 == b && p % 34 == 0);
    assert((p + 1) / 34 == b && (p + 1) % 34 == 1);
    assert((p + 2 + r) / 34 == b && (p + 2 + r) % 34 == 2 + r);
    assert(data[p] == low_byte(scales[b]));
    assert(data[p + 1] == high_byte(scales[b]));
    lemma_half_bytes_value(scales[b], data, p);
    assert(data[p + 2 + r] == plain_byte(quants[i]));
    assert(signed_byte(plain_byte(quants[i])) == quants[i]);
}

} // verus!
