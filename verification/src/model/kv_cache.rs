//! The KV cache: for every layer and position the K and the V vector, packed.

use vstd::prelude::*;
use vstd::slice::slice_subrange;

use crate::model::config::{ConfigView, ModelConfig};
use crate::model::kv_dtype::{unpack, KvDtype, KvVector};
use crate::quant::{half_values, q8_0, Row};

verus! {

/// KV cache. Storage is packed per [`KvDtype`] (`F16` by default).
pub struct KvCache {
    dtype: KvDtype,
    /// Per-layer packed K/V bytes: `[max_seq_len * bytes_per_token]` each.
    k: Vec<Vec<u8>>,
    v: Vec<Vec<u8>>,
    n_layers: usize,
    head_dim_kv: usize,
    max_seq_len: usize,
    /// Bytes of one packed vector.
    stride: usize,
}

/// The bytes of position `p` in a layer whose vectors take `stride` bytes each.
pub open spec fn slot(layer: Seq<u8>, p: int, stride: int) -> Seq<u8> {
    layer.subrange(p * stride, p * stride + stride)
}

/// A layer with other bytes from `at` on.
pub open spec fn overwritten(layer: Seq<u8>, at: int, bytes: Seq<u8>) -> Seq<u8> {
    Seq::new(
        layer.len(),
        |i: int|
            if at <= i < at + bytes.len() {
                bytes[i - at]
            } else {
                layer[i]
            },
    )
}

/// A cache as mathematics sees it: the packed vectors by layer and position.
pub struct CacheView {
    pub dtype: KvDtype,
    pub head_dim_kv: nat,
    pub max_seq_len: nat,
    pub k: Seq<Seq<u8>>,
    pub v: Seq<Seq<u8>>,
}

impl CacheView {
    /// Bytes of one packed vector.
    pub open spec fn stride(self) -> int {
        self.dtype.spec_bytes_per_token(self.head_dim_kv) as int
    }

    /// The packed K vector of a layer at a position.
    pub open spec fn k_at(self, layer: int, pos: int) -> Seq<u8> {
        slot(self.k[layer], pos, self.stride())
    }

    /// The packed V vector of a layer at a position.
    pub open spec fn v_at(self, layer: int, pos: int) -> Seq<u8> {
        slot(self.v[layer], pos, self.stride())
    }

    /// Whether the cache has that layer and position.
    pub open spec fn has(self, layer: int, pos: int) -> bool {
        0 <= layer < self.k.len() && 0 <= pos < self.max_seq_len
    }

    /// Whether two caches have the same shape.
    pub open spec fn same_shape(self, other: CacheView) -> bool {
        &&& self.dtype == other.dtype
        &&& self.head_dim_kv == other.head_dim_kv
        &&& self.max_seq_len == other.max_seq_len
        &&& self.k.len() == other.k.len()
        &&& self.v.len() == other.v.len()
    }
}

impl View for KvCache {
    type V = CacheView;

    closed spec fn view(&self) -> CacheView {
        CacheView {
            dtype: self.dtype,
            head_dim_kv: self.head_dim_kv as nat,
            max_seq_len: self.max_seq_len as nat,
            k: Seq::new(self.k@.len(), |i: int| self.k@[i]@),
            v: Seq::new(self.v@.len(), |i: int| self.v@[i]@),
        }
    }
}

proof fn lemma_slot_bounds(p: int, count: int, stride: int)
    requires
        0 <= p < count,
        0 <= stride,
    ensures
        0 <= p * stride,
        p * stride + stride <= count * stride,
{
    assert(0 <= p * stride) by (nonlinear_arith)
        requires
            0 <= p,
            0 <= stride,
    ;
    assert(p * stride + stride <= count * stride) by (nonlinear_arith)
        requires
            p + 1 <= count,
            0 <= stride,
    ;
}

proof fn lemma_slots_disjoint(p: int, q: int, stride: int)
    requires
        p < q,
        0 <= stride,
    ensures
        p * stride + stride <= q * stride,
{
    assert(p * stride + stride <= q * stride) by (nonlinear_arith)
        requires
            p + 1 <= q,
            0 <= stride,
    ;
}

/// A layer of zeros.
fn zero_bytes(n: usize) -> (bytes: Vec<u8>)
    ensures
        bytes@ == Seq::new(n as nat, |i: int| 0u8),
{
    let mut bytes: Vec<u8> = Vec::new();
    let mut i: usize = 0;
    while i < n
        invariant
            i <= n,
            bytes@ == Seq::new(i as nat, |i: int| 0u8),
        decreases n - i,
    {
        bytes.push(0);
        proof {
            assert(bytes@ =~= Seq::new((i + 1) as nat, |i: int| 0u8));
        }
        i += 1;
    }
    bytes
}

/// Overwrites `layer[at..at + bytes.len()]`.
fn overwrite(layer: &mut Vec<u8>, at: usize, bytes: &[u8])
    requires
        at + bytes@.len() <= old(layer)@.len(),
    ensures
        final(layer)@.len() == old(layer)@.len(),
        forall|i: int|
            0 <= i < old(layer)@.len() ==> #[trigger] final(layer)@[i] == (if at <= i < at
                + bytes@.len() {
                bytes@[i - at]
            } else {
                old(layer)@[i]
            }),
{
    let len: usize = layer.len();
    let mut j: usize = 0;
    while j < bytes.len()
        invariant
            j <= bytes@.len(),
            len == layer@.len(),
            at + bytes@.len() <= len,
            layer@.len() == old(layer)@.len(),
            forall|i: int|
                0 <= i < layer@.len() ==> #[trigger] layer@[i] == (if at <= i < at + j {
                    bytes@[i - at]
                } else {
                    old(layer)@[i]
                }),
        decreases bytes@.len() - j,
    {
        layer.set(at + j, bytes[j]);
        j += 1;
    }
}

/// Whether a cache for `slots` positions of a model fits the machine.
pub open spec fn cache_fits(c: ConfigView, slots: nat, dtype: KvDtype) -> bool {
    let width = c.head_count_kv as nat * c.head_dim as nat;
    let stride = dtype.spec_bytes_per_token(width);
    &&& c.block_count <= usize::MAX
    &&& c.head_count_kv <= usize::MAX
    &&& c.head_dim <= usize::MAX
    &&& width <= usize::MAX
    &&& stride <= usize::MAX
    &&& slots * stride <= usize::MAX
}

impl KvCache {
    /// The layers have the length that goes with the cache's shape.
    pub closed spec fn wf(&self) -> bool {
        &&& self.stride == self.dtype.spec_bytes_per_token(self.head_dim_kv as nat)
        &&& self.k@.len() == self.n_layers
        &&& self.v@.len() == self.n_layers
        &&& self.max_seq_len * self.stride <= usize::MAX
        &&& forall|i: int|
            0 <= i < self.n_layers ==> (#[trigger] self.k@[i])@.len() == self.max_seq_len
                * self.stride
        &&& forall|i: int|
            0 <= i < self.n_layers ==> (#[trigger] self.v@[i])@.len() == self.max_seq_len
                * self.stride
    }

    /// A well-formed cache has as many layers of values as of keys, and in each of
    /// them room for every position.
    pub proof fn lemma_layers(&self)
        requires
            self.wf(),
        ensures
            self@.v.len() == self@.k.len(),
            forall|i: int|
                0 <= i < self@.k.len() ==> (#[trigger] self@.k[i]).len() == self@.max_seq_len
                    * self@.stride(),
            forall|i: int|
                0 <= i < self@.v.len() ==> (#[trigger] self@.v[i]).len() == self@.max_seq_len
                    * self@.stride(),
    {
    }

    /// Whether this is a cache of zeros with as many layers, elements of each key and
    /// value, and positions, stored in `dtype`.
    pub open spec fn is_blank(
        &self,
        layers: nat,
        width: nat,
        slots: nat,
        dtype: KvDtype,
    ) -> bool {
        &&& self.wf()
        &&& self@.dtype == dtype
        &&& self@.head_dim_kv == width
        &&& self@.max_seq_len == slots
        &&& self@.k.len() == layers
        &&& self@.v.len() == layers
        &&& forall|l: int, i: int|
            0 <= l < layers && 0 <= i < self@.k[l].len() ==> #[trigger] self@.k[l][i] == 0
        &&& forall|l: int, i: int|
            0 <= l < layers && 0 <= i < self@.v[l].len() ==> #[trigger] self@.v[l][i] == 0
    }

    /// A cache of zeros for `slots` positions of a model, or nothing where it does
    /// not fit the machine.
    pub fn for_model(cfg: &ModelConfig, slots: usize, dtype: KvDtype) -> (r: Option<Self>)
        ensures
            match r {
                Some(c) => {
                    &&& cache_fits(cfg@, slots as nat, dtype)
                    &&& c.is_blank(
                        cfg.block_count as nat,
                        cfg.head_count_kv as nat * cfg.head_dim as nat,
                        slots as nat,
                        dtype,
                    )
                },
                None => !cache_fits(cfg@, slots as nat, dtype),
            },
    {
        if cfg.block_count > usize::MAX as u64 || cfg.head_count_kv > usize::MAX as u64
            || cfg.head_dim > usize::MAX as u64 {
            return None;
        }
        let layers: usize = cfg.block_count as usize;
        let heads: usize = cfg.head_count_kv as usize;
        let head_dim: usize = cfg.head_dim as usize;
        let width: usize = match heads.checked_mul(head_dim) {
            Some(width) => width,
            None => {
                return None;
            },
        };
        let stride: usize = match dtype.checked_bytes_per_token(width) {
            Some(stride) => stride,
            None => {
                return None;
            },
        };
        match slots.checked_mul(stride) {
            Some(_) => Some(Self::new_with_dtype(layers, heads, head_dim, slots, dtype)),
            None => None,
        }
    }

    /// A cache of zeros that stores half-precision values.
    pub fn new(n_layers: usize, n_kv_heads: usize, head_dim: usize, max_seq_len: usize) -> (c: Self)
        requires
            n_kv_heads * head_dim <= usize::MAX,
            2 * (n_kv_heads * head_dim) <= usize::MAX,
            max_seq_len * (n_kv_heads as nat * head_dim as nat * 2) <= usize::MAX,
        ensures
            c.is_blank(
                n_layers as nat,
                n_kv_heads as nat * head_dim as nat,
                max_seq_len as nat,
                KvDtype::F16,
            ),
    {
        Self::new_with_dtype(n_layers, n_kv_heads, head_dim, max_seq_len, KvDtype::F16)
    }

    /// A cache of zeros with the given storage dtype.
    pub fn new_with_dtype(
        n_layers: usize,
        n_kv_heads: usize,
        head_dim: usize,
        max_seq_len: usize,
        dtype: KvDtype,
    ) -> (c: Self)
        requires
            n_kv_heads * head_dim <= usize::MAX,
            dtype.spec_bytes_per_token(n_kv_heads as nat * head_dim as nat) <= usize::MAX,
            max_seq_len * dtype.spec_bytes_per_token(n_kv_heads as nat * head_dim as nat)
                <= usize::MAX,
        ensures
            c.is_blank(
                n_layers as nat,
                n_kv_heads as nat * head_dim as nat,
                max_seq_len as nat,
                dtype,
            ),
    {
        let head_dim_kv: usize = n_kv_heads * head_dim;
        let stride: usize = dtype.bytes_per_token(head_dim_kv);
        let size: usize = max_seq_len * stride;
        let mut k: Vec<Vec<u8>> = Vec::new();
        let mut v: Vec<Vec<u8>> = Vec::new();
        let mut i: usize = 0;
        while i < n_layers
            invariant
                i <= n_layers,
                k@.len() == i,
                v@.len() == i,
                forall|l: int|
                    0 <= l < i ==> (#[trigger] k@[l])@ == Seq::new(size as nat, |i: int| 0u8),
                forall|l: int|
                    0 <= l < i ==> (#[trigger] v@[l])@ == Seq::new(size as nat, |i: int| 0u8),
            decreases n_layers - i,
        {
            k.push(zero_bytes(size));
            v.push(zero_bytes(size));
            i += 1;
        }
        KvCache { dtype, k, v, n_layers, head_dim_kv, max_seq_len, stride }
    }

    /// The KV storage dtype this cache was built with.
    pub fn dtype(&self) -> (d: KvDtype)
        ensures
            d == self@.dtype,
    {
        self.dtype
    }

    /// Maximum sequence length this cache was allocated for.
    pub fn max_seq_len(&self) -> (n: usize)
        ensures
            n == self@.max_seq_len,
    {
        self.max_seq_len
    }

    /// The number of layers.
    pub fn n_layers(&self) -> (n: usize)
        requires
            self.wf(),
        ensures
            n == self@.k.len(),
    {
        self.n_layers
    }

    /// The number of elements of each K and V vector.
    pub fn head_dim_kv(&self) -> (n: usize)
        ensures
            n == self@.head_dim_kv,
    {
        self.head_dim_kv
    }

    /// Write K and V for a given layer and position.
    pub fn write(&mut self, layer: usize, pos: usize, k: &KvVector, v: &KvVector)
        requires
            old(self).wf(),
            old(self)@.has(layer as int, pos as int),
            old(self)@.dtype.accepts(*k, old(self)@.head_dim_kv),
            old(self)@.dtype.accepts(*v, old(self)@.head_dim_kv),
        ensures
            final(self).wf(),
            final(self)@.same_shape(old(self)@),
            final(self)@.k == old(self)@.k.update(
                layer as int,
                overwritten(old(self)@.k[layer as int], pos * old(self)@.stride(), k.spec_bytes()),
            ),
            final(self)@.v == old(self)@.v.update(
                layer as int,
                overwritten(old(self)@.v[layer as int], pos * old(self)@.stride(), v.spec_bytes()),
            ),
            final(self)@.k_at(layer as int, pos as int) == k.spec_bytes(),
            final(self)@.v_at(layer as int, pos as int) == v.spec_bytes(),
            forall|l: int, p: int|
                old(self)@.has(l, p) && (l != layer || p != pos) ==> #[trigger] final(self)@.k_at(
                    l,
                    p,
                ) == old(self)@.k_at(l, p),
            forall|l: int, p: int|
                old(self)@.has(l, p) && (l != layer || p != pos) ==> #[trigger] final(self)@.v_at(
                    l,
                    p,
                ) == old(self)@.v_at(l, p),
    {
        let stride: usize = self.stride;
        let ghost s = stride as int;
        proof {
            lemma_slot_bounds(pos as int, self.max_seq_len as int, s);
            assert(k.spec_bytes().len() == s);
            assert(v.spec_bytes().len() == s);
        }
        let k_bytes = k.pack();
        let v_bytes = v.pack();
        let at: usize = pos * stride;
        let ghost before = *self;
        overwrite(&mut self.k[layer], at, k_bytes.as_slice());
        overwrite(&mut self.v[layer], at, v_bytes.as_slice());
        proof {
            let now = self@;
            let then = before@;
            let l = layer as int;
            assert(now.k[l] =~= overwritten(then.k[l], pos * s, k.spec_bytes()));
            assert(now.v[l] =~= overwritten(then.v[l], pos * s, v.spec_bytes()));
            assert(now.k =~= then.k.update(l, now.k[l]));
            assert(now.v =~= then.v.update(l, now.v[l]));
            assert(now.k_at(layer as int, pos as int) =~= k.spec_bytes());
            assert(now.v_at(layer as int, pos as int) =~= v.spec_bytes());
            assert forall|l: int, p: int|
                then.has(l, p) && (l != layer || p != pos) implies #[trigger] now.k_at(l, p)
                == then.k_at(l, p) by {
                lemma_slot_bounds(p, self.max_seq_len as int, s);
                if l == layer {
                    if p < pos {
                        lemma_slots_disjoint(p, pos as int, s);
                    } else {
                        lemma_slots_disjoint(pos as int, p, s);
                    }
                }
                assert(now.k_at(l, p) =~= then.k_at(l, p));
            }
            assert forall|l: int, p: int|
                then.has(l, p) && (l != layer || p != pos) implies #[trigger] now.v_at(l, p)
                == then.v_at(l, p) by {
                lemma_slot_bounds(p, self.max_seq_len as int, s);
                if l == layer {
                    if p < pos {
                        lemma_slots_disjoint(p, pos as int, s);
                    } else {
                        lemma_slots_disjoint(pos as int, p, s);
                    }
                }
                assert(now.v_at(l, p) =~= then.v_at(l, p));
            }
        }
    }

    /// Write K and V for a contiguous range of positions starting at
    /// `pos_start`. Equivalent to calling [`KvCache::write`] once per position.
    pub fn write_range(
        &mut self,
        layer: usize,
        pos_start: usize,
        k: &Vec<KvVector>,
        v: &Vec<KvVector>,
    )
        requires
            old(self).wf(),
            k@.len() == v@.len(),
            layer < old(self)@.k.len(),
            pos_start + k@.len() <= old(self)@.max_seq_len,
            forall|i: int|
                0 <= i < k@.len() ==> old(self)@.dtype.accepts(
                    #[trigger] k@[i],
                    old(self)@.head_dim_kv,
                ),
            forall|i: int|
                0 <= i < v@.len() ==> old(self)@.dtype.accepts(
                    #[trigger] v@[i],
                    old(self)@.head_dim_kv,
                ),
        ensures
            final(self).wf(),
            final(self)@.same_shape(old(self)@),
            forall|i: int|
                0 <= i < k@.len() ==> final(self)@.k_at(layer as int, pos_start + i) == (
                #[trigger] k@[i]).spec_bytes(),
            forall|i: int|
                0 <= i < v@.len() ==> final(self)@.v_at(layer as int, pos_start + i) == (
                #[trigger] v@[i]).spec_bytes(),
            forall|l: int, p: int|
                old(self)@.has(l, p) && (l != layer || p < pos_start || p >= pos_start + k@.len())
                    ==> #[trigger] final(self)@.k_at(l, p) == old(self)@.k_at(l, p),
            forall|l: int, p: int|
                old(self)@.has(l, p) && (l != layer || p < pos_start || p >= pos_start + k@.len())
                    ==> #[trigger] final(self)@.v_at(l, p) == old(self)@.v_at(l, p),
    {
        let ghost first = self@;
        let mut i: usize = 0;
        while i < k.len()
            invariant
                i <= k@.len(),
                k@.len() == v@.len(),
                self.wf(),
                self@.same_shape(first),
                first == old(self)@,
                layer < first.k.len(),
                pos_start + k@.len() <= first.max_seq_len <= usize::MAX,
                forall|j: int|
                    0 <= j < k@.len() ==> first.dtype.accepts(#[trigger] k@[j], first.head_dim_kv),
                forall|j: int|
                    0 <= j < v@.len() ==> first.dtype.accepts(#[trigger] v@[j], first.head_dim_kv),
                forall|j: int|
                    0 <= j < i ==> self@.k_at(layer as int, pos_start + j) == (
                    #[trigger] k@[j]).spec_bytes(),
                forall|j: int|
                    0 <= j < i ==> self@.v_at(layer as int, pos_start + j) == (
                    #[trigger] v@[j]).spec_bytes(),
                forall|l: int, p: int|
                    first.has(l, p) && (l != layer || p < pos_start || p >= pos_start + i)
                        ==> #[trigger] self@.k_at(l, p) == first.k_at(l, p),
                forall|l: int, p: int|
                    first.has(l, p) && (l != layer || p < pos_start || p >= pos_start + i)
                        ==> #[trigger] self@.v_at(l, p) == first.v_at(l, p),
            decreases k@.len() - i,
        {
            let ghost mid = self@;
            self.write(layer, pos_start + i, &k[i], &v[i]);
            proof {
                assert forall|j: int| 0 <= j < i + 1 implies self@.k_at(layer as int, pos_start + j)
                    == (#[trigger] k@[j]).spec_bytes() by {
                    if j < i {
                        assert(mid.has(layer as int, pos_start + j));
                    }
                }
                assert forall|j: int| 0 <= j < i + 1 implies self@.v_at(layer as int, pos_start + j)
                    == (#[trigger] v@[j]).spec_bytes() by {
                    if j < i {
                        assert(mid.has(layer as int, pos_start + j));
                    }
                }
                assert forall|l: int, p: int|
                    first.has(l, p) && (l != layer || p < pos_start || p >= pos_start + (i + 1))
                        implies #[trigger] self@.k_at(l, p) == first.k_at(l, p) by {
                    assert(mid.has(l, p));
                    assert(mid.k_at(l, p) == first.k_at(l, p));
                }
                assert forall|l: int, p: int|
                    first.has(l, p) && (l != layer || p < pos_start || p >= pos_start + (i + 1))
                        implies #[trigger] self@.v_at(l, p) == first.v_at(l, p) by {
                    assert(mid.has(l, p));
                    assert(mid.v_at(l, p) == first.v_at(l, p));
                }
            }
            i += 1;
        }
    }

    /// The K and the V vector of a layer at a position, decoded.
    pub fn read(&self, layer: usize, pos: usize) -> (r: (Row, Row))
        requires
            self.wf(),
            self@.has(layer as int, pos as int),
        ensures
            holds_vector(self@.dtype, self@.k_at(layer as int, pos as int), self@.head_dim_kv, r.0),
            holds_vector(self@.dtype, self@.v_at(layer as int, pos as int), self@.head_dim_kv, r.1),
    {
        proof {
            lemma_slot_bounds(pos as int, self.max_seq_len as int, self.stride as int);
        }
        let at: usize = pos * self.stride;
        let end: usize = at + self.stride;
        let a = slice_subrange(self.k[layer].as_slice(), at, end);
        let b = slice_subrange(self.v[layer].as_slice(), at, end);
        (unpack(self.dtype, a, self.head_dim_kv), unpack(self.dtype, b, self.head_dim_kv))
    }

    /// Read (decoding) all K and V up to (and including) `pos` for a given layer,
    /// position after position.
    pub fn read_up_to(&self, layer: usize, pos: usize) -> (r: (Vec<Row>, Vec<Row>))
        requires
            self.wf(),
            self@.has(layer as int, pos as int),
        ensures
            r.0@.len() == pos + 1,
            r.1@.len() == pos + 1,
            forall|p: int|
                0 <= p <= pos ==> holds_vector(
                    self@.dtype,
                    self@.k_at(layer as int, p),
                    self@.head_dim_kv,
                    #[trigger] r.0@[p],
                ),
            forall|p: int|
                0 <= p <= pos ==> holds_vector(
                    self@.dtype,
                    self@.v_at(layer as int, p),
                    self@.head_dim_kv,
                    #[trigger] r.1@[p],
                ),
    {
        let mut ks: Vec<Row> = Vec::new();
        let mut vs: Vec<Row> = Vec::new();
        let mut p: usize = 0;
        while p <= pos
            invariant
                self.wf(),
                self@.has(layer as int, pos as int),
                p <= pos + 1,
                pos < self.max_seq_len,
                ks@.len() == p,
                vs@.len() == p,
                forall|q: int|
                    0 <= q < p ==> holds_vector(
                        self@.dtype,
                        self@.k_at(layer as int, q),
                        self@.head_dim_kv,
                        #[trigger] ks@[q],
                    ),
                forall|q: int|
                    0 <= q < p ==> holds_vector(
                        self@.dtype,
                        self@.v_at(layer as int, q),
                        self@.head_dim_kv,
                        #[trigger] vs@[q],
                    ),
            decreases pos + 1 - p,
        {
            let (k, v) = self.read(layer, p);
            ks.push(k);
            vs.push(v);
            p += 1;
        }
        (ks, vs)
    }
}

/// Whether `row` is the vector of `n` elements that `bytes` hold.
pub open spec fn holds_vector(dtype: KvDtype, bytes: Seq<u8>, n: nat, row: Row) -> bool {
    match dtype {
        KvDtype::F16 => row matches Row::Half(v) && v@ == half_values(bytes, n),
        KvDtype::Q8_0 => row matches Row::Quantized(v) && v@ == q8_0::weights_of(bytes, n),
    }
}

/// What is read from a slot is what was written to it: the values of a
/// half-precision vector, or the quants of a scaled one with the scales of their
/// blocks.
pub proof fn law_read_gives_what_was_written(dtype: KvDtype, x: KvVector, n: nat, row: Row)
    requires
        dtype.accepts(x, n),
        holds_vector(dtype, x.spec_bytes(), n, row),
    ensures
        match x {
            KvVector::Half(bits) => row matches Row::Half(v) && v@ == bits@,
            KvVector::Scaled(scales, quants) => row matches Row::Quantized(v) && v@.len()
                == quants@.len() && forall|i: int|
                0 <= i < v@.len() ==> {
                    &&& (#[trigger] v@[i]).quant == quants@[i]
                    &&& v@[i].d == scales@[i / 32]
                    &&& v@[i].scale == 1
                    &&& v@[i].min == 0
                },
        },
{
    match x {
        KvVector::Half(bits) => {
            crate::model::kv_dtype::law_half_vector_read_back(bits@);
        },
        KvVector::Scaled(scales, quants) => {
            let v = row->Quantized_0@;
            assert forall|i: int| 0 <= i < v.len() implies (#[trigger] v[i]).quant == quants@[i]
                && v[i].d == scales@[i / 32] && v[i].scale == 1 && v[i].min == 0 by {
                crate::model::kv_dtype::law_scaled_vector_read_back(scales@, quants@, i);
            }
        },
    }
}

} // verus!
