//! What the GPU holds of a model: which tensors go there, whether all that a
//! forward pass needs is there, and where a product is computed.

use vstd::hash_map::StringHashMap;
use vstd::prelude::*;
use vstd::string::*;

use crate::error::{GgufError, Result};
use crate::model::llama::load::LlamaModel;
use crate::model::llama::types::{LayerWeights, Mixer, MixerKind};
use crate::model::llama::vectors::{
    all_held, are_vectors_there, law_uploaded_vectors_are_there, vector_uploads, vectors_there,
    LayerVector, LayerVectors,
};
use crate::model::weights::{last_named, missing_tensor, tensor_name};
use crate::ops::backend_select::{gpu_dequantizable, has_gpu_kernel};
use crate::ops::AnyBackend;
use crate::text::string_views;
use crate::types::{GgmlType, TensorInfo, TensorView};

verus! {

// ── Uploads ─────────────────────────────────────────────────────────────────

/// The matrices of a mixer.
pub open spec fn mixer_uploads(m: Mixer) -> Seq<Seq<char>> {
    match m {
        Mixer::Attention(a) => seq![a.wq@, a.wk@, a.wv@, a.wo@],
        Mixer::ShortConv(c) => seq![c.in_proj@, c.out_proj@],
        Mixer::GatedAttention(a) => seq![a.wqg@, a.wk@, a.wv@, a.wo@],
        Mixer::GatedDeltaNet(g) => seq![
            g.wqkv@,
            g.wgate@,
            g.ssm_beta@,
            g.ssm_alpha@,
            g.ssm_out@,
        ],
    }
}

/// The matrices of a feed-forward block.
pub open spec fn ffn_uploads(l: LayerWeights) -> Seq<Seq<char>> {
    seq![l.ffn_gate@, l.ffn_up@, l.ffn_down@]
}

/// The matrices of the first `n` layers.
pub open spec fn layers_uploads(layers: Seq<LayerWeights>, n: int) -> Seq<Seq<char>>
    decreases n,
{
    if n <= 0 {
        Seq::empty()
    } else {
        layers_uploads(layers, n - 1) + mixer_uploads(layers[n - 1].mixer) + ffn_uploads(
            layers[n - 1],
        )
    }
}

/// All matrices on the hot path of a model.
pub open spec fn upload_names(m: LlamaModel) -> Seq<Seq<char>> {
    layers_uploads(m.layers@, m.layers@.len() as int) + seq![m.lm_head@, m.token_embd@]
}

/// A matrix to upload.
pub struct Upload {
    pub name: String,
    pub dtype: GgmlType,
    /// The length of a row.
    pub in_dim: usize,
    /// The number of rows.
    pub out_dim: usize,
    /// Where its bytes begin in the tensor data.
    pub offset: usize,
    /// The number of its bytes.
    pub size: usize,
}

/// A matrix to upload as mathematics sees it.
#[verifier::ext_equal]
pub struct UploadView {
    pub name: Seq<char>,
    pub dtype: GgmlType,
    pub in_dim: nat,
    pub out_dim: nat,
    pub offset: nat,
    pub size: nat,
}

impl View for Upload {
    type V = UploadView;

    open spec fn view(&self) -> UploadView {
        UploadView {
            name: self.name@,
            dtype: self.dtype,
            in_dim: self.in_dim as nat,
            out_dim: self.out_dim as nat,
            offset: self.offset as nat,
            size: self.size as nat,
        }
    }
}

/// What uploads are, one by one.
pub open spec fn upload_views(v: Seq<Upload>) -> Seq<UploadView> {
    Seq::new(v.len(), |i: int| v[i]@)
}

/// Whether a name is that of a tensor that the GPU can multiply with.
pub open spec fn uploadable(tensors: Seq<TensorView>, name: Seq<char>) -> bool {
    last_named(tensors, name) matches Some(t) && gpu_dequantizable(t.ggml_type)
}

/// Whether the bytes of a tensor can be cut out of `len` bytes of tensor data and
/// divided into rows.
pub open spec fn cut_defined(t: TensorView, len: nat) -> bool {
    &&& t.sized()
    &&& t.byte_offset + t.spec_byte_size() <= len
    &&& t.dims.len() > 0
    &&& t.dims[0] <= usize::MAX
    &&& 0 < t.row_bytes() <= usize::MAX
}

/// The upload of a tensor.
pub open spec fn upload_of(t: TensorView, name: Seq<char>) -> UploadView {
    UploadView {
        name,
        dtype: t.ggml_type,
        in_dim: t.row_len(),
        out_dim: t.spec_byte_size() / t.row_bytes(),
        offset: t.byte_offset as nat,
        size: t.spec_byte_size(),
    }
}

/// The uploads for names: those of the tensors that the GPU can multiply with.
pub open spec fn uploads_for(tensors: Seq<TensorView>, names: Seq<Seq<char>>) -> Seq<UploadView>
    decreases names.len(),
{
    if names.len() == 0 {
        Seq::empty()
    } else {
        let rest = uploads_for(tensors, names.drop_last());
        if uploadable(tensors, names.last()) {
            rest.push(upload_of(last_named(tensors, names.last())->0, names.last()))
        } else {
            rest
        }
    }
}

/// Whether every upload for names is defined.
pub open spec fn uploads_defined(
    tensors: Seq<TensorView>,
    len: nat,
    names: Seq<Seq<char>>,
) -> bool {
    forall|i: int|
        0 <= i < names.len() && uploadable(tensors, #[trigger] names[i]) ==> cut_defined(
            last_named(tensors, names[i])->0,
            len,
        )
}

/// The upload of a tensor, or nothing where its bytes cannot be cut out.
fn cut(t: &TensorInfo, name: &String, len: usize) -> (r: Option<Upload>)
    ensures
        match r {
            Some(u) => cut_defined(t@, len as nat) && u@ == upload_of(t@, name@),
            None => !cut_defined(t@, len as nat),
        },
{
    let size: usize = match t.checked_byte_size() {
        Some(n) => n,
        None => {
            return None;
        },
    };
    if t.byte_offset > len as u64 || size as u64 > len as u64 - t.byte_offset {
        return None;
    }
    if t.dims.len() == 0 || t.dims[0] > usize::MAX as u64 {
        return None;
    }
    let in_dim: usize = t.dims[0] as usize;
    let row_bytes: usize = match t.ggml_type.checked_type_size(in_dim) {
        Some(n) => n,
        None => {
            return None;
        },
    };
    if row_bytes == 0 {
        return None;
    }
    Some(
        Upload {
            name: name.clone(),
            dtype: t.ggml_type,
            in_dim,
            out_dim: size / row_bytes,
            offset: t.byte_offset as usize,
            size,
        },
    )
}

fn push_name(names: &mut Vec<String>, name: &String)
    ensures
        string_views(final(names)@) == string_views(old(names)@).push(name@),
{
    names.push(name.clone());
    proof {
        assert(string_views(names@) =~= string_views(old(names)@).push(name@));
    }
}

fn push_mixer_uploads(names: &mut Vec<String>, m: &Mixer)
    ensures
        string_views(final(names)@) == string_views(old(names)@) + mixer_uploads(*m),
{
    match m {
        Mixer::Attention(a) => {
            push_name(names, &a.wq);
            push_name(names, &a.wk);
            push_name(names, &a.wv);
            push_name(names, &a.wo);
        },
        Mixer::ShortConv(c) => {
            push_name(names, &c.in_proj);
            push_name(names, &c.out_proj);
        },
        Mixer::GatedAttention(a) => {
            push_name(names, &a.wqg);
            push_name(names, &a.wk);
            push_name(names, &a.wv);
            push_name(names, &a.wo);
        },
        Mixer::GatedDeltaNet(g) => {
            push_name(names, &g.wqkv);
            push_name(names, &g.wgate);
            push_name(names, &g.ssm_beta);
            push_name(names, &g.ssm_alpha);
            push_name(names, &g.ssm_out);
        },
    }
    proof {
        assert(string_views(names@) =~= string_views(old(names)@) + mixer_uploads(*m));
    }
}

// ── Norms of queries and keys ───────────────────────────────────────────────

/// The name where there is one.
pub open spec fn optional(name: Option<String>) -> Seq<Seq<char>> {
    match name {
        Some(n) => seq![n@],
        None => Seq::empty(),
    }
}

/// The norms of queries and keys of a mixer.
pub open spec fn mixer_qk_norms(m: Mixer) -> Seq<Seq<char>> {
    match m {
        Mixer::Attention(a) => optional(a.q_norm) + optional(a.k_norm),
        Mixer::GatedAttention(a) => seq![a.q_norm@, a.k_norm@],
        _ => Seq::empty(),
    }
}

/// The norms of queries and keys of the first `n` layers.
pub open spec fn qk_norm_names(layers: Seq<LayerWeights>, n: int) -> Seq<Seq<char>>
    decreases n,
{
    if n <= 0 {
        Seq::empty()
    } else {
        qk_norm_names(layers, n - 1) + mixer_qk_norms(layers[n - 1].mixer)
    }
}

// ── Residency ───────────────────────────────────────────────────────────────

/// What the GPU holds of a model, each by a number that stands for its handle.
pub struct Residency {
    pub tensors: StringHashMap<usize>,
    pub qk_norms: StringHashMap<usize>,
    /// The vectors of layers: norms, conv kernels and recurrent state.
    pub vectors: LayerVectors,
    /// The norm before the last projection.
    pub output_norm: Option<usize>,
}

impl Residency {
    /// The matrices that are there.
    pub open spec fn spec_tensors(&self) -> Map<Seq<char>, usize> {
        self.tensors@
    }

    /// The norms of queries and keys that are there.
    pub open spec fn spec_qk_norms(&self) -> Map<Seq<char>, usize> {
        self.qk_norms@
    }

    /// Nothing is there yet.
    pub fn new() -> (r: Self)
        ensures
            r.spec_tensors() == Map::<Seq<char>, usize>::empty(),
            r.spec_qk_norms() == Map::<Seq<char>, usize>::empty(),
            forall|kind: LayerVector| #[trigger]
                r.vectors.held(kind) == Map::<usize, usize>::empty(),
            r.output_norm is None,
    {
        Residency {
            tensors: StringHashMap::new(),
            qk_norms: StringHashMap::new(),
            vectors: LayerVectors::new(),
            output_norm: None,
        }
    }

    /// A matrix was uploaded.
    pub fn add_tensor(&mut self, name: String, handle: usize)
        ensures
            final(self).spec_tensors() == old(self).spec_tensors().insert(name@, handle),
            final(self).spec_qk_norms() == old(self).spec_qk_norms(),
            final(self).vectors == old(self).vectors,
            final(self).output_norm == old(self).output_norm,
    {
        self.tensors.insert(name, handle);
    }

    /// A norm of queries or keys was uploaded.
    pub fn add_qk_norm(&mut self, name: String, handle: usize)
        ensures
            final(self).spec_qk_norms() == old(self).spec_qk_norms().insert(name@, handle),
            final(self).spec_tensors() == old(self).spec_tensors(),
            final(self).vectors == old(self).vectors,
            final(self).output_norm == old(self).output_norm,
    {
        self.qk_norms.insert(name, handle);
    }

    /// The handle of a matrix.
    pub fn tensor(&self, name: &str) -> (r: Option<usize>)
        ensures
            r == if self.spec_tensors().contains_key(name@) {
                Some(self.spec_tensors()[name@])
            } else {
                None
            },
    {
        match self.tensors.get(name) {
            Some(h) => Some(*h),
            None => None,
        }
    }

    /// The handle of a norm of queries or keys.
    pub fn qk_norm(&self, name: &str) -> (r: Option<usize>)
        ensures
            r == if self.spec_qk_norms().contains_key(name@) {
                Some(self.spec_qk_norms()[name@])
            } else {
                None
            },
    {
        match self.qk_norms.get(name) {
            Some(h) => Some(*h),
            None => None,
        }
    }
}

/// Whether everything that `names` name is there.
pub open spec fn all_there(held: Map<Seq<char>, usize>, names: Seq<Seq<char>>) -> bool {
    forall|i: int| 0 <= i < names.len() ==> held.contains_key(#[trigger] names[i])
}

/// Whether a layer can run on the GPU: its matrices, its norms of queries and keys, and
/// its vectors are there.
pub open spec fn layer_ready(m: LlamaModel, r: Residency, i: int) -> bool {
    let l = m.layers@[i];
    &&& all_there(r.spec_tensors(), mixer_uploads(l.mixer))
    &&& all_there(r.spec_qk_norms(), mixer_qk_norms(l.mixer))
    &&& all_there(r.spec_tensors(), ffn_uploads(l))
    &&& vectors_there(r.vectors, l.mixer.spec_kind(), i as usize)
}

/// Whether a whole forward pass can run on the GPU.
pub open spec fn resident_ready(m: LlamaModel, r: Residency) -> bool {
    &&& m.backend matches Some(AnyBackend::Wgpu(_))
    &&& r.output_norm is Some
    &&& r.spec_tensors().contains_key(m.lm_head@)
    &&& forall|i: int| 0 <= i < m.layers@.len() ==> #[trigger] layer_ready(m, r, i)
}

fn has_optional(r: &Residency, name: &Option<String>) -> (there: bool)
    ensures
        there == all_there(r.spec_qk_norms(), optional(*name)),
{
    match name {
        Some(n) => {
            let there = r.qk_norm(n.as_str()).is_some();
            proof {
                assert(optional(*name)[0] == n@);
            }
            there
        },
        None => true,
    }
}

fn has_matrix(r: &Residency, name: &String) -> (there: bool)
    ensures
        there == r.spec_tensors().contains_key(name@),
{
    r.tensor(name.as_str()).is_some()
}

fn has_norm(r: &Residency, name: &String) -> (there: bool)
    ensures
        there == r.spec_qk_norms().contains_key(name@),
{
    r.qk_norm(name.as_str()).is_some()
}

fn mixer_ready(r: &Residency, m: &Mixer) -> (ready: bool)
    ensures
        ready == (all_there(r.spec_tensors(), mixer_uploads(*m)) && all_there(
            r.spec_qk_norms(),
            mixer_qk_norms(*m),
        )),
{
    let ghost names = mixer_uploads(*m);
    let ghost norms = mixer_qk_norms(*m);
    match m {
        Mixer::Attention(a) => {
            let matrices: bool = has_matrix(r, &a.wq) && has_matrix(r, &a.wk) && has_matrix(
                r,
                &a.wv,
            ) && has_matrix(r, &a.wo);
            let q_there: bool = has_optional(r, &a.q_norm);
            let k_there: bool = has_optional(r, &a.k_norm);
            proof {
                assert(names[0] == a.wq@ && names[1] == a.wk@ && names[2] == a.wv@ && names[3]
                    == a.wo@);
                let q = optional(a.q_norm);
                let k = optional(a.k_norm);
                assert forall|i: int| 0 <= i < q.len() implies #[trigger] norms[i] == q[i] by {}
                assert forall|i: int| 0 <= i < k.len() implies #[trigger] norms[q.len() + i]
                    == k[i] by {}
                if q_there && k_there {
                    assert forall|i: int| 0 <= i < norms.len() implies r.spec_qk_norms().contains_key(
                        #[trigger] norms[i],
                    ) by {
                        if i < q.len() {
                            assert(norms[i] == q[i]);
                        } else {
                            assert(norms[i] == k[i - q.len()]);
                        }
                    }
                }
                if all_there(r.spec_qk_norms(), norms) {
                    assert forall|i: int| 0 <= i < q.len() implies r.spec_qk_norms().contains_key(
                        #[trigger] q[i],
                    ) by {
                        assert(norms[i] == q[i]);
                    }
                    assert forall|i: int| 0 <= i < k.len() implies r.spec_qk_norms().contains_key(
                        #[trigger] k[i],
                    ) by {
                        assert(norms[q.len() + i] == k[i]);
                    }
                }
            }
            matrices && q_there && k_there
        },
        Mixer::ShortConv(c) => {
            proof {
                assert(names[0] == c.in_proj@ && names[1] == c.out_proj@);
            }
            has_matrix(r, &c.in_proj) && has_matrix(r, &c.out_proj)
        },
        Mixer::GatedAttention(a) => {
            proof {
                assert(names[0] == a.wqg@ && names[1] == a.wk@ && names[2] == a.wv@ && names[3]
                    == a.wo@);
                assert(norms[0] == a.q_norm@ && norms[1] == a.k_norm@);
            }
            has_matrix(r, &a.wqg) && has_matrix(r, &a.wk) && has_matrix(r, &a.wv) && has_matrix(
                r,
                &a.wo,
            ) && has_norm(r, &a.q_norm) && has_norm(r, &a.k_norm)
        },
        Mixer::GatedDeltaNet(g) => {
            proof {
                assert(names[0] == g.wqkv@ && names[1] == g.wgate@ && names[2] == g.ssm_beta@
                    && names[3] == g.ssm_alpha@ && names[4] == g.ssm_out@);
            }
            has_matrix(r, &g.wqkv) && has_matrix(r, &g.wgate) && has_matrix(r, &g.ssm_beta)
                && has_matrix(r, &g.ssm_alpha) && has_matrix(r, &g.ssm_out)
        },
    }
}

impl<'a> LlamaModel<'a> {
    /// The names of all matrices on the hot path, in order.
    pub fn upload_list(&self) -> (names: Vec<String>)
        ensures
            string_views(names@) == upload_names(*self),
    {
        let mut names: Vec<String> = Vec::new();
        let mut i: usize = 0;
        proof {
            assert(string_views(names@) =~= layers_uploads(self.layers@, 0));
        }
        while i < self.layers.len()
            invariant
                i <= self.layers@.len(),
                string_views(names@) == layers_uploads(self.layers@, i as int),
            decreases self.layers@.len() - i,
        {
            let l = &self.layers[i];
            let ghost before = string_views(names@);
            push_mixer_uploads(&mut names, &l.mixer);
            push_name(&mut names, &l.ffn_gate);
            push_name(&mut names, &l.ffn_up);
            push_name(&mut names, &l.ffn_down);
            proof {
                assert(string_views(names@) =~= before + mixer_uploads(l.mixer) + ffn_uploads(*l));
            }
            i += 1;
        }
        push_name(&mut names, &self.lm_head);
        push_name(&mut names, &self.token_embd);
        proof {
            assert(string_views(names@) =~= upload_names(*self));
        }
        names
    }

    /// The matrices to upload before the first forward pass: those on the hot
    /// path that the GPU can multiply with. Nothing where the bytes of one cannot
    /// be cut out of the tensor data.
    pub fn uploads(&self) -> (r: Option<Vec<Upload>>)
        requires
            self.weights.wf(),
        ensures
            ({
                let ts = self.weights.tensor_list();
                let len = self.weights.bytes().len();
                match r {
                    Some(v) => {
                        &&& uploads_defined(ts, len, upload_names(*self))
                        &&& upload_views(v@) == uploads_for(ts, upload_names(*self))
                    },
                    None => !uploads_defined(ts, len, upload_names(*self)),
                }
            }),
    {
        let ghost ts = self.weights.tensor_list();
        let ghost len = self.weights.bytes().len();
        let names = self.upload_list();
        let ghost all = string_views(names@);
        let total: usize = self.weights.data_len();
        let mut uploads: Vec<Upload> = Vec::new();
        let mut i: usize = 0;
        proof {
            assert(upload_views(uploads@) =~= uploads_for(ts, all.take(0)));
        }
        while i < names.len()
            invariant
                i <= names@.len(),
                self.weights.wf(),
                ts == self.weights.tensor_list(),
                len == self.weights.bytes().len(),
                total == len,
                all == string_views(names@),
                all == upload_names(*self),
                upload_views(uploads@) == uploads_for(ts, all.take(i as int)),
                forall|j: int|
                    0 <= j < i && uploadable(ts, #[trigger] all[j]) ==> cut_defined(
                        last_named(ts, all[j])->0,
                        len,
                    ),
            decreases names@.len() - i,
        {
            proof {
                assert(all.take(i + 1).drop_last() =~= all.take(i as int));
                assert(all.take(i + 1).last() == names@[i as int]@);
                assert(all[i as int] == names@[i as int]@);
            }
            if let Some(t) = self.weights.get(names[i].as_str()) {
                if has_gpu_kernel(t.ggml_type) {
                    match cut(t, &names[i], total) {
                        Some(u) => {
                            let ghost before = uploads@;
                            uploads.push(u);
                            proof {
                                assert(upload_views(uploads@) =~= upload_views(before).push(u@));
                            }
                        },
                        None => {
                            return None;
                        },
                    }
                }
            }
            i += 1;
        }
        proof {
            assert(all.take(i as int) =~= all);
        }
        Some(uploads)
    }

    /// The names of the norms of queries and keys, in order.
    pub fn qk_norm_list(&self) -> (names: Vec<String>)
        ensures
            string_views(names@) == qk_norm_names(self.layers@, self.layers@.len() as int),
    {
        let mut names: Vec<String> = Vec::new();
        let mut i: usize = 0;
        proof {
            assert(string_views(names@) =~= qk_norm_names(self.layers@, 0));
        }
        while i < self.layers.len()
            invariant
                i <= self.layers@.len(),
                string_views(names@) == qk_norm_names(self.layers@, i as int),
            decreases self.layers@.len() - i,
        {
            let l = &self.layers[i];
            let ghost before = string_views(names@);
            match &l.mixer {
                Mixer::Attention(a) => {
                    if let Some(n) = &a.q_norm {
                        push_name(&mut names, n);
                    }
                    if let Some(n) = &a.k_norm {
                        push_name(&mut names, n);
                    }
                },
                Mixer::GatedAttention(a) => {
                    push_name(&mut names, &a.q_norm);
                    push_name(&mut names, &a.k_norm);
                },
                _ => {},
            }
            proof {
                assert(string_views(names@) =~= before + mixer_qk_norms(l.mixer));
            }
            i += 1;
        }
        names
    }

    /// Whether every tensor this model needs (all layer weights, all norm vectors,
    /// lm_head) is GPU-resident — the preconditions for keeping the residual
    /// stream on the GPU for the whole forward pass.
    pub fn gpu_resident_ready(&self, r: &Residency) -> (ready: bool)
        ensures
            ready == resident_ready(*self, *r),
    {
        match self.backend {
            Some(AnyBackend::Wgpu(_)) => {},
            _ => {
                return false;
            },
        }
        if r.output_norm.is_none() || !has_matrix(r, &self.lm_head) {
            return false;
        }
        let mut i: usize = 0;
        while i < self.layers.len()
            invariant
                i <= self.layers@.len(),
                forall|j: int| 0 <= j < i ==> #[trigger] layer_ready(*self, *r, j),
            decreases self.layers@.len() - i,
        {
            let l = &self.layers[i];
            let vectors_there: bool = are_vectors_there(&r.vectors, l.mixer.kind(), i);
            let mixer_there: bool = mixer_ready(r, &l.mixer);
            let ffn_there: bool = has_matrix(r, &l.ffn_gate) && has_matrix(r, &l.ffn_up)
                && has_matrix(r, &l.ffn_down);
            proof {
                let names = ffn_uploads(*l);
                assert(names[0] == l.ffn_gate@ && names[1] == l.ffn_up@ && names[2]
                    == l.ffn_down@);
                assert(ffn_there == all_there(r.spec_tensors(), names));
                assert((mixer_there && ffn_there && vectors_there) == layer_ready(
                    *self,
                    *r,
                    i as int,
                ));
            }
            if !mixer_there || !ffn_there || !vectors_there {
                return false;
            }
            i += 1;
        }
        true
    }
}

/// A model whose hot path is all there can run on the GPU, where it has a GPU
/// backend and dimensions for its Gated DeltaNet layers.
pub proof fn law_ready_when_all_is_uploaded(m: LlamaModel, r: Residency)
    requires
        m.backend matches Some(AnyBackend::Wgpu(_)),
        r.output_norm is Some,
        all_held(r.vectors, vector_uploads(m)),
        all_there(r.spec_tensors(), upload_names(m)),
        all_there(r.spec_qk_norms(), qk_norm_names(m.layers@, m.layers@.len() as int)),
        forall|i: int|
            0 <= i < m.layers@.len() && (#[trigger] m.layers@[i]).mixer.spec_kind()
                == MixerKind::GatedDeltaNet ==> m.gdn_dims is Some,
    ensures
        resident_ready(m, r),
{
    let n = m.layers@.len() as int;
    let names = upload_names(m);
    let front = layers_uploads(m.layers@, n);
    assert forall|i: int| 0 <= i < front.len() implies r.spec_tensors().contains_key(
        #[trigger] front[i],
    ) by {
        assert(names[i] == front[i]);
    }
    assert(names[front.len() as int] == m.lm_head@);
    lemma_layers_ready(m, r, n);
}

proof fn lemma_layers_ready(m: LlamaModel, r: Residency, n: int)
    requires
        0 <= n <= m.layers@.len(),
        forall|i: int|
            0 <= i < m.layers@.len() && (#[trigger] m.layers@[i]).mixer.spec_kind()
                == MixerKind::GatedDeltaNet ==> m.gdn_dims is Some,
        all_held(r.vectors, vector_uploads(m)),
        all_there(r.spec_tensors(), layers_uploads(m.layers@, n)),
        all_there(r.spec_qk_norms(), qk_norm_names(m.layers@, n)),
    ensures
        forall|i: int| 0 <= i < n ==> #[trigger] layer_ready(m, r, i),
    decreases n,
{
    if n > 0 {
        let l = m.layers@[n - 1];
        let all = layers_uploads(m.layers@, n);
        let before = layers_uploads(m.layers@, n - 1);
        let mx = mixer_uploads(l.mixer);
        let ffn = ffn_uploads(l);
        assert forall|i: int| 0 <= i < before.len() implies r.spec_tensors().contains_key(
            #[trigger] before[i],
        ) by {
            assert(all[i] == before[i]);
        }
        assert forall|i: int| 0 <= i < mx.len() implies r.spec_tensors().contains_key(
            #[trigger] mx[i],
        ) by {
            assert(all[before.len() + i] == mx[i]);
        }
        assert forall|i: int| 0 <= i < ffn.len() implies r.spec_tensors().contains_key(
            #[trigger] ffn[i],
        ) by {
            assert(all[before.len() + mx.len() + i] == ffn[i]);
        }
        let qk = qk_norm_names(m.layers@, n);
        let qk_before = qk_norm_names(m.layers@, n - 1);
        let norms = mixer_qk_norms(l.mixer);
        assert forall|i: int| 0 <= i < qk_before.len() implies r.spec_qk_norms().contains_key(
            #[trigger] qk_before[i],
        ) by {
            assert(qk[i] == qk_before[i]);
        }
        assert forall|i: int| 0 <= i < norms.len() implies r.spec_qk_norms().contains_key(
            #[trigger] norms[i],
        ) by {
            assert(qk[qk_before.len() + i] == norms[i]);
        }
        law_uploaded_vectors_are_there(m, r.vectors, n - 1);
        lemma_layers_ready(m, r, n - 1);
    }
}

// ── The K/V cache of the GPU ────────────────────────────────────────────────

/// What has to be allocated for the K/V cache of the GPU.
#[derive(Debug)]
pub enum KvPlan {
    /// What is there fits.
    Keep,
    /// A cache of `kv_len` elements for keys and one for values for each of
    /// `layers`, and scratch of `scores_len` elements.
    Allocate { layers: Vec<usize>, kv_len: usize, scores_len: usize },
}

/// Whether a layer has a K/V cache.
pub open spec fn attends(l: LayerWeights) -> bool {
    l.mixer.spec_kind() == MixerKind::Attention || l.mixer.spec_kind() == MixerKind::GatedAttention
}

/// Those of the first `n` layers that have a K/V cache.
pub open spec fn attending(layers: Seq<LayerWeights>, n: int) -> Seq<usize>
    decreases n,
{
    if n <= 0 {
        Seq::empty()
    } else if attends(layers[n - 1]) {
        attending(layers, n - 1).push((n - 1) as usize)
    } else {
        attending(layers, n - 1)
    }
}

/// Whether the cache that was allocated for `held` positions can be kept for `max`
/// positions: every layer that attends has one, and the length is the same.
pub open spec fn cache_fits(
    layers: Seq<LayerWeights>,
    held: usize,
    present: Seq<bool>,
    max: usize,
) -> bool {
    &&& held == max
    &&& forall|i: int|
        0 <= i < layers.len() && attends(#[trigger] layers[i]) ==> i < present.len() && present[i]
}

impl<'a> LlamaModel<'a> {
    /// What to allocate for a K/V cache of `max_seq_len` positions, where one for
    /// `held` positions is there for the layers in `present`. Nothing where a
    /// length does not fit the machine.
    pub fn gpu_kv_plan(&self, held: usize, present: &[bool], max_seq_len: usize) -> (r: Option<
        KvPlan,
    >)
        ensures
            ({
                let kv_len = max_seq_len as nat * (self.cfg.head_count_kv as nat
                    * self.cfg.head_dim as nat);
                let scores_len = self.cfg.head_count as nat * max_seq_len as nat;
                if cache_fits(self.layers@, held, present@, max_seq_len) {
                    r matches Some(KvPlan::Keep)
                } else if kv_len <= usize::MAX && scores_len <= usize::MAX {
                    r matches Some(KvPlan::Allocate { layers, kv_len: k, scores_len: s })
                        && layers@ == attending(self.layers@, self.layers@.len() as int) && k
                        == kv_len && s == scores_len
                } else {
                    r is None
                }
            }),
    {
        let mut fits: bool = held == max_seq_len;
        let mut layers: Vec<usize> = Vec::new();
        let mut i: usize = 0;
        while i < self.layers.len()
            invariant
                i <= self.layers@.len(),
                fits == (held == max_seq_len && forall|j: int|
                    0 <= j < i && attends(#[trigger] self.layers@[j]) ==> j < present@.len()
                        && present@[j]),
                layers@ == attending(self.layers@, i as int),
            decreases self.layers@.len() - i,
        {
            let attending_layer: bool = match self.layers[i].mixer.kind() {
                MixerKind::Attention => true,
                MixerKind::GatedAttention => true,
                _ => false,
            };
            proof {
                assert(attending_layer == attends(self.layers@[i as int]));
            }
            if attending_layer {
                layers.push(i);
                if i >= present.len() || !present[i] {
                    fits = false;
                }
            }
            i += 1;
        }
        if fits {
            return Some(KvPlan::Keep);
        }
        let kv_len: usize = match fitting_product(
            self.cfg.head_count_kv,
            self.cfg.head_dim,
            max_seq_len,
        ) {
            Some(n) => n,
            None => {
                return None;
            },
        };
        proof {
            let heads = self.cfg.head_count as nat;
            let max = max_seq_len as nat;
            assert(heads * max == max * (heads * 1)) by (nonlinear_arith);
        }
        let scores_len: usize = match fitting_product(self.cfg.head_count, 1, max_seq_len) {
            Some(n) => n,
            None => {
                return None;
            },
        };
        Some(KvPlan::Allocate { layers, kv_len, scores_len })
    }
}

/// `c * (a * b)` where it fits the machine.
fn fitting_product(a: u64, b: u64, c: usize) -> (r: Option<usize>)
    ensures
        match r {
            Some(n) => n == c as nat * (a as nat * b as nat),
            None => c as nat * (a as nat * b as nat) > usize::MAX,
        },
{
    proof {
        assert(0 * (a as nat * b as nat) == 0);
        assert(0 <= a * b <= u64::MAX * u64::MAX) by (nonlinear_arith)
            requires
                0 <= a <= u64::MAX,
                0 <= b <= u64::MAX,
        ;
    }
    if c == 0 {
        return Some(0);
    }
    let ab: u128 = a as u128 * b as u128;
    proof {
        assert(ab <= c * ab) by (nonlinear_arith)
            requires
                1 <= c,
                0 <= ab,
        ;
    }
    if ab > usize::MAX as u128 {
        return None;
    }
    let ab_small: usize = ab as usize;
    proof {
        assert(0 <= c * ab_small) by (nonlinear_arith);
    }
    c.checked_mul(ab_small)
}

// ── Where a product is computed ─────────────────────────────────────────────

/// Where the product of a matrix with a vector is computed.
#[derive(Debug, Clone, Copy, PartialEq, Eq, Structural)]
pub enum Route {
    /// On the GPU, with the matrix that is there.
    Resident(usize),
    /// On the GPU, with a matrix that is uploaded for this product.
    Upload,
    /// On the CPU.
    Cpu,
}

/// The route for a matrix of type `t`: on the GPU where there is one that holds
/// the matrix or can multiply with it, and else on the CPU.
pub open spec fn route_of(backend: Option<AnyBackend>, held: Option<usize>, t: GgmlType) -> Route {
    match backend {
        Some(AnyBackend::Wgpu(_)) => match held {
            Some(h) => Route::Resident(h),
            None => if gpu_dequantizable(t) {
                Route::Upload
            } else {
                Route::Cpu
            },
        },
        _ => Route::Cpu,
    }
}

/// What the GPU holds of a name.
pub open spec fn held_of(r: Residency, name: Seq<char>) -> Option<usize> {
    if r.spec_tensors().contains_key(name) {
        Some(r.spec_tensors()[name])
    } else {
        None
    }
}

impl<'a> LlamaModel<'a> {
    /// Where the product with a matrix is computed.
    pub fn matmul_route(&self, r: &Residency, name: &str) -> (route: Result<Route>)
        requires
            self.weights.wf(),
        ensures
            match last_named(self.weights.tensor_list(), name@) {
                None => match (self.backend, held_of(*r, name@)) {
                    (Some(AnyBackend::Wgpu(_)), Some(h)) => route == Ok::<Route, GgufError>(
                        Route::Resident(h),
                    ),
                    _ => route matches Err(e) && e.is_missing(tensor_name(name@)),
                },
                Some(t) => route == Ok::<Route, GgufError>(
                    route_of(self.backend, held_of(*r, name@), t.ggml_type),
                ),
            },
    {
        let gpu: bool = match self.backend {
            Some(AnyBackend::Wgpu(_)) => true,
            _ => false,
        };
        // Try pre-uploaded GPU tensor first (already resident, no re-upload)
        if gpu {
            if let Some(h) = r.tensor(name) {
                return Ok(Route::Resident(h));
            }
        }
        let t = match self.weights.get(name) {
            Some(t) => t,
            None => {
                return Err(missing_tensor(name));
            },
        };
        if gpu && has_gpu_kernel(t.ggml_type) {
            Ok(Route::Upload)
        } else {
            Ok(Route::Cpu)
        }
    }

    /// The handles of matrices that all multiply the same vector, where the GPU
    /// holds every one of them: then their products take one round-trip.
    pub fn batch_route(&self, r: &Residency, names: &[&str]) -> (handles: Option<Vec<usize>>)
        ensures
            ({
                let batched = self.backend matches Some(AnyBackend::Wgpu(_)) && forall|i: int|
                    0 <= i < names@.len() ==> held_of(*r, (#[trigger] names@[i])@) is Some;
                match handles {
                    Some(v) => {
                        &&& batched
                        &&& v@.len() == names@.len()
                        &&& forall|i: int|
                            0 <= i < names@.len() ==> held_of(*r, names@[i]@) == Some(
                                #[trigger] v@[i],
                            )
                    },
                    None => !batched,
                }
            }),
    {
        match self.backend {
            Some(AnyBackend::Wgpu(_)) => {},
            _ => {
                return None;
            },
        }
        let mut handles: Vec<usize> = Vec::new();
        let mut i: usize = 0;
        while i < names.len()
            invariant
                i <= names@.len(),
                handles@.len() == i,
                forall|j: int|
                    0 <= j < i ==> held_of(*r, (#[trigger] names@[j])@) == Some(handles@[j]),
            decreases names@.len() - i,
        {
            match r.tensor(names[i]) {
                Some(h) => {
                    handles.push(h);
                },
                None => {
                    proof {
                        assert(held_of(*r, names@[i as int]@) is None);
                    }
                    return None;
                },
            }
            i += 1;
        }
        proof {
            assert forall|j: int| 0 <= j < names@.len() implies held_of(*r, names@[j]@) == Some(
                #[trigger] handles@[j],
            ) by {
                assert(held_of(*r, (names@[j])@) == Some(handles@[j]));
            }
        }
        Some(handles)
    }
}

} // verus!
