//! The forward pass as a sequence of operations: one after the other as the CPU
//! runs them, and grouped into launches as the GPU runs them.

use vstd::prelude::*;

use crate::model::llama::types::{LayerWeights, Mixer, MixerKind};

verus! {

/// The vectors that a forward pass works on, and the state that layers keep from
/// one pass to the next.
#[derive(Debug, Clone, Copy, PartialEq, Eq, Hash, Structural)]
pub enum Buffer {
    X,
    Xn,
    Q,
    K,
    V,
    AttnOut,
    Proj,
    Gate,
    Up,
    FfnAct,
    Logits,
    Bcx,
    Bx,
    ConvOut,
    QgRaw,
    QgGate,
    GdnQkv,
    GdnConv,
    GdnZ,
    GdnBeta,
    GdnAlpha,
    GdnOut,
    /// The K/V cache of a layer.
    Cache(usize),
    /// The conv history of a short-conv layer.
    ConvHistory(usize),
    /// The conv history of a Gated DeltaNet layer.
    GdnHistory(usize),
    /// The recurrent state of a Gated DeltaNet layer.
    GdnState(usize),
}

/// The norms of the residual stream.
#[derive(Debug, Clone, Copy, PartialEq, Eq, Structural)]
pub enum NormRef {
    /// Before the mixer of a layer.
    Attn(usize),
    /// Before the feed-forward block of a layer.
    Ffn(usize),
    /// Before the last projection.
    Output,
}

/// What a matrix of a layer is for.
#[derive(Debug, Clone, Copy, PartialEq, Eq, Structural)]
pub enum Role {
    Wq,
    Wk,
    Wv,
    Wo,
    InProj,
    OutProj,
    Wqkv,
    Wgate,
    SsmBeta,
    SsmAlpha,
    SsmOut,
    FfnGate,
    FfnUp,
    FfnDown,
}

/// The matrices of a model.
#[derive(Debug, Clone, Copy, PartialEq, Eq, Structural)]
pub enum Matrix {
    Layer(usize, Role),
    LmHead,
}

/// One operation of a forward pass.
#[derive(Debug, Clone, Copy, PartialEq, Eq, Structural)]
pub enum Op {
    /// Embedding lookup → residual stream.
    Embed,
    /// RMS norm of the residual stream.
    Norm(NormRef),
    /// Matrix-vector product.
    MatMul(Matrix, Buffer, Buffer),
    /// Per-head RMS norm of the queries of a layer.
    NormQ(usize),
    /// Per-head RMS norm of the keys of a layer.
    NormK(usize),
    /// Rotary embedding of the queries: of the whole head, or of a part of it.
    RotateQ(bool),
    /// Rotary embedding of the keys: of the whole head, or of a part of it.
    RotateK(bool),
    /// The keys and values of this position go into the cache of a layer.
    CacheWrite(usize),
    /// Attention over the cache of a layer.
    Attend(usize),
    /// The fused projection is split into queries and their gate.
    SplitQg,
    /// The attention output is gated.
    GateAttn,
    /// Gate and convolution of a short-conv layer.
    ShortConv(usize),
    /// Write gate and decay of a Gated DeltaNet layer.
    GateDecay(usize),
    /// Convolution of a Gated DeltaNet layer.
    GdnConv(usize),
    /// Normalization of queries and keys of a Gated DeltaNet layer.
    L2Norm,
    /// Delta-rule recurrence of a Gated DeltaNet layer.
    Recur(usize),
    /// Gated norm of the output of a Gated DeltaNet layer.
    GatedNorm(usize),
    /// SwiGLU combination of the two feed-forward projections of a layer.
    SiluMul(usize),
    /// The projection is added to the residual stream.
    AddResidual,
}

/// What the GPU runs at once.
#[derive(Debug, Clone, Copy, PartialEq, Eq, Structural)]
pub enum Launch {
    One(Op),
    /// Per-head norm of the queries of a layer and their rotation.
    NormRotateQ(usize, bool),
    /// Per-head norm of the keys of a layer and their rotation.
    NormRotateK(usize, bool),
    /// Residual addition and the norm that follows it.
    AddNorm(NormRef),
}

/// What the forward pass has to know of a layer.
#[derive(Debug, Clone, Copy, PartialEq, Eq, Structural)]
pub struct LayerShape {
    pub kind: MixerKind,
    /// Whether queries are normalized.
    pub q_norm: bool,
    /// Whether keys are normalized.
    pub k_norm: bool,
}

/// What the forward pass has to know of a layer.
pub open spec fn shape_of(l: LayerWeights) -> LayerShape {
    match l.mixer {
        Mixer::Attention(a) => LayerShape {
            kind: MixerKind::Attention,
            q_norm: a.q_norm is Some,
            k_norm: a.k_norm is Some,
        },
        Mixer::GatedAttention(_) => LayerShape {
            kind: MixerKind::GatedAttention,
            q_norm: true,
            k_norm: true,
        },
        Mixer::ShortConv(_) => LayerShape {
            kind: MixerKind::ShortConv,
            q_norm: false,
            k_norm: false,
        },
        Mixer::GatedDeltaNet(_) => LayerShape {
            kind: MixerKind::GatedDeltaNet,
            q_norm: false,
            k_norm: false,
        },
    }
}

/// What the forward pass has to know of the layers of a model.
pub open spec fn shapes_of(layers: Seq<LayerWeights>) -> Seq<LayerShape> {
    Seq::new(layers.len(), |i: int| shape_of(layers[i]))
}

// ── The program of the CPU ──────────────────────────────────────────────────

/// A product with a matrix of layer `i`.
pub open spec fn product_of(i: int, role: Role, from: Buffer, to: Buffer) -> Op {
    Op::MatMul(Matrix::Layer(i as usize, role), from, to)
}

/// An operation, or none.
pub open spec fn only_if(yes: bool, op: Op) -> Seq<Op> {
    if yes {
        seq![op]
    } else {
        Seq::empty()
    }
}

/// The projections of an attention layer.
pub open spec fn project(i: int, kind: MixerKind) -> Seq<Op> {
    seq![
        product_of(
            i,
            Role::Wq,
            Buffer::Xn,
            if kind == MixerKind::GatedAttention {
                Buffer::QgRaw
            } else {
                Buffer::Q
            },
        ),
        product_of(i, Role::Wk, Buffer::Xn, Buffer::K),
        product_of(i, Role::Wv, Buffer::Xn, Buffer::V),
    ] + only_if(kind == MixerKind::GatedAttention, Op::SplitQg)
}

/// The rest of an attention layer, once queries and keys are rotated.
pub open spec fn attend(i: int, kind: MixerKind) -> Seq<Op> {
    seq![Op::CacheWrite(i as usize), Op::Attend(i as usize)] + only_if(
        kind == MixerKind::GatedAttention,
        Op::GateAttn,
    ) + seq![product_of(i, Role::Wo, Buffer::AttnOut, Buffer::Proj)]
}

/// The mixer of a short-conv layer.
pub open spec fn conv_mixer(i: int) -> Seq<Op> {
    seq![
        product_of(i, Role::InProj, Buffer::Xn, Buffer::Bcx),
        Op::ShortConv(i as usize),
        product_of(i, Role::OutProj, Buffer::ConvOut, Buffer::Proj),
    ]
}

/// The mixer of a Gated DeltaNet layer.
pub open spec fn gdn_mixer(i: int) -> Seq<Op> {
    seq![
        product_of(i, Role::Wqkv, Buffer::Xn, Buffer::GdnQkv),
        product_of(i, Role::Wgate, Buffer::Xn, Buffer::GdnZ),
        product_of(i, Role::SsmBeta, Buffer::Xn, Buffer::GdnBeta),
        product_of(i, Role::SsmAlpha, Buffer::Xn, Buffer::GdnAlpha),
        Op::GateDecay(i as usize),
        Op::GdnConv(i as usize),
        Op::L2Norm,
        Op::Recur(i as usize),
        Op::GatedNorm(i as usize),
        product_of(i, Role::SsmOut, Buffer::GdnOut, Buffer::Proj),
    ]
}

/// Normalization and rotation of queries and keys: first both norms, and then
/// both rotations.
pub open spec fn norms_then_rotations(i: int, s: LayerShape) -> Seq<Op> {
    let partial = s.kind == MixerKind::GatedAttention;
    only_if(s.q_norm, Op::NormQ(i as usize)) + only_if(s.k_norm, Op::NormK(i as usize)) + seq![
        Op::RotateQ(partial),
        Op::RotateK(partial),
    ]
}

/// The mixer of layer `i`.
pub open spec fn mixer(i: int, s: LayerShape) -> Seq<Op> {
    match s.kind {
        MixerKind::ShortConv => conv_mixer(i),
        MixerKind::GatedDeltaNet => gdn_mixer(i),
        _ => project(i, s.kind) + norms_then_rotations(i, s) + attend(i, s.kind),
    }
}

/// The feed-forward block of layer `i`.
pub open spec fn feed_forward(i: int) -> Seq<Op> {
    seq![
        product_of(i, Role::FfnGate, Buffer::Xn, Buffer::Gate),
        product_of(i, Role::FfnUp, Buffer::Xn, Buffer::Up),
        Op::SiluMul(i as usize),
        product_of(i, Role::FfnDown, Buffer::FfnAct, Buffer::Proj),
    ]
}

/// Layer `i`.
pub open spec fn layer(i: int, s: LayerShape) -> Seq<Op> {
    seq![Op::Norm(NormRef::Attn(i as usize))] + mixer(i, s) + seq![
        Op::AddResidual,
        Op::Norm(NormRef::Ffn(i as usize)),
    ] + feed_forward(i) + seq![Op::AddResidual]
}

/// The first `n` layers.
pub open spec fn first_layers(shapes: Seq<LayerShape>, n: int) -> Seq<Op>
    decreases n,
{
    if n <= 0 {
        Seq::empty()
    } else {
        first_layers(shapes, n - 1) + layer(n - 1, shapes[n - 1])
    }
}

/// The last projection.
pub open spec fn head() -> Op {
    Op::MatMul(Matrix::LmHead, Buffer::Xn, Buffer::Logits)
}

/// The forward pass: embedding lookup, all layers, and the projection of the
/// normalized residual stream to the vocabulary.
pub open spec fn forward(shapes: Seq<LayerShape>) -> Seq<Op> {
    seq![Op::Embed] + first_layers(shapes, shapes.len() as int) + seq![
        Op::Norm(NormRef::Output),
        head(),
    ]
}

// ── The program of the GPU ──────────────────────────────────────────────────

/// Operations as launches of their own.
pub open spec fn ones(ops: Seq<Op>) -> Seq<Launch> {
    Seq::new(ops.len(), |i: int| Launch::One(ops[i]))
}

/// Normalization and rotation of queries and keys: both in one launch, for the
/// queries and then for the keys.
pub open spec fn fused_norms_and_rotations(i: int, s: LayerShape) -> Seq<Launch> {
    let partial = s.kind == MixerKind::GatedAttention;
    seq![
        if s.q_norm {
            Launch::NormRotateQ(i as usize, partial)
        } else {
            Launch::One(Op::RotateQ(partial))
        },
        if s.k_norm {
            Launch::NormRotateK(i as usize, partial)
        } else {
            Launch::One(Op::RotateK(partial))
        },
    ]
}

/// The mixer of layer `i` on the GPU.
pub open spec fn launched_mixer(i: int, s: LayerShape) -> Seq<Launch> {
    match s.kind {
        MixerKind::ShortConv => ones(conv_mixer(i)),
        MixerKind::GatedDeltaNet => ones(gdn_mixer(i)),
        _ => ones(project(i, s.kind)) + fused_norms_and_rotations(i, s) + ones(attend(i, s.kind)),
    }
}

/// The norm after layer `i` of `n`: that before the mixer of the next layer, or
/// the output norm.
pub open spec fn next_norm(i: int, n: int) -> NormRef {
    if i + 1 < n {
        NormRef::Attn((i + 1) as usize)
    } else {
        NormRef::Output
    }
}

/// Layer `i` of `n` on the GPU. Every residual addition is immediately followed by
/// a norm, and the two are one launch.
pub open spec fn launched_layer(i: int, s: LayerShape, n: int) -> Seq<Launch> {
    launched_mixer(i, s) + seq![Launch::AddNorm(NormRef::Ffn(i as usize))] + ones(feed_forward(i))
        + seq![Launch::AddNorm(next_norm(i, n))]
}

/// The first `k` layers on the GPU.
pub open spec fn first_launched(shapes: Seq<LayerShape>, k: int) -> Seq<Launch>
    decreases k,
{
    if k <= 0 {
        Seq::empty()
    } else {
        first_launched(shapes, k - 1) + launched_layer(
            k - 1,
            shapes[k - 1],
            shapes.len() as int,
        )
    }
}

/// The forward pass on the GPU. The very first norm (before any residual exists
/// yet) is a launch of its own.
pub open spec fn launched_forward(shapes: Seq<LayerShape>) -> Seq<Launch> {
    seq![Launch::One(Op::Embed), Launch::One(Op::Norm(NormRef::Attn(0)))] + first_launched(
        shapes,
        shapes.len() as int,
    ) + seq![Launch::One(head())]
}

/// The operations of a launch, in order.
pub open spec fn expand(l: Launch) -> Seq<Op> {
    match l {
        Launch::One(op) => seq![op],
        Launch::NormRotateQ(i, partial) => seq![Op::NormQ(i), Op::RotateQ(partial)],
        Launch::NormRotateK(i, partial) => seq![Op::NormK(i), Op::RotateK(partial)],
        Launch::AddNorm(n) => seq![Op::AddResidual, Op::Norm(n)],
    }
}

// ── What the operations read and write ──────────────────────────────────────

impl Op {
    /// What an operation reads. A norm and a product leave what lies past the end of
    /// their result as it is.
    pub open spec fn reads(self) -> Seq<Buffer> {
        match self {
            Op::Embed => Seq::empty(),
            Op::Norm(_) => seq![Buffer::X, Buffer::Xn],
            Op::MatMul(_, from, to) => seq![from, to],
            Op::NormQ(_) => seq![Buffer::Q],
            Op::NormK(_) => seq![Buffer::K],
            Op::RotateQ(_) => seq![Buffer::Q],
            Op::RotateK(_) => seq![Buffer::K],
            Op::CacheWrite(i) => seq![Buffer::K, Buffer::V, Buffer::Cache(i)],
            Op::Attend(i) => seq![Buffer::Q, Buffer::Cache(i)],
            Op::SplitQg => seq![Buffer::QgRaw],
            Op::GateAttn => seq![Buffer::AttnOut, Buffer::QgGate],
            Op::ShortConv(i) => seq![Buffer::Bcx, Buffer::ConvHistory(i)],
            Op::GateDecay(_) => seq![Buffer::GdnBeta, Buffer::GdnAlpha],
            Op::GdnConv(i) => seq![Buffer::GdnQkv, Buffer::GdnHistory(i)],
            Op::L2Norm => seq![Buffer::GdnConv],
            Op::Recur(i) => seq![
                Buffer::GdnConv,
                Buffer::GdnBeta,
                Buffer::GdnAlpha,
                Buffer::GdnState(i),
            ],
            Op::GatedNorm(_) => seq![Buffer::GdnOut, Buffer::GdnZ],
            Op::SiluMul(_) => seq![Buffer::Gate, Buffer::Up, Buffer::FfnAct],
            Op::AddResidual => seq![Buffer::X, Buffer::Proj],
        }
    }

    /// Whether an operation writes a buffer.
    pub open spec fn writes(self, b: Buffer) -> bool {
        match self {
            Op::Embed => b == Buffer::X,
            Op::Norm(_) => b == Buffer::Xn,
            Op::MatMul(_, _, to) => b == to,
            Op::NormQ(_) => b == Buffer::Q,
            Op::NormK(_) => b == Buffer::K,
            Op::RotateQ(_) => b == Buffer::Q,
            Op::RotateK(_) => b == Buffer::K,
            Op::CacheWrite(i) => b == Buffer::Cache(i),
            Op::Attend(_) => b == Buffer::AttnOut,
            Op::SplitQg => b == Buffer::Q || b == Buffer::QgGate,
            Op::GateAttn => b == Buffer::AttnOut,
            Op::ShortConv(i) => {
                b == Buffer::Bx || b == Buffer::ConvOut || b == Buffer::ConvHistory(i)
            },
            Op::GateDecay(_) => b == Buffer::GdnBeta || b == Buffer::GdnAlpha,
            Op::GdnConv(i) => b == Buffer::GdnConv || b == Buffer::GdnHistory(i),
            Op::L2Norm => b == Buffer::GdnConv,
            Op::Recur(i) => b == Buffer::GdnOut || b == Buffer::GdnState(i),
            Op::GatedNorm(_) => b == Buffer::GdnOut,
            Op::SiluMul(_) => b == Buffer::FfnAct,
            Op::AddResidual => b == Buffer::X,
        }
    }
}

/// What the buffers hold.
pub type Memory<V> = spec_fn(Buffer) -> V;

/// What the operations compute: for an operation and a buffer that it writes, the
/// new contents from those of the buffers that it reads.
pub type Meaning<V> = spec_fn(Op, Buffer, Seq<V>) -> V;

/// The memory after an operation.
pub open spec fn after<V>(f: Meaning<V>, m: Memory<V>, op: Op) -> Memory<V> {
    |b: Buffer|
        if op.writes(b) {
            f(op, b, op.reads().map_values(m))
        } else {
            m(b)
        }
}

/// The memory after a sequence of operations.
pub open spec fn run<V>(f: Meaning<V>, m: Memory<V>, ops: Seq<Op>) -> Memory<V>
    decreases ops.len(),
{
    if ops.len() == 0 {
        m
    } else {
        after(f, run(f, m, ops.drop_last()), ops.last())
    }
}

/// The memory after a sequence of launches, each of which runs its operations in
/// order.
pub open spec fn run_launches<V>(f: Meaning<V>, m: Memory<V>, launches: Seq<Launch>) -> Memory<V>
    decreases launches.len(),
{
    if launches.len() == 0 {
        m
    } else {
        run(f, run_launches(f, m, launches.drop_last()), expand(launches.last()))
    }
}

proof fn lemma_run_concat<V>(f: Meaning<V>, m: Memory<V>, a: Seq<Op>, b: Seq<Op>)
    ensures
        run(f, m, a + b) == run(f, run(f, m, a), b),
    decreases b.len(),
{
    if b.len() == 0 {
        assert(a + b =~= a);
    } else {
        lemma_run_concat(f, m, a, b.drop_last());
        assert((a + b).drop_last() =~= a + b.drop_last());
        assert((a + b).last() == b.last());
    }
}

proof fn lemma_launch_concat<V>(f: Meaning<V>, m: Memory<V>, a: Seq<Launch>, b: Seq<Launch>)
    ensures
        run_launches(f, m, a + b) == run_launches(f, run_launches(f, m, a), b),
    decreases b.len(),
{
    if b.len() == 0 {
        assert(a + b =~= a);
    } else {
        lemma_launch_concat(f, m, a, b.drop_last());
        assert((a + b).drop_last() =~= a + b.drop_last());
        assert((a + b).last() == b.last());
    }
}

proof fn lemma_run_one<V>(f: Meaning<V>, m: Memory<V>, op: Op)
    ensures
        run(f, m, seq![op]) == after(f, m, op),
{
    assert(seq![op].drop_last() =~= Seq::<Op>::empty());
    assert(run(f, m, Seq::<Op>::empty()) == m);
}

proof fn lemma_launch_one<V>(f: Meaning<V>, m: Memory<V>, l: Launch)
    ensures
        run_launches(f, m, seq![l]) == run(f, m, expand(l)),
{
    assert(seq![l].drop_last() =~= Seq::<Launch>::empty());
    assert(run_launches(f, m, Seq::<Launch>::empty()) == m);
}

proof fn lemma_ones<V>(f: Meaning<V>, m: Memory<V>, ops: Seq<Op>)
    ensures
        run_launches(f, m, ones(ops)) == run(f, m, ops),
    decreases ops.len(),
{
    if ops.len() > 0 {
        lemma_ones(f, m, ops.drop_last());
        assert(ones(ops).drop_last() =~= ones(ops.drop_last()));
        lemma_run_one(f, run(f, m, ops.drop_last()), ops.last());
    }
}

/// Two operations that do not touch what the other one writes can change places.
proof fn lemma_swap<V>(f: Meaning<V>, m: Memory<V>, a: Op, b: Op)
    requires
        forall|x: Buffer| #![trigger a.writes(x), b.writes(x)] !(a.writes(x) && b.writes(x)),
        forall|i: int| 0 <= i < a.reads().len() ==> !b.writes(#[trigger] a.reads()[i]),
        forall|i: int| 0 <= i < b.reads().len() ==> !a.writes(#[trigger] b.reads()[i]),
    ensures
        after(f, after(f, m, a), b) == after(f, after(f, m, b), a),
{
    let ma = after(f, m, a);
    let mb = after(f, m, b);
    assert(b.reads().map_values(ma) =~= b.reads().map_values(m));
    assert(a.reads().map_values(mb) =~= a.reads().map_values(m));
    assert forall|x: Buffer| #[trigger] after(f, ma, b)(x) == after(f, mb, a)(x) by {
        assert(!(a.writes(x) && b.writes(x)));
    }
    assert(after(f, ma, b) =~= after(f, mb, a));
}

proof fn lemma_fused_norms<V>(f: Meaning<V>, m: Memory<V>, i: int, s: LayerShape)
    ensures
        run_launches(f, m, fused_norms_and_rotations(i, s)) == run(
            f,
            m,
            norms_then_rotations(i, s),
        ),
{
    let partial = s.kind == MixerKind::GatedAttention;
    let nq = Op::NormQ(i as usize);
    let nk = Op::NormK(i as usize);
    let rq = Op::RotateQ(partial);
    let rk = Op::RotateK(partial);
    let launches = fused_norms_and_rotations(i, s);
    let first = seq![launches[0]];
    let second = seq![launches[1]];
    assert(launches =~= first + second);
    lemma_launch_concat(f, m, first, second);
    lemma_launch_one(f, m, launches[0]);
    let m1 = run_launches(f, m, first);
    lemma_launch_one(f, m1, launches[1]);
    let front = only_if(s.q_norm, nq);
    let m0 = run(f, m, front);
    // The queries: normalized where they are, and rotated.
    assert(expand(launches[0]) =~= front + seq![rq]);
    lemma_run_concat(f, m, front, seq![rq]);
    lemma_run_one(f, m0, rq);
    assert(m1 == after(f, m0, rq));
    if s.k_norm {
        assert(expand(launches[1]) =~= seq![nk] + seq![rk]);
        lemma_run_concat(f, m1, seq![nk], seq![rk]);
        lemma_run_one(f, m1, nk);
        lemma_run_one(f, after(f, m1, nk), rk);
        lemma_swap(f, m0, rq, nk);
        // The same with both norms first.
        assert(norms_then_rotations(i, s) =~= ((front + seq![nk]) + seq![rq]) + seq![rk]);
        lemma_run_concat(f, m, front, seq![nk]);
        lemma_run_one(f, m0, nk);
        lemma_run_concat(f, m, front + seq![nk], seq![rq]);
        lemma_run_one(f, after(f, m0, nk), rq);
        lemma_run_concat(f, m, (front + seq![nk]) + seq![rq], seq![rk]);
        lemma_run_one(f, after(f, after(f, m0, nk), rq), rk);
    } else {
        lemma_run_one(f, m1, rk);
        assert(norms_then_rotations(i, s) =~= (front + seq![rq]) + seq![rk]);
        lemma_run_concat(f, m, front + seq![rq], seq![rk]);
    }
}

proof fn lemma_launched_mixer<V>(f: Meaning<V>, m: Memory<V>, i: int, s: LayerShape)
    ensures
        run_launches(f, m, launched_mixer(i, s)) == run(f, m, mixer(i, s)),
{
    match s.kind {
        MixerKind::ShortConv => {
            lemma_ones(f, m, conv_mixer(i));
        },
        MixerKind::GatedDeltaNet => {
            lemma_ones(f, m, gdn_mixer(i));
        },
        _ => {
            let p = project(i, s.kind);
            let t = attend(i, s.kind);
            let fused = fused_norms_and_rotations(i, s);
            let plain = norms_then_rotations(i, s);
            let m1 = run(f, m, p);
            let m2 = run(f, m1, plain);
            lemma_ones(f, m, p);
            lemma_launch_concat(f, m, ones(p), fused);
            lemma_fused_norms(f, m1, i, s);
            lemma_launch_concat(f, m, ones(p) + fused, ones(t));
            lemma_ones(f, m2, t);
            lemma_run_concat(f, m, p, plain);
            lemma_run_concat(f, m, p + plain, t);
        },
    }
}

proof fn lemma_launched_layer<V>(f: Meaning<V>, m: Memory<V>, i: int, s: LayerShape, n: int)
    ensures
        run_launches(f, m, launched_layer(i, s, n)) == run(
            f,
            m,
            mixer(i, s) + seq![Op::AddResidual, Op::Norm(NormRef::Ffn(i as usize))] + feed_forward(
                i,
            ) + seq![Op::AddResidual, Op::Norm(next_norm(i, n))],
        ),
{
    let lm = launched_mixer(i, s);
    let la = seq![Launch::AddNorm(NormRef::Ffn(i as usize))];
    let lf = ones(feed_forward(i));
    let ln = seq![Launch::AddNorm(next_norm(i, n))];
    let om = mixer(i, s);
    let oa = seq![Op::AddResidual, Op::Norm(NormRef::Ffn(i as usize))];
    let of = feed_forward(i);
    let on = seq![Op::AddResidual, Op::Norm(next_norm(i, n))];
    let m1 = run(f, m, om);
    let m2 = run(f, m1, oa);
    let m3 = run(f, m2, of);
    lemma_launched_mixer(f, m, i, s);
    lemma_launch_concat(f, m, lm, la);
    lemma_launch_one(f, m1, la[0]);
    lemma_launch_concat(f, m, lm + la, lf);
    lemma_ones(f, m2, of);
    lemma_launch_concat(f, m, lm + la + lf, ln);
    lemma_launch_one(f, m3, ln[0]);
    lemma_run_concat(f, m, om, oa);
    lemma_run_concat(f, m, om + oa, of);
    lemma_run_concat(f, m, om + oa + of, on);
}

/// The norm that stands before layer `k` of `n`, or after all of them.
spec fn norm_at(k: int, n: int) -> NormRef {
    if k < n {
        NormRef::Attn(k as usize)
    } else {
        NormRef::Output
    }
}

proof fn lemma_first_launched<V>(f: Meaning<V>, m: Memory<V>, shapes: Seq<LayerShape>, k: int)
    requires
        0 <= k <= shapes.len(),
        0 < shapes.len(),
    ensures
        run_launches(f, after(f, m, Op::Norm(NormRef::Attn(0))), first_launched(shapes, k)) == run(
            f,
            m,
            first_layers(shapes, k) + seq![Op::Norm(norm_at(k, shapes.len() as int))],
        ),
    decreases k,
{
    let n = shapes.len() as int;
    let start = after(f, m, Op::Norm(NormRef::Attn(0)));
    if k == 0 {
        assert(first_layers(shapes, 0) + seq![Op::Norm(norm_at(0, n))] =~= seq![
            Op::Norm(norm_at(0, n)),
        ]);
        lemma_run_one(f, m, Op::Norm(NormRef::Attn(0)));
        assert(first_launched(shapes, 0) =~= Seq::<Launch>::empty());
    } else {
        let i = k - 1;
        let s = shapes[i];
        lemma_first_launched(f, m, shapes, i);
        let before = run(f, m, first_layers(shapes, i) + seq![Op::Norm(norm_at(i, n))]);
        lemma_launch_concat(f, start, first_launched(shapes, i), launched_layer(i, s, n));
        lemma_launched_layer(f, before, i, s, n);
        let body = mixer(i, s) + seq![
            Op::AddResidual,
            Op::Norm(NormRef::Ffn(i as usize)),
        ] + feed_forward(i) + seq![Op::AddResidual, Op::Norm(next_norm(i, n))];
        lemma_run_concat(f, m, first_layers(shapes, i) + seq![Op::Norm(norm_at(i, n))], body);
        assert(first_layers(shapes, i) + seq![Op::Norm(norm_at(i, n))] + body =~= first_layers(
            shapes,
            k,
        ) + seq![Op::Norm(norm_at(k, n))]);
    }
}

/// The pass on the GPU computes what the pass on the CPU computes, whatever the
/// operations mean: the launches, taken apart, are the same operations, up to the
/// order of two that do not touch what the other one writes.
pub proof fn law_both_passes_agree<V>(f: Meaning<V>, m: Memory<V>, shapes: Seq<LayerShape>)
    requires
        0 < shapes.len(),
    ensures
        run_launches(f, m, launched_forward(shapes)) == run(f, m, forward(shapes)),
{
    let n = shapes.len() as int;
    let embedded = after(f, m, Op::Embed);
    let prologue = seq![Launch::One(Op::Embed), Launch::One(Op::Norm(NormRef::Attn(0)))];
    let body = first_launched(shapes, n);
    let epilogue = seq![Launch::One(head())];
    lemma_launch_concat(f, m, prologue, body);
    lemma_launch_concat(f, m, prologue + body, epilogue);
    assert(prologue =~= seq![prologue[0]] + seq![prologue[1]]);
    lemma_launch_concat(f, m, seq![prologue[0]], seq![prologue[1]]);
    lemma_launch_one(f, m, prologue[0]);
    lemma_run_one(f, m, Op::Embed);
    lemma_launch_one(f, embedded, prologue[1]);
    lemma_run_one(f, embedded, Op::Norm(NormRef::Attn(0)));
    lemma_first_launched(f, embedded, shapes, n);
    let normed = first_layers(shapes, n) + seq![Op::Norm(NormRef::Output)];
    let end = run(f, embedded, normed);
    lemma_launch_one(f, end, epilogue[0]);
    assert(forward(shapes) =~= seq![Op::Embed] + (normed + seq![head()]));
    lemma_run_concat(f, m, seq![Op::Embed], normed + seq![head()]);
    lemma_run_concat(f, embedded, normed, seq![head()]);
}

} // verus!
