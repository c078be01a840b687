//! Cumulative time of the phases of forward passes on the CPU.

use std::time::Instant;

use vstd::prelude::*;

use crate::model::llama::program::{Matrix, Op, Role};
use crate::model::llama::types::MixerKind;

verus! {

/// A phase of a forward pass.
#[derive(Debug, Clone, Copy, PartialEq, Eq, Structural)]
pub enum Phase {
    Embed,
    Attn,
    GatedAttn,
    Gdn,
    ShortConv,
    Ffn,
    LmHead,
}

/// The phase that a mixer belongs to.
pub fn mixer_phase(kind: MixerKind) -> (p: Phase)
    ensures
        p == match kind {
            MixerKind::Attention => Phase::Attn,
            MixerKind::ShortConv => Phase::ShortConv,
            MixerKind::GatedAttention => Phase::GatedAttn,
            MixerKind::GatedDeltaNet => Phase::Gdn,
        },
{
    match kind {
        MixerKind::Attention => Phase::Attn,
        MixerKind::ShortConv => Phase::ShortConv,
        MixerKind::GatedAttention => Phase::GatedAttn,
        MixerKind::GatedDeltaNet => Phase::Gdn,
    }
}

/// The phase that an operation counts towards in a layer with such a mixer; the norms and
/// residual additions count towards none.
pub fn phase_of(op: Op, kind: MixerKind) -> (p: Option<Phase>)
    ensures
        p == match op {
            Op::Embed => Some(Phase::Embed),
            Op::Norm(_) => None,
            Op::AddResidual => None,
            Op::SiluMul(_) => Some(Phase::Ffn),
            Op::MatMul(Matrix::LmHead, _, _) => Some(Phase::LmHead),
            Op::MatMul(Matrix::Layer(_, Role::FfnGate), _, _) => Some(Phase::Ffn),
            Op::MatMul(Matrix::Layer(_, Role::FfnUp), _, _) => Some(Phase::Ffn),
            Op::MatMul(Matrix::Layer(_, Role::FfnDown), _, _) => Some(Phase::Ffn),
            _ => Some(
                match kind {
                    MixerKind::Attention => Phase::Attn,
                    MixerKind::ShortConv => Phase::ShortConv,
                    MixerKind::GatedAttention => Phase::GatedAttn,
                    MixerKind::GatedDeltaNet => Phase::Gdn,
                },
            ),
        },
{
    match op {
        Op::Embed => Some(Phase::Embed),
        Op::Norm(_) => None,
        Op::AddResidual => None,
        Op::SiluMul(_) => Some(Phase::Ffn),
        Op::MatMul(Matrix::LmHead, _, _) => Some(Phase::LmHead),
        Op::MatMul(Matrix::Layer(_, role), _, _) => match role {
            Role::FfnGate => Some(Phase::Ffn),
            Role::FfnUp => Some(Phase::Ffn),
            Role::FfnDown => Some(Phase::Ffn),
            _ => Some(mixer_phase(kind)),
        },
        _ => Some(mixer_phase(kind)),
    }
}

/// The current time, where it is asked for.
pub fn now(trace: bool) -> (r: Option<Instant>)
    ensures
        r is Some <==> trace,
{
    if trace {
        Some(Instant::now())
    } else {
        None
    }
}

/// Cumulative nanoseconds of each phase, and the number of forward passes.
#[derive(Debug, Clone, Copy, PartialEq, Eq, Structural)]
pub struct PhaseTimes {
    pub embed: u64,
    pub attn: u64,
    pub gated_attn: u64,
    pub gdn: u64,
    pub shortconv: u64,
    pub ffn: u64,
    pub lm_head: u64,
    pub calls: u64,
}

impl PhaseTimes {
    /// The time of a phase.
    pub open spec fn time(self, p: Phase) -> u64 {
        match p {
            Phase::Embed => self.embed,
            Phase::Attn => self.attn,
            Phase::GatedAttn => self.gated_attn,
            Phase::Gdn => self.gdn,
            Phase::ShortConv => self.shortconv,
            Phase::Ffn => self.ffn,
            Phase::LmHead => self.lm_head,
        }
    }

    /// Nothing has run yet.
    pub fn new() -> (t: Self)
        ensures
            forall|p: Phase| #[trigger] t.time(p) == 0,
            t.calls == 0,
    {
        PhaseTimes {
            embed: 0,
            attn: 0,
            gated_attn: 0,
            gdn: 0,
            shortconv: 0,
            ffn: 0,
            lm_head: 0,
            calls: 0,
        }
    }

    /// Adds the time that a phase took, where it was taken. Counters wrap around.
    pub fn add(&mut self, phase: Phase, elapsed: Option<u64>)
        ensures
            final(self).calls == old(self).calls,
            forall|p: Phase|
                p != phase ==> #[trigger] final(self).time(p) == old(self).time(p),
            final(self).time(phase) == match elapsed {
                Some(n) => old(self).time(phase).wrapping_add(n),
                None => old(self).time(phase),
            },
    {
        if let Some(n) = elapsed {
            match phase {
                Phase::Embed => {
                    self.embed = self.embed.wrapping_add(n);
                },
                Phase::Attn => {
                    self.attn = self.attn.wrapping_add(n);
                },
                Phase::GatedAttn => {
                    self.gated_attn = self.gated_attn.wrapping_add(n);
                },
                Phase::Gdn => {
                    self.gdn = self.gdn.wrapping_add(n);
                },
                Phase::ShortConv => {
                    self.shortconv = self.shortconv.wrapping_add(n);
                },
                Phase::Ffn => {
                    self.ffn = self.ffn.wrapping_add(n);
                },
                Phase::LmHead => {
                    self.lm_head = self.lm_head.wrapping_add(n);
                },
            }
        }
    }

    /// Counts a forward pass, and says whether a report is due: after every tenth.
    pub fn count_call(&mut self) -> (due: bool)
        ensures
            final(self).calls == old(self).calls.wrapping_add(1),
            forall|p: Phase| #[trigger] final(self).time(p) == old(self).time(p),
            due == (final(self).calls % 10 == 0),
    {
        self.calls = self.calls.wrapping_add(1);
        self.calls % 10 == 0
    }
}

/// Every phase has a time of its own.
pub proof fn law_phases_have_their_own_times(t: PhaseTimes)
    ensures
        t.time(Phase::Embed) == t.embed,
        t.time(Phase::Attn) == t.attn,
        t.time(Phase::GatedAttn) == t.gated_attn,
        t.time(Phase::Gdn) == t.gdn,
        t.time(Phase::ShortConv) == t.shortconv,
        t.time(Phase::Ffn) == t.ffn,
        t.time(Phase::LmHead) == t.lm_head,
{
}

} // verus!
