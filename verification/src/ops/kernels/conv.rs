//! Causal convolutions: kernels with one thread for each channel.

use vstd::prelude::*;

use crate::calc::{
    computes, fold2, make, make_multiply_add, make_silu, math, products, Calc,
};
use crate::model::llama::conv::{advanced, history_len, taps, window};
use crate::model::llama::meaning::{gate_input, short_convolved, silu_convolved};
use crate::model::llama::types::GdnDims;
use crate::ops::kernels::norm::{lemma_cell_head, lemma_head_cell};
use crate::ops::kernels::{by_cell, patched, Owner};
use crate::single::ZERO;

verus! {

/// Every channel of a history has a thread of its own.
pub open spec fn by_channel(channels: int) -> Owner {
    |i: int| i % channels
}

/// What the taps of a channel meet: its history, and then the current input `v`.
pub open spec fn met(history: Seq<u32>, v: u32, channels: int, kernel: int, ch: int) -> Seq<u32> {
    Seq::new(
        kernel as nat,
        |k: int|
            if k < kernel - 1 {
                history[k * channels + ch]
            } else {
                v
            },
    )
}

proof fn lemma_channel_slot(channels: int, kernel: int, k: int, ch: int)
    requires
        0 <= k < kernel - 1,
        0 <= ch < channels,
    ensures
        0 <= k * channels + ch < history_len(channels, kernel),
        0 <= k * channels,
{
    assert(0 <= k * channels && k * channels + ch < (kernel - 1) * channels) by (nonlinear_arith)
        requires
            0 <= k,
            k + 1 <= kernel - 1,
            0 <= ch < channels,
    ;
}

/// One channel of a convolution.
fn convolve<F: Fn(Calc) -> u32>(
    history: &Vec<u32>,
    weight: &[u32],
    v: u32,
    channels: usize,
    kernel: usize,
    ch: usize,
    calc: &F,
) -> (acc: u32)
    requires
        computes(*calc),
        1 <= kernel,
        ch < channels,
        channels * kernel <= weight@.len(),
        history@.len() == history_len(channels as int, kernel as int),
    ensures
        acc == fold2(
            products(math(*calc)),
            ZERO,
            taps(weight@, kernel as int, ch as int),
            met(history@, v, channels as int, kernel as int, ch as int),
        ),
{
    let ghost m = math(*calc);
    let ghost t = taps(weight@, kernel as int, ch as int);
    let ghost w = met(history@, v, channels as int, kernel as int, ch as int);
    let room: usize = weight.len();
    let past: usize = history.len();
    proof {
        assert(0 <= ch * kernel && ch * kernel + kernel <= channels * kernel) by (nonlinear_arith)
            requires
                0 <= ch,
                ch + 1 <= channels,
                0 <= kernel,
        ;
    }
    let tap_base: usize = ch * kernel;
    let mut acc: u32 = ZERO;
    let mut k: usize = 0;
    proof {
        assert(t.take(0).len() == 0);
    }
    while k + 1 < kernel
        invariant
            k + 1 <= kernel,
            1 <= kernel,
            ch < channels,
            m == math(*calc),
            computes(*calc),
            room == weight@.len(),
            past == history@.len(),
            tap_base == ch * kernel,
            tap_base + kernel <= room,
            past == history_len(channels as int, kernel as int),
            t == taps(weight@, kernel as int, ch as int),
            w == met(history@, v, channels as int, kernel as int, ch as int),
            acc == fold2(products(m), ZERO, t.take(k as int), w.take(k as int)),
        decreases kernel - k,
    {
        proof {
            lemma_channel_slot(channels as int, kernel as int, k as int, ch as int);
            assert(t.take(k + 1).drop_last() =~= t.take(k as int));
            assert(w.take(k + 1).drop_last() =~= w.take(k as int));
        }
        acc = make_multiply_add(calc, acc, weight[tap_base + k], history[k * channels + ch]);
        k += 1;
    }
    proof {
        assert(t.take(kernel - 1) =~= t.drop_last());
        assert(w.take(kernel - 1) =~= w.drop_last());
    }
    make_multiply_add(calc, acc, weight[tap_base + (kernel - 1)], v)
}

/// Drops the oldest slot of a channel's history, and appends `v`.
fn advance(
    history: &mut Vec<u32>,
    v: u32,
    channels: usize,
    kernel: usize,
    ch: usize,
    Ghost(input): Ghost<Seq<u32>>,
)
    requires
        1 <= kernel,
        ch < channels,
        old(history)@.len() == history_len(channels as int, kernel as int),
        input.len() == channels,
        input[ch as int] == v,
    ensures
        final(history)@ == patched(
            old(history)@,
            advanced(old(history)@, input),
            by_channel(channels as int),
            ch as int,
        ),
{
    let ghost before = history@;
    let ghost d = channels as int;
    let past: usize = history.len();
    if kernel >= 2 {
        let mut k: usize = 0;
        while k + 2 < kernel
            invariant
                k + 2 <= kernel,
                ch < channels,
                d == channels,
                past == history@.len(),
                past == history_len(channels as int, kernel as int),
                before.len() == past,
                forall|i: int|
                    0 <= i < past ==> #[trigger] history@[i] == if i % d == ch && i < k * d {
                        before[i + d]
                    } else {
                        before[i]
                    },
            decreases kernel - k,
        {
            proof {
                lemma_channel_slot(d, kernel as int, k as int, ch as int);
                lemma_channel_slot(d, kernel as int, k + 1, ch as int);
                assert((k + 1) * d == k * d + d) by (nonlinear_arith);
                lemma_head_cell(k as int, ch as int, d);
                lemma_head_cell(k + 1, ch as int, d);
                assert(history@[(k + 1) * d + ch] == before[(k + 1) * d + ch]);
            }
            let ghost earlier = history@;
            let later: u32 = history[(k + 1) * channels + ch];
            history.set(k * channels + ch, later);
            proof {
                assert forall|i: int| 0 <= i < past implies #[trigger] history@[i] == if i % d == ch
                    && i < (k + 1) * d {
                    before[i + d]
                } else {
                    before[i]
                } by {
                    lemma_cell_head(i, d);
                    assert(earlier[i] == if i % d == ch && i < k * d {
                        before[i + d]
                    } else {
                        before[i]
                    });
                    if i % d == ch && k * d <= i < (k + 1) * d {
                        assert(i / d == k) by (nonlinear_arith)
                            requires
                                i == i / d * d + i % d,
                                0 <= i % d < d,
                                k * d <= i < (k + 1) * d,
                        ;
                    }
                }
            }
            k += 1;
        }
        proof {
            lemma_channel_slot(d, kernel as int, kernel - 2, ch as int);
            lemma_head_cell(kernel - 2, ch as int, d);
        }
        let ghost earlier = history@;
        history.set((kernel - 2) * channels + ch, v);
        proof {
            let new = advanced(before, input);
            let goal = patched(before, new, by_channel(d), ch as int);
            assert((kernel - 1) * d == (kernel - 2) * d + d) by (nonlinear_arith);
            assert forall|i: int| 0 <= i < past implies history@[i] == goal[i] by {
                lemma_cell_head(i, d);
                assert(earlier[i] == if i % d == ch && i < (kernel - 2) * d {
                    before[i + d]
                } else {
                    before[i]
                });
                assert(new[i] == (before + input)[i + d]);
                if i % d == ch && (kernel - 2) * d <= i {
                    assert(i / d == kernel - 2) by (nonlinear_arith)
                        requires
                            i == i / d * d + i % d,
                            0 <= i % d < d,
                            (kernel - 2) * d <= i < (kernel - 2) * d + d,
                    ;
                }
            }
            assert(history@ =~= goal);
        }
    } else {
        proof {
            assert((kernel - 1) * d == 0) by (nonlinear_arith)
                requires
                    kernel == 1,
            ;
            assert(history@ =~= patched(
                before,
                advanced(before, input),
                by_channel(d),
                ch as int,
            ));
        }
    }
}

proof fn lemma_met(
    history: Seq<u32>,
    input: Seq<u32>,
    channels: int,
    kernel: int,
    ch: int,
)
    ensures
        met(history, input[ch], channels, kernel, ch) == window(
            history,
            input,
            channels,
            kernel,
            ch,
        ),
{
    assert(met(history, input[ch], channels, kernel, ch) =~= window(
        history,
        input,
        channels,
        kernel,
        ch,
    ));
}

/// Short-conv gate and depthwise causal conv1d of one channel. `bcx` holds `B`, `C` and
/// the gated input after each other.
pub fn short_conv<F: Fn(Calc) -> u32>(
    ch: usize,
    bcx: &[u32],
    weight: &[u32],
    history: &mut Vec<u32>,
    conv_out: &mut Vec<u32>,
    l: usize,
    calc: &F,
)
    requires
        computes(*calc),
        1 <= l,
        3 * old(conv_out)@.len() <= bcx@.len(),
        old(conv_out)@.len() * l <= weight@.len(),
        old(history)@.len() == history_len(old(conv_out)@.len() as int, l as int),
    ensures
        ({
            let m = math(*calc);
            let d = old(conv_out)@.len() as int;
            let input = gate_input(m, bcx@, d);
            &&& final(conv_out)@ == patched(
                old(conv_out)@,
                short_convolved(m, old(history)@, weight@, bcx@, d, l as int),
                by_cell(),
                ch as int,
            )
            &&& final(history)@ == if ch < d {
                patched(
                    old(history)@,
                    advanced(old(history)@, input),
                    by_channel(d),
                    ch as int,
                )
            } else {
                old(history)@
            }
        }),
{
    let ghost m = math(*calc);
    let d: usize = conv_out.len();
    let room: usize = bcx.len();
    let ghost input = gate_input(m, bcx@, d as int);
    if ch < d {
        let b: u32 = bcx[ch];
        let c: u32 = bcx[d + ch];
        let xg: u32 = bcx[2 * d + ch];
        let bx: u32 = make(calc, Calc::Mul(b, xg));
        let acc: u32 = convolve(history, weight, bx, d, l, ch, calc);
        proof {
            assert(input[ch as int] == bx);
            lemma_met(history@, input, d as int, l as int, ch as int);
        }
        let v: u32 = make(calc, Calc::Mul(c, acc));
        conv_out.set(ch, v);
        advance(history, bx, d, l, ch, Ghost(input));
    }
    proof {
        let new = short_convolved(m, old(history)@, weight@, bcx@, d as int, l as int);
        assert(conv_out@ =~= patched(old(conv_out)@, new, by_cell(), ch as int));
    }
}

/// Gated DeltaNet causal depthwise conv1d and SiLU of one channel.
pub fn causal_conv1d_silu<F: Fn(Calc) -> u32>(
    ch: usize,
    input: &[u32],
    weight: &[u32],
    history: &mut Vec<u32>,
    output: &mut Vec<u32>,
    dims: &GdnDims,
    calc: &F,
)
    requires
        computes(*calc),
        1 <= dims.d_conv,
        old(output)@.len() == dims.conv_dim,
        input@.len() == dims.conv_dim,
        dims.conv_dim * dims.d_conv <= weight@.len(),
        old(history)@.len() == history_len(dims.conv_dim as int, dims.d_conv as int),
    ensures
        ({
            let m = math(*calc);
            &&& final(output)@ == patched(
                old(output)@,
                silu_convolved(m, old(history)@, weight@, input@, *dims),
                by_cell(),
                ch as int,
            )
            &&& final(history)@ == if ch < dims.conv_dim {
                patched(
                    old(history)@,
                    advanced(old(history)@, input@),
                    by_channel(dims.conv_dim as int),
                    ch as int,
                )
            } else {
                old(history)@
            }
        }),
{
    let ghost m = math(*calc);
    let d: usize = dims.conv_dim;
    let kernel: usize = dims.d_conv;
    if ch < d {
        let acc: u32 = convolve(history, weight, input[ch], d, kernel, ch, calc);
        proof {
            lemma_met(history@, input@, d as int, kernel as int, ch as int);
        }
        let v: u32 = make_silu(calc, acc);
        output.set(ch, v);
        advance(history, input[ch], d, kernel, ch, Ghost(input@));
    }
    proof {
        let new = silu_convolved(m, old(history)@, weight@, input@, *dims);
        assert(output@ =~= patched(old(output)@, new, by_cell(), ch as int));
    }
}

} // verus!
