//! Causal depthwise convolution with a recurrent history.

use vstd::prelude::*;

use crate::model::llama::kernels::{folded, total2, total3};

verus! {

/// What the taps of channel `ch` meet, oldest first: the history of the channel,
/// and then its current input.
pub open spec fn window<T>(
    history: Seq<T>,
    input: Seq<T>,
    channels: int,
    kernel: int,
    ch: int,
) -> Seq<T> {
    Seq::new(
        kernel as nat,
        |k: int|
            if k < kernel - 1 {
                history[k * channels + ch]
            } else {
                input[ch]
            },
    )
}

/// The taps of channel `ch`.
pub open spec fn taps<T>(weight: Seq<T>, kernel: int, ch: int) -> Seq<T> {
    weight.subrange(ch * kernel, ch * kernel + kernel)
}

/// A history after one more input: the oldest slot is dropped, and the input is
/// the newest.
pub open spec fn advanced<T>(history: Seq<T>, input: Seq<T>) -> Seq<T> {
    (history + input).skip(input.len() as int)
}

/// The number of elements of a history.
pub open spec fn history_len(channels: int, kernel: int) -> int {
    (kernel - 1) * channels
}

proof fn lemma_slot(channels: int, kernel: int, k: int, ch: int)
    requires
        0 <= k < kernel - 1,
        0 <= ch < channels,
    ensures
        0 <= k * channels + ch < history_len(channels, kernel),
{
    assert(0 <= k * channels + ch < (kernel - 1) * channels) by (nonlinear_arith)
        requires
            0 <= k,
            k + 1 <= kernel - 1,
            0 <= ch < channels,
    ;
}

/// One channel of the convolution: its taps and its window, taken in one after
/// the other.
fn convolve_channel<T: Copy, F: Fn(T, T, T) -> T>(
    history: &Vec<T>,
    weight: &[T],
    input: &[T],
    channels: usize,
    kernel: usize,
    ch: usize,
    zero: T,
    take_in: &F,
) -> (acc: T)
    requires
        ch < channels,
        1 <= kernel,
        history@.len() == history_len(channels as int, kernel as int),
        channels * kernel <= weight@.len(),
        channels <= input@.len(),
        total3(*take_in),
    ensures
        folded(
            *take_in,
            zero,
            taps(weight@, kernel as int, ch as int),
            window(history@, input@, channels as int, kernel as int, ch as int),
            acc,
        ),
{
    let weights_len: usize = weight.len();
    let history_total: usize = history.len();
    proof {
        assert(ch * kernel + kernel <= channels * kernel) by (nonlinear_arith)
            requires
                ch + 1 <= channels,
        ;
        assert(0 <= ch * kernel) by (nonlinear_arith);
    }
    let base: usize = ch * kernel;
    let ghost t = taps(weight@, kernel as int, ch as int);
    let ghost w = window(history@, input@, channels as int, kernel as int, ch as int);
    let mut acc = zero;
    let mut k: usize = 0;
    proof {
        assert(t.take(0).len() == 0);
    }
    while k < kernel - 1
        invariant
            k <= kernel - 1,
            ch < channels,
            1 <= kernel,
            base == ch * kernel,
            base + kernel <= weights_len,
            weights_len == weight@.len(),
            history_total == history@.len(),
            history@.len() == history_len(channels as int, kernel as int),
            total3(*take_in),
            t == taps(weight@, kernel as int, ch as int),
            w == window(history@, input@, channels as int, kernel as int, ch as int),
            folded(*take_in, zero, t.take(k as int), w.take(k as int), acc),
        decreases kernel - k,
    {
        proof {
            lemma_slot(channels as int, kernel as int, k as int, ch as int);
            assert(0 <= k * channels) by (nonlinear_arith);
        }
        let before = acc;
        acc = take_in(before, weight[base + k], history[k * channels + ch]);
        proof {
            let t1 = t.take(k + 1);
            let w1 = w.take(k + 1);
            assert(t1.drop_last() =~= t.take(k as int));
            assert(w1.drop_last() =~= w.take(k as int));
            assert(t1.last() == weight@[base + k]);
            assert(w1.last() == history@[k * channels + ch]);
            assert(take_in.ensures((before, t1.last(), w1.last()), acc));
        }
        k += 1;
    }
    let before = acc;
    acc = take_in(before, weight[base + kernel - 1], input[ch]);
    proof {
        assert(t.drop_last() =~= t.take(kernel - 1));
        assert(w.drop_last() =~= w.take(kernel - 1));
        assert(t.last() == weight@[base + kernel - 1]);
        assert(w.last() == input@[ch as int]);
        assert(take_in.ensures((before, t.last(), w.last()), acc));
    }
    acc
}

/// Drops the oldest slot of a history and appends the current input.
fn advance<T: Copy>(history: &mut Vec<T>, input: &[T], channels: usize, kernel: usize)
    requires
        1 <= kernel,
        old(history)@.len() == history_len(channels as int, kernel as int),
        channels <= input@.len(),
    ensures
        final(history)@ == advanced(old(history)@, input@.take(channels as int)),
{
    let total: usize = history.len();
    let ghost before = history@;
    let ghost goal = advanced(before, input@.take(channels as int));
    proof {
        assert(kernel >= 2 ==> channels <= (kernel - 1) * channels) by (nonlinear_arith);
        assert((1 - 1) * channels == 0);
        assert(goal.len() == total);
    }
    if kernel == 1 {
        proof {
            assert(history@ =~= goal);
        }
        return;
    }
    let kept: usize = total - channels;
    let mut i: usize = 0;
    while i < kept
        invariant
            i <= kept,
            kept + channels == total,
            total == history@.len(),
            total == before.len(),
            channels <= input@.len(),
            goal == advanced(before, input@.take(channels as int)),
            forall|j: int| 0 <= j < i ==> #[trigger] history@[j] == goal[j],
            forall|j: int| i <= j < total ==> #[trigger] history@[j] == before[j],
        decreases kept - i,
    {
        let moved = history[i + channels];
        history.set(i, moved);
        i += 1;
    }
    let mut ch: usize = 0;
    while ch < channels
        invariant
            ch <= channels,
            kept + channels == total,
            total == history@.len(),
            total == before.len(),
            channels <= input@.len(),
            goal == advanced(before, input@.take(channels as int)),
            forall|j: int| 0 <= j < kept + ch ==> #[trigger] history@[j] == goal[j],
        decreases channels - ch,
    {
        history.set(kept + ch, input[ch]);
        ch += 1;
    }
    proof {
        assert(history@ =~= goal);
    }
}

/// Whether `out` is one channel of a convolution, finished by `finish`.
pub open spec fn channel_convolved<T, F: Fn(T, T, T) -> T, G: Fn(usize, T) -> T>(
    history: Seq<T>,
    weight: Seq<T>,
    input: Seq<T>,
    channels: int,
    kernel: int,
    ch: int,
    zero: T,
    take_in: F,
    finish: G,
    out: T,
) -> bool {
    exists|acc: T|
        folded(
            take_in,
            zero,
            taps(weight, kernel, ch),
            window(history, input, channels, kernel, ch),
            acc,
        ) && #[trigger] finish.ensures((ch as usize, acc), out)
}

/// Generic causal depthwise conv1d over `channels` channels with kernel width
/// `kernel`. `history` holds `(kernel-1) * channels` values (oldest first,
/// layout `[tap][channel]`) and is advanced in place — the recurrent state
/// that gives the conv its history across forward passes. `take_in` takes a tap
/// and the value that it meets into the sum of a channel; `finish` makes the
/// output of the sum.
pub fn causal_depthwise_conv<T: Copy, F: Fn(T, T, T) -> T, G: Fn(usize, T) -> T>(
    history: &mut Vec<T>,
    weight: &[T],
    channels: usize,
    kernel: usize,
    input: &[T],
    output: &mut Vec<T>,
    zero: T,
    take_in: F,
    finish: G,
)
    requires
        1 <= kernel,
        old(history)@.len() == history_len(channels as int, kernel as int),
        channels * kernel <= weight@.len(),
        channels <= input@.len(),
        channels <= old(output)@.len(),
        total3(take_in),
        forall|ch: usize, acc: T| ch < channels ==> #[trigger] finish.requires((ch, acc)),
    ensures
        final(history)@ == advanced(old(history)@, input@.take(channels as int)),
        final(output)@.len() == old(output)@.len(),
        forall|ch: int|
            0 <= ch < channels ==> channel_convolved(
                old(history)@,
                weight@,
                input@,
                channels as int,
                kernel as int,
                ch,
                zero,
                take_in,
                finish,
                #[trigger] final(output)@[ch],
            ),
        forall|i: int|
            channels <= i < old(output)@.len() ==> #[trigger] final(output)@[i] == old(output)@[i],
{
    let mut ch: usize = 0;
    while ch < channels
        invariant
            ch <= channels,
            1 <= kernel,
            history@ == old(history)@,
            history@.len() == history_len(channels as int, kernel as int),
            channels * kernel <= weight@.len(),
            channels <= input@.len(),
            channels <= output@.len(),
            output@.len() == old(output)@.len(),
            total3(take_in),
            forall|ch: usize, acc: T| ch < channels ==> #[trigger] finish.requires((ch, acc)),
            forall|c: int|
                0 <= c < ch ==> channel_convolved(
                    history@,
                    weight@,
                    input@,
                    channels as int,
                    kernel as int,
                    c,
                    zero,
                    take_in,
                    finish,
                    #[trigger] output@[c],
                ),
            forall|i: int| ch <= i < output@.len() ==> #[trigger] output@[i] == old(output)@[i],
        decreases channels - ch,
    {
        let acc = convolve_channel(history, weight, input, channels, kernel, ch, zero, &take_in);
        let y = finish(ch, acc);
        proof {
            assert(finish.ensures(((ch as int) as usize, acc), y));
            assert(channel_convolved(
                history@,
                weight@,
                input@,
                channels as int,
                kernel as int,
                ch as int,
                zero,
                take_in,
                finish,
                y,
            ));
        }
        output.set(ch, y);
        ch += 1;
    }
    advance(history, input, channels, kernel);
}

/// The elementwise-gate + depthwise-causal-conv math between the two projections
/// of a short-conv layer. `bcx` holds the gates `(B, C, x)`, `d` elements each:
/// the convolution runs over `mult(B, x)`, and its output is `mult(C, sum)`.
pub fn short_conv<T: Copy, F: Fn(T, T, T) -> T, M: Fn(T, T) -> T>(
    history: &mut Vec<T>,
    weight: &[T],
    d: usize,
    kernel: usize,
    bcx: &[T],
    bx: &mut Vec<T>,
    conv_out: &mut Vec<T>,
    zero: T,
    take_in: F,
    mult: M,
)
    requires
        1 <= kernel,
        old(history)@.len() == history_len(d as int, kernel as int),
        d * kernel <= weight@.len(),
        3 * d <= bcx@.len(),
        old(bx)@.len() == d,
        d <= old(conv_out)@.len(),
        total3(take_in),
        total2(mult),
    ensures
        final(bx)@.len() == d,
        forall|j: int|
            0 <= j < d ==> mult.ensures((bcx@[j], bcx@[2 * d + j]), #[trigger] final(bx)@[j]),
        final(history)@ == advanced(old(history)@, final(bx)@),
        final(conv_out)@.len() == old(conv_out)@.len(),
        forall|ch: int|
            0 <= ch < d ==> gated_channel(
                old(history)@,
                weight@,
                final(bx)@,
                d as int,
                kernel as int,
                ch,
                zero,
                take_in,
                mult,
                bcx@[d + ch],
                #[trigger] final(conv_out)@[ch],
            ),
        forall|i: int|
            d <= i < old(conv_out)@.len() ==> #[trigger] final(conv_out)@[i] == old(conv_out)@[i],
{
    let bcx_len: usize = bcx.len();
    let mut j: usize = 0;
    while j < d
        invariant
            j <= d,
            bcx_len == bcx@.len(),
            3 * d <= bcx@.len(),
            bx@.len() == d,
            total2(mult),
            forall|i: int|
                0 <= i < j ==> mult.ensures((bcx@[i], bcx@[2 * d + i]), #[trigger] bx@[i]),
        decreases d - j,
    {
        let y = mult(bcx[j], bcx[2 * d + j]);
        bx.set(j, y);
        j += 1;
    }
    let mut ch: usize = 0;
    while ch < d
        invariant
            ch <= d,
            1 <= kernel,
            bcx_len == bcx@.len(),
            3 * d <= bcx@.len(),
            bx@.len() == d,
            history@ == old(history)@,
            history@.len() == history_len(d as int, kernel as int),
            d * kernel <= weight@.len(),
            d <= conv_out@.len(),
            conv_out@.len() == old(conv_out)@.len(),
            total3(take_in),
            total2(mult),
            forall|c: int|
                0 <= c < ch ==> gated_channel(
                    history@,
                    weight@,
                    bx@,
                    d as int,
                    kernel as int,
                    c,
                    zero,
                    take_in,
                    mult,
                    bcx@[d + c],
                    #[trigger] conv_out@[c],
                ),
            forall|i: int|
                ch <= i < conv_out@.len() ==> #[trigger] conv_out@[i] == old(conv_out)@[i],
        decreases d - ch,
    {
        let acc = convolve_channel(
            history,
            weight,
            bx.as_slice(),
            d,
            kernel,
            ch,
            zero,
            &take_in,
        );
        let y = mult(bcx[d + ch], acc);
        proof {
            assert(gated_channel(
                history@,
                weight@,
                bx@,
                d as int,
                kernel as int,
                ch as int,
                zero,
                take_in,
                mult,
                bcx@[d + ch],
                y,
            ));
        }
        conv_out.set(ch, y);
        ch += 1;
    }
    proof {
        assert(bx@.take(d as int) =~= bx@);
    }
    advance(history, bx.as_slice(), d, kernel);
}

/// Whether `out` is one channel of a convolution, multiplied with its gate `c`.
pub open spec fn gated_channel<T, F: Fn(T, T, T) -> T, M: Fn(T, T) -> T>(
    history: Seq<T>,
    weight: Seq<T>,
    input: Seq<T>,
    channels: int,
    kernel: int,
    ch: int,
    zero: T,
    take_in: F,
    mult: M,
    c: T,
    out: T,
) -> bool {
    exists|acc: T|
        folded(
            take_in,
            zero,
            taps(weight, kernel, ch),
            window(history, input, channels, kernel, ch),
            acc,
        ) && #[trigger] mult.ensures((c, acc), out)
}

/// The history after a sequence of inputs, each of which is taken in in turn.
pub open spec fn history_after<T>(start: Seq<T>, inputs: Seq<Seq<T>>) -> Seq<T>
    decreases inputs.len(),
{
    if inputs.len() == 0 {
        start
    } else {
        advanced(history_after(start, inputs.drop_last()), inputs.last())
    }
}

/// A convolution is causal and forgets: after any number of inputs, slot `k` of
/// the history holds the input of `slots - k` steps ago, and what the history
/// began with where there were not that many inputs.
pub proof fn law_history_holds_the_last_inputs<T>(
    start: Seq<T>,
    inputs: Seq<Seq<T>>,
    channels: int,
    slots: int,
    k: int,
    ch: int,
)
    requires
        0 <= k < slots,
        0 <= ch < channels,
        start.len() == slots * channels,
        forall|i: int| 0 <= i < inputs.len() ==> (#[trigger] inputs[i]).len() == channels,
    ensures
        history_after(start, inputs).len() == slots * channels,
        history_after(start, inputs)[k * channels + ch] == {
            let t = inputs.len() - (slots - k);
            if t >= 0 {
                inputs[t][ch]
            } else {
                start[(k + inputs.len()) * channels + ch]
            }
        },
    decreases inputs.len(),
{
    if inputs.len() > 0 {
        let front = inputs.drop_last();
        let before = history_after(start, front);
        assert forall|i: int| 0 <= i < front.len() implies (#[trigger] front[i]).len()
            == channels by {
            assert(front[i] == inputs[i]);
        }
        assert((k + 1) * channels == k * channels + channels) by (nonlinear_arith);
        assert(0 <= k * channels) by (nonlinear_arith)
            requires
                0 <= k,
                0 <= channels,
        ;
        if k + 1 < slots {
            law_history_holds_the_last_inputs(start, front, channels, slots, k + 1, ch);
            assert((k + 1) * channels + ch < slots * channels) by (nonlinear_arith)
                requires
                    k + 2 <= slots,
                    0 <= ch < channels,
            ;
            assert(advanced(before, inputs.last())[k * channels + ch] == before[(k + 1) * channels
                + ch]);
        } else {
            law_history_holds_the_last_inputs(start, front, channels, slots, k, ch);
            assert(slots * channels == k * channels + channels) by (nonlinear_arith)
                requires
                    slots == k + 1,
            ;
            assert(advanced(before, inputs.last())[k * channels + ch] == inputs.last()[ch]);
        }
    }
}

} // verus!
