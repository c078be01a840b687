//! What the product of a row with a vector is for on the GPU, where the lanes of a workgroup
//! share the row: the sum over all places of the weight there, times the number there.

use vstd::arithmetic::div_mod::{
    lemma_fundamental_div_mod, lemma_fundamental_div_mod_converse, lemma_small_mod,
};
use vstd::prelude::*;

use crate::calc::{fold2, value, Calc, Math};
use crate::model::llama::launched::{
    kernel_math, lane_order, lane_part, lane_sums, sum_in_halves, workgroup_dot,
};
use crate::model::matmul::{block_sums, element_products, scaled_sums};
use crate::model::totals::{
    lemma_added, lemma_congruent, lemma_continued, lemma_folded, lemma_in_parts, lemma_padded,
    lemma_reordered, lemma_same, lemma_scaled_blocks, numbers_in_all, total, weighed, wraps,
};
use crate::ops::lanes::{
    lane_blocks, lane_count, lane_deltas, lane_of, lane_share, lemma_lane_count,
    lemma_position_of_step, lemma_positions_go_up, lemma_step_of_position, position, step_of,
    LaneOrder,
};
use crate::quant::block::{blocks_of, Element};
use crate::quant::elements_of;
use crate::quant::q8_0::deltas;
use crate::single::ZERO;
use crate::types::GgmlType;

verus! {

// ── Halves ──────────────────────────────────────────────────────────────────

proof fn lemma_halves(m: Math, parts: Seq<u32>)
    requires
        wraps(m),
        parts.len() == 1 || parts.len() == 2 || parts.len() == 4 || parts.len() == 8 || parts.len()
            == 16 || parts.len() == 32 || parts.len() == 64,
    ensures
        sum_in_halves(m, parts) == total(|i: int| parts[i] as int, parts.len() as int)
            % numbers_in_all(),
    decreases parts.len(),
{
    let f = |i: int| parts[i] as int;
    if parts.len() == 1 {
        assert(total(f, 1) == total(f, 0) + f(0));
        lemma_small_mod(parts[0] as nat, numbers_in_all() as nat);
    } else {
        let half = parts.len() / 2;
        let next = Seq::new(half, |i: int| m(Calc::Add(parts[i], parts[i + half as int])));
        lemma_halves(m, next);
        let g = |i: int| f(half as int + i);
        let given = |i: int| next[i] as int;
        let both = |i: int| f(i) + g(i);
        assert forall|i: int| 0 <= i < half implies #[trigger] given(i) % numbers_in_all() == both(
            i,
        ) % numbers_in_all() by {
            assert(next[i] == (parts[i] + parts[i + half as int]) % numbers_in_all());
            vstd::arithmetic::div_mod::lemma_mod_twice(
                parts[i] + parts[i + half as int],
                numbers_in_all(),
            );
        }
        lemma_congruent(given, both, half as int);
        lemma_added(f, g, half as int);
        lemma_continued(f, half as int, half as int);
        assert(parts.len() == half as int + half as int);
    }
}

// ── Lanes that share elements ───────────────────────────────────────────────

/// How many steps all lanes together take for `n` elements, each one as many.
spec fn lane_steps(order: LaneOrder, n: nat) -> int {
    match order {
        LaneOrder::Units => 32 * blocks_of(n, 2048) as int,
        LaneOrder::Slots => 4 * blocks_of(n, 256) as int,
    }
}

proof fn lemma_steps_suffice(order: LaneOrder, n: nat, lane: int, p: int)
    requires
        0 <= lane < 64,
        lane_steps(order, n) <= p,
    ensures
        n <= position(order, lane, p),
        n <= 64 * lane_steps(order, n),
{
    match order {
        LaneOrder::Units => {
            let b = blocks_of(n, 2048) as int;
            lemma_fundamental_div_mod(n as int + 2047, 2048);
            lemma_fundamental_div_mod(p, 32);
            assert(b <= p / 32);
        },
        LaneOrder::Slots => {
            let b = blocks_of(n, 256) as int;
            lemma_fundamental_div_mod(n as int + 255, 256);
            lemma_fundamental_div_mod(p, 4);
            assert(b <= p / 4);
            assert(0 <= lane / 32 && 0 <= lane % 32 && 0 <= p % 4);
        },
    }
}

proof fn lemma_step_bounds(order: LaneOrder, n: nat, lane: int, p: int)
    requires
        0 <= lane < 64,
        0 <= p < lane_steps(order, n),
    ensures
        0 <= position(order, lane, p) < 64 * lane_steps(order, n),
{
    match order {
        LaneOrder::Units => {
            lemma_fundamental_div_mod(p, 32);
            let b = blocks_of(n, 2048) as int;
            assert(0 <= p / 32 && p / 32 + 1 <= b);
        },
        LaneOrder::Slots => {
            lemma_fundamental_div_mod(p, 4);
            let b = blocks_of(n, 256) as int;
            assert(0 <= p / 4 && p / 4 + 1 <= b);
            assert(0 <= lane / 32 <= 1 && 0 <= lane % 32 <= 31 && 0 <= p % 4 <= 3);
        },
    }
}

proof fn lemma_step_of_bounds(order: LaneOrder, n: nat, i: int)
    requires
        0 <= i < 64 * lane_steps(order, n),
    ensures
        0 <= step_of(order, i) < lane_steps(order, n),
{
    lemma_position_of_step(order, i);
    let (lane, p) = (lane_of(order, i), step_of(order, i));
    if p >= lane_steps(order, n) {
        match order {
            LaneOrder::Units => {
                lemma_fundamental_div_mod(p, 32);
                assert(blocks_of(n, 2048) <= p / 32);
            },
            LaneOrder::Slots => {
                lemma_fundamental_div_mod(p, 4);
                assert(blocks_of(n, 256) <= p / 4);
                assert(0 <= lane / 32 && 0 <= lane % 32 && 0 <= p % 4);
            },
        }
    }
}

/// What is at a place, and nothing behind the last one.
spec fn term_at(m: Math, es: Seq<Element>, x: Seq<u32>, i: int) -> int {
    if i < x.len() {
        value(m, es[i]) * x[i]
    } else {
        0
    }
}

proof fn lemma_one_lane(
    m: Math,
    order: LaneOrder,
    es: Seq<Element>,
    x: Seq<u32>,
    lane: int,
    share: u32,
)
    requires
        wraps(m),
        es.len() == x.len(),
        0 <= lane < 64,
        share == fold2(
            element_products(m),
            ZERO,
            lane_share(order, lane, es),
            lane_share(order, lane, x),
        ),
    ensures
        share == total(
            |p: int| term_at(m, es, x, position(order, lane, p)),
            lane_steps(order, x.len()),
        ) % numbers_in_all(),
{
    let n = x.len() as int;
    let steps = lane_steps(order, x.len());
    let count = lane_count(order, lane, n, n);
    let (a, y) = (lane_share(order, lane, es), lane_share(order, lane, x));
    let val = |e: Element| value(m, e);
    lemma_lane_count(order, lane, n, n);
    lemma_folded(m, element_products(m), val, a, y);
    let own = |p: int| term_at(m, es, x, position(order, lane, p));
    assert forall|p: int| 0 <= p < count implies #[trigger] own(p) == val(a[p]) * y[p] by {
        assert(position(order, lane, p) < n);
    }
    lemma_same(|p: int| val(a[p]) * y[p], own, count);
    if count > steps {
        lemma_steps_suffice(order, x.len(), lane, steps);
        assert(position(order, lane, steps) < n);
    }
    lemma_padded(own, count, steps);
    assert forall|p: int| count <= p < steps implies #[trigger] own(p) == 0 by {
        if p < n {
            assert(n <= position(order, lane, p));
        } else {
            lemma_positions_go_up(order, lane, p, p + 1);
        }
    }
    lemma_same(
        |p: int|
            if p < count {
                own(p)
            } else {
                0int
            },
        own,
        steps,
    );
}

/// The place that step `k` of all lanes visits, one lane after the other.
spec fn place_of(order: LaneOrder, steps: int, k: int) -> int {
    position(order, k / steps, k % steps)
}

proof fn lemma_lanes_reordered(m: Math, order: LaneOrder, es: Seq<Element>, x: Seq<u32>)
    requires
        es.len() == x.len(),
        x.len() > 0,
    ensures
        total(
            |lane: int|
                total(
                    |p: int| term_at(m, es, x, position(order, lane, p)),
                    lane_steps(order, x.len()),
                ),
            64,
        ) == weighed(m, es, x),
{
    let n = x.len() as int;
    let steps = lane_steps(order, x.len());
    assert(steps > 0) by {
        lemma_steps_suffice(order, x.len(), 0, steps);
    }
    let g = |i: int| term_at(m, es, x, i);
    let place = |k: int| place_of(order, steps, k);
    let step = |i: int| steps * lane_of(order, i) + step_of(order, i);
    let all = 64 * steps;
    let flat = |k: int| g(place(k));
    assert forall|k: int| 0 <= k < all implies 0 <= #[trigger] place(k) < all && 0 <= k / steps < 64
        && 0 <= k % steps < steps by {
        lemma_parts(k, steps);
        lemma_step_bounds(order, x.len(), k / steps, k % steps);
    }
    assert forall|i: int| 0 <= i < all implies 0 <= #[trigger] step(i) < all by {
        lemma_step_of_bounds(order, x.len(), i);
        lemma_position_of_step(order, i);
        lemma_whole(lane_of(order, i), step_of(order, i), steps);
    }
    assert forall|k: int, i: int| 0 <= k < all && 0 <= i < all implies (#[trigger] place(k) == i
        <==> #[trigger] step(i) == k) by {
        lemma_parts(k, steps);
        lemma_step_of_position(order, k / steps, k % steps);
        lemma_position_of_step(order, i);
        lemma_step_of_bounds(order, x.len(), i);
        lemma_whole(lane_of(order, i), step_of(order, i), steps);
    }
    lemma_reordered(g, place, step, all);
    lemma_in_parts(flat, steps, 64);
    let per_lane = |lane: int|
        total(|p: int| term_at(m, es, x, position(order, lane, p)), steps);
    let in_part = |b: int| total(|i: int| flat(steps * b + i), steps);
    assert forall|lane: int| 0 <= lane < 64 implies #[trigger] per_lane(lane) == in_part(lane) by {
        assert forall|p: int| 0 <= p < steps implies #[trigger] flat(steps * lane + p) == term_at(
            m,
            es,
            x,
            position(order, lane, p),
        ) by {
            lemma_whole(lane, p, steps);
        }
        lemma_same(
            |i: int| flat(steps * lane + i),
            |p: int| term_at(m, es, x, position(order, lane, p)),
            steps,
        );
    }
    lemma_same(per_lane, in_part, 64);
    assert(steps * 64 == all);
    lemma_steps_suffice(order, x.len(), 0, steps);
    let f = |i: int| value(m, es[i]) * x[i];
    lemma_padded(f, n, all);
    lemma_same(
        g,
        |i: int|
            if i < n {
                f(i)
            } else {
                0int
            },
        all,
    );
}

proof fn lemma_parts(k: int, steps: int)
    requires
        0 < steps,
        0 <= k < 64 * steps,
    ensures
        k == steps * (k / steps) + k % steps,
        0 <= k / steps < 64,
        0 <= k % steps < steps,
{
    lemma_fundamental_div_mod(k, steps);
    vstd::arithmetic::div_mod::lemma_mod_bound(k, steps);
    let q = k / steps;
    assert(0 <= q) by (nonlinear_arith)
        requires
            0 <= k,
            0 < steps,
            q == k / steps,
    ;
    assert(q < 64) by (nonlinear_arith)
        requires
            steps * q <= k,
            k < 64 * steps,
            0 < steps,
    ;
}

proof fn lemma_whole(lane: int, p: int, steps: int)
    requires
        0 <= lane < 64,
        0 <= p < steps,
    ensures
        (steps * lane + p) / steps == lane,
        (steps * lane + p) % steps == p,
        0 <= steps * lane + p < 64 * steps,
{
    assert(steps * lane == lane * steps) by (nonlinear_arith);
    lemma_fundamental_div_mod_converse(steps * lane + p, steps, lane, p);
    assert(0 <= steps * lane && steps * lane + steps <= 64 * steps) by (nonlinear_arith)
        requires
            0 <= lane,
            lane + 1 <= 64,
            0 < steps,
    ;
}

// ── Lanes that share blocks ─────────────────────────────────────────────────

/// The block `b` of a Q8_0 row: its scale times its sum, and nothing behind the last one.
spec fn block_term(m: Math, data: Seq<u8>, x: Seq<u32>, b: int) -> int {
    if b < blocks_of(x.len(), 32) {
        m(Calc::OfHalf(deltas(data, x.len())[b])) * block_sums(m, data, x)[b]
    } else {
        0
    }
}

proof fn lemma_one_block_lane(m: Math, data: Seq<u8>, x: Seq<u32>, lane: int)
    requires
        wraps(m),
        0 <= lane < 64,
    ensures
        lane_part(m, GgmlType::Q8_0, data, lane, x) == total(
            |j: int| block_term(m, data, x, lane + 64 * j),
            blocks_of(blocks_of(x.len(), 32), 64) as int,
        ) % numbers_in_all(),
{
    let blocks = blocks_of(x.len(), 32) as int;
    let count = lane_blocks(lane, blocks);
    let steps = blocks_of(blocks as nat, 64) as int;
    let half = |d: u16| m(Calc::OfHalf(d));
    let ds = lane_deltas(data, lane, x.len());
    let sums = lane_sums(m, data, lane, x);
    lemma_folded(m, scaled_sums(m), half, ds, sums);
    let own = |j: int| block_term(m, data, x, lane + 64 * j);
    lemma_fundamental_div_mod(blocks + 63, 64);
    lemma_fundamental_div_mod(blocks - lane + 63, 64);
    assert(count <= steps);
    assert forall|j: int| 0 <= j < count implies #[trigger] own(j) == half(ds[j]) * sums[j] by {
        assert(lane + 64 * j < blocks);
        assert(ds[j] == deltas(data, x.len())[lane + 64 * j]);
        assert(sums[j] == block_sums(m, data, x)[lane + 64 * j]);
    }
    lemma_same(|j: int| half(ds[j]) * sums[j], own, count);
    lemma_padded(own, count, steps);
    assert forall|j: int| count <= j < steps implies #[trigger] own(j) == 0 by {
        assert(lane + 64 * j >= blocks);
    }
    lemma_same(
        |j: int|
            if j < count {
                own(j)
            } else {
                0int
            },
        own,
        steps,
    );
}

proof fn lemma_blocks_reordered(m: Math, data: Seq<u8>, x: Seq<u32>)
    requires
        x.len() > 0,
    ensures
        total(
            |lane: int|
                total(
                    |j: int| block_term(m, data, x, lane + 64 * j),
                    blocks_of(blocks_of(x.len(), 32), 64) as int,
                ),
            64,
        ) == total(
            |b: int| m(Calc::OfHalf(deltas(data, x.len())[b])) * block_sums(m, data, x)[b],
            blocks_of(x.len(), 32) as int,
        ),
{
    let blocks = blocks_of(x.len(), 32) as int;
    let steps = blocks_of(blocks as nat, 64) as int;
    lemma_fundamental_div_mod(x.len() as int + 31, 32);
    lemma_fundamental_div_mod(blocks + 63, 64);
    assert(blocks > 0 && steps > 0 && blocks <= 64 * steps);
    let all = 64 * steps;
    let g = |b: int| block_term(m, data, x, b);
    let place = |k: int| k / steps + 64 * (k % steps);
    let step = |b: int| steps * (b % 64) + b / 64;
    let flat = |k: int| g(place(k));
    assert forall|k: int| 0 <= k < all implies 0 <= #[trigger] place(k) < all by {
        lemma_parts(k, steps);
    }
    assert forall|b: int| 0 <= b < all implies 0 <= #[trigger] step(b) < all by {
        lemma_fundamental_div_mod(b, 64);
        lemma_whole(b % 64, b / 64, steps);
    }
    assert forall|k: int, b: int| 0 <= k < all && 0 <= b < all implies (#[trigger] place(k) == b
        <==> #[trigger] step(b) == k) by {
        lemma_parts(k, steps);
        lemma_fundamental_div_mod(b, 64);
        lemma_whole(b % 64, b / 64, steps);
        if place(k) == b {
            lemma_fundamental_div_mod_converse(b, 64, k % steps, k / steps);
        }
    }
    lemma_reordered(g, place, step, all);
    lemma_in_parts(flat, steps, 64);
    let per_lane = |lane: int| total(|j: int| block_term(m, data, x, lane + 64 * j), steps);
    let in_part = |b: int| total(|i: int| flat(steps * b + i), steps);
    assert forall|lane: int| 0 <= lane < 64 implies #[trigger] per_lane(lane) == in_part(lane) by {
        assert forall|j: int| 0 <= j < steps implies #[trigger] flat(steps * lane + j)
            == block_term(m, data, x, lane + 64 * j) by {
            lemma_whole(lane, j, steps);
        }
        lemma_same(
            |i: int| flat(steps * lane + i),
            |j: int| block_term(m, data, x, lane + 64 * j),
            steps,
        );
    }
    lemma_same(per_lane, in_part, 64);
    assert(steps * 64 == all);
    let f = |b: int| m(Calc::OfHalf(deltas(data, x.len())[b])) * block_sums(m, data, x)[b];
    lemma_padded(f, blocks, all);
    lemma_same(
        g,
        |i: int|
            if i < blocks {
                f(i)
            } else {
                0int
            },
        all,
    );
}

// ── Workgroups ──────────────────────────────────────────────────────────────

/// Every weight of a row meets its number on the GPU, too: in whole numbers that wrap
/// around, what a workgroup computes is the sum over all places of weight times number. The
/// scales of the weights are the half-precision numbers that the kernel takes apart by hand.
pub proof fn law_workgroups_weigh_their_row(m: Math, ty: GgmlType, data: Seq<u8>, x: Seq<u32>)
    requires
        wraps(m),
        x.len() > 0,
        ty == GgmlType::Q8_0 || ty == GgmlType::Q4_K || ty == GgmlType::Q5_K || ty
            == GgmlType::Q6_K,
    ensures
        workgroup_dot(m, ty, data, x) == weighed(
            kernel_math(m),
            elements_of(ty, data, x.len()),
            x,
        ) % numbers_in_all(),
{
    let km = kernel_math(m);
    let es = elements_of(ty, data, x.len());
    let parts = Seq::new(64, |lane: int| lane_part(km, ty, data, lane, x));
    assert(wraps(km));
    lemma_halves(m, parts);
    let given = |lane: int| parts[lane] as int;
    let order = lane_order(ty);
    if ty == GgmlType::Q8_0 {
        let steps = blocks_of(blocks_of(x.len(), 32), 64) as int;
        let per_lane = |lane: int| total(|j: int| block_term(km, data, x, lane + 64 * j), steps);
        assert forall|lane: int| 0 <= lane < 64 implies #[trigger] given(lane) % numbers_in_all()
            == per_lane(lane) % numbers_in_all() by {
            lemma_one_block_lane(km, data, x, lane);
            lemma_small_mod(parts[lane] as nat, numbers_in_all() as nat);
        }
        lemma_congruent(given, per_lane, 64);
        lemma_blocks_reordered(km, data, x);
        let half = |d: u16| km(Calc::OfHalf(d));
        let (ds, sums) = (deltas(data, x.len()), block_sums(km, data, x));
        lemma_folded(km, scaled_sums(km), half, ds, sums);
        lemma_same(
            |b: int| half(ds[b]) * sums[b],
            |b: int| km(Calc::OfHalf(deltas(data, x.len())[b])) * block_sums(km, data, x)[b],
            blocks_of(x.len(), 32) as int,
        );
        lemma_scaled_blocks(km, data, x);
    } else {
        let steps = lane_steps(order, x.len());
        let per_lane = |lane: int|
            total(|p: int| term_at(km, es, x, position(order, lane, p)), steps);
        assert forall|lane: int| 0 <= lane < 64 implies #[trigger] given(lane) % numbers_in_all()
            == per_lane(lane) % numbers_in_all() by {
            lemma_one_lane(km, order, es, x, lane, parts[lane]);
            lemma_small_mod(parts[lane] as nat, numbers_in_all() as nat);
        }
        lemma_congruent(given, per_lane, 64);
        lemma_lanes_reordered(km, order, es, x);
    }
}

} // verus!
