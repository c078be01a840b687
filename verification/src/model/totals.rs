//! What the product of a row with a vector is for: the sum over all places of the weight
//! there, times the number there.
//!
//! With rounding, the order of a sum matters, and every format has its own. In an
//! arithmetic without rounding no order does: so the products are held to that sum there,
//! in whole numbers of 32 bits that wrap around.

use vstd::arithmetic::div_mod::{
    lemma_add_mod_noop, lemma_fundamental_div_mod, lemma_fundamental_div_mod_converse,
    lemma_mul_mod_noop, lemma_small_mod,
};
use vstd::prelude::*;

use crate::calc::{fold2, sum, value, Calc, Math};
use crate::model::matmul::{
    batch_entry, block_products, block_sums, element_products, entry, group_sums, lane_sums,
    quant_products, quantized_dot, row_dot, scaled_sums, token_input, vector_quants, vector_scales,
    vector_sums, visited_sum,
};
use crate::quant::block::{blocks_of, half_at, Element};
use crate::quant::order::{
    law_lanes_visit_every_element, law_quarters_visit_every_element, picked, quarter_steps,
    visited, Order,
};
use crate::quant::q8_0::{block_elements, block_part, block_quants, deltas, weight};
use crate::quant::q5_k::{block_dot_of, lemma_grouped_min_sum, min_sum, pos_sum, BlockDot};
use crate::quant::q8_k::{group_sum, peak};
use crate::quant::{elements_of, q5_k};
use crate::single::ZERO;
use crate::types::{GgmlType, TensorView};

verus! {

/// How many numbers of 32 bits there are.
pub open spec fn numbers_in_all() -> int {
    0x1_0000_0000
}

/// Whether an arithmetic is that of whole numbers of 32 bits, which wrap around.
pub open spec fn wraps(m: Math) -> bool {
    &&& forall|a: u32, b: u32| #[trigger] m(Calc::Add(a, b)) == (a + b) % numbers_in_all()
    &&& forall|a: u32, b: u32| #[trigger] m(Calc::Sub(a, b)) == (a - b) % numbers_in_all()
    &&& forall|a: u32, b: u32| #[trigger] m(Calc::Mul(a, b)) == (a * b) % numbers_in_all()
    &&& m(Calc::OfInt(0)) == 0
    &&& m(Calc::OfInt(1)) == 1
}

/// The sum of the first `n` values of a function.
pub open spec fn total(f: spec_fn(int) -> int, n: int) -> int
    decreases n,
{
    if n <= 0 {
        0
    } else {
        total(f, n - 1) + f(n - 1)
    }
}

/// The sum over all places of the weight there, times the number there.
pub open spec fn weighed(m: Math, es: Seq<Element>, x: Seq<u32>) -> int {
    total(|i: int| value(m, es[i]) * x[i], x.len() as int)
}

// ── Sums ────────────────────────────────────────────────────────────────────

pub(crate) proof fn lemma_same(f: spec_fn(int) -> int, g: spec_fn(int) -> int, n: int)
    requires
        forall|i: int| 0 <= i < n ==> #[trigger] f(i) == g(i),
    ensures
        total(f, n) == total(g, n),
    decreases n,
{
    if n > 0 {
        lemma_same(f, g, n - 1);
        assert(f(n - 1) == g(n - 1));
    }
}

pub(crate) proof fn lemma_congruent(f: spec_fn(int) -> int, g: spec_fn(int) -> int, n: int)
    requires
        forall|i: int| 0 <= i < n ==> #[trigger] f(i) % numbers_in_all() == g(i) % numbers_in_all(),
    ensures
        total(f, n) % numbers_in_all() == total(g, n) % numbers_in_all(),
    decreases n,
{
    if n > 0 {
        lemma_congruent(f, g, n - 1);
        assert(f(n - 1) % numbers_in_all() == g(n - 1) % numbers_in_all());
        lemma_add_mod_noop(total(f, n - 1), f(n - 1), numbers_in_all());
        lemma_add_mod_noop(total(g, n - 1), g(n - 1), numbers_in_all());
    }
}

pub(crate) proof fn lemma_added(f: spec_fn(int) -> int, g: spec_fn(int) -> int, n: int)
    ensures
        total(|i: int| f(i) + g(i), n) == total(f, n) + total(g, n),
    decreases n,
{
    if n > 0 {
        lemma_added(f, g, n - 1);
    }
}

proof fn lemma_zero(n: int)
    ensures
        total(|i: int| 0int, n) == 0,
    decreases n,
{
    if n > 0 {
        lemma_zero(n - 1);
    }
}

proof fn lemma_single(at: int, v: int, n: int)
    ensures
        total(
            |i: int|
                if i == at {
                    v
                } else {
                    0int
                },
            n,
        ) == if 0 <= at < n {
            v
        } else {
            0
        },
    decreases n,
{
    if n > 0 {
        lemma_single(at, v, n - 1);
    }
}

proof fn lemma_times(c: int, f: spec_fn(int) -> int, n: int)
    ensures
        total(|i: int| c * f(i), n) == c * total(f, n),
    decreases n,
{
    if n > 0 {
        lemma_times(c, f, n - 1);
        let (t, v) = (total(f, n - 1), f(n - 1));
        assert(c * (t + v) == c * t + c * v) by (nonlinear_arith);
    }
}

/// The sum over rows and then columns is the sum over columns and then rows.
proof fn lemma_exchanged(f: spec_fn(int, int) -> int, a: int, b: int)
    ensures
        total(|i: int| total(|j: int| f(i, j), b), a) == total(
            |j: int| total(|i: int| f(i, j), a),
            b,
        ),
    decreases a,
{
    let by_rows = |i: int| total(|j: int| f(i, j), b);
    let by_columns = |j: int| total(|i: int| f(i, j), a);
    if a <= 0 {
        lemma_zero(b);
        lemma_same(by_columns, |j: int| 0int, b);
    } else {
        lemma_exchanged(f, a - 1, b);
        let shorter = |j: int| total(|i: int| f(i, j), a - 1);
        let last = |j: int| f(a - 1, j);
        lemma_added(shorter, last, b);
        lemma_same(by_columns, |j: int| shorter(j) + last(j), b);
        assert(by_rows(a - 1) == total(last, b));
        assert(total(by_rows, a) == total(by_rows, a - 1) + total(last, b));
    }
}

/// A sum over places that are visited one after the other, each one once, is the sum over
/// all places.
pub(crate) proof fn lemma_reordered(
    f: spec_fn(int) -> int,
    place: spec_fn(int) -> int,
    step: spec_fn(int) -> int,
    n: int,
)
    requires
        forall|k: int| 0 <= k < n ==> 0 <= #[trigger] place(k) < n,
        forall|i: int| 0 <= i < n ==> 0 <= #[trigger] step(i) < n,
        forall|k: int, i: int|
            0 <= k < n && 0 <= i < n ==> (#[trigger] place(k) == i <==> #[trigger] step(i) == k),
    ensures
        total(|k: int| f(place(k)), n) == total(f, n),
{
    let at = |k: int, i: int|
        if place(k) == i {
            f(i)
        } else {
            0int
        };
    let rows = |k: int| total(|i: int| at(k, i), n);
    let columns = |i: int| total(|k: int| at(k, i), n);
    lemma_exchanged(at, n, n);
    assert forall|k: int| 0 <= k < n implies rows(k) == #[trigger] f(place(k)) by {
        let p = place(k);
        lemma_single(p, f(p), n);
        lemma_same(
            |i: int| at(k, i),
            |i: int|
                if i == p {
                    f(p)
                } else {
                    0int
                },
            n,
        );
    }
    assert forall|i: int| 0 <= i < n implies columns(i) == #[trigger] f(i) by {
        let s = step(i);
        lemma_single(s, f(i), n);
        assert forall|k: int| 0 <= k < n implies #[trigger] at(k, i) == (if k == s {
            f(i)
        } else {
            0int
        }) by {
            assert(place(k) == i <==> step(i) == k);
        }
        lemma_same(
            |k: int| at(k, i),
            |k: int|
                if k == s {
                    f(i)
                } else {
                    0int
                },
            n,
        );
    }
    lemma_same(rows, |k: int| f(place(k)), n);
    lemma_same(columns, f, n);
}

/// A sum in parts of equal length.
pub(crate) proof fn lemma_in_parts(f: spec_fn(int) -> int, size: int, parts: int)
    requires
        0 < size,
        0 <= parts,
    ensures
        total(|b: int| total(|i: int| f(size * b + i), size), parts) == total(f, size * parts),
    decreases parts,
{
    if parts > 0 {
        lemma_in_parts(f, size, parts - 1);
        let from = size * (parts - 1);
        assert(size * parts == from + size) by (nonlinear_arith)
            requires
                from == size * (parts - 1),
        ;
        assert(0 <= from) by (nonlinear_arith)
            requires
                from == size * (parts - 1),
                0 < size,
                0 <= parts - 1,
        ;
        lemma_continued(f, from, size);
    } else {
        assert(size * 0 == 0);
    }
}

pub(crate) proof fn lemma_continued(f: spec_fn(int) -> int, from: int, count: int)
    requires
        0 <= from,
        0 <= count,
    ensures
        total(f, from + count) == total(f, from) + total(|i: int| f(from + i), count),
    decreases count,
{
    if count > 0 {
        lemma_continued(f, from, count - 1);
    }
}

/// Nothing comes in behind the last element.
pub(crate) proof fn lemma_padded(f: spec_fn(int) -> int, n: int, room: int)
    requires
        0 <= n <= room,
    ensures
        total(
            |i: int|
                if i < n {
                    f(i)
                } else {
                    0int
                },
            room,
        ) == total(f, n),
    decreases room,
{
    let padded = |i: int|
        if i < n {
            f(i)
        } else {
            0int
        };
    if room > n {
        lemma_padded(f, n, room - 1);
    } else {
        lemma_same(padded, f, n);
    }
}

// ── Sums in wrapping arithmetic ─────────────────────────────────────────────

pub(crate) proof fn lemma_folded<A>(
    m: Math,
    take_in: spec_fn(u32, A, u32) -> u32,
    val: spec_fn(A) -> u32,
    a: Seq<A>,
    x: Seq<u32>,
)
    requires
        wraps(m),
        a.len() == x.len(),
        forall|acc: u32, e: A, y: u32| #[trigger]
            take_in(acc, e, y) == m(Calc::Add(acc, m(Calc::Mul(val(e), y)))),
    ensures
        fold2(take_in, ZERO, a, x) == total(|i: int| val(a[i]) * x[i], a.len() as int)
            % numbers_in_all(),
    decreases a.len(),
{
    let n = a.len() as int;
    let f = |i: int| val(a[i]) * x[i];
    if n > 0 {
        let (a1, x1) = (a.drop_last(), x.drop_last());
        lemma_folded(m, take_in, val, a1, x1);
        lemma_same(|i: int| val(a1[i]) * x1[i], f, n - 1);
        let acc = fold2(take_in, ZERO, a1, x1);
        let one = val(a.last()) * x.last();
        assert(take_in(acc, a.last(), x.last()) == m(
            Calc::Add(acc, m(Calc::Mul(val(a.last()), x.last()))),
        ));
        lemma_add_mod_noop(total(f, n - 1), one, numbers_in_all());
        assert(f(n - 1) == one);
    }
}

proof fn lemma_summed(m: Math, s: Seq<u32>)
    requires
        wraps(m),
    ensures
        sum(m, s) == total(|i: int| s[i] as int, s.len() as int) % numbers_in_all(),
    decreases s.len(),
{
    let n = s.len() as int;
    let f = |i: int| s[i] as int;
    if n > 0 {
        let s1 = s.drop_last();
        lemma_summed(m, s1);
        lemma_same(|i: int| s1[i] as int, f, n - 1);
        lemma_small_mod(s.last() as nat, numbers_in_all() as nat);
        lemma_add_mod_noop(total(f, n - 1), s.last() as int, numbers_in_all());
        assert(f(n - 1) == s.last());
    }
}

// ── Orders ──────────────────────────────────────────────────────────────────

proof fn lemma_visited(f: spec_fn(int) -> int, order: Order, n: int, steps: int)
    requires
        0 <= steps,
    ensures
        ({
            let places = visited(order, n, steps);
            total(|j: int| f(places[j]), places.len() as int) == total(
                |k: int|
                    if order.place(k) < n {
                        f(order.place(k))
                    } else {
                        0int
                    },
                steps,
            )
        }),
    decreases steps,
{
    if steps > 0 {
        lemma_visited(f, order, n, steps - 1);
        let before = visited(order, n, steps - 1);
        let places = visited(order, n, steps);
        if order.place(steps - 1) < n {
            lemma_same(
                |j: int| f(before[j]),
                |j: int| f(places[j]),
                before.len() as int,
            );
        }
    }
}

proof fn lemma_visited_sum(
    m: Math,
    order: Order,
    steps: int,
    es: Seq<Element>,
    x: Seq<u32>,
)
    requires
        wraps(m),
        0 <= steps,
        es.len() == x.len(),
    ensures
        visited_sum(m, order, steps, es, x) == total(
            |k: int|
                if order.place(k) < x.len() {
                    value(m, es[order.place(k)]) * x[order.place(k)]
                } else {
                    0int
                },
            steps,
        ) % numbers_in_all(),
{
    let n = x.len() as int;
    let f = |i: int| value(m, es[i]) * x[i];
    let places = visited(order, n, steps);
    let (a, y) = (picked(es, places), picked(x, places));
    lemma_folded(m, element_products(m), |e: Element| value(m, e), a, y);
    let val = |e: Element| value(m, e);
    lemma_same(|i: int| val(a[i]) * y[i], |j: int| f(places[j]), places.len() as int);
    lemma_visited(f, order, n, steps);
    lemma_same(
        |k: int|
            if order.place(k) < n {
                f(order.place(k))
            } else {
                0int
            },
        |k: int|
            if order.place(k) < x.len() {
                value(m, es[order.place(k)]) * x[order.place(k)]
            } else {
                0int
            },
        steps,
    );
}

proof fn lemma_quarters(m: Math, es: Seq<Element>, x: Seq<u32>)
    requires
        wraps(m),
        es.len() == x.len(),
    ensures
        visited_sum(m, Order::Quarters, quarter_steps(x.len()), es, x) == weighed(m, es, x)
            % numbers_in_all(),
{
    let n = x.len() as int;
    let steps = quarter_steps(x.len());
    assert(n <= steps);
    lemma_visited_sum(m, Order::Quarters, steps, es, x);
    let f = |i: int| value(m, es[i]) * x[i];
    let g = |i: int|
        if i < n {
            f(i)
        } else {
            0int
        };
    let place = |k: int| Order::Quarters.place(k);
    let step = |i: int| 128 * (i / 128) + 4 * (i % 32) + (i % 128) / 32;
    assert forall|k: int| 0 <= k < steps implies 0 <= #[trigger] place(k) < steps by {
        lemma_quarter_bounds(k, steps / 128);
    }
    assert forall|i: int| 0 <= i < steps implies 0 <= #[trigger] step(i) < steps by {
        law_quarters_visit_every_element(steps as nat, i, 0);
        assert(quarter_steps(steps as nat) == steps);
    }
    assert forall|k: int, i: int| 0 <= k < steps && 0 <= i < steps implies (#[trigger] place(k) == i
        <==> #[trigger] step(i) == k) by {
        law_quarters_visit_every_element(steps as nat, i, k);
    }
    lemma_reordered(g, place, step, steps);
    lemma_same(
        |k: int|
            if Order::Quarters.place(k) < x.len() {
                value(m, es[Order::Quarters.place(k)]) * x[Order::Quarters.place(k)]
            } else {
                0int
            },
        |k: int| g(place(k)),
        steps,
    );
    lemma_padded(f, n, steps);
    lemma_same(f, |i: int| value(m, es[i]) * x[i], n);
}

proof fn lemma_quarter_bounds(k: int, blocks: int)
    requires
        0 <= k < 128 * blocks,
    ensures
        0 <= Order::Quarters.place(k) < 128 * blocks,
{
    let (a, r) = (k / 128, k % 128);
    lemma_fundamental_div_mod(k, 128);
    assert(0 <= r / 4 < 32 && 0 <= k % 4 < 4);
    assert(0 <= a && a + 1 <= blocks);
}

/// The place that step `k` of all lanes of all groups visits, one after the other.
spec fn lane_place(k: int) -> int {
    Order::Lane(k / 64, k / 8 % 8).place(k % 8)
}

spec fn lane_step(i: int) -> int {
    64 * (i / 64) + 8 * (i % 8) + 2 * (i % 32 / 8) + i % 64 / 32
}

proof fn lemma_lane_parts(k: int)
    requires
        0 <= k,
    ensures
        k == 64 * (k / 64) + 8 * (k / 8 % 8) + k % 8,
        0 <= k / 8 % 8 < 8,
        0 <= k % 8 < 8,
{
    let (g, u) = (k / 64, k % 64);
    lemma_fundamental_div_mod(k, 64);
    lemma_fundamental_div_mod(u, 8);
    lemma_fundamental_div_mod_converse(k, 8, 8 * g + u / 8, u % 8);
    lemma_fundamental_div_mod_converse(8 * g + u / 8, 8, g, u / 8);
}

proof fn lemma_lane_step(i: int)
    requires
        0 <= i,
    ensures
        lane_step(i) / 64 == i / 64,
        lane_step(i) / 8 % 8 == i % 8,
        lane_step(i) % 8 == 2 * (i % 32 / 8) + i % 64 / 32,
        0 <= lane_step(i) - 64 * (i / 64) < 64,
{
    let (g, l) = (i / 64, i % 8);
    let k = 2 * (i % 32 / 8) + i % 64 / 32;
    assert(0 <= k < 8);
    assert(0 <= l < 8);
    let s = 64 * g + 8 * l + k;
    lemma_fundamental_div_mod_converse(s, 64, g, 8 * l + k);
    lemma_fundamental_div_mod_converse(s, 8, 8 * g + l, k);
    lemma_fundamental_div_mod_converse(8 * g + l, 8, g, l);
}

proof fn lemma_lane_bounds(k: int)
    requires
        0 <= k,
    ensures
        64 * (k / 64) <= lane_place(k) < 64 * (k / 64) + 64,
{
    let s = k % 8;
    assert(0 <= s % 2 <= 1 && 0 <= s / 2 <= 3);
    assert(0 <= k / 8 % 8 < 8);
}

proof fn lemma_lane_ranges(k: int, blocks: int)
    requires
        0 <= k < 64 * blocks,
    ensures
        0 <= lane_place(k) < 64 * blocks,
        0 <= lane_step(k) < 64 * blocks,
{
    lemma_lane_bounds(k);
    lemma_lane_step(k);
    lemma_fundamental_div_mod(k, 64);
    let g = k / 64;
    assert(0 <= g && g + 1 <= blocks);
}

proof fn lemma_lane_place(k: int, i: int, blocks: int)
    requires
        0 <= k < 64 * blocks,
        0 <= i < 64 * blocks,
    ensures
        lane_place(k) == i <==> lane_step(i) == k,
{
    let (g, l, s) = (k / 64, k / 8 % 8, k % 8);
    let (c, t, step) = (i / 64, i % 8, 2 * ((i % 32) / 8) + (i % 64) / 32);
    assert(k == 64 * g + 8 * l + s && 0 <= l < 8 && 0 <= s < 8) by {
        lemma_lane_parts(k);
    }
    assert(lane_step(i) / 64 == c && lane_step(i) / 8 % 8 == t && lane_step(i) % 8 == step) by {
        lemma_lane_step(i);
    }
    assert(Order::Lane(c, t).place(step) == i) by {
        law_lanes_visit_every_element((64 * blocks) as nat, i, g, l, s);
    }
    assert(Order::Lane(g, l).place(s) == i ==> g == c && l == t && s == step) by {
        law_lanes_visit_every_element((64 * blocks) as nat, i, g, l, s);
    }
    assert(lane_place(k) == Order::Lane(g, l).place(s));
    assert(lane_step(i) == 64 * c + 8 * t + step);
}

/// What is at the place that step `k` of all lanes visits.
spec fn lane_term(m: Math, es: Seq<Element>, x: Seq<u32>, k: int) -> int {
    if lane_place(k) < x.len() {
        value(m, es[lane_place(k)]) * x[lane_place(k)]
    } else {
        0
    }
}

proof fn lemma_one_lane(m: Math, es: Seq<Element>, x: Seq<u32>, b: int, l: int)
    requires
        wraps(m),
        es.len() == x.len(),
        0 <= b,
        0 <= l < 8,
    ensures
        lane_sums(m, es, x, b)[l] == total(
            |k: int| lane_term(m, es, x, 64 * b + (8 * l + k)),
            8,
        ) % numbers_in_all(),
{
    lemma_visited_sum(m, Order::Lane(b, l), 8, es, x);
    let own = |k: int|
        if Order::Lane(b, l).place(k) < x.len() {
            value(m, es[Order::Lane(b, l).place(k)]) * x[Order::Lane(b, l).place(k)]
        } else {
            0int
        };
    let term = |k: int| lane_term(m, es, x, 64 * b + (8 * l + k));
    assert forall|k: int| 0 <= k < 8 implies #[trigger] term(k) == own(k) by {
        let s = 64 * b + (8 * l + k);
        assert(s / 64 == b && s / 8 % 8 == l && s % 8 == k);
    }
    lemma_same(term, own, 8);
}

proof fn lemma_one_group(m: Math, es: Seq<Element>, x: Seq<u32>, b: int)
    requires
        wraps(m),
        es.len() == x.len(),
        0 <= b,
    ensures
        sum(m, lane_sums(m, es, x, b)) == total(|k: int| lane_term(m, es, x, 64 * b + k), 64)
            % numbers_in_all(),
{
    let lanes = lane_sums(m, es, x, b);
    lemma_summed(m, lanes);
    let in_group = |k: int| lane_term(m, es, x, 64 * b + k);
    let per_lane = |l: int| total(|k: int| in_group(8 * l + k), 8);
    let given = |l: int| lanes[l] as int;
    assert forall|l: int| 0 <= l < 8 implies #[trigger] per_lane(l) % numbers_in_all() == given(l)
        % numbers_in_all() by {
        lemma_one_lane(m, es, x, b, l);
        lemma_same(
            |k: int| in_group(8 * l + k),
            |k: int| lane_term(m, es, x, 64 * b + (8 * l + k)),
            8,
        );
        lemma_small_mod(lanes[l] as nat, numbers_in_all() as nat);
    }
    lemma_congruent(per_lane, given, 8);
    lemma_in_parts(in_group, 8, 8);
}

proof fn lemma_all_lanes(m: Math, es: Seq<Element>, x: Seq<u32>)
    requires
        wraps(m),
        es.len() == x.len(),
    ensures
        sum(m, group_sums(m, es, x)) == total(
            |k: int| lane_term(m, es, x, k),
            64 * blocks_of(x.len(), 64) as int,
        ) % numbers_in_all(),
{
    let blocks = blocks_of(x.len(), 64) as int;
    let groups = group_sums(m, es, x);
    lemma_summed(m, groups);
    let flat = |k: int| lane_term(m, es, x, k);
    let per_group = |b: int| total(|k: int| flat(64 * b + k), 64);
    let given = |b: int| groups[b] as int;
    assert forall|b: int| 0 <= b < blocks implies #[trigger] per_group(b) % numbers_in_all()
        == given(b) % numbers_in_all() by {
        lemma_one_group(m, es, x, b);
        lemma_same(
            |k: int| flat(64 * b + k),
            |k: int| lane_term(m, es, x, 64 * b + k),
            64,
        );
        lemma_small_mod(groups[b] as nat, numbers_in_all() as nat);
    }
    lemma_congruent(per_group, given, blocks);
    lemma_in_parts(flat, 64, blocks);
}

proof fn lemma_lanes(m: Math, es: Seq<Element>, x: Seq<u32>)
    requires
        wraps(m),
        es.len() == x.len(),
    ensures
        sum(m, group_sums(m, es, x)) == weighed(m, es, x) % numbers_in_all(),
{
    let n = x.len() as int;
    let blocks = blocks_of(x.len(), 64) as int;
    let f = |i: int| value(m, es[i]) * x[i];
    let g = |i: int|
        if i < n {
            f(i)
        } else {
            0int
        };
    lemma_all_lanes(m, es, x);
    let place = |k: int| lane_place(k);
    let step = |i: int| lane_step(i);
    assert forall|k: int| 0 <= k < 64 * blocks implies 0 <= #[trigger] place(k) < 64 * blocks by {
        lemma_lane_ranges(k, blocks);
    }
    assert forall|i: int| 0 <= i < 64 * blocks implies 0 <= #[trigger] step(i) < 64 * blocks by {
        lemma_lane_ranges(i, blocks);
    }
    assert forall|k: int, i: int| 0 <= k < 64 * blocks && 0 <= i < 64 * blocks implies (
    #[trigger] place(k) == i <==> #[trigger] step(i) == k) by {
        lemma_lane_place(k, i, blocks);
    }
    lemma_reordered(g, place, step, 64 * blocks);
    lemma_same(|k: int| lane_term(m, es, x, k), |k: int| g(place(k)), 64 * blocks);
    lemma_padded(f, n, 64 * blocks);
}

// ── Blocks with a scale ─────────────────────────────────────────────────────

proof fn lemma_scaled_value(m: Math, bytes: Seq<u8>, i: int, y: u32)
    requires
        wraps(m),
        0 <= i,
    ensures
        (value(m, Element::Quantized(weight(bytes, i))) * y) % numbers_in_all() == (m(
            Calc::OfHalf(half_at(bytes, 34 * (i / 32))),
        ) * (m(Calc::OfInt(weight(bytes, i).quant)) * y)) % numbers_in_all(),
{
    let w = weight(bytes, i);
    let h = m(Calc::OfHalf(w.d));
    let q = m(Calc::OfInt(w.quant));
    lemma_small_mod(h as nat, numbers_in_all() as nat);
    assert(m(Calc::Mul(h, 1)) == h);
    assert(m(Calc::Mul(m(Calc::OfHalf(0)), 0)) == 0) by {
        assert(m(Calc::OfHalf(0)) * 0 == 0);
    }
    let hq = m(Calc::Mul(h, q));
    lemma_small_mod(hq as nat, numbers_in_all() as nat);
    assert(m(Calc::Sub(hq, 0)) == hq);
    assert(value(m, Element::Quantized(w)) == hq);
    lemma_mul_mod_noop(h * q, y as int, numbers_in_all());
    lemma_mul_mod_noop(hq as int, y as int, numbers_in_all());
    vstd::arithmetic::div_mod::lemma_mod_twice(h * q, numbers_in_all());
    assert((h * q) * y == h * (q * y)) by (nonlinear_arith);
}

pub(crate) proof fn lemma_scaled_blocks(m: Math, bytes: Seq<u8>, x: Seq<u32>)
    requires
        wraps(m),
    ensures
        row_dot(m, GgmlType::Q8_0, bytes, x) == weighed(
            m,
            elements_of(GgmlType::Q8_0, bytes, x.len()),
            x,
        ) % numbers_in_all(),
{
    let n = x.len() as int;
    let blocks = blocks_of(x.len(), 32) as int;
    let es = elements_of(GgmlType::Q8_0, bytes, x.len());
    let f = |i: int| value(m, es[i]) * x[i];
    let g = |i: int|
        if i < n {
            f(i)
        } else {
            0int
        };
    let ds = deltas(bytes, x.len());
    let sums = block_sums(m, bytes, x);
    let half = |d: u16| m(Calc::OfHalf(d));
    lemma_folded(m, scaled_sums(m), half, ds, sums);
    let per_block = |b: int| total(|i: int| g(32 * b + i), 32);
    assert forall|b: int| 0 <= b < blocks implies #[trigger] per_block(b) % numbers_in_all() == (
    half(ds[b]) * sums[b]) % numbers_in_all() by {
        lemma_one_block(m, bytes, x, b);
        lemma_same(
            |i: int| g(32 * b + i),
            |i: int|
                if 32 * b + i < n {
                    value(m, es[32 * b + i]) * x[32 * b + i]
                } else {
                    0int
                },
            32,
        );
    }
    lemma_congruent(per_block, |b: int| half(ds[b]) * sums[b], blocks);
    lemma_in_parts(g, 32, blocks);
    lemma_padded(f, n, 32 * blocks);
}

proof fn lemma_one_block(m: Math, bytes: Seq<u8>, x: Seq<u32>, b: int)
    requires
        wraps(m),
        0 <= b < blocks_of(x.len(), 32),
    ensures
        ({
            let es = elements_of(GgmlType::Q8_0, bytes, x.len());
            total(
                |i: int|
                    if 32 * b + i < x.len() {
                        value(m, es[32 * b + i]) * x[32 * b + i]
                    } else {
                        0int
                    },
                32,
            ) % numbers_in_all() == (m(Calc::OfHalf(deltas(bytes, x.len())[b])) * block_sums(
                m,
                bytes,
                x,
            )[b]) % numbers_in_all()
        }),
{
    let n = x.len() as int;
    let es = elements_of(GgmlType::Q8_0, bytes, x.len());
    let qs = block_quants(bytes, x.len(), b);
    let part = block_part(x, b);
    let count = block_elements(x.len(), b) as int;
    let int_of = |q: i32| m(Calc::OfInt(q));
    assert(qs.len() == count && part.len() == count);
    lemma_folded(m, quant_products(m), int_of, qs, part);
    let inner = |i: int| int_of(qs[i]) * part[i];
    let h = m(Calc::OfHalf(deltas(bytes, x.len())[b])) as int;
    lemma_times(h, inner, count);
    lemma_mul_mod_noop(h, total(inner, count), numbers_in_all());
    lemma_mul_mod_noop(h, block_sums(m, bytes, x)[b] as int, numbers_in_all());
    vstd::arithmetic::div_mod::lemma_mod_twice(total(inner, count), numbers_in_all());
    let own = |i: int| value(m, es[32 * b + i]) * x[32 * b + i];
    assert forall|i: int| 0 <= i < count implies #[trigger] own(i) % numbers_in_all() == (h * inner(
        i,
    )) % numbers_in_all() by {
        assert((32 * b + i) / 32 == b);
        lemma_scaled_value(m, bytes, 32 * b + i, x[32 * b + i]);
        assert(es[32 * b + i] == Element::Quantized(weight(bytes, 32 * b + i)));
    }
    lemma_congruent(own, |i: int| h * inner(i), count);
    lemma_padded(own, count, 32);
    lemma_same(
        |i: int|
            if i < count {
                own(i)
            } else {
                0int
            },
        |i: int|
            if 32 * b + i < n {
                value(m, es[32 * b + i]) * x[32 * b + i]
            } else {
                0int
            },
        32,
    );
}

// ── Products ────────────────────────────────────────────────────────────────

/// Every weight of a row meets its number: in whole numbers that wrap around, the product
/// of a row with a vector is the sum over all places of weight times number, whatever the
/// format of the row is.
pub proof fn law_every_weight_meets_its_number(
    m: Math,
    ty: GgmlType,
    bytes: Seq<u8>,
    x: Seq<u32>,
)
    requires
        wraps(m),
        elements_of(ty, bytes, x.len()).len() == x.len(),
    ensures
        row_dot(m, ty, bytes, x) == weighed(m, elements_of(ty, bytes, x.len()), x)
            % numbers_in_all(),
{
    let es = elements_of(ty, bytes, x.len());
    match ty {
        GgmlType::Q8_0 => lemma_scaled_blocks(m, bytes, x),
        GgmlType::Q4_K | GgmlType::Q5_K => lemma_lanes(m, es, x),
        GgmlType::Q6_K => lemma_quarters(m, es, x),
        _ => {
            let val = |e: Element| value(m, e);
            lemma_folded(m, element_products(m), val, es, x);
            lemma_same(
                |i: int| val(es[i]) * x[i],
                |i: int| value(m, es[i]) * x[i],
                x.len() as int,
            );
        },
    }
}

/// The weights of row `row` of a tensor, as far as `n` of them: rows of as many bytes
/// follow each other from the place of the tensor on.
pub open spec fn row_weights(t: TensorView, data: Seq<u8>, row: int, n: nat) -> Seq<Element> {
    let bytes = t.ggml_type.spec_type_size(t.dims[0] as nat);
    elements_of(t.ggml_type, data.skip(t.byte_offset + row * bytes), n)
}

/// The product of a row of a tensor with a vector, and the product of the same row with
/// the vector of a token in a batch, are the sum over all places of the weights of that row
/// times the numbers of the vector.
pub proof fn law_products_weigh_their_row(
    m: Math,
    t: TensorView,
    data: Seq<u8>,
    row: nat,
    x: Seq<u32>,
)
    requires
        wraps(m),
        t.n_dims != 1,
        x.len() == t.dims[0],
        row_weights(t, data, row as int, x.len()).len() == x.len(),
    ensures
        ({
            let sum = weighed(m, row_weights(t, data, row as int, x.len()), x) % numbers_in_all();
            &&& entry(m, t, data, row, x, false) == sum
            &&& t.ggml_type != GgmlType::Q5_K ==> entry(m, t, data, row, x, true) == sum
            &&& batch_entry(m, t, data, row, x) == sum
        }),
{
    let es = row_weights(t, data, row as int, x.len());
    law_every_weight_meets_its_number(
        m,
        t.ggml_type,
        data.skip(t.row_offset(row) as int),
        x,
    );
    let val = |e: Element| value(m, e);
    lemma_folded(m, element_products(m), val, es, x);
    lemma_same(|i: int| val(es[i]) * x[i], |i: int| value(m, es[i]) * x[i], x.len() as int);
    assert(es.take(es.len() as int) =~= es);
    assert(x.take(x.len() as int) =~= x);
}

// ── Products with a quantized vector ────────────────────────────────────────

proof fn lemma_block_sums(data: Seq<u8>, qs: Seq<i8>, b: int, n: nat)
    requires
        0 <= b,
        n <= 256,
    ensures
        pos_sum(data, 176 * b, qs, 256 * b, n) == total(
            |r: int|
                q5_k::weight(data, 256 * b + r).scale * q5_k::weight(data, 256 * b + r).quant
                    * qs[256 * b + r],
            n as int,
        ),
        min_sum(data, 176 * b, qs, 256 * b, n) == total(
            |r: int| q5_k::weight(data, 256 * b + r).min * qs[256 * b + r],
            n as int,
        ),
    decreases n,
{
    if n > 0 {
        lemma_block_sums(data, qs, b, (n - 1) as nat);
        let r = n - 1;
        lemma_fundamental_div_mod_converse(256 * b + r, 256, b, r);
    }
}

/// A block of a Q5_K row is multiplied with a quantized vector in whole numbers: its first
/// sum is that of scale times quant times value, and its second one that of minimum times
/// value, over all 256 places; its two scales are those of its weights.
pub proof fn law_blocks_are_multiplied_in_whole_numbers(
    m: Math,
    bytes: Seq<u8>,
    x: Seq<u32>,
    b: int,
)
    requires
        0 <= b < blocks_of(x.len(), 256),
    ensures
        ({
            let q = vector_quants(m, x);
            let dot = block_dot_of(bytes, q, vector_sums(m, x), b);
            let w = |r: int| q5_k::weight(bytes, 256 * b + r);
            &&& dot.pos == total(|r: int| w(r).scale * w(r).quant * q[256 * b + r], 256) as i32
            &&& dot.min == total(|r: int| w(r).min * q[256 * b + r], 256) as i32
            &&& dot.d == w(0).d && dot.dmin == w(0).dmin
        }),
{
    let q = vector_quants(m, x);
    let sums = vector_sums(m, x);
    let w = |r: int| q5_k::weight(bytes, 256 * b + r);
    assert forall|g: int| 16 * b <= g < 16 * b + 16 implies #[trigger] sums[g] == group_sum(
        q,
        16 * g,
        16,
    ) by {
        lemma_group_sum_bounds(q, 16 * g, 16);
    }
    lemma_grouped_min_sum(bytes, 176 * b, q, sums, b, 8);
    lemma_block_sums(bytes, q, b, 256);
    lemma_same(
        |r: int|
            q5_k::weight(bytes, 256 * b + r).scale * q5_k::weight(bytes, 256 * b + r).quant
                * q[256 * b + r],
        |r: int| w(r).scale * w(r).quant * q[256 * b + r],
        256,
    );
    lemma_same(
        |r: int| q5_k::weight(bytes, 256 * b + r).min * q[256 * b + r],
        |r: int| w(r).min * q[256 * b + r],
        256,
    );
    lemma_fundamental_div_mod_converse(256 * b, 256, b, 0);
}

proof fn lemma_group_sum_bounds(qs: Seq<i8>, start: int, count: nat)
    ensures
        -128 * count <= group_sum(qs, start, count) <= 127 * count,
    decreases count,
{
    if count > 0 {
        lemma_group_sum_bounds(qs, start, (count - 1) as nat);
    }
}

/// The product of a Q5_K row with a quantized vector takes up its blocks one by one: each
/// one with the scale of the vector's block, times its own scale times its first sum less
/// its minimum's scale times its second sum. The scale of a block of the vector is one over
/// -127 over its peak, and its values are the numbers times -127 over the peak, rounded,
/// and at most 127; a block without a peak has the scale zero.
pub proof fn law_a_vector_is_quantized_by_its_peak(m: Math, bytes: Seq<u8>, x: Seq<u32>, i: int)
    requires
        0 <= i < x.len(),
    ensures
        ({
            let b = i / 256;
            let end = if 256 * b + 256 <= x.len() {
                256 * b + 256
            } else {
                x.len() as int
            };
            match peak(x.subrange(256 * b, end)) {
                Some(p) => {
                    let inverse = m(Calc::Div(0xC2FE_0000, p));
                    let v = m(Calc::Round(m(Calc::Mul(inverse, x[i])))) as i32;
                    &&& vector_scales(m, x)[b] == m(Calc::Div(0x3F80_0000, inverse))
                    &&& vector_quants(m, x)[i] == if v > 127 {
                        127i8
                    } else {
                        v as i8
                    }
                },
                None => vector_scales(m, x)[b] == 0 && vector_quants(m, x)[i] == 0,
            }
        }),
        quantized_dot(m, bytes, x) == fold2(
            |acc: u32, dot: BlockDot, dx: u32|
                m(
                    Calc::Add(
                        acc,
                        m(
                            Calc::Mul(
                                dx,
                                m(
                                    Calc::Sub(
                                        m(
                                            Calc::Mul(
                                                m(Calc::OfHalf(dot.d)),
                                                m(Calc::OfInt(dot.pos)),
                                            ),
                                        ),
                                        m(
                                            Calc::Mul(
                                                m(Calc::OfHalf(dot.dmin)),
                                                m(Calc::OfInt(dot.min)),
                                            ),
                                        ),
                                    ),
                                ),
                            ),
                        ),
                    ),
                ),
            0,
            Seq::new(
                blocks_of(x.len(), 256),
                |b: int| block_dot_of(bytes, vector_quants(m, x), vector_sums(m, x), b),
            ),
            vector_scales(m, x),
        ),
{
    let take_in = |acc: u32, dot: BlockDot, dx: u32|
        m(
            Calc::Add(
                acc,
                m(
                    Calc::Mul(
                        dx,
                        m(
                            Calc::Sub(
                                m(Calc::Mul(m(Calc::OfHalf(dot.d)), m(Calc::OfInt(dot.pos)))),
                                m(Calc::Mul(m(Calc::OfHalf(dot.dmin)), m(Calc::OfInt(dot.min)))),
                            ),
                        ),
                    ),
                ),
            ),
        );
    assert(block_products(m) =~= take_in);
    assert(i < 256 * blocks_of(x.len(), 256));
    assert(0 <= i / 256 < blocks_of(x.len(), 256));
}

/// The vectors of a batch follow each other: element `j` of that of token `i` stands `i`
/// vectors and `j` elements behind the first.
pub proof fn law_vectors_of_a_batch_follow_each_other(x: Seq<u32>, n: nat, i: int, j: int)
    requires
        0 <= i,
        0 <= j < n,
        (i + 1) * n <= x.len(),
    ensures
        token_input(x, n, i).len() == n,
        token_input(x, n, i)[j] == x[i * n + j],
{
    assert(0 <= i * n && (i + 1) * n == i * n + n) by (nonlinear_arith)
        requires
            0 <= i,
    ;
}

} // verus!
