//! The order in which the products of a row with a vector are added up.
//!
//! Q4_K and Q5_K rows are summed in groups of 64 values with eight lanes each, and Q6_K
//! rows in halves of a block, whose four quarters take turns.

use vstd::arithmetic::div_mod::lemma_fundamental_div_mod_converse;
use vstd::prelude::*;

use crate::quant::block::{accumulated, blocks_of, quantized_elements, takes_in, Element, Weight};

verus! {

/// An order in which elements are visited.
pub enum Order {
    /// In stretches of 128 elements: one of each of the four quarters of the stretch, and
    /// then the next ones.
    Quarters,
    /// A lane of a group of 64 elements: every eighth one of the group, those of the first
    /// half of the group and of the second half in turns.
    Lane(int, int),
}

impl Order {
    /// The place of the element that is visited at step `k`.
    pub open spec fn place(self, k: int) -> int {
        match self {
            Order::Quarters => 128 * (k / 128) + 32 * (k % 4) + (k % 128) / 4,
            Order::Lane(group, lane) => 64 * group + 32 * (k % 2) + 8 * (k / 2) + lane,
        }
    }
}

/// The places that the first `steps` steps visit, those of `n` elements.
pub open spec fn visited(order: Order, n: int, steps: int) -> Seq<int>
    decreases steps,
{
    if steps <= 0 {
        Seq::empty()
    } else if order.place(steps - 1) < n {
        visited(order, n, steps - 1).push(order.place(steps - 1))
    } else {
        visited(order, n, steps - 1)
    }
}

/// The elements at some places.
pub open spec fn picked<E>(s: Seq<E>, places: Seq<int>) -> Seq<E> {
    Seq::new(places.len(), |k: int| s[places[k]])
}

/// Whether `total` comes from `zero` by taking in the pairs that the first `steps` steps
/// visit.
pub open spec fn is_visited_sum<A, F: Fn(A, Element, A) -> A>(
    order: Order,
    steps: int,
    take_in: F,
    zero: A,
    values: Seq<Element>,
    x: Seq<A>,
    total: A,
) -> bool {
    let places = visited(order, x.len() as int, steps);
    accumulated(take_in, zero, picked(values, places), picked(x, places), total)
}

/// The steps that visit `n` elements by quarters.
pub open spec fn quarter_steps(n: nat) -> int {
    128 * blocks_of(n, 128) as int
}

/// Whether `total` is the product of the values of a row with `x`, by quarters.
pub open spec fn is_quarters_dot<A, F: Fn(A, Element, A) -> A>(
    take_in: F,
    zero: A,
    values: Seq<Element>,
    x: Seq<A>,
    total: A,
) -> bool {
    is_visited_sum(Order::Quarters, quarter_steps(x.len()), take_in, zero, values, x, total)
}

/// Whether `total` comes from `start` by adding parts, one after the other.
pub open spec fn chained<A, P: Fn(A, A) -> A>(plus: P, start: A, parts: Seq<A>, total: A) -> bool
    decreases parts.len(),
{
    if parts.len() == 0 {
        total == start
    } else {
        exists|before: A|
            chained(plus, start, parts.drop_last(), before) && #[trigger] plus.ensures(
                (before, parts.last()),
                total,
            )
    }
}

/// Whether `v` is the sum of a group of 64 values: of its eight lanes, which are then
/// added up.
pub open spec fn is_group_sum<A, F: Fn(A, Element, A) -> A, P: Fn(A, A) -> A>(
    take_in: F,
    plus: P,
    zero: A,
    values: Seq<Element>,
    x: Seq<A>,
    group: int,
    v: A,
) -> bool {
    exists|lanes: Seq<A>|
        {
            &&& lanes.len() == 8
            &&& forall|l: int|
                0 <= l < 8 ==> is_visited_sum(
                    Order::Lane(group, l),
                    8,
                    take_in,
                    zero,
                    values,
                    x,
                    #[trigger] lanes[l],
                )
            &&& #[trigger] chained(plus, zero, lanes, v)
        }
}

/// Whether `total` is the product of the values of a row with `x`, by groups of lanes.
pub open spec fn is_lanes_dot<A, F: Fn(A, Element, A) -> A, P: Fn(A, A) -> A>(
    take_in: F,
    plus: P,
    zero: A,
    values: Seq<Element>,
    x: Seq<A>,
    total: A,
) -> bool {
    exists|groups: Seq<A>|
        {
            &&& groups.len() == blocks_of(x.len(), 64)
            &&& forall|g: int|
                0 <= g < groups.len() ==> is_group_sum(
                    take_in,
                    plus,
                    zero,
                    values,
                    x,
                    g,
                    #[trigger] groups[g],
                )
            &&& #[trigger] chained(plus, zero, groups, total)
        }
}

/// Whether two numbers can always be added.
pub open spec fn adds<A, P: Fn(A, A) -> A>(plus: P) -> bool {
    forall|a: A, b: A| #[trigger] plus.requires((a, b))
}

proof fn lemma_quarter_step(a: int, q: int, l: int)
    requires
        0 <= q < 4,
        0 <= l < 32,
    ensures
        Order::Quarters.place(128 * a + 4 * l + q) == 128 * a + 32 * q + l,
{
    let step = 128 * a + 4 * l + q;
    lemma_fundamental_div_mod_converse(step, 128, a, 4 * l + q);
    lemma_fundamental_div_mod_converse(step, 4, 32 * a + l, q);
    lemma_fundamental_div_mod_converse(4 * l + q, 4, l, q);
}

proof fn lemma_quarter_parts(k: int)
    ensures
        k == 128 * (k / 128) + 4 * ((k % 128) / 4) + k % 4,
        0 <= (k % 128) / 4 < 32,
        0 <= k % 4 < 4,
{
    let (a, r) = (k / 128, k % 128);
    let (l, q) = (r / 4, r % 4);
    lemma_fundamental_div_mod_converse(k, 4, 32 * a + l, q);
}

proof fn lemma_quarter_place(a: int, q: int, l: int)
    requires
        0 <= q < 4,
        0 <= l < 32,
    ensures
        ({
            let i = 128 * a + 32 * q + l;
            i / 128 == a && (i % 128) / 32 == q && i % 32 == l
        }),
{
    let i = 128 * a + 32 * q + l;
    lemma_fundamental_div_mod_converse(i, 128, a, 32 * q + l);
    lemma_fundamental_div_mod_converse(i, 32, 4 * a + q, l);
    lemma_fundamental_div_mod_converse(32 * q + l, 32, q, l);
}

/// By quarters, element `i` is visited at just one step.
pub proof fn law_quarters_visit_every_element(n: nat, i: int, k: int)
    requires
        0 <= i < n,
        0 <= k,
    ensures
        ({
            let step = 128 * (i / 128) + 4 * (i % 32) + (i % 128) / 32;
            &&& 0 <= step < quarter_steps(n)
            &&& Order::Quarters.place(step) == i
            &&& Order::Quarters.place(k) == i ==> k == step
        }),
{
    let (a, q, l) = (i / 128, (i % 128) / 32, i % 32);
    let step = 128 * a + 4 * l + q;
    assert(i == 128 * a + 32 * q + l);
    assert(0 <= q < 4 && 0 <= l < 32);
    lemma_quarter_step(a, q, l);
    assert(0 <= a < blocks_of(n, 128));
    assert(0 <= step < quarter_steps(n));
    assert(Order::Quarters.place(k) == i ==> k == step) by {
        let (ka, kq, kl) = (k / 128, k % 4, (k % 128) / 4);
        lemma_quarter_parts(k);
        assert(k == 128 * ka + 4 * kl + kq);
        lemma_quarter_step(ka, kq, kl);
        lemma_quarter_place(ka, kq, kl);
    }
}

/// By lanes, element `i` is visited at just one step, of one lane of its group.
pub proof fn law_lanes_visit_every_element(n: nat, i: int, group: int, lane: int, k: int)
    requires
        0 <= i < n,
        0 <= lane < 8,
        0 <= k < 8,
    ensures
        ({
            let step = 2 * ((i % 32) / 8) + (i % 64) / 32;
            &&& 0 <= i / 64 < blocks_of(n, 64)
            &&& 0 <= step < 8
            &&& Order::Lane(i / 64, i % 8).place(step) == i
            &&& Order::Lane(group, lane).place(k) == i ==> group == i / 64 && lane == i % 8 && k
                == step
        }),
{
    let (g, u) = (i / 64, i % 64);
    lemma_lane_parts(i);
    lemma_fundamental_div_mod_converse(i + 64, 64, g + 1, u);
    vstd::arithmetic::div_mod::lemma_div_is_ordered(i + 64, n as int + 63, 64);
    lemma_fundamental_div_mod_converse(
        2 * ((i % 32) / 8) + u / 32,
        2,
        (i % 32) / 8,
        u / 32,
    );
    if Order::Lane(group, lane).place(k) == i {
        let (a, b) = (k % 2, k / 2);
        let low = 32 * a + 8 * b + lane;
        assert(0 <= low < 64);
        lemma_fundamental_div_mod_converse(i, 64, group, low);
        lemma_fundamental_div_mod_converse(i, 8, 8 * group + 4 * a + b, lane);
        lemma_fundamental_div_mod_converse(i, 32, 2 * group + a, 8 * b + lane);
        lemma_fundamental_div_mod_converse(low, 32, a, 8 * b + lane);
        lemma_fundamental_div_mod_converse(8 * b + lane, 8, b, lane);
    }
}

/// A place within its group of 64, and within its run of 32 and of 8.
proof fn lemma_lane_parts(i: int)
    requires
        0 <= i,
    ensures
        i == 64 * (i / 64) + 32 * ((i % 64) / 32) + 8 * ((i % 32) / 8) + i % 8,
        0 <= (i % 64) / 32 < 2,
        0 <= (i % 32) / 8 < 4,
        0 <= i % 8 < 8,
{
    let (g, u) = (i / 64, i % 64);
    let (e, v) = (u / 32, u % 32);
    let (f, t) = (v / 8, v % 8);
    assert(u == 32 * e + v && v == 8 * f + t);
    lemma_fundamental_div_mod_converse(i, 32, 2 * g + e, v);
    lemma_fundamental_div_mod_converse(i, 8, 8 * g + 4 * e + f, t);
}

proof fn lemma_visit<A, F: Fn(A, Element, A) -> A>(
    order: Order,
    k: int,
    take_in: F,
    zero: A,
    values: Seq<Element>,
    x: Seq<A>,
    before: A,
    now: A,
)
    requires
        0 <= k,
        is_visited_sum(order, k, take_in, zero, values, x, before),
        if order.place(k) < x.len() {
            take_in.ensures((before, values[order.place(k)], x[order.place(k)]), now)
        } else {
            now == before
        },
    ensures
        is_visited_sum(order, k + 1, take_in, zero, values, x, now),
{
    let n = x.len() as int;
    let places = visited(order, n, k);
    let p = order.place(k);
    if p < n {
        let next = places.push(p);
        assert(picked(values, next).drop_last() =~= picked(values, places));
        assert(picked(x, next).drop_last() =~= picked(x, places));
        assert(picked(values, next).last() == values[p]);
        assert(picked(x, next).last() == x[p]);
    }
}

/// Takes in the pair at `base + offset`, where there is one.
fn take_pair<A: Copy, F: Fn(A, Element, A) -> A>(
    acc: A,
    weights: &[Weight],
    x: &[A],
    base: usize,
    offset: usize,
    take_in: &F,
) -> (now: A)
    requires
        weights@.len() == x@.len(),
        base < x@.len(),
        takes_in(*take_in),
    ensures
        if base + offset < x@.len() {
            take_in.ensures(
                (acc, quantized_elements(weights@)[base + offset], x@[base + offset]),
                now,
            )
        } else {
            now == acc
        },
{
    if offset < x.len() - base {
        take_in(acc, Element::Quantized(weights[base + offset]), x[base + offset])
    } else {
        acc
    }
}

/// The product of the weights of a row with `x`, by quarters.
pub(crate) fn dot_in_quarters<A: Copy, F: Fn(A, Element, A) -> A>(
    zero: A,
    weights: &[Weight],
    x: &[A],
    take_in: &F,
) -> (total: A)
    requires
        weights@.len() == x@.len(),
        takes_in(*take_in),
    ensures
        is_quarters_dot(*take_in, zero, quantized_elements(weights@), x@, total),
{
    let n: usize = x.len();
    let ghost values = quantized_elements(weights@);
    let mut acc: A = zero;
    let mut base: usize = 0;
    let ghost mut at: int = 0;
    while base < n
        invariant
            n == x@.len(),
            n == weights@.len(),
            takes_in(*take_in),
            values == quantized_elements(weights@),
            0 <= at <= blocks_of(n as nat, 128),
            base < n ==> base == 128 * at,
            base >= n ==> at == blocks_of(n as nat, 128),
            is_visited_sum(Order::Quarters, 128 * at, *take_in, zero, values, x@, acc),
        decreases n - base,
    {
        let mut k: usize = 0;
        while k < 128
            invariant
                k <= 128,
                base < n,
                n == x@.len(),
                n == weights@.len(),
                takes_in(*take_in),
                values == quantized_elements(weights@),
                base == 128 * at,
                is_visited_sum(Order::Quarters, 128 * at + k, *take_in, zero, values, x@, acc),
            decreases 128 - k,
        {
            let ghost before = acc;
            acc = take_pair(acc, weights, x, base, 32 * (k % 4) + k / 4, take_in);
            proof {
                let step = 128 * at + k;
                assert(step / 128 == at && step % 128 == k && step % 4 == k % 4);
                assert(Order::Quarters.place(step) == base + 32 * (k as int % 4) + k as int / 4);
                lemma_visit(Order::Quarters, step, *take_in, zero, values, x@, before, acc);
            }
            k += 1;
        }
        proof {
            at = at + 1;
        }
        if n - base > 128 {
            base += 128;
        } else {
            base = n;
        }
    }
    acc
}

proof fn lemma_chained_next<A, P: Fn(A, A) -> A>(
    plus: P,
    start: A,
    parts: Seq<A>,
    part: A,
    before: A,
    now: A,
)
    requires
        chained(plus, start, parts, before),
        plus.ensures((before, part), now),
    ensures
        chained(plus, start, parts.push(part), now),
{
    let all = parts.push(part);
    assert(all.drop_last() =~= parts);
    assert(all.last() == part);
    assert(chained(plus, start, all.drop_last(), before) && plus.ensures((before, all.last()), now));
}

/// The sum of the lane `lane` of the group that begins at `base`.
fn lane_sum<A: Copy, F: Fn(A, Element, A) -> A>(
    zero: A,
    weights: &[Weight],
    x: &[A],
    base: usize,
    lane: usize,
    take_in: &F,
) -> (total: A)
    requires
        weights@.len() == x@.len(),
        base < x@.len(),
        base % 64 == 0,
        lane < 8,
        takes_in(*take_in),
    ensures
        is_visited_sum(
            Order::Lane(base as int / 64, lane as int),
            8,
            *take_in,
            zero,
            quantized_elements(weights@),
            x@,
            total,
        ),
{
    let ghost order = Order::Lane(base as int / 64, lane as int);
    let ghost values = quantized_elements(weights@);
    let mut acc: A = zero;
    let mut k: usize = 0;
    while k < 8
        invariant
            k <= 8,
            lane < 8,
            base < x@.len(),
            base % 64 == 0,
            weights@.len() == x@.len(),
            takes_in(*take_in),
            values == quantized_elements(weights@),
            order == Order::Lane(base as int / 64, lane as int),
            is_visited_sum(order, k as int, *take_in, zero, values, x@, acc),
        decreases 8 - k,
    {
        let ghost before = acc;
        acc = take_pair(acc, weights, x, base, 32 * (k % 2) + 8 * (k / 2) + lane, take_in);
        proof {
            lemma_visit(order, k as int, *take_in, zero, values, x@, before, acc);
        }
        k += 1;
    }
    acc
}

/// The sum of the group that begins at `base`.
fn group_sum<A: Copy, F: Fn(A, Element, A) -> A, P: Fn(A, A) -> A>(
    zero: A,
    weights: &[Weight],
    x: &[A],
    base: usize,
    take_in: &F,
    plus: &P,
) -> (total: A)
    requires
        weights@.len() == x@.len(),
        base < x@.len(),
        base % 64 == 0,
        takes_in(*take_in),
        adds(*plus),
    ensures
        is_group_sum(
            *take_in,
            *plus,
            zero,
            quantized_elements(weights@),
            x@,
            base as int / 64,
            total,
        ),
{
    let ghost values = quantized_elements(weights@);
    let ghost mut lanes: Seq<A> = Seq::empty();
    let mut acc: A = zero;
    let mut l: usize = 0;
    while l < 8
        invariant
            l <= 8,
            base < x@.len(),
            base % 64 == 0,
            weights@.len() == x@.len(),
            takes_in(*take_in),
            adds(*plus),
            values == quantized_elements(weights@),
            lanes.len() == l,
            forall|j: int|
                0 <= j < l ==> is_visited_sum(
                    Order::Lane(base as int / 64, j),
                    8,
                    *take_in,
                    zero,
                    values,
                    x@,
                    #[trigger] lanes[j],
                ),
            chained(*plus, zero, lanes, acc),
        decreases 8 - l,
    {
        let lane: A = lane_sum(zero, weights, x, base, l, take_in);
        let ghost before = acc;
        acc = plus(acc, lane);
        proof {
            lemma_chained_next(*plus, zero, lanes, lane, before, acc);
            lanes = lanes.push(lane);
        }
        l += 1;
    }
    acc
}

/// The product of the weights of a row with `x`, by groups of lanes.
pub(crate) fn dot_in_lanes<A: Copy, F: Fn(A, Element, A) -> A, P: Fn(A, A) -> A>(
    zero: A,
    weights: &[Weight],
    x: &[A],
    take_in: &F,
    plus: &P,
) -> (total: A)
    requires
        weights@.len() == x@.len(),
        takes_in(*take_in),
        adds(*plus),
    ensures
        is_lanes_dot(*take_in, *plus, zero, quantized_elements(weights@), x@, total),
{
    let n: usize = x.len();
    let ghost values = quantized_elements(weights@);
    let ghost mut groups: Seq<A> = Seq::empty();
    let mut acc: A = zero;
    let mut base: usize = 0;
    while base < n
        invariant
            n == x@.len(),
            n == weights@.len(),
            takes_in(*take_in),
            adds(*plus),
            values == quantized_elements(weights@),
            base < n ==> base == 64 * groups.len(),
            base >= n ==> groups.len() == blocks_of(n as nat, 64),
            forall|g: int|
                0 <= g < groups.len() ==> is_group_sum(
                    *take_in,
                    *plus,
                    zero,
                    values,
                    x@,
                    g,
                    #[trigger] groups[g],
                ),
            chained(*plus, zero, groups, acc),
        decreases n - base,
    {
        let group: A = group_sum(zero, weights, x, base, take_in, plus);
        let ghost before = acc;
        acc = plus(acc, group);
        proof {
            lemma_chained_next(*plus, zero, groups, group, before, acc);
            assert(base as int / 64 == groups.len());
            groups = groups.push(group);
        }
        if n - base > 64 {
            base += 64;
        } else {
            base = n;
        }
    }
    acc
}

} // verus!
