//! Laws of the backward pass, proved for every arithmetic kernel.
//!
//! Each lemma fixes a graph shape with arbitrary scalar payloads, takes the
//! backward plan the library emits for it (`order_from` / `steps_of_order`,
//! exactly what `Graph::backward` returns), and states what executing that
//! plan (`backward_result`) leaves in the accumulators — for every seed and
//! every interpretation of scalar add, multiply, divide and negate.

use vstd::prelude::*;

use crate::gradients::apply_step;
use crate::gradients::backward_result;
use crate::gradients::initial_gradients;
use crate::gradients::node_values;
use crate::gradients::run_steps;
use crate::graph::GraphNode;
use crate::graph::Operand;
use crate::graph::graph_wf;
use crate::graph::is_leaf;
use crate::graph::leaf_record;
use crate::graph::left_child;
use crate::graph::node_wf;
use crate::graph::op_record;
use crate::graph::right_child;
use crate::plan::GradOp;
use crate::plan::GradStep;
use crate::gradients::lemma_run_steps_append;
use crate::gradients::lemma_run_steps_monotone;
use crate::plan::lemma_order_split;
use crate::plan::lemma_reaches_bounds;
use crate::plan::lemma_reaches_child;
use crate::plan::lemma_reaches_parent;
use crate::plan::lemma_steps_of_order_append;
use crate::plan::local_steps;
use crate::plan::order_from;
use crate::plan::reaches;
use crate::plan::reaches_above;
use crate::plan::steps_of_order;

verus! {

/// The arena of `(a + b) + c` over three leaves: the leaves at ids 0, 1, 2,
/// the partial sum at 3, the total at 4. The payloads of the two sum nodes
/// are whatever the kernel computed for them.
pub open spec fn sum_of_three(a: u64, b: u64, c: u64, partial: u64, total: u64) -> Seq<GraphNode> {
    seq![
        leaf_record(a),
        leaf_record(b),
        leaf_record(c),
        op_record(Operand::Add, 0, 1, partial),
        op_record(Operand::Add, 3, 2, total),
    ]
}

/// Gradient of a sum: after a backward pass over `(a + b) + c`, each of the
/// three leaves' accumulators holds exactly the seed — the derivative of a
/// sum with respect to each addend is one, so the seed arrives unscaled, no
/// matter what the kernel's arithmetic does.
pub proof fn lemma_sum_gradients(
    a: u64,
    b: u64,
    c: u64,
    partial: u64,
    total: u64,
    seed: u64,
    add_f: spec_fn(u64, u64) -> u64,
    mul_f: spec_fn(u64, u64) -> u64,
    div_f: spec_fn(u64, u64) -> u64,
    neg_f: spec_fn(u64) -> u64,
)
    ensures
        ({
            let out = backward_result(
                sum_of_three(a, b, c, partial, total),
                4,
                seed,
                add_f,
                mul_f,
                div_f,
                neg_f,
            );
            &&& out[0] == Option::Some(seed)
            &&& out[1] == Option::Some(seed)
            &&& out[2] == Option::Some(seed)
            &&& out[3] == Option::Some(seed)
            &&& out[4] == Option::Some(seed)
        }),
{
    reveal_with_fuel(reaches_above, 8);
    reveal_with_fuel(order_from, 8);
    reveal_with_fuel(steps_of_order, 8);
    reveal_with_fuel(run_steps, 8);
    let nodes = sum_of_three(a, b, c, partial, total);
    assert(order_from(nodes, 4, 0) =~= seq![4usize, 3, 2, 1, 0]);
    assert(steps_of_order(nodes, order_from(nodes, 4, 0)) =~= seq![
        GradStep { target: 3, source: 4, op: GradOp::Propagate },
        GradStep { target: 2, source: 4, op: GradOp::Propagate },
        GradStep { target: 0, source: 3, op: GradOp::Propagate },
        GradStep { target: 1, source: 3, op: GradOp::Propagate },
    ]);
}

/// The arena of `x * w + b` over three leaves: `x` at 0, `w` at 1, `b` at
/// 2, the product at 3, the total at 4.
pub open spec fn product_plus_bias(x: u64, w: u64, b: u64, product: u64, total: u64) -> Seq<
    GraphNode,
> {
    seq![
        leaf_record(x),
        leaf_record(w),
        leaf_record(b),
        op_record(Operand::Mul, 0, 1, product),
        op_record(Operand::Add, 3, 2, total),
    ]
}

/// Product and bias rule: after a backward pass over `x * w + b`, the bias
/// accumulator holds exactly the seed, `x`'s accumulator holds the kernel's
/// product of `w`'s value with the seed, and `w`'s holds the product of
/// `x`'s value with the seed — each operand of a multiplication is scaled
/// by the other operand's recorded value, never by a gradient.
pub proof fn lemma_product_bias_gradients(
    x: u64,
    w: u64,
    b: u64,
    product: u64,
    total: u64,
    seed: u64,
    add_f: spec_fn(u64, u64) -> u64,
    mul_f: spec_fn(u64, u64) -> u64,
    div_f: spec_fn(u64, u64) -> u64,
    neg_f: spec_fn(u64) -> u64,
)
    ensures
        ({
            let out = backward_result(
                product_plus_bias(x, w, b, product, total),
                4,
                seed,
                add_f,
                mul_f,
                div_f,
                neg_f,
            );
            &&& out[0] == Option::Some(mul_f(w, seed))
            &&& out[1] == Option::Some(mul_f(x, seed))
            &&& out[2] == Option::Some(seed)
            &&& out[3] == Option::Some(seed)
            &&& out[4] == Option::Some(seed)
        }),
{
    reveal_with_fuel(reaches_above, 8);
    reveal_with_fuel(order_from, 8);
    reveal_with_fuel(steps_of_order, 8);
    reveal_with_fuel(run_steps, 8);
    let nodes = product_plus_bias(x, w, b, product, total);
    assert(order_from(nodes, 4, 0) =~= seq![4usize, 3, 2, 1, 0]);
    assert(steps_of_order(nodes, order_from(nodes, 4, 0)) =~= seq![
        GradStep { target: 3, source: 4, op: GradOp::Propagate },
        GradStep { target: 2, source: 4, op: GradOp::Propagate },
        GradStep { target: 0, source: 3, op: GradOp::ScaleByValue(1) },
        GradStep { target: 1, source: 3, op: GradOp::ScaleByValue(0) },
    ]);
}

/// The arena of one binary operation over two leaves: `a` at 0, `b` at 1,
/// the result at 2.
pub open spec fn one_operation(op: Operand, a: u64, b: u64, result: u64) -> Seq<GraphNode> {
    seq![leaf_record(a), leaf_record(b), op_record(op, 0, 1, result)]
}

/// Subtraction signs: after a backward pass over `a - b`, the left leaf's
/// accumulator holds the seed and the right leaf's holds the kernel's
/// negation of the seed.
pub proof fn lemma_difference_gradients(
    a: u64,
    b: u64,
    result: u64,
    seed: u64,
    add_f: spec_fn(u64, u64) -> u64,
    mul_f: spec_fn(u64, u64) -> u64,
    div_f: spec_fn(u64, u64) -> u64,
    neg_f: spec_fn(u64) -> u64,
)
    ensures
        ({
            let out = backward_result(
                one_operation(Operand::Sub, a, b, result),
                2,
                seed,
                add_f,
                mul_f,
                div_f,
                neg_f,
            );
            &&& out[0] == Option::Some(seed)
            &&& out[1] == Option::Some(neg_f(seed))
            &&& out[2] == Option::Some(seed)
        }),
{
    reveal_with_fuel(reaches_above, 8);
    reveal_with_fuel(order_from, 8);
    reveal_with_fuel(steps_of_order, 8);
    reveal_with_fuel(run_steps, 8);
    let nodes = one_operation(Operand::Sub, a, b, result);
    assert(order_from(nodes, 2, 0) =~= seq![2usize, 1, 0]);
    assert(steps_of_order(nodes, order_from(nodes, 2, 0)) =~= seq![
        GradStep { target: 0, source: 2, op: GradOp::Propagate },
        GradStep { target: 1, source: 2, op: GradOp::PropagateNeg },
    ]);
}

/// Division rule: after a backward pass over `a / b`, the numerator's
/// accumulator holds the seed divided by the denominator's value, and the
/// denominator's holds the negated seed times the numerator's value,
/// divided by the square of the denominator's value.
pub proof fn lemma_quotient_gradients(
    a: u64,
    b: u64,
    result: u64,
    seed: u64,
    add_f: spec_fn(u64, u64) -> u64,
    mul_f: spec_fn(u64, u64) -> u64,
    div_f: spec_fn(u64, u64) -> u64,
    neg_f: spec_fn(u64) -> u64,
)
    ensures
        ({
            let out = backward_result(
                one_operation(Operand::Div, a, b, result),
                2,
                seed,
                add_f,
                mul_f,
                div_f,
                neg_f,
            );
            &&& out[0] == Option::Some(div_f(seed, b))
            &&& out[1] == Option::Some(div_f(mul_f(neg_f(seed), a), mul_f(b, b)))
            &&& out[2] == Option::Some(seed)
        }),
{
    reveal_with_fuel(reaches_above, 8);
    reveal_with_fuel(order_from, 8);
    reveal_with_fuel(steps_of_order, 8);
    reveal_with_fuel(run_steps, 8);
    let nodes = one_operation(Operand::Div, a, b, result);
    assert(order_from(nodes, 2, 0) =~= seq![2usize, 1, 0]);
    assert(steps_of_order(nodes, order_from(nodes, 2, 0)) =~= seq![
        GradStep { target: 0, source: 2, op: GradOp::DivByValue(1) },
        GradStep { target: 1, source: 2, op: GradOp::NegScaleDivSquare(0, 1) },
    ]);
}

/// The arena of `x * x` built from two references to the same leaf: the
/// leaf at 0, the square at 1.
pub open spec fn square_of_shared(x: u64, square: u64) -> Seq<GraphNode> {
    seq![leaf_record(x), op_record(Operand::Mul, 0, 0, square)]
}

/// Shared-node accumulation: in `x * x` the one leaf sits on both edges of
/// the product, so its accumulator receives one contribution per edge, and
/// the second is added on top of the first, not written over it: the pass
/// ends with the kernel's sum of the two equal contributions — the analogue
/// of the derivative `2 * x`.
pub proof fn lemma_shared_leaf_accumulates(
    x: u64,
    square: u64,
    seed: u64,
    add_f: spec_fn(u64, u64) -> u64,
    mul_f: spec_fn(u64, u64) -> u64,
    div_f: spec_fn(u64, u64) -> u64,
    neg_f: spec_fn(u64) -> u64,
)
    ensures
        ({
            let out = backward_result(
                square_of_shared(x, square),
                1,
                seed,
                add_f,
                mul_f,
                div_f,
                neg_f,
            );
            &&& out[0] == Option::Some(add_f(mul_f(x, seed), mul_f(x, seed)))
            &&& out[1] == Option::Some(seed)
        }),
{
    reveal_with_fuel(reaches_above, 8);
    reveal_with_fuel(order_from, 8);
    reveal_with_fuel(steps_of_order, 8);
    reveal_with_fuel(run_steps, 8);
    let nodes = square_of_shared(x, square);
    assert(order_from(nodes, 1, 0) =~= seq![1usize, 0]);
    assert(steps_of_order(nodes, order_from(nodes, 1, 0)) =~= seq![
        GradStep { target: 0, source: 1, op: GradOp::ScaleByValue(0) },
        GradStep { target: 0, source: 1, op: GradOp::ScaleByValue(0) },
    ]);
}

/// Running instructions that never target slot `j` leaves slot `j` as it
/// was.
proof fn lemma_run_steps_skips(
    steps: Seq<GradStep>,
    vals: Seq<u64>,
    grads: Seq<Option<u64>>,
    add_f: spec_fn(u64, u64) -> u64,
    mul_f: spec_fn(u64, u64) -> u64,
    div_f: spec_fn(u64, u64) -> u64,
    neg_f: spec_fn(u64) -> u64,
    j: int,
)
    requires
        0 <= j < grads.len(),
        forall|k: int| 0 <= k < steps.len() ==> (#[trigger] steps[k].target as int) != j,
    ensures
        run_steps(steps, vals, grads, add_f, mul_f, div_f, neg_f).len() == grads.len(),
        run_steps(steps, vals, grads, add_f, mul_f, div_f, neg_f)[j] == grads[j],
    decreases steps.len(),
{
    if steps.len() == 0 {
    } else {
        let stepped = apply_step(steps[0], vals, grads, add_f, mul_f, div_f, neg_f);
        assert((steps[0].target as int) != j);
        assert(stepped.len() == grads.len());
        assert(stepped[j] == grads[j]);
        assert forall|k: int| 0 <= k < steps.drop_first().len() implies (
        #[trigger] steps.drop_first()[k].target as int) != j by {
            assert(steps.drop_first()[k] == steps[k + 1]);
        }
        lemma_run_steps_skips(steps.drop_first(), vals, stepped, add_f, mul_f, div_f, neg_f, j);
    }
}

/// Every instruction of the emitted plan targets a node reachable from the
/// output, so none targets `j` when `j` is not reachable.
proof fn lemma_plan_targets_reachable(nodes: Seq<GraphNode>, root: int, lo: int, j: int)
    requires
        graph_wf(nodes),
        0 <= root < nodes.len(),
        root <= usize::MAX,
        0 <= lo,
        !reaches(nodes, root, j),
    ensures
        forall|k: int|
            0 <= k < steps_of_order(nodes, order_from(nodes, root, lo)).len() ==> (
            #[trigger] steps_of_order(nodes, order_from(nodes, root, lo))[k].target as int) != j,
    decreases root - lo + 1,
{
    let whole_order = order_from(nodes, root, lo);
    let rest_order = order_from(nodes, root, lo + 1);
    if lo > root {
        assert(steps_of_order(nodes, whole_order).len() == 0);
    } else {
        lemma_plan_targets_reachable(nodes, root, lo + 1, j);
        let s_rest = steps_of_order(nodes, rest_order);
        let s_all = steps_of_order(nodes, whole_order);
        if reaches(nodes, root, lo) {
            assert(whole_order.drop_last() =~= rest_order);
            assert(whole_order.last() == lo as usize);
            assert(s_all == s_rest + local_steps(nodes, lo));
            assert(node_wf(nodes, lo));
            if !is_leaf(nodes[lo]) {
                lemma_reaches_child(nodes, root, lo, left_child(nodes[lo]));
                lemma_reaches_child(nodes, root, lo, right_child(nodes[lo]));
                assert(local_steps(nodes, lo).len() == 2);
                assert((local_steps(nodes, lo)[0].target as int) == left_child(nodes[lo]));
                assert((local_steps(nodes, lo)[1].target as int) == right_child(nodes[lo]));
            } else {
                assert(local_steps(nodes, lo).len() == 0);
            }
            assert forall|k: int| 0 <= k < s_all.len() implies (#[trigger] s_all[k].target as int)
                != j by {
                if k < s_rest.len() {
                    assert(s_all[k] == steps_of_order(nodes, order_from(nodes, root, lo + 1))[k]);
                } else {
                    assert(s_all[k] == local_steps(nodes, lo)[k - s_rest.len()]);
                }
            }
        } else {
            assert(whole_order =~= rest_order);
            assert forall|k: int| 0 <= k < s_all.len() implies (#[trigger] s_all[k].target as int)
                != j by {
                assert(s_all[k] == steps_of_order(nodes, order_from(nodes, root, lo + 1))[k]);
            }
        }
    }
}

/// A backward pass touches only the subgraph of its output: the accumulator
/// of every node not reachable from the output ends exactly as it started —
/// empty, reading zero — whatever the kernel and the seed.
pub proof fn lemma_backward_skips_unreachable(
    nodes: Seq<GraphNode>,
    root: int,
    seed: u64,
    add_f: spec_fn(u64, u64) -> u64,
    mul_f: spec_fn(u64, u64) -> u64,
    div_f: spec_fn(u64, u64) -> u64,
    neg_f: spec_fn(u64) -> u64,
    j: int,
)
    requires
        graph_wf(nodes),
        0 <= root < nodes.len(),
        nodes.len() <= usize::MAX,
        0 <= j < nodes.len(),
        !reaches(nodes, root, j),
    ensures
        backward_result(nodes, root, seed, add_f, mul_f, div_f, neg_f)[j] is None,
{
    assert(reaches_above(nodes, root, root, -1));
    let init = initial_gradients(nodes.len() as int, root, seed);
    assert(init[j] is None);
    lemma_plan_targets_reachable(nodes, root, 0, j);
    lemma_run_steps_skips(
        steps_of_order(nodes, order_from(nodes, root, 0)),
        node_values(nodes),
        init,
        add_f,
        mul_f,
        div_f,
        neg_f,
        j,
    );
}

/// Running one operation node's two instructions, with its accumulator
/// already holding a contribution, leaves both children's accumulators
/// non-empty.
proof fn lemma_local_steps_set_children(
    nodes: Seq<GraphNode>,
    p: int,
    vals: Seq<u64>,
    grads: Seq<Option<u64>>,
    add_f: spec_fn(u64, u64) -> u64,
    mul_f: spec_fn(u64, u64) -> u64,
    div_f: spec_fn(u64, u64) -> u64,
    neg_f: spec_fn(u64) -> u64,
)
    requires
        graph_wf(nodes),
        0 <= p < nodes.len(),
        nodes.len() <= usize::MAX,
        !is_leaf(nodes[p]),
        grads.len() == nodes.len(),
        grads[p] is Some,
    ensures
        run_steps(local_steps(nodes, p), vals, grads, add_f, mul_f, div_f, neg_f)[left_child(
            nodes[p],
        )] is Some,
        run_steps(local_steps(nodes, p), vals, grads, add_f, mul_f, div_f, neg_f)[right_child(
            nodes[p],
        )] is Some,
{
    reveal_with_fuel(run_steps, 4);
    assert(node_wf(nodes, p));
    let steps = local_steps(nodes, p);
    assert(steps.len() == 2);
    assert((steps[0].target as int) == left_child(nodes[p]));
    assert((steps[0].source as int) == p);
    assert((steps[1].target as int) == right_child(nodes[p]));
    assert((steps[1].source as int) == p);
    let g1 = apply_step(steps[0], vals, grads, add_f, mul_f, div_f, neg_f);
    assert(g1[left_child(nodes[p])] is Some);
    assert(g1[p] is Some);
    let g2 = apply_step(steps[1], vals, g1, add_f, mul_f, div_f, neg_f);
    assert(g2[right_child(nodes[p])] is Some);
    assert(g2[left_child(nodes[p])] is Some);
    assert(steps.drop_first()[0] == steps[1]);
    assert(steps.drop_first().drop_first().len() == 0);
    assert(run_steps(steps, vals, grads, add_f, mul_f, div_f, neg_f) == g2);
}

/// The running state of a backward pass over the tail of the visit order
/// (nodes `lo` and above) has a non-empty accumulator for every node at or
/// above `lo` that is reachable from the output.
proof fn lemma_plan_suffix_reaches(
    nodes: Seq<GraphNode>,
    root: int,
    lo: int,
    seed: u64,
    add_f: spec_fn(u64, u64) -> u64,
    mul_f: spec_fn(u64, u64) -> u64,
    div_f: spec_fn(u64, u64) -> u64,
    neg_f: spec_fn(u64) -> u64,
    j: int,
)
    requires
        graph_wf(nodes),
        0 <= root < nodes.len(),
        nodes.len() <= usize::MAX,
        0 <= lo <= j,
        reaches(nodes, root, j),
    ensures
        run_steps(
            steps_of_order(nodes, order_from(nodes, root, lo)),
            node_values(nodes),
            initial_gradients(nodes.len() as int, root, seed),
            add_f,
            mul_f,
            div_f,
            neg_f,
        )[j] is Some,
    decreases root - lo + 1,
{
    lemma_reaches_bounds(nodes, root, j, -1);
    let vals = node_values(nodes);
    let init = initial_gradients(nodes.len() as int, root, seed);
    if j == root {
        assert(init[root] is Some);
        lemma_run_steps_monotone(
            steps_of_order(nodes, order_from(nodes, root, lo)),
            vals,
            init,
            add_f,
            mul_f,
            div_f,
            neg_f,
        );
    } else if j > lo {
        lemma_plan_suffix_reaches(nodes, root, lo + 1, seed, add_f, mul_f, div_f, neg_f, j);
        let tail = if reaches(nodes, root, lo) {
            seq![lo as usize]
        } else {
            Seq::<usize>::empty()
        };
        assert(order_from(nodes, root, lo) == order_from(nodes, root, lo + 1) + tail);
        lemma_steps_of_order_append(nodes, order_from(nodes, root, lo + 1), tail);
        lemma_run_steps_append(
            steps_of_order(nodes, order_from(nodes, root, lo + 1)),
            steps_of_order(nodes, tail),
            vals,
            init,
            add_f,
            mul_f,
            div_f,
            neg_f,
        );
        let mid = run_steps(
            steps_of_order(nodes, order_from(nodes, root, lo + 1)),
            vals,
            init,
            add_f,
            mul_f,
            div_f,
            neg_f,
        );
        lemma_run_steps_monotone(
            steps_of_order(nodes, order_from(nodes, root, lo + 1)),
            vals,
            init,
            add_f,
            mul_f,
            div_f,
            neg_f,
        );
        lemma_run_steps_monotone(steps_of_order(nodes, tail), vals, mid, add_f, mul_f, div_f, neg_f);
    } else {
        // j == lo, a node strictly below the output: its gradient arrives
        // when its (already finished) parent distributes, and survives the
        // rest of the pass.
        let p = lemma_reaches_parent(nodes, root, j);
        lemma_plan_suffix_reaches(nodes, root, p, seed, add_f, mul_f, div_f, neg_f, p);
        assert(order_from(nodes, root, p) == order_from(nodes, root, p + 1) + seq![p as usize]);
        lemma_steps_of_order_append(nodes, order_from(nodes, root, p + 1), seq![p as usize]);
        let single = seq![p as usize];
        assert(single.drop_last() =~= Seq::<usize>::empty());
        assert(steps_of_order(nodes, single.drop_last()).len() == 0);
        assert(single.last() as int == p);
        assert(steps_of_order(nodes, single) == steps_of_order(nodes, single.drop_last())
            + local_steps(nodes, single.last() as int));
        assert(steps_of_order(nodes, single) =~= local_steps(nodes, p));
        lemma_run_steps_append(
            steps_of_order(nodes, order_from(nodes, root, p + 1)),
            local_steps(nodes, p),
            vals,
            init,
            add_f,
            mul_f,
            div_f,
            neg_f,
        );
        let before_p = run_steps(
            steps_of_order(nodes, order_from(nodes, root, p + 1)),
            vals,
            init,
            add_f,
            mul_f,
            div_f,
            neg_f,
        );
        lemma_run_steps_monotone(
            steps_of_order(nodes, order_from(nodes, root, p + 1)),
            vals,
            init,
            add_f,
            mul_f,
            div_f,
            neg_f,
        );
        assert(node_wf(nodes, p));
        assert forall|k: int| 0 <= k < local_steps(nodes, p).len() implies (
        #[trigger] local_steps(nodes, p)[k].target as int) != p by {
            assert((local_steps(nodes, p)[0].target as int) == left_child(nodes[p]));
            assert((local_steps(nodes, p)[1].target as int) == right_child(nodes[p]));
        }
        lemma_run_steps_skips(local_steps(nodes, p), vals, before_p, add_f, mul_f, div_f, neg_f, p);
        assert(before_p[p] is Some);
        lemma_local_steps_set_children(nodes, p, vals, before_p, add_f, mul_f, div_f, neg_f);
        let at_p = run_steps(
            steps_of_order(nodes, order_from(nodes, root, p)),
            vals,
            init,
            add_f,
            mul_f,
            div_f,
            neg_f,
        );
        assert(at_p[j] is Some);
        let rest = lemma_order_split(nodes, root, lo, p);
        lemma_steps_of_order_append(nodes, order_from(nodes, root, p), rest);
        lemma_run_steps_append(
            steps_of_order(nodes, order_from(nodes, root, p)),
            steps_of_order(nodes, rest),
            vals,
            init,
            add_f,
            mul_f,
            div_f,
            neg_f,
        );
        lemma_run_steps_monotone(
            steps_of_order(nodes, rest),
            vals,
            at_p,
            add_f,
            mul_f,
            div_f,
            neg_f,
        );
    }
}

/// A backward pass reaches everything it should: after executing the plan,
/// the accumulator of every node reachable from the output is non-empty —
/// every such node received at least one chain-rule contribution, whatever
/// the kernel and the seed. Together with
/// `lemma_backward_skips_unreachable`, an accumulator ends non-empty
/// exactly when its node is reachable from the output.
pub proof fn lemma_backward_computes_reachable(
    nodes: Seq<GraphNode>,
    root: int,
    seed: u64,
    add_f: spec_fn(u64, u64) -> u64,
    mul_f: spec_fn(u64, u64) -> u64,
    div_f: spec_fn(u64, u64) -> u64,
    neg_f: spec_fn(u64) -> u64,
    j: int,
)
    requires
        graph_wf(nodes),
        0 <= root < nodes.len(),
        nodes.len() <= usize::MAX,
        reaches(nodes, root, j),
    ensures
        backward_result(nodes, root, seed, add_f, mul_f, div_f, neg_f)[j] is Some,
{
    lemma_reaches_bounds(nodes, root, j, -1);
    lemma_plan_suffix_reaches(nodes, root, 0, seed, add_f, mul_f, div_f, neg_f, j);
}

} // verus!
