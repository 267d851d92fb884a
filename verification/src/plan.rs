//! The backward-pass driver.
//!
//! `Graph::backward` walks the arena from an output node back to the leaves
//! and emits a plan: the visit order (every node reachable from the output,
//! each exactly once, in reverse-topological order) and, for every visited
//! operation node, the two chain-rule instructions that distribute its
//! accumulated gradient into its children's accumulators. Because children
//! always have smaller arena indices than their parents, decreasing index
//! order is a reverse-topological order: by the time a node's instructions
//! run, every parent that could contribute to its gradient already ran.
//! That ordering is what makes gradient accumulation correct whenever a node
//! has more than one parent (shared subgraphs, reused leaves).

use vstd::prelude::*;

use crate::graph::Graph;
use crate::graph::GraphNode;
use crate::graph::Node;
use crate::graph::Operand;
use crate::graph::graph_wf;
use crate::graph::is_leaf;
use crate::graph::left_child;
use crate::graph::node_wf;
use crate::graph::right_child;

verus! {

/// How one chain-rule contribution is computed from the source node's
/// accumulated gradient `g` and recorded node values. The shapes are the
/// local backward rules of the four operations.
#[derive(Clone, Copy, Debug, PartialEq, Eq, Structural)]
pub enum GradOp {
    /// The contribution is `g` itself (either operand of an addition, or
    /// the left operand of a subtraction).
    Propagate,
    /// The contribution is `-g` (the right operand of a subtraction).
    PropagateNeg,
    /// The contribution is `value(i) * g` for the held index `i` (an operand
    /// of a multiplication is scaled by the other operand's value, never by
    /// its gradient).
    ScaleByValue(usize),
    /// The contribution is `g / value(i)` for the held index `i` (the left
    /// operand of a division; `i` is the right operand).
    DivByValue(usize),
    /// The contribution is `(-g) * value(i) / (value(j) * value(j))` for the
    /// held indices `(i, j)` (the right operand of a division `i / j`).
    NegScaleDivSquare(usize, usize),
}

/// One backward instruction: accumulate into node `target`'s gradient the
/// contribution computed by `op` from node `source`'s gradient.
#[derive(Clone, Copy, Debug, PartialEq, Eq, Structural)]
pub struct GradStep {
    pub target: usize,
    pub source: usize,
    pub op: GradOp,
}

/// A backward pass, ready to execute: `order` is the visit order (reachable
/// nodes, by strictly decreasing index), and `steps` are the chain-rule
/// instructions of the visited nodes, grouped per source node in that order.
///
/// Executing a plan over a gradient table means: set the output node's
/// accumulator to the seed (one, for plain derivatives), then run `steps`
/// front to back, each step adding its contribution to the target's
/// accumulator (a first contribution just sets it). The spec-level meaning
/// is `crate::gradients::backward_result`.
pub struct BackwardPlan {
    pub order: Vec<usize>,
    pub steps: Vec<GradStep>,
}

/// Whether node `b` is reachable from node `a` along child edges, where
/// every node passed through on the way (`b` itself excluded) has an index
/// greater than `cut`. Since indices strictly decrease along edges, the cut
/// tells which part of a backward sweep has already been visited.
pub open spec fn reaches_above(nodes: Seq<GraphNode>, a: int, b: int, cut: int) -> bool
    decreases a,
{
    if a < 0 || a >= nodes.len() {
        false
    } else if a == b {
        true
    } else if is_leaf(nodes[a]) {
        false
    } else if a <= cut {
        false
    } else {
        let l = left_child(nodes[a]);
        let r = right_child(nodes[a]);
        ||| (0 <= l < a && reaches_above(nodes, l, b, cut))
        ||| (0 <= r < a && reaches_above(nodes, r, b, cut))
    }
}

/// Whether node `b` is reachable from node `a` along child edges.
pub open spec fn reaches(nodes: Seq<GraphNode>, a: int, b: int) -> bool {
    reaches_above(nodes, a, b, -1)
}

/// Reachable targets lie at or below their origin, and in the arena.
pub proof fn lemma_reaches_bounds(nodes: Seq<GraphNode>, a: int, b: int, cut: int)
    requires
        reaches_above(nodes, a, b, cut),
    ensures
        0 <= b <= a < nodes.len(),
    decreases a,
{
    if a == b {
    } else {
        let l = left_child(nodes[a]);
        let r = right_child(nodes[a]);
        if 0 <= l < a && reaches_above(nodes, l, b, cut) {
            lemma_reaches_bounds(nodes, l, b, cut);
        } else {
            lemma_reaches_bounds(nodes, r, b, cut);
        }
    }
}

/// A cut below the target does not constrain anything: every node on a path
/// to `b` other than `b` itself already has an index above `b`.
pub proof fn lemma_reaches_cut_below_target(nodes: Seq<GraphNode>, a: int, b: int, cut: int)
    requires
        cut <= b,
    ensures
        reaches_above(nodes, a, b, cut) == reaches(nodes, a, b),
    decreases a,
{
    if a < 0 || a >= nodes.len() || a == b || is_leaf(nodes[a]) {
    } else {
        let l = left_child(nodes[a]);
        let r = right_child(nodes[a]);
        if 0 <= l < a {
            lemma_reaches_cut_below_target(nodes, l, b, cut);
        }
        if 0 <= r < a {
            lemma_reaches_cut_below_target(nodes, r, b, cut);
        }
        if reaches(nodes, a, b) {
            if 0 <= l < a && reaches(nodes, l, b) {
                lemma_reaches_bounds(nodes, l, b, -1);
            } else {
                lemma_reaches_bounds(nodes, r, b, -1);
            }
            assert(b < a);
        }
    }
}

/// Lowering the cut from `cut` to `cut - 1` admits exactly the paths that
/// pass through node `cut` last: those that reach `cut` and then follow one
/// direct child edge of `cut` to the target.
pub proof fn lemma_reaches_lower_cut(nodes: Seq<GraphNode>, a: int, b: int, cut: int)
    requires
        graph_wf(nodes),
        0 <= cut,
    ensures
        reaches_above(nodes, a, b, cut - 1) == (reaches_above(nodes, a, b, cut) || (reaches_above(
            nodes,
            a,
            cut,
            cut,
        ) && !is_leaf(nodes[cut]) && (left_child(nodes[cut]) == b || right_child(nodes[cut])
            == b))),
    decreases a,
{
    if a < 0 || a >= nodes.len() || a == b {
    } else if is_leaf(nodes[a]) {
    } else {
        assert(node_wf(nodes, a));
        let l = left_child(nodes[a]);
        let r = right_child(nodes[a]);
        lemma_reaches_lower_cut(nodes, l, b, cut);
        lemma_reaches_lower_cut(nodes, r, b, cut);
        if a == cut {
            // From `cut` itself with the cut lowered to `cut - 1`, a child
            // path cannot pass through any further node (children sit below
            // the cut), so reachability means a direct child edge.
            assert(reaches_above(nodes, a, cut, cut));
            if l == b {
                assert(reaches_above(nodes, l, b, cut - 1));
            } else {
                assert(!reaches_above(nodes, l, b, cut - 1));
            }
            if r == b {
                assert(reaches_above(nodes, r, b, cut - 1));
            } else {
                assert(!reaches_above(nodes, r, b, cut - 1));
            }
        }
    }
}

/// Reachability follows child edges: whatever reaches an operation node
/// also reaches both of its children.
pub proof fn lemma_reaches_child(nodes: Seq<GraphNode>, a: int, n: int, c: int)
    requires
        graph_wf(nodes),
        reaches(nodes, a, n),
        !is_leaf(nodes[n]),
        c == left_child(nodes[n]) || c == right_child(nodes[n]),
    ensures
        reaches(nodes, a, c),
    decreases a,
{
    lemma_reaches_bounds(nodes, a, n, -1);
    assert(node_wf(nodes, n));
    if a == n {
        assert(reaches_above(nodes, c, c, -1));
    } else {
        assert(node_wf(nodes, a));
        let l = left_child(nodes[a]);
        let r = right_child(nodes[a]);
        if 0 <= l < a && reaches(nodes, l, n) {
            lemma_reaches_child(nodes, l, n, c);
        } else {
            lemma_reaches_child(nodes, r, n, c);
        }
    }
}

/// The chain-rule instructions of node `n`: none for a leaf (or an index out
/// of range), and for an operation node the left contribution followed by
/// the right one, as the local backward rules prescribe.
pub open spec fn local_steps(nodes: Seq<GraphNode>, n: int) -> Seq<GradStep> {
    if 0 <= n < nodes.len() {
        match (nodes[n].left, nodes[n].right) {
            (Option::Some(l), Option::Some(r)) => match nodes[n].operand {
                Operand::Add => seq![
                    GradStep { target: l, source: n as usize, op: GradOp::Propagate },
                    GradStep { target: r, source: n as usize, op: GradOp::Propagate },
                ],
                Operand::Sub => seq![
                    GradStep { target: l, source: n as usize, op: GradOp::Propagate },
                    GradStep { target: r, source: n as usize, op: GradOp::PropagateNeg },
                ],
                Operand::Mul => seq![
                    GradStep { target: l, source: n as usize, op: GradOp::ScaleByValue(r) },
                    GradStep { target: r, source: n as usize, op: GradOp::ScaleByValue(l) },
                ],
                Operand::Div => seq![
                    GradStep { target: l, source: n as usize, op: GradOp::DivByValue(r) },
                    GradStep {
                        target: r,
                        source: n as usize,
                        op: GradOp::NegScaleDivSquare(l, r),
                    },
                ],
                Operand::Leaf => Seq::empty(),
            },
            _ => Seq::empty(),
        }
    } else {
        Seq::empty()
    }
}

/// The visit order of a backward pass from `root`, restricted to indices in
/// `[lo, root]`: every node in that range reachable from `root`, exactly
/// once, by strictly decreasing index. The whole order is `lo == 0`.
pub open spec fn order_from(nodes: Seq<GraphNode>, root: int, lo: int) -> Seq<usize>
    decreases root - lo + 1,
{
    if lo < 0 || lo > root {
        Seq::empty()
    } else {
        order_from(nodes, root, lo + 1) + (if reaches(nodes, root, lo) {
            seq![lo as usize]
        } else {
            Seq::empty()
        })
    }
}

/// The instructions of a visit order: each visited node's local steps,
/// concatenated in visit order.
pub open spec fn steps_of_order(nodes: Seq<GraphNode>, order: Seq<usize>) -> Seq<GradStep>
    decreases order.len(),
{
    if order.len() == 0 {
        Seq::empty()
    } else {
        steps_of_order(nodes, order.drop_last()) + local_steps(nodes, order.last() as int)
    }
}

/// Each position of a visit order holds a larger index than every later
/// position: every node appears at most once, and parents (larger indices)
/// come before children.
pub open spec fn strictly_decreasing(order: Seq<usize>) -> bool {
    forall|k1: int, k2: int|
        0 <= k1 < k2 < order.len() ==> #[trigger] order[k1] > #[trigger] order[k2]
}

/// Every entry of `order` lies in `[lo, hi]`.
pub open spec fn entries_within(order: Seq<usize>, lo: int, hi: int) -> bool {
    forall|k: int| 0 <= k < order.len() ==> lo <= #[trigger] order[k] && order[k] <= hi
}

/// The visit order is strictly decreasing: each node is visited once, and
/// every parent is visited before each of its children.
pub proof fn lemma_order_decreasing(nodes: Seq<GraphNode>, root: int, lo: int)
    requires
        root <= usize::MAX,
    ensures
        strictly_decreasing(order_from(nodes, root, lo)),
        entries_within(order_from(nodes, root, lo), lo, root),
    decreases root - lo + 1,
{
    if lo < 0 || lo > root {
    } else {
        lemma_order_decreasing(nodes, root, lo + 1);
        let whole = order_from(nodes, root, lo);
        let rest = order_from(nodes, root, lo + 1);
        assert(forall|k: int| 0 <= k < rest.len() ==> #[trigger] whole[k] == rest[k]);
        if reaches(nodes, root, lo) {
            assert(whole.len() == rest.len() + 1);
            assert(whole[whole.len() - 1] == lo as usize);
        } else {
            assert(whole.len() == rest.len());
        }
        assert forall|k: int| 0 <= k < whole.len() implies lo <= #[trigger] whole[k] && whole[k]
            <= root by {
            if k < rest.len() {
                assert(whole[k] == order_from(nodes, root, lo + 1)[k]);
                assert(lo + 1 <= order_from(nodes, root, lo + 1)[k] && order_from(
                    nodes,
                    root,
                    lo + 1,
                )[k] <= root);
            }
        }
        assert forall|k1: int, k2: int| 0 <= k1 < k2 < whole.len() implies #[trigger] whole[k1]
            > #[trigger] whole[k2] by {
            if k2 < rest.len() {
                assert(whole[k1] == rest[k1] && whole[k2] == rest[k2]);
                assert(order_from(nodes, root, lo + 1)[k1] > order_from(nodes, root, lo + 1)[k2]);
            } else {
                assert(whole[k2] == lo as usize);
                assert(whole[k1] == rest[k1]);
                assert(lo + 1 <= order_from(nodes, root, lo + 1)[k1]);
            }
        }
    }
}

/// The visit order holds exactly the nodes of `[lo, root]` that are
/// reachable from `root`.
pub proof fn lemma_order_complete(nodes: Seq<GraphNode>, root: int, lo: int, j: int)
    requires
        0 <= lo <= j <= root <= usize::MAX,
    ensures
        order_from(nodes, root, lo).contains(j as usize) == reaches(nodes, root, j),
    decreases root - lo + 1,
{
    let whole = order_from(nodes, root, lo);
    let rest = order_from(nodes, root, lo + 1);
    lemma_order_decreasing(nodes, root, lo + 1);
    assert(forall|k: int| 0 <= k < rest.len() ==> #[trigger] whole[k] == rest[k]);
    if j == lo {
        if reaches(nodes, root, lo) {
            assert(whole[whole.len() - 1] == lo as usize);
            assert(whole.contains(j as usize));
        } else {
            assert(whole.len() == rest.len());
            if whole.contains(j as usize) {
                let k = choose|k: int| 0 <= k < whole.len() && whole[k] == j as usize;
                assert(whole[k] == rest[k]);
                assert(lo + 1 <= order_from(nodes, root, lo + 1)[k]);
                assert(false);
            }
        }
    } else {
        lemma_order_complete(nodes, root, lo + 1, j);
        if rest.contains(j as usize) {
            let k = choose|k: int| 0 <= k < rest.len() && rest[k] == j as usize;
            assert(whole[k] == j as usize);
            assert(whole.contains(j as usize));
        }
        if whole.contains(j as usize) {
            let k = choose|k: int| 0 <= k < whole.len() && whole[k] == j as usize;
            if k < rest.len() {
                assert(rest[k] == j as usize);
                assert(rest.contains(j as usize));
            } else {
                assert(whole[k] == lo as usize);
                assert(false);
            }
        }
    }
}

/// The instructions of a concatenated order are the concatenated
/// instructions.
pub proof fn lemma_steps_of_order_append(nodes: Seq<GraphNode>, o1: Seq<usize>, o2: Seq<usize>)
    ensures
        steps_of_order(nodes, o1 + o2) == steps_of_order(nodes, o1) + steps_of_order(nodes, o2),
    decreases o2.len(),
{
    if o2.len() == 0 {
        assert(o1 + o2 =~= o1);
        assert(steps_of_order(nodes, o1) + steps_of_order(nodes, o2) =~= steps_of_order(
            nodes,
            o1,
        ));
    } else {
        assert((o1 + o2).drop_last() =~= o1 + o2.drop_last());
        assert((o1 + o2).last() == o2.last());
        lemma_steps_of_order_append(nodes, o1, o2.drop_last());
        assert(steps_of_order(nodes, o1) + (steps_of_order(nodes, o2.drop_last()) + local_steps(
            nodes,
            o2.last() as int,
        )) =~= (steps_of_order(nodes, o1) + steps_of_order(nodes, o2.drop_last())) + local_steps(
            nodes,
            o2.last() as int,
        ));
    }
}

/// A visit order splits at any midpoint: the part above `p` comes first,
/// and what follows visits only nodes below `p`.
pub proof fn lemma_order_split(nodes: Seq<GraphNode>, root: int, lo: int, p: int) -> (rest: Seq<
    usize,
>)
    requires
        0 <= lo <= p,
    ensures
        order_from(nodes, root, lo) == order_from(nodes, root, p) + rest,
    decreases p - lo,
{
    if lo == p {
        let rest = Seq::<usize>::empty();
        assert(order_from(nodes, root, p) + rest =~= order_from(nodes, root, p));
        rest
    } else {
        let rest1 = lemma_order_split(nodes, root, lo + 1, p);
        if lo > root {
            let rest = Seq::<usize>::empty();
            assert(order_from(nodes, root, p) =~= Seq::<usize>::empty());
            assert(order_from(nodes, root, p) + rest =~= order_from(nodes, root, lo));
            rest
        } else {
            let tail = if reaches(nodes, root, lo) {
                seq![lo as usize]
            } else {
                Seq::<usize>::empty()
            };
            assert(order_from(nodes, root, lo) == order_from(nodes, root, lo + 1) + tail);
            let rest = rest1 + tail;
            assert(order_from(nodes, root, p) + (rest1 + tail) =~= (order_from(nodes, root, p)
                + rest1) + tail);
            rest
        }
    }
}

/// A reachable node other than the origin has a reachable parent: an
/// operation node one of whose child edges points at it.
pub proof fn lemma_reaches_parent(nodes: Seq<GraphNode>, a: int, b: int) -> (p: int)
    requires
        graph_wf(nodes),
        reaches(nodes, a, b),
        a != b,
    ensures
        reaches(nodes, a, p),
        !is_leaf(nodes[p]),
        left_child(nodes[p]) == b || right_child(nodes[p]) == b,
        b < p <= a,
    decreases a,
{
    lemma_reaches_bounds(nodes, a, b, -1);
    assert(node_wf(nodes, a));
    let l = left_child(nodes[a]);
    let r = right_child(nodes[a]);
    if 0 <= l < a && reaches(nodes, l, b) {
        if l == b {
            a
        } else {
            let p = lemma_reaches_parent(nodes, l, b);
            assert(reaches(nodes, a, p));
            p
        }
    } else {
        if r == b {
            a
        } else {
            let p = lemma_reaches_parent(nodes, r, b);
            assert(reaches(nodes, a, p));
            p
        }
    }
}

impl Graph {
    /// Computes the backward pass from `root`: the reverse-topological visit
    /// order over every node reachable from `root`, and the chain-rule
    /// instructions of the visited operation nodes in that order.
    ///
    /// A fresh pass assumes all accumulators read zero; executing the plan
    /// (seed the root, then run the steps front to back) leaves in every
    /// reachable node's accumulator the partial derivative of the root's
    /// value with respect to that node's value, scaled by the seed. Nodes
    /// that are not reachable from `root` are not visited and keep their
    /// accumulators untouched.
    pub fn backward(&self, root: &Node) -> (plan: BackwardPlan)
        requires
            self.wf(),
            0 <= root.spec_id() < self@.len(),
        ensures
            plan.order@ == order_from(self@, root.spec_id(), 0),
            plan.steps@ == steps_of_order(self@, plan.order@),
            strictly_decreasing(plan.order@),
            entries_within(plan.order@, 0, root.spec_id()),
            forall|j: int|
                0 <= j <= root.spec_id() ==> #[trigger] plan.order@.contains(j as usize)
                    == reaches(self@, root.spec_id(), j),
    {
        let ghost nodes = self@;
        let ghost rt = root.spec_id();
        let root_id = root.inner();
        let n = self.len();
        let mut marked: Vec<bool> = Vec::new();
        let mut j: usize = 0;
        while j < n
            invariant
                marked@.len() == j,
                j <= n,
                forall|k: int| 0 <= k < j ==> !marked@[k],
            decreases n - j,
        {
            marked.push(false);
            j += 1;
        }
        marked.set(root_id, true);
        let mut order: Vec<usize> = Vec::new();
        let mut steps: Vec<GradStep> = Vec::new();
        let mut i: usize = root_id + 1;
        proof {
            assert forall|k: int| 0 <= k < n implies marked@[k] == reaches_above(
                nodes,
                rt,
                k,
                i - 1,
            ) by {
                if k != rt {
                    assert(!reaches_above(nodes, rt, k, rt));
                }
            }
        }
        while i > 0
            invariant
                self.wf(),
                nodes == self@,
                rt == root.spec_id(),
                0 <= rt < nodes.len(),
                i <= rt + 1,
                n == nodes.len(),
                marked@.len() == n,
                forall|k: int| 0 <= k < n ==> marked@[k] == reaches_above(nodes, rt, k, i - 1),
                order@ == order_from(nodes, rt, i as int),
                steps@ == steps_of_order(nodes, order@),
            decreases i,
        {
            i -= 1;
            let ghost old_order = order@;
            let ghost old_marked = marked@;
            if marked[i] {
                proof {
                    lemma_reaches_cut_below_target(nodes, rt, i as int, i as int);
                }
                order.push(i);
                let node = self.node_at(i);
                match (node.left, node.right) {
                    (Some(l), Some(r)) => {
                        proof {
                            assert(node_wf(nodes, i as int));
                        }
                        let first;
                        let second;
                        match node.operand {
                            Operand::Add => {
                                first = GradStep { target: l, source: i, op: GradOp::Propagate };
                                second = GradStep { target: r, source: i, op: GradOp::Propagate };
                            },
                            Operand::Sub => {
                                first = GradStep { target: l, source: i, op: GradOp::Propagate };
                                second = GradStep {
                                    target: r,
                                    source: i,
                                    op: GradOp::PropagateNeg,
                                };
                            },
                            Operand::Mul => {
                                first = GradStep {
                                    target: l,
                                    source: i,
                                    op: GradOp::ScaleByValue(r),
                                };
                                second = GradStep {
                                    target: r,
                                    source: i,
                                    op: GradOp::ScaleByValue(l),
                                };
                            },
                            Operand::Div | Operand::Leaf => {
                                first = GradStep { target: l, source: i, op: GradOp::DivByValue(r) };
                                second = GradStep {
                                    target: r,
                                    source: i,
                                    op: GradOp::NegScaleDivSquare(l, r),
                                };
                            },
                        }
                        steps.push(first);
                        steps.push(second);
                        marked.set(l, true);
                        marked.set(r, true);
                        proof {
                            assert(steps@ =~= steps_of_order(nodes, old_order) + local_steps(
                                nodes,
                                i as int,
                            ));
                            assert(order@.drop_last() =~= old_order);
                        }
                    },
                    _ => {
                        proof {
                            assert(node_wf(nodes, i as int));
                            assert(is_leaf(nodes[i as int]));
                            assert(local_steps(nodes, i as int) =~= Seq::<GradStep>::empty());
                            assert(order@.drop_last() =~= old_order);
                        }
                    },
                }
            }
            proof {
                lemma_reaches_cut_below_target(nodes, rt, i as int, i as int);
                assert(order@ =~= order_from(nodes, rt, i as int));
                assert(steps@ =~= steps_of_order(nodes, order@));
                assert forall|k: int| 0 <= k < n implies marked@[k] == reaches_above(
                    nodes,
                    rt,
                    k,
                    i - 1,
                ) by {
                    lemma_reaches_lower_cut(nodes, rt, k, i as int);
                }
            }
        }
        proof {
            lemma_order_decreasing(nodes, rt, 0);
            assert forall|j: int| 0 <= j <= rt implies order_from(nodes, rt, 0).contains(j as usize)
                == reaches(nodes, rt, j) by {
                lemma_order_complete(nodes, rt, 0, j);
            }
        }
        BackwardPlan { order, steps }
    }
}

} // verus!
