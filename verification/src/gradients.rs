//! Gradient accumulators, and what executing a backward plan means.
//!
//! Gradients are kept apart from the immutable node records, in one
//! accumulator table indexed by node id. An accumulator starts out empty and
//! reads as zero until a backward pass writes a first contribution into it;
//! later contributions are added on top. The arithmetic (adding two
//! payloads, scaling by a value) belongs to the caller's kernel, so the
//! meaning of a run is specified relative to arbitrary interpretations of
//! the four scalar functions: everything the specs below pin down — who
//! contributes to whom, in which order, seeded how — holds for every kernel.

use vstd::prelude::*;

use crate::graph::GraphNode;
use crate::plan::GradOp;
use crate::plan::GradStep;
use crate::plan::order_from;
use crate::plan::steps_of_order;

verus! {

/// One gradient accumulator per graph node. `None` means no contribution
/// has arrived yet; such an accumulator reads as zero (the all-zero payload,
/// which is the bit pattern of a floating-point zero).
pub struct GradientTable {
    slots: Vec<Option<u64>>,
}

/// How an accumulator reads: its payload once one was stored, zero before.
pub open spec fn read_gradient(grads: Seq<Option<u64>>, i: int) -> u64 {
    match grads[i] {
        Option::Some(g) => g,
        Option::None => 0u64,
    }
}

impl View for GradientTable {
    type V = Seq<Option<u64>>;

    closed spec fn view(&self) -> Seq<Option<u64>> {
        self.slots@
    }
}

impl GradientTable {
    /// A table of `len` accumulators, all empty: every gradient of a freshly
    /// built graph reads zero before any backward pass runs.
    pub fn new(len: usize) -> (t: GradientTable)
        ensures
            t@.len() == len,
            forall|i: int| 0 <= i < len ==> t@[i] is None,
    {
        let mut slots: Vec<Option<u64>> = Vec::new();
        let mut j: usize = 0;
        while j < len
            invariant
                slots@.len() == j,
                j <= len,
                forall|i: int| 0 <= i < j ==> slots@[i] is None,
            decreases len - j,
        {
            slots.push(None);
            j += 1;
        }
        GradientTable { slots }
    }

    /// How many accumulators the table holds.
    pub fn len(&self) -> (n: usize)
        ensures
            n == self@.len(),
    {
        self.slots.len()
    }

    /// The raw accumulator: the payload stored so far, if any.
    pub fn get(&self, i: usize) -> (g: Option<u64>)
        requires
            i < self@.len(),
        ensures
            g == self@[i as int],
    {
        self.slots[i]
    }

    /// The gradient as a consumer reads it: an untouched accumulator reads
    /// as zero.
    pub fn read(&self, i: usize) -> (g: u64)
        requires
            i < self@.len(),
        ensures
            g == read_gradient(self@, i as int),
    {
        match self.slots[i] {
            Some(g) => g,
            None => 0u64,
        }
    }

    /// Overwrites the accumulator at `i` with the payload `g`. Seeding the
    /// output node, and writing an accumulated sum back, are both this.
    pub fn store(&mut self, i: usize, g: u64)
        requires
            i < old(self)@.len(),
        ensures
            final(self)@ == old(self)@.update(i as int, Some(g)),
    {
        self.slots.set(i, Some(g));
    }

    /// Empties every accumulator, so all gradients read zero again. A graph
    /// may only be reused for another backward pass after this: running a
    /// pass on top of stale accumulators adds to them and is wrong.
    pub fn reset(&mut self)
        ensures
            final(self)@.len() == old(self)@.len(),
            forall|i: int| 0 <= i < final(self)@.len() ==> final(self)@[i] is None,
    {
        let len = self.slots.len();
        let mut j: usize = 0;
        while j < len
            invariant
                self@.len() == len,
                j <= len,
                forall|i: int| 0 <= i < j ==> self@[i] is None,
            decreases len - j,
        {
            self.slots.set(j, None);
            j += 1;
        }
    }
}

/// The contribution one instruction computes, given the source node's
/// accumulated gradient `g`, the recorded node values, and the caller's
/// interpretations of scalar multiply, divide and negate.
pub open spec fn contribution_value(
    op: GradOp,
    g: u64,
    vals: Seq<u64>,
    mul_f: spec_fn(u64, u64) -> u64,
    div_f: spec_fn(u64, u64) -> u64,
    neg_f: spec_fn(u64) -> u64,
) -> u64 {
    match op {
        GradOp::Propagate => g,
        GradOp::PropagateNeg => neg_f(g),
        GradOp::ScaleByValue(c) => mul_f(vals[c as int], g),
        GradOp::DivByValue(d) => div_f(g, vals[d as int]),
        GradOp::NegScaleDivSquare(n, d) => div_f(
            mul_f(neg_f(g), vals[n as int]),
            mul_f(vals[d as int], vals[d as int]),
        ),
    }
}

/// One instruction applied to the accumulators: nothing happens when the
/// source accumulator is still empty (a well-formed plan never runs such a
/// step); otherwise the contribution lands in the target accumulator, set
/// if it was empty, added with `add_f` on top of what was there if not.
pub open spec fn apply_step(
    step: GradStep,
    vals: Seq<u64>,
    grads: Seq<Option<u64>>,
    add_f: spec_fn(u64, u64) -> u64,
    mul_f: spec_fn(u64, u64) -> u64,
    div_f: spec_fn(u64, u64) -> u64,
    neg_f: spec_fn(u64) -> u64,
) -> Seq<Option<u64>> {
    if (step.source as int) < grads.len() && (step.target as int) < grads.len() {
        match grads[step.source as int] {
            Option::None => grads,
            Option::Some(g) => {
                let c = contribution_value(step.op, g, vals, mul_f, div_f, neg_f);
                let acc = match grads[step.target as int] {
                    Option::None => c,
                    Option::Some(h) => add_f(h, c),
                };
                grads.update(step.target as int, Option::Some(acc))
            },
        }
    } else {
        grads
    }
}

/// The instructions of a plan, run front to back.
pub open spec fn run_steps(
    steps: Seq<GradStep>,
    vals: Seq<u64>,
    grads: Seq<Option<u64>>,
    add_f: spec_fn(u64, u64) -> u64,
    mul_f: spec_fn(u64, u64) -> u64,
    div_f: spec_fn(u64, u64) -> u64,
    neg_f: spec_fn(u64) -> u64,
) -> Seq<Option<u64>>
    decreases steps.len(),
{
    if steps.len() == 0 {
        grads
    } else {
        run_steps(
            steps.drop_first(),
            vals,
            apply_step(steps[0], vals, grads, add_f, mul_f, div_f, neg_f),
            add_f,
            mul_f,
            div_f,
            neg_f,
        )
    }
}

/// Running a concatenation of instruction lists is running the first list,
/// then the second on what the first left behind.
pub proof fn lemma_run_steps_append(
    s1: Seq<GradStep>,
    s2: Seq<GradStep>,
    vals: Seq<u64>,
    grads: Seq<Option<u64>>,
    add_f: spec_fn(u64, u64) -> u64,
    mul_f: spec_fn(u64, u64) -> u64,
    div_f: spec_fn(u64, u64) -> u64,
    neg_f: spec_fn(u64) -> u64,
)
    ensures
        run_steps(s1 + s2, vals, grads, add_f, mul_f, div_f, neg_f) == run_steps(
            s2,
            vals,
            run_steps(s1, vals, grads, add_f, mul_f, div_f, neg_f),
            add_f,
            mul_f,
            div_f,
            neg_f,
        ),
    decreases s1.len(),
{
    if s1.len() == 0 {
        assert(s1 + s2 =~= s2);
    } else {
        assert((s1 + s2)[0] == s1[0]);
        assert((s1 + s2).drop_first() =~= s1.drop_first() + s2);
        let stepped = apply_step(s1[0], vals, grads, add_f, mul_f, div_f, neg_f);
        lemma_run_steps_append(s1.drop_first(), s2, vals, stepped, add_f, mul_f, div_f, neg_f);
    }
}

/// Running instructions keeps the table's length, and never empties an
/// accumulator that already holds a contribution.
pub proof fn lemma_run_steps_monotone(
    steps: Seq<GradStep>,
    vals: Seq<u64>,
    grads: Seq<Option<u64>>,
    add_f: spec_fn(u64, u64) -> u64,
    mul_f: spec_fn(u64, u64) -> u64,
    div_f: spec_fn(u64, u64) -> u64,
    neg_f: spec_fn(u64) -> u64,
)
    ensures
        run_steps(steps, vals, grads, add_f, mul_f, div_f, neg_f).len() == grads.len(),
        forall|i: int|
            0 <= i < grads.len() && grads[i] is Some ==> #[trigger] run_steps(
                steps,
                vals,
                grads,
                add_f,
                mul_f,
                div_f,
                neg_f,
            )[i] is Some,
    decreases steps.len(),
{
    if steps.len() == 0 {
    } else {
        let stepped = apply_step(steps[0], vals, grads, add_f, mul_f, div_f, neg_f);
        assert(stepped.len() == grads.len());
        assert(forall|i: int|
            0 <= i < grads.len() && grads[i] is Some ==> #[trigger] stepped[i] is Some);
        lemma_run_steps_monotone(steps.drop_first(), vals, stepped, add_f, mul_f, div_f, neg_f);
    }
}

/// The accumulators a backward pass starts from: all empty, except the
/// output node, whose accumulator holds the seed (the derivative of the
/// output with respect to itself; one, for plain derivatives).
pub open spec fn initial_gradients(len: int, root: int, seed: u64) -> Seq<Option<u64>> {
    Seq::new(
        len as nat,
        |i: int|
            if i == root {
                Option::Some(seed)
            } else {
                Option::None
            },
    )
}

/// The recorded scalar payloads of an arena, by node id.
pub open spec fn node_values(nodes: Seq<GraphNode>) -> Seq<u64> {
    nodes.map_values(|n: GraphNode| n.value)
}

/// What executing the plan of `Graph::backward` leaves in the accumulators:
/// seed the output node, then run the emitted instructions front to back.
/// Stated for every interpretation of the four scalar functions; whatever a
/// kernel computes, each reachable node's accumulator ends up holding its
/// chain-rule accumulation, and nothing else is touched.
pub open spec fn backward_result(
    nodes: Seq<GraphNode>,
    root: int,
    seed: u64,
    add_f: spec_fn(u64, u64) -> u64,
    mul_f: spec_fn(u64, u64) -> u64,
    div_f: spec_fn(u64, u64) -> u64,
    neg_f: spec_fn(u64) -> u64,
) -> Seq<Option<u64>> {
    run_steps(
        steps_of_order(nodes, order_from(nodes, root, 0)),
        node_values(nodes),
        initial_gradients(nodes.len() as int, root, seed),
        add_f,
        mul_f,
        div_f,
        neg_f,
    )
}

} // verus!
