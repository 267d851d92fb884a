//! A toy neuron: one weight leaf and one bias leaf per input dimension.
//!
//! `forward_step` accumulates `input[k] * weight[k] + bias[k]` over the
//! dimensions with graph operations, so a backward pass flows through every
//! input, weight and bias. The bias is per input dimension here (a single
//! shared bias would be an equally valid layout; this one keeps one bias
//! leaf per weight leaf). No nonlinearity is applied: that is left to the
//! caller as an extension point. As everywhere in this crate, scalar
//! payloads are opaque: the caller supplies the weight and bias payloads
//! (drawn at random or fixed) and the per-node results its kernel computed.

use vstd::prelude::*;

use crate::graph::Graph;
use crate::graph::Node;
use crate::graph::Operand;
use crate::graph::Role;
use crate::graph::leaf_record;
use crate::graph::op_record;

verus! {

/// How building or driving a neuron can fail: the caller handed vectors
/// whose lengths do not agree with the neuron's dimension (or an empty
/// dimension). A well-sized call never fails.
#[derive(Clone, Copy, Debug, PartialEq, Eq, Structural)]
pub enum NeuronError {
    DimensionMismatch,
}

/// Where `forward_step` puts the product `input[k] * weight[k]`, counting
/// from the arena length `base` it started at.
pub open spec fn product_slot(base: int, k: int) -> int {
    if k == 0 {
        base
    } else {
        base + 3 * k - 1
    }
}

/// Where `forward_step` puts the term `product[k] + bias[k]`.
pub open spec fn term_slot(base: int, k: int) -> int {
    product_slot(base, k) + 1
}

/// Where `forward_step` puts the running sum over the first `k + 1` terms
/// (for `k == 0` that is the first term itself).
pub open spec fn acc_slot(base: int, k: int) -> int {
    if k == 0 {
        base + 1
    } else {
        base + 3 * k + 1
    }
}

/// A neuron of dimension `d`: `d` weight leaves and `d` bias leaves in some
/// graph.
pub struct Neuron {
    weights: Vec<Node>,
    biases: Vec<Node>,
}

impl Neuron {
    /// The weight handles, by dimension.
    pub closed spec fn spec_weights(self) -> Seq<Node> {
        self.weights@
    }

    /// The bias handles, by dimension.
    pub closed spec fn spec_biases(self) -> Seq<Node> {
        self.biases@
    }

    /// The dimension: how many inputs one forward step consumes.
    pub open spec fn spec_dimension(self) -> int {
        self.spec_weights().len() as int
    }

    /// The neuron's handles point into `graph`, one bias per weight, at
    /// least one dimension.
    pub open spec fn wf(self, graph: Graph) -> bool {
        &&& self.spec_weights().len() == self.spec_biases().len()
        &&& self.spec_weights().len() >= 1
        &&& forall|k: int|
            0 <= k < self.spec_weights().len() ==> 0 <= #[trigger] self.spec_weights()[k].spec_id()
                < graph@.len()
        &&& forall|k: int|
            0 <= k < self.spec_biases().len() ==> 0 <= #[trigger] self.spec_biases()[k].spec_id()
                < graph@.len()
    }

    /// Builds a neuron into `graph`: one weight leaf per entry of
    /// `weight_values`, then one bias leaf per entry of `bias_values`. The
    /// two vectors must have the same nonzero length — handing anything
    /// else over is a construction error and leaves the graph untouched.
    pub fn new(graph: &mut Graph, weight_values: &Vec<u64>, bias_values: &Vec<u64>) -> (r: Result<
        Neuron,
        NeuronError,
    >)
        requires
            old(graph).wf(),
        ensures
            r is Ok <==> (weight_values@.len() == bias_values@.len() && weight_values@.len() >= 1),
            r is Err ==> final(graph)@ == old(graph)@ && r == Err::<Neuron, NeuronError>(
                NeuronError::DimensionMismatch,
            ),
            final(graph).wf(),
            r matches Ok(n) ==> ({
                let base = old(graph)@.len() as int;
                let d = weight_values@.len() as int;
                &&& n.wf(*final(graph))
                &&& n.spec_dimension() == d
                &&& final(graph)@.len() == base + 2 * d
                &&& (forall|j: int| 0 <= j < base ==> final(graph)@[j] == old(graph)@[j])
                &&& (forall|k: int|
                    0 <= k < d ==> final(graph)@[base + k] == leaf_record(weight_values@[k]))
                &&& (forall|k: int|
                    0 <= k < d ==> final(graph)@[base + d + k] == leaf_record(bias_values@[k]))
                &&& (forall|k: int|
                    0 <= k < d ==> #[trigger] n.spec_weights()[k].spec_id() == base + k)
                &&& (forall|k: int|
                    0 <= k < d ==> #[trigger] n.spec_weights()[k].spec_role() == Role::Weight)
                &&& (forall|k: int|
                    0 <= k < d ==> #[trigger] n.spec_biases()[k].spec_id() == base + d + k)
                &&& (forall|k: int|
                    0 <= k < d ==> #[trigger] n.spec_biases()[k].spec_role() == Role::Bias)
            }),
    {
        let d = weight_values.len();
        if bias_values.len() != d || d == 0 {
            return Err(NeuronError::DimensionMismatch);
        }
        let ghost base = graph@.len() as int;
        let mut weights: Vec<Node> = Vec::new();
        let mut k: usize = 0;
        while k < d
            invariant
                graph.wf(),
                k <= d,
                d == weight_values@.len(),
                base == old(graph)@.len(),
                graph@.len() == base + k,
                weights@.len() == k,
                forall|j: int| 0 <= j < base ==> graph@[j] == old(graph)@[j],
                forall|m: int|
                    0 <= m < k ==> graph@[base + m] == leaf_record(weight_values@[m]),
                forall|m: int| 0 <= m < k ==> #[trigger] weights@[m].spec_id() == base + m,
                forall|m: int| 0 <= m < k ==> #[trigger] weights@[m].spec_role() == Role::Weight,
            decreases d - k,
        {
            let ghost old_ws = weights@;
            let w = graph.leaf(Role::Weight, weight_values[k]);
            weights.push(w);
            proof {
                assert forall|m: int| 0 <= m < weights@.len() implies #[trigger] weights@[m].spec_id()
                    == base + m by {
                    if m < old_ws.len() {
                        assert(weights@[m] == old_ws[m]);
                    } else {
                        assert(weights@[m] == w);
                    }
                }
                assert forall|m: int| 0 <= m < weights@.len() implies #[trigger] weights@[m].spec_role()
                    == Role::Weight by {
                    if m < old_ws.len() {
                        assert(weights@[m] == old_ws[m]);
                    } else {
                        assert(weights@[m] == w);
                    }
                }
            }
            k += 1;
        }
        let mut biases: Vec<Node> = Vec::new();
        let mut k2: usize = 0;
        while k2 < d
            invariant
                graph.wf(),
                k2 <= d,
                d == weight_values@.len(),
                d == bias_values@.len(),
                base == old(graph)@.len(),
                graph@.len() == base + d + k2,
                biases@.len() == k2,
                forall|j: int| 0 <= j < base ==> graph@[j] == old(graph)@[j],
                forall|m: int|
                    0 <= m < d ==> graph@[base + m] == leaf_record(weight_values@[m]),
                forall|m: int|
                    0 <= m < k2 ==> graph@[base + d + m] == leaf_record(bias_values@[m]),
                forall|m: int| 0 <= m < k2 ==> #[trigger] biases@[m].spec_id() == base + d + m,
                forall|m: int| 0 <= m < k2 ==> #[trigger] biases@[m].spec_role() == Role::Bias,
            decreases d - k2,
        {
            let ghost old_bs = biases@;
            let b = graph.leaf(Role::Bias, bias_values[k2]);
            biases.push(b);
            proof {
                assert forall|m: int| 0 <= m < biases@.len() implies #[trigger] biases@[m].spec_id()
                    == base + d + m by {
                    if m < old_bs.len() {
                        assert(biases@[m] == old_bs[m]);
                    } else {
                        assert(biases@[m] == b);
                    }
                }
                assert forall|m: int| 0 <= m < biases@.len() implies #[trigger] biases@[m].spec_role()
                    == Role::Bias by {
                    if m < old_bs.len() {
                        assert(biases@[m] == old_bs[m]);
                    } else {
                        assert(biases@[m] == b);
                    }
                }
            }
            k2 += 1;
        }
        let ghost ws = weights@;
        let ghost bs = biases@;
        let n = Neuron { weights, biases };
        proof {
            assert(n.spec_weights() == ws);
            assert(n.spec_biases() == bs);
        }
        Ok(n)
    }

    /// The dimension: how many inputs one forward step consumes.
    pub fn dimension(&self) -> (d: usize)
        ensures
            d as int == self.spec_dimension(),
    {
        self.weights.len()
    }

    /// The `k`-th weight leaf's handle.
    pub fn weight(&self, k: usize) -> (w: Node)
        requires
            0 <= k < self.spec_dimension(),
        ensures
            w == self.spec_weights()[k as int],
    {
        self.weights[k]
    }

    /// The `k`-th bias leaf's handle.
    pub fn bias(&self, k: usize) -> (b: Node)
        requires
            0 <= k < self.spec_biases().len(),
        ensures
            b == self.spec_biases()[k as int],
    {
        self.biases[k]
    }

    /// One forward step: builds, with graph operations, the left-to-right
    /// accumulated sum of `inputs[k] * weight[k] + bias[k]` over the
    /// dimensions, and returns the handle of the total. The caller's kernel
    /// supplies the payloads: `products[k]` for each product node,
    /// `terms[k]` for each product-plus-bias node, and `sums[k - 1]` for
    /// each running-sum node after the first term. Vectors of the wrong
    /// length are a dimension error and leave the graph untouched; a
    /// well-sized call always succeeds.
    pub fn forward_step(
        &self,
        graph: &mut Graph,
        inputs: &Vec<Node>,
        products: &Vec<u64>,
        terms: &Vec<u64>,
        sums: &Vec<u64>,
    ) -> (r: Result<Node, NeuronError>)
        requires
            old(graph).wf(),
            self.wf(*old(graph)),
            forall|k: int|
                0 <= k < inputs@.len() ==> 0 <= #[trigger] inputs@[k].spec_id() < old(
                    graph,
                )@.len(),
        ensures
            r is Ok <==> (inputs@.len() == self.spec_dimension() && products@.len()
                == self.spec_dimension() && terms@.len() == self.spec_dimension() && sums@.len()
                + 1 == self.spec_dimension()),
            r is Err ==> final(graph)@ == old(graph)@ && r == Err::<Node, NeuronError>(
                NeuronError::DimensionMismatch,
            ),
            final(graph).wf(),
            r matches Ok(node) ==> ({
                let base = old(graph)@.len() as int;
                let d = self.spec_dimension();
                &&& final(graph)@.len() == base + 3 * d - 1
                &&& (forall|j: int| 0 <= j < base ==> final(graph)@[j] == old(graph)@[j])
                &&& (forall|k: int|
                    0 <= k < d ==> final(graph)@[product_slot(base, k)] == op_record(
                        Operand::Mul,
                        inputs@[k].spec_id(),
                        self.spec_weights()[k].spec_id(),
                        products@[k],
                    ))
                &&& (forall|k: int|
                    0 <= k < d ==> final(graph)@[term_slot(base, k)] == op_record(
                        Operand::Add,
                        product_slot(base, k),
                        self.spec_biases()[k].spec_id(),
                        terms@[k],
                    ))
                &&& (forall|k: int|
                    1 <= k < d ==> final(graph)@[acc_slot(base, k)] == op_record(
                        Operand::Add,
                        acc_slot(base, k - 1),
                        term_slot(base, k),
                        sums@[k - 1],
                    ))
                &&& node.spec_id() == acc_slot(base, d - 1)
                &&& node.spec_role() == Role::Intermediate
            }),
    {
        let d = self.weights.len();
        if inputs.len() != d || products.len() != d || terms.len() != d || sums.len() != d - 1 {
            return Err(NeuronError::DimensionMismatch);
        }
        let ghost base = graph@.len() as int;
        let p0 = graph.mul(&inputs[0], &self.weights[0], products[0]);
        let t0 = graph.add(&p0, &self.biases[0], terms[0]);
        let mut acc = t0;
        let mut k: usize = 1;
        while k < d
            invariant
                graph.wf(),
                self.wf(*graph),
                1 <= k <= d,
                d == self.spec_dimension(),
                inputs@.len() == d,
                products@.len() == d,
                terms@.len() == d,
                sums@.len() + 1 == d,
                base == old(graph)@.len(),
                forall|m: int|
                    0 <= m < inputs@.len() ==> 0 <= #[trigger] inputs@[m].spec_id() < base,
                forall|m: int|
                    0 <= m < self.spec_weights().len() ==> 0
                        <= #[trigger] self.spec_weights()[m].spec_id() < base,
                forall|m: int|
                    0 <= m < self.spec_biases().len() ==> 0
                        <= #[trigger] self.spec_biases()[m].spec_id() < base,
                graph@.len() == acc_slot(base, k - 1) + 1,
                forall|j: int| 0 <= j < base ==> graph@[j] == old(graph)@[j],
                forall|m: int|
                    0 <= m < k ==> graph@[product_slot(base, m)] == op_record(
                        Operand::Mul,
                        inputs@[m].spec_id(),
                        self.spec_weights()[m].spec_id(),
                        products@[m],
                    ),
                forall|m: int|
                    0 <= m < k ==> graph@[term_slot(base, m)] == op_record(
                        Operand::Add,
                        product_slot(base, m),
                        self.spec_biases()[m].spec_id(),
                        terms@[m],
                    ),
                forall|m: int|
                    1 <= m < k ==> graph@[acc_slot(base, m)] == op_record(
                        Operand::Add,
                        acc_slot(base, m - 1),
                        term_slot(base, m),
                        sums@[m - 1],
                    ),
                acc.spec_id() == acc_slot(base, k - 1),
                acc.spec_role() == Role::Intermediate,
            decreases d - k,
        {
            let p = graph.mul(&inputs[k], &self.weights[k], products[k]);
            let t = graph.add(&p, &self.biases[k], terms[k]);
            acc = graph.add(&acc, &t, sums[k - 1]);
            k += 1;
        }
        Ok(acc)
    }
}

} // verus!
