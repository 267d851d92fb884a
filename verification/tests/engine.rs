//! End-to-end tests: drive the engine with a real IEEE-754 double kernel.
//!
//! The library decides everything symbolic (graph structure, backward order,
//! which value scales which contribution); these tests supply the arithmetic:
//! forward payloads when nodes are built, and one small interpreter that
//! executes a backward plan over a gradient table.

use micrograd::gradients::GradientTable;
use micrograd::graph::Graph;
use micrograd::graph::Node;
use micrograd::graph::Operand;
use micrograd::graph::Role;
use micrograd::graph::Value;
use micrograd::neuron::Neuron;
use micrograd::neuron::NeuronError;
use micrograd::plan::GradOp;

fn leaf(g: &mut Graph, role: Role, v: f64) -> Node {
    g.leaf(role, v.to_bits())
}

fn val(g: &Graph, n: &Node) -> f64 {
    f64::from_bits(n.value(g))
}

fn combine(g: &mut Graph, op: Operand, x: &Node, y: &Node) -> Node {
    let a = f64::from_bits(x.value(g));
    let b = f64::from_bits(y.value(g));
    let v = match op {
        Operand::Add => a + b,
        Operand::Sub => a - b,
        Operand::Mul => a * b,
        Operand::Div => a / b,
        Operand::Leaf => unreachable!(),
    };
    g.combine(op, x, y, v.to_bits())
}

/// Executes a backward plan: seed the output with 1.0, then run the
/// emitted chain-rule instructions front to back, adding each contribution
/// onto the target accumulator (a first contribution sets it).
fn run_backward(g: &Graph, root: &Node) -> GradientTable {
    let plan = g.backward(root);
    let mut t = GradientTable::new(g.len());
    t.store(root.inner(), 1.0f64.to_bits());
    for step in plan.steps.iter() {
        if let Some(gbits) = t.get(step.source) {
            let gv = f64::from_bits(gbits);
            let c = match step.op {
                GradOp::Propagate => gv,
                GradOp::PropagateNeg => -gv,
                GradOp::ScaleByValue(i) => f64::from_bits(g.node_value(i)) * gv,
                GradOp::DivByValue(i) => gv / f64::from_bits(g.node_value(i)),
                GradOp::NegScaleDivSquare(n, d) => {
                    let dv = f64::from_bits(g.node_value(d));
                    (-gv) * f64::from_bits(g.node_value(n)) / (dv * dv)
                }
            };
            let acc = match t.get(step.target) {
                None => c,
                Some(h) => f64::from_bits(h) + c,
            };
            t.store(step.target, acc.to_bits());
        }
    }
    t
}

fn gradient(t: &GradientTable, n: &Node) -> f64 {
    f64::from_bits(t.read(n.inner()))
}

/// Builds the forward pass of a neuron, computing the payloads the engine
/// records for each product, term and running sum.
fn neuron_forward(g: &mut Graph, n: &Neuron, inputs: &Vec<Node>) -> Node {
    let d = n.dimension();
    let mut products: Vec<u64> = Vec::new();
    let mut terms: Vec<u64> = Vec::new();
    let mut sums: Vec<u64> = Vec::new();
    let mut acc = 0.0f64;
    for k in 0..d {
        let x = f64::from_bits(inputs[k].value(g));
        let w = f64::from_bits(n.weight(k).value(g));
        let b = f64::from_bits(n.bias(k).value(g));
        let p = x * w;
        let t = p + b;
        products.push(p.to_bits());
        terms.push(t.to_bits());
        if k == 0 {
            acc = t;
        } else {
            acc += t;
            sums.push(acc.to_bits());
        }
    }
    n.forward_step(g, inputs, &products, &terms, &sums).unwrap()
}

#[test]
fn node_sanity_check() {
    let mut g = Graph::new();
    let x = leaf(&mut g, Role::Input, 10.0);
    let w = leaf(&mut g, Role::Weight, 3.0);
    let b = leaf(&mut g, Role::Bias, 7.0);
    let xw = combine(&mut g, Operand::Mul, &x, &w);
    let f = combine(&mut g, Operand::Add, &xw, &b);
    assert_eq!(37.0, val(&g, &f));
}

#[test]
fn neuron_sanity_check() {
    let mut g = Graph::new();
    let one = 1.0f64.to_bits();
    let weights = vec![one, one, one];
    let biases = vec![one, one, one];
    let neuron = Neuron::new(&mut g, &weights, &biases).unwrap();
    let node_i = leaf(&mut g, Role::Input, 10.0);
    let node_j = leaf(&mut g, Role::Input, 20.0);
    let node_k = leaf(&mut g, Role::Input, 30.0);
    let input = vec![node_i, node_j, node_k];
    let forward_node = neuron_forward(&mut g, &neuron, &input);
    assert_eq!(val(&g, &forward_node), 63.0);
    let t = run_backward(&g, &forward_node);
    let gradient_at_node_i = gradient(&t, &input[0]);
    let gradient_at_node_j = gradient(&t, &input[1]);
    let gradient_at_node_k = gradient(&t, &input[2]);
    assert_ne!(gradient_at_node_i, 0.0);
    println!("Grading at node i: {}", gradient_at_node_i);
    println!("Grading at node j: {}", gradient_at_node_j);
    println!("Grading at node k: {}", gradient_at_node_k);
}

#[test]
fn forward_values_of_each_operation() {
    let mut g = Graph::new();
    let a = leaf(&mut g, Role::Input, 6.5);
    let b = leaf(&mut g, Role::Input, 2.0);
    let sum = combine(&mut g, Operand::Add, &a, &b);
    let diff = combine(&mut g, Operand::Sub, &a, &b);
    let prod = combine(&mut g, Operand::Mul, &a, &b);
    let quot = combine(&mut g, Operand::Div, &a, &b);
    assert_eq!(val(&g, &sum), 8.5);
    assert_eq!(val(&g, &diff), 4.5);
    assert_eq!(val(&g, &prod), 13.0);
    assert_eq!(val(&g, &quot), 3.25);
}

#[test]
fn division_by_zero_propagates_ieee_results() {
    let mut g = Graph::new();
    let a = leaf(&mut g, Role::Input, 1.0);
    let z = leaf(&mut g, Role::Input, 0.0);
    let q = combine(&mut g, Operand::Div, &a, &z);
    assert!(val(&g, &q).is_infinite());
    let zz = combine(&mut g, Operand::Div, &z, &z);
    assert!(val(&g, &zz).is_nan());
    // The bad value propagates numerically instead of failing.
    let sum = combine(&mut g, Operand::Add, &q, &a);
    assert!(val(&g, &sum).is_infinite());
}

#[test]
fn sum_of_three_leaves_has_unit_gradients() {
    let mut g = Graph::new();
    let x = leaf(&mut g, Role::Input, 4.0);
    let y = leaf(&mut g, Role::Input, -2.5);
    let z = leaf(&mut g, Role::Input, 11.0);
    let xy = combine(&mut g, Operand::Add, &x, &y);
    let f = combine(&mut g, Operand::Add, &xy, &z);
    assert_eq!(val(&g, &f), 12.5);
    let t = run_backward(&g, &f);
    assert_eq!(gradient(&t, &x), 1.0);
    assert_eq!(gradient(&t, &y), 1.0);
    assert_eq!(gradient(&t, &z), 1.0);
}

#[test]
fn product_and_bias_gradients() {
    let mut g = Graph::new();
    let x = leaf(&mut g, Role::Input, 10.0);
    let w = leaf(&mut g, Role::Weight, 3.0);
    let b = leaf(&mut g, Role::Bias, 7.0);
    let xw = combine(&mut g, Operand::Mul, &x, &w);
    let f = combine(&mut g, Operand::Add, &xw, &b);
    assert_eq!(val(&g, &f), 37.0);
    let t = run_backward(&g, &f);
    assert_eq!(gradient(&t, &x), 3.0);
    assert_eq!(gradient(&t, &w), 10.0);
    assert_eq!(gradient(&t, &b), 1.0);
}

#[test]
fn shared_leaf_accumulates_both_edges() {
    let mut g = Graph::new();
    let x = leaf(&mut g, Role::Input, 3.0);
    let y = combine(&mut g, Operand::Mul, &x, &x);
    assert_eq!(val(&g, &y), 9.0);
    let t = run_backward(&g, &y);
    assert_eq!(gradient(&t, &x), 2.0 * val(&g, &x));
}

#[test]
fn subtraction_gradient_signs() {
    let mut g = Graph::new();
    let x = leaf(&mut g, Role::Input, 5.0);
    let y = leaf(&mut g, Role::Input, 2.0);
    let f = combine(&mut g, Operand::Sub, &x, &y);
    assert_eq!(val(&g, &f), 3.0);
    let t = run_backward(&g, &f);
    assert_eq!(gradient(&t, &x), 1.0);
    assert_eq!(gradient(&t, &y), -1.0);
}

#[test]
fn division_gradients() {
    let mut g = Graph::new();
    let x = leaf(&mut g, Role::Input, 1.0);
    let y = leaf(&mut g, Role::Input, 2.0);
    let f = combine(&mut g, Operand::Div, &x, &y);
    assert_eq!(val(&g, &f), 0.5);
    let t = run_backward(&g, &f);
    assert_eq!(gradient(&t, &x), 0.5);
    assert_eq!(gradient(&t, &y), -0.25);
}

#[test]
fn diamond_shared_subgraph_gradients() {
    // f = (x + y) * (x - y); df/dx = 2x, df/dy = -2y.
    let mut g = Graph::new();
    let x = leaf(&mut g, Role::Input, 3.0);
    let y = leaf(&mut g, Role::Input, 2.0);
    let s = combine(&mut g, Operand::Add, &x, &y);
    let d = combine(&mut g, Operand::Sub, &x, &y);
    let f = combine(&mut g, Operand::Mul, &s, &d);
    assert_eq!(val(&g, &f), 5.0);
    let t = run_backward(&g, &f);
    assert_eq!(gradient(&t, &x), 6.0);
    assert_eq!(gradient(&t, &y), -4.0);
}

#[test]
fn fresh_gradients_read_zero() {
    let mut g = Graph::new();
    let x = leaf(&mut g, Role::Input, 4.0);
    let y = leaf(&mut g, Role::Weight, 5.0);
    let p = combine(&mut g, Operand::Mul, &x, &y);
    let t = GradientTable::new(g.len());
    assert_eq!(gradient(&t, &x), 0.0);
    assert_eq!(gradient(&t, &y), 0.0);
    assert_eq!(gradient(&t, &p), 0.0);
}

#[test]
fn reset_empties_every_accumulator() {
    let mut g = Graph::new();
    let x = leaf(&mut g, Role::Input, 4.0);
    let y = combine(&mut g, Operand::Mul, &x, &x);
    let mut t = run_backward(&g, &y);
    assert_ne!(gradient(&t, &x), 0.0);
    t.reset();
    assert_eq!(gradient(&t, &x), 0.0);
    assert_eq!(gradient(&t, &y), 0.0);
}

#[test]
fn roles_are_kept_on_leaves_and_results_are_intermediate() {
    let mut g = Graph::new();
    let x = leaf(&mut g, Role::Input, 1.0);
    let w = leaf(&mut g, Role::Weight, 2.0);
    let b = leaf(&mut g, Role::Bias, 3.0);
    assert_eq!(x.role(), Role::Input);
    assert_eq!(w.role(), Role::Weight);
    assert_eq!(b.role(), Role::Bias);
    let p = combine(&mut g, Operand::Mul, &x, &w);
    assert_eq!(p.role(), Role::Intermediate);
}

#[test]
fn neuron_gradients_match_the_other_factor() {
    let mut g = Graph::new();
    let weights = vec![2.0f64.to_bits(), 3.0f64.to_bits()];
    let biases = vec![0.5f64.to_bits(), 0.25f64.to_bits()];
    let neuron = Neuron::new(&mut g, &weights, &biases).unwrap();
    let a = leaf(&mut g, Role::Input, 10.0);
    let b = leaf(&mut g, Role::Input, 20.0);
    let input = vec![a, b];
    let out = neuron_forward(&mut g, &neuron, &input);
    // 10 * 2 + 0.5 + 20 * 3 + 0.25
    assert_eq!(val(&g, &out), 80.75);
    let t = run_backward(&g, &out);
    assert_eq!(gradient(&t, &input[0]), 2.0);
    assert_eq!(gradient(&t, &input[1]), 3.0);
    assert_eq!(gradient(&t, &neuron.weight(0)), 10.0);
    assert_eq!(gradient(&t, &neuron.weight(1)), 20.0);
    assert_eq!(gradient(&t, &neuron.bias(0)), 1.0);
    assert_eq!(gradient(&t, &neuron.bias(1)), 1.0);
}

#[test]
fn neuron_construction_rejects_mismatched_sizes() {
    let mut g = Graph::new();
    let one = 1.0f64.to_bits();
    let r = Neuron::new(&mut g, &vec![one, one], &vec![one]);
    assert!(matches!(r, Err(NeuronError::DimensionMismatch)));
    let r2 = Neuron::new(&mut g, &Vec::new(), &Vec::new());
    assert!(matches!(r2, Err(NeuronError::DimensionMismatch)));
    assert_eq!(g.len(), 0);
}

#[test]
fn neuron_forward_rejects_wrong_input_count() {
    let mut g = Graph::new();
    let one = 1.0f64.to_bits();
    let neuron = Neuron::new(&mut g, &vec![one, one], &vec![one, one]).unwrap();
    let a = leaf(&mut g, Role::Input, 1.0);
    let inputs = vec![a];
    let before = g.len();
    let r = neuron.forward_step(&mut g, &inputs, &vec![one], &vec![one], &Vec::new());
    assert!(matches!(r, Err(NeuronError::DimensionMismatch)));
    assert_eq!(g.len(), before);
}

#[test]
fn backward_visits_only_reachable_nodes() {
    let mut g = Graph::new();
    let x = leaf(&mut g, Role::Input, 2.0);
    let y = leaf(&mut g, Role::Input, 3.0);
    let f = combine(&mut g, Operand::Mul, &x, &x);
    // `y` and this sum hang off to the side and are not reachable from `f`.
    let aside = combine(&mut g, Operand::Add, &x, &y);
    let plan = g.backward(&f);
    assert_eq!(plan.order, vec![f.inner(), x.inner()]);
    assert_eq!(plan.steps.len(), 2);
    let t = run_backward(&g, &f);
    assert_eq!(gradient(&t, &x), 4.0);
    assert_eq!(gradient(&t, &y), 0.0);
    assert_eq!(gradient(&t, &aside), 0.0);
}

#[test]
fn visit_order_is_reverse_topological() {
    let mut g = Graph::new();
    let x = leaf(&mut g, Role::Input, 3.0);
    let y = leaf(&mut g, Role::Input, 2.0);
    let s = combine(&mut g, Operand::Add, &x, &y);
    let d = combine(&mut g, Operand::Sub, &x, &y);
    let f = combine(&mut g, Operand::Mul, &s, &d);
    let plan = g.backward(&f);
    // Every node, exactly once, by strictly decreasing index: each parent
    // is visited before either of its children.
    assert_eq!(plan.order, vec![4, 3, 2, 1, 0]);
    // Two instructions per visited operation node, none for the leaves.
    assert_eq!(plan.steps.len(), 6);
}

#[test]
fn root_gradient_is_seeded_to_one() {
    let mut g = Graph::new();
    let x = leaf(&mut g, Role::Input, 8.0);
    let y = leaf(&mut g, Role::Input, 9.0);
    let f = combine(&mut g, Operand::Mul, &x, &y);
    let t = run_backward(&g, &f);
    assert_eq!(gradient(&t, &f), 1.0);
}
