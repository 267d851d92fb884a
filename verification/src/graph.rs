//! The computation DAG: an arena of immutable node records.
//!
//! Nodes live in a [`Graph`] arena and are referred to by index. A node is
//! either a leaf (a raw scalar) or the result of applying one of the four
//! binary operations to two nodes that were built earlier, so every child
//! index is strictly smaller than its parent's index and the arena order is
//! already a topological order of the DAG.
//!
//! A node's scalar value is an opaque 64-bit payload (the bit pattern of an
//! IEEE-754 double), fixed at construction. The engine never computes with
//! it; for an operation node the caller supplies the payload it obtained by
//! applying the operation to the children's values.

use vstd::prelude::*;

verus! {

/// The operation that produced a node of the computation graph.
/// `Leaf` nodes hold a raw scalar and have no children; the four arithmetic
/// operations are strictly binary.
#[derive(Clone, Copy, Debug, PartialEq, Eq, Structural)]
pub enum Operand {
    Add,
    Sub,
    Mul,
    Div,
    Leaf,
}

/// The role a node plays for downstream consumers (say, an optimizer that
/// only updates weights and biases). A role carries no computational
/// behavior: leaves are tagged `Input`, `Weight` or `Bias`, and every result
/// of an operation is `Intermediate`.
#[derive(Clone, Copy, Debug, PartialEq, Eq, Structural)]
pub enum Role {
    Input,
    Weight,
    Bias,
    Intermediate,
}

/// One record of the computation DAG.
///
/// `value` is the node's scalar as an opaque 64-bit payload, set once at
/// construction and immutable thereafter. `left` and `right` are the arena
/// indices of the operand nodes: both `None` for a leaf, both present for
/// every operation node.
#[derive(Clone, Copy, Debug)]
pub struct GraphNode {
    pub value: u64,
    pub operand: Operand,
    pub left: Option<usize>,
    pub right: Option<usize>,
}

impl GraphNode {
    /// Builds a record from its parts, exactly as given.
    pub fn new(value: u64, operand: Operand, left: Option<usize>, right: Option<usize>) -> (n:
        GraphNode)
        ensures
            n.value == value,
            n.operand == operand,
            n.left == left,
            n.right == right,
    {
        GraphNode { value, operand, left, right }
    }
}

/// The record a fresh leaf gets: no children, the raw scalar as given.
pub open spec fn leaf_record(value: u64) -> GraphNode {
    GraphNode { value, operand: Operand::Leaf, left: None, right: None }
}

/// The record an operation node gets: both children present, the payload
/// the caller computed for the operation's result.
pub open spec fn op_record(operand: Operand, left_id: int, right_id: int, value: u64) -> GraphNode {
    GraphNode { value, operand, left: Some(left_id as usize), right: Some(right_id as usize) }
}

/// The left child's index, or -1 for a record without one.
pub open spec fn left_child(n: GraphNode) -> int {
    match n.left {
        Option::Some(l) => l as int,
        Option::None => -1,
    }
}

/// The right child's index, or -1 for a record without one.
pub open spec fn right_child(n: GraphNode) -> int {
    match n.right {
        Option::Some(r) => r as int,
        Option::None => -1,
    }
}

/// Whether a record is a leaf: it holds a raw scalar and has no children.
pub open spec fn is_leaf(n: GraphNode) -> bool {
    n.operand is Leaf
}

/// Well-formedness of the record at index `i` of an arena: a leaf has no
/// children, and an operation node has exactly two, both built earlier
/// (strictly smaller index). This is what makes the arena a DAG and its
/// index order a topological order.
pub open spec fn node_wf(nodes: Seq<GraphNode>, i: int) -> bool {
    &&& 0 <= i < nodes.len()
    &&& if is_leaf(nodes[i]) {
        nodes[i].left is None && nodes[i].right is None
    } else {
        &&& nodes[i].left is Some
        &&& nodes[i].right is Some
        &&& 0 <= left_child(nodes[i]) < i
        &&& 0 <= right_child(nodes[i]) < i
    }
}

/// Well-formedness of a whole arena.
pub open spec fn graph_wf(nodes: Seq<GraphNode>) -> bool {
    forall|i: int| 0 <= i < nodes.len() ==> #[trigger] node_wf(nodes, i)
}

/// A handle to one graph node, tagged with the node's role.
///
/// Handles are cheap copies of an arena index; the graph itself owns the
/// records. Leaves keep the role they were created with; the result of an
/// operation is always `Intermediate`.
#[derive(Clone, Copy, Debug)]
pub enum Node {
    Intermediate(usize),
    Input(usize),
    Weight(usize),
    Bias(usize),
}

impl Node {
    /// The arena index this handle refers to.
    pub open spec fn spec_id(self) -> int {
        match self {
            Node::Intermediate(i) => i as int,
            Node::Input(i) => i as int,
            Node::Weight(i) => i as int,
            Node::Bias(i) => i as int,
        }
    }

    /// The role this handle carries.
    pub open spec fn spec_role(self) -> Role {
        match self {
            Node::Intermediate(_) => Role::Intermediate,
            Node::Input(_) => Role::Input,
            Node::Weight(_) => Role::Weight,
            Node::Bias(_) => Role::Bias,
        }
    }

    /// The arena index of the underlying graph node.
    pub fn inner(&self) -> (i: usize)
        ensures
            i as int == self.spec_id(),
    {
        match self {
            Node::Intermediate(i) => *i,
            Node::Input(i) => *i,
            Node::Weight(i) => *i,
            Node::Bias(i) => *i,
        }
    }

    /// The role this handle carries.
    pub fn role(&self) -> (r: Role)
        ensures
            r == self.spec_role(),
    {
        match self {
            Node::Intermediate(_) => Role::Intermediate,
            Node::Input(_) => Role::Input,
            Node::Weight(_) => Role::Weight,
            Node::Bias(_) => Role::Bias,
        }
    }

    /// Wraps an arena index in the variant matching `role`.
    pub fn from_parts(role: Role, id: usize) -> (n: Node)
        ensures
            n.spec_id() == id as int,
            n.spec_role() == role,
    {
        match role {
            Role::Input => Node::Input(id),
            Role::Weight => Node::Weight(id),
            Role::Bias => Node::Bias(id),
            Role::Intermediate => Node::Intermediate(id),
        }
    }
}

/// Reads a scalar value out of a graph. The one implementor is [`Node`];
/// the trait mirrors how consumers only ever see values through handles.
pub trait Value {
    /// The arena index the implementor stands for.
    spec fn val_id(&self) -> int;

    /// The node's scalar payload, as recorded at construction.
    fn value(&self, graph: &Graph) -> (v: u64)
        requires
            0 <= self.val_id() < graph@.len(),
        ensures
            v == graph@[self.val_id()].value,
    ;
}

impl Value for Node {
    open spec fn val_id(&self) -> int {
        self.spec_id()
    }

    fn value(&self, graph: &Graph) -> (v: u64) {
        graph.node_value(self.inner())
    }
}

/// The computation DAG: an append-only arena of [`GraphNode`] records.
pub struct Graph {
    nodes: Vec<GraphNode>,
}

impl View for Graph {
    type V = Seq<GraphNode>;

    closed spec fn view(&self) -> Seq<GraphNode> {
        self.nodes@
    }
}

impl Graph {
    /// The arena is well formed: see [`graph_wf`]. Every method keeps this.
    pub open spec fn wf(self) -> bool {
        graph_wf(self@)
    }

    /// An empty graph.
    pub fn new() -> (g: Graph)
        ensures
            g@ == Seq::<GraphNode>::empty(),
            g.wf(),
    {
        Graph { nodes: Vec::new() }
    }

    /// How many nodes the arena holds.
    pub fn len(&self) -> (n: usize)
        ensures
            n == self@.len(),
    {
        self.nodes.len()
    }

    /// The scalar payload of the node at index `i`.
    pub fn node_value(&self, i: usize) -> (v: u64)
        requires
            i < self@.len(),
        ensures
            v == self@[i as int].value,
    {
        self.nodes[i].value
    }

    /// The record at index `i`, by copy.
    pub fn node_at(&self, i: usize) -> (n: GraphNode)
        requires
            i < self@.len(),
        ensures
            n == self@[i as int],
    {
        self.nodes[i]
    }

    /// Appends a leaf holding the raw scalar `value` and returns a handle
    /// tagged with `role`. Fresh leaves have no children. Never fails.
    pub fn leaf(&mut self, role: Role, value: u64) -> (node: Node)
        requires
            old(self).wf(),
        ensures
            final(self)@ == old(self)@.push(leaf_record(value)),
            final(self).wf(),
            node.spec_id() == old(self)@.len(),
            node.spec_role() == role,
    {
        let id = self.nodes.len();
        self.nodes.push(GraphNode::new(value, Operand::Leaf, None, None));
        proof {
            assert forall|i: int| 0 <= i < self@.len() implies #[trigger] node_wf(self@, i) by {
                if i < old(self)@.len() {
                    assert(node_wf(old(self)@, i));
                }
            }
        }
        Node::from_parts(role, id)
    }

    /// Appends the node `operand(left, right)` and returns its handle, which
    /// is always `Intermediate`. The children must already be in the arena;
    /// `value` is the scalar the caller obtained by applying `operand` to
    /// the children's values (the engine records it, it does not compute).
    /// Never fails for any operand: a division whose right operand is zero
    /// is not a construction error, its IEEE-754 result is recorded and
    /// propagates like any other payload.
    pub fn combine(&mut self, operand: Operand, left: &Node, right: &Node, value: u64) -> (node:
        Node)
        requires
            old(self).wf(),
            !(operand is Leaf),
            0 <= left.spec_id() < old(self)@.len(),
            0 <= right.spec_id() < old(self)@.len(),
        ensures
            final(self)@ == old(self)@.push(op_record(operand, left.spec_id(), right.spec_id(), value)),
            final(self).wf(),
            node.spec_id() == old(self)@.len(),
            node.spec_role() == Role::Intermediate,
    {
        let id = self.nodes.len();
        let l = left.inner();
        let r = right.inner();
        self.nodes.push(GraphNode::new(value, operand, Some(l), Some(r)));
        proof {
            assert forall|i: int| 0 <= i < self@.len() implies #[trigger] node_wf(self@, i) by {
                if i < old(self)@.len() {
                    assert(node_wf(old(self)@, i));
                }
            }
        }
        Node::Intermediate(id)
    }

    /// `left + right` as a new graph node; `value` is the sum's payload.
    pub fn add(&mut self, left: &Node, right: &Node, value: u64) -> (node: Node)
        requires
            old(self).wf(),
            0 <= left.spec_id() < old(self)@.len(),
            0 <= right.spec_id() < old(self)@.len(),
        ensures
            final(self)@ == old(self)@.push(op_record(Operand::Add, left.spec_id(), right.spec_id(), value)),
            final(self).wf(),
            node.spec_id() == old(self)@.len(),
            node.spec_role() == Role::Intermediate,
    {
        self.combine(Operand::Add, left, right, value)
    }

    /// `left - right` as a new graph node; `value` is the difference's payload.
    pub fn sub(&mut self, left: &Node, right: &Node, value: u64) -> (node: Node)
        requires
            old(self).wf(),
            0 <= left.spec_id() < old(self)@.len(),
            0 <= right.spec_id() < old(self)@.len(),
        ensures
            final(self)@ == old(self)@.push(op_record(Operand::Sub, left.spec_id(), right.spec_id(), value)),
            final(self).wf(),
            node.spec_id() == old(self)@.len(),
            node.spec_role() == Role::Intermediate,
    {
        self.combine(Operand::Sub, left, right, value)
    }

    /// `left * right` as a new graph node; `value` is the product's payload.
    pub fn mul(&mut self, left: &Node, right: &Node, value: u64) -> (node: Node)
        requires
            old(self).wf(),
            0 <= left.spec_id() < old(self)@.len(),
            0 <= right.spec_id() < old(self)@.len(),
        ensures
            final(self)@ == old(self)@.push(op_record(Operand::Mul, left.spec_id(), right.spec_id(), value)),
            final(self).wf(),
            node.spec_id() == old(self)@.len(),
            node.spec_role() == Role::Intermediate,
    {
        self.combine(Operand::Mul, left, right, value)
    }

    /// `left / right` as a new graph node; `value` is the quotient's payload.
    pub fn div(&mut self, left: &Node, right: &Node, value: u64) -> (node: Node)
        requires
            old(self).wf(),
            0 <= left.spec_id() < old(self)@.len(),
            0 <= right.spec_id() < old(self)@.len(),
        ensures
            final(self)@ == old(self)@.push(op_record(Operand::Div, left.spec_id(), right.spec_id(), value)),
            final(self).wf(),
            node.spec_id() == old(self)@.len(),
            node.spec_role() == Role::Intermediate,
    {
        self.combine(Operand::Div, left, right, value)
    }
}

} // verus!
