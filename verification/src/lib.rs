//! A scalar reverse-mode automatic-differentiation engine.
//!
//! The engine builds a directed acyclic computation graph from the four
//! elementary binary operations on scalars, and computes, for an output node,
//! the exact backward (chain-rule) schedule that accumulates the partial
//! derivative of the output with respect to every node reachable from it.
//!
//! Scalars are carried as opaque 64-bit payloads (the bit pattern of an
//! IEEE-754 double). The engine itself never performs numeric arithmetic:
//! node values are supplied by the caller when a node is built, and the
//! backward pass is emitted as a list of exact chain-rule instructions
//! for the caller's arithmetic kernel to execute. Everything that makes
//! reverse-mode differentiation correct — the DAG invariant, which nodes are
//! reachable, the reverse-topological visit order, which operand scales which
//! contribution, and how contributions accumulate — is decided and verified
//! here.

pub mod gradients;
pub mod graph;
pub mod laws;
pub mod neuron;
pub mod plan;
