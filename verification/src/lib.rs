//! Reverse-mode automatic differentiation over a scalar expression graph.
//!
//! An expression is built node by node inside a [`Graph`]: leaves are lifted
//! from raw values, inner nodes are produced by operators applied to nodes
//! that already exist. A node is named by its position in the graph, so one
//! node can be the operand of any number of later nodes. A single call of
//! [`backward`] then adds, to every node's gradient, the derivative of the
//! chosen root with respect to that node.

pub mod engine;
pub mod graph;
pub mod scalar;
pub mod topology;

pub use engine::backward;
pub use graph::{Differentiable, GradFn, Graph, NodeView};
pub use scalar::Scalar;
pub use topology::topology_sort;
