//! Edges of the render graph.
use vstd::prelude::*;

verus! {

/// Identifies a node of the render graph.
#[derive(Copy, Clone, Debug, PartialEq, Eq, Hash, Structural)]
pub struct NodeId(pub u64);

/// An edge of the render graph: the output node runs before the input node.
#[derive(Copy, Clone, Debug, PartialEq, Eq, Structural)]
pub enum Edge {
    /// Orders the two nodes, and connects the output slot at `output_index` of the output
    /// node to the input slot at `input_index` of the input node.
    SlotEdge { input_node: NodeId, input_index: usize, output_node: NodeId, output_index: usize },
    /// Orders the two nodes.
    NodeEdge { input_node: NodeId, output_node: NodeId },
}

impl Edge {
    /// The node that runs second.
    pub fn get_input_node(&self) -> (r: NodeId)
        ensures
            r == match *self {
                Edge::SlotEdge { input_node, .. } => input_node,
                Edge::NodeEdge { input_node, .. } => input_node,
            },
    {
        match self {
            Edge::SlotEdge { input_node, .. } => *input_node,
            Edge::NodeEdge { input_node, .. } => *input_node,
        }
    }

    /// The node that runs first.
    pub fn get_output_node(&self) -> (r: NodeId)
        ensures
            r == match *self {
                Edge::SlotEdge { output_node, .. } => output_node,
                Edge::NodeEdge { output_node, .. } => output_node,
            },
    {
        match self {
            Edge::SlotEdge { output_node, .. } => *output_node,
            Edge::NodeEdge { output_node, .. } => *output_node,
        }
    }
}

} // verus!
