//! Computation graphs and how they are built.
use crate::basicblock::BasicBlockType;
use vstd::prelude::*;

pub mod attention;
pub mod blocks;
pub mod builder;
pub mod checks;
pub mod choices;
pub mod compile;
pub mod entries;
pub mod equation;
pub mod exponential;
pub mod fits;
pub mod graph;
pub mod links;
pub mod llama;
pub mod marks;
pub mod mlps;
pub mod models;
pub mod nanogpt;
pub mod norms;
pub mod oneshot;
pub mod readings;
pub mod rotary;
pub mod run;
pub mod sound;
pub mod sums;

verus! {

/// An edge of a graph, by number.
pub type EdgeId = usize;

/// A node of a graph, by number.
pub type NodeId = usize;

/// One use of an edge as an input of a node, by number.
#[derive(Clone, Copy, Debug, PartialEq, Eq, Structural)]
pub struct AliasId(pub usize);

/// An operation with the edges that it reads and those that it writes.
#[derive(Debug)]
pub struct Node {
    pub id: NodeId,
    pub kind: BasicBlockType,
    pub inputs: Vec<EdgeId>,
    pub outputs: Vec<EdgeId>,
}

/// A graph ready to be evaluated, proved and verified.
#[derive(Debug)]
pub struct Dag {
    pub nodes: Vec<Node>,
    pub num_edges: usize,
    /// The nodes in an order in which every node comes after those whose outputs it reads.
    pub topo: Vec<NodeId>,
    pub range: Vec<NodeId>,
    pub two_pow: Vec<NodeId>,
    pub zero_check: Vec<NodeId>,
    /// The nodes that read each edge, one entry for each use.
    pub consumers: Vec<Vec<NodeId>>,
    /// The node that writes each edge.
    pub producers: Vec<Option<NodeId>>,
    /// The edges on which the graph takes its inputs.
    pub input_ports: Vec<EdgeId>,
    /// The edges for which claims have to be made from outside.
    pub output_ports: Vec<EdgeId>,
    /// The uses of each edge.
    pub edge_aliases: Vec<Vec<AliasId>>,
    /// The edge of each use.
    pub alias_to_edge: Vec<EdgeId>,
    /// The node of each use.
    pub alias_to_consumer: Vec<NodeId>,
    /// The input of the node that each use is.
    pub alias_input_slot: Vec<usize>,
}

} // verus!
