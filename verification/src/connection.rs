use crate::node::Node;
use vstd::prelude::*;

verus! {

/// One gene: a directed, weighted edge between two nodes. The weight is a
/// signed fixed-point number. The innovation number names the pair
/// `(in_node, out_node)` across the whole population.
#[derive(Clone, Copy, Debug, PartialEq, Eq, Hash)]
pub struct Connection<const INPUT_SZ: usize, const OUTPUT_SZ: usize> {
    pub in_node: Node<INPUT_SZ, OUTPUT_SZ>,
    pub out_node: Node<INPUT_SZ, OUTPUT_SZ>,
    pub weight: i64,
    pub enabled: bool,
    pub innovation_number: usize,
}

impl<const INPUT_SZ: usize, const OUTPUT_SZ: usize> Connection<INPUT_SZ, OUTPUT_SZ> {
    /// The pair of node indices that the connection joins.
    pub open spec fn endpoints(&self) -> (usize, usize) {
        (self.in_node.0, self.out_node.0)
    }

    /// A connection never leaves an output node, never ends in the bias or
    /// an input node, and never joins a node to itself.
    pub open spec fn well_formed(&self) -> bool {
        &&& !self.in_node.is_output()
        &&& !self.out_node.is_bias()
        &&& !self.out_node.is_input()
        &&& self.in_node.0 != self.out_node.0
    }
}

} // verus!
