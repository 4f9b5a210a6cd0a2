use vstd::prelude::*;
use vstd::std_specs::cmp::PartialEqSpecImpl;

verus! {

/// Index of a node in the fixed layout shared by every genome of one
/// `(INPUT_SZ, OUTPUT_SZ)` family: index `0` is the constant bias node, the
/// next `INPUT_SZ` indices are the inputs, the next `OUTPUT_SZ` the outputs,
/// and every index above those is a hidden node.
#[derive(Clone, Copy, Debug, Eq, Hash)]
pub struct Node<const INPUT_SZ: usize, const OUTPUT_SZ: usize>(pub usize);

impl<const INPUT_SZ: usize, const OUTPUT_SZ: usize> PartialEq for Node<INPUT_SZ, OUTPUT_SZ> {
    fn eq(&self, other: &Self) -> (r: bool) {
        self.0 == other.0
    }
}

impl<const INPUT_SZ: usize, const OUTPUT_SZ: usize> PartialEqSpecImpl for Node<INPUT_SZ, OUTPUT_SZ> {
    open spec fn obeys_eq_spec() -> bool {
        true
    }

    open spec fn eq_spec(&self, other: &Self) -> bool {
        self.0 == other.0
    }
}

/// Index of the first output node of an `(inputs, _)` family.
pub open spec fn first_output(inputs: usize) -> int {
    1 + inputs
}

/// Index of the first hidden node of an `(inputs, outputs)` family.
pub open spec fn first_hidden(inputs: usize, outputs: usize) -> int {
    1 + inputs + outputs
}

impl<const INPUT_SZ: usize, const OUTPUT_SZ: usize> Node<INPUT_SZ, OUTPUT_SZ> {
    /// Whether this is the bias node, index 0.
    pub open spec fn spec_is_bias(&self) -> bool {
        self.0 == 0
    }

    /// Whether the index is one of the `INPUT_SZ` after the bias node.
    pub open spec fn spec_is_input(&self) -> bool {
        1 <= self.0 < first_output(INPUT_SZ)
    }

    /// Whether the index is one of the `OUTPUT_SZ` after the input nodes.
    pub open spec fn spec_is_output(&self) -> bool {
        first_output(INPUT_SZ) <= self.0 < first_hidden(INPUT_SZ, OUTPUT_SZ)
    }

    /// Whether the index lies above those of the output nodes.
    pub open spec fn spec_is_hidden(&self) -> bool {
        self.0 >= first_hidden(INPUT_SZ, OUTPUT_SZ)
    }

    /// Whether this is the bias node.
    #[verifier::when_used_as_spec(spec_is_bias)]
    pub fn is_bias(&self) -> (r: bool)
        ensures
            r == (self.0 == 0),
    {
        self.0 == 0
    }

    /// Whether this is one of the `INPUT_SZ` input nodes.
    #[verifier::when_used_as_spec(spec_is_input)]
    pub fn is_input(&self) -> (r: bool)
        ensures
            r == (1 <= self.0 < 1 + INPUT_SZ),
    {
        self.0 >= 1 && self.0 - 1 < INPUT_SZ
    }

    /// Whether this is one of the `OUTPUT_SZ` output nodes.
    #[verifier::when_used_as_spec(spec_is_output)]
    pub fn is_output(&self) -> (r: bool)
        ensures
            r == (1 + INPUT_SZ <= self.0 < 1 + INPUT_SZ + OUTPUT_SZ),
    {
        self.0 >= 1 && self.0 - 1 >= INPUT_SZ && self.0 - 1 - INPUT_SZ < OUTPUT_SZ
    }

    /// Whether this is a hidden node.
    #[verifier::when_used_as_spec(spec_is_hidden)]
    pub fn is_hidden(&self) -> (r: bool)
        ensures
            r == (self.0 >= 1 + INPUT_SZ + OUTPUT_SZ),
    {
        self.0 >= 1 && self.0 - 1 >= INPUT_SZ && self.0 - 1 - INPUT_SZ >= OUTPUT_SZ
    }
}

/// Every node is of exactly one of the four kinds.
pub proof fn lemma_node_kinds_partition<const INPUT_SZ: usize, const OUTPUT_SZ: usize>(
    node: Node<INPUT_SZ, OUTPUT_SZ>,
)
    ensures
        node.is_bias() || node.is_input() || node.is_output() || node.is_hidden(),
        !(node.is_bias() && node.is_input()),
        !(node.is_bias() && node.is_output()),
        !(node.is_bias() && node.is_hidden()),
        !(node.is_input() && node.is_output()),
        !(node.is_input() && node.is_hidden()),
        !(node.is_output() && node.is_hidden()),
{
}

} // verus!
