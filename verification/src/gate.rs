use vstd::prelude::*;

verus! {

/// The operation a gate applies to its two input wires.
#[derive(Clone, Copy, Debug, PartialEq, Eq, Structural)]
pub enum Operation {
    Add,
    Mul,
}

/// A fan-in-2 gate: indices of its two input wires in the layer below, and
/// the operation combining them.
#[derive(Clone, Copy, Debug, PartialEq, Eq, Structural)]
pub struct Gate {
    pub left: usize,
    pub right: usize,
    pub operation: Operation,
}

impl Gate {
    /// A gate reading wires `left` and `right` of the layer below.
    pub fn new(left: usize, right: usize, operation: Operation) -> (r: Self)
        ensures
            r == (Gate { left, right, operation }),
    {
        Gate { left, right, operation }
    }
}

} // verus!
