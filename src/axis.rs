use vstd::prelude::*;

verus! {

/// One of the three coordinate axes of model space.
#[derive(Clone, Copy, Debug, PartialEq, Eq, Structural)]
pub enum Axis {
    X,
    Y,
    Z,
}

impl Axis {
    /// Position of the coordinate that this axis selects in an `(x, y, z)` triple.
    pub open spec fn spec_index(self) -> nat {
        match self {
            Axis::X => 0,
            Axis::Y => 1,
            Axis::Z => 2,
        }
    }

    /// The position (0, 1 or 2) of this axis's coordinate in an `(x, y, z)` triple.
    pub fn index(&self) -> (r: usize)
        ensures
            r as nat == self.spec_index(),
            r < 3,
    {
        match self {
            Axis::X => 0,
            Axis::Y => 1,
            Axis::Z => 2,
        }
    }
}

} // verus!
