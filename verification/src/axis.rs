//! The three coordinate axes.

use vstd::prelude::*;

use crate::vec3::Vec3;

verus! {

/// One of the three coordinate axes, in the order X, Y, Z.
#[derive(Copy, Clone, Debug, PartialEq, Eq, Structural)]
pub enum Axis {
    X,
    Y,
    Z,
}

impl Axis {
    /// The position of the axis in the order X, Y, Z.
    pub open spec fn rank(self) -> int {
        match self {
            Axis::X => 0,
            Axis::Y => 1,
            Axis::Z => 2,
        }
    }

    /// The position of the axis, as a number from 0 to 2.
    pub fn number(self) -> (n: usize)
        ensures
            n == self.rank(),
    {
        match self {
            Axis::X => 0,
            Axis::Y => 1,
            Axis::Z => 2,
        }
    }
}

impl Vec3 {
    /// The component of the vector along `axis`.
    pub open spec fn along(self, axis: Axis) -> i32 {
        match axis {
            Axis::X => self.x,
            Axis::Y => self.y,
            Axis::Z => self.z,
        }
    }

    /// Reads the component of the vector along `axis`.
    pub fn index(&self, axis: Axis) -> (c: i32)
        ensures
            c == self.along(axis),
    {
        match axis {
            Axis::X => self.x,
            Axis::Y => self.y,
            Axis::Z => self.z,
        }
    }
}

} // verus!
