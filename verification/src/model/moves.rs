use vstd::prelude::*;
pub use crate::cube_core::moves::{Axis, Direction, Face, Move};

verus! {

impl Face {
    /// Returns the axis, and whether the face is positively oriented along
    /// that axis.
    pub fn axis_and_sign(&self) -> (r: (Axis, bool))
        ensures
            r.0 == self.spec_axis(),
            r.1 == (self.spec_index() % 2 == 1),
    {
        match self {
            Face::Left => (Axis::X, false),
            Face::Right => (Axis::X, true),
            Face::Down => (Axis::Y, false),
            Face::Up => (Axis::Y, true),
            Face::Back => (Axis::Z, false),
            Face::Front => (Axis::Z, true),
        }
    }
}

impl Direction {
    /// The direction that undoes this one.
    pub fn inverse(&self) -> (r: Self)
        ensures
            r == self.spec_inv(),
    {
        match self {
            Direction::Clockwise => Direction::CounterClockwise,
            Direction::CounterClockwise => Direction::Clockwise,
            Direction::HalfTurn => Direction::HalfTurn,
        }
    }
}

impl Move {
    /// The move that undoes this one: the same face, turned the other way.
    pub fn inverse(&self) -> (r: Self)
        ensures
            r.face == self.face,
            r.dir == self.dir.spec_inv(),
    {
        Self { face: self.face, dir: self.dir.inverse() }
    }
}

} // verus!
