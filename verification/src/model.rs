pub mod bits;
pub mod coord;
pub mod moves;
pub mod sym;
