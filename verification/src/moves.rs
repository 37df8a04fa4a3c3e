pub use crate::cube_core::moves::{Direction, Face, Move};
