pub mod bits;
pub mod moves;
pub mod parse;
pub mod scramble;
pub mod state;
pub mod text;
