pub mod moves;
