pub mod algebra;
pub mod algo;
pub mod canonical;
pub mod cube_core;
pub mod model;
pub mod moves;
pub mod permutation;
pub mod solve;
pub mod state;
pub mod trie;
