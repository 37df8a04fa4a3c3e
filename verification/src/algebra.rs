pub mod coord;
pub mod move_table;
