pub use crate::cube_core::bits::{bitwise_add_mod_3, get};
