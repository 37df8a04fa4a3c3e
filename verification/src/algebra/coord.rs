pub mod ori;
pub mod perm;
pub mod slice;

pub use ori::{CO, EO};
pub use perm::{CP, EP4, EP8};
pub use slice::{EOLR, LR};
