//! Hazard pointers: safe memory reclamation for lock-free data structures.
//!
//! A registry keeps, for each participating thread, a row of hazard slots
//! (the pointers that thread is about to dereference) and a list of retired
//! pointers (unlinked from the shared structure but not yet freed). A retired
//! pointer is handed back to the memory backend only once no slot holds it.
//!
//! Pointers are opaque handles: nonzero `usize` values issued by a
//! [`Memory`] backend, with `0` standing for null.

mod align_vec;
mod memory;
mod pointers;

pub use align_vec::AlignVec;
pub use memory::{BoxMemory, Memory, VecMemory};
pub use pointers::Pointers;

