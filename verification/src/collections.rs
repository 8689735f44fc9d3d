//! Observable collections whose edits are recorded as changes for their readers.

pub mod slots;
pub mod sorting;
pub mod vec;
pub mod slab_map;
