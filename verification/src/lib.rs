//! Verified building blocks of a reactive state management runtime:
//! dirty-state tracking, change feeds with independent reader cursors,
//! observable collections that record their edits, and the scheduling
//! tables that the runtime consults.

pub mod runtime;
pub mod change_feed;
pub mod collections;
pub mod reactive;
