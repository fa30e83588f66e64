//! A sparse interval index: variable-length, non-overlapping entries placed at
//! arbitrary offsets within a fixed-size linear address space.
//!
//! An entry occupies one or more consecutive offsets. The index can be asked
//! for the entry that covers any offset, not only the one it starts at, and can
//! walk a window of the address space, reporting undefined offsets as
//! single-slot placeholders on request.

pub mod entry;
pub mod laws;
pub mod range;
pub mod vector;

pub use entry::BumpyEntry;
pub use vector::BumpyVector;
