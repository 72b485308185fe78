//! A value-interning registry with typed handles, and the quantity types
//! built beside it.
//!
//! The registry assigns stable, compact, opaque identifiers (atoms) to
//! domain values such as item and machine names, so the rest of a program
//! can carry cheap copyable handles and still recover the original value on
//! demand.  The quantity model is a non-negative amount with
//! invariant-preserving arithmetic, and the reduced quantity set is a
//! mapping from item handle to quantity that never stores a zero entry.
pub mod atom;
pub mod items;
