//! A permission-tracked ownership model for named storage locations.
//!
//! Each tracked location carries a set of access rights (read, write, own)
//! that are transferred by moves, lent out by borrows, and restored when
//! borrows end.  A `Store` holds the authoritative permission state, and
//! `replay` drives a whole script of operations against a fresh store,
//! reporting for every operation whether it is legal and, if not, which
//! rule it violates.

pub mod case_study;
pub mod document;
pub mod interp;
pub mod inv;
pub mod laws;
pub mod model;
pub mod ops;
pub mod slices;
pub mod store;

pub use interp::{recap, replay};
pub use ops::{BorrowEntry, BorrowKind, ErrKind, LocEntry, LocKind, Op, Outcome, PermSet};
pub use store::Store;
