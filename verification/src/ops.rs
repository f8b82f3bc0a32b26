//! The vocabulary of the permission model: permission sets, location and
//! borrow records, the operations a script may contain, and the outcome
//! reported for each operation.

use vstd::prelude::*;

verus! {

/// The access rights a location currently holds.
#[derive(Clone, Copy, Debug, PartialEq, Eq, Structural)]
pub struct PermSet {
    pub read: bool,
    pub write: bool,
    pub own: bool,
}

impl PermSet {
    /// The rights a freshly declared location holds.
    pub open spec fn full() -> PermSet {
        PermSet { read: true, write: true, own: true }
    }

    /// No rights at all: the state of a moved-from or uniquely borrowed location.
    pub open spec fn empty() -> PermSet {
        PermSet { read: false, write: false, own: false }
    }

    /// Read access only: the state of a location while shared borrows are alive.
    pub open spec fn read_only() -> PermSet {
        PermSet { read: true, write: false, own: false }
    }
}

/// Whether a location owns its data directly or points at another location.
#[derive(Clone, Copy, Debug, PartialEq, Eq, Structural)]
pub enum LocKind {
    Owning,
    Reference,
}

/// Whether a borrow grants shared (read) or unique (read and write) access.
#[derive(Clone, Copy, Debug, PartialEq, Eq, Structural)]
pub enum BorrowKind {
    Shared,
    Unique,
}

/// One tracked storage location.
///
/// `perms` is the current permission set; `prior` remembers the set held
/// immediately before the oldest live borrow, so it can be restored when
/// the last borrow ends.  `moved` marks a location whose ownership has
/// been consumed: such a location is permanently dead.
#[derive(Clone, Copy, Debug, PartialEq, Eq, Structural)]
pub struct LocEntry {
    pub id: u64,
    pub kind: LocKind,
    pub perms: PermSet,
    pub prior: PermSet,
    pub moved: bool,
}

/// One live borrow: a lifetime-scoped loan of access to `source`.
#[derive(Clone, Copy, Debug, PartialEq, Eq, Structural)]
pub struct BorrowEntry {
    pub id: u64,
    pub source: u64,
    pub kind: BorrowKind,
}

/// The operations a script may perform, each naming the identities it touches.
///
/// `Split` models the escape hatch for path-insensitive collection tracking:
/// it consumes `source` and produces two independently tracked locations
/// named `first` and `rest`.
#[derive(Clone, Copy, Debug, PartialEq, Eq)]
pub enum Op {
    Declare { loc: u64, kind: LocKind },
    Move { from: u64, to: u64 },
    BorrowShared { source: u64 },
    BorrowUnique { source: u64 },
    EndBorrow { borrow: u64 },
    Read { loc: u64 },
    Write { loc: u64 },
    DropLoc { loc: u64 },
    Split { source: u64, first: u64, rest: u64 },
}

/// The rule an illegal operation violates.
#[derive(Clone, Copy, Debug, PartialEq, Eq, Structural)]
pub enum ErrKind {
    /// Declaring (or moving onto, or splitting onto) an identity that already exists.
    DuplicateLocation,
    /// Touching a location whose ownership was consumed by an earlier move or split.
    UseAfterMove,
    /// A borrow, or a mutation, that would alias and mutate at the same time.
    BorrowConflict,
    /// Read, write, drop or split without the required permission, where no
    /// live borrow is to blame.
    PermissionDenied,
    /// An identity that was never declared, or was already dropped.
    UnknownLocation,
}

/// The verdict on one operation.
///
/// An accepted borrow reports the identity the store coined for it; an
/// accepted declare or move reports the newly registered location.  A split
/// reports nothing new, because the script itself names both parts.
#[derive(Clone, Copy, Debug, PartialEq, Eq)]
pub enum Outcome {
    Accepted { created: Option<u64> },
    Rejected { kind: ErrKind, loc: u64 },
}

} // verus!
