//! The mathematical model of the permission store.
//!
//! `StoreModel` is the abstract state: the sequence of tracked locations,
//! the sequence of live borrows, and the counter from which borrow
//! identities are coined.  Every operation of the executable store is
//! specified as a pure transition function on this model, so the outcome
//! of a whole script is a mathematical function of the script alone.

use vstd::prelude::*;

use crate::ops::{BorrowEntry, BorrowKind, ErrKind, LocEntry, LocKind, Op, Outcome, PermSet};

verus! {

/// The abstract state of a permission store.
pub struct StoreModel {
    pub locs: Seq<LocEntry>,
    pub borrows: Seq<BorrowEntry>,
    pub next_borrow: nat,
}

/// The state and verdict a transition produces.
pub struct StepResult {
    pub st: StoreModel,
    pub out: Outcome,
}

/// The state of a store no operation has touched yet.
pub open spec fn init_store() -> StoreModel {
    StoreModel { locs: Seq::empty(), borrows: Seq::empty(), next_borrow: 0 }
}

/// Whether some tracked location carries identity `id`.
pub open spec fn has_loc(locs: Seq<LocEntry>, id: u64) -> bool {
    exists|i: int| 0 <= i < locs.len() && (#[trigger] locs[i]).id == id
}

/// The index of the location carrying `id` (meaningful when `has_loc`
/// holds and identities are distinct).
pub open spec fn loc_idx(locs: Seq<LocEntry>, id: u64) -> int {
    choose|i: int| 0 <= i < locs.len() && (#[trigger] locs[i]).id == id
}

/// The record of the location carrying `id`.
pub open spec fn loc_of(locs: Seq<LocEntry>, id: u64) -> LocEntry {
    locs[loc_idx(locs, id)]
}

/// Whether some live borrow carries identity `bid`.
pub open spec fn has_borrow(borrows: Seq<BorrowEntry>, bid: u64) -> bool {
    exists|i: int| 0 <= i < borrows.len() && (#[trigger] borrows[i]).id == bid
}

/// The index of the live borrow carrying `bid`.
pub open spec fn borrow_idx(borrows: Seq<BorrowEntry>, bid: u64) -> int {
    choose|i: int| 0 <= i < borrows.len() && (#[trigger] borrows[i]).id == bid
}

/// The record of the live borrow carrying `bid`.
pub open spec fn borrow_of(borrows: Seq<BorrowEntry>, bid: u64) -> BorrowEntry {
    borrows[borrow_idx(borrows, bid)]
}

/// Whether any borrow of the location `src` is alive.
pub open spec fn has_borrow_on(borrows: Seq<BorrowEntry>, src: u64) -> bool {
    exists|i: int| 0 <= i < borrows.len() && (#[trigger] borrows[i]).source == src
}

/// Whether a unique borrow of the location `src` is alive.
pub open spec fn has_unique_on(borrows: Seq<BorrowEntry>, src: u64) -> bool {
    exists|i: int|
        0 <= i < borrows.len() && (#[trigger] borrows[i]).source == src && borrows[i].kind
            == BorrowKind::Unique
}

/// The unchanged state, paired with a rejection.
pub open spec fn rejected(st: StoreModel, kind: ErrKind, loc: u64) -> StepResult {
    StepResult { st, out: Outcome::Rejected { kind, loc } }
}

/// Registering a new location with full rights.
pub open spec fn spec_declare(st: StoreModel, id: u64, kind: LocKind) -> StepResult {
    if has_loc(st.locs, id) {
        rejected(st, ErrKind::DuplicateLocation, id)
    } else {
        let entry = LocEntry {
            id,
            kind,
            perms: PermSet::full(),
            prior: PermSet::full(),
            moved: false,
        };
        StepResult {
            st: StoreModel { locs: st.locs.push(entry), ..st },
            out: Outcome::Accepted { created: Some(id) },
        }
    }
}

/// Transferring ownership from `from` to the fresh location `to`.
///
/// The source keeps its entry but loses every permission and is marked
/// permanently moved-from; the destination starts with full rights.
pub open spec fn spec_move(st: StoreModel, from: u64, to: u64) -> StepResult {
    if !has_loc(st.locs, from) {
        rejected(st, ErrKind::UnknownLocation, from)
    } else if loc_of(st.locs, from).moved {
        rejected(st, ErrKind::UseAfterMove, from)
    } else if has_borrow_on(st.borrows, from) {
        rejected(st, ErrKind::UseAfterMove, from)
    } else if has_loc(st.locs, to) {
        rejected(st, ErrKind::DuplicateLocation, to)
    } else {
        let src = loc_of(st.locs, from);
        let dead = LocEntry { perms: PermSet::empty(), prior: PermSet::empty(), moved: true, ..src };
        let dst = LocEntry {
            id: to,
            kind: src.kind,
            perms: PermSet::full(),
            prior: PermSet::full(),
            moved: false,
        };
        StepResult {
            st: StoreModel { locs: st.locs.update(loc_idx(st.locs, from), dead).push(dst), ..st },
            out: Outcome::Accepted { created: Some(to) },
        }
    }
}

/// Taking a borrow of `src`, shared or unique.
///
/// A unique borrow conflicts with every live borrow of the same source; a
/// shared borrow conflicts only with a live unique borrow.  The first
/// borrow of a source records the permission set to restore later; a
/// shared borrow leaves read access behind, a unique borrow leaves nothing.
pub open spec fn spec_borrow(st: StoreModel, src: u64, bkind: BorrowKind) -> StepResult {
    if !has_loc(st.locs, src) {
        rejected(st, ErrKind::UnknownLocation, src)
    } else if loc_of(st.locs, src).moved {
        rejected(st, ErrKind::UseAfterMove, src)
    } else if bkind == BorrowKind::Unique && has_borrow_on(st.borrows, src) {
        rejected(st, ErrKind::BorrowConflict, src)
    } else if bkind == BorrowKind::Shared && has_unique_on(st.borrows, src) {
        rejected(st, ErrKind::BorrowConflict, src)
    } else {
        let e = loc_of(st.locs, src);
        let prior = if has_borrow_on(st.borrows, src) {
            e.prior
        } else {
            e.perms
        };
        let perms = if bkind == BorrowKind::Unique {
            PermSet::empty()
        } else {
            PermSet::read_only()
        };
        let bid = st.next_borrow as u64;
        let lent = LocEntry { perms, prior, ..e };
        StepResult {
            st: StoreModel {
                locs: st.locs.update(loc_idx(st.locs, src), lent),
                borrows: st.borrows.push(BorrowEntry { id: bid, source: src, kind: bkind }),
                next_borrow: st.next_borrow + 1,
            },
            out: Outcome::Accepted { created: Some(bid) },
        }
    }
}

/// Ending the borrow `bid`; when it is the last borrow of its source, the
/// source regains the permission set it held before the first borrow.
pub open spec fn spec_end_borrow(st: StoreModel, bid: u64) -> StepResult {
    if !has_borrow(st.borrows, bid) {
        rejected(st, ErrKind::UnknownLocation, bid)
    } else {
        let b = borrow_of(st.borrows, bid);
        let remaining = st.borrows.remove(borrow_idx(st.borrows, bid));
        if has_borrow_on(remaining, b.source) {
            StepResult {
                st: StoreModel { borrows: remaining, ..st },
                out: Outcome::Accepted { created: None },
            }
        } else {
            let e = loc_of(st.locs, b.source);
            let restored = LocEntry { perms: e.prior, ..e };
            StepResult {
                st: StoreModel {
                    locs: st.locs.update(loc_idx(st.locs, b.source), restored),
                    borrows: remaining,
                    ..st
                },
                out: Outcome::Accepted { created: None },
            }
        }
    }
}

/// A read: legal exactly when read access is present; a pure check.
pub open spec fn spec_read(st: StoreModel, id: u64) -> StepResult {
    if !has_loc(st.locs, id) {
        rejected(st, ErrKind::UnknownLocation, id)
    } else if loc_of(st.locs, id).moved {
        rejected(st, ErrKind::UseAfterMove, id)
    } else if loc_of(st.locs, id).perms.read {
        StepResult { st, out: Outcome::Accepted { created: None } }
    } else if has_borrow_on(st.borrows, id) {
        rejected(st, ErrKind::BorrowConflict, id)
    } else {
        rejected(st, ErrKind::PermissionDenied, id)
    }
}

/// A write: legal exactly when write access is present; a pure check.
/// A write denied because borrows are alive is an aliasing-and-mutation
/// conflict, not a mere missing permission.
pub open spec fn spec_write(st: StoreModel, id: u64) -> StepResult {
    if !has_loc(st.locs, id) {
        rejected(st, ErrKind::UnknownLocation, id)
    } else if loc_of(st.locs, id).moved {
        rejected(st, ErrKind::UseAfterMove, id)
    } else if loc_of(st.locs, id).perms.write {
        StepResult { st, out: Outcome::Accepted { created: None } }
    } else if has_borrow_on(st.borrows, id) {
        rejected(st, ErrKind::BorrowConflict, id)
    } else {
        rejected(st, ErrKind::PermissionDenied, id)
    }
}

/// Dropping a location: needs ownership, which live borrows suspend.
pub open spec fn spec_drop(st: StoreModel, id: u64) -> StepResult {
    if !has_loc(st.locs, id) {
        rejected(st, ErrKind::UnknownLocation, id)
    } else if loc_of(st.locs, id).moved {
        rejected(st, ErrKind::UseAfterMove, id)
    } else if !loc_of(st.locs, id).perms.own {
        rejected(st, ErrKind::PermissionDenied, id)
    } else {
        StepResult {
            st: StoreModel { locs: st.locs.remove(loc_idx(st.locs, id)), ..st },
            out: Outcome::Accepted { created: None },
        }
    }
}

/// Splitting an indexable location into two independently tracked parts.
///
/// The source is consumed, exactly as by a move; the parts start with full
/// rights, so mutation through one no longer conflicts with access through
/// the other.
pub open spec fn spec_split(st: StoreModel, src: u64, first: u64, rest: u64) -> StepResult {
    if !has_loc(st.locs, src) {
        rejected(st, ErrKind::UnknownLocation, src)
    } else if loc_of(st.locs, src).moved {
        rejected(st, ErrKind::UseAfterMove, src)
    } else if has_borrow_on(st.borrows, src) {
        rejected(st, ErrKind::BorrowConflict, src)
    } else if !loc_of(st.locs, src).perms.own {
        rejected(st, ErrKind::PermissionDenied, src)
    } else if has_loc(st.locs, first) {
        rejected(st, ErrKind::DuplicateLocation, first)
    } else if has_loc(st.locs, rest) || first == rest {
        rejected(st, ErrKind::DuplicateLocation, rest)
    } else {
        let e = loc_of(st.locs, src);
        let dead = LocEntry { perms: PermSet::empty(), prior: PermSet::empty(), moved: true, ..e };
        let part1 = LocEntry {
            id: first,
            kind: e.kind,
            perms: PermSet::full(),
            prior: PermSet::full(),
            moved: false,
        };
        let part2 = LocEntry { id: rest, ..part1 };
        StepResult {
            st: StoreModel {
                locs: st.locs.update(loc_idx(st.locs, src), dead).push(part1).push(part2),
                ..st
            },
            out: Outcome::Accepted { created: None },
        }
    }
}

/// The transition one operation makes.
pub open spec fn spec_step(st: StoreModel, op: Op) -> StepResult {
    match op {
        Op::Declare { loc, kind } => spec_declare(st, loc, kind),
        Op::Move { from, to } => spec_move(st, from, to),
        Op::BorrowShared { source } => spec_borrow(st, source, BorrowKind::Shared),
        Op::BorrowUnique { source } => spec_borrow(st, source, BorrowKind::Unique),
        Op::EndBorrow { borrow } => spec_end_borrow(st, borrow),
        Op::Read { loc } => spec_read(st, loc),
        Op::Write { loc } => spec_write(st, loc),
        Op::DropLoc { loc } => spec_drop(st, loc),
        Op::Split { source, first, rest } => spec_split(st, source, first, rest),
    }
}

/// The state after a whole script has run.
pub open spec fn run_state(st: StoreModel, ops: Seq<Op>) -> StoreModel
    decreases ops.len(),
{
    if ops.len() == 0 {
        st
    } else {
        run_state(spec_step(st, ops[0]).st, ops.skip(1))
    }
}

/// The verdicts a whole script produces, one per operation, in order.
pub open spec fn run_outs(st: StoreModel, ops: Seq<Op>) -> Seq<Outcome>
    decreases ops.len(),
{
    if ops.len() == 0 {
        Seq::empty()
    } else {
        seq![spec_step(st, ops[0]).out] + run_outs(spec_step(st, ops[0]).st, ops.skip(1))
    }
}

} // verus!
