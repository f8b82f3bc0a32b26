//! The executable permission store.
//!
//! A `Store` holds the live location and borrow records; each operation
//! is proved to change the store and report an outcome exactly as the
//! corresponding transition of the abstract model says.

use vstd::prelude::*;

use crate::inv::{
    lemma_borrow_at, lemma_loc_at, lemma_step_ids, lemma_step_safety, store_inv,
};
use crate::model::{
    has_borrow_on, has_loc, has_unique_on, init_store, spec_borrow, spec_declare, spec_drop,
    spec_end_borrow, spec_move, spec_read, spec_split, spec_step, spec_write, StoreModel,
};
use crate::ops::{BorrowEntry, BorrowKind, ErrKind, LocEntry, LocKind, Op, Outcome, PermSet};

verus! {

/// The authoritative map from location identity to permission state,
/// together with the live borrows derived from those locations.
pub struct Store {
    locs: Vec<LocEntry>,
    borrows: Vec<BorrowEntry>,
    next_borrow: u64,
}

impl View for Store {
    type V = StoreModel;

    closed spec fn view(&self) -> StoreModel {
        StoreModel {
            locs: self.locs@,
            borrows: self.borrows@,
            next_borrow: self.next_borrow as nat,
        }
    }
}

impl Store {
    /// The internal well-formedness every store operation preserves.
    pub open spec fn inv(&self) -> bool {
        store_inv(self@)
    }

    /// How many borrow identities have been coined so far.
    pub open spec fn coined(&self) -> nat {
        self@.next_borrow
    }

    /// How many borrow identities have been coined so far, as a value a
    /// caller can test before taking another borrow.
    pub fn coined_count(&self) -> (r: u64)
        ensures
            r as nat == self.coined(),
    {
        self.next_borrow
    }

    /// An empty store: no locations, no borrows.
    pub fn new() -> (s: Store)
        ensures
            s.inv(),
            s@ == init_store(),
    {
        Store { locs: Vec::new(), borrows: Vec::new(), next_borrow: 0 }
    }

    fn find_loc(&self, id: u64) -> (r: Option<usize>)
        ensures
            match r {
                Some(i) => i < self.locs@.len() && self.locs@[i as int].id == id,
                None => !has_loc(self.locs@, id),
            },
    {
        let n = self.locs.len();
        let mut i: usize = 0;
        while i < n
            invariant
                i <= n,
                n == self.locs@.len(),
                forall|j: int| 0 <= j < i ==> (#[trigger] self.locs@[j]).id != id,
            decreases n - i,
        {
            if self.locs[i].id == id {
                return Some(i);
            }
            i += 1;
        }
        None
    }

    fn find_borrow(&self, bid: u64) -> (r: Option<usize>)
        ensures
            match r {
                Some(i) => i < self.borrows@.len() && self.borrows@[i as int].id == bid,
                None => !crate::model::has_borrow(self.borrows@, bid),
            },
    {
        let n = self.borrows.len();
        let mut i: usize = 0;
        while i < n
            invariant
                i <= n,
                n == self.borrows@.len(),
                forall|j: int| 0 <= j < i ==> (#[trigger] self.borrows@[j]).id != bid,
            decreases n - i,
        {
            if self.borrows[i].id == bid {
                return Some(i);
            }
            i += 1;
        }
        None
    }

    fn any_borrow_on(&self, src: u64) -> (r: bool)
        ensures
            r == has_borrow_on(self.borrows@, src),
    {
        let n = self.borrows.len();
        let mut i: usize = 0;
        while i < n
            invariant
                i <= n,
                n == self.borrows@.len(),
                forall|j: int| 0 <= j < i ==> (#[trigger] self.borrows@[j]).source != src,
            decreases n - i,
        {
            if self.borrows[i].source == src {
                return true;
            }
            i += 1;
        }
        false
    }

    fn any_unique_on(&self, src: u64) -> (r: bool)
        ensures
            r == has_unique_on(self.borrows@, src),
    {
        let n = self.borrows.len();
        let mut i: usize = 0;
        while i < n
            invariant
                i <= n,
                n == self.borrows@.len(),
                forall|j: int|
                    0 <= j < i ==> !((#[trigger] self.borrows@[j]).source == src
                        && self.borrows@[j].kind == BorrowKind::Unique),
            decreases n - i,
        {
            if self.borrows[i].source == src && self.borrows[i].kind == BorrowKind::Unique {
                return true;
            }
            i += 1;
        }
        false
    }

    /// Register a new location with full rights.
    pub fn declare(&mut self, id: u64, kind: LocKind) -> (r: Outcome)
        requires
            old(self).inv(),
        ensures
            final(self).inv(),
            final(self)@ == spec_declare(old(self)@, id, kind).st,
            r == spec_declare(old(self)@, id, kind).out,
    {
        let ghost st0 = self@;
        proof {
            lemma_step_safety(st0, Op::Declare { loc: id, kind });
            lemma_step_ids(st0, Op::Declare { loc: id, kind });
        }
        match self.find_loc(id) {
            Some(_) => Outcome::Rejected { kind: ErrKind::DuplicateLocation, loc: id },
            None => {
                self.locs.push(
                    LocEntry {
                        id,
                        kind,
                        perms: PermSet { read: true, write: true, own: true },
                        prior: PermSet { read: true, write: true, own: true },
                        moved: false,
                    },
                );
                Outcome::Accepted { created: Some(id) }
            },
        }
    }

    /// Transfer ownership from `from` to the fresh location `to`.
    pub fn move_loc(&mut self, from: u64, to: u64) -> (r: Outcome)
        requires
            old(self).inv(),
        ensures
            final(self).inv(),
            final(self)@ == spec_move(old(self)@, from, to).st,
            r == spec_move(old(self)@, from, to).out,
    {
        let ghost st0 = self@;
        proof {
            lemma_step_safety(st0, Op::Move { from, to });
            lemma_step_ids(st0, Op::Move { from, to });
        }
        match self.find_loc(from) {
            None => Outcome::Rejected { kind: ErrKind::UnknownLocation, loc: from },
            Some(i) => {
                proof {
                    lemma_loc_at(st0.locs, i as int);
                }
                let src = self.locs[i];
                if src.moved {
                    Outcome::Rejected { kind: ErrKind::UseAfterMove, loc: from }
                } else if self.any_borrow_on(from) {
                    Outcome::Rejected { kind: ErrKind::UseAfterMove, loc: from }
                } else if self.find_loc(to).is_some() {
                    Outcome::Rejected { kind: ErrKind::DuplicateLocation, loc: to }
                } else {
                    self.locs[i] = LocEntry {
                        perms: PermSet { read: false, write: false, own: false },
                        prior: PermSet { read: false, write: false, own: false },
                        moved: true,
                        ..src
                    };
                    self.locs.push(
                        LocEntry {
                            id: to,
                            kind: src.kind,
                            perms: PermSet { read: true, write: true, own: true },
                            prior: PermSet { read: true, write: true, own: true },
                            moved: false,
                        },
                    );
                    Outcome::Accepted { created: Some(to) }
                }
            },
        }
    }

    fn borrow_any(&mut self, src: u64, unique: bool) -> (r: Outcome)
        requires
            old(self).inv(),
            old(self)@.next_borrow < u64::MAX,
        ensures
            final(self).inv(),
            final(self)@ == spec_borrow(
                old(self)@,
                src,
                if unique {
                    BorrowKind::Unique
                } else {
                    BorrowKind::Shared
                },
            ).st,
            r == spec_borrow(
                old(self)@,
                src,
                if unique {
                    BorrowKind::Unique
                } else {
                    BorrowKind::Shared
                },
            ).out,
    {
        let ghost bkind = if unique {
            BorrowKind::Unique
        } else {
            BorrowKind::Shared
        };
        let ghost st0 = self@;
        proof {
            let op = if unique {
                Op::BorrowUnique { source: src }
            } else {
                Op::BorrowShared { source: src }
            };
            lemma_step_safety(st0, op);
            lemma_step_ids(st0, op);
        }
        match self.find_loc(src) {
            None => Outcome::Rejected { kind: ErrKind::UnknownLocation, loc: src },
            Some(i) => {
                proof {
                    lemma_loc_at(st0.locs, i as int);
                }
                let e = self.locs[i];
                if e.moved {
                    Outcome::Rejected { kind: ErrKind::UseAfterMove, loc: src }
                } else {
                    let borrowed = self.any_borrow_on(src);
                    if unique && borrowed {
                        Outcome::Rejected { kind: ErrKind::BorrowConflict, loc: src }
                    } else if !unique && self.any_unique_on(src) {
                        Outcome::Rejected { kind: ErrKind::BorrowConflict, loc: src }
                    } else {
                        let prior = if borrowed {
                            e.prior
                        } else {
                            e.perms
                        };
                        let perms = if unique {
                            PermSet { read: false, write: false, own: false }
                        } else {
                            PermSet { read: true, write: false, own: false }
                        };
                        let bid = self.next_borrow;
                        self.locs[i] = LocEntry { perms, prior, ..e };
                        self.borrows.push(BorrowEntry { id: bid, source: src, kind: if unique {
                            BorrowKind::Unique
                        } else {
                            BorrowKind::Shared
                        } });
                        self.next_borrow = bid + 1;
                        Outcome::Accepted { created: Some(bid) }
                    }
                }
            },
        }
    }

    /// Take a shared (read-only) borrow of `src`.
    pub fn borrow_shared(&mut self, src: u64) -> (r: Outcome)
        requires
            old(self).inv(),
            old(self).coined() < u64::MAX,
        ensures
            final(self).inv(),
            final(self)@ == spec_borrow(old(self)@, src, BorrowKind::Shared).st,
            r == spec_borrow(old(self)@, src, BorrowKind::Shared).out,
    {
        self.borrow_any(src, false)
    }

    /// Take a unique (read-and-write) borrow of `src`.
    pub fn borrow_unique(&mut self, src: u64) -> (r: Outcome)
        requires
            old(self).inv(),
            old(self).coined() < u64::MAX,
        ensures
            final(self).inv(),
            final(self)@ == spec_borrow(old(self)@, src, BorrowKind::Unique).st,
            r == spec_borrow(old(self)@, src, BorrowKind::Unique).out,
    {
        self.borrow_any(src, true)
    }

    /// End the borrow `bid`, restoring the source's permission set when it
    /// was the last borrow of that source.
    pub fn end_borrow(&mut self, bid: u64) -> (r: Outcome)
        requires
            old(self).inv(),
        ensures
            final(self).inv(),
            final(self)@ == spec_end_borrow(old(self)@, bid).st,
            r == spec_end_borrow(old(self)@, bid).out,
    {
        let ghost st0 = self@;
        proof {
            lemma_step_safety(st0, Op::EndBorrow { borrow: bid });
            lemma_step_ids(st0, Op::EndBorrow { borrow: bid });
        }
        match self.find_borrow(bid) {
            None => Outcome::Rejected { kind: ErrKind::UnknownLocation, loc: bid },
            Some(bi) => {
                proof {
                    lemma_borrow_at(st0, bi as int);
                }
                let b = self.borrows[bi];
                self.borrows.remove(bi);
                if self.any_borrow_on(b.source) {
                    Outcome::Accepted { created: None }
                } else {
                    proof {
                        assert(crate::inv::grounded_at(st0.locs, b));
                    }
                    match self.find_loc(b.source) {
                        Some(k) => {
                            proof {
                                lemma_loc_at(st0.locs, k as int);
                            }
                            let e = self.locs[k];
                            self.locs[k] = LocEntry { perms: e.prior, ..e };
                            Outcome::Accepted { created: None }
                        },
                        None => {
                            proof {
                                let w = crate::model::loc_idx(st0.locs, b.source);
                                assert(st0.locs[w].id == b.source);
                                assert(false);
                            }
                            Outcome::Accepted { created: None }
                        },
                    }
                }
            },
        }
    }

    /// Check that `id` may be read; the store itself does not change.
    pub fn read(&self, id: u64) -> (r: Outcome)
        requires
            self.inv(),
        ensures
            r == spec_read(self@, id).out,
    {
        let ghost st0 = self@;
        match self.find_loc(id) {
            None => Outcome::Rejected { kind: ErrKind::UnknownLocation, loc: id },
            Some(i) => {
                proof {
                    lemma_loc_at(st0.locs, i as int);
                }
                let e = self.locs[i];
                if e.moved {
                    Outcome::Rejected { kind: ErrKind::UseAfterMove, loc: id }
                } else if e.perms.read {
                    Outcome::Accepted { created: None }
                } else if self.any_borrow_on(id) {
                    Outcome::Rejected { kind: ErrKind::BorrowConflict, loc: id }
                } else {
                    Outcome::Rejected { kind: ErrKind::PermissionDenied, loc: id }
                }
            },
        }
    }

    /// Check that `id` may be written; the store itself does not change.
    pub fn write(&self, id: u64) -> (r: Outcome)
        requires
            self.inv(),
        ensures
            r == spec_write(self@, id).out,
    {
        let ghost st0 = self@;
        match self.find_loc(id) {
            None => Outcome::Rejected { kind: ErrKind::UnknownLocation, loc: id },
            Some(i) => {
                proof {
                    lemma_loc_at(st0.locs, i as int);
                }
                let e = self.locs[i];
                if e.moved {
                    Outcome::Rejected { kind: ErrKind::UseAfterMove, loc: id }
                } else if e.perms.write {
                    Outcome::Accepted { created: None }
                } else if self.any_borrow_on(id) {
                    Outcome::Rejected { kind: ErrKind::BorrowConflict, loc: id }
                } else {
                    Outcome::Rejected { kind: ErrKind::PermissionDenied, loc: id }
                }
            },
        }
    }

    /// Drop `id`, removing it from the store.
    pub fn drop_loc(&mut self, id: u64) -> (r: Outcome)
        requires
            old(self).inv(),
        ensures
            final(self).inv(),
            final(self)@ == spec_drop(old(self)@, id).st,
            r == spec_drop(old(self)@, id).out,
    {
        let ghost st0 = self@;
        proof {
            lemma_step_safety(st0, Op::DropLoc { loc: id });
            lemma_step_ids(st0, Op::DropLoc { loc: id });
        }
        match self.find_loc(id) {
            None => Outcome::Rejected { kind: ErrKind::UnknownLocation, loc: id },
            Some(i) => {
                proof {
                    lemma_loc_at(st0.locs, i as int);
                }
                let e = self.locs[i];
                if e.moved {
                    Outcome::Rejected { kind: ErrKind::UseAfterMove, loc: id }
                } else if !e.perms.own {
                    Outcome::Rejected { kind: ErrKind::PermissionDenied, loc: id }
                } else {
                    self.locs.remove(i);
                    Outcome::Accepted { created: None }
                }
            },
        }
    }

    /// Split `src` into two independently tracked locations `first` and
    /// `rest`, consuming the source.
    pub fn split(&mut self, src: u64, first: u64, rest: u64) -> (r: Outcome)
        requires
            old(self).inv(),
        ensures
            final(self).inv(),
            final(self)@ == spec_split(old(self)@, src, first, rest).st,
            r == spec_split(old(self)@, src, first, rest).out,
    {
        let ghost st0 = self@;
        proof {
            lemma_step_safety(st0, Op::Split { source: src, first, rest });
            lemma_step_ids(st0, Op::Split { source: src, first, rest });
        }
        match self.find_loc(src) {
            None => Outcome::Rejected { kind: ErrKind::UnknownLocation, loc: src },
            Some(i) => {
                proof {
                    lemma_loc_at(st0.locs, i as int);
                }
                let e = self.locs[i];
                if e.moved {
                    Outcome::Rejected { kind: ErrKind::UseAfterMove, loc: src }
                } else if self.any_borrow_on(src) {
                    Outcome::Rejected { kind: ErrKind::BorrowConflict, loc: src }
                } else if !e.perms.own {
                    Outcome::Rejected { kind: ErrKind::PermissionDenied, loc: src }
                } else if self.find_loc(first).is_some() {
                    Outcome::Rejected { kind: ErrKind::DuplicateLocation, loc: first }
                } else if self.find_loc(rest).is_some() || first == rest {
                    Outcome::Rejected { kind: ErrKind::DuplicateLocation, loc: rest }
                } else {
                    self.locs[i] = LocEntry {
                        perms: PermSet { read: false, write: false, own: false },
                        prior: PermSet { read: false, write: false, own: false },
                        moved: true,
                        ..e
                    };
                    self.locs.push(
                        LocEntry {
                            id: first,
                            kind: e.kind,
                            perms: PermSet { read: true, write: true, own: true },
                            prior: PermSet { read: true, write: true, own: true },
                            moved: false,
                        },
                    );
                    self.locs.push(
                        LocEntry {
                            id: rest,
                            kind: e.kind,
                            perms: PermSet { read: true, write: true, own: true },
                            prior: PermSet { read: true, write: true, own: true },
                            moved: false,
                        },
                    );
                    Outcome::Accepted { created: None }
                }
            },
        }
    }

    /// Apply one operation, reporting its verdict.
    pub fn step(&mut self, op: Op) -> (r: Outcome)
        requires
            old(self).inv(),
            old(self).coined() < u64::MAX,
        ensures
            final(self).inv(),
            final(self)@ == spec_step(old(self)@, op).st,
            r == spec_step(old(self)@, op).out,
    {
        match op {
            Op::Declare { loc, kind } => self.declare(loc, kind),
            Op::Move { from, to } => self.move_loc(from, to),
            Op::BorrowShared { source } => self.borrow_shared(source),
            Op::BorrowUnique { source } => self.borrow_unique(source),
            Op::EndBorrow { borrow } => self.end_borrow(borrow),
            Op::Read { loc } => self.read(loc),
            Op::Write { loc } => self.write(loc),
            Op::DropLoc { loc } => self.drop_loc(loc),
            Op::Split { source, first, rest } => self.split(source, first, rest),
        }
    }
}

} // verus!
