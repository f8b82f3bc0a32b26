//! Well-formedness of the abstract store state, and its preservation by
//! every transition.
//!
//! `safety_inv` is the heart of the model: location identities are
//! distinct, every live borrow points at a live, unmoved source whose
//! permission set matches the loan, and borrows of one source never
//! combine a unique loan with any other loan.  `id_inv` additionally
//! keeps borrow identities distinct and below the coining counter.

use vstd::prelude::*;

use crate::model::{
    borrow_idx, borrow_of, has_borrow, has_borrow_on, has_loc, has_unique_on, init_store, loc_idx,
    loc_of, run_state, spec_borrow, spec_declare, spec_drop, spec_end_borrow, spec_move,
    spec_split, spec_step, StoreModel,
};
use crate::ops::{BorrowEntry, BorrowKind, LocEntry, LocKind, Op, PermSet};

verus! {

/// Location identities name at most one entry.
pub open spec fn distinct_locs(locs: Seq<LocEntry>) -> bool {
    forall|i: int, j: int|
        0 <= i < locs.len() && 0 <= j < locs.len() && (#[trigger] locs[i]).id == (
        #[trigger] locs[j]).id ==> i == j
}

/// What must hold of one live borrow: it points at a live, unmoved
/// location whose current permission set reflects the loan; nothing is
/// left under a unique borrow, read access alone under shared borrows.
pub open spec fn grounded_at(locs: Seq<LocEntry>, b: BorrowEntry) -> bool {
    &&& has_loc(locs, b.source)
    &&& !loc_of(locs, b.source).moved
    &&& (b.kind == BorrowKind::Unique ==> loc_of(locs, b.source).perms == PermSet::empty())
    &&& (b.kind == BorrowKind::Shared ==> loc_of(locs, b.source).perms == PermSet::read_only())
}

/// Every live borrow is grounded.
pub open spec fn borrows_grounded(st: StoreModel) -> bool {
    forall|i: int| 0 <= i < st.borrows.len() ==> grounded_at(st.locs, #[trigger] st.borrows[i])
}

/// The pointer safety principle over the live borrow set: two distinct
/// borrows of one source are both shared, so a unique borrow never
/// coexists with any other borrow of its source.
pub open spec fn borrows_exclusive(borrows: Seq<BorrowEntry>) -> bool {
    forall|i: int, j: int|
        0 <= i < borrows.len() && 0 <= j < borrows.len() && i != j && (
        #[trigger] borrows[i]).source == (#[trigger] borrows[j]).source ==> borrows[i].kind
            == BorrowKind::Shared
}

/// The safety invariant: what every reachable store state satisfies.
pub open spec fn safety_inv(st: StoreModel) -> bool {
    &&& distinct_locs(st.locs)
    &&& borrows_grounded(st)
    &&& borrows_exclusive(st.borrows)
}

/// Borrow identities are distinct and below the coining counter.
pub open spec fn id_inv(st: StoreModel) -> bool {
    &&& forall|i: int, j: int|
        0 <= i < st.borrows.len() && 0 <= j < st.borrows.len() && (#[trigger] st.borrows[i]).id
            == (#[trigger] st.borrows[j]).id ==> i == j
    &&& forall|i: int| 0 <= i < st.borrows.len() ==> (#[trigger] st.borrows[i]).id < st.next_borrow
}

/// Everything the executable store maintains.
pub open spec fn store_inv(st: StoreModel) -> bool {
    safety_inv(st) && id_inv(st)
}

/// With distinct identities, the entry found at an index is the entry the
/// lookup functions denote.
pub proof fn lemma_loc_at(locs: Seq<LocEntry>, i: int)
    requires
        distinct_locs(locs),
        0 <= i < locs.len(),
    ensures
        has_loc(locs, locs[i].id),
        loc_idx(locs, locs[i].id) == i,
        loc_of(locs, locs[i].id) == locs[i],
{
    assert(has_loc(locs, locs[i].id));
}

/// The borrow found at an index is the borrow the lookup functions denote.
pub proof fn lemma_borrow_at(st: StoreModel, i: int)
    requires
        id_inv(st),
        0 <= i < st.borrows.len(),
    ensures
        has_borrow(st.borrows, st.borrows[i].id),
        borrow_idx(st.borrows, st.borrows[i].id) == i,
        borrow_of(st.borrows, st.borrows[i].id) == st.borrows[i],
{
    assert(has_borrow(st.borrows, st.borrows[i].id));
}

/// Replacing the entry at `k` by one with the same identity leaves every
/// lookup as it was, except that `k`'s identity now denotes the new entry.
pub proof fn lemma_locs_update(locs: Seq<LocEntry>, locs2: Seq<LocEntry>, k: int, e: LocEntry)
    requires
        distinct_locs(locs),
        0 <= k < locs.len(),
        e.id == locs[k].id,
        locs2 == locs.update(k, e),
    ensures
        distinct_locs(locs2),
        forall|x: u64| #[trigger] has_loc(locs2, x) <==> has_loc(locs, x),
        forall|x: u64| has_loc(locs, x) ==> #[trigger] loc_idx(locs2, x) == loc_idx(locs, x),
        forall|x: u64|
            has_loc(locs, x) && loc_idx(locs, x) != k ==> (#[trigger] loc_of(locs2, x)) == loc_of(
                locs,
                x,
            ),
        has_loc(locs2, e.id),
        loc_idx(locs2, e.id) == k,
        loc_of(locs2, e.id) == e,
{
    assert(distinct_locs(locs2));
    assert forall|x: u64| #[trigger] has_loc(locs2, x) <==> has_loc(locs, x) by {
        if has_loc(locs, x) {
            let i = loc_idx(locs, x);
            assert(locs2[i].id == x);
        }
        if has_loc(locs2, x) {
            let i = loc_idx(locs2, x);
            assert(locs[i].id == x);
        }
    }
    assert forall|x: u64| has_loc(locs, x) implies #[trigger] loc_idx(locs2, x) == loc_idx(locs, x)
        by {
        let i = loc_idx(locs, x);
        assert(locs2[i].id == x);
        lemma_loc_at(locs2, i);
    }
    lemma_loc_at(locs, k);
    lemma_loc_at(locs2, k);
}

/// Appending an entry with a fresh identity leaves every existing lookup
/// as it was and makes the new identity denote the new entry.
pub proof fn lemma_locs_push(locs: Seq<LocEntry>, locs2: Seq<LocEntry>, e: LocEntry)
    requires
        distinct_locs(locs),
        !has_loc(locs, e.id),
        locs2 == locs.push(e),
    ensures
        distinct_locs(locs2),
        forall|x: u64| has_loc(locs, x) ==> #[trigger] has_loc(locs2, x),
        forall|x: u64| #[trigger] has_loc(locs2, x) ==> has_loc(locs, x) || x == e.id,
        forall|x: u64| has_loc(locs, x) ==> #[trigger] loc_idx(locs2, x) == loc_idx(locs, x),
        forall|x: u64| has_loc(locs, x) ==> (#[trigger] loc_of(locs2, x)) == loc_of(locs, x),
        has_loc(locs2, e.id),
        loc_idx(locs2, e.id) == locs.len(),
        loc_of(locs2, e.id) == e,
{
    let n = locs.len() as int;
    assert forall|i: int, j: int|
        0 <= i < locs2.len() && 0 <= j < locs2.len() && (#[trigger] locs2[i]).id == (
        #[trigger] locs2[j]).id implies i == j by {
        if i < n && j == n {
            assert(has_loc(locs, locs[i].id));
        } else if j < n && i == n {
            assert(has_loc(locs, locs[j].id));
        }
    }
    assert(distinct_locs(locs2));
    assert forall|x: u64| has_loc(locs, x) implies #[trigger] has_loc(locs2, x) by {
        let i = loc_idx(locs, x);
        assert(locs2[i].id == x);
    }
    assert forall|x: u64| #[trigger] has_loc(locs2, x) implies has_loc(locs, x) || x == e.id by {
        let i = loc_idx(locs2, x);
        if i < n {
            assert(locs[i].id == x);
        }
    }
    assert forall|x: u64| has_loc(locs, x) implies #[trigger] loc_idx(locs2, x) == loc_idx(locs, x)
        by {
        let i = loc_idx(locs, x);
        assert(locs2[i].id == x);
        lemma_loc_at(locs2, i);
    }
    assert forall|x: u64| has_loc(locs, x) implies (#[trigger] loc_of(locs2, x)) == loc_of(locs, x)
        by {
        let i = loc_idx(locs, x);
        assert(locs2[i].id == x);
        lemma_loc_at(locs2, i);
    }
    assert(locs2[n].id == e.id);
    lemma_loc_at(locs2, n);
}

/// Removing the entry at `k` leaves every other lookup as it was and makes
/// `k`'s identity unknown.
pub proof fn lemma_locs_remove(locs: Seq<LocEntry>, locs2: Seq<LocEntry>, k: int)
    requires
        distinct_locs(locs),
        0 <= k < locs.len(),
        locs2 == locs.remove(k),
    ensures
        distinct_locs(locs2),
        !has_loc(locs2, locs[k].id),
        forall|x: u64|
            has_loc(locs, x) && x != locs[k].id ==> #[trigger] has_loc(locs2, x) && (
            #[trigger] loc_of(locs2, x)) == loc_of(locs, x),
        forall|x: u64| #[trigger] has_loc(locs2, x) ==> has_loc(locs, x) && x != locs[k].id,
{
    let n = locs.len() as int;
    locs.remove_ensures(k);
    assert forall|i: int, j: int|
        0 <= i < locs2.len() && 0 <= j < locs2.len() && (#[trigger] locs2[i]).id == (
        #[trigger] locs2[j]).id implies i == j by {
        let i0: int = if i < k {
            i
        } else {
            i + 1
        };
        let j0: int = if j < k {
            j
        } else {
            j + 1
        };
        assert(locs2[i] == locs[i0]);
        assert(locs2[j] == locs[j0]);
    }
    assert(distinct_locs(locs2));
    assert forall|x: u64| #[trigger] has_loc(locs2, x) implies has_loc(locs, x) && x != locs[k].id
        by {
        let i = loc_idx(locs2, x);
        let i0: int = if i < k {
            i
        } else {
            i + 1
        };
        assert(locs[i0].id == x);
        if x == locs[k].id {
            assert(locs[i0].id == locs[k].id);
        }
    }
    assert forall|x: u64| has_loc(locs, x) && x != locs[k].id implies #[trigger] has_loc(locs2, x)
        && (#[trigger] loc_of(locs2, x)) == loc_of(locs, x) by {
        let i0 = loc_idx(locs, x);
        assert(locs[i0].id == x);
        let i: int = if i0 < k {
            i0
        } else {
            i0 - 1
        };
        assert(locs2[i] == locs[i0]);
        lemma_loc_at(locs2, i);
    }
    if has_loc(locs2, locs[k].id) {
        assert(false);
    }
}

proof fn lemma_declare_safety(st: StoreModel, id: u64, kind: LocKind)
    requires
        safety_inv(st),
    ensures
        safety_inv(spec_declare(st, id, kind).st),
{
    if !has_loc(st.locs, id) {
        let st2 = spec_declare(st, id, kind).st;
        let e = LocEntry {
            id,
            kind,
            perms: PermSet::full(),
            prior: PermSet::full(),
            moved: false,
        };
        lemma_locs_push(st.locs, st2.locs, e);
        assert forall|i: int| 0 <= i < st2.borrows.len() implies grounded_at(
            st2.locs,
            #[trigger] st2.borrows[i],
        ) by {
            assert(grounded_at(st.locs, st.borrows[i]));
        }
    }
}

proof fn lemma_move_safety(st: StoreModel, from: u64, to: u64)
    requires
        safety_inv(st),
    ensures
        safety_inv(spec_move(st, from, to).st),
{
    if has_loc(st.locs, from) && !loc_of(st.locs, from).moved && !has_borrow_on(st.borrows, from)
        && !has_loc(st.locs, to) {
        let st2 = spec_move(st, from, to).st;
        let k = loc_idx(st.locs, from);
        let src = loc_of(st.locs, from);
        let dead = LocEntry { perms: PermSet::empty(), prior: PermSet::empty(), moved: true, ..src };
        let dst = LocEntry {
            id: to,
            kind: src.kind,
            perms: PermSet::full(),
            prior: PermSet::full(),
            moved: false,
        };
        let mid = st.locs.update(k, dead);
        lemma_locs_update(st.locs, mid, k, dead);
        lemma_locs_push(mid, st2.locs, dst);
        assert forall|i: int| 0 <= i < st2.borrows.len() implies grounded_at(
            st2.locs,
            #[trigger] st2.borrows[i],
        ) by {
            let b = st.borrows[i];
            assert(grounded_at(st.locs, b));
            assert(b.source != from);
            assert(st.locs[loc_idx(st.locs, b.source)].id == b.source);
            assert(loc_idx(st.locs, b.source) != k);
            assert(loc_of(mid, b.source) == loc_of(st.locs, b.source));
            assert(loc_of(st2.locs, b.source) == loc_of(mid, b.source));
        }
    }
}

proof fn lemma_borrow_safety(st: StoreModel, src: u64, bkind: BorrowKind)
    requires
        safety_inv(st),
    ensures
        safety_inv(spec_borrow(st, src, bkind).st),
{
    let r = spec_borrow(st, src, bkind);
    if r.out is Accepted {
        let st2 = r.st;
        let k = loc_idx(st.locs, src);
        let e = loc_of(st.locs, src);
        let prior = if has_borrow_on(st.borrows, src) {
            e.prior
        } else {
            e.perms
        };
        let perms = if bkind == BorrowKind::Unique {
            PermSet::empty()
        } else {
            PermSet::read_only()
        };
        let lent = LocEntry { perms, prior, ..e };
        let newb = BorrowEntry { id: st.next_borrow as u64, source: src, kind: bkind };
        lemma_locs_update(st.locs, st2.locs, k, lent);
        let n = st.borrows.len() as int;
        assert(st2.borrows == st.borrows.push(newb));
        // every old borrow of `src` is shared: a unique borrow is taken
        // only of an unborrowed source, a shared borrow only of a source
        // without a unique borrow
        assert forall|i: int| 0 <= i < n && st.borrows[i].source == src implies (
        #[trigger] st.borrows[i]).kind == BorrowKind::Shared by {
            assert(has_borrow_on(st.borrows, src));
            if st.borrows[i].kind == BorrowKind::Unique {
                assert(has_unique_on(st.borrows, src));
            }
        }
        assert forall|i: int| 0 <= i < st2.borrows.len() implies grounded_at(
            st2.locs,
            #[trigger] st2.borrows[i],
        ) by {
            if i < n {
                let b = st.borrows[i];
                assert(grounded_at(st.locs, b));
                if b.source == src {
                    assert(loc_of(st2.locs, src) == lent);
                } else {
                    assert(st.locs[loc_idx(st.locs, b.source)].id == b.source);
                    assert(loc_idx(st.locs, b.source) != k);
                    assert(loc_of(st2.locs, b.source) == loc_of(st.locs, b.source));
                }
            } else {
                assert(st2.borrows[i] == newb);
                assert(loc_of(st2.locs, src) == lent);
            }
        }
        assert forall|i: int, j: int|
            0 <= i < st2.borrows.len() && 0 <= j < st2.borrows.len() && i != j && (
            #[trigger] st2.borrows[i]).source == (#[trigger] st2.borrows[j]).source implies st2.borrows[i].kind
            == BorrowKind::Shared by {
            if i < n && j == n {
                assert(st.borrows[i].source == src);
            } else if i == n && j < n {
                assert(st.borrows[j].source == src);
                assert(has_borrow_on(st.borrows, src));
            }
        }
        assert(borrows_exclusive(st2.borrows));
    }
}

proof fn lemma_end_borrow_safety(st: StoreModel, bid: u64)
    requires
        safety_inv(st),
    ensures
        safety_inv(spec_end_borrow(st, bid).st),
{
    if has_borrow(st.borrows, bid) {
        let b = borrow_of(st.borrows, bid);
        let bi = borrow_idx(st.borrows, bid);
        assert(0 <= bi < st.borrows.len() && st.borrows[bi].id == bid);
        let remaining = st.borrows.remove(bi);
        st.borrows.remove_ensures(bi);
        assert(grounded_at(st.locs, b));
        assert forall|i: int, j: int|
            0 <= i < remaining.len() && 0 <= j < remaining.len() && i != j && (
            #[trigger] remaining[i]).source == (#[trigger] remaining[j]).source implies remaining[i].kind
            == BorrowKind::Shared by {
            let i0: int = if i < bi {
                i
            } else {
                i + 1
            };
            let j0: int = if j < bi {
                j
            } else {
                j + 1
            };
            assert(remaining[i] == st.borrows[i0]);
            assert(remaining[j] == st.borrows[j0]);
        }
        if has_borrow_on(remaining, b.source) {
            assert forall|i: int| 0 <= i < remaining.len() implies grounded_at(
                st.locs,
                #[trigger] remaining[i],
            ) by {
                let i0: int = if i < bi {
                    i
                } else {
                    i + 1
                };
                assert(remaining[i] == st.borrows[i0]);
                assert(grounded_at(st.locs, st.borrows[i0]));
            }
        } else {
            let st2 = spec_end_borrow(st, bid).st;
            let k = loc_idx(st.locs, b.source);
            let e = loc_of(st.locs, b.source);
            let restored = LocEntry { perms: e.prior, ..e };
            lemma_locs_update(st.locs, st2.locs, k, restored);
            assert(st2.borrows == remaining);
            assert forall|i: int| 0 <= i < st2.borrows.len() implies grounded_at(
                st2.locs,
                #[trigger] st2.borrows[i],
            ) by {
                let i0: int = if i < bi {
                    i
                } else {
                    i + 1
                };
                assert(st2.borrows[i] == st.borrows[i0]);
                let b2 = st.borrows[i0];
                assert(grounded_at(st.locs, b2));
                if b2.source == b.source {
                    assert(has_borrow_on(remaining, b.source));
                } else {
                    assert(st.locs[loc_idx(st.locs, b2.source)].id == b2.source);
                    assert(loc_idx(st.locs, b2.source) != k);
                    assert(loc_of(st2.locs, b2.source) == loc_of(st.locs, b2.source));
                }
            }
        }
    }
}

proof fn lemma_drop_safety(st: StoreModel, id: u64)
    requires
        safety_inv(st),
    ensures
        safety_inv(spec_drop(st, id).st),
{
    let r = spec_drop(st, id);
    if r.out is Accepted {
        let st2 = r.st;
        let k = loc_idx(st.locs, id);
        assert(0 <= k < st.locs.len() && st.locs[k].id == id);
        // ownership is present, so no borrow is alive on `id`
        assert forall|i: int| 0 <= i < st.borrows.len() implies (#[trigger] st.borrows[i]).source
            != id by {
            if st.borrows[i].source == id {
                assert(grounded_at(st.locs, st.borrows[i]));
            }
        }
        lemma_locs_remove(st.locs, st2.locs, k);
        assert forall|i: int| 0 <= i < st2.borrows.len() implies grounded_at(
            st2.locs,
            #[trigger] st2.borrows[i],
        ) by {
            let b = st.borrows[i];
            assert(grounded_at(st.locs, b));
            assert(b.source != id);
            assert(has_loc(st2.locs, b.source));
            assert(loc_of(st2.locs, b.source) == loc_of(st.locs, b.source));
        }
    }
}

proof fn lemma_split_safety(st: StoreModel, src: u64, first: u64, rest: u64)
    requires
        safety_inv(st),
    ensures
        safety_inv(spec_split(st, src, first, rest).st),
{
    let r = spec_split(st, src, first, rest);
    if r.out is Accepted {
        let st2 = r.st;
        let k = loc_idx(st.locs, src);
        let e = loc_of(st.locs, src);
        let dead = LocEntry { perms: PermSet::empty(), prior: PermSet::empty(), moved: true, ..e };
        let part1 = LocEntry {
            id: first,
            kind: e.kind,
            perms: PermSet::full(),
            prior: PermSet::full(),
            moved: false,
        };
        let part2 = LocEntry { id: rest, ..part1 };
        let mid1 = st.locs.update(k, dead);
        let mid2 = mid1.push(part1);
        lemma_locs_update(st.locs, mid1, k, dead);
        lemma_locs_push(mid1, mid2, part1);
        lemma_locs_push(mid2, st2.locs, part2);
        assert forall|i: int| 0 <= i < st2.borrows.len() implies grounded_at(
            st2.locs,
            #[trigger] st2.borrows[i],
        ) by {
            let b = st.borrows[i];
            assert(grounded_at(st.locs, b));
            assert(b.source != src);
            assert(st.locs[loc_idx(st.locs, b.source)].id == b.source);
            assert(loc_idx(st.locs, b.source) != k);
            assert(loc_of(mid1, b.source) == loc_of(st.locs, b.source));
            assert(loc_of(mid2, b.source) == loc_of(mid1, b.source));
            assert(loc_of(st2.locs, b.source) == loc_of(mid2, b.source));
        }
    }
}

/// One step of the model keeps every reachable state safe: location
/// identities stay distinct, borrows stay grounded, and a unique borrow
/// never shares its source with any other live borrow.
pub proof fn lemma_step_safety(st: StoreModel, op: Op)
    requires
        safety_inv(st),
    ensures
        safety_inv(spec_step(st, op).st),
{
    match op {
        Op::Declare { loc, kind } => lemma_declare_safety(st, loc, kind),
        Op::Move { from, to } => lemma_move_safety(st, from, to),
        Op::BorrowShared { source } => lemma_borrow_safety(st, source, BorrowKind::Shared),
        Op::BorrowUnique { source } => lemma_borrow_safety(st, source, BorrowKind::Unique),
        Op::EndBorrow { borrow } => lemma_end_borrow_safety(st, borrow),
        Op::Read { loc } => {},
        Op::Write { loc } => {},
        Op::DropLoc { loc } => lemma_drop_safety(st, loc),
        Op::Split { source, first, rest } => lemma_split_safety(st, source, first, rest),
    }
}

/// One step also keeps borrow identities distinct and below the coining
/// counter, as long as the counter has room to grow.
pub proof fn lemma_step_ids(st: StoreModel, op: Op)
    requires
        id_inv(st),
        st.next_borrow <= u64::MAX,
    ensures
        id_inv(spec_step(st, op).st),
{
    let st2 = spec_step(st, op).st;
    match op {
        Op::BorrowShared { source } | Op::BorrowUnique { source } => {
            if spec_step(st, op).out is Accepted {
                let n = st.borrows.len() as int;
                assert forall|i: int, j: int|
                    0 <= i < st2.borrows.len() && 0 <= j < st2.borrows.len() && (
                    #[trigger] st2.borrows[i]).id == (#[trigger] st2.borrows[j]).id implies i
                    == j by {
                    if i < n && j == n {
                        assert(st.borrows[i].id < st.next_borrow);
                    } else if j < n && i == n {
                        assert(st.borrows[j].id < st.next_borrow);
                    }
                }
            }
        },
        Op::EndBorrow { borrow } => {
            if has_borrow(st.borrows, borrow) {
                let bi = borrow_idx(st.borrows, borrow);
                st.borrows.remove_ensures(bi);
                assert forall|i: int, j: int|
                    0 <= i < st2.borrows.len() && 0 <= j < st2.borrows.len() && (
                    #[trigger] st2.borrows[i]).id == (#[trigger] st2.borrows[j]).id implies i
                    == j by {
                    let i0: int = if i < bi {
                        i
                    } else {
                        i + 1
                    };
                    let j0: int = if j < bi {
                        j
                    } else {
                        j + 1
                    };
                    assert(st2.borrows[i] == st.borrows[i0]);
                    assert(st2.borrows[j] == st.borrows[j0]);
                }
                assert forall|i: int| 0 <= i < st2.borrows.len() implies (
                #[trigger] st2.borrows[i]).id < st2.next_borrow by {
                    let i0: int = if i < bi {
                        i
                    } else {
                        i + 1
                    };
                    assert(st2.borrows[i] == st.borrows[i0]);
                }
            }
        },
        _ => {},
    }
}

/// The coining counter grows by at most one per step.
pub proof fn lemma_step_next(st: StoreModel, op: Op)
    ensures
        st.next_borrow <= spec_step(st, op).st.next_borrow <= st.next_borrow + 1,
{
}

/// A fresh store is safe and well-identified.
pub proof fn lemma_init_inv()
    ensures
        safety_inv(init_store()),
        id_inv(init_store()),
        store_inv(init_store()),
{
}

/// Every state a script reaches from a safe state is safe.
pub proof fn lemma_run_safety(st: StoreModel, ops: Seq<Op>)
    requires
        safety_inv(st),
    ensures
        safety_inv(run_state(st, ops)),
    decreases ops.len(),
{
    if ops.len() > 0 {
        lemma_step_safety(st, ops[0]);
        lemma_run_safety(spec_step(st, ops[0]).st, ops.skip(1));
    }
}

} // verus!
