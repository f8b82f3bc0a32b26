//! The laws of the permission model, each proved from the transition
//! functions alone.

use vstd::prelude::*;

use crate::inv::{
    borrows_exclusive, grounded_at, lemma_init_inv, lemma_locs_push, lemma_locs_remove,
    lemma_locs_update, lemma_run_safety, lemma_step_safety, safety_inv, store_inv,
};
use crate::model::{
    borrow_idx, borrow_of, has_borrow, has_borrow_on, has_loc, init_store, loc_idx, loc_of,
    run_outs, run_state, spec_borrow, spec_end_borrow, spec_move, spec_step, StoreModel,
};
use crate::ops::{BorrowEntry, BorrowKind, ErrKind, LocEntry, Op, Outcome, PermSet};

verus! {

/// At every prefix of a script replayed from a fresh store, at most one
/// unique borrow of any location is alive.
pub proof fn lemma_at_most_one_unique(script: Seq<Op>, k: int)
    requires
        0 <= k <= script.len(),
    ensures
        ({
            let borrows = run_state(init_store(), script.take(k)).borrows;
            forall|i: int, j: int|
                0 <= i < borrows.len() && 0 <= j < borrows.len() && (#[trigger] borrows[i]).source
                    == (#[trigger] borrows[j]).source && borrows[i].kind == BorrowKind::Unique
                    && borrows[j].kind == BorrowKind::Unique ==> i == j
        }),
{
    lemma_init_inv();
    lemma_run_safety(init_store(), script.take(k));
}

/// At every prefix of a script replayed from a fresh store, a unique
/// borrow and a shared borrow of one location are never simultaneously
/// alive.
pub proof fn lemma_no_unique_shared_overlap(script: Seq<Op>, k: int)
    requires
        0 <= k <= script.len(),
    ensures
        ({
            let borrows = run_state(init_store(), script.take(k)).borrows;
            forall|i: int, j: int|
                0 <= i < borrows.len() && 0 <= j < borrows.len() && (#[trigger] borrows[i]).kind
                    == BorrowKind::Unique && (#[trigger] borrows[j]).kind == BorrowKind::Shared
                    ==> borrows[i].source != borrows[j].source
        }),
{
    lemma_init_inv();
    lemma_run_safety(init_store(), script.take(k));
    let borrows = run_state(init_store(), script.take(k)).borrows;
    assert forall|i: int, j: int|
        0 <= i < borrows.len() && 0 <= j < borrows.len() && (#[trigger] borrows[i]).kind
            == BorrowKind::Unique && (#[trigger] borrows[j]).kind == BorrowKind::Shared implies borrows[i].source
        != borrows[j].source by {
        if borrows[i].source == borrows[j].source {
            assert(i != j);
            assert(borrows_exclusive(borrows));
        }
    }
}

/// Replaying one script against two fresh stores yields identical verdict
/// sequences: the verdicts are a mathematical function of the script.
pub proof fn lemma_replay_deterministic(st1: StoreModel, st2: StoreModel, script: Seq<Op>)
    requires
        st1 == init_store(),
        st2 == init_store(),
    ensures
        run_outs(st1, script) == run_outs(st2, script),
{
}

/// A unique borrow followed immediately by its matching end restores
/// exactly the permission state the source had before the borrow: same
/// permission set, same liveness, every other location untouched, and the
/// borrow set back to what it was.
pub proof fn lemma_borrow_round_trip(st: StoreModel, src: u64)
    requires
        store_inv(st),
        st.next_borrow < u64::MAX,
        spec_borrow(st, src, BorrowKind::Unique).out is Accepted,
    ensures
        ({
            let r1 = spec_borrow(st, src, BorrowKind::Unique);
            let bid = st.next_borrow as u64;
            let r2 = spec_end_borrow(r1.st, bid);
            &&& r2.out == Outcome::Accepted { created: None }
            &&& r2.st.borrows == st.borrows
            &&& has_loc(r2.st.locs, src)
            &&& loc_of(r2.st.locs, src).perms == loc_of(st.locs, src).perms
            &&& loc_of(r2.st.locs, src).moved == loc_of(st.locs, src).moved
            &&& loc_of(r2.st.locs, src).id == src
            &&& forall|x: u64| #[trigger] has_loc(r2.st.locs, x) <==> has_loc(st.locs, x)
            &&& forall|x: u64|
                x != src && has_loc(st.locs, x) ==> (#[trigger] loc_of(r2.st.locs, x)) == loc_of(
                    st.locs,
                    x,
                )
        }),
{
    let r1 = spec_borrow(st, src, BorrowKind::Unique);
    let bid = st.next_borrow as u64;
    let e = loc_of(st.locs, src);
    let k = loc_idx(st.locs, src);
    assert(0 <= k < st.locs.len() && st.locs[k].id == src);
    let lent = LocEntry { perms: PermSet::empty(), prior: e.perms, ..e };
    let newb = BorrowEntry { id: bid, source: src, kind: BorrowKind::Unique };
    let locs1 = st.locs.update(k, lent);
    let borrows1 = st.borrows.push(newb);
    assert(r1.st.locs == locs1);
    assert(r1.st.borrows == borrows1);
    lemma_locs_update(st.locs, locs1, k, lent);
    let n = st.borrows.len() as int;
    assert(borrows1[n].id == bid);
    assert(has_borrow(borrows1, bid));
    assert forall|m: int| 0 <= m < borrows1.len() && (#[trigger] borrows1[m]).id == bid implies m
        == n by {
        if m < n {
            assert(st.borrows[m].id < st.next_borrow);
        }
    }
    let bi = borrow_idx(borrows1, bid);
    assert(borrows1[bi].id == bid);
    assert(bi == n);
    assert(borrow_of(borrows1, bid) == newb);
    let remaining = borrows1.remove(n);
    assert(remaining =~= st.borrows);
    assert(!has_borrow_on(st.borrows, src));
    assert(!has_borrow_on(remaining, src));
    let r2 = spec_end_borrow(r1.st, bid);
    let k1 = loc_idx(locs1, src);
    assert(k1 == k);
    let e1 = loc_of(locs1, src);
    assert(e1 == lent);
    let restored = LocEntry { perms: lent.prior, ..lent };
    let locs2 = locs1.update(k, restored);
    assert(r2.st.locs == locs2);
    lemma_locs_update(locs1, locs2, k, restored);
    assert(loc_of(locs2, src) == restored);
    assert forall|x: u64| #[trigger] has_loc(locs2, x) <==> has_loc(st.locs, x) by {}
    assert forall|x: u64| x != src && has_loc(st.locs, x) implies (#[trigger] loc_of(locs2, x))
        == loc_of(st.locs, x) by {
        assert(st.locs[loc_idx(st.locs, x)].id == x);
        assert(loc_idx(st.locs, x) != k);
        assert(loc_of(locs1, x) == loc_of(st.locs, x));
        assert(loc_idx(locs1, x) == loc_idx(st.locs, x));
        assert(loc_of(locs2, x) == loc_of(locs1, x));
    }
}

/// Any read, write, drop, or borrow of a location whose ownership was
/// consumed by a move is rejected as a use after move, and leaves the
/// store unchanged.
pub proof fn lemma_use_after_move_rejected(st: StoreModel, op: Op, id: u64)
    requires
        has_loc(st.locs, id),
        loc_of(st.locs, id).moved,
        op == (Op::Read { loc: id }) || op == (Op::Write { loc: id }) || op == (Op::DropLoc {
            loc: id,
        }) || op == (Op::BorrowShared { source: id }) || op == (Op::BorrowUnique { source: id }),
    ensures
        spec_step(st, op).out == (Outcome::Rejected { kind: ErrKind::UseAfterMove, loc: id }),
        spec_step(st, op).st == st,
{
    assert(st.locs[loc_idx(st.locs, id)].id == id);
}

/// An accepted move marks its source as consumed.
pub proof fn lemma_move_consumes(st: StoreModel, from: u64, to: u64)
    requires
        safety_inv(st),
        spec_move(st, from, to).out is Accepted,
    ensures
        has_loc(spec_move(st, from, to).st.locs, from),
        loc_of(spec_move(st, from, to).st.locs, from).moved,
{
    let k = loc_idx(st.locs, from);
    let src = loc_of(st.locs, from);
    let dead = LocEntry { perms: PermSet::empty(), prior: PermSet::empty(), moved: true, ..src };
    let dst = LocEntry {
        id: to,
        kind: src.kind,
        perms: PermSet::full(),
        prior: PermSet::full(),
        moved: false,
    };
    let mid = st.locs.update(k, dead);
    lemma_locs_update(st.locs, mid, k, dead);
    lemma_locs_push(mid, spec_move(st, from, to).st.locs, dst);
}

#[verifier::rlimit(60)]
proof fn lemma_moved_step(st: StoreModel, op: Op, id: u64)
    requires
        safety_inv(st),
        has_loc(st.locs, id),
        loc_of(st.locs, id).moved,
    ensures
        has_loc(spec_step(st, op).st.locs, id),
        loc_of(spec_step(st, op).st.locs, id).moved,
{
    let st2 = spec_step(st, op).st;
    let k0 = loc_idx(st.locs, id);
    assert(0 <= k0 < st.locs.len() && st.locs[k0].id == id);
    match op {
        Op::Declare { loc, kind } => {
            if !has_loc(st.locs, loc) {
                let e = LocEntry {
                    id: loc,
                    kind,
                    perms: PermSet::full(),
                    prior: PermSet::full(),
                    moved: false,
                };
                lemma_locs_push(st.locs, st2.locs, e);
            }
        },
        Op::Move { from, to } => {
            if spec_step(st, op).out is Accepted {
                let k = loc_idx(st.locs, from);
                let src = loc_of(st.locs, from);
                let dead = LocEntry {
                    perms: PermSet::empty(),
                    prior: PermSet::empty(),
                    moved: true,
                    ..src
                };
                let dst = LocEntry {
                    id: to,
                    kind: src.kind,
                    perms: PermSet::full(),
                    prior: PermSet::full(),
                    moved: false,
                };
                let mid = st.locs.update(k, dead);
                lemma_locs_update(st.locs, mid, k, dead);
                lemma_locs_push(mid, st2.locs, dst);
                assert(from != id);
                assert(loc_idx(st.locs, id) != k);
            }
        },
        Op::BorrowShared { source } | Op::BorrowUnique { source } => {
            if spec_step(st, op).out is Accepted {
                assert(source != id);
                let k = loc_idx(st.locs, source);
                assert(st.locs[k].id == source);
                assert(k != k0);
                let e2 = st2.locs[k];
                lemma_locs_update(st.locs, st2.locs, k, e2);
                assert(loc_idx(st.locs, id) != k);
            }
        },
        Op::EndBorrow { borrow } => {
            if has_borrow(st.borrows, borrow) {
                let b = borrow_of(st.borrows, borrow);
                let bi = borrow_idx(st.borrows, borrow);
                assert(0 <= bi < st.borrows.len() && st.borrows[bi].id == borrow);
                assert(grounded_at(st.locs, b));
                let remaining = st.borrows.remove(bi);
                if !has_borrow_on(remaining, b.source) {
                    assert(b.source != id);
                    let k = loc_idx(st.locs, b.source);
                    assert(st.locs[k].id == b.source);
                    assert(k != k0);
                    let e2 = st2.locs[k];
                    lemma_locs_update(st.locs, st2.locs, k, e2);
                    assert(loc_idx(st.locs, id) != k);
                }
            }
        },
        Op::Read { .. } => {},
        Op::Write { .. } => {},
        Op::DropLoc { loc } => {
            if spec_step(st, op).out is Accepted {
                assert(loc != id);
                let k = loc_idx(st.locs, loc);
                assert(st.locs[k].id == loc);
                lemma_locs_remove(st.locs, st2.locs, k);
            }
        },
        Op::Split { source, first, rest } => {
            if spec_step(st, op).out is Accepted {
                assert(source != id);
                let k = loc_idx(st.locs, source);
                let e = loc_of(st.locs, source);
                let dead = LocEntry {
                    perms: PermSet::empty(),
                    prior: PermSet::empty(),
                    moved: true,
                    ..e
                };
                let part1 = LocEntry {
                    id: first,
                    kind: e.kind,
                    perms: PermSet::full(),
                    prior: PermSet::full(),
                    moved: false,
                };
                let part2 = LocEntry { id: rest, ..part1 };
                let mid1 = st.locs.update(k, dead);
                let mid2 = mid1.push(part1);
                lemma_locs_update(st.locs, mid1, k, dead);
                lemma_locs_push(mid1, mid2, part1);
                lemma_locs_push(mid2, st2.locs, part2);
                assert(loc_idx(st.locs, id) != k);
            }
        },
    }
}

/// A consumed location stays consumed: whatever a script does next, the
/// location remains present and moved-from, so every later read, write,
/// drop, or borrow of it keeps being rejected.
pub proof fn lemma_moved_persists(st: StoreModel, ops: Seq<Op>, id: u64)
    requires
        safety_inv(st),
        has_loc(st.locs, id),
        loc_of(st.locs, id).moved,
    ensures
        has_loc(run_state(st, ops).locs, id),
        loc_of(run_state(st, ops).locs, id).moved,
    decreases ops.len(),
{
    if ops.len() > 0 {
        lemma_step_safety(st, ops[0]);
        lemma_moved_step(st, ops[0], id);
        lemma_moved_persists(spec_step(st, ops[0]).st, ops.skip(1), id);
    }
}

} // verus!
