//! The operation interpreter: replay an ordered script against a fresh
//! store and report one verdict per operation, in order, continuing past
//! rejected operations.

use vstd::prelude::*;

use crate::inv::{lemma_init_inv, lemma_step_next};
use crate::model::{init_store, run_outs, run_state, spec_step, StoreModel};
use crate::ops::{LocKind, Op, Outcome};
use crate::store::Store;

verus! {

/// Running a concatenated script is running its halves in turn.
pub proof fn lemma_run_app(st: StoreModel, a: Seq<Op>, b: Seq<Op>)
    ensures
        run_state(st, a + b) == run_state(run_state(st, a), b),
        run_outs(st, a + b) == run_outs(st, a) + run_outs(run_state(st, a), b),
    decreases a.len(),
{
    if a.len() == 0 {
        assert(a + b =~= b);
        assert(run_outs(st, a) + run_outs(st, b) =~= run_outs(st, b));
    } else {
        let st1 = spec_step(st, a[0]).st;
        assert((a + b)[0] == a[0]);
        assert((a + b).skip(1) =~= a.skip(1) + b);
        lemma_run_app(st1, a.skip(1), b);
        assert(seq![spec_step(st, a[0]).out] + (run_outs(st1, a.skip(1)) + run_outs(
            run_state(st1, a.skip(1)),
            b,
        )) =~= (seq![spec_step(st, a[0]).out] + run_outs(st1, a.skip(1))) + run_outs(
            run_state(st1, a.skip(1)),
            b,
        ));
    }
}

/// Extending a prefix by one operation applies one more step.
pub proof fn lemma_run_snoc(st: StoreModel, ops: Seq<Op>, i: int)
    requires
        0 <= i < ops.len(),
    ensures
        run_state(st, ops.take(i + 1)) == spec_step(run_state(st, ops.take(i)), ops[i]).st,
        run_outs(st, ops.take(i + 1)) == run_outs(st, ops.take(i)).push(
            spec_step(run_state(st, ops.take(i)), ops[i]).out,
        ),
{
    let a = ops.take(i);
    let b = seq![ops[i]];
    assert(ops.take(i + 1) =~= a + b);
    lemma_run_app(st, a, b);
    let sta = run_state(st, a);
    let st1 = spec_step(sta, ops[i]).st;
    assert(b[0] == ops[i]);
    assert(b.skip(1) =~= Seq::<Op>::empty());
    assert(run_state(st1, Seq::<Op>::empty()) == st1);
    assert(run_state(sta, b) == run_state(st1, b.skip(1)));
    assert(run_outs(st1, Seq::<Op>::empty()) == Seq::<Outcome>::empty());
    assert(run_outs(sta, b) == seq![spec_step(sta, b[0]).out] + run_outs(st1, b.skip(1)));
    assert(run_outs(sta, b) =~= seq![spec_step(sta, ops[i]).out]);
    assert(run_outs(st, a).push(spec_step(sta, ops[i]).out) =~= run_outs(st, a) + seq![
        spec_step(sta, ops[i]).out,
    ]);
}

/// A script yields exactly one verdict per operation.
pub proof fn lemma_run_outs_len(st: StoreModel, ops: Seq<Op>)
    ensures
        run_outs(st, ops).len() == ops.len(),
    decreases ops.len(),
{
    if ops.len() > 0 {
        lemma_run_outs_len(spec_step(st, ops[0]).st, ops.skip(1));
    }
}

/// Replay `script` against a fresh store.
///
/// The result is one verdict per operation, in script order; a rejected
/// operation is recorded and interpretation continues with the next one.
/// The whole verdict sequence is a mathematical function of the script,
/// so two replays of one script cannot differ.
pub fn replay(script: &Vec<Op>) -> (outs: Vec<Outcome>)
    ensures
        outs@ == run_outs(init_store(), script@),
        outs@.len() == script@.len(),
{
    proof {
        lemma_run_outs_len(init_store(), script@);
    }
    let mut store = Store::new();
    let mut outs: Vec<Outcome> = Vec::new();
    let n = script.len();
    let mut i: usize = 0;
    proof {
        lemma_init_inv();
        assert(script@.take(0) =~= Seq::<Op>::empty());
    }
    while i < n
        invariant
            i <= n,
            n == script@.len(),
            store.inv(),
            store@.next_borrow <= i,
            store@ == run_state(init_store(), script@.take(i as int)),
            outs@ == run_outs(init_store(), script@.take(i as int)),
        decreases n - i,
    {
        let op = script[i];
        proof {
            lemma_run_snoc(init_store(), script@, i as int);
            lemma_step_next(store@, op);
        }
        let out = store.step(op);
        outs.push(out);
        i += 1;
    }
    proof {
        assert(script@.take(n as int) =~= script@);
    }
    outs
}

/// The script `recap` walks through: the whole ownership story in one
/// pass.  A location is declared and read; its ownership moves away, so a
/// later read of it is illegal; the new owner is lent out shared, so
/// writing it during the loan is illegal, and legal again once the loan
/// ends; finally the owner is dropped.
pub open spec fn recap_script() -> Seq<Op> {
    seq![
        Op::Declare { loc: 1, kind: LocKind::Owning },
        Op::Read { loc: 1 },
        Op::Move { from: 1, to: 2 },
        Op::Read { loc: 1 },
        Op::BorrowShared { source: 2 },
        Op::Write { loc: 2 },
        Op::EndBorrow { borrow: 0 },
        Op::Write { loc: 2 },
        Op::DropLoc { loc: 2 },
    ]
}

/// Replay the built-in walkthrough script and hand back its verdicts.
pub fn recap() -> (outs: Vec<Outcome>)
    ensures
        outs@ == run_outs(init_store(), recap_script()),
{
    let mut script: Vec<Op> = Vec::new();
    script.push(Op::Declare { loc: 1, kind: LocKind::Owning });
    script.push(Op::Read { loc: 1 });
    script.push(Op::Move { from: 1, to: 2 });
    script.push(Op::Read { loc: 1 });
    script.push(Op::BorrowShared { source: 2 });
    script.push(Op::Write { loc: 2 });
    script.push(Op::EndBorrow { borrow: 0 });
    script.push(Op::Write { loc: 2 });
    script.push(Op::DropLoc { loc: 2 });
    proof {
        assert(script@ =~= recap_script());
    }
    replay(&script)
}

} // verus!
