use ownership::{ErrKind, LocKind, Op, Outcome, Store};

fn accepted(created: Option<u64>) -> Outcome {
    Outcome::Accepted { created }
}

fn rejected(kind: ErrKind, loc: u64) -> Outcome {
    Outcome::Rejected { kind, loc }
}

#[test]
fn safe_unswapped_reads() {
    let script = vec![
        Op::Declare { loc: 1, kind: LocKind::Owning },
        Op::Read { loc: 1 },
        Op::Read { loc: 1 },
    ];
    let outs = ownership::replay(&script);
    assert_eq!(
        outs,
        vec![accepted(Some(1)), accepted(None), accepted(None)]
    );
}

#[test]
fn move_then_use_is_rejected() {
    let script = vec![
        Op::Declare { loc: 1, kind: LocKind::Owning },
        Op::Move { from: 1, to: 2 },
        Op::Read { loc: 1 },
    ];
    let outs = ownership::replay(&script);
    assert_eq!(outs[1], accepted(Some(2)));
    assert_eq!(outs[2], rejected(ErrKind::UseAfterMove, 1));
}

#[test]
fn aliasing_plus_mutation_is_rejected_until_borrow_ends() {
    let script = vec![
        Op::Declare { loc: 10, kind: LocKind::Owning },
        Op::BorrowShared { source: 10 },
        Op::Write { loc: 10 },
        Op::EndBorrow { borrow: 0 },
        Op::Write { loc: 10 },
    ];
    let outs = ownership::replay(&script);
    assert_eq!(outs[0], accepted(Some(10)));
    assert_eq!(outs[1], accepted(Some(0)));
    assert_eq!(outs[2], rejected(ErrKind::BorrowConflict, 10));
    assert_eq!(outs[3], accepted(None));
    assert_eq!(outs[4], accepted(None));
}

#[test]
fn conservative_collection_aliasing_without_split() {
    // one path for the whole collection: a second borrow conflicts even
    // though it would touch a different element
    let script = vec![
        Op::Declare { loc: 7, kind: LocKind::Owning },
        Op::BorrowUnique { source: 7 },
        Op::BorrowShared { source: 7 },
    ];
    let outs = ownership::replay(&script);
    assert_eq!(outs[1], accepted(Some(0)));
    assert_eq!(outs[2], rejected(ErrKind::BorrowConflict, 7));
}

#[test]
fn split_makes_disjoint_parts_borrowable() {
    let script = vec![
        Op::Declare { loc: 7, kind: LocKind::Owning },
        Op::Split { source: 7, first: 8, rest: 9 },
        Op::BorrowUnique { source: 8 },
        Op::BorrowShared { source: 9 },
    ];
    let outs = ownership::replay(&script);
    assert_eq!(outs[1], accepted(None));
    assert_eq!(outs[2], accepted(Some(0)));
    assert_eq!(outs[3], accepted(Some(1)));
}

#[test]
fn borrow_end_restores_write_permission() {
    let script = vec![
        Op::Declare { loc: 4, kind: LocKind::Owning },
        Op::BorrowUnique { source: 4 },
        Op::EndBorrow { borrow: 0 },
        Op::Write { loc: 4 },
    ];
    let outs = ownership::replay(&script);
    assert_eq!(
        outs,
        vec![accepted(Some(4)), accepted(Some(0)), accepted(None), accepted(None)]
    );
}

#[test]
fn replay_is_deterministic() {
    let script = vec![
        Op::Declare { loc: 1, kind: LocKind::Owning },
        Op::Declare { loc: 2, kind: LocKind::Owning },
        Op::BorrowShared { source: 1 },
        Op::BorrowShared { source: 1 },
        Op::Write { loc: 1 },
        Op::Move { from: 2, to: 3 },
        Op::Read { loc: 2 },
        Op::EndBorrow { borrow: 0 },
        Op::EndBorrow { borrow: 1 },
        Op::DropLoc { loc: 1 },
        Op::DropLoc { loc: 3 },
    ];
    let first = ownership::replay(&script);
    let second = ownership::replay(&script);
    assert_eq!(first, second);
    assert_eq!(first.len(), script.len());
}

#[test]
fn recap_walks_the_ownership_story() {
    let outs = ownership::recap();
    assert_eq!(
        outs,
        vec![
            accepted(Some(1)),
            accepted(None),
            accepted(Some(2)),
            rejected(ErrKind::UseAfterMove, 1),
            accepted(Some(0)),
            rejected(ErrKind::BorrowConflict, 2),
            accepted(None),
            accepted(None),
            accepted(None),
        ]
    );
}

#[test]
fn rejected_operations_do_not_stop_the_script() {
    let script = vec![
        Op::Read { loc: 99 },
        Op::Declare { loc: 1, kind: LocKind::Owning },
        Op::Declare { loc: 1, kind: LocKind::Owning },
        Op::Read { loc: 1 },
    ];
    let outs = ownership::replay(&script);
    assert_eq!(outs.len(), 4);
    assert_eq!(outs[0], rejected(ErrKind::UnknownLocation, 99));
    assert_eq!(outs[1], accepted(Some(1)));
    assert_eq!(outs[2], rejected(ErrKind::DuplicateLocation, 1));
    assert_eq!(outs[3], accepted(None));
}

#[test]
fn reference_locations_are_tracked_like_owning_ones() {
    let mut s = Store::new();
    assert_eq!(s.declare(5, LocKind::Reference), accepted(Some(5)));
    assert_eq!(s.read(5), accepted(None));
    assert_eq!(s.move_loc(5, 6), accepted(Some(6)));
    assert_eq!(s.read(5), rejected(ErrKind::UseAfterMove, 5));
    assert_eq!(s.read(6), accepted(None));
}
