use ownership::{ErrKind, LocKind, Outcome, Store};

fn accepted(created: Option<u64>) -> Outcome {
    Outcome::Accepted { created }
}

fn rejected(kind: ErrKind, loc: u64) -> Outcome {
    Outcome::Rejected { kind, loc }
}

#[test]
fn declare_twice_is_duplicate() {
    let mut s = Store::new();
    assert_eq!(s.declare(1, LocKind::Owning), accepted(Some(1)));
    assert_eq!(s.declare(1, LocKind::Owning), rejected(ErrKind::DuplicateLocation, 1));
}

#[test]
fn unknown_identities_are_reported() {
    let mut s = Store::new();
    assert_eq!(s.read(3), rejected(ErrKind::UnknownLocation, 3));
    assert_eq!(s.write(3), rejected(ErrKind::UnknownLocation, 3));
    assert_eq!(s.drop_loc(3), rejected(ErrKind::UnknownLocation, 3));
    assert_eq!(s.move_loc(3, 4), rejected(ErrKind::UnknownLocation, 3));
    assert_eq!(s.borrow_shared(3), rejected(ErrKind::UnknownLocation, 3));
    assert_eq!(s.borrow_unique(3), rejected(ErrKind::UnknownLocation, 3));
    assert_eq!(s.end_borrow(0), rejected(ErrKind::UnknownLocation, 0));
    assert_eq!(s.split(3, 4, 5), rejected(ErrKind::UnknownLocation, 3));
}

#[test]
fn dropped_location_becomes_unknown() {
    let mut s = Store::new();
    assert_eq!(s.declare(1, LocKind::Owning), accepted(Some(1)));
    assert_eq!(s.drop_loc(1), accepted(None));
    assert_eq!(s.read(1), rejected(ErrKind::UnknownLocation, 1));
    // the identity may be declared anew once the location is gone
    assert_eq!(s.declare(1, LocKind::Owning), accepted(Some(1)));
}

#[test]
fn drop_needs_ownership() {
    let mut s = Store::new();
    assert_eq!(s.declare(1, LocKind::Owning), accepted(Some(1)));
    assert_eq!(s.borrow_shared(1), accepted(Some(0)));
    // ownership is suspended while the borrow is alive
    assert_eq!(s.drop_loc(1), rejected(ErrKind::PermissionDenied, 1));
    assert_eq!(s.end_borrow(0), accepted(None));
    assert_eq!(s.drop_loc(1), accepted(None));
}

#[test]
fn every_use_after_move_is_flagged() {
    let mut s = Store::new();
    assert_eq!(s.declare(1, LocKind::Owning), accepted(Some(1)));
    assert_eq!(s.move_loc(1, 2), accepted(Some(2)));
    assert_eq!(s.read(1), rejected(ErrKind::UseAfterMove, 1));
    assert_eq!(s.write(1), rejected(ErrKind::UseAfterMove, 1));
    assert_eq!(s.drop_loc(1), rejected(ErrKind::UseAfterMove, 1));
    assert_eq!(s.borrow_shared(1), rejected(ErrKind::UseAfterMove, 1));
    assert_eq!(s.borrow_unique(1), rejected(ErrKind::UseAfterMove, 1));
    assert_eq!(s.move_loc(1, 3), rejected(ErrKind::UseAfterMove, 1));
    assert_eq!(s.split(1, 3, 4), rejected(ErrKind::UseAfterMove, 1));
}

#[test]
fn moving_onto_an_existing_identity_is_duplicate() {
    let mut s = Store::new();
    assert_eq!(s.declare(1, LocKind::Owning), accepted(Some(1)));
    assert_eq!(s.declare(2, LocKind::Owning), accepted(Some(2)));
    assert_eq!(s.move_loc(1, 2), rejected(ErrKind::DuplicateLocation, 2));
    // the failed move changed nothing
    assert_eq!(s.read(1), accepted(None));
}

#[test]
fn moving_a_borrowed_location_is_rejected() {
    let mut s = Store::new();
    assert_eq!(s.declare(1, LocKind::Owning), accepted(Some(1)));
    assert_eq!(s.borrow_shared(1), accepted(Some(0)));
    assert_eq!(s.move_loc(1, 2), rejected(ErrKind::UseAfterMove, 1));
    assert_eq!(s.end_borrow(0), accepted(None));
    assert_eq!(s.move_loc(1, 2), accepted(Some(2)));
}

#[test]
fn shared_borrows_coexist_and_keep_read_access() {
    let mut s = Store::new();
    assert_eq!(s.declare(1, LocKind::Owning), accepted(Some(1)));
    assert_eq!(s.borrow_shared(1), accepted(Some(0)));
    assert_eq!(s.borrow_shared(1), accepted(Some(1)));
    assert_eq!(s.read(1), accepted(None));
    assert_eq!(s.write(1), rejected(ErrKind::BorrowConflict, 1));
    // one loan ends: the other still pins the location
    assert_eq!(s.end_borrow(0), accepted(None));
    assert_eq!(s.write(1), rejected(ErrKind::BorrowConflict, 1));
    assert_eq!(s.end_borrow(1), accepted(None));
    assert_eq!(s.write(1), accepted(None));
}

#[test]
fn unique_borrow_suspends_even_reads() {
    let mut s = Store::new();
    assert_eq!(s.declare(1, LocKind::Owning), accepted(Some(1)));
    assert_eq!(s.borrow_unique(1), accepted(Some(0)));
    assert_eq!(s.read(1), rejected(ErrKind::BorrowConflict, 1));
    assert_eq!(s.write(1), rejected(ErrKind::BorrowConflict, 1));
    assert_eq!(s.borrow_unique(1), rejected(ErrKind::BorrowConflict, 1));
    assert_eq!(s.end_borrow(0), accepted(None));
    assert_eq!(s.read(1), accepted(None));
}

#[test]
fn shared_then_unique_conflicts() {
    let mut s = Store::new();
    assert_eq!(s.declare(1, LocKind::Owning), accepted(Some(1)));
    assert_eq!(s.borrow_shared(1), accepted(Some(0)));
    assert_eq!(s.borrow_unique(1), rejected(ErrKind::BorrowConflict, 1));
}

#[test]
fn borrow_identities_are_coined_in_order() {
    let mut s = Store::new();
    assert_eq!(s.declare(1, LocKind::Owning), accepted(Some(1)));
    assert_eq!(s.declare(2, LocKind::Owning), accepted(Some(2)));
    assert_eq!(s.borrow_shared(1), accepted(Some(0)));
    assert_eq!(s.borrow_shared(2), accepted(Some(1)));
    assert_eq!(s.end_borrow(0), accepted(None));
    // identities are never reused, even after a borrow ends
    assert_eq!(s.borrow_shared(1), accepted(Some(2)));
}

#[test]
fn ending_a_borrow_twice_is_unknown() {
    let mut s = Store::new();
    assert_eq!(s.declare(1, LocKind::Owning), accepted(Some(1)));
    assert_eq!(s.borrow_shared(1), accepted(Some(0)));
    assert_eq!(s.end_borrow(0), accepted(None));
    assert_eq!(s.end_borrow(0), rejected(ErrKind::UnknownLocation, 0));
}

#[test]
fn split_consumes_the_source() {
    let mut s = Store::new();
    assert_eq!(s.declare(1, LocKind::Owning), accepted(Some(1)));
    assert_eq!(s.split(1, 2, 3), accepted(None));
    assert_eq!(s.read(1), rejected(ErrKind::UseAfterMove, 1));
    assert_eq!(s.write(2), accepted(None));
    assert_eq!(s.read(3), accepted(None));
}

#[test]
fn split_parts_are_independent() {
    let mut s = Store::new();
    assert_eq!(s.declare(1, LocKind::Owning), accepted(Some(1)));
    assert_eq!(s.split(1, 2, 3), accepted(None));
    assert_eq!(s.borrow_unique(2), accepted(Some(0)));
    // mutation through one part no longer conflicts with the other
    assert_eq!(s.write(3), accepted(None));
    assert_eq!(s.read(3), accepted(None));
}

#[test]
fn split_rejects_borrowed_sources_and_taken_names() {
    let mut s = Store::new();
    assert_eq!(s.declare(1, LocKind::Owning), accepted(Some(1)));
    assert_eq!(s.declare(9, LocKind::Owning), accepted(Some(9)));
    assert_eq!(s.borrow_shared(1), accepted(Some(0)));
    assert_eq!(s.split(1, 2, 3), rejected(ErrKind::BorrowConflict, 1));
    assert_eq!(s.end_borrow(0), accepted(None));
    assert_eq!(s.split(1, 9, 3), rejected(ErrKind::DuplicateLocation, 9));
    assert_eq!(s.split(1, 2, 9), rejected(ErrKind::DuplicateLocation, 9));
    assert_eq!(s.split(1, 2, 2), rejected(ErrKind::DuplicateLocation, 2));
    assert_eq!(s.split(1, 2, 3), accepted(None));
}

#[test]
fn failed_borrow_changes_nothing() {
    let mut s = Store::new();
    assert_eq!(s.declare(1, LocKind::Owning), accepted(Some(1)));
    assert_eq!(s.borrow_unique(1), accepted(Some(0)));
    assert_eq!(s.borrow_shared(1), rejected(ErrKind::BorrowConflict, 1));
    // the rejected borrow neither coined an identity nor touched state
    assert_eq!(s.end_borrow(1), rejected(ErrKind::UnknownLocation, 1));
    assert_eq!(s.end_borrow(0), accepted(None));
    assert_eq!(s.write(1), accepted(None));
}
