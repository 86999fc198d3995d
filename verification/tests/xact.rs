use pg_turbovec::xact::{
    pre_commit, reconciled_row_count, validate_flush_snapshot, DirtyIndex, SnapshotError, XactAction,
    XactEvent, XactHooks,
};

#[test]
fn agreeing_counts_return_slot_len() {
    assert_eq!(reconciled_row_count(0, 0), Ok(0));
    assert_eq!(reconciled_row_count(128, 128), Ok(128));
    assert_eq!(reconciled_row_count(1_740_000, 1_740_000), Ok(1_740_000));
}

#[test]
fn mirror_over_counting_is_rejected() {
    assert_eq!(reconciled_row_count(129, 128), Err((129, 128)));
}

#[test]
fn mirror_under_counting_is_rejected() {
    assert_eq!(reconciled_row_count(127, 128), Err((127, 128)));
}

#[test]
fn authoritative_count_wins_when_they_agree() {
    let slot_len = 42usize;
    assert_eq!(reconciled_row_count(42, slot_len), Ok(slot_len as u64));
}


#[test]
fn a_sound_snapshot_has_its_row_count() {
    assert_eq!(validate_flush_snapshot(3, &[7, 8, 9]), Ok(3));
}

#[test]
fn drift_is_found_before_bad_ids() {
    assert_eq!(
        validate_flush_snapshot(3, &[7, 7]),
        Err(SnapshotError::Drift { mirror: 3, rows: 2 })
    );
    assert_eq!(
        validate_flush_snapshot(-1, &[]),
        Err(SnapshotError::Drift { mirror: -1, rows: 0 })
    );
}

#[test]
fn bad_ids_are_found() {
    assert_eq!(validate_flush_snapshot(2, &[7, 7]), Err(SnapshotError::BadId { id: 7 }));
    assert_eq!(validate_flush_snapshot(2, &[7, 0]), Err(SnapshotError::BadId { id: 0 }));
}

#[test]
fn one_faulty_index_keeps_all_from_being_flushed() {
    let good = DirtyIndex { rel_oid: 1, mirror: 1, ids: &[5] };
    let bad = DirtyIndex { rel_oid: 2, mirror: 2, ids: &[5] };
    let last = DirtyIndex { rel_oid: 3, mirror: 1, ids: &[6] };
    assert_eq!(
        pre_commit(&[good, bad, last]),
        Err((2, SnapshotError::Drift { mirror: 2, rows: 1 }))
    );
    let good = DirtyIndex { rel_oid: 1, mirror: 1, ids: &[5] };
    let last = DirtyIndex { rel_oid: 3, mirror: 1, ids: &[6] };
    assert_eq!(pre_commit(&[good, last]), Ok(vec![1, 3]));
    assert_eq!(pre_commit(&[]), Ok(vec![]));
}

#[test]
fn hooks_are_registered_once_per_transaction() {
    let mut hooks = XactHooks::new();
    assert_eq!(hooks.on(XactEvent::Insert), XactAction::Register);
    assert_eq!(hooks.on(XactEvent::Insert), XactAction::Rest);
    assert_eq!(hooks.on(XactEvent::AbortSub), XactAction::Forget);
    assert_eq!(hooks.on(XactEvent::Insert), XactAction::Rest);
    assert_eq!(hooks.on(XactEvent::PreCommit), XactAction::Flush);
    assert_eq!(hooks.on(XactEvent::Insert), XactAction::Register);
    assert_eq!(hooks.on(XactEvent::Abort), XactAction::Forget);
    assert_eq!(hooks.on(XactEvent::Insert), XactAction::Register);
}
