use pg_turbovec::bytes::{decode_u32s, decode_u64s};
use pg_turbovec::chain::Action;
use pg_turbovec::flush::reconcile_flush_image;
use pg_turbovec::flush_write::{reconcile_and_write_flush, DiskRows, FlushError, Snapshot};
use pg_turbovec::page::MetaPageData;
use pg_turbovec::relfile::{PreparedParts, WriteError, WritePlan};

fn v(id: u64) -> u8 {
    (id & 0xff) as u8
}

#[test]
fn upsert_new_id_appends_onto_current_disk() {
    let disk_codes = vec![v(10), v(11)];
    let disk_scales = vec![10.0f32, 11.0];
    let disk_ids = vec![10u64, 11];
    let snap_codes = vec![v(10), v(11), v(12)];
    let snap_scales = vec![10.0f32, 11.0, 12.0];
    let snap_ids = vec![10u64, 11, 12];
    let touched = vec![12u64];
    let (c, s, i) = reconcile_flush_image(
        1,
        &disk_codes,
        &disk_scales,
        &disk_ids,
        &snap_codes,
        &snap_scales,
        &snap_ids,
        &touched,
    );
    assert_eq!(i, vec![10, 11, 12]);
    assert_eq!(c, vec![v(10), v(11), v(12)]);
    assert_eq!(s, vec![10.0, 11.0, 12.0]);
}

#[test]
fn vacuum_delete_is_not_resurrected() {
    let disk_codes = vec![v(10), v(13)];
    let disk_scales = vec![10.0f32, 13.0];
    let disk_ids = vec![10u64, 13];
    let snap_codes = vec![v(10), v(11), v(12), v(13), v(99)];
    let snap_scales = vec![10.0f32, 11.0, 12.0, 13.0, 99.0];
    let snap_ids = vec![10u64, 11, 12, 13, 99];
    let touched = vec![99u64];
    let (c, s, i) = reconcile_flush_image(
        1,
        &disk_codes,
        &disk_scales,
        &disk_ids,
        &snap_codes,
        &snap_scales,
        &snap_ids,
        &touched,
    );
    assert_eq!(
        i,
        vec![10, 13, 99],
        "vacuum-deleted 11 and 12 must stay deleted"
    );
    assert_eq!(c, vec![v(10), v(13), v(99)]);
    assert_eq!(s, vec![10.0, 13.0, 99.0]);
    assert!(!i.contains(&11));
    assert!(!i.contains(&12));
}

#[test]
fn on_conflict_update_overwrites_in_place_no_dup() {
    let disk_codes = vec![v(10), v(11)];
    let disk_scales = vec![10.0f32, 11.0];
    let disk_ids = vec![10u64, 11];
    let snap_codes = vec![v(10), 0xAB, v(12)];
    let snap_scales = vec![10.0f32, 111.0, 12.0];
    let snap_ids = vec![10u64, 11, 12];
    let touched = vec![11u64, 12u64];
    let (c, s, i) = reconcile_flush_image(
        1,
        &disk_codes,
        &disk_scales,
        &disk_ids,
        &snap_codes,
        &snap_scales,
        &snap_ids,
        &touched,
    );
    assert_eq!(i, vec![10, 11, 12]);
    assert_eq!(
        c,
        vec![v(10), 0xAB, v(12)],
        "id 11's codes updated in place"
    );
    assert_eq!(s, vec![10.0, 111.0, 12.0]);
    assert_eq!(i.iter().filter(|&&x| x == 11).count(), 1);
}

#[test]
fn duplicate_touched_id_last_write_wins() {
    let disk_codes: Vec<u8> = vec![v(10)];
    let disk_scales = vec![10.0f32];
    let disk_ids = vec![10u64];
    let snap_codes = vec![v(10), 0xCD];
    let snap_scales = vec![10.0f32, 12.5];
    let snap_ids = vec![10u64, 12];
    let touched = vec![12u64, 12u64, 12u64];
    let (c, s, i) = reconcile_flush_image(
        1,
        &disk_codes,
        &disk_scales,
        &disk_ids,
        &snap_codes,
        &snap_scales,
        &snap_ids,
        &touched,
    );
    assert_eq!(i, vec![10, 12]);
    assert_eq!(c, vec![v(10), 0xCD]);
    assert_eq!(s, vec![10.0, 12.5]);
    assert_eq!(i.iter().filter(|&&x| x == 12).count(), 1);
}

#[test]
fn touched_id_that_the_snapshot_lacks_changes_nothing() {
    let (c, s, i) = reconcile_flush_image(
        2,
        &[1u8, 2, 3, 4],
        &[5u32, 6],
        &[10u64, 11],
        &[7u8, 8],
        &[9u32],
        &[12u64],
        &[77u64],
    );
    assert_eq!(i, vec![10, 11]);
    assert_eq!(c, vec![1, 2, 3, 4]);
    assert_eq!(s, vec![5, 6]);
}

#[test]
fn new_rows_follow_with_the_latest_touch_first() {
    let (c, s, i) = reconcile_flush_image(
        1,
        &[v(10)],
        &[0u32],
        &[10u64],
        &[1u8, 2, 3],
        &[1u32, 2, 3],
        &[21u64, 22, 23],
        &[23u64, 21, 23, 22],
    );
    assert_eq!(i, vec![10, 22, 23, 21]);
    assert_eq!(c, vec![v(10), 2, 3, 1]);
    assert_eq!(s, vec![0, 2, 3, 1]);
}

fn no_calibration() -> PreparedParts<'static> {
    PreparedParts { tqplus_shift: &[], tqplus_scale: &[] }
}

#[test]
fn flush_onto_an_empty_relation_writes_the_snapshot() {
    let codes: Vec<u8> = (0..8).collect();
    let snap = Snapshot { codes: &codes, scales: &[7, 8], ids: &[101, 102] };
    let plan = reconcile_and_write_flush(4, 8, None, snap, &[101, 102], 3, no_calibration(), 0)
        .unwrap();
    assert_eq!(plan.meta.n_vectors, 2);
    assert_eq!(plan.meta.am_version, 3);
    assert_eq!(plan.meta.total_blocks(), 4);
}

#[test]
fn flush_refuses_a_corrupt_id_table_on_disk() {
    let codes: Vec<u8> = (0..8).collect();
    let meta = MetaPageData::plan(4, 8, 2, 1).unwrap();
    let snap = Snapshot { codes: &codes, scales: &[7, 8], ids: &[101, 102] };
    let zero = DiskRows { meta, codes: &codes, scales: &[7, 8], ids: &[5, 0], tombstones: &[] };
    assert_eq!(
        reconcile_and_write_flush(4, 8, Some(zero), snap, &[], 3, no_calibration(), 0),
        Err(FlushError::CorruptIds { id: 0 })
    );
    let twice = DiskRows { meta, codes: &codes, scales: &[7, 8], ids: &[5, 5], tombstones: &[] };
    assert_eq!(
        reconcile_and_write_flush(4, 8, Some(twice), snap, &[], 3, no_calibration(), 0),
        Err(FlushError::CorruptIds { id: 5 })
    );
}

#[test]
fn flush_refuses_a_snapshot_row_without_an_id() {
    let codes: Vec<u8> = (0..8).collect();
    let snap = Snapshot { codes: &codes, scales: &[7, 8], ids: &[101, 0] };
    assert_eq!(
        reconcile_and_write_flush(4, 8, None, snap, &[101, 0], 3, no_calibration(), 0),
        Err(FlushError::Write(WriteError::ZeroId { slot: 1 }))
    );
}

#[test]
fn flush_keeps_disk_rows_and_adds_touched_ones() {
    let disk_codes: Vec<u8> = (0..8).collect();
    let meta = MetaPageData::plan(4, 8, 2, 1).unwrap();
    let disk =
        DiskRows { meta, codes: &disk_codes, scales: &[1, 2], ids: &[10, 13], tombstones: &[] };
    let snap_codes: Vec<u8> = (100..112).collect();
    let snap = Snapshot { codes: &snap_codes, scales: &[4, 5, 6], ids: &[10, 11, 99] };
    let plan =
        reconcile_and_write_flush(4, 8, Some(disk), snap, &[99], 9, no_calibration(), 4).unwrap();
    assert_eq!(plan.meta.n_vectors, 3);
    assert_eq!(plan.meta.am_version, 9);
}

/// The rows that a plan writes: codes, scales, ids.
fn planned_tables(plan: &WritePlan, stride: usize) -> (Vec<u8>, Vec<u32>, Vec<u64>) {
    let n = plan.meta.n_vectors as usize;
    // The chains are written further behind at first.
    let gap = plan
        .actions
        .iter()
        .filter_map(|a| match a {
            Action::WritePages(ws) => ws.iter().map(|w| w.blkno).min(),
            _ => None,
        })
        .min()
        .unwrap()
        - plan.meta.codes.first;
    let payload = |blkno: u32| {
        plan.actions
            .iter()
            .find_map(|a| match a {
                Action::WritePages(ws) => ws.iter().find(|w| w.blkno == gap + blkno),
                _ => None,
            })
            .map(|w| w.payload.clone())
            .unwrap()
    };
    let codes = payload(plan.meta.codes.first)[..n * stride].to_vec();
    let scales = decode_u32s(&payload(plan.meta.scales.first)[..n * 4]);
    let ids = decode_u64s(&payload(plan.meta.ids.first)[..n * 8]);
    (codes, scales, ids)
}

fn clustered_meta(n: u64) -> MetaPageData {
    let mut meta = MetaPageData::plan(4, 8, n, 1).unwrap();
    assert!(meta.set_ivf_chains(2, 64, 24));
    meta
}

#[test]
fn flush_onto_cells_keeps_deleted_rows_deleted() {
    let disk_codes: Vec<u8> = (0..16).collect();
    let meta = clustered_meta(4);
    // Slots 1 and 3 were deleted.
    let disk = DiskRows {
        meta,
        codes: &disk_codes,
        scales: &[1, 2, 3, 4],
        ids: &[10, 11, 12, 13],
        tombstones: &[0b1010],
    };
    let snap_codes: Vec<u8> = (100..120).collect();
    let snap =
        Snapshot { codes: &snap_codes, scales: &[5, 6, 7, 8, 9], ids: &[10, 11, 12, 13, 99] };
    let plan =
        reconcile_and_write_flush(4, 8, Some(disk), snap, &[99], 9, no_calibration(), 6).unwrap();
    let (codes, scales, ids) = planned_tables(&plan, 4);
    assert_eq!(ids, vec![10, 12, 99]);
    assert_eq!(scales, vec![1, 3, 9]);
    assert_eq!(codes, vec![0, 1, 2, 3, 8, 9, 10, 11, 116, 117, 118, 119]);
    assert_eq!(plan.meta.tombstone.count, 0);
    // A deleted number that is taken up again comes back with its new row.
    let plan =
        reconcile_and_write_flush(4, 8, Some(disk), snap, &[11], 9, no_calibration(), 6).unwrap();
    let (_, scales, ids) = planned_tables(&plan, 4);
    assert_eq!(ids, vec![10, 12, 11]);
    assert_eq!(scales, vec![1, 3, 6]);
}

#[test]
fn flush_onto_cells_that_share_a_row_writes_it_once() {
    let disk_codes: Vec<u8> = vec![1, 1, 1, 1, 2, 2, 2, 2, 1, 1, 1, 1];
    let disk = DiskRows {
        meta: clustered_meta(3),
        codes: &disk_codes,
        scales: &[7, 8, 7],
        ids: &[5, 6, 5],
        tombstones: &[],
    };
    let snap = Snapshot { codes: &[9, 9, 9, 9, 4, 4, 4, 4], scales: &[3, 2], ids: &[5, 77] };
    let plan =
        reconcile_and_write_flush(4, 8, Some(disk), snap, &[77, 5], 2, no_calibration(), 6).unwrap();
    let (codes, scales, ids) = planned_tables(&plan, 4);
    assert_eq!(ids, vec![5, 6, 77]);
    assert_eq!(scales, vec![3, 8, 2]);
    assert_eq!(codes, vec![9, 9, 9, 9, 2, 2, 2, 2, 4, 4, 4, 4]);
}

#[test]
fn flush_leaves_the_blocks_of_the_old_index_alone() {
    let disk_codes: Vec<u8> = (0..8).collect();
    let meta = MetaPageData::plan(4, 8, 2, 1).unwrap();
    let disk =
        DiskRows { meta, codes: &disk_codes, scales: &[1, 2], ids: &[10, 13], tombstones: &[] };
    let snap = Snapshot { codes: &[0; 4], scales: &[4], ids: &[99] };
    let plan =
        reconcile_and_write_flush(4, 8, Some(disk), snap, &[99], 9, no_calibration(), 4).unwrap();
    let marked = plan.actions.iter().position(|a| matches!(a, Action::WriteMeta(_))).unwrap();
    for a in &plan.actions[..marked] {
        match a {
            Action::WritePages(ws) => assert!(ws.iter().all(|w| w.blkno >= 4)),
            other => assert_eq!(other, &Action::ExtendTo(7)),
        }
    }
    // Once its meta page is there, the new index is moved to the front.
    assert_eq!(plan.meta.codes.first, 1);
    assert_eq!(plan.actions.last(), Some(&Action::Truncate(4)));
}
