use std::collections::HashSet;

use pg_turbovec::allowlist::parse_allowlist;
use pg_turbovec::cells::{apply_allowlist, apply_tombstones, search_mask, CellDirectory, CellEntry};
use pg_turbovec::page::{MetaPageData, KIND_COLBERT};
use pg_turbovec::scan::{
    admit_scan, IvfScan, OrderBy, Refill, RefillSettings, RescanError, ScanRefusal, ScanState,
    ScanStep,
};
use pg_turbovec::scan_load::{
    codes_bytes, first_fetch, first_k, first_warning, ivf_setup, load_by_cells, post_filter,
    try_install_ooc, wants_mirror, whole_index_bytes, widened_k, CellLoad, DimMismatch, FirstFetch,
};
use pg_turbovec::tid::{
    from_id, item_pointer_to_u64, tid_to_bigint, to_id, u64_to_item_pointer, ItemPointer,
};

fn meta(n: u64) -> MetaPageData {
    MetaPageData::plan(4, 8, n, 1).unwrap()
}

#[test]
fn scans_are_refused_by_what_the_index_is() {
    assert_eq!(admit_scan(&None), Some(ScanRefusal::EmptyFork));
    assert_eq!(admit_scan(&Some(meta(1))), None);
    let v1 = MetaPageData { version: 1, ..meta(1) };
    assert_eq!(admit_scan(&Some(v1)), Some(ScanRefusal::LegacyV1));
    let v2 = MetaPageData { version: 2, ..meta(1) };
    assert_eq!(admit_scan(&Some(v2)), Some(ScanRefusal::LegacyV2));
    assert_eq!(admit_scan(&Some(MetaPageData { version: 1, ..meta(0) })), None);
    let tokens = MetaPageData { kind: KIND_COLBERT, ..meta(1) };
    assert_eq!(admit_scan(&Some(tokens)), Some(ScanRefusal::Colbert));
}

#[test]
fn a_rescan_starts_over() {
    let mut st = ScanState::new();
    assert_eq!(st.rescan(OrderBy::Query { dim: 8 }), Ok(()));
    st.start(3, 2, None, None, &[5, 6], &[0, 0]);
    assert_eq!(st.next(), Some(5));
    assert_eq!(st.rescan(OrderBy::Null), Err(RescanError::NullQuery));
    assert_eq!(st.rescan(OrderBy::Undecodable), Err(RescanError::UndecodableQuery));
    assert_eq!(st.next(), Some(6));
    assert_eq!(st.rescan(OrderBy::Query { dim: 9 }), Ok(()));
    assert_eq!(st.query_dim, 9);
    assert!(!st.fetched && st.results.is_empty() && st.listed.is_empty());
    assert_eq!(st.rescan(OrderBy::Absent), Ok(()));
    assert!(st.fetched);
    assert_eq!(st.next(), None);
}

const ON: RefillSettings = RefillSettings { iterative: true, max_scan_tuples: 100, max_probes: 8 };

#[test]
fn a_flat_scan_grows_until_it_is_used_up() {
    let mut st = ScanState::new();
    st.start(5, 2, None, None, &[11, 12], &[0, 1]);
    assert_eq!(st.advance(None, ON), ScanStep::Emit { id: 11 });
    assert_eq!(st.advance(None, ON), ScanStep::Emit { id: 12 });
    let flat = |k| ScanStep::Search { refill: Refill::Flat { k } };
    assert_eq!(st.advance(None, ON), flat(4));
    // Rows that were given before are not given again.
    assert_eq!(
        st.advance(Some((&[12, 13, 11], &[0, 0, 0])), ON),
        ScanStep::Emit { id: 13 }
    );
    assert_eq!(st.advance(None, ON), flat(5));
    assert_eq!(st.advance(Some((&[11, 12, 13], &[0, 0, 0])), ON), ScanStep::Done);
    assert_eq!(st.plan_refill(ON), Refill::Exhausted);
    assert_eq!(st.distances.len(), st.results.len());
}

#[test]
fn a_scan_without_refills_ends_with_its_batch() {
    let off = RefillSettings { iterative: false, ..ON };
    let mut st = ScanState::new();
    st.start(5, 1, None, None, &[11], &[0]);
    assert_eq!(st.advance(None, off), ScanStep::Emit { id: 11 });
    assert_eq!(st.advance(None, off), ScanStep::Done);
}

#[test]
fn a_clustered_scan_widens_its_cells() {
    let mut st = ScanState::new();
    st.start(50, 4, Some(IvfScan { lists: 6, probes: 2 }), None, &[], &[]);
    let cells = |probes, widened, k| ScanStep::Search {
        refill: Refill::Cells { probes, widened, k },
    };
    assert_eq!(st.advance(None, ON), cells(4, true, 8));
    assert_eq!(st.advance(Some((&[], &[])), ON), cells(6, true, 16));
    assert_eq!(st.advance(Some((&[], &[])), ON), cells(6, false, 32));
    assert_eq!(st.advance(Some((&[], &[])), ON), cells(6, false, 50));
    assert_eq!(st.advance(Some((&[], &[])), ON), ScanStep::Done);
}

#[test]
fn a_row_that_a_search_lists_twice_is_given_once() {
    let mut st = ScanState::new();
    st.start(9, 3, Some(IvfScan { lists: 6, probes: 6 }), None, &[5, 6, 5], &[1, 2, 1]);
    assert_eq!(st.results, vec![5, 6]);
    assert_eq!(st.distances, vec![1, 2]);
    assert_eq!(st.advance(None, ON), ScanStep::Emit { id: 5 });
    assert_eq!(st.advance(None, ON), ScanStep::Emit { id: 6 });
    assert_eq!(
        st.advance(None, ON),
        ScanStep::Search { refill: Refill::Cells { probes: 6, widened: false, k: 6 } }
    );
    assert_eq!(
        st.advance(Some((&[5, 8, 8, 6, 7], &[1, 4, 4, 2, 3])), ON),
        ScanStep::Emit { id: 8 }
    );
    assert_eq!(st.advance(None, ON), ScanStep::Emit { id: 7 });
    assert_eq!(st.results, vec![5, 6, 8, 7]);
    assert_eq!(st.distances, vec![1, 2, 4, 3]);
}

#[test]
fn widening_does_not_take_the_candidates_past_their_cap() {
    let five = RefillSettings { iterative: true, max_scan_tuples: 5, max_probes: 10 };
    let mut st = ScanState::new();
    st.start(5, 5, Some(IvfScan { lists: 10, probes: 1 }), None, &[1], &[0]);
    assert_eq!(st.advance(None, five), ScanStep::Emit { id: 1 });
    let cells = |probes| ScanStep::Search {
        refill: Refill::Cells { probes, widened: true, k: 5 },
    };
    assert_eq!(st.advance(None, five), cells(2));
    assert_eq!(st.advance(Some((&[1], &[0])), five), cells(4));
    assert_eq!(st.advance(Some((&[], &[])), five), cells(8));
    assert_eq!(st.advance(Some((&[], &[])), five), cells(10));
    assert_eq!(st.advance(Some((&[], &[])), five), ScanStep::Done);
    assert_eq!(st.current_k, 5);
}

#[test]
fn a_finished_scan_is_fetched() {
    let mut st = ScanState::new();
    st.finish();
    assert!(st.fetched);
}

#[test]
fn a_scan_begins_by_what_is_there() {
    let m = meta(3);
    assert!(!wants_mirror(&m, 8) && wants_mirror(&m, 16) && wants_mirror(&meta(0), 8));
    assert_eq!(first_fetch(&None, 8, true), Ok(FirstFetch::Finish));
    assert_eq!(first_fetch(&Some(m), 8, true), Ok(FirstFetch::Load));
    assert_eq!(first_fetch(&Some(m), 16, true), Ok(FirstFetch::UseMirror));
    assert_eq!(
        first_fetch(&Some(m), 16, false),
        Err(DimMismatch { query: 16, index: 8 })
    );
    assert_eq!(first_fetch(&Some(meta(0)), 8, false), Ok(FirstFetch::Finish));
    assert_eq!(first_fetch(&Some(meta(0)), 8, true), Ok(FirstFetch::UseMirror));
}

#[test]
fn what_an_index_weighs() {
    assert_eq!(codes_bytes(&meta(10)), 40);
    let huge = MetaPageData { n_vectors: u64::MAX, dim: 1024, ..meta(1) };
    assert_eq!(codes_bytes(&huge), u64::MAX);
    assert_eq!(whole_index_bytes(8, 4, 10), 72 * 10);
    assert_eq!(whole_index_bytes(8, 4, 0), 72);
}

fn clustered() -> MetaPageData {
    let mut m = meta(10);
    assert!(m.set_ivf_chains(2, 64, 24));
    m
}

#[test]
fn a_load_by_cells_needs_everything_in_place() {
    let m = clustered();
    let load =
        CellLoad { centroids: 16, rotation: 64, directory_rows: Some(10), scales: 10, ids: 10 };
    assert_eq!(
        try_install_ooc(&m, load),
        Some(2 * 8 * 4 + 8 * 8 * 4 + 2 * 12 + 10 * 4 + 10 * 8 + 4096)
    );
    for bad in [
        CellLoad { centroids: 15, ..load },
        CellLoad { rotation: 0, ..load },
        CellLoad { directory_rows: Some(9), ..load },
        CellLoad { directory_rows: None, ..load },
        CellLoad { scales: 9, ..load },
        CellLoad { ids: 11, ..load },
    ] {
        assert_eq!(try_install_ooc(&m, bad), None);
    }
    assert!(!load_by_cells(&m, true));
    let mut prepared = m;
    prepared.set_codebook(&[1, 2], &[3]);
    assert!(load_by_cells(&prepared, true) && !load_by_cells(&prepared, false));
}

#[test]
fn a_scan_is_restricted_to_cells_where_it_can_be() {
    let m = clustered();
    let load =
        CellLoad { centroids: 16, rotation: 64, directory_rows: Some(10), scales: 0, ids: 0 };
    assert_eq!(ivf_setup(&Some(m), load, 10, 1), Some(IvfScan { lists: 2, probes: 1 }));
    assert_eq!(ivf_setup(&Some(m), load, 10, 0), Some(IvfScan { lists: 2, probes: 1 }));
    assert_eq!(ivf_setup(&Some(m), load, 10, 99), Some(IvfScan { lists: 2, probes: 2 }));
    assert_eq!(ivf_setup(&Some(m), load, 9, 1), None);
    assert_eq!(ivf_setup(&None, load, 10, 1), None);
    assert_eq!(ivf_setup(&Some(meta(10)), load, 10, 1), None);
    let degraded = MetaPageData { ivf_degraded: true, ..m };
    assert_eq!(ivf_setup(&Some(degraded), load, 10, 1), None);
}

#[test]
fn how_many_candidates_are_asked_for() {
    assert_eq!(first_k(32, 1000), 32);
    assert_eq!(first_k(32, 5), 5);
    assert_eq!(first_k(0, 5), 1);
    assert_eq!(first_k(3, 0), 1);
    assert_eq!(widened_k(4, 1000), 32);
    assert_eq!(widened_k(4, 10), 10);
    assert_eq!(widened_k(4, 2), 4);
    assert_eq!(widened_k(usize::MAX, 10), usize::MAX);
}

#[test]
fn a_plain_search_is_filtered_afterwards() {
    let allow: HashSet<u64> = [2, 4, 6].into_iter().collect();
    assert_eq!(post_filter(&[1, 2, 3, 4, 5, 6], &allow, 2), vec![1, 3]);
    assert_eq!(post_filter(&[1, 2, 3, 4, 5, 6], &allow, 9), vec![1, 3, 5]);
    assert!(post_filter(&[1, 3], &allow, 9).is_empty());
}

#[test]
fn a_warning_comes_once() {
    let mut warned = HashSet::new();
    assert!(first_warning(&mut warned, 7));
    assert!(!first_warning(&mut warned, 7));
    assert!(first_warning(&mut warned, 8));
}

fn directory() -> CellDirectory {
    CellDirectory {
        entries: vec![
            CellEntry { code_offset: 0, n_vectors: 2 },
            CellEntry { code_offset: 2, n_vectors: 3 },
            CellEntry { code_offset: 5, n_vectors: 1 },
        ],
    }
}

#[test]
fn only_probed_live_allowed_slots_are_searched() {
    let d = directory();
    assert_eq!(d.probe_mask(&[2, 0, 9], 6), vec![true, true, false, false, false, true]);
    let mut mask = vec![true; 3];
    apply_tombstones(&mut mask, &[0b010]);
    assert_eq!(mask, vec![true, false, true]);
    let allow: HashSet<u64> = [100, 102, 105].into_iter().collect();
    let mut mask = vec![true; 3];
    apply_allowlist(&mut mask, &[100, 101, 102], Some(&allow));
    assert_eq!(mask, vec![true, false, true]);
    let ids = [100, 101, 102, 103, 104, 105];
    assert_eq!(
        search_mask(&d, &[0, 1], &[0b1], &ids, Some(&allow), 6),
        vec![false, false, true, false, false, false]
    );
    // Probing more cells never drops a slot.
    assert_eq!(
        search_mask(&d, &[0, 1, 2], &[0b1], &ids, Some(&allow), 6),
        vec![false, false, true, false, false, true]
    );
    assert_eq!(search_mask(&d, &[1], &[], &ids, None, 6)[2..5], [true, true, true]);
    // Once every cell is probed, every row is searched.
    assert_eq!(search_mask(&d, &[2, 1, 0], &[], &ids, None, 6), vec![true; 6]);
}

#[test]
fn an_allowlist_is_read() {
    assert_eq!(parse_allowlist(None), Ok(None));
    assert_eq!(parse_allowlist(Some("  ")), Ok(None));
    assert_eq!(parse_allowlist(Some(" , ,")), Ok(None));
    let want: HashSet<u64> = [1, 42, u64::MAX].into_iter().collect();
    assert_eq!(parse_allowlist(Some(" 1, +42,-1 ,1,")), Ok(Some(want)));
}

#[test]
fn a_bad_token_of_an_allowlist_is_named() {
    assert_eq!(parse_allowlist(Some("1, 2x ,3")).unwrap_err().token, "2x");
    assert_eq!(
        parse_allowlist(Some("9223372036854775808")).unwrap_err().token,
        "9223372036854775808"
    );
    assert!(parse_allowlist(Some("9223372036854775807,-9223372036854775808")).is_ok());
}

#[test]
fn row_numbers_match_the_allowlist() {
    let rows = [
        ItemPointer { block: 3, offset: 7 },
        ItemPointer { block: u32::MAX, offset: 1 },
    ];
    let list: Vec<String> = rows.iter().map(|r| format!("{}", tid_to_bigint(*r))).collect();
    let set = parse_allowlist(Some(&list.join(","))).unwrap().unwrap();
    assert_eq!(set.len(), 2);
    for r in rows {
        assert!(set.contains(&item_pointer_to_u64(r)));
        assert_eq!(u64_to_item_pointer(item_pointer_to_u64(r)), r);
    }
    assert_eq!(tid_to_bigint(rows[0]), (3 << 32) | 7);
    assert_eq!(from_id(to_id(-5)), -5);
    assert_eq!(to_id(-1), u64::MAX);
}
