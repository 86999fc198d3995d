use pg_turbovec::knn::{
    after_collect, after_lookup, cache_bytes, check_knn, hit_rows, index_input, plan_search,
    search_ids, take_of, KnnError, SearchPlan,
};
use pg_turbovec::normalize::{check_self_score, random_unit_dim, SelfScoreError};
use pg_turbovec::phase2_knn::{
    ctid_to_u64, invalidate, invalidate_all, parse_ctid_text, quote_ident, u64_to_ctid, CacheEntry,
    CacheKey, IndexCache,
};
use pg_turbovec::sorting::sorted;
use pg_turbovec::tid::ItemPointer;

#[test]
fn requests_are_checked_in_order() {
    assert_eq!(check_knn(1, 4, 16), Ok(()));
    assert_eq!(check_knn(0, 9, 3), Err(KnnError::NonPositiveK));
    assert_eq!(check_knn(1, 5, 3), Err(KnnError::BadBitWidth));
    assert_eq!(check_knn(1, 2, 3), Err(KnnError::DimNotMultipleOfEight));
}

#[test]
fn ids_are_sorted_and_listed_once() {
    assert_eq!(search_ids(&[5, -1, 5, 3, -1]), vec![3, 5, u64::MAX]);
    assert!(search_ids(&[]).is_empty());
}

#[test]
fn searches_are_planned() {
    assert!(matches!(plan_search(0, 5, None), SearchPlan::Nothing));
    assert!(matches!(plan_search(2, 0, None), SearchPlan::Nothing));
    assert!(matches!(plan_search(2, 5, None), SearchPlan::All { k: 2 }));
    assert!(matches!(plan_search(2, 5, Some(&[])), SearchPlan::Nothing));
    match plan_search(9, 5, Some(&[4, 2, 4])) {
        SearchPlan::Among { k, ids } => assert_eq!((k, ids), (2, vec![2, 4])),
        _ => panic!("the list limits the search"),
    }
    match plan_search(1, 5, Some(&[4, 2])) {
        SearchPlan::Among { k, ids } => assert_eq!((k, ids), (1, vec![2, 4])),
        _ => panic!("the list limits the search"),
    }
}

#[test]
fn a_kept_index_is_searched_at_once() {
    assert!(after_lookup(3, None, None).is_none());
    assert!(matches!(after_lookup(3, Some(2), None), Some(SearchPlan::All { k: 2 })));
    assert!(matches!(after_lookup(3, Some(0), None), Some(SearchPlan::Nothing)));
}

#[test]
fn collected_rows_are_weighed_and_searched() {
    assert!(after_collect(3, 16, 4, 0, None).is_none());
    match after_collect(3, 16, 4, 10, None) {
        Some((bytes, SearchPlan::All { k })) => assert_eq!((bytes, k), (760, 3)),
        _ => panic!("there are rows"),
    }
    assert_eq!(cache_bytes(16, 4, 10), (8 + 4 + 64) * 10);
    assert_eq!(take_of(3, 2), 2);
    assert_eq!(take_of(3, 9), 3);
}

#[test]
fn an_index_is_built_of_rows_in_order() {
    let rows = vec![(7i64, vec![1u32, 2]), (-1, vec![3, 4])];
    assert_eq!(index_input(&rows), (vec![1, 2, 3, 4], vec![7, u64::MAX]));
    assert_eq!(hit_rows(&[u64::MAX, 7], &[50, 60]), vec![(-1, 50), (7, 60)]);
}

fn entry(rel_oid: u32, attnum: i16) -> CacheEntry<&'static str> {
    CacheEntry {
        key: CacheKey { rel_oid, attnum, bit_width: 4, dim: 8 },
        index: "index",
        fingerprint: 1,
    }
}

#[test]
fn a_table_loses_its_own_indexes_only() {
    let mut cache = IndexCache::new();
    for e in [entry(1, 1), entry(2, 1), entry(1, 2), entry(3, 1)] {
        cache.entries.push(e);
    }
    invalidate(&mut cache, 1);
    let left: Vec<u32> = cache.entries.iter().map(|e| e.key.rel_oid).collect();
    assert_eq!(left, vec![2, 3]);
    invalidate(&mut cache, 9);
    assert_eq!(cache.entries.len(), 2);
    invalidate_all(&mut cache);
    assert!(cache.entries.is_empty());
}

#[test]
fn row_numbers_lead_back_to_rows() {
    let ip = ItemPointer { block: 0xdead_beef, offset: 0xcafe };
    assert_eq!(ctid_to_u64(ip), 0xdead_beef_cafe);
    assert_eq!(u64_to_ctid(ctid_to_u64(ip)), ip);
    assert_eq!(u64_to_ctid(0x1234_0000_0001_0002), ItemPointer { block: 1, offset: 2 });
}

#[test]
fn row_names_are_read() {
    assert_eq!(parse_ctid_text("(3,7)"), (3 << 16) | 7);
    assert_eq!(parse_ctid_text("  ((12 , +5))  "), (12 << 16) | 5);
    assert_eq!(parse_ctid_text("(x,7)"), 7);
    assert_eq!(parse_ctid_text("(3)"), 3 << 16);
    assert_eq!(parse_ctid_text("(3,70000)"), 3 << 16);
    assert_eq!(parse_ctid_text("(4294967295,65535)"), 0xffff_ffff_ffff);
    assert_eq!(parse_ctid_text("(4294967296,1)"), 1);
    assert_eq!(parse_ctid_text(""), 0);
}

#[test]
fn names_are_quoted() {
    assert_eq!(quote_ident("col"), "\"col\"");
    assert_eq!(quote_ident("a\"b"), "\"a\"\"b\"");
    assert_eq!(quote_ident(""), "\"\"");
    assert_ne!(quote_ident("\""), quote_ident("\"\""));
}

#[test]
fn probes_of_the_quantiser_are_checked() {
    assert_eq!(check_self_score(8, 2), Ok(()));
    assert_eq!(check_self_score(7, 9), Err(SelfScoreError::DimNotMultipleOfEight));
    assert_eq!(check_self_score(8, 5), Err(SelfScoreError::BadBitWidth));
    assert_eq!(random_unit_dim(1), Some(1));
    assert_eq!(random_unit_dim(16_000), Some(16_000));
    assert_eq!(random_unit_dim(16_001), None);
    assert_eq!(random_unit_dim(0), None);
    assert_eq!(random_unit_dim(-3), None);
}

#[test]
fn numbers_are_sorted() {
    assert_eq!(sorted(&[3, 1, 2, 1]), vec![1, 1, 2, 3]);
    assert!(sorted(&[]).is_empty());
}
