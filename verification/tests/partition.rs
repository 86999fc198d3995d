use pg_turbovec::float_bits::{find_infinite, is_finite_f32, is_nan_f64, is_zero_f32};
use pg_turbovec::partition::{
    check_refresh, nearest_partitions, rank_distances, rank_nearest, row_values, usable_row,
    Metric, PartitionError, RefreshError,
};

fn bits(values: &[f32]) -> Vec<u32> {
    values.iter().map(|x| x.to_bits()).collect()
}

fn dot(a: &[f32], b: &[f32]) -> f64 {
    a.iter().zip(b).map(|(x, y)| f64::from(*x) * f64::from(*y)).sum()
}

fn distance(metric: Metric, query: &[u32], centroid: &[u32]) -> u64 {
    let q: Vec<f32> = query.iter().map(|x| f32::from_bits(*x)).collect();
    let c: Vec<f32> = centroid.iter().map(|x| f32::from_bits(*x)).collect();
    let d = match metric {
        Metric::Cosine => {
            let na = dot(&q, &q).sqrt();
            let nb = dot(&c, &c).sqrt();
            if na == 0.0 || nb == 0.0 {
                f64::NAN
            } else {
                1.0 - (dot(&q, &c) / (na * nb)).clamp(-1.0, 1.0)
            }
        }
        Metric::L2 => {
            let sq: f64 = q
                .iter()
                .zip(&c)
                .map(|(x, y)| (f64::from(*x) - f64::from(*y)) * (f64::from(*x) - f64::from(*y)))
                .sum();
            sq.sqrt()
        }
        Metric::NegInnerProduct => -dot(&q, &c),
    };
    d.to_bits()
}

fn ranked(query: &[f32], summaries: &[(i32, Vec<f32>)], k: usize, metric: Metric) -> Vec<i32> {
    let s: Vec<(i32, Vec<u32>)> = summaries.iter().map(|(key, c)| (*key, bits(c))).collect();
    rank_nearest(&bits(query), &s, k, metric, distance)
}

fn fixture() -> Vec<(i32, Vec<f32>)> {
    vec![
        (10, vec![0.0, 0.0]),
        (11, vec![10.0, 0.0]),
        (12, vec![0.0, 10.0]),
        (13, vec![10.0, 10.0]),
    ]
}

#[test]
fn rank_l2_picks_nearest_in_order() {
    let s = fixture();
    let q = [9.0f32, 1.0];
    let got = ranked(&q, &s, 4, Metric::L2);
    assert_eq!(got, vec![11, 10, 13, 12]);
}

#[test]
fn rank_respects_k() {
    let s = fixture();
    let q = [9.0f32, 1.0];
    assert_eq!(ranked(&q, &s, 2, Metric::L2), vec![11, 10]);
    assert_eq!(ranked(&q, &s, 1, Metric::L2), vec![11]);
}

#[test]
fn rank_edge_cases() {
    let s = fixture();
    let q = [0.0f32, 0.0];
    assert!(ranked(&q, &s, 0, Metric::L2).is_empty());
    assert_eq!(ranked(&q, &s, 99, Metric::L2).len(), 4);
    let empty: Vec<(i32, Vec<f32>)> = Vec::new();
    assert!(ranked(&q, &empty, 3, Metric::L2).is_empty());
}

#[test]
fn rank_cosine_ignores_magnitude() {
    let s = vec![(20, vec![1.0f32, 1.0]), (21, vec![5.0f32, 5.0])];
    let q = [2.0f32, 2.0];
    assert_eq!(ranked(&q, &s, 1, Metric::Cosine), vec![20]);
}

#[test]
fn rank_neg_ip_prefers_larger_dot() {
    let s = vec![(30, vec![1.0f32, 0.0]), (31, vec![3.0f32, 0.0])];
    let q = [1.0f32, 0.0];
    assert_eq!(ranked(&q, &s, 1, Metric::NegInnerProduct), vec![31]);
}

#[test]
fn rank_nan_sorts_last() {
    let s = vec![(40, vec![0.0f32, 0.0]), (41, vec![1.0f32, 1.0])];
    let q = [1.0f32, 1.0];
    assert_eq!(ranked(&q, &s, 2, Metric::Cosine), vec![41, 40]);
}

#[test]
fn metric_parse_forms() {
    assert_eq!(Metric::parse("<=>"), Some(Metric::Cosine));
    assert_eq!(Metric::parse(" Cosine "), Some(Metric::Cosine));
    assert_eq!(Metric::parse("<->"), Some(Metric::L2));
    assert_eq!(Metric::parse("L2"), Some(Metric::L2));
    assert_eq!(Metric::parse("<#>"), Some(Metric::NegInnerProduct));
    assert_eq!(Metric::parse("ip"), Some(Metric::NegInnerProduct));
    assert_eq!(Metric::parse("bogus"), None);
}

#[test]
fn every_name_of_a_metric_is_known() {
    for s in ["cos", "COSINE", "\u{3000}<=>\n"] {
        assert_eq!(Metric::parse(s), Some(Metric::Cosine));
    }
    assert_eq!(Metric::parse("Euclidean"), Some(Metric::L2));
    for s in ["inner_product", "NEG_IP"] {
        assert_eq!(Metric::parse(s), Some(Metric::NegInnerProduct));
    }
    assert_eq!(Metric::parse(""), None);
}

#[test]
fn distances_rank_as_numbers_do() {
    let values = [3.0f64, -1.0, f64::NAN, 0.0, -0.0, f64::NEG_INFINITY, 1e-310, f64::INFINITY];
    let keys: Vec<usize> = (0..values.len()).collect();
    let d: Vec<u64> = values.iter().map(|x| x.to_bits()).collect();
    assert_eq!(rank_distances(&keys, &d, 99), vec![5, 1, 3, 4, 6, 0, 7, 2]);
    let nans = [f64::NAN.to_bits(), (-f64::NAN).to_bits(), 1.0f64.to_bits()];
    assert_eq!(rank_distances(&[0, 1, 2], &nans, 3), vec![2, 0, 1]);
}

#[test]
fn many_distances_are_ranked() {
    let d: Vec<u64> = (0..1000u64).map(|i| (((i * 7919) % 1000) as f64).to_bits()).collect();
    let keys: Vec<u64> = (0..1000).collect();
    let order = rank_distances(&keys, &d, 1000);
    for w in order.windows(2) {
        assert!(f64::from_bits(d[w[0] as usize]) < f64::from_bits(d[w[1] as usize]));
    }
}

#[test]
fn partitions_are_chosen_or_refused() {
    let s: Vec<(u32, Vec<u32>)> =
        vec![(7, bits(&[0.0, 0.0])), (8, bits(&[5.0, 0.0])), (9, bits(&[1.0, 0.0]))];
    let q = bits(&[4.0, 0.0]);
    assert_eq!(nearest_partitions(&q, 2, "<->", &s, distance), Ok(vec![8, 9]));
    assert_eq!(
        nearest_partitions(&q, 0, "?", &s, distance),
        Err(PartitionError::NonPositiveK)
    );
    assert_eq!(
        nearest_partitions(&q, 1, "?", &[], distance),
        Err(PartitionError::UnknownMetric)
    );
    assert_eq!(
        nearest_partitions(&q, 1, "l2", &[], distance),
        Err(PartitionError::NoSummaries)
    );
    assert_eq!(
        nearest_partitions(&bits(&[1.0]), 1, "l2", &s, distance),
        Err(PartitionError::DimMismatch { query: 1, summary: 2 })
    );
}

#[test]
fn rows_that_cannot_be_used_are_left_out() {
    let one = 1.0f32.to_bits();
    assert_eq!(usable_row(&[Some(one), Some(one)], 2), Some(vec![one, one]));
    assert_eq!(usable_row(&[Some(one)], 2), None);
    assert_eq!(usable_row(&[Some(one), None], 2), None);
    assert_eq!(usable_row(&[Some(f32::NAN.to_bits()), Some(one)], 2), None);
    assert_eq!(row_values(&[Some(one), None], 5), vec![one, 5]);
}

#[test]
fn summaries_need_rows_and_partitions() {
    assert_eq!(check_refresh(0, 0), Err(RefreshError::NoRows));
    assert_eq!(check_refresh(8, 0), Err(RefreshError::NoPartitions));
    assert_eq!(check_refresh(8, 1), Ok(()));
}

#[test]
fn bit_patterns_tell_what_numbers_are() {
    for x in [0.0f32, -0.0, 1.0, f32::MIN, f32::MIN_POSITIVE, 1e-42] {
        assert!(is_finite_f32(x.to_bits()));
    }
    for x in [f32::NAN, f32::INFINITY, f32::NEG_INFINITY] {
        assert!(!is_finite_f32(x.to_bits()));
    }
    assert!(is_zero_f32(0.0f32.to_bits()) && is_zero_f32((-0.0f32).to_bits()));
    assert!(!is_zero_f32(1e-45f32.to_bits()));
    assert!(is_nan_f64(f64::NAN.to_bits()) && !is_nan_f64(f64::INFINITY.to_bits()));
    assert_eq!(find_infinite(&bits(&[1.0, f32::INFINITY, f32::NAN])), Some(1));
    assert_eq!(find_infinite(&bits(&[1.0])), None);
}
