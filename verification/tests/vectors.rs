use pg_turbovec::sparsevec::{
    parse_sparsevec, sparsevec_coordinates, sparsevec_frame, sparsevec_text, ParseSparsevecError,
    Sparsevec, SparsevecError,
};
use pg_turbovec::sparsevec_ops::{sparse_walk, vector_to_sparsevec};
use pg_turbovec::tvector::{
    parse_tvector, tvector_text, tvector_tokens, tvector_values, DimsDiffer, ParseTvectorError,
    Tvector, TvectorError,
};

fn number(text: &str) -> Option<u32> {
    text.parse::<f32>().ok().map(|x| x.to_bits())
}

fn floats(bits: Vec<u32>) -> Vec<f32> {
    bits.into_iter().map(f32::from_bits).collect()
}

fn bits(values: &[f32]) -> Vec<u32> {
    values.iter().map(|x| x.to_bits()).collect()
}

fn parsed(s: &str) -> Result<Vec<f32>, ParseTvectorError> {
    parse_tvector(s, number).map(floats)
}

#[test]
fn parse_basic() {
    assert_eq!(parsed("[1, 2, 3]").unwrap(), vec![1.0, 2.0, 3.0]);
    assert_eq!(parsed("[ 1.5,-2.0 , 3 ]").unwrap(), vec![1.5, -2.0, 3.0]);
}

#[test]
fn parse_rejects() {
    assert!(parsed("").is_err());
    assert!(parsed("1, 2, 3").is_err());
    assert!(parsed("[1, 2,]").is_err());
    assert!(parsed("[]").is_err());
    assert!(parsed("[NaN]").is_err());
    assert!(parsed("[inf]").is_err());
}

#[test]
fn each_fault_of_a_list_has_its_error() {
    assert_eq!(parsed("  "), Err(ParseTvectorError::EmptyInput));
    assert_eq!(parsed("1]"), Err(ParseTvectorError::NoOpening));
    assert_eq!(parsed("["), Err(ParseTvectorError::NoClosing));
    assert_eq!(parsed("[1"), Err(ParseTvectorError::NoClosing));
    assert_eq!(parsed("[ \t]"), Err(ParseTvectorError::NoDimension));
    assert_eq!(parsed("[1,,x]"), Err(ParseTvectorError::EmptyValue { position: 1 }));
    assert_eq!(parsed("[1,x,]"), Err(ParseTvectorError::BadNumber { position: 1 }));
    assert_eq!(parsed("[1,2,-inf]"), Err(ParseTvectorError::NotFinite { position: 2 }));
}

#[test]
fn tokens_and_values_are_read_apart() {
    let tokens = tvector_tokens("[a , b]").unwrap();
    assert_eq!(tokens, vec!["a", "b"]);
    assert_eq!(tvector_values(&tokens, &[Some(1), Some(2)]), Ok(vec![1, 2]));
    assert_eq!(
        tvector_values(&tokens, &[Some(1), None]),
        Err(ParseTvectorError::BadNumber { position: 1 })
    );
}

#[test]
fn the_text_of_a_vector_reads_back() {
    let values = [1.5f32, -2.0, 3.0e20, 0.1];
    let texts: Vec<String> = values.iter().map(|x| format!("{}", x)).collect();
    let text = tvector_text(&texts);
    assert_eq!(&text[..9], "[1.5, -2,");
    assert_eq!(parsed(&text).unwrap(), values.to_vec());
    assert_eq!(tvector_text(&[]), "[]");
}

#[test]
fn vectors_are_checked_when_they_are_made() {
    assert_eq!(Tvector::from_vec(vec![]).unwrap_err(), TvectorError::Empty);
    assert_eq!(Tvector::from_vec(vec![0; 16_001]).unwrap_err(), TvectorError::TooMany);
    assert_eq!(
        Tvector::from_vec(bits(&[1.0, f32::NAN, f32::INFINITY])).unwrap_err(),
        TvectorError::NotFinite { index: 1 }
    );
    let v = Tvector::from_vec(bits(&[1.0, -0.0, f32::MAX])).unwrap();
    assert_eq!(v.dim(), 3);
    assert_eq!(v.as_slice(), &bits(&[1.0, -0.0, f32::MAX])[..]);
    assert!(Tvector::from_vec(vec![0; 16_000]).is_ok());
}

#[test]
fn vectors_of_other_dimensions_do_not_mix() {
    let a = Tvector::from_vec(vec![0; 3]).unwrap();
    let b = Tvector::from_vec(vec![0; 4]).unwrap();
    assert_eq!(a.check_same_dim(&a), Ok(()));
    assert_eq!(a.check_same_dim(&b), Err(DimsDiffer { left: 3, right: 4 }));
}

fn sparse(s: &str) -> Result<(i32, Vec<i32>, Vec<f32>), ParseSparsevecError> {
    parse_sparsevec(s, number).map(|(d, i, v)| (d, i, floats(v)))
}

#[test]
fn a_sparse_vector_is_read() {
    assert_eq!(sparse("{1:1.5, 5:2.25}/10"), Ok((10, vec![0, 4], vec![1.5, 2.25])));
    assert_eq!(sparse(" { 2 : -1 } / 3 "), Ok((3, vec![1], vec![-1.0])));
    assert_eq!(sparse("{}/7"), Ok((7, vec![], vec![])));
}

#[test]
fn each_fault_of_a_sparse_text_has_its_error() {
    assert_eq!(sparse("{1:2}"), Err(ParseSparsevecError::NoDim));
    assert_eq!(sparse("{1:2}/x"), Err(ParseSparsevecError::BadDim));
    assert_eq!(sparse("{1:2}/99999999999"), Err(ParseSparsevecError::BadDim));
    assert_eq!(sparse("1:2}/3"), Err(ParseSparsevecError::NoOpening));
    assert_eq!(sparse("/3"), Err(ParseSparsevecError::NoOpening));
    assert_eq!(sparse("{1:2/3"), Err(ParseSparsevecError::NoClosing));
    assert_eq!(sparse("{/3"), Err(ParseSparsevecError::NoClosing));
    assert_eq!(sparse("{1:2,3}/3"), Err(ParseSparsevecError::NoColon { position: 1 }));
    assert_eq!(sparse("{a:2}/3"), Err(ParseSparsevecError::BadIndex { position: 0 }));
    assert_eq!(
        sparse("{0:2}/3"),
        Err(ParseSparsevecError::IndexBelowOne { position: 0, index: 0 })
    );
    assert_eq!(sparse("{1:z,b:c}/3"), Err(ParseSparsevecError::BadValue { position: 0 }));
    assert_eq!(sparse("{1:1,2:NaN}/3"), Err(ParseSparsevecError::NotFinite { position: 1 }));
}

#[test]
fn coordinates_are_put_together_with_what_their_values_spell() {
    let (dim, tokens) = sparsevec_frame("{2:a, 4:b,x}/9").unwrap();
    assert_eq!((dim, tokens.len()), (9, 3));
    assert_eq!(sparsevec_coordinates(&tokens[..2], &[Some(7), Some(8)]), Ok((vec![1, 3], vec![7, 8])));
    assert_eq!(
        sparsevec_coordinates(&tokens[..2], &[Some(7), None]),
        Err(ParseSparsevecError::BadValue { position: 1 })
    );
    assert_eq!(
        sparsevec_coordinates(&tokens, &[Some(7), Some(8), Some(9)]),
        Err(ParseSparsevecError::NoColon { position: 2 })
    );
}

#[test]
fn sparse_vectors_are_checked_when_they_are_made() {
    let make = |d: i32, i: Vec<i32>, v: &[f32]| Sparsevec::new(d, i, bits(v)).map(|_| ());
    assert_eq!(make(0, vec![], &[]), Err(SparsevecError::DimOutOfRange));
    assert_eq!(make(1_000_000_001, vec![], &[]), Err(SparsevecError::DimOutOfRange));
    assert_eq!(
        make(3, vec![1], &[]),
        Err(SparsevecError::LengthMismatch { indices: 1, values: 0 })
    );
    assert_eq!(
        make(3, vec![1, 1], &[1.0, 1.0]),
        Err(SparsevecError::NotIncreasing { position: 1 })
    );
    assert_eq!(make(3, vec![-1], &[1.0]), Err(SparsevecError::NotIncreasing { position: 0 }));
    assert_eq!(make(3, vec![3], &[1.0]), Err(SparsevecError::IndexOutOfRange { position: 0 }));
    assert_eq!(
        make(3, vec![0, 2], &[1.0, f32::INFINITY]),
        Err(SparsevecError::NotFinite { position: 1 })
    );
    assert_eq!(make(1_000_000_000, vec![999_999_999], &[1.0]), Ok(()));
}

#[test]
fn the_dense_form_has_zeros_elsewhere() {
    let v = Sparsevec::new(5, vec![1, 3], bits(&[2.0, -4.0])).unwrap();
    assert_eq!(v.dim(), 5);
    assert_eq!(v.nnz(), 2);
    assert_eq!(floats(v.to_dense()), vec![0.0, 2.0, 0.0, -4.0, 0.0]);
}

#[test]
fn sparse_vectors_of_other_dimensions_do_not_mix() {
    let a = Sparsevec::new(5, vec![], vec![]).unwrap();
    let b = Sparsevec::new(6, vec![], vec![]).unwrap();
    assert!(a.check_same_dim(&a).is_ok());
    let e = a.check_same_dim(&b).unwrap_err();
    assert_eq!((e.left, e.right), (5, 6));
}

#[test]
fn the_text_of_a_sparse_vector_reads_back() {
    let v = Sparsevec::new(10, vec![0, 4, 9], bits(&[1.5, 2.25, -3.0])).unwrap();
    let texts: Vec<String> = v.values.iter().map(|x| format!("{}", f32::from_bits(*x))).collect();
    let text = sparsevec_text(&v, &texts);
    assert_eq!(text, "{1:1.5,5:2.25,10:-3}/10");
    assert_eq!(sparse(&text), Ok((10, vec![0, 4, 9], vec![1.5, 2.25, -3.0])));
    let none = Sparsevec::new(4, vec![], vec![]).unwrap();
    assert_eq!(sparsevec_text(&none, &[]), "{}/4");
}

#[test]
fn a_walk_visits_the_union_in_order() {
    let a = Sparsevec::new(9, vec![0, 3, 5], bits(&[1.0, 2.0, 3.0])).unwrap();
    let b = Sparsevec::new(9, vec![3, 4, 8], bits(&[10.0, 20.0, 30.0])).unwrap();
    let pairs: Vec<(f32, f32)> = sparse_walk(&a, &b)
        .into_iter()
        .map(|(x, y)| (f32::from_bits(x), f32::from_bits(y)))
        .collect();
    assert_eq!(
        pairs,
        vec![(1.0, 0.0), (2.0, 10.0), (0.0, 20.0), (3.0, 0.0), (0.0, 30.0)]
    );
    // The inner product over the walk is the one over all coordinates.
    let walked: f64 = pairs.iter().map(|(x, y)| f64::from(*x) * f64::from(*y)).sum();
    let dense: f64 = floats(a.to_dense())
        .iter()
        .zip(floats(b.to_dense()).iter())
        .map(|(x, y)| f64::from(*x) * f64::from(*y))
        .sum();
    assert_eq!(walked, 20.0);
    assert_eq!(walked, dense);
}

#[test]
fn the_sparse_form_keeps_what_is_not_zero() {
    let dense = bits(&[0.0, 1.0, -0.0, -2.5]);
    let v = vector_to_sparsevec(&dense);
    assert_eq!(v.dim, 4);
    assert_eq!(v.indices, vec![1, 3]);
    assert_eq!(floats(v.values.clone()), vec![1.0, -2.5]);
    assert_eq!(v.to_dense(), bits(&[0.0, 1.0, 0.0, -2.5]));
}
