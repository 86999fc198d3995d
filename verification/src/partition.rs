//! Which partitions of a table to search: those whose summaries lie nearest to the query.
//!
//! Distances are computed by the caller, as bit patterns of double-precision numbers; here they are
//! ranked.
use crate::float_bits::{
    finite_f32, is_finite_f32, is_nan_f64, keys_order_as_values, nan_f64, order_key,
    value_f64,
};
use crate::sorting::{ascending, sorted};
use crate::text::{chars_of, same_text, trim, trimmed};
use vstd::prelude::*;
use vstd::set_lib::{lemma_int_range, lemma_subset_equality, set_int_range};

verus! {

/// How a summary is compared with a query. Less is nearer in each case.
#[derive(Clone, Copy, Debug, PartialEq, Eq, Structural)]
pub enum Metric {
    /// `<=>`: one less the cosine of the angle.
    Cosine,
    /// `<->`: the Euclidean distance.
    L2,
    /// `<#>`: the inner product, negated.
    NegInnerProduct,
}

/// A letter in lower case, where it is one of the basic alphabet.
pub open spec fn lower_char(c: char) -> char {
    if 'A' <= c <= 'Z' {
        (c as u32 + 32) as char
    } else {
        c
    }
}

/// A text with its basic letters in lower case.
pub open spec fn lowered(s: Seq<char>) -> Seq<char> {
    s.map_values(|c: char| lower_char(c))
}

/// The metric that a text names.
pub open spec fn metric_named(s: Seq<char>) -> Option<Metric> {
    let t = lowered(trimmed(s));
    if t == "<=>"@ || t == "cosine"@ || t == "cos"@ {
        Some(Metric::Cosine)
    } else if t == "<->"@ || t == "l2"@ || t == "euclidean"@ {
        Some(Metric::L2)
    } else if t == "<#>"@ || t == "ip"@ || t == "inner_product"@ || t == "neg_ip"@ {
        Some(Metric::NegInnerProduct)
    } else {
        None
    }
}

fn lower(c: char) -> (r: char)
    ensures
        r == lower_char(c),
{
    if 'A' <= c && c <= 'Z' {
        ((c as u8) + 32) as char
    } else {
        c
    }
}

impl Metric {
    /// The metric that a text names, by its operator or by a word, in any case and with any space
    /// around it.
    pub fn parse(s: &str) -> (r: Option<Metric>)
        ensures
            r == metric_named(s@),
    {
        let chars: Vec<char> = chars_of(s);
        let body: &[char] = trim(chars.as_slice());
        let mut t: Vec<char> = Vec::new();
        let mut i: usize = 0;
        while i < body.len()
            invariant
                i <= body@.len(),
                t@ == lowered(body@.take(i as int)),
            decreases body@.len() - i,
        {
            t.push(lower(body[i]));
            proof {
                assert(body@.take(i + 1) =~= body@.take(i as int).push(body@[i as int]));
                assert(t@ =~= lowered(body@.take(i + 1)));
            }
            i += 1;
        }
        assert(body@.take(i as int) =~= body@);
        let t: &[char] = t.as_slice();
        if same_text(t, "<=>") || same_text(t, "cosine") || same_text(t, "cos") {
            Some(Metric::Cosine)
        } else if same_text(t, "<->") || same_text(t, "l2") || same_text(t, "euclidean") {
            Some(Metric::L2)
        } else if same_text(t, "<#>") || same_text(t, "ip") || same_text(t, "inner_product")
            || same_text(t, "neg_ip") {
            Some(Metric::NegInnerProduct)
        } else {
            None
        }
    }
}

/// Whether the `i`-th of these distances ranks before the `j`-th: a number before what is no number, a
/// less number before a greater, and otherwise what is listed earlier.
pub open spec fn ranks_before(distances: Seq<u64>, i: int, j: int) -> bool {
    let a = distances[i];
    let b = distances[j];
    if nan_f64(a) != nan_f64(b) {
        nan_f64(b)
    } else if !nan_f64(a) && value_f64(a) != value_f64(b) {
        value_f64(a) < value_f64(b)
    } else {
        i < j
    }
}

/// Whether `order` lists the places of all distances in rank order.
pub open spec fn is_ranking(order: Seq<int>, distances: Seq<u64>) -> bool {
    &&& order.len() == distances.len()
    &&& forall|m: int| 0 <= m < order.len() ==> 0 <= #[trigger] order[m] < distances.len()
    &&& forall|m: int, n: int|
        0 <= m < n < order.len() ==> ranks_before(
            distances,
            #[trigger] order[m],
            #[trigger] order[n],
        )
}

/// The keys of the first `k` places of a ranking, or of all where there are fewer.
pub open spec fn nearest_of<K>(keys: Seq<K>, order: Seq<int>, k: nat) -> Seq<K> {
    Seq::new(
        if k <= order.len() {
            k
        } else {
            order.len()
        },
        |m: int| keys[order[m]],
    )
}

/// A number that orders the distance at a place as its rank does.
spec fn rank_key(distance: u64, place: int) -> int {
    (if nan_f64(distance) {
        0xffff_ffff_ffff_ffff
    } else {
        order_key(distance) + 0x8000_0000_0000_0000
    }) * 0x1_0000_0000_0000_0000 + place
}

fn rank_key_of(distance: u64, place: u64) -> (r: u128)
    ensures
        r == rank_key(distance, place as int),
{
    let high: u64 = if is_nan_f64(distance) {
        0xffff_ffff_ffff_ffff
    } else if distance < 0x8000_0000_0000_0000 {
        distance + 0x8000_0000_0000_0000
    } else {
        0x8000_0000_0000_0000 - (distance - 0x8000_0000_0000_0000)
    };
    high as u128 * 0x1_0000_0000_0000_0000 + place as u128
}

proof fn lemma_rank_key(distances: Seq<u64>, i: int, j: int)
    requires
        0 <= i < distances.len() <= u64::MAX,
        0 <= j < distances.len(),
        rank_key(distances[i], i) < rank_key(distances[j], j),
    ensures
        ranks_before(distances, i, j),
{
    keys_order_as_values(distances[i], distances[j]);
}

proof fn lemma_rank_key_place(distance: u64, place: int)
    requires
        0 <= place <= u64::MAX,
    ensures
        rank_key(distance, place) % 0x1_0000_0000_0000_0000 == place,
{
}

/// The places of distances in rank order.
fn rank_places(distances: &[u64]) -> (r: Vec<usize>)
    ensures
        is_ranking(r@.map_values(|p: usize| p as int), distances@),
{
    let n: usize = distances.len();
    let mut keys: Vec<u128> = Vec::new();
    let mut i: usize = 0;
    while i < n
        invariant
            i <= n,
            n == distances@.len(),
            keys@.len() == i,
            forall|m: int| 0 <= m < i ==> #[trigger] keys@[m] == rank_key(distances@[m], m),
        decreases n - i,
    {
        keys.push(rank_key_of(distances[i], i as u64));
        i += 1;
    }
    let ranked: Vec<u128> = sorted(keys.as_slice());
    proof {
        assert(n <= usize::MAX);
        lemma_sorted_keys(distances@, keys@, ranked@);
    }
    let mut out: Vec<usize> = Vec::new();
    let mut m: usize = 0;
    while m < ranked.len()
        invariant
            m <= ranked@.len(),
            ranked@.len() == n,
            n == distances@.len(),
            out@.len() == m,
            forall|p: int|
                0 <= p < n ==> 0 <= place_of(#[trigger] ranked@[p]) < n && ranked@[p] == rank_key(
                    distances@[place_of(ranked@[p])],
                    place_of(ranked@[p]),
                ),
            forall|p: int| 0 <= p < m ==> #[trigger] out@[p] == place_of(ranked@[p]),
        decreases n - m,
    {
        assert(0 <= place_of(ranked@[m as int]) < n);
        out.push((ranked[m] % 0x1_0000_0000_0000_0000) as usize);
        m += 1;
    }
    proof {
        let order = out@.map_values(|p: usize| p as int);
        assert forall|a: int, b: int| 0 <= a < b < order.len() implies ranks_before(
            distances@,
            #[trigger] order[a],
            #[trigger] order[b],
        ) by {
            assert(out@[a] == place_of(ranked@[a]));
            assert(out@[b] == place_of(ranked@[b]));
            assert(ranked@[a] < ranked@[b]);
            lemma_rank_key(distances@, order[a], order[b]);
        }
        assert forall|a: int| 0 <= a < order.len() implies 0 <= #[trigger] order[a]
            < distances@.len() by {
            assert(out@[a] == place_of(ranked@[a]));
        }
    }
    out
}

spec fn place_of(key: u128) -> int {
    key as int % 0x1_0000_0000_0000_0000
}

/// Sorted keys are keys of distances, each once.
proof fn lemma_sorted_keys(distances: Seq<u64>, keys: Seq<u128>, ranked: Seq<u128>)
    requires
        distances.len() <= u64::MAX,
        keys.len() == distances.len(),
        forall|m: int| 0 <= m < keys.len() ==> #[trigger] keys[m] == rank_key(distances[m], m),
        ascending(ranked),
        ranked.to_multiset() == keys.to_multiset(),
    ensures
        ranked.len() == distances.len(),
        forall|p: int|
            0 <= p < ranked.len() ==> 0 <= place_of(#[trigger] ranked[p]) < distances.len()
                && ranked[p] == rank_key(distances[place_of(ranked[p])], place_of(ranked[p])),
        forall|a: int, b: int|
            0 <= a < b < ranked.len() ==> #[trigger] ranked[a] < #[trigger] ranked[b],
{
    keys.to_multiset_ensures();
    ranked.to_multiset_ensures();
    assert forall|p: int| 0 <= p < ranked.len() implies 0 <= place_of(#[trigger] ranked[p])
        < distances.len() && ranked[p] == rank_key(
        distances[place_of(ranked[p])],
        place_of(ranked[p]),
    ) by {
        let x = ranked[p];
        assert(ranked.contains(x));
        assert(ranked.to_multiset().count(x) > 0);
        assert(keys.contains(x));
        let m = choose|m: int| 0 <= m < keys.len() && keys[m] == x;
        lemma_rank_key_place(distances[m], m);
    }
    assert(keys.no_duplicates()) by {
        assert forall|a: int, b: int| 0 <= a < keys.len() && 0 <= b < keys.len() && a != b implies
            keys[a] != keys[b] by {
            lemma_rank_key_place(distances[a], a);
            lemma_rank_key_place(distances[b], b);
        }
    }
    keys.lemma_multiset_has_no_duplicates();
    ranked.lemma_multiset_has_no_duplicates_conv();
    assert forall|a: int, b: int| 0 <= a < b < ranked.len() implies #[trigger] ranked[a]
        < #[trigger] ranked[b] by {
        assert(ranked[a] <= ranked[b]);
        assert(ranked[a] != ranked[b]);
    }
}

/// The keys of the `k` nearest, given the distance of each: nearest first, what is no number last,
/// and of two alike the one that is listed earlier.
pub fn rank_distances<K: Copy>(keys: &[K], distances: &[u64], k: usize) -> (r: Vec<K>)
    requires
        keys@.len() == distances@.len(),
    ensures
        exists|order: Seq<int>| #[trigger]
            is_ranking(order, distances@) && r@ == nearest_of(keys@, order, k as nat),
{
    let places: Vec<usize> = rank_places(distances);
    let ghost order = places@.map_values(|p: usize| p as int);
    let mut out: Vec<K> = Vec::new();
    let mut m: usize = 0;
    while m < places.len() && m < k
        invariant
            m <= places@.len(),
            m <= k,
            keys@.len() == distances@.len(),
            order == places@.map_values(|p: usize| p as int),
            is_ranking(order, distances@),
            out@ == Seq::new(m as nat, |m: int| keys@[order[m]]),
        decreases places@.len() - m,
    {
        assert(order[m as int] == places@[m as int]);
        out.push(keys[places[m]]);
        m += 1;
    }
    assert(out@ =~= nearest_of(keys@, order, k as nat));
    out
}

/// There is only one ranking of given distances.
pub proof fn ranking_is_unique(order: Seq<int>, other: Seq<int>, distances: Seq<u64>)
    requires
        is_ranking(order, distances),
        is_ranking(other, distances),
    ensures
        order == other,
{
    assert forall|m: int| 0 <= m < order.len() implies order[m] == other[m] by {
        lemma_same_place(order, other, distances, m);
    }
    assert(order =~= other);
}

proof fn lemma_same_place(order: Seq<int>, other: Seq<int>, distances: Seq<u64>, m: int)
    requires
        is_ranking(order, distances),
        is_ranking(other, distances),
        0 <= m < order.len(),
    ensures
        order[m] == other[m],
    decreases m,
{
    assert forall|i: int| 0 <= i < m implies order[i] == other[i] by {
        lemma_same_place(order, other, distances, i);
    }
    let a = order[m];
    let b = other[m];
    if a != b {
        lemma_ranking_covers(order, distances, b);
        lemma_ranking_covers(other, distances, a);
        let p = choose|p: int| 0 <= p < order.len() && order[p] == b;
        let q = choose|q: int| 0 <= q < other.len() && other[q] == a;
        if p < m {
            assert(ranks_before(distances, other[p], other[m]));
        } else {
            assert(ranks_before(distances, order[m], order[p]));
        }
        if q < m {
            assert(ranks_before(distances, order[q], order[m]));
        } else {
            assert(ranks_before(distances, other[m], other[q]));
        }
    }
}

/// Every place stands in a ranking.
pub proof fn lemma_ranking_covers(order: Seq<int>, distances: Seq<u64>, place: int)
    requires
        is_ranking(order, distances),
        0 <= place < distances.len(),
    ensures
        order.contains(place),
{
    assert(order.no_duplicates()) by {
        assert forall|a: int, b: int| 0 <= a < order.len() && 0 <= b < order.len() && a
            != b implies order[a] != order[b] by {
            if a < b {
                assert(ranks_before(distances, order[a], order[b]));
            } else {
                assert(ranks_before(distances, order[b], order[a]));
            }
        }
    }
    order.unique_seq_to_set();
    let places = set_int_range(0, distances.len() as int);
    lemma_int_range(0, distances.len() as int);
    assert(order.to_set().subset_of(places));
    lemma_subset_equality(order.to_set(), places);
    assert(order.to_set().contains(place));
}

/// Whether `distance` may answer with these distances when it compares a query with these summaries.
pub open spec fn measured_as<K, F: Fn(Metric, &[u32], &[u32]) -> u64>(
    distance: F,
    metric: Metric,
    query: &[u32],
    summaries: Seq<(K, Vec<u32>)>,
    distances: Seq<u64>,
) -> bool {
    &&& distances.len() == summaries.len()
    &&& forall|i: int|
        0 <= i < summaries.len() ==> #[trigger] may_measure(
            distance,
            metric,
            query,
            summaries[i].1@,
            distances[i],
        )
}

/// Whether `distance` may answer with this distance when it compares a query with this centroid.
pub open spec fn may_measure<F: Fn(Metric, &[u32], &[u32]) -> u64>(
    distance: F,
    metric: Metric,
    query: &[u32],
    centroid: Seq<u32>,
    answer: u64,
) -> bool {
    exists|c: &[u32]|
        c@ == centroid && #[trigger] call_ensures(distance, (metric, query, c), answer)
}

/// The keys of summaries.
pub open spec fn keys_of<K>(summaries: Seq<(K, Vec<u32>)>) -> Seq<K> {
    summaries.map_values(|s: (K, Vec<u32>)| s.0)
}

/// The keys of the `k` summaries nearest to a query, nearest first. `distance` says how far a centroid
/// lies from a query.
pub fn rank_nearest<K: Copy, F: Fn(Metric, &[u32], &[u32]) -> u64>(
    query: &[u32],
    summaries: &[(K, Vec<u32>)],
    k: usize,
    metric: Metric,
    distance: F,
) -> (r: Vec<K>)
    requires
        forall|q: &[u32], c: &[u32]| #[trigger] call_requires(distance, (metric, q, c)),
    ensures
        exists|distances: Seq<u64>, order: Seq<int>|
            #![trigger measured_as(distance, metric, query, summaries@, distances), is_ranking(order, distances)]
            {
                &&& measured_as(distance, metric, query, summaries@, distances)
                &&& is_ranking(order, distances)
                &&& r@ == nearest_of(keys_of(summaries@), order, k as nat)
            },
{
    let mut keys: Vec<K> = Vec::new();
    let mut distances: Vec<u64> = Vec::new();
    let mut i: usize = 0;
    while i < summaries.len()
        invariant
            i <= summaries@.len(),
            forall|q: &[u32], c: &[u32]| #[trigger] call_requires(distance, (metric, q, c)),
            keys@ == keys_of(summaries@.take(i as int)),
            measured_as(distance, metric, query, summaries@.take(i as int), distances@),
        decreases summaries@.len() - i,
    {
        let centroid: &[u32] = summaries[i].1.as_slice();
        let answer: u64 = distance(metric, query, centroid);
        let ghost before = distances@;
        keys.push(summaries[i].0);
        distances.push(answer);
        proof {
            let past = summaries@.take(i as int);
            let now = summaries@.take(i + 1);
            assert(now =~= past.push(summaries@[i as int]));
            assert(keys@ =~= keys_of(now));
            assert forall|j: int| 0 <= j < now.len() implies #[trigger] may_measure(
                distance,
                metric,
                query,
                now[j].1@,
                distances@[j],
            ) by {
                if j < i {
                    assert(may_measure(distance, metric, query, past[j].1@, before[j]));
                } else {
                    assert(call_ensures(distance, (metric, query, centroid), answer));
                }
            }
        }
        i += 1;
    }
    assert(summaries@.take(i as int) =~= summaries@);
    let out: Vec<K> = rank_distances(keys.as_slice(), distances.as_slice(), k);
    proof {
        let order = choose|order: Seq<int>| #[trigger]
            is_ranking(order, distances@) && out@ == nearest_of(keys@, order, k as nat);
        assert(measured_as(distance, metric, query, summaries@, distances@));
        assert(is_ranking(order, distances@));
    }
    out
}

/// Why no partitions can be chosen.
#[derive(Clone, Copy, Debug, PartialEq, Eq, Structural)]
pub enum PartitionError {
    /// Not a positive number of partitions is asked for.
    NonPositiveK,
    /// The metric has no known name.
    UnknownMetric,
    /// The table has no summaries.
    NoSummaries,
    /// The query has other dimensions than the summaries.
    DimMismatch { query: usize, summary: usize },
}

/// What stands against choosing partitions.
pub open spec fn choice_fault(
    query: Seq<u32>,
    k_partitions: i32,
    metric: Seq<char>,
    summaries: Seq<(u32, Vec<u32>)>,
) -> Option<PartitionError> {
    if k_partitions <= 0 {
        Some(PartitionError::NonPositiveK)
    } else if metric_named(metric) is None {
        Some(PartitionError::UnknownMetric)
    } else if summaries.len() == 0 {
        Some(PartitionError::NoSummaries)
    } else if query.len() != summaries[0].1@.len() {
        Some(
            PartitionError::DimMismatch {
                query: query.len() as usize,
                summary: summaries[0].1@.len() as usize,
            },
        )
    } else {
        None
    }
}

/// The partitions whose summaries lie nearest to a query, nearest first.
pub fn nearest_partitions<F: Fn(Metric, &[u32], &[u32]) -> u64>(
    query: &[u32],
    k_partitions: i32,
    metric: &str,
    summaries: &[(u32, Vec<u32>)],
    distance: F,
) -> (r: Result<Vec<u32>, PartitionError>)
    requires
        forall|m: Metric, q: &[u32], c: &[u32]| #[trigger] call_requires(distance, (m, q, c)),
    ensures
        match choice_fault(query@, k_partitions, metric@, summaries@) {
            Some(e) => r == Err::<Vec<u32>, PartitionError>(e),
            None => {
                &&& r is Ok
                &&& exists|distances: Seq<u64>, order: Seq<int>|
                    #![trigger measured_as(distance, metric_named(metric@)->0, query, summaries@, distances), is_ranking(order, distances)]
                    {
                        &&& measured_as(
                            distance,
                            metric_named(metric@)->0,
                            query,
                            summaries@,
                            distances,
                        )
                        &&& is_ranking(order, distances)
                        &&& r->Ok_0@ == nearest_of(
                            keys_of(summaries@),
                            order,
                            k_partitions as nat,
                        )
                    }
            },
        },
{
    if k_partitions <= 0 {
        return Err(PartitionError::NonPositiveK);
    }
    let metric: Metric = match Metric::parse(metric) {
        Some(metric) => metric,
        None => {
            return Err(PartitionError::UnknownMetric);
        },
    };
    if summaries.len() == 0 {
        return Err(PartitionError::NoSummaries);
    }
    let summary: usize = summaries[0].1.len();
    if query.len() != summary {
        return Err(PartitionError::DimMismatch { query: query.len(), summary });
    }
    Ok(rank_nearest(query, summaries, k_partitions as usize, metric, distance))
}

/// Whether a row of an array column can be used: it has the dimensions that are expected, and each
/// coordinate is there and finite.
pub open spec fn is_usable(row: Seq<Option<u32>>, expected_dim: int) -> bool {
    &&& row.len() == expected_dim
    &&& forall|i: int|
        0 <= i < row.len() ==> (#[trigger] row[i]) is Some && finite_f32(row[i]->0)
}

/// The coordinates of a row, where it can be used.
pub fn usable_row(row: &[Option<u32>], expected_dim: usize) -> (r: Option<Vec<u32>>)
    ensures
        match r {
            Some(values) => {
                &&& is_usable(row@, expected_dim as int)
                &&& values@ == row@.map_values(|v: Option<u32>| v->0)
            },
            None => !is_usable(row@, expected_dim as int),
        },
{
    if row.len() != expected_dim {
        return None;
    }
    let mut out: Vec<u32> = Vec::new();
    let mut i: usize = 0;
    while i < row.len()
        invariant
            i <= row@.len(),
            row@.len() == expected_dim,
            forall|j: int| 0 <= j < i ==> (#[trigger] row@[j]) is Some && finite_f32(row@[j]->0),
            out@ == row@.take(i as int).map_values(|v: Option<u32>| v->0),
        decreases row@.len() - i,
    {
        match row[i] {
            Some(bits) => {
                if !is_finite_f32(bits) {
                    assert(!finite_f32(row@[i as int]->0));
                    return None;
                }
                out.push(bits);
            },
            None => {
                assert(row@[i as int] is None);
                return None;
            },
        }
        proof {
            assert(row@.take(i + 1) =~= row@.take(i as int).push(row@[i as int]));
            assert(out@ =~= row@.take(i + 1).map_values(|v: Option<u32>| v->0));
        }
        i += 1;
    }
    assert(row@.take(i as int) =~= row@);
    Some(out)
}

/// The coordinates of a row, with a number in place of those that are missing.
pub fn row_values(row: &[Option<u32>], missing: u32) -> (r: Vec<u32>)
    ensures
        r@ == row@.map_values(
            |v: Option<u32>|
                match v {
                    Some(bits) => bits,
                    None => missing,
                },
        ),
{
    let mut out: Vec<u32> = Vec::new();
    let mut i: usize = 0;
    while i < row.len()
        invariant
            i <= row@.len(),
            out@ == row@.take(i as int).map_values(
                |v: Option<u32>|
                    match v {
                        Some(bits) => bits,
                        None => missing,
                    },
            ),
        decreases row@.len() - i,
    {
        out.push(
            match row[i] {
                Some(bits) => bits,
                None => missing,
            },
        );
        proof {
            assert(row@.take(i + 1) =~= row@.take(i as int).push(row@[i as int]));
            assert(out@ =~= row@.take(i + 1).map_values(
                |v: Option<u32>|
                    match v {
                        Some(bits) => bits,
                        None => missing,
                    },
            ));
        }
        i += 1;
    }
    assert(row@.take(i as int) =~= row@);
    out
}

/// Why the summaries of a table cannot be refreshed.
#[derive(Clone, Copy, Debug, PartialEq, Eq, Structural)]
pub enum RefreshError {
    /// The table has no vectors.
    NoRows,
    /// The table has no partitions.
    NoPartitions,
}

/// What stands against refreshing the summaries of a table with these dimensions and partitions.
pub fn check_refresh(dim: usize, partitions: usize) -> (r: Result<(), RefreshError>)
    ensures
        r == (if dim == 0 {
            Err::<(), RefreshError>(RefreshError::NoRows)
        } else if partitions == 0 {
            Err::<(), RefreshError>(RefreshError::NoPartitions)
        } else {
            Ok::<(), RefreshError>(())
        }),
{
    if dim == 0 {
        return Err(RefreshError::NoRows);
    }
    if partitions == 0 {
        return Err(RefreshError::NoPartitions);
    }
    Ok(())
}

} // verus!
