//! The decisions of a nearest-neighbour search over a table: which requests are refused, what is
//! searched, and what an index that is kept for later is taken to weigh.
use crate::sorting::{ascending, lemma_pushed, sorted};
use crate::tid::{from_id, id_of, to_id};
use vstd::prelude::*;

verus! {

/// Why a search is refused.
#[derive(Clone, Copy, Debug, PartialEq, Eq, Structural)]
pub enum KnnError {
    /// Not a positive number of neighbours is asked for.
    NonPositiveK,
    /// The bit width is not 2, 3 or 4.
    BadBitWidth,
    /// The number of dimensions is no multiple of 8.
    DimNotMultipleOfEight,
}

/// What stands against a search.
pub open spec fn knn_fault(k: i32, bit_width: i32, dim: int) -> Option<KnnError> {
    if k <= 0 {
        Some(KnnError::NonPositiveK)
    } else if !(2 <= bit_width <= 4) {
        Some(KnnError::BadBitWidth)
    } else if dim % 8 != 0 {
        Some(KnnError::DimNotMultipleOfEight)
    } else {
        None
    }
}

/// Checks what is asked of a search.
pub fn check_knn(k: i32, bit_width: i32, dim: usize) -> (r: Result<(), KnnError>)
    ensures
        r == match knn_fault(k, bit_width, dim as int) {
            Some(e) => Err::<(), KnnError>(e),
            None => Ok::<(), KnnError>(()),
        },
{
    if k <= 0 {
        return Err(KnnError::NonPositiveK);
    }
    if !(2 <= bit_width && bit_width <= 4) {
        return Err(KnnError::BadBitWidth);
    }
    if dim % 8 != 0 {
        return Err(KnnError::DimNotMultipleOfEight);
    }
    Ok(())
}

/// Whether `ids` lists the ids of exactly these numbers, each once, in ascending order.
pub open spec fn is_id_list(ids: Seq<u64>, allowed: Seq<i64>) -> bool {
    &&& forall|i: int, j: int| 0 <= i < j < ids.len() ==> #[trigger] ids[i] < #[trigger] ids[j]
    &&& forall|x: u64| #[trigger] ids.contains(x) == allows(allowed, x)
}

/// Whether an id belongs to one of these numbers.
pub open spec fn allows(allowed: Seq<i64>, id: u64) -> bool {
    exists|i: int| 0 <= i < allowed.len() && id_of(#[trigger] allowed[i]) == id
}

/// The ids of these numbers, each once, in ascending order.
pub fn search_ids(allowed: &[i64]) -> (r: Vec<u64>)
    ensures
        is_id_list(r@, allowed@),
{
    let mut keys: Vec<u128> = Vec::new();
    let mut i: usize = 0;
    while i < allowed.len()
        invariant
            i <= allowed@.len(),
            keys@.len() == i,
            forall|j: int| 0 <= j < i ==> #[trigger] keys@[j] == id_of(allowed@[j]),
        decreases allowed@.len() - i,
    {
        keys.push(to_id(allowed[i]) as u128);
        i += 1;
    }
    let ranked: Vec<u128> = sorted(keys.as_slice());
    proof {
        keys@.to_multiset_ensures();
        ranked@.to_multiset_ensures();
        assert forall|x: u128| #[trigger] ranked@.contains(x) == keys@.contains(x) by {
            assert(ranked@.contains(x) <==> ranked@.to_multiset().count(x) > 0);
            assert(keys@.contains(x) <==> keys@.to_multiset().count(x) > 0);
        }
        assert forall|j: int| 0 <= j < ranked@.len() implies #[trigger] ranked@[j]
            <= 0xffff_ffff_ffff_ffff by {
            assert(ranked@.contains(ranked@[j]));
            let m = choose|m: int| 0 <= m < keys@.len() && keys@[m] == ranked@[j];
            assert(keys@[m] == id_of(allowed@[m]));
        }
    }
    let mut out: Vec<u64> = Vec::new();
    let mut n: usize = 0;
    while n < ranked.len()
        invariant
            n <= ranked@.len(),
            ascending(ranked@),
            forall|j: int| 0 <= j < ranked@.len() ==> #[trigger] ranked@[j] <= 0xffff_ffff_ffff_ffff,
            forall|a: int, b: int|
                0 <= a < b < out@.len() ==> #[trigger] out@[a] < #[trigger] out@[b],
            out@.len() == 0 <==> n == 0,
            n > 0 ==> out@[out@.len() - 1] == ranked@[n - 1],
            forall|x: u64| #[trigger] out@.contains(x) == ranked@.take(n as int).contains(x as u128),
        decreases ranked@.len() - n,
    {
        let id: u64 = ranked[n] as u64;
        let ghost before = out@;
        let ghost past = ranked@.take(n as int);
        let ghost now = ranked@.take(n + 1);
        assert(now =~= past.push(ranked@[n as int]));
        let fresh: bool = out.len() == 0 || out[out.len() - 1] != id;
        if fresh {
            out.push(id);
        }
        proof {
            if n > 0 {
                assert(ranked@[n - 1] <= ranked@[n as int]);
            }
            assert forall|a: int, b: int| 0 <= a < b < out@.len() implies #[trigger] out@[a]
                < #[trigger] out@[b] by {
                if fresh && b == before.len() {
                    assert(before[a] <= before[before.len() - 1]);
                }
            }
            assert forall|x: u64| #[trigger] out@.contains(x) == now.contains(x as u128) by {
                lemma_pushed(past, ranked@[n as int], x as u128);
                assert(before.contains(x) == past.contains(x as u128));
                if fresh {
                    lemma_pushed(before, id, x);
                } else {
                    assert(before[before.len() - 1] == id);
                    assert(before.contains(id));
                }
            }
        }
        n += 1;
    }
    proof {
        assert(ranked@.take(n as int) =~= ranked@);
        assert forall|x: u64| #[trigger] out@.contains(x) == allows(allowed@, x) by {
            assert(ranked@.contains(x as u128) == keys@.contains(x as u128));
            if keys@.contains(x as u128) {
                let m = choose|m: int| 0 <= m < keys@.len() && keys@[m] == x as u128;
                assert(id_of(allowed@[m]) == x);
            }
            if allows(allowed@, x) {
                let m = choose|m: int|
                    0 <= m < allowed@.len() && id_of(#[trigger] allowed@[m]) == x;
                assert(keys@[m] == x as u128);
            }
        }
    }
    out
}

/// Only one list has the ids of given numbers.
pub proof fn id_list_is_unique(ids: Seq<u64>, other: Seq<u64>, allowed: Seq<i64>)
    requires
        is_id_list(ids, allowed),
        is_id_list(other, allowed),
    ensures
        ids == other,
{
    assert forall|m: int| 0 <= m < ids.len() && m < other.len() implies ids[m] == other[m] by {
        lemma_same_id(ids, other, allowed, m);
    }
    lemma_no_longer(ids, other, allowed);
    lemma_no_longer(other, ids, allowed);
    assert(ids =~= other);
}

proof fn lemma_same_id(ids: Seq<u64>, other: Seq<u64>, allowed: Seq<i64>, m: int)
    requires
        is_id_list(ids, allowed),
        is_id_list(other, allowed),
        0 <= m < ids.len(),
        m < other.len(),
    ensures
        ids[m] == other[m],
    decreases m,
{
    assert forall|i: int| 0 <= i < m implies ids[i] == other[i] by {
        lemma_same_id(ids, other, allowed, i);
    }
    assert(ids.contains(ids[m]) && other.contains(other[m]));
    assert(other.contains(ids[m]) && ids.contains(other[m]));
    let q = choose|q: int| 0 <= q < other.len() && other[q] == ids[m];
    let p = choose|p: int| 0 <= p < ids.len() && ids[p] == other[m];
    if q < m {
        assert(ids[q] < ids[m]);
    } else if p < m {
        assert(other[p] < other[m]);
    } else {
        if q > m {
            assert(other[m] < other[q]);
        }
        if p > m {
            assert(ids[m] < ids[p]);
        }
    }
}

proof fn lemma_no_longer(ids: Seq<u64>, other: Seq<u64>, allowed: Seq<i64>)
    requires
        is_id_list(ids, allowed),
        is_id_list(other, allowed),
    ensures
        other.len() <= ids.len(),
{
    if ids.len() < other.len() {
        let n = ids.len() as int;
        let x = other[n];
        assert(other.contains(x));
        assert(ids.contains(x));
        let p = choose|p: int| 0 <= p < ids.len() && ids[p] == x;
        lemma_same_id(ids, other, allowed, p);
        assert(other[p] < other[n]);
    }
}

/// What to search.
#[derive(Debug)]
pub enum SearchPlan {
    /// Nothing can be found.
    Nothing,
    /// All rows, for this many.
    All { k: usize },
    /// Only these ids, for this many.
    Among { k: usize, ids: Vec<u64> },
}

/// Whether this is what to search in an index of `len` rows for the `k` nearest, where `allowed` may
/// limit them.
pub open spec fn is_plan(plan: SearchPlan, k: int, len: int, allowed: Option<&[i64]>) -> bool {
    match allowed {
        None => if k == 0 || len == 0 {
            plan is Nothing
        } else {
            plan is All && plan->All_k == k
        },
        Some(list) => if k == 0 || len == 0 || list@.len() == 0 {
            plan is Nothing
        } else {
            &&& plan is Among
            &&& is_id_list(plan->ids@, list@)
            &&& plan->Among_k == (if k <= plan->ids@.len() {
                k
            } else {
                plan->ids@.len() as int
            })
        },
    }
}

/// What to search in an index of `len` rows for the `k` nearest, where `allowed` may limit them.
pub fn plan_search(k: usize, len: usize, allowed: Option<&[i64]>) -> (r: SearchPlan)
    ensures
        is_plan(r, k as int, len as int, allowed),
{
    if k == 0 || len == 0 {
        return SearchPlan::Nothing;
    }
    match allowed {
        None => SearchPlan::All { k },
        Some(list) => {
            let ids: Vec<u64> = search_ids(list);
            proof {
                if list@.len() > 0 {
                    let x = id_of(list@[0]);
                    assert(allows(list@, x));
                    assert(ids@.contains(x));
                } else if ids@.len() > 0 {
                    assert(ids@.contains(ids@[0]));
                    assert(allows(list@, ids@[0]));
                }
            }
            if ids.len() == 0 {
                return SearchPlan::Nothing;
            }
            let k: usize = if k <= ids.len() {
                k
            } else {
                ids.len()
            };
            SearchPlan::Among { k, ids }
        },
    }
}

/// How many neighbours to look for among `len` rows when `k` are asked for.
pub open spec fn taken(k: int, len: int) -> int {
    if k <= len {
        k
    } else {
        len
    }
}

/// How many neighbours to look for among `len` rows when `k` are asked for.
pub fn take_of(k: i32, len: usize) -> (r: usize)
    requires
        k > 0,
    ensures
        r == taken(k as int, len as int),
{
    if k as usize <= len {
        k as usize
    } else {
        len
    }
}

/// What an index of these rows is taken to weigh, in bytes: the codes, a scale, and an allowance for
/// the id, of each row.
pub open spec fn index_weight(dim: nat, bit_width: nat, rows: nat) -> nat {
    (dim * bit_width / 8 + 4 + 64) * rows
}

/// What an index of these rows is taken to weigh, in bytes.
pub fn cache_bytes(dim: usize, bit_width: usize, rows: usize) -> (r: usize)
    requires
        dim * bit_width <= usize::MAX - 68,
        index_weight(dim as nat, bit_width as nat, rows as nat) <= usize::MAX,
    ensures
        r == index_weight(dim as nat, bit_width as nat, rows as nat),
{
    let each: usize = dim * bit_width / 8 + 4 + 64;
    assert(each == (dim as nat) * (bit_width as nat) / 8 + 4 + 64);
    each * rows
}

/// What follows the look for an index that was kept, of which `cached` is the number of rows: what to
/// search in it, or nothing when there is none and the rows of the table have to be collected.
pub fn after_lookup(k: i32, cached: Option<usize>, allowed: Option<&[i64]>) -> (r: Option<
    SearchPlan,
>)
    requires
        k > 0,
    ensures
        match cached {
            Some(len) => r is Some && is_plan(r->0, taken(k as int, len as int), len as int, allowed),
            None => r is None,
        },
{
    match cached {
        Some(len) => Some(plan_search(take_of(k, len), len, allowed)),
        None => None,
    }
}

/// What follows when the rows of the table are collected: nothing where there are none, and otherwise
/// what the index that is built of them weighs, and what to search in it.
pub fn after_collect(
    k: i32,
    dim: usize,
    bit_width: usize,
    rows: usize,
    allowed: Option<&[i64]>,
) -> (r: Option<(usize, SearchPlan)>)
    requires
        k > 0,
        dim * bit_width <= usize::MAX - 68,
        index_weight(dim as nat, bit_width as nat, rows as nat) <= usize::MAX,
    ensures
        match r {
            None => rows == 0,
            Some((bytes, plan)) => {
                &&& rows > 0
                &&& bytes == index_weight(dim as nat, bit_width as nat, rows as nat)
                &&& is_plan(plan, taken(k as int, rows as int), rows as int, allowed)
            },
        },
{
    if rows == 0 {
        return None;
    }
    Some((cache_bytes(dim, bit_width, rows), plan_search(take_of(k, rows), rows, allowed)))
}

/// The coordinates of rows, one row after another.
pub open spec fn flat_of(rows: Seq<(i64, Vec<u32>)>) -> Seq<u32>
    decreases rows.len(),
{
    if rows.len() == 0 {
        Seq::empty()
    } else {
        flat_of(rows.drop_last()) + rows.last().1@
    }
}

fn append_all(dst: &mut Vec<u32>, src: &[u32])
    ensures
        final(dst)@ == old(dst)@ + src@,
{
    let mut i: usize = 0;
    while i < src.len()
        invariant
            i <= src@.len(),
            dst@ == old(dst)@ + src@.take(i as int),
        decreases src@.len() - i,
    {
        dst.push(src[i]);
        assert(src@.take(i + 1) =~= src@.take(i as int).push(src@[i as int]));
        assert(dst@ =~= old(dst)@ + src@.take(i + 1));
        i += 1;
    }
    assert(src@.take(i as int) =~= src@);
}

/// What an index is built of: the coordinates of the rows, one row after another, and their ids.
pub fn index_input(rows: &[(i64, Vec<u32>)]) -> (r: (Vec<u32>, Vec<u64>))
    ensures
        r.0@ == flat_of(rows@),
        r.1@ == rows@.map_values(|row: (i64, Vec<u32>)| id_of(row.0)),
{
    let mut flat: Vec<u32> = Vec::new();
    let mut ids: Vec<u64> = Vec::new();
    let mut i: usize = 0;
    while i < rows.len()
        invariant
            i <= rows@.len(),
            flat@ == flat_of(rows@.take(i as int)),
            ids@ == rows@.take(i as int).map_values(|row: (i64, Vec<u32>)| id_of(row.0)),
        decreases rows@.len() - i,
    {
        let ghost past = rows@.take(i as int);
        let ghost now = rows@.take(i + 1);
        append_all(&mut flat, rows[i].1.as_slice());
        ids.push(to_id(rows[i].0));
        proof {
            assert(now =~= past.push(rows@[i as int]));
            assert(now.drop_last() =~= past);
            assert(ids@ =~= now.map_values(|row: (i64, Vec<u32>)| id_of(row.0)));
        }
        i += 1;
    }
    assert(rows@.take(i as int) =~= rows@);
    (flat, ids)
}

/// The rows of an answer: the number of each row that was found, beside the bit pattern of its score.
pub fn hit_rows(ids: &[u64], scores: &[u64]) -> (r: Vec<(i64, u64)>)
    requires
        ids@.len() == scores@.len(),
    ensures
        r@.len() == ids@.len(),
        forall|i: int|
            0 <= i < r@.len() ==> id_of((#[trigger] r@[i]).0) == ids@[i] && r@[i].1 == scores@[i],
{
    let mut out: Vec<(i64, u64)> = Vec::new();
    let mut i: usize = 0;
    while i < ids.len()
        invariant
            i <= ids@.len(),
            ids@.len() == scores@.len(),
            out@.len() == i,
            forall|j: int|
                0 <= j < i ==> id_of((#[trigger] out@[j]).0) == ids@[j] && out@[j].1 == scores@[j],
        decreases ids@.len() - i,
    {
        out.push((from_id(ids[i]), scores[i]));
        i += 1;
    }
    out
}

} // verus!
