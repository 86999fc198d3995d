//! What distances between sparse vectors are made of, and conversion from dense vectors.
use crate::float_bits::{all_finite, finite_f32, is_zero_f32, zero_f32};
use crate::sparsevec::{coordinate, rising, Sparsevec, MAX_DIM};
use vstd::prelude::*;

verus! {

/// Whether a position is among these.
pub open spec fn holds(indices: Seq<i32>, at: int) -> bool {
    exists|k: int| 0 <= k < indices.len() && #[trigger] indices[k] == at
}

/// The positions below `limit` that one of two vectors holds, in order.
pub open spec fn union_below(a: Seq<i32>, b: Seq<i32>, limit: int) -> Seq<int>
    decreases limit,
{
    if limit <= 0 {
        Seq::empty()
    } else {
        let before = union_below(a, b, limit - 1);
        if holds(a, limit - 1) || holds(b, limit - 1) {
            before.push(limit - 1)
        } else {
            before
        }
    }
}

/// The coordinates of two vectors at these positions.
pub open spec fn pairs_at(a: Sparsevec, b: Sparsevec, positions: Seq<int>) -> Seq<(u32, u32)> {
    positions.map_values(|i: int| (a.at(i), b.at(i)))
}

/// The number of positions that matter to two vectors.
pub open spec fn common_dim(a: Sparsevec, b: Sparsevec) -> int {
    if a.dim >= b.dim {
        a.dim as int
    } else {
        b.dim as int
    }
}

proof fn lemma_union_gap(a: Seq<i32>, b: Seq<i32>, from: int, to: int)
    requires
        0 <= from <= to,
        forall|i: int| from <= i < to ==> !#[trigger] holds(a, i) && !holds(b, i),
    ensures
        union_below(a, b, to) == union_below(a, b, from),
    decreases to,
{
    if from < to {
        assert(!holds(a, to - 1));
        lemma_union_gap(a, b, from, to - 1);
    }
}

/// A position that a vector lists has the value that is listed beside it.
pub proof fn lemma_coordinate(indices: Seq<i32>, values: Seq<u32>, dim: int, k: int)
    requires
        rising(indices, dim),
        0 <= k < indices.len(),
        indices.len() <= values.len(),
    ensures
        coordinate(indices, values, indices[k] as int) == values[k],
    decreases indices.len(),
{
    let last = indices.len() - 1;
    if k < last {
        assert(indices[k] < indices[last]);
        let head = indices.drop_last();
        lemma_rising_prefix(indices, dim);
        lemma_coordinate(head, values, dim, k);
        assert(head[k] == indices[k]);
    }
}

proof fn lemma_rising_prefix(indices: Seq<i32>, dim: int)
    requires
        rising(indices, dim),
        indices.len() > 0,
    ensures
        rising(indices.drop_last(), dim),
{
    let head = indices.drop_last();
    assert forall|i: int| 0 <= i < head.len() implies 0 <= #[trigger] head[i] < dim by {
        assert(indices[i] == head[i]);
    }
    assert forall|i: int, j: int| 0 <= i < j < head.len() implies #[trigger] head[i]
        < #[trigger] head[j] by {
        assert(indices[i] < indices[j]);
    }
}

/// A position that a vector does not list has the coordinate zero.
pub proof fn lemma_coordinate_zero(indices: Seq<i32>, values: Seq<u32>, at: int)
    requires
        !holds(indices, at),
    ensures
        coordinate(indices, values, at) == 0,
    decreases indices.len(),
{
    if indices.len() > 0 {
        let head = indices.drop_last();
        assert(indices[indices.len() - 1] != at);
        assert(!holds(head, at)) by {
            if holds(head, at) {
                let k = choose|k: int| 0 <= k < head.len() && #[trigger] head[k] == at;
                assert(indices[k] == at);
            }
        }
        lemma_coordinate_zero(head, values, at);
    }
}

/// Whether the first `n` positions lie below `limit` and all others do not.
spec fn cut_at(indices: Seq<i32>, n: int, limit: int) -> bool {
    &&& forall|k: int| 0 <= k < n ==> #[trigger] indices[k] < limit
    &&& forall|k: int| n <= k < indices.len() ==> #[trigger] indices[k] >= limit
}

/// The next position to visit extends what has been visited.
proof fn lemma_visit(a: Sparsevec, b: Sparsevec, i: int, j: int, limit: int, at: int)
    requires
        a.well_formed(),
        b.well_formed(),
        0 <= i <= a.indices@.len(),
        0 <= j <= b.indices@.len(),
        0 <= limit <= at,
        cut_at(a.indices@, i, limit),
        cut_at(b.indices@, j, limit),
        i < a.indices@.len() ==> at <= a.indices@[i],
        j < b.indices@.len() ==> at <= b.indices@[j],
        (i < a.indices@.len() && a.indices@[i] == at) || (j < b.indices@.len() && b.indices@[j]
            == at),
    ensures
        union_below(a.indices@, b.indices@, at + 1) == union_below(
            a.indices@,
            b.indices@,
            limit,
        ).push(at),
        a.at(at) == (if i < a.indices@.len() && a.indices@[i] == at {
            a.values@[i]
        } else {
            0
        }),
        b.at(at) == (if j < b.indices@.len() && b.indices@[j] == at {
            b.values@[j]
        } else {
            0
        }),
        cut_at(
            a.indices@,
            if i < a.indices@.len() && a.indices@[i] == at {
                i + 1
            } else {
                i
            },
            at + 1,
        ),
        cut_at(
            b.indices@,
            if j < b.indices@.len() && b.indices@[j] == at {
                j + 1
            } else {
                j
            },
            at + 1,
        ),
{
    lemma_side(a, i, limit, at);
    lemma_side(b, j, limit, at);
    assert forall|x: int| limit <= x < at implies !#[trigger] holds(a.indices@, x) && !holds(
        b.indices@,
        x,
    ) by {}
    lemma_union_gap(a.indices@, b.indices@, limit, at);
}

proof fn lemma_side(a: Sparsevec, i: int, limit: int, at: int)
    requires
        a.well_formed(),
        0 <= i <= a.indices@.len(),
        0 <= limit <= at,
        cut_at(a.indices@, i, limit),
        i < a.indices@.len() ==> at <= a.indices@[i],
    ensures
        forall|x: int| limit <= x < at ==> !#[trigger] holds(a.indices@, x),
        holds(a.indices@, at) == (i < a.indices@.len() && a.indices@[i] == at),
        a.at(at) == (if i < a.indices@.len() && a.indices@[i] == at {
            a.values@[i]
        } else {
            0
        }),
        cut_at(
            a.indices@,
            if i < a.indices@.len() && a.indices@[i] == at {
                i + 1
            } else {
                i
            },
            at + 1,
        ),
{
    let ix = a.indices@;
    assert forall|k: int| i < k < ix.len() implies #[trigger] ix[k] > at by {
        assert(ix[i] < ix[k]);
    }
    assert forall|x: int| limit <= x < at implies !#[trigger] holds(ix, x) by {
        if holds(ix, x) {
            let k = choose|k: int| 0 <= k < ix.len() && #[trigger] ix[k] == x;
            if k < i {
                assert(ix[k] < limit);
            } else if k == i {
                assert(at <= ix[i]);
            }
        }
    }
    if i < ix.len() && ix[i] == at {
        assert(holds(ix, at));
        lemma_coordinate(ix, a.values@, a.dim as int, i);
    } else {
        assert(!holds(ix, at)) by {
            if holds(ix, at) {
                let k = choose|k: int| 0 <= k < ix.len() && #[trigger] ix[k] == at;
            }
        }
        lemma_coordinate_zero(ix, a.values@, at);
    }
}

/// Walks over the positions that one of two vectors holds, in order, and lists the two coordinates at
/// each.
pub fn sparse_walk(a: &Sparsevec, b: &Sparsevec) -> (r: Vec<(u32, u32)>)
    requires
        a.well_formed(),
        b.well_formed(),
    ensures
        r@ == pairs_at(*a, *b, union_below(a.indices@, b.indices@, common_dim(*a, *b))),
{
    let mut out: Vec<(u32, u32)> = Vec::new();
    let mut i: usize = 0;
    let mut j: usize = 0;
    let ghost mut limit: int = 0;
    assert(out@ =~= pairs_at(*a, *b, union_below(a.indices@, b.indices@, 0)));
    while i < a.indices.len() || j < b.indices.len()
        invariant
            a.well_formed(),
            b.well_formed(),
            i <= a.indices@.len(),
            j <= b.indices@.len(),
            0 <= limit <= common_dim(*a, *b),
            cut_at(a.indices@, i as int, limit),
            cut_at(b.indices@, j as int, limit),
            out@ == pairs_at(*a, *b, union_below(a.indices@, b.indices@, limit)),
        decreases a.indices@.len() - i + b.indices@.len() - j,
    {
        let take_a: bool = i < a.indices.len() && (j >= b.indices.len() || a.indices[i]
            <= b.indices[j]);
        let take_b: bool = j < b.indices.len() && (i >= a.indices.len() || b.indices[j]
            <= a.indices[i]);
        let ghost at: int = if take_a {
            a.indices@[i as int] as int
        } else {
            b.indices@[j as int] as int
        };
        proof {
            lemma_visit(*a, *b, i as int, j as int, limit, at);
        }
        let x: u32 = if take_a {
            a.values[i]
        } else {
            0
        };
        let y: u32 = if take_b {
            b.values[j]
        } else {
            0
        };
        let ghost before = out@;
        out.push((x, y));
        if take_a {
            i += 1;
        }
        if take_b {
            j += 1;
        }
        proof {
            let seen = union_below(a.indices@, b.indices@, limit);
            assert(pairs_at(*a, *b, seen.push(at)) =~= pairs_at(*a, *b, seen).push(
                (a.at(at), b.at(at)),
            ));
            limit = at + 1;
        }
    }
    proof {
        let end = common_dim(*a, *b);
        assert forall|x: int| limit <= x < end implies !#[trigger] holds(a.indices@, x) && !holds(
            b.indices@,
            x,
        ) by {}
        lemma_union_gap(a.indices@, b.indices@, limit, end);
    }
    out
}

/// The positions of a walk rise, are held by one of the two vectors, and leave out only positions at
/// which both coordinates are zero.
pub proof fn walk_leaves_out_only_zeros(a: Sparsevec, b: Sparsevec, limit: int)
    requires
        a.well_formed(),
        b.well_formed(),
        0 <= limit,
    ensures
        ({
            let positions = union_below(a.indices@, b.indices@, limit);
            &&& forall|k: int|
                0 <= k < positions.len() ==> 0 <= #[trigger] positions[k] < limit && (holds(
                    a.indices@,
                    positions[k],
                ) || holds(b.indices@, positions[k]))
            &&& forall|k: int, m: int|
                0 <= k < m < positions.len() ==> #[trigger] positions[k] < #[trigger] positions[m]
            &&& forall|i: int|
                0 <= i < limit && !#[trigger] positions.contains(i) ==> a.at(i) == 0 && b.at(i) == 0
        }),
    decreases limit,
{
    let positions = union_below(a.indices@, b.indices@, limit);
    if limit > 0 {
        let before = union_below(a.indices@, b.indices@, limit - 1);
        walk_leaves_out_only_zeros(a, b, limit - 1);
        assert forall|i: int|
            0 <= i < limit && !#[trigger] positions.contains(i) implies a.at(i) == 0 && b.at(i)
            == 0 by {
            if i < limit - 1 {
                if before.contains(i) {
                    let k = choose|k: int| 0 <= k < before.len() && before[k] == i;
                    assert(positions[k] == i);
                }
            } else {
                if holds(a.indices@, i) || holds(b.indices@, i) {
                    assert(positions[positions.len() - 1] == i);
                }
                lemma_coordinate_zero(a.indices@, a.values@, i);
                lemma_coordinate_zero(b.indices@, b.values@, i);
            }
        }
    }
}

/// The sum of a measure over pairs of coordinates.
pub open spec fn sum_of(measure: spec_fn((u32, u32)) -> int, pairs: Seq<(u32, u32)>) -> int
    decreases pairs.len(),
{
    if pairs.len() == 0 {
        0
    } else {
        sum_of(measure, pairs.drop_last()) + measure(pairs.last())
    }
}

/// All pairs of coordinates of two vectors, up to a position.
pub open spec fn dense_pairs(a: Sparsevec, b: Sparsevec, limit: int) -> Seq<(u32, u32)> {
    Seq::new(limit as nat, |i: int| (a.at(i), b.at(i)))
}

/// A measure that is nothing where both coordinates are zero adds up over the walk to what it adds up
/// to over all coordinates.
pub proof fn walk_sums_like_dense(
    a: Sparsevec,
    b: Sparsevec,
    measure: spec_fn((u32, u32)) -> int,
    limit: int,
)
    requires
        a.well_formed(),
        b.well_formed(),
        measure((0, 0)) == 0,
        0 <= limit,
    ensures
        sum_of(measure, pairs_at(a, b, union_below(a.indices@, b.indices@, limit))) == sum_of(
            measure,
            dense_pairs(a, b, limit),
        ),
    decreases limit,
{
    if limit > 0 {
        let at = limit - 1;
        let before = union_below(a.indices@, b.indices@, at);
        walk_sums_like_dense(a, b, measure, at);
        assert(dense_pairs(a, b, limit).drop_last() =~= dense_pairs(a, b, at));
        if holds(a.indices@, at) || holds(b.indices@, at) {
            assert(pairs_at(a, b, before.push(at)).drop_last() =~= pairs_at(a, b, before));
        } else {
            lemma_coordinate_zero(a.indices@, a.values@, at);
            lemma_coordinate_zero(b.indices@, b.values@, at);
        }
    } else {
        assert(pairs_at(a, b, union_below(a.indices@, b.indices@, limit)) =~= Seq::<
            (u32, u32),
        >::empty());
        assert(dense_pairs(a, b, limit) =~= Seq::<(u32, u32)>::empty());
    }
}

/// The positions below `n` at which a dense vector is not zero.
pub open spec fn support(dense: Seq<u32>, n: int) -> Seq<i32>
    decreases n,
{
    if n <= 0 {
        Seq::empty()
    } else if zero_f32(dense[n - 1]) {
        support(dense, n - 1)
    } else {
        support(dense, n - 1).push((n - 1) as i32)
    }
}

/// The sparse form of a dense vector: its coordinates that are not zero.
pub fn vector_to_sparsevec(dense: &[u32]) -> (r: Sparsevec)
    requires
        1 <= dense@.len() <= MAX_DIM,
        all_finite(dense@),
    ensures
        r.well_formed(),
        r.dim == dense@.len(),
        r.indices@ == support(dense@, dense@.len() as int),
        r.values@ == r.indices@.map_values(|i: i32| dense@[i as int]),
{
    let n: usize = dense.len();
    let mut indices: Vec<i32> = Vec::new();
    let mut values: Vec<u32> = Vec::new();
    let mut i: usize = 0;
    assert(values@ =~= indices@.map_values(|i: i32| dense@[i as int]));
    while i < n
        invariant
            i <= n,
            n == dense@.len(),
            1 <= n <= MAX_DIM,
            all_finite(dense@),
            rising(indices@, i as int),
            all_finite(values@),
            indices@.len() == values@.len(),
            indices@ == support(dense@, i as int),
            values@ == indices@.map_values(|i: i32| dense@[i as int]),
        decreases n - i,
    {
        let ghost before = indices@;
        let ghost values0 = values@;
        if !is_zero_f32(dense[i]) {
            indices.push(i as i32);
            values.push(dense[i]);
        }
        proof {
            assert(values@ =~= indices@.map_values(|i: i32| dense@[i as int]));
            assert forall|k: int| 0 <= k < indices@.len() implies 0 <= #[trigger] indices@[k] < i
                + 1 && finite_f32(values@[k]) by {
                if k < before.len() {
                    assert(before[k] == indices@[k] && values0[k] == values@[k]);
                }
            }
            assert forall|k: int, m: int| 0 <= k < m < indices@.len() implies #[trigger] indices@[k]
                < #[trigger] indices@[m] by {
                assert(before[k] == indices@[k]);
                if m < before.len() {
                    assert(before[m] == indices@[m]);
                }
            }
        }
        i += 1;
    }
    Sparsevec { dim: n as i32, indices, values }
}

/// Going to the sparse form and back keeps every coordinate, except that a negative zero becomes a
/// plain one.
pub proof fn sparse_form_keeps_the_vector(dense: Seq<u32>, sparse: Sparsevec)
    requires
        sparse.dim == dense.len(),
        rising(sparse.indices@, sparse.dim as int),
        sparse.indices@ == support(dense, dense.len() as int),
        sparse.values@ == sparse.indices@.map_values(|i: i32| dense[i as int]),
    ensures
        sparse.dense() == Seq::new(
            dense.len(),
            |i: int|
                if dense[i] == 0x8000_0000 {
                    0u32
                } else {
                    dense[i]
                },
        ),
{
    let n = dense.len() as int;
    let ix = sparse.indices@;
    assert forall|i: int| 0 <= i < n implies #[trigger] sparse.at(i) == (if dense[i] == 0x8000_0000 {
        0u32
    } else {
        dense[i]
    }) by {
        lemma_support(dense, n, i);
        if holds(ix, i) {
            let k = choose|k: int| 0 <= k < ix.len() && #[trigger] ix[k] == i;
            lemma_coordinate(ix, sparse.values@, sparse.dim as int, k);
        } else {
            lemma_coordinate_zero(ix, sparse.values@, i);
        }
    }
    assert(sparse.dense() =~= Seq::new(
        dense.len(),
        |i: int|
            if dense[i] == 0x8000_0000 {
                0u32
            } else {
                dense[i]
            },
    ));
}

/// The sparse form of a vector has its dimension, lists no zero, and has at each position the
/// coordinate of the vector, except that a negative zero becomes a plain one.
pub proof fn the_sparse_form_has_the_coordinates(dense: &[u32], r: Sparsevec)
    requires
        call_ensures(vector_to_sparsevec, (dense,), r),
        1 <= dense@.len() <= MAX_DIM,
        all_finite(dense@),
    ensures
        r.dim == dense@.len(),
        forall|i: int|
            0 <= i < dense@.len() ==> r.at(i) == (if #[trigger] dense@[i] == 0x8000_0000 {
                0
            } else {
                dense@[i]
            }),
        forall|k: int|
            0 <= k < r.values@.len() ==> #[trigger] r.values@[k] != 0 && r.values@[k]
                != 0x8000_0000,
        r.indices@.len() == r.values@.len(),
{
    sparse_form_keeps_the_vector(dense@, r);
    assert forall|i: int| 0 <= i < dense@.len() implies r.at(i) == (if #[trigger] dense@[i]
        == 0x8000_0000 {
        0
    } else {
        dense@[i]
    }) by {
        assert(r.dense()[i] == r.at(i));
    }
    let ix = r.indices@;
    assert forall|k: int| 0 <= k < r.values@.len() implies #[trigger] r.values@[k] != 0
        && r.values@[k] != 0x8000_0000 by {
        assert(holds(ix, ix[k] as int));
        assert(0 <= ix[k] < r.dim);
        lemma_support(dense@, dense@.len() as int, ix[k] as int);
        assert(!zero_f32(dense@[ix[k] as int]));
    }
}

/// Writing out a sparse vector gives its dimension, the listed value at each listed position, and zeros
/// elsewhere.
pub proof fn the_dense_form_has_the_coordinates(v: &Sparsevec, r: Vec<u32>)
    requires
        call_ensures(Sparsevec::to_dense, (v,), r),
        v.well_formed(),
    ensures
        r@.len() == v.dim,
        forall|k: int|
            0 <= k < v.indices@.len() ==> r@[v.indices@[k] as int] == #[trigger] v.values@[k],
        forall|i: int|
            0 <= i < v.dim && (forall|k: int| 0 <= k < v.indices@.len() ==> v.indices@[k] != i)
                ==> #[trigger] r@[i] == 0,
{
    assert forall|k: int| 0 <= k < v.indices@.len() implies r@[v.indices@[k] as int]
        == #[trigger] v.values@[k] by {
        assert(0 <= v.indices@[k] < v.dim);
        lemma_coordinate(v.indices@, v.values@, v.dim as int, k);
    }
    assert forall|i: int|
        0 <= i < v.dim && (forall|k: int| 0 <= k < v.indices@.len() ==> v.indices@[k] != i) implies
        #[trigger] r@[i] == 0 by {
        assert(!holds(v.indices@, i));
        lemma_coordinate_zero(v.indices@, v.values@, i);
    }
}

/// Going to the sparse form of a vector and writing it out again gives the vector, except that a
/// negative zero becomes a plain one.
pub proof fn writing_out_undoes_the_sparse_form(dense: &[u32], v: &Sparsevec, r: Vec<u32>)
    requires
        call_ensures(vector_to_sparsevec, (dense,), *v),
        call_ensures(Sparsevec::to_dense, (v,), r),
        1 <= dense@.len() <= MAX_DIM,
        all_finite(dense@),
    ensures
        r@.len() == dense@.len(),
        forall|i: int|
            0 <= i < r@.len() ==> #[trigger] r@[i] == (if dense@[i] == 0x8000_0000 {
                0
            } else {
                dense@[i]
            }),
{
    sparse_form_keeps_the_vector(dense@, *v);
}

/// A walk over two vectors visits rising positions, gives both coordinates at each, and leaves out only
/// positions at which both are zero.
pub proof fn a_walk_misses_no_coordinate(a: &Sparsevec, b: &Sparsevec, r: Vec<(u32, u32)>) -> (at: Seq<
    int,
>)
    requires
        call_ensures(sparse_walk, (a, b), r),
        a.well_formed(),
        b.well_formed(),
    ensures
        at.len() == r@.len(),
        forall|k: int|
            0 <= k < at.len() ==> 0 <= #[trigger] at[k] && r@[k].0 == a.at(at[k]) && r@[k].1 == b.at(
                at[k],
            ),
        forall|k: int, m: int| 0 <= k < m < at.len() ==> #[trigger] at[k] < #[trigger] at[m],
        forall|i: int| 0 <= i && !#[trigger] at.contains(i) ==> a.at(i) == 0 && b.at(i) == 0,
        forall|k: int|
            0 <= k < at.len() ==> holds(a.indices@, #[trigger] at[k]) || holds(b.indices@, at[k]),
{
    let limit = common_dim(*a, *b);
    let at = union_below(a.indices@, b.indices@, limit);
    walk_leaves_out_only_zeros(*a, *b, limit);
    assert forall|i: int| 0 <= i && !#[trigger] at.contains(i) implies a.at(i) == 0 && b.at(i)
        == 0 by {
        if i >= limit {
            if holds(a.indices@, i) {
                let k = choose|k: int| 0 <= k < a.indices@.len() && #[trigger] a.indices@[k] == i;
                assert(0 <= a.indices@[k] < a.dim);
            }
            if holds(b.indices@, i) {
                let k = choose|k: int| 0 <= k < b.indices@.len() && #[trigger] b.indices@[k] == i;
                assert(0 <= b.indices@[k] < b.dim);
            }
            lemma_coordinate_zero(a.indices@, a.values@, i);
            lemma_coordinate_zero(b.indices@, b.values@, i);
        }
    }
    at
}

proof fn lemma_support(dense: Seq<u32>, n: int, at: int)
    requires
        0 <= n <= i32::MAX,
        0 <= at < n,
    ensures
        holds(support(dense, n), at) == !zero_f32(dense[at]),
    decreases n,
{
    let now = support(dense, n);
    let before = support(dense, n - 1);
    lemma_support_bound(dense, n - 1);
    if at < n - 1 {
        lemma_support(dense, n - 1, at);
        if holds(before, at) {
            let k = choose|k: int| 0 <= k < before.len() && #[trigger] before[k] == at;
            assert(now[k] == at);
        }
        if holds(now, at) {
            let k = choose|k: int| 0 <= k < now.len() && #[trigger] now[k] == at;
            assert(before[k] == at);
        }
    } else if !zero_f32(dense[at]) {
        assert(now[now.len() - 1] == at);
    } else if holds(now, at) {
        let k = choose|k: int| 0 <= k < now.len() && #[trigger] now[k] == at;
        assert(before[k] == at);
    }
}

proof fn lemma_support_bound(dense: Seq<u32>, n: int)
    requires
        0 <= n <= i32::MAX,
    ensures
        forall|k: int| 0 <= k < support(dense, n).len() ==> 0 <= #[trigger] support(dense, n)[k] < n,
    decreases n,
{
    if n > 0 {
        lemma_support_bound(dense, n - 1);
        let before = support(dense, n - 1);
        let now = support(dense, n);
        assert forall|k: int| 0 <= k < now.len() implies 0 <= #[trigger] now[k] < n by {
            if k < before.len() {
                assert(before[k] == now[k]);
            }
        }
    }
}

} // verus!
