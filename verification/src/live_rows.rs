//! The rows of an index that count: those that were not deleted, each id once.
use std::collections::HashSet;
use vstd::prelude::*;

use crate::bitmap::{is_dead, is_tombstoned};
use crate::bytes::append_range;
use crate::flush::{ids_of, is_image, of_stride, rows, Row};

verus! {

broadcast use vstd::std_specs::hash::group_hash_axioms;

/// Whether the row in `slot` counts: it is not marked as deleted, and no row before it that is not
/// marked has its id. Cells may share a row, which then stands in several slots.
pub open spec fn counts(ids: Seq<u64>, tombstones: Seq<u8>, slot: int) -> bool {
    &&& !is_tombstoned(tombstones, slot)
    &&& forall|j: int|
        0 <= j < slot && #[trigger] ids[j] == ids[slot] ==> is_tombstoned(tombstones, j)
}

/// The rows that count, in order.
pub open spec fn live_rows<S>(rs: Seq<Row<S>>, tombstones: Seq<u8>) -> Seq<Row<S>>
    decreases rs.len(),
{
    if rs.len() == 0 {
        rs
    } else {
        let before = live_rows(rs.drop_last(), tombstones);
        if counts(ids_of(rs), tombstones, rs.len() - 1) {
            before.push(rs.last())
        } else {
            before
        }
    }
}

/// Whether some slot that is not marked holds `id`.
pub open spec fn is_live<S>(rs: Seq<Row<S>>, tombstones: Seq<u8>, id: u64) -> bool {
    exists|slot: int|
        0 <= slot < rs.len() && (#[trigger] rs[slot]).id == id && !is_tombstoned(tombstones, slot)
}

/// Exactly the ids of rows that are not marked are left, each of them once.
pub proof fn live_ids_are_left_once<S>(rs: Seq<Row<S>>, tombstones: Seq<u8>)
    ensures
        ids_of(live_rows(rs, tombstones)).no_duplicates(),
        forall|id: u64| #[trigger]
            ids_of(live_rows(rs, tombstones)).contains(id) == is_live(rs, tombstones, id),
    decreases rs.len(),
{
    let all = live_rows(rs, tombstones);
    if rs.len() > 0 {
        let head = rs.drop_last();
        let before = live_rows(head, tombstones);
        let last = rs.len() - 1;
        let ids = ids_of(rs);
        live_ids_are_left_once(head, tombstones);
        assert forall|id: u64| is_live(head, tombstones, id) implies is_live(
            rs,
            tombstones,
            id,
        ) by {
            let k = choose|k: int|
                0 <= k < head.len() && (#[trigger] head[k]).id == id && !is_tombstoned(
                    tombstones,
                    k,
                );
            assert(rs[k] == head[k]);
        }
        if counts(ids, tombstones, last) {
            assert(ids_of(all) =~= ids_of(before).push(rs.last().id));
            assert(!is_live(head, tombstones, rs.last().id)) by {
                assert forall|k: int|
                    0 <= k < head.len() && (#[trigger] head[k]).id == rs.last().id implies
                    is_tombstoned(tombstones, k) by {
                    assert(ids[k] == ids[last]);
                }
            }
            assert(!ids_of(before).contains(rs.last().id));
            assert(is_live(rs, tombstones, rs.last().id)) by {
                assert(rs[last].id == rs.last().id);
            }
        } else if !is_tombstoned(tombstones, last) {
            let j = choose|j: int|
                0 <= j < last && #[trigger] ids[j] == ids[last] && !is_tombstoned(tombstones, j);
            assert(head[j].id == rs.last().id);
            assert(is_live(head, tombstones, rs.last().id));
        }
        assert forall|id: u64| #[trigger]
            ids_of(all).contains(id) == is_live(rs, tombstones, id) by {
            if is_live(rs, tombstones, id) {
                let k = choose|k: int|
                    0 <= k < rs.len() && (#[trigger] rs[k]).id == id && !is_tombstoned(
                        tombstones,
                        k,
                    );
                if k < last {
                    assert(head[k] == rs[k]);
                    assert(is_live(head, tombstones, id));
                }
            }
            if ids_of(before).contains(id) {
                let k = choose|k: int| 0 <= k < before.len() && ids_of(before)[k] == id;
                assert(ids_of(all)[k] == id);
            }
            if counts(ids, tombstones, last) {
                assert(ids_of(all)[all.len() - 1] == rs.last().id);
            }
            if ids_of(all).contains(id) {
                let k = choose|k: int| 0 <= k < all.len() && ids_of(all)[k] == id;
                if k < before.len() {
                    assert(ids_of(before)[k] == id);
                    assert(ids_of(before).contains(id));
                }
            }
        }
    } else {
        assert forall|id: u64| #[trigger]
            ids_of(all).contains(id) == is_live(rs, tombstones, id) by {}
    }
}

/// A row that counts is left as it is.
pub proof fn counting_rows_are_left<S>(rs: Seq<Row<S>>, tombstones: Seq<u8>, slot: int)
    requires
        0 <= slot < rs.len(),
        counts(ids_of(rs), tombstones, slot),
    ensures
        live_rows(rs, tombstones).contains(rs[slot]),
    decreases rs.len(),
{
    let head = rs.drop_last();
    let before = live_rows(head, tombstones);
    let all = live_rows(rs, tombstones);
    if slot < rs.len() - 1 {
        assert(counts(ids_of(head), tombstones, slot)) by {
            assert forall|j: int|
                0 <= j < slot && #[trigger] ids_of(head)[j] == ids_of(head)[slot] implies
                is_tombstoned(tombstones, j) by {
                assert(ids_of(rs)[j] == ids_of(rs)[slot]);
            }
        }
        counting_rows_are_left(head, tombstones, slot);
        let k = choose|k: int| 0 <= k < before.len() && before[k] == head[slot];
        assert(all[k] == rs[slot]);
    } else {
        assert(all[all.len() - 1] == rs[slot]);
    }
}

/// Where no id repeats and no slot is marked, every row counts.
pub proof fn plain_rows_all_count<S>(rs: Seq<Row<S>>)
    requires
        ids_of(rs).no_duplicates(),
    ensures
        live_rows(rs, Seq::<u8>::empty()) == rs,
    decreases rs.len(),
{
    if rs.len() > 0 {
        let head = rs.drop_last();
        assert(ids_of(head).no_duplicates()) by {
            assert forall|i: int, j: int|
                0 <= i < head.len() && 0 <= j < head.len() && i != j implies ids_of(head)[i]
                != ids_of(head)[j] by {
                assert(ids_of(rs)[i] != ids_of(rs)[j]);
            }
        }
        plain_rows_all_count(head);
        assert(live_rows(rs, Seq::<u8>::empty()) =~= rs);
    }
}

/// The rows that count have the stride of the rows.
pub proof fn live_rows_keep_the_stride<S>(stride: nat, rs: Seq<Row<S>>, tombstones: Seq<u8>)
    requires
        of_stride(stride, rs),
    ensures
        of_stride(stride, live_rows(rs, tombstones)),
    decreases rs.len(),
{
    if rs.len() > 0 {
        assert(of_stride(stride, rs.drop_last())) by {
            assert forall|i: int| 0 <= i < rs.drop_last().len() implies (
            #[trigger] rs.drop_last()[i]).code.len() == stride by {
                assert(rs.drop_last()[i] == rs[i]);
            }
        }
        live_rows_keep_the_stride(stride, rs.drop_last(), tombstones);
        assert(rs.last() == rs[rs.len() - 1]);
    }
}

proof fn lemma_slot_bytes(i: int, n: int, stride: int)
    by (nonlinear_arith)
    requires
        0 <= i < n,
        0 <= stride,
    ensures
        0 <= i * stride,
        i * stride + stride <= n * stride,
        (i + 1) * stride == i * stride + stride,
{
}

/// One more row in three tables that fit together.
proof fn lemma_row_appended<S>(
    stride: nat,
    codes: Seq<u8>,
    scales: Seq<S>,
    ids: Seq<u64>,
    row: Row<S>,
)
    requires
        is_image(stride, codes, scales, ids),
        row.code.len() == stride,
    ensures
        is_image(stride, codes + row.code, scales.push(row.scale), ids.push(row.id)),
        rows(stride, codes + row.code, scales.push(row.scale), ids.push(row.id)) == rows(
            stride,
            codes,
            scales,
            ids,
        ).push(row),
{
    let n = ids.len() as int;
    lemma_slot_bytes(n, n + 1, stride as int);
    let old = rows(stride, codes, scales, ids);
    let new = rows(stride, codes + row.code, scales.push(row.scale), ids.push(row.id));
    assert forall|j: int| 0 <= j < new.len() implies new[j] == old.push(row)[j] by {
        if j < n {
            lemma_slot_bytes(j, n, stride as int);
            assert((codes + row.code).subrange(j * stride, j * stride + stride) =~= codes.subrange(
                j * stride,
                j * stride + stride,
            ));
        } else {
            assert((codes + row.code).subrange(n * stride, n * stride + stride) =~= row.code);
        }
    }
    assert(new =~= old.push(row));
}

/// The tables of the rows that count.
pub fn live_image<S: Copy>(
    stride: usize,
    codes: &[u8],
    scales: &[S],
    ids: &[u64],
    tombstones: &[u8],
) -> (r: (Vec<u8>, Vec<S>, Vec<u64>))
    requires
        is_image(stride as nat, codes@, scales@, ids@),
    ensures
        is_image(stride as nat, r.0@, r.1@, r.2@),
        rows(stride as nat, r.0@, r.1@, r.2@) == live_rows(
            rows(stride as nat, codes@, scales@, ids@),
            tombstones@,
        ),
{
    let ghost w = stride as nat;
    let ghost all = rows(w, codes@, scales@, ids@);
    let mut out_codes: Vec<u8> = Vec::new();
    let mut out_scales: Vec<S> = Vec::new();
    let mut out_ids: Vec<u64> = Vec::new();
    let mut seen: HashSet<u64> = HashSet::new();
    let mut i: usize = 0;
    assert(all.take(0) =~= Seq::empty());
    assert(rows(w, out_codes@, out_scales@, out_ids@) =~= live_rows(all.take(0), tombstones@));
    while i < ids.len()
        invariant
            i <= ids@.len(),
            w == stride as nat,
            is_image(w, codes@, scales@, ids@),
            all == rows(w, codes@, scales@, ids@),
            is_image(w, out_codes@, out_scales@, out_ids@),
            rows(w, out_codes@, out_scales@, out_ids@) == live_rows(
                all.take(i as int),
                tombstones@,
            ),
            forall|x: u64| #[trigger]
                seen@.contains(x) == is_live(all.take(i as int), tombstones@, x),
        decreases ids@.len() - i,
    {
        let ghost before = all.take(i as int);
        let ghost now = all.take(i + 1);
        let ghost seen0 = seen@;
        let id: u64 = ids[i];
        proof {
            assert(now.drop_last() =~= before);
            assert(now.last() == all[i as int]);
            lemma_slot_bytes(i as int, ids@.len() as int, w as int);
            assert(ids_of(now)[i as int] == id);
            assert(counts(ids_of(now), tombstones@, i as int) == (!is_tombstoned(
                tombstones@,
                i as int,
            ) && !is_live(before, tombstones@, id))) by {
                if is_live(before, tombstones@, id) {
                    let k = choose|k: int|
                        0 <= k < before.len() && (#[trigger] before[k]).id == id && !is_tombstoned(
                            tombstones@,
                            k,
                        );
                    assert(ids_of(now)[k] == ids_of(now)[i as int]);
                }
                if !is_live(before, tombstones@, id) {
                    assert forall|j: int|
                        0 <= j < i && #[trigger] ids_of(now)[j] == ids_of(now)[i as int] implies
                        is_tombstoned(tombstones@, j) by {
                        assert(before[j].id == id);
                    }
                }
            }
        }
        if !is_dead(tombstones, i) {
            assert(codes.len() <= usize::MAX);
            let fresh: bool = seen.insert(id);
            if fresh {
                let from: usize = i * stride;
                proof {
                    assert(all[i as int].code == codes@.subrange(from as int, from + stride));
                    lemma_row_appended(w, out_codes@, out_scales@, out_ids@, all[i as int]);
                }
                append_range(&mut out_codes, codes, from, from + stride);
                out_scales.push(scales[i]);
                out_ids.push(id);
            }
        }
        proof {
            assert forall|x: u64| #[trigger] seen@.contains(x) == is_live(
                now,
                tombstones@,
                x,
            ) by {
                assert(seen0.contains(x) == is_live(before, tombstones@, x));
                if is_live(before, tombstones@, x) {
                    let k = choose|k: int|
                        0 <= k < before.len() && (#[trigger] before[k]).id == x && !is_tombstoned(
                            tombstones@,
                            k,
                        );
                    assert(now[k] == before[k]);
                }
                if is_live(now, tombstones@, x) {
                    let k = choose|k: int|
                        0 <= k < now.len() && (#[trigger] now[k]).id == x && !is_tombstoned(
                            tombstones@,
                            k,
                        );
                    if k < i {
                        assert(before[k] == now[k]);
                    }
                }
                assert(now[i as int].id == id);
            }
        }
        i += 1;
    }
    assert(all.take(i as int) =~= all);
    (out_codes, out_scales, out_ids)
}

} // verus!
