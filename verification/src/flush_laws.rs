//! What a flush makes of the rows on disk and the rows in memory, row by row.
use vstd::prelude::*;

use crate::bitmap::is_tombstoned;
use crate::flush::{
    find_slot, first_seen, ids_of, is_image, lemma_find_slot, reconcile_flush_image, rows, splice,
    touched_rows_land, untouched_rows_are_kept, upsert, Row,
};
use crate::live_rows::{counts, live_image, live_rows};

verus! {

/// Whether row `a` of a table is row `b` of another: the same id, the same scale and the same code.
pub open spec fn is_row_of<S>(
    stride: int,
    codes: Seq<u8>,
    scales: Seq<S>,
    ids: Seq<u64>,
    a: int,
    other_codes: Seq<u8>,
    other_scales: Seq<S>,
    other_ids: Seq<u64>,
    b: int,
) -> bool {
    &&& ids[a] == other_ids[b]
    &&& scales[a] == other_scales[b]
    &&& codes.subrange(a * stride, a * stride + stride) == other_codes.subrange(
        b * stride,
        b * stride + stride,
    )
}

proof fn lemma_absent_rows_stay<S>(disk: Seq<Row<S>>, snap: Seq<Row<S>>, ids: Seq<u64>, slot: int)
    requires
        0 <= slot < disk.len(),
        !ids_of(snap).contains(disk[slot].id),
    ensures
        slot < splice(disk, snap, ids).len(),
        splice(disk, snap, ids)[slot] == disk[slot],
    decreases ids.len(),
{
    if ids.len() > 0 {
        lemma_absent_rows_stay(disk, snap, ids.drop_last(), slot);
        let before = splice(disk, snap, ids.drop_last());
        lemma_find_slot(ids_of(snap), ids.last());
        if let Some(k) = find_slot(ids_of(snap), ids.last()) {
            lemma_find_slot(ids_of(before), snap[k].id);
            assert(ids_of(snap)[k] == snap[k].id);
            if find_slot(ids_of(before), snap[k].id) == Some(slot) {
                assert(ids_of(before)[slot] == before[slot].id);
                assert(ids_of(snap).contains(disk[slot].id));
            }
        }
    }
}

/// Rows that are not on disk come in the order of the list.
proof fn lemma_new_rows_in_order<S>(
    disk: Seq<Row<S>>,
    snap: Seq<Row<S>>,
    ids: Seq<u64>,
    a: int,
    b: int,
) -> (at: (int, int))
    requires
        disk.len() <= a < b < splice(disk, snap, ids).len(),
    ensures
        0 <= at.0 < at.1 < ids.len(),
        ids[at.0] == splice(disk, snap, ids)[a].id,
        ids[at.1] == splice(disk, snap, ids)[b].id,
    decreases ids.len(),
{
    let rest = ids.drop_last();
    let before = splice(disk, snap, rest);
    lemma_find_slot(ids_of(snap), ids.last());
    if find_slot(ids_of(snap), ids.last()) is None {
        lemma_new_rows_in_order(disk, snap, rest, a, b)
    } else {
        let k = find_slot(ids_of(snap), ids.last())->0;
        assert(ids_of(snap)[k] == snap[k].id);
        lemma_find_slot(ids_of(before), snap[k].id);
        if let Some(slot) = find_slot(ids_of(before), snap[k].id) {
            assert(ids_of(before)[slot] == before[slot].id);
            lemma_new_rows_in_order(disk, snap, rest, a, b)
        } else if b < before.len() {
            lemma_new_rows_in_order(disk, snap, rest, a, b)
        } else {
            let i = lemma_new_row_is_listed(disk, snap, rest, a);
            (i, ids.len() - 1)
        }
    }
}

proof fn lemma_new_row_is_listed<S>(
    disk: Seq<Row<S>>,
    snap: Seq<Row<S>>,
    ids: Seq<u64>,
    a: int,
) -> (i: int)
    requires
        disk.len() <= a < splice(disk, snap, ids).len(),
    ensures
        0 <= i < ids.len(),
        ids[i] == splice(disk, snap, ids)[a].id,
        ids_of(snap).contains(ids[i]),
    decreases ids.len(),
{
    let rest = ids.drop_last();
    let before = splice(disk, snap, rest);
    lemma_find_slot(ids_of(snap), ids.last());
    if find_slot(ids_of(snap), ids.last()) is None {
        lemma_new_row_is_listed(disk, snap, rest, a)
    } else {
        let k = find_slot(ids_of(snap), ids.last())->0;
        assert(ids_of(snap)[k] == snap[k].id);
        lemma_find_slot(ids_of(before), snap[k].id);
        if let Some(slot) = find_slot(ids_of(before), snap[k].id) {
            assert(ids_of(before)[slot] == before[slot].id);
            lemma_new_row_is_listed(disk, snap, rest, a)
        } else if a < before.len() {
            lemma_new_row_is_listed(disk, snap, rest, a)
        } else {
            ids.len() - 1
        }
    }
}

/// What is listed once comes in the order in which it is first seen.
proof fn lemma_first_seen_in_order(s: Seq<u64>, i: int, j: int) -> (at: (int, int))
    requires
        0 <= i < j < first_seen(s).len(),
    ensures
        0 <= at.0 < at.1 < s.len(),
        s[at.0] == first_seen(s)[i],
        s[at.1] == first_seen(s)[j],
        forall|k: int| 0 <= k < at.1 ==> #[trigger] s[k] != first_seen(s)[j],
    decreases s.len(),
{
    let rest = s.drop_last();
    let before = first_seen(rest);
    if j < before.len() {
        let at = lemma_first_seen_in_order(rest, i, j);
        assert forall|k: int| 0 <= k < at.1 implies #[trigger] s[k] != first_seen(s)[j] by {
            assert(rest[k] == s[k]);
        }
        at
    } else {
        assert(!rest.contains(s.last()));
        lemma_first_seen_listed(rest, i);
        let k = choose|k: int| 0 <= k < rest.len() && rest[k] == before[i];
        assert forall|k: int| 0 <= k < rest.len() implies #[trigger] s[k] != first_seen(s)[j] by {
            assert(rest[k] == s[k]);
        }
        (k, s.len() - 1)
    }
}

proof fn lemma_first_seen_listed(s: Seq<u64>, i: int)
    requires
        0 <= i < first_seen(s).len(),
    ensures
        s.contains(first_seen(s)[i]),
    decreases s.len(),
{
    let rest = s.drop_last();
    if i < first_seen(rest).len() {
        lemma_first_seen_listed(rest, i);
        let k = choose|k: int| 0 <= k < rest.len() && rest[k] == first_seen(rest)[i];
        assert(s[k] == first_seen(s)[i]);
    } else {
        assert(s[s.len() - 1] == s.last());
    }
}

/// A flush keeps every row of the disk in its slot, under its id. It is the row that it was unless its id
/// was touched and is in memory.
pub proof fn a_flush_keeps_the_slots_of_the_disk<S: Copy>(
    stride: usize,
    disk_codes: &[u8],
    disk_scales: &[S],
    disk_ids: &[u64],
    snap_codes: &[u8],
    snap_scales: &[S],
    snap_ids: &[u64],
    touched: &[u64],
    r: (Vec<u8>, Vec<S>, Vec<u64>),
    slot: int,
)
    requires
        call_ensures(
            reconcile_flush_image::<S>,
            (
                stride,
                disk_codes,
                disk_scales,
                disk_ids,
                snap_codes,
                snap_scales,
                snap_ids,
                touched,
            ),
            r,
        ),
        is_image(stride as nat, disk_codes@, disk_scales@, disk_ids@),
        is_image(stride as nat, snap_codes@, snap_scales@, snap_ids@),
        0 <= slot < disk_ids@.len(),
    ensures
        disk_ids@.len() <= r.2@.len(),
        r.1@.len() == r.2@.len(),
        r.0@.len() == r.2@.len() * stride,
        r.2@[slot] == disk_ids@[slot],
        !(touched@.contains(disk_ids@[slot]) && snap_ids@.contains(disk_ids@[slot])) ==> is_row_of(
            stride as int,
            r.0@,
            r.1@,
            r.2@,
            slot,
            disk_codes@,
            disk_scales@,
            disk_ids@,
            slot,
        ),
{
    let disk = rows(stride as nat, disk_codes@, disk_scales@, disk_ids@);
    let snap = rows(stride as nat, snap_codes@, snap_scales@, snap_ids@);
    let out = rows(stride as nat, r.0@, r.1@, r.2@);
    untouched_rows_are_kept(disk, snap, touched@, slot);
    lemma_splice_keeps_ids(disk, snap, first_seen(touched@.reverse()));
    assert(out.len() >= disk.len());
    assert(out[slot].id == disk[slot].id);
    if !snap_ids@.contains(disk_ids@[slot]) {
        assert(ids_of(snap) =~= snap_ids@);
        lemma_absent_rows_stay(disk, snap, first_seen(touched@.reverse()), slot);
    }
    if !(touched@.contains(disk_ids@[slot]) && snap_ids@.contains(disk_ids@[slot])) {
        assert(out[slot] == disk[slot]);
    }
}

/// A row whose id was touched is, after a flush, the row that is in memory under that id: the last one.
#[verifier::rlimit(40)]
pub proof fn a_flush_lands_the_touched_rows<S: Copy>(
    stride: usize,
    disk_codes: &[u8],
    disk_scales: &[S],
    disk_ids: &[u64],
    snap_codes: &[u8],
    snap_scales: &[S],
    snap_ids: &[u64],
    touched: &[u64],
    r: (Vec<u8>, Vec<S>, Vec<u64>),
    slot: int,
) -> (at: int)
    requires
        call_ensures(
            reconcile_flush_image::<S>,
            (
                stride,
                disk_codes,
                disk_scales,
                disk_ids,
                snap_codes,
                snap_scales,
                snap_ids,
                touched,
            ),
            r,
        ),
        is_image(stride as nat, disk_codes@, disk_scales@, disk_ids@),
        is_image(stride as nat, snap_codes@, snap_scales@, snap_ids@),
        0 <= slot < snap_ids@.len(),
        touched@.contains(snap_ids@[slot]),
        forall|k: int| slot < k < snap_ids@.len() ==> #[trigger] snap_ids@[k] != snap_ids@[slot],
    ensures
        0 <= at < r.2@.len(),
        is_row_of(
            stride as int,
            r.0@,
            r.1@,
            r.2@,
            at,
            snap_codes@,
            snap_scales@,
            snap_ids@,
            slot,
        ),
        forall|k: int| at < k < r.2@.len() ==> #[trigger] r.2@[k] != snap_ids@[slot],
        at < disk_ids@.len() ==> disk_ids@[at] == snap_ids@[slot],
        at >= disk_ids@.len() ==> !disk_ids@.contains(snap_ids@[slot]),
{
    let disk = rows(stride as nat, disk_codes@, disk_scales@, disk_ids@);
    let snap = rows(stride as nat, snap_codes@, snap_scales@, snap_ids@);
    let out = rows(stride as nat, r.0@, r.1@, r.2@);
    let id = snap_ids@[slot];
    assert(ids_of(snap) =~= snap_ids@);
    assert(ids_of(disk) =~= disk_ids@);
    assert(ids_of(out) =~= r.2@);
    assert(snap_ids@.contains(id));
    touched_rows_land(disk, snap, touched@, id);
    lemma_find_slot(snap_ids@, id);
    lemma_find_slot(r.2@, id);
    let at = find_slot(r.2@, id)->0;
    let k = find_slot(snap_ids@, id)->0;
    if k != slot {
        assert(false) by {
            if slot < k {
                assert(snap_ids@[k] != id);
            } else {
                assert(snap_ids@[slot] != id);
            }
        }
    }
    assert(out[at] == snap[slot]);
    if at < disk_ids@.len() {
        untouched_rows_are_kept(disk, snap, touched@, at);
        assert(out[at].id == disk[at].id);
    } else if disk_ids@.contains(id) {
        let d = choose|d: int| 0 <= d < disk_ids@.len() && disk_ids@[d] == id;
        lemma_appended_is_new(disk, snap, first_seen(touched@.reverse()), at);
    }
    at
}

proof fn lemma_appended_is_new<S>(disk: Seq<Row<S>>, snap: Seq<Row<S>>, ids: Seq<u64>, a: int)
    requires
        disk.len() <= a < splice(disk, snap, ids).len(),
    ensures
        !ids_of(splice(disk, snap, ids).take(a)).contains(splice(disk, snap, ids)[a].id),
        !ids_of(disk).contains(splice(disk, snap, ids)[a].id),
    decreases ids.len(),
{
    let rest = ids.drop_last();
    let before = splice(disk, snap, rest);
    let after = splice(disk, snap, ids);
    lemma_splice_keeps_ids(disk, snap, rest);
    lemma_find_slot(ids_of(snap), ids.last());
    if let Some(k) = find_slot(ids_of(snap), ids.last()) {
        assert(ids_of(snap)[k] == snap[k].id);
        lemma_find_slot(ids_of(before), snap[k].id);
        if let Some(slot) = find_slot(ids_of(before), snap[k].id) {
            assert(ids_of(before)[slot] == before[slot].id);
            assert(ids_of(after.take(a)) =~= ids_of(before.take(a)));
            lemma_appended_is_new(disk, snap, rest, a);
        } else if a < before.len() {
            assert(after.take(a) =~= before.take(a));
            lemma_appended_is_new(disk, snap, rest, a);
        } else {
            assert(after.take(a) =~= before);
            if ids_of(disk).contains(snap[k].id) {
                let d = choose|d: int| 0 <= d < disk.len() && ids_of(disk)[d] == snap[k].id;
                assert(before[d].id == disk[d].id);
                assert(ids_of(before)[d] == snap[k].id);
            }
        }
    } else {
        lemma_appended_is_new(disk, snap, rest, a);
    }
}

proof fn lemma_splice_keeps_ids<S>(disk: Seq<Row<S>>, snap: Seq<Row<S>>, ids: Seq<u64>)
    ensures
        splice(disk, snap, ids).len() >= disk.len(),
        forall|j: int|
            0 <= j < disk.len() ==> (#[trigger] splice(disk, snap, ids)[j]).id == disk[j].id,
    decreases ids.len(),
{
    if ids.len() > 0 {
        let rest = ids.drop_last();
        let before = splice(disk, snap, rest);
        lemma_splice_keeps_ids(disk, snap, rest);
        lemma_find_slot(ids_of(snap), ids.last());
        if let Some(k) = find_slot(ids_of(snap), ids.last()) {
            lemma_find_slot(ids_of(before), snap[k].id);
            assert(upsert(before, snap[k]) == splice(disk, snap, ids));
            if let Some(slot) = find_slot(ids_of(before), snap[k].id) {
                assert(ids_of(before)[slot] == before[slot].id);
            }
        }
    }
}

/// Rows that come behind those of the disk are new: their ids were touched, are in memory and not on
/// disk, and each comes once. What was touched last comes first.
#[verifier::rlimit(40)]
pub proof fn new_rows_come_behind<S: Copy>(
    stride: usize,
    disk_codes: &[u8],
    disk_scales: &[S],
    disk_ids: &[u64],
    snap_codes: &[u8],
    snap_scales: &[S],
    snap_ids: &[u64],
    touched: &[u64],
    r: (Vec<u8>, Vec<S>, Vec<u64>),
    a: int,
    b: int,
) -> (at: (int, int))
    requires
        call_ensures(
            reconcile_flush_image::<S>,
            (
                stride,
                disk_codes,
                disk_scales,
                disk_ids,
                snap_codes,
                snap_scales,
                snap_ids,
                touched,
            ),
            r,
        ),
        is_image(stride as nat, disk_codes@, disk_scales@, disk_ids@),
        is_image(stride as nat, snap_codes@, snap_scales@, snap_ids@),
        disk_ids@.len() <= a < b < r.2@.len(),
    ensures
        r.2@[a] != r.2@[b],
        snap_ids@.contains(r.2@[b]),
        !disk_ids@.contains(r.2@[b]),
        0 <= at.1 < at.0 < touched@.len(),
        touched@[at.0] == r.2@[a],
        touched@[at.1] == r.2@[b],
        forall|k: int| at.1 < k < touched@.len() ==> #[trigger] touched@[k] != r.2@[b],
{
    let disk = rows(stride as nat, disk_codes@, disk_scales@, disk_ids@);
    let snap = rows(stride as nat, snap_codes@, snap_scales@, snap_ids@);
    let out = rows(stride as nat, r.0@, r.1@, r.2@);
    let back = touched@.reverse();
    let ids = first_seen(back);
    assert(ids_of(snap) =~= snap_ids@);
    assert(ids_of(disk) =~= disk_ids@);
    assert(out == splice(disk, snap, ids));
    assert(out[a].id == r.2@[a] && out[b].id == r.2@[b]);
    lemma_appended_is_new(disk, snap, ids, b);
    assert(ids_of(out.take(b))[a] == r.2@[a]);
    let listed = lemma_new_row_is_listed(disk, snap, ids, b);
    let (i, j) = lemma_new_rows_in_order(disk, snap, ids, a, b);
    let (p, q) = lemma_first_seen_in_order(back, i, j);
    let n = touched@.len();
    assert(back[p] == touched@[n - 1 - p] && back[q] == touched@[n - 1 - q]);
    assert forall|k: int| n - 1 - q < k < n implies #[trigger] touched@[k] != r.2@[b] by {
        assert(back[n - 1 - k] == touched@[k]);
    }
    (n - 1 - p, n - 1 - q)
}

/// The rows that are left of a table are its rows in order, without those that are marked as deleted and
/// without those whose id a row before them has that is not marked: nothing else is missing.
#[verifier::rlimit(40)]
pub proof fn live_rows_are_left_in_order<S: Copy>(
    stride: usize,
    codes: &[u8],
    scales: &[S],
    ids: &[u64],
    tombstones: &[u8],
    r: (Vec<u8>, Vec<S>, Vec<u64>),
) -> (order: Seq<int>)
    requires
        call_ensures(live_image::<S>, (stride, codes, scales, ids, tombstones), r),
        is_image(stride as nat, codes@, scales@, ids@),
    ensures
        order.len() == r.2@.len(),
        r.1@.len() == r.2@.len(),
        r.0@.len() == r.2@.len() * stride,
        forall|a: int, b: int|
            0 <= a < b < order.len() ==> #[trigger] order[a] < #[trigger] order[b],
        forall|k: int|
            0 <= k < order.len() ==> 0 <= #[trigger] order[k] < ids@.len() && is_row_of(
                stride as int,
                r.0@,
                r.1@,
                r.2@,
                k,
                codes@,
                scales@,
                ids@,
                order[k],
            ),
        forall|slot: int|
            0 <= slot < ids@.len() ==> (#[trigger] order.contains(slot) <==> !is_tombstoned(
                tombstones@,
                slot,
            ) && forall|j: int|
                0 <= j < slot && #[trigger] ids@[j] == ids@[slot] ==> is_tombstoned(tombstones@, j)),
{
    let rs = rows(stride as nat, codes@, scales@, ids@);
    let out = rows(stride as nat, r.0@, r.1@, r.2@);
    let order = lemma_live_order(rs, tombstones@);
    assert(ids_of(rs) =~= ids@);
    assert forall|k: int| 0 <= k < order.len() implies 0 <= #[trigger] order[k] < ids@.len()
        && is_row_of(
        stride as int,
        r.0@,
        r.1@,
        r.2@,
        k,
        codes@,
        scales@,
        ids@,
        order[k],
    ) by {
        assert(out[k] == rs[order[k]]);
    }
    assert forall|slot: int| 0 <= slot < ids@.len() implies (#[trigger] order.contains(slot)
        <==> !is_tombstoned(tombstones@, slot) && forall|j: int|
        0 <= j < slot && #[trigger] ids@[j] == ids@[slot] ==> is_tombstoned(tombstones@, j)) by {
        assert(order.contains(slot) <==> counts(ids@, tombstones@, slot));
    }
    order
}

#[verifier::rlimit(40)]
proof fn lemma_live_order<S>(rs: Seq<Row<S>>, tombstones: Seq<u8>) -> (order: Seq<int>)
    ensures
        order.len() == live_rows(rs, tombstones).len(),
        forall|a: int, b: int|
            0 <= a < b < order.len() ==> #[trigger] order[a] < #[trigger] order[b],
        forall|k: int|
            0 <= k < order.len() ==> 0 <= #[trigger] order[k] < rs.len() && live_rows(
                rs,
                tombstones,
            )[k] == rs[order[k]],
        forall|slot: int|
            0 <= slot < rs.len() ==> (#[trigger] order.contains(slot) <==> counts(
                ids_of(rs),
                tombstones,
                slot,
            )),
    decreases rs.len(),
{
    if rs.len() == 0 {
        Seq::empty()
    } else {
        let rest = rs.drop_last();
        let n = rs.len() - 1;
        let before = lemma_live_order(rest, tombstones);
        assert forall|slot: int| 0 <= slot < n implies counts(ids_of(rest), tombstones, slot)
            == #[trigger] counts(ids_of(rs), tombstones, slot) by {
            assert(ids_of(rest)[slot] == ids_of(rs)[slot]);
            assert(forall|j: int| 0 <= j < slot ==> ids_of(rest)[j] == #[trigger] ids_of(rs)[j]);
            if counts(ids_of(rest), tombstones, slot) {
                assert forall|j: int|
                    0 <= j < slot && #[trigger] ids_of(rs)[j] == ids_of(rs)[slot] implies is_tombstoned(
                    tombstones,
                    j,
                ) by {
                    assert(ids_of(rest)[j] == ids_of(rs)[j]);
                }
            }
            if counts(ids_of(rs), tombstones, slot) {
                assert forall|j: int|
                    0 <= j < slot && #[trigger] ids_of(rest)[j] == ids_of(rest)[slot] implies is_tombstoned(
                    tombstones,
                    j,
                ) by {
                    assert(ids_of(rest)[j] == ids_of(rs)[j]);
                }
            }
        }
        if counts(ids_of(rs), tombstones, n) {
            let order = before.push(n);
            assert forall|slot: int| 0 <= slot < rs.len() implies (#[trigger] order.contains(slot)
                <==> counts(ids_of(rs), tombstones, slot)) by {
                if slot < n {
                    assert(before.contains(slot) <==> counts(ids_of(rest), tombstones, slot));
                    if before.contains(slot) {
                        let k = choose|k: int| 0 <= k < before.len() && before[k] == slot;
                        assert(order[k] == slot);
                    }
                    if order.contains(slot) {
                        let k = choose|k: int| 0 <= k < order.len() && order[k] == slot;
                        assert(before[k] == slot);
                    }
                } else {
                    assert(order[order.len() - 1] == n);
                }
            }
            order
        } else {
            assert forall|slot: int| 0 <= slot < rs.len() implies (#[trigger] before.contains(slot)
                <==> counts(ids_of(rs), tombstones, slot)) by {
                if slot < n {
                    assert(before.contains(slot) <==> counts(ids_of(rest), tombstones, slot));
                } else if before.contains(slot) {
                    let k = choose|k: int| 0 <= k < before.len() && before[k] == slot;
                    assert(before[k] < n);
                }
            }
            before
        }
    }
}

} // verus!
