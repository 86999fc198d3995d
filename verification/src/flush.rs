//! The deferred flush: splicing one transaction's upserts onto the rows that are on disk now.
use std::collections::{HashMap, HashSet};
use vstd::prelude::*;
use vstd::slice::slice_to_vec;

use crate::bytes::{append_range, copy_into};

verus! {

broadcast use vstd::std_specs::hash::group_hash_axioms;

/// One row of an index: its external id, its packed code and its scale.
pub struct Row<S> {
    pub id: u64,
    pub code: Seq<u8>,
    pub scale: S,
}

/// Whether three parallel arrays hold the same number of rows, `stride` code bytes each.
pub open spec fn is_image<S>(stride: nat, codes: Seq<u8>, scales: Seq<S>, ids: Seq<u64>) -> bool {
    &&& codes.len() == ids.len() * stride
    &&& scales.len() == ids.len()
}

/// The rows that three parallel arrays hold.
pub open spec fn rows<S>(stride: nat, codes: Seq<u8>, scales: Seq<S>, ids: Seq<u64>) -> Seq<
    Row<S>,
> {
    Seq::new(
        ids.len(),
        |i: int|
            Row {
                id: ids[i],
                code: codes.subrange(i * stride, i * stride + stride),
                scale: scales[i],
            },
    )
}

/// The ids of `rs`, in order.
pub open spec fn ids_of<S>(rs: Seq<Row<S>>) -> Seq<u64> {
    Seq::new(rs.len(), |i: int| rs[i].id)
}

/// The last slot that holds `id`.
pub open spec fn find_slot(ids: Seq<u64>, id: u64) -> Option<int>
    decreases ids.len(),
{
    if ids.len() == 0 {
        None
    } else if ids.last() == id {
        Some(ids.len() - 1)
    } else {
        find_slot(ids.drop_last(), id)
    }
}

/// `s` without the repetitions: each value stands where it first occurs.
pub open spec fn first_seen(s: Seq<u64>) -> Seq<u64>
    decreases s.len(),
{
    if s.len() == 0 {
        s
    } else {
        let before = first_seen(s.drop_last());
        if s.drop_last().contains(s.last()) {
            before
        } else {
            before.push(s.last())
        }
    }
}

/// Overwrites the row with this id where there is one, and appends the row otherwise.
pub open spec fn upsert<S>(rs: Seq<Row<S>>, row: Row<S>) -> Seq<Row<S>> {
    match find_slot(ids_of(rs), row.id) {
        Some(slot) => rs.update(slot, row),
        None => rs.push(row),
    }
}

/// `disk` after upserting, in this order, the snapshot's row of each of these ids; ids that the
/// snapshot does not hold change nothing.
pub open spec fn splice<S>(disk: Seq<Row<S>>, snap: Seq<Row<S>>, ids: Seq<u64>) -> Seq<Row<S>>
    decreases ids.len(),
{
    if ids.len() == 0 {
        disk
    } else {
        let before = splice(disk, snap, ids.drop_last());
        match find_slot(ids_of(snap), ids.last()) {
            Some(slot) => upsert(before, snap[slot]),
            None => before,
        }
    }
}

/// The reconciled rows: the ids that were touched, latest touch first, each taken once from the
/// snapshot and upserted onto what is on disk.
pub open spec fn reconciled<S>(disk: Seq<Row<S>>, snap: Seq<Row<S>>, touched: Seq<u64>) -> Seq<
    Row<S>,
> {
    splice(disk, snap, first_seen(touched.reverse()))
}

/// Whether `m` maps each id of `ids` to its last slot, and nothing else.
pub open spec fn maps_slots(m: Map<u64, usize>, ids: Seq<u64>) -> bool {
    forall|id: u64|
        #![trigger find_slot(ids, id)]
        #![trigger m.dom().contains(id)]
        {
            &&& m.dom().contains(id) == (find_slot(ids, id) is Some)
            &&& m.dom().contains(id) ==> m[id] == find_slot(ids, id)->0
        }
}

pub proof fn lemma_find_slot(ids: Seq<u64>, id: u64)
    ensures
        match find_slot(ids, id) {
            Some(i) => 0 <= i < ids.len() && ids[i] == id && forall|j: int|
                i < j < ids.len() ==> ids[j] != id,
            None => !ids.contains(id),
        },
    decreases ids.len(),
{
    if ids.len() > 0 && ids.last() != id {
        lemma_find_slot(ids.drop_last(), id);
        assert forall|j: int| 0 <= j < ids.len() - 1 implies ids[j] == ids.drop_last()[j] by {}
        if find_slot(ids, id) is None {
            assert forall|j: int| 0 <= j < ids.len() implies ids[j] != id by {
                if j < ids.len() - 1 {
                    assert(ids.drop_last().contains(ids.drop_last()[j]));
                }
            }
        }
    }
}

proof fn lemma_row_apart(i: int, j: int, stride: int)
    by (nonlinear_arith)
    requires
        0 <= i < j,
        0 <= stride,
    ensures
        0 <= i * stride,
        i * stride + stride <= j * stride,
{
}

/// Maps each id to the last slot that holds it.
fn slot_map(ids: &[u64]) -> (m: HashMap<u64, usize>)
    ensures
        maps_slots(m@, ids@),
{
    let mut m: HashMap<u64, usize> = HashMap::new();
    let mut i: usize = 0;
    while i < ids.len()
        invariant
            i <= ids.len(),
            maps_slots(m@, ids@.take(i as int)),
        decreases ids.len() - i,
    {
        let ghost m0 = m@;
        m.insert(ids[i], i);
        proof {
            let now = ids@.take(i + 1);
            assert(now.drop_last() =~= ids@.take(i as int));
            assert(now.last() == ids@[i as int]);
            assert forall|id: u64|
                m@.dom().contains(id) == (find_slot(now, id) is Some) && (m@.dom().contains(id)
                    ==> m@[id] == find_slot(now, id)->0) by {
                assert(m0.dom().contains(id) == (find_slot(ids@.take(i as int), id) is Some));
            }
        }
        i += 1;
    }
    assert(ids@.take(i as int) =~= ids@);
    m
}

/// The ids of `touched`, each once, latest touch first.
fn latest_first(touched: &[u64]) -> (r: Vec<u64>)
    ensures
        r@ == first_seen(touched@.reverse()),
{
    let mut seen: HashSet<u64> = HashSet::new();
    let mut ordered: Vec<u64> = Vec::new();
    let n: usize = touched.len();
    let mut i: usize = 0;
    let ghost rev = touched@.reverse();
    while i < n
        invariant
            n == touched.len(),
            i <= n,
            rev == touched@.reverse(),
            ordered@ == first_seen(rev.take(i as int)),
            forall|id: u64| #[trigger] seen@.contains(id) == rev.take(i as int).contains(id),
        decreases n - i,
    {
        let id: u64 = touched[n - 1 - i];
        let fresh: bool = seen.insert(id);
        if fresh {
            ordered.push(id);
        }
        proof {
            let before = rev.take(i as int);
            let now = rev.take(i + 1);
            assert(rev[i as int] == id);
            assert(now =~= before.push(id));
            assert(now.drop_last() =~= before);
            assert forall|x: u64| #[trigger] seen@.contains(x) == now.contains(x) by {
                if before.contains(x) {
                    let k = choose|k: int| 0 <= k < before.len() && before[k] == x;
                    assert(now[k] == x);
                }
                if now.contains(x) && x != id {
                    let k = choose|k: int| 0 <= k < now.len() && now[k] == x;
                    assert(before[k] == x);
                }
                assert(now[i as int] == id);
            }
        }
        i += 1;
    }
    assert(rev.take(n as int) =~= rev);
    ordered
}

/// Splices one transaction's upserts onto the rows that are on disk now.
///
/// `disk_*` is what the relation holds, `snap_*` is the committing backend's own copy, and
/// `touched_ids` lists the ids it upserted, in order and possibly repeated. A touched id that is on
/// disk is overwritten where it stands; one that is not is appended; one that the snapshot no longer
/// holds is skipped. Everything else on disk is kept as it is.
pub fn reconcile_flush_image<S: Copy>(
    stride: usize,
    disk_codes: &[u8],
    disk_scales: &[S],
    disk_ids: &[u64],
    snap_codes: &[u8],
    snap_scales: &[S],
    snap_ids: &[u64],
    touched_ids: &[u64],
) -> (r: (Vec<u8>, Vec<S>, Vec<u64>))
    requires
        is_image(stride as nat, disk_codes@, disk_scales@, disk_ids@),
        is_image(stride as nat, snap_codes@, snap_scales@, snap_ids@),
    ensures
        is_image(stride as nat, r.0@, r.1@, r.2@),
        rows(stride as nat, r.0@, r.1@, r.2@) == reconciled(
            rows(stride as nat, disk_codes@, disk_scales@, disk_ids@),
            rows(stride as nat, snap_codes@, snap_scales@, snap_ids@),
            touched_ids@,
        ),
{
    let mut out_codes: Vec<u8> = slice_to_vec(disk_codes);
    let mut out_scales: Vec<S> = slice_to_vec(disk_scales);
    let mut out_ids: Vec<u64> = slice_to_vec(disk_ids);
    let mut disk_slots: HashMap<u64, usize> = slot_map(disk_ids);
    let snap_slots: HashMap<u64, usize> = slot_map(snap_ids);
    let ordered: Vec<u64> = latest_first(touched_ids);

    let ghost w = stride as nat;
    let ghost disk = rows(w, disk_codes@, disk_scales@, disk_ids@);
    let ghost snap = rows(w, snap_codes@, snap_scales@, snap_ids@);
    proof {
        assert(ids_of(snap) =~= snap_ids@);
        assert(ordered@.take(0) =~= Seq::empty());
    }
    let mut i: usize = 0;
    while i < ordered.len()
        invariant
            w == stride as nat,
            i <= ordered.len(),
            is_image(w, snap_codes@, snap_scales@, snap_ids@),
            is_image(w, out_codes@, out_scales@, out_ids@),
            snap == rows(w, snap_codes@, snap_scales@, snap_ids@),
            ids_of(snap) == snap_ids@,
            rows(w, out_codes@, out_scales@, out_ids@) == splice(
                disk,
                snap,
                ordered@.take(i as int),
            ),
            maps_slots(disk_slots@, out_ids@),
            maps_slots(snap_slots@, snap_ids@),
        decreases ordered.len() - i,
    {
        let id: u64 = ordered[i];
        let ghost before = rows(w, out_codes@, out_scales@, out_ids@);
        let ghost ids0 = out_ids@;
        proof {
            assert(ordered@.take(i + 1).drop_last() =~= ordered@.take(i as int));
            assert(ids_of(before) =~= ids0);
            lemma_find_slot(snap_ids@, id);
            lemma_find_slot(ids0, id);
        }
        match snap_slots.get(&id) {
            None => {
                assert(find_slot(snap_ids@, id) is None);
            },
            Some(slot) => {
                let src: usize = *slot;
                assert(find_slot(snap_ids@, id) == Some(src as int));
                let ghost row = snap[src as int];
                proof {
                    lemma_row_apart(src as int, snap_ids@.len() as int, w as int);
                }
                assert(src * stride + stride <= snap_codes@.len());
                assert(snap_codes.len() <= usize::MAX);
                let from: usize = src * stride;
                let at: Option<usize> = match disk_slots.get(&id) {
                    Some(dst) => Some(*dst),
                    None => None,
                };
                match at {
                    Some(dst) => {
                        assert(find_slot(ids0, id) == Some(dst as int));
                        proof {
                            lemma_row_apart(dst as int, ids0.len() as int, w as int);
                        }
                        assert(out_codes.len() <= usize::MAX);
                        copy_into(&mut out_codes, dst * stride, snap_codes, from, stride);
                        out_scales.set(dst, snap_scales[src]);
                        proof {
                            let after = rows(w, out_codes@, out_scales@, out_ids@);
                            assert forall|j: int| 0 <= j < after.len() implies after[j]
                                == before.update(dst as int, row)[j] by {
                                lemma_row_apart(j, ids0.len() as int, w as int);
                                if j < dst {
                                    lemma_row_apart(j, dst as int, w as int);
                                } else if j > dst {
                                    lemma_row_apart(dst as int, j, w as int);
                                }
                                assert(after[j].code =~= before.update(dst as int, row)[j].code);
                            }
                            assert(after =~= before.update(dst as int, row));
                        }
                    },
                    None => {
                        assert(find_slot(ids0, id) is None);
                        let dst: usize = out_ids.len();
                        append_range(&mut out_codes, snap_codes, from, from + stride);
                        out_scales.push(snap_scales[src]);
                        out_ids.push(id);
                        let ghost m0 = disk_slots@;
                        disk_slots.insert(id, dst);
                        proof {
                            let after = rows(w, out_codes@, out_scales@, out_ids@);
                            assert((ids0.len() + 1) * w == ids0.len() * w + w) by (nonlinear_arith);
                            assert forall|j: int| 0 <= j < after.len() implies after[j]
                                == before.push(row)[j] by {
                                if j < dst {
                                    lemma_row_apart(j, dst as int, w as int);
                                }
                                assert(after[j].code =~= before.push(row)[j].code);
                            }
                            assert(after =~= before.push(row));
                            assert(out_ids@.drop_last() =~= ids0);
                            assert forall|x: u64|
                                disk_slots@.dom().contains(x) == (find_slot(out_ids@, x) is Some)
                                    && (disk_slots@.dom().contains(x) ==> disk_slots@[x]
                                    == find_slot(out_ids@, x)->0) by {
                                assert(m0.dom().contains(x) == (find_slot(ids0, x) is Some));
                            }
                        }
                    },
                }
            },
        }
        i += 1;
    }
    assert(ordered@.take(i as int) =~= ordered@);
    (out_codes, out_scales, out_ids)
}

proof fn lemma_first_seen_contains(s: Seq<u64>, x: u64)
    ensures
        first_seen(s).contains(x) == s.contains(x),
    decreases s.len(),
{
    if s.len() > 0 {
        let t = s.drop_last();
        lemma_first_seen_contains(t, x);
        assert(s =~= t.push(s.last()));
        let before = first_seen(t);
        if t.contains(x) {
            let k = choose|k: int| 0 <= k < t.len() && t[k] == x;
            assert(s[k] == x);
            let j = choose|j: int| 0 <= j < before.len() && before[j] == x;
            assert(before.push(s.last())[j] == x);
        }
        if s.contains(x) && !t.contains(x) {
            let k = choose|k: int| 0 <= k < s.len() && s[k] == x;
            assert(k == t.len() || t[k] == x);
            assert(before.push(s.last())[before.len() as int] == x);
        }
        if first_seen(s).contains(x) && x != s.last() {
            let j = choose|j: int| 0 <= j < first_seen(s).len() && first_seen(s)[j] == x;
            assert(before[j] == x);
        }
        if x == s.last() {
            assert(s[s.len() - 1] == x);
        }
    }
}

proof fn lemma_reverse_contains(s: Seq<u64>, x: u64)
    ensures
        s.reverse().contains(x) == s.contains(x),
{
    let r = s.reverse();
    if s.contains(x) {
        let k = choose|k: int| 0 <= k < s.len() && s[k] == x;
        assert(r[s.len() - 1 - k] == x);
    }
    if r.contains(x) {
        let k = choose|k: int| 0 <= k < r.len() && r[k] == x;
        assert(s[s.len() - 1 - k] == x);
    }
}

proof fn lemma_splice_ids<S>(disk: Seq<Row<S>>, snap: Seq<Row<S>>, ids: Seq<u64>)
    ensures
        splice(disk, snap, ids).len() >= disk.len(),
        forall|j: int|
            #![trigger splice(disk, snap, ids)[j]]
            0 <= j < disk.len() ==> splice(disk, snap, ids)[j].id == disk[j].id,
        forall|j: int|
            #![trigger splice(disk, snap, ids)[j]]
            0 <= j < disk.len() && !ids.contains(disk[j].id) ==> splice(disk, snap, ids)[j]
                == disk[j],
        forall|j: int|
            #![trigger splice(disk, snap, ids)[j]]
            disk.len() <= j < splice(disk, snap, ids).len() ==> {
                let id = splice(disk, snap, ids)[j].id;
                ids.contains(id) && ids_of(snap).contains(id) && !ids_of(disk).contains(id)
            },
        ids_of(disk).no_duplicates() ==> ids_of(splice(disk, snap, ids)).no_duplicates(),
    decreases ids.len(),
{
    if ids.len() > 0 {
        let head = ids.drop_last();
        let last = ids.last();
        lemma_splice_ids(disk, snap, head);
        let before = splice(disk, snap, head);
        let after = splice(disk, snap, ids);
        assert(ids =~= head.push(last));
        assert forall|x: u64| head.contains(x) implies ids.contains(x) by {
            let k = choose|k: int| 0 <= k < head.len() && head[k] == x;
            assert(ids[k] == x);
        }
        assert(ids[ids.len() - 1] == last);
        lemma_find_slot(ids_of(snap), last);
        lemma_find_slot(ids_of(before), last);
        if let Some(s) = find_slot(ids_of(snap), last) {
            let row = snap[s];
            assert(row.id == ids_of(snap)[s]);
            assert(ids_of(snap).contains(last));
            match find_slot(ids_of(before), last) {
                Some(t) => {
                    assert(before[t].id == ids_of(before)[t]);
                    assert(ids_of(after) =~= ids_of(before));
                },
                None => {
                    assert(ids_of(after) =~= ids_of(before).push(last));
                    if ids_of(disk).contains(last) {
                        let k = choose|k: int| 0 <= k < disk.len() && ids_of(disk)[k] == last;
                        assert(ids_of(before)[k] == before[k].id);
                        assert(ids_of(before).contains(last));
                    }
                },
            }
        }
    }
}

proof fn lemma_splice_lands<S>(disk: Seq<Row<S>>, snap: Seq<Row<S>>, ids: Seq<u64>, id: u64)
    requires
        ids.contains(id),
        find_slot(ids_of(snap), id) is Some,
    ensures
        find_slot(ids_of(splice(disk, snap, ids)), id) is Some,
        splice(disk, snap, ids)[find_slot(ids_of(splice(disk, snap, ids)), id)->0]
            == snap[find_slot(ids_of(snap), id)->0],
    decreases ids.len(),
{
    let head = ids.drop_last();
    let last = ids.last();
    let before = splice(disk, snap, head);
    let after = splice(disk, snap, ids);
    lemma_find_slot(ids_of(snap), last);
    lemma_find_slot(ids_of(snap), id);
    lemma_find_slot(ids_of(before), last);
    lemma_find_slot(ids_of(before), id);
    lemma_find_slot(ids_of(after), id);
    if last == id {
        match find_slot(ids_of(before), id) {
            Some(t) => {
                assert(ids_of(after) =~= ids_of(before));
            },
            None => {
                assert(ids_of(after) =~= ids_of(before).push(id));
            },
        }
    } else {
        let k = choose|k: int| 0 <= k < ids.len() && ids[k] == id;
        assert(head[k] == id);
        lemma_splice_lands(disk, snap, head, id);
        if let Some(s) = find_slot(ids_of(snap), last) {
            match find_slot(ids_of(before), last) {
                Some(t) => {
                    assert(ids_of(after) =~= ids_of(before));
                    assert(ids_of(before)[t] == last);
                },
                None => {
                    assert(ids_of(after) =~= ids_of(before).push(last));
                    assert(ids_of(after).drop_last() =~= ids_of(before));
                },
            }
        }
    }
}

/// Reconciling never brings a row back: every id in the result is on disk already, or was both
/// touched by the transaction and held by its snapshot.
pub proof fn deleted_rows_stay_deleted<S>(
    disk: Seq<Row<S>>,
    snap: Seq<Row<S>>,
    touched: Seq<u64>,
    id: u64,
)
    requires
        ids_of(reconciled(disk, snap, touched)).contains(id),
    ensures
        ids_of(disk).contains(id) || (touched.contains(id) && ids_of(snap).contains(id)),
{
    let order = first_seen(touched.reverse());
    lemma_splice_ids(disk, snap, order);
    let out = reconciled(disk, snap, touched);
    let j = choose|j: int| 0 <= j < out.len() && ids_of(out)[j] == id;
    assert(out[j].id == id);
    lemma_first_seen_contains(touched.reverse(), id);
    lemma_reverse_contains(touched, id);
    if j < disk.len() {
        assert(ids_of(disk)[j] == id);
    }
}

/// Every row on disk keeps its slot and its id, and a row that the transaction did not touch is
/// unchanged.
pub proof fn untouched_rows_are_kept<S>(
    disk: Seq<Row<S>>,
    snap: Seq<Row<S>>,
    touched: Seq<u64>,
    slot: int,
)
    requires
        0 <= slot < disk.len(),
    ensures
        slot < reconciled(disk, snap, touched).len(),
        reconciled(disk, snap, touched)[slot].id == disk[slot].id,
        !touched.contains(disk[slot].id) ==> reconciled(disk, snap, touched)[slot] == disk[slot],
{
    lemma_splice_ids(disk, snap, first_seen(touched.reverse()));
    lemma_first_seen_contains(touched.reverse(), disk[slot].id);
    lemma_reverse_contains(touched, disk[slot].id);
}

/// Every touched id that the snapshot holds is in the result with the snapshot's row.
pub proof fn touched_rows_land<S>(
    disk: Seq<Row<S>>,
    snap: Seq<Row<S>>,
    touched: Seq<u64>,
    id: u64,
)
    requires
        touched.contains(id),
        ids_of(snap).contains(id),
    ensures
        find_slot(ids_of(snap), id) is Some,
        find_slot(ids_of(reconciled(disk, snap, touched)), id) is Some,
        reconciled(disk, snap, touched)[find_slot(
            ids_of(reconciled(disk, snap, touched)),
            id,
        )->0] == snap[find_slot(ids_of(snap), id)->0],
{
    lemma_find_slot(ids_of(snap), id);
    lemma_first_seen_contains(touched.reverse(), id);
    lemma_reverse_contains(touched, id);
    lemma_splice_lands(disk, snap, first_seen(touched.reverse()), id);
}

/// Where no id repeats on disk, none repeats in the result, however often it was touched.
pub proof fn reconciling_keeps_ids_distinct<S>(
    disk: Seq<Row<S>>,
    snap: Seq<Row<S>>,
    touched: Seq<u64>,
)
    requires
        ids_of(disk).no_duplicates(),
    ensures
        ids_of(reconciled(disk, snap, touched)).no_duplicates(),
{
    lemma_splice_ids(disk, snap, first_seen(touched.reverse()));
}

/// Whether every row has a code of `stride` bytes.
pub open spec fn of_stride<S>(stride: nat, rs: Seq<Row<S>>) -> bool {
    forall|i: int| 0 <= i < rs.len() ==> (#[trigger] rs[i]).code.len() == stride
}

proof fn lemma_splice_stride<S>(
    stride: nat,
    disk: Seq<Row<S>>,
    snap: Seq<Row<S>>,
    ids: Seq<u64>,
)
    requires
        of_stride(stride, disk),
        of_stride(stride, snap),
    ensures
        of_stride(stride, splice(disk, snap, ids)),
    decreases ids.len(),
{
    if ids.len() > 0 {
        lemma_splice_stride(stride, disk, snap, ids.drop_last());
        let before = splice(disk, snap, ids.drop_last());
        lemma_find_slot(ids_of(snap), ids.last());
        lemma_find_slot(ids_of(before), ids.last());
    }
}

/// Reconciling rows of one stride gives rows of that stride.
pub proof fn reconciling_keeps_the_stride<S>(
    stride: nat,
    disk: Seq<Row<S>>,
    snap: Seq<Row<S>>,
    touched: Seq<u64>,
)
    requires
        of_stride(stride, disk),
        of_stride(stride, snap),
    ensures
        of_stride(stride, reconciled(disk, snap, touched)),
{
    lemma_splice_stride(stride, disk, snap, first_seen(touched.reverse()));
}

/// The rows of three tables that fit together have the stride of the tables.
pub proof fn image_rows_have_the_stride<S>(
    stride: nat,
    codes: Seq<u8>,
    scales: Seq<S>,
    ids: Seq<u64>,
)
    requires
        is_image(stride, codes, scales, ids),
    ensures
        of_stride(stride, rows(stride, codes, scales, ids)),
{
    let rs = rows(stride, codes, scales, ids);
    assert forall|i: int| 0 <= i < rs.len() implies (#[trigger] rs[i]).code.len() == stride by {
        lemma_row_apart(i, ids.len() as int, stride as int);
    }
}

} // verus!
