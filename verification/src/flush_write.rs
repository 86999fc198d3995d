//! The deferred flush as a whole-relation write.
use vstd::prelude::*;
use vstd::slice::slice_to_vec;

use crate::chain::run;
use crate::flush::{
    deleted_rows_stay_deleted, find_slot, ids_of, image_rows_have_the_stride, is_image,
    lemma_find_slot, of_stride, reconcile_flush_image, reconciled, reconciling_keeps_ids_distinct,
    reconciling_keeps_the_stride, rows, touched_rows_land, untouched_rows_are_kept, Row,
};
use crate::live_rows::{
    counting_rows_are_left, counts, is_live, live_ids_are_left_once, live_image, live_rows,
    live_rows_keep_the_stride, plain_rows_all_count,
};
use crate::page::{stride_of, MetaPageData, PAYLOAD_BYTES};
use crate::relfile::{
    blocks_needed, first_bad, first_duplicate_id, is_write, lemma_first_bad, table_fault,
    write_full_inner, Content, PreparedParts, Standing, WriteError, WritePlan,
};
use crate::relfile_laws::{rows_read, whole_pages, written_rows_read_back};

verus! {

/// The rows that a relation holds now, and the meta page that they belong to.
#[derive(Clone, Copy, Debug, PartialEq, Eq)]
pub struct DiskRows<'a> {
    pub meta: MetaPageData,
    pub codes: &'a [u8],
    pub scales: &'a [u32],
    pub ids: &'a [u64],
    /// The bitmap of the slots that were deleted; empty where none was.
    pub tombstones: &'a [u8],
}

/// The committing backend's own rows.
#[derive(Clone, Copy, Debug, PartialEq, Eq)]
pub struct Snapshot<'a> {
    pub codes: &'a [u8],
    pub scales: &'a [u32],
    pub ids: &'a [u64],
}

/// Why a flush is refused.
#[derive(Clone, Copy, Debug, PartialEq, Eq, Structural)]
pub enum FlushError {
    /// The id table on disk is no proper one: this id is 0 or stands in more than one slot.
    CorruptIds { id: u64 },
    /// The merged index cannot be written.
    Write(WriteError),
}

impl<'a> DiskRows<'a> {
    /// The rows.
    pub open spec fn rows(self, stride: nat) -> Seq<Row<u32>> {
        rows(stride, self.codes@, self.scales@, self.ids@)
    }

    /// The rows that were not deleted, each id once.
    pub open spec fn live(self, stride: nat) -> Seq<Row<u32>> {
        live_rows(self.rows(stride), self.tombstones@)
    }
}

impl<'a> Snapshot<'a> {
    /// The rows.
    pub open spec fn rows(self, stride: nat) -> Seq<Row<u32>> {
        rows(stride, self.codes@, self.scales@, self.ids@)
    }
}

/// The codes of `rs`, one after the other.
pub open spec fn codes_of(stride: nat, rs: Seq<Row<u32>>) -> Seq<u8> {
    Seq::new(rs.len() * stride, |i: int| rs[i / (stride as int)].code[i % (stride as int)])
}

/// The scales of `rs`, in order.
pub open spec fn scales_of(rs: Seq<Row<u32>>) -> Seq<u32> {
    Seq::new(rs.len(), |i: int| rs[i].scale)
}

/// The rows that a flush leaves: the transaction's upserts spliced onto the rows on disk that were not
/// deleted, each id once, or the snapshot where nothing is on disk.
pub open spec fn flushed_rows(
    stride: nat,
    disk: Option<DiskRows<'_>>,
    snap: Snapshot<'_>,
    touched: Seq<u64>,
) -> Seq<Row<u32>> {
    match disk {
        Some(d) => if d.meta.n_vectors > 0 {
            reconciled(d.live(stride), snap.rows(stride), touched)
        } else {
            snap.rows(stride)
        },
        None => snap.rows(stride),
    }
}

/// The id that keeps a flush from being reconciled with what is on disk, if there is one. Only where
/// the index on disk has no cells must its ids be proper ones.
pub open spec fn corrupt_id(disk: Option<DiskRows<'_>>) -> Option<u64> {
    match disk {
        Some(d) => if d.meta.n_vectors > 0 && d.meta.lists == 0 {
            match first_bad(d.ids@) {
                Some(slot) => Some(d.ids@[slot]),
                None => None,
            }
        } else {
            None
        },
        None => None,
    }
}

/// What the relation of a flush is before it.
pub open spec fn standing(disk: Option<DiskRows<'_>>, existing: u32) -> Standing {
    Standing {
        blocks: existing,
        meta: match disk {
            Some(d) => Some(d.meta),
            None => None,
        },
    }
}

/// Whether the blocks of a flat index of `n` rows can be numbered.
pub open spec fn room_for(
    bit_width: u8,
    dim: u32,
    n: u64,
    prepared: PreparedParts<'_>,
) -> bool {
    blocks_needed(bit_width, dim, n, Some(prepared), None, None) <= u32::MAX
}

/// The answer of the write inside the answer of a flush.
pub open spec fn write_part(r: Result<WritePlan, FlushError>) -> Result<WritePlan, WriteError> {
    match r {
        Ok(plan) => Ok(plan),
        Err(FlushError::Write(e)) => Err(e),
        Err(FlushError::CorruptIds { .. }) => arbitrary(),
    }
}

proof fn lemma_byte_of_row(i: int, stride: int, n: int)
    by (nonlinear_arith)
    requires
        stride > 0,
        0 <= i < n * stride,
    ensures
        0 <= i / stride < n,
        0 <= i % stride < stride,
        (i / stride) * stride + i % stride == i,
{
}

proof fn lemma_row_of_bytes(k: int, j: int, stride: int, n: int)
    by (nonlinear_arith)
    requires
        stride > 0,
        0 <= k < n,
        0 <= j < stride,
    ensures
        0 <= k * stride,
        k * stride + stride <= n * stride,
        (k * stride + j) / stride == k,
        (k * stride + j) % stride == j,
{
}

/// Three tables that fit together are determined by their rows.
pub proof fn rows_determine_tables(
    stride: nat,
    codes: Seq<u8>,
    scales: Seq<u32>,
    ids: Seq<u64>,
)
    requires
        stride > 0,
        is_image(stride, codes, scales, ids),
    ensures
        codes_of(stride, rows(stride, codes, scales, ids)) == codes,
        scales_of(rows(stride, codes, scales, ids)) == scales,
        ids_of(rows(stride, codes, scales, ids)) == ids,
{
    let rs = rows(stride, codes, scales, ids);
    let w = stride as int;
    assert forall|i: int| 0 <= i < codes.len() implies codes_of(stride, rs)[i] == codes[i] by {
        lemma_byte_of_row(i, w, ids.len() as int);
        lemma_row_of_bytes(i / w, i % w, w, ids.len() as int);
        assert(rs[i / w].code[i % w] == codes[(i / w) * w + i % w]);
    }
    assert(codes_of(stride, rs) =~= codes);
    assert(scales_of(rs) =~= scales);
    assert(ids_of(rs) =~= ids);
}

proof fn lemma_flush_is_proper(stride: nat, d: DiskRows<'_>, snap: Snapshot<'_>, touched: Seq<u64>)
    requires
        d.meta.n_vectors > 0,
        !ids_of(flushed_rows(stride, Some(d), snap, touched)).contains(0),
    ensures
        first_bad(ids_of(flushed_rows(stride, Some(d), snap, touched))) is None,
{
    let rs = flushed_rows(stride, Some(d), snap, touched);
    let ids = ids_of(rs);
    live_ids_are_left_once(d.rows(stride), d.tombstones@);
    reconciling_keeps_ids_distinct(d.live(stride), snap.rows(stride), touched);
    lemma_first_bad(ids);
    if let Some(slot) = first_bad(ids) {
        assert(ids.contains(ids[slot]));
        let k = choose|k: int| 0 <= k < ids.take(slot).len() && ids.take(slot)[k] == ids[slot];
        assert(ids[k] == ids[slot]);
    }
}

/// A flush brings no deleted row back and loses no other: the ids that it leaves are those of the
/// rows on disk that are not marked as deleted, and those that the transaction touched and its
/// snapshot holds.
pub proof fn flush_preserves_deletes(
    stride: nat,
    d: DiskRows<'_>,
    snap: Snapshot<'_>,
    touched: Seq<u64>,
    id: u64,
)
    requires
        d.meta.n_vectors > 0,
    ensures
        ids_of(flushed_rows(stride, Some(d), snap, touched)).contains(id) == (is_live(
            d.rows(stride),
            d.tombstones@,
            id,
        ) || (touched.contains(id) && ids_of(snap.rows(stride)).contains(id))),
        ids_of(flushed_rows(stride, Some(d), snap, touched)).no_duplicates(),
{
    let disk = d.live(stride);
    let snapped = snap.rows(stride);
    let rs = flushed_rows(stride, Some(d), snap, touched);
    live_ids_are_left_once(d.rows(stride), d.tombstones@);
    reconciling_keeps_ids_distinct(disk, snapped, touched);
    if ids_of(rs).contains(id) {
        deleted_rows_stay_deleted(disk, snapped, touched, id);
    }
    if ids_of(disk).contains(id) {
        let k = choose|k: int| 0 <= k < disk.len() && ids_of(disk)[k] == id;
        untouched_rows_are_kept(disk, snapped, touched, k);
        assert(ids_of(rs)[k] == id);
    }
    if touched.contains(id) && ids_of(snapped).contains(id) {
        touched_rows_land(disk, snapped, touched, id);
        lemma_find_slot(ids_of(rs), id);
        assert(ids_of(rs)[find_slot(ids_of(rs), id)->0] == id);
    }
}

/// Onto a flat index with a proper id table and nothing deleted, the upserts are spliced as it stands.
pub proof fn flush_onto_a_flat_index_takes_all_its_rows(
    stride: nat,
    d: DiskRows<'_>,
    snap: Snapshot<'_>,
    touched: Seq<u64>,
)
    requires
        d.meta.n_vectors > 0,
        d.meta.lists == 0,
        corrupt_id(Some(d)) is None,
        d.tombstones@.len() == 0,
    ensures
        flushed_rows(stride, Some(d), snap, touched) == reconciled(
            d.rows(stride),
            snap.rows(stride),
            touched,
        ),
{
    lemma_first_bad(d.ids@);
    assert(ids_of(d.rows(stride)) =~= d.ids@);
    assert(d.tombstones@ =~= Seq::<u8>::empty());
    plain_rows_all_count(d.rows(stride));
}

/// A row on disk that counts and that the transaction did not touch is left as it is.
pub proof fn flush_keeps_untouched_rows(
    stride: nat,
    d: DiskRows<'_>,
    snap: Snapshot<'_>,
    touched: Seq<u64>,
    slot: int,
)
    requires
        d.meta.n_vectors > 0,
        0 <= slot < d.rows(stride).len(),
        counts(ids_of(d.rows(stride)), d.tombstones@, slot),
        !touched.contains(d.rows(stride)[slot].id),
    ensures
        flushed_rows(stride, Some(d), snap, touched).contains(d.rows(stride)[slot]),
{
    let disk = d.live(stride);
    counting_rows_are_left(d.rows(stride), d.tombstones@, slot);
    let k = choose|k: int| 0 <= k < disk.len() && disk[k] == d.rows(stride)[slot];
    untouched_rows_are_kept(disk, snap.rows(stride), touched, k);
    assert(flushed_rows(stride, Some(d), snap, touched)[k] == disk[k]);
}

/// Plans the flush of one transaction: its upserts are spliced onto the rows that are on disk, and
/// the result is written over the `existing` blocks of the relation. Rows that were marked as deleted
/// stay deleted, and a row that several cells share is written once. Without rows on disk the snapshot
/// is written as it is.
pub fn reconcile_and_write_flush(
    bit_width: u8,
    dim: u32,
    disk: Option<DiskRows<'_>>,
    snap: Snapshot<'_>,
    touched_ids: &[u64],
    am_version: u32,
    prepared: PreparedParts<'_>,
    existing: u32,
) -> (r: Result<WritePlan, FlushError>)
    requires
        2 <= bit_width <= 4 && dim % 8 == 0 && 8 <= dim <= 16384,
        stride_of(bit_width as nat, dim as nat) <= PAYLOAD_BYTES,
        disk matches Some(d) ==> d.meta.n_vectors > 0 ==> is_image(
            stride_of(bit_width as nat, dim as nat),
            d.codes@,
            d.scales@,
            d.ids@,
        ),
        is_image(stride_of(bit_width as nat, dim as nat), snap.codes@, snap.scales@, snap.ids@),
    ensures
        match corrupt_id(disk) {
            Some(id) => r == Err::<WritePlan, FlushError>(FlushError::CorruptIds { id }),
            None => {
                let stride = stride_of(bit_width as nat, dim as nat);
                let rs = flushed_rows(stride, disk, snap, touched_ids@);
                &&& !(r matches Err(FlushError::CorruptIds { .. }))
                &&& is_write(
                    write_part(r),
                    bit_width,
                    dim,
                    rs.len() as u64,
                    codes_of(stride, rs),
                    scales_of(rs),
                    ids_of(rs),
                    am_version,
                    Some(prepared),
                    None,
                    None,
                    standing(disk, existing),
                )
                &&& disk matches Some(d) ==> d.meta.n_vectors > 0 ==> !ids_of(rs).contains(0)
                    ==> r is Ok == room_for(bit_width, dim, rs.len() as u64, prepared)
            },
        },
{
    let stride: usize = MetaPageData::codes_stride(bit_width, dim) as usize;
    assert(stride > 0) by (nonlinear_arith)
        requires
            stride == (dim / 8) * bit_width,
            dim >= 8,
            bit_width >= 2,
    ;
    let codes: Vec<u8>;
    let scales: Vec<u32>;
    let ids: Vec<u64>;
    match disk {
        Some(d) if d.meta.n_vectors > 0 => {
            if d.meta.lists == 0 {
                proof {
                    lemma_first_bad(d.ids@);
                }
                if let Some(id) = first_duplicate_id(d.ids) {
                    return Err(FlushError::CorruptIds { id });
                }
            }
            let live: (Vec<u8>, Vec<u32>, Vec<u64>) = live_image(
                stride,
                d.codes,
                d.scales,
                d.ids,
                d.tombstones,
            );
            let merged: (Vec<u8>, Vec<u32>, Vec<u64>) = reconcile_flush_image(
                stride,
                live.0.as_slice(),
                live.1.as_slice(),
                live.2.as_slice(),
                snap.codes,
                snap.scales,
                snap.ids,
                touched_ids,
            );
            codes = merged.0;
            scales = merged.1;
            ids = merged.2;
        },
        _ => {
            codes = slice_to_vec(snap.codes);
            scales = slice_to_vec(snap.scales);
            ids = slice_to_vec(snap.ids);
        },
    }
    proof {
        rows_determine_tables(stride as nat, codes@, scales@, ids@);
        let rs = flushed_rows(stride as nat, disk, snap, touched_ids@);
        assert(rs == rows(stride as nat, codes@, scales@, ids@));
        if let Some(d) = disk {
            if d.meta.n_vectors > 0 && !ids_of(rs).contains(0) {
                lemma_flush_is_proper(stride as nat, d, snap, touched_ids@);
                assert(table_fault(ids@.len() as u64, scales@, ids@, true) is None);
            }
        }
    }
    let over: Standing = Standing {
        blocks: existing,
        meta: match disk {
            Some(d) => Some(d.meta),
            None => None,
        },
    };
    let written: Result<WritePlan, WriteError> = write_full_inner(
        bit_width,
        dim,
        ids.len() as u64,
        codes.as_slice(),
        scales.as_slice(),
        ids.as_slice(),
        am_version,
        Some(prepared),
        None,
        None,
        over,
    );
    match written {
        Ok(plan) => Ok(plan),
        Err(e) => Err(FlushError::Write(e)),
    }
}

/// Reading a relation after a finished flush gives exactly the rows that the flush was to leave:
/// the transaction's upserts on what was on disk, or the snapshot where nothing was.
pub proof fn flushed_rows_read_back(
    c: Content,
    disk: Option<DiskRows<'_>>,
    snap: Snapshot<'_>,
    touched: Seq<u64>,
    pages: Seq<Seq<u8>>,
)
    requires
        c.consistent(),
        c.countable(),
        c.blocks() <= u32::MAX,
        pages.len() <= u32::MAX,
        whole_pages(pages),
        disk matches Some(d) ==> d.meta.n_vectors > 0 ==> is_image(
            stride_of(c.bit_width as nat, c.dim as nat),
            d.codes@,
            d.scales@,
            d.ids@,
        ),
        is_image(
            stride_of(c.bit_width as nat, c.dim as nat),
            snap.codes@,
            snap.scales@,
            snap.ids@,
        ),
        c.codes == codes_of(
            stride_of(c.bit_width as nat, c.dim as nat),
            flushed_rows(stride_of(c.bit_width as nat, c.dim as nat), disk, snap, touched),
        ),
        c.scales == scales_of(
            flushed_rows(stride_of(c.bit_width as nat, c.dim as nat), disk, snap, touched),
        ),
        c.ids == ids_of(
            flushed_rows(stride_of(c.bit_width as nat, c.dim as nat), disk, snap, touched),
        ),
    ensures
        ({
            let stride = stride_of(c.bit_width as nat, c.dim as nat);
            let got = rows_read(c.in_front().meta(), run(pages, c.ops(pages.len() as u32)));
            rows(stride, got.0, got.1, got.2) == flushed_rows(stride, disk, snap, touched)
        }),
{
    written_rows_read_back(c, pages);
    let stride = stride_of(c.bit_width as nat, c.dim as nat);
    let rs = flushed_rows(stride, disk, snap, touched);
    image_rows_have_the_stride(stride, snap.codes@, snap.scales@, snap.ids@);
    if let Some(d) = disk {
        if d.meta.n_vectors > 0 {
            image_rows_have_the_stride(stride, d.codes@, d.scales@, d.ids@);
            live_rows_keep_the_stride(stride, d.rows(stride), d.tombstones@);
            reconciling_keeps_the_stride(stride, d.live(stride), snap.rows(stride), touched);
        }
    }
    assert(of_stride(stride, rs));
    let got = rows(stride, c.codes, c.scales, c.ids);
    assert forall|k: int| 0 <= k < rs.len() implies got[k] == rs[k] by {
        assert forall|j: int| 0 <= j < stride implies got[k].code[j] == rs[k].code[j] by {
            lemma_row_of_bytes(k, j, stride as int, rs.len() as int);
            assert(got[k].code[j] == c.codes[k * stride + j]);
        }
        lemma_row_of_bytes(k, 0, stride as int, rs.len() as int);
        assert(got[k].code =~= rs[k].code);
    }
    assert(got =~= rs);
}

} // verus!
