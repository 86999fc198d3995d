//! Removing dead rows.
//!
//! A flat index closes each hole with its last row. An index whose rows must stay where they are,
//! because cells or edges refer to them, marks dead rows in a tombstone bitmap instead.
use vstd::prelude::*;

use crate::bitmap::{count_dead, is_tombstoned, merge_tombstones, names, tombstone_count};
use crate::bytes::u32s_to_bytes;
use crate::chain::{in_batches, ops_of, Action, Op, SlotCopy};
use crate::codec::meta_words;
use crate::graph::{entry_after, entry_point_after, GraphAdjacency};
use crate::page::{
    ceil_div, highest, pages_for_bytes, pages_for_rows, Codebook, MetaPageData, Span, KIND_GRAPH,
    PAYLOAD_BYTES,
};
use crate::relfile::{byte_chain, write_bytes_at, WriteError, WritePlan};

verus! {

/// How a removal pass begins.
#[derive(Clone, Copy, Debug, PartialEq, Eq)]
pub enum BulkDeleteStart {
    /// There is nothing in the index; the statistics stay as they are.
    Untouched,
    /// Nobody asks for removals; the statistics get this number of rows.
    Count(u64),
    /// Ask for each row whether it is dead.
    Walk(MetaPageData),
}

/// What a removal pass does to the relation and to the statistics.
#[derive(Debug, PartialEq, Eq)]
pub struct VacuumPlan {
    pub actions: Vec<Action>,
    /// The meta page afterwards.
    pub meta: MetaPageData,
    /// Rows that are live afterwards.
    pub num_index_tuples: u64,
    /// Rows that this pass found dead.
    pub tuples_removed: u64,
}

/// Decides how a removal pass begins.
pub fn bulkdelete_start(meta: Option<MetaPageData>, has_callback: bool) -> (r: BulkDeleteStart)
    ensures
        r == match meta {
            Some(m) => if m.n_vectors == 0 {
                BulkDeleteStart::Untouched
            } else if !has_callback {
                BulkDeleteStart::Count(m.n_vectors)
            } else {
                BulkDeleteStart::Walk(m)
            },
            None => BulkDeleteStart::Untouched,
        },
{
    match meta {
        Some(m) => {
            if m.n_vectors == 0 {
                BulkDeleteStart::Untouched
            } else if !has_callback {
                BulkDeleteStart::Count(m.n_vectors)
            } else {
                BulkDeleteStart::Walk(m)
            }
        },
        None => BulkDeleteStart::Untouched,
    }
}

/// Whether `dead` lists slots before `n`, each once, in rising order.
pub open spec fn rising_slots(dead: Seq<usize>, n: nat) -> bool {
    &&& forall|i: int| 0 <= i < dead.len() ==> #[trigger] dead[i] < n
    &&& forall|i: int, j: int| 0 <= i < j < dead.len() ==> dead[i] < dead[j]
}

/// The slots whose row is dead, in rising order.
pub fn collect_dead(is_dead: &[bool]) -> (r: Vec<usize>)
    ensures
        rising_slots(r@, is_dead@.len()),
        forall|s: int|
            0 <= s < is_dead@.len() ==> (#[trigger] is_dead@[s] == exists|i: int|
                0 <= i < r@.len() && r@[i] == s),
{
    let mut out: Vec<usize> = Vec::new();
    let mut slot: usize = 0;
    while slot < is_dead.len()
        invariant
            slot <= is_dead@.len(),
            rising_slots(out@, slot as nat),
            forall|s: int|
                0 <= s < slot ==> (#[trigger] is_dead@[s] == exists|i: int|
                    0 <= i < out@.len() && out@[i] == s),
        decreases is_dead@.len() - slot,
    {
        let ghost before = out@;
        if is_dead[slot] {
            out.push(slot);
        }
        proof {
            assert forall|s: int| 0 <= s < slot + 1 implies (#[trigger] is_dead@[s] == exists|i: int|
                0 <= i < out@.len() && out@[i] == s) by {
                if s < slot {
                    if is_dead@[s] {
                        let i = choose|i: int| 0 <= i < before.len() && before[i] == s;
                        assert(out@[i] == s);
                    } else {
                        assert forall|i: int| 0 <= i < out@.len() implies out@[i] != s by {
                            if i < before.len() {
                                assert(before[i] != s);
                            }
                        }
                    }
                } else if is_dead@[s] {
                    assert(out@[out@.len() - 1] == s);
                }
            }
        }
        slot += 1;
    }
    out
}

/// The copy of row `from` over row `to` of one chain.
pub open spec fn slot_copy(first: u32, stride: u32, rows_per_page: u32, from: u64, to: u64) -> SlotCopy {
    SlotCopy {
        src_blkno: (first + from / (rows_per_page as u64)) as u32,
        src_off: ((from % (rows_per_page as u64)) * stride) as usize,
        dst_blkno: (first + to / (rows_per_page as u64)) as u32,
        dst_off: ((to % (rows_per_page as u64)) * stride) as usize,
        len: stride as usize,
    }
}

/// Whether rows before `n` lie in numbered blocks, whole rows to a page.
pub open spec fn rows_fit(first: u32, stride: u32, rows_per_page: u32, n: u64) -> bool {
    &&& stride > 0
    &&& rows_per_page > 0
    &&& rows_per_page * stride <= PAYLOAD_BYTES
    &&& n > 0 ==> first + (n - 1) / (rows_per_page as int) < u32::MAX
}

/// Plans the copy of one row over another inside a chain; nothing where they are the same.
pub fn copy_slot_in_chain(
    first_blkno: u32,
    stride: u32,
    rows_per_page: u32,
    from_slot: u64,
    to_slot: u64,
) -> (r: Option<SlotCopy>)
    requires
        from_slot < u64::MAX,
        to_slot < u64::MAX,
        rows_fit(first_blkno, stride, rows_per_page, (from_slot + 1) as u64),
        rows_fit(first_blkno, stride, rows_per_page, (to_slot + 1) as u64),
    ensures
        r == if from_slot == to_slot {
            None
        } else {
            Some(slot_copy(first_blkno, stride, rows_per_page, from_slot, to_slot))
        },
{
    if from_slot == to_slot {
        return None;
    }
    let rpp: u64 = rows_per_page as u64;
    let width: usize = stride as usize;
    proof {
        lemma_offset_fits(from_slot % rpp, rpp, stride as u64);
        lemma_offset_fits(to_slot % rpp, rpp, stride as u64);
    }
    Some(
        SlotCopy {
            src_blkno: first_blkno + (from_slot / rpp) as u32,
            src_off: (from_slot % rpp) as usize * width,
            dst_blkno: first_blkno + (to_slot / rpp) as u32,
            dst_off: (to_slot % rpp) as usize * width,
            len: width,
        },
    )
}

proof fn lemma_offset_fits(r: u64, rpp: u64, stride: u64)
    by (nonlinear_arith)
    requires
        r < rpp,
        rpp * stride <= 8168,
    ensures
        0 <= r * stride,
        r * stride + stride <= 8168,
{
}

/// Whether the three row chains of an index can be addressed row by row.
pub open spec fn rows_addressable(m: MetaPageData) -> bool {
    &&& rows_fit(m.codes.first, m.stride_bytes, m.rows_per_codes_page, m.n_vectors)
    &&& rows_fit(m.scales.first, 4, m.rows_per_scales_page, m.n_vectors)
    &&& rows_fit(m.ids.first, 8, m.rows_per_ids_page, m.n_vectors)
}

/// Whether the rows of a chain lie on pages that hold them and can be numbered.
fn chain_fits(first: u32, stride: u32, rows_per_page: u32, n: u64) -> (r: bool)
    ensures
        r == rows_fit(first, stride, rows_per_page, n),
{
    if stride == 0 || rows_per_page == 0 {
        return false;
    }
    proof {
        assert(0 <= rows_per_page * stride <= 0xffff_ffff * 0xffff_ffff) by (nonlinear_arith)
            requires
                0 <= rows_per_page <= 0xffff_ffff,
                0 <= stride <= 0xffff_ffff,
        ;
    }
    if rows_per_page as u64 * stride as u64 > PAYLOAD_BYTES as u64 {
        return false;
    }
    if n == 0 {
        return true;
    }
    let page: u64 = (n - 1) / rows_per_page as u64;
    page < u32::MAX as u64 && first as u64 + page < u32::MAX as u64
}

/// Whether every row lies on pages that hold it and can be numbered.
pub fn can_move_rows(meta: &MetaPageData) -> (r: bool)
    ensures
        r == rows_addressable(*meta),
{
    chain_fits(meta.codes.first, meta.stride_bytes, meta.rows_per_codes_page, meta.n_vectors)
        && chain_fits(meta.scales.first, 4, meta.rows_per_scales_page, meta.n_vectors)
        && chain_fits(meta.ids.first, 8, meta.rows_per_ids_page, meta.n_vectors)
}

/// The operations that copy row `from` over row `to` in each of the three row chains.
pub open spec fn row_copies(m: MetaPageData, from: u64, to: u64) -> Seq<Op> {
    if from == to {
        Seq::empty()
    } else {
        seq![
            Op::CopySlot(slot_copy(m.codes.first, m.stride_bytes, m.rows_per_codes_page, from, to)),
            Op::CopySlot(slot_copy(m.scales.first, 4, m.rows_per_scales_page, from, to)),
            Op::CopySlot(slot_copy(m.ids.first, 8, m.rows_per_ids_page, from, to)),
        ]
    }
}

/// The operations that close the holes of `alive` rows, the last hole first: the last row that is
/// left is copied over the hole.
pub open spec fn closing_ops(m: MetaPageData, alive: nat, dead: Seq<usize>) -> Seq<Op>
    decreases dead.len(),
{
    if dead.len() == 0 {
        Seq::empty()
    } else {
        row_copies(m, (alive - 1) as u64, dead.last() as u64) + closing_ops(
            m,
            (alive - 1) as nat,
            dead.drop_last(),
        )
    }
}

fn push_copy(out: &mut Vec<Action>, copy: Option<SlotCopy>)
    ensures
        ops_of(final(out)@) == ops_of(old(out)@) + (match copy {
            Some(c) => seq![Op::CopySlot(c)],
            None => Seq::empty(),
        }),
{
    match copy {
        Some(c) => {
            out.push(Action::CopySlot(c));
        },
        None => {},
    }
    assert(ops_of(out@) =~= ops_of(old(out)@) + (match copy {
        Some(c) => seq![Op::CopySlot(c)],
        None => Seq::empty(),
    }));
}

proof fn lemma_block_numbered(rpp: int, slot: int, n: int)
    by (nonlinear_arith)
    requires
        rpp > 0,
        0 <= slot < n,
    ensures
        slot / rpp <= (n - 1) / rpp,
        0 <= slot / rpp,
{
}

proof fn lemma_slot_addressable(first: u32, stride: u32, rpp: u32, n: u64, slot: u64)
    requires
        rows_fit(first, stride, rpp, n),
        slot < n,
    ensures
        rows_fit(first, stride, rpp, (slot + 1) as u64),
{
    lemma_block_numbered(rpp as int, slot as int, n as int);
}

/// Plans the closing of the holes of a flat index.
fn close_holes(meta: &MetaPageData, dead_slots: &[usize]) -> (r: Vec<Action>)
    requires
        rows_addressable(*meta),
        rising_slots(dead_slots@, meta.n_vectors as nat),
    ensures
        ops_of(r@) == closing_ops(*meta, meta.n_vectors as nat, dead_slots@),
        dead_slots@.len() <= meta.n_vectors,
{
    let mut actions: Vec<Action> = Vec::new();
    let mut alive: u64 = meta.n_vectors;
    let mut i: usize = dead_slots.len();
    proof {
        assert(dead_slots@.take(i as int) =~= dead_slots@);
        assert(ops_of(actions@) + closing_ops(*meta, alive as nat, dead_slots@) =~= closing_ops(
            *meta,
            alive as nat,
            dead_slots@,
        ));
        lemma_rising_count(dead_slots@, meta.n_vectors as nat);
    }
    while i > 0
        invariant
            i <= dead_slots@.len() <= meta.n_vectors,
            alive == meta.n_vectors - (dead_slots@.len() - i),
            rows_addressable(*meta),
            rising_slots(dead_slots@, meta.n_vectors as nat),
            rising_slots(dead_slots@.take(i as int), alive as nat),
            ops_of(actions@) + closing_ops(*meta, alive as nat, dead_slots@.take(i as int))
                == closing_ops(*meta, meta.n_vectors as nat, dead_slots@),
        decreases i,
    {
        let s: u64 = dead_slots[i - 1] as u64;
        let last: u64 = alive - 1;
        let ghost before = ops_of(actions@);
        let ghost now = dead_slots@.take(i as int);
        proof {
            assert(now.last() == s);
            assert(now.drop_last() =~= dead_slots@.take(i - 1));
            assert(s < alive);
            lemma_slot_addressable(
                meta.codes.first,
                meta.stride_bytes,
                meta.rows_per_codes_page,
                meta.n_vectors,
                last,
            );
            lemma_slot_addressable(
                meta.codes.first,
                meta.stride_bytes,
                meta.rows_per_codes_page,
                meta.n_vectors,
                s,
            );
            lemma_slot_addressable(meta.scales.first, 4, meta.rows_per_scales_page, meta.n_vectors, last);
            lemma_slot_addressable(meta.scales.first, 4, meta.rows_per_scales_page, meta.n_vectors, s);
            lemma_slot_addressable(meta.ids.first, 8, meta.rows_per_ids_page, meta.n_vectors, last);
            lemma_slot_addressable(meta.ids.first, 8, meta.rows_per_ids_page, meta.n_vectors, s);
        }
        push_copy(
            &mut actions,
            copy_slot_in_chain(
                meta.codes.first,
                meta.stride_bytes,
                meta.rows_per_codes_page,
                last,
                s,
            ),
        );
        push_copy(
            &mut actions,
            copy_slot_in_chain(meta.scales.first, 4, meta.rows_per_scales_page, last, s),
        );
        push_copy(
            &mut actions,
            copy_slot_in_chain(meta.ids.first, 8, meta.rows_per_ids_page, last, s),
        );
        proof {
            let rest = closing_ops(*meta, (alive - 1) as nat, dead_slots@.take(i - 1));
            assert(ops_of(actions@) =~= before + row_copies(*meta, last, s));
            assert((before + row_copies(*meta, last, s)) + rest =~= before + (row_copies(
                *meta,
                last,
                s,
            ) + rest));
            assert(rising_slots(dead_slots@.take(i - 1), (alive - 1) as nat)) by {
                let part = dead_slots@.take(i - 1);
                assert forall|k: int| 0 <= k < part.len() implies #[trigger] part[k] < alive - 1 by {
                    assert(dead_slots@[k] < dead_slots@[i - 1]);
                }
            }
        }
        alive = last;
        i -= 1;
    }
    actions
}

proof fn lemma_rising_count(dead: Seq<usize>, n: nat)
    requires
        rising_slots(dead, n),
    ensures
        dead.len() <= n,
    decreases dead.len(),
{
    if dead.len() > 0 {
        let part = dead.drop_last();
        let top = dead.last() as nat;
        assert(rising_slots(part, top)) by {
            assert forall|k: int| 0 <= k < part.len() implies #[trigger] part[k] < top by {
                assert(dead[k] < dead[dead.len() - 1]);
            }
        }
        lemma_rising_count(part, top);
        assert(dead[dead.len() - 1] < n);
    }
}

/// The meta page after the rows of an index shrank in place: the chains stay where they are, what
/// depends on the order of the rows is dropped, and an index with cells is marked as degraded.
pub open spec fn shrunk_meta(old: MetaPageData, n: u64, am_version: u32, blank: Codebook) -> MetaPageData {
    MetaPageData {
        n_vectors: n,
        am_version,
        codes: Span {
            first: old.codes.first,
            count: pages_for_rows(n as nat, old.rows_per_codes_page as nat) as u32,
        },
        scales: Span {
            first: old.scales.first,
            count: pages_for_rows(n as nat, old.rows_per_scales_page as nat) as u32,
        },
        ids: Span {
            first: old.ids.first,
            count: pages_for_rows(n as nat, old.rows_per_ids_page as nat) as u32,
        },
        blocked: Span { first: 0, count: 0 },
        blocked_bytes: 0,
        n_blocks_blocked: 0,
        codebook: blank,
        ivf_degraded: old.lists > 0,
        ..old
    }
}

/// The meta page after the rows of an index shrank in place to `new_n_vectors`.
pub fn write_meta_shrink_in_place(old: &MetaPageData, new_n_vectors: u64, new_am_version: u32) -> (r:
    MetaPageData)
    requires
        pages_for_rows(new_n_vectors as nat, old.rows_per_codes_page as nat) <= u32::MAX,
        pages_for_rows(new_n_vectors as nat, old.rows_per_scales_page as nat) <= u32::MAX,
        pages_for_rows(new_n_vectors as nat, old.rows_per_ids_page as nat) <= u32::MAX,
    ensures
        r.codebook.is_blank(),
        r == shrunk_meta(*old, new_n_vectors, new_am_version, r.codebook),
{
    MetaPageData {
        n_vectors: new_n_vectors,
        am_version: new_am_version,
        codes: Span {
            first: old.codes.first,
            count: MetaPageData::pages_needed(new_n_vectors, old.rows_per_codes_page) as u32,
        },
        scales: Span {
            first: old.scales.first,
            count: MetaPageData::pages_needed(new_n_vectors, old.rows_per_scales_page) as u32,
        },
        ids: Span {
            first: old.ids.first,
            count: MetaPageData::pages_needed(new_n_vectors, old.rows_per_ids_page) as u32,
        },
        blocked: Span { first: 0, count: 0 },
        blocked_bytes: 0,
        n_blocks_blocked: 0,
        codebook: Codebook::blank(),
        ivf_degraded: old.index_was_ivf(),
        ..*old
    }
}

/// The number of blocks that a shrunk index still needs: up to the end of its ids, and of its
/// calibration chain where it has one behind them.
pub open spec fn blocks_after_shrink(m: MetaPageData) -> int {
    let ids_end = m.ids.first + pages_for_rows(m.n_vectors as nat, m.rows_per_ids_page as nat);
    let rotation_end = m.rotation.first + m.rotation.count;
    if m.rotation.count > 0 && rotation_end > ids_end {
        rotation_end
    } else {
        ids_end
    }
}

/// How many blocks to cut a shrunk relation of `cur` blocks down to, where there is anything to cut.
pub fn truncate_ids_tail(meta: &MetaPageData, cur: u32) -> (r: Option<u32>)
    ensures
        r == if meta.n_vectors == 0 && meta.ids.first == 0 {
            None
        } else if cur > blocks_after_shrink(*meta) {
            Some(blocks_after_shrink(*meta) as u32)
        } else {
            None
        },
{
    if meta.n_vectors == 0 && meta.ids.first == 0 {
        return None;
    }
    let ids_pages: u64 = MetaPageData::pages_needed(meta.n_vectors, meta.rows_per_ids_page);
    if ids_pages > u32::MAX as u64 {
        return None;
    }
    let ids_end: u64 = meta.ids.first as u64 + ids_pages;
    let rotation_end: u64 = meta.rotation.first as u64 + meta.rotation.count as u64;
    let new_total: u64 = if meta.rotation.count > 0 && rotation_end > ids_end {
        rotation_end
    } else {
        ids_end
    };
    if cur as u64 > new_total {
        Some(new_total as u32)
    } else {
        None
    }
}

/// The index without a tombstone chain.
pub open spec fn unmarked(m: MetaPageData) -> MetaPageData {
    MetaPageData { tombstone: Span { first: 0, count: 0 }, ..m }
}

/// Where the tombstone chain begins: where it is, if that is behind every other chain, and right
/// behind them otherwise.
pub open spec fn tombstone_start(m: MetaPageData) -> int {
    if m.tombstone.first >= highest(unmarked(m).extents()) {
        m.tombstone.first as int
    } else {
        highest(unmarked(m).extents()) as int
    }
}

/// The meta page with a tombstone chain for `bitmap`.
pub open spec fn tombstone_meta(old: MetaPageData, bitmap: Seq<u8>, am_version: u32) -> MetaPageData {
    MetaPageData {
        am_version,
        tombstone: Span {
            first: tombstone_start(old) as u32,
            count: pages_for_bytes(bitmap.len()) as u32,
        },
        tombstone_bytes: bitmap.len() as u64,
        ivf_degraded: false,
        ..old
    }
}

/// The operations that write a tombstone bitmap: make room, write it, write the meta page last.
pub open spec fn tombstone_ops(old: MetaPageData, bitmap: Seq<u8>, am_version: u32, existing: u32) -> Seq<
    Op,
> {
    let meta = tombstone_meta(old, bitmap, am_version);
    let needed = (meta.tombstone.first + meta.tombstone.count) as nat;
    ((if existing < needed {
        seq![Op::ExtendTo(needed)]
    } else {
        Seq::empty()
    }) + (if bitmap.len() == 0 {
        Seq::empty()
    } else {
        in_batches(byte_chain(meta.tombstone, bitmap).writes())
    })).push(Op::WriteMeta(u32s_to_bytes(meta_words(meta))))
}

/// Plans the writing of a tombstone bitmap behind every other chain, and of a meta page that refers
/// to it, over a relation of `existing` blocks.
pub fn write_tombstones_and_meta(
    old: &MetaPageData,
    bitmap: &[u8],
    new_am_version: u32,
    existing: u32,
) -> (r: Result<WritePlan, WriteError>)
    ensures
        r is Ok == (tombstone_start(*old) + pages_for_bytes(bitmap@.len()) <= u32::MAX),
        r matches Err(e) ==> e == WriteError::TooManyBlocks,
        r matches Ok(plan) ==> {
            &&& plan.meta == tombstone_meta(*old, bitmap@, new_am_version)
            &&& ops_of(plan.actions@) == tombstone_ops(*old, bitmap@, new_am_version, existing)
        },
{
    let tombstone_bytes: u64 = bitmap.len() as u64;
    let count: u64 = MetaPageData::byte_pages_needed(tombstone_bytes);
    let mut others: MetaPageData = *old;
    others.tombstone = Span { first: 0, count: 0 };
    assert(others == unmarked(*old));
    let behind: u64 = others.used_blocks().1;
    let first: u64 = if old.tombstone.first as u64 >= behind {
        old.tombstone.first as u64
    } else {
        behind
    };
    let limit: u64 = u32::MAX as u64;
    if count > limit || first + count > limit {
        return Err(WriteError::TooManyBlocks);
    }
    let meta = MetaPageData {
        am_version: new_am_version,
        tombstone: Span { first: first as u32, count: count as u32 },
        tombstone_bytes,
        ivf_degraded: false,
        ..*old
    };
    let needed: u32 = (first + count) as u32;
    let mut actions: Vec<Action> = Vec::new();
    if existing < needed {
        actions.push(Action::ExtendTo(needed));
    }
    assert(ops_of(actions@) =~= if existing < needed {
        seq![Op::ExtendTo(needed as nat)]
    } else {
        Seq::empty()
    });
    write_bytes_at(&mut actions, meta.tombstone, bitmap);
    actions.push(Action::WriteMeta(meta.encode()));
    assert(ops_of(actions@) =~= tombstone_ops(*old, bitmap@, new_am_version, existing));
    Ok(WritePlan { meta, actions })
}

/// How the rows of an index are removed.
pub enum Removal {
    /// Holes are closed.
    Close,
    /// Rows are marked; cells refer to them.
    MarkCells,
    /// Rows are marked; edges refer to them.
    MarkNodes,
}

/// How dead rows of this index are removed.
pub open spec fn removal(m: MetaPageData) -> Removal {
    if m.clustered() {
        Removal::MarkCells
    } else if m.kind == KIND_GRAPH {
        Removal::MarkNodes
    } else {
        Removal::Close
    }
}

/// `v + 1`, staying at the largest value.
pub open spec fn next_version(v: u32) -> u32 {
    if v == u32::MAX {
        v
    } else {
        (v + 1) as u32
    }
}

/// The operations that remove dead rows from a flat index.
pub open spec fn close_ops(m: MetaPageData, dead: Seq<usize>, existing: u32, blank: Codebook) -> Seq<Op> {
    let n = (m.n_vectors - dead.len()) as u64;
    let shrunk = shrunk_meta(m, n, next_version(m.am_version), blank);
    let smaller = MetaPageData { n_vectors: n, ..m };
    closing_ops(m, m.n_vectors as nat, dead).push(
        Op::WriteMeta(u32s_to_bytes(meta_words(shrunk))),
    ) + (if !(n == 0 && m.ids.first == 0) && existing > blocks_after_shrink(smaller) {
        seq![Op::Truncate(blocks_after_shrink(smaller) as nat)]
    } else {
        Seq::empty()
    })
}

/// `n` less the marked slots, not below 0.
pub open spec fn live_count(n: u64, bitmap: Seq<u8>) -> u64 {
    if tombstone_count(bitmap) <= n {
        (n - tombstone_count(bitmap)) as u64
    } else {
        0
    }
}

/// Whether a bitmap marks the slots of `before` and the dead slots, and has a bit for each of the `n`
/// slots.
pub open spec fn marks(bitmap: Seq<u8>, before: Seq<u8>, n: u64, dead: Seq<usize>) -> bool {
    &&& bitmap.len() == if before.len() < ceil_div(n as nat, 8) {
        ceil_div(n as nat, 8)
    } else {
        before.len()
    }
    &&& forall|s: int| #[trigger]
        is_tombstoned(bitmap, s) == (is_tombstoned(before, s) || exists|i: int|
            0 <= i < dead.len() && dead[i] == s && s < n)
}

/// The meta page that a marking pass starts from: a graph index gets a new entry point where it
/// needs one.
pub open spec fn marked_base(m: MetaPageData, g: Option<GraphAdjacency>, bitmap: Seq<u8>) -> MetaPageData {
    if removal(m) is MarkNodes {
        MetaPageData {
            graph_entry_point: entry_after(
                m.graph_entry_point,
                m.n_vectors as nat,
                g,
                bitmap,
            ) as u32,
            ..m
        }
    } else {
        m
    }
}

/// Whether `r` marks the dead rows of an index in `bitmap`, over a relation of `existing` blocks, and
/// writes nothing else.
pub open spec fn is_marking(
    r: Result<VacuumPlan, WriteError>,
    m: MetaPageData,
    g: Option<GraphAdjacency>,
    before: Seq<u8>,
    dead: Seq<usize>,
    existing: u32,
    bitmap: Seq<u8>,
) -> bool {
    let base = marked_base(m, g, bitmap);
    let version = next_version(m.am_version);
    &&& marks(bitmap, before, m.n_vectors, dead)
    &&& r is Ok == (tombstone_start(base) + pages_for_bytes(bitmap.len()) <= u32::MAX)
    &&& r matches Err(e) ==> e == WriteError::TooManyBlocks
    &&& r matches Ok(plan) ==> {
        &&& plan.meta == tombstone_meta(base, bitmap, version)
        &&& ops_of(plan.actions@) == tombstone_ops(base, bitmap, version, existing)
        &&& plan.num_index_tuples == live_count(m.n_vectors, bitmap)
        &&& plan.tuples_removed == dead.len()
    }
}

/// Plans the removal of the dead rows of an index over a relation of `existing` blocks.
/// `tombstones` is the bitmap that the relation holds, `adjacency` the graph where the index is one.
pub fn plan_bulkdelete(
    meta: &MetaPageData,
    dead_slots: &[usize],
    tombstones: &[u8],
    adjacency: &Option<GraphAdjacency>,
    existing: u32,
) -> (r: Result<VacuumPlan, WriteError>)
    requires
        meta.n_vectors <= usize::MAX,
        rising_slots(dead_slots@, meta.n_vectors as nat),
        removal(*meta) is Close ==> rows_addressable(*meta),
        !(removal(*meta) is Close) ==> 8 * tombstones@.len() <= u64::MAX - 8,
        !(removal(*meta) is Close) ==> meta.n_vectors <= u64::MAX - 8,
        removal(*meta) is MarkNodes ==> meta.n_vectors <= u32::MAX,
        removal(*meta) is MarkNodes ==> (adjacency matches Some(g) ==> g.well_formed() && g.slots()
            == meta.n_vectors),
    ensures
        dead_slots@.len() == 0 ==> (r matches Ok(plan) && ops_of(plan.actions@).len() == 0
            && plan.meta == *meta && plan.num_index_tuples == meta.n_vectors && plan.tuples_removed
            == 0),
        dead_slots@.len() > 0 && removal(*meta) is Close ==> (r matches Ok(plan)
            && plan.meta.codebook.is_blank() && plan.meta == shrunk_meta(
            *meta,
            (meta.n_vectors - dead_slots@.len()) as u64,
            next_version(meta.am_version),
            plan.meta.codebook,
        ) && ops_of(plan.actions@) == close_ops(*meta, dead_slots@, existing, plan.meta.codebook)
            && plan.num_index_tuples == meta.n_vectors - dead_slots@.len() && plan.tuples_removed
            == dead_slots@.len()),
        dead_slots@.len() > 0 && !(removal(*meta) is Close) ==> exists|bitmap: Seq<u8>| #[trigger]
            is_marking(r, *meta, *adjacency, tombstones@, dead_slots@, existing, bitmap),
{
    let removed: u64 = dead_slots.len() as u64;
    if dead_slots.len() == 0 {
        return Ok(
            VacuumPlan {
                actions: Vec::new(),
                meta: *meta,
                num_index_tuples: meta.n_vectors,
                tuples_removed: 0,
            },
        );
    }
    let version: u32 = meta.am_version.saturating_add(1);
    if meta.has_ivf() || meta.is_graph() {
        let n: usize = meta.n_vectors as usize;
        let bitmap: Vec<u8> = merge_tombstones(tombstones, n, dead_slots);
        proof {
            assert forall|s: int| #[trigger]
                is_tombstoned(bitmap@, s) == (is_tombstoned(tombstones@, s) || exists|i: int|
                    0 <= i < dead_slots@.len() && dead_slots@[i] == s && s < n) by {
                assert(is_tombstoned(bitmap@, s) == (is_tombstoned(tombstones@, s) || names(
                    dead_slots@,
                    n as int,
                    s,
                )));
            }
        }
        assert(marks(bitmap@, tombstones@, meta.n_vectors, dead_slots@));
        let total_dead: u64 = count_dead(bitmap.as_slice());
        let mut base: MetaPageData = *meta;
        if !meta.has_ivf() {
            base.graph_entry_point = entry_point_after(
                meta.graph_entry_point,
                meta.n_vectors as u32,
                adjacency,
                bitmap.as_slice(),
            );
        }
        assert(base == marked_base(*meta, *adjacency, bitmap@));
        let live: u64 = if total_dead <= meta.n_vectors {
            meta.n_vectors - total_dead
        } else {
            0
        };
        let planned: Result<VacuumPlan, WriteError> = match write_tombstones_and_meta(
            &base,
            bitmap.as_slice(),
            version,
            existing,
        ) {
            Ok(plan) => Ok(
                VacuumPlan {
                    actions: plan.actions,
                    meta: plan.meta,
                    num_index_tuples: live,
                    tuples_removed: removed,
                },
            ),
            Err(e) => Err(e),
        };
        assert(is_marking(
            planned,
            *meta,
            *adjacency,
            tombstones@,
            dead_slots@,
            existing,
            bitmap@,
        ));
        return planned;
    }
    let mut actions: Vec<Action> = close_holes(meta, dead_slots);
    let new_n: u64 = meta.n_vectors - removed;
    proof {
        lemma_pages_numbered(
            meta.codes.first,
            meta.stride_bytes,
            meta.rows_per_codes_page,
            meta.n_vectors,
            new_n,
        );
        lemma_pages_numbered(meta.scales.first, 4, meta.rows_per_scales_page, meta.n_vectors, new_n);
        lemma_pages_numbered(meta.ids.first, 8, meta.rows_per_ids_page, meta.n_vectors, new_n);
    }
    let shrunk: MetaPageData = write_meta_shrink_in_place(meta, new_n, version);
    actions.push(Action::WriteMeta(shrunk.encode()));
    let mut smaller: MetaPageData = *meta;
    smaller.n_vectors = new_n;
    if let Some(total) = truncate_ids_tail(&smaller, existing) {
        actions.push(Action::Truncate(total));
    }
    assert(ops_of(actions@) =~= close_ops(*meta, dead_slots@, existing, shrunk.codebook));
    Ok(
        VacuumPlan {
            actions,
            meta: shrunk,
            num_index_tuples: new_n,
            tuples_removed: removed,
        },
    )
}

proof fn lemma_pages_numbered(first: u32, stride: u32, rpp: u32, n: u64, fewer: u64)
    requires
        rows_fit(first, stride, rpp, n),
        fewer < n,
    ensures
        pages_for_rows(fewer as nat, rpp as nat) <= u32::MAX,
{
    let k = rpp as int;
    lemma_block_numbered(k, fewer as int, n as int);
    if fewer > 0 {
        lemma_block_numbered(k, fewer - 1, n as int);
        lemma_last_page(k, fewer as int);
    } else {
        crate::chain::lemma_ceil(rpp as nat, 0, 0);
    }
}

proof fn lemma_last_page(k: int, n: int)
    by (nonlinear_arith)
    requires
        k > 0,
        n > 0,
    ensures
        n % k == 0 ==> n / k == (n - 1) / k + 1,
        n % k != 0 ==> n / k == (n - 1) / k,
{
}

} // verus!
