//! What a removal pass does to the rows.
use vstd::prelude::*;

use crate::bitmap::{is_tombstoned, the_marked_slots_are_counted};
use crate::bytes::u32s_to_bytes;
use crate::chain::{
    chain_ops, chains_are_written, copy_slot, image, in_batches, in_chains, in_order,
    laid_out_chain_is_held, lemma_ceil, ops_of, run, run_concat, step, write_page, Chain, Op,
    SlotCopy,
};
use crate::codec::{meta_words, reads_as};
use crate::graph::{
    entry_after, entry_point_is_a_slot, entry_point_is_live, entry_point_leads_on, good_start,
    GraphAdjacency,
};
use crate::layout_laws::{just_enough, lemma_just_enough};
use crate::page::{
    highest, lemma_extent_bounds, lemma_highest_positive, pages_for_bytes, pages_for_rows,
    row_extent, Codebook, MetaPageData, Span, GRAPH_VERSION, KIND_GRAPH, MIN_DECODE_VERSION,
    PAYLOAD_BYTES,
};
use crate::reads::{chain_reads_fetch_what_is_stored, held_chain_is_stored};
use crate::relfile::{byte_chain, WriteError, WritePlan};
use crate::relfile_laws::{
    bytes_read, lemma_row_reads_alike, rows_read, rows_readable, whole_pages,
    written_meta_page_reads_back,
};
use crate::vacuum::{
    blocks_after_shrink, bulkdelete_start, can_move_rows, close_ops, closing_ops, collect_dead,
    copy_slot_in_chain, is_marking, marked_base, marks, next_version, plan_bulkdelete, removal,
    rising_slots, row_copies, rows_fit, shrunk_meta, slot_copy, tombstone_meta, tombstone_ops,
    tombstone_start, truncate_ids_tail, unmarked, write_meta_shrink_in_place,
    write_tombstones_and_meta, BulkDeleteStart, VacuumPlan,
};

verus! {

/// Whether `slot` is one of the dead slots.
pub open spec fn listed(dead: Seq<usize>, slot: int) -> bool {
    exists|k: int| 0 <= k < dead.len() && #[trigger] dead[k] == slot
}

/// `xs` after each hole, the last one first, was closed with the last element that is left.
pub open spec fn closed_up<T>(xs: Seq<T>, dead: Seq<usize>) -> Seq<T>
    decreases dead.len(),
{
    if dead.len() == 0 {
        xs
    } else {
        closed_up(xs.update(dead.last() as int, xs.last()).drop_last(), dead.drop_last())
    }
}

/// Which slot each slot gets its row from when the holes of `n` rows are closed.
pub open spec fn origins(n: nat, dead: Seq<usize>) -> Seq<int> {
    closed_up(Seq::new(n, |i: int| i), dead)
}

proof fn lemma_rising_prefix(dead: Seq<usize>, n: nat)
    requires
        rising_slots(dead, n),
        dead.len() > 0,
    ensures
        rising_slots(dead.drop_last(), dead.last() as nat),
        rising_slots(dead.drop_last(), (n - 1) as nat),
        dead.last() < n,
        n > 0,
{
    let part = dead.drop_last();
    assert(dead[dead.len() - 1] < n);
    assert forall|k: int| 0 <= k < part.len() implies #[trigger] part[k] < dead.last() by {
        assert(dead[k] < dead[dead.len() - 1]);
    }
}

proof fn lemma_closed_up_members<T>(xs: Seq<T>, dead: Seq<usize>)
    requires
        xs.no_duplicates(),
        rising_slots(dead, xs.len()),
    ensures
        closed_up(xs, dead).len() == xs.len() - dead.len(),
        closed_up(xs, dead).no_duplicates(),
        forall|v: T| #[trigger]
            closed_up(xs, dead).contains(v) == exists|i: int|
                0 <= i < xs.len() && xs[i] == v && !listed(dead, i),
    decreases dead.len(),
{
    if dead.len() == 0 {
        assert forall|v: T| #[trigger] closed_up(xs, dead).contains(v) == exists|i: int|
            0 <= i < xs.len() && xs[i] == v && !listed(dead, i) by {
            if xs.contains(v) {
                let i = choose|i: int| 0 <= i < xs.len() && xs[i] == v;
                assert(!listed(dead, i));
            }
        }
    } else {
        let s = dead.last() as int;
        let last = xs.len() - 1;
        let rest = dead.drop_last();
        let ys = xs.update(s, xs.last()).drop_last();
        lemma_rising_prefix(dead, xs.len());
        assert(ys.no_duplicates()) by {
            assert forall|i: int, j: int| 0 <= i < ys.len() && 0 <= j < ys.len() && i != j implies
                ys[i] != ys[j] by {
                let a = if i == s {
                    last
                } else {
                    i
                };
                let b = if j == s {
                    last
                } else {
                    j
                };
                assert(ys[i] == xs[a] && ys[j] == xs[b] && a != b);
            }
        }
        lemma_closed_up_members(ys, rest);
        let out = closed_up(xs, dead);
        assert forall|v: T| #[trigger] out.contains(v) == exists|i: int|
            0 <= i < xs.len() && xs[i] == v && !listed(dead, i) by {
            if out.contains(v) {
                let i = choose|i: int|
                    0 <= i < ys.len() && ys[i] == v && !listed(rest, i);
                let a = if i == s {
                    last
                } else {
                    i
                };
                assert(xs[a] == v);
                if listed(dead, a) {
                    let k = choose|k: int| 0 <= k < dead.len() && #[trigger] dead[k] == a;
                    if k < rest.len() {
                        assert(rest[k] == a);
                        assert(a < s);
                        assert(listed(rest, i));
                    } else {
                        assert(a == s);
                    }
                }
            }
            if exists|i: int| 0 <= i < xs.len() && xs[i] == v && !listed(dead, i) {
                let i = choose|i: int|
                    0 <= i < xs.len() && xs[i] == v && !listed(dead, i);
                assert(dead[dead.len() - 1] == s);
                assert(i != s);
                let b = if i == last {
                    s
                } else {
                    i
                };
                assert(ys[b] == v);
                if listed(rest, b) {
                    let k = choose|k: int| 0 <= k < rest.len() && #[trigger] rest[k] == b;
                    assert(dead[k] == b);
                    assert(rest[k] < s);
                }
            }
        }
    }
}

proof fn lemma_closed_up_picks<T>(xs: Seq<T>, picks: Seq<int>, dead: Seq<usize>)
    requires
        rising_slots(dead, picks.len()),
        forall|i: int| 0 <= i < picks.len() ==> 0 <= #[trigger] picks[i] < xs.len(),
    ensures
        closed_up(Seq::new(picks.len(), |i: int| xs[picks[i]]), dead).len() == closed_up(
            picks,
            dead,
        ).len(),
        forall|j: int|
            #![trigger closed_up(picks, dead)[j]]
            0 <= j < closed_up(picks, dead).len() ==> {
                &&& 0 <= closed_up(picks, dead)[j] < xs.len()
                &&& closed_up(Seq::new(picks.len(), |i: int| xs[picks[i]]), dead)[j]
                    == xs[closed_up(picks, dead)[j]]
            },
    decreases dead.len(),
{
    if dead.len() > 0 {
        let s = dead.last() as int;
        lemma_rising_prefix(dead, picks.len());
        let rest = picks.update(s, picks.last()).drop_last();
        assert forall|i: int| 0 <= i < rest.len() implies 0 <= #[trigger] rest[i] < xs.len() by {
            assert(0 <= picks[i] < xs.len());
            assert(0 <= picks[picks.len() - 1] < xs.len());
        }
        lemma_closed_up_picks(xs, rest, dead.drop_last());
        let all = Seq::new(picks.len(), |i: int| xs[picks[i]]);
        assert(all.update(s, all.last()).drop_last() =~= Seq::new(
            rest.len(),
            |i: int| xs[rest[i]],
        ));
    }
}

/// Closing the holes keeps every live row and nothing else: each slot that is left gets its row from
/// one live slot, and each live slot gives its row to exactly one slot.
pub proof fn closing_keeps_exactly_the_live_rows<T>(rows: Seq<T>, dead: Seq<usize>)
    requires
        rising_slots(dead, rows.len()),
    ensures
        closed_up(rows, dead).len() == rows.len() - dead.len(),
        origins(rows.len(), dead).len() == rows.len() - dead.len(),
        origins(rows.len(), dead).no_duplicates(),
        forall|j: int|
            #![trigger origins(rows.len(), dead)[j]]
            0 <= j < rows.len() - dead.len() ==> {
                let i = origins(rows.len(), dead)[j];
                0 <= i < rows.len() && !listed(dead, i) && closed_up(rows, dead)[j]
                    == rows[i]
            },
        forall|i: int|
            0 <= i < rows.len() && !listed(dead, i) ==> #[trigger] origins(
                rows.len(),
                dead,
            ).contains(i),
{
    let n = rows.len();
    let all = Seq::new(n, |i: int| i);
    let from = origins(n, dead);
    lemma_closed_up_members(all, dead);
    lemma_closed_up_picks(rows, all, dead);
    assert(Seq::new(all.len(), |i: int| rows[all[i]]) =~= rows);
    assert forall|j: int| 0 <= j < n - dead.len() implies !listed(dead, #[trigger] from[j]) by {
        assert(from.contains(from[j]));
        let i = choose|i: int| 0 <= i < n && all[i] == from[j] && !listed(dead, i);
        assert(i == from[j]);
    }
    assert forall|i: int| 0 <= i < n && !listed(dead, i) implies #[trigger] from.contains(
        i,
    ) by {
        assert(all[i] == i);
    }
}

/// Row `slot` of a chain.
pub open spec fn row_at(pages: Seq<Seq<u8>>, first: u32, stride: u32, rpp: u32, slot: int) -> Seq<u8> {
    pages[first + slot / (rpp as int)].subrange(
        (slot % (rpp as int)) * stride,
        (slot % (rpp as int)) * stride + stride,
    )
}

/// The first `n` rows of a chain.
pub open spec fn table(pages: Seq<Seq<u8>>, first: u32, stride: u32, rpp: u32, n: nat) -> Seq<
    Seq<u8>,
> {
    Seq::new(n, |slot: int| row_at(pages, first, stride, rpp, slot))
}

/// Whether the chain of `n` rows lies behind block 0 and inside `blocks` blocks.
pub open spec fn rows_inside(first: u32, rpp: u32, n: u64, blocks: nat) -> bool {
    1 <= first && first + pages_for_rows(n as nat, rpp as nat) <= blocks
}

proof fn lemma_slot_block(first: u32, rpp: u32, n: u64, blocks: nat, slot: int)
    requires
        rpp > 0,
        rows_inside(first, rpp, n, blocks),
        0 <= slot < n,
    ensures
        0 <= slot / (rpp as int) < pages_for_rows(n as nat, rpp as nat),
        1 <= first + slot / (rpp as int) < blocks,
{
    let p = slot / (rpp as int);
    vstd::arithmetic::div_mod::lemma_fundamental_div_mod(slot, rpp as int);
    vstd::arithmetic::div_mod::lemma_div_pos_is_pos(slot, rpp as int);
    assert(p * rpp <= slot) by (nonlinear_arith)
        requires
            slot == rpp * p + slot % (rpp as int),
            slot % (rpp as int) >= 0,
    ;
    lemma_ceil(rpp as nat, p as nat, n as nat);
}

proof fn lemma_row_inside_page(stride: u32, rpp: u32, slot: int)
    requires
        stride > 0,
        rpp > 0,
        rpp * stride <= PAYLOAD_BYTES,
    ensures
        0 <= (slot % (rpp as int)) * stride,
        (slot % (rpp as int)) * stride + stride <= PAYLOAD_BYTES,
{
    let r = slot % (rpp as int);
    assert(0 <= r * stride && r * stride + stride <= rpp * stride) by (nonlinear_arith)
        requires
            0 <= r < rpp,
            stride > 0,
    ;
}

proof fn lemma_rows_apart(stride: int, a: int, b: int)
    by (nonlinear_arith)
    requires
        stride > 0,
        0 <= a < b,
    ensures
        a * stride + stride <= b * stride,
{
}

/// Copying a row inside a chain changes that row only, and only the block that it lies in.
pub proof fn copying_a_row_changes_that_row(
    pages: Seq<Seq<u8>>,
    first: u32,
    stride: u32,
    rpp: u32,
    n: u64,
    from: u64,
    to: u64,
)
    requires
        whole_pages(pages),
        pages.len() <= u32::MAX,
        rows_fit(first, stride, rpp, n),
        rows_inside(first, rpp, n, pages.len()),
        from < n,
        to < n,
    ensures
        ({
            let after = copy_slot(pages, slot_copy(first, stride, rpp, from, to));
            &&& after.len() == pages.len()
            &&& whole_pages(after)
            &&& table(after, first, stride, rpp, n as nat) == table(
                pages,
                first,
                stride,
                rpp,
                n as nat,
            ).update(to as int, row_at(pages, first, stride, rpp, from as int))
            &&& forall|b: int|
                0 <= b < pages.len() && !(first <= b < first + pages_for_rows(
                    n as nat,
                    rpp as nat,
                )) ==> #[trigger] after[b] == pages[b]
        }),
{
    let c = slot_copy(first, stride, rpp, from, to);
    let after = copy_slot(pages, c);
    lemma_slot_block(first, rpp, n, pages.len(), from as int);
    lemma_slot_block(first, rpp, n, pages.len(), to as int);
    lemma_row_inside_page(stride, rpp, from as int);
    lemma_row_inside_page(stride, rpp, to as int);
    assert(c.src_blkno == first + from as int / (rpp as int));
    assert(c.dst_blkno == first + to as int / (rpp as int));
    assert(c.src_off == (from as int % (rpp as int)) * stride);
    assert(c.dst_off == (to as int % (rpp as int)) * stride);
    let before_rows = table(pages, first, stride, rpp, n as nat);
    let want = before_rows.update(to as int, row_at(pages, first, stride, rpp, from as int));
    let got = table(after, first, stride, rpp, n as nat);
    assert forall|j: int| 0 <= j < n implies got[j] == want[j] by {
        lemma_slot_block(first, rpp, n, pages.len(), j);
        lemma_row_inside_page(stride, rpp, j);
        let block = first + j / (rpp as int);
        if block == c.dst_blkno {
            let a = j % (rpp as int);
            let b = to as int % (rpp as int);
            vstd::arithmetic::div_mod::lemma_fundamental_div_mod(j, rpp as int);
            vstd::arithmetic::div_mod::lemma_fundamental_div_mod(to as int, rpp as int);
            if j != to {
                assert(a != b);
                if a < b {
                    lemma_rows_apart(stride as int, a, b);
                } else {
                    lemma_rows_apart(stride as int, b, a);
                }
            }
            assert(got[j] =~= want[j]);
        } else {
            assert(after[block] == pages[block]);
            assert(j != to);
        }
    }
    assert(got =~= want);
}

proof fn lemma_other_chain_kept(
    pages: Seq<Seq<u8>>,
    after: Seq<Seq<u8>>,
    first: u32,
    stride: u32,
    rpp: u32,
    n: u64,
)
    requires
        rpp > 0,
        rows_inside(first, rpp, n, pages.len()),
        forall|b: int|
            first <= b < first + pages_for_rows(n as nat, rpp as nat) ==> #[trigger] after[b]
                == pages[b],
    ensures
        table(after, first, stride, rpp, n as nat) == table(pages, first, stride, rpp, n as nat),
{
    assert forall|j: int| 0 <= j < n implies row_at(after, first, stride, rpp, j) == row_at(
        pages,
        first,
        stride,
        rpp,
        j,
    ) by {
        lemma_slot_block(first, rpp, n, pages.len(), j);
    }
    assert(table(after, first, stride, rpp, n as nat) =~= table(
        pages,
        first,
        stride,
        rpp,
        n as nat,
    ));
}

/// Whether the three row chains of an index lie in order behind block 0 and inside the relation.
pub open spec fn rows_in_order(m: MetaPageData, blocks: nat) -> bool {
    &&& rows_fit(m.codes.first, m.stride_bytes, m.rows_per_codes_page, m.n_vectors)
    &&& rows_fit(m.scales.first, 4, m.rows_per_scales_page, m.n_vectors)
    &&& rows_fit(m.ids.first, 8, m.rows_per_ids_page, m.n_vectors)
    &&& 1 <= m.codes.first
    &&& m.codes.first + pages_for_rows(m.n_vectors as nat, m.rows_per_codes_page as nat)
        <= m.scales.first
    &&& m.scales.first + pages_for_rows(m.n_vectors as nat, m.rows_per_scales_page as nat)
        <= m.ids.first
    &&& m.ids.first + pages_for_rows(m.n_vectors as nat, m.rows_per_ids_page as nat) <= blocks
}

/// Whether a block lies before or behind all of the row chains.
pub open spec fn outside_rows(m: MetaPageData, b: int) -> bool {
    b < m.codes.first || b >= m.ids.first + pages_for_rows(
        m.n_vectors as nat,
        m.rows_per_ids_page as nat,
    )
}

/// Whether a chain lies behind all of the row chains.
pub open spec fn behind_rows(m: MetaPageData, span: Span) -> bool {
    m.ids.first + pages_for_rows(m.n_vectors as nat, m.rows_per_ids_page as nat) <= span.first
}

/// The first `n` codes that a relation holds.
pub open spec fn code_rows(m: MetaPageData, pages: Seq<Seq<u8>>, n: nat) -> Seq<Seq<u8>> {
    table(pages, m.codes.first, m.stride_bytes, m.rows_per_codes_page, n)
}

/// The first `n` scales that a relation holds, four bytes each.
pub open spec fn scale_rows(m: MetaPageData, pages: Seq<Seq<u8>>, n: nat) -> Seq<Seq<u8>> {
    table(pages, m.scales.first, 4, m.rows_per_scales_page, n)
}

/// The first `n` ids that a relation holds, eight bytes each.
pub open spec fn id_rows(m: MetaPageData, pages: Seq<Seq<u8>>, n: nat) -> Seq<Seq<u8>> {
    table(pages, m.ids.first, 8, m.rows_per_ids_page, n)
}

proof fn lemma_table_prefix(
    pages: Seq<Seq<u8>>,
    first: u32,
    stride: u32,
    rpp: u32,
    n: nat,
    k: nat,
)
    requires
        k <= n,
    ensures
        table(pages, first, stride, rpp, k) == table(pages, first, stride, rpp, n).take(k as int),
{
    assert(table(pages, first, stride, rpp, k) =~= table(pages, first, stride, rpp, n).take(
        k as int,
    ));
}

proof fn lemma_row_copied(m: MetaPageData, pages: Seq<Seq<u8>>, from: u64, to: u64)
    requires
        whole_pages(pages),
        pages.len() <= u32::MAX,
        rows_in_order(m, pages.len()),
        from < m.n_vectors,
        to < m.n_vectors,
    ensures
        ({
            let after = run(pages, row_copies(m, from, to));
            let n = m.n_vectors as nat;
            &&& after.len() == pages.len()
            &&& whole_pages(after)
            &&& forall|b: int|
                0 <= b < pages.len() && outside_rows(m, b) ==> #[trigger] after[b] == pages[b]
            &&& code_rows(m, after, n) == code_rows(m, pages, n).update(
                to as int,
                code_rows(m, pages, n)[from as int],
            )
            &&& scale_rows(m, after, n) == scale_rows(m, pages, n).update(
                to as int,
                scale_rows(m, pages, n)[from as int],
            )
            &&& id_rows(m, after, n) == id_rows(m, pages, n).update(
                to as int,
                id_rows(m, pages, n)[from as int],
            )
        }),
{
    let n = m.n_vectors;
    let ops = row_copies(m, from, to);
    if from == to {
        assert(run(pages, ops) == pages);
        assert(code_rows(m, pages, n as nat).update(
            to as int,
            code_rows(m, pages, n as nat)[from as int],
        ) =~= code_rows(m, pages, n as nat));
        assert(scale_rows(m, pages, n as nat).update(
            to as int,
            scale_rows(m, pages, n as nat)[from as int],
        ) =~= scale_rows(m, pages, n as nat));
        assert(id_rows(m, pages, n as nat).update(
            to as int,
            id_rows(m, pages, n as nat)[from as int],
        ) =~= id_rows(m, pages, n as nat));
    } else {
        let c1 = slot_copy(m.codes.first, m.stride_bytes, m.rows_per_codes_page, from, to);
        let c2 = slot_copy(m.scales.first, 4, m.rows_per_scales_page, from, to);
        let c3 = slot_copy(m.ids.first, 8, m.rows_per_ids_page, from, to);
        let p1 = copy_slot(pages, c1);
        let p2 = copy_slot(p1, c2);
        let p3 = copy_slot(p2, c3);
        assert(run(pages, ops) == p3) by {
            assert(ops.drop_last().drop_last().drop_last() =~= Seq::<Op>::empty());
            assert(ops.drop_last().drop_last().last() == Op::CopySlot(c1));
            assert(ops.drop_last().last() == Op::CopySlot(c2));
            assert(ops.last() == Op::CopySlot(c3));
            reveal_with_fuel(run, 4);
        }
        copying_a_row_changes_that_row(
            pages,
            m.codes.first,
            m.stride_bytes,
            m.rows_per_codes_page,
            n,
            from,
            to,
        );
        lemma_other_chain_kept(pages, p1, m.scales.first, 4, m.rows_per_scales_page, n);
        lemma_other_chain_kept(pages, p1, m.ids.first, 8, m.rows_per_ids_page, n);
        copying_a_row_changes_that_row(
            p1,
            m.scales.first,
            4,
            m.rows_per_scales_page,
            n,
            from,
            to,
        );
        lemma_other_chain_kept(
            p1,
            p2,
            m.codes.first,
            m.stride_bytes,
            m.rows_per_codes_page,
            n,
        );
        lemma_other_chain_kept(p1, p2, m.ids.first, 8, m.rows_per_ids_page, n);
        copying_a_row_changes_that_row(p2, m.ids.first, 8, m.rows_per_ids_page, n, from, to);
        lemma_other_chain_kept(
            p2,
            p3,
            m.codes.first,
            m.stride_bytes,
            m.rows_per_codes_page,
            n,
        );
        lemma_other_chain_kept(p2, p3, m.scales.first, 4, m.rows_per_scales_page, n);
        assert forall|b: int| 0 <= b < pages.len() && outside_rows(m, b) implies #[trigger] p3[b]
            == pages[b] by {
            assert(p1[b] == pages[b]);
            assert(p2[b] == p1[b]);
        }
    }
}

proof fn lemma_update_then_cut<T>(xs: Seq<T>, alive: nat, s: int)
    requires
        0 <= s < alive <= xs.len(),
    ensures
        xs.update(s, xs[alive - 1]).take(alive - 1) == xs.take(alive as int).update(
            s,
            xs.take(alive as int).last(),
        ).drop_last(),
{
    assert(xs.update(s, xs[alive - 1]).take(alive - 1) =~= xs.take(alive as int).update(
        s,
        xs.take(alive as int).last(),
    ).drop_last());
}

proof fn lemma_holes_closed(m: MetaPageData, pages: Seq<Seq<u8>>, alive: nat, dead: Seq<usize>)
    requires
        whole_pages(pages),
        pages.len() <= u32::MAX,
        rows_in_order(m, pages.len()),
        alive <= m.n_vectors,
        rising_slots(dead, alive),
        dead.len() <= alive,
    ensures
        ({
            let after = run(pages, closing_ops(m, alive, dead));
            let left = (alive - dead.len()) as nat;
            &&& after.len() == pages.len()
            &&& whole_pages(after)
            &&& forall|b: int|
                0 <= b < pages.len() && outside_rows(m, b) ==> #[trigger] after[b] == pages[b]
            &&& code_rows(m, after, left) == closed_up(code_rows(m, pages, alive), dead)
            &&& scale_rows(m, after, left) == closed_up(scale_rows(m, pages, alive), dead)
            &&& id_rows(m, after, left) == closed_up(id_rows(m, pages, alive), dead)
        }),
    decreases dead.len(),
{
    if dead.len() > 0 {
        let s = dead.last();
        let last = (alive - 1) as u64;
        let rest = dead.drop_last();
        let n = m.n_vectors as nat;
        lemma_rising_prefix(dead, alive);
        lemma_row_copied(m, pages, last, s as u64);
        let p = run(pages, row_copies(m, last, s as u64));
        run_concat(pages, row_copies(m, last, s as u64), closing_ops(m, (alive - 1) as nat, rest));
        lemma_holes_closed(m, p, (alive - 1) as nat, rest);
        lemma_table_prefix(p, m.codes.first, m.stride_bytes, m.rows_per_codes_page, n, (alive - 1) as nat);
        lemma_table_prefix(p, m.scales.first, 4, m.rows_per_scales_page, n, (alive - 1) as nat);
        lemma_table_prefix(p, m.ids.first, 8, m.rows_per_ids_page, n, (alive - 1) as nat);
        lemma_table_prefix(pages, m.codes.first, m.stride_bytes, m.rows_per_codes_page, n, alive);
        lemma_table_prefix(pages, m.scales.first, 4, m.rows_per_scales_page, n, alive);
        lemma_table_prefix(pages, m.ids.first, 8, m.rows_per_ids_page, n, alive);
        lemma_update_then_cut(code_rows(m, pages, n), alive, s as int);
        lemma_update_then_cut(scale_rows(m, pages, n), alive, s as int);
        lemma_update_then_cut(id_rows(m, pages, n), alive, s as int);
        let after = run(pages, closing_ops(m, alive, dead));
        assert forall|b: int| 0 <= b < pages.len() && outside_rows(m, b) implies #[trigger] after[b]
            == pages[b] by {
            assert(p[b] == pages[b]);
        }
    }
}

proof fn lemma_fewer_pages(rpp: nat, fewer: nat, n: nat)
    requires
        rpp > 0,
        fewer <= n,
    ensures
        pages_for_rows(fewer, rpp) <= pages_for_rows(n, rpp),
{
    let k = pages_for_rows(n, rpp);
    lemma_ceil(rpp, k, n);
    lemma_ceil(rpp, k, fewer);
}

proof fn lemma_fit_fewer(first: u32, stride: u32, rpp: u32, n: u64, fewer: u64)
    requires
        rows_fit(first, stride, rpp, n),
        fewer <= n,
    ensures
        rows_fit(first, stride, rpp, fewer),
{
    if fewer > 0 {
        assert((fewer - 1) / (rpp as int) <= (n - 1) / (rpp as int)) by (nonlinear_arith)
            requires
                0 < fewer <= n,
                rpp > 0,
        ;
    }
}

proof fn lemma_table_kept(
    pages: Seq<Seq<u8>>,
    after: Seq<Seq<u8>>,
    first: u32,
    stride: u32,
    rpp: u32,
    n: u64,
)
    requires
        rpp > 0,
        rows_inside(first, rpp, n, pages.len()),
        first + pages_for_rows(n as nat, rpp as nat) <= after.len(),
        forall|b: int| 1 <= b < after.len() && b < pages.len() ==> #[trigger] after[b] == pages[b],
    ensures
        table(after, first, stride, rpp, n as nat) == table(pages, first, stride, rpp, n as nat),
{
    assert forall|j: int| 0 <= j < n implies row_at(after, first, stride, rpp, j) == row_at(
        pages,
        first,
        stride,
        rpp,
        j,
    ) by {
        lemma_slot_block(first, rpp, n, pages.len(), j);
        assert(after[first + j / (rpp as int)] == pages[first + j / (rpp as int)]);
    }
    assert(table(after, first, stride, rpp, n as nat) =~= table(
        pages,
        first,
        stride,
        rpp,
        n as nat,
    ));
}

proof fn lemma_close_ops_end(
    m: MetaPageData,
    pages: Seq<Seq<u8>>,
    dead: Seq<usize>,
    blank: Codebook,
)
    requires
        whole_pages(pages),
        0 < pages.len() <= u32::MAX,
        rows_in_order(m, pages.len()),
        rising_slots(dead, m.n_vectors as nat),
        dead.len() <= m.n_vectors,
    ensures
        ({
            let n = (m.n_vectors - dead.len()) as u64;
            let shrunk = shrunk_meta(m, n, next_version(m.am_version), blank);
            let smaller = MetaPageData { n_vectors: n, ..m };
            let closed = run(pages, closing_ops(m, m.n_vectors as nat, dead));
            let after = run(pages, close_ops(m, dead, pages.len() as u32, blank));
            &&& after.len() == if pages.len() > blocks_after_shrink(smaller) {
                blocks_after_shrink(smaller)
            } else {
                pages.len() as int
            }
            &&& after.len() >= 1
            &&& after[0] == image(u32s_to_bytes(meta_words(shrunk)))
            &&& forall|b: int| 1 <= b < after.len() ==> #[trigger] after[b] == closed[b]
        }),
{
    let n = (m.n_vectors - dead.len()) as u64;
    let shrunk = shrunk_meta(m, n, next_version(m.am_version), blank);
    let smaller = MetaPageData { n_vectors: n, ..m };
    let total = blocks_after_shrink(smaller);
    lemma_holes_closed(m, pages, m.n_vectors as nat, dead);
    let closing = closing_ops(m, m.n_vectors as nat, dead);
    let closed = run(pages, closing);
    let meta_bytes = u32s_to_bytes(meta_words(shrunk));
    let with_meta = closing.push(Op::WriteMeta(meta_bytes));
    assert(with_meta.drop_last() =~= closing);
    let marked = run(pages, with_meta);
    assert(marked == write_page(closed, (0, meta_bytes)));
    let cut = if pages.len() > total {
        seq![Op::Truncate(total as nat)]
    } else {
        Seq::empty()
    };
    assert(close_ops(m, dead, pages.len() as u32, blank) =~= with_meta + cut);
    run_concat(pages, with_meta, cut);
    let after = run(pages, close_ops(m, dead, pages.len() as u32, blank));
    if pages.len() > total {
        assert(cut.drop_last() =~= Seq::<Op>::empty());
        assert(run(marked, cut) == step(run(marked, cut.drop_last()), cut.last()));
        assert(run(marked, cut.drop_last()) == marked);
        assert(after =~= marked.take(total));
    } else {
        assert(after == marked);
    }
}

/// Removing dead rows from a flat index leaves a relation whose meta page counts the live rows, whose
/// row chains hold exactly the rows of before with the holes closed, the same way in all three, and
/// whose calibration chain, where it has one behind the rows, is untouched.
#[verifier::rlimit(40)]
pub proof fn removal_closes_the_holes(
    m: MetaPageData,
    pages: Seq<Seq<u8>>,
    dead: Seq<usize>,
    blank: Codebook,
)
    requires
        MIN_DECODE_VERSION <= m.version <= GRAPH_VERSION,
        whole_pages(pages),
        0 < pages.len() <= u32::MAX,
        rows_in_order(m, pages.len()),
        rising_slots(dead, m.n_vectors as nat),
        dead.len() <= m.n_vectors,
    ensures
        ({
            let left = (m.n_vectors - dead.len()) as u64;
            let shrunk = shrunk_meta(m, left, next_version(m.am_version), blank);
            let after = run(pages, close_ops(m, dead, pages.len() as u32, blank));
            &&& reads_as(after[0], shrunk)
            &&& rows_in_order(shrunk, after.len())
            &&& code_rows(shrunk, after, left as nat) == closed_up(
                code_rows(m, pages, m.n_vectors as nat),
                dead,
            )
            &&& scale_rows(shrunk, after, left as nat) == closed_up(
                scale_rows(m, pages, m.n_vectors as nat),
                dead,
            )
            &&& id_rows(shrunk, after, left as nat) == closed_up(
                id_rows(m, pages, m.n_vectors as nat),
                dead,
            )
            &&& behind_rows(m, m.rotation) && m.rotation.first + m.rotation.count <= pages.len()
                ==> forall|b: int|
                m.rotation.first <= b < m.rotation.first + m.rotation.count ==> b < after.len()
                    && #[trigger] after[b] == pages[b]
        }),
{
    let n = m.n_vectors as nat;
    let left = (m.n_vectors - dead.len()) as u64;
    let shrunk = shrunk_meta(m, left, next_version(m.am_version), blank);
    let after = run(pages, close_ops(m, dead, pages.len() as u32, blank));
    let closed = run(pages, closing_ops(m, n, dead));
    lemma_holes_closed(m, pages, n, dead);
    lemma_close_ops_end(m, pages, dead, blank);
    written_meta_page_reads_back(shrunk);
    lemma_fewer_pages(m.rows_per_codes_page as nat, left as nat, n);
    lemma_fewer_pages(m.rows_per_scales_page as nat, left as nat, n);
    lemma_fewer_pages(m.rows_per_ids_page as nat, left as nat, n);
    lemma_fit_fewer(m.codes.first, m.stride_bytes, m.rows_per_codes_page, m.n_vectors, left);
    lemma_fit_fewer(m.scales.first, 4, m.rows_per_scales_page, m.n_vectors, left);
    lemma_fit_fewer(m.ids.first, 8, m.rows_per_ids_page, m.n_vectors, left);
    lemma_table_kept(
        closed,
        after,
        m.codes.first,
        m.stride_bytes,
        m.rows_per_codes_page,
        left,
    );
    lemma_table_kept(closed, after, m.scales.first, 4, m.rows_per_scales_page, left);
    lemma_table_kept(closed, after, m.ids.first, 8, m.rows_per_ids_page, left);
    if behind_rows(m, m.rotation) && m.rotation.first + m.rotation.count <= pages.len() {
        assert forall|b: int|
            m.rotation.first <= b < m.rotation.first + m.rotation.count implies b < after.len()
            && #[trigger] after[b] == pages[b] by {
            assert(outside_rows(m, b));
            assert(after[b] == closed[b]);
        }
    }
}

/// Marking rows instead of removing them writes the bitmap and the meta page and nothing else: every
/// other block, and every block of every other chain, so every row, cell and edge, is as it was, and
/// the bitmap reads back.
#[verifier::rlimit(40)]
pub proof fn marking_moves_nothing(
    m: MetaPageData,
    pages: Seq<Seq<u8>>,
    bitmap: Seq<u8>,
    am_version: u32,
)
    requires
        MIN_DECODE_VERSION <= m.version <= GRAPH_VERSION,
        whole_pages(pages),
        0 < pages.len() <= u32::MAX,
        0 < bitmap.len() <= u64::MAX,
        tombstone_start(m) + pages_for_bytes(bitmap.len()) <= u32::MAX,
    ensures
        ({
            let meta = tombstone_meta(m, bitmap, am_version);
            let after = run(pages, tombstone_ops(m, bitmap, am_version, pages.len() as u32));
            &&& after.len() >= pages.len()
            &&& reads_as(after[0], meta)
            &&& bytes_read(meta.tombstone, bitmap.len(), after) == bitmap
            &&& forall|b: int|
                1 <= b < pages.len() && !(meta.tombstone.first <= b < meta.tombstone.first
                    + meta.tombstone.count) ==> #[trigger] after[b] == pages[b]
            &&& forall|i: int, b: int|
                0 <= i < unmarked(m).extents().len() && 1 <= b < pages.len() && (
                #[trigger] unmarked(m).extents()[i]).0 <= b < unmarked(m).extents()[i].0
                    + unmarked(m).extents()[i].1 ==> #[trigger] after[b] == pages[b]
        }),
{
    lemma_highest_positive(unmarked(m).extents());
    let existing = pages.len() as u32;
    let meta = tombstone_meta(m, bitmap, am_version);
    let chain = byte_chain(meta.tombstone, bitmap);
    let needed = (meta.tombstone.first + meta.tombstone.count) as nat;
    let extend = if existing < needed {
        seq![Op::ExtendTo(needed)]
    } else {
        Seq::empty()
    };
    let start = run(pages, extend);
    assert(start.len() == (if pages.len() < needed {
        needed
    } else {
        pages.len()
    }) && whole_pages(start) && forall|b: int|
        0 <= b < pages.len() ==> #[trigger] start[b] == pages[b]) by {
        if existing < needed {
            assert(extend.drop_last() =~= Seq::<Op>::empty());
            assert(run(pages, extend) == step(run(pages, extend.drop_last()), extend.last()));
        }
    }
    let chains = seq![chain];
    assert(chain.blocks() == meta.tombstone.count);
    assert(in_order(chains, start.len()));
    assert(chains.drop_last() =~= Seq::<Chain>::empty());
    assert(chain_ops(chains) =~= in_batches(chain.writes())) by {
        reveal_with_fuel(chain_ops, 2);
    }
    chains_are_written(start, chains);
    run_concat(pages, extend, in_batches(chain.writes()));
    let filled = run(pages, extend + in_batches(chain.writes()));
    let meta_bytes = u32s_to_bytes(meta_words(meta));
    let ops = tombstone_ops(m, bitmap, am_version, existing);
    assert(ops.drop_last() =~= extend + in_batches(chain.writes()));
    let after = run(pages, ops);
    assert(after == write_page(filled, (0, meta_bytes)));
    written_meta_page_reads_back(meta);
    assert(chains[0].laid_out_in(filled));
    assert(chain.laid_out_in(after)) by {
        assert forall|p: int| 0 <= p < chain.blocks() implies after[chain.start + p] == image(
            (#[trigger] chain.writes()[p]).1,
        ) by {
            assert(filled[chain.start + p] == image(chain.writes()[p].1));
        }
    }
    laid_out_chain_is_held(chain, after);
    assert(whole_pages(after)) by {
        assert forall|b: int| 0 <= b < after.len() implies (#[trigger] after[b]).len()
            == PAYLOAD_BYTES by {
            if b > 0 {
                if chain.start <= b < chain.start + chain.blocks() {
                    let p = b - chain.start;
                    assert(after[chain.start + p] == image(chain.writes()[p].1));
                } else {
                    assert(!in_chains(chains, b));
                    assert(filled[b] == start[b]);
                }
            }
        }
    }
    chain_reads_fetch_what_is_stored(after, chain.start, chain.per_page, bitmap.len());
    held_chain_is_stored(chain, after);
    assert forall|b: int|
        1 <= b < pages.len() && !(meta.tombstone.first <= b < meta.tombstone.first
            + meta.tombstone.count) implies #[trigger] after[b] == pages[b] by {
        assert(!in_chains(chains, b));
        assert(filled[b] == start[b]);
    }
    let es = unmarked(m).extents();
    assert forall|i: int, b: int|
        0 <= i < es.len() && 1 <= b < pages.len() && (#[trigger] es[i]).0 <= b < es[i].0
            + es[i].1 implies #[trigger] after[b] == pages[b] by {
        lemma_extent_bounds(es, i);
    }
}

/// Whether the blocks of a chain are as they were.
pub open spec fn kept(span: Span, before: Seq<Seq<u8>>, after: Seq<Seq<u8>>) -> bool {
    forall|b: int|
        1 <= b < before.len() && span.first <= b < span.first + span.count ==> b < after.len()
            && #[trigger] after[b] == before[b]
}

proof fn lemma_only_marking_ops(m: MetaPageData, bitmap: Seq<u8>, am_version: u32, existing: u32)
    ensures
        forall|i: int|
            #![trigger tombstone_ops(m, bitmap, am_version, existing)[i]]
            0 <= i < tombstone_ops(m, bitmap, am_version, existing).len() ==> !(tombstone_ops(
                m,
                bitmap,
                am_version,
                existing,
            )[i] is CopySlot) && !(tombstone_ops(m, bitmap, am_version, existing)[i] is Truncate),
{
}

/// Rows that cells or edges refer to are only marked. Removing dead rows from a graph index, or from one
/// that has kept its cells, copies no row and cuts off no block: as many rows are counted as before, and
/// the chains of codes, scales, ids, calibration, centroids, cells and edges are where and as they were.
/// Exactly the dead slots are added to the marked ones, and the statistics count the rest.
#[verifier::rlimit(40)]
pub proof fn rows_that_others_refer_to_are_only_marked(
    meta: &MetaPageData,
    dead_slots: &[usize],
    tombstones: &[u8],
    adjacency: &Option<GraphAdjacency>,
    r: Result<VacuumPlan, WriteError>,
    pages: Seq<Seq<u8>>,
)
    requires
        call_ensures(
            plan_bulkdelete,
            (meta, dead_slots, tombstones, adjacency, pages.len() as u32),
            r,
        ),
        meta.kind == KIND_GRAPH || (meta.lists > 0 && meta.coarse.count > 0 && meta.cell_dir.count
            > 0 && !meta.ivf_degraded),
        dead_slots@.len() > 0,
        rising_slots(dead_slots@, meta.n_vectors as nat),
        r is Ok,
        MIN_DECODE_VERSION <= meta.version <= GRAPH_VERSION,
        8 * tombstones@.len() <= u64::MAX - 8,
        meta.n_vectors <= u64::MAX - 8,
        whole_pages(pages),
        0 < pages.len() <= u32::MAX,
        meta.codes.first >= 1 && meta.scales.first >= 1 && meta.ids.first >= 1,
    ensures
        ({
            let plan = r->Ok_0;
            let after = run(pages, ops_of(plan.actions@));
            let bits = bytes_read(plan.meta.tombstone, plan.meta.tombstone_bytes as nat, after);
            &&& forall|i: int|
                0 <= i < plan.actions@.len() ==> !(#[trigger] plan.actions@[i] is CopySlot) && !(
                plan.actions@[i] is Truncate)
            &&& after.len() >= pages.len()
            &&& reads_as(after[0], plan.meta)
            &&& plan.meta.n_vectors == meta.n_vectors
            &&& plan.meta.kind == meta.kind && plan.meta.version == meta.version
            &&& plan.meta.dim == meta.dim && plan.meta.bit_width == meta.bit_width
            &&& plan.meta.lists == meta.lists && !plan.meta.ivf_degraded
            &&& plan.meta.codes == meta.codes && plan.meta.scales == meta.scales
            &&& plan.meta.ids == meta.ids && plan.meta.rotation == meta.rotation
            &&& plan.meta.coarse == meta.coarse && plan.meta.cell_dir == meta.cell_dir
            &&& plan.meta.graph == meta.graph
            &&& plan.meta.graph_offsets_bytes == meta.graph_offsets_bytes
            &&& plan.meta.graph_neighbors_bytes == meta.graph_neighbors_bytes
            &&& plan.meta.codebook == meta.codebook
            &&& kept(meta.codes, pages, after) && kept(meta.scales, pages, after)
            &&& kept(meta.ids, pages, after) && kept(meta.rotation, pages, after)
            &&& kept(meta.coarse, pages, after) && kept(meta.cell_dir, pages, after)
            &&& kept(meta.graph, pages, after)
            &&& rows_readable(*meta, pages.len() as u32) ==> rows_read(plan.meta, after)
                == rows_read(*meta, pages)
            &&& forall|s: int| #[trigger]
                is_tombstoned(bits, s) <==> is_tombstoned(tombstones@, s) || listed(dead_slots@, s)
            &&& plan.tuples_removed == dead_slots@.len()
            &&& plan.num_index_tuples + Set::new(|s: int| is_tombstoned(bits, s)).len()
                == meta.n_vectors || (plan.num_index_tuples == 0 && Set::new(
                |s: int| is_tombstoned(bits, s),
            ).len() > meta.n_vectors)
            &&& meta.am_version < u32::MAX ==> plan.meta.am_version == meta.am_version + 1
            &&& meta.am_version == u32::MAX ==> plan.meta.am_version == u32::MAX
        }),
{
    let plan = r->Ok_0;
    let existing = pages.len() as u32;
    assert(!(removal(*meta) is Close));
    let bitmap = choose|bitmap: Seq<u8>|
        is_marking(r, *meta, *adjacency, tombstones@, dead_slots@, existing, bitmap);
    assert(is_marking(r, *meta, *adjacency, tombstones@, dead_slots@, existing, bitmap));
    let base = marked_base(*meta, *adjacency, bitmap);
    let version = next_version(meta.am_version);
    let n = meta.n_vectors as nat;
    assert(dead_slots@[0] < n);
    lemma_ceil(8, 0, n);
    assert(bitmap.len() > 0);
    assert(bitmap.len() <= u64::MAX);
    marking_moves_nothing(base, pages, bitmap, version);
    lemma_only_marking_ops(base, bitmap, version, existing);
    let after = run(pages, ops_of(plan.actions@));
    assert forall|i: int| 0 <= i < plan.actions@.len() implies !(
    #[trigger] plan.actions@[i] is CopySlot) && !(plan.actions@[i] is Truncate) by {
        assert(ops_of(plan.actions@)[i] == plan.actions@[i]@);
    }
    let es = unmarked(base).extents();
    assert(es.len() == 9);
    assert(es[0] == row_extent(meta.codes, meta.n_vectors, meta.rows_per_codes_page));
    assert(es[1] == row_extent(meta.scales, meta.n_vectors, meta.rows_per_scales_page));
    assert(es[2] == row_extent(meta.ids, meta.n_vectors, meta.rows_per_ids_page));
    assert(es[4] == (meta.rotation.first as nat, meta.rotation.count as nat));
    assert(es[5] == (meta.coarse.first as nat, meta.coarse.count as nat));
    assert(es[6] == (meta.cell_dir.first as nat, meta.cell_dir.count as nat));
    assert(es[7] == (meta.graph.first as nat, meta.graph.count as nat));
    assert(es[0].1 >= meta.codes.count && es[1].1 >= meta.scales.count && es[2].1
        >= meta.ids.count);
    lemma_extent_kept(es, 0, meta.codes, pages, after);
    lemma_extent_kept(es, 1, meta.scales, pages, after);
    lemma_extent_kept(es, 2, meta.ids, pages, after);
    lemma_extent_kept(es, 4, meta.rotation, pages, after);
    lemma_extent_kept(es, 5, meta.coarse, pages, after);
    lemma_extent_kept(es, 6, meta.cell_dir, pages, after);
    lemma_extent_kept(es, 7, meta.graph, pages, after);
    if rows_readable(*meta, pages.len() as u32) {
        assert forall|b: int| es[0].0 <= b < es[0].0 + es[0].1 && 0 <= b < pages.len() implies
            #[trigger] after[b] == pages[b] by {}
        assert forall|b: int| es[1].0 <= b < es[1].0 + es[1].1 && 0 <= b < pages.len() implies
            #[trigger] after[b] == pages[b] by {}
        assert forall|b: int| es[2].0 <= b < es[2].0 + es[2].1 && 0 <= b < pages.len() implies
            #[trigger] after[b] == pages[b] by {}
        lemma_row_reads_alike(
            meta.codes,
            meta.stride_bytes,
            meta.rows_per_codes_page,
            meta.n_vectors,
            pages,
            after,
        );
        lemma_row_reads_alike(meta.scales, 4, meta.rows_per_scales_page, meta.n_vectors, pages, after);
        lemma_row_reads_alike(meta.ids, 8, meta.rows_per_ids_page, meta.n_vectors, pages, after);
    }
    let bits = bytes_read(plan.meta.tombstone, plan.meta.tombstone_bytes as nat, after);
    assert(bits == bitmap);
    assert forall|s: int| #[trigger]
        is_tombstoned(bits, s) <==> is_tombstoned(tombstones@, s) || listed(dead_slots@, s) by {
        if listed(dead_slots@, s) {
            let k = choose|k: int| 0 <= k < dead_slots@.len() && #[trigger] dead_slots@[k] == s;
            assert(dead_slots@[k] == s && s < n);
        }
    }
    the_marked_slots_are_counted(bitmap);
}

proof fn lemma_extent_kept(
    es: Seq<(nat, nat)>,
    i: int,
    span: Span,
    pages: Seq<Seq<u8>>,
    after: Seq<Seq<u8>>,
)
    requires
        0 <= i < es.len(),
        es[i].0 == span.first,
        es[i].1 >= span.count,
        after.len() >= pages.len(),
        forall|i: int, b: int|
            0 <= i < es.len() && 1 <= b < pages.len() && (#[trigger] es[i]).0 <= b < es[i].0
                + es[i].1 ==> #[trigger] after[b] == pages[b],
    ensures
        kept(span, pages, after),
{
    assert forall|b: int|
        1 <= b < pages.len() && span.first <= b < span.first + span.count implies b < after.len()
        && #[trigger] after[b] == pages[b] by {
        assert(es[i].0 <= b < es[i].0 + es[i].1);
    }
}

/// A graph index is searched from a live slot after dead rows were marked, as long as it has one, and
/// from one that leads on to a live slot, as long as there is such a slot; and it keeps the slot that
/// it is searched from while that one leads on.
#[verifier::rlimit(40)]
pub proof fn a_graph_stays_searchable(
    meta: &MetaPageData,
    dead_slots: &[usize],
    tombstones: &[u8],
    adjacency: &Option<GraphAdjacency>,
    existing: u32,
    r: Result<VacuumPlan, WriteError>,
    witness: int,
)
    requires
        call_ensures(plan_bulkdelete, (meta, dead_slots, tombstones, adjacency, existing), r),
        meta.kind == KIND_GRAPH,
        meta.lists == 0,
        dead_slots@.len() > 0,
        rising_slots(dead_slots@, meta.n_vectors as nat),
        meta.n_vectors <= u32::MAX,
        r is Ok,
        *adjacency matches Some(g) ==> g.well_formed() && g.slots() == meta.n_vectors,
        0 <= witness < meta.n_vectors,
        !is_tombstoned(tombstones@, witness),
        !listed(dead_slots@, witness),
    ensures
        ({
            let entry = r->Ok_0.meta.graph_entry_point as int;
            &&& 0 <= entry < meta.n_vectors
            &&& !is_tombstoned(tombstones@, entry) && !listed(dead_slots@, entry)
            &&& leads_on(*adjacency, witness, tombstones@, dead_slots@) ==> leads_on(
                *adjacency,
                entry,
                tombstones@,
                dead_slots@,
            )
            &&& leads_on(*adjacency, witness, tombstones@, dead_slots@) ==> entry
                == meta.graph_entry_point || entry <= witness
            &&& witness == meta.graph_entry_point && leads_on(
                *adjacency,
                witness,
                tombstones@,
                dead_slots@,
            ) ==> entry == witness
        }),
{
    assert(removal(*meta) is MarkNodes);
    let bitmap = choose|bitmap: Seq<u8>|
        is_marking(r, *meta, *adjacency, tombstones@, dead_slots@, existing, bitmap);
    assert(is_marking(r, *meta, *adjacency, tombstones@, dead_slots@, existing, bitmap));
    let n = meta.n_vectors as nat;
    assert forall|s: int| 0 <= s && s < n implies (#[trigger] is_tombstoned(bitmap, s)
        <==> is_tombstoned(tombstones@, s) || listed(dead_slots@, s)) by {
        if listed(dead_slots@, s) {
            let k = choose|k: int| 0 <= k < dead_slots@.len() && #[trigger] dead_slots@[k] == s;
            assert(dead_slots@[k] == s && s < n);
        }
    }
    let entry = entry_after(meta.graph_entry_point, n, *adjacency, bitmap);
    entry_point_is_live(meta.graph_entry_point, n, *adjacency, bitmap, witness);
    entry_point_is_a_slot(meta.graph_entry_point, n, *adjacency, bitmap, witness);
    assert(r->Ok_0.meta.graph_entry_point == entry as u32);
    lemma_leads_on(*adjacency, witness, n, tombstones@, dead_slots@, bitmap);
    lemma_leads_on(*adjacency, entry, n, tombstones@, dead_slots@, bitmap);
    if leads_on(*adjacency, witness, tombstones@, dead_slots@) {
        entry_point_leads_on(meta.graph_entry_point, n, *adjacency, bitmap, witness);
    }
}

/// Whether an edge of a slot leads to a slot that is neither marked nor dead.
pub open spec fn leads_on(
    g: Option<GraphAdjacency>,
    slot: int,
    tombstones: Seq<u8>,
    dead: Seq<usize>,
) -> bool {
    g matches Some(a) && exists|k: int|
        a.offsets@[slot] <= k < a.offsets@[slot + 1] && !is_tombstoned(
            tombstones,
            #[trigger] a.neighbors@[k] as int,
        ) && !(a.neighbors@[k] < a.slots() && listed(dead, a.neighbors@[k] as int))
}

proof fn lemma_leads_on(
    g: Option<GraphAdjacency>,
    slot: int,
    n: nat,
    tombstones: Seq<u8>,
    dead: Seq<usize>,
    bitmap: Seq<u8>,
)
    requires
        0 <= slot < n,
        g matches Some(a) ==> a.well_formed() && a.slots() == n,
        marks(bitmap, tombstones, n as u64, dead),
        n <= u32::MAX,
        !is_tombstoned(bitmap, slot),
    ensures
        leads_on(g, slot, tombstones, dead) <==> good_start(g, slot, bitmap),
{
    if let Some(a) = g {
        let from = a.offsets@[slot] as int;
        let to = a.offsets@[slot + 1] as int;
        assert(a.offsets@[slot] <= a.offsets@[slot + 1] <= a.offsets@[a.offsets@.len() - 1]);
        let edges = a.out_edges(slot);
        assert(edges.len() == to - from);
        assert forall|k: int| from <= k < to implies (#[trigger] is_tombstoned(
            bitmap,
            a.neighbors@[k] as int,
        ) <==> is_tombstoned(tombstones, a.neighbors@[k] as int) || (a.neighbors@[k] < a.slots()
            && listed(dead, a.neighbors@[k] as int))) by {
            let s = a.neighbors@[k] as int;
            if s < a.slots() && listed(dead, s) {
                let j = choose|j: int| 0 <= j < dead.len() && #[trigger] dead[j] == s;
                assert(dead[j] == s && s < n);
            }
        }
        if leads_on(g, slot, tombstones, dead) {
            let k = choose|k: int|
                a.offsets@[slot] <= k < a.offsets@[slot + 1] && !is_tombstoned(
                    tombstones,
                    #[trigger] a.neighbors@[k] as int,
                ) && !(a.neighbors@[k] < a.slots() && listed(dead, a.neighbors@[k] as int));
            assert(edges[k - from] == a.neighbors@[k]);
        }
        if good_start(g, slot, bitmap) {
            let e = choose|e: int|
                0 <= e < edges.len() && !is_tombstoned(bitmap, #[trigger] edges[e] as int);
            assert(edges[e] == a.neighbors@[from + e]);
        }
    }
}

/// A flat index is closed up. Removing dead rows from an index that is no graph and has no cells, or has
/// lost them, leaves as many rows as were live: each slot that is left has the codes, the scale and the
/// id of one live slot, each live slot gives its row to exactly one of them, and the relation ends with
/// its last chain.
#[verifier::rlimit(40)]
pub proof fn a_flat_index_keeps_exactly_its_live_rows(
    meta: &MetaPageData,
    dead_slots: &[usize],
    tombstones: &[u8],
    adjacency: &Option<GraphAdjacency>,
    r: Result<VacuumPlan, WriteError>,
    pages: Seq<Seq<u8>>,
) -> (from: Seq<int>)
    requires
        call_ensures(
            plan_bulkdelete,
            (meta, dead_slots, tombstones, adjacency, pages.len() as u32),
            r,
        ),
        meta.kind != KIND_GRAPH,
        meta.lists == 0 || meta.coarse.count == 0 || meta.cell_dir.count == 0 || meta.ivf_degraded,
        dead_slots@.len() > 0,
        rising_slots(dead_slots@, meta.n_vectors as nat),
        MIN_DECODE_VERSION <= meta.version <= GRAPH_VERSION,
        whole_pages(pages),
        0 < pages.len() <= u32::MAX,
        rows_in_order(*meta, pages.len()),
    ensures
        r is Ok,
        ({
            let plan = r->Ok_0;
            let after = run(pages, ops_of(plan.actions@));
            let left = (meta.n_vectors - dead_slots@.len()) as nat;
            &&& reads_as(after[0], plan.meta)
            &&& plan.meta.n_vectors == left
            &&& plan.num_index_tuples == left
            &&& plan.tuples_removed == dead_slots@.len()
            &&& meta.am_version < u32::MAX ==> plan.meta.am_version == meta.am_version + 1
            &&& meta.am_version == u32::MAX ==> plan.meta.am_version == u32::MAX
            &&& plan.meta.kind == meta.kind && plan.meta.dim == meta.dim
            &&& plan.meta.bit_width == meta.bit_width && plan.meta.lists == meta.lists
            &&& plan.meta.ivf_degraded == (meta.lists > 0)
            &&& plan.meta.codebook.n_levels == 0
            &&& from.len() == left
            &&& from.no_duplicates()
            &&& forall|j: int|
                0 <= j < left ==> 0 <= #[trigger] from[j] < meta.n_vectors && !listed(
                    dead_slots@,
                    from[j],
                )
            &&& forall|i: int|
                0 <= i < meta.n_vectors && !listed(dead_slots@, i) ==> #[trigger] from.contains(i)
            &&& forall|j: int|
                0 <= j < left && !listed(dead_slots@, j) ==> #[trigger] from[j] == j
            &&& forall|j: int|
                0 <= j < left ==> {
                    &&& code_rows(plan.meta, after, left)[j] == code_rows(
                        *meta,
                        pages,
                        meta.n_vectors as nat,
                    )[#[trigger] from[j]]
                    &&& scale_rows(plan.meta, after, left)[j] == scale_rows(
                        *meta,
                        pages,
                        meta.n_vectors as nat,
                    )[from[j]]
                    &&& id_rows(plan.meta, after, left)[j] == id_rows(
                        *meta,
                        pages,
                        meta.n_vectors as nat,
                    )[from[j]]
                }
            &&& rows_in_order(plan.meta, after.len())
            &&& after.len() <= pages.len()
            &&& behind_rows(*meta, meta.rotation) && meta.rotation.first + meta.rotation.count
                <= pages.len() ==> kept(meta.rotation, pages, after)
            &&& after.len() == pages.len() || after.len() == plan.meta.ids.first
                + plan.meta.ids.count || after.len() == meta.rotation.first + meta.rotation.count
            &&& plan.meta.ids.first == meta.ids.first
            &&& plan.meta.ids.count * meta.rows_per_ids_page < left + meta.rows_per_ids_page
            &&& after.len() > plan.meta.ids.first + plan.meta.ids.count ==> after.len()
                <= meta.rotation.first + meta.rotation.count
        }),
{
    assert(removal(*meta) is Close);
    lemma_rising_len(dead_slots@, meta.n_vectors as nat);
    let plan = r->Ok_0;
    let n = meta.n_vectors as nat;
    let left = (meta.n_vectors - dead_slots@.len()) as nat;
    let blank = plan.meta.codebook;
    let after = run(pages, ops_of(plan.actions@));
    removal_closes_the_holes(*meta, pages, dead_slots@, blank);
    lemma_close_ops_end(*meta, pages, dead_slots@, blank);
    let codes = code_rows(*meta, pages, n);
    let scales = scale_rows(*meta, pages, n);
    let ids = id_rows(*meta, pages, n);
    closing_keeps_exactly_the_live_rows(codes, dead_slots@);
    closing_keeps_exactly_the_live_rows(scales, dead_slots@);
    closing_keeps_exactly_the_live_rows(ids, dead_slots@);
    let from = origins(n, dead_slots@);
    assert forall|j: int| 0 <= j < left && !listed(dead_slots@, j) implies #[trigger] from[j] == j by {
        rows_in_front_stay_where_they_are(Seq::new(n, |i: int| i), dead_slots@, j);
    }
    let per = meta.rows_per_ids_page as nat;
    let pages_left = pages_for_rows(left, per);
    lemma_fewer_pages(per, left, n);
    assert(plan.meta.ids.count == pages_left);
    lemma_just_enough(pages_left as int, per as int, left as int);
    assert(pages_left * per == plan.meta.ids.count * meta.rows_per_ids_page);
    from
}

proof fn lemma_rising_len(dead: Seq<usize>, n: nat)
    requires
        rising_slots(dead, n),
    ensures
        dead.len() <= n,
    decreases dead.len(),
{
    if dead.len() > 0 {
        lemma_rising_prefix(dead, n);
        lemma_rising_len(dead.drop_last(), (n - 1) as nat);
    }
}

/// A pass that finds no dead row changes nothing.
pub proof fn nothing_dead_changes_nothing(
    meta: &MetaPageData,
    dead_slots: &[usize],
    tombstones: &[u8],
    adjacency: &Option<GraphAdjacency>,
    existing: u32,
    r: Result<VacuumPlan, WriteError>,
    pages: Seq<Seq<u8>>,
)
    requires
        call_ensures(plan_bulkdelete, (meta, dead_slots, tombstones, adjacency, existing), r),
        dead_slots@.len() == 0,
    ensures
        r is Ok,
        run(pages, ops_of(r->Ok_0.actions@)) == pages,
        r->Ok_0.meta == *meta,
        r->Ok_0.tuples_removed == 0,
        r->Ok_0.num_index_tuples == meta.n_vectors,
{
}

/// A pass begins by asking for every row exactly where there are rows and somebody to ask; without
/// anybody to ask it counts them.
pub proof fn a_pass_asks_for_every_row(
    meta: Option<MetaPageData>,
    has_callback: bool,
    r: BulkDeleteStart,
)
    requires
        call_ensures(bulkdelete_start, (meta, has_callback), r),
    ensures
        r is Untouched <==> meta is None || (meta->0).n_vectors == 0,
        r is Walk <==> meta is Some && (meta->0).n_vectors > 0 && has_callback,
        r matches BulkDeleteStart::Walk(m) ==> meta == Some(m),
        r matches BulkDeleteStart::Count(n) ==> meta is Some && n == (meta->0).n_vectors
            && !has_callback,
{
}

/// The dead slots are listed in rising order: each dead one, and no other.
pub proof fn the_dead_slots_are_listed(is_dead: &[bool], r: Vec<usize>)
    requires
        call_ensures(collect_dead, (is_dead,), r),
    ensures
        forall|s: int| 0 <= s < is_dead@.len() ==> (#[trigger] is_dead@[s] <==> listed(r@, s)),
        forall|i: int| 0 <= i < r@.len() ==> #[trigger] r@[i] < is_dead@.len(),
        forall|i: int, j: int| 0 <= i < j < r@.len() ==> r@[i] < r@[j],
{
    assert forall|s: int| 0 <= s < is_dead@.len() implies (#[trigger] is_dead@[s] <==> listed(
        r@,
        s,
    )) by {
        if is_dead@[s] {
            let i = choose|i: int| 0 <= i < r@.len() && r@[i] == s;
            assert(r@[i] == s);
        }
    }
}

/// The copy of a row inside a chain makes the row at `to` the one at `from`, and changes no other row
/// and no other block; there is none where the two are the same.
pub proof fn a_copy_overwrites_one_row(
    first: u32,
    stride: u32,
    rpp: u32,
    from: u64,
    to: u64,
    n: u64,
    r: Option<SlotCopy>,
    pages: Seq<Seq<u8>>,
)
    requires
        call_ensures(copy_slot_in_chain, (first, stride, rpp, from, to), r),
        whole_pages(pages),
        pages.len() <= u32::MAX,
        rows_fit(first, stride, rpp, n),
        rows_inside(first, rpp, n, pages.len()),
        from < n,
        to < n,
    ensures
        r is None <==> from == to,
        r matches Some(c) ==> {
            let after = copy_slot(pages, c);
            &&& row_at(after, first, stride, rpp, to as int) == row_at(
                pages,
                first,
                stride,
                rpp,
                from as int,
            )
            &&& forall|j: int|
                0 <= j < n && j != to ==> #[trigger] row_at(after, first, stride, rpp, j)
                    == row_at(pages, first, stride, rpp, j)
        },
{
    if r is Some {
        copying_a_row_changes_that_row(pages, first, stride, rpp, n, from, to);
        let after = copy_slot(pages, r->0);
        let got = table(after, first, stride, rpp, n as nat);
        let want = table(pages, first, stride, rpp, n as nat).update(
            to as int,
            row_at(pages, first, stride, rpp, from as int),
        );
        assert(got[to as int] == want[to as int]);
        assert forall|j: int| 0 <= j < n && j != to implies #[trigger] row_at(
            after,
            first,
            stride,
            rpp,
            j,
        ) == row_at(pages, first, stride, rpp, j) by {
            assert(got[j] == want[j]);
        }
    }
}

/// Rows can be moved only where whole rows lie on a page and the block of the last one has a number.
pub proof fn rows_are_moved_only_inside_numbered_blocks(meta: &MetaPageData, r: bool)
    requires
        call_ensures(can_move_rows, (meta,), r),
    ensures
        r ==> meta.rows_per_codes_page * meta.stride_bytes <= PAYLOAD_BYTES && meta.stride_bytes > 0
            && meta.rows_per_codes_page > 0,
        r ==> 4 * meta.rows_per_scales_page <= PAYLOAD_BYTES && meta.rows_per_scales_page > 0,
        r ==> 8 * meta.rows_per_ids_page <= PAYLOAD_BYTES && meta.rows_per_ids_page > 0,
        r && meta.n_vectors > 0 ==> meta.codes.first + (meta.n_vectors - 1) / (
        meta.rows_per_codes_page as int) < u32::MAX,
        r && meta.n_vectors > 0 ==> meta.scales.first + (meta.n_vectors - 1) / (
        meta.rows_per_scales_page as int) < u32::MAX,
        r && meta.n_vectors > 0 ==> meta.ids.first + (meta.n_vectors - 1) / (
        meta.rows_per_ids_page as int) < u32::MAX,
        !r ==> meta.stride_bytes == 0 || meta.rows_per_codes_page == 0 || meta.rows_per_scales_page
            == 0 || meta.rows_per_ids_page == 0 || meta.rows_per_codes_page * meta.stride_bytes
            > PAYLOAD_BYTES || 4 * meta.rows_per_scales_page > PAYLOAD_BYTES || 8
            * meta.rows_per_ids_page > PAYLOAD_BYTES || (meta.n_vectors > 0 && (meta.codes.first + (
        meta.n_vectors - 1) / (meta.rows_per_codes_page as int) >= u32::MAX || meta.scales.first + (
        meta.n_vectors - 1) / (meta.rows_per_scales_page as int) >= u32::MAX || meta.ids.first + (
        meta.n_vectors - 1) / (meta.rows_per_ids_page as int) >= u32::MAX)),
{
}

/// Cutting a shrunk relation keeps every block of its ids and of its calibration chain, keeps none
/// behind them, and never grows it. `pages` is the number of blocks of the ids.
pub proof fn cutting_keeps_the_ids(meta: &MetaPageData, cur: u32, r: Option<u32>) -> (pages: nat)
    requires
        call_ensures(truncate_ids_tail, (meta, cur), r),
        meta.rows_per_ids_page > 0,
        meta.n_vectors > 0,
    ensures
        pages * meta.rows_per_ids_page >= meta.n_vectors,
        (pages - 1) * meta.rows_per_ids_page < meta.n_vectors,
        r matches Some(n) ==> {
            &&& n < cur
            &&& n >= meta.ids.first + pages
            &&& meta.rotation.count > 0 ==> n >= meta.rotation.first + meta.rotation.count
            &&& n == meta.ids.first + pages || n == meta.rotation.first + meta.rotation.count
        },
        r is None ==> cur <= meta.ids.first + pages || cur <= meta.rotation.first
            + meta.rotation.count,
{
    let per = meta.rows_per_ids_page as nat;
    let n = meta.n_vectors as nat;
    let pages = pages_for_rows(n, per);
    lemma_ceil(per, pages, n);
    lemma_ceil(per, 0, n);
    lemma_ceil(per, (pages - 1) as nat, n);
    pages
}

/// A shrunk index keeps its place, its shape and its kind, holds pages for its rows and no more, has no
/// codebook and no blocked codes, and counts as degraded exactly where it was built with cells.
pub proof fn a_shrunk_index_keeps_its_place(
    old: &MetaPageData,
    n: u64,
    am_version: u32,
    r: MetaPageData,
)
    requires
        call_ensures(write_meta_shrink_in_place, (old, n, am_version), r),
        old.rows_per_codes_page > 0 && old.rows_per_scales_page > 0 && old.rows_per_ids_page > 0,
        pages_for_rows(n as nat, old.rows_per_codes_page as nat) <= u32::MAX,
        pages_for_rows(n as nat, old.rows_per_scales_page as nat) <= u32::MAX,
        pages_for_rows(n as nat, old.rows_per_ids_page as nat) <= u32::MAX,
    ensures
        r.n_vectors == n && r.am_version == am_version,
        r.codes.first == old.codes.first && r.scales.first == old.scales.first && r.ids.first
            == old.ids.first,
        n <= r.codes.count * old.rows_per_codes_page < n + old.rows_per_codes_page,
        n <= r.scales.count * old.rows_per_scales_page < n + old.rows_per_scales_page,
        n <= r.ids.count * old.rows_per_ids_page < n + old.rows_per_ids_page,
        r.ivf_degraded == (old.lists > 0),
        r.codebook.n_levels == 0,
        r.blocked_bytes == 0 && r.blocked.count == 0,
        r.version == old.version && r.kind == old.kind && r.dim == old.dim && r.bit_width
            == old.bit_width,
        r.stride_bytes == old.stride_bytes && r.rotation == old.rotation && r.rotation_dim
            == old.rotation_dim,
        r.lists == old.lists && r.coarse == old.coarse && r.cell_dir == old.cell_dir,
        r.rows_per_codes_page == old.rows_per_codes_page && r.rows_per_scales_page
            == old.rows_per_scales_page && r.rows_per_ids_page == old.rows_per_ids_page,
{
    lemma_pages_tight(old.rows_per_codes_page as nat, n as nat);
    lemma_pages_tight(old.rows_per_scales_page as nat, n as nat);
    lemma_pages_tight(old.rows_per_ids_page as nat, n as nat);
}

proof fn lemma_pages_tight(per: nat, n: nat)
    requires
        per > 0,
    ensures
        n <= pages_for_rows(n, per) * per < n + per,
{
    let k = pages_for_rows(n, per);
    lemma_ceil(per, k, n);
    if k > 0 {
        lemma_ceil(per, (k - 1) as nat, n);
        assert((k - 1) * per == k * per - per) by (nonlinear_arith);
    } else {
        assert(k * per == 0) by (nonlinear_arith)
            requires
                k == 0,
        ;
        lemma_ceil(per, 0, n);
    }
}

/// A tombstone bitmap that is written reads back, lies behind every other chain, and leaves every other
/// block as it was.
pub proof fn a_written_bitmap_reads_back(
    old: &MetaPageData,
    bitmap: &[u8],
    am_version: u32,
    r: Result<WritePlan, WriteError>,
    pages: Seq<Seq<u8>>,
)
    requires
        call_ensures(write_tombstones_and_meta, (old, bitmap, am_version, pages.len() as u32), r),
        MIN_DECODE_VERSION <= old.version <= GRAPH_VERSION,
        whole_pages(pages),
        0 < pages.len() <= u32::MAX,
        0 < bitmap@.len() <= u64::MAX,
        r is Ok,
    ensures
        ({
            let m = (r->Ok_0).meta;
            let after = run(pages, ops_of((r->Ok_0).actions@));
            &&& reads_as(after[0], m)
            &&& m.am_version == am_version
            &&& m.tombstone_bytes == bitmap@.len()
            &&& bytes_read(m.tombstone, m.tombstone_bytes as nat, after) == bitmap@
            &&& m.n_vectors == old.n_vectors
            &&& after.len() >= pages.len()
            &&& forall|b: int|
                1 <= b < pages.len() && !(m.tombstone.first <= b < m.tombstone.first
                    + m.tombstone.count) ==> #[trigger] after[b] == pages[b]
            &&& old.codes.count > 0 ==> m.tombstone.first >= old.codes.first + old.codes.count
            &&& old.scales.count > 0 ==> m.tombstone.first >= old.scales.first + old.scales.count
            &&& old.ids.count > 0 ==> m.tombstone.first >= old.ids.first + old.ids.count
            &&& old.rotation.count > 0 ==> m.tombstone.first >= old.rotation.first
                + old.rotation.count
            &&& old.coarse.count > 0 ==> m.tombstone.first >= old.coarse.first + old.coarse.count
            &&& old.cell_dir.count > 0 ==> m.tombstone.first >= old.cell_dir.first
                + old.cell_dir.count
            &&& old.graph.count > 0 ==> m.tombstone.first >= old.graph.first + old.graph.count
        }),
{
    marking_moves_nothing(*old, pages, bitmap@, am_version);
    let es = unmarked(*old).extents();
    assert(es[0].1 >= old.codes.count && es[1].1 >= old.scales.count && es[2].1 >= old.ids.count);
    assert(es[0].0 == old.codes.first && es[1].0 == old.scales.first && es[2].0 == old.ids.first);
    assert(es[4] == (old.rotation.first as nat, old.rotation.count as nat));
    assert(es[5] == (old.coarse.first as nat, old.coarse.count as nat));
    assert(es[6] == (old.cell_dir.first as nat, old.cell_dir.count as nat));
    assert(es[7] == (old.graph.first as nat, old.graph.count as nat));
    assert forall|i: int| 0 <= i < 9 && (#[trigger] es[i]).1 > 0 implies es[i].0 + es[i].1
        <= highest(es) by {
        lemma_extent_bounds(es, i);
    }
}

/// A bitmap is written behind everything else that the index has, or where the one before it began if
/// that is further on, in just enough pages; it is refused exactly where the last of them would have no
/// number. Nothing else of the meta page changes but the version and that the cells count as up to date.
pub proof fn a_bitmap_comes_behind_everything_else(
    old: &MetaPageData,
    bitmap: &[u8],
    am_version: u32,
    existing: u32,
    r: Result<WritePlan, WriteError>,
    bare: &MetaPageData,
    used: (u64, u64),
    pages: int,
)
    requires
        call_ensures(write_tombstones_and_meta, (old, bitmap, am_version, existing), r),
        *bare == (MetaPageData { tombstone: Span { first: 0, count: 0 }, ..*old }),
        call_ensures(MetaPageData::used_blocks, (bare,), used),
        just_enough(pages, 8168, bitmap@.len() as int),
    ensures
        ({
            let at = if used.1 < old.tombstone.first {
                old.tombstone.first as int
            } else {
                used.1 as int
            };
            &&& r is Ok <==> at + pages <= u32::MAX
            &&& r is Err ==> r->Err_0 == WriteError::TooManyBlocks
            &&& r matches Ok(plan) ==> {
                &&& plan.meta.tombstone.first == at
                &&& plan.meta.tombstone.count == pages
                &&& plan.meta.tombstone_bytes == bitmap@.len()
                &&& plan.meta == (MetaPageData {
                    am_version,
                    tombstone: plan.meta.tombstone,
                    tombstone_bytes: plan.meta.tombstone_bytes,
                    ivf_degraded: false,
                    ..*old
                })
            }
        }),
{
    assert(bitmap.len() == bitmap@.len());
    lemma_just_enough(pages, 8168, bitmap@.len() as int);
}

/// Marking is refused exactly where the bitmap, which has a bit for each row and is no shorter than before,
/// would need a block without a number.
pub proof fn marking_is_refused_for_want_of_blocks(
    meta: &MetaPageData,
    dead_slots: &[usize],
    tombstones: &[u8],
    adjacency: &Option<GraphAdjacency>,
    existing: u32,
    r: Result<VacuumPlan, WriteError>,
    bare: &MetaPageData,
    used: (u64, u64),
    bytes: int,
    pages: int,
)
    requires
        call_ensures(plan_bulkdelete, (meta, dead_slots, tombstones, adjacency, existing), r),
        meta.kind == 2 || (meta.lists > 0 && meta.coarse.count > 0 && meta.cell_dir.count > 0
            && !meta.ivf_degraded),
        dead_slots@.len() > 0,
        *bare == (MetaPageData { tombstone: Span { first: 0, count: 0 }, ..*meta }),
        call_ensures(MetaPageData::used_blocks, (bare,), used),
        just_enough(bytes, 8, meta.n_vectors as int),
        just_enough(
            pages,
            8168,
            if bytes < tombstones@.len() {
                tombstones@.len() as int
            } else {
                bytes
            },
        ),
    ensures
        ({
            let at = if used.1 < meta.tombstone.first {
                meta.tombstone.first as int
            } else {
                used.1 as int
            };
            &&& r is Ok <==> at + pages <= u32::MAX
            &&& r is Err ==> r->Err_0 == WriteError::TooManyBlocks
            &&& r matches Ok(plan) ==> plan.meta.tombstone.first == at && plan.meta.tombstone.count
                == pages
        }),
{
    let bitmap = choose|bitmap: Seq<u8>|
        is_marking(r, *meta, *adjacency, tombstones@, dead_slots@, existing, bitmap);
    assert(is_marking(r, *meta, *adjacency, tombstones@, dead_slots@, existing, bitmap));
    lemma_just_enough(bytes, 8, meta.n_vectors as int);
    lemma_just_enough(pages, 8168, bitmap.len() as int);
    let base = marked_base(*meta, *adjacency, bitmap);
    assert(unmarked(base).extents() =~= bare.extents());
}

/// A relation is cut behind its ids and its calibration chain, whichever ends later, where it is longer
/// than that; one without rows and without ids is not cut.
pub proof fn a_relation_is_cut_behind_its_ids(meta: &MetaPageData, cur: u32, r: Option<u32>, pages: int)
    requires
        call_ensures(truncate_ids_tail, (meta, cur), r),
        meta.rows_per_ids_page > 0 ==> just_enough(
            pages,
            meta.rows_per_ids_page as int,
            meta.n_vectors as int,
        ),
        meta.rows_per_ids_page == 0 ==> pages == 0,
    ensures
        ({
            let ids_end = meta.ids.first + pages;
            let end = if meta.rotation.count > 0 && meta.rotation.first + meta.rotation.count
                > ids_end {
                meta.rotation.first + meta.rotation.count
            } else {
                ids_end
            };
            &&& meta.n_vectors == 0 && meta.ids.first == 0 ==> r is None
            &&& meta.n_vectors > 0 || meta.ids.first > 0 ==> {
                &&& r is Some <==> cur > end
                &&& r matches Some(n) ==> n == end
            }
        }),
{
    if meta.rows_per_ids_page > 0 {
        lemma_just_enough(pages, meta.rows_per_ids_page as int, meta.n_vectors as int);
    }
}

/// Nothing but the rows and what is made of them changes in the meta page of a shrunk index.
pub proof fn a_shrunk_index_keeps_the_rest(
    old: &MetaPageData,
    n: u64,
    am_version: u32,
    r: MetaPageData,
)
    requires
        call_ensures(write_meta_shrink_in_place, (old, n, am_version), r),
    ensures
        *old == (MetaPageData {
            n_vectors: old.n_vectors,
            am_version: old.am_version,
            codes: old.codes,
            scales: old.scales,
            ids: old.ids,
            blocked: old.blocked,
            blocked_bytes: old.blocked_bytes,
            n_blocks_blocked: old.n_blocks_blocked,
            codebook: old.codebook,
            ivf_degraded: old.ivf_degraded,
            ..r
        }),
        r.n_blocks_blocked == 0,
        r.blocked.first == 0,
{
}

/// Closing the holes of a flat index leaves the meta page of the shrunk index.
pub proof fn closing_leaves_the_shrunk_index(
    meta: &MetaPageData,
    dead_slots: &[usize],
    tombstones: &[u8],
    adjacency: &Option<GraphAdjacency>,
    existing: u32,
    r: Result<VacuumPlan, WriteError>,
    version: u32,
    m: MetaPageData,
)
    requires
        call_ensures(plan_bulkdelete, (meta, dead_slots, tombstones, adjacency, existing), r),
        meta.kind != 2,
        meta.lists == 0 || meta.coarse.count == 0 || meta.cell_dir.count == 0 || meta.ivf_degraded,
        dead_slots@.len() > 0,
        rising_slots(dead_slots@, meta.n_vectors as nat),
        version == if meta.am_version < u32::MAX {
            meta.am_version + 1
        } else {
            u32::MAX as int
        },
        call_ensures(
            write_meta_shrink_in_place,
            (meta, (meta.n_vectors - dead_slots@.len()) as u64, version),
            m,
        ),
    ensures
        r is Ok && (r->Ok_0).meta == m,
{
    let p = (r->Ok_0).meta;
    assert(p.codebook.centroids =~= m.codebook.centroids);
    assert(p.codebook.boundaries =~= m.codebook.boundaries);
}

/// A row that is in front of the new end stays in its slot when holes are closed: only rows from behind it
/// move, into the holes.
pub proof fn rows_in_front_stay_where_they_are<T>(rows: Seq<T>, dead: Seq<usize>, j: int)
    requires
        rising_slots(dead, rows.len()),
        0 <= j < rows.len() - dead.len(),
        !listed(dead, j),
    ensures
        closed_up(rows, dead).len() == rows.len() - dead.len(),
        closed_up(rows, dead)[j] == rows[j],
    decreases dead.len(),
{
    if dead.len() > 0 {
        let rest = dead.drop_last();
        let next = rows.update(dead.last() as int, rows.last()).drop_last();
        lemma_rising_prefix(dead, rows.len());
        assert(dead[dead.len() - 1] != j);
        if listed(rest, j) {
            let k = choose|k: int| 0 <= k < rest.len() && #[trigger] rest[k] == j;
            assert(dead[k] == j);
        }
        rows_in_front_stay_where_they_are(next, rest, j);
        assert(next[j] == rows[j]);
    }
}

} // verus!
