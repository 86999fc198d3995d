//! The whole-relation write of a flat index in two phases: the rows, and later everything else with the
//! meta page at the end.
use vstd::prelude::*;

use crate::chain::{
    chain_ops, chains_are_written, image, in_batches, in_order, lemma_ceil, ops_of, run, run_concat,
    step, Action, Chain, Op,
};
use crate::page::{pages_for_bytes, stride_of, MetaPageData, Span, PAYLOAD_BYTES};
use crate::relfile::{
    byte_chain, check_tables, codebook_belongs, content_of, expected_codebook,
    lemma_chains_in_order, lemma_gap_moves_the_layout, lemma_layout_within, lemma_row_layout,
    lemma_tight_layout, place_layout, plan_chains, push_settling, table_fault, with_bytes,
    write_bytes_at, Content, PreparedParts, Standing, StoredParts, WriteError, WritePlan,
};
use crate::relfile_laws::{
    confined, confined_ops_keep_the_rest, finished_write_is_complete, index_untouched,
    lemma_batches_confined, lemma_chains_filled, lemma_clear_of_the_old, lemma_front_chains,
    lemma_front_laid_out, lemma_ops_before_meta_confined, lemma_settled, lemma_settling_moment,
    new_index_stands, rows_read, rows_readable, untouched_index_reads_the_same, whole_pages,
};

verus! {

/// What the first phase hands to the second: where the row chains lie, and what the second phase
/// needs to plan the rest.
#[derive(Clone, Copy, Debug, PartialEq, Eq, Structural)]
pub struct PackedPhaseLayout {
    /// How many blocks further on the chains are until the second phase is done.
    pub gap: u32,
    pub bit_width: u8,
    pub dim: u32,
    pub n_vectors: u64,
    pub am_version: u32,
    pub codes: Span,
    pub scales: Span,
    pub ids: Span,
}

impl PackedPhaseLayout {
    /// The layout that the first phase of a write hands over.
    pub open spec fn is_of(self, c: Content) -> bool {
        &&& self.gap == c.gap
        &&& self.bit_width == c.bit_width
        &&& self.dim == c.dim
        &&& self.n_vectors == c.n_vectors
        &&& self.am_version == c.am_version
        &&& self.codes == c.in_front().meta().codes
        &&& self.scales == c.in_front().meta().scales
        &&& self.ids == c.in_front().meta().ids
    }
}

/// The rows alone, as the first phase writes them.
pub open spec fn rows_only(c: Content) -> Content {
    Content { tqplus: Seq::empty(), cells: None, graph: None, ..c }
}

/// The gap that the first phase leaves, so that neither the rows nor a calibration pair of the
/// dimension overwrite a chain that is there; none without rows.
pub open spec fn phased_gap(over: Standing, bit_width: u8, dim: u32, n_vectors: u64) -> nat {
    if n_vectors == 0 {
        0
    } else {
        over.gap(
            MetaPageData::planned_blocks(bit_width, dim, n_vectors, 0, 0) + pages_for_bytes(
                8 * dim as nat,
            ),
        )
    }
}

/// Whether the phases can be written without overwriting a chain that is there. Only block numbers set
/// a limit to that.
pub open spec fn phases_spare(over: Standing, bit_width: u8, dim: u32, n_vectors: u64) -> bool {
    n_vectors == 0 || over.spares(
        MetaPageData::planned_blocks(bit_width, dim, n_vectors, 0, 0) + pages_for_bytes(
            8 * dim as nat,
        ),
    )
}

/// The operations of the first phase; none without rows.
pub open spec fn first_phase_ops(c: Content, existing: u32) -> Seq<Op> {
    if c.n_vectors == 0 {
        Seq::empty()
    } else {
        rows_only(c).ops_before_meta(existing)
    }
}

/// The operations of the second phase: the calibration chain, the meta page, and what follows it.
pub open spec fn second_phase_ops(c: Content, existing: u32) -> Seq<Op> {
    second_phase_ops_before_meta(c, existing) + c.settling_ops(existing)
}

/// The operations of the second phase before the meta page.
pub open spec fn second_phase_ops_before_meta(c: Content, existing: u32) -> Seq<Op> {
    (if existing < c.blocks() {
        seq![Op::ExtendTo(c.blocks())]
    } else {
        Seq::empty()
    }) + (if c.n_vectors == 0 || c.tqplus.len() == 0 {
        Seq::empty()
    } else {
        in_batches(byte_chain(c.meta().rotation, c.tqplus).writes())
    })
}

/// First phase: plans the row chains, without the meta page.
pub fn write_packed_phase(
    bit_width: u8,
    dim: u32,
    n_vectors: u64,
    packed_codes: &[u8],
    scales: &[u32],
    slot_to_id: &[u64],
    am_version: u32,
    over: Standing,
) -> (r: Result<(PackedPhaseLayout, Vec<Action>), WriteError>)
    requires
        1 <= stride_of(bit_width as nat, dim as nat) <= PAYLOAD_BYTES,
        packed_codes@.len() == n_vectors * stride_of(bit_width as nat, dim as nat),
    ensures
        match table_fault(n_vectors, scales@, slot_to_id@, false) {
            Some(e) => r == Err::<(PackedPhaseLayout, Vec<Action>), WriteError>(e),
            None => {
                &&& r is Ok == (MetaPageData::planned_blocks(bit_width, dim, n_vectors, 0, 0)
                    <= u32::MAX)
                &&& r matches Err(e) ==> e == WriteError::TooManyBlocks
                &&& r matches Ok((layout, actions)) ==> {
                    let c = content_of(
                        phased_gap(over, bit_width, dim, n_vectors),
                        bit_width,
                        dim,
                        n_vectors,
                        packed_codes@,
                        scales@,
                        slot_to_id@,
                        am_version,
                        None,
                        None,
                        None,
                        arbitrary(),
                    );
                    &&& c.consistent()
                    &&& layout.is_of(c)
                    &&& ops_of(actions@) == first_phase_ops(c, over.blocks)
                }
            },
        },
{
    if let Some(e) = check_tables(n_vectors, scales, slot_to_id, false) {
        return Err(e);
    }
    let planned: Option<MetaPageData> = MetaPageData::plan(bit_width, dim, n_vectors, am_version);
    let tight: MetaPageData = match planned {
        Some(m) => m,
        None => {
            return Err(WriteError::TooManyBlocks);
        },
    };
    let ghost leftmost = content_of(
        0,
        bit_width,
        dim,
        n_vectors,
        packed_codes@,
        scales@,
        slot_to_id@,
        am_version,
        None,
        None,
        None,
        tight.codebook,
    );
    assert(tight == leftmost.tight_meta());
    proof {
        lemma_tight_layout(leftmost);
        lemma_layout_within(leftmost);
        lemma_ceil(PAYLOAD_BYTES as nat, 8 * dim as nat, 8 * dim as nat);
    }
    let reserve: u64 = MetaPageData::byte_pages_needed(8 * dim as u64);
    let gap: u32 = if n_vectors == 0 {
        0
    } else {
        over.gap_for(tight.chain_blocks() + reserve)
    };
    let (plan, row_chain_total): (MetaPageData, u32) = match place_layout(&tight, gap) {
        Some(placed) => placed,
        None => {
            return Err(WriteError::TooManyBlocks);
        },
    };
    let layout = PackedPhaseLayout {
        gap,
        bit_width,
        dim,
        n_vectors,
        am_version,
        codes: tight.codes,
        scales: tight.scales,
        ids: tight.ids,
    };
    let existing: u32 = over.blocks;
    let mut actions: Vec<Action> = Vec::new();
    let ghost c = content_of(
        gap as nat,
        bit_width,
        dim,
        n_vectors,
        packed_codes@,
        scales@,
        slot_to_id@,
        am_version,
        None,
        None,
        None,
        arbitrary(),
    );
    let ghost rows = Content { codebook: plan.codebook, ..rows_only(c) };
    proof {
        lemma_gap_moves_the_layout(c, 0);
    }
    assert(plan == rows.meta());
    if n_vectors == 0 {
        assert(ops_of(actions@) =~= first_phase_ops(c, existing));
        return Ok((layout, actions));
    }
    proof {
        lemma_row_layout(rows);
    }
    if existing < row_chain_total {
        actions.push(Action::ExtendTo(row_chain_total));
    }
    let parts = StoredParts {
        tqplus: Vec::new(),
        coarse: Vec::new(),
        directory: Vec::new(),
        adjacency: Vec::new(),
    };
    assert(parts.tqplus@ =~= rows.tqplus);
    assert(parts.adjacency@ =~= rows.adjacency_bytes());
    let ghost before = ops_of(actions@);
    assert(before =~= if existing < rows.blocks() {
        seq![Op::ExtendTo(rows.blocks())]
    } else {
        Seq::empty()
    });
    plan_chains(
        &mut actions,
        &plan,
        packed_codes,
        scales,
        slot_to_id,
        &parts,
        Ghost(rows),
    );
    assert(rows.chains() =~= rows_only(c).chains());
    assert(ops_of(actions@) == first_phase_ops(c, existing));
    Ok((layout, actions))
}

/// Second phase: plans what follows the rows, the meta page, and the move of the chains to the front.
/// `existing` is the number of blocks after the first phase.
pub fn write_blocked_phase_and_meta(
    layout: PackedPhaseLayout,
    prepared: Option<PreparedParts<'_>>,
    existing: u32,
) -> (r: Result<WritePlan, WriteError>)
    requires
        1 <= stride_of(layout.bit_width as nat, layout.dim as nat) <= PAYLOAD_BYTES,
        prepared is Some ==> 2 <= layout.bit_width <= 4 && layout.dim % 8 == 0 && 8 <= layout.dim
            <= 16384,
    ensures
        r is Ok == (layout.gap + crate::relfile::blocks_needed(
            layout.bit_width,
            layout.dim,
            layout.n_vectors,
            prepared,
            None,
            None,
        ) <= u32::MAX),
        r matches Err(e) ==> e == WriteError::TooManyBlocks,
        r matches Ok(plan) ==> {
            &&& codebook_belongs(layout.bit_width, layout.dim, prepared, plan.meta.codebook)
            &&& forall|codes: Seq<u8>, scales: Seq<u32>, ids: Seq<u64>|
                {
                    let c = #[trigger] content_of(
                        layout.gap as nat,
                        layout.bit_width,
                        layout.dim,
                        layout.n_vectors,
                        codes,
                        scales,
                        ids,
                        layout.am_version,
                        prepared,
                        None,
                        None,
                        plan.meta.codebook,
                    );
                    &&& c.countable()
                    &&& c.blocks() <= u32::MAX
                    &&& plan.meta == c.in_front().meta()
                    &&& ops_of(plan.actions@) == second_phase_ops(c, existing)
                }
        },
{
    let tqplus: Vec<u8> = match &prepared {
        Some(p) => p.tqplus_chain_bytes(),
        None => Vec::new(),
    };
    let planned: Option<MetaPageData> = MetaPageData::plan_with_blocked(
        layout.bit_width,
        layout.dim,
        layout.n_vectors,
        layout.am_version,
        0,
        0,
        tqplus.len() as u64,
    );
    let mut meta: MetaPageData = match planned {
        Some(m) => m,
        None => {
            return Err(WriteError::TooManyBlocks);
        },
    };
    if prepared.is_some() {
        let derived: (Vec<u32>, Vec<u32>) = expected_codebook(
            layout.bit_width as usize,
            layout.dim as usize,
        );
        meta.set_codebook(derived.1.as_slice(), derived.0.as_slice());
    }
    let ghost tight = content_of(
        0,
        layout.bit_width,
        layout.dim,
        layout.n_vectors,
        Seq::empty(),
        Seq::empty(),
        Seq::empty(),
        layout.am_version,
        prepared,
        None,
        None,
        meta.codebook,
    );
    assert(tqplus@ =~= tight.tqplus);
    assert(meta == tight.tight_meta());
    assert(meta.block_count() == tight.tight_blocks());
    proof {
        lemma_tight_layout(tight);
        lemma_layout_within(tight);
    }
    let need: u32 = meta.chain_blocks() as u32;
    let (placed, new_total): (MetaPageData, u32) = match place_layout(&meta, layout.gap) {
        Some(placed) => placed,
        None => {
            return Err(WriteError::TooManyBlocks);
        },
    };
    let ghost c = content_of(
        layout.gap as nat,
        layout.bit_width,
        layout.dim,
        layout.n_vectors,
        Seq::empty(),
        Seq::empty(),
        Seq::empty(),
        layout.am_version,
        prepared,
        None,
        None,
        meta.codebook,
    );
    assert(tqplus@ =~= c.tqplus);
    proof {
        lemma_gap_moves_the_layout(tight, c.gap);
        lemma_gap_moves_the_layout(c, 0);
    }
    assert(placed == c.meta());
    let mut actions: Vec<Action> = Vec::new();
    if existing < new_total {
        actions.push(Action::ExtendTo(new_total));
    }
    assert(ops_of(actions@) =~= if existing < c.blocks() {
        seq![Op::ExtendTo(c.blocks())]
    } else {
        Seq::empty()
    });
    if layout.n_vectors > 0 {
        write_bytes_at(&mut actions, placed.rotation, tqplus.as_slice());
    }
    assert(ops_of(actions@) =~= second_phase_ops_before_meta(c, existing));
    push_settling(&mut actions, &placed, &meta, layout.gap, need, existing, Ghost(c));
    assert(ops_of(actions@) =~= second_phase_ops(c, existing));
    Ok(WritePlan { meta, actions })
}

/// Whether an index is flat: neither cells nor a graph.
pub open spec fn flat(c: Content) -> bool {
    c.cells is None && c.graph is None
}

proof fn lemma_second_phase_confined(c: Content, existing: u32)
    requires
        c.consistent(),
        c.countable(),
        flat(c),
        c.blocks() <= u32::MAX,
    ensures
        forall|i: int|
            0 <= i < second_phase_ops_before_meta(c, existing).len() ==> confined(
                #[trigger] second_phase_ops_before_meta(c, existing)[i],
                c.gap + 1,
                c.blocks(),
            ),
{
    let all = second_phase_ops_before_meta(c, existing);
    if c.n_vectors > 0 && c.tqplus.len() > 0 {
        let chain = byte_chain(c.meta().rotation, c.tqplus);
        lemma_row_layout(c);
        lemma_flat_chains(c);
        lemma_batches_confined(chain, c.gap + 1, c.blocks());
        let n = all.len() - in_batches(chain.writes()).len();
        assert forall|i: int| 0 <= i < all.len() implies confined(
            #[trigger] all[i],
            c.gap + 1,
            c.blocks(),
        ) by {
            if i >= n {
                assert(all[i] == in_batches(chain.writes())[i - n]);
            }
        }
    }
}

/// The chains of a flat index with rows: codes, scales, ids and, where there is one, the
/// calibration; together they fill every block behind block 0.
proof fn lemma_flat_chains(c: Content)
    requires
        c.consistent(),
        c.countable(),
        flat(c),
        c.n_vectors > 0,
        c.blocks() <= u32::MAX,
    ensures
        c.chains() == with_bytes(c.row_chains(), c.meta().rotation, c.tqplus),
        c.row_chains() == rows_only(c).row_chains(),
        rows_only(c).chains() == rows_only(c).row_chains(),
        rows_only(c).consistent(),
        rows_only(c).countable(),
        rows_only(c).blocks() == c.gap + 1 + c.meta().codes.count + c.meta().scales.count
            + c.meta().ids.count,
        rows_only(c).blocks() + pages_for_bytes(c.tqplus.len()) == c.blocks(),
        c.row_chains()[0].start == c.gap + 1,
        c.row_chains()[1].start == c.row_chains()[0].start + c.row_chains()[0].blocks(),
        c.row_chains()[2].start == c.row_chains()[1].start + c.row_chains()[1].blocks(),
        rows_only(c).blocks() == c.row_chains()[2].start + c.row_chains()[2].blocks(),
        c.tqplus.len() > 0 ==> c.meta().rotation.first == rows_only(c).blocks(),
{
    lemma_row_layout(c);
    let rows = rows_only(c);
    assert(rows.meta().codes == c.meta().codes && rows.meta().scales == c.meta().scales
        && rows.meta().ids == c.meta().ids);
    assert(rows.row_chains() =~= c.row_chains());
    lemma_ceil(PAYLOAD_BYTES as nat, 0, c.tqplus.len());
    lemma_ceil(PAYLOAD_BYTES as nat, 0, 0);
}

proof fn lemma_filled_alike(c: Content, p: Seq<Seq<u8>>, q: Seq<Seq<u8>>)
    requires
        c.consistent(),
        c.countable(),
        flat(c),
        c.blocks() <= u32::MAX,
        p.len() == c.blocks(),
        q.len() == c.blocks(),
        forall|b: int| 0 <= b <= c.gap ==> #[trigger] p[b] == q[b],
        forall|i: int| 0 <= i < c.chains().len() ==> (#[trigger] c.chains()[i]).laid_out_in(p),
        forall|i: int| 0 <= i < c.chains().len() ==> (#[trigger] c.chains()[i]).laid_out_in(q),
    ensures
        p == q,
{
    if c.n_vectors > 0 {
        lemma_flat_chains(c);
        let chains = c.chains();
        let rows = c.row_chains();
        assert(chains[0] == rows[0] && chains[1] == rows[1] && chains[2] == rows[2]);
        assert forall|b: int| 0 <= b < p.len() implies p[b] == q[b] by {
            if b > c.gap {
                let i: int = if b < rows[1].start {
                    0
                } else if b < rows[2].start {
                    1
                } else if b < rows_only(c).blocks() {
                    2
                } else {
                    3
                };
                if i == 3 {
                    assert(pages_for_bytes(c.tqplus.len()) > 0);
                    lemma_ceil(PAYLOAD_BYTES as nat, 0, c.tqplus.len());
                    assert(chains[3] == byte_chain(c.meta().rotation, c.tqplus));
                }
                let k = b - chains[i].start;
                assert(0 <= k < chains[i].blocks());
                assert(chains[i].laid_out_in(p) && chains[i].laid_out_in(q));
                let w = chains[i].writes()[k];
                assert(p[chains[i].start + k] == image(w.1));
                assert(q[chains[i].start + k] == image(w.1));
            }
        }
    }
    assert(p =~= q);
}

proof fn lemma_second_phase_fills(c: Content, mid: Seq<Seq<u8>>)
    requires
        c.consistent(),
        c.countable(),
        flat(c),
        c.blocks() <= u32::MAX,
        mid.len() <= u32::MAX,
        c.n_vectors > 0 ==> mid.len() >= rows_only(c).blocks(),
        c.n_vectors > 0 ==> forall|i: int|
            0 <= i < 3 ==> (#[trigger] c.row_chains()[i]).laid_out_in(mid),
    ensures
        ({
            let filled = run(mid, second_phase_ops_before_meta(c, mid.len() as u32));
            &&& filled.len() == if mid.len() < c.blocks() {
                c.blocks()
            } else {
                mid.len()
            }
            &&& forall|i: int|
                0 <= i < c.chains().len() ==> (#[trigger] c.chains()[i]).laid_out_in(filled)
        }),
{
    let existing = mid.len() as u32;
    let total = c.blocks();
    let extend = if existing < total {
        seq![Op::ExtendTo(total)]
    } else {
        Seq::empty()
    };
    let start = run(mid, extend);
    assert(start.len() == (if mid.len() < total {
        total
    } else {
        mid.len()
    }) && forall|b: int| 0 <= b < mid.len() ==> #[trigger] start[b] == mid[b]) by {
        if existing < total {
            assert(extend.drop_last() =~= Seq::<Op>::empty());
            assert(run(mid, extend) == step(run(mid, extend.drop_last()), extend.last()));
        }
    }
    let rest = if c.n_vectors == 0 || c.tqplus.len() == 0 {
        Seq::empty()
    } else {
        in_batches(byte_chain(c.meta().rotation, c.tqplus).writes())
    };
    run_concat(mid, extend, rest);
    let filled = run(mid, second_phase_ops_before_meta(c, existing));
    if c.n_vectors > 0 {
        lemma_flat_chains(c);
        lemma_chains_in_order(c);
        let rows = c.row_chains();
        let chains = c.chains();
        if c.tqplus.len() > 0 {
            let tail = seq![byte_chain(c.meta().rotation, c.tqplus)];
            assert(in_order(tail, start.len())) by {
                assert(chains[3] == tail[0]);
            }
            assert(tail.drop_last() =~= Seq::<Chain>::empty());
            assert(chain_ops(tail) =~= rest) by {
                reveal_with_fuel(chain_ops, 2);
            }
            chains_are_written(start, tail);
            assert forall|b: int| 0 <= b < rows_only(c).blocks() implies #[trigger] filled[b]
                == mid[b] by {
                assert(!crate::chain::in_chains(tail, b));
                assert(filled[b] == start[b]);
            }
            assert(tail[0].laid_out_in(filled));
        }
        assert forall|i: int| 0 <= i < chains.len() implies (#[trigger] chains[i]).laid_out_in(
            filled,
        ) by {
            if i < 3 {
                assert(chains[i] == rows[i]);
                assert(rows[i].laid_out_in(mid));
                assert forall|p: int| 0 <= p < rows[i].blocks() implies filled[rows[i].start + p]
                    == image((#[trigger] rows[i].writes()[p]).1) by {
                    assert(mid[rows[i].start + p] == image(rows[i].writes()[p].1));
                    assert(rows[i].start + p < rows_only(c).blocks());
                }
            } else {
                assert(chains[i] == byte_chain(c.meta().rotation, c.tqplus));
            }
        }
    }
}

/// Before the second phase writes the meta page every chain is written.
proof fn lemma_phases_fill(c: Content, pages: Seq<Seq<u8>>)
    requires
        c.consistent(),
        c.countable(),
        flat(c),
        c.blocks() <= u32::MAX,
        pages.len() <= u32::MAX,
        whole_pages(pages),
    ensures
        ({
            let mid = run(pages, first_phase_ops(c, pages.len() as u32));
            let filled = run(mid, second_phase_ops_before_meta(c, mid.len() as u32));
            &&& mid.len() <= u32::MAX
            &&& filled.len() <= u32::MAX
            &&& filled.len() == if mid.len() < c.blocks() {
                c.blocks()
            } else {
                mid.len()
            }
            &&& whole_pages(filled)
            &&& forall|i: int|
                0 <= i < c.chains().len() ==> (#[trigger] c.chains()[i]).laid_out_in(filled)
        }),
{
    let existing = pages.len() as u32;
    let first = first_phase_ops(c, existing);
    let mid = run(pages, first);
    if c.n_vectors > 0 {
        lemma_flat_chains(c);
        lemma_chains_filled(rows_only(c), pages);
        assert forall|i: int| 0 <= i < 3 implies (#[trigger] c.row_chains()[i]).laid_out_in(
            mid,
        ) by {
            assert(rows_only(c).chains()[i] == c.row_chains()[i]);
        }
    }
    assert(whole_pages(mid));
    lemma_second_phase_fills(c, mid);
    lemma_second_phase_confined(c, mid.len() as u32);
    confined_ops_keep_the_rest(
        mid,
        second_phase_ops_before_meta(c, mid.len() as u32),
        c.gap + 1,
        c.blocks(),
    );
}

/// The two phases end in exactly the relation that the single write ends in, wherever either puts its
/// chains on the way.
pub proof fn two_phases_write_what_one_does(c: Content, gap: nat, pages: Seq<Seq<u8>>)
    requires
        c.consistent(),
        c.countable(),
        flat(c),
        c.blocks() <= u32::MAX,
        gap + c.tight_blocks() <= u32::MAX,
        pages.len() <= u32::MAX,
        whole_pages(pages),
    ensures
        ({
            let mid = run(pages, first_phase_ops(c, pages.len() as u32));
            &&& mid.len() <= u32::MAX
            &&& run(mid, second_phase_ops(c, mid.len() as u32)) == run(
                pages,
                (Content { gap, ..c }).ops(pages.len() as u32),
            )
        }),
{
    let mid = run(pages, first_phase_ops(c, pages.len() as u32));
    let before = second_phase_ops_before_meta(c, mid.len() as u32);
    let other = Content { gap, ..c };
    lemma_gap_moves_the_layout(c, gap);
    lemma_phases_fill(c, pages);
    let filled = run(mid, before);
    run_concat(mid, before, c.settling_ops(mid.len() as u32));
    lemma_settled(c, filled, mid.len() as u32);
    let after = run(filled, c.settling_ops(mid.len() as u32));
    lemma_front_chains(c);
    lemma_front_laid_out(c, filled, after);
    finished_write_is_complete(other, pages);
    assert(other.in_front() == c.in_front());
    lemma_filled_alike(c.in_front(), after, run(pages, other.ops(pages.len() as u32)));
}

proof fn lemma_phases_confined(c: Content, pages: Seq<Seq<u8>>, done: nat)
    requires
        c.consistent(),
        c.countable(),
        flat(c),
        c.blocks() <= u32::MAX,
        pages.len() <= u32::MAX,
        done <= second_phase_ops_before_meta(
            c,
            run(pages, first_phase_ops(c, pages.len() as u32)).len() as u32,
        ).len(),
    ensures
        ({
            let mid = run(pages, first_phase_ops(c, pages.len() as u32));
            let torn = run(mid, second_phase_ops(c, mid.len() as u32).take(done as int));
            &&& mid.len() >= pages.len()
            &&& torn.len() >= mid.len()
            &&& forall|b: int|
                0 <= b < mid.len() && !(c.gap + 1 <= b < c.blocks()) ==> #[trigger] mid[b] == if b
                    < pages.len() {
                    pages[b]
                } else {
                    image(Seq::empty())
                }
            &&& forall|b: int|
                0 <= b < torn.len() && !(c.gap + 1 <= b < c.blocks()) ==> #[trigger] torn[b] == if b
                    < pages.len() {
                    pages[b]
                } else {
                    image(Seq::empty())
                }
        }),
{
    let existing = pages.len() as u32;
    let first = first_phase_ops(c, existing);
    if c.n_vectors > 0 {
        lemma_flat_chains(c);
        lemma_ops_before_meta_confined(rows_only(c), existing);
        assert forall|i: int| 0 <= i < first.len() implies confined(
            #[trigger] first[i],
            c.gap + 1,
            c.blocks(),
        ) by {
            assert(confined(first[i], c.gap + 1, rows_only(c).blocks()));
        }
    }
    confined_ops_keep_the_rest(pages, first, c.gap + 1, c.blocks());
    let mid = run(pages, first);
    let before = second_phase_ops_before_meta(c, mid.len() as u32);
    lemma_second_phase_confined(c, mid.len() as u32);
    let part = second_phase_ops(c, mid.len() as u32).take(done as int);
    assert(part =~= before.take(done as int));
    assert forall|i: int| 0 <= i < part.len() implies confined(
        #[trigger] part[i],
        c.gap + 1,
        c.blocks(),
    ) by {
        assert(part[i] == before[i]);
    }
    confined_ops_keep_the_rest(mid, part, c.gap + 1, c.blocks());
    let torn = run(mid, part);
    assert forall|b: int| 0 <= b < torn.len() && !(c.gap + 1 <= b < c.blocks()) implies #[trigger]
        torn[b] == if b < pages.len() {
        pages[b]
    } else {
        image(Seq::empty())
    } by {
        if b < mid.len() {
            assert(mid[b] == if b < pages.len() {
                pages[b]
            } else {
                image(Seq::empty())
            });
        }
    }
}

/// Until the second phase writes the meta page, nothing of the index that was there before the first
/// phase is lost: its meta page and every block of its chains are as they were, and its rows read as
/// before. The calibration pair has at most one shift and one scale for each dimension, and there are
/// block numbers for both indexes.
pub proof fn phases_keep_the_old_index(
    c: Content,
    old: MetaPageData,
    pages: Seq<Seq<u8>>,
    done: nat,
)
    requires
        c.consistent(),
        c.countable(),
        flat(c),
        c.tqplus.len() <= 8 * c.dim,
        c.blocks() <= u32::MAX,
        0 < pages.len() <= u32::MAX,
        phases_spare(
            Standing { blocks: pages.len() as u32, meta: Some(old) },
            c.bit_width,
            c.dim,
            c.n_vectors,
        ),
        c.gap == phased_gap(
            Standing { blocks: pages.len() as u32, meta: Some(old) },
            c.bit_width,
            c.dim,
            c.n_vectors,
        ),
        done <= second_phase_ops_before_meta(
            c,
            run(pages, first_phase_ops(c, pages.len() as u32)).len() as u32,
        ).len(),
    ensures
        ({
            let mid = run(pages, first_phase_ops(c, pages.len() as u32));
            let torn = run(mid, second_phase_ops(c, mid.len() as u32).take(done as int));
            &&& index_untouched(old, pages, mid)
            &&& index_untouched(old, pages, torn)
            &&& rows_readable(old, pages.len() as u32) ==> rows_read(old, torn) == rows_read(
                old,
                pages,
            )
        }),
{
    let mid = run(pages, first_phase_ops(c, pages.len() as u32));
    let torn = run(mid, second_phase_ops(c, mid.len() as u32).take(done as int));
    lemma_phases_confined(c, pages, done);
    let need = MetaPageData::planned_blocks(c.bit_width, c.dim, c.n_vectors, 0, 0)
        + pages_for_bytes(8 * c.dim as nat);
    lemma_fits_reserve(c);
    assert forall|i: int, b: int|
        0 <= i < old.extents().len() && 0 <= b < pages.len() && (#[trigger] old.extents()[i]).0 <= b
            < old.extents()[i].0 + old.extents()[i].1 implies #[trigger] mid[b] == pages[b] by {
        if c.n_vectors > 0 {
            lemma_clear_of_the_old(old, pages.len() as u32, need, i, b);
        }
    }
    assert forall|i: int, b: int|
        0 <= i < old.extents().len() && 0 <= b < pages.len() && (#[trigger] old.extents()[i]).0 <= b
            < old.extents()[i].0 + old.extents()[i].1 implies #[trigger] torn[b] == pages[b] by {
        if c.n_vectors > 0 {
            lemma_clear_of_the_old(old, pages.len() as u32, need, i, b);
        }
    }
    if rows_readable(old, pages.len() as u32) {
        untouched_index_reads_the_same(old, pages, torn);
    }
}

/// From the meta page of the second phase on, a reader finds the new index at every moment.
pub proof fn phases_give_the_new_index(
    c: Content,
    old: MetaPageData,
    pages: Seq<Seq<u8>>,
    done: nat,
)
    requires
        c.consistent(),
        c.countable(),
        flat(c),
        c.tqplus.len() <= 8 * c.dim,
        c.blocks() <= u32::MAX,
        0 < pages.len() <= u32::MAX,
        whole_pages(pages),
        c.gap == phased_gap(
            Standing { blocks: pages.len() as u32, meta: Some(old) },
            c.bit_width,
            c.dim,
            c.n_vectors,
        ),
        ({
            let mid = run(pages, first_phase_ops(c, pages.len() as u32));
            second_phase_ops_before_meta(c, mid.len() as u32).len() < done <= second_phase_ops(
                c,
                mid.len() as u32,
            ).len()
        }),
    ensures
        ({
            let mid = run(pages, first_phase_ops(c, pages.len() as u32));
            new_index_stands(c, run(mid, second_phase_ops(c, mid.len() as u32).take(done as int)))
        }),
{
    let mid = run(pages, first_phase_ops(c, pages.len() as u32));
    let existing = mid.len() as u32;
    let before = second_phase_ops_before_meta(c, existing);
    let k = (done - before.len()) as nat;
    let rest = c.settling_ops(existing).take(k as int);
    assert(second_phase_ops(c, existing).take(done as int) =~= before + rest);
    run_concat(mid, before, rest);
    lemma_phases_fill(c, pages);
    lemma_fits_reserve(c);
    lemma_settling_moment(c, run(mid, before), existing, k);
}

proof fn lemma_fits_reserve(c: Content)
    requires
        flat(c),
        c.tqplus.len() <= 8 * c.dim,
    ensures
        c.tight_blocks() <= MetaPageData::planned_blocks(c.bit_width, c.dim, c.n_vectors, 0, 0)
            + pages_for_bytes(8 * c.dim as nat),
{
    let k = pages_for_bytes(8 * c.dim as nat);
    lemma_ceil(PAYLOAD_BYTES as nat, k, 8 * c.dim as nat);
    lemma_ceil(PAYLOAD_BYTES as nat, k, c.tqplus.len());
    lemma_ceil(PAYLOAD_BYTES as nat, 0, 0);
}

} // verus!
