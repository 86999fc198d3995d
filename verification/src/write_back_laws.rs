//! What is written is read back: a whole write, an interrupted one, one in two phases, and a flush.
use vstd::prelude::*;

use crate::bytes::{bytes_to_u32s, u32s_round_trip, u32s_to_bytes};
use crate::chain::{chain_ops, in_batches, ops_of, run, Action, Chain, Op};
use crate::codec::{meta_words, reads_as, MetaError};
use crate::flush::{is_image, reconcile_flush_image, rows};
use crate::flush_write::{
    reconcile_and_write_flush, rows_determine_tables, write_part, DiskRows, FlushError, Snapshot,
};
use crate::live_rows::live_image;
use crate::load::{
    ids_from_pages, read_cell_directory, read_coarse_centroids, read_full_consistent,
    read_graph_adjacency, read_tqplus, scales_from_pages, tqplus_from_bytes, FullRead,
};
use crate::page::{Codebook, MetaPageData};
use crate::read_laws::{in_small_batches, lemma_small_batches, lemma_small_together};
use crate::reads::{
    answers, fetched, gather, long_enough, payloads_give_what_is_fetched, taken, ChainError,
    PageRead,
};
use crate::relfile::{
    codebook_belongs, content_of, first_bad, is_write, lemma_gap_moves_the_layout, move_ops,
    lemma_tight_layout, write_full, write_full_inner, write_full_with_prepared,
    write_full_with_prepared_graph, write_full_with_prepared_ivf, Content, GraphParts, IvfParts,
    PreparedParts, Standing, WriteError, WritePlan,
};
use crate::relfile_laws::{
    bytes_read, bytes_readable, every_moment_has_a_whole_index, finished_write_is_complete, rows_read,
    rows_readable, whole_pages, written_parts_read_back, written_rows_read_back,
};
use crate::split_write::{
    two_phases_write_what_one_does, write_blocked_phase_and_meta, write_packed_phase,
    PackedPhaseLayout,
};
use crate::write_laws::{is_improper, lemma_first_improper};

verus! {

/// Whether two writes do the same: they are refused for the same reason, or lead to the same meta page by
/// the same steps.
pub open spec fn same_write(
    r: Result<WritePlan, WriteError>,
    q: Result<WritePlan, WriteError>,
) -> bool {
    &&& r is Ok <==> q is Ok
    &&& r is Err ==> r->Err_0 == q->Err_0
    &&& r is Ok ==> (r->Ok_0).meta == (q->Ok_0).meta && ops_of((r->Ok_0).actions@) == ops_of(
        (q->Ok_0).actions@,
    )
}

proof fn lemma_same_codebook(
    bit_width: u8,
    dim: u32,
    prepared: Option<PreparedParts<'_>>,
    a: Codebook,
    b: Codebook,
)
    requires
        codebook_belongs(bit_width, dim, prepared, a),
        codebook_belongs(bit_width, dim, prepared, b),
    ensures
        a == b,
{
    assert(a.centroids =~= b.centroids);
    assert(a.boundaries =~= b.boundaries);
}

#[verifier::rlimit(40)]
proof fn lemma_same_write(
    bit_width: u8,
    dim: u32,
    n: u64,
    codes: Seq<u8>,
    scales: Seq<u32>,
    ids: Seq<u64>,
    am_version: u32,
    prepared: Option<PreparedParts<'_>>,
    ivf: Option<IvfParts<'_>>,
    graph: Option<GraphParts<'_>>,
    over: Standing,
    r: Result<WritePlan, WriteError>,
    q: Result<WritePlan, WriteError>,
)
    requires
        is_write(
            r,
            bit_width,
            dim,
            n,
            codes,
            scales,
            ids,
            am_version,
            prepared,
            ivf,
            graph,
            over,
        ),
        is_write(
            q,
            bit_width,
            dim,
            n,
            codes,
            scales,
            ids,
            am_version,
            prepared,
            ivf,
            graph,
            over,
        ),
    ensures
        same_write(r, q),
{
    if r is Ok {
        lemma_same_codebook(
            bit_width,
            dim,
            prepared,
            (r->Ok_0).meta.codebook,
            (q->Ok_0).meta.codebook,
        );
    }
}

/// A plain write is a write without calibration, cells and graph.
pub proof fn a_plain_write_has_rows_only(
    bit_width: u8,
    dim: u32,
    n: u64,
    codes: &[u8],
    scales: &[u32],
    ids: &[u64],
    am_version: u32,
    over: Standing,
    r: Result<WritePlan, WriteError>,
    q: Result<WritePlan, WriteError>,
)
    requires
        call_ensures(write_full, (bit_width, dim, n, codes, scales, ids, am_version, over), r),
        call_ensures(
            write_full_inner,
            (bit_width, dim, n, codes, scales, ids, am_version, None, None, None, over),
            q,
        ),
    ensures
        same_write(r, q),
{
    lemma_same_write(
        bit_width,
        dim,
        n,
        codes@,
        scales@,
        ids@,
        am_version,
        None,
        None,
        None,
        over,
        r,
        q,
    );
}

/// A write with calibration has the calibration and neither cells nor graph; one with cells or with a
/// graph has the calibration and these.
#[verifier::rlimit(40)]
pub proof fn a_write_has_the_parts_that_are_given(
    bit_width: u8,
    dim: u32,
    n: u64,
    codes: &[u8],
    scales: &[u32],
    ids: &[u64],
    am_version: u32,
    prepared: PreparedParts<'_>,
    ivf: IvfParts<'_>,
    graph: GraphParts<'_>,
    over: Standing,
    r: (
        Result<WritePlan, WriteError>,
        Result<WritePlan, WriteError>,
        Result<WritePlan, WriteError>,
    ),
    q: (
        Result<WritePlan, WriteError>,
        Result<WritePlan, WriteError>,
        Result<WritePlan, WriteError>,
    ),
)
    requires
        call_ensures(
            write_full_with_prepared,
            (bit_width, dim, n, codes, scales, ids, am_version, prepared, over),
            r.0,
        ),
        call_ensures(
            write_full_with_prepared_ivf,
            (bit_width, dim, n, codes, scales, ids, am_version, prepared, ivf, over),
            r.1,
        ),
        call_ensures(
            write_full_with_prepared_graph,
            (bit_width, dim, n, codes, scales, ids, am_version, prepared, graph, over),
            r.2,
        ),
        call_ensures(
            write_full_inner,
            (bit_width, dim, n, codes, scales, ids, am_version, Some(prepared), None, None, over),
            q.0,
        ),
        call_ensures(
            write_full_inner,
            (
                bit_width,
                dim,
                n,
                codes,
                scales,
                ids,
                am_version,
                Some(prepared),
                Some(ivf),
                None,
                over,
            ),
            q.1,
        ),
        call_ensures(
            write_full_inner,
            (
                bit_width,
                dim,
                n,
                codes,
                scales,
                ids,
                am_version,
                Some(prepared),
                None,
                Some(graph),
                over,
            ),
            q.2,
        ),
    ensures
        same_write(r.0, q.0),
        same_write(r.1, q.1),
        same_write(r.2, q.2),
{
    let p = Some(prepared);
    let v = Some(ivf);
    let g = Some(graph);
    let (c, s, i) = (codes@, scales@, ids@);
    lemma_same_write(bit_width, dim, n, c, s, i, am_version, p, None, None, over, r.0, q.0);
    lemma_same_write(bit_width, dim, n, c, s, i, am_version, p, v, None, over, r.1, q.1);
    lemma_same_write(bit_width, dim, n, c, s, i, am_version, p, None, g, over, r.2, q.2);
}

#[verifier::rlimit(40)]
proof fn lemma_written(
    bit_width: u8,
    dim: u32,
    n: u64,
    codes: Seq<u8>,
    scales: Seq<u32>,
    ids: Seq<u64>,
    am_version: u32,
    prepared: Option<PreparedParts<'_>>,
    ivf: Option<IvfParts<'_>>,
    graph: Option<GraphParts<'_>>,
    over: Standing,
    plan: WritePlan,
    pages: Seq<Seq<u8>>,
) -> (c: Content)
    requires
        is_write(
            Ok(plan),
            bit_width,
            dim,
            n,
            codes,
            scales,
            ids,
            am_version,
            prepared,
            ivf,
            graph,
            over,
        ),
        whole_pages(pages),
        pages.len() == over.blocks,
    ensures
        c == content_of(
            c.gap,
            bit_width,
            dim,
            n,
            codes,
            scales,
            ids,
            am_version,
            prepared,
            ivf,
            graph,
            plan.meta.codebook,
        ),
        c.consistent(),
        c.countable(),
        c.blocks() <= u32::MAX,
        c.gap == over.gap(c.tight_blocks()),
        plan.meta == c.in_front().meta(),
        ops_of(plan.actions@) == c.ops(pages.len() as u32),
{
    let need = crate::relfile::blocks_needed(bit_width, dim, n, prepared, ivf, graph);
    content_of(
        over.gap(need),
        bit_width,
        dim,
        n,
        codes,
        scales,
        ids,
        am_version,
        prepared,
        ivf,
        graph,
        plan.meta.codebook,
    )
}

/// After a write the first page reads as the meta page of the new index, the file ends behind its chains,
/// and its rows can be read.
#[verifier::rlimit(60)]
#[verifier::spinoff_prover]
pub proof fn a_write_leaves_the_new_index(
    bit_width: u8,
    dim: u32,
    n: u64,
    codes: &[u8],
    scales: &[u32],
    ids: &[u64],
    am_version: u32,
    prepared: Option<PreparedParts<'_>>,
    ivf: Option<IvfParts<'_>>,
    graph: Option<GraphParts<'_>>,
    over: Standing,
    plan: WritePlan,
    pages: Seq<Seq<u8>>,
    page: &[u8],
    d: Result<MetaPageData, MetaError>,
    total: u64,
    f: Result<FullRead, ChainError>,
)
    requires
        call_ensures(
            write_full_inner,
            (bit_width, dim, n, codes, scales, ids, am_version, prepared, ivf, graph, over),
            Ok::<WritePlan, WriteError>(plan),
        ),
        whole_pages(pages),
        pages.len() == over.blocks,
        page@ == run(pages, ops_of(plan.actions@))[0],
        call_ensures(MetaPageData::decode, (page,), d),
        call_ensures(MetaPageData::total_blocks, (&plan.meta,), total),
        call_ensures(read_full_consistent, (&plan.meta, Some(plan.meta), total as u32), f),
    ensures
        run(pages, ops_of(plan.actions@)).len() == total,
        whole_pages(run(pages, ops_of(plan.actions@))),
        d == Ok::<MetaPageData, MetaError>(plan.meta),
        n > 0 ==> (f matches Ok(FullRead::Rows { meta, .. }) && meta == plan.meta),
        n == 0 ==> (f matches Ok(FullRead::Empty { meta }) && meta == plan.meta),
{
    let c = lemma_written(
        bit_width,
        dim,
        n,
        codes@,
        scales@,
        ids@,
        am_version,
        prepared,
        ivf,
        graph,
        over,
        plan,
        pages,
    );
    finished_write_is_complete(c, pages);
    written_rows_read_back(c, pages);
    lemma_gap_moves_the_layout(c, 0);
    lemma_tight_layout(c);
}

proof fn lemma_payloads(reads: &Vec<PageRead>, payloads: &Vec<Vec<u8>>, pages: Seq<Seq<u8>>)
    requires
        answers(reads@, payloads@, pages),
        crate::reads::readable(reads@, pages),
    ensures
        long_enough(reads@, payloads@),
        taken(reads@, payloads@) == fetched(reads@, pages),
{
    payloads_give_what_is_fetched(reads@, payloads@, pages);
    assert forall|i: int| 0 <= i < reads@.len() implies reads@[i].from + reads@[i].len <= (
    #[trigger] payloads@[i])@.len() by {
        assert(payloads@[i]@ == pages[reads@[i].blkno as int]);
    }
}

/// The rows that are written are the rows that are read: codes, scales and ids.
#[verifier::rlimit(60)]
#[verifier::spinoff_prover]
pub proof fn the_rows_that_are_written_are_read(
    bit_width: u8,
    dim: u32,
    n: u64,
    codes: &[u8],
    scales: &[u32],
    ids: &[u64],
    am_version: u32,
    prepared: Option<PreparedParts<'_>>,
    ivf: Option<IvfParts<'_>>,
    graph: Option<GraphParts<'_>>,
    over: Standing,
    plan: WritePlan,
    pages: Seq<Seq<u8>>,
    total: u64,
    reads: (Vec<PageRead>, Vec<PageRead>, Vec<PageRead>),
    payloads: (Vec<Vec<u8>>, Vec<Vec<u8>>, Vec<Vec<u8>>),
    got: (Vec<u8>, Vec<u32>, Vec<u64>),
)
    requires
        call_ensures(
            write_full_inner,
            (bit_width, dim, n, codes, scales, ids, am_version, prepared, ivf, graph, over),
            Ok::<WritePlan, WriteError>(plan),
        ),
        whole_pages(pages),
        pages.len() == over.blocks,
        n > 0,
        call_ensures(MetaPageData::total_blocks, (&plan.meta,), total),
        call_ensures(
            read_full_consistent,
            (&plan.meta, Some(plan.meta), total as u32),
            Ok::<FullRead, ChainError>(
                FullRead::Rows { meta: plan.meta, codes: reads.0, scales: reads.1, ids: reads.2 },
            ),
        ),
        answers(reads.0@, payloads.0@, run(pages, ops_of(plan.actions@))),
        answers(reads.1@, payloads.1@, run(pages, ops_of(plan.actions@))),
        answers(reads.2@, payloads.2@, run(pages, ops_of(plan.actions@))),
        call_ensures(gather, (&reads.0, &payloads.0), got.0),
        call_ensures(scales_from_pages, (&reads.1, &payloads.1), got.1),
        call_ensures(ids_from_pages, (&reads.2, &payloads.2), got.2),
    ensures
        got.0@ == codes@,
        got.1@ == scales@,
        got.2@ == ids@,
{
    let after = run(pages, ops_of(plan.actions@));
    let c = lemma_written(
        bit_width,
        dim,
        n,
        codes@,
        scales@,
        ids@,
        am_version,
        prepared,
        ivf,
        graph,
        over,
        plan,
        pages,
    );
    finished_write_is_complete(c, pages);
    written_rows_read_back(c, pages);
    lemma_gap_moves_the_layout(c, 0);
    lemma_tight_layout(c);
    payloads_give_what_is_fetched(reads.0@, payloads.0@, after);
    payloads_give_what_is_fetched(reads.1@, payloads.1@, after);
    payloads_give_what_is_fetched(reads.2@, payloads.2@, after);
    assert(rows_read(plan.meta, after) == (codes@, scales@, ids@));
}

/// The calibration that is written is the calibration that is read.
#[verifier::rlimit(60)]
#[verifier::spinoff_prover]
pub proof fn the_calibration_that_is_written_is_read(
    bit_width: u8,
    dim: u32,
    n: u64,
    codes: &[u8],
    scales: &[u32],
    ids: &[u64],
    am_version: u32,
    prepared: PreparedParts<'_>,
    ivf: Option<IvfParts<'_>>,
    graph: Option<GraphParts<'_>>,
    over: Standing,
    plan: WritePlan,
    pages: Seq<Seq<u8>>,
    total: u64,
    r: Result<Vec<PageRead>, ChainError>,
    payloads: Vec<Vec<u8>>,
    bytes: Vec<u8>,
    slice: &[u8],
    got: (Vec<u32>, Vec<u32>),
)
    requires
        call_ensures(
            write_full_inner,
            (bit_width, dim, n, codes, scales, ids, am_version, Some(prepared), ivf, graph, over),
            Ok::<WritePlan, WriteError>(plan),
        ),
        whole_pages(pages),
        pages.len() == over.blocks,
        n > 0,
        prepared.tqplus_shift@.len() == dim,
        prepared.tqplus_scale@.len() == dim,
        dim > 0,
        call_ensures(MetaPageData::total_blocks, (&plan.meta,), total),
        call_ensures(read_tqplus, (&plan.meta, total as u32), r),
        r is Ok ==> answers((r->Ok_0)@, payloads@, run(pages, ops_of(plan.actions@))),
        r is Ok ==> call_ensures(gather, (&r->Ok_0, &payloads), bytes),
        slice@ == bytes@,
        call_ensures(tqplus_from_bytes, (slice, dim), got),
    ensures
        r is Ok,
        got.0@ == prepared.tqplus_shift@,
        got.1@ == prepared.tqplus_scale@,
{
    let after = run(pages, ops_of(plan.actions@));
    let c = lemma_written(
        bit_width,
        dim,
        n,
        codes@,
        scales@,
        ids@,
        am_version,
        Some(prepared),
        ivf,
        graph,
        over,
        plan,
        pages,
    );
    let both = prepared.tqplus_shift@ + prepared.tqplus_scale@;
    assert(c.tqplus == u32s_to_bytes(both));
    lemma_calibration_stored(c, pages);
    payloads_give_what_is_fetched((r->Ok_0)@, payloads@, after);
    assert(bytes@ == c.tqplus);
    u32s_round_trip(both);
    lemma_halves_of(prepared.tqplus_shift@, prepared.tqplus_scale@, got.0@, got.1@);
}

proof fn lemma_halves_of(a: Seq<u32>, b: Seq<u32>, c: Seq<u32>, d: Seq<u32>)
    requires
        a + b == c + d,
        a.len() == c.len(),
    ensures
        a == c,
        b == d,
{
    assert((a + b).take(a.len() as int) =~= a);
    assert((c + d).take(a.len() as int) =~= c);
    assert((a + b).skip(a.len() as int) =~= b);
    assert((c + d).skip(a.len() as int) =~= d);
}

#[verifier::rlimit(40)]
proof fn lemma_calibration_stored(c: Content, pages: Seq<Seq<u8>>)
    requires
        c.consistent(),
        c.countable(),
        c.n_vectors > 0,
        c.dim > 0,
        c.tqplus.len() == 8 * c.dim,
        c.blocks() <= u32::MAX,
        pages.len() <= u32::MAX,
        whole_pages(pages),
    ensures
        ({
            let after = run(pages, c.ops(pages.len() as u32));
            let m = c.in_front().meta();
            &&& after.len() == m.chain_end()
            &&& after.len() <= u32::MAX
            &&& m.rotation.count > 0 && m.rotation.first > 0 && m.rotation_dim == c.dim
            &&& bytes_readable(m.rotation, c.tqplus.len(), after)
            &&& bytes_read(m.rotation, c.tqplus.len(), after) == c.tqplus
        }),
{
    finished_write_is_complete(c, pages);
    written_parts_read_back(c, pages);
    lemma_gap_moves_the_layout(c, 0);
    lemma_tight_layout(c);
    let m = c.tight_meta();
    let k = c.row_meta();
    assert(m.rotation == k.rotation && m.rotation_dim == k.rotation_dim);
    crate::chain::lemma_ceil(8168, 0, c.tqplus.len());
}

/// The centroids that are written are the centroids that are read.
#[verifier::rlimit(60)]
#[verifier::spinoff_prover]
pub proof fn the_centroids_that_are_written_are_read(
    bit_width: u8,
    dim: u32,
    n: u64,
    codes: &[u8],
    scales: &[u32],
    ids: &[u64],
    am_version: u32,
    prepared: Option<PreparedParts<'_>>,
    ivf: IvfParts<'_>,
    graph: Option<GraphParts<'_>>,
    over: Standing,
    plan: WritePlan,
    pages: Seq<Seq<u8>>,
    total: u64,
    r: Result<Vec<PageRead>, ChainError>,
    payloads: Vec<Vec<u8>>,
    bytes: Vec<u8>,
)
    requires
        call_ensures(
            write_full_inner,
            (bit_width, dim, n, codes, scales, ids, am_version, prepared, Some(ivf), graph, over),
            Ok::<WritePlan, WriteError>(plan),
        ),
        whole_pages(pages),
        pages.len() == over.blocks,
        n > 0,
        ivf.lists > 0,
        dim > 0,
        ivf.coarse_centroids@.len() == ivf.lists * dim,
        ivf.cell_dir_bytes@.len() == 12 * ivf.lists,
        call_ensures(MetaPageData::total_blocks, (&plan.meta,), total),
        call_ensures(read_coarse_centroids, (&plan.meta, total as u32), r),
        r is Ok ==> answers((r->Ok_0)@, payloads@, run(pages, ops_of(plan.actions@))),
        r is Ok ==> call_ensures(gather, (&r->Ok_0, &payloads), bytes),
    ensures
        r is Ok,
        bytes_to_u32s(bytes@) == ivf.coarse_centroids@,
{
    let after = run(pages, ops_of(plan.actions@));
    lemma_cells_after(
        bit_width,
        dim,
        n,
        codes@,
        scales@,
        ids@,
        am_version,
        prepared,
        ivf,
        graph,
        over,
        plan,
        pages,
    );
    payloads_give_what_is_fetched((r->Ok_0)@, payloads@, after);
    u32s_round_trip(ivf.coarse_centroids@);
}

/// The cell directory that is written is the cell directory that is read.
#[verifier::rlimit(60)]
#[verifier::spinoff_prover]
pub proof fn the_cell_directory_that_is_written_is_read(
    bit_width: u8,
    dim: u32,
    n: u64,
    codes: &[u8],
    scales: &[u32],
    ids: &[u64],
    am_version: u32,
    prepared: Option<PreparedParts<'_>>,
    ivf: IvfParts<'_>,
    graph: Option<GraphParts<'_>>,
    over: Standing,
    plan: WritePlan,
    pages: Seq<Seq<u8>>,
    total: u64,
    r: Result<Option<Vec<PageRead>>, ChainError>,
    payloads: Vec<Vec<u8>>,
    bytes: Vec<u8>,
)
    requires
        call_ensures(
            write_full_inner,
            (bit_width, dim, n, codes, scales, ids, am_version, prepared, Some(ivf), graph, over),
            Ok::<WritePlan, WriteError>(plan),
        ),
        whole_pages(pages),
        pages.len() == over.blocks,
        n > 0,
        ivf.lists > 0,
        dim > 0,
        ivf.coarse_centroids@.len() == ivf.lists * dim,
        ivf.cell_dir_bytes@.len() == 12 * ivf.lists,
        call_ensures(MetaPageData::total_blocks, (&plan.meta,), total),
        call_ensures(read_cell_directory, (&plan.meta, total as u32), r),
        r matches Ok(Some(reads)) ==> answers(
            reads@,
            payloads@,
            run(pages, ops_of(plan.actions@)),
        ) && call_ensures(gather, (&reads, &payloads), bytes),
    ensures
        r matches Ok(Some(_)),
        bytes@ == ivf.cell_dir_bytes@,
{
    let after = run(pages, ops_of(plan.actions@));
    lemma_cells_after(
        bit_width,
        dim,
        n,
        codes@,
        scales@,
        ids@,
        am_version,
        prepared,
        ivf,
        graph,
        over,
        plan,
        pages,
    );
    payloads_give_what_is_fetched((r->Ok_0->0)@, payloads@, after);
}

#[verifier::rlimit(40)]
proof fn lemma_cells_after(
    bit_width: u8,
    dim: u32,
    n: u64,
    codes: Seq<u8>,
    scales: Seq<u32>,
    ids: Seq<u64>,
    am_version: u32,
    prepared: Option<PreparedParts<'_>>,
    ivf: IvfParts<'_>,
    graph: Option<GraphParts<'_>>,
    over: Standing,
    plan: WritePlan,
    pages: Seq<Seq<u8>>,
)
    requires
        is_write(
            Ok(plan),
            bit_width,
            dim,
            n,
            codes,
            scales,
            ids,
            am_version,
            prepared,
            Some(ivf),
            graph,
            over,
        ),
        whole_pages(pages),
        pages.len() == over.blocks,
        n > 0,
        ivf.lists > 0,
        dim > 0,
        ivf.coarse_centroids@.len() == ivf.lists * dim,
        ivf.cell_dir_bytes@.len() == 12 * ivf.lists,
    ensures
        ({
            let after = run(pages, ops_of(plan.actions@));
            let m = plan.meta;
            let wide = (4 * (m.lists * m.dim)) as nat;
            let long = (12 * m.lists) as nat;
            &&& after.len() == m.chain_end()
            &&& after.len() <= u32::MAX
            &&& m.lists > 0
            &&& m.coarse.count > 0 && m.coarse.first > 0
            &&& m.cell_dir.count > 0 && m.cell_dir.first > 0
            &&& wide <= u64::MAX
            &&& bytes_readable(m.coarse, wide, after)
            &&& bytes_read(m.coarse, wide, after) == u32s_to_bytes(ivf.coarse_centroids@)
            &&& bytes_readable(m.cell_dir, long, after)
            &&& bytes_read(m.cell_dir, long, after) == ivf.cell_dir_bytes@
        }),
{
    let c = lemma_written(
        bit_width,
        dim,
        n,
        codes,
        scales,
        ids,
        am_version,
        prepared,
        Some(ivf),
        graph,
        over,
        plan,
        pages,
    );
    assert(c.coarse_bytes() == u32s_to_bytes(ivf.coarse_centroids@));
    assert(c.directory_bytes() == ivf.cell_dir_bytes@);
    lemma_cells_stored(c, pages);
}

#[verifier::rlimit(40)]
proof fn lemma_cells_stored(c: Content, pages: Seq<Seq<u8>>)
    requires
        c.consistent(),
        c.countable(),
        c.n_vectors > 0,
        c.dim > 0,
        c.cells is Some,
        c.cells->0.lists > 0,
        c.coarse_bytes().len() == 4 * (c.cells->0.lists * c.dim),
        c.directory_bytes().len() == 12 * c.cells->0.lists,
        c.blocks() <= u32::MAX,
        pages.len() <= u32::MAX,
        whole_pages(pages),
    ensures
        ({
            let after = run(pages, c.ops(pages.len() as u32));
            let m = c.in_front().meta();
            &&& after.len() == m.chain_end()
            &&& after.len() <= u32::MAX
            &&& m.lists == c.cells->0.lists && m.dim == c.dim
            &&& m.coarse.count > 0 && m.coarse.first > 0
            &&& m.cell_dir.count > 0 && m.cell_dir.first > 0
            &&& c.coarse_bytes().len() <= u64::MAX
            &&& bytes_readable(m.coarse, c.coarse_bytes().len(), after)
            &&& bytes_read(m.coarse, c.coarse_bytes().len(), after) == c.coarse_bytes()
            &&& bytes_readable(m.cell_dir, c.directory_bytes().len(), after)
            &&& bytes_read(m.cell_dir, c.directory_bytes().len(), after) == c.directory_bytes()
        }),
{
    let lists = c.cells->0.lists;
    let dim = c.dim;
    assert(lists * dim > 0) by (nonlinear_arith)
        requires
            lists > 0,
            dim > 0,
    ;
    finished_write_is_complete(c, pages);
    written_parts_read_back(c, pages);
    lemma_gap_moves_the_layout(c, 0);
    lemma_tight_layout(c);
    crate::chain::lemma_ceil(8168, 0, c.coarse_bytes().len());
    crate::chain::lemma_ceil(8168, 0, c.directory_bytes().len());
}

/// The adjacency that is written is the adjacency that is read.
#[verifier::rlimit(60)]
#[verifier::spinoff_prover]
pub proof fn the_graph_that_is_written_is_read(
    bit_width: u8,
    dim: u32,
    n: u64,
    codes: &[u8],
    scales: &[u32],
    ids: &[u64],
    am_version: u32,
    prepared: Option<PreparedParts<'_>>,
    ivf: Option<IvfParts<'_>>,
    graph: GraphParts<'_>,
    over: Standing,
    plan: WritePlan,
    pages: Seq<Seq<u8>>,
    total: u64,
    q: Result<Option<Vec<PageRead>>, ChainError>,
    payloads: Vec<Vec<u8>>,
    bytes: Vec<u8>,
)
    requires
        call_ensures(
            write_full_inner,
            (bit_width, dim, n, codes, scales, ids, am_version, prepared, ivf, Some(graph), over),
            Ok::<WritePlan, WriteError>(plan),
        ),
        whole_pages(pages),
        pages.len() == over.blocks,
        n > 0,
        graph.offsets_bytes@.len() + graph.neighbors_bytes@.len() > 0,
        call_ensures(MetaPageData::total_blocks, (&plan.meta,), total),
        call_ensures(read_graph_adjacency, (&plan.meta, total as u32), q),
        q matches Ok(Some(reads)) ==> answers(
            reads@,
            payloads@,
            run(pages, ops_of(plan.actions@)),
        ) && call_ensures(gather, (&reads, &payloads), bytes),
    ensures
        q matches Ok(Some(_)),
        bytes@ == graph.offsets_bytes@ + graph.neighbors_bytes@,
{
    let after = run(pages, ops_of(plan.actions@));
    let c = lemma_written(
        bit_width,
        dim,
        n,
        codes@,
        scales@,
        ids@,
        am_version,
        prepared,
        ivf,
        Some(graph),
        over,
        plan,
        pages,
    );
    finished_write_is_complete(c, pages);
    written_parts_read_back(c, pages);
    lemma_gap_moves_the_layout(c, 0);
    lemma_tight_layout(c);
    let m = plan.meta;
    assert(m == c.tight_meta());
    assert(m.graph.count > 0) by {
        crate::chain::lemma_ceil(8168, 0, c.adjacency_bytes().len());
    }
    payloads_give_what_is_fetched((q->Ok_0->0)@, payloads@, after);
}

/// Whenever a write stops there is a whole index on disk: the old one, behind the old first page, or the
/// new one with all its rows.
#[verifier::rlimit(60)]
#[verifier::spinoff_prover]
pub proof fn a_write_can_stop_at_any_moment(
    bit_width: u8,
    dim: u32,
    n: u64,
    codes: &[u8],
    scales: &[u32],
    ids: &[u64],
    am_version: u32,
    prepared: Option<PreparedParts<'_>>,
    ivf: Option<IvfParts<'_>>,
    graph: Option<GraphParts<'_>>,
    old: MetaPageData,
    plan: WritePlan,
    pages: Seq<Seq<u8>>,
    done: int,
) -> (m: MetaPageData)
    requires
        0 < pages.len() <= u32::MAX,
        call_ensures(
            write_full_inner,
            (
                bit_width,
                dim,
                n,
                codes,
                scales,
                ids,
                am_version,
                prepared,
                ivf,
                graph,
                Standing { blocks: pages.len() as u32, meta: Some(old) },
            ),
            Ok::<WritePlan, WriteError>(plan),
        ),
        whole_pages(pages),
        rows_readable(old, pages.len() as u32),
        (Standing { blocks: pages.len() as u32, meta: Some(old) }).spares(
            plan.meta.block_count() as nat,
        ),
        0 <= done <= plan.actions@.len(),
    ensures
        ({
            let moment = run(pages, ops_of(plan.actions@.take(done)));
            ||| moment[0] == pages[0] && rows_read(old, moment) == rows_read(old, pages)
            ||| reads_as(moment[0], m) && rows_read(m, moment) == (codes@, scales@, ids@)
        }),
{
    let over = Standing { blocks: pages.len() as u32, meta: Some(old) };
    let c = lemma_written(
        bit_width,
        dim,
        n,
        codes@,
        scales@,
        ids@,
        am_version,
        prepared,
        ivf,
        graph,
        over,
        plan,
        pages,
    );
    lemma_gap_moves_the_layout(c, 0);
    lemma_tight_layout(c);
    assert(plan.meta.block_count() == c.tight_blocks());
    assert(ops_of(plan.actions@.take(done)) =~= ops_of(plan.actions@).take(done));
    every_moment_has_a_whole_index(c, old, pages, done as nat);
    let moment = run(pages, ops_of(plan.actions@.take(done)));
    if reads_as(moment[0], c.meta()) && rows_read(c.meta(), moment) == (codes@, scales@, ids@) {
        c.meta()
    } else {
        c.in_front().meta()
    }
}

/// The tables of a write in two phases are counted in the first.
pub proof fn the_first_phase_counts_the_tables(
    bit_width: u8,
    dim: u32,
    n: u64,
    codes: &[u8],
    scales: &[u32],
    ids: &[u64],
    am_version: u32,
    over: Standing,
    r: Result<(PackedPhaseLayout, Vec<Action>), WriteError>,
)
    requires
        call_ensures(
            write_packed_phase,
            (bit_width, dim, n, codes, scales, ids, am_version, over),
            r,
        ),
    ensures
        ids@.len() != n ==> r == Err::<(PackedPhaseLayout, Vec<Action>), WriteError>(
            WriteError::IdCount { ids: ids@.len() as usize, n_vectors: n },
        ),
        ids@.len() == n && scales@.len() != n ==> r == Err::<
            (PackedPhaseLayout, Vec<Action>),
            WriteError,
        >(WriteError::ScaleCount { scales: scales@.len() as usize, n_vectors: n }),
        ids@.len() == n && scales@.len() == n ==> (r is Ok || r->Err_0 is TooManyBlocks),
        r matches Ok((layout, _)) ==> layout.bit_width == bit_width && layout.dim == dim
            && layout.n_vectors == n && layout.am_version == am_version,
{
}

/// Two phases leave what one write leaves: the same file, block by block, and the same meta page.
#[verifier::rlimit(60)]
#[verifier::spinoff_prover]
pub proof fn two_phases_leave_what_one_write_leaves(
    bit_width: u8,
    dim: u32,
    n: u64,
    codes: &[u8],
    scales: &[u32],
    ids: &[u64],
    am_version: u32,
    prepared: Option<PreparedParts<'_>>,
    over: Standing,
    layout: PackedPhaseLayout,
    first: Vec<Action>,
    second: WritePlan,
    whole: WritePlan,
    pages: Seq<Seq<u8>>,
)
    requires
        call_ensures(
            write_packed_phase,
            (bit_width, dim, n, codes, scales, ids, am_version, over),
            Ok::<(PackedPhaseLayout, Vec<Action>), WriteError>((layout, first)),
        ),
        run(pages, ops_of(first@)).len() <= u32::MAX,
        call_ensures(
            write_blocked_phase_and_meta,
            (layout, prepared, run(pages, ops_of(first@)).len() as u32),
            Ok::<WritePlan, WriteError>(second),
        ),
        call_ensures(
            write_full_inner,
            (bit_width, dim, n, codes, scales, ids, am_version, prepared, None, None, over),
            Ok::<WritePlan, WriteError>(whole),
        ),
        whole_pages(pages),
        pages.len() == over.blocks,
    ensures
        second.meta == whole.meta,
        run(run(pages, ops_of(first@)), ops_of(second.actions@)) == run(
            pages,
            ops_of(whole.actions@),
        ),
{
    lemma_same_codebook(
        bit_width,
        dim,
        prepared,
        second.meta.codebook,
        whole.meta.codebook,
    );
    let w = lemma_written(
        bit_width,
        dim,
        n,
        codes@,
        scales@,
        ids@,
        am_version,
        prepared,
        None,
        None,
        over,
        whole,
        pages,
    );
    let c = content_of(
        layout.gap as nat,
        bit_width,
        dim,
        n,
        codes@,
        scales@,
        ids@,
        am_version,
        prepared,
        None,
        None,
        second.meta.codebook,
    );
    assert(w == (Content { gap: w.gap, ..c }));
    lemma_gap_moves_the_layout(c, w.gap);
    lemma_gap_moves_the_layout(w, 0);
    two_phases_write_what_one_does(c, w.gap, pages);
    let rows = content_of(
        layout.gap as nat,
        bit_width,
        dim,
        n,
        codes@,
        scales@,
        ids@,
        am_version,
        None,
        None,
        None,
        arbitrary(),
    );
    lemma_first_ops(c, rows, pages.len() as u32);
}

#[verifier::rlimit(40)]
proof fn lemma_first_ops(c: Content, rows: Content, existing: u32)
    requires
        rows == (Content { tqplus: Seq::empty(), codebook: rows.codebook, ..c }),
        c.cells is None,
        c.graph is None,
    ensures
        crate::split_write::first_phase_ops(c, existing) == crate::split_write::first_phase_ops(
            rows,
            existing,
        ),
{
    let a = crate::split_write::rows_only(c);
    let b = crate::split_write::rows_only(rows);
    assert(a.meta().codes == b.meta().codes && a.meta().scales == b.meta().scales && a.meta().ids
        == b.meta().ids);
    assert(a.meta().rows_per_codes_page == b.meta().rows_per_codes_page);
    assert(a.meta().stride_bytes == b.meta().stride_bytes);
    assert(a.row_chains() =~= b.row_chains());
    assert(a.chains() == b.chains());
    assert(a.blocks() == b.blocks());
}

/// A flush is refused for its ids exactly where there is an index with rows and without cells on disk that
/// has a zero id or an id twice, and the first such id is named.
pub proof fn a_flush_is_refused_for_improper_ids(
    bit_width: u8,
    dim: u32,
    disk: Option<DiskRows<'_>>,
    snap: Snapshot<'_>,
    touched: &[u64],
    am_version: u32,
    prepared: PreparedParts<'_>,
    existing: u32,
    r: Result<WritePlan, FlushError>,
)
    requires
        call_ensures(
            reconcile_and_write_flush,
            (bit_width, dim, disk, snap, touched, am_version, prepared, existing),
            r,
        ),
    ensures
        (r matches Err(FlushError::CorruptIds { .. })) <==> (disk matches Some(d)
            && d.meta.n_vectors > 0 && d.meta.lists == 0 && exists|k: int|
            0 <= k < d.ids@.len() && #[trigger] is_improper(d.ids@, k)),
        r matches Err(FlushError::CorruptIds { id }) ==> exists|k: int|
            0 <= k < disk->0.ids@.len() && #[trigger] is_improper(disk->0.ids@, k)
                && disk->0.ids@[k] == id && forall|j: int|
                0 <= j < k ==> !#[trigger] is_improper(disk->0.ids@, j),
{
    if disk is Some {
        lemma_first_improper(disk->0.ids@);
        if first_bad(disk->0.ids@) is Some {
            assert(is_improper(disk->0.ids@, first_bad(disk->0.ids@)->0));
        }
    }
}

/// Whether a flush does what a write does.
pub open spec fn flushes_as(r: Result<WritePlan, FlushError>, w: Result<WritePlan, WriteError>) -> bool {
    &&& r is Ok <==> w is Ok
    &&& r is Ok ==> (r->Ok_0).meta == (w->Ok_0).meta && ops_of((r->Ok_0).actions@) == ops_of(
        (w->Ok_0).actions@,
    )
    &&& w is Err ==> r == Err::<WritePlan, FlushError>(FlushError::Write(w->Err_0))
}

/// A flush onto an index with rows writes its live rows with the touched rows of memory put in.
#[verifier::rlimit(40)]
pub proof fn a_flush_writes_the_reconciled_rows(
    bit_width: u8,
    dim: u32,
    stride: usize,
    disk: DiskRows<'_>,
    snap: Snapshot<'_>,
    touched: &[u64],
    am_version: u32,
    prepared: PreparedParts<'_>,
    existing: u32,
    r: Result<WritePlan, FlushError>,
    live: (Vec<u8>, Vec<u32>, Vec<u64>),
    left: Snapshot<'_>,
    merged: (Vec<u8>, Vec<u32>, Vec<u64>),
    all: Snapshot<'_>,
    w: Result<WritePlan, WriteError>,
)
    requires
        call_ensures(
            reconcile_and_write_flush,
            (bit_width, dim, Some(disk), snap, touched, am_version, prepared, existing),
            r,
        ),
        !(r matches Err(FlushError::CorruptIds { .. })),
        disk.meta.n_vectors > 0,
        stride > 0,
        stride == (dim / 8) * bit_width,
        is_image(stride as nat, disk.codes@, disk.scales@, disk.ids@),
        is_image(stride as nat, snap.codes@, snap.scales@, snap.ids@),
        call_ensures(
            live_image::<u32>,
            (stride, disk.codes, disk.scales, disk.ids, disk.tombstones),
            live,
        ),
        left.codes@ == live.0@ && left.scales@ == live.1@ && left.ids@ == live.2@,
        call_ensures(
            reconcile_flush_image::<u32>,
            (
                stride,
                left.codes,
                left.scales,
                left.ids,
                snap.codes,
                snap.scales,
                snap.ids,
                touched,
            ),
            merged,
        ),
        all.codes@ == merged.0@ && all.scales@ == merged.1@ && all.ids@ == merged.2@,
        call_ensures(
            write_full_with_prepared,
            (
                bit_width,
                dim,
                all.ids@.len() as u64,
                all.codes,
                all.scales,
                all.ids,
                am_version,
                prepared,
                Standing { blocks: existing, meta: Some(disk.meta) },
            ),
            w,
        ),
    ensures
        flushes_as(r, w),
{
    assert((dim / 8) as nat * bit_width as nat == (dim / 8) * bit_width);
    let rs = rows(stride as nat, merged.0@, merged.1@, merged.2@);
    rows_determine_tables(stride as nat, merged.0@, merged.1@, merged.2@);
    lemma_flush_write(
        bit_width,
        dim,
        rs.len() as u64,
        merged.0@,
        merged.1@,
        merged.2@,
        am_version,
        prepared,
        Standing { blocks: existing, meta: Some(disk.meta) },
        r,
        w,
    );
}

#[verifier::rlimit(40)]
proof fn lemma_flush_write(
    bit_width: u8,
    dim: u32,
    n: u64,
    codes: Seq<u8>,
    scales: Seq<u32>,
    ids: Seq<u64>,
    am_version: u32,
    prepared: PreparedParts<'_>,
    over: Standing,
    r: Result<WritePlan, FlushError>,
    w: Result<WritePlan, WriteError>,
)
    requires
        !(r matches Err(FlushError::CorruptIds { .. })),
        is_write(
            write_part(r),
            bit_width,
            dim,
            n,
            codes,
            scales,
            ids,
            am_version,
            Some(prepared),
            None,
            None,
            over,
        ),
        is_write(
            w,
            bit_width,
            dim,
            n,
            codes,
            scales,
            ids,
            am_version,
            Some(prepared),
            None,
            None,
            over,
        ),
    ensures
        flushes_as(r, w),
{
    lemma_same_write(
        bit_width,
        dim,
        n,
        codes,
        scales,
        ids,
        am_version,
        Some(prepared),
        None,
        None,
        over,
        write_part(r),
        w,
    );
}

/// A flush onto nothing, or onto an index without rows, writes the rows of memory as they are.
#[verifier::rlimit(40)]
pub proof fn a_first_flush_writes_the_rows_of_memory(
    bit_width: u8,
    dim: u32,
    stride: usize,
    disk: Option<DiskRows<'_>>,
    snap: Snapshot<'_>,
    touched: &[u64],
    am_version: u32,
    prepared: PreparedParts<'_>,
    over: Standing,
    r: Result<WritePlan, FlushError>,
    w: Result<WritePlan, WriteError>,
)
    requires
        call_ensures(
            reconcile_and_write_flush,
            (bit_width, dim, disk, snap, touched, am_version, prepared, over.blocks),
            r,
        ),
        disk is Some ==> disk->0.meta.n_vectors == 0 && over.meta == Some(disk->0.meta),
        disk is None ==> over.meta is None,
        stride > 0,
        stride == (dim / 8) * bit_width,
        is_image(stride as nat, snap.codes@, snap.scales@, snap.ids@),
        call_ensures(
            write_full_with_prepared,
            (
                bit_width,
                dim,
                snap.ids@.len() as u64,
                snap.codes,
                snap.scales,
                snap.ids,
                am_version,
                prepared,
                over,
            ),
            w,
        ),
    ensures
        flushes_as(r, w),
{
    assert((dim / 8) as nat * bit_width as nat == (dim / 8) * bit_width);
    rows_determine_tables(stride as nat, snap.codes@, snap.scales@, snap.ids@);
    lemma_flush_write(
        bit_width,
        dim,
        snap.ids@.len() as u64,
        snap.codes@,
        snap.scales@,
        snap.ids@,
        am_version,
        prepared,
        over,
        r,
        w,
    );
}

proof fn lemma_chains_small(chains: Seq<Chain>)
    ensures
        in_small_batches(chain_ops(chains)),
    decreases chains.len(),
{
    if chains.len() > 0 {
        lemma_chains_small(chains.drop_last());
        lemma_small_batches(chains.last());
        lemma_small_together(chain_ops(chains.drop_last()), in_batches(chains.last().writes()));
    }
}

/// A whole index is written four pages at a time at most.
#[verifier::rlimit(60)]
#[verifier::spinoff_prover]
pub proof fn an_index_is_written_in_small_batches(
    bit_width: u8,
    dim: u32,
    n: u64,
    codes: &[u8],
    scales: &[u32],
    ids: &[u64],
    am_version: u32,
    prepared: Option<PreparedParts<'_>>,
    ivf: Option<IvfParts<'_>>,
    graph: Option<GraphParts<'_>>,
    over: Standing,
    plan: WritePlan,
    pages: Seq<Seq<u8>>,
)
    requires
        call_ensures(
            write_full_inner,
            (bit_width, dim, n, codes, scales, ids, am_version, prepared, ivf, graph, over),
            Ok::<WritePlan, WriteError>(plan),
        ),
        whole_pages(pages),
        pages.len() == over.blocks,
    ensures
        in_small_batches(ops_of(plan.actions@)),
{
    let c = lemma_written(
        bit_width,
        dim,
        n,
        codes@,
        scales@,
        ids@,
        am_version,
        prepared,
        ivf,
        graph,
        over,
        plan,
        pages,
    );
    lemma_ops_small(c, pages.len() as u32);
}

proof fn lemma_ops_small(c: Content, existing: u32)
    ensures
        in_small_batches(c.ops(existing)),
{
    lemma_chains_small(c.chains());
    let grow = if existing < c.blocks() {
        seq![Op::ExtendTo(c.blocks())]
    } else {
        Seq::empty()
    };
    assert(in_small_batches(grow));
    lemma_small_together(grow, chain_ops(c.chains()));
    lemma_settling_small(c, existing);
    lemma_small_together(c.ops_before_meta(existing), c.settling_ops(existing));
}

proof fn lemma_single_small(op: Op)
    requires
        !(op is WritePages),
    ensures
        in_small_batches(seq![op]),
{
}

proof fn lemma_moves_small(gap: nat, n: nat)
    ensures
        in_small_batches(move_ops(gap, n)),
{
}

#[verifier::spinoff_prover]
proof fn lemma_settling_small(c: Content, existing: u32)
    ensures
        in_small_batches(c.settling_ops(existing)),
{
    let mark = Op::WriteMeta(u32s_to_bytes(meta_words(c.meta())));
    let front = Op::WriteMeta(u32s_to_bytes(meta_words(c.in_front().meta())));
    let cut = Op::Truncate(c.tight_blocks());
    lemma_single_small(mark);
    if c.gap == 0 {
        let end = Op::Truncate(c.blocks());
        lemma_single_small(end);
        lemma_small_together(seq![mark], seq![end]);
        lemma_small_together(seq![mark], Seq::empty());
    } else {
        let moves = move_ops(c.gap, (c.tight_blocks() - 1) as nat);
        lemma_moves_small(c.gap, (c.tight_blocks() - 1) as nat);
        lemma_small_together(seq![mark], moves);
        lemma_single_small(front);
        lemma_single_small(cut);
        lemma_small_together(seq![front], seq![cut]);
        assert(seq![front] + seq![cut] =~= seq![front, cut]);
        lemma_small_together(seq![mark] + moves, seq![front, cut]);
    }
}

} // verus!
