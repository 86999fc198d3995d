//! What a write makes of an index: what is refused, what stands on disk afterwards, and what is read back.
use vstd::prelude::*;

use crate::bytes::{lemma_word_at, u32s_round_trip, word_at};
use crate::flush::rows;
use crate::layout_laws::{just_enough, lies_at};
use crate::page::{pages_for_rows, stride_of};
use crate::relfile::{
    bad_id, content_of, first_bad, first_bad_slot, first_duplicate_id, is_storable, lemma_first_bad,
    lemma_gap_moves_the_layout, lemma_tight_layout, write_full_inner, Content, GraphParts, IvfParts,
    PreparedParts, Standing, WriteError, WritePlan,
};

verus! {

/// Rows can be stored where the bit width is two, three or four, the dimensions are a multiple of eight
/// up to 16384, and the code of a row fits on a page.
pub proof fn shapes_that_can_be_stored(bit_width: u8, dim: u32, r: bool)
    requires
        call_ensures(is_storable, (bit_width, dim), r),
    ensures
        r <==> (bit_width == 2 || bit_width == 3 || bit_width == 4) && dim % 8 == 0 && 0 < dim <= 16384
            && (dim / 8) * bit_width <= 8168,
{
    assert((dim / 8) as nat * bit_width as nat == (dim / 8) * bit_width);
}

/// The calibration is stored as all the shifts and then all the scales, four bytes each; where either is
/// missing nothing is.
pub proof fn the_calibration_is_stored_whole(p: &PreparedParts<'_>, bytes: Vec<u8>, n: u64)
    requires
        call_ensures(PreparedParts::tqplus_chain_bytes, (p,), bytes),
        call_ensures(PreparedParts::tqplus_chain_len, (p,), n),
        4 * (p.tqplus_shift@.len() + p.tqplus_scale@.len()) <= u64::MAX,
    ensures
        n == bytes@.len(),
        p.tqplus_shift@.len() == 0 || p.tqplus_scale@.len() == 0 ==> n == 0,
        p.tqplus_shift@.len() > 0 && p.tqplus_scale@.len() > 0 ==> {
            &&& n == 4 * (p.tqplus_shift@.len() + p.tqplus_scale@.len())
            &&& forall|i: int|
                0 <= i < p.tqplus_shift@.len() ==> word_at(bytes@, 4 * i)
                    == #[trigger] p.tqplus_shift@[i]
            &&& forall|i: int|
                0 <= i < p.tqplus_scale@.len() ==> word_at(bytes@, 4 * (p.tqplus_shift@.len() + i))
                    == #[trigger] p.tqplus_scale@[i]
        },
{
    if p.tqplus_shift@.len() > 0 && p.tqplus_scale@.len() > 0 {
        let both = p.tqplus_shift@ + p.tqplus_scale@;
        u32s_round_trip(both);
        lemma_word_at(bytes@);
        assert forall|i: int| 0 <= i < p.tqplus_shift@.len() implies word_at(bytes@, 4 * i)
            == #[trigger] p.tqplus_shift@[i] by {
            assert(both[i] == p.tqplus_shift@[i]);
        }
        assert forall|i: int| 0 <= i < p.tqplus_scale@.len() implies word_at(
            bytes@,
            4 * (p.tqplus_shift@.len() + i),
        ) == #[trigger] p.tqplus_scale@[i] by {
            assert(both[p.tqplus_shift@.len() + i] == p.tqplus_scale@[i]);
        }
    }
}

/// Whether an id is zero or a slot before has it.
pub open spec fn is_improper(ids: Seq<u64>, slot: int) -> bool {
    ids[slot] == 0 || exists|j: int| 0 <= j < slot && #[trigger] ids[j] == ids[slot]
}

proof fn lemma_improper(ids: Seq<u64>, slot: int)
    requires
        0 <= slot < ids.len(),
    ensures
        is_improper(ids, slot) <==> bad_id(ids, slot),
{
    if ids.take(slot).contains(ids[slot]) {
        let j = choose|j: int| 0 <= j < slot && ids.take(slot)[j] == ids[slot];
        assert(ids[j] == ids[slot]);
    }
    if exists|j: int| 0 <= j < slot && #[trigger] ids[j] == ids[slot] {
        let j = choose|j: int| 0 <= j < slot && #[trigger] ids[j] == ids[slot];
        assert(ids.take(slot)[j] == ids[slot]);
    }
}

/// The first bad slot is the first that has an improper id.
pub proof fn lemma_first_improper(ids: Seq<u64>)
    ensures
        match first_bad(ids) {
            Some(slot) => 0 <= slot < ids.len() && is_improper(ids, slot) && forall|k: int|
                0 <= k < slot ==> !#[trigger] is_improper(ids, k),
            None => forall|k: int| 0 <= k < ids.len() ==> !#[trigger] is_improper(ids, k),
        },
{
    lemma_first_bad(ids);
    assert forall|k: int| 0 <= k < ids.len() implies (#[trigger] is_improper(ids, k) <==> bad_id(
        ids,
        k,
    )) by {
        lemma_improper(ids, k);
    }
}

/// The first id is found that is zero or that a slot before has.
pub proof fn the_first_improper_id_is_found(ids: &[u64], r: Option<usize>, q: Option<u64>)
    requires
        call_ensures(first_bad_slot, (ids,), r),
        call_ensures(first_duplicate_id, (ids,), q),
    ensures
        match r {
            Some(slot) => slot < ids@.len() && is_improper(ids@, slot as int) && (forall|k: int|
                0 <= k < slot ==> !#[trigger] is_improper(ids@, k)) && q == Some(ids@[slot as int]),
            None => q is None && forall|k: int|
                0 <= k < ids@.len() ==> !#[trigger] is_improper(ids@, k),
        },
{
    assert(ids.len() == ids@.len());
    lemma_first_improper(ids@);
}

/// Whether the tables of an index agree: one id and one scale for each row and, where the index has
/// neither cells nor a graph, proper ids.
pub open spec fn tables_agree(n: u64, scales: Seq<u32>, ids: Seq<u64>, plain: bool) -> bool {
    &&& ids.len() == n
    &&& scales.len() == n
    &&& plain ==> forall|k: int| 0 <= k < ids.len() ==> !#[trigger] is_improper(ids, k)
}

/// A write is refused where the tables do not agree: the ids are counted first, then the scales, then the
/// ids are looked at. Otherwise it is refused only for want of blocks.
pub proof fn writes_are_refused_for_their_tables(
    bit_width: u8,
    dim: u32,
    n: u64,
    codes: &[u8],
    scales: &[u32],
    ids: &[u64],
    am_version: u32,
    prepared: Option<PreparedParts<'_>>,
    ivf: Option<IvfParts<'_>>,
    graph: Option<GraphParts<'_>>,
    over: Standing,
    r: Result<WritePlan, WriteError>,
)
    requires
        call_ensures(
            write_full_inner,
            (bit_width, dim, n, codes, scales, ids, am_version, prepared, ivf, graph, over),
            r,
        ),
    ensures
        !tables_agree(n, scales@, ids@, ivf is None && graph is None) ==> r is Err && !(
        r->Err_0 is TooManyBlocks),
        tables_agree(n, scales@, ids@, ivf is None && graph is None) ==> (r is Ok || r->Err_0 is
            TooManyBlocks),
        ids@.len() != n ==> r == Err::<WritePlan, WriteError>(
            WriteError::IdCount { ids: ids@.len() as usize, n_vectors: n },
        ),
        ids@.len() == n && scales@.len() != n ==> r == Err::<WritePlan, WriteError>(
            WriteError::ScaleCount { scales: scales@.len() as usize, n_vectors: n },
        ),
        r matches Err(WriteError::ZeroId { slot }) ==> slot < ids@.len() && ids@[slot as int] == 0
            && forall|k: int| 0 <= k < slot ==> !#[trigger] is_improper(ids@, k),
        r matches Err(WriteError::DuplicateId { id, slot }) ==> slot < ids@.len()
            && ids@[slot as int] == id && id != 0 && is_improper(ids@, slot as int)
            && forall|k: int| 0 <= k < slot ==> !#[trigger] is_improper(ids@, k),
{
    assert(ids.len() == ids@.len());
    lemma_first_improper(ids@);
    if ids@.len() == n && first_bad(ids@) is Some {
        assert(is_improper(ids@, first_bad(ids@)->0));
    }
}

/// How many bytes an index has besides its rows: of the calibration, of the centroids, of the cell
/// directory and of the adjacency.
pub open spec fn tqplus_len(n: u64, prepared: Option<PreparedParts<'_>>) -> int {
    match prepared {
        Some(p) => if n == 0 || p.tqplus_shift@.len() == 0 || p.tqplus_scale@.len() == 0 {
            0
        } else {
            4 * (p.tqplus_shift@.len() + p.tqplus_scale@.len()) as int
        },
        None => 0,
    }
}

pub open spec fn coarse_len(ivf: Option<IvfParts<'_>>) -> int {
    match ivf {
        Some(v) => if v.lists == 0 {
            0
        } else {
            4 * v.coarse_centroids@.len() as int
        },
        None => 0,
    }
}

pub open spec fn directory_len(ivf: Option<IvfParts<'_>>) -> int {
    match ivf {
        Some(v) => if v.lists == 0 {
            0
        } else {
            v.cell_dir_bytes@.len() as int
        },
        None => 0,
    }
}

pub open spec fn adjacency_len(graph: Option<GraphParts<'_>>) -> int {
    match graph {
        Some(g) => (g.offsets_bytes@.len() + g.neighbors_bytes@.len()) as int,
        None => 0,
    }
}

proof fn lemma_counts(pages: int, d: int, n: int)
    requires
        d > 0,
        n >= 0,
        just_enough(pages, d, n),
    ensures
        pages == pages_for_rows(n as nat, d as nat),
{
    vstd::arithmetic::div_mod::lemma_fundamental_div_mod(n, d);
    let q = n / d;
    let m = n % d;
    let c = if m == 0 {
        q
    } else {
        q + 1
    };
    assert(pages == c) by (nonlinear_arith)
        requires
            n == d * q + m,
            0 <= m < d,
            c == if m == 0 {
                q
            } else {
                q + 1
            },
            n <= pages * d < n + d,
    ;
}

/// Whether these are just the pages that the parts of an index need: codes, scales, ids, calibration,
/// centroids, cell directory, adjacency.
pub open spec fn needs_pages(
    n: u64,
    prepared: Option<PreparedParts<'_>>,
    ivf: Option<IvfParts<'_>>,
    graph: Option<GraphParts<'_>>,
    per_page: int,
    p: Seq<int>,
) -> bool {
    &&& p.len() == 7
    &&& just_enough(p[0], per_page, n as int)
    &&& just_enough(p[1], 2042, n as int)
    &&& just_enough(p[2], 1021, n as int)
    &&& just_enough(p[3], 8168, tqplus_len(n, prepared))
    &&& just_enough(p[4], 8168, coarse_len(ivf))
    &&& just_enough(p[5], 8168, directory_len(ivf))
    &&& just_enough(p[6], 8168, adjacency_len(graph))
}

proof fn lemma_per_page(bit_width: u8, dim: u32, per_page: int)
    requires
        1 <= (dim / 8) * bit_width <= 8168,
        per_page * ((dim / 8) * bit_width) <= 8168 < (per_page + 1) * ((dim / 8) * bit_width),
    ensures
        stride_of(bit_width as nat, dim as nat) == (dim / 8) * bit_width,
        per_page == 8168nat / stride_of(bit_width as nat, dim as nat),
        1 <= per_page <= 8168,
{
    let stride = (dim / 8) * bit_width;
    assert((dim / 8) as nat * bit_width as nat == stride);
    assert(per_page == 8168int / stride && per_page >= 1 && per_page <= 8168) by (nonlinear_arith)
        requires
            1 <= stride <= 8168,
            per_page * stride <= 8168 < (per_page + 1) * stride,
    ;
}

proof fn lemma_part_lengths(
    c: Content,
    prepared: Option<PreparedParts<'_>>,
    ivf: Option<IvfParts<'_>>,
    graph: Option<GraphParts<'_>>,
)
    requires
        c == content_of(
            c.gap,
            c.bit_width,
            c.dim,
            c.n_vectors,
            c.codes,
            c.scales,
            c.ids,
            c.am_version,
            prepared,
            ivf,
            graph,
            c.codebook,
        ),
        tqplus_len(1, prepared) <= u64::MAX,
        coarse_len(ivf) <= u64::MAX,
        c.countable(),
    ensures
        c.n_vectors > 0 ==> c.tqplus.len() == tqplus_len(c.n_vectors, prepared),
        c.n_vectors == 0 ==> tqplus_len(c.n_vectors, prepared) == 0,
        c.tqplus.len() == tqplus_len(1, prepared),
        c.coarse_bytes().len() == coarse_len(ivf),
        c.directory_bytes().len() == directory_len(ivf),
        c.adjacency_bytes().len() == adjacency_len(graph),
{
}

#[verifier::rlimit(40)]
proof fn lemma_needed_blocks(
    c: Content,
    prepared: Option<PreparedParts<'_>>,
    ivf: Option<IvfParts<'_>>,
    graph: Option<GraphParts<'_>>,
    per_page: int,
    p: Seq<int>,
)
    requires
        c == content_of(
            c.gap,
            c.bit_width,
            c.dim,
            c.n_vectors,
            c.codes,
            c.scales,
            c.ids,
            c.am_version,
            prepared,
            ivf,
            graph,
            c.codebook,
        ),
        tqplus_len(1, prepared) <= u64::MAX,
        coarse_len(ivf) <= u64::MAX,
        c.countable(),
        1 <= (c.dim / 8) * c.bit_width <= 8168,
        per_page * ((c.dim / 8) * c.bit_width) <= 8168 < (per_page + 1) * ((c.dim / 8) * c.bit_width),
        needs_pages(c.n_vectors, prepared, ivf, graph, per_page, p),
    ensures
        c.row_blocks() == 1 + p[0] + p[1] + p[2] + p[3],
        c.tight_blocks() == 1 + p[0] + p[1] + p[2] + p[3] + p[4] + p[5] + p[6],
{
    let n = c.n_vectors;
    lemma_per_page(c.bit_width, c.dim, per_page);
    lemma_part_lengths(c, prepared, ivf, graph);
    lemma_counts(p[0], per_page, n as int);
    lemma_counts(p[1], 2042, n as int);
    lemma_counts(p[2], 1021, n as int);
    lemma_counts(p[3], 8168, tqplus_len(n, prepared));
    lemma_counts(p[4], 8168, coarse_len(ivf));
    lemma_counts(p[5], 8168, directory_len(ivf));
    lemma_counts(p[6], 8168, adjacency_len(graph));
    lemma_counts(0, 8168, 0);
}

/// A finished write leaves the meta page that describes the index, with the chains one behind the other
/// from the second block on, each in just enough pages; a write is refused for want of blocks exactly
/// where the last block would have no number.
#[verifier::rlimit(40)]
pub proof fn a_written_index_is_described(
    bit_width: u8,
    dim: u32,
    n: u64,
    codes: &[u8],
    scales: &[u32],
    ids: &[u64],
    am_version: u32,
    prepared: Option<PreparedParts<'_>>,
    ivf: Option<IvfParts<'_>>,
    graph: Option<GraphParts<'_>>,
    over: Standing,
    r: Result<WritePlan, WriteError>,
    per_page: int,
    p: Seq<int>,
)
    requires
        call_ensures(
            write_full_inner,
            (bit_width, dim, n, codes, scales, ids, am_version, prepared, ivf, graph, over),
            r,
        ),
        tables_agree(n, scales@, ids@, ivf is None && graph is None),
        1 <= (dim / 8) * bit_width <= 8168,
        per_page * ((dim / 8) * bit_width) <= 8168 < (per_page + 1) * ((dim / 8) * bit_width),
        needs_pages(n, prepared, ivf, graph, per_page, p),
        tqplus_len(1, prepared) <= u64::MAX,
        ivf is Some ==> 4 * ivf->0.coarse_centroids@.len() <= u64::MAX,
        adjacency_len(graph) <= u64::MAX,
    ensures
        r is Ok <==> 1 + p[0] + p[1] + p[2] + p[3] + p[4] + p[5] + p[6] <= 0xffff_ffff,
        r matches Ok(plan) ==> {
            let m = plan.meta;
            let rows = 1 + p[0] + p[1] + p[2] + p[3];
            &&& m.bit_width == bit_width && m.dim == dim && m.n_vectors == n && m.am_version
                == am_version
            &&& m.stride_bytes == (dim / 8) * bit_width
            &&& m.rows_per_codes_page == per_page && m.rows_per_scales_page == 2042
                && m.rows_per_ids_page == 1021
            &&& lies_at(m.codes, 1, p[0]) && lies_at(m.scales, 1 + p[0], p[1]) && lies_at(
                m.ids,
                1 + p[0] + p[1],
                p[2],
            )
            &&& lies_at(m.rotation, 1 + p[0] + p[1] + p[2], p[3])
            &&& m.rotation_dim == if p[3] == 0 {
                0
            } else {
                dim
            }
            &&& lies_at(m.coarse, rows, p[4]) && lies_at(m.cell_dir, rows + p[4], p[5])
            &&& lies_at(m.graph, rows + p[4] + p[5], p[6])
            &&& m.lists == match ivf {
                Some(v) => v.lists,
                None => 0,
            }
            &&& !m.ivf_degraded && m.tombstone.count == 0 && m.tombstone_bytes == 0
                && m.blocked.count == 0
            &&& graph is Some ==> m.version == 6 && m.kind == 2 && m.graph_entry_point
                == graph->0.entry_point && m.graph_offsets_bytes == graph->0.offsets_bytes@.len()
                && m.graph_neighbors_bytes == graph->0.neighbors_bytes@.len()
            &&& graph is None && (ivf matches Some(v) && v.colbert) ==> m.version == 5 && m.kind == 1
            &&& graph is None && !(ivf matches Some(v) && v.colbert) ==> m.version == 4 && m.kind == 0
            &&& prepared is None ==> m.codebook.n_levels == 0
        },
{
    let blank = content_of(
        0,
        bit_width,
        dim,
        n,
        Seq::empty(),
        Seq::empty(),
        Seq::empty(),
        0,
        prepared,
        ivf,
        graph,
        arbitrary(),
    );
    lemma_first_improper(ids@);
    lemma_per_page(bit_width, dim, per_page);
    lemma_countable(blank, prepared, ivf, graph);
    lemma_needed_blocks(blank, prepared, ivf, graph, per_page, p);
    if let Ok(plan) = r {
        let c = content_of(
            0,
            bit_width,
            dim,
            n,
            codes@,
            scales@,
            ids@,
            am_version,
            prepared,
            ivf,
            graph,
            plan.meta.codebook,
        );
        assert(plan.meta == c.tight_meta()) by {
            lemma_gap_moves_the_layout(c, 0);
        }
        lemma_countable(c, prepared, ivf, graph);
        lemma_needed_blocks(c, prepared, ivf, graph, per_page, p);
        lemma_chains_described(c, prepared, ivf, graph, per_page, p);
        lemma_stamps(c, prepared, ivf, graph);
    }
}

proof fn lemma_countable(
    c: Content,
    prepared: Option<PreparedParts<'_>>,
    ivf: Option<IvfParts<'_>>,
    graph: Option<GraphParts<'_>>,
)
    requires
        c == content_of(
            c.gap,
            c.bit_width,
            c.dim,
            c.n_vectors,
            c.codes,
            c.scales,
            c.ids,
            c.am_version,
            prepared,
            ivf,
            graph,
            c.codebook,
        ),
        tqplus_len(1, prepared) <= u64::MAX,
        ivf is Some ==> 4 * ivf->0.coarse_centroids@.len() <= u64::MAX,
        adjacency_len(graph) <= u64::MAX,
    ensures
        c.countable(),
{
    if ivf is Some {
        assert(ivf->0.cell_dir_bytes.len() == ivf->0.cell_dir_bytes@.len());
    }
}

#[verifier::rlimit(40)]
proof fn lemma_chains_described(
    c: Content,
    prepared: Option<PreparedParts<'_>>,
    ivf: Option<IvfParts<'_>>,
    graph: Option<GraphParts<'_>>,
    per_page: int,
    p: Seq<int>,
)
    requires
        c == content_of(
            c.gap,
            c.bit_width,
            c.dim,
            c.n_vectors,
            c.codes,
            c.scales,
            c.ids,
            c.am_version,
            prepared,
            ivf,
            graph,
            c.codebook,
        ),
        tqplus_len(1, prepared) <= u64::MAX,
        coarse_len(ivf) <= u64::MAX,
        c.countable(),
        1 <= (c.dim / 8) * c.bit_width <= 8168,
        per_page * ((c.dim / 8) * c.bit_width) <= 8168 < (per_page + 1) * ((c.dim / 8) * c.bit_width),
        needs_pages(c.n_vectors, prepared, ivf, graph, per_page, p),
        c.row_blocks() == 1 + p[0] + p[1] + p[2] + p[3],
        c.tight_blocks() == 1 + p[0] + p[1] + p[2] + p[3] + p[4] + p[5] + p[6],
        c.tight_blocks() <= u32::MAX,
    ensures
        ({
            let m = c.tight_meta();
            let rows = 1 + p[0] + p[1] + p[2] + p[3];
            &&& m.stride_bytes == (c.dim / 8) * c.bit_width
            &&& m.rows_per_codes_page == per_page && m.rows_per_scales_page == 2042
                && m.rows_per_ids_page == 1021
            &&& lies_at(m.codes, 1, p[0]) && lies_at(m.scales, 1 + p[0], p[1]) && lies_at(
                m.ids,
                1 + p[0] + p[1],
                p[2],
            )
            &&& lies_at(m.rotation, 1 + p[0] + p[1] + p[2], p[3])
            &&& m.rotation_dim == if p[3] == 0 {
                0
            } else {
                c.dim
            }
            &&& lies_at(m.coarse, rows, p[4]) && lies_at(m.cell_dir, rows + p[4], p[5])
            &&& lies_at(m.graph, rows + p[4] + p[5], p[6])
            &&& m.blocked.count == 0
        }),
{
    let n = c.n_vectors;
    lemma_per_page(c.bit_width, c.dim, per_page);
    lemma_part_lengths(c, prepared, ivf, graph);
    lemma_tight_layout(c);
    lemma_counts(p[0], per_page, n as int);
    lemma_counts(p[1], 2042, n as int);
    lemma_counts(p[2], 1021, n as int);
    lemma_counts(p[3], 8168, tqplus_len(n, prepared));
    lemma_counts(p[4], 8168, coarse_len(ivf));
    lemma_counts(p[5], 8168, directory_len(ivf));
    lemma_counts(p[6], 8168, adjacency_len(graph));
    lemma_counts(0, 8168, 0);
    let m = c.tight_meta();
    let k = c.row_meta();
    assert(m.rotation_dim == k.rotation_dim);
    assert(lies_at(k.codes, 1, p[0]) && lies_at(k.scales, 1 + p[0], p[1]));
    assert(lies_at(k.ids, 1 + p[0] + p[1], p[2]));
    assert(lies_at(k.rotation, 1 + p[0] + p[1] + p[2], p[3]));
    assert(m.coarse.count == p[4] && m.cell_dir.count == p[5] && m.graph.count == p[6]);
    assert(p[4] == 0 ==> m.coarse.first == 0);
    assert(p[5] == 0 ==> m.cell_dir.first == 0);
    assert(p[6] == 0 ==> m.graph.first == 0);
}

#[verifier::rlimit(40)]
proof fn lemma_stamps(
    c: Content,
    prepared: Option<PreparedParts<'_>>,
    ivf: Option<IvfParts<'_>>,
    graph: Option<GraphParts<'_>>,
)
    requires
        c == content_of(
            c.gap,
            c.bit_width,
            c.dim,
            c.n_vectors,
            c.codes,
            c.scales,
            c.ids,
            c.am_version,
            prepared,
            ivf,
            graph,
            c.codebook,
        ),
        adjacency_len(graph) <= u64::MAX,
    ensures
        ({
            let m = c.tight_meta();
            &&& m.bit_width == c.bit_width && m.dim == c.dim && m.n_vectors == c.n_vectors
                && m.am_version == c.am_version && m.codebook == c.codebook
            &&& m.lists == match ivf {
                Some(v) => v.lists,
                None => 0,
            }
            &&& !m.ivf_degraded && m.tombstone.count == 0 && m.tombstone_bytes == 0
            &&& graph is Some ==> m.version == 6 && m.kind == 2 && m.graph_entry_point
                == graph->0.entry_point && m.graph_offsets_bytes == graph->0.offsets_bytes@.len()
                && m.graph_neighbors_bytes == graph->0.neighbors_bytes@.len()
            &&& graph is None && (ivf matches Some(v) && v.colbert) ==> m.version == 5 && m.kind == 1
            &&& graph is None && !(ivf matches Some(v) && v.colbert) ==> m.version == 4 && m.kind == 0
        }),
{
}

} // verus!
