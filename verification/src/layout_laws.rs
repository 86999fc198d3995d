//! How an index is laid out in pages, and what restricts a search to some of its rows.
use std::collections::HashSet;
use vstd::prelude::*;

use crate::bitmap::is_tombstoned;
use crate::bytes::{bytes_to_u32s, lemma_word_at, long_at, word_at};
use crate::cells::{
    allowed_ids, apply_allowlist, apply_tombstones, in_probed, rows_of_cells, search_mask,
    stored_entry, CellDirectory, CellEntry,
};
use crate::page::{
    highest, lemma_extent_bounds, lowest, moved, pages_for_rows, row_extent, stride_of, Codebook,
    MetaPageData, Span,
};

verus! {

/// Whether this many pages hold `n` items, a page holding `per_page` of them, and one page less does not.
pub open spec fn just_enough(pages: int, per_page: int, n: int) -> bool {
    n <= pages * per_page < n + per_page
}

/// Just enough pages are as many as are counted.
pub proof fn lemma_just_enough(pages: int, d: int, n: int)
    requires
        d > 0,
        n >= 0,
    ensures
        just_enough(pages, d, n) <==> pages == pages_for_rows(n as nat, d as nat),
{
    vstd::arithmetic::div_mod::lemma_fundamental_div_mod(n, d);
    let q = n / d;
    let m = n % d;
    let c = if m == 0 {
        q
    } else {
        q + 1
    };
    assert(pages_for_rows(n as nat, d as nat) == c);
    assert(n <= c * d < n + d) by (nonlinear_arith)
        requires
            n == d * q + m,
            0 <= m < d,
            c == if m == 0 {
                q
            } else {
                q + 1
            },
    ;
    assert(n <= pages * d < n + d ==> pages == c) by (nonlinear_arith)
        requires
            n <= c * d < n + d,
            d > 0,
    ;
}

/// The pages that are counted hold all rows, and with one page less they would not; a page without room
/// for a row counts as no page.
pub proof fn the_pages_are_just_enough(n: u64, rows_per_page: u32, r: u64, bytes: u64, q: u64)
    requires
        call_ensures(MetaPageData::pages_needed, (n, rows_per_page), r),
        call_ensures(MetaPageData::byte_pages_needed, (bytes,), q),
    ensures
        rows_per_page > 0 ==> just_enough(r as int, rows_per_page as int, n as int),
        rows_per_page == 0 ==> r == 0,
        just_enough(q as int, 8168, bytes as int),
{
    if rows_per_page > 0 {
        lemma_just_enough(r as int, rows_per_page as int, n as int);
    }
    lemma_just_enough(q as int, 8168, bytes as int);
}

/// The code of a row takes the bits of its dimensions, eight dimensions at a time.
pub proof fn a_code_has_the_bits_of_its_dimensions(bit_width: u8, dim: u32, r: u32)
    requires
        call_ensures(MetaPageData::codes_stride, (bit_width, dim), r),
        stride_of(bit_width as nat, dim as nat) <= u32::MAX,
    ensures
        8 * r == (dim - dim % 8) * bit_width,
{
    let e = dim / 8;
    assert(dim - dim % 8 == 8 * e);
    assert((8 * e) * bit_width == 8 * (e * bit_width)) by (nonlinear_arith);
}

/// The chains of an index.
pub open spec fn chains_of(m: MetaPageData) -> Seq<Span> {
    seq![
        m.codes,
        m.scales,
        m.ids,
        m.blocked,
        m.rotation,
        m.coarse,
        m.cell_dir,
        m.graph,
        m.tombstone,
    ]
}

/// A file ends behind the last block of its chains, and with the meta page where it has none.
#[verifier::rlimit(40)]
pub proof fn a_file_ends_behind_its_chains(m: &MetaPageData, r: u64)
    requires
        call_ensures(MetaPageData::total_blocks, (m,), r),
    ensures
        r >= 1,
        forall|i: int|
            0 <= i < 9 && (#[trigger] chains_of(*m)[i]).count > 0 ==> chains_of(*m)[i].first
                + chains_of(*m)[i].count <= r,
        r == 1 || exists|i: int|
            0 <= i < 9 && (#[trigger] chains_of(*m)[i]).count > 0 && chains_of(*m)[i].first
                + chains_of(*m)[i].count == r,
{
    let c = chains_of(*m);
    assert(c[0] == m.codes && c[1] == m.scales && c[2] == m.ids && c[3] == m.blocked && c[4]
        == m.rotation && c[5] == m.coarse && c[6] == m.cell_dir && c[7] == m.graph && c[8]
        == m.tombstone);
}

/// The blocks of an index are its meta page and the blocks of each chain.
pub proof fn the_blocks_of_the_chains_are_counted(m: &MetaPageData, r: u64)
    requires
        call_ensures(MetaPageData::chain_blocks, (m,), r),
    ensures
        r == 1 + chains_of(*m)[0].count + chains_of(*m)[1].count + chains_of(*m)[2].count
            + chains_of(*m)[3].count + chains_of(*m)[4].count + chains_of(*m)[5].count + chains_of(
            *m,
        )[6].count + chains_of(*m)[7].count + chains_of(*m)[8].count,
{
}

/// Whether a chain of `count` blocks begins at `first`; without blocks it begins nowhere.
pub open spec fn lies_at(s: Span, first: int, count: int) -> bool {
    &&& s.count == count
    &&& s.first == if count == 0 {
        0
    } else {
        first
    }
}

/// An index is laid out from the second block on: codes, scales, ids, blocked codes, calibration, each
/// in just enough pages and right behind the one before. It cannot be laid out exactly where the last
/// block would have no number.
#[verifier::rlimit(40)]
pub proof fn the_chains_lie_one_behind_the_other(
    bit_width: u8,
    dim: u32,
    n: u64,
    am_version: u32,
    blocked_bytes: u64,
    n_blocks: u32,
    rotation_bytes: u64,
    r: Option<MetaPageData>,
    per_page: int,
    codes: int,
    scales: int,
    ids: int,
    blocked: int,
    rotation: int,
)
    requires
        call_ensures(
            MetaPageData::plan_with_blocked,
            (bit_width, dim, n, am_version, blocked_bytes, n_blocks, rotation_bytes),
            r,
        ),
        1 <= (dim / 8) * bit_width <= 8168,
        per_page * ((dim / 8) * bit_width) <= 8168 < (per_page + 1) * ((dim / 8) * bit_width),
        just_enough(codes, per_page, n as int),
        just_enough(scales, 2042, n as int),
        just_enough(ids, 1021, n as int),
        just_enough(
            blocked,
            8168,
            if n == 0 {
                0
            } else {
                blocked_bytes as int
            },
        ),
        just_enough(
            rotation,
            8168,
            if n == 0 {
                0
            } else {
                rotation_bytes as int
            },
        ),
    ensures
        r is Some <==> 1 + codes + scales + ids + blocked + rotation <= 0xffff_ffff,
        r matches Some(m) ==> {
            &&& lies_at(m.codes, 1, codes)
            &&& lies_at(m.scales, 1 + codes, scales)
            &&& lies_at(m.ids, 1 + codes + scales, ids)
            &&& lies_at(m.blocked, 1 + codes + scales + ids, blocked)
            &&& lies_at(m.rotation, 1 + codes + scales + ids + blocked, rotation)
            &&& m.rows_per_codes_page == per_page
            &&& m.rows_per_scales_page == 2042 && m.rows_per_ids_page == 1021
            &&& m.stride_bytes == (dim / 8) * bit_width
            &&& m.version == 4 && m.kind == 0
            &&& m.bit_width == bit_width && m.dim == dim && m.n_vectors == n && m.am_version
                == am_version
            &&& m.blocked_bytes == if n == 0 {
                0
            } else {
                blocked_bytes
            }
            &&& m.n_blocks_blocked == if n == 0 {
                0
            } else {
                n_blocks
            }
            &&& m.rotation_dim == if rotation == 0 {
                0
            } else {
                dim
            }
            &&& m.lists == 0 && m.coarse.count == 0 && m.cell_dir.count == 0 && !m.ivf_degraded
            &&& m.tombstone.count == 0 && m.tombstone_bytes == 0 && m.graph.count == 0
            &&& m.graph_offsets_bytes == 0 && m.graph_neighbors_bytes == 0 && m.graph_entry_point
                == 0
            &&& m.codebook.n_levels == 0
        },
{
    let stride = (dim / 8) * bit_width;
    assert((dim / 8) as nat * bit_width as nat == stride);
    assert(stride_of(bit_width as nat, dim as nat) == stride);
    assert(per_page == 8168int / stride && per_page >= 1 && per_page <= 8168) by (nonlinear_arith)
        requires
            1 <= stride <= 8168,
            per_page * stride <= 8168 < (per_page + 1) * stride,
    ;
    lemma_just_enough(codes, per_page, n as int);
    lemma_just_enough(scales, 2042, n as int);
    lemma_just_enough(ids, 1021, n as int);
    lemma_just_enough(
        blocked,
        8168,
        if n == 0 {
            0
        } else {
            blocked_bytes as int
        },
    );
    lemma_just_enough(
        rotation,
        8168,
        if n == 0 {
            0
        } else {
            rotation_bytes as int
        },
    );
}

/// A plan without further chains is a plan with nothing in them.
pub proof fn a_plain_layout_has_rows_only(
    bit_width: u8,
    dim: u32,
    n: u64,
    am_version: u32,
    r: Option<MetaPageData>,
    q: Option<MetaPageData>,
)
    requires
        call_ensures(MetaPageData::plan, (bit_width, dim, n, am_version), r),
        call_ensures(MetaPageData::plan_with_blocked, (bit_width, dim, n, am_version, 0, 0, 0), q),
        1 <= (dim / 8) * bit_width <= 8168,
    ensures
        r is Some <==> q is Some,
        r matches Some(m) ==> {
            &&& m.blocked.count == 0 && m.rotation.count == 0
            &&& m == (MetaPageData { codebook: m.codebook, ..q->0 })
        },
{
    assert((dim / 8) as nat * bit_width as nat == (dim / 8) * bit_width);
    lemma_just_enough(0, 8168, 0);
}

/// The tables of the cells come behind the chains that are there, the centroids first, and nothing else
/// changes; without cells, or without room for them, nothing changes at all.
pub proof fn the_tables_of_the_cells_come_behind(
    m: &mut MetaPageData,
    lists: u32,
    coarse_bytes: u64,
    cell_dir_bytes: u64,
    ok: bool,
    at: u64,
    coarse: int,
    cells: int,
)
    requires
        call_ensures(MetaPageData::set_ivf_chains, (m, lists, coarse_bytes, cell_dir_bytes), ok),
        call_ensures(MetaPageData::chain_blocks, (&*old(m),), at),
        at <= 0xffff_ffff,
        old(m).coarse.count == 0,
        old(m).cell_dir.count == 0,
        just_enough(coarse, 8168, coarse_bytes as int),
        just_enough(cells, 8168, cell_dir_bytes as int),
    ensures
        ok <==> lists == 0 || at + coarse + cells <= 0xffff_ffff,
        !ok || lists == 0 ==> *final(m) == *old(m),
        ok && lists > 0 ==> {
            &&& final(m).lists == lists
            &&& lies_at(final(m).coarse, at as int, coarse)
            &&& lies_at(final(m).cell_dir, at + coarse, cells)
            &&& *old(m) == (MetaPageData {
                lists: old(m).lists,
                coarse: old(m).coarse,
                cell_dir: old(m).cell_dir,
                ..*final(m)
            })
        },
{
    lemma_just_enough(coarse, 8168, coarse_bytes as int);
    lemma_just_enough(cells, 8168, cell_dir_bytes as int);
}

/// The adjacency of a graph comes behind the chains that are there, and the index is marked as a graph
/// index; without room for it nothing changes.
pub proof fn the_graph_comes_behind(
    m: &mut MetaPageData,
    offsets_bytes: u64,
    neighbors_bytes: u64,
    entry_point: u32,
    ok: bool,
    at: u64,
    pages: int,
)
    requires
        call_ensures(
            MetaPageData::set_graph_chain,
            (m, offsets_bytes, neighbors_bytes, entry_point),
            ok,
        ),
        call_ensures(MetaPageData::chain_blocks, (&*old(m),), at),
        at <= 0xffff_ffff,
        old(m).graph.count == 0,
        offsets_bytes + neighbors_bytes <= u64::MAX,
        just_enough(pages, 8168, offsets_bytes + neighbors_bytes),
    ensures
        ok <==> at + pages <= 0xffff_ffff,
        !ok ==> *final(m) == *old(m),
        ok ==> {
            &&& lies_at(final(m).graph, at as int, pages)
            &&& final(m).version == 6 && final(m).kind == 2
            &&& final(m).graph_offsets_bytes == offsets_bytes
            &&& final(m).graph_neighbors_bytes == neighbors_bytes
            &&& final(m).graph_entry_point == entry_point
            &&& *old(m) == (MetaPageData {
                version: old(m).version,
                kind: old(m).kind,
                graph: old(m).graph,
                graph_offsets_bytes: old(m).graph_offsets_bytes,
                graph_neighbors_bytes: old(m).graph_neighbors_bytes,
                graph_entry_point: old(m).graph_entry_point,
                ..*final(m)
            })
        },
{
    lemma_just_enough(pages, 8168, offsets_bytes + neighbors_bytes);
}

/// Moving an index moves each of its chains by the same number of blocks and changes nothing else.
#[verifier::rlimit(40)]
pub proof fn all_chains_move_together(m: &mut MetaPageData, gap: u32)
    requires
        call_ensures(MetaPageData::shift_chains, (m, gap), ()),
        highest(old(m).extents()) + gap <= u32::MAX,
    ensures
        forall|i: int|
            0 <= i < 9 ==> (#[trigger] chains_of(*final(m))[i]).count == chains_of(*old(m))[i].count,
        forall|i: int|
            0 <= i < 9 && chains_of(*old(m))[i].count > 0 ==> (#[trigger] chains_of(
                *final(m),
            )[i]).first == chains_of(*old(m))[i].first + gap,
        forall|i: int|
            0 <= i < 9 && chains_of(*old(m))[i].count == 0 ==> (#[trigger] chains_of(
                *final(m),
            )[i]).first == chains_of(*old(m))[i].first,
        *old(m) == (MetaPageData {
            codes: old(m).codes,
            scales: old(m).scales,
            ids: old(m).ids,
            blocked: old(m).blocked,
            rotation: old(m).rotation,
            coarse: old(m).coarse,
            cell_dir: old(m).cell_dir,
            graph: old(m).graph,
            tombstone: old(m).tombstone,
            ..*final(m)
        }),
{
    let es = old(m).extents();
    let c = chains_of(*old(m));
    assert(es[0].0 == c[0].first && es[0].1 >= c[0].count);
    assert(es[1].0 == c[1].first && es[1].1 >= c[1].count);
    assert(es[2].0 == c[2].first && es[2].1 >= c[2].count);
    assert(es[3].0 == c[3].first && es[3].1 == c[3].count);
    assert(es[4].0 == c[4].first && es[4].1 == c[4].count);
    assert(es[5].0 == c[5].first && es[5].1 == c[5].count);
    assert(es[6].0 == c[6].first && es[6].1 == c[6].count);
    assert(es[7].0 == c[7].first && es[7].1 == c[7].count);
    assert(es[8].0 == c[8].first && es[8].1 == c[8].count);
    assert forall|i: int| 0 <= i < 9 && (#[trigger] c[i]).count > 0 implies c[i].first + gap
        <= u32::MAX by {
        assert(es[i].0 == c[i].first && es[i].1 >= c[i].count);
        lemma_extent_bounds(es, i);
    }
    let d = chains_of(*final(m));
    assert forall|i: int| 0 <= i < 9 implies #[trigger] d[i] == moved(c[i], gap as nat) by {}
}

/// Every block of a chain lies between the bounds that are given for the blocks in use.
pub proof fn the_blocks_in_use_hold_the_chains(m: &MetaPageData, r: (u64, u64), i: int, b: int)
    requires
        call_ensures(MetaPageData::used_blocks, (m,), r),
        0 <= i < 9,
        chains_of(*m)[i].first <= b < chains_of(*m)[i].first + chains_of(*m)[i].count,
    ensures
        r.0 <= b < r.1,
{
    let es = m.extents();
    let c = chains_of(*m);
    assert(es[0].0 == c[0].first && es[0].1 >= c[0].count);
    assert(es[1].0 == c[1].first && es[1].1 >= c[1].count);
    assert(es[2].0 == c[2].first && es[2].1 >= c[2].count);
    assert(es[3].0 == c[3].first && es[3].1 == c[3].count);
    assert(es[4].0 == c[4].first && es[4].1 == c[4].count);
    assert(es[5].0 == c[5].first && es[5].1 == c[5].count);
    assert(es[6].0 == c[6].first && es[6].1 == c[6].count);
    assert(es[7].0 == c[7].first && es[7].1 == c[7].count);
    assert(es[8].0 == c[8].first && es[8].1 == c[8].count);
    assert(es[i].0 == c[i].first && es[i].1 >= c[i].count);
    lemma_extent_bounds(es, i);
}

proof fn lemma_bounds_attained(es: Seq<(nat, nat)>)
    ensures
        lowest(es) == 0x1_0000_0000 || exists|i: int|
            0 <= i < es.len() && (#[trigger] es[i]).1 > 0 && es[i].0 == lowest(es),
        highest(es) == 1 || exists|i: int|
            0 <= i < es.len() && (#[trigger] es[i]).1 > 0 && es[i].0 + es[i].1 == highest(es),
    decreases es.len(),
{
    if es.len() > 0 {
        let rest = es.drop_last();
        let n = es.len() - 1;
        lemma_bounds_attained(rest);
        assert(es[n] == es.last());
        if lowest(es) == lowest(rest) && lowest(rest) != 0x1_0000_0000 {
            let i = choose|i: int|
                0 <= i < rest.len() && (#[trigger] rest[i]).1 > 0 && rest[i].0 == lowest(rest);
            assert(es[i] == rest[i]);
        }
        if highest(es) == highest(rest) && highest(rest) != 1 {
            let i = choose|i: int|
                0 <= i < rest.len() && (#[trigger] rest[i]).1 > 0 && rest[i].0 + rest[i].1
                    == highest(rest);
            assert(es[i] == rest[i]);
        }
    }
}

/// Where the row chains have just enough pages, the blocks in use begin with the first block of a chain
/// and end behind the last block of one.
pub proof fn the_blocks_in_use_are_those_of_the_chains(m: &MetaPageData, r: (u64, u64))
    requires
        call_ensures(MetaPageData::used_blocks, (m,), r),
        m.rows_per_codes_page > 0,
        m.rows_per_scales_page > 0,
        m.rows_per_ids_page > 0,
        just_enough(m.codes.count as int, m.rows_per_codes_page as int, m.n_vectors as int),
        just_enough(m.scales.count as int, m.rows_per_scales_page as int, m.n_vectors as int),
        just_enough(m.ids.count as int, m.rows_per_ids_page as int, m.n_vectors as int),
    ensures
        r.0 == 0x1_0000_0000 || exists|i: int|
            0 <= i < 9 && (#[trigger] chains_of(*m)[i]).count > 0 && chains_of(*m)[i].first == r.0,
        r.1 == 1 || exists|i: int|
            0 <= i < 9 && (#[trigger] chains_of(*m)[i]).count > 0 && chains_of(*m)[i].first
                + chains_of(*m)[i].count == r.1,
{
    let es = m.extents();
    let c = chains_of(*m);
    lemma_just_enough(m.codes.count as int, m.rows_per_codes_page as int, m.n_vectors as int);
    lemma_just_enough(m.scales.count as int, m.rows_per_scales_page as int, m.n_vectors as int);
    lemma_just_enough(m.ids.count as int, m.rows_per_ids_page as int, m.n_vectors as int);
    assert(es[0] == row_extent(m.codes, m.n_vectors, m.rows_per_codes_page));
    assert(es[1] == row_extent(m.scales, m.n_vectors, m.rows_per_scales_page));
    assert(es[2] == row_extent(m.ids, m.n_vectors, m.rows_per_ids_page));
    assert forall|i: int| 0 <= i < 9 implies (#[trigger] es[i]).0 == c[i].first && es[i].1
        == c[i].count by {}
    lemma_bounds_attained(es);
    if r.0 != 0x1_0000_0000 {
        let i = choose|i: int|
            0 <= i < es.len() && (#[trigger] es[i]).1 > 0 && es[i].0 == lowest(es);
        assert(c[i].first == r.0);
    }
    if r.1 != 1 {
        let i = choose|i: int|
            0 <= i < es.len() && (#[trigger] es[i]).1 > 0 && es[i].0 + es[i].1 == highest(es);
        assert(c[i].first + c[i].count == r.1);
    }
}

/// A codebook that is set has the levels that are given, and zeros behind them; the rest of the meta page
/// stays.
pub proof fn a_codebook_has_its_levels(m: &mut MetaPageData, centroids: &[u32], boundaries: &[u32])
    requires
        call_ensures(MetaPageData::set_codebook, (m, centroids, boundaries), ()),
        centroids@.len() <= 16,
        boundaries@.len() < 16,
    ensures
        final(m).codebook.n_levels == centroids@.len(),
        final(m).codebook.centroids@.take(centroids@.len() as int) == centroids@,
        final(m).codebook.boundaries@.take(boundaries@.len() as int) == boundaries@,
        forall|i: int|
            centroids@.len() <= i < 16 ==> #[trigger] final(m).codebook.centroids@[i] == 0,
        forall|i: int|
            boundaries@.len() <= i < 15 ==> #[trigger] final(m).codebook.boundaries@[i] == 0,
        *old(m) == (MetaPageData { codebook: old(m).codebook, ..*final(m) }),
{
    assert(final(m).codebook.centroids@.take(centroids@.len() as int) =~= centroids@);
    assert(final(m).codebook.boundaries@.take(boundaries@.len() as int) =~= boundaries@);
}

/// A token index is marked as one, and nothing else changes.
pub proof fn a_token_index_is_marked(m: &mut MetaPageData, b: bool)
    requires
        call_ensures(MetaPageData::mark_colbert, (m,), ()),
        call_ensures(MetaPageData::is_colbert, (&*final(m),), b),
    ensures
        b,
        final(m).version == 5 && final(m).kind == 1,
        *old(m) == (MetaPageData { version: old(m).version, kind: old(m).kind, ..*final(m) }),
{
}

/// What an index is, its meta page says: a token index by its kind, one; a graph index by its kind, two,
/// and its graph can be used where it has an adjacency; a clustered index by its number of cells, and its
/// cells can be used where both tables are there and the cells are up to date.
pub proof fn the_meta_page_tells_the_index(
    m: &MetaPageData,
    colbert: bool,
    graph: bool,
    searchable: bool,
    ivf: bool,
    was_ivf: bool,
    degraded: bool,
)
    requires
        call_ensures(MetaPageData::is_colbert, (m,), colbert),
        call_ensures(MetaPageData::is_graph, (m,), graph),
        call_ensures(MetaPageData::has_graph, (m,), searchable),
        call_ensures(MetaPageData::has_ivf, (m,), ivf),
        call_ensures(MetaPageData::index_was_ivf, (m,), was_ivf),
        call_ensures(MetaPageData::is_degraded, (m,), degraded),
    ensures
        colbert <==> m.kind == 1,
        graph <==> m.kind == 2,
        searchable <==> m.kind == 2 && m.graph.count > 0,
        was_ivf <==> m.lists > 0,
        degraded <==> m.lists > 0 && m.ivf_degraded,
        ivf <==> m.lists > 0 && m.coarse.count > 0 && m.cell_dir.count > 0 && !m.ivf_degraded,
{
}

/// The first two versions of the layout are the old ones; from the third on an index with a codebook is
/// ready to be searched.
pub proof fn the_version_tells_what_is_there(m: &MetaPageData, v1: bool, v2: bool, ready: bool)
    requires
        call_ensures(MetaPageData::is_legacy_v1, (m,), v1),
        call_ensures(MetaPageData::is_legacy_v2, (m,), v2),
        call_ensures(MetaPageData::has_prepared_layout, (m,), ready),
    ensures
        v1 <==> m.version == 1,
        v2 <==> m.version < 3,
        ready <==> m.version > 2 && m.codebook.n_levels != 0,
{
}

/// A directory has twelve bytes for each cell: where it begins, in eight, and how many rows it has, in
/// four.
pub proof fn a_cell_takes_twelve_bytes(bytes: &[u8], lists: usize, r: CellDirectory)
    requires
        call_ensures(CellDirectory::decode, (bytes, lists), r),
        bytes@.len() == 12 * lists,
    ensures
        r.entries@.len() == lists,
        forall|i: int|
            0 <= i < lists ==> {
                &&& (#[trigger] r.entries@[i]).code_offset == long_at(bytes@, 12 * i)
                &&& r.entries@[i].n_vectors == word_at(bytes@, 12 * i + 8)
            },
{
    let w = bytes_to_u32s(bytes@);
    lemma_word_at(bytes@);
    assert forall|i: int| 0 <= i < lists implies {
        &&& (#[trigger] r.entries@[i]).code_offset == long_at(bytes@, 12 * i)
        &&& r.entries@[i].n_vectors == word_at(bytes@, 12 * i + 8)
    } by {
        assert(w[3 * i] == word_at(bytes@, 4 * (3 * i)));
        assert(w[3 * i + 1] == word_at(bytes@, 4 * (3 * i + 1)));
        assert(w[3 * i + 2] == word_at(bytes@, 4 * (3 * i + 2)));
        assert(r.entries@[i] == stored_entry(bytes@, i));
    }
}

/// The rows of the cells are counted cell by cell.
pub proof fn the_rows_of_all_cells_are_counted(a: &CellDirectory, b: &CellDirectory, r: u64, q: u64)
    requires
        call_ensures(CellDirectory::total_vectors, (a,), r),
        call_ensures(CellDirectory::total_vectors, (b,), q),
        rows_of_cells(a.entries@, a.entries@.len()) <= u64::MAX,
        rows_of_cells(b.entries@, b.entries@.len()) <= u64::MAX,
    ensures
        a.entries@.len() == 0 ==> r == 0,
        b.entries@.len() > 0 && b.entries@.drop_last() == a.entries@ ==> q == r
            + b.entries@.last().n_vectors,
{
    if b.entries@.len() > 0 && b.entries@.drop_last() == a.entries@ {
        lemma_rows_alike(a.entries@, b.entries@, a.entries@.len());
    }
}

proof fn lemma_rows_alike(a: Seq<CellEntry>, b: Seq<CellEntry>, k: nat)
    requires
        k <= a.len(),
        a.len() <= b.len(),
        b.take(a.len() as int) == a,
    ensures
        rows_of_cells(a, k) == rows_of_cells(b, k),
    decreases k,
{
    if k > 0 {
        lemma_rows_alike(a, b, (k - 1) as nat);
        assert(a[k - 1] == b[k - 1]);
    }
}

/// Whether the slot is one of the rows of a cell that is probed.
pub open spec fn is_probed(cells: Seq<CellEntry>, probed: Seq<u32>, slot: int) -> bool {
    exists|k: int|
        0 <= k < probed.len() && (#[trigger] probed[k]) < cells.len()
            && cells[probed[k] as int].code_offset <= slot && slot - cells[probed[k] as int].code_offset
            < cells[probed[k] as int].n_vectors
}

proof fn lemma_probed(cells: Seq<CellEntry>, probed: Seq<u32>, slot: int)
    ensures
        in_probed(cells, probed, slot) <==> is_probed(cells, probed, slot),
{
    if in_probed(cells, probed, slot) {
        let k = choose|k: int|
            0 <= k < probed.len() && (#[trigger] probed[k]) < cells.len()
                && cells[probed[k] as int].has(slot);
        assert(probed[k] < cells.len());
    }
    if is_probed(cells, probed, slot) {
        let k = choose|k: int|
            0 <= k < probed.len() && (#[trigger] probed[k]) < cells.len()
                && cells[probed[k] as int].code_offset <= slot && slot
                - cells[probed[k] as int].code_offset < cells[probed[k] as int].n_vectors;
        assert(cells[probed[k] as int].has(slot));
    }
}

/// A restricted search takes in a row exactly where one of the probed cells has it, it is not marked as
/// deleted, and its id is allowed; where there is no allowlist every id is, and so is a row without id.
pub proof fn a_search_takes_in_the_probed_rows(
    directory: &CellDirectory,
    probed: &[u32],
    tombstones: &[u8],
    ids: &[u64],
    allow: Option<&HashSet<u64>>,
    n: usize,
    r: Vec<bool>,
    mask: Vec<bool>,
    slot: int,
)
    requires
        call_ensures(search_mask, (directory, probed, tombstones, ids, allow, n), r),
        call_ensures(CellDirectory::probe_mask, (directory, probed, n), mask),
        0 <= slot < n,
    ensures
        r@.len() == n && mask@.len() == n,
        mask@[slot] <==> is_probed(directory.entries@, probed@, slot),
        r@[slot] ==> mask@[slot] && !is_tombstoned(tombstones@, slot),
        mask@[slot] && !is_tombstoned(tombstones@, slot) ==> {
            &&& allow is None ==> r@[slot]
            &&& slot >= ids@.len() ==> r@[slot]
            &&& allow is Some && slot < ids@.len() ==> (r@[slot] <==> (allow->0)@.contains(ids@[slot]))
        },
{
    lemma_probed(directory.entries@, probed@, slot);
    assert(allowed_ids(allow) is None <==> allow is None);
}

/// Rows that are marked as deleted leave the mask, and so do rows whose id is not allowed; no row comes in
/// and no other leaves.
pub proof fn masks_lose_only_what_is_ruled_out(
    mask: &mut Vec<bool>,
    tombstones: &[u8],
    other: &mut Vec<bool>,
    ids: &[u64],
    allow: Option<&HashSet<u64>>,
    slot: int,
)
    requires
        call_ensures(apply_tombstones, (mask, tombstones), ()),
        call_ensures(apply_allowlist, (other, ids, allow), ()),
        0 <= slot < old(mask)@.len(),
        0 <= slot < old(other)@.len(),
    ensures
        final(mask)@.len() == old(mask)@.len(),
        final(other)@.len() == old(other)@.len(),
        final(mask)@[slot] ==> old(mask)@[slot],
        old(mask)@[slot] && !final(mask)@[slot] <==> old(mask)@[slot] && is_tombstoned(
            tombstones@,
            slot,
        ),
        final(other)@[slot] ==> old(other)@[slot],
        old(other)@[slot] && !final(other)@[slot] <==> old(other)@[slot] && (
        allow matches Some(set) && slot < ids@.len() && !set@.contains(ids@[slot])),
{
}

/// A codebook is blank, or has the levels that are given and zeros behind them.
pub proof fn a_codebook_is_blank_or_has_its_levels(
    centroids: &[u32],
    boundaries: &[u32],
    blank: Codebook,
    r: Codebook,
)
    requires
        call_ensures(Codebook::blank, (), blank),
        call_ensures(Codebook::of_levels, (centroids, boundaries), r),
        centroids@.len() <= 16,
        boundaries@.len() < 16,
    ensures
        blank.n_levels == 0,
        forall|i: int| 0 <= i < 16 ==> #[trigger] blank.centroids@[i] == 0,
        forall|i: int| 0 <= i < 15 ==> #[trigger] blank.boundaries@[i] == 0,
        r.n_levels == centroids@.len(),
        forall|i: int|
            0 <= i < 16 ==> #[trigger] r.centroids@[i] == if i < centroids@.len() {
                centroids@[i]
            } else {
                0
            },
        forall|i: int|
            0 <= i < 15 ==> #[trigger] r.boundaries@[i] == if i < boundaries@.len() {
                boundaries@[i]
            } else {
                0
            },
{
}

} // verus!
