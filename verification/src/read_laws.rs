//! What is written in pages and what is read from them.
use vstd::prelude::*;

use crate::bytes::{lemma_long_at, lemma_word_at, long_at, word_at};
use crate::chain::{
    laid_out_chain_is_held, lemma_chain_written, ops_of, run, run_concat, write_chain,
    write_chain_at, Action, Chain, Op,
};
use crate::layout_laws::just_enough;
use crate::load::{
    ids_from_pages, read_blocked, read_cell_directory, read_coarse_centroids, read_full_consistent,
    read_graph_adjacency, read_ids_only, read_scales_only, read_tombstones, read_tqplus,
    scales_from_pages, tqplus_from_bytes, FullRead,
};
use crate::page::{ceil_div, MetaPageData};
use crate::reads::{
    answers, chain_reads, chain_reads_fetch_what_is_stored, covers, fetched, gather,
    gather_codes_ranges, lemma_ceil_scaled, lemma_row_place, long_enough,
    payloads_give_what_is_fetched, read_chain, row_reads, stored, stored_rows, taken, ChainError,
    PageRead,
};

verus! {

/// Whether the reads take rows `0 .. n` of `stride` bytes, `rows_per_page` to a page, from consecutive
/// blocks.
pub open spec fn takes_all_rows(
    reads: Seq<PageRead>,
    first: int,
    stride: int,
    rows_per_page: int,
    n: int,
) -> bool {
    &&& just_enough(reads.len() as int, rows_per_page, n)
    &&& forall|p: int|
        0 <= p < reads.len() ==> {
            &&& (#[trigger] reads[p]).blkno == first + p
            &&& reads[p].from == 0
            &&& reads[p].len == if p + 1 < reads.len() {
                rows_per_page * stride
            } else {
                (n - p * rows_per_page) * stride
            }
        }
}

proof fn lemma_just_enough_is(pages: int, d: int, n: int)
    requires
        d > 0,
        n >= 0,
        just_enough(pages, d, n),
    ensures
        pages == ceil_div(n as nat, d as nat),
        n > 0 ==> pages > 0,
{
    vstd::arithmetic::div_mod::lemma_fundamental_div_mod(n, d);
    let q = n / d;
    let m = n % d;
    let c = if m == 0 {
        q
    } else {
        q + 1
    };
    assert(pages == c && (n > 0 ==> pages > 0)) by (nonlinear_arith)
        requires
            n == d * q + m,
            0 <= m < d,
            c == if m == 0 {
                q
            } else {
                q + 1
            },
            n <= pages * d < n + d,
    ;
}

/// A chain is read from just enough blocks, in order and from the start of each, where it lies inside the
/// file and its rows fit on a page. What has no bytes is not read at all. A chain without rows on a
/// page, one past the end of the file and one with too many bytes on a page are refused, in this order.
pub proof fn a_chain_is_read_block_by_block(
    first: u32,
    stride: u32,
    rows_per_page: u32,
    n: u64,
    blocks: u32,
    r: Result<Vec<PageRead>, ChainError>,
    pages: int,
)
    requires
        call_ensures(read_chain, (first, stride, rows_per_page, n, blocks), r),
        rows_per_page > 0 ==> just_enough(pages, rows_per_page as int, n as int),
    ensures
        n == 0 || stride == 0 ==> r is Ok && (r->Ok_0)@.len() == 0,
        n > 0 && stride > 0 && rows_per_page == 0 ==> r == Err::<Vec<PageRead>, ChainError>(
            ChainError::NoRowsPerPage,
        ),
        n > 0 && stride > 0 && rows_per_page > 0 ==> {
            &&& first + pages > blocks ==> r == Err::<Vec<PageRead>, ChainError>(
                ChainError::PastEnd { first, pages: pages as u64, blocks },
            )
            &&& first + pages <= blocks && rows_per_page * stride > 8168 ==> r == Err::<
                Vec<PageRead>,
                ChainError,
            >(ChainError::RowsOverflowPage)
            &&& first + pages <= blocks && rows_per_page * stride <= 8168 ==> r is Ok
                && takes_all_rows(
                (r->Ok_0)@,
                first as int,
                stride as int,
                rows_per_page as int,
                n as int,
            )
        },
{
    if n > 0 && stride > 0 && rows_per_page > 0 {
        lemma_just_enough_is(pages, rows_per_page as int, n as int);
        if r is Ok {
            lemma_takes_all_rows(first, stride, rows_per_page, n, pages);
        }
    }
}

#[verifier::rlimit(40)]
proof fn lemma_takes_all_rows(first: u32, stride: u32, rpp: u32, n: u64, pages: int)
    requires
        n > 0,
        stride > 0,
        rpp > 0,
        rpp * stride <= 8168,
        pages == ceil_div(n as nat, rpp as nat),
        just_enough(pages, rpp as int, n as int),
        first + pages <= u32::MAX,
    ensures
        takes_all_rows(
            row_reads(first, stride, rpp, n),
            first as int,
            stride as int,
            rpp as int,
            n as int,
        ),
{
    let per = rpp * stride;
    let total = n * stride;
    assert(per > 0 && total > 0) by (nonlinear_arith)
        requires
            per == rpp * stride,
            total == n * stride,
            rpp > 0,
            stride > 0,
            n > 0,
    ;
    lemma_ceil_scaled(n as nat, rpp as nat, stride as nat);
    assert(n as nat * stride as nat == total && rpp as nat * stride as nat == per);
    let reads = row_reads(first, stride, rpp, n);
    assert(reads == chain_reads(first as nat, per as nat, total as nat));
    assert(reads.len() == pages);
    assert forall|p: int| 0 <= p < reads.len() implies {
        &&& (#[trigger] reads[p]).blkno == first + p
        &&& reads[p].from == 0
        &&& reads[p].len == if p + 1 < reads.len() {
            rpp * stride
        } else {
            (n - p * rpp) * stride
        }
    } by {
        assert(total - p * per == (n - p * rpp) * stride) by (nonlinear_arith)
            requires
                per == rpp * stride,
                total == n * stride,
        ;
        if p + 1 < pages {
            assert(n - p * rpp >= rpp) by (nonlinear_arith)
                requires
                    pages * rpp < n + rpp,
                    p + 1 < pages,
                    rpp > 0,
            ;
            assert((n - p * rpp) * stride >= rpp * stride) by (nonlinear_arith)
                requires
                    n - p * rpp >= rpp,
                    stride > 0,
            ;
        } else {
            assert(0 < n - p * rpp <= rpp) by (nonlinear_arith)
                requires
                    n <= pages * rpp < n + rpp,
                    p + 1 == pages,
                    rpp > 0,
            ;
            assert(0 < (n - p * rpp) * stride <= rpp * stride) by (nonlinear_arith)
                requires
                    0 < n - p * rpp <= rpp,
                    stride > 0,
            ;
        }
    }
}

/// What is fetched is put together in the order of the reads, the part that each names of its payload.
pub proof fn parts_are_put_together_in_order(
    reads: &Vec<PageRead>,
    payloads: &Vec<Vec<u8>>,
    r: Vec<u8>,
    more: &Vec<PageRead>,
    others: &Vec<Vec<u8>>,
    q: Vec<u8>,
)
    requires
        call_ensures(gather, (reads, payloads), r),
        call_ensures(gather, (more, others), q),
        payloads@.len() == reads@.len(),
        others@.len() == more@.len(),
    ensures
        reads@.len() == 0 ==> r@.len() == 0,
        more@.len() > 0 && more@.drop_last() == reads@ && others@.drop_last() == payloads@ ==> q@
            == r@ + others@.last()@.subrange(
            more@.last().from as int,
            more@.last().from + more@.last().len,
        ),
{
    if more@.len() > 0 && more@.drop_last() == reads@ && others@.drop_last() == payloads@ {
        lemma_taken_alike(reads@, payloads@, others@);
    }
}

proof fn lemma_taken_alike(reads: Seq<PageRead>, a: Seq<Vec<u8>>, b: Seq<Vec<u8>>)
    requires
        reads.len() <= a.len(),
        reads.len() <= b.len(),
        forall|i: int| 0 <= i < reads.len() ==> #[trigger] a[i] == b[i],
    ensures
        taken(reads, a) == taken(reads, b),
    decreases reads.len(),
{
    if reads.len() > 0 {
        lemma_taken_alike(reads.drop_last(), a, b);
        assert(a[reads.len() - 1] == b[reads.len() - 1]);
    }
}

/// Byte `j` of a row, where rows of `stride` bytes lie `rows_per_page` to a page from block `first` on.
pub open spec fn row_byte(
    pages: Seq<Seq<u8>>,
    first: int,
    stride: int,
    rows_per_page: int,
    row: int,
    j: int,
) -> u8 {
    pages[first + row / rows_per_page][(row % rows_per_page) * stride + j]
}

/// Each byte of each row is read from its place.
#[verifier::rlimit(40)]
pub proof fn every_row_is_read_from_its_place(
    first: u32,
    stride: u32,
    rows_per_page: u32,
    n: u64,
    blocks: u32,
    reads: Vec<PageRead>,
    payloads: &Vec<Vec<u8>>,
    bytes: Vec<u8>,
    pages: Seq<Seq<u8>>,
    row: int,
    j: int,
)
    requires
        call_ensures(
            read_chain,
            (first, stride, rows_per_page, n, blocks),
            Ok::<Vec<PageRead>, ChainError>(reads),
        ),
        call_ensures(gather, (&reads, payloads), bytes),
        answers(reads@, payloads@, pages),
        pages.len() == blocks,
        forall|b: int| 0 <= b < pages.len() ==> (#[trigger] pages[b]).len() == 8168,
        0 <= row < n,
        0 <= j < stride,
    ensures
        bytes@.len() == n * stride,
        0 <= row * stride + j < n * stride,
        bytes@[row * stride + j] == row_byte(
            pages,
            first as int,
            stride as int,
            rows_per_page as int,
            row,
            j,
        ),
{
    let per = rows_per_page * stride;
    let total = n * stride;
    let rpp = rows_per_page as int;
    assert(per > 0 && total > 0 && 0 <= row * stride + j < total) by (nonlinear_arith)
        requires
            per == rows_per_page * stride,
            total == n * stride,
            rows_per_page > 0,
            0 <= j < stride,
            0 <= row < n,
    ;
    lemma_ceil_scaled(n as nat, rows_per_page as nat, stride as nat);
    assert(n as nat * stride as nat == total && rows_per_page as nat * stride as nat == per);
    assert(reads@ == chain_reads(first as nat, per as nat, total as nat));
    chain_reads_fetch_what_is_stored(pages, first as nat, per as nat, total as nat);
    payloads_give_what_is_fetched(reads@, payloads@, pages);
    assert(long_enough(reads@, payloads@)) by {
        assert forall|i: int| 0 <= i < reads@.len() implies reads@[i].from + reads@[i].len <= (
        #[trigger] payloads@[i])@.len() by {
            assert(payloads@[i]@ == pages[reads@[i].blkno as int]);
        }
    }
    assert(bytes@ == stored(pages, first as nat, per as nat, total as nat));
    assert(row % rpp < rpp) by {
        vstd::arithmetic::div_mod::lemma_mod_bound(row, rpp);
    }
    lemma_row_place(rpp, stride as int, row, 1, j);
}

/// Rows of a list of ranges are read range by range, and the rows of a range in order, each byte from its
/// place.
#[verifier::rlimit(40)]
pub proof fn ranges_are_read_row_by_row(
    first: u32,
    stride: u32,
    rows_per_page: u32,
    ranges: &[(u64, u64)],
    more: &[(u64, u64)],
    reads: Vec<PageRead>,
    others: Vec<PageRead>,
    pages: Seq<Seq<u8>>,
    row: int,
    j: int,
)
    requires
        call_ensures(gather_codes_ranges, (first, stride, rows_per_page, ranges), reads),
        call_ensures(gather_codes_ranges, (first, stride, rows_per_page, more), others),
        stride > 0,
        rows_per_page > 0,
        more@.len() > 0,
        more@.drop_last() == ranges@,
        covers(pages, first, rows_per_page, ranges@),
        covers(pages, first, rows_per_page, more@),
        0 <= row < more@.last().1,
        0 <= j < stride,
    ensures
        ({
            let r = fetched(reads@, pages);
            let q = fetched(others@, pages);
            &&& ranges@.len() == 0 ==> r.len() == 0
            &&& q.len() == r.len() + more@.last().1 * stride
            &&& q.take(r.len() as int) == r
            &&& 0 <= row * stride + j < more@.last().1 * stride
            &&& q[r.len() + row * stride + j] == row_byte(
                pages,
                first as int,
                stride as int,
                rows_per_page as int,
                more@.last().0 + row,
                j,
            )
        }),
{
    let range = more@.last();
    let rpp = rows_per_page as int;
    let r = fetched(reads@, pages);
    let q = fetched(others@, pages);
    let per = rows_per_page * stride;
    let total = (range.0 + range.1) * stride;
    let part = stored_rows(pages, first, stride, rows_per_page, range);
    assert(q == r + part);
    assert(0 <= range.0 * stride <= total && total - range.0 * stride == range.1 * stride)
        by (nonlinear_arith)
        requires
            total == (range.0 + range.1) * stride,
            range.0 >= 0,
            range.1 >= 0,
            stride > 0,
    ;
    assert(0 <= row * stride + j < range.1 * stride && range.0 * stride + (row * stride + j) == (
    range.0 + row) * stride + j) by (nonlinear_arith)
        requires
            0 <= row < range.1,
            0 <= j < stride,
    ;
    let all = stored(pages, first as nat, per as nat, total as nat);
    assert(part == all.subrange(range.0 * stride, total));
    assert(part.len() == range.1 * stride);
    assert(q.take(r.len() as int) =~= r);
    assert(part[row * stride + j] == all[(range.0 + row) * stride + j]);
    assert((range.0 + row) % rpp < rpp) by {
        vstd::arithmetic::div_mod::lemma_mod_bound(range.0 + row, rpp);
    }
    lemma_row_place(rpp, stride as int, range.0 + row, 1, j);
}

/// Without rows there is nothing to read: neither where the meta page that was seen had none, nor where
/// the one that is there now has none, nor where there is none now.
pub proof fn nothing_is_read_of_an_empty_index(
    hint: &MetaPageData,
    current: Option<MetaPageData>,
    blocks: u32,
    r: Result<FullRead, ChainError>,
)
    requires
        call_ensures(read_full_consistent, (hint, current, blocks), r),
        hint.n_vectors == 0 || current is None || current->0.n_vectors == 0,
    ensures
        r matches Ok(FullRead::Empty { meta }) && {
            &&& hint.n_vectors == 0 || current is None ==> meta == *hint
            &&& hint.n_vectors > 0 && current is Some ==> meta == current->0
        },
{
}

/// An index is read as the meta page that is there now says: codes, scales and ids, each as a chain of its
/// own, and where one cannot be read the first such fault is given.
pub proof fn a_whole_index_is_read_by_its_meta_page(
    hint: &MetaPageData,
    m: MetaPageData,
    blocks: u32,
    r: Result<FullRead, ChainError>,
    c: Result<Vec<PageRead>, ChainError>,
    s: Result<Vec<PageRead>, ChainError>,
    i: Result<Vec<PageRead>, ChainError>,
)
    requires
        call_ensures(read_full_consistent, (hint, Some(m), blocks), r),
        hint.n_vectors > 0,
        m.n_vectors > 0,
        call_ensures(
            read_chain,
            (m.codes.first, m.stride_bytes, m.rows_per_codes_page, m.n_vectors, blocks),
            c,
        ),
        call_ensures(read_chain, (m.scales.first, 4, m.rows_per_scales_page, m.n_vectors, blocks), s),
        call_ensures(read_chain, (m.ids.first, 8, m.rows_per_ids_page, m.n_vectors, blocks), i),
    ensures
        r is Ok <==> c is Ok && s is Ok && i is Ok,
        r is Ok ==> (r matches Ok(FullRead::Rows { meta, codes, scales, ids }) && meta == m
            && codes@ == (c->Ok_0)@ && scales@ == (s->Ok_0)@ && ids@ == (i->Ok_0)@),
        c is Err ==> r == Err::<FullRead, ChainError>(c->Err_0),
        c is Ok && s is Err ==> r == Err::<FullRead, ChainError>(s->Err_0),
        c is Ok && s is Ok && i is Err ==> r == Err::<FullRead, ChainError>(i->Err_0),
{
}

/// Ids are read as the meta page that is there now says, or else the one that was seen; scales as the one
/// that is given says.
pub proof fn single_chains_are_read_by_their_meta_page(
    meta: &MetaPageData,
    current: Option<MetaPageData>,
    m: MetaPageData,
    blocks: u32,
    r: Result<Vec<PageRead>, ChainError>,
    i: Result<Vec<PageRead>, ChainError>,
    q: Result<Vec<PageRead>, ChainError>,
    s: Result<Vec<PageRead>, ChainError>,
)
    requires
        call_ensures(read_ids_only, (meta, current, blocks), r),
        current is Some ==> m == current->0,
        current is None ==> m == *meta,
        call_ensures(read_chain, (m.ids.first, 8, m.rows_per_ids_page, m.n_vectors, blocks), i),
        call_ensures(read_scales_only, (meta, blocks), q),
        call_ensures(
            read_chain,
            (meta.scales.first, 4, meta.rows_per_scales_page, meta.n_vectors, blocks),
            s,
        ),
    ensures
        meta.n_vectors == 0 ==> r is Ok && (r->Ok_0)@.len() == 0,
        meta.n_vectors > 0 ==> {
            &&& r is Ok <==> i is Ok
            &&& i is Ok ==> (r->Ok_0)@ == (i->Ok_0)@
            &&& i is Err ==> r == Err::<Vec<PageRead>, ChainError>(i->Err_0)
        },
        q is Ok <==> s is Ok,
        s is Ok ==> (q->Ok_0)@ == (s->Ok_0)@,
        s is Err ==> q == Err::<Vec<PageRead>, ChainError>(s->Err_0),
{
}

/// Whether a read takes what another one takes, or has its fault.
pub open spec fn same_read(
    r: Result<Vec<PageRead>, ChainError>,
    q: Result<Vec<PageRead>, ChainError>,
) -> bool {
    &&& r is Ok <==> q is Ok
    &&& r is Ok ==> (r->Ok_0)@ == (q->Ok_0)@
    &&& r is Err ==> r->Err_0 == q->Err_0
}

/// Whether nothing is read.
pub open spec fn reads_nothing(r: Result<Vec<PageRead>, ChainError>) -> bool {
    r is Ok && (r->Ok_0)@.len() == 0
}

/// The chains of bytes are read whole, each from where the meta page says and as many bytes as it says;
/// one that is not there is not read.
pub proof fn chains_of_bytes_are_read_whole(
    m: &MetaPageData,
    blocks: u32,
    blocked: Result<Vec<PageRead>, ChainError>,
    b: Result<Vec<PageRead>, ChainError>,
    tqplus: Result<Vec<PageRead>, ChainError>,
    t: Result<Vec<PageRead>, ChainError>,
    coarse: Result<Vec<PageRead>, ChainError>,
    c: Result<Vec<PageRead>, ChainError>,
    dead: Result<Vec<PageRead>, ChainError>,
    d: Result<Vec<PageRead>, ChainError>,
)
    requires
        call_ensures(read_blocked, (m, blocks), blocked),
        call_ensures(read_chain, (m.blocked.first, 1, 8168, m.blocked_bytes, blocks), b),
        call_ensures(read_tqplus, (m, blocks), tqplus),
        call_ensures(read_chain, (m.rotation.first, 1, 8168, (8 * m.rotation_dim) as u64, blocks), t),
        call_ensures(read_coarse_centroids, (m, blocks), coarse),
        4 * (m.lists * m.dim) <= u64::MAX,
        call_ensures(
            read_chain,
            (m.coarse.first, 1, 8168, (4 * (m.lists * m.dim)) as u64, blocks),
            c,
        ),
        call_ensures(read_tombstones, (m, blocks), dead),
        call_ensures(read_chain, (m.tombstone.first, 1, 8168, m.tombstone_bytes, blocks), d),
    ensures
        m.blocked_bytes == 0 || m.blocked.first == 0 ==> reads_nothing(blocked),
        m.blocked_bytes > 0 && m.blocked.first > 0 ==> same_read(blocked, b),
        m.rotation.count == 0 || m.rotation.first == 0 || m.rotation_dim == 0 ==> reads_nothing(
            tqplus,
        ),
        m.rotation.count > 0 && m.rotation.first > 0 && m.rotation_dim > 0 ==> same_read(tqplus, t),
        m.lists == 0 || m.coarse.first == 0 || m.coarse.count == 0 ==> reads_nothing(coarse),
        m.lists > 0 && m.coarse.first > 0 && m.coarse.count > 0 ==> same_read(coarse, c),
        m.tombstone_bytes == 0 || m.tombstone.first == 0 || m.tombstone.count == 0
            ==> reads_nothing(dead),
        m.tombstone_bytes > 0 && m.tombstone.first > 0 && m.tombstone.count > 0 ==> same_read(dead, d),
{
}

/// The cell directory, twelve bytes for each cell, and the adjacency of a graph are read whole where they
/// are there, and otherwise it is said that they are not.
pub proof fn tables_are_read_where_they_are_there(
    m: &MetaPageData,
    blocks: u32,
    cells: Result<Option<Vec<PageRead>>, ChainError>,
    c: Result<Vec<PageRead>, ChainError>,
    graph: Result<Option<Vec<PageRead>>, ChainError>,
    g: Result<Vec<PageRead>, ChainError>,
)
    requires
        call_ensures(read_cell_directory, (m, blocks), cells),
        call_ensures(read_chain, (m.cell_dir.first, 1, 8168, (12 * m.lists) as u64, blocks), c),
        call_ensures(read_graph_adjacency, (m, blocks), graph),
        m.graph_offsets_bytes + m.graph_neighbors_bytes <= u64::MAX,
        call_ensures(
            read_chain,
            (
                m.graph.first,
                1,
                8168,
                (m.graph_offsets_bytes + m.graph_neighbors_bytes) as u64,
                blocks,
            ),
            g,
        ),
    ensures
        (cells matches Ok(None)) <==> m.lists == 0 || m.cell_dir.first == 0 || m.cell_dir.count == 0,
        cells matches Ok(Some(v)) ==> c is Ok && v@ == (c->Ok_0)@,
        cells matches Err(e) ==> c == Err::<Vec<PageRead>, ChainError>(e),
        (graph matches Ok(None)) <==> m.kind != 2 || m.graph.count == 0,
        graph matches Ok(Some(v)) ==> g is Ok && v@ == (g->Ok_0)@,
        graph matches Err(e) ==> g == Err::<Vec<PageRead>, ChainError>(e),
{
}

/// Scales are numbers of four bytes and ids of eight, the lowest byte first, in the order of the rows.
pub proof fn scales_and_ids_are_read_as_numbers(
    reads: &Vec<PageRead>,
    payloads: &Vec<Vec<u8>>,
    bytes: Vec<u8>,
    scales: Vec<u32>,
    ids: Vec<u64>,
)
    requires
        call_ensures(gather, (reads, payloads), bytes),
        call_ensures(scales_from_pages, (reads, payloads), scales),
        call_ensures(ids_from_pages, (reads, payloads), ids),
        long_enough(reads@, payloads@),
    ensures
        scales@.len() == bytes@.len() / 4,
        forall|i: int| 0 <= i < scales@.len() ==> #[trigger] scales@[i] == word_at(bytes@, 4 * i),
        ids@.len() == bytes@.len() / 8,
        forall|i: int| 0 <= i < ids@.len() ==> #[trigger] ids@[i] == long_at(bytes@, 8 * i),
{
    lemma_word_at(bytes@);
    lemma_long_at(bytes@);
}

/// The calibration is two numbers of four bytes for each dimension, all the shifts before all the scales.
pub proof fn the_shifts_come_before_the_scales(bytes: &[u8], dim: u32, r: (Vec<u32>, Vec<u32>))
    requires
        call_ensures(tqplus_from_bytes, (bytes, dim), r),
        bytes@.len() == 8 * dim,
    ensures
        r.0@.len() == dim,
        r.1@.len() == dim,
        forall|i: int| 0 <= i < dim ==> #[trigger] r.0@[i] == word_at(bytes@, 4 * i),
        forall|i: int| 0 <= i < dim ==> #[trigger] r.1@[i] == word_at(bytes@, 4 * dim + 4 * i),
{
    lemma_word_at(bytes@);
    let all = r.0@ + r.1@;
    assert forall|i: int| 0 <= i < dim implies #[trigger] r.0@[i] == word_at(bytes@, 4 * i) by {
        assert(all[i] == r.0@[i]);
    }
    assert forall|i: int| 0 <= i < dim implies #[trigger] r.1@[i] == word_at(
        bytes@,
        4 * dim + 4 * i,
    ) by {
        assert(all[dim + i] == r.1@[i]);
        assert(4 * (dim + i) == 4 * dim + 4 * i);
    }
}

/// Once a chain is written each byte of each row is in its place, and no block outside the chain has
/// changed.
#[verifier::rlimit(40)]
pub proof fn every_row_is_written_to_its_place(
    out: &mut Vec<Action>,
    start: u32,
    bytes: &[u8],
    stride: u32,
    rows_per_page: u32,
    n: u64,
    pages: Seq<Seq<u8>>,
    blocks: int,
    row: int,
    j: int,
    b: int,
)
    requires
        call_ensures(write_chain_at, (out, start, bytes, stride, rows_per_page, n), ()),
        bytes@.len() == n * stride,
        rows_per_page > 0,
        rows_per_page * stride <= 8168,
        just_enough(blocks, rows_per_page as int, n as int),
        start + blocks <= run(pages, ops_of(old(out)@)).len(),
        start + blocks <= u32::MAX,
        0 <= row < n,
        0 <= j < stride,
        0 <= b < run(pages, ops_of(old(out)@)).len(),
        !(start <= b < start + blocks),
    ensures
        ({
            let before = run(pages, ops_of(old(out)@));
            let after = run(pages, ops_of(final(out)@));
            &&& after.len() == before.len()
            &&& after[b] == before[b]
            &&& row_byte(after, start as int, stride as int, rows_per_page as int, row, j)
                == bytes@[row * stride + j]
        }),
{
    let before = run(pages, ops_of(old(out)@));
    let chain = lemma_chain_of(start, bytes@, stride, rows_per_page, n, blocks);
    let ops = crate::chain::in_batches(chain.writes());
    assert(ops_of(final(out)@) == ops_of(old(out)@) + ops);
    run_concat(pages, ops_of(old(out)@), ops);
    lemma_row_written(before, chain, start, stride, rows_per_page, n, row, j);
}

proof fn lemma_chain_of(
    start: u32,
    bytes: Seq<u8>,
    stride: u32,
    rpp: u32,
    n: u64,
    blocks: int,
) -> (chain: Chain)
    requires
        bytes.len() == n * stride,
        stride > 0,
        rpp > 0,
        just_enough(blocks, rpp as int, n as int),
    ensures
        chain == (Chain { start: start as nat, bytes, per_page: (rpp * stride) as nat }),
        chain.per_page > 0,
        chain.blocks() == blocks,
{
    let chain = Chain { start: start as nat, bytes, per_page: (rpp * stride) as nat };
    lemma_just_enough_is(blocks, rpp as int, n as int);
    lemma_ceil_scaled(n as nat, rpp as nat, stride as nat);
    assert(n as nat * stride as nat == n * stride && rpp as nat * stride as nat == rpp * stride);
    chain
}

#[verifier::rlimit(40)]
proof fn lemma_row_written(
    before: Seq<Seq<u8>>,
    chain: Chain,
    start: u32,
    stride: u32,
    rpp: u32,
    n: u64,
    row: int,
    j: int,
)
    requires
        chain.start == start,
        chain.per_page == rpp * stride,
        0 < rpp * stride <= 8168,
        rpp > 0,
        chain.bytes.len() == n * stride,
        start + chain.blocks() <= before.len(),
        0 <= row < n,
        0 <= j < stride,
    ensures
        ({
            let after = run(before, crate::chain::in_batches(chain.writes()));
            &&& after.len() == before.len()
            &&& forall|b: int|
                0 <= b < before.len() && !(start <= b < start + chain.blocks())
                    ==> #[trigger] after[b] == before[b]
            &&& row_byte(after, start as int, stride as int, rpp as int, row, j)
                == chain.bytes[row * stride + j]
        }),
{
    lemma_chain_written(before, chain);
    let after = run(before, crate::chain::in_batches(chain.writes()));
    laid_out_chain_is_held(chain, after);
    let i = row * stride + j;
    assert(0 <= i < n * stride) by (nonlinear_arith)
        requires
            i == row * stride + j,
            0 <= row < n,
            0 <= j < stride,
    ;
    assert(chain.byte_held_by(after, i));
    assert(row % (rpp as int) < rpp) by {
        vstd::arithmetic::div_mod::lemma_mod_bound(row, rpp as int);
    }
    lemma_row_place(rpp as int, stride as int, row, 1, j);
}

/// A new chain is written behind the end of the file, which grows by just enough blocks; its number is
/// that of its first block, and there is none where there are no rows.
#[verifier::rlimit(40)]
pub proof fn a_new_chain_comes_at_the_end(
    out: &mut Vec<Action>,
    end: u32,
    bytes: &[u8],
    stride: u32,
    rows_per_page: u32,
    n: u64,
    r: u32,
    pages: Seq<Seq<u8>>,
    blocks: int,
    row: int,
    j: int,
    b: int,
)
    requires
        call_ensures(write_chain, (out, end, bytes, stride, rows_per_page, n), r),
        bytes@.len() == n * stride,
        stride > 0,
        rows_per_page > 0,
        rows_per_page * stride <= 8168,
        just_enough(blocks, rows_per_page as int, n as int),
        run(pages, ops_of(old(out)@)).len() == end,
        end + blocks <= u32::MAX,
        0 <= row < n,
        0 <= j < stride,
        0 <= b < end,
    ensures
        ({
            let before = run(pages, ops_of(old(out)@));
            let after = run(pages, ops_of(final(out)@));
            &&& r == end
            &&& after.len() == end + blocks
            &&& after[b] == before[b]
            &&& row_byte(after, end as int, stride as int, rows_per_page as int, row, j)
                == bytes@[row * stride + j]
        }),
{
    let before = run(pages, ops_of(old(out)@));
    let chain = lemma_chain_of(end, bytes@, stride, rows_per_page, n, blocks);
    let ops = crate::chain::in_batches(chain.writes());
    let grow = Op::ExtendTo(end as nat + chain.blocks());
    let grown = ops_of(old(out)@).push(grow);
    assert(ops_of(final(out)@) == grown + ops);
    run_concat(pages, grown, ops);
    assert(grown.drop_last() =~= ops_of(old(out)@));
    let room = run(pages, grown);
    assert(room == crate::chain::step(before, grow));
    assert(room.len() == end + blocks);
    assert(room[b] == before[b]);
    lemma_row_written(room, chain, end, stride, rows_per_page, n, row, j);
}

/// Where there are no rows no chain is written, and where it is asked for its number there is none.
pub proof fn without_rows_nothing_is_written(
    out: &mut Vec<Action>,
    start: u32,
    bytes: &[u8],
    stride: u32,
    rows_per_page: u32,
    other: &mut Vec<Action>,
    r: u32,
)
    requires
        call_ensures(write_chain_at, (out, start, bytes, stride, rows_per_page, 0), ()),
        call_ensures(write_chain, (other, start, bytes, stride, rows_per_page, 0), r),
    ensures
        ops_of(final(out)@) == ops_of(old(out)@),
        ops_of(final(other)@) == ops_of(old(other)@),
        r == 0xffff_ffff,
{
    assert(ops_of(old(out)@) + Seq::<Op>::empty() =~= ops_of(old(out)@));
}

/// Without bytes there is no calibration.
pub proof fn without_bytes_there_is_no_calibration(bytes: &[u8], dim: u32, r: (Vec<u32>, Vec<u32>))
    requires
        call_ensures(tqplus_from_bytes, (bytes, dim), r),
        bytes@.len() == 0,
    ensures
        r.0@.len() == 0,
        r.1@.len() == 0,
{
}

/// Whether pages are written four at a time at most, and never none.
pub open spec fn in_small_batches(ops: Seq<Op>) -> bool {
    forall|i: int|
        0 <= i < ops.len() ==> (#[trigger] ops[i] matches Op::WritePages(ws) ==> 1 <= ws.len() <= 4)
}

/// A chain is written in small batches.
pub proof fn lemma_small_batches(chain: Chain)
    ensures
        in_small_batches(crate::chain::in_batches(chain.writes())),
{
    let ws = chain.writes();
    let ops = crate::chain::in_batches(ws);
    assert forall|b: int| 0 <= b < ops.len() implies (#[trigger] ops[b] matches Op::WritePages(part)
        ==> 1 <= part.len() <= 4) by {
        crate::chain::lemma_ceil(4, b as nat, ws.len());
    }
}

/// Batches that are small stay small when others come behind them that are.
pub proof fn lemma_small_together(a: Seq<Op>, b: Seq<Op>)
    requires
        in_small_batches(a),
        in_small_batches(b),
    ensures
        in_small_batches(a + b),
{
    assert forall|i: int| 0 <= i < (a + b).len() implies (
    #[trigger] (a + b)[i] matches Op::WritePages(ws) ==> 1 <= ws.len() <= 4) by {
        if i < a.len() {
            assert((a + b)[i] == a[i]);
        } else {
            assert((a + b)[i] == b[i - a.len()]);
        }
    }
}

/// A chain is written four pages at a time at most, as many as one record of the log can take.
pub proof fn a_chain_is_written_in_small_batches(
    out: &mut Vec<Action>,
    start: u32,
    bytes: &[u8],
    stride: u32,
    rows_per_page: u32,
    n: u64,
)
    requires
        call_ensures(write_chain_at, (out, start, bytes, stride, rows_per_page, n), ()),
        in_small_batches(ops_of(old(out)@)),
    ensures
        in_small_batches(ops_of(final(out)@)),
{
    let chain = Chain {
        start: start as nat,
        bytes: bytes@,
        per_page: (rows_per_page * stride) as nat,
    };
    lemma_small_batches(chain);
    if n == 0 || rows_per_page == 0 {
        assert(ops_of(final(out)@) =~= ops_of(old(out)@));
    } else {
        lemma_small_together(ops_of(old(out)@), crate::chain::in_batches(chain.writes()));
    }
}

} // verus!
