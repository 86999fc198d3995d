//! What a whole-relation write leaves behind, finished or interrupted.
use vstd::prelude::*;

use crate::bytes::{
    bytes_to_u32s, bytes_to_u64s, u32s_round_trip, u32s_to_bytes, u64s_round_trip,
};
use crate::chain::{
    chain_ops, chains_are_written, image, in_batches, in_order, laid_out_chain_is_held, lemma_ceil,
    run, run_concat, step, write_page, write_pages, Chain, Op, PAGES_PER_BATCH,
};
use crate::codec::{meta_fault, meta_round_trip, meta_words, reads_as, MetaError};
use crate::page::{
    ceil_div, lemma_extent_bounds, row_extent, MetaPageData, Span, GRAPH_VERSION, MIN_DECODE_VERSION,
    PAYLOAD_BYTES,
};
use crate::reads::{
    chain_fault, chain_reads_fetch_what_is_stored, fetched, held_chain_is_stored,
    lemma_ceil_scaled, readable, row_reads, PageRead,
};
use crate::relfile::{
    byte_chain, lemma_chains_in_order, lemma_gap_moves_the_layout,
    lemma_relation_ends_with_its_chains, lemma_row_layout, move_ops, page_copy, with_bytes, Content,
    Standing,
};

verus! {

/// Whether every page has the size of a payload.
pub open spec fn whole_pages(pages: Seq<Seq<u8>>) -> bool {
    forall|b: int| 0 <= b < pages.len() ==> (#[trigger] pages[b]).len() == PAYLOAD_BYTES
}

/// Whether an operation writes into these blocks only and cuts nothing off.
pub open spec fn confined(op: Op, from: nat, until: nat) -> bool {
    match op {
        Op::ExtendTo(_) => true,
        Op::WritePages(ws) => forall|i: int|
            0 <= i < ws.len() ==> from <= (#[trigger] ws[i]).0 < until,
        _ => false,
    }
}

/// Writing a chain writes into its blocks only.
pub proof fn lemma_batches_confined(chain: Chain, from: nat, until: nat)
    requires
        from <= chain.start,
        chain.start + chain.blocks() <= until,
    ensures
        forall|i: int|
            0 <= i < in_batches(chain.writes()).len() ==> confined(
                #[trigger] in_batches(chain.writes())[i],
                from,
                until,
            ),
{
    let ws = chain.writes();
    assert forall|i: int| 0 <= i < in_batches(ws).len() implies confined(
        #[trigger] in_batches(ws)[i],
        from,
        until,
    ) by {
        lemma_ceil(PAGES_PER_BATCH as nat, i as nat, ws.len());
        match in_batches(ws)[i] {
            Op::WritePages(part) => {
                assert forall|k: int| 0 <= k < part.len() implies from <= (#[trigger] part[k]).0
                    < until by {
                    assert(part[k] == ws[PAGES_PER_BATCH * i + k]);
                }
            },
            _ => {},
        }
    }
}

proof fn lemma_chain_ops_confined(chains: Seq<Chain>, from: nat, until: nat)
    requires
        forall|i: int|
            0 <= i < chains.len() ==> from <= (#[trigger] chains[i]).start && chains[i].start
                + chains[i].blocks() <= until,
    ensures
        forall|i: int|
            0 <= i < chain_ops(chains).len() ==> confined(
                #[trigger] chain_ops(chains)[i],
                from,
                until,
            ),
    decreases chains.len(),
{
    if chains.len() > 0 {
        let head = chains.drop_last();
        assert forall|i: int| 0 <= i < head.len() implies from <= (#[trigger] head[i]).start
            && head[i].start + head[i].blocks() <= until by {
            assert(head[i] == chains[i]);
        }
        lemma_chain_ops_confined(head, from, until);
        assert(chains.last() == chains[chains.len() - 1]);
        lemma_batches_confined(chains.last(), from, until);
        let all = chain_ops(chains);
        assert forall|i: int| 0 <= i < all.len() implies confined(
            #[trigger] all[i],
            from,
            until,
        ) by {
            let n = chain_ops(head).len();
            if i < n {
                assert(all[i] == chain_ops(head)[i]);
            } else {
                assert(all[i] == in_batches(chains.last().writes())[i - n]);
            }
        }
    }
}

proof fn lemma_write_pages_shape(pages: Seq<Seq<u8>>, ws: Seq<(nat, Seq<u8>)>, from: nat, until: nat)
    requires
        forall|i: int| 0 <= i < ws.len() ==> from <= (#[trigger] ws[i]).0 < until,
    ensures
        write_pages(pages, ws).len() == pages.len(),
        whole_pages(pages) ==> whole_pages(write_pages(pages, ws)),
        forall|b: int|
            0 <= b < pages.len() && !(from <= b < until) ==> #[trigger] write_pages(pages, ws)[b]
                == pages[b],
    decreases ws.len(),
{
    if ws.len() > 0 {
        let head = ws.drop_last();
        assert forall|i: int| 0 <= i < head.len() implies from <= (#[trigger] head[i]).0 < until by {
            assert(head[i] == ws[i]);
        }
        lemma_write_pages_shape(pages, head, from, until);
        assert(ws.last() == ws[ws.len() - 1]);
        assert forall|b: int| 0 <= b < pages.len() && !(from <= b < until) implies #[trigger]
            write_pages(pages, ws)[b] == pages[b] by {
            assert(write_pages(pages, head)[b] == pages[b]);
        }
    }
}

/// Operations that are confined to some blocks leave every other block as it is; a block that they
/// add elsewhere is blank.
pub proof fn confined_ops_keep_the_rest(
    pages: Seq<Seq<u8>>,
    ops: Seq<Op>,
    from: nat,
    until: nat,
)
    requires
        forall|i: int| 0 <= i < ops.len() ==> confined(#[trigger] ops[i], from, until),
    ensures
        run(pages, ops).len() >= pages.len(),
        forall|b: int|
            0 <= b < run(pages, ops).len() && !(from <= b < until) ==> #[trigger] run(pages, ops)[b]
                == if b < pages.len() {
                pages[b]
            } else {
                image(Seq::empty())
            },
        whole_pages(pages) ==> whole_pages(run(pages, ops)),
    decreases ops.len(),
{
    if ops.len() > 0 {
        let head = ops.drop_last();
        assert forall|i: int| 0 <= i < head.len() implies confined(
            #[trigger] head[i],
            from,
            until,
        ) by {
            assert(head[i] == ops[i]);
        }
        confined_ops_keep_the_rest(pages, head, from, until);
        let mid = run(pages, head);
        assert(ops.last() == ops[ops.len() - 1]);
        match ops.last() {
            Op::WritePages(ws) => {
                lemma_write_pages_shape(mid, ws, from, until);
            },
            _ => {},
        }
        assert forall|b: int|
            0 <= b < run(pages, ops).len() && !(from <= b < until) implies #[trigger] run(
            pages,
            ops,
        )[b] == if b < pages.len() {
            pages[b]
        } else {
            image(Seq::empty())
        } by {
            if b < mid.len() {
                assert(mid[b] == if b < pages.len() {
                    pages[b]
                } else {
                    image(Seq::empty())
                });
            }
        }
    }
}

/// Nothing before the meta page is written outside the blocks of the new layout.
pub proof fn lemma_ops_before_meta_confined(c: Content, existing: u32)
    requires
        c.consistent(),
        c.countable(),
        c.blocks() <= u32::MAX,
    ensures
        forall|i: int|
            0 <= i < c.ops_before_meta(existing).len() ==> confined(
                #[trigger] c.ops_before_meta(existing)[i],
                c.gap + 1,
                c.blocks(),
            ),
{
    lemma_chains_in_order(c);
    lemma_chain_ops_confined(c.chains(), c.gap + 1, c.blocks());
    let all = c.ops_before_meta(existing);
    let n = all.len() - chain_ops(c.chains()).len();
    assert forall|i: int| 0 <= i < all.len() implies confined(
        #[trigger] all[i],
        c.gap + 1,
        c.blocks(),
    ) by {
        if i >= n {
            assert(all[i] == chain_ops(c.chains())[i - n]);
        }
    }
}

/// A blank page is no meta page.
pub proof fn blank_page_is_no_meta_page()
    ensures
        meta_fault(image(Seq::empty())) == Some(MetaError::BadMagic),
{
    let b = image(Seq::empty());
    let w = bytes_to_u32s(b);
    let zeros = Seq::new(2042, |i: int| 0u32);
    u32s_round_trip(zeros);
    assert(u32s_to_bytes(zeros) =~= b) by {
        assert forall|i: int| 0 <= i < 8168 implies u32s_to_bytes(zeros)[i] == 0 by {
            lemma_zero_bytes((i % 4) as nat);
        }
    }
    assert(w[0] == 0);
}

proof fn lemma_zero_bytes(j: nat)
    ensures
        crate::bytes::le_byte(0, j) == 0,
    decreases j,
{
    if j > 0 {
        lemma_zero_bytes((j - 1) as nat);
    }
}

/// Interrupting a write anywhere before the meta page is written leaves block 0 as it was: a reader
/// still finds the meta page of before. In a relation that had no blocks it finds none.
pub proof fn interrupted_write_keeps_the_old_meta_page(c: Content, pages: Seq<Seq<u8>>, done: nat)
    requires
        c.consistent(),
        c.countable(),
        c.blocks() <= u32::MAX,
        pages.len() <= u32::MAX,
        done <= c.ops_before_meta(pages.len() as u32).len(),
    ensures
        ({
            let torn = run(pages, c.ops(pages.len() as u32).take(done as int));
            &&& torn.len() >= pages.len()
            &&& pages.len() > 0 ==> torn[0] == pages[0]
            &&& pages.len() == 0 && torn.len() > 0 ==> meta_fault(torn[0]) == Some(
                MetaError::BadMagic,
            )
        }),
{
    lemma_interrupted(c, pages, done);
    blank_page_is_no_meta_page();
}

proof fn lemma_interrupted(c: Content, pages: Seq<Seq<u8>>, done: nat)
    requires
        c.consistent(),
        c.countable(),
        c.blocks() <= u32::MAX,
        pages.len() <= u32::MAX,
        done <= c.ops_before_meta(pages.len() as u32).len(),
    ensures
        ({
            let torn = run(pages, c.ops(pages.len() as u32).take(done as int));
            &&& torn.len() >= pages.len()
            &&& forall|b: int|
                0 <= b < torn.len() && !(c.gap + 1 <= b < c.blocks()) ==> #[trigger] torn[b]
                    == if b < pages.len() {
                    pages[b]
                } else {
                    image(Seq::empty())
                }
        }),
{
    let existing = pages.len() as u32;
    let before = c.ops_before_meta(existing);
    lemma_ops_before_meta_confined(c, existing);
    let part = c.ops(existing).take(done as int);
    assert(part =~= before.take(done as int));
    assert forall|i: int| 0 <= i < part.len() implies confined(
        #[trigger] part[i],
        c.gap + 1,
        c.blocks(),
    ) by {
        assert(part[i] == before[i]);
    }
    confined_ops_keep_the_rest(pages, part, c.gap + 1, c.blocks());
}

/// Whether `after` holds every block that a reader of this index may read as `before` holds it.
pub open spec fn index_untouched(m: MetaPageData, before: Seq<Seq<u8>>, after: Seq<Seq<u8>>) -> bool {
    &&& after.len() >= before.len() > 0
    &&& after[0] == before[0]
    &&& forall|i: int, b: int|
        0 <= i < m.extents().len() && 0 <= b < before.len() && (#[trigger] m.extents()[i]).0 <= b
            < m.extents()[i].0 + m.extents()[i].1 ==> #[trigger] after[b] == before[b]
}

/// Blocks that lie clear of a layout belong to the index that was there, as far as it goes.
pub proof fn lemma_clear_of_the_old(old: MetaPageData, blocks: u32, need: nat, i: int, b: int)
    requires
        0 <= i < old.extents().len(),
        old.extents()[i].0 <= b < old.extents()[i].0 + old.extents()[i].1,
        b < blocks,
        (Standing { blocks, meta: Some(old) }).spares(need),
    ensures
        ({
            let gap = (Standing { blocks, meta: Some(old) }).gap(need);
            !(gap + 1 <= b < gap + need)
        }),
{
    lemma_extent_bounds(old.extents(), i);
}

proof fn lemma_fetched_alike(reads: Seq<PageRead>, p: Seq<Seq<u8>>, q: Seq<Seq<u8>>)
    requires
        forall|i: int|
            0 <= i < reads.len() ==> p[(#[trigger] reads[i]).blkno as int]
                == q[reads[i].blkno as int],
    ensures
        fetched(reads, p) == fetched(reads, q),
    decreases reads.len(),
{
    if reads.len() > 0 {
        let head = reads.drop_last();
        assert forall|i: int| 0 <= i < head.len() implies p[(#[trigger] head[i]).blkno as int]
            == q[head[i].blkno as int] by {
            assert(head[i] == reads[i]);
        }
        lemma_fetched_alike(head, p, q);
        assert(reads.last() == reads[reads.len() - 1]);
    }
}

/// Relations that agree on the blocks of a chain give the same rows of it.
pub proof fn lemma_row_reads_alike(
    span: Span,
    stride: u32,
    rows_per_page: u32,
    n: u64,
    p: Seq<Seq<u8>>,
    q: Seq<Seq<u8>>,
)
    requires
        p.len() <= u32::MAX,
        chain_fault(span.first, stride, rows_per_page, n, p.len() as u32) is None,
        forall|b: int|
            row_extent(span, n, rows_per_page).0 <= b < row_extent(span, n, rows_per_page).0
                + row_extent(span, n, rows_per_page).1 && 0 <= b < p.len() ==> #[trigger] q[b]
                == p[b],
    ensures
        fetched(row_reads(span.first, stride, rows_per_page, n), q) == fetched(
            row_reads(span.first, stride, rows_per_page, n),
            p,
        ),
{
    let reads = row_reads(span.first, stride, rows_per_page, n);
    if n > 0 && stride > 0 {
        lemma_ceil_scaled(n as nat, rows_per_page as nat, stride as nat);
        assert(reads.len() == ceil_div(n as nat, rows_per_page as nat));
        assert forall|i: int| 0 <= i < reads.len() implies q[(#[trigger] reads[i]).blkno as int]
            == p[reads[i].blkno as int] by {
            let b = span.first + i;
            assert(reads[i].blkno == b);
            assert(q[b] == p[b]);
        }
        lemma_fetched_alike(reads, q, p);
    } else {
        lemma_fetched_alike(reads, q, p);
    }
}

/// Whether the rows of an index can be read from a relation of this many blocks.
pub open spec fn rows_readable(m: MetaPageData, blocks: u32) -> bool {
    &&& chain_fault(m.codes.first, m.stride_bytes, m.rows_per_codes_page, m.n_vectors, blocks) is
        None
    &&& chain_fault(m.scales.first, 4, m.rows_per_scales_page, m.n_vectors, blocks) is None
    &&& chain_fault(m.ids.first, 8, m.rows_per_ids_page, m.n_vectors, blocks) is None
}

/// Where a relation holds every block of an index as before, its rows read as before.
pub proof fn untouched_index_reads_the_same(
    m: MetaPageData,
    before: Seq<Seq<u8>>,
    after: Seq<Seq<u8>>,
)
    requires
        before.len() <= u32::MAX,
        index_untouched(m, before, after),
        rows_readable(m, before.len() as u32),
    ensures
        rows_read(m, after) == rows_read(m, before),
{
    let es = m.extents();
    assert(es[0] == row_extent(m.codes, m.n_vectors, m.rows_per_codes_page));
    assert(es[1] == row_extent(m.scales, m.n_vectors, m.rows_per_scales_page));
    assert(es[2] == row_extent(m.ids, m.n_vectors, m.rows_per_ids_page));
    lemma_row_reads_alike(
        m.codes,
        m.stride_bytes,
        m.rows_per_codes_page,
        m.n_vectors,
        before,
        after,
    );
    lemma_row_reads_alike(m.scales, 4, m.rows_per_scales_page, m.n_vectors, before, after);
    lemma_row_reads_alike(m.ids, 8, m.rows_per_ids_page, m.n_vectors, before, after);
}

/// Interrupting a write anywhere before the meta page is written loses nothing of the index that was
/// there: its meta page and every block of its chains are as they were, and its rows read as before.
/// This is so wherever there are block numbers for both.
pub proof fn interrupted_write_keeps_the_old_index(
    c: Content,
    old: MetaPageData,
    pages: Seq<Seq<u8>>,
    done: nat,
)
    requires
        c.consistent(),
        c.countable(),
        c.blocks() <= u32::MAX,
        0 < pages.len() <= u32::MAX,
        (Standing { blocks: pages.len() as u32, meta: Some(old) }).spares(c.tight_blocks()),
        c.gap == (Standing { blocks: pages.len() as u32, meta: Some(old) }).gap(c.tight_blocks()),
        done <= c.ops_before_meta(pages.len() as u32).len(),
    ensures
        ({
            let torn = run(pages, c.ops(pages.len() as u32).take(done as int));
            &&& index_untouched(old, pages, torn)
            &&& rows_readable(old, pages.len() as u32) ==> rows_read(old, torn) == rows_read(
                old,
                pages,
            )
        }),
{
    let torn = run(pages, c.ops(pages.len() as u32).take(done as int));
    lemma_interrupted(c, pages, done);
    assert forall|i: int, b: int|
        0 <= i < old.extents().len() && 0 <= b < pages.len() && (#[trigger] old.extents()[i]).0 <= b
            < old.extents()[i].0 + old.extents()[i].1 implies #[trigger] torn[b] == pages[b] by {
        lemma_clear_of_the_old(old, pages.len() as u32, c.tight_blocks(), i, b);
    }
    if rows_readable(old, pages.len() as u32) {
        untouched_index_reads_the_same(old, pages, torn);
    }
}

/// Every chain of the index is filled before the meta page is written.
pub proof fn lemma_chains_filled(c: Content, pages: Seq<Seq<u8>>)
    requires
        c.consistent(),
        c.countable(),
        c.blocks() <= u32::MAX,
        pages.len() <= u32::MAX,
        whole_pages(pages),
    ensures
        ({
            let filled = run(pages, c.ops_before_meta(pages.len() as u32));
            &&& filled.len() == if pages.len() < c.blocks() {
                c.blocks()
            } else {
                pages.len()
            }
            &&& whole_pages(filled)
            &&& forall|i: int|
                0 <= i < c.chains().len() ==> (#[trigger] c.chains()[i]).laid_out_in(filled)
        }),
{
    let existing = pages.len() as u32;
    let total = c.blocks();
    lemma_chains_in_order(c);
    let chains = c.chains();
    let extend = if existing < total {
        seq![Op::ExtendTo(total)]
    } else {
        Seq::empty()
    };
    let start = run(pages, extend);
    assert(start.len() == if pages.len() < total {
        total
    } else {
        pages.len()
    }) by {
        if existing < total {
            assert(extend.drop_last() =~= Seq::<Op>::empty());
            reveal_with_fuel(run, 2);
        }
    }
    run_concat(pages, extend, chain_ops(chains));
    assert(in_order(chains, start.len())) by {
        assert forall|i: int| 0 <= i < chains.len() implies {
            &&& 1 <= (#[trigger] chains[i]).start
            &&& 1 <= chains[i].per_page <= PAYLOAD_BYTES
            &&& chains[i].start + chains[i].blocks() <= start.len()
        } by {}
    }
    chains_are_written(start, chains);
    lemma_ops_before_meta_confined(c, existing);
    confined_ops_keep_the_rest(pages, c.ops_before_meta(existing), c.gap + 1, total);
}

/// A page that was filled with a meta page reads as that meta page and as no other.
pub proof fn written_meta_page_reads_back(m: MetaPageData)
    requires
        MIN_DECODE_VERSION <= m.version <= GRAPH_VERSION,
    ensures
        reads_as(image(u32s_to_bytes(meta_words(m))), m),
        forall|other: MetaPageData|
            reads_as(image(u32s_to_bytes(meta_words(m))), other) ==> other == m,
{
    let b = u32s_to_bytes(meta_words(m));
    let tail = image(b).skip(b.len() as int);
    assert(b.len() == 4 * 73);
    assert(image(b) =~= b + tail);
    meta_round_trip(m, tail);
}

proof fn lemma_page_copied(pages: Seq<Seq<u8>>, from: nat, to: nat)
    requires
        whole_pages(pages),
        from < pages.len() <= u32::MAX,
        to < pages.len(),
    ensures
        step(pages, Op::CopySlot(page_copy(from, to))) == pages.update(
            to as int,
            pages[from as int],
        ),
{
    let after = step(pages, Op::CopySlot(page_copy(from, to)));
    assert(pages[from as int].len() == PAYLOAD_BYTES && pages[to as int].len() == PAYLOAD_BYTES);
    assert(after[to as int] =~= pages[from as int]);
    assert(after =~= pages.update(to as int, pages[from as int]));
}

/// Moving blocks to the front leaves them there, and changes no other block.
pub proof fn moved_blocks_are_in_front(pages: Seq<Seq<u8>>, gap: nat, n: nat)
    requires
        whole_pages(pages),
        gap >= 1,
        gap + 1 + n <= pages.len() <= u32::MAX,
    ensures
        ({
            let after = run(pages, move_ops(gap, n));
            &&& after.len() == pages.len()
            &&& whole_pages(after)
            &&& forall|b: int| 1 <= b <= n ==> #[trigger] after[b] == pages[gap + b]
            &&& forall|b: int| n < b < pages.len() ==> #[trigger] after[b] == pages[b]
            &&& after[0] == pages[0]
        }),
    decreases n,
{
    let ops = move_ops(gap, n);
    if n > 0 {
        let k = (n - 1) as nat;
        assert(ops.drop_last() =~= move_ops(gap, k));
        moved_blocks_are_in_front(pages, gap, k);
        let mid = run(pages, move_ops(gap, k));
        assert(ops.last() == Op::CopySlot(page_copy(gap + n, n)));
        lemma_page_copied(mid, gap + n, n);
        let after = run(pages, ops);
        assert(after == mid.update(n as int, mid[(gap + n) as int]));
        assert(mid[gap + n as int] == pages[gap + n as int]);
    }
}

proof fn lemma_shifted_alike(
    a: Seq<Chain>,
    b: Seq<Chain>,
    span: Span,
    other: Span,
    bytes: Seq<u8>,
    gap: nat,
)
    requires
        shifted_chains(a, b, gap),
        bytes.len() > 0 ==> span.first == other.first + gap,
    ensures
        shifted_chains(with_bytes(a, span, bytes), with_bytes(b, other, bytes), gap),
{
    let x = with_bytes(a, span, bytes);
    let y = with_bytes(b, other, bytes);
    assert forall|i: int| 0 <= i < x.len() implies {
        &&& (#[trigger] x[i]).start == y[i].start + gap
        &&& x[i].bytes == y[i].bytes
        &&& x[i].per_page == y[i].per_page
    } by {
        if i < a.len() {
            assert(x[i] == a[i] && y[i] == b[i]);
        }
    }
}

/// Whether the chains of `a` are those of `b`, `gap` blocks further on.
pub open spec fn shifted_chains(a: Seq<Chain>, b: Seq<Chain>, gap: nat) -> bool {
    &&& a.len() == b.len()
    &&& forall|i: int|
        0 <= i < a.len() ==> {
            &&& (#[trigger] a[i]).start == b[i].start + gap
            &&& a[i].bytes == b[i].bytes
            &&& a[i].per_page == b[i].per_page
        }
}

/// The chains behind the gap are those in front, further on.
pub proof fn lemma_front_chains(c: Content)
    requires
        c.consistent(),
        c.countable(),
        c.blocks() <= u32::MAX,
    ensures
        c.in_front().consistent(),
        c.in_front().countable(),
        c.in_front().blocks() == c.tight_blocks(),
        c.in_front().tight_blocks() == c.tight_blocks(),
        shifted_chains(c.chains(), c.in_front().chains(), c.gap),
{
    let f = c.in_front();
    lemma_gap_moves_the_layout(c, 0);
    if c.n_vectors > 0 {
        lemma_row_layout(c);
        lemma_row_layout(f);
        let m = c.meta();
        let o = f.meta();
        let a = c.row_chains();
        let b = f.row_chains();
        assert(m.codes.count == o.codes.count && m.scales.count == o.scales.count && m.ids.count
            == o.ids.count);
        assert(m.rows_per_codes_page == o.rows_per_codes_page && m.stride_bytes == o.stride_bytes);
        assert(shifted_chains(a, b, c.gap));
        lemma_shifted_alike(a, b, m.rotation, o.rotation, c.tqplus, c.gap);
        let a = with_bytes(a, m.rotation, c.tqplus);
        let b = with_bytes(b, o.rotation, c.tqplus);
        lemma_shifted_alike(a, b, m.coarse, o.coarse, c.coarse_bytes(), c.gap);
        let a = with_bytes(a, m.coarse, c.coarse_bytes());
        let b = with_bytes(b, o.coarse, c.coarse_bytes());
        lemma_shifted_alike(a, b, m.cell_dir, o.cell_dir, c.directory_bytes(), c.gap);
        let a = with_bytes(a, m.cell_dir, c.directory_bytes());
        let b = with_bytes(b, o.cell_dir, c.directory_bytes());
        lemma_shifted_alike(a, b, m.graph, o.graph, c.adjacency_bytes(), c.gap);
    }
}

/// Where `c` is written behind its gap, moving its blocks to the front lays its chains out there.
pub proof fn lemma_front_laid_out(c: Content, filled: Seq<Seq<u8>>, after: Seq<Seq<u8>>)
    requires
        c.consistent(),
        c.countable(),
        c.blocks() <= u32::MAX,
        c.blocks() <= filled.len(),
        c.tight_blocks() <= after.len(),
        forall|b: int| 1 <= b < c.tight_blocks() ==> #[trigger] after[b] == filled[c.gap + b],
        forall|i: int| 0 <= i < c.chains().len() ==> (#[trigger] c.chains()[i]).laid_out_in(filled),
    ensures
        forall|i: int|
            0 <= i < c.in_front().chains().len() ==> (
            #[trigger] c.in_front().chains()[i]).laid_out_in(after) && c.in_front().chains()[i].held_by(
                after,
            ),
{
    let f = c.in_front();
    lemma_front_chains(c);
    lemma_chains_in_order(f);
    let chains = c.chains();
    let front = f.chains();
    assert forall|i: int| 0 <= i < front.len() implies (#[trigger] front[i]).laid_out_in(after)
        && front[i].held_by(after) by {
        assert(chains[i].start == front[i].start + c.gap);
        assert(chains[i].laid_out_in(filled));
        assert(front[i].blocks() == chains[i].blocks());
        assert forall|p: int| 0 <= p < front[i].blocks() implies after[front[i].start + p]
            == image((#[trigger] front[i].writes()[p]).1) by {
            assert(front[i].writes()[p].1 == chains[i].writes()[p].1);
            assert(filled[chains[i].start + p] == image(chains[i].writes()[p].1));
            assert(after[front[i].start + p] == filled[c.gap + (front[i].start + p)]);
        }
        laid_out_chain_is_held(front[i], after);
    }
}

proof fn lemma_one_meta(pages: Seq<Seq<u8>>, bytes: Seq<u8>)
    requires
        0 < pages.len(),
        whole_pages(pages),
    ensures
        run(pages, seq![Op::WriteMeta(bytes)]) == pages.update(0, image(bytes)),
        whole_pages(pages.update(0, image(bytes))),
{
    let ops = seq![Op::WriteMeta(bytes)];
    assert(ops.drop_last() =~= Seq::<Op>::empty());
    assert(run(pages, ops) == step(run(pages, ops.drop_last()), ops.last()));
    assert(write_page(pages, (0, bytes)) =~= pages.update(0, image(bytes)));
    let p = pages.update(0, image(bytes));
    assert forall|b: int| 0 <= b < p.len() implies (#[trigger] p[b]).len() == PAYLOAD_BYTES by {
        assert(pages[b].len() == PAYLOAD_BYTES);
    }
}

proof fn lemma_cut_in_place(filled: Seq<Seq<u8>>, need: nat, cut: Seq<Op>, bytes: Seq<u8>)
    requires
        1 <= need <= filled.len(),
        cut == seq![Op::Truncate(need)] || (cut == Seq::<Op>::empty() && need == filled.len()),
        whole_pages(filled),
    ensures
        ({
            let after = run(filled, seq![Op::WriteMeta(bytes)] + cut);
            &&& after.len() == need
            &&& whole_pages(after)
            &&& after[0] == image(bytes)
            &&& forall|b: int| 1 <= b < need ==> #[trigger] after[b] == filled[b]
        }),
{
    lemma_one_meta(filled, bytes);
    let marked = filled.update(0, image(bytes));
    run_concat(filled, seq![Op::WriteMeta(bytes)], cut);
    if cut.len() > 0 {
        assert(cut.drop_last() =~= Seq::<Op>::empty());
        assert(run(marked, cut) == step(run(marked, cut.drop_last()), cut.last()));
        assert(run(marked, cut) == marked.take(need as int));
    }
    assert(run(marked, cut) =~= marked.take(need as int));
}

proof fn lemma_moved_and_cut(filled: Seq<Seq<u8>>, gap: nat, n: nat, a: Seq<u8>, b: Seq<u8>)
    requires
        gap >= 1,
        gap + 1 + n <= filled.len() <= u32::MAX,
        whole_pages(filled),
    ensures
        ({
            let after = run(
                filled,
                seq![Op::WriteMeta(a)] + move_ops(gap, n) + seq![
                    Op::WriteMeta(b),
                    Op::Truncate(n + 1),
                ],
            );
            &&& after.len() == n + 1
            &&& whole_pages(after)
            &&& after[0] == image(b)
            &&& forall|k: int| 1 <= k < n + 1 ==> #[trigger] after[k] == filled[gap + k]
        }),
{
    let first = seq![Op::WriteMeta(a)];
    let moving = move_ops(gap, n);
    let second = seq![Op::WriteMeta(b)];
    let cut = seq![Op::Truncate(n + 1)];
    let last = seq![Op::WriteMeta(b), Op::Truncate(n + 1)];
    lemma_one_meta(filled, a);
    let marked = filled.update(0, image(a));
    run_concat(filled, first, moving);
    run_concat(filled, first + moving, last);
    moved_blocks_are_in_front(marked, gap, n);
    let moved = run(marked, moving);
    lemma_cut_in_place(moved, n + 1, cut, b);
    assert(last =~= second + cut);
    let after = run(moved, last);
    assert forall|k: int| 1 <= k < n + 1 implies #[trigger] after[k] == filled[gap + k] by {
        assert(after[k] == moved[k]);
        assert(moved[k] == marked[gap + k]);
    }
}

/// What follows when every chain is written: the blocks of the chains are in front, the meta page says
/// so, and nothing is left behind them.
pub proof fn lemma_settled(c: Content, filled: Seq<Seq<u8>>, existing: u32)
    requires
        c.consistent(),
        c.countable(),
        c.blocks() <= u32::MAX,
        filled.len() <= u32::MAX,
        filled.len() == (if existing < c.blocks() {
            c.blocks()
        } else {
            existing as nat
        }),
        whole_pages(filled),
    ensures
        ({
            let after = run(filled, c.settling_ops(existing));
            &&& after.len() == c.tight_blocks()
            &&& whole_pages(after)
            &&& after[0] == image(u32s_to_bytes(meta_words(c.in_front().meta())))
            &&& forall|b: int| 1 <= b < after.len() ==> #[trigger] after[b] == filled[c.gap + b]
        }),
{
    lemma_gap_moves_the_layout(c, 0);
    let bytes = u32s_to_bytes(meta_words(c.meta()));
    if c.gap == 0 {
        assert(c.in_front() == c);
        let cut = if existing > c.blocks() {
            seq![Op::Truncate(c.blocks())]
        } else {
            Seq::empty()
        };
        lemma_cut_in_place(filled, c.blocks(), cut, bytes);
    } else {
        let n = (c.tight_blocks() - 1) as nat;
        lemma_moved_and_cut(
            filled,
            c.gap,
            n,
            bytes,
            u32s_to_bytes(meta_words(c.in_front().meta())),
        );
    }
}

/// A finished write leaves the chains packed from block 1 on and no block behind them, a meta page that
/// reads as the new one and as no other, and every chain filled with its bytes.
pub proof fn finished_write_is_complete(c: Content, pages: Seq<Seq<u8>>)
    requires
        c.consistent(),
        c.countable(),
        c.blocks() <= u32::MAX,
        pages.len() <= u32::MAX,
        whole_pages(pages),
    ensures
        ({
            let after = run(pages, c.ops(pages.len() as u32));
            let new = c.in_front();
            &&& after.len() == new.blocks()
            &&& after.len() == new.meta().chain_end()
            &&& after.len() == new.meta().block_count()
            &&& whole_pages(after)
            &&& after[0] == image(u32s_to_bytes(meta_words(new.meta())))
            &&& reads_as(after[0], new.meta())
            &&& forall|m: MetaPageData| reads_as(after[0], m) ==> m == new.meta()
            &&& forall|i: int|
                0 <= i < new.chains().len() ==> (#[trigger] new.chains()[i]).laid_out_in(after)
                    && new.chains()[i].held_by(after)
        }),
{
    let existing = pages.len() as u32;
    lemma_front_chains(c);
    lemma_chains_filled(c, pages);
    let filled = run(pages, c.ops_before_meta(existing));
    run_concat(pages, c.ops_before_meta(existing), c.settling_ops(existing));
    lemma_settled(c, filled, existing);
    lemma_front_laid_out(c, filled, run(filled, c.settling_ops(existing)));
    lemma_relation_ends_with_its_chains(c.in_front());
    lemma_row_layout(c.in_front());
    written_meta_page_reads_back(c.in_front().meta());
}

proof fn lemma_chain_reads_back(
    chain: Chain,
    pages: Seq<Seq<u8>>,
    stride: u32,
    rows_per_page: u32,
    n: u64,
)
    requires
        chain.held_by(pages),
        stride > 0,
        rows_per_page > 0,
        chain.per_page == rows_per_page * stride,
        chain.per_page <= PAYLOAD_BYTES,
        chain.bytes.len() == n * stride,
        chain.start + chain.blocks() <= pages.len() <= u32::MAX,
        whole_pages(pages),
    ensures
        chain_fault(chain.start as u32, stride, rows_per_page, n, pages.len() as u32) is None,
        readable(row_reads(chain.start as u32, stride, rows_per_page, n), pages),
        fetched(row_reads(chain.start as u32, stride, rows_per_page, n), pages) == chain.bytes,
{
    lemma_ceil_scaled(n as nat, rows_per_page as nat, stride as nat);
    if n == 0 {
        assert(n * stride == 0) by (nonlinear_arith)
            requires
                n == 0,
        ;
        assert(chain.bytes =~= Seq::empty());
    } else {
        chain_reads_fetch_what_is_stored(pages, chain.start, chain.per_page, chain.bytes.len());
        held_chain_is_stored(chain, pages);
    }
}

/// What reading the rows of an index from a relation gives: codes, scales and ids.
pub open spec fn rows_read(m: MetaPageData, pages: Seq<Seq<u8>>) -> (Seq<u8>, Seq<u32>, Seq<u64>) {
    (
        fetched(
            row_reads(m.codes.first, m.stride_bytes, m.rows_per_codes_page, m.n_vectors),
            pages,
        ),
        bytes_to_u32s(
            fetched(row_reads(m.scales.first, 4, m.rows_per_scales_page, m.n_vectors), pages),
        ),
        bytes_to_u64s(fetched(row_reads(m.ids.first, 8, m.rows_per_ids_page, m.n_vectors), pages)),
    )
}

/// What reading a chain of plain bytes from a relation gives.
pub open spec fn bytes_read(span: Span, n: nat, pages: Seq<Seq<u8>>) -> Seq<u8> {
    fetched(row_reads(span.first, 1, PAYLOAD_BYTES as u32, n as u64), pages)
}

proof fn lemma_bytes_read_back(
    chains: Seq<Chain>,
    k: int,
    span: Span,
    bytes: Seq<u8>,
    pages: Seq<Seq<u8>>,
)
    requires
        bytes.len() > 0,
        bytes.len() <= u64::MAX,
        0 <= k < chains.len(),
        chains[k] == byte_chain(span, bytes),
        chains[k].held_by(pages),
        chains[k].start + chains[k].blocks() <= pages.len() <= u32::MAX,
        whole_pages(pages),
    ensures
        chain_fault(span.first, 1, PAYLOAD_BYTES as u32, bytes.len() as u64, pages.len() as u32) is
            None,
        bytes_read(span, bytes.len(), pages) == bytes,
{
    lemma_chain_reads_back(chains[k], pages, 1, PAYLOAD_BYTES as u32, bytes.len() as u64);
}

proof fn lemma_with_bytes_place(chains: Seq<Chain>, span: Span, bytes: Seq<u8>)
    ensures
        chains.len() <= with_bytes(chains, span, bytes).len(),
        forall|i: int|
            0 <= i < chains.len() ==> #[trigger] with_bytes(chains, span, bytes)[i] == chains[i],
        bytes.len() > 0 ==> with_bytes(chains, span, bytes).len() == chains.len() + 1
            && with_bytes(chains, span, bytes)[chains.len() as int] == byte_chain(span, bytes),
{
}

proof fn lemma_row_chains_held(c: Content, pages: Seq<Seq<u8>>)
    requires
        c.consistent(),
        c.countable(),
        c.n_vectors > 0,
        c.blocks() <= u32::MAX,
        pages.len() >= c.blocks(),
        forall|i: int| 0 <= i < c.chains().len() ==> (#[trigger] c.chains()[i]).held_by(pages),
    ensures
        forall|i: int|
            0 <= i < 3 ==> {
                &&& (#[trigger] c.row_chains()[i]).held_by(pages)
                &&& c.row_chains()[i].start + c.row_chains()[i].blocks() <= pages.len()
            },
{
    let m = c.meta();
    lemma_chains_in_order(c);
    let c0 = c.row_chains();
    let c1 = with_bytes(c0, m.rotation, c.tqplus);
    let c2 = with_bytes(c1, m.coarse, c.coarse_bytes());
    let c3 = with_bytes(c2, m.cell_dir, c.directory_bytes());
    let all = c.chains();
    lemma_with_bytes_place(c0, m.rotation, c.tqplus);
    lemma_with_bytes_place(c1, m.coarse, c.coarse_bytes());
    lemma_with_bytes_place(c2, m.cell_dir, c.directory_bytes());
    lemma_with_bytes_place(c3, m.graph, c.adjacency_bytes());
    assert forall|i: int| 0 <= i < 3 implies {
        &&& (#[trigger] c.row_chains()[i]).held_by(pages)
        &&& c.row_chains()[i].start + c.row_chains()[i].blocks() <= pages.len()
    } by {
        assert(c0[i] == c1[i] && c1[i] == c2[i] && c2[i] == c3[i] && c3[i] == all[i]);
    }
}

proof fn lemma_held_rows_read(c: Content, pages: Seq<Seq<u8>>)
    requires
        c.consistent(),
        c.countable(),
        c.blocks() <= pages.len() <= u32::MAX,
        whole_pages(pages),
        forall|i: int| 0 <= i < c.chains().len() ==> (#[trigger] c.chains()[i]).held_by(pages),
    ensures
        rows_readable(c.meta(), pages.len() as u32),
        rows_read(c.meta(), pages) == (c.codes, c.scales, c.ids),
{
    let m = c.meta();
    lemma_row_layout(c);
    lemma_chains_in_order(c);
    u32s_round_trip(c.scales);
    u64s_round_trip(c.ids);
    let n = c.n_vectors;
    if n == 0 {
        assert(c.codes =~= Seq::empty());
        assert(c.scales =~= Seq::empty());
        assert(c.ids =~= Seq::empty());
        assert(bytes_to_u32s(Seq::empty()) =~= Seq::<u32>::empty());
        assert(bytes_to_u64s(Seq::empty()) =~= Seq::<u64>::empty());
    } else {
        lemma_row_chains_held(c, pages);
        let rows = c.row_chains();
        lemma_chain_reads_back(rows[0], pages, m.stride_bytes, m.rows_per_codes_page, n);
        lemma_chain_reads_back(rows[1], pages, 4, 2042, n);
        lemma_chain_reads_back(rows[2], pages, 8, 1021, n);
    }
}

/// Reading the rows after a finished write gives back exactly the rows that were written, and none
/// of the reads is refused.
pub proof fn written_rows_read_back(c: Content, pages: Seq<Seq<u8>>)
    requires
        c.consistent(),
        c.countable(),
        c.blocks() <= u32::MAX,
        pages.len() <= u32::MAX,
        whole_pages(pages),
    ensures
        ({
            let after = run(pages, c.ops(pages.len() as u32));
            let m = c.in_front().meta();
            &&& rows_readable(m, after.len() as u32)
            &&& rows_read(m, after) == (c.codes, c.scales, c.ids)
        }),
{
    finished_write_is_complete(c, pages);
    lemma_front_chains(c);
    lemma_held_rows_read(c.in_front(), run(pages, c.ops(pages.len() as u32)));
}

/// Whether a reader finds the new index: a meta page for the place where its chains are now, and exactly
/// its rows.
pub open spec fn new_index_stands(c: Content, pages: Seq<Seq<u8>>) -> bool {
    ||| reads_as(pages[0], c.meta()) && rows_read(c.meta(), pages) == (c.codes, c.scales, c.ids)
    ||| reads_as(pages[0], c.in_front().meta()) && rows_read(c.in_front().meta(), pages) == (
        c.codes,
        c.scales,
        c.ids,
    )
}

proof fn lemma_stands_where_it_is(c: Content, filled: Seq<Seq<u8>>, moment: Seq<Seq<u8>>)
    requires
        c.consistent(),
        c.countable(),
        c.blocks() <= filled.len(),
        filled.len() == moment.len() <= u32::MAX,
        whole_pages(moment),
        moment[0] == image(u32s_to_bytes(meta_words(c.meta()))),
        forall|b: int| c.gap + 1 <= b < c.blocks() ==> #[trigger] moment[b] == filled[b],
        forall|i: int| 0 <= i < c.chains().len() ==> (#[trigger] c.chains()[i]).laid_out_in(filled),
    ensures
        new_index_stands(c, moment),
{
    let chains = c.chains();
    lemma_chains_in_order(c);
    written_meta_page_reads_back(c.meta());
    assert forall|i: int| 0 <= i < chains.len() implies (#[trigger] chains[i]).held_by(moment) by {
        assert(chains[i].laid_out_in(filled));
        assert forall|p: int| 0 <= p < chains[i].blocks() implies moment[chains[i].start + p]
            == image((#[trigger] chains[i].writes()[p]).1) by {
            assert(filled[chains[i].start + p] == image(chains[i].writes()[p].1));
        }
        laid_out_chain_is_held(chains[i], moment);
    }
    lemma_held_rows_read(c, moment);
}

proof fn lemma_stands_in_front(c: Content, filled: Seq<Seq<u8>>, moment: Seq<Seq<u8>>)
    requires
        c.consistent(),
        c.countable(),
        c.blocks() <= u32::MAX,
        c.blocks() <= filled.len(),
        c.tight_blocks() <= moment.len() <= u32::MAX,
        whole_pages(moment),
        moment[0] == image(u32s_to_bytes(meta_words(c.in_front().meta()))),
        forall|b: int| 1 <= b < c.tight_blocks() ==> #[trigger] moment[b] == filled[c.gap + b],
        forall|i: int| 0 <= i < c.chains().len() ==> (#[trigger] c.chains()[i]).laid_out_in(filled),
    ensures
        new_index_stands(c, moment),
{
    lemma_front_chains(c);
    lemma_front_laid_out(c, filled, moment);
    lemma_held_rows_read(c.in_front(), moment);
    written_meta_page_reads_back(c.in_front().meta());
}

/// The pages in the middle of the move: `k` blocks are moved, and the meta page is rewritten or not.
proof fn lemma_moving_moment(c: Content, filled: Seq<Seq<u8>>, marked: Seq<Seq<u8>>, k: nat)
    requires
        c.consistent(),
        c.countable(),
        c.blocks() <= u32::MAX,
        c.gap > 0,
        c.tight_blocks() <= c.gap + 1,
        k < c.tight_blocks(),
        c.blocks() <= filled.len() <= u32::MAX,
        whole_pages(marked),
        marked == filled.update(0, image(u32s_to_bytes(meta_words(c.meta())))),
        forall|i: int| 0 <= i < c.chains().len() ==> (#[trigger] c.chains()[i]).laid_out_in(filled),
    ensures
        new_index_stands(c, run(marked, move_ops(c.gap, k))),
        k + 1 == c.tight_blocks() ==> new_index_stands(
            c,
            run(
                run(marked, move_ops(c.gap, k)),
                seq![Op::WriteMeta(u32s_to_bytes(meta_words(c.in_front().meta())))],
            ),
        ),
{
    lemma_gap_moves_the_layout(c, 0);
    moved_blocks_are_in_front(marked, c.gap, k);
    let moved = run(marked, move_ops(c.gap, k));
    lemma_stands_where_it_is(c, filled, moved);
    if k + 1 == c.tight_blocks() {
        let bytes = u32s_to_bytes(meta_words(c.in_front().meta()));
        lemma_one_meta(moved, bytes);
        let moment = moved.update(0, image(bytes));
        assert forall|b: int| 1 <= b < c.tight_blocks() implies #[trigger] moment[b] == filled[c.gap
            + b] by {
            assert(moved[b] == marked[c.gap + b]);
        }
        lemma_stands_in_front(c, filled, moment);
    }
}

proof fn lemma_parts_of_a_move(gap: nat, n: nat, first: Op, second: Op, cut: Op, done: nat)
    requires
        1 <= done <= n + 2,
    ensures
        ({
            let part = (seq![first] + move_ops(gap, n) + seq![second, cut]).take(done as int);
            if done <= n + 1 {
                part == seq![first] + move_ops(gap, (done - 1) as nat)
            } else {
                part == seq![first] + move_ops(gap, n) + seq![second]
            }
        }),
{
    let part = (seq![first] + move_ops(gap, n) + seq![second, cut]).take(done as int);
    if done <= n + 1 {
        assert(part =~= seq![first] + move_ops(gap, (done - 1) as nat));
    } else {
        assert(part =~= seq![first] + move_ops(gap, n) + seq![second]);
    }
}

proof fn lemma_moving_part(c: Content, filled: Seq<Seq<u8>>, done: nat)
    requires
        c.consistent(),
        c.countable(),
        c.blocks() <= u32::MAX,
        c.gap > 0,
        c.tight_blocks() <= c.gap + 1,
        c.blocks() <= filled.len() <= u32::MAX,
        whole_pages(filled),
        forall|i: int| 0 <= i < c.chains().len() ==> (#[trigger] c.chains()[i]).laid_out_in(filled),
        1 <= done <= c.tight_blocks() + 1,
    ensures
        ({
            let first = seq![Op::WriteMeta(u32s_to_bytes(meta_words(c.meta())))];
            let second = seq![Op::WriteMeta(u32s_to_bytes(meta_words(c.in_front().meta())))];
            new_index_stands(
                c,
                run(
                    filled,
                    if done <= c.tight_blocks() {
                        first + move_ops(c.gap, (done - 1) as nat)
                    } else {
                        first + move_ops(c.gap, (c.tight_blocks() - 1) as nat) + second
                    },
                ),
            )
        }),
{
    let bytes = u32s_to_bytes(meta_words(c.meta()));
    let first = seq![Op::WriteMeta(bytes)];
    let marked = filled.update(0, image(bytes));
    lemma_one_meta(filled, bytes);
    if done <= c.tight_blocks() {
        let k = (done - 1) as nat;
        run_concat(filled, first, move_ops(c.gap, k));
        lemma_moving_moment(c, filled, marked, k);
    } else {
        let n = (c.tight_blocks() - 1) as nat;
        let second = seq![Op::WriteMeta(u32s_to_bytes(meta_words(c.in_front().meta())))];
        run_concat(filled, first, move_ops(c.gap, n));
        run_concat(filled, first + move_ops(c.gap, n), second);
        lemma_moving_moment(c, filled, marked, n);
    }
}

/// Once every chain is written behind a gap that has room for the chains in front of them, a reader
/// finds the new index at every moment from the first meta page on.
pub proof fn lemma_settling_moment(c: Content, filled: Seq<Seq<u8>>, existing: u32, done: nat)
    requires
        c.consistent(),
        c.countable(),
        c.blocks() <= u32::MAX,
        c.gap == 0 || c.tight_blocks() <= c.gap + 1,
        filled.len() <= u32::MAX,
        filled.len() == (if existing < c.blocks() {
            c.blocks()
        } else {
            existing as nat
        }),
        whole_pages(filled),
        forall|i: int| 0 <= i < c.chains().len() ==> (#[trigger] c.chains()[i]).laid_out_in(filled),
        1 <= done <= c.settling_ops(existing).len(),
    ensures
        new_index_stands(c, run(filled, c.settling_ops(existing).take(done as int))),
{
    let ops = c.settling_ops(existing);
    let bytes = u32s_to_bytes(meta_words(c.meta()));
    if done == ops.len() {
        assert(ops.take(done as int) =~= ops);
        lemma_settled(c, filled, existing);
        lemma_stands_in_front(c, filled, run(filled, ops));
    } else if c.gap == 0 {
        assert(ops.take(done as int) =~= seq![Op::WriteMeta(bytes)]);
        lemma_one_meta(filled, bytes);
        lemma_stands_where_it_is(c, filled, filled.update(0, image(bytes)));
    } else {
        lemma_parts_of_a_move(
            c.gap,
            (c.tight_blocks() - 1) as nat,
            Op::WriteMeta(bytes),
            Op::WriteMeta(u32s_to_bytes(meta_words(c.in_front().meta()))),
            Op::Truncate(c.tight_blocks()),
            done,
        );
        lemma_moving_part(c, filled, done);
    }
}

/// At every moment of a write a reader finds a whole index: up to the meta page the one that was there,
/// with its rows as they were, and from then on the new one, with exactly the rows that are written.
pub proof fn every_moment_has_a_whole_index(
    c: Content,
    old: MetaPageData,
    pages: Seq<Seq<u8>>,
    done: nat,
)
    requires
        c.consistent(),
        c.countable(),
        c.blocks() <= u32::MAX,
        0 < pages.len() <= u32::MAX,
        whole_pages(pages),
        rows_readable(old, pages.len() as u32),
        (Standing { blocks: pages.len() as u32, meta: Some(old) }).spares(c.tight_blocks()),
        c.gap == (Standing { blocks: pages.len() as u32, meta: Some(old) }).gap(c.tight_blocks()),
        done <= c.ops(pages.len() as u32).len(),
    ensures
        ({
            let moment = run(pages, c.ops(pages.len() as u32).take(done as int));
            if done <= c.ops_before_meta(pages.len() as u32).len() {
                moment[0] == pages[0] && rows_read(old, moment) == rows_read(old, pages)
            } else {
                new_index_stands(c, moment)
            }
        }),
{
    let existing = pages.len() as u32;
    let before = c.ops_before_meta(existing);
    let ops = c.ops(existing);
    let part = ops.take(done as int);
    if done <= before.len() {
        interrupted_write_keeps_the_old_index(c, old, pages, done);
    } else {
        let k = (done - before.len()) as nat;
        let rest = c.settling_ops(existing).take(k as int);
        assert(part =~= before + rest);
        run_concat(pages, before, rest);
        lemma_chains_filled(c, pages);
        lemma_settling_moment(c, run(pages, before), existing, k);
    }
}

/// Whether a chain of bytes lies inside the relation.
pub open spec fn bytes_readable(span: Span, n: nat, pages: Seq<Seq<u8>>) -> bool {
    chain_fault(span.first, 1, PAYLOAD_BYTES as u32, n as u64, pages.len() as u32) is None
}

/// After a finished write of an index with rows, each further part that was stored reads back as it
/// was: the calibration pair, the coarse centroids, the cell directory, the adjacency.
pub proof fn written_parts_read_back(c: Content, pages: Seq<Seq<u8>>)
    requires
        c.consistent(),
        c.countable(),
        c.n_vectors > 0,
        c.blocks() <= u32::MAX,
        pages.len() <= u32::MAX,
        whole_pages(pages),
    ensures
        ({
            let after = run(pages, c.ops(pages.len() as u32));
            let m = c.in_front().meta();
            &&& c.tqplus.len() > 0 ==> bytes_read(m.rotation, c.tqplus.len(), after) == c.tqplus
            &&& c.coarse_bytes().len() > 0 ==> bytes_read(m.coarse, c.coarse_bytes().len(), after)
                == c.coarse_bytes()
            &&& c.directory_bytes().len() > 0 ==> bytes_read(
                m.cell_dir,
                c.directory_bytes().len(),
                after,
            ) == c.directory_bytes()
            &&& c.adjacency_bytes().len() > 0 ==> bytes_read(
                m.graph,
                c.adjacency_bytes().len(),
                after,
            ) == c.adjacency_bytes()
            &&& c.tqplus.len() > 0 ==> bytes_readable(m.rotation, c.tqplus.len(), after)
            &&& c.coarse_bytes().len() > 0 ==> bytes_readable(
                m.coarse,
                c.coarse_bytes().len(),
                after,
            )
            &&& c.directory_bytes().len() > 0 ==> bytes_readable(
                m.cell_dir,
                c.directory_bytes().len(),
                after,
            )
            &&& c.adjacency_bytes().len() > 0 ==> bytes_readable(
                m.graph,
                c.adjacency_bytes().len(),
                after,
            )
        }),
{
    let after = run(pages, c.ops(pages.len() as u32));
    let m = c.in_front().meta();
    finished_write_is_complete(c, pages);
    lemma_front_chains(c);
    lemma_chains_in_order(c.in_front());
    let c0 = c.in_front().row_chains();
    let c1 = with_bytes(c0, m.rotation, c.tqplus);
    let c2 = with_bytes(c1, m.coarse, c.coarse_bytes());
    let c3 = with_bytes(c2, m.cell_dir, c.directory_bytes());
    let all = c.in_front().chains();
    lemma_with_bytes_place(c0, m.rotation, c.tqplus);
    lemma_with_bytes_place(c1, m.coarse, c.coarse_bytes());
    lemma_with_bytes_place(c2, m.cell_dir, c.directory_bytes());
    lemma_with_bytes_place(c3, m.graph, c.adjacency_bytes());
    if c.tqplus.len() > 0 {
        let k = c0.len() as int;
        assert(c1[k] == c2[k] && c2[k] == c3[k] && c3[k] == all[k]);
        lemma_bytes_read_back(all, k, m.rotation, c.tqplus, after);
    }
    if c.coarse_bytes().len() > 0 {
        let k = c1.len() as int;
        assert(c2[k] == c3[k] && c3[k] == all[k]);
        lemma_bytes_read_back(all, k, m.coarse, c.coarse_bytes(), after);
    }
    if c.directory_bytes().len() > 0 {
        let k = c2.len() as int;
        assert(c3[k] == all[k]);
        lemma_bytes_read_back(all, k, m.cell_dir, c.directory_bytes(), after);
    }
    if c.adjacency_bytes().len() > 0 {
        let k = c3.len() as int;
        lemma_bytes_read_back(all, k, m.graph, c.adjacency_bytes(), after);
    }
}

} // verus!
