//! Reading chains: which bytes of which blocks to fetch, and how to put them together.
use vstd::prelude::*;

use crate::bytes::append_range;
use crate::chain::{lemma_ceil, Chain};
use crate::page::{ceil_div, MetaPageData, PAYLOAD_BYTES};

verus! {

/// Bytes `from .. from + len` of the payload of a block.
#[derive(Clone, Copy, Debug, PartialEq, Eq, Structural)]
pub struct PageRead {
    pub blkno: u32,
    pub from: usize,
    pub len: usize,
}

/// Why a chain cannot be read: the meta page and the relation contradict each other.
#[derive(Clone, Copy, Debug, PartialEq, Eq, Structural)]
pub enum ChainError {
    /// Pages are said to hold no rows.
    NoRowsPerPage,
    /// The chain runs past the end of the relation.
    PastEnd { first: u32, pages: u64, blocks: u32 },
    /// Pages are said to hold more bytes than a page has.
    RowsOverflowPage,
}

/// Whether every read lies inside the payload of a block of `pages`.
pub open spec fn readable(reads: Seq<PageRead>, pages: Seq<Seq<u8>>) -> bool {
    forall|i: int|
        0 <= i < reads.len() ==> {
            &&& (#[trigger] reads[i]).blkno < pages.len()
            &&& reads[i].from + reads[i].len <= pages[reads[i].blkno as int].len()
        }
}

/// The bytes that `reads` fetch from `pages`, one after the other.
pub open spec fn fetched(reads: Seq<PageRead>, pages: Seq<Seq<u8>>) -> Seq<u8>
    decreases reads.len(),
{
    if reads.len() == 0 {
        Seq::empty()
    } else {
        let r = reads.last();
        fetched(reads.drop_last(), pages) + pages[r.blkno as int].subrange(
            r.from as int,
            r.from + r.len,
        )
    }
}

/// Whether `payloads[i]` is the payload of the block that `reads[i]` names.
pub open spec fn answers(reads: Seq<PageRead>, payloads: Seq<Vec<u8>>, pages: Seq<Seq<u8>>) -> bool {
    &&& payloads.len() == reads.len()
    &&& forall|i: int|
        0 <= i < reads.len() ==> (#[trigger] payloads[i])@ == pages[reads[i].blkno as int]
}

/// What a chain of `total` bytes, `per_page` to a block, holds in `pages`.
pub open spec fn stored(pages: Seq<Seq<u8>>, first: nat, per_page: nat, total: nat) -> Seq<u8> {
    Seq::new(total, |i: int| pages[first + i / (per_page as int)][i % (per_page as int)])
}

/// The reads that fetch a chain: each of its blocks from the start of the payload.
pub open spec fn chain_reads(first: nat, per_page: nat, total: nat) -> Seq<PageRead> {
    Seq::new(
        ceil_div(total, per_page),
        |p: int|
            PageRead {
                blkno: (first + p) as u32,
                from: 0,
                len: if total - p * per_page < per_page {
                    (total - p * per_page) as usize
                } else {
                    per_page as usize
                },
            },
    )
}

/// Why a chain of `n` rows cannot be read from a relation of `blocks` blocks, if it cannot.
pub open spec fn chain_fault(first: u32, stride: u32, rows_per_page: u32, n: u64, blocks: u32) -> Option<
    ChainError,
> {
    if n == 0 || stride == 0 {
        None
    } else if rows_per_page == 0 {
        Some(ChainError::NoRowsPerPage)
    } else if first + ceil_div(n as nat, rows_per_page as nat) > blocks {
        Some(
            ChainError::PastEnd {
                first,
                pages: ceil_div(n as nat, rows_per_page as nat) as u64,
                blocks,
            },
        )
    } else if rows_per_page * stride > PAYLOAD_BYTES {
        Some(ChainError::RowsOverflowPage)
    } else {
        None
    }
}

/// The reads of a chain of `n` rows.
pub open spec fn row_reads(first: u32, stride: u32, rows_per_page: u32, n: u64) -> Seq<PageRead> {
    if n == 0 || stride == 0 {
        Seq::empty()
    } else {
        chain_reads(first as nat, (rows_per_page * stride) as nat, (n * stride) as nat)
    }
}

/// Scaling rows and page size alike does not change the number of pages.
pub proof fn lemma_ceil_scaled(n: nat, d: nat, k: nat)
    requires
        d > 0,
        k > 0,
    ensures
        d * k > 0,
        ceil_div(n * k, d * k) == ceil_div(n, d),
{
    assert(d * k > 0) by (nonlinear_arith)
        requires
            d > 0,
            k > 0,
    ;
    let a = ceil_div(n, d);
    let b = ceil_div(n * k, d * k);
    // a is the least p with p * d >= n, b the least p with p * d * k >= n * k.
    lemma_ceil(d, b, n);
    lemma_ceil(d * k, a, n * k);
    lemma_ceil(d, a, n);
    lemma_ceil(d * k, b, n * k);
    assert((a * (d * k) >= n * k) == (a * d >= n)) by (nonlinear_arith)
        requires
            k > 0,
    ;
    assert((b * (d * k) >= n * k) == (b * d >= n)) by (nonlinear_arith)
        requires
            k > 0,
    ;
}

/// Plans the reads of a chain of `n_vectors` rows, or says why the chain cannot be there.
pub fn read_chain(first_blkno: u32, stride: u32, rows_per_page: u32, n_vectors: u64, nblk: u32) -> (r:
    Result<Vec<PageRead>, ChainError>)
    ensures
        match chain_fault(first_blkno, stride, rows_per_page, n_vectors, nblk) {
            Some(e) => r == Err::<Vec<PageRead>, ChainError>(e),
            None => r is Ok && r->Ok_0@ == row_reads(first_blkno, stride, rows_per_page, n_vectors),
        },
{
    let mut out: Vec<PageRead> = Vec::new();
    if n_vectors == 0 || stride == 0 {
        assert(out@ =~= Seq::empty());
        return Ok(out);
    }
    if rows_per_page == 0 {
        return Err(ChainError::NoRowsPerPage);
    }
    let pages: u64 = MetaPageData::pages_needed(n_vectors, rows_per_page);
    if pages > nblk as u64 || first_blkno as u64 + pages > nblk as u64 {
        return Err(ChainError::PastEnd { first: first_blkno, pages, blocks: nblk });
    }
    proof {
        assert(rows_per_page * stride <= u32::MAX * u32::MAX) by (nonlinear_arith)
            requires
                rows_per_page <= u32::MAX,
                stride <= u32::MAX,
        ;
        assert(0 < rows_per_page * stride) by (nonlinear_arith)
            requires
                rows_per_page > 0,
                stride > 0,
        ;
    }
    let per_page: u64 = rows_per_page as u64 * stride as u64;
    if per_page > PAYLOAD_BYTES as u64 {
        return Err(ChainError::RowsOverflowPage);
    }
    proof {
        lemma_ceil_scaled(n_vectors as nat, rows_per_page as nat, stride as nat);
        lemma_ceil(per_page as nat, pages as nat, (n_vectors * stride) as nat);
        assert(pages * per_page <= 0x1_0000_0000 * 8168) by (nonlinear_arith)
            requires
                0 <= pages <= 0xffff_ffff,
                0 <= per_page <= 8168,
        ;
        assert(n_vectors * stride >= 0) by (nonlinear_arith);
    }
    let total: u64 = n_vectors * stride as u64;
    let mut remaining: u64 = total;
    let mut blkno: u64 = first_blkno as u64;
    let ghost mut p: nat = 0;
    let ghost all = chain_reads(first_blkno as nat, per_page as nat, total as nat);
    while remaining > 0
        invariant
            0 < per_page <= PAYLOAD_BYTES,
            total == n_vectors * stride,
            p <= all.len(),
            p == all.len() ==> remaining == 0,
            all == chain_reads(first_blkno as nat, per_page as nat, total as nat),
            blkno == first_blkno + p,
            first_blkno + all.len() <= u32::MAX,
            remaining == (if p * per_page < total {
                total - p * per_page
            } else {
                0
            }),
            out@ == all.take(p as int),
        decreases remaining,
    {
        proof {
            lemma_ceil(per_page as nat, p, total as nat);
            lemma_ceil(per_page as nat, p + 1, total as nat);
            assert((p + 1) * per_page == p * per_page + per_page) by (nonlinear_arith);
        }
        let take: u64 = if per_page < remaining {
            per_page
        } else {
            remaining
        };
        out.push(PageRead { blkno: blkno as u32, from: 0, len: take as usize });
        proof {
            assert(out@ =~= all.take((p + 1) as int));
            p = p + 1;
        }
        remaining -= take;
        blkno += 1;
    }
    proof {
        lemma_ceil(per_page as nat, p, total as nat);
        assert(all.take(p as int) =~= all);
    }
    Ok(out)
}

/// Whether each payload is long enough for its read.
pub open spec fn long_enough(reads: Seq<PageRead>, payloads: Seq<Vec<u8>>) -> bool {
    &&& payloads.len() == reads.len()
    &&& forall|i: int|
        0 <= i < reads.len() ==> reads[i].from + reads[i].len <= (#[trigger] payloads[i])@.len()
}

/// The bytes that `reads` take out of their payloads, one after the other.
pub open spec fn taken(reads: Seq<PageRead>, payloads: Seq<Vec<u8>>) -> Seq<u8>
    decreases reads.len(),
{
    if reads.len() == 0 {
        Seq::empty()
    } else {
        let r = reads.last();
        taken(reads.drop_last(), payloads) + payloads[reads.len() - 1]@.subrange(
            r.from as int,
            r.from + r.len,
        )
    }
}

/// Puts fetched payloads together: `payloads[i]` is the payload of the block that `reads[i]` names.
pub fn gather(reads: &Vec<PageRead>, payloads: &Vec<Vec<u8>>) -> (r: Vec<u8>)
    requires
        long_enough(reads@, payloads@),
    ensures
        r@ == taken(reads@, payloads@),
{
    let mut out: Vec<u8> = Vec::new();
    let mut i: usize = 0;
    while i < reads.len()
        invariant
            i <= reads@.len(),
            long_enough(reads@, payloads@),
            out@ == taken(reads@.take(i as int), payloads@),
        decreases reads@.len() - i,
    {
        let rd: PageRead = reads[i];
        assert(payloads@[i as int].len() <= usize::MAX);
        append_range(&mut out, payloads[i].as_slice(), rd.from, rd.from + rd.len);
        assert(reads@.take(i + 1).drop_last() =~= reads@.take(i as int));
        i += 1;
    }
    assert(reads@.take(i as int) =~= reads@);
    out
}

/// What is put together from the payloads of pages is what the reads fetch from the pages.
pub proof fn payloads_give_what_is_fetched(
    reads: Seq<PageRead>,
    payloads: Seq<Vec<u8>>,
    pages: Seq<Seq<u8>>,
)
    requires
        answers(reads, payloads, pages),
    ensures
        taken(reads, payloads) == fetched(reads, pages),
{
    lemma_taken(reads, payloads, pages, reads.len());
    assert(reads.take(reads.len() as int) =~= reads);
}

proof fn lemma_taken(
    reads: Seq<PageRead>,
    payloads: Seq<Vec<u8>>,
    pages: Seq<Seq<u8>>,
    n: nat,
)
    requires
        answers(reads, payloads, pages),
        n <= reads.len(),
    ensures
        taken(reads.take(n as int), payloads) == fetched(reads.take(n as int), pages),
    decreases n,
{
    if n > 0 {
        lemma_taken(reads, payloads, pages, (n - 1) as nat);
        assert(reads.take(n as int).drop_last() =~= reads.take(n - 1));
        assert(payloads[n - 1]@ == pages[reads[n - 1].blkno as int]);
    }
}

proof fn lemma_place_in_page(per: int, i: int, p: int)
    by (nonlinear_arith)
    requires
        per > 0,
        p >= 0,
        p * per <= i < p * per + per,
    ensures
        i / per == p,
        i % per == i - p * per,
{
}

proof fn lemma_chain_reads_fetch(pages: Seq<Seq<u8>>, first: nat, per: nat, total: nat, p: nat)
    requires
        per > 0,
        p <= ceil_div(total, per),
        first + ceil_div(total, per) <= pages.len() <= u32::MAX,
        per <= PAYLOAD_BYTES,
        forall|b: int| 0 <= b < pages.len() ==> (#[trigger] pages[b]).len() == PAYLOAD_BYTES,
    ensures
        fetched(chain_reads(first, per, total).take(p as int), pages) == stored(
            pages,
            first,
            per,
            if p * per < total {
                p * per
            } else {
                total
            },
        ),
    decreases p,
{
    let all = chain_reads(first, per, total);
    if p == 0 {
        assert(p * per == 0) by (nonlinear_arith)
            requires
                p == 0,
        ;
        assert(all.take(0) =~= Seq::empty());
        assert(stored(pages, first, per, 0) =~= Seq::empty());
    } else {
        let c = (p - 1) as nat;
        lemma_chain_reads_fetch(pages, first, per, total, c);
        lemma_ceil(per, c, total);
        assert(p * per == c * per + per) by (nonlinear_arith)
            requires
                p == c + 1,
        ;
        assert(all.take(p as int).drop_last() =~= all.take(c as int));
        let r = all[c as int];
        assert(all.take(p as int).last() == r);
        let upto = if p * per < total {
            p * per
        } else {
            total
        };
        let got = fetched(all.take(p as int), pages);
        let page = pages[(first + c) as int];
        assert(r.blkno == first + c);
        assert(r.len == upto - c * per);
        assert(got =~= stored(pages, first, per, c * per) + page.subrange(0, upto - c * per));
        assert forall|i: int| 0 <= i < upto implies got[i] == stored(pages, first, per, upto)[i] by {
            if i >= c * per {
                lemma_place_in_page(per as int, i, c as int);
            }
        }
        assert(got =~= stored(pages, first, per, upto));
    }
}

/// Fetching the reads of a chain gives what the chain holds.
pub proof fn chain_reads_fetch_what_is_stored(
    pages: Seq<Seq<u8>>,
    first: nat,
    per_page: nat,
    total: nat,
)
    requires
        0 < per_page <= PAYLOAD_BYTES,
        first + ceil_div(total, per_page) <= pages.len() <= u32::MAX,
        forall|b: int| 0 <= b < pages.len() ==> (#[trigger] pages[b]).len() == PAYLOAD_BYTES,
    ensures
        readable(chain_reads(first, per_page, total), pages),
        fetched(chain_reads(first, per_page, total), pages) == stored(
            pages,
            first,
            per_page,
            total,
        ),
{
    let all = chain_reads(first, per_page, total);
    lemma_chain_reads_fetch(pages, first, per_page, total, all.len());
    lemma_ceil(per_page, all.len(), total);
    assert(all.take(all.len() as int) =~= all);
    assert forall|i: int| 0 <= i < all.len() implies (#[trigger] all[i]).blkno < pages.len()
        && all[i].from + all[i].len <= pages[all[i].blkno as int].len() by {
        lemma_ceil(per_page, i as nat, total);
        assert(all[i].blkno == first + i);
    }
}

/// A chain that a relation holds is what reading it gives.
pub proof fn held_chain_is_stored(chain: Chain, pages: Seq<Seq<u8>>)
    requires
        chain.held_by(pages),
    ensures
        stored(pages, chain.start, chain.per_page, chain.bytes.len()) == chain.bytes,
{
    let got = stored(pages, chain.start, chain.per_page, chain.bytes.len());
    assert forall|i: int| 0 <= i < got.len() implies got[i] == chain.bytes[i] by {
        assert(chain.byte_held_by(pages, i));
    }
    assert(got =~= chain.bytes);
}

/// Rows `start .. start + count` of a chain that lies in `pages`.
pub open spec fn stored_rows(
    pages: Seq<Seq<u8>>,
    first: u32,
    stride: u32,
    rows_per_page: u32,
    range: (u64, u64),
) -> Seq<u8> {
    stored(
        pages,
        first as nat,
        (rows_per_page * stride) as nat,
        ((range.0 + range.1) * stride) as nat,
    ).subrange(range.0 * stride, (range.0 + range.1) * stride)
}

/// The rows of these ranges, one range after the other.
pub open spec fn stored_ranges(
    pages: Seq<Seq<u8>>,
    first: u32,
    stride: u32,
    rows_per_page: u32,
    ranges: Seq<(u64, u64)>,
) -> Seq<u8>
    decreases ranges.len(),
{
    if ranges.len() == 0 {
        Seq::empty()
    } else {
        stored_ranges(pages, first, stride, rows_per_page, ranges.drop_last()) + stored_rows(
            pages,
            first,
            stride,
            rows_per_page,
            ranges.last(),
        )
    }
}

/// The last block that a row of the range lies in comes before block `limit`.
pub open spec fn range_before(first: u32, rows_per_page: u32, range: (u64, u64), limit: nat) -> bool {
    range.1 > 0 ==> first + (range.0 + range.1 - 1) / (rows_per_page as int) < limit
}

/// Whether `pages` are whole pages that contain every row of the ranges.
pub open spec fn covers(
    pages: Seq<Seq<u8>>,
    first: u32,
    rows_per_page: u32,
    ranges: Seq<(u64, u64)>,
) -> bool {
    &&& forall|b: int| 0 <= b < pages.len() ==> (#[trigger] pages[b]).len() == PAYLOAD_BYTES
    &&& forall|i: int|
        0 <= i < ranges.len() ==> range_before(
            first,
            rows_per_page,
            #[trigger] ranges[i],
            pages.len(),
        )
}

/// Whether every read is of a block in which one of the ranges has a row.
pub open spec fn only_ranges(
    reads: Seq<PageRead>,
    first: u32,
    rows_per_page: u32,
    ranges: Seq<(u64, u64)>,
) -> bool {
    forall|i: int|
        0 <= i < reads.len() ==> exists|k: int, slot: int|
            0 <= k < ranges.len() && (#[trigger] ranges[k]).0 <= slot < ranges[k].0 + ranges[k].1
                && (#[trigger] reads[i]).blkno == first + #[trigger] (slot / (rows_per_page as int))
}

/// Where byte `j` of the `k` rows from `slot` on lies, which are on one page.
pub proof fn lemma_row_place(rpp: int, stride: int, slot: int, k: int, j: int)
    requires
        rpp > 0,
        stride > 0,
        slot >= 0,
        0 <= k <= rpp - slot % rpp,
        0 <= j < k * stride,
    ensures
        (slot * stride + j) / (rpp * stride) == slot / rpp,
        (slot * stride + j) % (rpp * stride) == (slot % rpp) * stride + j,
{
    let q = slot / rpp;
    let r = slot % rpp;
    vstd::arithmetic::div_mod::lemma_fundamental_div_mod(slot, rpp);
    assert(slot * stride + j == q * (rpp * stride) + (r * stride + j)) by (nonlinear_arith)
        requires
            slot == rpp * q + r,
    ;
    assert(0 <= r * stride) by (nonlinear_arith)
        requires
            r >= 0,
            stride > 0,
    ;
    assert(r * stride + k * stride <= rpp * stride) by (nonlinear_arith)
        requires
            r + k <= rpp,
            stride > 0,
    ;
    assert(rpp * stride > 0) by (nonlinear_arith)
        requires
            rpp > 0,
            stride > 0,
    ;
    lemma_place_in_page(rpp * stride, slot * stride + j, q);
}

proof fn lemma_block_before(rpp: int, slot: int, end: int)
    by (nonlinear_arith)
    requires
        rpp > 0,
        0 <= slot < end,
    ensures
        slot / rpp <= (end - 1) / rpp,
{
}

proof fn lemma_range_step(
    pages: Seq<Seq<u8>>,
    first: u32,
    stride: u32,
    rpp: u32,
    start: int,
    slot: int,
    k: int,
    end: int,
)
    requires
        rpp > 0,
        stride > 0,
        rpp * stride <= PAYLOAD_BYTES,
        0 <= start <= slot,
        0 < k <= rpp - slot % (rpp as int),
        slot + k <= end,
        first + (end - 1) / (rpp as int) < pages.len(),
        forall|b: int| 0 <= b < pages.len() ==> (#[trigger] pages[b]).len() == PAYLOAD_BYTES,
    ensures
        ({
            let all = stored(pages, first as nat, (rpp * stride) as nat, (end * stride) as nat);
            let page = pages[first + slot / (rpp as int)];
            let from = (slot % (rpp as int)) * stride;
            &&& 0 <= start * stride <= slot * stride <= (slot + k) * stride <= end * stride
            &&& 0 <= from
            &&& from + k * stride <= PAYLOAD_BYTES
            &&& all.subrange(start * stride, slot * stride) + page.subrange(
                from,
                from + k * stride,
            ) == all.subrange(start * stride, (slot + k) * stride)
        }),
{
    let w = stride as int;
    let all = stored(pages, first as nat, (rpp * stride) as nat, (end * stride) as nat);
    let page = pages[first + slot / (rpp as int)];
    let r = slot % (rpp as int);
    let from = r * stride;
    assert(0 <= start * w <= slot * w <= (slot + k) * w <= end * w) by (nonlinear_arith)
        requires
            0 <= start <= slot,
            k > 0,
            slot + k <= end,
            w > 0,
    ;
    assert((slot + k) * w == slot * w + k * w) by (nonlinear_arith);
    assert(0 <= r * w) by (nonlinear_arith)
        requires
            r >= 0,
            w > 0,
    ;
    assert(r * w + k * w <= rpp * w) by (nonlinear_arith)
        requires
            r + k <= rpp,
            w > 0,
    ;
    lemma_block_before(rpp as int, slot, end);
    assert(slot / (rpp as int) >= 0) by {
        vstd::arithmetic::div_mod::lemma_div_pos_is_pos(slot, rpp as int);
    }
    assert(page.len() == PAYLOAD_BYTES);
    let left = all.subrange(start * w, slot * w) + page.subrange(from, from + k * w);
    let right = all.subrange(start * w, (slot + k) * w);
    assert forall|i: int| 0 <= i < left.len() implies left[i] == right[i] by {
        if i >= slot * w - start * w {
            let j = i - (slot * w - start * w);
            lemma_row_place(rpp as int, w, slot, k, j);
            assert(right[i] == all[slot * w + j]);
        }
    }
    assert(left =~= right);
}

/// Plans the reads of a set of row ranges `(first row, rows)`; only the blocks in which the ranges
/// have rows are read.
pub fn gather_codes_ranges(
    first_blkno: u32,
    stride: u32,
    rows_per_page: u32,
    ranges: &[(u64, u64)],
) -> (r: Vec<PageRead>)
    requires
        rows_per_page * stride <= PAYLOAD_BYTES,
        forall|i: int|
            0 <= i < ranges@.len() ==> {
                &&& (#[trigger] ranges@[i]).0 + ranges@[i].1 <= u64::MAX
                &&& range_before(first_blkno, rows_per_page, ranges@[i], u32::MAX as nat)
            },
    ensures
        stride == 0 || rows_per_page == 0 ==> r@.len() == 0,
        stride > 0 && rows_per_page > 0 ==> only_ranges(
            r@,
            first_blkno,
            rows_per_page,
            ranges@,
        ),
        stride > 0 && rows_per_page > 0 ==> forall|pages: Seq<Seq<u8>>| #[trigger]
            covers(pages, first_blkno, rows_per_page, ranges@) ==> {
                &&& readable(r@, pages)
                &&& fetched(r@, pages) == stored_ranges(
                    pages,
                    first_blkno,
                    stride,
                    rows_per_page,
                    ranges@,
                )
            },
{
    let mut out: Vec<PageRead> = Vec::new();
    if stride == 0 || rows_per_page == 0 {
        return out;
    }
    let rpp: u64 = rows_per_page as u64;
    let width: usize = stride as usize;
    let ghost first = first_blkno;
    let mut i: usize = 0;
    while i < ranges.len()
        invariant
            i <= ranges@.len(),
            first == first_blkno,
            0 < stride,
            0 < rows_per_page,
            rpp == rows_per_page,
            width == stride,
            rows_per_page * stride <= PAYLOAD_BYTES,
            forall|i: int|
                0 <= i < ranges@.len() ==> {
                    &&& (#[trigger] ranges@[i]).0 + ranges@[i].1 <= u64::MAX
                    &&& range_before(first_blkno, rows_per_page, ranges@[i], u32::MAX as nat)
                },
            only_ranges(out@, first, rows_per_page, ranges@),
            forall|pages: Seq<Seq<u8>>| #[trigger]
                covers(pages, first, rows_per_page, ranges@) ==> {
                    &&& readable(out@, pages)
                    &&& fetched(out@, pages) == stored_ranges(
                        pages,
                        first,
                        stride,
                        rows_per_page,
                        ranges@.take(i as int),
                    )
                },
        decreases ranges@.len() - i,
    {
        let range: (u64, u64) = ranges[i];
        let start: u64 = range.0;
        let end: u64 = range.0 + range.1;
        let mut slot: u64 = start;
        let ghost head = ranges@.take(i as int);
        proof {
            assert forall|pages: Seq<Seq<u8>>| #[trigger]
                covers(pages, first, rows_per_page, ranges@) implies fetched(out@, pages)
                == stored_ranges(pages, first, stride, rows_per_page, head) + stored(
                pages,
                first as nat,
                (rows_per_page * stride) as nat,
                (end * stride) as nat,
            ).subrange(start * stride, slot * stride) by {
                assert(0 <= start * stride <= end * stride) by (nonlinear_arith)
                    requires
                        start <= end,
                ;
                assert(fetched(out@, pages) =~= stored_ranges(
                    pages,
                    first,
                    stride,
                    rows_per_page,
                    head,
                ) + stored(
                    pages,
                    first as nat,
                    (rows_per_page * stride) as nat,
                    (end * stride) as nat,
                ).subrange(start * stride, slot * stride));
            }
        }
        while slot < end
            invariant
                i < ranges@.len(),
                first == first_blkno,
                range == ranges@[i as int],
                start == range.0,
                end == range.0 + range.1,
                start <= slot <= end,
                0 < stride,
                0 < rows_per_page,
                rpp == rows_per_page,
                width == stride,
                rows_per_page * stride <= PAYLOAD_BYTES,
                range_before(first_blkno, rows_per_page, range, u32::MAX as nat),
                only_ranges(out@, first, rows_per_page, ranges@),
                forall|pages: Seq<Seq<u8>>| #[trigger]
                    covers(pages, first, rows_per_page, ranges@) ==> {
                        &&& readable(out@, pages)
                        &&& fetched(out@, pages) == stored_ranges(
                            pages,
                            first,
                            stride,
                            rows_per_page,
                            head,
                        ) + stored(
                            pages,
                            first as nat,
                            (rows_per_page * stride) as nat,
                            (end * stride) as nat,
                        ).subrange(start * stride, slot * stride)
                    },
            decreases end - slot,
        {
            let left_on_page: u64 = rpp - slot % rpp;
            let take: u64 = if left_on_page < end - slot {
                left_on_page
            } else {
                end - slot
            };
            proof {
                lemma_block_before(rpp as int, slot as int, end as int);
                vstd::arithmetic::div_mod::lemma_div_pos_is_pos(slot as int, rpp as int);
                let r = slot % rpp;
                assert(0 <= r * stride && r * stride + take * stride <= rpp * stride)
                    by (nonlinear_arith)
                    requires
                        0 <= r,
                        0 <= take,
                        r + take <= rpp,
                        0 < stride,
                ;
            }
            let blkno: u32 = first_blkno + (slot / rpp) as u32;
            let from: usize = (slot % rpp) as usize * width;
            let len: usize = take as usize * width;
            let ghost out0 = out@;
            out.push(PageRead { blkno, from, len });
            proof {
                assert(out@.drop_last() =~= out0);
                assert forall|n: int| 0 <= n < out@.len() implies exists|k: int, s: int|
                    0 <= k < ranges@.len() && (#[trigger] ranges@[k]).0 <= s < ranges@[k].0
                        + ranges@[k].1 && (#[trigger] out@[n]).blkno == first + #[trigger] (s / (
                    rows_per_page as int)) by {
                    if n < out0.len() {
                        assert(out@[n] == out0[n]);
                    } else {
                        let s = slot as int;
                        assert(ranges@[i as int].0 <= s < ranges@[i as int].0 + ranges@[i as int].1);
                        assert(out@[n].blkno == first + s / (rows_per_page as int));
                    }
                }
                assert forall|pages: Seq<Seq<u8>>| #[trigger]
                    covers(pages, first, rows_per_page, ranges@) implies {
                    &&& readable(out@, pages)
                    &&& fetched(out@, pages) == stored_ranges(
                        pages,
                        first,
                        stride,
                        rows_per_page,
                        head,
                    ) + stored(
                        pages,
                        first as nat,
                        (rows_per_page * stride) as nat,
                        (end * stride) as nat,
                    ).subrange(start * stride, (slot + take) * stride)
                } by {
                    assert(range_before(first, rows_per_page, ranges@[i as int], pages.len()));
                    lemma_range_step(
                        pages,
                        first,
                        stride,
                        rows_per_page,
                        start as int,
                        slot as int,
                        take as int,
                        end as int,
                    );
                    let all = stored(
                        pages,
                        first as nat,
                        (rows_per_page * stride) as nat,
                        (end * stride) as nat,
                    );
                    let before = stored_ranges(pages, first, stride, rows_per_page, head);
                    let a = all.subrange(start * stride, slot * stride);
                    let page = pages[blkno as int];
                    let b = page.subrange(from as int, from + len);
                    assert(readable(out0, pages));
                    assert(fetched(out@, pages) == (before + a) + b);
                    assert((before + a) + b =~= before + (a + b));
                    assert forall|n: int| 0 <= n < out@.len() implies (#[trigger] out@[n]).blkno
                        < pages.len() && out@[n].from + out@[n].len <= pages[out@[n].blkno as int].len() by {
                        if n < out0.len() {
                            assert(out@[n] == out0[n]);
                        }
                    }
                }
            }
            slot += take;
        }
        proof {
            assert(ranges@.take(i + 1).drop_last() =~= head);
            assert(ranges@.take(i + 1).last() == range);
        }
        i += 1;
    }
    assert(ranges@.take(i as int) =~= ranges@);
    out
}

} // verus!
