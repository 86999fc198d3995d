//! Chains: byte strings that lie in consecutive blocks, and the page operations that write them.
//!
//! Writing is planned here and carried out elsewhere: a plan is a list of [`Action`]s. What a list of
//! actions does to a relation is [`run`], over the payload bytes of its blocks.
use vstd::prelude::*;

use crate::bytes::append_range;
use crate::page::{ceil_div, PAYLOAD_BYTES};

verus! {

/// Pages that one write-ahead record takes at most.
pub const PAGES_PER_BATCH: usize = 4;

/// A page to be initialised and filled: `payload` behind the header, zeros behind `payload`.
#[derive(Debug, PartialEq, Eq)]
pub struct PageWrite {
    pub blkno: u32,
    pub payload: Vec<u8>,
}

/// Bytes to be copied from one place in the payload of a block to another, the rest of the
/// destination block staying as it is.
#[derive(Clone, Copy, Debug, PartialEq, Eq, Structural)]
pub struct SlotCopy {
    pub src_blkno: u32,
    pub src_off: usize,
    pub dst_blkno: u32,
    pub dst_off: usize,
    pub len: usize,
}

/// One step of a plan.
#[derive(Debug, PartialEq, Eq)]
pub enum Action {
    /// Extend the relation with blank pages until it has this many blocks.
    ExtendTo(u32),
    /// Write these pages under one write-ahead record.
    WritePages(Vec<PageWrite>),
    /// Copy one row inside a chain.
    CopySlot(SlotCopy),
    /// Write the meta page.
    WriteMeta(Vec<u8>),
    /// Cut the relation off after this many blocks.
    Truncate(u32),
}

/// An [`Action`] as a value of the model.
pub enum Op {
    ExtendTo(nat),
    WritePages(Seq<(nat, Seq<u8>)>),
    CopySlot(SlotCopy),
    WriteMeta(Seq<u8>),
    Truncate(nat),
}

impl View for PageWrite {
    type V = (nat, Seq<u8>);

    open spec fn view(&self) -> (nat, Seq<u8>) {
        (self.blkno as nat, self.payload@)
    }
}

/// The page writes of a batch.
pub open spec fn writes_of(batch: Seq<PageWrite>) -> Seq<(nat, Seq<u8>)> {
    Seq::new(batch.len(), |i: int| batch[i]@)
}

impl View for Action {
    type V = Op;

    open spec fn view(&self) -> Op {
        match self {
            Action::ExtendTo(n) => Op::ExtendTo(*n as nat),
            Action::WritePages(ws) => Op::WritePages(writes_of(ws@)),
            Action::CopySlot(c) => Op::CopySlot(*c),
            Action::WriteMeta(b) => Op::WriteMeta(b@),
            Action::Truncate(n) => Op::Truncate(*n as nat),
        }
    }
}

/// The operations of a plan.
pub open spec fn ops_of(actions: Seq<Action>) -> Seq<Op> {
    Seq::new(actions.len(), |i: int| actions[i]@)
}

/// The payload bytes of a page that was filled with `payload`.
pub open spec fn image(payload: Seq<u8>) -> Seq<u8> {
    Seq::new(PAYLOAD_BYTES as nat, |i: int| if i < payload.len() { payload[i] } else { 0u8 })
}

/// `pages` after one page write; a block that is not there stays away.
pub open spec fn write_page(pages: Seq<Seq<u8>>, w: (nat, Seq<u8>)) -> Seq<Seq<u8>> {
    if w.0 < pages.len() {
        pages.update(w.0 as int, image(w.1))
    } else {
        pages
    }
}

/// `pages` after these page writes, in order.
pub open spec fn write_pages(pages: Seq<Seq<u8>>, ws: Seq<(nat, Seq<u8>)>) -> Seq<Seq<u8>>
    decreases ws.len(),
{
    if ws.len() == 0 {
        pages
    } else {
        write_page(write_pages(pages, ws.drop_last()), ws.last())
    }
}

/// `pages` after one copy.
pub open spec fn copy_slot(pages: Seq<Seq<u8>>, c: SlotCopy) -> Seq<Seq<u8>> {
    let src = pages[c.src_blkno as int];
    let dst = pages[c.dst_blkno as int];
    pages.update(
        c.dst_blkno as int,
        Seq::new(
            dst.len(),
            |i: int|
                if c.dst_off <= i < c.dst_off + c.len {
                    src[i - c.dst_off + c.src_off]
                } else {
                    dst[i]
                },
        ),
    )
}

/// `pages` after one operation.
pub open spec fn step(pages: Seq<Seq<u8>>, op: Op) -> Seq<Seq<u8>> {
    match op {
        Op::ExtendTo(n) => Seq::new(
            if pages.len() < n {
                n
            } else {
                pages.len()
            },
            |b: int| if b < pages.len() { pages[b] } else { image(Seq::empty()) },
        ),
        Op::WritePages(ws) => write_pages(pages, ws),
        Op::CopySlot(c) => copy_slot(pages, c),
        Op::WriteMeta(b) => write_page(pages, (0, b)),
        Op::Truncate(n) => if n < pages.len() {
            pages.take(n as int)
        } else {
            pages
        },
    }
}

/// `pages` after these operations, in order.
pub open spec fn run(pages: Seq<Seq<u8>>, ops: Seq<Op>) -> Seq<Seq<u8>>
    decreases ops.len(),
{
    if ops.len() == 0 {
        pages
    } else {
        step(run(pages, ops.drop_last()), ops.last())
    }
}

/// A byte string and where it lies: `per_page` bytes in each block from `start` on.
pub struct Chain {
    pub start: nat,
    pub bytes: Seq<u8>,
    pub per_page: nat,
}

impl Chain {
    /// Blocks of the chain.
    pub open spec fn blocks(self) -> nat {
        if self.per_page == 0 {
            0
        } else {
            ceil_div(self.bytes.len(), self.per_page)
        }
    }

    /// Where byte `i` lies: the block.
    pub open spec fn block_of(self, i: int) -> int {
        self.start + i / (self.per_page as int)
    }

    /// The page writes of the chain.
    pub open spec fn writes(self) -> Seq<(nat, Seq<u8>)> {
        Seq::new(
            self.blocks(),
            |p: int|
                (
                    (self.start + p) as nat,
                    self.bytes.subrange(
                        p * self.per_page,
                        if p * self.per_page + self.per_page < self.bytes.len() {
                            p * self.per_page + self.per_page
                        } else {
                            self.bytes.len() as int
                        },
                    ),
                ),
        )
    }

    /// Whether the blocks of the chain are filled with its bytes.
    pub open spec fn laid_out_in(self, pages: Seq<Seq<u8>>) -> bool {
        &&& self.start + self.blocks() <= pages.len()
        &&& forall|p: int|
            0 <= p < self.blocks() ==> pages[self.start + p] == image(
                (#[trigger] self.writes()[p]).1,
            )
    }

    /// Whether byte `i` of the chain is where it belongs.
    pub open spec fn byte_held_by(self, pages: Seq<Seq<u8>>, i: int) -> bool {
        &&& 0 <= self.block_of(i) < pages.len()
        &&& self.bytes[i] == pages[self.block_of(i)][i % (self.per_page as int)]
    }

    /// Whether `pages` holds the chain.
    pub open spec fn held_by(self, pages: Seq<Seq<u8>>) -> bool {
        forall|i: int| 0 <= i < self.bytes.len() ==> #[trigger] self.byte_held_by(pages, i)
    }
}

/// Page writes in batches of [`PAGES_PER_BATCH`].
pub open spec fn in_batches(ws: Seq<(nat, Seq<u8>)>) -> Seq<Op> {
    Seq::new(
        ceil_div(ws.len(), PAGES_PER_BATCH as nat),
        |b: int|
            Op::WritePages(
                ws.subrange(
                    PAGES_PER_BATCH * b,
                    if PAGES_PER_BATCH * b + PAGES_PER_BATCH < ws.len() {
                        PAGES_PER_BATCH * b + PAGES_PER_BATCH
                    } else {
                        ws.len() as int
                    },
                ),
            ),
    )
}

/// The operations that write these chains, one after the other.
pub open spec fn chain_ops(chains: Seq<Chain>) -> Seq<Op>
    decreases chains.len(),
{
    if chains.len() == 0 {
        Seq::empty()
    } else {
        chain_ops(chains.drop_last()) + in_batches(chains.last().writes())
    }
}

proof fn lemma_pages_before(per: int, p: int, total: int)
    by (nonlinear_arith)
    requires
        per > 0,
        p >= 0,
        p * per < total,
    ensures
        p < total / per || total % per != 0,
        p <= total / per,
        0 <= p * per,
{
}

proof fn lemma_pages_after(per: int, p: int, total: int)
    by (nonlinear_arith)
    requires
        per > 0,
        p >= 0,
        total >= 0,
        p * per >= total,
    ensures
        total % per == 0 ==> p >= total / per,
        total % per != 0 ==> p >= total / per + 1,
{
}

/// `p` pages hold all of `total` bytes exactly when `p` reaches the number of pages.
pub proof fn lemma_ceil(per: nat, p: nat, total: nat)
    requires
        per > 0,
    ensures
        p < ceil_div(total, per) <==> p * per < total,
{
    if p * per < total {
        lemma_pages_before(per as int, p as int, total as int);
    } else {
        lemma_pages_after(per as int, p as int, total as int);
    }
}

/// Plans the pages of one chain, [`PAGES_PER_BATCH`] to a batch, and appends them to `out`.
pub fn write_chain_at(
    out: &mut Vec<Action>,
    start_blkno: u32,
    chain_bytes: &[u8],
    stride: u32,
    rows_per_page: u32,
    n_vectors: u64,
)
    requires
        chain_bytes@.len() == n_vectors * stride,
        rows_per_page * stride <= PAYLOAD_BYTES,
        start_blkno + (Chain {
            start: start_blkno as nat,
            bytes: chain_bytes@,
            per_page: (rows_per_page * stride) as nat,
        }).blocks() <= u32::MAX,
    ensures
        ops_of(final(out)@) == ops_of(old(out)@) + (if n_vectors == 0 || rows_per_page == 0 {
            Seq::empty()
        } else {
            in_batches(
                (Chain {
                    start: start_blkno as nat,
                    bytes: chain_bytes@,
                    per_page: (rows_per_page * stride) as nat,
                }).writes(),
            )
        }),
{
    let ghost chain = Chain {
        start: start_blkno as nat,
        bytes: chain_bytes@,
        per_page: (rows_per_page * stride) as nat,
    };
    if n_vectors == 0 || rows_per_page == 0 {
        assert(ops_of(out@) + Seq::<Op>::empty() =~= ops_of(out@));
        return;
    }
    proof {
        assert(rows_per_page * stride >= 0) by (nonlinear_arith);
    }
    let per_page: usize = (rows_per_page * stride) as usize;
    let total: usize = chain_bytes.len();
    let mut written: usize = 0;
    let mut blkno: u32 = start_blkno;
    let ghost before = ops_of(out@);
    let ghost mut p: nat = 0;
    let ghost mut b: nat = 0;
    proof {
        if total > 0 {
            assert(stride > 0) by (nonlinear_arith)
                requires
                    n_vectors * stride > 0,
            ;
            assert(rows_per_page * stride > 0) by (nonlinear_arith)
                requires
                    stride > 0,
                    rows_per_page > 0,
            ;
        } else {
            if per_page > 0 {
                lemma_ceil(per_page as nat, 0, 0);
            }
            assert(chain.blocks() == 0);
            assert(in_batches(chain.writes()) =~= Seq::<Op>::empty());
        }
        assert(before + in_batches(chain.writes()).take(0) =~= before);
    }
    while written < total
        invariant
            total == chain_bytes@.len(),
            chain.start == start_blkno,
            chain.bytes == chain_bytes@,
            chain.per_page == per_page,
            per_page <= PAYLOAD_BYTES,
            total > 0 ==> per_page > 0,
            start_blkno + chain.blocks() <= u32::MAX,
            written == (if p * per_page < total {
                p * per_page
            } else {
                total as int
            }),
            blkno == start_blkno + p,
            written < total ==> p == PAGES_PER_BATCH * b,
            p <= chain.blocks(),
            written >= total ==> p == chain.blocks(),
            b <= in_batches(chain.writes()).len(),
            written >= total ==> b == in_batches(chain.writes()).len(),
            ops_of(out@) == before + in_batches(chain.writes()).take(b as int),
        decreases total - written,
    {
        let mut batch: Vec<PageWrite> = Vec::new();
        let ghost p0 = p;
        let ghost written0 = written;
        let ghost writes = chain.writes();
        proof {
            lemma_ceil(per_page as nat, p, total as nat);
            assert(writes.subrange(p0 as int, p0 as int) =~= Seq::empty());
            assert(writes_of(batch@) =~= writes.subrange(p0 as int, p0 as int));
        }
        while batch.len() < PAGES_PER_BATCH && written < total
            invariant
                total == chain_bytes@.len(),
                chain.start == start_blkno,
                chain.bytes == chain_bytes@,
                chain.per_page == per_page,
                0 < per_page <= PAYLOAD_BYTES,
                start_blkno + chain.blocks() <= u32::MAX,
                written0 < total,
                written == (if p * per_page < total {
                    p * per_page
                } else {
                    total as int
                }),
                blkno == start_blkno + p,
                p == p0 + batch@.len(),
                batch@.len() <= PAGES_PER_BATCH,
                batch@.len() > 0 ==> written > written0,
                batch@.len() == 0 ==> written == written0,
                p <= chain.blocks(),
                written >= total ==> p == chain.blocks(),
                writes == chain.writes(),
                writes_of(batch@) == writes.subrange(p0 as int, p as int),
            decreases total - written,
        {
            proof {
                lemma_ceil(per_page as nat, p, total as nat);
                lemma_ceil(per_page as nat, p + 1, total as nat);
                assert((p + 1) * per_page == p * per_page + per_page) by (nonlinear_arith);
            }
            let rest: usize = total - written;
            let take: usize = if per_page < rest {
                per_page
            } else {
                rest
            };
            let mut payload: Vec<u8> = Vec::new();
            append_range(&mut payload, chain_bytes, written, written + take);
            let ghost batch0 = batch@;
            batch.push(PageWrite { blkno, payload });
            proof {
                assert(payload@ =~= chain_bytes@.subrange(
                    written as int,
                    (written + take) as int,
                ));
                assert(batch@.last()@ == writes[p as int]);
                assert(writes_of(batch@) =~= writes_of(batch0).push(writes[p as int]));
                assert(writes.subrange(p0 as int, (p + 1) as int) =~= writes.subrange(
                    p0 as int,
                    p as int,
                ).push(writes[p as int]));
                p = p + 1;
            }
            written += take;
            blkno += 1;
        }
        let ghost out0 = out@;
        out.push(Action::WritePages(batch));
        proof {
            lemma_ceil(per_page as nat, p, total as nat);
            lemma_ceil(PAGES_PER_BATCH as nat, b, writes.len());
            lemma_ceil(PAGES_PER_BATCH as nat, b + 1, writes.len());
            let all = in_batches(writes);
            assert(out@.last()@ == Op::WritePages(writes_of(batch@)));
            assert(all[b as int] == Op::WritePages(writes.subrange(p0 as int, p as int)));
            assert(ops_of(out@) =~= ops_of(out0).push(all[b as int]));
            assert(all.take((b + 1) as int) =~= all.take(b as int).push(all[b as int]));
            assert(ops_of(out@) =~= before + all.take((b + 1) as int));
            b = b + 1;
        }
    }
    proof {
        assert(in_batches(chain.writes()).take(b as int) =~= in_batches(chain.writes()));
    }
}

/// No block.
pub const NO_BLOCK: u32 = 0xffff_ffff;

/// Plans one chain behind the `nblk` blocks that a relation has, and says in which block it begins;
/// [`NO_BLOCK`] where there is nothing to write.
pub fn write_chain(
    out: &mut Vec<Action>,
    nblk: u32,
    chain_bytes: &[u8],
    stride: u32,
    rows_per_page: u32,
    n_vectors: u64,
) -> (r: u32)
    requires
        chain_bytes@.len() == n_vectors * stride,
        stride > 0,
        rows_per_page * stride <= PAYLOAD_BYTES,
        nblk + (Chain {
            start: nblk as nat,
            bytes: chain_bytes@,
            per_page: (rows_per_page * stride) as nat,
        }).blocks() <= u32::MAX,
    ensures
        ({
            let chain = Chain {
                start: nblk as nat,
                bytes: chain_bytes@,
                per_page: (rows_per_page * stride) as nat,
            };
            if n_vectors == 0 || rows_per_page == 0 {
                &&& r == NO_BLOCK
                &&& ops_of(final(out)@) == ops_of(old(out)@)
            } else {
                &&& r == nblk
                &&& ops_of(final(out)@) == ops_of(old(out)@).push(
                    Op::ExtendTo(nblk as nat + chain.blocks()),
                ) + in_batches(chain.writes())
            }
        }),
{
    if n_vectors == 0 || rows_per_page == 0 {
        return NO_BLOCK;
    }
    let ghost chain = Chain {
        start: nblk as nat,
        bytes: chain_bytes@,
        per_page: (rows_per_page * stride) as nat,
    };
    proof {
        assert(rows_per_page * stride > 0) by (nonlinear_arith)
            requires
                rows_per_page > 0,
                stride > 0,
        ;
    }
    let per_page: usize = rows_per_page as usize * stride as usize;
    let total: usize = chain_bytes.len();
    let pages: usize = total / per_page + (if total % per_page == 0 {
        0
    } else {
        1
    });
    assert(pages == chain.blocks());
    let ghost before = ops_of(out@);
    out.push(Action::ExtendTo(nblk + pages as u32));
    assert(ops_of(out@) =~= before.push(Op::ExtendTo(nblk as nat + chain.blocks())));
    write_chain_at(out, nblk, chain_bytes, stride, rows_per_page, n_vectors);
    nblk
}

/// Whether the chains lie one behind the other, behind block 0 and before block `limit`.
pub open spec fn in_order(chains: Seq<Chain>, limit: nat) -> bool {
    &&& forall|i: int|
        0 <= i < chains.len() ==> {
            &&& 1 <= (#[trigger] chains[i]).start
            &&& 1 <= chains[i].per_page <= PAYLOAD_BYTES
            &&& chains[i].start + chains[i].blocks() <= limit
        }
    &&& forall|i: int, j: int|
        0 <= i < j < chains.len() ==> (#[trigger] chains[i]).start + chains[i].blocks() <= (
        #[trigger] chains[j]).start
}

/// Whether block `b` belongs to one of the chains.
pub open spec fn in_chains(chains: Seq<Chain>, b: int) -> bool {
    exists|i: int|
        0 <= i < chains.len() && (#[trigger] chains[i]).start <= b < chains[i].start
            + chains[i].blocks()
}

/// Running two plans one after the other is running their concatenation.
pub proof fn run_concat(pages: Seq<Seq<u8>>, a: Seq<Op>, b: Seq<Op>)
    ensures
        run(pages, a + b) == run(run(pages, a), b),
    decreases b.len(),
{
    if b.len() == 0 {
        assert(a + b =~= a);
    } else {
        assert((a + b).drop_last() =~= a + b.drop_last());
        run_concat(pages, a, b.drop_last());
    }
}

proof fn lemma_write_pages_concat(
    pages: Seq<Seq<u8>>,
    a: Seq<(nat, Seq<u8>)>,
    b: Seq<(nat, Seq<u8>)>,
)
    ensures
        write_pages(pages, a + b) == write_pages(write_pages(pages, a), b),
    decreases b.len(),
{
    if b.len() == 0 {
        assert(a + b =~= a);
    } else {
        assert((a + b).drop_last() =~= a + b.drop_last());
        lemma_write_pages_concat(pages, a, b.drop_last());
    }
}

proof fn lemma_batches_prefix(pages: Seq<Seq<u8>>, ws: Seq<(nat, Seq<u8>)>, b: nat)
    requires
        b <= in_batches(ws).len(),
    ensures
        run(pages, in_batches(ws).take(b as int)) == write_pages(
            pages,
            ws.take(
                if PAGES_PER_BATCH * b < ws.len() {
                    PAGES_PER_BATCH * b
                } else {
                    ws.len() as int
                },
            ),
        ),
    decreases b,
{
    let all = in_batches(ws);
    if b == 0 {
        assert(all.take(0) =~= Seq::empty());
        assert(ws.take(0) =~= Seq::empty());
    } else {
        let c = (b - 1) as nat;
        lemma_batches_prefix(pages, ws, c);
        lemma_ceil(PAGES_PER_BATCH as nat, c, ws.len());
        assert(all.take(b as int).drop_last() =~= all.take(c as int));
        let from = PAGES_PER_BATCH * c;
        let to = if PAGES_PER_BATCH * b < ws.len() {
            PAGES_PER_BATCH * b
        } else {
            ws.len() as int
        };
        assert(all[c as int] == Op::WritePages(ws.subrange(from, to)));
        assert(ws.take(to) =~= ws.take(from) + ws.subrange(from, to));
        lemma_write_pages_concat(pages, ws.take(from), ws.subrange(from, to));
    }
}

proof fn lemma_run_batches(pages: Seq<Seq<u8>>, ws: Seq<(nat, Seq<u8>)>)
    ensures
        run(pages, in_batches(ws)) == write_pages(pages, ws),
{
    let all = in_batches(ws);
    lemma_batches_prefix(pages, ws, all.len());
    lemma_ceil(PAGES_PER_BATCH as nat, all.len(), ws.len());
    assert(all.take(all.len() as int) =~= all);
    assert(ws.take(ws.len() as int) =~= ws);
}

proof fn lemma_write_chain_prefix(pages: Seq<Seq<u8>>, chain: Chain, k: nat)
    requires
        k <= chain.blocks(),
        chain.start + chain.blocks() <= pages.len(),
    ensures
        ({
            let after = write_pages(pages, chain.writes().take(k as int));
            &&& after.len() == pages.len()
            &&& forall|b: int|
                0 <= b < pages.len() ==> #[trigger] after[b] == if chain.start <= b < chain.start
                    + k {
                    image(chain.writes()[b - chain.start].1)
                } else {
                    pages[b]
                }
        }),
    decreases k,
{
    let ws = chain.writes();
    if k == 0 {
        assert(ws.take(0) =~= Seq::empty());
    } else {
        let c = (k - 1) as nat;
        lemma_write_chain_prefix(pages, chain, c);
        assert(ws.take(k as int).drop_last() =~= ws.take(c as int));
        assert(ws.take(k as int).last() == ws[c as int]);
    }
}

/// Once a chain is written its blocks hold it, and no other block has changed.
pub proof fn lemma_chain_written(pages: Seq<Seq<u8>>, chain: Chain)
    requires
        chain.start + chain.blocks() <= pages.len(),
    ensures
        ({
            let after = run(pages, in_batches(chain.writes()));
            &&& after.len() == pages.len()
            &&& chain.laid_out_in(after)
            &&& forall|b: int|
                0 <= b < pages.len() && !(chain.start <= b < chain.start + chain.blocks())
                    ==> #[trigger] after[b] == pages[b]
        }),
{
    let ws = chain.writes();
    lemma_run_batches(pages, ws);
    lemma_write_chain_prefix(pages, chain, chain.blocks());
    assert(ws.take(ws.len() as int) =~= ws);
    let after = run(pages, in_batches(ws));
    assert forall|p: int| 0 <= p < chain.blocks() implies after[chain.start + p] == image(
        (#[trigger] chain.writes()[p]).1,
    ) by {
        assert(after[chain.start + p] == image(chain.writes()[chain.start + p - chain.start].1));
    }
}

/// Writing chains that lie in order fills the blocks of each and changes no other block.
pub proof fn chains_are_written(pages: Seq<Seq<u8>>, chains: Seq<Chain>)
    requires
        in_order(chains, pages.len()),
    ensures
        ({
            let after = run(pages, chain_ops(chains));
            &&& after.len() == pages.len()
            &&& forall|i: int|
                0 <= i < chains.len() ==> (#[trigger] chains[i]).laid_out_in(after)
            &&& forall|b: int|
                0 <= b < pages.len() && !in_chains(chains, b) ==> #[trigger] after[b] == pages[b]
        }),
    decreases chains.len(),
{
    if chains.len() > 0 {
        let head = chains.drop_last();
        let last = chains.last();
        let n = chains.len() - 1;
        assert(in_order(head, pages.len())) by {
            assert forall|i: int| 0 <= i < head.len() implies {
                &&& 1 <= (#[trigger] head[i]).start
                &&& 1 <= head[i].per_page <= PAYLOAD_BYTES
                &&& head[i].start + head[i].blocks() <= pages.len()
            } by {
                assert(head[i] == chains[i]);
            }
            assert forall|i: int, j: int| 0 <= i < j < head.len() implies (#[trigger] head[i]).start
                + head[i].blocks() <= (#[trigger] head[j]).start by {
                assert(head[i] == chains[i] && head[j] == chains[j]);
            }
        }
        chains_are_written(pages, head);
        let mid = run(pages, chain_ops(head));
        run_concat(pages, chain_ops(head), in_batches(last.writes()));
        assert(chains[n] == last);
        lemma_chain_written(mid, last);
        let after = run(pages, chain_ops(chains));
        assert forall|i: int| 0 <= i < chains.len() implies (#[trigger] chains[i]).laid_out_in(
            after,
        ) by {
            if i < n {
                assert(head[i] == chains[i]);
                assert(chains[i].start + chains[i].blocks() <= chains[n].start);
                assert forall|p: int| 0 <= p < chains[i].blocks() implies after[chains[i].start + p]
                    == image((#[trigger] chains[i].writes()[p]).1) by {
                    assert(head[i].laid_out_in(mid));
                    assert(after[chains[i].start + p] == mid[chains[i].start + p]);
                }
            }
        }
        assert forall|b: int| 0 <= b < pages.len() && !in_chains(chains, b) implies
            #[trigger] after[b] == pages[b] by {
            assert(!(chains[n].start <= b < chains[n].start + chains[n].blocks()));
            if in_chains(head, b) {
                let i = choose|i: int|
                    0 <= i < head.len() && (#[trigger] head[i]).start <= b < head[i].start
                        + head[i].blocks();
                assert(chains[i].start <= b < chains[i].start + chains[i].blocks());
            }
            assert(mid[b] == pages[b]);
        }
    }
}

proof fn lemma_place(per: int, i: int, total: int)
    by (nonlinear_arith)
    requires
        per > 0,
        0 <= i < total,
    ensures
        0 <= i / per,
        (i / per) * per <= i,
        i - (i / per) * per == i % per,
        0 <= i % per < per,
        (i / per) * per < total,
{
}

/// A chain that is laid out in a relation can be read back from it.
pub proof fn laid_out_chain_is_held(chain: Chain, pages: Seq<Seq<u8>>)
    requires
        chain.laid_out_in(pages),
        1 <= chain.per_page <= PAYLOAD_BYTES,
    ensures
        chain.held_by(pages),
{
    let per = chain.per_page as int;
    assert forall|i: int| 0 <= i < chain.bytes.len() implies #[trigger] chain.byte_held_by(
        pages,
        i,
    ) by {
        let p = i / per;
        lemma_place(per, i, chain.bytes.len() as int);
        lemma_ceil(chain.per_page, p as nat, chain.bytes.len());
        assert(p < chain.blocks());
        let w = chain.writes()[p];
        assert(pages[chain.start + p] == image(w.1));
        assert(w.1[i % per] == chain.bytes[p * per + i % per]);
    }
}

} // verus!
