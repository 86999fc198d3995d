//! Whole-relation writes: every chain first, the meta page last.
//!
//! A finished write leaves the chains packed from block 1 on and nothing behind them. On the way there
//! the chains take blocks that no chain of the index on disk uses, so that this index is all there until
//! the new meta page is written; where these are not the blocks from 1 on, the chains are moved to the
//! front afterwards, once more with the meta page last.
use std::collections::HashSet;
use vstd::prelude::*;
use vstd::slice::slice_to_vec;

use crate::bytes::{append_range, encode_u32s, encode_u64s, u32s_to_bytes, u64s_to_bytes};
use crate::chain::{
    chain_ops, in_batches, in_order, lemma_ceil, ops_of, write_chain_at, Action, Chain, Op,
    SlotCopy,
};
use crate::codec::meta_words;
use crate::page::{
    highest, lemma_highest_within, lowest, pages_for_bytes, pages_for_rows, stride_of, Codebook, MetaPageData, Span,
    PAYLOAD_BYTES,
};
use crate::reads::lemma_ceil_scaled;

verus! {

broadcast use vstd::std_specs::hash::group_hash_axioms;

/// The per-coordinate calibration pair of an index, as bit patterns of single-precision numbers.
/// Where either is empty the calibration is the identity and nothing is stored.
#[derive(Clone, Copy, Debug, PartialEq, Eq)]
pub struct PreparedParts<'a> {
    pub tqplus_shift: &'a [u32],
    pub tqplus_scale: &'a [u32],
}

/// The parts of a clustered index: `lists` coarse centroids, row by row, as bit patterns of
/// single-precision numbers, and the packed cell directory.
#[derive(Clone, Copy, Debug, PartialEq, Eq)]
pub struct IvfParts<'a> {
    pub lists: u32,
    pub coarse_centroids: &'a [u32],
    pub cell_dir_bytes: &'a [u8],
    /// Whether the index is a token index.
    pub colbert: bool,
}

/// The parts of a graph index: the packed adjacency in two halves, and the slot a search starts at.
#[derive(Clone, Copy, Debug, PartialEq, Eq)]
pub struct GraphParts<'a> {
    pub offsets_bytes: &'a [u8],
    pub neighbors_bytes: &'a [u8],
    pub entry_point: u32,
}

/// Why an index is not written.
#[derive(Clone, Copy, Debug, PartialEq, Eq, Structural)]
pub enum WriteError {
    /// The id table does not have one id per row.
    IdCount { ids: usize, n_vectors: u64 },
    /// The scale table does not have one scale per row.
    ScaleCount { scales: usize, n_vectors: u64 },
    /// A row has the id 0, which no heap row has.
    ZeroId { slot: usize },
    /// Two rows have the same id.
    DuplicateId { id: u64, slot: usize },
    /// The relation would need more blocks than there are block numbers.
    TooManyBlocks,
}

/// The meta page of an index and the actions that write the index.
#[derive(Debug, PartialEq, Eq)]
pub struct WritePlan {
    pub meta: MetaPageData,
    pub actions: Vec<Action>,
}

/// What a relation is before a write: how many blocks it has, and its meta page, where it has one.
#[derive(Clone, Copy, Debug, PartialEq, Eq)]
pub struct Standing {
    pub blocks: u32,
    pub meta: Option<MetaPageData>,
}

impl Standing {
    /// The first block behind every chain that is there, at which a layout of `need` blocks also has
    /// room in front of itself.
    pub open spec fn behind(self, need: nat) -> nat {
        let until = match self.meta {
            Some(m) => if highest(m.extents()) < self.blocks {
                highest(m.extents())
            } else {
                self.blocks as nat
            },
            None => 1,
        };
        if until < need {
            need
        } else {
            until
        }
    }

    /// Whether the chains of a layout of `need` blocks can be written at once from block 1 on: they lie
    /// in front of every chain that is there.
    pub open spec fn is_clear(self, need: nat) -> bool {
        need <= 1 || (self.meta matches Some(m) ==> need <= lowest(m.extents()))
    }

    /// Whether a layout of `need` blocks can be written without overwriting a chain that is there. Only
    /// block numbers set a limit to that.
    pub open spec fn spares(self, need: nat) -> bool {
        self.is_clear(need) || self.behind(need) - 1 + need <= u32::MAX
    }

    /// How many blocks behind the meta page the chains of a layout of `need` blocks leave free at
    /// first: none where they can be written at once, or where nothing else can be done.
    pub open spec fn gap(self, need: nat) -> nat {
        if self.is_clear(need) || !self.spares(need) {
            0
        } else {
            (self.behind(need) - 1) as nat
        }
    }

    /// How many blocks behind the meta page the chains of a layout of `need` blocks leave free at
    /// first.
    pub(crate) fn gap_for(&self, need: u64) -> (r: u32)
        requires
            need <= 0x1_0000_0000_0000,
        ensures
            r == self.gap(need as nat),
    {
        if need <= 1 {
            return 0;
        }
        match self.meta {
            None => 0,
            Some(m) => {
                let (from, until): (u64, u64) = m.used_blocks();
                if need <= from {
                    return 0;
                }
                let here: u64 = if until < self.blocks as u64 {
                    until
                } else {
                    self.blocks as u64
                };
                let at: u64 = if here < need {
                    need
                } else {
                    here
                };
                if at - 1 + need <= u32::MAX as u64 {
                    (at - 1) as u32
                } else {
                    0
                }
            },
        }
    }
}

/// While it lasts, a write takes no more room than the larger of the two indexes and the new one
/// together.
pub proof fn writing_takes_bounded_room(over: Standing, need: nat)
    requires
        over.meta is Some,
    ensures
        over.gap(need) + need <= need + if need < highest(over.meta->0.extents()) {
            highest(over.meta->0.extents())
        } else {
            need
        },
{
}

/// The codebook that turbovec derives from a bit width and a dimension: boundaries, centroids, as
/// bit patterns of single-precision numbers.
pub uninterp spec fn codebook_of(bit_width: nat, dim: nat) -> (Seq<u32>, Seq<u32>);

/// `turbovec::expected_codebook`: the boundaries and centroids of the Lloyd-Max codebook for a bit
/// width and a dimension, a pure function of the two; `2^bit_width` centroids with one boundary
/// between each two neighbours. It panics on other bit widths and dimensions than these.
#[verifier::external_body]
pub(crate) fn expected_codebook(bit_width: usize, dim: usize) -> (r: (Vec<u32>, Vec<u32>))
    requires
        2 <= bit_width <= 4,
        8 <= dim <= 16384,
        dim % 8 == 0,
    ensures
        (r.0@, r.1@) == codebook_of(bit_width as nat, dim as nat),
        r.1@.len() == (if bit_width == 2 {
            4int
        } else if bit_width == 3 {
            8
        } else {
            16
        }),
        r.0@.len() == r.1@.len() - 1,
{
    let (boundaries, centroids) = turbovec::expected_codebook(bit_width, dim);
    (
        boundaries.iter().map(|x| x.to_bits()).collect(),
        centroids.iter().map(|x| x.to_bits()).collect(),
    )
}

/// Whether an index of this shape can be stored: the quantiser has a codebook for it, and a page holds
/// a row.
pub open spec fn storable(bit_width: u8, dim: u32) -> bool {
    &&& 2 <= bit_width <= 4
    &&& dim % 8 == 0
    &&& 8 <= dim <= 16384
    &&& stride_of(bit_width as nat, dim as nat) <= PAYLOAD_BYTES
}

/// Whether an index of this shape can be stored.
pub fn is_storable(bit_width: u8, dim: u32) -> (r: bool)
    ensures
        r == storable(bit_width, dim),
        r ==> stride_of(bit_width as nat, dim as nat) >= 1,
{
    if !(2 <= bit_width && bit_width <= 4 && dim % 8 == 0 && 8 <= dim && dim <= 16384) {
        return false;
    }
    proof {
        assert(1 <= (dim / 8) * bit_width <= 8192) by (nonlinear_arith)
            requires
                8 <= dim <= 16384,
                2 <= bit_width <= 4,
        ;
    }
    (dim / 8) * bit_width as u32 <= PAYLOAD_BYTES as u32
}

/// The stored calibration: shift, then scale; nothing where either is empty.
pub open spec fn tqplus_bytes(p: PreparedParts<'_>) -> Seq<u8> {
    if p.tqplus_shift@.len() == 0 || p.tqplus_scale@.len() == 0 {
        Seq::empty()
    } else {
        u32s_to_bytes(p.tqplus_shift@ + p.tqplus_scale@)
    }
}

impl<'a> PreparedParts<'a> {
    /// The bytes of the calibration chain.
    pub fn tqplus_chain_bytes(&self) -> (r: Vec<u8>)
        ensures
            r@ == tqplus_bytes(*self),
    {
        if self.tqplus_shift.len() == 0 || self.tqplus_scale.len() == 0 {
            return Vec::new();
        }
        let mut out: Vec<u8> = encode_u32s(self.tqplus_shift);
        let scale: Vec<u8> = encode_u32s(self.tqplus_scale);
        let n: usize = scale.len();
        append_range(&mut out, scale.as_slice(), 0, n);
        assert(out@ =~= u32s_to_bytes(self.tqplus_shift@ + self.tqplus_scale@));
        out
    }

    /// The length of the calibration chain in bytes.
    pub fn tqplus_chain_len(&self) -> (r: u64)
        requires
            4 * (self.tqplus_shift@.len() + self.tqplus_scale@.len()) <= u64::MAX,
        ensures
            r == tqplus_bytes(*self).len(),
    {
        if self.tqplus_shift.len() == 0 || self.tqplus_scale.len() == 0 {
            return 0;
        }
        4 * (self.tqplus_shift.len() as u64 + self.tqplus_scale.len() as u64)
    }
}

/// Whether the id in `slot` cannot stand there: it is 0, or an earlier slot has it.
pub open spec fn bad_id(ids: Seq<u64>, slot: int) -> bool {
    ids[slot] == 0 || ids.take(slot).contains(ids[slot])
}

/// The first slot with a bad id.
pub open spec fn first_bad(ids: Seq<u64>) -> Option<int>
    decreases ids.len(),
{
    if ids.len() == 0 {
        None
    } else {
        match first_bad(ids.drop_last()) {
            Some(slot) => Some(slot),
            None => if ids.last() == 0 || ids.drop_last().contains(ids.last()) {
                Some(ids.len() - 1)
            } else {
                None
            },
        }
    }
}

/// The first bad slot is bad, and no slot before it is.
pub proof fn lemma_first_bad(ids: Seq<u64>)
    ensures
        match first_bad(ids) {
            Some(slot) => {
                &&& 0 <= slot < ids.len()
                &&& bad_id(ids, slot)
                &&& forall|i: int| 0 <= i < slot ==> !#[trigger] bad_id(ids, i)
            },
            None => {
                &&& forall|i: int| 0 <= i < ids.len() ==> !#[trigger] bad_id(ids, i)
                &&& ids.no_duplicates()
                &&& !ids.contains(0)
            },
        },
    decreases ids.len(),
{
    if ids.len() > 0 {
        let head = ids.drop_last();
        lemma_first_bad(head);
        assert forall|i: int| 0 <= i < head.len() implies #[trigger] bad_id(ids, i) == bad_id(
            head,
            i,
        ) by {
            assert(ids.take(i) =~= head.take(i));
        }
        assert(ids.take(ids.len() - 1) =~= head);
        if let Some(slot) = first_bad(head) {
            assert(bad_id(ids, slot));
        }
        if first_bad(ids) is None {
            assert forall|i: int, j: int| 0 <= i < ids.len() && 0 <= j < ids.len() && i != j implies
                ids[i] != ids[j] by {
                if i < head.len() && j < head.len() {
                    assert(head[i] != head[j]);
                } else if i < head.len() {
                    assert(head[i] == ids[i]);
                    assert(head.contains(head[i]));
                } else {
                    assert(head[j] == ids[j]);
                    assert(head.contains(head[j]));
                }
            }
            assert forall|i: int| 0 <= i < ids.len() implies ids[i] != 0 by {
                if i < head.len() {
                    assert(head[i] == ids[i]);
                    assert(head.contains(head[i]));
                }
            }
        }
    }
}

/// The first slot whose id is 0 or is already in an earlier slot.
pub fn first_bad_slot(ids: &[u64]) -> (r: Option<usize>)
    ensures
        match first_bad(ids@) {
            Some(slot) => r == Some(slot as usize) && slot < ids@.len(),
            None => r is None,
        },
{
    let mut seen: HashSet<u64> = HashSet::new();
    let mut i: usize = 0;
    proof {
        lemma_first_bad(ids@);
    }
    while i < ids.len()
        invariant
            i <= ids@.len(),
            first_bad(ids@) is Some ==> i <= first_bad(ids@)->0 < ids@.len(),
            match first_bad(ids@) {
                Some(slot) => bad_id(ids@, slot) && forall|i: int|
                    0 <= i < slot ==> !#[trigger] bad_id(ids@, i),
                None => forall|i: int| 0 <= i < ids@.len() ==> !#[trigger] bad_id(ids@, i),
            },
            forall|x: u64| #[trigger] seen@.contains(x) == ids@.take(i as int).contains(x),
        decreases ids@.len() - i,
    {
        let id: u64 = ids[i];
        if id == 0 {
            assert(bad_id(ids@, i as int));
            return Some(i);
        }
        let fresh: bool = seen.insert(id);
        if !fresh {
            assert(bad_id(ids@, i as int));
            return Some(i);
        }
        proof {
            assert(!bad_id(ids@, i as int));
            let before = ids@.take(i as int);
            let now = ids@.take(i + 1);
            assert(now =~= before.push(id));
            assert forall|x: u64| #[trigger] seen@.contains(x) == now.contains(x) by {
                if before.contains(x) {
                    let k = choose|k: int| 0 <= k < before.len() && before[k] == x;
                    assert(now[k] == x);
                }
                if now.contains(x) && x != id {
                    let k = choose|k: int| 0 <= k < now.len() && now[k] == x;
                    assert(before[k] == x);
                }
                assert(now[i as int] == id);
            }
        }
        i += 1;
    }
    None
}

/// The first id in the table that is 0 or stands in more than one slot; `None` where the table is a
/// proper one.
pub fn first_duplicate_id(ids: &[u64]) -> (r: Option<u64>)
    ensures
        match first_bad(ids@) {
            Some(slot) => r == Some(ids@[slot]),
            None => r is None,
        },
{
    proof {
        lemma_first_bad(ids@);
    }
    match first_bad_slot(ids) {
        Some(slot) => Some(ids[slot]),
        None => None,
    }
}

/// The cells of a clustered index, as bytes.
pub struct Cells {
    pub lists: u32,
    pub coarse: Seq<u8>,
    pub directory: Seq<u8>,
    pub colbert: bool,
}

/// The adjacency of a graph index, as bytes.
pub struct Adjacency {
    pub offsets: Seq<u8>,
    pub neighbors: Seq<u8>,
    pub entry_point: u32,
}

/// Everything that a relation stores of an index, and how many blocks it leaves free at first between
/// the meta page and the first chain.
pub struct Content {
    pub gap: nat,
    pub bit_width: u8,
    pub dim: u32,
    pub n_vectors: u64,
    pub am_version: u32,
    pub codes: Seq<u8>,
    pub scales: Seq<u32>,
    pub ids: Seq<u64>,
    pub tqplus: Seq<u8>,
    pub codebook: Codebook,
    pub cells: Option<Cells>,
    pub graph: Option<Adjacency>,
}

/// A chain of plain bytes.
pub open spec fn byte_chain(span: Span, bytes: Seq<u8>) -> Chain {
    Chain { start: span.first as nat, bytes, per_page: PAYLOAD_BYTES as nat }
}

/// `chains`, and behind them a chain of plain bytes where there are any.
pub open spec fn with_bytes(chains: Seq<Chain>, span: Span, bytes: Seq<u8>) -> Seq<Chain> {
    if bytes.len() == 0 {
        chains
    } else {
        chains.push(byte_chain(span, bytes))
    }
}

impl Content {
    /// Whether the tables fit together: one id, one scale and one code of the stride per row, a
    /// stride that fits on a page.
    pub open spec fn consistent(self) -> bool {
        &&& 1 <= stride_of(self.bit_width as nat, self.dim as nat) <= PAYLOAD_BYTES
        &&& self.codes.len() == self.n_vectors * stride_of(self.bit_width as nat, self.dim as nat)
        &&& self.scales.len() == self.n_vectors
        &&& self.ids.len() == self.n_vectors
    }

    /// Whether every byte string has a length that a machine can count.
    pub open spec fn countable(self) -> bool {
        &&& self.tqplus.len() <= u64::MAX
        &&& self.cells matches Some(c) ==> c.coarse.len() <= u64::MAX && c.directory.len()
            <= u64::MAX
        &&& self.graph matches Some(g) ==> g.offsets.len() + g.neighbors.len() <= u64::MAX
    }

    /// The layout of the row chains and the calibration chain.
    pub open spec fn row_meta(self) -> MetaPageData {
        MetaPageData::planned(
            self.bit_width,
            self.dim,
            self.n_vectors,
            self.am_version,
            0,
            0,
            self.tqplus.len() as u64,
            self.codebook,
        )
    }

    /// The layout with the cell chains.
    pub open spec fn cell_meta(self) -> MetaPageData {
        match self.cells {
            Some(c) => {
                let m = self.row_meta().with_ivf_chains(
                    c.lists,
                    c.coarse.len() as u64,
                    c.directory.len() as u64,
                );
                if c.colbert {
                    m.as_colbert()
                } else {
                    m
                }
            },
            None => self.row_meta(),
        }
    }

    /// The meta page.
    pub open spec fn meta(self) -> MetaPageData {
        self.tight_meta().shifted(self.gap)
    }

    /// The layout without the gap.
    pub open spec fn tight_meta(self) -> MetaPageData {
        match self.graph {
            Some(g) => self.cell_meta().with_graph_chain(
                g.offsets.len() as u64,
                g.neighbors.len() as u64,
                g.entry_point,
            ),
            None => self.cell_meta(),
        }
    }

    /// Blocks of the row chains, the calibration chain and the meta page.
    pub open spec fn row_blocks(self) -> nat {
        MetaPageData::planned_blocks(
            self.bit_width,
            self.dim,
            self.n_vectors,
            0,
            self.tqplus.len() as u64,
        )
    }

    /// Blocks of these and the cell chains.
    pub open spec fn cell_blocks(self) -> nat {
        self.row_blocks() + match self.cells {
            Some(c) => if c.lists == 0 {
                0
            } else {
                pages_for_bytes(c.coarse.len()) + pages_for_bytes(c.directory.len())
            },
            None => 0,
        }
    }

    /// Blocks of the whole relation.
    pub open spec fn blocks(self) -> nat {
        self.gap + self.tight_blocks()
    }

    /// Blocks of the whole relation without the gap.
    pub open spec fn tight_blocks(self) -> nat {
        self.cell_blocks() + match self.graph {
            Some(g) => pages_for_bytes(g.offsets.len() + g.neighbors.len()),
            None => 0,
        }
    }

    /// The row chains.
    pub open spec fn row_chains(self) -> Seq<Chain> {
        let m = self.meta();
        seq![
            Chain {
                start: m.codes.first as nat,
                bytes: self.codes,
                per_page: (m.rows_per_codes_page * m.stride_bytes) as nat,
            },
            byte_chain(m.scales, u32s_to_bytes(self.scales)),
            byte_chain(m.ids, u64s_to_bytes(self.ids)),
        ]
    }

    /// The coarse centroids that are stored.
    pub open spec fn coarse_bytes(self) -> Seq<u8> {
        match self.cells {
            Some(c) => if c.lists > 0 {
                c.coarse
            } else {
                Seq::empty()
            },
            None => Seq::empty(),
        }
    }

    /// The cell directory that is stored.
    pub open spec fn directory_bytes(self) -> Seq<u8> {
        match self.cells {
            Some(c) => if c.lists > 0 {
                c.directory
            } else {
                Seq::empty()
            },
            None => Seq::empty(),
        }
    }

    /// The adjacency that is stored.
    pub open spec fn adjacency_bytes(self) -> Seq<u8> {
        match self.graph {
            Some(g) => g.offsets + g.neighbors,
            None => Seq::empty(),
        }
    }

    /// Every chain, in the order in which they are written; none without rows.
    pub open spec fn chains(self) -> Seq<Chain> {
        if self.n_vectors == 0 {
            Seq::empty()
        } else {
            let m = self.meta();
            with_bytes(
                with_bytes(
                    with_bytes(
                        with_bytes(self.row_chains(), m.rotation, self.tqplus),
                        m.coarse,
                        self.coarse_bytes(),
                    ),
                    m.cell_dir,
                    self.directory_bytes(),
                ),
                m.graph,
                self.adjacency_bytes(),
            )
        }
    }

    /// The operations before the meta page is written: the relation is extended, then every chain
    /// is written.
    pub open spec fn ops_before_meta(self, existing: u32) -> Seq<Op> {
        (if existing < self.blocks() {
            seq![Op::ExtendTo(self.blocks())]
        } else {
            Seq::empty()
        }) + chain_ops(self.chains())
    }

    /// The same content without the gap.
    pub open spec fn in_front(self) -> Content {
        Content { gap: 0, ..self }
    }

    /// The operations that follow when every chain of the index is written. Without a gap these are the
    /// meta page and then the cut. Behind a gap the meta page is written, the chains are moved to the
    /// front, and the meta page is written for the place where they are now; only then the rest is cut
    /// off.
    pub open spec fn settling_ops(self, existing: u32) -> Seq<Op> {
        let marked = seq![Op::WriteMeta(u32s_to_bytes(meta_words(self.meta())))];
        if self.gap == 0 {
            marked + (if existing > self.blocks() {
                seq![Op::Truncate(self.blocks())]
            } else {
                Seq::empty()
            })
        } else {
            marked + move_ops(self.gap, (self.tight_blocks() - 1) as nat) + seq![
                Op::WriteMeta(u32s_to_bytes(meta_words(self.in_front().meta()))),
                Op::Truncate(self.tight_blocks()),
            ]
        }
    }

    /// The operations that write the index over a relation of `existing` blocks.
    pub open spec fn ops(self, existing: u32) -> Seq<Op> {
        self.ops_before_meta(existing) + self.settling_ops(existing)
    }
}

/// The copy of a whole page.
pub open spec fn page_copy(from: nat, to: nat) -> SlotCopy {
    SlotCopy {
        src_blkno: from as u32,
        src_off: 0,
        dst_blkno: to as u32,
        dst_off: 0,
        len: PAYLOAD_BYTES,
    }
}

/// The operations that move `n` blocks from behind a gap to block 1 and on, the first one first.
pub open spec fn move_ops(gap: nat, n: nat) -> Seq<Op> {
    Seq::new(n, |b: int| Op::CopySlot(page_copy((gap + 1 + b) as nat, (1 + b) as nat)))
}

/// The content that a write is asked to store, behind a gap.
pub open spec fn content_of(
    gap: nat,
    bit_width: u8,
    dim: u32,
    n_vectors: u64,
    codes: Seq<u8>,
    scales: Seq<u32>,
    ids: Seq<u64>,
    am_version: u32,
    prepared: Option<PreparedParts<'_>>,
    ivf: Option<IvfParts<'_>>,
    graph: Option<GraphParts<'_>>,
    codebook: Codebook,
) -> Content {
    Content {
        gap,
        bit_width,
        dim,
        n_vectors,
        am_version,
        codes,
        scales,
        ids,
        tqplus: match prepared {
            Some(p) => tqplus_bytes(p),
            None => Seq::empty(),
        },
        codebook,
        cells: match ivf {
            Some(v) => Some(
                Cells {
                    lists: v.lists,
                    coarse: u32s_to_bytes(v.coarse_centroids@),
                    directory: v.cell_dir_bytes@,
                    colbert: v.colbert,
                },
            ),
            None => None,
        },
        graph: match graph {
            Some(g) => Some(
                Adjacency {
                    offsets: g.offsets_bytes@,
                    neighbors: g.neighbors_bytes@,
                    entry_point: g.entry_point,
                },
            ),
            None => None,
        },
    }
}

/// Whether the inline codebook is the one that belongs to a write: the derived one where the
/// prepared parts come along, none otherwise.
pub open spec fn codebook_belongs(
    bit_width: u8,
    dim: u32,
    prepared: Option<PreparedParts<'_>>,
    codebook: Codebook,
) -> bool {
    if prepared is Some {
        codebook.holds(
            codebook_of(bit_width as nat, dim as nat).1,
            codebook_of(bit_width as nat, dim as nat).0,
        )
    } else {
        codebook.is_blank()
    }
}

/// Why the tables of a write are refused, if they are. Ids must be proper ones only where each row
/// has its own id: neither with cells, which may share rows, nor with a graph.
pub open spec fn table_fault(
    n_vectors: u64,
    scales: Seq<u32>,
    ids: Seq<u64>,
    own_ids: bool,
) -> Option<WriteError> {
    if ids.len() != n_vectors {
        Some(WriteError::IdCount { ids: ids.len() as usize, n_vectors })
    } else if scales.len() != n_vectors {
        Some(WriteError::ScaleCount { scales: scales.len() as usize, n_vectors })
    } else if own_ids {
        match first_bad(ids) {
            Some(slot) => if ids[slot] == 0 {
                Some(WriteError::ZeroId { slot: slot as usize })
            } else {
                Some(WriteError::DuplicateId { id: ids[slot], slot: slot as usize })
            },
            None => None,
        }
    } else {
        None
    }
}

pub(crate) fn check_tables(n_vectors: u64, scales: &[u32], slot_to_id: &[u64], own_ids: bool) -> (r: Option<
    WriteError,
>)
    ensures
        r == table_fault(n_vectors, scales@, slot_to_id@, own_ids),
{
    if slot_to_id.len() as u64 != n_vectors {
        return Some(WriteError::IdCount { ids: slot_to_id.len(), n_vectors });
    }
    if scales.len() as u64 != n_vectors {
        return Some(WriteError::ScaleCount { scales: scales.len(), n_vectors });
    }
    if own_ids {
        proof {
            lemma_first_bad(slot_to_id@);
        }
        if let Some(slot) = first_bad_slot(slot_to_id) {
            if slot_to_id[slot] == 0 {
                return Some(WriteError::ZeroId { slot });
            }
            return Some(WriteError::DuplicateId { id: slot_to_id[slot], slot });
        }
    }
    None
}

/// Plans a chain of plain bytes; nothing where there are none.
pub(crate) fn write_bytes_at(out: &mut Vec<Action>, span: Span, bytes: &[u8])
    requires
        bytes@.len() > 0 ==> span.first + pages_for_bytes(bytes@.len()) <= u32::MAX,
    ensures
        ops_of(final(out)@) == ops_of(old(out)@) + (if bytes@.len() == 0 {
            Seq::empty()
        } else {
            in_batches(byte_chain(span, bytes@).writes())
        }),
{
    if bytes.len() == 0 {
        assert(ops_of(out@) + Seq::<Op>::empty() =~= ops_of(out@));
        return;
    }
    write_chain_at(out, span.first, bytes, 1, PAYLOAD_BYTES as u32, bytes.len() as u64);
}

/// The blocks that a write needs, without a gap.
pub open spec fn blocks_needed(
    bit_width: u8,
    dim: u32,
    n_vectors: u64,
    prepared: Option<PreparedParts<'_>>,
    ivf: Option<IvfParts<'_>>,
    graph: Option<GraphParts<'_>>,
) -> nat {
    content_of(
        0,
        bit_width,
        dim,
        n_vectors,
        Seq::empty(),
        Seq::empty(),
        Seq::empty(),
        0,
        prepared,
        ivf,
        graph,
        arbitrary(),
    ).tight_blocks()
}

proof fn lemma_codes_per_page(stride: nat)
    by (nonlinear_arith)
    requires
        1 <= stride <= 8168,
    ensures
        1 <= 8168nat / stride <= 8168,
        (8168nat / stride) * stride <= 8168,
        1 <= (8168nat / stride) * stride,
{
}

proof fn lemma_row_pages(c: Content)
    requires
        1 <= stride_of(c.bit_width as nat, c.dim as nat) <= PAYLOAD_BYTES,
        c.row_blocks() <= u32::MAX,
    ensures
        c.row_meta().block_count() == c.row_blocks(),
        c.row_meta().stride_bytes == stride_of(c.bit_width as nat, c.dim as nat),
        c.row_meta().rows_per_codes_page == 8168nat / stride_of(c.bit_width as nat, c.dim as nat),
        1 <= c.row_meta().rows_per_codes_page * c.row_meta().stride_bytes <= PAYLOAD_BYTES,
        1 <= c.row_meta().rows_per_codes_page,
        c.row_meta().codes.count == pages_for_rows(
            c.n_vectors as nat,
            c.row_meta().rows_per_codes_page as nat,
        ),
        c.row_meta().scales.count == pages_for_rows(c.n_vectors as nat, 2042),
        c.row_meta().ids.count == pages_for_rows(c.n_vectors as nat, 1021),
        c.n_vectors > 0 ==> {
            &&& c.row_meta().codes.first == 1 && c.row_meta().codes.count > 0
            &&& c.row_meta().scales.first == 1 + c.row_meta().codes.count
            &&& c.row_meta().scales.count > 0
            &&& c.row_meta().ids.first == 1 + c.row_meta().codes.count + c.row_meta().scales.count
            &&& c.row_meta().ids.count > 0
        },
        c.n_vectors > 0 && c.tqplus.len() <= u64::MAX ==> {
            &&& c.row_meta().rotation.count == pages_for_bytes(c.tqplus.len())
            &&& c.row_blocks() == 1 + c.row_meta().codes.count + c.row_meta().scales.count
                + c.row_meta().ids.count + pages_for_bytes(c.tqplus.len())
            &&& c.row_meta().rotation.count > 0 ==> c.row_meta().rotation.first == 1
                + c.row_meta().codes.count + c.row_meta().scales.count + c.row_meta().ids.count
        },
        c.n_vectors == 0 ==> c.row_meta().codes.count == 0 && c.row_meta().scales.count == 0
            && c.row_meta().ids.count == 0 && c.row_meta().rotation.count == 0,
        c.row_meta().blocked.count == 0,
{
    let stride = stride_of(c.bit_width as nat, c.dim as nat);
    lemma_codes_per_page(stride);
    let rpc = 8168nat / stride;
    lemma_ceil(rpc, 0, c.n_vectors as nat);
    lemma_ceil(2042, 0, c.n_vectors as nat);
    lemma_ceil(1021, 0, c.n_vectors as nat);
    lemma_ceil(PAYLOAD_BYTES as nat, 0, 0);
    assert(c.row_meta().rows_per_codes_page == rpc);
}

/// Where the chains lie without the gap.
pub proof fn lemma_tight_layout(c: Content)
    requires
        1 <= stride_of(c.bit_width as nat, c.dim as nat) <= PAYLOAD_BYTES,
        c.countable(),
        c.tight_blocks() <= u32::MAX,
    ensures
        c.row_meta().block_count() == c.row_blocks(),
        c.cell_meta().block_count() == c.cell_blocks(),
        c.tight_meta().block_count() == c.tight_blocks(),
        c.tight_meta().stride_bytes == stride_of(c.bit_width as nat, c.dim as nat),
        c.tight_meta().n_vectors == c.n_vectors,
        c.tight_meta().rows_per_codes_page == c.row_meta().rows_per_codes_page,
        c.tight_meta().rows_per_scales_page == 2042,
        c.tight_meta().rows_per_ids_page == 1021,
        c.tight_meta().codes == c.row_meta().codes,
        c.tight_meta().scales == c.row_meta().scales,
        c.tight_meta().ids == c.row_meta().ids,
        c.tight_meta().blocked == c.row_meta().blocked,
        c.tight_meta().rotation == c.row_meta().rotation,
        c.tight_meta().coarse.count == pages_for_bytes(c.coarse_bytes().len()),
        c.tight_meta().cell_dir.count == pages_for_bytes(c.directory_bytes().len()),
        c.tight_meta().graph.count == pages_for_bytes(c.adjacency_bytes().len()),
        c.tight_meta().tombstone.count == 0,
        c.cell_blocks() == c.row_blocks() + pages_for_bytes(c.coarse_bytes().len())
            + pages_for_bytes(c.directory_bytes().len()),
        c.tight_blocks() == c.cell_blocks() + pages_for_bytes(c.adjacency_bytes().len()),
        c.tight_meta().coarse.count > 0 ==> c.tight_meta().coarse.first == c.row_blocks(),
        c.tight_meta().cell_dir.count > 0 ==> c.tight_meta().cell_dir.first == c.row_blocks()
            + pages_for_bytes(c.coarse_bytes().len()),
        c.tight_meta().graph.count > 0 ==> c.tight_meta().graph.first == c.cell_blocks(),
{
    lemma_row_pages(c);
    lemma_ceil(PAYLOAD_BYTES as nat, 0, 0);
    assert(pages_for_bytes(0) == 0);
}

/// Without the gap the layout ends where its blocks do.
pub proof fn lemma_layout_within(c: Content)
    requires
        1 <= stride_of(c.bit_width as nat, c.dim as nat) <= PAYLOAD_BYTES,
        c.countable(),
        c.tight_blocks() <= u32::MAX,
    ensures
        highest(c.tight_meta().extents()) <= c.tight_blocks(),
{
    lemma_row_pages(c);
    lemma_tight_layout(c);
    let t = c.tight_meta();
    let es = t.extents();
    assert forall|i: int| 0 <= i < es.len() && (#[trigger] es[i]).1 > 0 implies es[i].0 + es[i].1
        <= c.tight_blocks() by {
        assert(0 <= i < 9);
        if i == 0 {
            assert(es[i].1 == t.codes.count);
        } else if i == 1 {
            assert(es[i].1 == t.scales.count);
        } else if i == 2 {
            assert(es[i].1 == t.ids.count);
        }
    }
    lemma_highest_within(es, c.tight_blocks());
}

/// The layout accounts for every block, and the row chains take the blocks that they are given.
pub proof fn lemma_row_layout(c: Content)
    requires
        c.consistent(),
        c.countable(),
        c.blocks() <= u32::MAX,
    ensures
        c.meta().block_count() == c.tight_blocks(),
        c.tight_meta().block_count() == c.tight_blocks(),
        c.meta().stride_bytes == stride_of(c.bit_width as nat, c.dim as nat),
        c.meta().n_vectors == c.n_vectors,
        1 <= c.meta().rows_per_codes_page * c.meta().stride_bytes <= PAYLOAD_BYTES,
        1 <= c.meta().rows_per_codes_page,
        c.meta().rows_per_scales_page == 2042,
        c.meta().rows_per_ids_page == 1021,
        c.row_chains()[0].blocks() == c.meta().codes.count,
        c.row_chains()[1].blocks() == c.meta().scales.count,
        c.row_chains()[2].blocks() == c.meta().ids.count,
        c.n_vectors > 0 ==> {
            &&& c.meta().codes.first == c.gap + 1
            &&& c.meta().scales.first == c.gap + 1 + c.meta().codes.count
            &&& c.meta().ids.first == c.gap + 1 + c.meta().codes.count + c.meta().scales.count
            &&& c.gap + c.row_blocks() == c.gap + 1 + c.meta().codes.count + c.meta().scales.count
                + c.meta().ids.count + pages_for_bytes(c.tqplus.len())
            &&& c.tqplus.len() > 0 ==> c.meta().rotation.first == c.gap + 1 + c.meta().codes.count
                + c.meta().scales.count + c.meta().ids.count
        },
        c.coarse_bytes().len() > 0 ==> c.meta().coarse.first == c.gap + c.row_blocks(),
        c.directory_bytes().len() > 0 ==> c.meta().cell_dir.first == c.gap + c.row_blocks()
            + pages_for_bytes(c.coarse_bytes().len()),
        c.cell_blocks() == c.row_blocks() + pages_for_bytes(c.coarse_bytes().len())
            + pages_for_bytes(c.directory_bytes().len()),
        c.tight_blocks() == c.cell_blocks() + pages_for_bytes(c.adjacency_bytes().len()),
        c.adjacency_bytes().len() > 0 ==> c.meta().graph.first == c.gap + c.cell_blocks(),
{
    let stride = stride_of(c.bit_width as nat, c.dim as nat);
    lemma_row_pages(c);
    lemma_tight_layout(c);
    let rpc = c.row_meta().rows_per_codes_page as nat;
    lemma_ceil_scaled(c.n_vectors as nat, rpc, stride);
    lemma_ceil_scaled(c.n_vectors as nat, 2042, 4);
    lemma_ceil_scaled(c.n_vectors as nat, 1021, 8);
    lemma_ceil(PAYLOAD_BYTES as nat, 0, c.tqplus.len());
    lemma_ceil(PAYLOAD_BYTES as nat, 0, c.coarse_bytes().len());
    lemma_ceil(PAYLOAD_BYTES as nat, 0, c.directory_bytes().len());
    lemma_ceil(PAYLOAD_BYTES as nat, 0, c.adjacency_bytes().len());
}

/// The relation ends where the last chain does. Where there is no chain, there is to be no gap.
pub proof fn lemma_relation_ends_with_its_chains(c: Content)
    requires
        c.consistent(),
        c.countable(),
        c.blocks() <= u32::MAX,
        c.tight_blocks() > 1 || c.gap == 0,
    ensures
        c.meta().chain_end() == c.blocks(),
{
    lemma_row_pages(c);
    lemma_tight_layout(c);
    let t = c.tight_meta();
    assert(t.chain_end() == c.tight_blocks());
}

/// Every chain is laid out behind the one before it, behind the gap and inside the relation.
pub proof fn lemma_chains_in_order(c: Content)
    requires
        c.consistent(),
        c.countable(),
        c.blocks() <= u32::MAX,
    ensures
        in_order(c.chains(), c.blocks()),
        forall|i: int| 0 <= i < c.chains().len() ==> (#[trigger] c.chains()[i]).start > c.gap,
{
    if c.n_vectors > 0 {
        lemma_row_layout(c);
        let m = c.meta();
        let a = c.row_chains();
        let at = (c.gap + 1 + m.codes.count + m.scales.count + m.ids.count) as nat;
        assert(in_order(a, at));
        lemma_order_behind(c, a, at);
    }
}

proof fn lemma_order_behind(c: Content, a: Seq<Chain>, at: nat)
    requires
        a.len() > 0,
        in_order(a, at),
        1 <= at,
        forall|i: int| 0 <= i < a.len() ==> (#[trigger] a[i]).start > c.gap,
        c.gap < at,
        c.tqplus.len() > 0 ==> c.meta().rotation.first == at,
        at + pages_for_bytes(c.tqplus.len()) == c.gap + c.row_blocks(),
        c.coarse_bytes().len() > 0 ==> c.meta().coarse.first == c.gap + c.row_blocks(),
        c.directory_bytes().len() > 0 ==> c.meta().cell_dir.first == c.gap + c.row_blocks()
            + pages_for_bytes(c.coarse_bytes().len()),
        c.cell_blocks() == c.row_blocks() + pages_for_bytes(c.coarse_bytes().len())
            + pages_for_bytes(c.directory_bytes().len()),
        c.tight_blocks() == c.cell_blocks() + pages_for_bytes(c.adjacency_bytes().len()),
        c.adjacency_bytes().len() > 0 ==> c.meta().graph.first == c.gap + c.cell_blocks(),
    ensures
        ({
            let m = c.meta();
            let b = with_bytes(a, m.rotation, c.tqplus);
            let d = with_bytes(b, m.coarse, c.coarse_bytes());
            let e = with_bytes(d, m.cell_dir, c.directory_bytes());
            let all = with_bytes(e, m.graph, c.adjacency_bytes());
            &&& in_order(all, c.blocks())
            &&& forall|i: int| 0 <= i < all.len() ==> (#[trigger] all[i]).start > c.gap
        }),
{
    let m = c.meta();
    let b = with_bytes(a, m.rotation, c.tqplus);
    lemma_in_order_bytes(a, at, m.rotation, c.tqplus);
    let d = with_bytes(b, m.coarse, c.coarse_bytes());
    lemma_in_order_bytes(b, c.gap + c.row_blocks(), m.coarse, c.coarse_bytes());
    let e = with_bytes(d, m.cell_dir, c.directory_bytes());
    lemma_in_order_bytes(
        d,
        c.gap + c.row_blocks() + pages_for_bytes(c.coarse_bytes().len()),
        m.cell_dir,
        c.directory_bytes(),
    );
    lemma_in_order_bytes(e, c.gap + c.cell_blocks(), m.graph, c.adjacency_bytes());
}

proof fn lemma_in_order_bytes(chains: Seq<Chain>, limit: nat, span: Span, bytes: Seq<u8>)
    requires
        in_order(chains, limit),
        1 <= limit,
        bytes.len() > 0 ==> span.first == limit,
    ensures
        in_order(with_bytes(chains, span, bytes), limit + pages_for_bytes(bytes.len())),
{
    let all = with_bytes(chains, span, bytes);
    let upto = limit + pages_for_bytes(bytes.len());
    assert forall|i: int| 0 <= i < all.len() implies {
        &&& 1 <= (#[trigger] all[i]).start
        &&& 1 <= all[i].per_page <= PAYLOAD_BYTES
        &&& all[i].start + all[i].blocks() <= upto
    } by {
        if i < chains.len() {
            assert(all[i] == chains[i]);
        }
    }
    assert forall|i: int, j: int| 0 <= i < j < all.len() implies (#[trigger] all[i]).start
        + all[i].blocks() <= (#[trigger] all[j]).start by {
        assert(all[i] == chains[i]);
        if j < chains.len() {
            assert(all[j] == chains[j]);
        }
    }
}

/// The byte strings that are stored besides the rows.
pub(crate) struct StoredParts {
    pub tqplus: Vec<u8>,
    pub coarse: Vec<u8>,
    pub directory: Vec<u8>,
    pub adjacency: Vec<u8>,
}

spec fn parts_belong(
    prepared: Option<PreparedParts<'_>>,
    ivf: Option<IvfParts<'_>>,
    graph: Option<GraphParts<'_>>,
    parts: StoredParts,
) -> bool {
    &&& parts.tqplus@ == match prepared {
        Some(p) => tqplus_bytes(p),
        None => Seq::empty(),
    }
    &&& parts.coarse@ == match ivf {
        Some(v) => u32s_to_bytes(v.coarse_centroids@),
        None => Seq::empty(),
    }
    &&& parts.directory@ == match ivf {
        Some(v) => v.cell_dir_bytes@,
        None => Seq::empty(),
    }
    &&& parts.adjacency@ == match graph {
        Some(g) => g.offsets_bytes@ + g.neighbors_bytes@,
        None => Seq::empty(),
    }
    &&& parts.tqplus.len() <= usize::MAX
    &&& parts.coarse.len() <= usize::MAX
    &&& parts.directory.len() <= usize::MAX
    &&& parts.adjacency.len() <= usize::MAX
}

fn stored_parts(
    prepared: Option<PreparedParts<'_>>,
    ivf: Option<IvfParts<'_>>,
    graph: Option<GraphParts<'_>>,
) -> (r: StoredParts)
    ensures
        parts_belong(prepared, ivf, graph, r),
{
    let tqplus: Vec<u8> = match &prepared {
        Some(p) => p.tqplus_chain_bytes(),
        None => Vec::new(),
    };
    let mut coarse: Vec<u8> = Vec::new();
    let mut directory: Vec<u8> = Vec::new();
    if let Some(v) = &ivf {
        coarse = encode_u32s(v.coarse_centroids);
        directory = slice_to_vec(v.cell_dir_bytes);
    }
    let mut adjacency: Vec<u8> = Vec::new();
    if let Some(g) = &graph {
        adjacency = slice_to_vec(g.offsets_bytes);
        append_range(&mut adjacency, g.neighbors_bytes, 0, g.neighbors_bytes.len());
        assert(adjacency@ =~= g.offsets_bytes@ + g.neighbors_bytes@);
    }
    StoredParts { tqplus, coarse, directory, adjacency }
}

proof fn lemma_content_parts(
    c: Content,
    prepared: Option<PreparedParts<'_>>,
    ivf: Option<IvfParts<'_>>,
    graph: Option<GraphParts<'_>>,
    parts: StoredParts,
)
    requires
        parts_belong(prepared, ivf, graph, parts),
        c == content_of(
            c.gap,
            c.bit_width,
            c.dim,
            c.n_vectors,
            c.codes,
            c.scales,
            c.ids,
            c.am_version,
            prepared,
            ivf,
            graph,
            c.codebook,
        ),
    ensures
        c.countable(),
        parts.tqplus@ == c.tqplus,
        c.cells is Some == ivf is Some,
        c.graph is Some == graph is Some,
        c.cells matches Some(cells) ==> {
            &&& parts.coarse@ == cells.coarse
            &&& parts.directory@ == cells.directory
            &&& ivf matches Some(v) && cells.lists == v.lists && cells.colbert == v.colbert
        },
        c.cells is None ==> parts.coarse@.len() == 0 && parts.directory@.len() == 0,
        parts.adjacency@ == c.adjacency_bytes(),
        c.tight_blocks() == blocks_needed(c.bit_width, c.dim, c.n_vectors, prepared, ivf, graph),
{
}

fn plan_meta(
    bit_width: u8,
    dim: u32,
    n_vectors: u64,
    am_version: u32,
    prepared: Option<PreparedParts<'_>>,
    ivf: Option<IvfParts<'_>>,
    graph: Option<GraphParts<'_>>,
    parts: &StoredParts,
) -> (r: Option<MetaPageData>)
    requires
        1 <= stride_of(bit_width as nat, dim as nat) <= PAYLOAD_BYTES,
        prepared is Some ==> 2 <= bit_width <= 4 && dim % 8 == 0 && 8 <= dim <= 16384,
        parts_belong(prepared, ivf, graph, *parts),
    ensures
        r is Some == (blocks_needed(bit_width, dim, n_vectors, prepared, ivf, graph) <= u32::MAX),
        r matches Some(m) ==> {
            &&& codebook_belongs(bit_width, dim, prepared, m.codebook)
            &&& forall|codes: Seq<u8>, scales: Seq<u32>, ids: Seq<u64>|
                m == (#[trigger] content_of(
                    0,
                    bit_width,
                    dim,
                    n_vectors,
                    codes,
                    scales,
                    ids,
                    am_version,
                    prepared,
                    ivf,
                    graph,
                    m.codebook,
                )).tight_meta()
        },
{
    let planned: Option<MetaPageData> = MetaPageData::plan_with_blocked(
        bit_width,
        dim,
        n_vectors,
        am_version,
        0,
        0,
        parts.tqplus.len() as u64,
    );
    let mut meta: MetaPageData = match planned {
        Some(m) => m,
        None => {
            return None;
        },
    };
    if prepared.is_some() {
        let derived: (Vec<u32>, Vec<u32>) = expected_codebook(bit_width as usize, dim as usize);
        meta.set_codebook(derived.1.as_slice(), derived.0.as_slice());
    }
    let ghost c = content_of(
        0,
        bit_width,
        dim,
        n_vectors,
        Seq::empty(),
        Seq::empty(),
        Seq::empty(),
        am_version,
        prepared,
        ivf,
        graph,
        meta.codebook,
    );
    proof {
        lemma_content_parts(c, prepared, ivf, graph, *parts);
    }
    assert(meta == c.row_meta());
    assert(meta.block_count() == c.row_blocks());
    if let Some(v) = &ivf {
        if !meta.set_ivf_chains(
            v.lists,
            parts.coarse.len() as u64,
            parts.directory.len() as u64,
        ) {
            return None;
        }
        if v.colbert {
            meta.mark_colbert();
        }
    }
    assert(meta == c.cell_meta());
    assert(meta.block_count() == c.cell_blocks());
    if let Some(g) = &graph {
        if !meta.set_graph_chain(
            g.offsets_bytes.len() as u64,
            g.neighbors_bytes.len() as u64,
            g.entry_point,
        ) {
            return None;
        }
    }
    assert(meta == c.tight_meta());
    Some(meta)
}

/// A gap moves the layout and changes nothing else.
pub proof fn lemma_gap_moves_the_layout(c: Content, gap: nat)
    ensures
        (Content { gap, ..c }).tight_meta() == c.tight_meta(),
        (Content { gap, ..c }).tight_blocks() == c.tight_blocks(),
        (Content { gap, ..c }).meta() == c.tight_meta().shifted(gap),
        c.in_front().meta() == c.tight_meta(),
{
    assert(c.tight_meta().shifted(0) == c.tight_meta());
}

/// Moves a layout to where it overwrites nothing that is there: the meta page, and the blocks that
/// the relation then needs; `None` where they would not all have a number.
pub(crate) fn place_layout(tight: &MetaPageData, gap: u32) -> (r: Option<(MetaPageData, u32)>)
    requires
        highest(tight.extents()) <= tight.block_count() <= u32::MAX,
    ensures
        r is Some == (gap + tight.block_count() <= u32::MAX),
        r matches Some((m, total)) ==> m == tight.shifted(gap as nat) && total == gap
            + tight.block_count(),
{
    let need: u32 = tight.chain_blocks() as u32;
    if gap as u64 + need as u64 > u32::MAX as u64 {
        return None;
    }
    let mut m: MetaPageData = *tight;
    m.shift_chains(gap);
    Some((m, gap + need))
}

/// Plans what follows when every chain of an index is written: the meta page, and the move to the
/// front and the cut where they are needed.
#[verifier::rlimit(60)]
#[verifier::spinoff_prover]
pub(crate) fn push_settling(
    actions: &mut Vec<Action>,
    meta: &MetaPageData,
    tight: &MetaPageData,
    gap: u32,
    need: u32,
    existing: u32,
    Ghost(content): Ghost<Content>,
)
    requires
        gap == content.gap,
        need == content.tight_blocks(),
        need >= 1,
        content.blocks() <= u32::MAX,
        *meta == content.meta(),
        *tight == content.in_front().meta(),
    ensures
        ops_of(final(actions)@) == ops_of(old(actions)@) + content.settling_ops(existing),
{
    let ghost before = ops_of(actions@);
    let ghost marked = seq![Op::WriteMeta(u32s_to_bytes(meta_words(content.meta())))];
    actions.push(Action::WriteMeta(meta.encode()));
    assert(ops_of(actions@) =~= before + marked);
    if gap == 0 {
        if existing > need {
            actions.push(Action::Truncate(need));
        }
        assert(ops_of(actions@) =~= before + content.settling_ops(existing));
        return;
    }
    let mut b: u32 = 0;
    assert(ops_of(actions@) =~= before + marked + move_ops(gap as nat, 0));
    while b < need - 1
        invariant
            need >= 1,
            b <= need - 1,
            gap + need <= u32::MAX,
            ops_of(actions@) == before + marked + move_ops(gap as nat, b as nat),
        decreases need - b,
    {
        let copy = SlotCopy {
            src_blkno: gap + 1 + b,
            src_off: 0,
            dst_blkno: 1 + b,
            dst_off: 0,
            len: PAYLOAD_BYTES,
        };
        let ghost now = ops_of(actions@);
        actions.push(Action::CopySlot(copy));
        assert(ops_of(actions@) =~= now.push(Op::CopySlot(copy)));
        assert(move_ops(gap as nat, (b + 1) as nat) =~= move_ops(gap as nat, b as nat).push(
            Op::CopySlot(copy),
        ));
        assert(ops_of(actions@) =~= before + marked + move_ops(gap as nat, (b + 1) as nat));
        b += 1;
    }
    let ghost moved = ops_of(actions@);
    let ghost last = seq![
        Op::WriteMeta(u32s_to_bytes(meta_words(content.in_front().meta()))),
        Op::Truncate(content.tight_blocks()),
    ];
    actions.push(Action::WriteMeta(tight.encode()));
    actions.push(Action::Truncate(need));
    proof {
        assert(ops_of(actions@) =~= moved + last);
        assert(b == content.tight_blocks() - 1);
        let moving = move_ops(content.gap, (content.tight_blocks() - 1) as nat);
        assert(content.settling_ops(existing) == marked + moving + last);
        assert((before + marked + moving) + last =~= before + (marked + moving + last));
    }
}

/// Plans every chain of an index that has rows.
pub(crate) fn plan_chains(
    actions: &mut Vec<Action>,
    meta: &MetaPageData,
    packed_codes: &[u8],
    scales: &[u32],
    slot_to_id: &[u64],
    parts: &StoredParts,
    Ghost(content): Ghost<Content>,
)
    requires
        content.consistent(),
        content.countable(),
        content.blocks() <= u32::MAX,
        *meta == content.meta(),
        packed_codes@ == content.codes,
        scales@ == content.scales,
        slot_to_id@ == content.ids,
        parts.tqplus@ == content.tqplus,
        content.cells matches Some(cells) ==> {
            &&& parts.coarse@ == cells.coarse
            &&& parts.directory@ == cells.directory
        },
        content.cells is None ==> parts.coarse@.len() == 0 && parts.directory@.len() == 0,
        parts.adjacency@ == content.adjacency_bytes(),
    ensures
        ops_of(final(actions)@) == ops_of(old(actions)@) + chain_ops(content.chains()),
{
    let n_vectors: u64 = meta.n_vectors;
    let ghost prefix = ops_of(actions@);
    if n_vectors == 0 {
        assert(prefix + chain_ops(content.chains()) =~= prefix);
        return;
    }
    let ghost m = content.meta();
    let ghost c0 = content.row_chains();
    let ghost c1 = with_bytes(c0, m.rotation, content.tqplus);
    let ghost c2 = with_bytes(c1, m.coarse, content.coarse_bytes());
    let ghost c3 = with_bytes(c2, m.cell_dir, content.directory_bytes());
    proof {
        lemma_row_layout(content);
        lemma_row_chain_ops(prefix, c0);
        lemma_with_bytes_ops(prefix, c0, m.rotation, content.tqplus);
        lemma_with_bytes_ops(prefix, c1, m.coarse, content.coarse_bytes());
        lemma_with_bytes_ops(prefix, c2, m.cell_dir, content.directory_bytes());
        lemma_with_bytes_ops(prefix, c3, m.graph, content.adjacency_bytes());
    }
    write_chain_at(
        actions,
        meta.codes.first,
        packed_codes,
        meta.stride_bytes,
        meta.rows_per_codes_page,
        n_vectors,
    );
    let scales_bytes: Vec<u8> = encode_u32s(scales);
    write_chain_at(
        actions,
        meta.scales.first,
        scales_bytes.as_slice(),
        4,
        meta.rows_per_scales_page,
        n_vectors,
    );
    let ids_bytes: Vec<u8> = encode_u64s(slot_to_id);
    write_chain_at(
        actions,
        meta.ids.first,
        ids_bytes.as_slice(),
        8,
        meta.rows_per_ids_page,
        n_vectors,
    );
    assert(ops_of(actions@) == prefix + chain_ops(c0));
    write_bytes_at(actions, meta.rotation, parts.tqplus.as_slice());
    if meta.lists > 0 {
        write_bytes_at(actions, meta.coarse, parts.coarse.as_slice());
        write_bytes_at(actions, meta.cell_dir, parts.directory.as_slice());
    }
    assert(ops_of(actions@) == prefix + chain_ops(
        with_bytes(c2, m.cell_dir, content.directory_bytes()),
    ));
    write_bytes_at(actions, meta.graph, parts.adjacency.as_slice());
}

/// Plans the write of an index over `existing` blocks: every chain, the meta page, and what follows.
fn plan_write(
    meta: &MetaPageData,
    tight: &MetaPageData,
    gap: u32,
    need: u32,
    packed_codes: &[u8],
    scales: &[u32],
    slot_to_id: &[u64],
    parts: &StoredParts,
    existing: u32,
    Ghost(content): Ghost<Content>,
) -> (actions: Vec<Action>)
    requires
        content.consistent(),
        content.countable(),
        content.blocks() <= u32::MAX,
        gap == content.gap,
        need == content.tight_blocks(),
        need >= 1,
        *tight == content.in_front().meta(),
        *meta == content.meta(),
        packed_codes@ == content.codes,
        scales@ == content.scales,
        slot_to_id@ == content.ids,
        parts.tqplus@ == content.tqplus,
        content.cells matches Some(cells) ==> {
            &&& parts.coarse@ == cells.coarse
            &&& parts.directory@ == cells.directory
        },
        content.cells is None ==> parts.coarse@.len() == 0 && parts.directory@.len() == 0,
        parts.adjacency@ == content.adjacency_bytes(),
    ensures
        ops_of(actions@) == content.ops(existing),
{
    let mut actions: Vec<Action> = Vec::new();
    if existing < gap + need {
        actions.push(Action::ExtendTo(gap + need));
    }
    assert(ops_of(actions@) =~= if existing < content.blocks() {
        seq![Op::ExtendTo(content.blocks())]
    } else {
        Seq::empty()
    });
    plan_chains(
        &mut actions,
        meta,
        packed_codes,
        scales,
        slot_to_id,
        parts,
        Ghost(content),
    );
    assert(ops_of(actions@) =~= content.ops_before_meta(existing));
    push_settling(&mut actions, meta, tight, gap, need, existing, Ghost(content));
    assert(ops_of(actions@) =~= content.ops(existing));
    actions
}

proof fn lemma_row_chain_ops(prefix: Seq<Op>, c: Seq<Chain>)
    requires
        c.len() == 3,
    ensures
        prefix + chain_ops(c) == ((prefix + in_batches(c[0].writes())) + in_batches(c[1].writes()))
            + in_batches(c[2].writes()),
{
    assert(c.drop_last().drop_last().drop_last() =~= Seq::<Chain>::empty());
    assert(c.drop_last().drop_last().last() == c[0]);
    assert(c.drop_last().last() == c[1]);
    reveal_with_fuel(chain_ops, 4);
    assert(prefix + chain_ops(c) =~= ((prefix + in_batches(c[0].writes())) + in_batches(
        c[1].writes(),
    )) + in_batches(c[2].writes()));
}

/// Whether `r` is what a write answers: the fault of the tables, if they have one; a plan for
/// exactly this content, if its blocks can be numbered; [`WriteError::TooManyBlocks`] otherwise.
pub open spec fn is_write(
    r: Result<WritePlan, WriteError>,
    bit_width: u8,
    dim: u32,
    n_vectors: u64,
    codes: Seq<u8>,
    scales: Seq<u32>,
    ids: Seq<u64>,
    am_version: u32,
    prepared: Option<PreparedParts<'_>>,
    ivf: Option<IvfParts<'_>>,
    graph: Option<GraphParts<'_>>,
    over: Standing,
) -> bool {
    let need = blocks_needed(bit_width, dim, n_vectors, prepared, ivf, graph);
    match table_fault(n_vectors, scales, ids, ivf is None && graph is None) {
        Some(e) => r == Err::<WritePlan, WriteError>(e),
        None => {
            &&& r is Ok == (need <= u32::MAX)
            &&& r matches Err(e) ==> e == WriteError::TooManyBlocks
            &&& r matches Ok(plan) ==> {
                let content = content_of(
                    over.gap(need),
                    bit_width,
                    dim,
                    n_vectors,
                    codes,
                    scales,
                    ids,
                    am_version,
                    prepared,
                    ivf,
                    graph,
                    plan.meta.codebook,
                );
                &&& content.consistent()
                &&& content.countable()
                &&& content.blocks() <= u32::MAX
                &&& codebook_belongs(bit_width, dim, prepared, plan.meta.codebook)
                &&& plan.meta == content.in_front().meta()
                &&& ops_of(plan.actions@) == content.ops(over.blocks)
            }
        },
    }
}

/// Plans the whole relation over what is there: the layout, every chain, the meta page, and then the cut.
///
/// In the end the chains are packed from block 1 on and nothing is left behind them. Until the meta page
/// is written no block is written that a chain of the index on disk is in: where the chains do not fit
/// in front of these, they are written behind them first, and moved to the front when the meta page
/// stands. For that long the relation holds free blocks, or the chains twice. Only where there are not
/// enough block numbers for that is the new index written over the old one at once.
#[verifier::spinoff_prover]
#[verifier::rlimit(40)]
pub fn write_full_inner(
    bit_width: u8,
    dim: u32,
    n_vectors: u64,
    packed_codes: &[u8],
    scales: &[u32],
    slot_to_id: &[u64],
    am_version: u32,
    prepared: Option<PreparedParts<'_>>,
    ivf: Option<IvfParts<'_>>,
    graph: Option<GraphParts<'_>>,
    over: Standing,
) -> (r: Result<WritePlan, WriteError>)
    requires
        1 <= stride_of(bit_width as nat, dim as nat) <= PAYLOAD_BYTES,
        packed_codes@.len() == n_vectors * stride_of(bit_width as nat, dim as nat),
        prepared is Some ==> 2 <= bit_width <= 4 && dim % 8 == 0 && 8 <= dim <= 16384,
    ensures
        is_write(
            r,
            bit_width,
            dim,
            n_vectors,
            packed_codes@,
            scales@,
            slot_to_id@,
            am_version,
            prepared,
            ivf,
            graph,
            over,
        ),
{
    if let Some(e) = check_tables(
        n_vectors,
        scales,
        slot_to_id,
        ivf.is_none() && graph.is_none(),
    ) {
        return Err(e);
    }
    let parts: StoredParts = stored_parts(prepared, ivf, graph);
    let planned: Option<MetaPageData> = plan_meta(
        bit_width,
        dim,
        n_vectors,
        am_version,
        prepared,
        ivf,
        graph,
        &parts,
    );
    let tight_meta: MetaPageData = match planned {
        Some(m) => m,
        None => {
            return Err(WriteError::TooManyBlocks);
        },
    };
    let ghost tight = content_of(
        0,
        bit_width,
        dim,
        n_vectors,
        packed_codes@,
        scales@,
        slot_to_id@,
        am_version,
        prepared,
        ivf,
        graph,
        tight_meta.codebook,
    );
    proof {
        lemma_content_parts(tight, prepared, ivf, graph, parts);
        lemma_tight_layout(tight);
        lemma_layout_within(tight);
    }
    let need: u32 = tight_meta.chain_blocks() as u32;
    let gap: u32 = over.gap_for(need as u64);
    let (meta, _): (MetaPageData, u32) = match place_layout(&tight_meta, gap) {
        Some(placed) => placed,
        None => {
            return Err(WriteError::TooManyBlocks);
        },
    };
    let ghost content = Content { gap: over.gap(tight.tight_blocks()), ..tight };
    proof {
        lemma_gap_moves_the_layout(tight, content.gap);
        lemma_gap_moves_the_layout(tight, 0);
        lemma_content_parts(content, prepared, ivf, graph, parts);
        assert(content.in_front() == tight);
        assert(meta == content.meta());
        assert(meta.codebook == tight_meta.codebook);
    }
    let actions: Vec<Action> = plan_write(
        &meta,
        &tight_meta,
        gap,
        need,
        packed_codes,
        scales,
        slot_to_id,
        &parts,
        over.blocks,
        Ghost(content),
    );
    Ok(WritePlan { meta: tight_meta, actions })
}

proof fn lemma_with_bytes_ops(prefix: Seq<Op>, chains: Seq<Chain>, span: Span, bytes: Seq<u8>)
    ensures
        prefix + chain_ops(with_bytes(chains, span, bytes)) == (prefix + chain_ops(chains)) + (
        if bytes.len() == 0 {
            Seq::empty()
        } else {
            in_batches(byte_chain(span, bytes).writes())
        }),
{
    let all = with_bytes(chains, span, bytes);
    if bytes.len() > 0 {
        assert(all.drop_last() =~= chains);
        assert(prefix + chain_ops(all) =~= (prefix + chain_ops(chains)) + in_batches(
            byte_chain(span, bytes).writes(),
        ));
    } else {
        assert((prefix + chain_ops(chains)) + Seq::<Op>::empty() =~= prefix + chain_ops(chains));
    }
}

/// Plans a flat index without the prepared parts.
pub fn write_full(
    bit_width: u8,
    dim: u32,
    n_vectors: u64,
    packed_codes: &[u8],
    scales: &[u32],
    slot_to_id: &[u64],
    am_version: u32,
    over: Standing,
) -> (r: Result<WritePlan, WriteError>)
    requires
        1 <= stride_of(bit_width as nat, dim as nat) <= PAYLOAD_BYTES,
        packed_codes@.len() == n_vectors * stride_of(bit_width as nat, dim as nat),
    ensures
        is_write(
            r,
            bit_width,
            dim,
            n_vectors,
            packed_codes@,
            scales@,
            slot_to_id@,
            am_version,
            None,
            None,
            None,
            over,
        ),
{
    write_full_inner(
        bit_width,
        dim,
        n_vectors,
        packed_codes,
        scales,
        slot_to_id,
        am_version,
        None,
        None,
        None,
        over,
    )
}

/// Plans a flat index with the prepared parts.
pub fn write_full_with_prepared(
    bit_width: u8,
    dim: u32,
    n_vectors: u64,
    packed_codes: &[u8],
    scales: &[u32],
    slot_to_id: &[u64],
    am_version: u32,
    prepared: PreparedParts<'_>,
    over: Standing,
) -> (r: Result<WritePlan, WriteError>)
    requires
        1 <= stride_of(bit_width as nat, dim as nat) <= PAYLOAD_BYTES,
        packed_codes@.len() == n_vectors * stride_of(bit_width as nat, dim as nat),
        2 <= bit_width <= 4 && dim % 8 == 0 && 8 <= dim <= 16384,
    ensures
        is_write(
            r,
            bit_width,
            dim,
            n_vectors,
            packed_codes@,
            scales@,
            slot_to_id@,
            am_version,
            Some(prepared),
            None,
            None,
            over,
        ),
{
    write_full_inner(
        bit_width,
        dim,
        n_vectors,
        packed_codes,
        scales,
        slot_to_id,
        am_version,
        Some(prepared),
        None,
        None,
        over,
    )
}

/// Plans a clustered index, whose rows stand cell by cell.
pub fn write_full_with_prepared_ivf(
    bit_width: u8,
    dim: u32,
    n_vectors: u64,
    packed_codes: &[u8],
    scales: &[u32],
    slot_to_id: &[u64],
    am_version: u32,
    prepared: PreparedParts<'_>,
    ivf: IvfParts<'_>,
    over: Standing,
) -> (r: Result<WritePlan, WriteError>)
    requires
        1 <= stride_of(bit_width as nat, dim as nat) <= PAYLOAD_BYTES,
        packed_codes@.len() == n_vectors * stride_of(bit_width as nat, dim as nat),
        2 <= bit_width <= 4 && dim % 8 == 0 && 8 <= dim <= 16384,
    ensures
        is_write(
            r,
            bit_width,
            dim,
            n_vectors,
            packed_codes@,
            scales@,
            slot_to_id@,
            am_version,
            Some(prepared),
            Some(ivf),
            None,
            over,
        ),
{
    write_full_inner(
        bit_width,
        dim,
        n_vectors,
        packed_codes,
        scales,
        slot_to_id,
        am_version,
        Some(prepared),
        Some(ivf),
        None,
        over,
    )
}

/// Plans a graph index.
pub fn write_full_with_prepared_graph(
    bit_width: u8,
    dim: u32,
    n_vectors: u64,
    packed_codes: &[u8],
    scales: &[u32],
    slot_to_id: &[u64],
    am_version: u32,
    prepared: PreparedParts<'_>,
    graph: GraphParts<'_>,
    over: Standing,
) -> (r: Result<WritePlan, WriteError>)
    requires
        1 <= stride_of(bit_width as nat, dim as nat) <= PAYLOAD_BYTES,
        packed_codes@.len() == n_vectors * stride_of(bit_width as nat, dim as nat),
        2 <= bit_width <= 4 && dim % 8 == 0 && 8 <= dim <= 16384,
    ensures
        is_write(
            r,
            bit_width,
            dim,
            n_vectors,
            packed_codes@,
            scales@,
            slot_to_id@,
            am_version,
            Some(prepared),
            None,
            Some(graph),
            over,
        ),
{
    write_full_inner(
        bit_width,
        dim,
        n_vectors,
        packed_codes,
        scales,
        slot_to_id,
        am_version,
        Some(prepared),
        None,
        Some(graph),
        over,
    )
}

} // verus!
