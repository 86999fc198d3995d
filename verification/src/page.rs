//! The page layout of an index relation: the meta page in block 0 and the chains behind it.
//!
//! Block 0 holds [`MetaPageData`]. The chains follow in a fixed order, each in consecutive blocks:
//! codes, scales, ids, blocked codes, calibration pair, coarse centroids, cell directory, graph
//! adjacency, tombstone bitmap. A layout is planned from block 1 on and may then be moved as a whole
//! behind a gap, so that a new index does not overwrite the one that is there.
use vstd::prelude::*;

verus! {

/// Size of a page.
pub const BLCKSZ: usize = 8192;

/// Size of the standard page header.
pub const PAGE_HEADER_BYTES: usize = 24;

/// Bytes of a page behind its header.
pub const PAYLOAD_BYTES: usize = 8168;

/// The block of the meta page.
pub const META_BLKNO: u32 = 0;

/// Codebook slots on the meta page.
pub const MAX_CODEBOOK_LEVELS: usize = 16;

/// Layout version of an ordinary index.
pub const VERSION: u8 = 4;

/// Layout version of a token (multivector) index.
pub const COLBERT_VERSION: u8 = 5;

/// Layout version of a graph index.
pub const GRAPH_VERSION: u8 = 6;

/// The oldest layout version that can be read.
pub const MIN_DECODE_VERSION: u8 = 1;

/// Kind of an ordinary single-vector index, flat or clustered.
pub const KIND_SINGLE: u8 = 0;

/// Kind of a token (multivector) index.
pub const KIND_COLBERT: u8 = 1;

/// Kind of a graph index.
pub const KIND_GRAPH: u8 = 2;

/// Consecutive blocks that hold one chain. An empty chain is `first == 0`, `count == 0`.
#[derive(Clone, Copy, Debug, PartialEq, Eq, Structural)]
pub struct Span {
    pub first: u32,
    pub count: u32,
}

/// The inline codebook; values are the bit patterns of single-precision numbers.
#[derive(Clone, Copy, Debug, PartialEq, Eq)]
pub struct Codebook {
    pub n_levels: u32,
    pub centroids: [u32; 16],
    pub boundaries: [u32; 15],
}

/// The contents of the meta page.
#[derive(Clone, Copy, Debug, PartialEq, Eq)]
pub struct MetaPageData {
    pub version: u8,
    pub bit_width: u8,
    pub kind: u8,
    pub dim: u32,
    pub n_vectors: u64,
    pub codes: Span,
    pub scales: Span,
    pub ids: Span,
    pub rows_per_codes_page: u32,
    pub rows_per_scales_page: u32,
    pub rows_per_ids_page: u32,
    pub stride_bytes: u32,
    pub am_version: u32,
    pub blocked: Span,
    pub blocked_bytes: u64,
    pub n_blocks_blocked: u32,
    pub codebook: Codebook,
    pub rotation: Span,
    pub rotation_dim: u32,
    pub lists: u32,
    pub coarse: Span,
    pub cell_dir: Span,
    pub ivf_degraded: bool,
    pub tombstone: Span,
    pub tombstone_bytes: u64,
    pub graph: Span,
    pub graph_offsets_bytes: u64,
    pub graph_neighbors_bytes: u64,
    pub graph_entry_point: u32,
}

/// `n / d`, rounded up.
pub open spec fn ceil_div(n: nat, d: nat) -> nat {
    if n % d == 0 {
        n / d
    } else {
        n / d + 1
    }
}

/// Pages that `n` rows need at `rows_per_page` rows each; none where a page holds no row.
pub open spec fn pages_for_rows(n: nat, rows_per_page: nat) -> nat {
    if rows_per_page == 0 {
        0
    } else {
        ceil_div(n, rows_per_page)
    }
}

/// Pages that `n` bytes need.
pub open spec fn pages_for_bytes(n: nat) -> nat {
    ceil_div(n, PAYLOAD_BYTES as nat)
}

/// Code bytes per vector.
pub open spec fn stride_of(bit_width: nat, dim: nat) -> nat {
    (dim / 8) * bit_width
}

/// A chain of `count` blocks from `first` on.
pub open spec fn span_at(first: nat, count: nat) -> Span {
    if count == 0 {
        Span { first: 0, count: 0 }
    } else {
        Span { first: first as u32, count: count as u32 }
    }
}

/// A chain `gap` blocks further on; an empty one stays as it is.
pub open spec fn moved(s: Span, gap: nat) -> Span {
    if s.count == 0 {
        s
    } else {
        Span { first: (s.first + gap) as u32, count: s.count }
    }
}

/// The blocks in which a chain of `n` rows may be read: where they begin, and how many they are.
pub open spec fn row_extent(s: Span, n: u64, rows_per_page: u32) -> (nat, nat) {
    let pages = pages_for_rows(n as nat, rows_per_page as nat);
    let capped: nat = if pages < u32::MAX {
        pages
    } else {
        u32::MAX as nat
    };
    (
        s.first as nat,
        if capped < s.count {
            s.count as nat
        } else {
            capped
        },
    )
}

/// The first block of these extents; behind every block number where all are empty.
pub open spec fn lowest(es: Seq<(nat, nat)>) -> nat
    decreases es.len(),
{
    if es.len() == 0 {
        0x1_0000_0000
    } else {
        let rest = lowest(es.drop_last());
        if es.last().1 > 0 && es.last().0 < rest {
            es.last().0
        } else {
            rest
        }
    }
}

/// The block behind the last one of these extents; 1 where all are empty.
pub open spec fn highest(es: Seq<(nat, nat)>) -> nat
    decreases es.len(),
{
    if es.len() == 0 {
        1
    } else {
        let rest = highest(es.drop_last());
        if es.last().1 > 0 && es.last().0 + es.last().1 > rest {
            es.last().0 + es.last().1
        } else {
            rest
        }
    }
}

/// Every extent lies between the lowest and the highest block.
pub proof fn lemma_extent_bounds(es: Seq<(nat, nat)>, i: int)
    requires
        0 <= i < es.len(),
        es[i].1 > 0,
    ensures
        lowest(es) <= es[i].0,
        es[i].0 + es[i].1 <= highest(es),
    decreases es.len(),
{
    if i < es.len() - 1 {
        lemma_extent_bounds(es.drop_last(), i);
    }
}

/// The first block behind all extents is behind block 0.
pub proof fn lemma_highest_positive(es: Seq<(nat, nat)>)
    ensures
        highest(es) >= 1,
    decreases es.len(),
{
    if es.len() > 0 {
        lemma_highest_positive(es.drop_last());
    }
}

/// The highest block of extents that all end at `limit` or before is at `limit` or before.
pub proof fn lemma_highest_within(es: Seq<(nat, nat)>, limit: nat)
    requires
        1 <= limit,
        forall|i: int| 0 <= i < es.len() ==> (#[trigger] es[i]).1 > 0 ==> es[i].0 + es[i].1 <= limit,
    ensures
        highest(es) <= limit,
    decreases es.len(),
{
    if es.len() > 0 {
        let rest = es.drop_last();
        assert forall|i: int| 0 <= i < rest.len() && (#[trigger] rest[i]).1 > 0 implies rest[i].0
            + rest[i].1 <= limit by {
            assert(rest[i] == es[i]);
        }
        lemma_highest_within(rest, limit);
        assert(es.last() == es[es.len() - 1]);
    }
}

impl Codebook {
    /// A codebook without levels.
    pub open spec fn is_blank(self) -> bool {
        &&& self.n_levels == 0
        &&& self.centroids@ == Seq::new(16, |i: int| 0u32)
        &&& self.boundaries@ == Seq::new(15, |i: int| 0u32)
    }

    /// Holds these levels, and zeros behind them.
    pub open spec fn holds(self, centroids: Seq<u32>, boundaries: Seq<u32>) -> bool {
        &&& self.n_levels == centroids.len()
        &&& self.centroids@ == Seq::new(
            16,
            |i: int| if i < centroids.len() { centroids[i] } else { 0u32 },
        )
        &&& self.boundaries@ == Seq::new(
            15,
            |i: int| if i < boundaries.len() { boundaries[i] } else { 0u32 },
        )
    }

    /// A codebook without levels.
    pub fn blank() -> (r: Codebook)
        ensures
            r.is_blank(),
    {
        let r = Codebook { n_levels: 0, centroids: [0u32; 16], boundaries: [0u32; 15] };
        assert(r.centroids@ =~= Seq::new(16, |i: int| 0u32));
        assert(r.boundaries@ =~= Seq::new(15, |i: int| 0u32));
        r
    }

    /// A codebook with these levels.
    pub fn of_levels(centroids: &[u32], boundaries: &[u32]) -> (r: Codebook)
        requires
            centroids@.len() <= MAX_CODEBOOK_LEVELS,
            boundaries@.len() < MAX_CODEBOOK_LEVELS,
        ensures
            r.holds(centroids@, boundaries@),
    {
        let mut c: [u32; 16] = [0u32; 16];
        let mut b: [u32; 15] = [0u32; 15];
        let mut i: usize = 0;
        while i < centroids.len()
            invariant
                i <= centroids@.len() <= 16,
                c@ == Seq::new(16, |j: int| if j < i { centroids@[j] } else { 0u32 }),
            decreases centroids@.len() - i,
        {
            c[i] = centroids[i];
            assert(c@ =~= Seq::new(16, |j: int| if j < i + 1 { centroids@[j] } else { 0u32 }));
            i += 1;
        }
        let mut k: usize = 0;
        while k < boundaries.len()
            invariant
                k <= boundaries@.len() <= 15,
                b@ == Seq::new(15, |j: int| if j < k { boundaries@[j] } else { 0u32 }),
            decreases boundaries@.len() - k,
        {
            b[k] = boundaries[k];
            assert(b@ =~= Seq::new(15, |j: int| if j < k + 1 { boundaries@[j] } else { 0u32 }));
            k += 1;
        }
        Codebook { n_levels: centroids.len() as u32, centroids: c, boundaries: b }
    }
}

/// The block behind a chain, or `at` where that is further on.
pub open spec fn end_of(at: nat, s: Span) -> nat {
    if s.count > 0 && s.first + s.count > at {
        (s.first + s.count) as nat
    } else {
        at
    }
}

impl MetaPageData {
    /// Blocks up to the end of the last chain.
    pub open spec fn chain_end(self) -> nat {
        let rows = end_of(end_of(end_of(1, self.codes), self.scales), self.ids);
        let parts = end_of(
            end_of(end_of(end_of(rows, self.blocked), self.rotation), self.coarse),
            self.cell_dir,
        );
        end_of(end_of(parts, self.graph), self.tombstone)
    }

    /// Blocks of the meta page and of every chain.
    pub open spec fn block_count(self) -> int {
        1 + self.codes.count + self.scales.count + self.ids.count + self.blocked.count
            + self.rotation.count + self.coarse.count + self.cell_dir.count + self.graph.count
            + self.tombstone.count
    }

    /// The layout of `n_vectors` rows of this shape, with `blocked_bytes` of blocked codes and
    /// `rotation_bytes` of calibration data behind them. Without rows there are no chains.
    pub open spec fn planned(
        bit_width: u8,
        dim: u32,
        n_vectors: u64,
        am_version: u32,
        blocked_bytes: u64,
        n_blocks_blocked: u32,
        rotation_bytes: u64,
        codebook: Codebook,
    ) -> MetaPageData {
        let stride = stride_of(bit_width as nat, dim as nat);
        let rows_per_codes_page = PAYLOAD_BYTES as nat / stride;
        let codes = pages_for_rows(n_vectors as nat, rows_per_codes_page);
        let scales = pages_for_rows(n_vectors as nat, 2042);
        let ids = pages_for_rows(n_vectors as nat, 1021);
        let blocked = if n_vectors == 0 {
            0
        } else {
            pages_for_bytes(blocked_bytes as nat)
        };
        let rotation = if n_vectors == 0 {
            0
        } else {
            pages_for_bytes(rotation_bytes as nat)
        };
        MetaPageData {
            version: VERSION,
            bit_width,
            kind: KIND_SINGLE,
            dim,
            n_vectors,
            codes: span_at(1, codes),
            scales: span_at(1 + codes, scales),
            ids: span_at(1 + codes + scales, ids),
            rows_per_codes_page: rows_per_codes_page as u32,
            rows_per_scales_page: 2042,
            rows_per_ids_page: 1021,
            stride_bytes: stride as u32,
            am_version,
            blocked: span_at(1 + codes + scales + ids, blocked),
            blocked_bytes: if n_vectors == 0 {
                0
            } else {
                blocked_bytes
            },
            n_blocks_blocked: if n_vectors == 0 {
                0
            } else {
                n_blocks_blocked
            },
            codebook,
            rotation: span_at(1 + codes + scales + ids + blocked, rotation),
            rotation_dim: if rotation == 0 {
                0
            } else {
                dim
            },
            lists: 0,
            coarse: Span { first: 0, count: 0 },
            cell_dir: Span { first: 0, count: 0 },
            ivf_degraded: false,
            tombstone: Span { first: 0, count: 0 },
            tombstone_bytes: 0,
            graph: Span { first: 0, count: 0 },
            graph_offsets_bytes: 0,
            graph_neighbors_bytes: 0,
            graph_entry_point: 0,
        }
    }

    /// Blocks that [`MetaPageData::planned`] takes.
    pub open spec fn planned_blocks(
        bit_width: u8,
        dim: u32,
        n_vectors: u64,
        blocked_bytes: u64,
        rotation_bytes: u64,
    ) -> nat {
        let stride = stride_of(bit_width as nat, dim as nat);
        1 + pages_for_rows(n_vectors as nat, PAYLOAD_BYTES as nat / stride) + pages_for_rows(
            n_vectors as nat,
            2042,
        ) + pages_for_rows(n_vectors as nat, 1021) + (if n_vectors == 0 {
            0
        } else {
            pages_for_bytes(blocked_bytes as nat) + pages_for_bytes(rotation_bytes as nat)
        })
    }

    /// Behind the chains that are there, chains for `lists` cells; nothing for no cells.
    pub open spec fn with_ivf_chains(self, lists: u32, coarse_bytes: u64, cell_dir_bytes: u64) -> MetaPageData {
        if lists == 0 {
            self
        } else {
            let next = self.block_count() as nat;
            let coarse = pages_for_bytes(coarse_bytes as nat);
            let cells = pages_for_bytes(cell_dir_bytes as nat);
            MetaPageData {
                lists,
                coarse: span_at(next, coarse),
                cell_dir: span_at(next + coarse, cells),
                ..self
            }
        }
    }

    /// Behind the chains that are there, a chain for the graph adjacency.
    pub open spec fn with_graph_chain(self, offsets_bytes: u64, neighbors_bytes: u64, entry_point: u32) -> MetaPageData {
        MetaPageData {
            version: GRAPH_VERSION,
            kind: KIND_GRAPH,
            graph: span_at(
                self.block_count() as nat,
                pages_for_bytes(offsets_bytes as nat + neighbors_bytes as nat),
            ),
            graph_offsets_bytes: offsets_bytes,
            graph_neighbors_bytes: neighbors_bytes,
            graph_entry_point: entry_point,
            ..self
        }
    }

    /// The same layout, every chain `gap` blocks further on.
    pub open spec fn shifted(self, gap: nat) -> MetaPageData {
        MetaPageData {
            codes: moved(self.codes, gap),
            scales: moved(self.scales, gap),
            ids: moved(self.ids, gap),
            blocked: moved(self.blocked, gap),
            rotation: moved(self.rotation, gap),
            coarse: moved(self.coarse, gap),
            cell_dir: moved(self.cell_dir, gap),
            graph: moved(self.graph, gap),
            tombstone: moved(self.tombstone, gap),
            ..self
        }
    }

    /// The blocks that a reader of this index may read, chain by chain: where they begin, and how
    /// many they are.
    pub open spec fn extents(self) -> Seq<(nat, nat)> {
        seq![
            row_extent(self.codes, self.n_vectors, self.rows_per_codes_page),
            row_extent(self.scales, self.n_vectors, self.rows_per_scales_page),
            row_extent(self.ids, self.n_vectors, self.rows_per_ids_page),
            (self.blocked.first as nat, self.blocked.count as nat),
            (self.rotation.first as nat, self.rotation.count as nat),
            (self.coarse.first as nat, self.coarse.count as nat),
            (self.cell_dir.first as nat, self.cell_dir.count as nat),
            (self.graph.first as nat, self.graph.count as nat),
            (self.tombstone.first as nat, self.tombstone.count as nat),
        ]
    }

    /// Stamped as a token index.
    pub open spec fn as_colbert(self) -> MetaPageData {
        MetaPageData { version: COLBERT_VERSION, kind: KIND_COLBERT, ..self }
    }

    /// Code bytes per vector.
    pub fn codes_stride(bit_width: u8, dim: u32) -> (r: u32)
        requires
            stride_of(bit_width as nat, dim as nat) <= u32::MAX,
        ensures
            r == stride_of(bit_width as nat, dim as nat),
    {
        assert((dim / 8) as nat * bit_width as nat == (dim / 8) * bit_width);
        (dim / 8) * (bit_width as u32)
    }

    /// Pages that `n` rows need at `rows_per_page` rows each.
    pub fn pages_needed(n: u64, rows_per_page: u32) -> (r: u64)
        ensures
            r == pages_for_rows(n as nat, rows_per_page as nat),
    {
        if rows_per_page == 0 {
            0
        } else {
            let d: u64 = rows_per_page as u64;
            proof {
                vstd::arithmetic::div_mod::lemma_fundamental_div_mod(n as int, d as int);
                assert(n % d != 0 ==> n / d < u64::MAX) by (nonlinear_arith)
                    requires
                        n == d * (n / d) + n % d,
                        d >= 1,
                        n <= u64::MAX,
                        n % d >= 0,
                ;
            }
            if n % d == 0 {
                n / d
            } else {
                n / d + 1
            }
        }
    }

    /// Pages that `n` bytes need.
    pub fn byte_pages_needed(n: u64) -> (r: u64)
        ensures
            r == pages_for_bytes(n as nat),
    {
        Self::pages_needed(n, PAYLOAD_BYTES as u32)
    }

    /// Blocks of the relation, up to the end of the last chain.
    pub fn total_blocks(&self) -> (r: u64)
        ensures
            r == self.chain_end(),
    {
        let rows: u64 = furthest(furthest(furthest(1, self.codes), self.scales), self.ids);
        let parts: u64 = furthest(
            furthest(furthest(furthest(rows, self.blocked), self.rotation), self.coarse),
            self.cell_dir,
        );
        furthest(furthest(parts, self.graph), self.tombstone)
    }

    /// Blocks of the meta page and of every chain.
    pub fn chain_blocks(&self) -> (r: u64)
        ensures
            r == self.block_count(),
    {
        1 + self.codes.count as u64 + self.scales.count as u64 + self.ids.count as u64
            + self.blocked.count as u64 + self.rotation.count as u64 + self.coarse.count as u64
            + self.cell_dir.count as u64 + self.graph.count as u64 + self.tombstone.count as u64
    }

    /// Lays out the row chains of an index and, where asked for, the blocked and calibration
    /// chains behind them; `None` where the blocks would not all have a block number.
    pub fn plan_with_blocked(
        bit_width: u8,
        dim: u32,
        n_vectors: u64,
        am_version: u32,
        blocked_bytes: u64,
        n_blocks_blocked: u32,
        rotation_bytes: u64,
    ) -> (r: Option<MetaPageData>)
        requires
            1 <= stride_of(bit_width as nat, dim as nat) <= PAYLOAD_BYTES,
        ensures
            r is Some == (MetaPageData::planned_blocks(
                bit_width,
                dim,
                n_vectors,
                blocked_bytes,
                rotation_bytes,
            ) <= u32::MAX),
            r matches Some(m) ==> {
                &&& m.codebook.is_blank()
                &&& m == MetaPageData::planned(
                    bit_width,
                    dim,
                    n_vectors,
                    am_version,
                    blocked_bytes,
                    n_blocks_blocked,
                    rotation_bytes,
                    m.codebook,
                )
            },
    {
        let stride: u32 = Self::codes_stride(bit_width, dim);
        let rows_per_codes_page: u32 = PAYLOAD_BYTES as u32 / stride;
        let codes: u64 = Self::pages_needed(n_vectors, rows_per_codes_page);
        let scales: u64 = Self::pages_needed(n_vectors, 2042);
        let ids: u64 = Self::pages_needed(n_vectors, 1021);
        let blocked: u64 = if n_vectors == 0 {
            0
        } else {
            Self::byte_pages_needed(blocked_bytes)
        };
        let rotation: u64 = if n_vectors == 0 {
            0
        } else {
            Self::byte_pages_needed(rotation_bytes)
        };
        let limit: u64 = u32::MAX as u64;
        if codes > limit || scales > limit || ids > limit || blocked > limit || rotation > limit {
            return None;
        }
        if 1 + codes + scales + ids + blocked + rotation > limit {
            return None;
        }
        Some(
            MetaPageData {
                version: VERSION,
                bit_width,
                kind: KIND_SINGLE,
                dim,
                n_vectors,
                codes: span(1, codes),
                scales: span(1 + codes, scales),
                ids: span(1 + codes + scales, ids),
                rows_per_codes_page,
                rows_per_scales_page: 2042,
                rows_per_ids_page: 1021,
                stride_bytes: stride,
                am_version,
                blocked: span(1 + codes + scales + ids, blocked),
                blocked_bytes: if n_vectors == 0 {
                    0
                } else {
                    blocked_bytes
                },
                n_blocks_blocked: if n_vectors == 0 {
                    0
                } else {
                    n_blocks_blocked
                },
                codebook: Codebook::blank(),
                rotation: span(1 + codes + scales + ids + blocked, rotation),
                rotation_dim: if rotation == 0 {
                    0
                } else {
                    dim
                },
                lists: 0,
                coarse: Span { first: 0, count: 0 },
                cell_dir: Span { first: 0, count: 0 },
                ivf_degraded: false,
                tombstone: Span { first: 0, count: 0 },
                tombstone_bytes: 0,
                graph: Span { first: 0, count: 0 },
                graph_offsets_bytes: 0,
                graph_neighbors_bytes: 0,
                graph_entry_point: 0,
            },
        )
    }

    /// Lays out the row chains of an index, and nothing behind them.
    pub fn plan(bit_width: u8, dim: u32, n_vectors: u64, am_version: u32) -> (r: Option<MetaPageData>)
        requires
            1 <= stride_of(bit_width as nat, dim as nat) <= PAYLOAD_BYTES,
        ensures
            r is Some == (MetaPageData::planned_blocks(bit_width, dim, n_vectors, 0, 0)
                <= u32::MAX),
            r matches Some(m) ==> {
                &&& m.codebook.is_blank()
                &&& m == MetaPageData::planned(
                    bit_width,
                    dim,
                    n_vectors,
                    am_version,
                    0,
                    0,
                    0,
                    m.codebook,
                )
            },
    {
        Self::plan_with_blocked(bit_width, dim, n_vectors, am_version, 0, 0, 0)
    }

    /// Stamps the inline codebook.
    pub fn set_codebook(&mut self, centroids: &[u32], boundaries: &[u32])
        requires
            centroids@.len() <= MAX_CODEBOOK_LEVELS,
            boundaries@.len() < MAX_CODEBOOK_LEVELS,
        ensures
            final(self).codebook.holds(centroids@, boundaries@),
            *final(self) == (MetaPageData { codebook: final(self).codebook, ..*old(self) }),
    {
        self.codebook = Codebook::of_levels(centroids, boundaries);
    }

    /// Lays out the coarse-centroid and cell-directory chains of `lists` cells behind the chains
    /// that are there. False, and nothing changes, where the blocks would not all have a number.
    pub fn set_ivf_chains(&mut self, lists: u32, coarse_bytes: u64, cell_dir_bytes: u64) -> (ok: bool)
        requires
            old(self).block_count() <= u32::MAX,
            old(self).coarse.count == 0,
            old(self).cell_dir.count == 0,
        ensures
            ok == (lists == 0 || old(self).block_count() + pages_for_bytes(coarse_bytes as nat)
                + pages_for_bytes(cell_dir_bytes as nat) <= u32::MAX),
            *final(self) == if ok {
                old(self).with_ivf_chains(lists, coarse_bytes, cell_dir_bytes)
            } else {
                *old(self)
            },
    {
        if lists == 0 {
            return true;
        }
        let next: u64 = self.chain_blocks();
        let coarse: u64 = Self::byte_pages_needed(coarse_bytes);
        let cells: u64 = Self::byte_pages_needed(cell_dir_bytes);
        let limit: u64 = u32::MAX as u64;
        if coarse > limit || cells > limit || next + coarse + cells > limit {
            return false;
        }
        self.lists = lists;
        self.coarse = span(next, coarse);
        self.cell_dir = span(next + coarse, cells);
        true
    }

    /// Moves every chain `gap` blocks further on.
    pub fn shift_chains(&mut self, gap: u32)
        requires
            highest(old(self).extents()) + gap <= u32::MAX,
        ensures
            *final(self) == old(self).shifted(gap as nat),
    {
        proof {
            let es = self.extents();
            assert forall|i: int| 0 <= i < 9 && (#[trigger] es[i]).1 > 0 implies es[i].0 + gap
                <= u32::MAX by {
                lemma_extent_bounds(es, i);
            }
            assert(es[0].0 == self.codes.first && es[0].1 >= self.codes.count);
            assert(es[1].0 == self.scales.first && es[1].1 >= self.scales.count);
            assert(es[2].0 == self.ids.first && es[2].1 >= self.ids.count);
            assert(es[3].0 == self.blocked.first && es[4].0 == self.rotation.first);
            assert(es[5].0 == self.coarse.first && es[6].0 == self.cell_dir.first);
            assert(es[7].0 == self.graph.first && es[8].0 == self.tombstone.first);
        }
        self.codes = move_span(self.codes, gap);
        self.scales = move_span(self.scales, gap);
        self.ids = move_span(self.ids, gap);
        self.blocked = move_span(self.blocked, gap);
        self.rotation = move_span(self.rotation, gap);
        self.coarse = move_span(self.coarse, gap);
        self.cell_dir = move_span(self.cell_dir, gap);
        self.graph = move_span(self.graph, gap);
        self.tombstone = move_span(self.tombstone, gap);
    }

    /// The first block that a reader of this index may read, and the block behind the last one.
    pub fn used_blocks(&self) -> (r: (u64, u64))
        ensures
            r.0 == lowest(self.extents()),
            r.1 == highest(self.extents()),
            r.1 <= 0x2_0000_0000,
    {
        let es: [(u64, u64); 9] = [
            row_blocks(self.codes, self.n_vectors, self.rows_per_codes_page),
            row_blocks(self.scales, self.n_vectors, self.rows_per_scales_page),
            row_blocks(self.ids, self.n_vectors, self.rows_per_ids_page),
            (self.blocked.first as u64, self.blocked.count as u64),
            (self.rotation.first as u64, self.rotation.count as u64),
            (self.coarse.first as u64, self.coarse.count as u64),
            (self.cell_dir.first as u64, self.cell_dir.count as u64),
            (self.graph.first as u64, self.graph.count as u64),
            (self.tombstone.first as u64, self.tombstone.count as u64),
        ];
        let ghost all = self.extents();
        assert(forall|i: int| 0 <= i < 9 ==> (#[trigger] es@[i]).0 == all[i].0 && es@[i].1 == all[i].1
            && es@[i].0 <= u32::MAX && es@[i].1 <= u32::MAX);
        let mut from: u64 = 0x1_0000_0000;
        let mut until: u64 = 1;
        let mut i: usize = 0;
        while i < 9
            invariant
                i <= 9,
                all.len() == 9,
                forall|k: int|
                    0 <= k < 9 ==> (#[trigger] es@[k]).0 == all[k].0 && es@[k].1 == all[k].1
                        && es@[k].0 <= u32::MAX && es@[k].1 <= u32::MAX,
                from == lowest(all.take(i as int)),
                until == highest(all.take(i as int)),
                until <= 0x2_0000_0000,
            decreases 9 - i,
        {
            let (first, count): (u64, u64) = es[i];
            assert(all.take(i + 1).drop_last() =~= all.take(i as int));
            assert(es@[i as int].0 == all[i as int].0);
            if count > 0 && first < from {
                from = first;
            }
            if count > 0 && first + count > until {
                until = first + count;
            }
            i += 1;
        }
        assert(all.take(9) =~= all);
        (from, until)
    }

    /// Stamps a token index.
    pub fn mark_colbert(&mut self)
        ensures
            *final(self) == old(self).as_colbert(),
    {
        self.version = COLBERT_VERSION;
        self.kind = KIND_COLBERT;
    }

    /// Lays out the adjacency chain behind the chains that are there and stamps a graph index.
    /// False, and nothing changes, where the blocks would not all have a number.
    pub fn set_graph_chain(&mut self, offsets_bytes: u64, neighbors_bytes: u64, entry_point: u32) -> (ok: bool)
        requires
            old(self).block_count() <= u32::MAX,
            old(self).graph.count == 0,
            offsets_bytes + neighbors_bytes <= u64::MAX,
        ensures
            ok == (old(self).block_count() + pages_for_bytes(
                offsets_bytes as nat + neighbors_bytes as nat,
            ) <= u32::MAX),
            *final(self) == if ok {
                old(self).with_graph_chain(offsets_bytes, neighbors_bytes, entry_point)
            } else {
                *old(self)
            },
    {
        let next: u64 = self.chain_blocks();
        let pages: u64 = Self::byte_pages_needed(offsets_bytes + neighbors_bytes);
        let limit: u64 = u32::MAX as u64;
        if pages > limit || next + pages > limit {
            return false;
        }
        self.version = GRAPH_VERSION;
        self.kind = KIND_GRAPH;
        self.graph = span(next, pages);
        self.graph_offsets_bytes = offsets_bytes;
        self.graph_neighbors_bytes = neighbors_bytes;
        self.graph_entry_point = entry_point;
        true
    }

    /// The first layout version.
    pub fn is_legacy_v1(&self) -> (r: bool)
        ensures
            r == (self.version == 1),
    {
        self.version == 1
    }

    /// A layout version without a calibration chain.
    pub fn is_legacy_v2(&self) -> (r: bool)
        ensures
            r == (self.version <= 2),
    {
        self.version <= 2
    }

    pub open spec fn prepared(self) -> bool {
        self.version >= 3 && self.codebook.n_levels > 0
    }

    /// Whether the layout carries what a scan needs besides the rows.
    pub fn has_prepared_layout(&self) -> (r: bool)
        ensures
            r == self.prepared(),
    {
        self.version >= 3 && self.codebook.n_levels > 0
    }

    pub open spec fn clustered(self) -> bool {
        &&& self.lists > 0
        &&& self.coarse.count > 0
        &&& self.cell_dir.count > 0
        &&& !self.ivf_degraded
    }

    /// Whether scans can be restricted to cells.
    pub fn has_ivf(&self) -> (r: bool)
        ensures
            r == self.clustered(),
    {
        self.lists > 0 && self.coarse.count > 0 && self.cell_dir.count > 0 && !self.ivf_degraded
    }

    /// Whether the index was built with cells.
    pub fn index_was_ivf(&self) -> (r: bool)
        ensures
            r == (self.lists > 0),
    {
        self.lists > 0
    }

    /// Whether an index that was built with cells has lost them.
    pub fn is_degraded(&self) -> (r: bool)
        ensures
            r == (self.lists > 0 && self.ivf_degraded),
    {
        self.lists > 0 && self.ivf_degraded
    }

    /// Whether this is a token index.
    pub fn is_colbert(&self) -> (r: bool)
        ensures
            r == (self.kind == KIND_COLBERT),
    {
        self.kind == KIND_COLBERT
    }

    /// Whether this is a graph index.
    pub fn is_graph(&self) -> (r: bool)
        ensures
            r == (self.kind == KIND_GRAPH),
    {
        self.kind == KIND_GRAPH
    }

    /// Whether this is a graph index with an adjacency chain.
    pub fn has_graph(&self) -> (r: bool)
        ensures
            r == (self.kind == KIND_GRAPH && self.graph.count > 0),
    {
        self.kind == KIND_GRAPH && self.graph.count > 0
    }
}

fn row_blocks(s: Span, n: u64, rows_per_page: u32) -> (r: (u64, u64))
    ensures
        r.0 == row_extent(s, n, rows_per_page).0,
        r.1 == row_extent(s, n, rows_per_page).1,
{
    let pages: u64 = MetaPageData::pages_needed(n, rows_per_page);
    let limit: u64 = u32::MAX as u64;
    let capped: u64 = if pages < limit {
        pages
    } else {
        limit
    };
    let count: u64 = s.count as u64;
    (
        s.first as u64,
        if capped < count {
            count
        } else {
            capped
        },
    )
}

fn furthest(at: u64, s: Span) -> (r: u64)
    ensures
        r == end_of(at as nat, s),
{
    let end: u64 = s.first as u64 + s.count as u64;
    if s.count > 0 && end > at {
        end
    } else {
        at
    }
}

fn move_span(s: Span, gap: u32) -> (r: Span)
    requires
        s.count > 0 ==> s.first + gap <= u32::MAX,
    ensures
        r == moved(s, gap as nat),
{
    if s.count == 0 {
        s
    } else {
        Span { first: s.first + gap, count: s.count }
    }
}

fn span(first: u64, count: u64) -> (r: Span)
    requires
        first + count <= u32::MAX,
    ensures
        r == span_at(first as nat, count as nat),
{
    if count == 0 {
        Span { first: 0, count: 0 }
    } else {
        Span { first: first as u32, count: count as u32 }
    }
}

} // verus!
