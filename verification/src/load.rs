//! Reading an index back from its relation.
//!
//! The functions here say what to fetch, from the meta page and the number of blocks; `gather` and the
//! decoders turn the fetched pages into tables.
use vstd::prelude::*;

use crate::bytes::{bytes_to_u32s, bytes_to_u64s, decode_u32s, decode_u64s};
use crate::page::{MetaPageData, PAYLOAD_BYTES};
use crate::reads::{
    chain_fault, gather, long_enough, read_chain, row_reads, taken, ChainError, PageRead,
};

verus! {

/// What to fetch for the rows of an index. `meta` is the meta page that the rows belong to.
#[derive(Debug, PartialEq, Eq)]
pub enum FullRead {
    /// There are no rows.
    Empty { meta: MetaPageData },
    /// Fetch these three chains.
    Rows {
        meta: MetaPageData,
        codes: Vec<PageRead>,
        scales: Vec<PageRead>,
        ids: Vec<PageRead>,
    },
}

/// The meta page that a whole read answers for: the one that is there now, where there is one and
/// the one seen before had rows.
pub open spec fn answering_meta(hint: MetaPageData, current: Option<MetaPageData>) -> MetaPageData {
    match current {
        Some(m) => if hint.n_vectors == 0 {
            hint
        } else {
            m
        },
        None => hint,
    }
}

/// Whether a whole read fetches anything.
pub open spec fn has_rows(hint: MetaPageData, current: Option<MetaPageData>) -> bool {
    hint.n_vectors > 0 && (current matches Some(m) && m.n_vectors > 0)
}

/// Why the rows cannot be fetched, if they cannot.
pub open spec fn rows_fault(m: MetaPageData, nblk: u32) -> Option<ChainError> {
    match chain_fault(m.codes.first, m.stride_bytes, m.rows_per_codes_page, m.n_vectors, nblk) {
        Some(e) => Some(e),
        None => match chain_fault(m.scales.first, 4, m.rows_per_scales_page, m.n_vectors, nblk) {
            Some(e) => Some(e),
            None => chain_fault(m.ids.first, 8, m.rows_per_ids_page, m.n_vectors, nblk),
        },
    }
}

/// What to fetch for all rows. `meta_hint` is a meta page that was read before; `current` is the one
/// that is there now, read under the lock that keeps rewrites out. The rows are always those of
/// `current`.
pub fn read_full_consistent(meta_hint: &MetaPageData, current: Option<MetaPageData>, nblk: u32) -> (r:
    Result<FullRead, ChainError>)
    ensures
        if !has_rows(*meta_hint, current) {
            r == Ok::<FullRead, ChainError>(
                FullRead::Empty { meta: answering_meta(*meta_hint, current) },
            )
        } else {
            let m = current->0;
            match rows_fault(m, nblk) {
                Some(e) => r == Err::<FullRead, ChainError>(e),
                None => r matches Ok(FullRead::Rows { meta, codes, scales, ids }) && meta == m
                    && codes@ == row_reads(
                    m.codes.first,
                    m.stride_bytes,
                    m.rows_per_codes_page,
                    m.n_vectors,
                ) && scales@ == row_reads(m.scales.first, 4, m.rows_per_scales_page, m.n_vectors)
                    && ids@ == row_reads(m.ids.first, 8, m.rows_per_ids_page, m.n_vectors),
            }
        },
{
    if meta_hint.n_vectors == 0 {
        return Ok(FullRead::Empty { meta: *meta_hint });
    }
    let meta: MetaPageData = match current {
        Some(m) => m,
        None => {
            return Ok(FullRead::Empty { meta: *meta_hint });
        },
    };
    if meta.n_vectors == 0 {
        return Ok(FullRead::Empty { meta });
    }
    let codes: Vec<PageRead> = match read_chain(
        meta.codes.first,
        meta.stride_bytes,
        meta.rows_per_codes_page,
        meta.n_vectors,
        nblk,
    ) {
        Ok(v) => v,
        Err(e) => {
            return Err(e);
        },
    };
    let scales: Vec<PageRead> = match read_chain(
        meta.scales.first,
        4,
        meta.rows_per_scales_page,
        meta.n_vectors,
        nblk,
    ) {
        Ok(v) => v,
        Err(e) => {
            return Err(e);
        },
    };
    let ids: Vec<PageRead> = match read_chain(
        meta.ids.first,
        8,
        meta.rows_per_ids_page,
        meta.n_vectors,
        nblk,
    ) {
        Ok(v) => v,
        Err(e) => {
            return Err(e);
        },
    };
    Ok(FullRead::Rows { meta, codes, scales, ids })
}

/// Decodes fetched scales: bit patterns of single-precision numbers.
pub fn scales_from_pages(reads: &Vec<PageRead>, payloads: &Vec<Vec<u8>>) -> (r: Vec<u32>)
    requires
        long_enough(reads@, payloads@),
    ensures
        r@ == bytes_to_u32s(taken(reads@, payloads@)),
{
    let bytes: Vec<u8> = gather(reads, payloads);
    decode_u32s(bytes.as_slice())
}

/// Decodes fetched ids.
pub fn ids_from_pages(reads: &Vec<PageRead>, payloads: &Vec<Vec<u8>>) -> (r: Vec<u64>)
    requires
        long_enough(reads@, payloads@),
    ensures
        r@ == bytes_to_u64s(taken(reads@, payloads@)),
{
    let bytes: Vec<u8> = gather(reads, payloads);
    decode_u64s(bytes.as_slice())
}

/// The meta page whose ids are read: the one that is there now where there is one.
pub open spec fn ids_meta(meta: MetaPageData, current: Option<MetaPageData>) -> MetaPageData {
    match current {
        Some(m) => m,
        None => meta,
    }
}

/// What to fetch for the ids alone; nothing where `meta`, read before, or the current meta page has
/// no rows.
pub fn read_ids_only(meta: &MetaPageData, current: Option<MetaPageData>, nblk: u32) -> (r: Result<
    Vec<PageRead>,
    ChainError,
>)
    ensures
        ({
            let m = ids_meta(*meta, current);
            if meta.n_vectors == 0 {
                r is Ok && r->Ok_0@.len() == 0
            } else {
                match chain_fault(m.ids.first, 8, m.rows_per_ids_page, m.n_vectors, nblk) {
                    Some(e) => r == Err::<Vec<PageRead>, ChainError>(e),
                    None => r is Ok && r->Ok_0@ == row_reads(
                        m.ids.first,
                        8,
                        m.rows_per_ids_page,
                        m.n_vectors,
                    ),
                }
            }
        }),
{
    if meta.n_vectors == 0 {
        return Ok(Vec::new());
    }
    let cur: MetaPageData = match current {
        Some(m) => m,
        None => *meta,
    };
    read_chain(cur.ids.first, 8, cur.rows_per_ids_page, cur.n_vectors, nblk)
}

/// What to fetch for the scales alone.
pub fn read_scales_only(meta: &MetaPageData, nblk: u32) -> (r: Result<Vec<PageRead>, ChainError>)
    ensures
        match chain_fault(meta.scales.first, 4, meta.rows_per_scales_page, meta.n_vectors, nblk) {
            Some(e) => r == Err::<Vec<PageRead>, ChainError>(e),
            None => r is Ok && r->Ok_0@ == row_reads(
                meta.scales.first,
                4,
                meta.rows_per_scales_page,
                meta.n_vectors,
            ),
        },
{
    read_chain(meta.scales.first, 4, meta.rows_per_scales_page, meta.n_vectors, nblk)
}

/// Whether `r` is the reads of `n` plain bytes from block `first` on where the chain is there, and no
/// read where it is not.
pub open spec fn is_byte_read(
    r: Result<Vec<PageRead>, ChainError>,
    present: bool,
    first: u32,
    n: u64,
    nblk: u32,
) -> bool {
    if !present {
        r is Ok && r->Ok_0@.len() == 0
    } else {
        match chain_fault(first, 1, PAYLOAD_BYTES as u32, n, nblk) {
            Some(e) => r == Err::<Vec<PageRead>, ChainError>(e),
            None => r is Ok && r->Ok_0@ == row_reads(first, 1, PAYLOAD_BYTES as u32, n),
        }
    }
}

/// What to fetch for the blocked codes that older layouts store.
pub fn read_blocked(meta: &MetaPageData, nblk: u32) -> (r: Result<Vec<PageRead>, ChainError>)
    ensures
        is_byte_read(
            r,
            meta.blocked_bytes > 0 && meta.blocked.first > 0,
            meta.blocked.first,
            meta.blocked_bytes,
            nblk,
        ),
{
    if meta.blocked_bytes == 0 || meta.blocked.first == 0 {
        return Ok(Vec::new());
    }
    read_chain(meta.blocked.first, 1, PAYLOAD_BYTES as u32, meta.blocked_bytes, nblk)
}

/// What to fetch for the calibration pair: twice `rotation_dim` numbers of four bytes.
pub fn read_tqplus(meta: &MetaPageData, nblk: u32) -> (r: Result<Vec<PageRead>, ChainError>)
    ensures
        is_byte_read(
            r,
            meta.rotation.count > 0 && meta.rotation.first > 0 && meta.rotation_dim > 0,
            meta.rotation.first,
            (8 * meta.rotation_dim) as u64,
            nblk,
        ),
{
    if meta.rotation.count == 0 || meta.rotation.first == 0 || meta.rotation_dim == 0 {
        return Ok(Vec::new());
    }
    let n_bytes: u64 = 8 * (meta.rotation_dim as u64);
    read_chain(meta.rotation.first, 1, PAYLOAD_BYTES as u32, n_bytes, nblk)
}

/// Splits fetched calibration bytes into shift and scale, `dim` bit patterns each; two empty tables
/// where nothing was fetched.
pub fn tqplus_from_bytes(bytes: &[u8], dim: u32) -> (r: (Vec<u32>, Vec<u32>))
    requires
        bytes@.len() == 0 || bytes@.len() == 8 * dim,
    ensures
        r.0@ + r.1@ == bytes_to_u32s(bytes@),
        r.0@.len() == bytes@.len() / 8,
        r.1@.len() == bytes@.len() / 8,
{
    let all: Vec<u32> = decode_u32s(bytes);
    let half: usize = bytes.len() / 8;
    let mut shift: Vec<u32> = Vec::new();
    let mut scale: Vec<u32> = Vec::new();
    let mut i: usize = 0;
    while i < half
        invariant
            i <= half,
            all@.len() == 2 * half <= usize::MAX,
            shift@ == all@.take(i as int),
            scale@ == all@.subrange(half as int, half + i),
        decreases half - i,
    {
        shift.push(all[i]);
        scale.push(all[half + i]);
        i += 1;
    }
    assert(shift@ + scale@ =~= all@);
    (shift, scale)
}

/// What to fetch for the coarse centroids: `lists * dim` numbers of four bytes.
pub fn read_coarse_centroids(meta: &MetaPageData, nblk: u32) -> (r: Result<Vec<PageRead>, ChainError>)
    requires
        4 * (meta.lists * meta.dim) <= u64::MAX,
    ensures
        is_byte_read(
            r,
            meta.lists > 0 && meta.coarse.first > 0 && meta.coarse.count > 0,
            meta.coarse.first,
            (4 * (meta.lists * meta.dim)) as u64,
            nblk,
        ),
{
    if meta.lists == 0 || meta.coarse.first == 0 || meta.coarse.count == 0 {
        return Ok(Vec::new());
    }
    proof {
        assert(0 <= meta.lists * meta.dim) by (nonlinear_arith);
    }
    let n_bytes: u64 = 4 * (meta.lists as u64 * meta.dim as u64);
    read_chain(meta.coarse.first, 1, PAYLOAD_BYTES as u32, n_bytes, nblk)
}

/// Bytes of one entry of the cell directory.
pub const CELL_ENTRY_BYTES: u64 = 12;

/// What to fetch for the cell directory; `None` where the index has none.
pub fn read_cell_directory(meta: &MetaPageData, nblk: u32) -> (r: Result<
    Option<Vec<PageRead>>,
    ChainError,
>)
    ensures
        if meta.lists == 0 || meta.cell_dir.first == 0 || meta.cell_dir.count == 0 {
            r == Ok::<Option<Vec<PageRead>>, ChainError>(None)
        } else {
            let n = (meta.lists * CELL_ENTRY_BYTES) as u64;
            match chain_fault(meta.cell_dir.first, 1, PAYLOAD_BYTES as u32, n, nblk) {
                Some(e) => r == Err::<Option<Vec<PageRead>>, ChainError>(e),
                None => r matches Ok(Some(v)) && v@ == row_reads(
                    meta.cell_dir.first,
                    1,
                    PAYLOAD_BYTES as u32,
                    n,
                ),
            }
        },
{
    if meta.lists == 0 || meta.cell_dir.first == 0 || meta.cell_dir.count == 0 {
        return Ok(None);
    }
    let n_bytes: u64 = meta.lists as u64 * CELL_ENTRY_BYTES;
    match read_chain(meta.cell_dir.first, 1, PAYLOAD_BYTES as u32, n_bytes, nblk) {
        Ok(v) => Ok(Some(v)),
        Err(e) => Err(e),
    }
}

/// What to fetch for the graph adjacency, offsets and neighbours together; `None` where the index
/// has none.
pub fn read_graph_adjacency(meta: &MetaPageData, nblk: u32) -> (r: Result<
    Option<Vec<PageRead>>,
    ChainError,
>)
    requires
        meta.graph_offsets_bytes + meta.graph_neighbors_bytes <= u64::MAX,
    ensures
        if meta.kind != crate::page::KIND_GRAPH || meta.graph.count == 0 {
            r == Ok::<Option<Vec<PageRead>>, ChainError>(None)
        } else {
            let n = (meta.graph_offsets_bytes + meta.graph_neighbors_bytes) as u64;
            match chain_fault(meta.graph.first, 1, PAYLOAD_BYTES as u32, n, nblk) {
                Some(e) => r == Err::<Option<Vec<PageRead>>, ChainError>(e),
                None => r matches Ok(Some(v)) && v@ == row_reads(
                    meta.graph.first,
                    1,
                    PAYLOAD_BYTES as u32,
                    n,
                ),
            }
        },
{
    if !meta.has_graph() {
        return Ok(None);
    }
    let total_bytes: u64 = meta.graph_offsets_bytes + meta.graph_neighbors_bytes;
    match read_chain(meta.graph.first, 1, PAYLOAD_BYTES as u32, total_bytes, nblk) {
        Ok(v) => Ok(Some(v)),
        Err(e) => Err(e),
    }
}

/// What to fetch for the tombstone bitmap; nothing where no row was deleted yet.
pub fn read_tombstones(meta: &MetaPageData, nblk: u32) -> (r: Result<Vec<PageRead>, ChainError>)
    ensures
        is_byte_read(
            r,
            meta.tombstone_bytes > 0 && meta.tombstone.first > 0 && meta.tombstone.count > 0,
            meta.tombstone.first,
            meta.tombstone_bytes,
            nblk,
        ),
{
    if meta.tombstone_bytes == 0 || meta.tombstone.first == 0 || meta.tombstone.count == 0 {
        return Ok(Vec::new());
    }
    read_chain(meta.tombstone.first, 1, PAYLOAD_BYTES as u32, meta.tombstone_bytes, nblk)
}

} // verus!
