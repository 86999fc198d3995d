//! How a scan gets at an index: what to load, how it is searched first, how a plain search is filtered.
use std::collections::HashSet;
use vstd::prelude::*;

use crate::page::MetaPageData;
use crate::scan::IvfScan;

verus! {

broadcast use vstd::std_specs::hash::group_hash_axioms;

/// How a scan begins.
#[derive(Clone, Copy, Debug, PartialEq, Eq, Structural)]
pub enum FirstFetch {
    /// There is nothing to give.
    Finish,
    /// Search the backend's own modified copy of the index.
    UseMirror,
    /// Search the index as it is on disk.
    Load,
}

/// The query does not have the dimension of the index.
#[derive(Clone, Copy, Debug, PartialEq, Eq, Structural)]
pub struct DimMismatch {
    pub query: usize,
    pub index: u32,
}

/// Whether the index on disk may lag behind the backend's own copy: it is empty, or has another
/// dimension than the query.
pub open spec fn may_lag(m: MetaPageData, query_dim: usize) -> bool {
    m.n_vectors == 0 || m.dim != query_dim
}

/// Whether to look for the backend's own modified copy of the index.
pub fn wants_mirror(meta: &MetaPageData, query_dim: usize) -> (r: bool)
    ensures
        r == may_lag(*meta, query_dim),
{
    meta.n_vectors == 0 || meta.dim as usize != query_dim
}

/// Decides how a scan begins. `mirror_found` tells whether a modified copy turned up; it counts only
/// where one is wanted.
pub fn first_fetch(meta: &Option<MetaPageData>, query_dim: usize, mirror_found: bool) -> (r: Result<
    FirstFetch,
    DimMismatch,
>)
    ensures
        r == match *meta {
            None => Ok::<FirstFetch, DimMismatch>(FirstFetch::Finish),
            Some(m) => if may_lag(m, query_dim) && mirror_found {
                Ok::<FirstFetch, DimMismatch>(FirstFetch::UseMirror)
            } else if m.dim != query_dim {
                Err::<FirstFetch, DimMismatch>(DimMismatch { query: query_dim, index: m.dim })
            } else if m.n_vectors == 0 {
                Ok::<FirstFetch, DimMismatch>(FirstFetch::Finish)
            } else {
                Ok::<FirstFetch, DimMismatch>(FirstFetch::Load)
            },
        },
{
    let m: &MetaPageData = match meta {
        Some(m) => m,
        None => {
            return Ok(FirstFetch::Finish);
        },
    };
    if wants_mirror(m, query_dim) && mirror_found {
        return Ok(FirstFetch::UseMirror);
    }
    if m.dim as usize != query_dim {
        return Err(DimMismatch { query: query_dim, index: m.dim });
    }
    if m.n_vectors == 0 {
        return Ok(FirstFetch::Finish);
    }
    Ok(FirstFetch::Load)
}

/// `a * b`, staying at the largest value.
pub open spec fn saturating_product(a: nat, b: nat) -> u64 {
    if a * b <= u64::MAX {
        (a * b) as u64
    } else {
        u64::MAX
    }
}

/// The bytes that the codes of an index take, staying at the largest value.
pub fn codes_bytes(meta: &MetaPageData) -> (r: u64)
    ensures
        r == saturating_product(
            meta.n_vectors as nat,
            (meta.dim as nat * meta.bit_width as nat) / 8,
        ),
{
    proof {
        assert(meta.dim * meta.bit_width <= 0xffff_ffff * 0xff) by (nonlinear_arith)
            requires
                0 <= meta.dim <= 0xffff_ffff,
                0 <= meta.bit_width <= 0xff,
        ;
        assert(0 <= meta.dim * meta.bit_width) by (nonlinear_arith);
    }
    let per_row: u64 = (meta.dim as u64 * meta.bit_width as u64) / 8;
    match meta.n_vectors.checked_mul(per_row) {
        Some(v) => v,
        None => u64::MAX,
    }
}

/// Whether to load only the cells that a query probes: where the settings ask for it and the index
/// has cells and everything else a scan needs.
pub fn load_by_cells(meta: &MetaPageData, settings_ask: bool) -> (r: bool)
    ensures
        r == (settings_ask && meta.clustered() && meta.prepared()),
{
    settings_ask && meta.has_ivf() && meta.has_prepared_layout()
}

/// The sizes of what was read for a load by cells.
#[derive(Clone, Copy, Debug, PartialEq, Eq, Structural)]
pub struct CellLoad {
    /// Numbers in the coarse centroids.
    pub centroids: usize,
    /// Numbers in the rotation.
    pub rotation: usize,
    /// Rows that the cell directory accounts for, where there is one.
    pub directory_rows: Option<u64>,
    pub scales: usize,
    pub ids: usize,
}

/// Whether what was read for a load by cells fits the meta page.
pub open spec fn cell_load_fits(m: MetaPageData, l: CellLoad) -> bool {
    &&& m.dim > 0 && m.lists > 0 && m.n_vectors > 0
    &&& l.centroids == m.lists * m.dim
    &&& l.rotation == m.dim * m.dim
    &&& l.directory_rows == Some(m.n_vectors)
    &&& l.scales == m.n_vectors
    &&& l.ids == m.n_vectors
}

/// The bytes that a load by cells keeps: everything but the codes.
pub open spec fn cell_load_bytes(m: MetaPageData) -> int {
    m.lists * m.dim * 4 + m.dim * m.dim * 4 + m.lists * 12 + m.n_vectors * 4 + m.n_vectors * 8
        + 4096
}

/// The bytes that a load by cells keeps; `None` where what was read does not fit the meta page, and
/// the whole index is to be loaded.
pub fn try_install_ooc(meta: &MetaPageData, load: CellLoad) -> (r: Option<u64>)
    requires
        cell_load_bytes(*meta) <= u64::MAX,
    ensures
        r == if cell_load_fits(*meta, load) {
            Some(cell_load_bytes(*meta) as u64)
        } else {
            None
        },
{
    let dim: u64 = meta.dim as u64;
    let lists: u64 = meta.lists as u64;
    let n: u64 = meta.n_vectors;
    if dim == 0 || lists == 0 || n == 0 {
        return None;
    }
    proof {
        assert(0 <= meta.lists * meta.dim <= 0xffff_ffff * 0xffff_ffff) by (nonlinear_arith)
            requires
                0 <= meta.lists <= 0xffff_ffff,
                0 <= meta.dim <= 0xffff_ffff,
        ;
        assert(0 <= meta.dim * meta.dim <= 0xffff_ffff * 0xffff_ffff) by (nonlinear_arith)
            requires
                0 <= meta.dim <= 0xffff_ffff,
        ;
    }
    if load.centroids as u64 != lists * dim {
        return None;
    }
    if load.rotation as u64 != dim * dim {
        return None;
    }
    match load.directory_rows {
        Some(rows) => {
            if rows != n {
                return None;
            }
        },
        None => {
            return None;
        },
    }
    if load.scales as u64 != n || load.ids as u64 != n {
        return None;
    }
    Some(lists * dim * 4 + dim * dim * 4 + lists * 12 + n * 4 + n * 8 + 4096)
}

/// The bytes that a whole index of `n` rows counts for.
pub open spec fn whole_bytes(dim: nat, bit_width: nat, n: nat) -> nat {
    ((dim * bit_width) / 8 + 4 + 64) * (if n == 0 {
        1
    } else {
        n
    })
}

/// The bytes that a whole index of `n` rows counts for.
pub fn whole_index_bytes(dim: u32, bit_width: u8, n: u64) -> (r: u64)
    requires
        whole_bytes(dim as nat, bit_width as nat, n as nat) <= u64::MAX,
    ensures
        r == whole_bytes(dim as nat, bit_width as nat, n as nat),
{
    proof {
        assert(0 <= dim * bit_width <= 0xffff_ffff * 0xff) by (nonlinear_arith)
            requires
                0 <= dim <= 0xffff_ffff,
                0 <= bit_width <= 0xff,
        ;
    }
    let per_row: u64 = (dim as u64 * bit_width as u64) / 8 + 4 + 64;
    if n == 0 {
        assert(per_row * 1 == per_row);
        per_row
    } else {
        per_row * n
    }
}

/// How many candidates the first search asks for: as many as wished, at least one, not more than
/// there are rows.
pub fn first_k(wished: usize, n_live: usize) -> (r: usize)
    ensures
        r == {
            let rows = if n_live < 1 {
                1
            } else {
                n_live
            };
            let k = if wished < rows {
                wished
            } else {
                rows
            };
            if k < 1 {
                1
            } else {
                k
            }
        },
        1 <= r <= n_live || r == 1,
{
    let rows: usize = if n_live < 1 {
        1
    } else {
        n_live
    };
    let k: usize = if wished < rows {
        wished
    } else {
        rows
    };
    if k < 1 {
        1
    } else {
        k
    }
}

/// Whether a scan can be restricted to cells: the index has them, what was read of them fits the meta
/// page, and the cells account for exactly the rows that are searched.
pub open spec fn cells_usable(m: MetaPageData, l: CellLoad, n_live: usize) -> bool {
    &&& m.clustered()
    &&& l.centroids == m.lists * m.dim
    &&& l.rotation == m.dim * m.dim
    &&& l.directory_rows == Some(n_live as u64)
}

/// How a scan is restricted to cells at first: to the number of cells that the settings ask for, at
/// least one, not more than there are. `None` where it cannot be restricted.
pub fn ivf_setup(meta: &Option<MetaPageData>, load: CellLoad, n_live: usize, probes: usize) -> (r: Option<
    IvfScan,
>)
    ensures
        r == match *meta {
            Some(m) => if cells_usable(m, load, n_live) {
                Some(
                    IvfScan {
                        lists: m.lists as usize,
                        probes: if probes < 1 {
                            1
                        } else if probes < m.lists {
                            probes
                        } else {
                            m.lists as usize
                        },
                    },
                )
            } else {
                None
            },
            None => None,
        },
        r matches Some(v) ==> 1 <= v.probes <= v.lists,
{
    let m: &MetaPageData = match meta {
        Some(m) => m,
        None => {
            return None;
        },
    };
    if !m.has_ivf() {
        return None;
    }
    let dim: u64 = m.dim as u64;
    let lists: u64 = m.lists as u64;
    proof {
        assert(0 <= m.lists * m.dim <= 0xffff_ffff * 0xffff_ffff) by (nonlinear_arith)
            requires
                0 <= m.lists <= 0xffff_ffff,
                0 <= m.dim <= 0xffff_ffff,
        ;
        assert(0 <= m.dim * m.dim <= 0xffff_ffff * 0xffff_ffff) by (nonlinear_arith)
            requires
                0 <= m.dim <= 0xffff_ffff,
        ;
    }
    if load.centroids as u64 != lists * dim || load.rotation as u64 != dim * dim {
        return None;
    }
    match load.directory_rows {
        Some(rows) => {
            if rows != n_live as u64 {
                return None;
            }
        },
        None => {
            return None;
        },
    }
    let most: usize = m.lists as usize;
    let first: usize = if probes < 1 {
        1
    } else if probes < most {
        probes
    } else {
        most
    };
    Some(IvfScan { lists: most, probes: first })
}

/// How many candidates a search asks for whose result is filtered afterwards: eight times as many,
/// not more than there are rows, not fewer than wanted.
pub open spec fn widened(k: usize, n: usize) -> usize {
    let rows = if n < 1 {
        1
    } else {
        n
    };
    let eightfold = if 8 * k <= usize::MAX {
        (8 * k) as usize
    } else {
        usize::MAX
    };
    let wide = if eightfold < rows {
        eightfold
    } else {
        rows
    };
    if wide < k {
        k
    } else {
        wide
    }
}

/// How many candidates a search asks for whose result is filtered afterwards.
pub fn widened_k(k: usize, n: usize) -> (r: usize)
    ensures
        r == widened(k, n),
        r >= k,
{
    let rows: usize = if n < 1 {
        1
    } else {
        n
    };
    let eightfold: usize = if k <= usize::MAX / 8 {
        8 * k
    } else {
        usize::MAX
    };
    let wide: usize = if eightfold < rows {
        eightfold
    } else {
        rows
    };
    if wide < k {
        k
    } else {
        wide
    }
}

/// The positions of the allowed candidates, in order.
pub open spec fn allowed_positions(ids: Seq<u64>, allow: Set<u64>) -> Seq<int>
    decreases ids.len(),
{
    if ids.len() == 0 {
        Seq::empty()
    } else if allow.contains(ids.last()) {
        allowed_positions(ids.drop_last(), allow).push(ids.len() - 1)
    } else {
        allowed_positions(ids.drop_last(), allow)
    }
}

/// The positions of the first `k` allowed candidates; for `k == 0` of all of them.
pub open spec fn kept_positions(ids: Seq<u64>, allow: Set<u64>, k: nat) -> Seq<int> {
    let all = allowed_positions(ids, allow);
    if k > 0 && all.len() > k {
        all.take(k as int)
    } else {
        all
    }
}

/// The positions of the candidates that the allowlist lets through, the first `k` of them.
pub fn post_filter(ids: &[u64], allow: &HashSet<u64>, k: usize) -> (r: Vec<usize>)
    ensures
        r@.len() == kept_positions(ids@, allow@, k as nat).len(),
        forall|i: int|
            0 <= i < r@.len() ==> #[trigger] r@[i] == kept_positions(ids@, allow@, k as nat)[i],
{
    let mut out: Vec<usize> = Vec::new();
    let mut i: usize = 0;
    let ghost set = allow@;
    while i < ids.len()
        invariant
            i <= ids@.len(),
            set == allow@,
            k == 0 || out@.len() < k,
            out@.len() == allowed_positions(ids@.take(i as int), set).len(),
            forall|j: int|
                0 <= j < out@.len() ==> #[trigger] out@[j] == allowed_positions(
                    ids@.take(i as int),
                    set,
                )[j],
        decreases ids@.len() - i,
    {
        proof {
            assert(ids@.take(i + 1).drop_last() =~= ids@.take(i as int));
            assert(ids@.take(i + 1).last() == ids@[i as int]);
        }
        if allow.contains(&ids[i]) {
            out.push(i);
            if out.len() == k {
                proof {
                    lemma_positions_prefix(ids@, (i + 1) as nat, set);
                    let all = allowed_positions(ids@, set);
                    assert(all.take(k as int) =~= kept_positions(ids@, set, k as nat));
                }
                return out;
            }
        }
        i += 1;
    }
    assert(ids@.take(i as int) =~= ids@);
    out
}

proof fn lemma_positions_prefix(ids: Seq<u64>, n: nat, allow: Set<u64>)
    requires
        n <= ids.len(),
    ensures
        ({
            let part = allowed_positions(ids.take(n as int), allow);
            let all = allowed_positions(ids, allow);
            part.len() <= all.len() && all.take(part.len() as int) == part
        }),
    decreases ids.len(),
{
    let part = allowed_positions(ids.take(n as int), allow);
    let all = allowed_positions(ids, allow);
    if n < ids.len() {
        assert(ids.drop_last().take(n as int) =~= ids.take(n as int));
        lemma_positions_prefix(ids.drop_last(), n, allow);
        let before = allowed_positions(ids.drop_last(), allow);
        assert(all.take(part.len() as int) =~= before.take(part.len() as int));
    } else {
        assert(ids.take(n as int) =~= ids);
        assert(all.take(part.len() as int) =~= part);
    }
}

/// Whether to warn about an index: only the first time in a backend.
pub fn first_warning(warned: &mut HashSet<u32>, index: u32) -> (r: bool)
    ensures
        r == !old(warned)@.contains(index),
        final(warned)@ == old(warned)@.insert(index),
{
    warned.insert(index)
}

} // verus!
