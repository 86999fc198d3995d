use pg_turbovec::bitmap::{count_dead, is_dead, merge_tombstones};
use pg_turbovec::bytes::{decode_u32s, decode_u64s, encode_u32s, encode_u64s};
use pg_turbovec::chain::{write_chain, Action, NO_BLOCK};
use pg_turbovec::codec::MetaError;
use pg_turbovec::graph::{entry_point_after, GraphAdjacency, GraphError};
use pg_turbovec::load::{
    ids_from_pages, read_blocked, read_cell_directory, read_coarse_centroids, read_full_consistent,
    read_graph_adjacency, read_ids_only, read_scales_only, read_tombstones, read_tqplus,
    scales_from_pages, tqplus_from_bytes, FullRead,
};
use pg_turbovec::page::{MetaPageData, Span, PAYLOAD_BYTES};
use pg_turbovec::reads::{gather, gather_codes_ranges, read_chain, ChainError, PageRead};
use pg_turbovec::relfile::{
    first_duplicate_id, is_storable, write_full, write_full_with_prepared, write_full_with_prepared_graph,
    write_full_with_prepared_ivf, GraphParts, IvfParts, PreparedParts, Standing, WriteError,
    WritePlan,
};
use pg_turbovec::split_write::{write_blocked_phase_and_meta, write_packed_phase};
use pg_turbovec::vacuum::{
    bulkdelete_start, can_move_rows, collect_dead, plan_bulkdelete, write_tombstones_and_meta, BulkDeleteStart,
};

/// A relation without blocks.
const FRESH: Standing = Standing { blocks: 0, meta: None };

/// The pages of a relation, as far as actions change them.
struct Disk {
    pages: Vec<Vec<u8>>,
}

impl Disk {
    fn new() -> Disk {
        Disk { pages: Vec::new() }
    }

    fn fill(&mut self, blkno: usize, payload: &[u8]) {
        let mut page = vec![0u8; PAYLOAD_BYTES];
        page[..payload.len()].copy_from_slice(payload);
        self.pages[blkno] = page;
    }

    fn apply(&mut self, actions: &[Action]) {
        for a in actions {
            match a {
                Action::ExtendTo(n) => {
                    while self.pages.len() < *n as usize {
                        self.pages.push(vec![0u8; PAYLOAD_BYTES]);
                    }
                }
                Action::WritePages(writes) => {
                    for w in writes {
                        self.fill(w.blkno as usize, &w.payload);
                    }
                }
                Action::CopySlot(c) => {
                    let row =
                        self.pages[c.src_blkno as usize][c.src_off..c.src_off + c.len].to_vec();
                    self.pages[c.dst_blkno as usize][c.dst_off..c.dst_off + c.len]
                        .copy_from_slice(&row);
                }
                Action::WriteMeta(bytes) => self.fill(0, bytes),
                Action::Truncate(n) => self.pages.truncate(*n as usize),
            }
        }
    }

    fn nblk(&self) -> u32 {
        self.pages.len() as u32
    }

    fn meta(&self) -> Result<MetaPageData, MetaError> {
        MetaPageData::decode(&self.pages[0])
    }

    fn standing(&self) -> Standing {
        Standing { blocks: self.nblk(), meta: self.meta().ok() }
    }

    fn payloads(&self, reads: &Vec<PageRead>) -> Vec<Vec<u8>> {
        reads.iter().map(|r| self.pages[r.blkno as usize].clone()).collect()
    }

    fn fetch(&self, reads: Vec<PageRead>) -> Vec<u8> {
        let payloads = self.payloads(&reads);
        gather(&reads, &payloads)
    }

    fn rows(&self) -> (Vec<u8>, Vec<u32>, Vec<u64>) {
        let meta = self.meta().unwrap();
        match read_full_consistent(&meta, Some(meta), self.nblk()).unwrap() {
            FullRead::Empty { .. } => (vec![], vec![], vec![]),
            FullRead::Rows { codes, scales, ids, .. } => {
                let sp = self.payloads(&scales);
                let ip = self.payloads(&ids);
                (self.fetch(codes), scales_from_pages(&scales, &sp), ids_from_pages(&ids, &ip))
            }
        }
    }
}

fn tables(n: u64, stride: usize) -> (Vec<u8>, Vec<u32>, Vec<u64>) {
    let codes = (0..n as usize * stride).map(|i| (i * 7 % 251) as u8).collect();
    let scales = (0..n as u32).map(|i| 1000 + i).collect();
    let ids = (0..n).map(|i| 5000 + 3 * i).collect();
    (codes, scales, ids)
}

fn written(plan: WritePlan) -> Disk {
    let mut disk = Disk::new();
    disk.apply(&plan.actions);
    disk
}

fn pair(dim: u32) -> (Vec<u32>, Vec<u32>) {
    ((0..dim).map(|i| 10 + i).collect(), (0..dim).map(|i| 900 + i).collect())
}

#[test]
fn what_a_write_stores_reads_back() {
    let (codes, scales, ids) = tables(3000, 32);
    let plan = write_full(4, 64, 3000, &codes, &scales, &ids, 7, FRESH).unwrap();
    let meta = plan.meta;
    let disk = written(plan);
    assert_eq!(disk.meta(), Ok(meta));
    assert_eq!(meta.am_version, 7);
    assert_eq!(disk.nblk() as u64, meta.total_blocks());
    let (c, s, i) = disk.rows();
    assert_eq!(c, codes);
    assert_eq!(s, scales);
    assert_eq!(i, ids);
}

#[test]
fn chains_follow_each_other_from_block_one() {
    let (codes, scales, ids) = tables(3000, 32);
    let plan = write_full(4, 64, 3000, &codes, &scales, &ids, 7, FRESH).unwrap();
    let m = plan.meta;
    assert_eq!(m.stride_bytes, 32);
    assert_eq!(m.rows_per_codes_page, 255);
    assert_eq!(m.codes, Span { first: 1, count: 12 });
    assert_eq!(m.scales, Span { first: 13, count: 2 });
    assert_eq!(m.ids, Span { first: 15, count: 3 });
    assert_eq!(m.total_blocks(), 18);
    assert!(!m.has_prepared_layout());
}

#[test]
fn the_meta_page_is_written_behind_every_chain() {
    let (codes, scales, ids) = tables(700, 8);
    let over = Standing { blocks: 99, meta: None };
    let plan = write_full(4, 16, 700, &codes, &scales, &ids, 1, over).unwrap();
    let at = plan.actions.iter().position(|a| matches!(a, Action::WriteMeta(_))).unwrap();
    assert_eq!(at, plan.actions.len() - 2);
    assert_eq!(plan.actions[at + 1], Action::Truncate(plan.meta.total_blocks() as u32));
    assert!(plan.actions[..at].iter().all(|a| match a {
        Action::WritePages(ws) => ws.len() <= 4 && ws.iter().all(|w| w.blkno > 0),
        _ => false,
    }));
}

#[test]
fn an_interrupted_write_leaves_the_old_index() {
    let (codes, scales, ids) = tables(100, 4);
    let mut disk = written(write_full(4, 8, 100, &codes, &scales, &ids, 1, FRESH).unwrap());
    let old = disk.meta().unwrap();
    let before = disk.rows();
    let (codes2, scales2, ids2) = tables(5000, 4);
    let plan = write_full(4, 8, 5000, &codes2, &scales2, &ids2, 2, disk.standing()).unwrap();
    for a in plan.actions {
        if matches!(a, Action::WriteMeta(_)) {
            break;
        }
        disk.apply(&[a]);
        assert_eq!(disk.meta(), Ok(old));
        assert_eq!(disk.rows(), before);
    }
    // The write that comes next does not mind what the interrupted one left.
    let plan = write_full(4, 8, 5000, &codes2, &scales2, &ids2, 2, disk.standing()).unwrap();
    assert_eq!(plan.meta.codes.first, 1);
    disk.apply(&plan.actions);
    assert_eq!(disk.nblk() as u64, plan.meta.total_blocks());
    assert_eq!(disk.rows(), (codes2, scales2, ids2));
}

#[test]
fn a_rewrite_ends_packed_from_block_one() {
    let (codes, scales, ids) = tables(100, 4);
    let mut disk = written(write_full(4, 8, 100, &codes, &scales, &ids, 1, FRESH).unwrap());
    assert_eq!(disk.nblk(), 4);
    // The old chains are in blocks 1 to 3. The new ones take four blocks, so they are written from
    // block 5 on, where they leave room for themselves in front, and are moved there afterwards.
    let (codes2, scales2, ids2) = tables(2000, 4);
    let plan = write_full(4, 8, 2000, &codes2, &scales2, &ids2, 2, disk.standing()).unwrap();
    assert_eq!(plan.meta.codes, Span { first: 1, count: 1 });
    assert_eq!(plan.meta.scales, Span { first: 2, count: 1 });
    assert_eq!(plan.meta.ids, Span { first: 3, count: 2 });
    assert_eq!(plan.actions[0], Action::ExtendTo(9));
    let staged: Vec<u32> = plan
        .actions
        .iter()
        .flat_map(|a| match a {
            Action::WritePages(ws) => ws.iter().map(|w| w.blkno).collect(),
            _ => vec![],
        })
        .collect();
    assert_eq!(staged, vec![5, 6, 7, 8]);
    let moved: Vec<(u32, u32)> = plan
        .actions
        .iter()
        .filter_map(|a| match a {
            Action::CopySlot(c) => Some((c.src_blkno, c.dst_blkno)),
            _ => None,
        })
        .collect();
    assert_eq!(moved, vec![(5, 1), (6, 2), (7, 3), (8, 4)]);
    assert_eq!(plan.actions.last(), Some(&Action::Truncate(5)));
    disk.apply(&plan.actions);
    assert_eq!(disk.nblk(), 5);
    assert_eq!(disk.meta(), Ok(plan.meta));
    assert_eq!(disk.rows(), (codes2, scales2, ids2));
}

#[test]
fn a_smaller_rewrite_frees_blocks() {
    let (codes, scales, ids) = tables(3000, 32);
    let mut disk = written(write_full(4, 64, 3000, &codes, &scales, &ids, 1, FRESH).unwrap());
    assert_eq!(disk.nblk(), 18);
    let before = disk.rows();
    let (codes2, scales2, ids2) = tables(1, 32);
    let plan = write_full(4, 64, 1, &codes2, &scales2, &ids2, 2, disk.standing()).unwrap();
    assert_eq!(plan.meta.codes, Span { first: 1, count: 1 });
    let mut seen_new = false;
    for a in plan.actions {
        disk.apply(&[a]);
        assert!(disk.nblk() <= 21);
        if disk.meta().unwrap().am_version == 1 {
            assert!(!seen_new);
            assert_eq!(disk.rows(), before);
        } else {
            seen_new = true;
            assert_eq!(disk.rows(), (codes2.clone(), scales2.clone(), ids2.clone()));
        }
    }
    assert!(seen_new);
    assert_eq!(disk.nblk(), 4);
}

#[test]
fn rewriting_again_and_again_takes_no_more_room() {
    let (codes, scales, ids) = tables(3000, 32);
    let mut disk = written(write_full(4, 64, 3000, &codes, &scales, &ids, 1, FRESH).unwrap());
    let first = disk.pages.clone();
    for _ in 0..4 {
        let plan = write_full(4, 64, 3000, &codes, &scales, &ids, 1, disk.standing()).unwrap();
        disk.apply(&plan.actions);
        assert_eq!(disk.pages, first);
    }
}

#[test]
fn an_index_too_large_to_stand_beside_the_old_one_is_written_over_it() {
    let (codes, scales, ids) = tables(100, 4);
    let mut old = write_full(4, 8, 100, &codes, &scales, &ids, 1, FRESH).unwrap().meta;
    old.ids.first = u32::MAX - 1;
    let over = Standing { blocks: u32::MAX, meta: Some(old) };
    let plan = write_full(4, 8, 100, &codes, &scales, &ids, 2, over).unwrap();
    assert_eq!(plan.meta.codes, Span { first: 1, count: 1 });
    assert!(plan.actions.iter().all(|a| !matches!(a, Action::CopySlot(_))));
    assert_eq!(plan.actions.last(), Some(&Action::Truncate(4)));
}

#[test]
fn an_interrupted_two_phase_write_leaves_the_old_index() {
    let (codes, scales, ids) = tables(100, 8);
    let mut disk = written(write_full(4, 16, 100, &codes, &scales, &ids, 1, FRESH).unwrap());
    let before = disk.rows();
    let (codes2, scales2, ids2) = tables(50, 8);
    let (layout, first) =
        write_packed_phase(4, 16, 50, &codes2, &scales2, &ids2, 2, disk.standing()).unwrap();
    disk.apply(&first);
    assert_eq!(disk.rows(), before);
    let (shift, scale) = pair(16);
    let parts = PreparedParts { tqplus_shift: &shift, tqplus_scale: &scale };
    let second = write_blocked_phase_and_meta(layout, Some(parts), disk.nblk()).unwrap();
    for a in second.actions {
        assert_eq!(disk.rows(), if disk.meta().unwrap().am_version == 1 {
            before.clone()
        } else {
            (codes2.clone(), scales2.clone(), ids2.clone())
        });
        disk.apply(&[a]);
    }
    assert_eq!(disk.rows(), (codes2, scales2, ids2));
    let m = disk.meta().unwrap();
    assert_eq!(m.codes.first, 1);
    assert_eq!(disk.nblk() as u64, m.total_blocks());
    let bytes = disk.fetch(read_tqplus(&m, disk.nblk()).unwrap());
    assert_eq!(tqplus_from_bytes(&bytes, 16), (shift, scale));
}

#[test]
fn marks_go_behind_an_index_that_was_moved() {
    let (codes, scales, ids) = tables(5, 4);
    let coarse: Vec<u32> = (0..16).collect();
    let dir = vec![0u8; 24];
    let parts = PreparedParts { tqplus_shift: &[], tqplus_scale: &[] };
    let ivf = IvfParts { lists: 2, coarse_centroids: &coarse, cell_dir_bytes: &dir, colbert: false };
    let mut disk = written(write_full(4, 8, 5, &codes, &scales, &ids, 1, FRESH).unwrap());
    let over = disk.standing();
    let plan =
        write_full_with_prepared_ivf(4, 8, 5, &codes, &scales, &ids, 2, parts, ivf, over).unwrap();
    assert_eq!(plan.meta.codes.first, 1);
    disk.apply(&plan.actions);
    let meta = disk.meta().unwrap();
    assert_eq!(meta.cell_dir, Span { first: 5, count: 1 });
    let plan = plan_bulkdelete(&meta, &[2], &[], &None, disk.nblk()).unwrap();
    assert_eq!(plan.meta.tombstone, Span { first: 6, count: 1 });
    disk.apply(&plan.actions);
    assert_eq!(disk.rows(), (codes, scales, ids));
    let bits = disk.fetch(read_tombstones(&plan.meta, disk.nblk()).unwrap());
    assert_eq!(bits, vec![0b100]);
}

#[test]
fn the_prepared_parts_bring_the_codebook_of_the_quantiser() {
    let (codes, scales, ids) = tables(10, 4);
    let (shift, scale) = pair(8);
    let parts = PreparedParts { tqplus_shift: &shift, tqplus_scale: &scale };
    let plan = write_full_with_prepared(4, 8, 10, &codes, &scales, &ids, 1, parts, FRESH).unwrap();
    let (boundaries, centroids) = turbovec::expected_codebook(4, 8);
    assert_eq!(plan.meta.codebook.n_levels, 16);
    for i in 0..16 {
        assert_eq!(plan.meta.codebook.centroids[i], centroids[i].to_bits());
    }
    for i in 0..15 {
        assert_eq!(plan.meta.codebook.boundaries[i], boundaries[i].to_bits());
    }
    assert_ne!(plan.meta.codebook.centroids[0], plan.meta.codebook.centroids[1]);
    assert!(plan.meta.has_prepared_layout());
    let disk = written(plan);
    let meta = disk.meta().unwrap();
    let bytes = disk.fetch(read_tqplus(&meta, disk.nblk()).unwrap());
    assert_eq!(tqplus_from_bytes(&bytes, 8), (shift, scale));
}

#[test]
fn a_smaller_bit_width_has_fewer_levels() {
    let (codes, scales, ids) = tables(3, 4);
    let parts = PreparedParts { tqplus_shift: &[], tqplus_scale: &[] };
    let plan = write_full_with_prepared(2, 16, 3, &codes, &scales, &ids, 1, parts, FRESH).unwrap();
    assert_eq!(plan.meta.codebook.n_levels, 4);
    assert_eq!(plan.meta.codebook.centroids[4], 0);
    assert_eq!(plan.meta.rotation, Span { first: 0, count: 0 });
    assert!(read_tqplus(&plan.meta, 100).unwrap().is_empty());
    assert!(read_blocked(&plan.meta, 100).unwrap().is_empty());
}

#[test]
fn identity_calibration_is_not_stored() {
    let one = [1u32, 2];
    assert!(PreparedParts { tqplus_shift: &one, tqplus_scale: &[] }
        .tqplus_chain_bytes()
        .is_empty());
    assert_eq!(PreparedParts { tqplus_shift: &[], tqplus_scale: &one }.tqplus_chain_len(), 0);
    let both = PreparedParts { tqplus_shift: &one, tqplus_scale: &one };
    assert_eq!(both.tqplus_chain_len(), 16);
    assert_eq!(both.tqplus_chain_bytes(), encode_u32s(&[1, 2, 1, 2]));
}

#[test]
fn tables_that_do_not_fit_are_refused() {
    let codes = vec![0u8; 8];
    assert_eq!(
        write_full(4, 8, 2, &codes, &[1, 2], &[5], 1, FRESH),
        Err(WriteError::IdCount { ids: 1, n_vectors: 2 })
    );
    assert_eq!(
        write_full(4, 8, 2, &codes, &[1], &[5, 6], 1, FRESH),
        Err(WriteError::ScaleCount { scales: 1, n_vectors: 2 })
    );
    assert_eq!(
        write_full(4, 8, 2, &codes, &[1, 2], &[5, 0], 1, FRESH),
        Err(WriteError::ZeroId { slot: 1 })
    );
    assert_eq!(
        write_full(4, 8, 2, &codes, &[1, 2], &[5, 5], 1, FRESH),
        Err(WriteError::DuplicateId { id: 5, slot: 1 })
    );
}

#[test]
fn too_many_rows_have_no_block_numbers() {
    assert!(MetaPageData::plan(4, 8, 1 << 45, 1).is_none());
    assert!(MetaPageData::plan(4, 8, 1 << 20, 1).is_some());
}

#[test]
fn an_empty_index_is_a_meta_page() {
    let plan = write_full(4, 8, 0, &[], &[], &[], 5, FRESH).unwrap();
    assert_eq!(plan.meta.total_blocks(), 1);
    let disk = written(plan);
    assert_eq!(disk.nblk(), 1);
    assert_eq!(disk.rows(), (vec![], vec![], vec![]));
}

#[test]
fn a_clustered_index_reads_its_cells_back() {
    let (codes, scales, ids) = tables(5, 4);
    let coarse: Vec<u32> = (0..16).collect();
    let mut dir: Vec<u8> = Vec::new();
    dir.extend(encode_u64s(&[0]));
    dir.extend(encode_u32s(&[3]));
    dir.extend(encode_u64s(&[3]));
    dir.extend(encode_u32s(&[2]));
    let parts = PreparedParts { tqplus_shift: &[], tqplus_scale: &[] };
    let ivf = IvfParts { lists: 2, coarse_centroids: &coarse, cell_dir_bytes: &dir, colbert: false };
    let plan =
        write_full_with_prepared_ivf(4, 8, 5, &codes, &scales, &ids, 1, parts, ivf, FRESH).unwrap();
    let disk = written(plan);
    let meta = disk.meta().unwrap();
    assert!(meta.has_ivf() && meta.index_was_ivf() && !meta.is_degraded());
    let c = disk.fetch(read_coarse_centroids(&meta, disk.nblk()).unwrap());
    assert_eq!(decode_u32s(&c), coarse);
    let d = disk.fetch(read_cell_directory(&meta, disk.nblk()).unwrap().unwrap());
    assert_eq!(d, dir);
    let cells = pg_turbovec::cells::CellDirectory::decode(&d, 2);
    assert_eq!(cells.total_vectors(), 5);
    assert_eq!(cells.entries[1].code_offset, 3);
    assert_eq!(cells.entries[1].n_vectors, 2);
}

#[test]
fn a_token_index_is_marked_as_one() {
    let (codes, scales, _) = tables(2, 4);
    let parts = PreparedParts { tqplus_shift: &[], tqplus_scale: &[] };
    let ivf = IvfParts { lists: 0, coarse_centroids: &[], cell_dir_bytes: &[], colbert: true };
    // Several rows of one token index may belong to the same document.
    let plan =
        write_full_with_prepared_ivf(4, 8, 2, &codes, &scales, &[9, 9], 1, parts, ivf, FRESH).unwrap();
    assert!(plan.meta.is_colbert());
    assert_eq!(plan.meta.version, 5);
}

#[test]
fn a_graph_index_reads_its_adjacency_back() {
    let (codes, scales, ids) = tables(3, 4);
    let offsets = encode_u32s(&[0, 2, 3, 3]);
    let neighbors = encode_u32s(&[1, 2, 0]);
    let parts = PreparedParts { tqplus_shift: &[], tqplus_scale: &[] };
    let graph =
        GraphParts { offsets_bytes: &offsets, neighbors_bytes: &neighbors, entry_point: 1 };
    let plan =
        write_full_with_prepared_graph(4, 8, 3, &codes, &scales, &ids, 1, parts, graph, FRESH).unwrap();
    let disk = written(plan);
    let meta = disk.meta().unwrap();
    assert!(meta.is_graph() && meta.has_graph());
    assert_eq!(meta.graph_entry_point, 1);
    let chain = disk.fetch(read_graph_adjacency(&meta, disk.nblk()).unwrap().unwrap());
    let g = GraphAdjacency::decode(&chain, meta.graph_offsets_bytes, 3).unwrap();
    assert_eq!(g.offsets, vec![0, 2, 3, 3]);
    assert_eq!(g.neighbors, vec![1, 2, 0]);
}

#[test]
fn bytes_that_are_no_adjacency_are_refused() {
    let b = encode_u32s(&[0, 2, 1, 7, 7]);
    assert_eq!(GraphAdjacency::decode(&b, 24, 2), Err(GraphError::OffsetsPastChain));
    assert_eq!(GraphAdjacency::decode(&b, 12, 3), Err(GraphError::OffsetCount));
    assert_eq!(GraphAdjacency::decode(&b, 12, 2), Err(GraphError::OffsetOrder));
}

#[test]
fn a_dead_entry_point_moves_to_a_live_row() {
    let g = GraphAdjacency { offsets: vec![0, 1, 2, 3], neighbors: vec![1, 2, 1] };
    assert_eq!(entry_point_after(0, 3, &Some(g), &[0b000]), 0);
    let g = GraphAdjacency { offsets: vec![0, 1, 2, 3], neighbors: vec![1, 2, 1] };
    assert_eq!(entry_point_after(0, 3, &Some(g), &[0b001]), 1);
}

#[test]
fn a_two_phase_write_stores_what_one_write_does() {
    let (codes, scales, ids) = tables(2000, 8);
    let (shift, scale) = pair(16);
    let parts = PreparedParts { tqplus_shift: &shift, tqplus_scale: &scale };
    let whole = written(
        write_full_with_prepared(4, 16, 2000, &codes, &scales, &ids, 3, parts, FRESH).unwrap(),
    );
    let mut disk = Disk::new();
    let (layout, first) = write_packed_phase(4, 16, 2000, &codes, &scales, &ids, 3, FRESH).unwrap();
    disk.apply(&first);
    assert_eq!(disk.meta(), Err(MetaError::BadMagic));
    let second = write_blocked_phase_and_meta(layout, Some(parts), disk.nblk()).unwrap();
    disk.apply(&second.actions);
    assert_eq!(disk.pages, whole.pages);
}

#[test]
fn the_first_phase_checks_the_tables() {
    assert_eq!(
        write_packed_phase(4, 8, 1, &[0; 4], &[1], &[], 1, FRESH),
        Err(WriteError::IdCount { ids: 0, n_vectors: 1 })
    );
}

#[test]
fn a_page_that_is_no_meta_page_is_refused() {
    assert_eq!(MetaPageData::decode(&[0u8; 10]), Err(MetaError::TooShort));
    assert_eq!(MetaPageData::decode(&[0u8; 8168]), Err(MetaError::BadMagic));
    let mut b = MetaPageData::plan(4, 8, 1, 1).unwrap().encode();
    b[4] = 200;
    assert_eq!(MetaPageData::decode(&b), Err(MetaError::UnknownVersion(200)));
}

#[test]
fn a_chain_past_the_end_is_refused() {
    assert_eq!(
        read_chain(3, 8, 1021, 2000, 4),
        Err(ChainError::PastEnd { first: 3, pages: 2, blocks: 4 })
    );
    assert_eq!(read_chain(3, 8, 0, 2000, 9), Err(ChainError::NoRowsPerPage));
    assert_eq!(read_chain(3, 8, 2000, 2000, 9), Err(ChainError::RowsOverflowPage));
    assert_eq!(
        read_chain(3, 8, 1021, 2000, 5),
        Ok(vec![
            PageRead { blkno: 3, from: 0, len: 8168 },
            PageRead { blkno: 4, from: 0, len: 979 * 8 },
        ])
    );
}

#[test]
fn ranges_of_codes_are_fetched_row_by_row() {
    let (codes, scales, ids) = tables(600, 32);
    let plan = write_full(4, 64, 600, &codes, &scales, &ids, 1, FRESH).unwrap();
    let m = plan.meta;
    let disk = written(plan);
    let reads = gather_codes_ranges(
        m.codes.first,
        m.stride_bytes,
        m.rows_per_codes_page,
        &[(250, 10), (0, 1), (599, 1)],
    );
    let mut want = codes[250 * 32..260 * 32].to_vec();
    want.extend_from_slice(&codes[..32]);
    want.extend_from_slice(&codes[599 * 32..]);
    assert_eq!(disk.fetch(reads), want);
}

#[test]
fn single_tables_read_back() {
    let (codes, scales, ids) = tables(4000, 4);
    let plan = write_full(4, 8, 4000, &codes, &scales, &ids, 1, FRESH).unwrap();
    let m = plan.meta;
    let disk = written(plan);
    let s = disk.fetch(read_scales_only(&m, disk.nblk()).unwrap());
    assert_eq!(decode_u32s(&s), scales);
    let i = disk.fetch(read_ids_only(&m, Some(m), disk.nblk()).unwrap());
    assert_eq!(decode_u64s(&i), ids);
}

#[test]
fn a_read_answers_for_the_meta_page_that_is_there_now() {
    let (codes, scales, ids) = tables(50, 4);
    let mut disk = written(write_full(4, 8, 50, &codes, &scales, &ids, 1, FRESH).unwrap());
    let hint = disk.meta().unwrap();
    let plan = write_full(4, 8, 20, &codes[..80], &scales[..20], &ids[..20], 2, disk.standing());
    disk.apply(&plan.unwrap().actions);
    let now = disk.meta().unwrap();
    match read_full_consistent(&hint, Some(now), disk.nblk()).unwrap() {
        FullRead::Rows { meta, .. } => assert_eq!(meta, now),
        FullRead::Empty { .. } => panic!("rows are there"),
    }
}

#[test]
fn zero_and_repeated_ids_are_found() {
    assert_eq!(first_duplicate_id(&[1, 2, 3]), None);
    assert_eq!(first_duplicate_id(&[1, 2, 1, 0]), Some(1));
    assert_eq!(first_duplicate_id(&[1, 0, 1]), Some(0));
    assert_eq!(first_duplicate_id(&[]), None);
}

#[test]
fn removal_from_a_flat_index_closes_the_holes() {
    let (codes, scales, ids) = tables(1500, 4);
    let mut disk = written(write_full(4, 8, 1500, &codes, &scales, &ids, 1, FRESH).unwrap());
    let meta = disk.meta().unwrap();
    let mut dead = vec![false; 1500];
    for s in [3usize, 700, 1498, 1499] {
        dead[s] = true;
    }
    let slots = collect_dead(&dead);
    assert_eq!(slots, vec![3, 700, 1498, 1499]);
    let plan = plan_bulkdelete(&meta, &slots, &[], &None, disk.nblk()).unwrap();
    assert_eq!(plan.num_index_tuples, 1496);
    assert_eq!(plan.tuples_removed, 4);
    disk.apply(&plan.actions);
    assert_eq!(disk.meta(), Ok(plan.meta));
    assert_eq!(plan.meta.am_version, 2);
    let (c, s, i) = disk.rows();
    let mut live: Vec<u64> = (0..1500).filter(|k| !dead[*k]).map(|k| ids[k]).collect();
    let mut got = i.clone();
    live.sort_unstable();
    got.sort_unstable();
    assert_eq!(got, live);
    for (slot, id) in i.iter().enumerate() {
        let k = ids.iter().position(|x| x == id).unwrap();
        assert_eq!(s[slot], scales[k]);
        assert_eq!(c[slot * 4..slot * 4 + 4], codes[k * 4..k * 4 + 4]);
    }
}

#[test]
fn removal_of_every_row_leaves_an_empty_index() {
    let (codes, scales, ids) = tables(3, 4);
    let mut disk = written(write_full(4, 8, 3, &codes, &scales, &ids, 1, FRESH).unwrap());
    let meta = disk.meta().unwrap();
    let plan = plan_bulkdelete(&meta, &[0, 1, 2], &[], &None, disk.nblk()).unwrap();
    disk.apply(&plan.actions);
    assert_eq!(disk.meta().unwrap().n_vectors, 0);
    assert_eq!(disk.rows().2, Vec::<u64>::new());
}

#[test]
fn removal_keeps_the_calibration_readable() {
    let (codes, scales, ids) = tables(30, 4);
    let (shift, scale) = pair(8);
    let parts = PreparedParts { tqplus_shift: &shift, tqplus_scale: &scale };
    let mut disk =
        written(write_full_with_prepared(4, 8, 30, &codes, &scales, &ids, 1, parts, FRESH).unwrap());
    let meta = disk.meta().unwrap();
    let plan = plan_bulkdelete(&meta, &[5], &[], &None, disk.nblk()).unwrap();
    disk.apply(&plan.actions);
    let after = disk.meta().unwrap();
    let bytes = disk.fetch(read_tqplus(&after, disk.nblk()).unwrap());
    assert_eq!(tqplus_from_bytes(&bytes, 8), (shift, scale));
}

#[test]
fn removal_from_a_clustered_index_only_marks_rows() {
    let (codes, scales, ids) = tables(5, 4);
    let coarse: Vec<u32> = (0..16).collect();
    let dir = vec![0u8; 24];
    let parts = PreparedParts { tqplus_shift: &[], tqplus_scale: &[] };
    let ivf = IvfParts { lists: 2, coarse_centroids: &coarse, cell_dir_bytes: &dir, colbert: false };
    let mut disk = written(
        write_full_with_prepared_ivf(4, 8, 5, &codes, &scales, &ids, 1, parts, ivf, FRESH).unwrap(),
    );
    let before = disk.rows();
    let meta = disk.meta().unwrap();
    let plan = plan_bulkdelete(&meta, &[1, 4], &[], &None, disk.nblk()).unwrap();
    assert_eq!(plan.num_index_tuples, 3);
    disk.apply(&plan.actions);
    assert_eq!(disk.rows(), before);
    let m = disk.meta().unwrap();
    let bits = disk.fetch(read_tombstones(&m, disk.nblk()).unwrap());
    assert_eq!(bits, vec![0b10010]);
    let plan = plan_bulkdelete(&m, &[0], &bits, &None, disk.nblk()).unwrap();
    assert_eq!(plan.num_index_tuples, 2);
    disk.apply(&plan.actions);
    let m = disk.meta().unwrap();
    assert_eq!(disk.fetch(read_tombstones(&m, disk.nblk()).unwrap()), vec![0b10011]);
}

#[test]
fn removal_of_nothing_changes_nothing() {
    let meta = MetaPageData::plan(4, 8, 10, 4).unwrap();
    let plan = plan_bulkdelete(&meta, &[], &[], &None, 9).unwrap();
    assert!(plan.actions.is_empty());
    assert_eq!(plan.meta, meta);
    assert_eq!(plan.num_index_tuples, 10);
}

#[test]
fn a_removal_pass_begins_by_what_is_there() {
    let meta = MetaPageData::plan(4, 8, 10, 4).unwrap();
    let empty = MetaPageData::plan(4, 8, 0, 4).unwrap();
    assert_eq!(bulkdelete_start(None, true), BulkDeleteStart::Untouched);
    assert_eq!(bulkdelete_start(Some(empty), true), BulkDeleteStart::Untouched);
    assert_eq!(bulkdelete_start(Some(meta), false), BulkDeleteStart::Count(10));
    assert_eq!(bulkdelete_start(Some(meta), true), BulkDeleteStart::Walk(meta));
}

#[test]
fn tombstones_go_behind_the_other_chains() {
    let meta = MetaPageData::plan(4, 8, 10, 4).unwrap();
    let plan = write_tombstones_and_meta(&meta, &[1, 2], 5, 4).unwrap();
    assert_eq!(plan.meta.tombstone, Span { first: 4, count: 1 });
    assert_eq!(plan.meta.tombstone_bytes, 2);
    assert_eq!(plan.meta.am_version, 5);
    assert_eq!(plan.actions[0], Action::ExtendTo(5));
}

#[test]
fn merged_tombstones_keep_the_old_ones() {
    let b = merge_tombstones(&[0b1000_0001], 20, &[3, 17]);
    assert_eq!(b, vec![0b1000_1001, 0, 0b10]);
    assert_eq!(count_dead(&b), 4);
    assert!(is_dead(&b, 17) && is_dead(&b, 0) && !is_dead(&b, 1) && !is_dead(&b, 99));
}

#[test]
fn numbers_read_back_from_bytes() {
    assert_eq!(encode_u32s(&[0x0403_0201]), vec![1, 2, 3, 4]);
    assert_eq!(decode_u32s(&encode_u32s(&[7, u32::MAX, 0])), vec![7, u32::MAX, 0]);
    assert_eq!(decode_u64s(&encode_u64s(&[1 << 40, u64::MAX])), vec![1 << 40, u64::MAX]);
}

#[test]
fn a_chain_goes_behind_what_is_there() {
    let mut actions = Vec::new();
    let bytes: Vec<u8> = (0..40u8).collect();
    assert_eq!(write_chain(&mut actions, 2, &bytes, 4, 3, 10), 2);
    let mut disk = Disk::new();
    disk.apply(&[Action::ExtendTo(2)]);
    disk.apply(&actions);
    assert_eq!(disk.nblk(), 6);
    let back = disk.fetch(read_chain(2, 4, 3, 10, 6).unwrap());
    assert_eq!(back, bytes);
    let mut none = Vec::new();
    assert_eq!(write_chain(&mut none, 2, &[], 4, 3, 0), NO_BLOCK);
    assert!(none.is_empty());
}

#[test]
fn shapes_that_fit_a_page_can_be_stored() {
    assert!(is_storable(4, 8) && is_storable(4, 16_000) && is_storable(2, 16_384));
    assert!(!is_storable(4, 16_384));
    assert!(!is_storable(1, 8) && !is_storable(5, 8) && !is_storable(4, 12) && !is_storable(4, 0));
}

#[test]
fn rows_can_be_moved_where_they_have_a_place() {
    let m = MetaPageData::plan(4, 8, 100, 1).unwrap();
    assert!(can_move_rows(&m));
    assert!(!can_move_rows(&MetaPageData { rows_per_ids_page: 0, ..m }));
    assert!(!can_move_rows(&MetaPageData { rows_per_ids_page: 1022, ..m }));
    assert!(!can_move_rows(&MetaPageData { n_vectors: u64::MAX, ..m }));
}
