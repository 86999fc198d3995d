//! Cells of a clustered index and the slot masks that restrict a search.
use std::collections::HashSet;
use vstd::prelude::*;

use crate::bitmap::{is_dead, is_tombstoned};
use crate::bytes::{bytes_to_u32s, decode_u32s};

verus! {

broadcast use vstd::std_specs::hash::group_hash_axioms;

/// One cell: the rows `code_offset .. code_offset + n_vectors`.
#[derive(Clone, Copy, Debug, PartialEq, Eq, Structural)]
pub struct CellEntry {
    pub code_offset: u64,
    pub n_vectors: u32,
}

/// The cells of an index.
#[derive(Debug, PartialEq, Eq)]
pub struct CellDirectory {
    pub entries: Vec<CellEntry>,
}

impl CellEntry {
    /// Whether a slot belongs to the cell.
    pub open spec fn has(self, slot: int) -> bool {
        self.code_offset <= slot < self.code_offset + self.n_vectors
    }
}

/// Entry `i` of a stored cell directory: offset in eight bytes, number of rows in four.
pub open spec fn stored_entry(bytes: Seq<u8>, i: int) -> CellEntry {
    let w = bytes_to_u32s(bytes);
    CellEntry {
        code_offset: (w[3 * i] + 0x1_0000_0000 * w[3 * i + 1]) as u64,
        n_vectors: w[3 * i + 2],
    }
}

/// The rows of the first `k` cells together.
pub open spec fn rows_of_cells(entries: Seq<CellEntry>, k: nat) -> nat
    decreases k,
{
    if k == 0 {
        0
    } else {
        rows_of_cells(entries, (k - 1) as nat) + entries[k - 1].n_vectors as nat
    }
}

/// Whether a slot belongs to one of the probed cells; cells that are not there have no slots.
pub open spec fn in_probed(entries: Seq<CellEntry>, probed: Seq<u32>, slot: int) -> bool {
    exists|k: int|
        0 <= k < probed.len() && (#[trigger] probed[k]) < entries.len() && entries[probed[k] as int].has(
            slot,
        )
}

impl CellDirectory {
    /// Reads a directory of `lists` cells.
    pub fn decode(bytes: &[u8], lists: usize) -> (r: CellDirectory)
        requires
            bytes@.len() == 12 * lists,
        ensures
            r.entries@ == Seq::new(lists as nat, |i: int| stored_entry(bytes@, i)),
    {
        let w: Vec<u32> = decode_u32s(bytes);
        let mut entries: Vec<CellEntry> = Vec::new();
        let mut i: usize = 0;
        assert(bytes.len() <= usize::MAX);
        while i < lists
            invariant
                i <= lists,
                bytes@.len() == 12 * lists <= usize::MAX,
                w@ == bytes_to_u32s(bytes@),
                entries@ == Seq::new(i as nat, |j: int| stored_entry(bytes@, j)),
            decreases lists - i,
        {
            entries.push(
                CellEntry {
                    code_offset: w[3 * i] as u64 + 0x1_0000_0000 * (w[3 * i + 1] as u64),
                    n_vectors: w[3 * i + 2],
                },
            );
            assert(entries@ =~= Seq::new((i + 1) as nat, |j: int| stored_entry(bytes@, j)));
            i += 1;
        }
        CellDirectory { entries }
    }

    /// The rows of all cells together.
    pub fn total_vectors(&self) -> (r: u64)
        requires
            rows_of_cells(self.entries@, self.entries@.len()) <= u64::MAX,
        ensures
            r == rows_of_cells(self.entries@, self.entries@.len()),
    {
        let mut total: u64 = 0;
        let mut i: usize = 0;
        while i < self.entries.len()
            invariant
                i <= self.entries@.len(),
                rows_of_cells(self.entries@, self.entries@.len()) <= u64::MAX,
                total == rows_of_cells(self.entries@, i as nat),
            decreases self.entries@.len() - i,
        {
            proof {
                lemma_rows_of_cells_grow(self.entries@, (i + 1) as nat, self.entries@.len());
            }
            total += self.entries[i].n_vectors as u64;
            i += 1;
        }
        total
    }

    /// The mask of the slots before `n` that belong to one of the probed cells.
    pub fn probe_mask(&self, probed: &[u32], n: usize) -> (r: Vec<bool>)
        ensures
            r@.len() == n,
            forall|slot: int|
                0 <= slot < n ==> #[trigger] r@[slot] == in_probed(self.entries@, probed@, slot),
    {
        let mut mask: Vec<bool> = Vec::new();
        let mut slot: usize = 0;
        while slot < n
            invariant
                slot <= n,
                mask@.len() == slot,
                forall|s: int| 0 <= s < slot ==> !#[trigger] mask@[s],
            decreases n - slot,
        {
            mask.push(false);
            slot += 1;
        }
        let mut k: usize = 0;
        while k < probed.len()
            invariant
                k <= probed@.len(),
                mask@.len() == n,
                forall|s: int|
                    0 <= s < n ==> #[trigger] mask@[s] == in_probed(
                        self.entries@,
                        probed@.take(k as int),
                        s,
                    ),
            decreases probed@.len() - k,
        {
            let cell: usize = probed[k] as usize;
            let ghost before = mask@;
            if cell < self.entries.len() {
                let e: CellEntry = self.entries[cell];
                admit_cell(&mut mask, e);
            }
            proof {
                let head = probed@.take(k as int);
                let now = probed@.take(k + 1);
                assert forall|s: int| 0 <= s < n implies #[trigger] mask@[s] == in_probed(
                    self.entries@,
                    now,
                    s,
                ) by {
                    assert(before[s] == in_probed(self.entries@, head, s));
                    if in_probed(self.entries@, head, s) {
                        let i = choose|i: int|
                            0 <= i < head.len() && (#[trigger] head[i]) < self.entries@.len()
                                && self.entries@[head[i] as int].has(s);
                        assert(now[i] == head[i]);
                    }
                    if in_probed(self.entries@, now, s) && !before[s] {
                        let i = choose|i: int|
                            0 <= i < now.len() && (#[trigger] now[i]) < self.entries@.len()
                                && self.entries@[now[i] as int].has(s);
                        if i < k {
                            assert(head[i] == now[i]);
                        }
                    }
                    assert(now[k as int] == cell);
                }
            }
            k += 1;
        }
        assert(probed@.take(k as int) =~= probed@);
        mask
    }
}

fn admit_cell(mask: &mut Vec<bool>, e: CellEntry)
    ensures
        final(mask)@.len() == old(mask)@.len(),
        forall|s: int|
            0 <= s < old(mask)@.len() ==> #[trigger] final(mask)@[s] == (old(mask)@[s] || e.has(s)),
{
    let n: usize = mask.len();
    if e.code_offset >= n as u64 {
        return;
    }
    let from: usize = e.code_offset as usize;
    let room: usize = n - from;
    let count: usize = if (e.n_vectors as usize) < room {
        e.n_vectors as usize
    } else {
        room
    };
    let mut i: usize = 0;
    while i < count
        invariant
            i <= count <= room,
            from == e.code_offset,
            room == n - from,
            from < n,
            n == old(mask)@.len(),
            mask@.len() == n,
            count == e.n_vectors || count == room,
            count <= e.n_vectors,
            forall|s: int|
                0 <= s < n ==> #[trigger] mask@[s] == (old(mask)@[s] || from <= s < from + i),
        decreases count - i,
    {
        mask.set(from + i, true);
        i += 1;
    }
}

proof fn lemma_rows_of_cells_grow(entries: Seq<CellEntry>, a: nat, b: nat)
    requires
        a <= b,
    ensures
        rows_of_cells(entries, a) <= rows_of_cells(entries, b),
    decreases b,
{
    if a < b {
        lemma_rows_of_cells_grow(entries, a, (b - 1) as nat);
    }
}

/// Takes the slots that the bitmap marks out of the mask.
pub fn apply_tombstones(mask: &mut Vec<bool>, tombstones: &[u8])
    ensures
        final(mask)@.len() == old(mask)@.len(),
        forall|s: int|
            0 <= s < old(mask)@.len() ==> #[trigger] final(mask)@[s] == (old(mask)@[s]
                && !is_tombstoned(tombstones@, s)),
{
    if tombstones.len() == 0 {
        return;
    }
    let mut slot: usize = 0;
    while slot < mask.len()
        invariant
            slot <= mask@.len(),
            mask@.len() == old(mask)@.len(),
            forall|s: int|
                0 <= s < mask@.len() ==> #[trigger] mask@[s] == (old(mask)@[s] && (s >= slot
                    || !is_tombstoned(tombstones@, s))),
        decreases mask@.len() - slot,
    {
        if mask[slot] && is_dead(tombstones, slot) {
            mask.set(slot, false);
        }
        slot += 1;
    }
}

/// Takes the slots whose id is not allowed out of the mask. `slot_to_id` gives the id of each slot;
/// slots behind it stay as they are. Without an allowlist nothing changes.
pub fn apply_allowlist(mask: &mut Vec<bool>, slot_to_id: &[u64], allow: Option<&HashSet<u64>>)
    ensures
        final(mask)@.len() == old(mask)@.len(),
        forall|s: int|
            0 <= s < old(mask)@.len() ==> #[trigger] final(mask)@[s] == (old(mask)@[s] && (
            allow matches Some(set) ==> s < slot_to_id@.len() ==> set@.contains(slot_to_id@[s]))),
{
    let set: &HashSet<u64> = match allow {
        Some(set) => set,
        None => {
            return;
        },
    };
    let mut slot: usize = 0;
    while slot < mask.len() && slot < slot_to_id.len()
        invariant
            slot <= mask@.len(),
            mask@.len() == old(mask)@.len(),
            forall|s: int|
                0 <= s < mask@.len() ==> #[trigger] mask@[s] == (old(mask)@[s] && (s < slot && s
                    < slot_to_id@.len() ==> set@.contains(slot_to_id@[s]))),
        decreases mask@.len() - slot,
    {
        if mask[slot] && !set.contains(&slot_to_id[slot]) {
            mask.set(slot, false);
        }
        slot += 1;
    }
}

/// Whether a slot is searched: it belongs to a probed cell, is not deleted, and its id is allowed
/// where there is an allowlist and the slot has an id.
pub open spec fn admitted(
    entries: Seq<CellEntry>,
    probed: Seq<u32>,
    tombstones: Seq<u8>,
    slot_to_id: Seq<u64>,
    allow: Option<Set<u64>>,
    slot: int,
) -> bool {
    &&& in_probed(entries, probed, slot)
    &&& !is_tombstoned(tombstones, slot)
    &&& allow matches Some(set) ==> slot < slot_to_id.len() ==> set.contains(slot_to_id[slot])
}

/// The contents of an allowlist.
pub open spec fn allowed_ids(allow: Option<&HashSet<u64>>) -> Option<Set<u64>> {
    match allow {
        Some(set) => Some(set@),
        None => None,
    }
}

/// The mask of a restricted search: the slots of the probed cells that are neither deleted nor left
/// out by the allowlist.
pub fn search_mask(
    directory: &CellDirectory,
    probed: &[u32],
    tombstones: &[u8],
    slot_to_id: &[u64],
    allow: Option<&HashSet<u64>>,
    n: usize,
) -> (r: Vec<bool>)
    ensures
        r@.len() == n,
        forall|s: int|
            0 <= s < n ==> #[trigger] r@[s] == admitted(
                directory.entries@,
                probed@,
                tombstones@,
                slot_to_id@,
                allowed_ids(allow),
                s,
            ),
{
    let mut mask: Vec<bool> = directory.probe_mask(probed, n);
    apply_tombstones(&mut mask, tombstones);
    apply_allowlist(&mut mask, slot_to_id, allow);
    mask
}

/// Probing further cells keeps every slot that was searched before.
pub proof fn widening_keeps_searched_slots(
    entries: Seq<CellEntry>,
    probed: Seq<u32>,
    wider: Seq<u32>,
    tombstones: Seq<u8>,
    slot_to_id: Seq<u64>,
    allow: Option<Set<u64>>,
    slot: int,
)
    requires
        forall|c: u32| probed.contains(c) ==> wider.contains(c),
        admitted(entries, probed, tombstones, slot_to_id, allow, slot),
    ensures
        admitted(entries, wider, tombstones, slot_to_id, allow, slot),
{
    let k = choose|k: int|
        0 <= k < probed.len() && (#[trigger] probed[k]) < entries.len()
            && entries[probed[k] as int].has(slot);
    assert(probed.contains(probed[k]));
    let j = choose|j: int| 0 <= j < wider.len() && wider[j] == probed[k];
    assert(entries[wider[j] as int].has(slot));
}

/// Once a slot is deleted it is searched no more, whichever cells are probed, and deleting further
/// rows does not bring it back.
pub proof fn deleted_slots_are_never_searched(
    entries: Seq<CellEntry>,
    probed: Seq<u32>,
    before: Seq<u8>,
    after: Seq<u8>,
    slot_to_id: Seq<u64>,
    allow: Option<Set<u64>>,
    slot: int,
)
    requires
        is_tombstoned(before, slot),
        forall|s: int| #[trigger] is_tombstoned(before, s) ==> is_tombstoned(after, s),
    ensures
        !admitted(entries, probed, before, slot_to_id, allow, slot),
        !admitted(entries, probed, after, slot_to_id, allow, slot),
{
}

/// Whether the cells lie one behind the other from the first slot on.
pub open spec fn contiguous(entries: Seq<CellEntry>) -> bool {
    forall|k: int|
        0 <= k < entries.len() ==> (#[trigger] entries[k]).code_offset == rows_of_cells(
            entries,
            k as nat,
        )
}

/// Once every cell is probed, every row is searched.
pub proof fn all_cells_hold_all_rows(entries: Seq<CellEntry>, probed: Seq<u32>, slot: int)
    requires
        contiguous(entries),
        entries.len() <= u32::MAX,
        forall|k: int| 0 <= k < entries.len() ==> probed.contains(#[trigger] (k as u32)),
        0 <= slot < rows_of_cells(entries, entries.len()),
    ensures
        in_probed(entries, probed, slot),
{
    let k = lemma_cell_of(entries, entries.len(), slot);
    assert(entries[k].has(slot));
    assert(probed.contains(k as u32));
    let p = choose|p: int| 0 <= p < probed.len() && probed[p] == k as u32;
    assert(probed[p] < entries.len());
}

proof fn lemma_cell_of(entries: Seq<CellEntry>, n: nat, slot: int) -> (k: int)
    requires
        contiguous(entries),
        n <= entries.len(),
        0 <= slot < rows_of_cells(entries, n),
    ensures
        0 <= k < n,
        entries[k].has(slot),
    decreases n,
{
    if slot < rows_of_cells(entries, (n - 1) as nat) {
        lemma_cell_of(entries, (n - 1) as nat, slot)
    } else {
        assert(entries[n - 1].code_offset == rows_of_cells(entries, (n - 1) as nat));
        n - 1
    }
}

} // verus!
