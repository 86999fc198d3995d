//! The adjacency of a graph index, and the slot at which a search of it starts.
use vstd::prelude::*;

use crate::bitmap::{is_dead, is_tombstoned};
use crate::bytes::{bytes_to_u32s, decode_u32s, u32s_round_trip, u32s_to_bytes};

verus! {

/// Out-edges of `n` slots: those of slot `s` are `neighbors[offsets[s] .. offsets[s + 1]]`.
#[derive(Debug, PartialEq, Eq)]
pub struct GraphAdjacency {
    pub offsets: Vec<u32>,
    pub neighbors: Vec<u32>,
}

/// Why stored bytes are no adjacency.
#[derive(Clone, Copy, Debug, PartialEq, Eq, Structural)]
pub enum GraphError {
    /// The offsets are said to be longer than the whole chain.
    OffsetsPastChain,
    /// There is not one offset per slot and one more.
    OffsetCount,
    /// The offsets do not cut the neighbours into consecutive pieces.
    OffsetOrder,
}

impl GraphAdjacency {
    /// Whether the offsets cut the neighbours into one piece per slot.
    pub open spec fn well_formed(self) -> bool {
        proper_offsets(self.offsets@, self.neighbors@.len())
    }

    /// Number of slots.
    pub open spec fn slots(self) -> int {
        self.offsets@.len() - 1
    }

    /// The out-edges of a slot.
    pub open spec fn out_edges(self, slot: int) -> Seq<u32> {
        self.neighbors@.subrange(self.offsets@[slot] as int, self.offsets@[slot + 1] as int)
    }

    /// Number of slots.
    pub fn n(&self) -> (r: usize)
        requires
            self.well_formed(),
        ensures
            r == self.slots(),
    {
        self.offsets.len() - 1
    }

    /// Reads an adjacency of `n` slots from the bytes of its chain, of which the first
    /// `offsets_bytes` are the offsets.
    pub fn decode(chain: &[u8], offsets_bytes: u64, n: u64) -> (r: Result<GraphAdjacency, GraphError>)
        ensures
            match graph_fault(chain@, offsets_bytes, n) {
                Some(e) => r == Err::<GraphAdjacency, GraphError>(e),
                None => r matches Ok(g) && g.well_formed() && g.slots() == n && g.offsets@
                    == stored_offsets(chain@, offsets_bytes) && g.neighbors@ == stored_neighbors(
                    chain@,
                    offsets_bytes,
                ),
            },
    {
        if offsets_bytes > chain.len() as u64 {
            return Err(GraphError::OffsetsPastChain);
        }
        let split: usize = offsets_bytes as usize;
        let offsets: Vec<u32> = decode_u32s(vstd::slice::slice_subrange(chain, 0, split));
        let neighbors: Vec<u32> = decode_u32s(
            vstd::slice::slice_subrange(chain, split, chain.len()),
        );
        assert(offsets@ == stored_offsets(chain@, offsets_bytes));
        assert(neighbors@ == stored_neighbors(chain@, offsets_bytes));
        let count: u64 = offsets.len() as u64;
        if count == 0 || count - 1 != n {
            return Err(GraphError::OffsetCount);
        }
        let mut i: usize = 0;
        if offsets[0] != 0 || offsets[offsets.len() - 1] as u64 != neighbors.len() as u64 {
            return Err(GraphError::OffsetOrder);
        }
        let last: usize = offsets.len() - 1;
        while i < last
            invariant
                i <= last,
                last == offsets@.len() - 1,
                offsets@.len() >= 1,
                offsets@[0] == 0,
                offsets@[offsets@.len() - 1] == neighbors@.len(),
                forall|a: int, b: int| 0 <= a <= b <= i ==> offsets@[a] <= offsets@[b],
                offsets@ == stored_offsets(chain@, offsets_bytes),
                neighbors@ == stored_neighbors(chain@, offsets_bytes),
                offsets_bytes <= chain@.len(),
                offsets@.len() - 1 == n,
            decreases last - i,
        {
            if offsets[i + 1] < offsets[i] {
                assert(!proper_offsets(offsets@, neighbors@.len())) by {
                    assert(offsets@[i + 1] < offsets@[i as int]);
                }
                return Err(GraphError::OffsetOrder);
            }
            i += 1;
        }
        assert(proper_offsets(offsets@, neighbors@.len()));
        Ok(GraphAdjacency { offsets, neighbors })
    }

    /// Whether a slot has an out-edge to a slot that the bitmap does not mark.
    pub fn has_live_neighbor(&self, slot: usize, tombstones: &[u8]) -> (r: bool)
        requires
            self.well_formed(),
            slot < self.slots(),
        ensures
            r == leads_to_live(*self, slot as int, tombstones@),
    {
        assert(self.offsets.len() <= usize::MAX);
        let from: usize = self.offsets[slot] as usize;
        let to: usize = self.offsets[slot + 1] as usize;
        let mut k: usize = from;
        let ghost edges = self.out_edges(slot as int);
        assert(self.offsets@[slot as int] <= self.offsets@[slot + 1] <= self.offsets@[self.offsets@.len()
            - 1]);
        while k < to
            invariant
                self.well_formed(),
                from <= k <= to <= self.neighbors@.len(),
                edges == self.neighbors@.subrange(from as int, to as int),
                edges == self.out_edges(slot as int),
                forall|e: int| 0 <= e < k - from ==> is_tombstoned(tombstones@, edges[e] as int),
            decreases to - k,
        {
            let nb: u32 = self.neighbors[k];
            if !is_dead(tombstones, nb as usize) {
                assert(edges[k - from] == nb);
                return true;
            }
            k += 1;
        }
        false
    }
}

/// Whether the offsets rise from 0 to the number of neighbours.
pub open spec fn proper_offsets(offsets: Seq<u32>, neighbors: nat) -> bool {
    &&& offsets.len() >= 1
    &&& offsets[0] == 0
    &&& offsets[offsets.len() - 1] == neighbors
    &&& forall|a: int, b: int| 0 <= a <= b < offsets.len() ==> offsets[a] <= offsets[b]
}

/// The offsets at the front of a chain.
pub open spec fn stored_offsets(chain: Seq<u8>, offsets_bytes: u64) -> Seq<u32> {
    bytes_to_u32s(chain.subrange(0, offsets_bytes as int))
}

/// The neighbours behind them.
pub open spec fn stored_neighbors(chain: Seq<u8>, offsets_bytes: u64) -> Seq<u32> {
    bytes_to_u32s(chain.subrange(offsets_bytes as int, chain.len() as int))
}

/// Why a chain is no adjacency of `n` slots, if it is not.
pub open spec fn graph_fault(chain: Seq<u8>, offsets_bytes: u64, n: u64) -> Option<GraphError> {
    if offsets_bytes > chain.len() {
        Some(GraphError::OffsetsPastChain)
    } else if stored_offsets(chain, offsets_bytes).len() != n + 1 {
        Some(GraphError::OffsetCount)
    } else if !proper_offsets(
        stored_offsets(chain, offsets_bytes),
        stored_neighbors(chain, offsets_bytes).len(),
    ) {
        Some(GraphError::OffsetOrder)
    } else {
        None
    }
}

/// Whether a slot has an out-edge to a slot that the bitmap does not mark.
pub open spec fn leads_to_live(g: GraphAdjacency, slot: int, tombstones: Seq<u8>) -> bool {
    exists|e: int|
        0 <= e < g.out_edges(slot).len() && !is_tombstoned(
            tombstones,
            #[trigger] g.out_edges(slot)[e] as int,
        )
}

/// Whether a search can start at a slot: the slot is live and an edge leads on to a live slot.
pub open spec fn good_start(g: Option<GraphAdjacency>, slot: int, tombstones: Seq<u8>) -> bool {
    &&& !is_tombstoned(tombstones, slot)
    &&& g matches Some(adj) && slot < adj.slots() && leads_to_live(adj, slot, tombstones)
}

/// The least slot before `n` with a property.
pub open spec fn least_slot(n: nat, holds: spec_fn(int) -> bool) -> Option<int>
    decreases n,
{
    if n == 0 {
        None
    } else {
        match least_slot((n - 1) as nat, holds) {
            Some(s) => Some(s),
            None => if holds(n - 1) {
                Some(n - 1)
            } else {
                None
            },
        }
    }
}

/// The slot at which searches start after a deletion: the old one while it is a good start;
/// otherwise the first good start, failing that the first live slot, failing that 0.
pub open spec fn entry_after(entry: u32, n: nat, g: Option<GraphAdjacency>, tombstones: Seq<u8>) -> int {
    if good_start(g, entry as int, tombstones) {
        entry as int
    } else {
        match least_slot(n, |s: int| good_start(g, s, tombstones)) {
            Some(s) => s,
            None => match least_slot(n, |s: int| !is_tombstoned(tombstones, s)) {
                Some(s) => s,
                None => 0,
            },
        }
    }
}

proof fn lemma_least_slot(n: nat, holds: spec_fn(int) -> bool)
    ensures
        match least_slot(n, holds) {
            Some(s) => 0 <= s < n && holds(s) && forall|i: int| 0 <= i < s ==> !#[trigger] holds(i),
            None => forall|i: int| 0 <= i < n ==> !#[trigger] holds(i),
        },
    decreases n,
{
    if n > 0 {
        lemma_least_slot((n - 1) as nat, holds);
    }
}

proof fn lemma_least_is(n: nat, holds: spec_fn(int) -> bool, s: int)
    requires
        0 <= s < n,
        holds(s),
        forall|i: int| 0 <= i < s ==> !#[trigger] holds(i),
    ensures
        least_slot(n, holds) == Some(s),
{
    lemma_least_slot(n, holds);
}

/// The slot at which searches start after the slots in `tombstones` were deleted.
pub fn entry_point_after(
    entry: u32,
    n_vectors: u32,
    adjacency: &Option<GraphAdjacency>,
    tombstones: &[u8],
) -> (r: u32)
    requires
        adjacency matches Some(g) ==> g.well_formed() && g.slots() == n_vectors,
    ensures
        r == entry_after(entry, n_vectors as nat, *adjacency, tombstones@),
{
    let n: usize = n_vectors as usize;
    let ghost good = |s: int| good_start(*adjacency, s, tombstones@);
    let ghost live = |s: int| !is_tombstoned(tombstones@, s);
    if let Some(g) = adjacency {
        if !is_dead(tombstones, entry as usize) && (entry as usize) < g.n() && g.has_live_neighbor(
            entry as usize,
            tombstones,
        ) {
            return entry;
        }
        let mut s: usize = 0;
        while s < n
            invariant
                s <= n,
                n == n_vectors,
                *adjacency == Some(*g),
                g.well_formed(),
                g.slots() == n_vectors,
                good == (|s: int| good_start(*adjacency, s, tombstones@)),
                !good_start(*adjacency, entry as int, tombstones@),
                forall|i: int| 0 <= i < s ==> !#[trigger] good(i),
            decreases n - s,
        {
            if !is_dead(tombstones, s) && g.has_live_neighbor(s, tombstones) {
                proof {
                    assert(good(s as int));
                    lemma_least_is(n as nat, good, s as int);
                }
                return s as u32;
            }
            assert(!good(s as int));
            s += 1;
        }
    }
    proof {
        assert forall|i: int| 0 <= i < n implies !#[trigger] good(i) by {}
        lemma_least_slot(n as nat, good);
    }
    let mut s: usize = 0;
    while s < n
        invariant
            s <= n,
            n == n_vectors,
            good == (|s: int| good_start(*adjacency, s, tombstones@)),
            live == (|s: int| !is_tombstoned(tombstones@, s)),
            !good_start(*adjacency, entry as int, tombstones@),
            least_slot(n as nat, good) is None,
            forall|i: int| 0 <= i < s ==> !#[trigger] live(i),
        decreases n - s,
    {
        if !is_dead(tombstones, s) {
            proof {
                assert(live(s as int));
                lemma_least_is(n as nat, live, s as int);
            }
            return s as u32;
        }
        assert(!live(s as int));
        s += 1;
    }
    proof {
        lemma_least_slot(n as nat, live);
    }
    0
}

/// While any slot is live, searches start at a live slot.
pub proof fn entry_point_is_live(
    entry: u32,
    n: nat,
    g: Option<GraphAdjacency>,
    tombstones: Seq<u8>,
    witness: int,
)
    requires
        0 <= witness < n,
        !is_tombstoned(tombstones, witness),
    ensures
        !is_tombstoned(tombstones, entry_after(entry, n, g, tombstones)),
{
    let good = |s: int| good_start(g, s, tombstones);
    let live = |s: int| !is_tombstoned(tombstones, s);
    lemma_least_slot(n, good);
    lemma_least_slot(n, live);
    assert(live(witness));
}

/// While any slot is a good start, searches start at a good start.
pub proof fn entry_point_leads_on(
    entry: u32,
    n: nat,
    g: Option<GraphAdjacency>,
    tombstones: Seq<u8>,
    witness: int,
)
    requires
        0 <= witness < n,
        good_start(g, witness, tombstones),
    ensures
        good_start(g, entry_after(entry, n, g, tombstones), tombstones),
        entry_after(entry, n, g, tombstones) == entry || entry_after(entry, n, g, tombstones)
            <= witness,
{
    let good = |s: int| good_start(g, s, tombstones);
    lemma_least_slot(n, good);
    assert(good(witness));
}

/// While any slot is live, searches start at a slot that there is.
pub proof fn entry_point_is_a_slot(
    entry: u32,
    n: nat,
    g: Option<GraphAdjacency>,
    tombstones: Seq<u8>,
    witness: int,
)
    requires
        0 <= witness < n,
        !is_tombstoned(tombstones, witness),
        g matches Some(a) ==> a.slots() == n,
    ensures
        0 <= entry_after(entry, n, g, tombstones) < n,
{
    let good = |s: int| good_start(g, s, tombstones);
    let live = |s: int| !is_tombstoned(tombstones, s);
    lemma_least_slot(n, good);
    lemma_least_slot(n, live);
    assert(live(witness));
}

/// Whether a slot is live and one of its edges leads to a live slot, told from the two tables.
pub open spec fn leads_on_alive(a: GraphAdjacency, slot: int, tombstones: Seq<u8>) -> bool {
    &&& 0 <= slot < a.offsets@.len() - 1
    &&& !is_tombstoned(tombstones, slot)
    &&& exists|k: int|
        a.offsets@[slot] <= k < a.offsets@[slot + 1] && !is_tombstoned(
            tombstones,
            #[trigger] a.neighbors@[k] as int,
        )
}

proof fn lemma_leads_on_alive(a: GraphAdjacency, slot: int, tombstones: Seq<u8>)
    requires
        a.well_formed(),
        0 <= slot < a.slots(),
    ensures
        leads_on_alive(a, slot, tombstones) <==> good_start(Some(a), slot, tombstones),
{
    let from = a.offsets@[slot] as int;
    assert(a.offsets@[slot] <= a.offsets@[slot + 1] <= a.offsets@[a.offsets@.len() - 1]);
    let edges = a.out_edges(slot);
    if leads_on_alive(a, slot, tombstones) {
        let k = choose|k: int|
            a.offsets@[slot] <= k < a.offsets@[slot + 1] && !is_tombstoned(
                tombstones,
                #[trigger] a.neighbors@[k] as int,
            );
        assert(edges[k - from] == a.neighbors@[k]);
    }
    if good_start(Some(a), slot, tombstones) {
        let e = choose|e: int|
            0 <= e < edges.len() && !is_tombstoned(tombstones, #[trigger] edges[e] as int);
        assert(edges[e] == a.neighbors@[from + e]);
    }
}

/// A search of a graph starts where it did while that slot is live and leads on, else at the first slot
/// that is live and leads on, else at the first live slot, and at slot 0 where none is live.
pub proof fn searches_start_at_the_first_good_slot(
    entry: u32,
    n_vectors: u32,
    adjacency: &Option<GraphAdjacency>,
    tombstones: &[u8],
    r: u32,
)
    requires
        call_ensures(entry_point_after, (entry, n_vectors, adjacency, tombstones), r),
        *adjacency matches Some(a) ==> a.well_formed() && a.slots() == n_vectors,
    ensures
        *adjacency matches Some(a) ==> leads_on_alive(a, entry as int, tombstones@) ==> r == entry,
        *adjacency matches Some(a) ==> (exists|s: int| leads_on_alive(a, s, tombstones@))
            ==> leads_on_alive(a, r as int, tombstones@) && (r == entry || forall|s: int|
            0 <= s < r ==> !leads_on_alive(a, s, tombstones@)),
        (*adjacency is None || forall|s: int|
            !leads_on_alive((*adjacency)->0, s, tombstones@)) ==> {
            &&& forall|s: int| 0 <= s < r ==> #[trigger] is_tombstoned(tombstones@, s)
            &&& r < n_vectors ==> !is_tombstoned(tombstones@, r as int) || r == 0
            &&& (exists|s: int| 0 <= s < n_vectors && !is_tombstoned(tombstones@, s))
                ==> !is_tombstoned(tombstones@, r as int)
            &&& (forall|s: int| 0 <= s < n_vectors ==> is_tombstoned(tombstones@, s)) ==> r == 0
        },
{
    let n = n_vectors as nat;
    let good = |s: int| good_start(*adjacency, s, tombstones@);
    let live = |s: int| !is_tombstoned(tombstones@, s);
    lemma_least_slot(n, good);
    lemma_least_slot(n, live);
    if let Some(a) = *adjacency {
        assert forall|s: int| 0 <= s < n implies (#[trigger] leads_on_alive(a, s, tombstones@)
            <==> good(s)) by {
            lemma_leads_on_alive(a, s, tombstones@);
        }
        if entry < n {
            lemma_leads_on_alive(a, entry as int, tombstones@);
        }
        if exists|s: int| leads_on_alive(a, s, tombstones@) {
            let s = choose|s: int| leads_on_alive(a, s, tombstones@);
            assert(good(s));
            assert(leads_on_alive(a, r as int, tombstones@)) by {
                lemma_leads_on_alive(a, r as int, tombstones@);
            }
            if r != entry {
                assert forall|s: int| 0 <= s < r implies !leads_on_alive(a, s, tombstones@) by {
                    assert(!good(s));
                }
            }
        } else {
            assert forall|s: int| 0 <= s < n implies !#[trigger] good(s) by {
                assert(!leads_on_alive(a, s, tombstones@));
            }
        }
    }
    if (exists|s: int| 0 <= s < n_vectors && !is_tombstoned(tombstones@, s)) {
        let s = choose|s: int| 0 <= s < n_vectors && !is_tombstoned(tombstones@, s);
        assert(live(s));
    }
    if *adjacency is None || forall|s: int| !leads_on_alive((*adjacency)->0, s, tombstones@) {
        assert(least_slot(n, good) is None);
        assert forall|s: int| 0 <= s < r implies #[trigger] is_tombstoned(tombstones@, s) by {
            assert(!live(s));
        }
    }
}

/// Bytes are read as an adjacency exactly where they are the offsets of `n` slots that rise from zero to
/// the number of neighbours, and then give these offsets and neighbours back.
pub proof fn an_adjacency_reads_back(
    offsets: Seq<u32>,
    neighbors: Seq<u32>,
    chain: &[u8],
    offsets_bytes: u64,
    n: u64,
    r: Result<GraphAdjacency, GraphError>,
)
    requires
        call_ensures(GraphAdjacency::decode, (chain, offsets_bytes, n), r),
        chain@ == u32s_to_bytes(offsets) + u32s_to_bytes(neighbors),
        offsets_bytes == 4 * offsets.len(),
    ensures
        r is Ok <==> {
            &&& offsets.len() == n + 1
            &&& offsets[0] == 0
            &&& offsets[n as int] == neighbors.len()
            &&& forall|a: int, b: int| 0 <= a <= b < offsets.len() ==> offsets[a] <= offsets[b]
        },
        r matches Ok(g) ==> g.offsets@ == offsets && g.neighbors@ == neighbors,
        offsets.len() != n + 1 ==> r == Err::<GraphAdjacency, GraphError>(GraphError::OffsetCount),
        offsets.len() == n + 1 && r is Err ==> r->Err_0 == GraphError::OffsetOrder,
{
    u32s_round_trip(offsets);
    u32s_round_trip(neighbors);
    assert(chain@.subrange(0, offsets_bytes as int) =~= u32s_to_bytes(offsets));
    assert(chain@.subrange(offsets_bytes as int, chain@.len() as int) =~= u32s_to_bytes(neighbors));
}

/// What is read as an adjacency is one: each slot has a piece of the neighbours, one behind the other,
/// and nothing is read where the offsets are said to be longer than the chain.
pub proof fn what_is_read_is_an_adjacency(
    chain: &[u8],
    offsets_bytes: u64,
    n: u64,
    r: Result<GraphAdjacency, GraphError>,
)
    requires
        call_ensures(GraphAdjacency::decode, (chain, offsets_bytes, n), r),
    ensures
        offsets_bytes > chain@.len() ==> r == Err::<GraphAdjacency, GraphError>(
            GraphError::OffsetsPastChain,
        ),
        r matches Ok(g) ==> {
            &&& g.offsets@.len() == n + 1
            &&& g.offsets@[0] == 0
            &&& g.offsets@[n as int] == g.neighbors@.len()
            &&& forall|a: int, b: int|
                0 <= a <= b < g.offsets@.len() ==> g.offsets@[a] <= g.offsets@[b]
        },
{
}

/// A slot has a live neighbour exactly where one of its edges leads to a slot that is not marked; an
/// adjacency has one slot less than it has offsets.
pub proof fn an_edge_leads_to_a_live_slot(
    a: &GraphAdjacency,
    slot: usize,
    tombstones: &[u8],
    r: bool,
    n: usize,
)
    requires
        call_ensures(GraphAdjacency::has_live_neighbor, (a, slot, tombstones), r),
        call_ensures(GraphAdjacency::n, (a,), n),
        a.well_formed(),
        slot < a.offsets@.len() - 1,
    ensures
        n == a.offsets@.len() - 1,
        r <==> exists|k: int|
            a.offsets@[slot as int] <= k < a.offsets@[slot + 1] && !is_tombstoned(
                tombstones@,
                #[trigger] a.neighbors@[k] as int,
            ),
{
    let from = a.offsets@[slot as int] as int;
    let to = a.offsets@[slot + 1] as int;
    assert(a.offsets@[slot as int] <= a.offsets@[slot + 1] <= a.offsets@[a.offsets@.len() - 1]);
    let edges = a.out_edges(slot as int);
    if r {
        let e = choose|e: int|
            0 <= e < edges.len() && !is_tombstoned(tombstones@, #[trigger] edges[e] as int);
        assert(a.neighbors@[from + e] == edges[e]);
    }
    if exists|k: int|
        from <= k < to && !is_tombstoned(tombstones@, #[trigger] a.neighbors@[k] as int) {
        let k = choose|k: int|
            from <= k < to && !is_tombstoned(tombstones@, #[trigger] a.neighbors@[k] as int);
        assert(edges[k - from] == a.neighbors@[k]);
    }
}

} // verus!
