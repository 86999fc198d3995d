//! The life of one index scan: admission, the first batch, emission, refills.
use std::collections::HashSet;
use vstd::prelude::*;

use crate::page::{MetaPageData, KIND_COLBERT};

verus! {

broadcast use vstd::std_specs::hash::group_hash_axioms;

/// Why an index cannot be scanned by this version.
#[derive(Clone, Copy, Debug, PartialEq, Eq, Structural)]
pub enum ScanRefusal {
    /// The relation has no meta page.
    EmptyFork,
    /// The first layout version, which lacks the codebook.
    LegacyV1,
    /// A layout version that lacks the calibration chain.
    LegacyV2,
    /// A token index, which has no order.
    Colbert,
}

/// Why the index cannot be scanned, if it cannot. Layouts that are too old matter only with rows.
pub open spec fn scan_refusal(meta: Option<MetaPageData>) -> Option<ScanRefusal> {
    match meta {
        None => Some(ScanRefusal::EmptyFork),
        Some(m) => if m.version == 1 && m.n_vectors > 0 {
            Some(ScanRefusal::LegacyV1)
        } else if m.version <= 2 && m.n_vectors > 0 {
            Some(ScanRefusal::LegacyV2)
        } else if m.kind == KIND_COLBERT {
            Some(ScanRefusal::Colbert)
        } else {
            None
        },
    }
}

/// Decides whether an index can be scanned.
pub fn admit_scan(meta: &Option<MetaPageData>) -> (r: Option<ScanRefusal>)
    ensures
        r == scan_refusal(*meta),
{
    match meta {
        None => Some(ScanRefusal::EmptyFork),
        Some(m) => {
            if m.is_legacy_v1() && m.n_vectors > 0 {
                Some(ScanRefusal::LegacyV1)
            } else if m.is_legacy_v2() && m.n_vectors > 0 {
                Some(ScanRefusal::LegacyV2)
            } else if m.is_colbert() {
                Some(ScanRefusal::Colbert)
            } else {
                None
            }
        },
    }
}

/// The order that a scan is asked for.
#[derive(Clone, Copy, Debug, PartialEq, Eq, Structural)]
pub enum OrderBy {
    /// None: the scan gives nothing.
    Absent,
    /// The query is null.
    Null,
    /// The query is no vector.
    Undecodable,
    /// By distance from a vector of this dimension.
    Query { dim: usize },
}

/// Why a scan cannot be started over.
#[derive(Clone, Copy, Debug, PartialEq, Eq, Structural)]
pub enum RescanError {
    NullQuery,
    UndecodableQuery,
}

/// What restricts the scan of a clustered index.
#[derive(Clone, Copy, Debug, PartialEq, Eq, Structural)]
pub struct IvfScan {
    /// Cells of the index.
    pub lists: usize,
    /// Cells that are searched.
    pub probes: usize,
}

/// The state of one scan. Identifiers come in `results` in the order of the searches that found them,
/// each of them once; those before `cursor` have been emitted.
#[derive(Debug)]
pub struct ScanState {
    pub query_dim: usize,
    pub results: Vec<u64>,
    /// The distance of each result, as the bit pattern of a double-precision number.
    pub distances: Vec<u64>,
    pub cursor: usize,
    pub fetched: bool,
    /// Whether an index is loaded for further searches.
    pub loaded: bool,
    pub current_k: usize,
    pub n_live: usize,
    /// The identifiers in `results`.
    pub listed: HashSet<u64>,
    pub ivf: Option<IvfScan>,
    pub allow: Option<HashSet<u64>>,
}

/// The settings that govern refills.
#[derive(Clone, Copy, Debug, PartialEq, Eq, Structural)]
pub struct RefillSettings {
    /// Whether a scan goes on behind its first batch.
    pub iterative: bool,
    /// Candidates that a scan looks at, at most.
    pub max_scan_tuples: usize,
    /// Cells that a scan searches, at most.
    pub max_probes: usize,
}

/// What to do when a batch is used up.
#[derive(Clone, Copy, Debug, PartialEq, Eq, Structural)]
pub enum Refill {
    /// Nothing: the scan is over.
    Exhausted,
    /// Search the whole index for `k` candidates.
    Flat { k: usize },
    /// Search `probes` cells for `k` candidates; `widened` tells whether that is more cells than
    /// before.
    Cells { probes: usize, widened: bool, k: usize },
}

/// What a scan does next.
#[derive(Clone, Copy, Debug, PartialEq, Eq, Structural)]
pub enum ScanStep {
    /// Give this row.
    Emit { id: u64 },
    /// Search as the refill says, and go on with what it finds.
    Search { refill: Refill },
    /// End.
    Done,
}

pub open spec fn smaller(a: usize, b: usize) -> usize {
    if a < b {
        a
    } else {
        b
    }
}

pub open spec fn larger(a: usize, b: usize) -> usize {
    if a < b {
        b
    } else {
        a
    }
}

/// `2 * a`, staying at the largest value.
pub open spec fn doubled(a: usize) -> usize {
    if 2 * a <= usize::MAX {
        (2 * a) as usize
    } else {
        usize::MAX
    }
}

/// `a` doubled, not beyond `cap`, but at least one more.
pub open spec fn grown(a: usize, cap: usize) -> usize {
    larger(smaller(doubled(a), cap), (a + 1) as usize)
}

/// Candidates that a scan over `n_live` rows may ask for.
pub open spec fn k_ceiling(n_live: usize, s: RefillSettings) -> usize {
    smaller(n_live, larger(s.max_scan_tuples, 1))
}

/// Cells that a scan over `lists` cells may search.
pub open spec fn probe_ceiling(lists: usize, s: RefillSettings) -> usize {
    smaller(larger(s.max_probes, 1), lists)
}

/// `k` candidates, or more of them as long as fewer than `cap` were asked for.
pub open spec fn raised(k: usize, cap: usize) -> usize {
    if k < cap {
        grown(k, cap)
    } else {
        k
    }
}

/// Whether a scan that is restricted to cells searches some of them, and no more than there are.
pub open spec fn proper_cells(ivf: Option<IvfScan>) -> bool {
    ivf matches Some(v) ==> 1 <= v.probes <= v.lists
}

impl ScanState {
    /// What always holds of a scan.
    pub open spec fn well_formed(self) -> bool {
        &&& self.cursor <= self.results@.len()
        &&& self.distances@.len() == self.results@.len()
        &&& self.results@.no_duplicates()
        &&& forall|id: u64| #[trigger] self.listed@.contains(id) == self.results@.contains(id)
        &&& proper_cells(self.ivf)
    }

    /// The identifiers that have been emitted, in order.
    pub open spec fn emissions(self) -> Seq<u64> {
        self.results@.take(self.cursor as int)
    }

    /// A scan that has not been started.
    pub fn new() -> (r: ScanState)
        ensures
            r.well_formed(),
            r.query_dim == 0,
            r.results@.len() == 0,
            r.cursor == 0,
            !r.fetched,
            !r.loaded,
            r.current_k == 0,
            r.n_live == 0,
            r.ivf is None,
            r.allow is None,
    {
        ScanState {
            query_dim: 0,
            results: Vec::new(),
            distances: Vec::new(),
            cursor: 0,
            fetched: false,
            loaded: false,
            current_k: 0,
            n_live: 0,
            listed: HashSet::new(),
            ivf: None,
            allow: None,
        }
    }

    /// Starts the scan over. Without an order it is over at once; a query that is null or no vector
    /// is refused, and then nothing changes.
    pub fn rescan(&mut self, order_by: OrderBy) -> (r: Result<(), RescanError>)
        requires
            old(self).well_formed(),
        ensures
            r == match order_by {
                OrderBy::Null => Err::<(), RescanError>(RescanError::NullQuery),
                OrderBy::Undecodable => Err::<(), RescanError>(RescanError::UndecodableQuery),
                _ => Ok::<(), RescanError>(()),
            },
            r is Err ==> *final(self) == *old(self),
            r is Ok ==> {
                &&& final(self).well_formed()
                &&& final(self).query_dim == match order_by {
                    OrderBy::Query { dim } => dim,
                    _ => 0,
                }
                &&& final(self).results@.len() == 0
                &&& final(self).cursor == 0
                &&& final(self).fetched == (order_by is Absent)
                &&& !final(self).loaded
                &&& final(self).current_k == 0
                &&& final(self).n_live == 0
                &&& final(self).allow is None
                &&& final(self).ivf == match order_by {
                    OrderBy::Absent => old(self).ivf,
                    _ => None,
                }
            },
    {
        let dim: usize = match order_by {
            OrderBy::Null => {
                return Err(RescanError::NullQuery);
            },
            OrderBy::Undecodable => {
                return Err(RescanError::UndecodableQuery);
            },
            OrderBy::Absent => 0,
            OrderBy::Query { dim } => dim,
        };
        self.query_dim = dim;
        self.results.clear();
        self.distances.clear();
        self.cursor = 0;
        self.loaded = false;
        self.current_k = 0;
        self.n_live = 0;
        self.listed.clear();
        self.allow = None;
        match order_by {
            OrderBy::Absent => {
                self.fetched = true;
            },
            _ => {
                self.fetched = false;
                self.ivf = None;
            },
        }
        Ok(())
    }

    /// Appends the candidates that are not listed yet.
    fn populate(&mut self, ids: &[u64], distances: &[u64])
        requires
            old(self).well_formed(),
            ids@.len() == distances@.len(),
        ensures
            final(self).well_formed(),
            final(self).results@ == old(self).results@ + fresh_ids(ids@, old(self).results@),
            *final(self) == (ScanState {
                results: final(self).results,
                distances: final(self).distances,
                listed: final(self).listed,
                ..*old(self)
            }),
            final(self).distances@ == old(self).distances@ + fresh_distances(
                ids@,
                distances@,
                old(self).results@,
            ),
    {
        let ghost before = self.results@;
        let ghost dist = self.distances@;
        let mut i: usize = 0;
        assert(fresh_ids(ids@.take(0), before) =~= Seq::empty());
        assert(self.results@ =~= before + fresh_ids(ids@.take(0), before));
        assert(self.distances@ =~= dist + fresh_distances(ids@.take(0), distances@.take(0), before));
        while i < ids.len()
            invariant
                i <= ids@.len() == distances@.len(),
                before == old(self).results@,
                dist == old(self).distances@,
                old(self).well_formed(),
                *self == (ScanState {
                    results: self.results,
                    distances: self.distances,
                    listed: self.listed,
                    ..*old(self)
                }),
                self.results@ == before + fresh_ids(ids@.take(i as int), before),
                self.distances@ == dist + fresh_distances(
                    ids@.take(i as int),
                    distances@.take(i as int),
                    before,
                ),
                self.well_formed(),
            decreases ids@.len() - i,
        {
            let id: u64 = ids[i];
            let ghost r0 = self.results@;
            proof {
                assert(ids@.take(i + 1).drop_last() =~= ids@.take(i as int));
                assert(distances@.take(i + 1).drop_last() =~= distances@.take(i as int));
                assert(ids@.take(i + 1).last() == id);
                lemma_fresh_ids(ids@.take(i as int), before);
                lemma_in_either(before, fresh_ids(ids@.take(i as int), before), id);
            }
            let fresh: bool = self.listed.insert(id);
            if fresh {
                self.results.push(id);
                self.distances.push(distances[i]);
                assert(self.results@ =~= before + fresh_ids(ids@.take(i + 1), before));
                assert(self.distances@ =~= dist + fresh_distances(
                    ids@.take(i + 1),
                    distances@.take(i + 1),
                    before,
                ));
                proof {
                    lemma_push_listed(r0, id);
                }
            }
            i += 1;
        }
        proof {
            assert(ids@.take(i as int) =~= ids@);
            assert(distances@.take(i as int) =~= distances@);
        }
    }

    /// Ends a scan that has nothing to give.
    pub fn finish(&mut self)
        ensures
            *final(self) == (ScanState { fetched: true, ..*old(self) }),
    {
        self.fetched = true;
    }

    /// Takes in the first search: `k` candidates were asked for, over `n_live` rows, restricted to
    /// cells where `ivf` says so.
    pub fn start(
        &mut self,
        n_live: usize,
        k: usize,
        ivf: Option<IvfScan>,
        allow: Option<HashSet<u64>>,
        ids: &[u64],
        distances: &[u64],
    )
        requires
            old(self).well_formed(),
            ids@.len() == distances@.len(),
            proper_cells(ivf),
            old(self).cursor == 0,
        ensures
            final(self).well_formed(),
            final(self).fetched,
            final(self).loaded,
            final(self).n_live == n_live,
            final(self).current_k == k,
            final(self).ivf == ivf,
            final(self).allow == allow,
            final(self).query_dim == old(self).query_dim,
            final(self).cursor == 0,
            final(self).results@ == old(self).results@ + fresh_ids(ids@, old(self).results@),
            final(self).distances@ == old(self).distances@ + fresh_distances(
                ids@,
                distances@,
                old(self).results@,
            ),
    {
        self.allow = allow;
        self.ivf = ivf;
        self.loaded = true;
        self.n_live = n_live;
        self.current_k = k;
        self.populate(ids, distances);
        self.fetched = true;
    }

    /// Emits the next result of the current batch.
    pub fn next(&mut self) -> (r: Option<u64>)
        requires
            old(self).well_formed(),
        ensures
            final(self).well_formed(),
            if old(self).cursor < old(self).results@.len() {
                &&& r == Some(old(self).results@[old(self).cursor as int])
                &&& final(self).cursor == old(self).cursor + 1
                &&& final(self).emissions() == old(self).emissions().push(r->0)
                &&& *final(self) == (ScanState { cursor: final(self).cursor, ..*old(self) })
            } else {
                r is None && *final(self) == *old(self)
            },
    {
        if self.cursor >= self.results.len() {
            return None;
        }
        let id: u64 = self.results[self.cursor];
        self.cursor = self.cursor + 1;
        assert(self.emissions() =~= old(self).emissions().push(id));
        Some(id)
    }

    /// What to do when the batch is used up.
    pub open spec fn refill(self, s: RefillSettings) -> Refill {
        if !s.iterative || !self.loaded {
            Refill::Exhausted
        } else {
            let ceiling = k_ceiling(self.n_live, s);
            match self.ivf {
                Some(v) => {
                    let most = probe_ceiling(v.lists, s);
                    if v.probes >= most && self.current_k >= ceiling {
                        Refill::Exhausted
                    } else {
                        Refill::Cells {
                            probes: if v.probes < most {
                                grown(v.probes, most)
                            } else {
                                v.probes
                            },
                            widened: v.probes < most,
                            k: raised(self.current_k, ceiling),
                        }
                    }
                },
                None => if self.current_k >= ceiling {
                    Refill::Exhausted
                } else {
                    Refill::Flat { k: grown(self.current_k, ceiling) }
                },
            }
        }
    }

    /// Whether another refill could look further than the last one.
    pub open spec fn can_grow(self, s: RefillSettings) -> bool {
        ||| self.current_k < k_ceiling(self.n_live, s)
        ||| self.ivf matches Some(v) && v.probes < probe_ceiling(v.lists, s)
    }

    /// Decides what to do when the batch is used up.
    pub fn plan_refill(&self, s: RefillSettings) -> (r: Refill)
        requires
            self.well_formed(),
        ensures
            r == self.refill(s),
            match r {
                Refill::Cells { probes, widened: _, k } => {
                    &&& self.current_k <= k_ceiling(self.n_live, s) ==> k <= k_ceiling(
                        self.n_live,
                        s,
                    )
                    &&& probes <= larger(
                        (self.ivf->0).probes,
                        probe_ceiling((self.ivf->0).lists, s),
                    )
                },
                Refill::Flat { k } => self.current_k < k <= k_ceiling(self.n_live, s),
                Refill::Exhausted => true,
            },
    {
        if !s.iterative || !self.loaded {
            return Refill::Exhausted;
        }
        let ceiling: usize = ceiling_of(self.n_live, s);
        match self.ivf {
            Some(v) => {
                let most: usize = most_probes(v.lists, s);
                if v.probes >= most && self.current_k >= ceiling {
                    return Refill::Exhausted;
                }
                let widened: bool = v.probes < most;
                let probes: usize = if widened {
                    grow(v.probes, most)
                } else {
                    v.probes
                };
                let k: usize = if self.current_k < ceiling {
                    grow(self.current_k, ceiling)
                } else {
                    self.current_k
                };
                Refill::Cells { probes, widened, k }
            },
            None => {
                if self.current_k >= ceiling {
                    Refill::Exhausted
                } else {
                    Refill::Flat { k: grow(self.current_k, ceiling) }
                }
            },
        }
    }

    /// Takes in the search that a refill asked for. The answer is whether to go on: there are new
    /// results, or the next refill can look further.
    pub fn take_refill(&mut self, s: RefillSettings, ids: &[u64], distances: &[u64]) -> (r: bool)
        requires
            old(self).well_formed(),
            ids@.len() == distances@.len(),
            !(old(self).refill(s) is Exhausted),
        ensures
            final(self).well_formed(),
            final(self).results@ == old(self).results@ + fresh_ids(ids@, old(self).results@),
            final(self).distances@ == old(self).distances@ + fresh_distances(
                ids@,
                distances@,
                old(self).results@,
            ),
            final(self).current_k == (match old(self).refill(s) {
                Refill::Cells { k, .. } => k,
                Refill::Flat { k } => k,
                Refill::Exhausted => 0,
            }),
            final(self).ivf == (match old(self).refill(s) {
                Refill::Cells { probes, .. } => Some(IvfScan { probes, ..old(self).ivf->0 }),
                _ => old(self).ivf,
            }),
            *final(self) == (ScanState {
                results: final(self).results,
                distances: final(self).distances,
                listed: final(self).listed,
                current_k: final(self).current_k,
                ivf: final(self).ivf,
                ..*old(self)
            }),
            old(self).current_k <= k_ceiling(old(self).n_live, s) ==> final(self).current_k
                <= k_ceiling(final(self).n_live, s),
            r == (fresh_ids(ids@, old(self).results@).len() > 0 || final(self).can_grow(s)),
    {
        let before: usize = self.results.len();
        match self.plan_refill(s) {
            Refill::Cells { probes, widened: _, k } => {
                if let Some(v) = self.ivf {
                    proof {
                        if v.probes < probe_ceiling(v.lists, s) {
                            lemma_grown(v.probes, probe_ceiling(v.lists, s));
                        }
                    }
                    self.ivf = Some(IvfScan { lists: v.lists, probes });
                }
                self.current_k = k;
            },
            Refill::Flat { k } => {
                proof {
                    lemma_grown(self.current_k, k_ceiling(self.n_live, s));
                }
                self.current_k = k;
            },
            Refill::Exhausted => {},
        }
        self.populate(ids, distances);
        if self.results.len() > before {
            return true;
        }
        let ceiling: usize = ceiling_of(self.n_live, s);
        if self.current_k < ceiling {
            return true;
        }
        match self.ivf {
            Some(v) => v.probes < most_probes(v.lists, s),
            None => false,
        }
    }
}

impl ScanState {
    /// What is added to the results by what a search found.
    pub open spec fn additions(self, found: Option<(&[u64], &[u64])>) -> Seq<u64> {
        match found {
            Some((ids, _)) => fresh_ids(ids@, self.results@),
            None => Seq::empty(),
        }
    }

    /// The distances of what is added.
    pub open spec fn added_distances(self, found: Option<(&[u64], &[u64])>) -> Seq<u64> {
        match found {
            Some((ids, distances)) => fresh_distances(ids@, distances@, self.results@),
            None => Seq::empty(),
        }
    }

    /// Goes on after the first batch: takes in what a search found, where one was asked for, and gives
    /// the next row, or asks for a further search when the rows are used up, or ends when no search
    /// can look further than the last.
    pub fn advance(&mut self, found: Option<(&[u64], &[u64])>, s: RefillSettings) -> (r: ScanStep)
        requires
            old(self).well_formed(),
            found matches Some((ids, distances)) ==> {
                &&& ids@.len() == distances@.len()
                &&& !(old(self).refill(s) is Exhausted)
            },
        ensures
            final(self).well_formed(),
            final(self).results@ == old(self).results@ + old(self).additions(found),
            final(self).distances@ == old(self).distances@ + old(self).added_distances(found),
            final(self).current_k == (match (found, old(self).refill(s)) {
                (Some(_), Refill::Cells { k, .. }) => k,
                (Some(_), Refill::Flat { k }) => k,
                _ => old(self).current_k,
            }),
            final(self).ivf == (match (found, old(self).refill(s)) {
                (Some(_), Refill::Cells { probes, .. }) => Some(
                    IvfScan { probes, ..old(self).ivf->0 },
                ),
                _ => old(self).ivf,
            }),
            *final(self) == (ScanState {
                results: final(self).results,
                distances: final(self).distances,
                current_k: final(self).current_k,
                ivf: final(self).ivf,
                cursor: final(self).cursor,
                listed: final(self).listed,
                ..*old(self)
            }),
            old(self).current_k <= k_ceiling(old(self).n_live, s) ==> final(self).current_k
                <= k_ceiling(final(self).n_live, s),
            r == (if {
                &&& found is Some
                &&& old(self).additions(found).len() == 0
                &&& !final(self).can_grow(s)
            } {
                ScanStep::Done
            } else if old(self).cursor < final(self).results@.len() {
                ScanStep::Emit { id: final(self).results@[old(self).cursor as int] }
            } else if final(self).refill(s) is Exhausted {
                ScanStep::Done
            } else {
                ScanStep::Search { refill: final(self).refill(s) }
            }),
            final(self).cursor == old(self).cursor + (if r is Emit {
                1int
            } else {
                0int
            }),
    {
        if let Some((ids, distances)) = found {
            if !self.take_refill(s, ids, distances) {
                return ScanStep::Done;
            }
        } else {
            assert(self.results@ =~= self.results@ + Seq::<u64>::empty());
            assert(self.distances@ =~= self.distances@ + Seq::<u64>::empty());
        }
        match self.next() {
            Some(id) => ScanStep::Emit { id },
            None => match self.plan_refill(s) {
                Refill::Exhausted => ScanStep::Done,
                refill => ScanStep::Search { refill },
            },
        }
    }
}

/// Of the candidates `ids` those that are not in `given`, each once, in order.
pub open spec fn fresh_ids(ids: Seq<u64>, given: Seq<u64>) -> Seq<u64>
    decreases ids.len(),
{
    if ids.len() == 0 {
        Seq::empty()
    } else if given.contains(ids.last()) || ids.drop_last().contains(ids.last()) {
        fresh_ids(ids.drop_last(), given)
    } else {
        fresh_ids(ids.drop_last(), given).push(ids.last())
    }
}

/// The distances of those candidates.
pub open spec fn fresh_distances(ids: Seq<u64>, distances: Seq<u64>, given: Seq<u64>) -> Seq<u64>
    decreases ids.len(),
{
    if ids.len() == 0 {
        Seq::empty()
    } else if given.contains(ids.last()) || ids.drop_last().contains(ids.last()) {
        fresh_distances(ids.drop_last(), distances.drop_last(), given)
    } else {
        fresh_distances(ids.drop_last(), distances.drop_last(), given).push(distances.last())
    }
}

proof fn lemma_in_either(a: Seq<u64>, b: Seq<u64>, x: u64)
    ensures
        (a + b).contains(x) == (a.contains(x) || b.contains(x)),
{
    if a.contains(x) {
        let k = choose|k: int| 0 <= k < a.len() && a[k] == x;
        assert((a + b)[k] == x);
    }
    if b.contains(x) {
        let k = choose|k: int| 0 <= k < b.len() && b[k] == x;
        assert((a + b)[a.len() + k] == x);
    }
    if (a + b).contains(x) {
        let k = choose|k: int| 0 <= k < (a + b).len() && (a + b)[k] == x;
        if k < a.len() {
            assert(a[k] == x);
        } else {
            assert(b[k - a.len()] == x);
        }
    }
}

proof fn lemma_push_listed(a: Seq<u64>, x: u64)
    requires
        a.no_duplicates(),
        !a.contains(x),
    ensures
        a.push(x).no_duplicates(),
        forall|y: u64| #[trigger] a.push(x).contains(y) == (a.contains(y) || y == x),
{
    let now = a.push(x);
    assert forall|i: int, j: int| 0 <= i < now.len() && 0 <= j < now.len() && i != j implies now[i]
        != now[j] by {
        if i < a.len() && j < a.len() {
            assert(a[i] != a[j]);
        } else if i < a.len() {
            assert(a.contains(a[i]));
        } else {
            assert(a.contains(a[j]));
        }
    }
    assert forall|y: u64| #[trigger] now.contains(y) == (a.contains(y) || y == x) by {
        if a.contains(y) {
            let k = choose|k: int| 0 <= k < a.len() && a[k] == y;
            assert(now[k] == y);
        }
        assert(now[a.len() as int] == x);
        if now.contains(y) && y != x {
            let k = choose|k: int| 0 <= k < now.len() && now[k] == y;
            assert(a[k] == y);
        }
    }
}

fn grow(a: usize, cap: usize) -> (r: usize)
    requires
        a < usize::MAX,
    ensures
        r == grown(a, cap),
{
    let twice: usize = if a <= usize::MAX / 2 {
        2 * a
    } else {
        usize::MAX
    };
    let capped: usize = if twice < cap {
        twice
    } else {
        cap
    };
    if capped < a + 1 {
        a + 1
    } else {
        capped
    }
}

fn ceiling_of(n_live: usize, s: RefillSettings) -> (r: usize)
    ensures
        r == k_ceiling(n_live, s),
{
    let budget: usize = if s.max_scan_tuples < 1 {
        1
    } else {
        s.max_scan_tuples
    };
    if n_live < budget {
        n_live
    } else {
        budget
    }
}

fn most_probes(lists: usize, s: RefillSettings) -> (r: usize)
    ensures
        r == probe_ceiling(lists, s),
{
    let wanted: usize = if s.max_probes < 1 {
        1
    } else {
        s.max_probes
    };
    if wanted < lists {
        wanted
    } else {
        lists
    }
}

proof fn lemma_grown(a: usize, cap: usize)
    requires
        a < usize::MAX,
    ensures
        grown(a, cap) > a,
        a < cap ==> grown(a, cap) <= cap,
{
}

/// How far a scan can still look: cells that it does not search yet and candidates that it has not
/// asked for yet.
pub open spec fn outlook(st: ScanState, s: RefillSettings) -> nat {
    let ceiling = k_ceiling(st.n_live, s);
    (if st.current_k < ceiling {
        (ceiling - st.current_k) as nat
    } else {
        0
    }) + match st.ivf {
        Some(v) => if v.probes < probe_ceiling(v.lists, s) {
            (probe_ceiling(v.lists, s) - v.probes) as nat
        } else {
            0
        },
        None => 0,
    }
}

/// Every refill looks further than the one before, and there is an end to it: what is left to look
/// at shrinks with each refill, and a refill is asked for only while something is left. Once the number
/// of candidates is within its ceiling it stays there.
pub proof fn refills_come_to_an_end(before: ScanState, after: ScanState, s: RefillSettings)
    requires
        before.well_formed(),
        !(before.refill(s) is Exhausted),
        after.n_live == before.n_live,
        after.current_k == (match before.refill(s) {
            Refill::Cells { k, .. } => k,
            Refill::Flat { k } => k,
            Refill::Exhausted => 0,
        }),
        after.ivf == (match before.refill(s) {
            Refill::Cells { probes, .. } => Some(IvfScan { probes, ..before.ivf->0 }),
            _ => before.ivf,
        }),
    ensures
        outlook(after, s) < outlook(before, s),
        outlook(before, s) > 0,
        after.current_k >= before.current_k,
        before.ivf matches Some(v) ==> v.probes <= after.ivf->0.probes <= v.lists,
        before.current_k <= k_ceiling(before.n_live, s) ==> after.current_k <= k_ceiling(
            after.n_live,
            s,
        ),
{
    if before.current_k < k_ceiling(before.n_live, s) {
        lemma_grown(before.current_k, k_ceiling(before.n_live, s));
    }
    if let Some(v) = before.ivf {
        if v.probes < probe_ceiling(v.lists, s) {
            lemma_grown(v.probes, probe_ceiling(v.lists, s));
        }
    }
}

proof fn lemma_fresh_ids(ids: Seq<u64>, given: Seq<u64>)
    ensures
        forall|x: u64| #[trigger]
            fresh_ids(ids, given).contains(x) == (ids.contains(x) && !given.contains(x)),
        fresh_ids(ids, given).no_duplicates(),
    decreases ids.len(),
{
    if ids.len() > 0 {
        let head = ids.drop_last();
        let last = ids.last();
        lemma_fresh_ids(head, given);
        let before = fresh_ids(head, given);
        let now = fresh_ids(ids, given);
        assert(ids =~= head.push(last));
        if !given.contains(last) && !head.contains(last) {
            lemma_push_listed(before, last);
        }
        assert forall|x: u64| #[trigger] now.contains(x) == (ids.contains(x) && !given.contains(
            x,
        )) by {
            assert(before.contains(x) == (head.contains(x) && !given.contains(x)));
            if head.contains(x) {
                let k = choose|k: int| 0 <= k < head.len() && head[k] == x;
                assert(ids[k] == x);
            }
            if ids.contains(x) && x != last {
                let k = choose|k: int| 0 <= k < ids.len() && ids[k] == x;
                assert(head[k] == x);
            }
            assert(ids[ids.len() - 1] == last);
        }
    }
}

/// No row is given twice, whatever the searches find, and however often they find it: no identifier
/// repeats among what a scan has emitted, nor among its results after a further search is taken in.
pub proof fn no_row_is_given_twice(st: ScanState, ids: Seq<u64>)
    requires
        st.well_formed(),
    ensures
        st.emissions().no_duplicates(),
        (st.results@ + fresh_ids(ids, st.results@)).no_duplicates(),
{
    let old = st.results@;
    let new = fresh_ids(ids, old);
    lemma_fresh_ids(ids, old);
    assert forall|i: int, j: int|
        0 <= i < st.cursor && 0 <= j < st.cursor && i != j implies st.emissions()[i]
        != st.emissions()[j] by {
        assert(old[i] != old[j]);
    }
    let all = old + new;
    assert forall|i: int, j: int| 0 <= i < all.len() && 0 <= j < all.len() && i != j implies all[i]
        != all[j] by {
        if i < old.len() && j < old.len() {
            assert(old[i] != old[j]);
        } else if i >= old.len() && j >= old.len() {
            assert(new[i - old.len()] != new[j - old.len()]);
        } else if i < old.len() {
            assert(old.contains(old[i]));
            assert(new.contains(new[j - old.len()]));
        } else {
            assert(old.contains(old[j]));
            assert(new.contains(new[i - old.len()]));
        }
    }
}

/// A search loses no row: what it finds is among the results afterwards.
pub proof fn what_is_found_is_listed(st: ScanState, ids: Seq<u64>, id: u64)
    requires
        ids.contains(id),
    ensures
        (st.results@ + fresh_ids(ids, st.results@)).contains(id),
{
    lemma_fresh_ids(ids, st.results@);
    lemma_in_either(st.results@, fresh_ids(ids, st.results@), id);
}

} // verus!
