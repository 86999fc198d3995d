//! What every scan keeps to, whatever it finds: its settings, its filter, the order of its rows.
use std::collections::HashSet;
use vstd::prelude::*;

use crate::page::MetaPageData;
use crate::scan::{
    admit_scan, fresh_distances, fresh_ids, IvfScan, OrderBy, Refill, RefillSettings, RescanError,
    ScanRefusal, ScanState, ScanStep,
};
use crate::scan_load::{
    allowed_positions, codes_bytes, first_fetch, first_k, first_warning, ivf_setup, kept_positions,
    load_by_cells, post_filter, try_install_ooc, wants_mirror, whole_index_bytes, widened_k,
    CellLoad, DimMismatch, FirstFetch,
};

verus! {

broadcast use vstd::std_specs::hash::group_hash_axioms;

/// An index is scanned unless it has no meta page, its layout is older than the third version while it
/// has rows, or it is a token index; each refusal says which of these it is.
pub proof fn only_readable_orders_are_scanned(meta: &Option<MetaPageData>, r: Option<ScanRefusal>)
    requires
        call_ensures(admit_scan, (meta,), r),
    ensures
        r is None <==> *meta is Some && (*meta)->0.kind != 1 && ((*meta)->0.n_vectors == 0
            || (*meta)->0.version >= 3),
        r == Some(ScanRefusal::EmptyFork) <==> *meta is None,
        r == Some(ScanRefusal::LegacyV1) <==> *meta is Some && (*meta)->0.n_vectors > 0
            && (*meta)->0.version == 1,
        r == Some(ScanRefusal::LegacyV2) <==> *meta is Some && (*meta)->0.n_vectors > 0
            && ((*meta)->0.version == 0 || (*meta)->0.version == 2),
{
}

/// A refill asks for more than the batch before it, and for no more than the settings allow: while the
/// candidates are within `max_scan_tuples` and the rows of the index they stay within both, and while
/// the cells are within `max_probes` they stay within it. Where a setting is 0 it counts as 1. Each
/// refill at least doubles what it raises, unless it reaches a limit.
#[verifier::rlimit(40)]
pub proof fn refills_keep_to_the_settings(st: &ScanState, s: RefillSettings, r: Refill)
    requires
        call_ensures(ScanState::plan_refill, (st, s), r),
        st.well_formed(),
    ensures
        !s.iterative || !st.loaded ==> r is Exhausted,
        r matches Refill::Flat { k } ==> {
            &&& st.ivf is None
            &&& st.current_k < k <= st.n_live
            &&& s.max_scan_tuples >= 1 ==> k <= s.max_scan_tuples
            &&& s.max_scan_tuples == 0 ==> k == 1
            &&& k >= 2 * st.current_k || k == st.n_live || k == s.max_scan_tuples
            &&& k <= 2 * st.current_k || k == 1
        },
        r matches Refill::Cells { probes, widened, k } ==> {
            &&& st.ivf is Some
            &&& (st.ivf->0).probes <= probes <= (st.ivf->0).lists
            &&& s.max_probes >= 1 && (st.ivf->0).probes <= s.max_probes ==> probes <= s.max_probes
            &&& s.max_probes == 0 ==> probes == (st.ivf->0).probes
            &&& widened == ((st.ivf->0).probes < probes)
            &&& widened ==> probes >= 2 * (st.ivf->0).probes || probes == (st.ivf->0).lists
                || probes == s.max_probes
            &&& probes <= 2 * (st.ivf->0).probes
            &&& st.current_k <= k
            &&& st.current_k <= st.n_live ==> k <= st.n_live
            &&& s.max_scan_tuples >= 1 && st.current_k <= s.max_scan_tuples ==> k
                <= s.max_scan_tuples
            &&& k > st.current_k ==> k >= 2 * st.current_k || k == st.n_live || k
                == s.max_scan_tuples
            &&& widened || k > st.current_k
        },
{
}

/// A scan is over exactly when it may not go on, or can look no further: all rows of the index are asked
/// for, or as many as `max_scan_tuples` says, and, where it searches cells, all of them or as many as
/// `max_probes` says.
pub proof fn a_scan_ends_at_its_limits(st: &ScanState, s: RefillSettings, r: Refill)
    requires
        call_ensures(ScanState::plan_refill, (st, s), r),
        st.well_formed(),
        s.iterative,
        st.loaded,
    ensures
        st.ivf is None ==> (r is Exhausted <==> st.current_k >= st.n_live || (st.current_k
            >= s.max_scan_tuples && st.current_k >= 1)),
        st.ivf is Some ==> (r is Exhausted <==> {
            &&& st.current_k >= st.n_live || (st.current_k >= s.max_scan_tuples && st.current_k
                >= 1)
            &&& (st.ivf->0).probes >= (st.ivf->0).lists || (st.ivf->0).probes >= s.max_probes
        }),
        st.ivf is None ==> !(r is Cells),
        st.ivf is Some ==> !(r is Flat),
{
}

/// Going on gives the next row in order, or asks for a search only when every row is given, or ends. A
/// search that is asked for stays within the settings. No result is lost or moved.
#[verifier::rlimit(40)]
pub proof fn going_on_keeps_to_the_settings(
    st: &mut ScanState,
    found: Option<(&[u64], &[u64])>,
    s: RefillSettings,
    r: ScanStep,
)
    requires
        call_ensures(ScanState::advance, (st, found, s), r),
        old(st).well_formed(),
    ensures
        old(st).results@.len() <= final(st).results@.len(),
        final(st).results@.take(old(st).results@.len() as int) == old(st).results@,
        final(st).distances@.len() == final(st).results@.len(),
        final(st).distances@.take(old(st).results@.len() as int) == old(st).distances@,
        found is None ==> final(st).results@ == old(st).results@ && final(st).current_k == old(st).current_k && final(st).ivf == old(st).ivf,
        final(st).n_live == old(st).n_live,
        final(st).allow == old(st).allow,
        r matches ScanStep::Emit { id } ==> {
            &&& old(st).cursor < final(st).results@.len()
            &&& id == final(st).results@[old(st).cursor as int]
            &&& final(st).cursor == old(st).cursor + 1
        },
        !(r is Emit) ==> final(st).cursor == old(st).cursor,
        found is None && old(st).cursor < old(st).results@.len() ==> r is Emit,
        r matches ScanStep::Search { refill } ==> {
            &&& old(st).cursor >= final(st).results@.len()
            &&& s.iterative
            &&& refill matches Refill::Flat { k } ==> k <= final(st).n_live && (s.max_scan_tuples
                >= 1 ==> k <= s.max_scan_tuples)
            &&& refill matches Refill::Cells { probes, widened: _, k } ==> {
                &&& s.max_scan_tuples >= 1 && final(st).current_k <= s.max_scan_tuples ==> k
                    <= s.max_scan_tuples
                &&& s.max_probes >= 1 && (final(st).ivf->0).probes <= s.max_probes ==> probes
                    <= s.max_probes
            }
            &&& !(refill is Exhausted)
        },
        found is None && old(st).cursor >= old(st).results@.len() && old(st).ivf is None && old(st).current_k >= s.max_scan_tuples && old(st).current_k >= 1 ==> r is Done,
{
    assert(final(st).results@.take(old(st).results@.len() as int) =~= old(st).results@);
    assert(final(st).distances@.take(old(st).results@.len() as int) =~= old(st).distances@);
    if found is None {
        assert(final(st).results@ =~= old(st).results@);
    }
}

/// Taking in a search keeps the number of candidates and of cells within the settings once they are.
pub proof fn searches_stay_within_the_settings(
    st: &mut ScanState,
    s: RefillSettings,
    ids: &[u64],
    distances: &[u64],
    r: bool,
)
    requires
        call_ensures(ScanState::take_refill, (st, s, ids, distances), r),
        old(st).well_formed(),
        !(old(st).refill(s) is Exhausted),
    ensures
        s.max_scan_tuples >= 1 && old(st).current_k <= s.max_scan_tuples ==> final(st).current_k
            <= s.max_scan_tuples,
        old(st).current_k <= old(st).n_live ==> final(st).current_k <= old(st).n_live,
        old(st).current_k <= final(st).current_k,
        old(st).ivf is Some ==> {
            &&& final(st).ivf is Some
            &&& (final(st).ivf->0).lists == (old(st).ivf->0).lists
            &&& (old(st).ivf->0).probes <= (final(st).ivf->0).probes <= (old(st).ivf->0).lists
            &&& s.max_probes >= 1 && (old(st).ivf->0).probes <= s.max_probes ==> (
            final(st).ivf->0).probes <= s.max_probes
        },
        final(st).cursor == old(st).cursor,
        final(st).results@.len() > old(st).results@.len() ==> r,
        final(st).results@.len() == old(st).results@.len() && final(st).ivf is None ==> r == (
        final(st).current_k < final(st).n_live && (final(st).current_k < s.max_scan_tuples
            || final(st).current_k < 1)),
{
}

/// A new scan has given nothing and knows of no index.
pub proof fn a_new_scan_is_empty(r: ScanState)
    requires
        call_ensures(ScanState::new, (), r),
    ensures
        r.emissions().len() == 0 && r.results@.len() == 0 && r.distances@.len() == 0,
        !r.fetched && !r.loaded,
        r.ivf is None && r.allow is None,
        r.current_k == 0 && r.n_live == 0 && r.query_dim == 0 && r.cursor == 0,
{
    assert(r.emissions() =~= Seq::empty());
}

/// Starting over forgets the rows of the run before. A query that is null or no vector is refused, and
/// everything stays as it was; without an order the scan is over at once.
pub proof fn starting_over_forgets_the_rows(
    st: &mut ScanState,
    order: OrderBy,
    r: Result<(), RescanError>,
)
    requires
        call_ensures(ScanState::rescan, (st, order), r),
        old(st).well_formed(),
    ensures
        r is Err <==> order is Null || order is Undecodable,
        order is Null ==> r == Err::<(), RescanError>(RescanError::NullQuery),
        order is Undecodable ==> r == Err::<(), RescanError>(RescanError::UndecodableQuery),
        r is Err ==> *final(st) == *old(st),
        r is Ok ==> {
            &&& final(st).emissions().len() == 0
            &&& final(st).results@.len() == 0 && final(st).distances@.len() == 0
            &&& final(st).fetched == (order is Absent)
            &&& !final(st).loaded
            &&& final(st).allow is None
            &&& final(st).current_k == 0
            &&& final(st).n_live == 0 && final(st).cursor == 0
            &&& order matches OrderBy::Query { dim } ==> final(st).query_dim == dim && final(st).ivf is None
            &&& order is Absent ==> final(st).query_dim == 0 && final(st).ivf == old(st).ivf
        },
{
    if r is Ok {
        assert(final(st).emissions() =~= Seq::empty());
    }
}

/// After the first search the scan holds what the search found, under the restrictions that it was made
/// with.
pub proof fn the_first_search_is_taken_in(
    st: &mut ScanState,
    n_live: usize,
    k: usize,
    ivf: Option<IvfScan>,
    allow: Option<HashSet<u64>>,
    ids: &[u64],
    distances: &[u64],
    r: (),
)
    requires
        call_ensures(ScanState::start, (st, n_live, k, ivf, allow, ids, distances), r),
        old(st).results@.len() == 0,
        old(st).distances@.len() == 0,
        ids@.len() == distances@.len(),
    ensures
        final(st).fetched && final(st).loaded,
        final(st).n_live == n_live,
        final(st).current_k == k,
        final(st).ivf == ivf,
        final(st).allow == allow,
        final(st).query_dim == old(st).query_dim,
        old(st).cursor == 0 ==> final(st).cursor == 0,
        forall|i: int| 0 <= i < ids@.len() ==> final(st).results@.contains(#[trigger] ids@[i]),
        forall|i: int|
            0 <= i < final(st).results@.len() ==> ids@.contains(#[trigger] final(st).results@[i]),
        ids@.no_duplicates() ==> final(st).results@ == ids@ && final(st).distances@ == distances@,
{
    let none = Seq::<u64>::empty();
    assert(old(st).results@ =~= none);
    assert(old(st).distances@ =~= none);
    assert(final(st).results@ =~= fresh_ids(ids@, none));
    assert(final(st).distances@ =~= fresh_distances(ids@, distances@, none));
    let picks = new_rows_come_in_the_order_found(ids@, distances@, none);
    assert forall|i: int| 0 <= i < ids@.len() implies final(st).results@.contains(
        #[trigger] ids@[i],
    ) by {
        assert(!none.contains(ids@[i]));
    }
    assert forall|i: int| 0 <= i < final(st).results@.len() implies ids@.contains(
        #[trigger] final(st).results@[i],
    ) by {
        assert(ids@[picks[i]] == fresh_ids(ids@, none)[i]);
    }
    if ids@.no_duplicates() {
        lemma_distinct_are_fresh(ids@, distances@, none);
    }
}

proof fn lemma_distinct_are_fresh(ids: Seq<u64>, distances: Seq<u64>, given: Seq<u64>)
    requires
        ids.no_duplicates(),
        ids.len() == distances.len(),
        forall|i: int| 0 <= i < ids.len() ==> !given.contains(#[trigger] ids[i]),
    ensures
        fresh_ids(ids, given) == ids,
        fresh_distances(ids, distances, given) == distances,
    decreases ids.len(),
{
    if ids.len() > 0 {
        let head = ids.drop_last();
        assert forall|i: int, j: int| 0 <= i < head.len() && 0 <= j < head.len() && i != j implies
            head[i] != head[j] by {
            assert(ids[i] != ids[j]);
        }
        assert forall|i: int| 0 <= i < head.len() implies !given.contains(#[trigger] head[i]) by {
            assert(ids[i] == head[i]);
        }
        lemma_distinct_are_fresh(head, distances.drop_last(), given);
        assert(!given.contains(ids[ids.len() - 1]));
        if head.contains(ids.last()) {
            let k = choose|k: int| 0 <= k < head.len() && head[k] == ids.last();
            assert(ids[k] != ids[ids.len() - 1]);
        }
        assert(fresh_ids(ids, given) =~= ids);
        assert(fresh_distances(ids, distances, given) =~= distances);
    } else {
        assert(fresh_ids(ids, given) =~= ids);
        assert(fresh_distances(ids, distances, given) =~= distances);
    }
}

/// What a search adds comes in the order in which it was found, each row with the distance that it was
/// found at first, and is exactly what was not there before.
#[verifier::rlimit(40)]
pub proof fn new_rows_come_in_the_order_found(
    ids: Seq<u64>,
    distances: Seq<u64>,
    given: Seq<u64>,
) -> (picks: Seq<int>)
    requires
        ids.len() == distances.len(),
    ensures
        picks.len() == fresh_ids(ids, given).len() == fresh_distances(ids, distances, given).len(),
        forall|k: int|
            0 <= k < picks.len() ==> {
                &&& 0 <= #[trigger] picks[k] < ids.len()
                &&& fresh_ids(ids, given)[k] == ids[picks[k]]
                &&& fresh_distances(ids, distances, given)[k] == distances[picks[k]]
                &&& !given.contains(ids[picks[k]])
                &&& forall|j: int| 0 <= j < picks[k] ==> #[trigger] ids[j] != ids[picks[k]]
            },
        forall|a: int, b: int| 0 <= a < b < picks.len() ==> #[trigger] picks[a] < #[trigger] picks[b],
        forall|i: int|
            0 <= i < ids.len() && !given.contains(#[trigger] ids[i]) ==> fresh_ids(
                ids,
                given,
            ).contains(ids[i]),
    decreases ids.len(),
{
    if ids.len() == 0 {
        Seq::empty()
    } else {
        let head = ids.drop_last();
        let last = ids.last();
        let n = ids.len() - 1;
        let before = new_rows_come_in_the_order_found(head, distances.drop_last(), given);
        let old_ids = fresh_ids(head, given);
        let fresh = !given.contains(last) && !head.contains(last);
        let picks = if fresh {
            before.push(n)
        } else {
            before
        };
        assert forall|k: int| 0 <= k < picks.len() implies {
            &&& 0 <= #[trigger] picks[k] < ids.len()
            &&& fresh_ids(ids, given)[k] == ids[picks[k]]
            &&& fresh_distances(ids, distances, given)[k] == distances[picks[k]]
            &&& !given.contains(ids[picks[k]])
            &&& forall|j: int| 0 <= j < picks[k] ==> #[trigger] ids[j] != ids[picks[k]]
        } by {
            if k < before.len() {
                assert(before[k] == picks[k]);
                assert(head[picks[k]] == ids[picks[k]]);
                assert forall|j: int| 0 <= j < picks[k] implies #[trigger] ids[j]
                    != ids[picks[k]] by {
                    assert(head[j] == ids[j]);
                }
            } else {
                assert forall|j: int| 0 <= j < n implies #[trigger] ids[j] != ids[n] by {
                    assert(head[j] == ids[j]);
                    assert(head.contains(head[j]));
                }
            }
        }
        assert forall|a: int, b: int| 0 <= a < b < picks.len() implies #[trigger] picks[a]
            < #[trigger] picks[b] by {
            assert(before[a] == picks[a]);
            if b < before.len() {
                assert(before[b] == picks[b]);
            }
        }
        let now = fresh_ids(ids, given);
        assert forall|i: int| 0 <= i < ids.len() && !given.contains(#[trigger] ids[i]) implies
            now.contains(ids[i]) by {
            if i < n {
                assert(head[i] == ids[i]);
                let k = choose|k: int| 0 <= k < old_ids.len() && old_ids[k] == ids[i];
                assert(now[k] == ids[i]);
            } else if fresh {
                assert(now[now.len() - 1] == last);
            } else {
                let j = choose|j: int| 0 <= j < head.len() && head[j] == last;
                assert(head[j] == ids[j]);
                let k = choose|k: int| 0 <= k < old_ids.len() && old_ids[k] == head[j];
                assert(now[k] == last);
            }
        }
        picks
    }
}

/// The next row is the one at the cursor, and giving it moves the cursor by one and changes nothing
/// else.
pub proof fn rows_are_given_in_order(st: &mut ScanState, r: Option<u64>)
    requires
        call_ensures(ScanState::next, (st,), r),
        old(st).well_formed(),
    ensures
        r is Some <==> old(st).cursor < old(st).results@.len(),
        r matches Some(id) ==> id == old(st).results@[old(st).cursor as int] && final(st).cursor
            == old(st).cursor + 1,
        r is None ==> final(st).cursor == old(st).cursor,
        final(st).results@ == old(st).results@,
        final(st).distances@ == old(st).distances@,
        final(st).current_k == old(st).current_k && final(st).ivf == old(st).ivf,
        *final(st) == (ScanState { cursor: final(st).cursor, ..*old(st) }),
{
}

/// Whether a scan can look further: it has not asked for all rows, nor for as many as `max_scan_tuples`
/// says, which counts as one where it is 0; or it searches cells, neither all of them nor as many as
/// `max_probes` says.
pub open spec fn can_look_further(st: ScanState, s: RefillSettings) -> bool {
    ||| st.current_k < st.n_live && (st.current_k < s.max_scan_tuples || st.current_k == 0)
    ||| st.ivf matches Some(v) && v.probes < v.lists && v.probes < s.max_probes
}

/// A refill raises each limit that is not reached, to twice its value as far as the settings allow.
pub proof fn refills_raise_what_can_be_raised(st: &ScanState, s: RefillSettings, r: Refill)
    requires
        call_ensures(ScanState::plan_refill, (st, s), r),
        st.well_formed(),
        s.iterative,
        st.loaded,
    ensures
        r is Exhausted <==> !can_look_further(*st, s),
        r matches Refill::Cells { probes, widened, k } ==> {
            &&& widened <==> (st.ivf->0).probes < (st.ivf->0).lists && (st.ivf->0).probes
                < s.max_probes
            &&& !widened ==> probes == (st.ivf->0).probes
            &&& k > st.current_k <==> st.current_k < st.n_live && (st.current_k < s.max_scan_tuples
                || st.current_k == 0)
            &&& k <= 2 * st.current_k || k == 1
        },
{
}

/// Whether the scan has the number of rows and of cells that a refill asked for.
pub open spec fn follows(st: ScanState, before: ScanState, refill: Refill) -> bool {
    match refill {
        Refill::Cells { probes, widened: _, k } => st.current_k == k && st.ivf == Some(
            IvfScan { probes, ..before.ivf->0 },
        ),
        Refill::Flat { k } => st.current_k == k && st.ivf == before.ivf,
        Refill::Exhausted => false,
    }
}

/// What a search found is taken in: the new rows behind those that are there, and the limits that it was
/// made with. It says whether something came or the scan can look further.
pub proof fn a_search_is_taken_in_whole(
    st: &mut ScanState,
    s: RefillSettings,
    ids: &[u64],
    distances: &[u64],
    r: bool,
    refill: Refill,
)
    requires
        call_ensures(ScanState::plan_refill, (&*old(st), s), refill),
        call_ensures(ScanState::take_refill, (st, s, ids, distances), r),
        old(st).well_formed(),
        !(refill is Exhausted),
    ensures
        final(st).results@ == old(st).results@ + fresh_ids(ids@, old(st).results@),
        final(st).distances@ == old(st).distances@ + fresh_distances(
            ids@,
            distances@,
            old(st).results@,
        ),
        follows(*final(st), *old(st), refill),
        final(st).cursor == old(st).cursor && final(st).n_live == old(st).n_live,
        r <==> final(st).results@.len() > old(st).results@.len() || can_look_further(*final(st), s),
{
}

/// Going on takes in what a search found, gives the row at the cursor where there is one, and otherwise
/// asks for the next search or ends. After a search that found nothing new, where the scan cannot look
/// further, it ends at once.
#[verifier::rlimit(40)]
pub proof fn going_on_gives_a_row_searches_or_ends(
    st: &mut ScanState,
    found: Option<(&[u64], &[u64])>,
    s: RefillSettings,
    r: ScanStep,
    refill: Refill,
    next: Refill,
)
    requires
        call_ensures(ScanState::plan_refill, (&*old(st), s), refill),
        call_ensures(ScanState::advance, (st, found, s), r),
        call_ensures(ScanState::plan_refill, (&*final(st), s), next),
        old(st).well_formed(),
        found is Some ==> !(refill is Exhausted),
    ensures
        found matches Some((ids, distances)) ==> {
            &&& final(st).results@ == old(st).results@ + fresh_ids(ids@, old(st).results@)
            &&& final(st).distances@ == old(st).distances@ + fresh_distances(
                ids@,
                distances@,
                old(st).results@,
            )
            &&& follows(*final(st), *old(st), refill)
        },
        ({
            let ended = found is Some && final(st).results@.len() == old(st).results@.len()
                && !can_look_further(*final(st), s);
            let given = old(st).cursor >= final(st).results@.len();
            &&& r is Emit <==> !ended && !given
            &&& r is Search <==> !ended && given && !(next is Exhausted)
            &&& r matches ScanStep::Search { refill: asked } ==> asked == next
        }),
{
    if found is Some {
        assert((old(st).results@ + fresh_ids((found->0).0@, old(st).results@)).len()
            == final(st).results@.len());
    } else {
        assert(final(st).results@ =~= old(st).results@);
    }
}

/// Ending a scan takes nothing from it.
pub proof fn ending_keeps_the_rows(st: &mut ScanState, r: ())
    requires
        call_ensures(ScanState::finish, (st,), r),
    ensures
        final(st).fetched,
        final(st).results@ == old(st).results@ && final(st).cursor == old(st).cursor,
        final(st).loaded == old(st).loaded,
        *final(st) == (ScanState { fetched: true, ..*old(st) }),
{
}

proof fn lemma_allowed_positions(ids: Seq<u64>, allow: Set<u64>)
    ensures
        ({
            let at = allowed_positions(ids, allow);
            &&& forall|k: int|
                0 <= k < at.len() ==> 0 <= #[trigger] at[k] < ids.len() && allow.contains(ids[at[k]])
            &&& forall|a: int, b: int| 0 <= a < b < at.len() ==> #[trigger] at[a] < #[trigger] at[b]
            &&& forall|i: int| 0 <= i < ids.len() && allow.contains(#[trigger] ids[i]) ==> at.contains(i)
        }),
    decreases ids.len(),
{
    if ids.len() > 0 {
        let head = ids.drop_last();
        lemma_allowed_positions(head, allow);
        let before = allowed_positions(head, allow);
        let at = allowed_positions(ids, allow);
        assert forall|k: int| 0 <= k < at.len() implies 0 <= #[trigger] at[k] < ids.len()
            && allow.contains(ids[at[k]]) by {
            if k < before.len() {
                assert(before[k] == at[k]);
                assert(head[at[k]] == ids[at[k]]);
            }
        }
        assert forall|a: int, b: int| 0 <= a < b < at.len() implies #[trigger] at[a]
            < #[trigger] at[b] by {
            assert(before[a] == at[a]);
            if b < before.len() {
                assert(before[b] == at[b]);
            }
        }
        assert forall|i: int| 0 <= i < ids.len() && allow.contains(#[trigger] ids[i]) implies
            at.contains(i) by {
            if i < head.len() {
                assert(head[i] == ids[i]);
                assert(before.contains(i));
                let k = choose|k: int| 0 <= k < before.len() && before[k] == i;
                assert(at[k] == i);
            } else {
                assert(at[at.len() - 1] == i);
            }
        }
    }
}

/// The filter keeps positions of allowed rows only, in the order of the search, and loses none of them:
/// an allowed row is left out only when `k` are asked for and as many allowed rows before it are kept.
pub proof fn the_filter_keeps_the_nearest_allowed_rows(
    ids: &[u64],
    allow: &HashSet<u64>,
    k: usize,
    r: Vec<usize>,
)
    requires
        call_ensures(post_filter, (ids, allow, k), r),
    ensures
        k > 0 ==> r@.len() <= k,
        forall|i: int|
            0 <= i < r@.len() ==> #[trigger] r@[i] < ids@.len() && allow@.contains(ids@[r@[i] as int]),
        forall|i: int, j: int| 0 <= i < j < r@.len() ==> #[trigger] r@[i] < #[trigger] r@[j],
        forall|p: int|
            0 <= p < ids@.len() && allow@.contains(#[trigger] ids@[p]) ==> (exists|i: int|
                0 <= i < r@.len() && #[trigger] r@[i] == p) || (k > 0 && r@.len() == k && r@[k - 1]
                < p),
{
    let all = allowed_positions(ids@, allow@);
    let kept = kept_positions(ids@, allow@, k as nat);
    lemma_allowed_positions(ids@, allow@);
    assert forall|i: int| 0 <= i < r@.len() implies #[trigger] r@[i] == all[i] by {
        assert(r@[i] == kept[i]);
    }
    assert forall|p: int| 0 <= p < ids@.len() && allow@.contains(#[trigger] ids@[p]) implies (
    exists|i: int| 0 <= i < r@.len() && #[trigger] r@[i] == p) || (k > 0 && r@.len() == k && r@[k
        - 1] < p) by {
        assert(all.contains(p));
        let q = choose|q: int| 0 <= q < all.len() && all[q] == p;
        if q < r@.len() {
            assert(r@[q] == p);
        } else {
            assert(r@.len() == k);
            assert(r@[k - 1] == all[k - 1]);
            assert(all[k - 1] < all[q]);
        }
    }
}

/// How a scan begins: with nothing where there is no meta page, with the backend's own copy where one
/// was found and the index on disk is empty or of another dimension, with an error where the
/// dimensions differ otherwise, and with the index where it has rows.
pub proof fn a_scan_begins_with_an_index_that_fits(
    meta: &Option<MetaPageData>,
    query_dim: usize,
    mirror_found: bool,
    r: Result<FirstFetch, DimMismatch>,
)
    requires
        call_ensures(first_fetch, (meta, query_dim, mirror_found), r),
    ensures
        *meta is None ==> r == Ok::<FirstFetch, DimMismatch>(FirstFetch::Finish),
        *meta matches Some(m) ==> {
            &&& r == Ok::<FirstFetch, DimMismatch>(FirstFetch::Load) <==> m.n_vectors > 0 && m.dim
                == query_dim
            &&& r == Ok::<FirstFetch, DimMismatch>(FirstFetch::UseMirror) <==> mirror_found && (
            m.n_vectors == 0 || m.dim != query_dim)
            &&& r is Err <==> !mirror_found && m.dim != query_dim
            &&& r matches Err(e) ==> e.query == query_dim && e.index == m.dim
        },
{
}

/// The backend's own copy is looked for exactly where the index on disk cannot answer.
pub proof fn copies_are_looked_for_where_the_disk_lags(
    meta: &MetaPageData,
    query_dim: usize,
    r: bool,
)
    requires
        call_ensures(wants_mirror, (meta, query_dim), r),
    ensures
        r <==> meta.n_vectors == 0 || meta.dim != query_dim,
{
}

proof fn lemma_eighths(d: int, b: int)
    requires
        d % 8 == 0,
    ensures
        8 * ((d * b) / 8) == d * b,
{
    let q = d / 8;
    assert(d == 8 * q);
    assert(d * b == 8 * (q * b)) by (nonlinear_arith)
        requires
            d == 8 * q,
    ;
}

/// The codes take the bits of all coordinates, each row in whole bytes with the rest cut off, where that
/// number can be told.
pub proof fn codes_take_their_bits(meta: &MetaPageData, r: u64)
    requires
        call_ensures(codes_bytes, (meta,), r),
    ensures
        8 * r <= meta.n_vectors * meta.dim * meta.bit_width,
        r < u64::MAX ==> meta.n_vectors * meta.dim * meta.bit_width <= 8 * r + 7 * meta.n_vectors,
        r < u64::MAX && meta.dim % 8 == 0 ==> 8 * r == meta.n_vectors * meta.dim * meta.bit_width,
{
    let n = meta.n_vectors as int;
    let d = meta.dim as int;
    let b = meta.bit_width as int;
    let per = (d * b) / 8;
    assert(d * b >= 0) by (nonlinear_arith)
        requires
            d >= 0,
            b >= 0,
    ;
    assert(8 * per <= d * b <= 8 * per + 7);
    assert(8 * (n * per) <= n * d * b <= 8 * (n * per) + 7 * n) by (nonlinear_arith)
        requires
            8 * per <= d * b <= 8 * per + 7,
            n >= 0,
    ;
    if d % 8 == 0 {
        lemma_eighths(d, b);
        assert(8 * (n * per) == n * d * b) by (nonlinear_arith)
            requires
                8 * per == d * b,
        ;
    }
    assert((meta.dim as nat * meta.bit_width as nat) / 8 == per);
    assert(r == crate::scan_load::saturating_product(n as nat, per as nat));
}

/// Cells are loaded one by one only where the settings ask for it, the index was built with cells and
/// has kept them, and its layout is a present one with a codebook.
pub proof fn cells_are_loaded_where_they_can_be(meta: &MetaPageData, settings_ask: bool, r: bool)
    requires
        call_ensures(load_by_cells, (meta, settings_ask), r),
    ensures
        r <==> settings_ask && meta.lists > 0 && !meta.ivf_degraded && meta.coarse.count > 0
            && meta.cell_dir.count > 0 && meta.version >= 3 && meta.codebook.n_levels > 0,
{
}

/// A load by cells is kept only where every table has the size that the meta page says, and counts for
/// the bytes of these tables: four for each number, eight for each id, twelve for each cell, and a
/// fixed allowance.
pub proof fn a_load_by_cells_weighs_its_tables(meta: &MetaPageData, load: CellLoad, r: Option<u64>)
    requires
        call_ensures(try_install_ooc, (meta, load), r),
        crate::scan_load::cell_load_bytes(*meta) <= u64::MAX,
    ensures
        r is Some <==> {
            &&& meta.dim > 0 && meta.lists > 0 && meta.n_vectors > 0
            &&& load.centroids == meta.lists * meta.dim
            &&& load.rotation == meta.dim * meta.dim
            &&& load.directory_rows == Some(meta.n_vectors)
            &&& load.scales == meta.n_vectors && load.ids == meta.n_vectors
        },
        r matches Some(bytes) ==> bytes == 4 * (load.centroids + load.rotation + load.scales) + 8
            * load.ids + 12 * meta.lists + 4096,
{
    if r is Some {
        let x = meta.lists * meta.dim;
        let y = meta.dim * meta.dim;
        let z = crate::scan_load::cell_load_bytes(*meta);
        assert(z >= 0) by (nonlinear_arith)
            requires
                z == meta.lists * meta.dim * 4 + meta.dim * meta.dim * 4 + meta.lists * 12
                    + meta.n_vectors * 4 + meta.n_vectors * 8 + 4096,
                meta.lists >= 0,
                meta.dim >= 0,
                meta.n_vectors >= 0,
        ;
    }
}

/// A whole index counts for its codes and for 68 bytes more per row; an empty one counts as one row.
pub proof fn a_whole_index_weighs_its_rows(dim: u32, bit_width: u8, n: u64, r: u64)
    requires
        call_ensures(whole_index_bytes, (dim, bit_width, n), r),
        crate::scan_load::whole_bytes(dim as nat, bit_width as nat, n as nat) <= u64::MAX,
    ensures
        n > 0 && dim % 8 == 0 ==> 8 * r == n * (dim * bit_width + 544),
        n == 0 && dim % 8 == 0 ==> 8 * r == dim * bit_width + 544,
        n > 0 ==> n * (dim * bit_width + 544) - 7 * n <= 8 * r <= n * (dim * bit_width + 544),
        n == 0 ==> dim * bit_width + 537 <= 8 * r <= dim * bit_width + 544,
{
    let d = dim as int;
    let b = bit_width as int;
    let per = (d * b) / 8;
    assert(d * b >= 0) by (nonlinear_arith)
        requires
            d >= 0,
            b >= 0,
    ;
    assert(8 * per <= d * b <= 8 * per + 7);
    if d % 8 == 0 {
        lemma_eighths(d, b);
    }
    assert((dim as nat * bit_width as nat) / 8 == per);
    if n > 0 {
        if d % 8 == 0 {
            assert(8 * ((per + 68) * n) == n * (d * b + 544)) by (nonlinear_arith)
                requires
                    8 * per == d * b,
            ;
        }
        assert(n * (d * b + 544) - 7 * n <= 8 * ((per + 68) * n) <= n * (d * b + 544))
            by (nonlinear_arith)
            requires
                8 * per <= d * b <= 8 * per + 7,
                n > 0,
        ;
        assert(r == (per + 4 + 64) * n);
    } else {
        assert(r == (per + 4 + 64) * 1);
    }
}

/// The first search asks for what is wished, as far as there are rows, and for at least one.
pub proof fn the_first_search_asks_for_what_there_is(wished: usize, n_live: usize, r: usize)
    requires
        call_ensures(first_k, (wished, n_live), r),
    ensures
        wished == 0 || n_live == 0 ==> r == 1,
        1 <= wished <= n_live ==> r == wished,
        1 <= n_live <= wished ==> r == n_live,
{
}

/// A scan is restricted to cells only where the index has kept them and they account for every row that
/// is searched, and then to as many as asked for, within the number that there is.
pub proof fn a_scan_of_cells_loses_no_row(
    meta: &Option<MetaPageData>,
    load: CellLoad,
    n_live: usize,
    probes: usize,
    r: Option<IvfScan>,
)
    requires
        call_ensures(ivf_setup, (meta, load, n_live, probes), r),
    ensures
        r is Some <==> {
            &&& *meta is Some
            &&& (*meta)->0.lists > 0 && !(*meta)->0.ivf_degraded
            &&& (*meta)->0.coarse.count > 0 && (*meta)->0.cell_dir.count > 0
            &&& load.centroids == (*meta)->0.lists * (*meta)->0.dim
            &&& load.rotation == (*meta)->0.dim * (*meta)->0.dim
            &&& load.directory_rows == Some(n_live as u64)
        },
        r matches Some(v) ==> {
            &&& v.lists == (*meta)->0.lists
            &&& 1 <= v.probes <= v.lists
            &&& 1 <= probes <= v.lists ==> v.probes == probes
            &&& probes > v.lists ==> v.probes == v.lists
            &&& probes == 0 ==> v.probes == 1
        },
{
}

/// A search that is filtered afterwards asks for eight times as many rows as are wanted, or for all
/// where there are fewer, and never for fewer than are wanted.
pub proof fn a_filtered_search_asks_for_more(k: usize, n: usize, r: usize)
    requires
        call_ensures(widened_k, (k, n), r),
    ensures
        r >= k,
        n <= k ==> r == k,
        k <= n && 8 * k <= n ==> r == 8 * k,
        k <= n <= 8 * k ==> r == n,
{
}

/// A warning about an index comes the first time and not again, and none is taken back.
pub proof fn warnings_come_once(warned: &mut HashSet<u32>, index: u32, r: bool)
    requires
        call_ensures(first_warning, (warned, index), r),
    ensures
        r <==> !old(warned)@.contains(index),
        final(warned)@.contains(index),
        forall|other: u32|
            other != index ==> (#[trigger] final(warned)@.contains(other) <==> old(warned)@.contains(other)),
{
}

} // verus!
