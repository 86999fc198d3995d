//! What holds of every request: row numbers, refusals, what is searched, what is ranked, what is kept
//! and what is flushed.
use vstd::prelude::*;

use crate::float_bits::{finite_f32, lemma_finite, nan_f64, value_f64};
use crate::knn::{
    after_collect, after_lookup, allows, cache_bytes, check_knn, flat_of, hit_rows, id_list_is_unique,
    index_input,
    plan_search, search_ids, take_of, KnnError, SearchPlan,
};
use crate::normalize::{check_self_score, random_unit_dim, SelfScoreError};
use crate::partition::{
    check_refresh, is_ranking, is_usable, keys_of, lemma_ranking_covers, lowered, may_measure,
    measured_as, nearest_of, nearest_partitions, rank_distances, rank_nearest, row_values, usable_row,
    Metric, PartitionError, RefreshError,
};
use crate::phase2_knn::{
    ctid_to_u64, doubled, invalidate, invalidate_all, parse_ctid_text, quote_ident, quoted,
    u64_to_ctid, without_closing, without_opening, without_table, CacheEntry, IndexCache,
};
use crate::relfile::{first_bad, lemma_first_bad};
use crate::text::{
    decimal, decimal_reads_back, lemma_decimal_digits, lemma_tight, lemma_split_last,
    lemma_split_none, split, trimmed, unsigned_value,
};
use crate::tid::{
    from_id, id_of, item_pointer_to_u64, tid_to_bigint, to_id, u64_to_item_pointer, ItemPointer,
};
use crate::write_laws::{is_improper, lemma_first_improper};
use crate::xact::{
    first_faulty, pre_commit, reconciled_row_count, snapshot_fault, validate_flush_snapshot,
    DirtyIndex, SnapshotError, XactAction, XactEvent, XactHooks,
};

verus! {

/// The identifier of a row has its block in the upper half and its offset in the lower, and is unpacked
/// to the row again.
pub proof fn row_identifiers_are_undone(ip: ItemPointer, id: u64, back: ItemPointer)
    requires
        call_ensures(item_pointer_to_u64, (ip,), id),
        call_ensures(u64_to_item_pointer, (id,), back),
    ensures
        back == ip,
        id / 0x1_0000_0000 == ip.block,
        id % 0x1_0000_0000 == ip.offset,
{
}

/// Rows have identifiers in the order of their blocks, and of their offsets inside a block.
pub proof fn row_identifiers_are_ordered(a: ItemPointer, b: ItemPointer, ra: u64, rb: u64)
    requires
        call_ensures(item_pointer_to_u64, (a,), ra),
        call_ensures(item_pointer_to_u64, (b,), rb),
    ensures
        ra < rb <==> a.block < b.block || (a.block == b.block && a.offset < b.offset),
        ra == rb <==> a == b,
{
}

/// A number and its identifier are the same modulo 2 to the 64th, and each is got back from the other.
pub proof fn numbers_and_identifiers_agree(v: i64, id: u64, back: i64)
    requires
        call_ensures(to_id, (v,), id),
        call_ensures(from_id, (id,), back),
    ensures
        back == v,
        v >= 0 ==> id == v,
        v < 0 ==> id == v + 0x1_0000_0000_0000_0000,
{
}

/// Queries see a row under the number of its identifier.
pub proof fn queries_see_the_identifier(ip: ItemPointer, r: i64, id: u64)
    requires
        call_ensures(tid_to_bigint, (ip,), r),
        call_ensures(item_pointer_to_u64, (ip,), id),
    ensures
        r == id || r == id - 0x1_0000_0000_0000_0000,
{
}

/// The number of a row in a table has its offset in the lowest sixteen bits and its block above them,
/// rises with the row, and gives the row back.
pub proof fn row_numbers_are_undone(ip: ItemPointer, r: u64, back: ItemPointer)
    requires
        call_ensures(ctid_to_u64, (ip,), r),
        call_ensures(u64_to_ctid, (r,), back),
    ensures
        back == ip,
        r / 0x1_0000 == ip.block,
        r % 0x1_0000 == ip.offset,
{
}

proof fn lemma_digits_stay(n: nat)
    ensures
        without_opening(decimal(n)) == decimal(n),
        without_closing(decimal(n)) == decimal(n),
        decimal(n).len() >= 1,
{
    decimal_reads_back(n);
    lemma_decimal_digits(n, decimal(n)[0]);
    lemma_decimal_digits(n, decimal(n).last());
    assert(decimal(n).contains(decimal(n)[0]));
    assert(decimal(n).contains(decimal(n)[decimal(n).len() - 1]));
}

/// The text of a row, in brackets with a comma between, is read as the number of the row.
pub proof fn the_text_of_a_row_is_read_as_its_number(
    block: u32,
    offset: u16,
    s: &str,
    r: u64,
    n: u64,
)
    requires
        call_ensures(parse_ctid_text, (s,), r),
        call_ensures(ctid_to_u64, (ItemPointer { block, offset },), n),
        s@ == (seq!['('] + decimal(block as nat)).push(',') + decimal(offset as nat).push(')'),
    ensures
        r == n,
{
    let b = decimal(block as nat);
    let o = decimal(offset as nat);
    let inner = b.push(',') + o;
    decimal_reads_back(block as nat);
    decimal_reads_back(offset as nat);
    lemma_decimal_digits(block as nat, ',');
    lemma_decimal_digits(offset as nat, ',');
    lemma_decimal_digits(block as nat, b[0]);
    lemma_decimal_digits(offset as nat, o.last());
    assert(b.contains(b[0]) && o.contains(o[o.len() - 1]));
    lemma_tight(s@);
    lemma_tight(b);
    lemma_tight(o);
    assert(s@.drop_first() =~= inner.push(')'));
    assert(inner.push(')')[0] == b[0]);
    assert(without_opening(s@) == without_opening(s@.drop_first()));
    assert(without_opening(inner.push(')')) == inner.push(')'));
    assert(inner.push(')').drop_last() =~= inner);
    assert(inner.last() == o.last());
    assert(without_closing(inner.push(')')) == without_closing(inner));
    assert(without_closing(inner) == inner);
    lemma_split_last(b, ',', o);
    lemma_split_none(b, ',');
    assert(split(inner, ',') =~= seq![b, o]);
}

/// Dropping the indexes of a table keeps all others, in their order, and nothing else.
pub proof fn other_tables_keep_their_indexes<I>(cache: &mut IndexCache<I>, rel_oid: u32, r: ())
    requires
        call_ensures(invalidate::<I>, (cache, rel_oid), r),
    ensures
        final(cache).entries@ == old(cache).entries@.filter(
            |e: CacheEntry<I>| e.key.rel_oid != rel_oid,
        ),
{
    lemma_without_is_filter(old(cache).entries@, rel_oid);
}

proof fn lemma_without_is_filter<I>(entries: Seq<CacheEntry<I>>, rel_oid: u32)
    ensures
        without_table(entries, rel_oid) == entries.filter(
            |e: CacheEntry<I>| e.key.rel_oid != rel_oid,
        ),
    decreases entries.len(),
{
    reveal(Seq::filter);
    if entries.len() > 0 {
        lemma_without_is_filter(entries.drop_last(), rel_oid);
    }
}

/// Dropping everything keeps nothing.
pub proof fn dropping_everything_keeps_nothing<I>(cache: &mut IndexCache<I>, r: ())
    requires
        call_ensures(invalidate_all::<I>, (cache,), r),
    ensures
        final(cache).entries@ == Seq::<CacheEntry<I>>::empty(),
{
    assert(final(cache).entries@ =~= Seq::<CacheEntry<I>>::empty());
}

/// A quoted name is the name between two quotes, with each quote in it doubled: `at` tells where each
/// character of the name stands.
pub proof fn quotes_are_doubled(name: &str, r: String) -> (at: Seq<int>)
    requires
        call_ensures(quote_ident, (name,), r),
    ensures
        r@.len() >= 2,
        r@[0] == '"' && r@[r@.len() - 1] == '"',
        at.len() == name@.len() + 1,
        at[0] == 1,
        at[name@.len() as int] == r@.len() - 1,
        forall|i: int|
            0 <= i < name@.len() ==> {
                &&& 1 <= #[trigger] at[i] < r@.len() - 1
                &&& r@[at[i]] == name@[i]
                &&& name@[i] == '"' ==> r@[at[i] + 1] == '"' && at[i + 1] == at[i] + 2
                &&& name@[i] != '"' ==> at[i + 1] == at[i] + 1
            },
{
    let inner = doubled(name@);
    let places = lemma_doubled_places(name@);
    let at = places.map_values(|p: int| p + 1);
    assert(r@ == quoted(name@));
    assert(r@.len() == inner.len() + 2);
    assert forall|p: int| 0 <= p < inner.len() implies r@[p + 1] == #[trigger] inner[p] by {}
    assert forall|i: int| 0 <= i < name@.len() implies {
        &&& 1 <= #[trigger] at[i] < r@.len() - 1
        &&& r@[at[i]] == name@[i]
        &&& name@[i] == '"' ==> r@[at[i] + 1] == '"' && at[i + 1] == at[i] + 2
        &&& name@[i] != '"' ==> at[i + 1] == at[i] + 1
    } by {
        assert(at[i] == places[i] + 1 && at[i + 1] == places[i + 1] + 1);
        assert(r@[places[i] + 1] == inner[places[i]]);
        if name@[i] == '"' {
            assert(r@[places[i] + 2] == inner[places[i] + 1]);
        }
    }
    at
}

proof fn lemma_doubled_places(s: Seq<char>) -> (places: Seq<int>)
    ensures
        places.len() == s.len() + 1,
        places[0] == 0,
        places[s.len() as int] == doubled(s).len(),
        forall|i: int|
            0 <= i < s.len() ==> {
                &&& 0 <= #[trigger] places[i] < doubled(s).len()
                &&& doubled(s)[places[i]] == s[i]
                &&& s[i] == '"' ==> places[i] + 1 < doubled(s).len() && doubled(s)[places[i] + 1]
                    == '"' && places[i + 1] == places[i] + 2
                &&& s[i] != '"' ==> places[i + 1] == places[i] + 1
            },
    decreases s.len(),
{
    if s.len() == 0 {
        seq![0int]
    } else {
        let head = s.drop_last();
        let before = lemma_doubled_places(head);
        let out = doubled(s);
        let places = before.push(out.len() as int);
        assert forall|i: int| 0 <= i < s.len() implies {
            &&& 0 <= #[trigger] places[i] < out.len()
            &&& out[places[i]] == s[i]
            &&& s[i] == '"' ==> places[i] + 1 < out.len() && out[places[i] + 1] == '"' && places[i
                + 1] == places[i] + 2
            &&& s[i] != '"' ==> places[i + 1] == places[i] + 1
        } by {
            assert(places[i] == before[i]);
            if i < head.len() {
                assert(places[i + 1] == before[i + 1]);
                assert(head[i] == s[i]);
                assert(doubled(head)[before[i]] == head[i]);
            } else {
                assert(before[i] == doubled(head).len());
            }
        }
        places
    }
}

/// A search is made for a positive number of neighbours, of a bit width of 2, 3 or 4, in a multiple of
/// eight dimensions; the first of these that does not hold is named.
pub proof fn searches_are_checked(k: i32, bit_width: i32, dim: usize, r: Result<(), KnnError>)
    requires
        call_ensures(check_knn, (k, bit_width, dim), r),
    ensures
        r is Ok <==> k >= 1 && (bit_width == 2 || bit_width == 3 || bit_width == 4) && dim % 8 == 0,
        r == Err::<(), KnnError>(KnnError::NonPositiveK) <==> k < 1,
        r == Err::<(), KnnError>(KnnError::BadBitWidth) <==> k >= 1 && !(bit_width == 2 || bit_width
            == 3 || bit_width == 4),
        r == Err::<(), KnnError>(KnnError::DimNotMultipleOfEight) <==> k >= 1 && (bit_width == 2
            || bit_width == 3 || bit_width == 4) && dim % 8 != 0,
{
}

/// Whether an id is that of one of these numbers.
pub open spec fn is_id_in(id: u64, numbers: Seq<i64>) -> bool {
    exists|i: int|
        0 <= i < numbers.len() && if #[trigger] numbers[i] >= 0 {
            id == numbers[i]
        } else {
            id == numbers[i] + 0x1_0000_0000_0000_0000
        }
}

/// The ids to search are those of the allowed numbers, each once, in rising order.
pub proof fn the_allowed_numbers_are_searched(allowed: &[i64], r: Vec<u64>)
    requires
        call_ensures(search_ids, (allowed,), r),
    ensures
        forall|i: int, j: int| 0 <= i < j < r@.len() ==> #[trigger] r@[i] < #[trigger] r@[j],
        forall|i: int| 0 <= i < allowed@.len() ==> r@.contains(#[trigger] id_of(allowed@[i])),
        forall|j: int| 0 <= j < r@.len() ==> is_id_in(#[trigger] r@[j], allowed@),
{
    assert forall|i: int| 0 <= i < allowed@.len() implies r@.contains(
        #[trigger] id_of(allowed@[i]),
    ) by {
        assert(allows(allowed@, id_of(allowed@[i])));
    }
    assert forall|j: int| 0 <= j < r@.len() implies is_id_in(#[trigger] r@[j], allowed@) by {
        assert(r@.contains(r@[j]));
        assert(allows(allowed@, r@[j]));
        let i = choose|i: int|
            0 <= i < allowed@.len() && id_of(#[trigger] allowed@[i]) == r@[j];
        assert(id_of(allowed@[i]) == r@[j]);
    }
}

/// Nothing is searched where nothing is asked for, there are no rows, or none is allowed; all rows where
/// nothing limits them; and otherwise the allowed ones, for no more than there are of them.
pub proof fn what_is_searched_is_allowed(
    k: usize,
    len: usize,
    allowed: Option<&[i64]>,
    r: SearchPlan,
)
    requires
        call_ensures(plan_search, (k, len, allowed), r),
    ensures
        r is Nothing <==> k == 0 || len == 0 || (allowed matches Some(list) && list@.len() == 0),
        r is All <==> k > 0 && len > 0 && allowed is None,
        r matches SearchPlan::All { k: n } ==> n == k,
        r matches SearchPlan::Among { k: n, ids } ==> {
            &&& allowed is Some
            &&& n <= k && n <= ids@.len() && (n == k || n == ids@.len())
            &&& forall|i: int|
                0 <= i < (allowed->0)@.len() ==> ids@.contains(#[trigger] id_of((allowed->0)@[i]))
            &&& forall|j: int|
                0 <= j < ids@.len() ==> is_id_in(#[trigger] ids@[j], (allowed->0)@)
        },
{
    if let SearchPlan::Among { k: n, ids } = r {
        let list = (allowed->0)@;
        assert forall|i: int| 0 <= i < list.len() implies ids@.contains(
            #[trigger] id_of(list[i]),
        ) by {
            assert(allows(list, id_of(list[i])));
        }
        assert forall|j: int| 0 <= j < ids@.len() implies is_id_in(#[trigger] ids@[j], list) by {
            assert(ids@.contains(ids@[j]));
            assert(allows(list, ids@[j]));
            let i = choose|i: int| 0 <= i < list.len() && id_of(#[trigger] list[i]) == ids@[j];
            assert(id_of(list[i]) == ids@[j]);
        }
    }
}

/// As many neighbours are looked for as asked for, where there are as many rows, and else as many as
/// there are rows.
pub proof fn no_more_is_looked_for_than_there_is(k: i32, len: usize, r: usize)
    requires
        call_ensures(take_of, (k, len), r),
        k > 0,
    ensures
        r <= k && r <= len,
        r == k || r == len,
{
}

/// A kept index is searched for as many rows as asked for, as far as it has them; without one the rows
/// are collected.
pub proof fn a_kept_index_is_searched(
    k: i32,
    cached: Option<usize>,
    allowed: Option<&[i64]>,
    r: Option<SearchPlan>,
)
    requires
        call_ensures(after_lookup, (k, cached, allowed), r),
        k > 0,
    ensures
        r is Some <==> cached is Some,
        r matches Some(SearchPlan::All { k: n }) ==> allowed is None && n <= k && n <= cached->0
            && (n == k || n == cached->0),
        r matches Some(SearchPlan::Among { k: n, ids }) ==> allowed is Some && n <= k && n
            <= cached->0 && n <= ids@.len(),
        r matches Some(SearchPlan::Nothing) ==> cached->0 == 0 || (allowed matches Some(list)
            && list@.len() == 0),
{
}

proof fn lemma_eighth(dim: nat, bits: nat)
    requires
        dim % 8 == 0,
    ensures
        8 * (dim * bits / 8) == dim * bits,
{
    let q = dim / 8;
    assert(dim * bits == 8 * (q * bits)) by (nonlinear_arith)
        requires
            dim == 8 * q,
    ;
}

/// Rows that were collected are searched as a kept index would be, and the index that is built of them
/// weighs its codes and 68 bytes more for each row.
pub proof fn a_built_index_weighs_its_rows(
    k: i32,
    dim: usize,
    bit_width: usize,
    rows: usize,
    allowed: Option<&[i64]>,
    r: Option<(usize, SearchPlan)>,
)
    requires
        call_ensures(after_collect, (k, dim, bit_width, rows, allowed), r),
        k > 0,
        dim % 8 == 0,
    ensures
        r is Some <==> rows > 0,
        r matches Some((bytes, plan)) ==> {
            &&& 8 * bytes == rows * (dim * bit_width + 544)
            &&& plan matches SearchPlan::All { k: n } ==> n <= k && n <= rows && (n == k || n
                == rows)
            &&& plan is Nothing ==> (allowed matches Some(list) && list@.len() == 0)
        },
{
    if r is Some {
        let per = (dim as nat) * (bit_width as nat) / 8;
        lemma_eighth(dim as nat, bit_width as nat);
        let n = rows as nat;
        let all = (dim as nat) * (bit_width as nat);
        assert(8 * ((per + 4 + 64) * n) == n * (all + 544)) by (nonlinear_arith)
            requires
                8 * per == all,
        ;
    }
}

/// An index weighs its codes and 68 bytes more for each row.
pub proof fn an_index_weighs_its_rows(dim: usize, bit_width: usize, rows: usize, r: usize)
    requires
        call_ensures(cache_bytes, (dim, bit_width, rows), r),
        dim % 8 == 0,
    ensures
        8 * r == rows * (dim * bit_width + 544),
{
    let per = (dim as nat) * (bit_width as nat) / 8;
    lemma_eighth(dim as nat, bit_width as nat);
    let n = rows as nat;
    let all = (dim as nat) * (bit_width as nat);
    assert(8 * ((per + 4 + 64) * n) == n * (all + 544)) by (nonlinear_arith)
        requires
            8 * per == all,
    ;
}

/// The coordinates of row `i`, of `dim` each, in a table of rows.
pub open spec fn piece(flat: Seq<u32>, i: int, dim: nat) -> Seq<u32> {
    flat.subrange(i * dim, i * dim + dim)
}

/// An index is built of the coordinates of each row, in order, row behind row, and of the ids of the
/// rows.
pub proof fn an_index_is_built_of_every_row(
    rows: &[(i64, Vec<u32>)],
    dim: nat,
    r: (Vec<u32>, Vec<u64>),
)
    requires
        call_ensures(index_input, (rows,), r),
        forall|i: int| 0 <= i < rows@.len() ==> (#[trigger] rows@[i]).1@.len() == dim,
    ensures
        r.0@.len() == rows@.len() * dim,
        r.1@.len() == rows@.len(),
        forall|i: int|
            0 <= i < rows@.len() ==> #[trigger] r.1@[i] == id_of(rows@[i].0) && piece(
                r.0@,
                i,
                dim,
            ) == rows@[i].1@,
{
    lemma_flat_rows(rows@, dim);
}

proof fn lemma_flat_rows(rows: Seq<(i64, Vec<u32>)>, dim: nat)
    requires
        forall|i: int| 0 <= i < rows.len() ==> (#[trigger] rows[i]).1@.len() == dim,
    ensures
        flat_of(rows).len() == rows.len() * dim,
        forall|i: int|
            0 <= i < rows.len() ==> #[trigger] piece(flat_of(rows), i, dim) == rows[i].1@,
    decreases rows.len(),
{
    if rows.len() == 0 {
        assert(rows.len() * dim == 0) by (nonlinear_arith)
            requires
                rows.len() == 0,
        ;
    } else {
        let head = rows.drop_last();
        assert forall|i: int| 0 <= i < head.len() implies (#[trigger] head[i]).1@.len() == dim by {
            assert(head[i] == rows[i]);
        }
        lemma_flat_rows(head, dim);
        let k = head.len() as int;
        assert(rows.len() * dim == k * dim + dim) by (nonlinear_arith)
            requires
                rows.len() == k + 1,
        ;
        let flat = flat_of(rows);
        assert(rows[rows.len() - 1].1@.len() == dim);
        assert forall|i: int| 0 <= i < rows.len() implies #[trigger] piece(flat, i, dim)
            == rows[i].1@ by {
            assert(0 <= i * dim) by (nonlinear_arith)
                requires
                    i >= 0,
            ;
            if i < k {
                assert(head[i] == rows[i]);
                assert(piece(flat_of(head), i, dim) == head[i].1@);
                assert(i * dim + dim <= k * dim) by (nonlinear_arith)
                    requires
                        i + 1 <= k,
                ;
                assert(piece(flat, i, dim) =~= piece(flat_of(head), i, dim));
            } else {
                assert(piece(flat, i, dim) =~= rows[i].1@);
            }
        }
    }
}

/// An answer has the rows that were found, in order, each under the number of its id and with its score.
pub proof fn an_answer_has_what_was_found(ids: &[u64], scores: &[u64], r: Vec<(i64, u64)>)
    requires
        call_ensures(hit_rows, (ids, scores), r),
        ids@.len() == scores@.len(),
    ensures
        r@.len() == ids@.len(),
        forall|i: int|
            0 <= i < r@.len() ==> {
                &&& (#[trigger] r@[i]).1 == scores@[i]
                &&& r@[i].0 == ids@[i] || r@[i].0 == ids@[i] - 0x1_0000_0000_0000_0000
            },
{
    assert forall|i: int| 0 <= i < r@.len() implies {
        &&& (#[trigger] r@[i]).1 == scores@[i]
        &&& r@[i].0 == ids@[i] || r@[i].0 == ids@[i] - 0x1_0000_0000_0000_0000
    } by {
        assert(id_of(r@[i].0) == ids@[i]);
    }
}

/// A vector is scored against itself in a multiple of eight dimensions, at a bit width of 2, 3 or 4.
pub proof fn self_scores_are_checked(dim: usize, bit_width: i32, r: Result<(), SelfScoreError>)
    requires
        call_ensures(check_self_score, (dim, bit_width), r),
    ensures
        r is Ok <==> dim % 8 == 0 && (bit_width == 2 || bit_width == 3 || bit_width == 4),
        r == Err::<(), SelfScoreError>(SelfScoreError::DimNotMultipleOfEight) <==> dim % 8 != 0,
{
}

/// Random vectors have between one and sixteen thousand dimensions, namely as many as asked for.
pub proof fn random_vectors_have_the_dimensions_asked_for(dim: i32, r: Option<usize>)
    requires
        call_ensures(random_unit_dim, (dim,), r),
    ensures
        r is Some <==> 1 <= dim <= 16_000,
        r matches Some(n) ==> n == dim,
{
}

/// Whether two texts are the same but for capital letters of the basic alphabet in the first.
pub open spec fn same_but_for_capitals(s: Seq<char>, name: Seq<char>) -> bool {
    &&& s.len() == name.len()
    &&& forall|i: int|
        0 <= i < s.len() ==> if 'A' <= #[trigger] s[i] <= 'Z' {
            name[i] as int == s[i] as int + 32
        } else {
            name[i] == s[i]
        }
}

proof fn lemma_lowered(s: Seq<char>, name: Seq<char>)
    ensures
        lowered(s) == name <==> same_but_for_capitals(s, name),
{
    assert forall|i: int| 0 <= i < s.len() implies (if 'A' <= #[trigger] s[i] <= 'Z' {
        lowered(s)[i] as int == s[i] as int + 32
    } else {
        lowered(s)[i] == s[i]
    }) by {}
    if same_but_for_capitals(s, name) {
        assert forall|i: int| 0 <= i < s.len() implies lowered(s)[i] == name[i] by {
            assert(if 'A' <= s[i] <= 'Z' {
                name[i] as int == s[i] as int + 32
            } else {
                name[i] == s[i]
            });
        }
        assert(lowered(s) =~= name);
    }
}

/// A metric is known under its operator and its names, in capitals or not, with white space around or
/// not, and under no others.
pub proof fn metrics_are_known_by_name(s: &str, r: Option<Metric>)
    requires
        call_ensures(Metric::parse, (s,), r),
    ensures
        ({
            let t = trimmed(s@);
            &&& r == Some(Metric::Cosine) <==> same_but_for_capitals(t, "<=>"@)
                || same_but_for_capitals(t, "cosine"@) || same_but_for_capitals(t, "cos"@)
            &&& r == Some(Metric::L2) <==> same_but_for_capitals(t, "<->"@)
                || same_but_for_capitals(t, "l2"@) || same_but_for_capitals(t, "euclidean"@)
            &&& r == Some(Metric::NegInnerProduct) <==> same_but_for_capitals(t, "<#>"@)
                || same_but_for_capitals(t, "ip"@) || same_but_for_capitals(t, "inner_product"@)
                || same_but_for_capitals(t, "neg_ip"@)
        }),
{
    let t = trimmed(s@);
    reveal_strlit("<=>");
    reveal_strlit("cosine");
    reveal_strlit("cos");
    reveal_strlit("<->");
    reveal_strlit("l2");
    reveal_strlit("euclidean");
    reveal_strlit("<#>");
    reveal_strlit("ip");
    reveal_strlit("inner_product");
    reveal_strlit("neg_ip");
    lemma_lowered(t, "<=>"@);
    lemma_lowered(t, "cosine"@);
    lemma_lowered(t, "cos"@);
    lemma_lowered(t, "<->"@);
    lemma_lowered(t, "l2"@);
    lemma_lowered(t, "euclidean"@);
    lemma_lowered(t, "<#>"@);
    lemma_lowered(t, "ip"@);
    lemma_lowered(t, "inner_product"@);
    lemma_lowered(t, "neg_ip"@);
    assert("<=>"@[1] != "<->"@[1]);
    assert("<=>"@[1] != "<#>"@[1]);
    assert("<->"@[1] != "<#>"@[1]);
    assert("l2"@[0] != "ip"@[0]);
    assert("cosine"@[0] != "neg_ip"@[0]);
    assert("cos"@[0] != "<->"@[0]);
    assert("cos"@[0] != "<#>"@[0]);
}

/// Ranking gives the keys of the nearest distances, nearest first: no more than asked for, as many as
/// there are otherwise, each place once. A place comes before another where its distance is less; of
/// equal distances the earlier place comes first; what is no number comes last. `order` tells the place
/// of each key, those left out included.
pub proof fn the_nearest_come_first<K: Copy>(
    keys: &[K],
    distances: &[u64],
    k: usize,
    r: Vec<K>,
) -> (order: Seq<int>)
    requires
        call_ensures(rank_distances::<K>, (keys, distances, k), r),
        keys@.len() == distances@.len(),
    ensures
        r@.len() <= k && r@.len() <= keys@.len(),
        r@.len() == k || r@.len() == keys@.len(),
        order.len() == keys@.len(),
        forall|p: int| 0 <= p < keys@.len() ==> #[trigger] order.contains(p),
        forall|m: int| 0 <= m < order.len() ==> 0 <= #[trigger] order[m] < keys@.len(),
        forall|m: int| 0 <= m < r@.len() ==> #[trigger] r@[m] == keys@[order[m]],
        forall|m: int, n: int|
            0 <= m < n < order.len() ==> {
                let a = distances@[#[trigger] order[m]];
                let b = distances@[#[trigger] order[n]];
                &&& order[m] != order[n]
                &&& nan_f64(a) ==> nan_f64(b)
                &&& !nan_f64(a) && !nan_f64(b) ==> value_f64(a) <= value_f64(b)
                &&& nan_f64(a) || (!nan_f64(b) && value_f64(a) == value_f64(b)) ==> order[m]
                    < order[n]
            },
{
    let order = choose|order: Seq<int>| #[trigger]
        is_ranking(order, distances@) && r@ == nearest_of(keys@, order, k as nat);
    assert forall|p: int| 0 <= p < keys@.len() implies #[trigger] order.contains(p) by {
        lemma_ranking_covers(order, distances@, p);
    }
    order
}

/// A row is used only where it has the expected dimensions and a finite number in each, and then as it
/// is.
pub proof fn only_whole_rows_are_used(
    row: &[Option<u32>],
    expected_dim: usize,
    r: Option<Vec<u32>>,
)
    requires
        call_ensures(usable_row, (row, expected_dim), r),
    ensures
        r is Some <==> row@.len() == expected_dim && forall|i: int|
            0 <= i < row@.len() ==> (#[trigger] row@[i] matches Some(bits) && bits % 0x8000_0000
                < 0x7f80_0000),
        r matches Some(v) ==> v@.len() == row@.len() && forall|i: int|
            0 <= i < row@.len() ==> #[trigger] row@[i] == Some(v@[i]),
{
    assert forall|i: int| 0 <= i < row@.len() && (#[trigger] row@[i]) is Some implies (finite_f32(
        row@[i]->0,
    ) <==> row@[i]->0 % 0x8000_0000 < 0x7f80_0000) by {
        lemma_finite(row@[i]->0);
    }
    if r is Some {
        assert(is_usable(row@, expected_dim as int));
        assert forall|i: int| 0 <= i < row@.len() implies #[trigger] row@[i] == Some(
            (r->0)@[i],
        ) by {
            assert((r->0)@[i] == row@[i]->0);
        }
    } else {
        assert(!is_usable(row@, expected_dim as int));
    }
}

/// A row keeps its coordinates; a missing one counts as what is given for it.
pub proof fn missing_coordinates_are_filled(row: &[Option<u32>], missing: u32, r: Vec<u32>)
    requires
        call_ensures(row_values, (row, missing), r),
    ensures
        r@.len() == row@.len(),
        forall|i: int|
            0 <= i < row@.len() ==> (#[trigger] row@[i] matches Some(bits) ==> r@[i] == bits) && (
            row@[i] is None ==> r@[i] == missing),
{
}

/// Summaries are refreshed only where there are rows, and partitions.
pub proof fn refreshes_are_checked(dim: usize, partitions: usize, r: Result<(), RefreshError>)
    requires
        call_ensures(check_refresh, (dim, partitions), r),
    ensures
        r is Ok <==> dim > 0 && partitions > 0,
        r == Err::<(), RefreshError>(RefreshError::NoRows) <==> dim == 0,
{
}

/// The row count that goes to disk is the number of rows, and only where the mirror agrees.
pub proof fn row_counts_agree(mirror: i64, rows: usize, r: Result<u64, (i64, usize)>)
    requires
        call_ensures(reconciled_row_count, (mirror, rows), r),
    ensures
        r is Ok <==> mirror == rows,
        r matches Ok(n) ==> n == rows && n == mirror,
        r matches Err(e) ==> e == (mirror, rows),
{
}

/// Whether an index may be flushed: as many ids as the mirror says, none zero, none twice.
pub open spec fn flushable(mirror: i64, ids: Seq<u64>) -> bool {
    &&& mirror == ids.len()
    &&& forall|i: int| 0 <= i < ids.len() ==> #[trigger] ids[i] != 0
    &&& forall|i: int, j: int| 0 <= i < j < ids.len() ==> #[trigger] ids[i] != #[trigger] ids[j]
}

proof fn lemma_flushable(mirror: i64, ids: Seq<u64>)
    ensures
        snapshot_fault(mirror, ids) is None <==> flushable(mirror, ids),
{
    lemma_first_bad(ids);
    if let Some(slot) = first_bad(ids) {
        if ids[slot] != 0 {
            let j = choose|j: int| 0 <= j < slot && ids.take(slot)[j] == ids[slot];
            assert(ids[j] == ids[slot]);
        }
    } else if mirror == ids.len() {
        assert forall|i: int| 0 <= i < ids.len() implies #[trigger] ids[i] != 0 by {
            assert(ids.contains(ids[i]));
        }
    }
}

/// One index passes exactly where it has as many ids as its mirror says, none of them zero and none
/// twice; an id that is refused is zero or stands twice.
pub proof fn a_snapshot_passes_where_its_ids_are_proper(
    mirror: i64,
    ids: &[u64],
    r: Result<u64, SnapshotError>,
)
    requires
        call_ensures(validate_flush_snapshot, (mirror, ids), r),
    ensures
        r is Ok <==> flushable(mirror, ids@),
        r matches Ok(n) ==> n == ids@.len(),
        mirror != ids@.len() ==> (r matches Err(SnapshotError::Drift { mirror: m, rows }) && m
            == mirror && rows == ids@.len()),
        r matches Err(SnapshotError::BadId { id }) ==> ids@.contains(id) && (id == 0 || exists|
            i: int,
            j: int,
        |
            0 <= i < j < ids@.len() && #[trigger] ids@[i] == id && #[trigger] ids@[j] == id),
{
    lemma_flushable(mirror, ids@);
    lemma_first_bad(ids@);
    assert(ids.len() == ids@.len());
    if mirror == ids@.len() {
        if let Some(slot) = first_bad(ids@) {
            assert(ids@.contains(ids@[slot]));
            if ids@[slot] != 0 {
                let i = choose|i: int| 0 <= i < slot && ids@.take(slot)[i] == ids@[slot];
                assert(ids@[i] == ids@[slot]);
            }
        }
    }
}

/// Either every dirty index is flushed, in order, because each passes, or none is, because one does not;
/// then the first that does not is named.
pub proof fn all_are_flushed_or_none<'a>(
    dirty: &[DirtyIndex<'a>],
    r: Result<Vec<u32>, (u32, SnapshotError)>,
)
    requires
        call_ensures(pre_commit, (dirty,), r),
    ensures
        r is Ok <==> forall|i: int|
            0 <= i < dirty@.len() ==> flushable((#[trigger] dirty@[i]).mirror, dirty@[i].ids@),
        r matches Ok(oids) ==> oids@.len() == dirty@.len() && forall|i: int|
            0 <= i < dirty@.len() ==> oids@[i] == (#[trigger] dirty@[i]).rel_oid,
        r matches Err((oid, _)) ==> exists|k: int|
            0 <= k < dirty@.len() && oid == (#[trigger] dirty@[k]).rel_oid && !flushable(
                dirty@[k].mirror,
                dirty@[k].ids@,
            ) && forall|i: int|
                0 <= i < k ==> flushable((#[trigger] dirty@[i]).mirror, dirty@[i].ids@),
{
    lemma_first_faulty(dirty@);
    assert forall|i: int| 0 <= i < dirty@.len() implies (snapshot_fault(
        (#[trigger] dirty@[i]).mirror,
        dirty@[i].ids@,
    ) is None <==> flushable(dirty@[i].mirror, dirty@[i].ids@)) by {
        lemma_flushable(dirty@[i].mirror, dirty@[i].ids@);
    }
}

proof fn lemma_first_faulty(dirty: Seq<DirtyIndex>)
    ensures
        match first_faulty(dirty) {
            Some(k) => 0 <= k < dirty.len() && snapshot_fault(dirty[k].mirror, dirty[k].ids@) is Some
                && forall|i: int|
                0 <= i < k ==> snapshot_fault((#[trigger] dirty[i]).mirror, dirty[i].ids@) is None,
            None => forall|i: int|
                0 <= i < dirty.len() ==> snapshot_fault(
                    (#[trigger] dirty[i]).mirror,
                    dirty[i].ids@,
                ) is None,
        },
    decreases dirty.len(),
{
    if dirty.len() > 0 {
        let head = dirty.drop_last();
        lemma_first_faulty(head);
        assert forall|i: int| 0 <= i < head.len() implies head[i] == #[trigger] dirty[i] by {}
    }
}

/// Before a commit the dirty indexes are flushed; after a rollback, of the transaction or of a savepoint,
/// they are forgotten; an insert has the hooks registered unless they are, and after the end of the
/// transaction they no longer are.
pub proof fn the_end_of_a_transaction_decides(hooks: &mut XactHooks, event: XactEvent, r: XactAction)
    requires
        call_ensures(XactHooks::on, (hooks, event), r),
    ensures
        r is Flush <==> event is PreCommit,
        r is Forget <==> event is Abort || event is AbortSub,
        r is Register <==> event is Insert && !old(hooks).registered,
        event is Insert ==> final(hooks).registered,
        event is PreCommit || event is Abort ==> !final(hooks).registered,
        event is AbortSub ==> final(hooks).registered == old(hooks).registered,
{
}

/// Partitions are chosen where a positive number is asked for, the metric is known, there are summaries
/// and the query has their dimensions; what is wrong first, in this order, is named.
pub proof fn partitions_are_chosen_where_they_can_be<F: Fn(Metric, &[u32], &[u32]) -> u64>(
    query: &[u32],
    k: i32,
    metric: &str,
    summaries: &[(u32, Vec<u32>)],
    distance: F,
    known: Option<Metric>,
    r: Result<Vec<u32>, PartitionError>,
)
    requires
        call_ensures(Metric::parse, (metric,), known),
        call_ensures(nearest_partitions::<F>, (query, k, metric, summaries, distance), r),
    ensures
        r is Ok <==> k > 0 && known is Some && summaries@.len() > 0 && query@.len()
            == summaries@[0].1@.len(),
        k <= 0 ==> r == Err::<Vec<u32>, PartitionError>(PartitionError::NonPositiveK),
        k > 0 && known is None ==> r == Err::<Vec<u32>, PartitionError>(
            PartitionError::UnknownMetric,
        ),
        k > 0 && known is Some && summaries@.len() == 0 ==> r == Err::<Vec<u32>, PartitionError>(
            PartitionError::NoSummaries,
        ),
        r matches Err(PartitionError::DimMismatch { query: q, summary }) ==> q == query@.len()
            && summary == summaries@[0].1@.len(),
{
    assert(query.len() == query@.len());
    if summaries@.len() > 0 {
        assert(summaries@[0].1.len() == summaries@[0].1@.len());
    }
}

/// Whether `order` ranks the places by these distances: each place once, the lesser distance first, of
/// equal distances the earlier place, and what is no number last.
pub open spec fn is_nearest_first(order: Seq<int>, distances: Seq<u64>) -> bool {
    &&& order.len() == distances.len()
    &&& forall|p: int| 0 <= p < distances.len() ==> #[trigger] order.contains(p)
    &&& forall|m: int, n: int|
        0 <= m < n < order.len() ==> {
            let a = distances[#[trigger] order[m]];
            let b = distances[#[trigger] order[n]];
            &&& order[m] != order[n]
            &&& nan_f64(a) ==> nan_f64(b)
            &&& !nan_f64(a) && !nan_f64(b) ==> value_f64(a) <= value_f64(b)
            &&& nan_f64(a) || (!nan_f64(b) && value_f64(a) == value_f64(b)) ==> order[m] < order[n]
        }
}

proof fn lemma_nearest_first(order: Seq<int>, distances: Seq<u64>)
    requires
        is_ranking(order, distances),
    ensures
        is_nearest_first(order, distances),
{
    assert forall|p: int| 0 <= p < distances.len() implies #[trigger] order.contains(p) by {
        lemma_ranking_covers(order, distances, p);
    }
}

/// The partitions that are chosen are those whose centroids lie nearest to the query, nearest first, by
/// the distance that is asked for each centroid with the metric of that name: as many as wanted, or all.
pub proof fn the_nearest_partitions_are_chosen<F: Fn(Metric, &[u32], &[u32]) -> u64>(
    query: &[u32],
    k: i32,
    metric: &str,
    summaries: &[(u32, Vec<u32>)],
    distance: F,
    known: Metric,
    r: Vec<u32>,
) -> (found: (Seq<u64>, Seq<int>))
    requires
        call_ensures(Metric::parse, (metric,), Some(known)),
        call_ensures(
            nearest_partitions::<F>,
            (query, k, metric, summaries, distance),
            Ok::<Vec<u32>, PartitionError>(r),
        ),
    ensures
        r@.len() <= k && r@.len() <= summaries@.len(),
        r@.len() == k || r@.len() == summaries@.len(),
        found.0.len() == summaries@.len(),
        forall|i: int|
            0 <= i < summaries@.len() ==> #[trigger] may_measure(
                distance,
                known,
                query,
                summaries@[i].1@,
                found.0[i],
            ),
        is_nearest_first(found.1, found.0),
        forall|m: int| 0 <= m < r@.len() ==> #[trigger] r@[m] == summaries@[found.1[m]].0,
{
    let (distances, order) = choose|distances: Seq<u64>, order: Seq<int>|
        #![trigger measured_as(distance, known, query, summaries@, distances), is_ranking(order, distances)]
        {
            &&& measured_as(distance, known, query, summaries@, distances)
            &&& is_ranking(order, distances)
            &&& r@ == nearest_of(keys_of(summaries@), order, k as nat)
        };
    lemma_nearest_first(order, distances);
    (distances, order)
}

/// Ranking measures every summary and gives the keys of the nearest, nearest first.
pub proof fn summaries_are_ranked_by_their_distance<K: Copy, F: Fn(Metric, &[u32], &[u32]) -> u64>(
    query: &[u32],
    summaries: &[(K, Vec<u32>)],
    k: usize,
    metric: Metric,
    distance: F,
    r: Vec<K>,
) -> (found: (Seq<u64>, Seq<int>))
    requires
        call_ensures(rank_nearest::<K, F>, (query, summaries, k, metric, distance), r),
    ensures
        r@.len() <= k && r@.len() <= summaries@.len(),
        r@.len() == k || r@.len() == summaries@.len(),
        found.0.len() == summaries@.len(),
        forall|i: int|
            0 <= i < summaries@.len() ==> #[trigger] may_measure(
                distance,
                metric,
                query,
                summaries@[i].1@,
                found.0[i],
            ),
        is_nearest_first(found.1, found.0),
        forall|m: int| 0 <= m < r@.len() ==> #[trigger] r@[m] == summaries@[found.1[m]].0,
{
    let (distances, order) = choose|distances: Seq<u64>, order: Seq<int>|
        #![trigger measured_as(distance, metric, query, summaries@, distances), is_ranking(order, distances)]
        {
            &&& measured_as(distance, metric, query, summaries@, distances)
            &&& is_ranking(order, distances)
            &&& r@ == nearest_of(keys_of(summaries@), order, k as nat)
        };
    lemma_nearest_first(order, distances);
    (distances, order)
}

/// Any identifier names a row: its upper 32 bits the block, its lowest sixteen the offset. A row number
/// names one by the 32 bits above its lowest sixteen.
pub proof fn every_identifier_names_a_row(id: u64, r: ItemPointer, q: ItemPointer)
    requires
        call_ensures(u64_to_item_pointer, (id,), r),
        call_ensures(u64_to_ctid, (id,), q),
    ensures
        r.block == id / 0x1_0000_0000,
        r.offset == id % 0x1_0000,
        q.block == (id / 0x1_0000) % 0x1_0000_0000,
        q.offset == id % 0x1_0000,
{
}

proof fn lemma_opened(t: Seq<char>, a: int)
    requires
        0 <= a <= t.len(),
        forall|i: int| 0 <= i < a ==> #[trigger] t[i] == '(',
        a < t.len() ==> t[a] != '(',
    ensures
        without_opening(t) == t.skip(a),
    decreases a,
{
    if a > 0 {
        let rest = t.drop_first();
        assert(t[0] == '(');
        assert forall|i: int| 0 <= i < a - 1 implies #[trigger] rest[i] == '(' by {
            assert(rest[i] == t[i + 1]);
        }
        lemma_opened(rest, a - 1);
        assert(rest.skip(a - 1) =~= t.skip(a));
    } else {
        assert(t.skip(0) =~= t);
    }
}

proof fn lemma_closed(t: Seq<char>, b: int)
    requires
        0 <= b <= t.len(),
        forall|i: int| b <= i < t.len() ==> #[trigger] t[i] == ')',
        b > 0 ==> t[b - 1] != ')',
    ensures
        without_closing(t) == t.take(b),
    decreases t.len(),
{
    if b < t.len() {
        let rest = t.drop_last();
        assert(t[t.len() - 1] == ')');
        assert forall|i: int| b <= i < rest.len() implies #[trigger] rest[i] == ')' by {
            assert(rest[i] == t[i]);
        }
        lemma_closed(rest, b);
        assert(rest.take(b) =~= t.take(b));
    } else {
        assert(t.take(b) =~= t);
    }
}

/// The number that a piece is read as: what it spells where that is within the limit, and zero otherwise.
pub open spec fn is_read_as(piece: Seq<char>, limit: int, v: int) -> bool {
    match unsigned_value(trimmed(piece)) {
        Some(n) => v == if n <= limit {
            n as int
        } else {
            0
        },
        None => v == 0,
    }
}

/// Any text is read as the number of a row: opening brackets before it and closing ones behind it do not
/// count, what stands before the first comma is the block and what stands behind it, up to the next, the
/// offset. What cannot be read counts as zero.
pub proof fn any_text_is_read_as_a_row(s: &str, r: u64, a: int, b: int, block: int, offset: int)
    requires
        call_ensures(parse_ctid_text, (s,), r),
        0 <= a <= b <= trimmed(s@).len(),
        forall|i: int| 0 <= i < a ==> #[trigger] trimmed(s@)[i] == '(',
        a < trimmed(s@).len() ==> trimmed(s@)[a] != '(',
        forall|i: int| b <= i < trimmed(s@).len() ==> #[trigger] trimmed(s@)[i] == ')',
        a < b ==> trimmed(s@)[b - 1] != ')',
        ({
            let pieces = split(trimmed(s@).subrange(a, b), ',');
            &&& pieces.len() > 0 ==> is_read_as(pieces[0], 0xffff_ffff, block)
            &&& pieces.len() == 0 ==> block == 0
            &&& pieces.len() > 1 ==> is_read_as(pieces[1], 0xffff, offset)
            &&& pieces.len() <= 1 ==> offset == 0
        }),
    ensures
        r == 0x1_0000 * block + offset,
{
    let t = trimmed(s@);
    lemma_opened(t, a);
    let inner = t.skip(a);
    assert forall|i: int| b - a <= i < inner.len() implies #[trigger] inner[i] == ')' by {
        assert(inner[i] == t[a + i]);
    }
    if b > a {
        assert(inner[b - a - 1] == t[b - 1]);
    }
    lemma_closed(inner, b - a);
    assert(inner.take(b - a) =~= t.subrange(a, b));
}

/// Whether two plans are the same: of the same kind, for as many rows, among the same ids.
pub open spec fn same_plan(a: SearchPlan, b: SearchPlan) -> bool {
    match (a, b) {
        (SearchPlan::Nothing, SearchPlan::Nothing) => true,
        (SearchPlan::All { k }, SearchPlan::All { k: n }) => k == n,
        (SearchPlan::Among { k, ids }, SearchPlan::Among { k: n, ids: others }) => k == n && ids@
            == others@,
        _ => false,
    }
}

/// An index that is kept, and one that has just been built, is searched for as many rows as are wanted
/// and there.
pub proof fn both_ways_lead_to_the_same_search(
    k: i32,
    dim: usize,
    bit_width: usize,
    len: usize,
    allowed: Option<&[i64]>,
    take: usize,
    plan: SearchPlan,
    r: Option<SearchPlan>,
    q: Option<(usize, SearchPlan)>,
    bytes: usize,
)
    requires
        k > 0,
        call_ensures(take_of, (k, len), take),
        call_ensures(plan_search, (take, len, allowed), plan),
        call_ensures(after_lookup, (k, Some(len), allowed), r),
        call_ensures(after_collect, (k, dim, bit_width, len, allowed), q),
        call_ensures(cache_bytes, (dim, bit_width, len), bytes),
    ensures
        r is Some && same_plan(r->0, plan),
        len > 0 ==> q is Some && (q->0).0 == bytes && same_plan((q->0).1, plan),
        len == 0 ==> q is None,
{
    if plan is Among {
        id_list_is_unique((r->0)->ids@, plan->ids@, (allowed->0)@);
        if len > 0 {
            id_list_is_unique(((q->0).1)->ids@, plan->ids@, (allowed->0)@);
        }
    }
}

/// An index counts for its codes, each row in whole bytes with the rest cut off, and for 68 bytes more per
/// row.
pub proof fn an_index_weighs_whole_bytes(dim: usize, bit_width: usize, rows: usize, r: usize)
    requires
        call_ensures(cache_bytes, (dim, bit_width, rows), r),
    ensures
        rows * (dim * bit_width + 544) - 7 * rows <= 8 * r <= rows * (dim * bit_width + 544),
{
    let x = dim as int * bit_width as int;
    assert(x >= 0) by (nonlinear_arith)
        requires
            x == dim as int * bit_width as int,
            dim >= 0,
            bit_width >= 0,
    ;
    let per = x / 8;
    let n = rows as int;
    assert(8 * per <= x <= 8 * per + 7);
    assert(n * (x + 544) - 7 * n <= 8 * ((per + 68) * n) <= n * (x + 544)) by (nonlinear_arith)
        requires
            8 * per <= x <= 8 * per + 7,
            n >= 0,
    ;
    assert(dim as nat * bit_width as nat == x);
    assert(r == (per + 4 + 64) * n);
}

/// A new cache holds nothing.
pub proof fn a_new_cache_is_empty<I>(r: IndexCache<I>)
    requires
        call_ensures(IndexCache::<I>::new, (), r),
    ensures
        r.entries@ == Seq::<CacheEntry<I>>::empty(),
{
    assert(r.entries@ =~= Seq::<CacheEntry<I>>::empty());
}

/// Before the first insert nothing is registered, so that the first insert registers, and a second one
/// does not.
pub proof fn the_first_insert_registers(hooks: XactHooks, at: &mut XactHooks, r: XactAction)
    requires
        call_ensures(XactHooks::new, (), hooks),
        *old(at) == hooks,
        call_ensures(XactHooks::on, (at, XactEvent::Insert), r),
    ensures
        r is Register,
        final(at).registered,
{
}

/// The id that is named is that of the first slot whose id is zero or stood before.
pub proof fn the_first_improper_id_is_named(mirror: i64, ids: &[u64], r: Result<u64, SnapshotError>)
    requires
        call_ensures(validate_flush_snapshot, (mirror, ids), r),
        mirror == ids@.len(),
        r is Err,
    ensures
        exists|k: int|
            0 <= k < ids@.len() && #[trigger] is_improper(ids@, k) && r->Err_0 == (
            SnapshotError::BadId { id: ids@[k] }) && forall|j: int|
                0 <= j < k ==> !#[trigger] is_improper(ids@, j),
{
    lemma_first_improper(ids@);
    assert(is_improper(ids@, first_bad(ids@)->0));
}

/// The fault of a commit is that of the first index that has one.
pub proof fn a_commit_names_the_first_fault<'a>(
    dirty: &[DirtyIndex<'a>],
    r: Result<Vec<u32>, (u32, SnapshotError)>,
    k: int,
    q: Result<u64, SnapshotError>,
)
    requires
        call_ensures(pre_commit, (dirty,), r),
        0 <= k < dirty@.len(),
        forall|i: int|
            0 <= i < k ==> flushable((#[trigger] dirty@[i]).mirror, dirty@[i].ids@),
        call_ensures(validate_flush_snapshot, (dirty@[k].mirror, dirty@[k].ids), q),
        q is Err,
    ensures
        r == Err::<Vec<u32>, (u32, SnapshotError)>((dirty@[k].rel_oid, q->Err_0)),
{
    lemma_first_faulty(dirty@);
    lemma_flushable(dirty@[k].mirror, dirty@[k].ids@);
    assert forall|i: int| 0 <= i < k implies snapshot_fault(
        (#[trigger] dirty@[i]).mirror,
        dirty@[i].ids@,
    ) is None by {
        lemma_flushable(dirty@[i].mirror, dirty@[i].ids@);
    }
    let f = first_faulty(dirty@)->0;
    if f < k {
        assert(snapshot_fault(dirty@[f].mirror, dirty@[f].ids@) is None);
    }
    if k < f {
        assert(snapshot_fault(dirty@[k].mirror, dirty@[k].ids@) is None);
    }
}

/// One row more comes behind the others in what an index is built of.
pub proof fn one_more_row_comes_behind(
    rows: &[(i64, Vec<u32>)],
    more: &[(i64, Vec<u32>)],
    r: (Vec<u32>, Vec<u64>),
    q: (Vec<u32>, Vec<u64>),
)
    requires
        call_ensures(index_input, (rows,), r),
        call_ensures(index_input, (more,), q),
        more@.len() > 0,
        more@.drop_last() == rows@,
    ensures
        rows@.len() == 0 ==> r.0@.len() == 0 && r.1@.len() == 0,
        q.0@ == r.0@ + more@.last().1@,
        q.1@ == r.1@.push(id_of(more@.last().0)),
{
    assert(q.1@ =~= r.1@.push(id_of(more@.last().0)));
}

} // verus!
