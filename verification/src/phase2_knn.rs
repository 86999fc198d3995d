//! A cache of indexes by table and column, and the names and numbers of table rows in queries.
use crate::sorting::lemma_pushed;
use crate::text::{
    chars_of, parse_unsigned, split, split_at_each, string_of, texts, trim, trimmed, unsigned_value,
};
use crate::tid::ItemPointer;
use vstd::prelude::*;

verus! {

/// What an index was built of: a column of a table, at a bit width and a number of dimensions.
#[derive(Clone, Copy, Debug, PartialEq, Eq, Structural)]
pub struct CacheKey {
    pub rel_oid: u32,
    pub attnum: i16,
    pub bit_width: u8,
    pub dim: u32,
}

/// An index that is kept, and the file of the table that it was built from.
pub struct CacheEntry<I> {
    pub key: CacheKey,
    pub index: I,
    pub fingerprint: u32,
}

/// The indexes that a backend keeps, at most one for each key.
pub struct IndexCache<I> {
    pub entries: Vec<CacheEntry<I>>,
}

/// The entries of other tables.
pub open spec fn without_table<I>(entries: Seq<CacheEntry<I>>, rel_oid: u32) -> Seq<CacheEntry<I>>
    decreases entries.len(),
{
    if entries.len() == 0 {
        entries
    } else {
        let before = without_table(entries.drop_last(), rel_oid);
        if entries.last().key.rel_oid == rel_oid {
            before
        } else {
            before.push(entries.last())
        }
    }
}

impl<I> IndexCache<I> {
    /// Whether no key stands for two indexes.
    pub open spec fn well_formed(&self) -> bool {
        forall|i: int, j: int|
            0 <= i < j < self.entries@.len() ==> (#[trigger] self.entries@[i]).key != (
            #[trigger] self.entries@[j]).key
    }

    /// A cache that keeps nothing.
    pub fn new() -> (r: IndexCache<I>)
        ensures
            r.entries@.len() == 0,
            r.well_formed(),
    {
        IndexCache { entries: Vec::new() }
    }
}

proof fn lemma_without_prefix<I>(
    entries: Seq<CacheEntry<I>>,
    rel_oid: u32,
    kept: Seq<CacheEntry<I>>,
    i: int,
    n: int,
)
    requires
        0 <= i < n <= entries.len(),
        without_table(entries.take(i), rel_oid) == kept,
    ensures
        without_table(entries.take(i + 1), rel_oid) == (if entries[i].key.rel_oid == rel_oid {
            kept
        } else {
            kept.push(entries[i])
        }),
{
    let now = entries.take(i + 1);
    assert(now.drop_last() =~= entries.take(i));
    assert(now.last() == entries[i]);
}

/// Drops every index of a table.
pub fn invalidate<I>(cache: &mut IndexCache<I>, rel_oid: u32)
    ensures
        final(cache).entries@ == without_table(old(cache).entries@, rel_oid),
{
    let ghost all = cache.entries@;
    let ghost mut seen: int = 0;
    let mut kept: usize = 0;
    proof {
        assert(all.take(0) =~= Seq::<CacheEntry<I>>::empty());
        assert(cache.entries@.take(0) =~= Seq::<CacheEntry<I>>::empty());
        assert(cache.entries@.skip(0) =~= all.skip(0));
    }
    while kept < cache.entries.len()
        invariant
            0 <= seen <= all.len(),
            kept <= cache.entries@.len(),
            all == old(cache).entries@,
            cache.entries@.take(kept as int) == without_table(all.take(seen), rel_oid),
            cache.entries@.skip(kept as int) == all.skip(seen),
        decreases cache.entries@.len() - kept,
    {
        let ghost before = cache.entries@;
        proof {
            assert(before.skip(kept as int)[0] == before[kept as int]);
            assert(all.skip(seen).len() == before.skip(kept as int).len());
            assert(all.skip(seen)[0] == all[seen]);
            lemma_without_prefix(
                all,
                rel_oid,
                before.take(kept as int),
                seen,
                all.len() as int,
            );
        }
        if cache.entries[kept].key.rel_oid == rel_oid {
            cache.entries.remove(kept);
            proof {
                assert(cache.entries@.take(kept as int) =~= before.take(kept as int));
                assert(cache.entries@.skip(kept as int) =~= before.skip(kept as int).drop_first());
                assert(all.skip(seen + 1) =~= all.skip(seen).drop_first());
                seen = seen + 1;
            }
        } else {
            proof {
                assert(before.take(kept + 1) =~= before.take(kept as int).push(
                    before[kept as int],
                ));
                assert(before.skip(kept + 1) =~= before.skip(kept as int).drop_first());
                assert(all.skip(seen + 1) =~= all.skip(seen).drop_first());
                seen = seen + 1;
            }
            kept += 1;
        }
    }
    proof {
        assert(cache.entries@.skip(kept as int).len() == 0);
        assert(all.skip(seen).len() == 0);
        assert(all.take(seen) =~= all);
        assert(cache.entries@.take(kept as int) =~= cache.entries@);
    }
}

/// Drops every index.
pub fn invalidate_all<I>(cache: &mut IndexCache<I>)
    ensures
        final(cache).entries@.len() == 0,
{
    cache.entries.clear();
}

/// Dropping the indexes of a table leaves none of that table, and leaves all others as they were.
pub proof fn only_the_tables_own_indexes_go<I>(entries: Seq<CacheEntry<I>>, rel_oid: u32)
    ensures
        forall|e: CacheEntry<I>| #[trigger]
            without_table(entries, rel_oid).contains(e) <==> entries.contains(e) && e.key.rel_oid
                != rel_oid,
    decreases entries.len(),
{
    if entries.len() > 0 {
        let head = entries.drop_last();
        let last = entries.last();
        only_the_tables_own_indexes_go(head, rel_oid);
        let kept = without_table(head, rel_oid);
        assert forall|e: CacheEntry<I>| #[trigger]
            without_table(entries, rel_oid).contains(e) <==> entries.contains(e) && e.key.rel_oid
                != rel_oid by {
            lemma_pushed(head, last, e);
            assert(head.push(last) =~= entries);
            assert(kept.contains(e) <==> head.contains(e) && e.key.rel_oid != rel_oid);
            lemma_pushed(kept, last, e);
        }
    }
}

/// Dropping the indexes of a table keeps the keys distinct.
pub proof fn dropping_keeps_keys_distinct<I>(cache: IndexCache<I>, after: IndexCache<I>, rel_oid: u32)
    requires
        cache.well_formed(),
        after.entries@ == without_table(cache.entries@, rel_oid),
    ensures
        after.well_formed(),
{
    lemma_distinct(cache.entries@, rel_oid);
}

proof fn lemma_distinct<I>(entries: Seq<CacheEntry<I>>, rel_oid: u32)
    requires
        forall|i: int, j: int|
            0 <= i < j < entries.len() ==> (#[trigger] entries[i]).key != (
            #[trigger] entries[j]).key,
    ensures
        ({
            let kept = without_table(entries, rel_oid);
            forall|i: int, j: int|
                0 <= i < j < kept.len() ==> (#[trigger] kept[i]).key != (#[trigger] kept[j]).key
        }),
    decreases entries.len(),
{
    if entries.len() > 0 {
        let head = entries.drop_last();
        let last = entries.last();
        assert forall|i: int, j: int| 0 <= i < j < head.len() implies (#[trigger] head[i]).key != (
        #[trigger] head[j]).key by {
            assert(entries[i].key != entries[j].key);
        }
        lemma_distinct(head, rel_oid);
        let kept = without_table(head, rel_oid);
        let now = without_table(entries, rel_oid);
        only_the_tables_own_indexes_go(head, rel_oid);
        assert forall|i: int, j: int| 0 <= i < j < now.len() implies (#[trigger] now[i]).key != (
        #[trigger] now[j]).key by {
            if j < kept.len() {
                assert(kept[i].key != kept[j].key);
            } else {
                assert(kept.contains(kept[i]));
                assert(head.contains(kept[i]));
                let m = choose|m: int| 0 <= m < head.len() && head[m] == kept[i];
                assert(entries[m].key != entries[entries.len() - 1].key);
            }
        }
    }
}

/// The number of a row in a search over a table: the block, and below it the offset.
pub open spec fn ctid_number(ip: ItemPointer) -> nat {
    ip.block as nat * 0x1_0000 + ip.offset as nat
}

/// The row of a number. What lies above the block is left out.
pub open spec fn ctid_row(id: u64) -> ItemPointer {
    ItemPointer {
        block: (id as int / 0x1_0000 % 0x1_0000_0000) as u32,
        offset: (id as int % 0x1_0000) as u16,
    }
}

/// The number of a row.
pub fn ctid_to_u64(ip: ItemPointer) -> (r: u64)
    ensures
        r == ctid_number(ip),
{
    ip.block as u64 * 0x1_0000 + ip.offset as u64
}

/// The row of a number.
pub fn u64_to_ctid(id: u64) -> (r: ItemPointer)
    ensures
        r == ctid_row(id),
{
    ItemPointer {
        block: (id / 0x1_0000 % 0x1_0000_0000) as u32,
        offset: (id % 0x1_0000) as u16,
    }
}

/// The number of a row leads back to the row, and the row of a number to the number, unless its
/// reserved upper bits are set.
pub proof fn row_numbers_round_trip(ip: ItemPointer, id: u64)
    ensures
        ctid_number(ip) < 0x1_0000_0000_0000,
        ctid_row(ctid_number(ip) as u64) == ip,
        id < 0x1_0000_0000_0000 ==> ctid_number(ctid_row(id)) == id,
{
}

/// Text without the opening brackets at its start.
pub open spec fn without_opening(s: Seq<char>) -> Seq<char>
    decreases s.len(),
{
    if s.len() > 0 && s[0] == '(' {
        without_opening(s.drop_first())
    } else {
        s
    }
}

/// Text without the closing brackets at its end.
pub open spec fn without_closing(s: Seq<char>) -> Seq<char>
    decreases s.len(),
{
    if s.len() > 0 && s.last() == ')' {
        without_closing(s.drop_last())
    } else {
        s
    }
}

/// The number that one of the pieces of a text spells, where there is such a piece and its number is
/// not above `limit`; otherwise zero.
pub open spec fn piece_number(pieces: Seq<Seq<char>>, at: int, limit: nat) -> nat {
    if at < pieces.len() {
        match unsigned_value(trimmed(pieces[at])) {
            Some(v) => if v <= limit {
                v
            } else {
                0
            },
            None => 0,
        }
    } else {
        0
    }
}

/// The row that `(block,offset)` names.
pub open spec fn row_named(s: Seq<char>) -> ItemPointer {
    let pieces = split(without_closing(without_opening(trimmed(s))), ',');
    ItemPointer {
        block: piece_number(pieces, 0, 0xffff_ffff) as u32,
        offset: piece_number(pieces, 1, 0xffff) as u16,
    }
}

fn strip_brackets<'a>(s: &'a [char]) -> (r: &'a [char])
    ensures
        r@ == without_closing(without_opening(s@)),
{
    let n: usize = s.len();
    let mut i: usize = 0;
    assert(s@.skip(0) =~= s@);
    while i < n && s[i] == '('
        invariant
            i <= n,
            n == s@.len(),
            without_opening(s@) == without_opening(s@.skip(i as int)),
        decreases n - i,
    {
        assert(s@.skip(i as int).drop_first() =~= s@.skip(i + 1));
        i += 1;
    }
    let ghost body = s@.skip(i as int);
    proof {
        if i < n {
            assert(body[0] == s@[i as int]);
        }
        assert(without_opening(s@) == body);
        assert(body.take(n - i) =~= body);
    }
    let mut j: usize = n;
    while j > i && s[j - 1] == ')'
        invariant
            i <= j <= n,
            n == s@.len(),
            body == s@.skip(i as int),
            without_closing(body) == without_closing(body.take(j - i)),
        decreases j,
    {
        assert(body.take(j - i).last() == s@[j - 1]);
        assert(body.take(j - i).drop_last() =~= body.take(j - 1 - i));
        j -= 1;
    }
    proof {
        let part = body.take(j - i);
        if j > i {
            assert(part.last() == s@[j - 1]);
        }
        assert(without_closing(part) == part);
        assert(s@.subrange(i as int, j as int) =~= part);
    }
    vstd::slice::slice_subrange(s, i, j)
}

fn read_piece(pieces: &[Vec<char>], at: usize, limit: u64) -> (r: u64)
    ensures
        r == piece_number(texts(pieces@), at as int, limit as nat),
        r <= limit,
{
    if at >= pieces.len() {
        return 0;
    }
    match parse_unsigned(trim(pieces[at].as_slice()), limit) {
        Some(v) => v,
        None => 0,
    }
}

/// The number of the row that `(block,offset)` names. What cannot be read counts as zero.
pub fn parse_ctid_text(s: &str) -> (r: u64)
    ensures
        r == ctid_number(row_named(s@)),
{
    let chars: Vec<char> = chars_of(s);
    let inner: &[char] = strip_brackets(trim(chars.as_slice()));
    let pieces: Vec<Vec<char>> = split_at_each(inner, ',');
    let block: u64 = read_piece(pieces.as_slice(), 0, 0xffff_ffff);
    let offset: u64 = read_piece(pieces.as_slice(), 1, 0xffff);
    ctid_to_u64(ItemPointer { block: block as u32, offset: offset as u16 })
}

/// Text with each double quote doubled.
pub open spec fn doubled(s: Seq<char>) -> Seq<char>
    decreases s.len(),
{
    if s.len() == 0 {
        s
    } else if s.last() == '"' {
        doubled(s.drop_last()).push('"').push('"')
    } else {
        doubled(s.drop_last()).push(s.last())
    }
}

/// A name in double quotes.
pub open spec fn quoted(s: Seq<char>) -> Seq<char> {
    (seq!['"'] + doubled(s)).push('"')
}

/// Puts a name into double quotes, with each quote in it doubled.
pub fn quote_ident(name: &str) -> (r: String)
    ensures
        r@ == quoted(name@),
{
    let chars: Vec<char> = chars_of(name);
    let mut out: Vec<char> = Vec::new();
    out.push('"');
    let mut i: usize = 0;
    assert(chars@.take(0) =~= Seq::<char>::empty());
    while i < chars.len()
        invariant
            i <= chars@.len(),
            out@ == seq!['"'] + doubled(chars@.take(i as int)),
        decreases chars@.len() - i,
    {
        let c: char = chars[i];
        let ghost now = chars@.take(i + 1);
        proof {
            assert(now.drop_last() =~= chars@.take(i as int));
            assert(now.last() == c);
        }
        if c == '"' {
            out.push('"');
        }
        out.push(c);
        assert(out@ =~= seq!['"'] + doubled(now));
        i += 1;
    }
    assert(chars@.take(i as int) =~= chars@);
    out.push('"');
    string_of(out.as_slice())
}

/// Different names stay different when they are quoted.
pub proof fn quoting_keeps_names_apart(a: Seq<char>, b: Seq<char>)
    requires
        quoted(a) == quoted(b),
    ensures
        a == b,
{
    let x = quoted(a);
    let y = quoted(b);
    assert(x.subrange(1, x.len() - 1) =~= doubled(a));
    assert(y.subrange(1, y.len() - 1) =~= doubled(b));
    lemma_doubled_apart(a, b);
}

proof fn lemma_doubled_apart(a: Seq<char>, b: Seq<char>)
    requires
        doubled(a) == doubled(b),
    ensures
        a == b,
    decreases a.len(),
{
    if a.len() == 0 {
        if b.len() > 0 {
            assert(doubled(b).len() > 0);
        }
        assert(a =~= b);
    } else {
        let d = doubled(a);
        assert(d.len() > 0);
        if b.len() == 0 {
            assert(doubled(b).len() == 0);
        }
        let p = doubled(a.drop_last());
        let q = doubled(b.drop_last());
        if a.last() == '"' {
            assert(d.last() == '"');
            assert(b.last() == '"');
            assert(p.push('"').push('"').take(p.len() as int) =~= p);
            assert(q.push('"').push('"').take(q.len() as int) =~= q);
        } else {
            assert(d.last() == a.last());
            assert(b.last() == a.last());
            assert(p.push(a.last()).take(p.len() as int) =~= p);
            assert(q.push(b.last()).take(q.len() as int) =~= q);
        }
        lemma_doubled_apart(a.drop_last(), b.drop_last());
        assert(a =~= a.drop_last().push(a.last()));
        assert(b =~= b.drop_last().push(b.last()));
    }
}

} // verus!
