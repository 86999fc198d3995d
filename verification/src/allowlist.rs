//! The allowlist of a scan: heap row identifiers, given as text.
use std::collections::HashSet;
use vstd::prelude::*;

use crate::text::{
    chars_of, is_tight, joined, lemma_joined_tight, lemma_tight, parse_i64, signed_decimal,
    signed_decimal_reads_back, signed_value, split, split_at_each, splitting_undoes_joining,
    string_of, texts, trim, trimmed,
};
use crate::tid::{id_of, to_id};

verus! {

broadcast use vstd::std_specs::hash::group_hash_axioms;

/// A piece of an allowlist that is no 64-bit integer.
#[derive(Debug, PartialEq, Eq)]
pub struct AllowlistError {
    pub token: String,
}

/// The signed 64-bit number that a text spells.
pub open spec fn bigint_of(s: Seq<char>) -> Option<i64> {
    match signed_value(s) {
        Some(v) => if i64::MIN <= v <= i64::MAX {
            Some(v as i64)
        } else {
            None
        },
        None => None,
    }
}

/// What the pieces of an allowlist give: the identifiers that they spell, or the first piece that
/// spells none. White space around a piece and empty pieces are ignored.
pub open spec fn listed_ids(pieces: Seq<Seq<char>>) -> Result<Set<u64>, Seq<char>>
    decreases pieces.len(),
{
    if pieces.len() == 0 {
        Ok(Set::empty())
    } else {
        match listed_ids(pieces.drop_last()) {
            Err(bad) => Err(bad),
            Ok(ids) => {
                let piece = trimmed(pieces.last());
                if piece.len() == 0 {
                    Ok(ids)
                } else {
                    match bigint_of(piece) {
                        Some(v) => Ok(ids.insert(id_of(v))),
                        None => Err(piece),
                    }
                }
            },
        }
    }
}

/// What an allowlist gives, piece by piece.
pub open spec fn allowlist_of(s: Seq<char>) -> Result<Set<u64>, Seq<char>> {
    listed_ids(split(trimmed(s), ','))
}

/// Reads an allowlist: identifiers separated by commas. `None` where it is not set or lists nothing.
pub fn parse_allowlist(raw: Option<&str>) -> (r: Result<Option<HashSet<u64>>, AllowlistError>)
    ensures
        match raw {
            None => r == Ok::<Option<HashSet<u64>>, AllowlistError>(None),
            Some(text) => match allowlist_of(text@) {
                Err(bad) => r matches Err(e) && e.token@ == bad,
                Ok(ids) => if ids == Set::<u64>::empty() {
                    r == Ok::<Option<HashSet<u64>>, AllowlistError>(None)
                } else {
                    r matches Ok(Some(set)) && set@ == ids
                },
            },
        },
{
    let text: &str = match raw {
        Some(text) => text,
        None => {
            return Ok(None);
        },
    };
    let all: Vec<char> = chars_of(text);
    let body: &[char] = trim(all.as_slice());
    let pieces: Vec<Vec<char>> = split_at_each(body, ',');
    let ghost views = split(trimmed(text@), ',');
    let mut set: HashSet<u64> = HashSet::new();
    let mut i: usize = 0;
    let mut any: bool = false;
    while i < pieces.len()
        invariant
            i <= pieces@.len(),
            texts(pieces@) == views,
            views == split(trimmed(text@), ','),
            raw == Some(text),
            listed_ids(views.take(i as int)) == Ok::<Set<u64>, Seq<char>>(set@),
            any == (set@ != Set::<u64>::empty()),
        decreases pieces@.len() - i,
    {
        let piece: &[char] = trim(pieces[i].as_slice());
        let ghost before = set@;
        proof {
            assert(texts(pieces@)[i as int] == pieces@[i as int]@);
            assert(views.take(i + 1).drop_last() =~= views.take(i as int));
            assert(views.take(i + 1).last() == views[i as int]);
        }
        if piece.len() > 0 {
            match parse_i64(piece) {
                Some(v) => {
                    set.insert(to_id(v));
                    any = true;
                    assert(set@ =~= before.insert(id_of(v)));
                    assert(set@.contains(id_of(v)));
                },
                None => {
                    let token: String = string_of(piece);
                    proof {
                        lemma_first_bad_piece(views, (i + 1) as nat);
                    }
                    return Err(AllowlistError { token });
                },
            }
        }
        i += 1;
    }
    assert(views.take(i as int) =~= views);
    if any {
        Ok(Some(set))
    } else {
        Ok(None)
    }
}

proof fn lemma_first_bad_piece(pieces: Seq<Seq<char>>, k: nat)
    requires
        k <= pieces.len(),
        listed_ids(pieces.take(k as int)) is Err,
    ensures
        listed_ids(pieces) == listed_ids(pieces.take(k as int)),
    decreases pieces.len(),
{
    if k < pieces.len() {
        assert(pieces.drop_last().take(k as int) =~= pieces.take(k as int));
        lemma_first_bad_piece(pieces.drop_last(), k);
    } else {
        assert(pieces.take(k as int) =~= pieces);
    }
}

/// The identifiers of numbers.
pub open spec fn ids_of_numbers(numbers: Seq<i64>) -> Set<u64> {
    Set::new(|id: u64| exists|i: int| 0 <= i < numbers.len() && id_of(#[trigger] numbers[i]) == id)
}

/// Numbers as an allowlist: their decimal texts with commas between them.
pub open spec fn as_list(numbers: Seq<i64>) -> Seq<char> {
    joined(numbers.map_values(|v: i64| signed_decimal(v as int)), seq![','])
}

/// A list of numbers allows exactly the rows that have these numbers.
pub proof fn listed_numbers_are_allowed(numbers: Seq<i64>)
    requires
        numbers.len() > 0,
    ensures
        allowlist_of(as_list(numbers)) == Ok::<Set<u64>, Seq<char>>(ids_of_numbers(numbers)),
{
    let parts = numbers.map_values(|v: i64| signed_decimal(v as int));
    let gap = Seq::<char>::empty();
    assert forall|i: int| 0 <= i < parts.len() implies is_tight(#[trigger] parts[i])
        && !parts[i].contains(',') by {
        signed_decimal_reads_back(numbers[i] as int, ',');
    }
    let list = as_list(numbers);
    lemma_joined_tight(parts, seq![',']);
    lemma_tight(list);
    assert(seq![','] =~= seq![','] + gap);
    splitting_undoes_joining(parts, ',', gap);
    assert forall|i: int| 0 <= i < parts.len() implies #[trigger] split(list, ',')[i]
        == parts[i] by {
        assert(gap + parts[i] =~= parts[i]);
    }
    assert(split(list, ',') =~= parts);
    lemma_listed(numbers);
}

proof fn lemma_listed(numbers: Seq<i64>)
    ensures
        listed_ids(numbers.map_values(|v: i64| signed_decimal(v as int))) == Ok::<
            Set<u64>,
            Seq<char>,
        >(ids_of_numbers(numbers)),
    decreases numbers.len(),
{
    let parts = numbers.map_values(|v: i64| signed_decimal(v as int));
    if numbers.len() == 0 {
        assert(ids_of_numbers(numbers) =~= Set::empty());
    } else {
        let head = numbers.drop_last();
        let v = numbers.last();
        lemma_listed(head);
        assert(parts.drop_last() =~= head.map_values(|v: i64| signed_decimal(v as int)));
        signed_decimal_reads_back(v as int, ',');
        lemma_tight(signed_decimal(v as int));
        assert(parts.last() == signed_decimal(v as int));
        assert forall|id: u64| #[trigger] ids_of_numbers(numbers).contains(id)
            == ids_of_numbers(head).insert(id_of(v)).contains(id) by {
            if ids_of_numbers(head).contains(id) {
                let i = choose|i: int| 0 <= i < head.len() && id_of(#[trigger] head[i]) == id;
                assert(id_of(numbers[i]) == id);
            }
            if id == id_of(v) {
                assert(id_of(numbers[numbers.len() - 1]) == id);
            }
            if ids_of_numbers(numbers).contains(id) && id != id_of(v) {
                let i = choose|i: int| 0 <= i < numbers.len() && id_of(#[trigger] numbers[i]) == id;
                assert(id_of(head[i]) == id);
            }
        }
        assert(ids_of_numbers(numbers) =~= ids_of_numbers(head).insert(id_of(v)));
    }
}

} // verus!
