//! What reading a text promises: what is trimmed, split, found and read as a number.
use std::collections::HashSet;
use vstd::prelude::*;

use crate::allowlist::{bigint_of, listed_ids, parse_allowlist, AllowlistError};
use crate::text::{
    chars_of, decimal, digits_value, find_first, find_last, first_at, is_digit, parse_digits,
    is_space, is_white, last_at, parse_i32, parse_i64, parse_unsigned, push_decimal, push_text,
    same_text, signed_value, split, split_at_each, string_of, texts, trim, trim_end, trim_start,
    trimmed, unsigned_value,
};
use crate::tid::id_of;

verus! {

broadcast use vstd::std_specs::hash::group_hash_axioms;

/// White space is what Unicode calls so: the control characters from the tab to the carriage return, the
/// blank, and a handful of others.
pub proof fn white_space_is_that_of_unicode(c: char, r: bool)
    requires
        call_ensures(is_white, (c,), r),
    ensures
        ({
            let x = c as int;
            r <==> 0x9 <= x <= 0xD || x == 0x20 || x == 0x85 || x == 0xA0 || x == 0x1680 || 0x2000
                <= x <= 0x200A || 0x2028 <= x <= 0x2029 || x == 0x202F || x == 0x205F || x == 0x3000
        }),
        r == is_space(c),
{
}

proof fn lemma_trim_start_is_a_suffix(s: Seq<char>) -> (n: int)
    ensures
        0 <= n <= s.len(),
        trim_start(s) == s.skip(n),
        forall|i: int| 0 <= i < n ==> is_space(#[trigger] s[i]),
        n < s.len() ==> !is_space(s[n]),
    decreases s.len(),
{
    if s.len() > 0 && is_space(s[0]) {
        let rest = s.drop_first();
        let k = lemma_trim_start_is_a_suffix(rest);
        assert(rest.skip(k) =~= s.skip(k + 1));
        assert forall|i: int| 0 <= i < k + 1 implies is_space(#[trigger] s[i]) by {
            if i > 0 {
                assert(rest[i - 1] == s[i]);
            }
        }
        if k + 1 < s.len() {
            assert(rest[k] == s[k + 1]);
        }
        k + 1
    } else {
        assert(s.skip(0) =~= s);
        0
    }
}

proof fn lemma_trim_end_is_a_prefix(s: Seq<char>) -> (n: int)
    ensures
        0 <= n <= s.len(),
        trim_end(s) == s.take(n),
        forall|i: int| n <= i < s.len() ==> is_space(#[trigger] s[i]),
        n > 0 ==> !is_space(s[n - 1]),
    decreases s.len(),
{
    if s.len() > 0 && is_space(s.last()) {
        let rest = s.drop_last();
        let k = lemma_trim_end_is_a_prefix(rest);
        assert(rest.take(k) =~= s.take(k));
        assert forall|i: int| k <= i < s.len() implies is_space(#[trigger] s[i]) by {
            if i < rest.len() {
                assert(rest[i] == s[i]);
            }
        }
        if k > 0 {
            assert(rest[k - 1] == s[k - 1]);
        }
        k
    } else {
        assert(s.take(s.len() as int) =~= s);
        s.len() as int
    }
}

/// Trimming takes the white space at both ends and nothing else: what is left is the text between two
/// places, with white space only before the first and behind the second, and none next to them inside.
pub proof fn trimming_takes_white_space_only(s: Seq<char>) -> (cut: (int, int))
    ensures
        0 <= cut.0 <= cut.1 <= s.len(),
        trimmed(s) == s.subrange(cut.0, cut.1),
        forall|i: int| 0 <= i < cut.0 ==> is_space(#[trigger] s[i]),
        forall|i: int| cut.1 <= i < s.len() ==> is_space(#[trigger] s[i]),
        cut.0 < cut.1 ==> !is_space(s[cut.0]) && !is_space(s[cut.1 - 1]),
{
    let a = lemma_trim_start_is_a_suffix(s);
    let t = s.skip(a);
    let b = lemma_trim_end_is_a_prefix(t);
    assert(t.take(b) =~= s.subrange(a, a + b));
    assert forall|i: int| a + b <= i < s.len() implies is_space(#[trigger] s[i]) by {
        assert(t[i - a] == s[i]);
    }
    if b > 0 {
        assert(t[b - 1] == s[a + b - 1]);
        assert(t[0] == s[a]);
    }
    (a, a + b)
}

/// What trimming gives is the trimmed text.
pub proof fn trimming_gives_what_is_between<'a>(s: &'a [char], r: &'a [char]) -> (cut: (int, int))
    requires
        call_ensures(trim, (s,), r),
    ensures
        0 <= cut.0 <= cut.1 <= s@.len(),
        r@ == s@.subrange(cut.0, cut.1),
        forall|i: int| 0 <= i < cut.0 || cut.1 <= i < s@.len() ==> is_space(#[trigger] s@[i]),
        r@.len() > 0 ==> !is_space(r@[0]) && !is_space(r@[r@.len() - 1]),
{
    trimming_takes_white_space_only(s@)
}

/// Whether piece `i` is what stands in the text from its start on, holds no separator, and is followed
/// by one before the next piece.
pub open spec fn is_cut_out(
    s: Seq<char>,
    sep: char,
    pieces: Seq<Seq<char>>,
    starts: Seq<int>,
    i: int,
) -> bool {
    &&& 0 <= starts[i]
    &&& starts[i] + pieces[i].len() <= s.len()
    &&& pieces[i] == s.subrange(starts[i], starts[i] + pieces[i].len())
    &&& !pieces[i].contains(sep)
    &&& i + 1 < starts.len() ==> starts[i] + pieces[i].len() < s.len() && s[starts[i]
        + pieces[i].len()] == sep && starts[i + 1] == starts[i] + pieces[i].len() + 1
}

/// Splitting cuts a text at each separator: the pieces follow each other with one separator between
/// each two, from the start to the end, and hold none. `starts` tells where each begins.
pub proof fn splitting_cuts_at_each_separator(s: Seq<char>, sep: char) -> (starts: Seq<int>)
    ensures
        split(s, sep).len() == starts.len() >= 1,
        starts[0] == 0,
        forall|i: int|
            0 <= i < starts.len() ==> #[trigger] is_cut_out(s, sep, split(s, sep), starts, i),
        starts[starts.len() - 1] + split(s, sep)[starts.len() - 1].len() == s.len(),
    decreases s.len(),
{
    let parts = split(s, sep);
    if s.len() == 0 {
        assert(parts =~= seq![Seq::<char>::empty()]);
        assert(parts[0] =~= s.subrange(0, 0));
        let starts = seq![0int];
        assert(is_cut_out(s, sep, parts, starts, 0));
        starts
    } else {
        let head = s.drop_last();
        let before = splitting_cuts_at_each_separator(head, sep);
        let old = split(head, sep);
        let n = old.len() - 1;
        assert(s =~= head.push(s.last()));
        if s.last() == sep {
            let starts = before.push(s.len() as int);
            assert forall|i: int| 0 <= i < starts.len() implies #[trigger] is_cut_out(
                s,
                sep,
                parts,
                starts,
                i,
            ) by {
                if i <= n {
                    assert(is_cut_out(head, sep, old, before, i));
                    assert(head.subrange(before[i], before[i] + old[i].len()) =~= s.subrange(
                        before[i],
                        before[i] + old[i].len(),
                    ));
                } else {
                    assert(parts[i] =~= s.subrange(starts[i], starts[i]));
                }
            }
            starts
        } else {
            let starts = before;
            assert forall|i: int| 0 <= i < starts.len() implies #[trigger] is_cut_out(
                s,
                sep,
                parts,
                starts,
                i,
            ) by {
                assert(is_cut_out(head, sep, old, before, i));
                if i < n {
                    assert(head.subrange(before[i], before[i] + old[i].len()) =~= s.subrange(
                        before[i],
                        before[i] + old[i].len(),
                    ));
                } else {
                    assert(parts[i] == old[n].push(s.last()));
                    assert(parts[i] =~= s.subrange(starts[i], starts[i] + parts[i].len()));
                    if parts[i].contains(sep) {
                        let k = choose|k: int| 0 <= k < parts[i].len() && parts[i][k] == sep;
                        assert(old[n][k] == sep);
                    }
                }
            }
            starts
        }
    }
}

/// Splitting gives the pieces of the text.
pub proof fn splitting_gives_the_pieces(s: &[char], sep: char, r: Vec<Vec<char>>) -> (starts: Seq<
    int,
>)
    requires
        call_ensures(split_at_each, (s, sep), r),
    ensures
        r@.len() == starts.len() >= 1,
        starts[0] == 0,
        forall|i: int|
            0 <= i < starts.len() ==> #[trigger] is_cut_out(s@, sep, texts(r@), starts, i),
        starts[starts.len() - 1] + r@[starts.len() - 1]@.len() == s@.len(),
{
    let starts = splitting_cuts_at_each_separator(s@, sep);
    assert(texts(r@).len() == r@.len());
    assert(texts(r@)[r@.len() - 1] == r@[r@.len() - 1]@);
    starts
}

proof fn lemma_first_at(s: Seq<char>, c: char)
    ensures
        match first_at(s, c) {
            Some(i) => 0 <= i < s.len() && s[i] == c && forall|j: int| 0 <= j < i ==> s[j] != c,
            None => forall|j: int| 0 <= j < s.len() ==> s[j] != c,
        },
    decreases s.len(),
{
    if s.len() > 0 {
        let head = s.drop_last();
        lemma_first_at(head, c);
        assert forall|j: int| 0 <= j < head.len() implies head[j] == s[j] by {}
        if first_at(head, c) is None {
            assert forall|j: int| 0 <= j < head.len() implies s[j] != c by {
                assert(head[j] != c);
            }
        } else {
            assert forall|j: int| 0 <= j < first_at(head, c)->0 implies s[j] != c by {
                assert(head[j] != c);
            }
        }
    }
}

proof fn lemma_last_at_bounds(s: Seq<char>, c: char)
    ensures
        match last_at(s, c) {
            Some(i) => 0 <= i < s.len() && s[i] == c && forall|j: int|
                i < j < s.len() ==> s[j] != c,
            None => forall|j: int| 0 <= j < s.len() ==> s[j] != c,
        },
    decreases s.len(),
{
    if s.len() > 0 && s.last() != c {
        let head = s.drop_last();
        lemma_last_at_bounds(head, c);
        if last_at(head, c) is None {
            assert forall|j: int| 0 <= j < s.len() implies s[j] != c by {
                if j < head.len() {
                    assert(head[j] != c);
                }
            }
        } else {
            let i = last_at(head, c)->0;
            assert forall|j: int| i < j < s.len() implies s[j] != c by {
                if j < head.len() {
                    assert(head[j] != c);
                }
            }
        }
    }
}

/// The first place of a character has none before it, the last one none behind it, and none is found
/// only where there is none.
pub proof fn places_are_the_first_and_the_last(
    s: &[char],
    c: char,
    first: Option<usize>,
    last: Option<usize>,
)
    requires
        call_ensures(find_first, (s, c), first),
        call_ensures(find_last, (s, c), last),
    ensures
        first is Some <==> s@.contains(c),
        last is Some <==> s@.contains(c),
        first matches Some(i) ==> i < s@.len() && s@[i as int] == c && forall|j: int|
            0 <= j < i ==> s@[j] != c,
        last matches Some(i) ==> i < s@.len() && s@[i as int] == c && forall|j: int|
            i < j < s@.len() ==> s@[j] != c,
{
    lemma_first_at(s@, c);
    lemma_last_at_bounds(s@, c);
    if first is Some {
        assert(s@[first->0 as int] == c);
    }
    if last is Some {
        assert(s@[last->0 as int] == c);
    }
}

/// Digits are read in base ten: one more digit is ten times the number and that digit, the value of a
/// single one is its distance from `0`, and a text that is empty or holds anything else is no number.
pub proof fn digits_are_read_in_base_ten(s: Seq<char>, c: char)
    ensures
        digits_value(s.push(c)) is Some <==> '0' <= c <= '9' && (s.len() == 0 || digits_value(
            s,
        ) is Some),
        '0' <= c <= '9' && s.len() == 0 ==> digits_value(s.push(c)) == Some(
            (c as int - '0' as int) as nat,
        ),
        '0' <= c <= '9' && digits_value(s) is Some ==> digits_value(s.push(c)) == Some(
            (10 * digits_value(s)->0 + (c as int - '0' as int)) as nat,
        ),
        s.len() == 0 ==> digits_value(s) is None,
{
    assert(s.push(c).drop_last() =~= s);
    assert(s.push(c).last() == c);
    if s.len() == 0 {
        assert(s.push(c)[0] == c);
    }
}

/// A sign before the digits counts once: a plus changes nothing, a minus turns the number into its
/// opposite, and neither stands before another sign.
pub proof fn a_sign_stands_before_the_digits(s: Seq<char>)
    ensures
        signed_value(seq!['-'] + s) is Some <==> digits_value(s) is Some,
        digits_value(s) is Some ==> signed_value(seq!['-'] + s) == Some(
            -(digits_value(s)->0 as int),
        ),
        signed_value(seq!['+'] + s) is Some <==> digits_value(s) is Some,
        digits_value(s) is Some ==> signed_value(seq!['+'] + s) == Some(digits_value(s)->0 as int),
        digits_value(s) is Some ==> unsigned_value(seq!['+'] + s) == digits_value(s),
        digits_value(s) is Some ==> signed_value(s) == Some(digits_value(s)->0 as int),
        digits_value(s) is Some ==> unsigned_value(s) == digits_value(s),
        unsigned_value(seq!['-'] + s) is None,
{
    assert((seq!['-'] + s).drop_first() =~= s);
    assert((seq!['+'] + s).drop_first() =~= s);
    if digits_value(s) is Some {
        lemma_first_is_digit(s);
    }
    if digits_value(seq!['-'] + s) is Some {
        lemma_first_is_digit(seq!['-'] + s);
    }
}

proof fn lemma_first_is_digit(s: Seq<char>)
    requires
        digits_value(s) is Some,
    ensures
        s.len() > 0,
        is_digit(s[0]),
    decreases s.len(),
{
    if s.len() > 1 {
        lemma_first_is_digit(s.drop_last());
    }
}

/// A text is read as a number exactly where it spells one that fits, and then as that number.
pub proof fn numbers_that_fit_are_read(
    s: &[char],
    limit: u64,
    u: Option<u64>,
    i: Option<i64>,
    j: Option<i32>,
)
    requires
        call_ensures(parse_unsigned, (s, limit), u),
        call_ensures(parse_i64, (s,), i),
        call_ensures(parse_i32, (s,), j),
    ensures
        u is Some <==> unsigned_value(s@) is Some && unsigned_value(s@)->0 <= limit,
        u matches Some(v) ==> unsigned_value(s@) == Some(v as nat),
        i is Some <==> signed_value(s@) is Some && -0x8000_0000_0000_0000 <= signed_value(s@)->0
            <= 0x7fff_ffff_ffff_ffff,
        i matches Some(v) ==> signed_value(s@) == Some(v as int),
        j is Some <==> signed_value(s@) is Some && -0x8000_0000 <= signed_value(s@)->0
            <= 0x7fff_ffff,
        j matches Some(v) ==> signed_value(s@) == Some(v as int),
{
}

/// A number is printed in its digits, without a zero before them.
pub proof fn numbers_are_printed_without_leading_zeros(n: nat)
    ensures
        decimal(n).len() >= 1,
        n > 0 ==> decimal(n)[0] != '0',
        n < 10 ==> decimal(n).len() == 1 && decimal(n)[0] as int == '0' as int + n,
        n >= 10 ==> decimal(n).drop_last() == decimal(n / 10) && decimal(n).last() as int == '0' as int
            + n % 10,
    decreases n,
{
    if n >= 10 {
        numbers_are_printed_without_leading_zeros(n / 10);
        assert(decimal(n).drop_last() =~= decimal(n / 10));
        assert(decimal(n)[0] == decimal(n / 10)[0]);
    }
}

/// Printing a number or a text puts it behind what is there.
pub proof fn printing_appends(
    out: &mut Vec<char>,
    n: u64,
    r: (),
    more: &mut Vec<char>,
    s: &str,
    q: (),
)
    requires
        call_ensures(push_decimal, (out, n), r),
        call_ensures(push_text, (more, s), q),
    ensures
        final(out)@ == old(out)@ + decimal(n as nat),
        final(more)@ == old(more)@ + s@,
{
}

/// Texts are taken apart and put together without loss, and compared whole.
pub proof fn texts_are_kept(
    s: &str,
    chars: Vec<char>,
    a: &[char],
    back: String,
    b: &str,
    same: bool,
)
    requires
        call_ensures(chars_of, (s,), chars),
        call_ensures(string_of, (a,), back),
        call_ensures(same_text, (a, b), same),
    ensures
        chars@ == s@,
        back@ == a@,
        same <==> a@ == b@,
{
}

/// Whether a piece of an allowlist is to be ignored.
pub open spec fn is_blank(piece: Seq<char>) -> bool {
    forall|i: int| 0 <= i < piece.len() ==> is_space(#[trigger] piece[i])
}

proof fn lemma_blank(piece: Seq<char>)
    ensures
        is_blank(piece) <==> trimmed(piece).len() == 0,
{
    let cut = trimming_takes_white_space_only(piece);
    if trimmed(piece).len() > 0 {
        assert(!is_space(piece[cut.0]));
    } else {
        assert(cut.0 == cut.1);
    }
}

proof fn lemma_listed_ids(pieces: Seq<Seq<char>>)
    ensures
        match listed_ids(pieces) {
            Ok(ids) => {
                &&& forall|i: int|
                    0 <= i < pieces.len() && !is_blank(#[trigger] pieces[i]) ==> bigint_of(
                        trimmed(pieces[i]),
                    ) is Some && ids.contains(id_of(bigint_of(trimmed(pieces[i]))->0))
                &&& forall|id: u64| #[trigger]
                    ids.contains(id) ==> exists|i: int|
                        0 <= i < pieces.len() && !is_blank(#[trigger] pieces[i]) && bigint_of(
                            trimmed(pieces[i]),
                        ) is Some && id == id_of(bigint_of(trimmed(pieces[i]))->0)
            },
            Err(bad) => exists|i: int|
                0 <= i < pieces.len() && bad == trimmed(#[trigger] pieces[i]) && !is_blank(
                    pieces[i],
                ) && bigint_of(bad) is None && forall|j: int|
                    0 <= j < i && !is_blank(#[trigger] pieces[j]) ==> bigint_of(
                        trimmed(pieces[j]),
                    ) is Some,
        },
    decreases pieces.len(),
{
    if pieces.len() > 0 {
        let head = pieces.drop_last();
        let n = pieces.len() - 1;
        let last = pieces[n];
        lemma_listed_ids(head);
        lemma_blank(last);
        assert forall|i: int| 0 <= i < n implies head[i] == #[trigger] pieces[i] by {}
        match listed_ids(head) {
            Err(bad) => {
                let i = choose|i: int|
                    0 <= i < head.len() && bad == trimmed(#[trigger] head[i]) && !is_blank(head[i])
                        && bigint_of(bad) is None && forall|j: int|
                        0 <= j < i && !is_blank(#[trigger] head[j]) ==> bigint_of(
                            trimmed(head[j]),
                        ) is Some;
                assert(pieces[i] == head[i]);
                assert forall|j: int| 0 <= j < i && !is_blank(#[trigger] pieces[j]) implies bigint_of(
                    trimmed(pieces[j]),
                ) is Some by {
                    assert(head[j] == pieces[j]);
                }
            },
            Ok(ids) => {
                assert forall|j: int| 0 <= j < n && !is_blank(#[trigger] pieces[j]) implies bigint_of(
                    trimmed(pieces[j]),
                ) is Some && ids.contains(id_of(bigint_of(trimmed(pieces[j]))->0)) by {
                    assert(head[j] == pieces[j]);
                }
                if listed_ids(pieces) is Ok {
                    let now = listed_ids(pieces)->Ok_0;
                    assert forall|id: u64| #[trigger] now.contains(id) implies exists|i: int|
                        0 <= i < pieces.len() && !is_blank(#[trigger] pieces[i]) && bigint_of(
                            trimmed(pieces[i]),
                        ) is Some && id == id_of(bigint_of(trimmed(pieces[i]))->0) by {
                        if ids.contains(id) {
                            let i = choose|i: int|
                                0 <= i < head.len() && !is_blank(#[trigger] head[i]) && bigint_of(
                                    trimmed(head[i]),
                                ) is Some && id == id_of(bigint_of(trimmed(head[i]))->0);
                            assert(pieces[i] == head[i]);
                        } else {
                            assert(!is_blank(pieces[n]));
                        }
                    }
                } else {
                    assert(!is_blank(pieces[n]));
                }
            },
        }
    }
}

/// An allowlist allows exactly the rows whose numbers stand in it between commas, with white space
/// around or not; blank pieces are ignored, the first piece that is no number refuses the list, and a
/// list without numbers is none.
pub proof fn an_allowlist_allows_what_it_lists(
    raw: Option<&str>,
    r: Result<Option<HashSet<u64>>, AllowlistError>,
)
    requires
        call_ensures(parse_allowlist, (raw,), r),
    ensures
        raw is None ==> (r matches Ok(set) && set is None),
        raw matches Some(text) ==> {
            let pieces = split(trimmed(text@), ',');
            &&& r is Ok <==> forall|i: int|
                0 <= i < pieces.len() && !is_blank(#[trigger] pieces[i]) ==> bigint_of(
                    trimmed(pieces[i]),
                ) is Some
            &&& r matches Ok(None) ==> forall|i: int|
                0 <= i < pieces.len() ==> is_blank(#[trigger] pieces[i])
            &&& r matches Ok(Some(set)) ==> {
                &&& forall|i: int|
                    0 <= i < pieces.len() && !is_blank(#[trigger] pieces[i]) ==> set@.contains(
                        id_of(bigint_of(trimmed(pieces[i]))->0),
                    )
                &&& forall|id: u64| #[trigger]
                    set@.contains(id) ==> exists|i: int|
                        0 <= i < pieces.len() && !is_blank(#[trigger] pieces[i]) && id == id_of(
                            bigint_of(trimmed(pieces[i]))->0,
                        )
            }
            &&& r matches Err(e) ==> exists|i: int|
                0 <= i < pieces.len() && e.token@ == trimmed(#[trigger] pieces[i]) && bigint_of(
                    e.token@,
                ) is None && forall|j: int|
                    0 <= j < i && !is_blank(#[trigger] pieces[j]) ==> bigint_of(
                        trimmed(pieces[j]),
                    ) is Some
        },
{
    if let Some(text) = raw {
        let pieces = split(trimmed(text@), ',');
        lemma_listed_ids(pieces);
        if listed_ids(pieces) is Ok {
            let ids = listed_ids(pieces)->Ok_0;
            if ids == Set::<u64>::empty() {
                assert forall|i: int| 0 <= i < pieces.len() implies is_blank(
                    #[trigger] pieces[i],
                ) by {
                    if !is_blank(pieces[i]) {
                        assert(ids.contains(id_of(bigint_of(trimmed(pieces[i]))->0)));
                    }
                }
            }
        }
    }
}

/// A piece spells a row number exactly where it spells an integer of 64 bits.
pub proof fn row_numbers_have_64_bits(s: Seq<char>)
    ensures
        bigint_of(s) is Some <==> signed_value(s) is Some && -0x8000_0000_0000_0000 <= signed_value(
            s,
        )->0 <= 0x7fff_ffff_ffff_ffff,
        bigint_of(s) matches Some(v) ==> signed_value(s) == Some(v as int),
{
}

/// Digits are read where they spell a number that is not above the limit.
pub proof fn digits_are_read_up_to_a_limit(s: &[char], limit: u64, r: Option<u64>)
    requires
        call_ensures(parse_digits, (s, limit), r),
    ensures
        r is Some <==> digits_value(s@) is Some && digits_value(s@)->0 <= limit,
        r matches Some(v) ==> digits_value(s@) == Some(v as nat),
{
}

} // verus!
