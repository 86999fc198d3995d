//! Text as characters: trimming, splitting, decimal numbers.
use vstd::prelude::*;

verus! {

/// `String::push`: appends one character.
pub assume_specification[ String::push ](s: &mut String, ch: char)
    ensures
        final(s)@ == old(s)@.push(ch),
;

/// Whether a character is white space in the sense of Unicode.
pub open spec fn is_space(c: char) -> bool {
    ||| '\u{9}' <= c <= '\u{D}'
    ||| c == '\u{20}'
    ||| c == '\u{85}'
    ||| c == '\u{A0}'
    ||| c == '\u{1680}'
    ||| '\u{2000}' <= c <= '\u{200A}'
    ||| c == '\u{2028}'
    ||| c == '\u{2029}'
    ||| c == '\u{202F}'
    ||| c == '\u{205F}'
    ||| c == '\u{3000}'
}

/// Text without the white space at its start.
pub open spec fn trim_start(s: Seq<char>) -> Seq<char>
    decreases s.len(),
{
    if s.len() > 0 && is_space(s[0]) {
        trim_start(s.drop_first())
    } else {
        s
    }
}

/// Text without the white space at its end.
pub open spec fn trim_end(s: Seq<char>) -> Seq<char>
    decreases s.len(),
{
    if s.len() > 0 && is_space(s.last()) {
        trim_end(s.drop_last())
    } else {
        s
    }
}

/// Text without the white space around it.
pub open spec fn trimmed(s: Seq<char>) -> Seq<char> {
    trim_end(trim_start(s))
}

/// The pieces of a text between the separators; one more piece than there are separators.
pub open spec fn split(s: Seq<char>, sep: char) -> Seq<Seq<char>>
    decreases s.len(),
{
    if s.len() == 0 {
        seq![Seq::empty()]
    } else {
        let parts = split(s.drop_last(), sep);
        if s.last() == sep {
            parts.push(Seq::empty())
        } else {
            parts.drop_last().push(parts.last().push(s.last()))
        }
    }
}

/// Where a character first stands.
pub open spec fn first_at(s: Seq<char>, c: char) -> Option<int>
    decreases s.len(),
{
    if s.len() == 0 {
        None
    } else {
        match first_at(s.drop_last(), c) {
            Some(i) => Some(i),
            None => if s.last() == c {
                Some(s.len() - 1)
            } else {
                None
            },
        }
    }
}

/// Where a character last stands.
pub open spec fn last_at(s: Seq<char>, c: char) -> Option<int>
    decreases s.len(),
{
    if s.len() == 0 {
        None
    } else if s.last() == c {
        Some(s.len() - 1)
    } else {
        last_at(s.drop_last(), c)
    }
}

/// Whether a character is a decimal digit.
pub open spec fn is_digit(c: char) -> bool {
    '0' <= c <= '9'
}

/// The value of a digit.
pub open spec fn digit_value(c: char) -> nat {
    (c as int - '0' as int) as nat
}

/// The number that a non-empty string of digits spells.
pub open spec fn digits_value(s: Seq<char>) -> Option<nat>
    decreases s.len(),
{
    if s.len() == 0 || !is_digit(s.last()) {
        None
    } else if s.len() == 1 {
        Some(digit_value(s[0]))
    } else {
        match digits_value(s.drop_last()) {
            Some(v) => Some(10 * v + digit_value(s.last())),
            None => None,
        }
    }
}

/// The number that digits with an optional sign spell.
pub open spec fn signed_value(s: Seq<char>) -> Option<int> {
    if s.len() > 0 && s[0] == '-' {
        match digits_value(s.drop_first()) {
            Some(v) => Some(-(v as int)),
            None => None,
        }
    } else {
        match unsigned_value(s) {
            Some(v) => Some(v as int),
            None => None,
        }
    }
}

/// The number that digits with an optional plus sign spell.
pub open spec fn unsigned_value(s: Seq<char>) -> Option<nat> {
    if s.len() > 0 && s[0] == '+' {
        digits_value(s.drop_first())
    } else {
        digits_value(s)
    }
}

/// The characters of a text.
pub fn chars_of(s: &str) -> (r: Vec<char>)
    ensures
        r@ == s@,
{
    let mut out: Vec<char> = Vec::new();
    for c in it: s.chars()
        invariant
            it.seq() == s@,
            out@ == it.seq().take(it.index()),
    {
        out.push(c);
    }
    assert(s@.take(s@.len() as int) =~= s@);
    out
}

/// A text of these characters.
pub fn string_of(chars: &[char]) -> (r: String)
    ensures
        r@ == chars@,
{
    let mut out: String = String::new();
    let mut i: usize = 0;
    while i < chars.len()
        invariant
            i <= chars@.len(),
            out@ == chars@.take(i as int),
        decreases chars@.len() - i,
    {
        out.push(chars[i]);
        assert(chars@.take(i + 1) =~= chars@.take(i as int).push(chars@[i as int]));
        i += 1;
    }
    assert(chars@.take(i as int) =~= chars@);
    out
}

/// Whether a character is white space.
pub fn is_white(c: char) -> (r: bool)
    ensures
        r == is_space(c),
{
    ('\u{9}' <= c && c <= '\u{D}') || c == '\u{20}' || c == '\u{85}' || c == '\u{A0}' || c
        == '\u{1680}' || ('\u{2000}' <= c && c <= '\u{200A}') || c == '\u{2028}' || c == '\u{2029}'
        || c == '\u{202F}' || c == '\u{205F}' || c == '\u{3000}'
}

/// Text without the white space around it.
pub fn trim<'a>(s: &'a [char]) -> (r: &'a [char])
    ensures
        r@ == trimmed(s@),
{
    let mut i: usize = 0;
    assert(s@.skip(0) =~= s@);
    while i < s.len() && is_white(s[i])
        invariant
            i <= s@.len(),
            trim_start(s@) == trim_start(s@.skip(i as int)),
        decreases s@.len() - i,
    {
        assert(s@.skip(i as int).drop_first() =~= s@.skip(i + 1));
        i += 1;
    }
    proof {
        assert(trim_start(s@.skip(i as int)) == s@.skip(i as int)) by {
            if i < s@.len() {
                assert(s@.skip(i as int)[0] == s@[i as int]);
            }
        }
    }
    let n: usize = s.len();
    let mut j: usize = n;
    let ghost body = s@.skip(i as int);
    assert(body.take(n - i) =~= body);
    while j > i && is_white(s[j - 1])
        invariant
            i <= j <= n,
            n == s@.len(),
            body == s@.skip(i as int),
            trim_end(body) == trim_end(body.take(j - i)),
        decreases j,
    {
        let ghost part = body.take(j - i);
        assert(part.last() == s@[j - 1]);
        assert(part.drop_last() =~= body.take(j - 1 - i));
        j -= 1;
    }
    proof {
        let part = body.take(j - i);
        assert(trim_end(part) == part) by {
            if j > i {
                assert(part.last() == s@[j - 1]);
            }
        }
        assert(s@.subrange(i as int, j as int) =~= part);
    }
    vstd::slice::slice_subrange(s, i, j)
}

/// The texts in a vector.
pub open spec fn texts(v: Seq<Vec<char>>) -> Seq<Seq<char>> {
    Seq::new(v.len(), |i: int| v[i]@)
}

/// The pieces of a text between the separators.
pub fn split_at_each(s: &[char], sep: char) -> (r: Vec<Vec<char>>)
    ensures
        texts(r@) == split(s@, sep),
        r@.len() >= 1,
{
    let mut done: Vec<Vec<char>> = Vec::new();
    let mut piece: Vec<char> = Vec::new();
    let mut i: usize = 0;
    assert(texts(done@).push(piece@) =~= split(s@.take(0), sep));
    while i < s.len()
        invariant
            i <= s@.len(),
            texts(done@).push(piece@) == split(s@.take(i as int), sep),
        decreases s@.len() - i,
    {
        let c: char = s[i];
        let ghost before = s@.take(i as int);
        let ghost now = s@.take(i + 1);
        let ghost done0 = texts(done@);
        let ghost piece0 = piece@;
        proof {
            assert(now.drop_last() =~= before);
            assert(now.last() == c);
            assert(done0.push(piece0).drop_last() =~= done0);
        }
        if c == sep {
            done.push(piece);
            piece = Vec::new();
            assert(texts(done@) =~= done0.push(piece0));
        } else {
            piece.push(c);
        }
        assert(texts(done@).push(piece@) =~= split(now, sep));
        i += 1;
    }
    assert(s@.take(i as int) =~= s@);
    let ghost before = texts(done@);
    let ghost tail = piece@;
    done.push(piece);
    assert(texts(done@) =~= before.push(tail));
    done
}

/// Where a character first stands.
pub fn find_first(s: &[char], c: char) -> (r: Option<usize>)
    ensures
        match first_at(s@, c) {
            Some(i) => r is Some && r->0 == i && 0 <= i < s@.len() && s@[i] == c,
            None => r is None,
        },
{
    let mut i: usize = 0;
    while i < s.len()
        invariant
            i <= s@.len(),
            first_at(s@.take(i as int), c) is None,
        decreases s@.len() - i,
    {
        proof {
            assert(s@.take(i + 1).drop_last() =~= s@.take(i as int));
            assert(s@.take(i + 1).last() == s@[i as int]);
        }
        if s[i] == c {
            proof {
                lemma_first_at_prefix(s@, (i + 1) as nat, c);
            }
            return Some(i);
        }
        i += 1;
    }
    assert(s@.take(i as int) =~= s@);
    None
}

proof fn lemma_first_at_prefix(s: Seq<char>, k: nat, c: char)
    requires
        k <= s.len(),
        first_at(s.take(k as int), c) is Some,
    ensures
        first_at(s, c) == first_at(s.take(k as int), c),
    decreases s.len(),
{
    if k < s.len() {
        assert(s.drop_last().take(k as int) =~= s.take(k as int));
        lemma_first_at_prefix(s.drop_last(), k, c);
    } else {
        assert(s.take(k as int) =~= s);
    }
}

/// Where a character last stands.
pub fn find_last(s: &[char], c: char) -> (r: Option<usize>)
    ensures
        match last_at(s@, c) {
            Some(i) => r is Some && r->0 == i && 0 <= i < s@.len() && s@[i] == c,
            None => r is None,
        },
{
    let mut i: usize = s.len();
    assert(s@.take(i as int) =~= s@);
    while i > 0
        invariant
            i <= s@.len(),
            last_at(s@, c) == last_at(s@.take(i as int), c),
        decreases i,
    {
        proof {
            assert(s@.take(i as int).drop_last() =~= s@.take(i - 1));
            assert(s@.take(i as int).last() == s@[i - 1]);
        }
        if s[i - 1] == c {
            return Some(i - 1);
        }
        i -= 1;
    }
    None
}

/// Whether two texts are the same.
pub fn same_text(a: &[char], b: &str) -> (r: bool)
    ensures
        r == (a@ == b@),
{
    let w: Vec<char> = chars_of(b);
    if a.len() != w.len() {
        return false;
    }
    let mut i: usize = 0;
    while i < a.len()
        invariant
            i <= a@.len(),
            a@.len() == w@.len(),
            w@ == b@,
            forall|j: int| 0 <= j < i ==> a@[j] == w@[j],
        decreases a@.len() - i,
    {
        if a[i] != w[i] {
            return false;
        }
        i += 1;
    }
    assert(a@ =~= b@);
    true
}

proof fn lemma_digits_prefix(s: Seq<char>, k: nat)
    requires
        1 <= k <= s.len(),
        digits_value(s) is Some,
    ensures
        digits_value(s.take(k as int)) is Some,
        digits_value(s.take(k as int))->0 <= digits_value(s)->0,
    decreases s.len(),
{
    if k < s.len() {
        assert(s.drop_last().take(k as int) =~= s.take(k as int));
        lemma_digits_prefix(s.drop_last(), k);
    } else {
        assert(s.take(k as int) =~= s);
    }
}

/// Reads digits that spell a number of at most `limit`.
pub fn parse_digits(s: &[char], limit: u64) -> (r: Option<u64>)
    ensures
        r == match digits_value(s@) {
            Some(v) => if v <= limit {
                Some(v as u64)
            } else {
                None
            },
            None => None,
        },
{
    if s.len() == 0 {
        return None;
    }
    let mut acc: u128 = 0;
    let mut i: usize = 0;
    while i < s.len()
        invariant
            i <= s@.len(),
            s@.len() > 0,
            acc <= limit,
            i > 0 ==> digits_value(s@.take(i as int)) == Some(acc as nat),
            i == 0 ==> acc == 0,
        decreases s@.len() - i,
    {
        let c: char = s[i];
        let ghost now = s@.take(i + 1);
        proof {
            assert(now.drop_last() =~= s@.take(i as int));
            assert(now.last() == c);
            assert(i == 0 ==> now[0] == c);
        }
        if !('0' <= c && c <= '9') {
            proof {
                assert(digits_value(now) is None);
                if digits_value(s@) is Some {
                    lemma_digits_prefix(s@, (i + 1) as nat);
                }
            }
            return None;
        }
        acc = 10 * acc + (c as u32 - '0' as u32) as u128;
        assert(digits_value(now) == Some(acc as nat));
        if acc > limit as u128 {
            proof {
                if digits_value(s@) is Some {
                    lemma_digits_prefix(s@, (i + 1) as nat);
                }
            }
            return None;
        }
        i += 1;
    }
    assert(s@.take(i as int) =~= s@);
    Some(acc as u64)
}

/// Reads an unsigned number of at most `limit`.
pub fn parse_unsigned(s: &[char], limit: u64) -> (r: Option<u64>)
    ensures
        r == match unsigned_value(s@) {
            Some(v) => if v <= limit {
                Some(v as u64)
            } else {
                None
            },
            None => None,
        },
{
    if s.len() > 0 && s[0] == '+' {
        let rest: &[char] = vstd::slice::slice_subrange(s, 1, s.len());
        assert(rest@ =~= s@.drop_first());
        parse_digits(rest, limit)
    } else {
        parse_digits(s, limit)
    }
}

/// Reads a signed 64-bit number.
pub fn parse_i64(s: &[char]) -> (r: Option<i64>)
    ensures
        r == match signed_value(s@) {
            Some(v) => if i64::MIN <= v <= i64::MAX {
                Some(v as i64)
            } else {
                None
            },
            None => None,
        },
{
    if s.len() > 0 && s[0] == '-' {
        let rest: &[char] = vstd::slice::slice_subrange(s, 1, s.len());
        assert(rest@ =~= s@.drop_first());
        match parse_digits(rest, 0x8000_0000_0000_0000) {
            Some(m) => {
                if m == 0x8000_0000_0000_0000 {
                    Some(i64::MIN)
                } else {
                    Some(-(m as i64))
                }
            },
            None => None,
        }
    } else {
        match parse_unsigned(s, 0x7fff_ffff_ffff_ffff) {
            Some(m) => Some(m as i64),
            None => None,
        }
    }
}

/// Reads a signed 32-bit number.
pub fn parse_i32(s: &[char]) -> (r: Option<i32>)
    ensures
        r == match signed_value(s@) {
            Some(v) => if i32::MIN <= v <= i32::MAX {
                Some(v as i32)
            } else {
                None
            },
            None => None,
        },
{
    match parse_i64(s) {
        Some(v) => {
            if -0x8000_0000 <= v && v <= 0x7fff_ffff {
                Some(v as i32)
            } else {
                None
            }
        },
        None => None,
    }
}

/// The digit of a value below ten.
pub open spec fn digit_char(d: nat) -> char {
    ('0' as int + d) as char
}

/// The decimal digits of a number.
pub open spec fn decimal(n: nat) -> Seq<char>
    decreases n,
{
    if n < 10 {
        seq![digit_char(n)]
    } else {
        decimal(n / 10).push(digit_char(n % 10))
    }
}

fn digit_of(d: u64) -> (r: char)
    requires
        d < 10,
    ensures
        r == digit_char(d as nat),
{
    if d == 0 {
        '0'
    } else if d == 1 {
        '1'
    } else if d == 2 {
        '2'
    } else if d == 3 {
        '3'
    } else if d == 4 {
        '4'
    } else if d == 5 {
        '5'
    } else if d == 6 {
        '6'
    } else if d == 7 {
        '7'
    } else if d == 8 {
        '8'
    } else {
        '9'
    }
}

/// Appends the decimal digits of a number.
pub fn push_decimal(out: &mut Vec<char>, n: u64)
    ensures
        final(out)@ == old(out)@ + decimal(n as nat),
    decreases n,
{
    if n < 10 {
        out.push(digit_of(n));
        assert(out@ =~= old(out)@ + decimal(n as nat));
    } else {
        push_decimal(out, n / 10);
        out.push(digit_of(n % 10));
        assert(out@ =~= old(out)@ + decimal(n as nat));
    }
}

/// Appends a text.
pub fn push_text(out: &mut Vec<char>, s: &str)
    ensures
        final(out)@ == old(out)@ + s@,
{
    let w: Vec<char> = chars_of(s);
    let mut i: usize = 0;
    while i < w.len()
        invariant
            i <= w@.len(),
            w@ == s@,
            out@ == old(out)@ + s@.take(i as int),
        decreases w@.len() - i,
    {
        out.push(w[i]);
        assert(s@.take(i + 1) =~= s@.take(i as int).push(s@[i as int]));
        assert(out@ =~= old(out)@ + s@.take(i + 1));
        i += 1;
    }
    assert(s@.take(i as int) =~= s@);
}

/// The texts in a vector of strings.
pub open spec fn strings(v: Seq<String>) -> Seq<Seq<char>> {
    Seq::new(v.len(), |i: int| v[i]@)
}

/// Texts one after another, with a separator between each two.
pub open spec fn joined(parts: Seq<Seq<char>>, sep: Seq<char>) -> Seq<char>
    decreases parts.len(),
{
    if parts.len() == 0 {
        Seq::empty()
    } else if parts.len() == 1 {
        parts[0]
    } else {
        joined(parts.drop_last(), sep) + sep + parts.last()
    }
}

/// Whether a text holds something, and neither begins nor ends with white space.
pub open spec fn is_tight(s: Seq<char>) -> bool {
    s.len() > 0 && !is_space(s[0]) && !is_space(s.last())
}

/// Text that neither begins nor ends with white space is trimmed already.
pub proof fn lemma_tight(s: Seq<char>)
    requires
        is_tight(s),
    ensures
        trimmed(s) == s,
{
    lemma_trim_start(s);
    lemma_trim_end(s);
}

/// A separator splits off what follows it, when no other separator does.
pub proof fn lemma_split_last(head: Seq<char>, sep: char, tail: Seq<char>)
    requires
        !tail.contains(sep),
    ensures
        split(head.push(sep) + tail, sep) == split(head, sep).push(tail),
    decreases tail.len(),
{
    let all = head.push(sep) + tail;
    if tail.len() == 0 {
        assert(all.drop_last() =~= head);
        assert(tail =~= Seq::<char>::empty());
        assert(all.last() == sep);
    } else {
        let rest = tail.drop_last();
        assert(all.drop_last() =~= head.push(sep) + rest);
        assert(all.last() == tail.last());
        assert(tail.last() != sep) by {
            assert(tail.contains(tail[tail.len() - 1]));
        }
        assert(!rest.contains(sep)) by {
            if rest.contains(sep) {
                let i = choose|i: int| 0 <= i < rest.len() && rest[i] == sep;
                assert(tail[i] == sep);
            }
        }
        lemma_split_last(head, sep, rest);
        assert(split(head, sep).push(rest).drop_last() =~= split(head, sep));
        assert(rest.push(tail.last()) =~= tail);
    }
}

/// A text without the separator is one piece.
pub proof fn lemma_split_none(s: Seq<char>, sep: char)
    requires
        !s.contains(sep),
    ensures
        split(s, sep) == seq![s],
    decreases s.len(),
{
    if s.len() > 0 {
        let rest = s.drop_last();
        assert(s.contains(s[s.len() - 1]));
        assert(!rest.contains(sep)) by {
            if rest.contains(sep) {
                let i = choose|i: int| 0 <= i < rest.len() && rest[i] == sep;
                assert(s[i] == sep);
            }
        }
        lemma_split_none(rest, sep);
        assert(seq![rest].drop_last() =~= Seq::<Seq<char>>::empty());
        assert(rest.push(s.last()) =~= s);
        assert(split(s, sep) =~= seq![s]);
    } else {
        assert(s =~= Seq::<char>::empty());
    }
}

/// Splitting joined texts gives the texts, each but the first behind the gap that follows a separator.
pub proof fn splitting_undoes_joining(parts: Seq<Seq<char>>, sep: char, gap: Seq<char>)
    requires
        parts.len() > 0,
        !gap.contains(sep),
        forall|i: int| 0 <= i < parts.len() ==> !(#[trigger] parts[i]).contains(sep),
    ensures
        split(joined(parts, seq![sep] + gap), sep) == Seq::new(
            parts.len(),
            |i: int|
                if i == 0 {
                    parts[i]
                } else {
                    gap + parts[i]
                },
        ),
    decreases parts.len(),
{
    let pieces = Seq::new(
        parts.len(),
        |i: int|
            if i == 0 {
                parts[i]
            } else {
                gap + parts[i]
            },
    );
    if parts.len() == 1 {
        lemma_split_none(parts[0], sep);
        assert(seq![parts[0]] =~= pieces);
    } else {
        let head = parts.drop_last();
        let before = joined(head, seq![sep] + gap);
        let tail = gap + parts.last();
        splitting_undoes_joining(head, sep, gap);
        assert(!tail.contains(sep)) by {
            if tail.contains(sep) {
                let i = choose|i: int| 0 <= i < tail.len() && tail[i] == sep;
                if i < gap.len() {
                    assert(gap[i] == sep);
                } else {
                    assert(parts.last()[i - gap.len()] == sep);
                    assert(parts[parts.len() - 1].contains(sep));
                }
            }
        }
        assert(before + (seq![sep] + gap) + parts.last() =~= before.push(sep) + tail);
        lemma_split_last(before, sep, tail);
        assert(split(before, sep).push(tail) =~= pieces);
    }
}

/// Joined tight texts are tight.
pub proof fn lemma_joined_tight(parts: Seq<Seq<char>>, sep: Seq<char>)
    requires
        parts.len() > 0,
        forall|i: int| 0 <= i < parts.len() ==> is_tight(#[trigger] parts[i]),
    ensures
        is_tight(joined(parts, sep)),
    decreases parts.len(),
{
    if parts.len() > 1 {
        lemma_joined_tight(parts.drop_last(), sep);
        let head = joined(parts.drop_last(), sep);
        assert(is_tight(parts[parts.len() - 1]));
        assert((head + sep + parts.last())[0] == head[0]);
        assert((head + sep + parts.last()).last() == parts.last().last());
    } else {
        assert(is_tight(parts[0]));
    }
}

/// A character that does not follow stands last where it stands.
pub proof fn lemma_last_at(head: Seq<char>, c: char, tail: Seq<char>)
    requires
        !tail.contains(c),
    ensures
        last_at(head.push(c) + tail, c) == Some(head.len() as int),
    decreases tail.len(),
{
    let all = head.push(c) + tail;
    if tail.len() == 0 {
        assert(all =~= head.push(c));
    } else {
        let rest = tail.drop_last();
        assert(tail.contains(tail[tail.len() - 1]));
        assert(all.drop_last() =~= head.push(c) + rest);
        assert(!rest.contains(c)) by {
            if rest.contains(c) {
                let i = choose|i: int| 0 <= i < rest.len() && rest[i] == c;
                assert(tail[i] == c);
            }
        }
        lemma_last_at(head, c, rest);
    }
}

/// A character that does not come before stands first where it stands.
pub proof fn lemma_first_at(head: Seq<char>, c: char, tail: Seq<char>)
    requires
        !head.contains(c),
    ensures
        first_at(head.push(c) + tail, c) == Some(head.len() as int),
{
    let all = head.push(c) + tail;
    lemma_first_at_absent(head, c);
    assert(all.take(head.len() as int + 1) =~= head.push(c));
    assert(head.push(c).drop_last() =~= head);
    lemma_first_at_prefix(all, (head.len() + 1) as nat, c);
}

proof fn lemma_first_at_absent(s: Seq<char>, c: char)
    requires
        !s.contains(c),
    ensures
        first_at(s, c) is None,
    decreases s.len(),
{
    if s.len() > 0 {
        let rest = s.drop_last();
        assert(s.contains(s[s.len() - 1]));
        assert(!rest.contains(c)) by {
            if rest.contains(c) {
                let i = choose|i: int| 0 <= i < rest.len() && rest[i] == c;
                assert(s[i] == c);
            }
        }
        lemma_first_at_absent(rest, c);
    }
}

/// The decimal digits of a number are digits.
pub proof fn lemma_decimal_digits(n: nat, c: char)
    ensures
        decimal(n).contains(c) ==> is_digit(c),
        is_tight(decimal(n)),
    decreases n,
{
    if n >= 10 {
        let head = decimal(n / 10);
        lemma_decimal_digits(n / 10, c);
        if decimal(n).contains(c) {
            let i = choose|i: int| 0 <= i < decimal(n).len() && decimal(n)[i] == c;
            if i < head.len() {
                assert(head[i] == c);
                assert(head.contains(c));
            }
        }
        assert(decimal(n)[0] == head[0]);
    }
}

/// Reading the decimal digits of a number gives the number, with or without a plus sign.
pub proof fn decimal_reads_back(n: nat)
    ensures
        digits_value(decimal(n)) == Some(n),
        decimal(n).len() >= 1,
        is_digit(decimal(n)[0]),
        unsigned_value(decimal(n)) == Some(n),
        signed_value(decimal(n)) == Some(n as int),
    decreases n,
{
    if n >= 10 {
        decimal_reads_back(n / 10);
        let head = decimal(n / 10);
        let all = decimal(n);
        assert(all.drop_last() =~= head);
        assert(all[0] == head[0]);
        assert(is_digit(all.last()));
    }
}

/// The decimal digits of a number, behind a minus sign where it is negative.
pub open spec fn signed_decimal(v: int) -> Seq<char> {
    if v < 0 {
        seq!['-'] + decimal((-v) as nat)
    } else {
        decimal(v as nat)
    }
}

/// Reading the decimal text of a signed number gives the number.
pub proof fn signed_decimal_reads_back(v: int, c: char)
    ensures
        signed_value(signed_decimal(v)) == Some(v),
        is_tight(signed_decimal(v)),
        signed_decimal(v).contains(c) ==> is_digit(c) || c == '-',
{
    let n = if v < 0 {
        (-v) as nat
    } else {
        v as nat
    };
    decimal_reads_back(n);
    lemma_decimal_digits(n, c);
    if v < 0 {
        let s = signed_decimal(v);
        assert(s.drop_first() =~= decimal(n));
        assert(s[0] == '-');
        assert(s.last() == decimal(n).last());
        if s.contains(c) && c != '-' {
            let i = choose|i: int| 0 <= i < s.len() && s[i] == c;
            assert(decimal(n)[i - 1] == c);
            assert(decimal(n).contains(c));
        }
    }
}

/// Trimmed text neither begins nor ends with white space, and trimming it again changes nothing.
pub proof fn trimming_is_settled(s: Seq<char>)
    ensures
        trimmed(s).len() > 0 ==> !is_space(trimmed(s)[0]) && !is_space(trimmed(s).last()),
        trimmed(trimmed(s)) == trimmed(s),
{
    lemma_trim_start(s);
    lemma_trim_end(trim_start(s));
    let t = trimmed(s);
    lemma_trim_start(t);
    lemma_trim_end(trim_start(t));
}

proof fn lemma_trim_start(s: Seq<char>)
    ensures
        trim_start(s).len() > 0 ==> !is_space(trim_start(s)[0]),
        trim_start(s).len() <= s.len(),
        s.len() > 0 && !is_space(s[0]) ==> trim_start(s) == s,
    decreases s.len(),
{
    if s.len() > 0 && is_space(s[0]) {
        lemma_trim_start(s.drop_first());
    }
}

proof fn lemma_trim_end(s: Seq<char>)
    ensures
        trim_end(s).len() > 0 ==> !is_space(trim_end(s).last()) && trim_end(s)[0] == s[0],
        trim_end(s).len() <= s.len(),
        s.len() > 0 && !is_space(s.last()) ==> trim_end(s) == s,
    decreases s.len(),
{
    if s.len() > 0 && is_space(s.last()) {
        lemma_trim_end(s.drop_last());
        if s.len() > 1 {
            assert(s.drop_last()[0] == s[0]);
        }
    }
}

} // verus!
