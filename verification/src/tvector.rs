//! The `tvector` type: a vector of finite single-precision numbers, and its text form `[1, 2, 3]`.
//!
//! Numbers are carried as bit patterns. Reading and printing a single number is the caller's part; what
//! lies around the numbers is done here.
use crate::float_bits::{all_finite, find_infinite, finite_f32, first_infinite, is_finite_f32};
use crate::text::{
    chars_of, is_space, is_tight, joined, lemma_joined_tight, lemma_tight, push_text, split,
    split_at_each, splitting_undoes_joining, string_of, strings, texts, trim, trim_start, trimmed,
};
use vstd::prelude::*;

verus! {

/// The largest number of dimensions.
pub const MAX_DIM: usize = 16_000;

/// A vector.
#[derive(Debug)]
pub struct Tvector {
    /// The bit pattern of each coordinate. All are finite.
    pub data: Vec<u32>,
}

/// Why numbers do not make a vector.
#[derive(Clone, Copy, Debug, PartialEq, Eq, Structural)]
pub enum TvectorError {
    /// There is none.
    Empty,
    /// There are more than `MAX_DIM`.
    TooMany,
    /// One is not finite; the first such stands here.
    NotFinite { index: usize },
}

/// Two vectors that should have the same number of dimensions and do not.
#[derive(Clone, Copy, Debug, PartialEq, Eq, Structural)]
pub struct DimsDiffer {
    pub left: usize,
    pub right: usize,
}

/// What stands against making a vector of these numbers.
pub open spec fn vector_fault(data: Seq<u32>) -> Option<TvectorError> {
    if data.len() == 0 {
        Some(TvectorError::Empty)
    } else if data.len() > MAX_DIM {
        Some(TvectorError::TooMany)
    } else {
        match first_infinite(data) {
            Some(i) => Some(TvectorError::NotFinite { index: i as usize }),
            None => None,
        }
    }
}

impl Tvector {
    /// Whether the vector is a proper one.
    pub open spec fn well_formed(&self) -> bool {
        1 <= self.data@.len() <= MAX_DIM && all_finite(self.data@)
    }

    /// Makes a vector of these numbers.
    pub fn from_vec(data: Vec<u32>) -> (r: Result<Tvector, TvectorError>)
        ensures
            match vector_fault(data@) {
                Some(e) => r == Err::<Tvector, TvectorError>(e),
                None => r is Ok && r->Ok_0.data@ == data@ && r->Ok_0.well_formed(),
            },
    {
        if data.len() == 0 {
            return Err(TvectorError::Empty);
        }
        if data.len() > MAX_DIM {
            return Err(TvectorError::TooMany);
        }
        match find_infinite(data.as_slice()) {
            Some(index) => Err(TvectorError::NotFinite { index }),
            None => Ok(Tvector { data }),
        }
    }

    /// The number of dimensions.
    #[must_use]
    pub fn dim(&self) -> (r: usize)
        ensures
            r == self.data@.len(),
    {
        self.data.len()
    }

    /// The coordinates.
    #[must_use]
    pub fn as_slice(&self) -> (r: &[u32])
        ensures
            r@ == self.data@,
    {
        self.data.as_slice()
    }

    /// Checks that two vectors have the same number of dimensions.
    pub fn check_same_dim(&self, other: &Tvector) -> (r: Result<(), DimsDiffer>)
        ensures
            r == (if self.data@.len() == other.data@.len() {
                Ok::<(), DimsDiffer>(())
            } else {
                Err::<(), DimsDiffer>(
                    (DimsDiffer {
                        left: self.data@.len() as usize,
                        right: other.data@.len() as usize,
                    }),
                )
            }),
    {
        if self.dim() != other.dim() {
            return Err(DimsDiffer { left: self.dim(), right: other.dim() });
        }
        Ok(())
    }
}

/// Why a text is no list of numbers.
#[derive(Clone, Copy, Debug, PartialEq, Eq, Structural)]
pub enum ParseTvectorError {
    /// There is nothing.
    EmptyInput,
    /// It does not begin with `[`.
    NoOpening,
    /// It does not end with `]`.
    NoClosing,
    /// There is nothing between the brackets.
    NoDimension,
    /// There is nothing between two commas.
    EmptyValue { position: usize },
    /// There is no number between two commas.
    BadNumber { position: usize },
    /// The number between two commas is not finite.
    NotFinite { position: usize },
}

/// The texts between the brackets and commas.
pub open spec fn tokens_of(s: Seq<char>) -> Result<Seq<Seq<char>>, ParseTvectorError> {
    let t = trimmed(s);
    if t.len() == 0 {
        Err(ParseTvectorError::EmptyInput)
    } else if t[0] != '[' {
        Err(ParseTvectorError::NoOpening)
    } else if t.len() == 1 || t.last() != ']' {
        Err(ParseTvectorError::NoClosing)
    } else {
        let body = trimmed(t.subrange(1, t.len() - 1));
        if body.len() == 0 {
            Err(ParseTvectorError::NoDimension)
        } else {
            Ok(split(body, ',').map_values(|piece: Seq<char>| trimmed(piece)))
        }
    }
}

/// What stands against the number at a position: the token is empty, spells no number, or the number
/// is not finite.
pub open spec fn token_fault(
    token: Seq<char>,
    number: Option<u32>,
    position: int,
) -> Option<ParseTvectorError> {
    if token.len() == 0 {
        Some(ParseTvectorError::EmptyValue { position: position as usize })
    } else {
        match number {
            None => Some(ParseTvectorError::BadNumber { position: position as usize }),
            Some(bits) => if finite_f32(bits) {
                None
            } else {
                Some(ParseTvectorError::NotFinite { position: position as usize })
            },
        }
    }
}

/// The numbers of a list, or what stands against the first that is not in order.
pub open spec fn values_of(
    tokens: Seq<Seq<char>>,
    numbers: Seq<Option<u32>>,
) -> Result<Seq<u32>, ParseTvectorError>
    decreases tokens.len(),
{
    if tokens.len() == 0 {
        Ok(Seq::empty())
    } else {
        let k = tokens.len() - 1;
        match values_of(tokens.drop_last(), numbers) {
            Err(e) => Err(e),
            Ok(values) => match token_fault(tokens[k], numbers[k], k) {
                Some(e) => Err(e),
                None => Ok(values.push(numbers[k]->0)),
            },
        }
    }
}

/// The texts between the brackets and commas.
pub fn tvector_tokens(s: &str) -> (r: Result<Vec<String>, ParseTvectorError>)
    ensures
        match tokens_of(s@) {
            Ok(tokens) => r is Ok && strings(r->Ok_0@) == tokens,
            Err(e) => r == Err::<Vec<String>, ParseTvectorError>(e),
        },
{
    let chars: Vec<char> = chars_of(s);
    let t: &[char] = trim(chars.as_slice());
    let n: usize = t.len();
    if n == 0 {
        return Err(ParseTvectorError::EmptyInput);
    }
    if t[0] != '[' {
        return Err(ParseTvectorError::NoOpening);
    }
    if n == 1 || t[n - 1] != ']' {
        return Err(ParseTvectorError::NoClosing);
    }
    let body: &[char] = trim(vstd::slice::slice_subrange(t, 1, n - 1));
    if body.len() == 0 {
        return Err(ParseTvectorError::NoDimension);
    }
    let pieces: Vec<Vec<char>> = split_at_each(body, ',');
    let ghost parts = split(body@, ',');
    let ghost tokens = parts.map_values(|piece: Seq<char>| trimmed(piece));
    let mut out: Vec<String> = Vec::new();
    let mut i: usize = 0;
    while i < pieces.len()
        invariant
            i <= pieces@.len(),
            texts(pieces@) == parts,
            tokens == parts.map_values(|piece: Seq<char>| trimmed(piece)),
            strings(out@) == tokens.take(i as int),
        decreases pieces@.len() - i,
    {
        let token: String = string_of(trim(pieces[i].as_slice()));
        assert(parts[i as int] == pieces@[i as int]@);
        let ghost before = strings(out@);
        let ghost text = token@;
        out.push(token);
        proof {
            assert(strings(out@) =~= before.push(text));
            assert(tokens.take(i + 1) =~= tokens.take(i as int).push(tokens[i as int]));
        }
        i += 1;
    }
    assert(tokens.take(i as int) =~= tokens);
    Ok(out)
}

/// The numbers of a list, given what each token spells.
pub fn tvector_values(tokens: &[String], numbers: &[Option<u32>]) -> (r: Result<
    Vec<u32>,
    ParseTvectorError,
>)
    requires
        tokens@.len() == numbers@.len(),
    ensures
        match values_of(strings(tokens@), numbers@) {
            Ok(values) => r is Ok && r->Ok_0@ == values,
            Err(e) => r == Err::<Vec<u32>, ParseTvectorError>(e),
        },
{
    let ghost all = strings(tokens@);
    let mut out: Vec<u32> = Vec::new();
    let mut i: usize = 0;
    while i < tokens.len()
        invariant
            i <= tokens@.len(),
            tokens@.len() == numbers@.len(),
            all == strings(tokens@),
            values_of(all.take(i as int), numbers@) == Ok::<Seq<u32>, ParseTvectorError>(out@),
        decreases tokens@.len() - i,
    {
        let ghost now = all.take(i + 1);
        proof {
            assert(now.drop_last() =~= all.take(i as int));
            assert(now[i as int] == tokens@[i as int]@);
            lemma_values_prefix(all, numbers@, (i + 1) as nat);
        }
        let token: Vec<char> = chars_of(tokens[i].as_str());
        if token.len() == 0 {
            return Err(ParseTvectorError::EmptyValue { position: i });
        }
        match numbers[i] {
            None => {
                return Err(ParseTvectorError::BadNumber { position: i });
            },
            Some(bits) => {
                if !is_finite_f32(bits) {
                    return Err(ParseTvectorError::NotFinite { position: i });
                }
                out.push(bits);
            },
        }
        i += 1;
    }
    assert(all.take(i as int) =~= all);
    Ok(out)
}

proof fn lemma_values_prefix(tokens: Seq<Seq<char>>, numbers: Seq<Option<u32>>, k: nat)
    requires
        k <= tokens.len(),
    ensures
        values_of(tokens.take(k as int), numbers) is Err ==> values_of(tokens, numbers)
            == values_of(tokens.take(k as int), numbers),
    decreases tokens.len(),
{
    if k < tokens.len() {
        assert(tokens.drop_last().take(k as int) =~= tokens.take(k as int));
        lemma_values_prefix(tokens.drop_last(), numbers, k);
    } else {
        assert(tokens.take(k as int) =~= tokens);
    }
}

/// Whether `read` may answer with this number when it is asked about this token.
pub open spec fn may_read<F: Fn(&str) -> Option<u32>>(
    read: F,
    token: Seq<char>,
    number: Option<u32>,
) -> bool {
    exists|t: &str| t@ == token && #[trigger] call_ensures(read, (t,), number)
}

/// Whether `read` may answer with these numbers when it is asked about these tokens.
pub open spec fn read_as<F: Fn(&str) -> Option<u32>>(
    read: F,
    tokens: Seq<Seq<char>>,
    numbers: Seq<Option<u32>>,
) -> bool {
    &&& numbers.len() == tokens.len()
    &&& forall|i: int|
        0 <= i < tokens.len() ==> #[trigger] may_read(read, tokens[i], numbers[i])
}

/// Reads a list of numbers; `read` says which number a token spells, if any.
pub fn parse_tvector<F: Fn(&str) -> Option<u32>>(s: &str, read: F) -> (r: Result<
    Vec<u32>,
    ParseTvectorError,
>)
    requires
        forall|t: &str| #[trigger] call_requires(read, (t,)),
    ensures
        match tokens_of(s@) {
            Err(e) => r == Err::<Vec<u32>, ParseTvectorError>(e),
            Ok(tokens) => exists|numbers: Seq<Option<u32>>|
                #[trigger] read_as(read, tokens, numbers) && match values_of(tokens, numbers) {
                    Ok(values) => r is Ok && r->Ok_0@ == values,
                    Err(e) => r == Err::<Vec<u32>, ParseTvectorError>(e),
                },
        },
{
    match tvector_tokens(s) {
        Err(e) => Err(e),
        Ok(tokens) => {
            let mut numbers: Vec<Option<u32>> = Vec::new();
            let mut i: usize = 0;
            while i < tokens.len()
                invariant
                    i <= tokens@.len(),
                    forall|t: &str| #[trigger] call_requires(read, (t,)),
                    read_as(read, strings(tokens@).take(i as int), numbers@),
                decreases tokens@.len() - i,
            {
                let t: &str = tokens[i].as_str();
                let number: Option<u32> = read(t);
                let ghost before = numbers@;
                numbers.push(number);
                proof {
                    let now = strings(tokens@).take(i + 1);
                    assert forall|j: int| 0 <= j < now.len() implies #[trigger] may_read(
                        read,
                        now[j],
                        numbers@[j],
                    ) by {
                        if j < i {
                            assert(may_read(read, strings(tokens@).take(i as int)[j], before[j]));
                        } else {
                            assert(t@ == now[j]);
                            assert(call_ensures(read, (t,), number));
                        }
                    }
                }
                i += 1;
            }
            assert(strings(tokens@).take(i as int) =~= strings(tokens@));
            tvector_values(tokens.as_slice(), numbers.as_slice())
        },
    }
}

/// The text form of a vector whose numbers print like this.
pub open spec fn text_of(numbers: Seq<Seq<char>>) -> Seq<char> {
    seq!['['] + joined(numbers, seq![',', ' ']) + seq![']']
}

/// The text form of a vector, given how each of its numbers prints.
pub fn tvector_text(numbers: &[String]) -> (r: String)
    ensures
        r@ == text_of(strings(numbers@)),
{
    let ghost all = strings(numbers@);
    let mut out: Vec<char> = Vec::new();
    out.push('[');
    let mut i: usize = 0;
    while i < numbers.len()
        invariant
            i <= numbers@.len(),
            all == strings(numbers@),
            out@ == seq!['['] + joined(all.take(i as int), seq![',', ' ']),
        decreases numbers@.len() - i,
    {
        let ghost before = out@;
        let ghost now = all.take(i + 1);
        proof {
            assert(now.drop_last() =~= all.take(i as int));
            assert(now.last() == numbers@[i as int]@);
        }
        if i > 0 {
            out.push(',');
            out.push(' ');
            assert(out@ =~= before + seq![',', ' ']);
        }
        push_text(&mut out, numbers[i].as_str());
        proof {
            if i > 0 {
                assert(out@ =~= seq!['['] + joined(now, seq![',', ' ']));
            } else {
                assert(all.take(0) =~= Seq::<Seq<char>>::empty());
                assert(now[0] == now.last());
                assert(out@ =~= seq!['['] + joined(now, seq![',', ' ']));
            }
        }
        i += 1;
    }
    assert(all.take(i as int) =~= all);
    out.push(']');
    assert(out@ =~= text_of(all));
    string_of(out.as_slice())
}

/// Reading the text form of a vector back gives the texts of its numbers, provided that each is more
/// than nothing, holds no comma, and neither begins nor ends with white space.
pub proof fn written_vector_reads_back(numbers: Seq<Seq<char>>)
    requires
        numbers.len() > 0,
        forall|i: int|
            0 <= i < numbers.len() ==> is_tight(#[trigger] numbers[i]) && !numbers[i].contains(','),
    ensures
        tokens_of(text_of(numbers)) == Ok::<Seq<Seq<char>>, ParseTvectorError>(numbers),
{
    let sep = seq![',', ' '];
    let body = joined(numbers, sep);
    let s = text_of(numbers);
    assert(s[0] == '[' && s.last() == ']');
    lemma_tight(s);
    assert(s.subrange(1, s.len() - 1) =~= body);
    lemma_joined_tight(numbers, sep);
    lemma_tight(body);
    assert(sep =~= seq![','] + seq![' ']);
    assert(!seq![' '].contains(','));
    splitting_undoes_joining(numbers, ',', seq![' ']);
    let pieces = split(body, ',');
    assert forall|i: int| 0 <= i < numbers.len() implies trimmed(#[trigger] pieces[i])
        == numbers[i] by {
        let t = numbers[i];
        assert(is_tight(t));
        lemma_tight(t);
        if i > 0 {
            let p = seq![' '] + t;
            assert(p.drop_first() =~= t);
            assert(is_space(p[0]));
            assert(trim_start(p) == trim_start(t));
        }
    }
    assert(pieces.map_values(|piece: Seq<char>| trimmed(piece)) =~= numbers);
}

/// Whether `read` answers with these numbers, and with no others, when it is asked about their texts.
pub open spec fn reads_back<F: Fn(&str) -> Option<u32>>(
    read: F,
    printed: Seq<Seq<char>>,
    data: Seq<u32>,
) -> bool {
    forall|i: int, number: Option<u32>|
        0 <= i < data.len() && #[trigger] may_read(read, printed[i], number) ==> number == Some(
            data[i],
        )
}

proof fn lemma_values_all_in_order(tokens: Seq<Seq<char>>, numbers: Seq<Option<u32>>, data: Seq<u32>)
    requires
        tokens.len() == data.len() <= numbers.len(),
        forall|i: int|
            0 <= i < data.len() ==> numbers[i] == Some(#[trigger] data[i]) && finite_f32(data[i])
                && tokens[i].len() > 0,
    ensures
        values_of(tokens, numbers) == Ok::<Seq<u32>, ParseTvectorError>(data),
    decreases tokens.len(),
{
    if tokens.len() > 0 {
        let head = data.drop_last();
        assert forall|i: int| 0 <= i < head.len() implies numbers[i] == Some(#[trigger] head[i])
            && finite_f32(head[i]) && tokens.drop_last()[i].len() > 0 by {
            assert(head[i] == data[i]);
        }
        lemma_values_all_in_order(tokens.drop_last(), numbers, head);
        assert(data.last() == data[data.len() - 1]);
        assert(head.push(data.last()) =~= data);
    } else {
        assert(data =~= Seq::<u32>::empty());
    }
}

/// The text form of a vector reads back as the same vector, with any way of reading numbers that reads
/// each of its printed numbers back.
pub proof fn written_vector_is_read_as_itself<F: Fn(&str) -> Option<u32>>(
    v: Tvector,
    printed: Seq<Seq<char>>,
    read: F,
    numbers: Seq<Option<u32>>,
)
    requires
        v.well_formed(),
        printed.len() == v.data@.len(),
        forall|i: int|
            0 <= i < printed.len() ==> is_tight(#[trigger] printed[i]) && !printed[i].contains(','),
        reads_back(read, printed, v.data@),
        read_as(read, printed, numbers),
    ensures
        tokens_of(text_of(printed)) == Ok::<Seq<Seq<char>>, ParseTvectorError>(printed),
        values_of(printed, numbers) == Ok::<Seq<u32>, ParseTvectorError>(v.data@),
{
    let data = v.data@;
    written_vector_reads_back(printed);
    assert forall|i: int| 0 <= i < data.len() implies numbers[i] == Some(#[trigger] data[i])
        && finite_f32(data[i]) && printed[i].len() > 0 by {
        assert(may_read(read, printed[i], numbers[i]));
        assert(is_tight(printed[i]));
    }
    lemma_values_all_in_order(printed, numbers, data);
}

} // verus!
