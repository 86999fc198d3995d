//! What makes a vector, dense or sparse, and what its text is read as.
use vstd::prelude::*;

use crate::float_bits::{all_finite, finite_f32, first_infinite, lemma_finite, lemma_first_infinite};
use crate::sparsevec::{
    coordinate_fault, coordinates_fault, coordinates_of, entry_of, entry_texts, frame_of,
    lemma_sparse_fault, may_read_value, parse_sparsevec, sparse_text, sparsevec_coordinates,
    sparsevec_frame, sparsevec_text, values_read_as, ParseSparsevecError, SparseDimsDiffer, Sparsevec,
    SparsevecError,
};
use crate::text::{decimal, first_at, joined, last_at, signed_value, split, strings, texts, trimmed};
use crate::tvector::{
    may_read, parse_tvector, read_as, token_fault, tokens_of, tvector_text, tvector_tokens,
    tvector_values, values_of, DimsDiffer, ParseTvectorError, Tvector, TvectorError,
};

verus! {

/// Whether a pattern lies below the infinity of its sign.
pub open spec fn is_number(bits: u32) -> bool {
    bits % 0x8000_0000 < 0x7f80_0000
}

proof fn lemma_numbers(values: Seq<u32>)
    ensures
        all_finite(values) <==> forall|i: int|
            0 <= i < values.len() ==> is_number(#[trigger] values[i]),
{
    assert forall|i: int| 0 <= i < values.len() implies (finite_f32(#[trigger] values[i])
        <==> is_number(values[i])) by {
        lemma_finite(values[i]);
    }
    if all_finite(values) {
        assert forall|i: int| 0 <= i < values.len() implies is_number(#[trigger] values[i]) by {
            assert(finite_f32(values[i]));
        }
    }
    if forall|i: int| 0 <= i < values.len() ==> is_number(#[trigger] values[i]) {
        assert forall|i: int| 0 <= i < values.len() implies finite_f32(#[trigger] values[i]) by {
            assert(is_number(values[i]));
        }
    }
}

/// Numbers make a vector exactly where there are between one and sixteen thousand of them and all are
/// finite, and then the vector has these numbers; otherwise the first fault is named.
pub proof fn finite_numbers_make_a_vector(data: Vec<u32>, r: Result<Tvector, TvectorError>)
    requires
        call_ensures(Tvector::from_vec, (data,), r),
    ensures
        r is Ok <==> 1 <= data@.len() <= 16_000 && forall|i: int|
            0 <= i < data@.len() ==> is_number(#[trigger] data@[i]),
        r matches Ok(v) ==> v.data@ == data@,
        data@.len() == 0 ==> r == Err::<Tvector, TvectorError>(TvectorError::Empty),
        data@.len() > 16_000 ==> r == Err::<Tvector, TvectorError>(TvectorError::TooMany),
        r matches Err(TvectorError::NotFinite { index }) ==> index < data@.len() && !is_number(
            data@[index as int],
        ) && forall|j: int| 0 <= j < index ==> is_number(#[trigger] data@[j]),
{
    lemma_numbers(data@);
    lemma_first_infinite(data@);
    if let Some(i) = first_infinite(data@) {
        lemma_finite(data@[i]);
        assert forall|j: int| 0 <= j < i implies is_number(#[trigger] data@[j]) by {
            assert(finite_f32(data@[j]));
            lemma_finite(data@[j]);
        }
    }
}

/// Vectors are compared only where they have the same number of dimensions, dense ones as sparse ones.
pub proof fn vectors_of_other_dimensions_are_told_apart(
    a: &Tvector,
    b: &Tvector,
    r: Result<(), DimsDiffer>,
    x: &Sparsevec,
    y: &Sparsevec,
    q: Result<(), SparseDimsDiffer>,
    d: usize,
    e: i32,
    n: usize,
)
    requires
        call_ensures(Tvector::check_same_dim, (a, b), r),
        call_ensures(Sparsevec::check_same_dim, (x, y), q),
        call_ensures(Tvector::dim, (a,), d),
        call_ensures(Sparsevec::dim, (x,), e),
        call_ensures(Sparsevec::nnz, (x,), n),
    ensures
        r is Ok <==> a.data@.len() == b.data@.len(),
        r matches Err(f) ==> f.left == d && f.right == b.data@.len(),
        q is Ok <==> x.dim == y.dim,
        q matches Err(f) ==> f.left == x.dim && f.right == y.dim,
        d == a.data@.len(),
        e == x.dim,
        n == x.indices@.len(),
{
    assert(b.data.len() == b.data@.len());
    assert(a.data.len() == a.data@.len());
}

proof fn lemma_values(tokens: Seq<Seq<char>>, numbers: Seq<Option<u32>>)
    requires
        tokens.len() <= numbers.len(),
    ensures
        match values_of(tokens, numbers) {
            Ok(values) => values.len() == tokens.len() && forall|i: int|
                0 <= i < tokens.len() ==> token_fault(#[trigger] tokens[i], numbers[i], i) is None
                    && numbers[i] == Some(values[i]),
            Err(e) => exists|i: int|
                0 <= i < tokens.len() && token_fault(#[trigger] tokens[i], numbers[i], i) == Some(e)
                    && forall|j: int|
                    0 <= j < i ==> token_fault(#[trigger] tokens[j], numbers[j], j) is None,
        },
    decreases tokens.len(),
{
    if tokens.len() > 0 {
        let head = tokens.drop_last();
        let n = tokens.len() - 1;
        lemma_values(head, numbers);
        assert forall|i: int| 0 <= i < n implies head[i] == #[trigger] tokens[i] by {}
        match values_of(head, numbers) {
            Err(e) => {
                let i = choose|i: int|
                    0 <= i < head.len() && token_fault(#[trigger] head[i], numbers[i], i) == Some(e)
                        && forall|j: int|
                        0 <= j < i ==> token_fault(#[trigger] head[j], numbers[j], j) is None;
                assert(token_fault(tokens[i], numbers[i], i) == Some(e));
                assert forall|j: int| 0 <= j < i implies token_fault(
                    #[trigger] tokens[j],
                    numbers[j],
                    j,
                ) is None by {
                    assert(head[j] == tokens[j]);
                }
            },
            Ok(values) => {
                assert forall|j: int| 0 <= j < n implies token_fault(
                    #[trigger] tokens[j],
                    numbers[j],
                    j,
                ) is None && numbers[j] == Some(values[j]) by {
                    assert(head[j] == tokens[j]);
                }
                if values_of(tokens, numbers) is Err {
                    assert(token_fault(tokens[n], numbers[n], n) is Some);
                }
            },
        }
    }
}

/// A piece is a coordinate where it is not empty and reads as a finite number.
pub open spec fn is_coordinate(token: Seq<char>, number: Option<u32>) -> bool {
    token.len() > 0 && (number matches Some(bits) && is_number(bits))
}

/// The pieces of a text make coordinates exactly where each is one; they come in order, and the fault
/// that is named is that of the first piece that is none.
#[verifier::rlimit(40)]
pub proof fn coordinates_are_read_in_order(
    tokens: &[String],
    numbers: &[Option<u32>],
    r: Result<Vec<u32>, ParseTvectorError>,
)
    requires
        call_ensures(tvector_values, (tokens, numbers), r),
        tokens@.len() == numbers@.len(),
    ensures
        r is Ok <==> forall|i: int|
            0 <= i < tokens@.len() ==> is_coordinate((#[trigger] tokens@[i])@, numbers@[i]),
        r matches Ok(values) ==> values@.len() == tokens@.len() && forall|i: int|
            0 <= i < values@.len() ==> numbers@[i] == Some(#[trigger] values@[i]),
        r matches Err(e) ==> exists|i: int|
            0 <= i < tokens@.len() && !is_coordinate((#[trigger] tokens@[i])@, numbers@[i]) && (
            forall|j: int|
                0 <= j < i ==> is_coordinate((#[trigger] tokens@[j])@, numbers@[j])) && e == (
            if tokens@[i]@.len() == 0 {
                ParseTvectorError::EmptyValue { position: i as usize }
            } else if numbers@[i] is None {
                ParseTvectorError::BadNumber { position: i as usize }
            } else {
                ParseTvectorError::NotFinite { position: i as usize }
            }),
{
    let ts = strings(tokens@);
    lemma_values(ts, numbers@);
    assert forall|i: int| 0 <= i < ts.len() implies (token_fault(
        #[trigger] ts[i],
        numbers@[i],
        i,
    ) is None <==> is_coordinate(tokens@[i]@, numbers@[i])) by {
        if numbers@[i] is Some {
            lemma_finite(numbers@[i]->0);
        }
    }
    if r is Ok {
        let values = (r->Ok_0)@;
        assert forall|i: int| 0 <= i < tokens@.len() implies is_coordinate(
            (#[trigger] tokens@[i])@,
            numbers@[i],
        ) by {
            assert(token_fault(ts[i], numbers@[i], i) is None);
        }
        assert forall|i: int| 0 <= i < values.len() implies numbers@[i] == Some(
            #[trigger] values[i],
        ) by {
            assert(token_fault(ts[i], numbers@[i], i) is None);
        }
    } else {
        let e = r->Err_0;
        let i = choose|i: int|
            0 <= i < ts.len() && token_fault(#[trigger] ts[i], numbers@[i], i) == Some(e)
                && forall|j: int|
                0 <= j < i ==> token_fault(#[trigger] ts[j], numbers@[j], j) is None;
        assert(ts[i] == tokens@[i]@);
        assert forall|j: int| 0 <= j < i implies is_coordinate(
            (#[trigger] tokens@[j])@,
            numbers@[j],
        ) by {
            assert(token_fault(ts[j], numbers@[j], j) is None);
        }
        assert(!is_coordinate(tokens@[i]@, numbers@[i]));
    }
}

/// The text of a vector stands in square brackets, white space around it aside, and is cut at its commas
/// into pieces without white space around them; each thing that is missing is named.
pub proof fn a_vector_is_written_in_brackets(s: &str, r: Result<Vec<String>, ParseTvectorError>)
    requires
        call_ensures(tvector_tokens, (s,), r),
    ensures
        ({
            let t = trimmed(s@);
            let inside = trimmed(t.subrange(1, t.len() - 1));
            &&& r is Ok <==> t.len() >= 2 && t[0] == '[' && t[t.len() - 1] == ']' && inside.len() > 0
            &&& r matches Ok(tokens) ==> {
                let pieces = split(inside, ',');
                &&& tokens@.len() == pieces.len()
                &&& forall|i: int|
                    0 <= i < pieces.len() ==> (#[trigger] tokens@[i])@ == trimmed(pieces[i])
            }
            &&& t.len() == 0 <==> r == Err::<Vec<String>, ParseTvectorError>(
                ParseTvectorError::EmptyInput,
            )
            &&& t.len() > 0 && t[0] != '[' <==> r == Err::<Vec<String>, ParseTvectorError>(
                ParseTvectorError::NoOpening,
            )
            &&& t.len() > 0 && t[0] == '[' && (t.len() == 1 || t[t.len() - 1] != ']') <==> r == Err::<
                Vec<String>,
                ParseTvectorError,
            >(ParseTvectorError::NoClosing)
        }),
{
    if r is Ok {
        let t = trimmed(s@);
        let inside = trimmed(t.subrange(1, t.len() - 1));
        let tokens = (r->Ok_0)@;
        assert(strings(tokens).len() == tokens.len());
        assert forall|i: int| 0 <= i < split(inside, ',').len() implies (
        #[trigger] tokens[i])@ == trimmed(split(inside, ',')[i]) by {
            assert(strings(tokens)[i] == tokens[i]@);
        }
    }
}

/// A vector is printed as its numbers between square brackets, with a comma and a blank between each
/// two.
pub proof fn a_vector_is_printed_in_brackets(numbers: &[String], r: String)
    requires
        call_ensures(tvector_text, (numbers,), r),
    ensures
        r@.len() >= 2,
        r@[0] == '[' && r@[r@.len() - 1] == ']',
        numbers@.len() == 0 ==> r@.len() == 2,
        numbers@.len() == 1 ==> r@.subrange(1, r@.len() - 1) == numbers@[0]@,
        numbers@.len() == 2 ==> r@.subrange(1, r@.len() - 1) == numbers@[0]@ + seq![',', ' ']
            + numbers@[1]@,
{
    let ns = strings(numbers@);
    let inner = joined(ns, seq![',', ' ']);
    assert(r@.subrange(1, r@.len() - 1) =~= inner);
    if numbers@.len() == 2 {
        let head = ns.drop_last();
        assert(head.len() == 1);
        assert(joined(head, seq![',', ' ']) == head[0]);
        assert(ns.last() == numbers@[1]@);
    }
}

/// Coordinates make a sparse vector exactly where the number of dimensions is within bounds, each
/// position has a value, positions rise from zero and stay below the number of dimensions, and values
/// are finite; and then the vector has these coordinates.
#[verifier::rlimit(40)]
pub proof fn rising_coordinates_make_a_sparse_vector(
    dim: i32,
    indices: Vec<i32>,
    values: Vec<u32>,
    r: Result<Sparsevec, SparsevecError>,
)
    requires
        call_ensures(Sparsevec::new, (dim, indices, values), r),
    ensures
        r is Ok <==> {
            &&& 1 <= dim <= 1_000_000_000
            &&& indices@.len() == values@.len()
            &&& forall|i: int| 0 <= i < indices@.len() ==> 0 <= #[trigger] indices@[i] < dim
            &&& forall|i: int, j: int|
                0 <= i < j < indices@.len() ==> #[trigger] indices@[i] < #[trigger] indices@[j]
            &&& forall|i: int| 0 <= i < values@.len() ==> is_number(#[trigger] values@[i])
        },
        r matches Ok(v) ==> v.dim == dim && v.indices@ == indices@ && v.values@ == values@,
        r == Err::<Sparsevec, SparsevecError>(SparsevecError::DimOutOfRange) <==> !(1 <= dim
            <= 1_000_000_000),
        1 <= dim <= 1_000_000_000 && indices@.len() != values@.len() <==> (r matches Err(
            SparsevecError::LengthMismatch { .. },
        )),
{
    let n = indices@.len();
    if indices@.len() == values@.len() {
        lemma_sparse_fault(dim, indices@, values@, n);
        lemma_numbers(values@);
        assert(indices@.take(n as int) =~= indices@);
        assert(values@.take(n as int) =~= values@);
        lemma_coordinates_fault_kind(dim, indices@, values@, n);
    }
}

proof fn lemma_coordinates_fault_kind(dim: i32, indices: Seq<i32>, values: Seq<u32>, n: nat)
    ensures
        coordinates_fault(dim, indices, values, n) matches Some(e) ==> !(e is DimOutOfRange) && !(
        e is LengthMismatch),
    decreases n,
{
    if n > 0 {
        lemma_coordinates_fault_kind(dim, indices, values, (n - 1) as nat);
    }
}

/// The fault that is named is that of the first coordinate that has one: a position that does not come
/// behind the one before, else one past the dimensions, else a value that is not finite.
pub proof fn the_first_faulty_coordinate_is_named(
    dim: i32,
    indices: Seq<i32>,
    values: Seq<u32>,
    n: nat,
)
    requires
        coordinates_fault(dim, indices, values, n) is Some,
    ensures
        exists|k: int|
            0 <= k < n && coordinates_fault(dim, indices, values, n) == Some(
                if #[trigger] indices[k] <= (if k == 0 {
                    -1
                } else {
                    indices[k - 1] as int
                }) {
                    SparsevecError::NotIncreasing { position: k as usize }
                } else if indices[k] >= dim {
                    SparsevecError::IndexOutOfRange { position: k as usize }
                } else {
                    SparsevecError::NotFinite { position: k as usize }
                },
            ) && coordinates_fault(dim, indices, values, k as nat) is None,
    decreases n,
{
    if n > 0 {
        if coordinates_fault(dim, indices, values, (n - 1) as nat) is Some {
            the_first_faulty_coordinate_is_named(dim, indices, values, (n - 1) as nat);
        } else {
            let k = n - 1;
            assert(coordinate_fault(dim, indices, values, k) is Some);
            assert(indices[k] == indices[k]);
        }
    }
}

proof fn lemma_places(s: Seq<char>, c: char)
    ensures
        first_at(s, c) matches Some(i) ==> 0 <= i < s.len() && s[i] == c && forall|j: int|
            0 <= j < i ==> s[j] != c,
        first_at(s, c) is None ==> forall|j: int| 0 <= j < s.len() ==> s[j] != c,
        last_at(s, c) matches Some(i) ==> 0 <= i < s.len() && s[i] == c && forall|j: int|
            i < j < s.len() ==> s[j] != c,
        last_at(s, c) is None ==> forall|j: int| 0 <= j < s.len() ==> s[j] != c,
    decreases s.len(),
{
    if s.len() > 0 {
        let head = s.drop_last();
        lemma_places(head, c);
        assert forall|j: int| 0 <= j < head.len() implies head[j] == s[j] by {}
        if let Some(i) = first_at(head, c) {
            assert forall|j: int| 0 <= j < i implies s[j] != c by {
                assert(head[j] != c);
            }
        } else {
            assert forall|j: int| 0 <= j < head.len() implies s[j] != c by {
                assert(head[j] != c);
            }
        }
        if s.last() != c {
            if let Some(i) = last_at(head, c) {
                assert forall|j: int| i < j < s.len() implies s[j] != c by {
                    if j < head.len() {
                        assert(head[j] != c);
                    }
                }
            }
        }
    }
}

/// An entry of a sparse vector is a position and a number with the first colon between them: the position
/// is an integer of 32 bits that counts from one.
pub proof fn entries_count_from_one(token: Seq<char>, position: int, colon: int)
    requires
        0 <= colon < trimmed(token).len(),
        trimmed(token)[colon] == ':',
        forall|j: int| 0 <= j < colon ==> #[trigger] trimmed(token)[j] != ':',
    ensures
        ({
            let t = trimmed(token);
            let index = signed_value(trimmed(t.take(colon)));
            let fits = index matches Some(i) && -0x8000_0000 <= i <= 0x7fff_ffff;
            &&& entry_of(token, position) is Ok <==> fits && index->0 >= 1
            &&& entry_of(token, position) matches Ok((i, value)) ==> i == index->0 - 1 && value
                == trimmed(t.skip(colon + 1))
            &&& !fits ==> entry_of(token, position) == Err::<
                (i32, Seq<char>),
                ParseSparsevecError,
            >(ParseSparsevecError::BadIndex { position: position as usize })
            &&& fits && index->0 < 1 ==> entry_of(token, position) == Err::<
                (i32, Seq<char>),
                ParseSparsevecError,
            >(
                ParseSparsevecError::IndexBelowOne {
                    position: position as usize,
                    index: index->0 as i32,
                },
            )
        }),
{
    let t = trimmed(token);
    lemma_places(t, ':');
    let c = first_at(t, ':')->0;
    if c < colon {
        assert(t[c] != ':');
    }
    if colon < c {
        assert(t[colon] != ':');
    }
}

/// An entry without a colon is none.
pub proof fn an_entry_has_a_colon(token: Seq<char>, position: int)
    requires
        !trimmed(token).contains(':'),
    ensures
        entry_of(token, position) == Err::<(i32, Seq<char>), ParseSparsevecError>(
            ParseSparsevecError::NoColon { position: position as usize },
        ),
{
    let t = trimmed(token);
    lemma_places(t, ':');
    if let Some(c) = first_at(t, ':') {
        assert(t[c] == ':');
    }
}

/// The text of a sparse vector is its entries in curly brackets and, behind the last slash, the number of
/// its dimensions; the entries stand between commas, and there may be none.
pub proof fn a_sparse_vector_is_written_in_braces(
    s: &str,
    r: Result<(i32, Vec<Vec<char>>), ParseSparsevecError>,
    slash: int,
)
    requires
        call_ensures(sparsevec_frame, (s,), r),
        0 <= slash < trimmed(s@).len(),
        trimmed(s@)[slash] == '/',
        forall|j: int| slash < j < trimmed(s@).len() ==> #[trigger] trimmed(s@)[j] != '/',
    ensures
        ({
            let t = trimmed(s@);
            let dim = signed_value(trimmed(t.skip(slash + 1)));
            let fits = dim matches Some(d) && -0x8000_0000 <= d <= 0x7fff_ffff;
            let body = trimmed(t.take(slash));
            let opens = body.len() >= 1 && body[0] == '{';
            let closes = body.len() >= 2 && body[body.len() - 1] == '}';
            let list = trimmed(body.subrange(1, body.len() - 1));
            &&& r is Ok <==> fits && opens && closes
            &&& r matches Ok((d, tokens)) ==> {
                &&& d == dim->0
                &&& list.len() == 0 ==> tokens@.len() == 0
                &&& list.len() > 0 ==> texts(tokens@) == split(list, ',')
            }
            &&& !fits ==> r == Err::<(i32, Vec<Vec<char>>), ParseSparsevecError>(
                ParseSparsevecError::BadDim,
            )
            &&& fits && !opens ==> r == Err::<(i32, Vec<Vec<char>>), ParseSparsevecError>(
                ParseSparsevecError::NoOpening,
            )
            &&& fits && opens && !closes ==> r == Err::<(i32, Vec<Vec<char>>), ParseSparsevecError>(
                ParseSparsevecError::NoClosing,
            )
        }),
{
    let t = trimmed(s@);
    lemma_places(t, '/');
    let c = last_at(t, '/')->0;
    if c < slash {
        assert(t[slash] != '/');
    }
    if slash < c {
        assert(t[c] != '/');
    }
    if r is Ok {
        let body = trimmed(t.take(slash));
        let list = trimmed(body.subrange(1, body.len() - 1));
        if list.len() == 0 {
            assert(texts((r->Ok_0).1@).len() == 0);
        }
    }
}

/// A text without a slash is no sparse vector.
pub proof fn a_sparse_vector_has_its_dimensions(
    s: &str,
    r: Result<(i32, Vec<Vec<char>>), ParseSparsevecError>,
)
    requires
        call_ensures(sparsevec_frame, (s,), r),
        !trimmed(s@).contains('/'),
    ensures
        r == Err::<(i32, Vec<Vec<char>>), ParseSparsevecError>(ParseSparsevecError::NoDim),
{
    let t = trimmed(s@);
    lemma_places(t, '/');
    if let Some(c) = last_at(t, '/') {
        assert(t[c] == '/');
    }
}

/// What is wrong with an entry, given what its value spells: its position, then that it spells no number,
/// then that the number is not finite.
pub open spec fn entry_fault(token: Seq<char>, number: Option<u32>, position: int) -> Option<
    ParseSparsevecError,
> {
    match entry_of(token, position) {
        Err(e) => Some(e),
        Ok(_) => match number {
            None => Some(ParseSparsevecError::BadValue { position: position as usize }),
            Some(bits) => if finite_f32(bits) {
                None
            } else {
                Some(ParseSparsevecError::NotFinite { position: position as usize })
            },
        },
    }
}

proof fn lemma_coordinates(tokens: Seq<Seq<char>>, numbers: Seq<Option<u32>>)
    requires
        tokens.len() <= numbers.len(),
    ensures
        match coordinates_of(tokens, numbers) {
            Ok((indices, values)) => indices.len() == tokens.len() && values.len() == tokens.len()
                && forall|i: int|
                0 <= i < tokens.len() ==> entry_of(#[trigger] tokens[i], i) is Ok && entry_of(
                    tokens[i],
                    i,
                )->Ok_0.0 == indices[i] && numbers[i] == Some(values[i]) && finite_f32(values[i]),
            Err(e) => exists|i: int|
                0 <= i < tokens.len() && entry_fault(#[trigger] tokens[i], numbers[i], i) == Some(e)
                    && forall|j: int|
                    0 <= j < i ==> entry_fault(#[trigger] tokens[j], numbers[j], j) is None,
        },
    decreases tokens.len(),
{
    if tokens.len() > 0 {
        let head = tokens.drop_last();
        let n = tokens.len() - 1;
        lemma_coordinates(head, numbers);
        assert forall|i: int| 0 <= i < n implies head[i] == #[trigger] tokens[i] by {}
        match coordinates_of(head, numbers) {
            Err(e) => {
                let i = choose|i: int|
                    0 <= i < head.len() && entry_fault(#[trigger] head[i], numbers[i], i) == Some(e)
                        && forall|j: int|
                        0 <= j < i ==> entry_fault(#[trigger] head[j], numbers[j], j) is None;
                assert(entry_fault(tokens[i], numbers[i], i) == Some(e));
                assert forall|j: int| 0 <= j < i implies entry_fault(
                    #[trigger] tokens[j],
                    numbers[j],
                    j,
                ) is None by {
                    assert(head[j] == tokens[j]);
                }
            },
            Ok((indices, values)) => {
                assert forall|j: int| 0 <= j < n implies entry_of(#[trigger] tokens[j], j) is Ok
                    && entry_of(tokens[j], j)->Ok_0.0 == indices[j] && numbers[j] == Some(values[j])
                    && finite_f32(values[j]) by {
                    assert(head[j] == tokens[j]);
                }
                if coordinates_of(tokens, numbers) is Err {
                    assert(entry_fault(tokens[n], numbers[n], n) is Some);
                    assert forall|j: int| 0 <= j < n implies entry_fault(
                        #[trigger] tokens[j],
                        numbers[j],
                        j,
                    ) is None by {}
                }
            },
        }
    }
}

/// The entries of a text make coordinates exactly where each has a position and a finite number; they
/// come in order.
#[verifier::rlimit(40)]
pub proof fn sparse_coordinates_are_read_in_order(
    tokens: &[Vec<char>],
    numbers: &[Option<u32>],
    r: Result<(Vec<i32>, Vec<u32>), ParseSparsevecError>,
)
    requires
        call_ensures(sparsevec_coordinates, (tokens, numbers), r),
        tokens@.len() == numbers@.len(),
    ensures
        r is Ok <==> forall|i: int|
            0 <= i < tokens@.len() ==> entry_of((#[trigger] tokens@[i])@, i) is Ok && (
            numbers@[i] matches Some(bits) && is_number(bits)),
        r matches Ok((indices, values)) ==> {
            &&& indices@.len() == tokens@.len() && values@.len() == tokens@.len()
            &&& forall|i: int|
                0 <= i < tokens@.len() ==> entry_of((#[trigger] tokens@[i])@, i)->Ok_0.0
                    == indices@[i] && numbers@[i] == Some(values@[i])
        },
        r matches Err(e) ==> exists|i: int|
            0 <= i < tokens@.len() && (forall|j: int|
                0 <= j < i ==> entry_of((#[trigger] tokens@[j])@, j) is Ok && (
                numbers@[j] matches Some(bits) && is_number(bits))) && (
            entry_of((#[trigger] tokens@[i])@, i) matches Err(f) ==> e == f) && (
            entry_of(tokens@[i]@, i) is Ok ==> if numbers@[i] is None {
                e == (ParseSparsevecError::BadValue { position: i as usize })
            } else {
                !is_number(numbers@[i]->0) && e == (ParseSparsevecError::NotFinite {
                    position: i as usize,
                })
            }),
{
    let ts = texts(tokens@);
    lemma_coordinates(ts, numbers@);
    assert forall|i: int| 0 <= i < ts.len() && numbers@[i] is Some implies (is_number(
        #[trigger] numbers@[i]->0,
    ) <==> finite_f32(numbers@[i]->0)) by {
        lemma_finite(numbers@[i]->0);
    }
    if r is Ok {
        assert forall|i: int| 0 <= i < tokens@.len() implies entry_of(
            (#[trigger] tokens@[i])@,
            i,
        ) is Ok && entry_of(tokens@[i]@, i)->Ok_0.0 == (r->Ok_0).0@[i] && numbers@[i] == Some(
            (r->Ok_0).1@[i],
        ) && is_number((r->Ok_0).1@[i]) by {
            assert(ts[i] == tokens@[i]@);
            lemma_finite((r->Ok_0).1@[i]);
        }
    } else {
        let e = r->Err_0;
        let i = choose|i: int|
            0 <= i < ts.len() && entry_fault(#[trigger] ts[i], numbers@[i], i) == Some(e)
                && forall|j: int|
                0 <= j < i ==> entry_fault(#[trigger] ts[j], numbers@[j], j) is None;
        assert(ts[i] == tokens@[i]@);
        if numbers@[i] is Some {
            lemma_finite(numbers@[i]->0);
        }
        assert forall|j: int| 0 <= j < i implies entry_of((#[trigger] tokens@[j])@, j) is Ok && (
        numbers@[j] matches Some(bits) && is_number(bits)) by {
            assert(ts[j] == tokens@[j]@);
            assert(entry_fault(ts[j], numbers@[j], j) is None);
            lemma_finite(numbers@[j]->0);
        }
    }
}

/// A sparse vector is printed as its entries between curly brackets, then a slash and the number of its
/// dimensions.
pub proof fn a_sparse_vector_is_printed_in_braces(v: &Sparsevec, numbers: &[String], r: String)
    requires
        call_ensures(sparsevec_text, (v, numbers), r),
        v.well_formed(),
        numbers@.len() == v.values@.len(),
    ensures
        ({
            let dim = decimal(v.dim as nat);
            let at = r@.len() - dim.len();
            &&& at >= 3
            &&& r@.skip(at) == dim
            &&& r@[0] == '{' && r@[at - 2] == '}' && r@[at - 1] == '/'
            &&& numbers@.len() == 0 ==> at == 3
            &&& numbers@.len() == 1 ==> r@.subrange(1, at - 2) == decimal(
                (v.indices@[0] + 1) as nat,
            ).push(':') + numbers@[0]@
        }),
{
    let es = entry_texts(v.indices@, strings(numbers@));
    let list = joined(es, seq![',']);
    let dim = decimal(v.dim as nat);
    let at = r@.len() - dim.len();
    assert(r@ == sparse_text(v.dim, v.indices@, strings(numbers@)));
    assert(at == list.len() + 3);
    assert(r@.skip(at) =~= dim);
    if numbers@.len() == 1 {
        assert(list == es[0]);
        assert(r@.subrange(1, at - 2) =~= list);
        assert(strings(numbers@)[0] == numbers@[0]@);
    }
}

/// Whether the pieces of a text are read as numbers in order: each piece that is not empty by `read`, and
/// each number finite.
pub open spec fn reads_pieces<F: Fn(&str) -> Option<u32>>(
    read: F,
    pieces: Seq<String>,
    values: Seq<u32>,
) -> bool {
    &&& values.len() == pieces.len()
    &&& forall|i: int|
        0 <= i < pieces.len() ==> {
            &&& (#[trigger] pieces[i])@.len() > 0
            &&& is_number(values[i])
            &&& may_read(read, pieces[i]@, Some(values[i]))
        }
}

/// A dense vector is read piece by piece: the fault of the text itself comes first, then that of the first
/// faulty piece.
#[verifier::rlimit(40)]
pub proof fn a_vector_is_read_piece_by_piece<F: Fn(&str) -> Option<u32>>(
    s: &str,
    read: F,
    t: Result<Vec<String>, ParseTvectorError>,
    r: Result<Vec<u32>, ParseTvectorError>,
)
    requires
        call_ensures(tvector_tokens, (s,), t),
        call_ensures(parse_tvector::<F>, (s, read), r),
    ensures
        t is Err ==> r == Err::<Vec<u32>, ParseTvectorError>(t->Err_0),
        r is Ok ==> t is Ok && reads_pieces(read, (t->Ok_0)@, (r->Ok_0)@),
        t is Ok && r is Err ==> exists|i: int, number: Option<u32>|
            0 <= i < (t->Ok_0)@.len() && #[trigger] may_read(read, (t->Ok_0)@[i]@, number)
                && !is_coordinate((t->Ok_0)@[i]@, number) && r->Err_0 == (
            if (t->Ok_0)@[i]@.len() == 0 {
                ParseTvectorError::EmptyValue { position: i as usize }
            } else if number is None {
                ParseTvectorError::BadNumber { position: i as usize }
            } else {
                ParseTvectorError::NotFinite { position: i as usize }
            }),
{
    if t is Ok {
        let tokens = strings((t->Ok_0)@);
        assert(tokens_of(s@) == Ok::<Seq<Seq<char>>, ParseTvectorError>(tokens));
        let numbers = choose|numbers: Seq<Option<u32>>|
            #[trigger] read_as(read, tokens, numbers) && match values_of(tokens, numbers) {
                Ok(values) => r is Ok && r->Ok_0@ == values,
                Err(e) => r == Err::<Vec<u32>, ParseTvectorError>(e),
            };
        lemma_values(tokens, numbers);
        match values_of(tokens, numbers) {
            Ok(values) => {
                assert forall|i: int| 0 <= i < tokens.len() implies {
                    &&& (#[trigger] (t->Ok_0)@[i])@.len() > 0
                    &&& is_number(values[i])
                    &&& may_read(read, (t->Ok_0)@[i]@, Some(values[i]))
                } by {
                    assert(tokens[i] == (t->Ok_0)@[i]@);
                    assert(token_fault(tokens[i], numbers[i], i) is None);
                    assert(may_read(read, tokens[i], numbers[i]));
                    lemma_finite(values[i]);
                }
            },
            Err(e) => {
                let i = choose|i: int|
                    0 <= i < tokens.len() && token_fault(#[trigger] tokens[i], numbers[i], i) == Some(e)
                        && forall|j: int|
                        0 <= j < i ==> token_fault(#[trigger] tokens[j], numbers[j], j) is None;
                assert(tokens[i] == (t->Ok_0)@[i]@);
                assert(may_read(read, tokens[i], numbers[i]));
                if numbers[i] is Some {
                    lemma_finite(numbers[i]->0);
                }
            },
        }
    }
}

/// A sparse vector is read entry by entry: the fault of the text itself comes first; otherwise the
/// dimensions are those behind the slash, and each entry gives its position and its number, in order.
#[verifier::rlimit(40)]
pub proof fn a_sparse_vector_is_read_entry_by_entry<F: Fn(&str) -> Option<u32>>(
    s: &str,
    read: F,
    f: Result<(i32, Vec<Vec<char>>), ParseSparsevecError>,
    r: Result<(i32, Vec<i32>, Vec<u32>), ParseSparsevecError>,
)
    requires
        call_ensures(sparsevec_frame, (s,), f),
        call_ensures(parse_sparsevec::<F>, (s, read), r),
    ensures
        f is Err ==> r == Err::<(i32, Vec<i32>, Vec<u32>), ParseSparsevecError>(f->Err_0),
        r matches Ok((dim, indices, values)) ==> {
            &&& f is Ok && dim == (f->Ok_0).0
            &&& indices@.len() == (f->Ok_0).1@.len() && values@.len() == (f->Ok_0).1@.len()
            &&& forall|i: int|
                0 <= i < indices@.len() ==> {
                    &&& entry_of((#[trigger] (f->Ok_0).1@[i])@, i) is Ok
                    &&& indices@[i] == entry_of((f->Ok_0).1@[i]@, i)->Ok_0.0
                    &&& is_number(values@[i])
                    &&& may_read(read, entry_of((f->Ok_0).1@[i]@, i)->Ok_0.1, Some(values@[i]))
                }
        },
        f is Ok && r is Err ==> exists|i: int|
            0 <= i < (f->Ok_0).1@.len() && is_faulty_entry(read, (#[trigger] (f->Ok_0).1@[i])@, i),
{
    if f is Ok {
        let all = texts((f->Ok_0).1@);
        assert(frame_of(s@) == Ok::<(i32, Seq<Seq<char>>), ParseSparsevecError>(((f->Ok_0).0, all)));
        let numbers = choose|numbers: Seq<Option<u32>>|
            #[trigger] values_read_as(read, all, numbers) && match coordinates_of(all, numbers) {
                Ok((indices, values)) => {
                    &&& r is Ok
                    &&& r->Ok_0.0 == (f->Ok_0).0
                    &&& r->Ok_0.1@ == indices
                    &&& r->Ok_0.2@ == values
                },
                Err(e) => r == Err::<(i32, Vec<i32>, Vec<u32>), ParseSparsevecError>(e),
            };
        lemma_coordinates(all, numbers);
        match coordinates_of(all, numbers) {
            Ok((indices, values)) => {
                assert forall|i: int| 0 <= i < indices.len() implies {
                    &&& entry_of((#[trigger] (f->Ok_0).1@[i])@, i) is Ok
                    &&& indices[i] == entry_of((f->Ok_0).1@[i]@, i)->Ok_0.0
                    &&& is_number(values[i])
                    &&& may_read(read, entry_of((f->Ok_0).1@[i]@, i)->Ok_0.1, Some(values[i]))
                } by {
                    assert(all[i] == (f->Ok_0).1@[i]@);
                    assert(entry_of(all[i], i) is Ok);
                    assert(may_read_value(read, all[i], i, numbers[i]));
                    lemma_finite(values[i]);
                }
            },
            Err(_) => {
                let i = choose|i: int|
                    0 <= i < all.len() && entry_fault(#[trigger] all[i], numbers[i], i) is Some
                        && forall|j: int|
                        0 <= j < i ==> entry_fault(#[trigger] all[j], numbers[j], j) is None;
                assert(all[i] == (f->Ok_0).1@[i]@);
                assert(may_read_value(read, all[i], i, numbers[i]));
                if numbers[i] is Some {
                    lemma_finite(numbers[i]->0);
                }
                assert(is_faulty_entry(read, (f->Ok_0).1@[i]@, i));
            },
        }
    }
}

/// Whether an entry has no proper position or its text may be read as no finite number.
pub open spec fn is_faulty_entry<F: Fn(&str) -> Option<u32>>(
    read: F,
    token: Seq<char>,
    position: int,
) -> bool {
    entry_of(token, position) matches Ok((_, value)) ==> exists|number: Option<u32>|
        #[trigger] may_read(read, value, number) && (number is None || !is_number(number->0))
}

/// The coordinates of a vector are given as they are.
pub proof fn the_coordinates_are_given(v: &Tvector, r: &[u32])
    requires
        call_ensures(Tvector::as_slice, (v,), r),
    ensures
        r@.len() == v.data@.len(),
        forall|i: int| 0 <= i < r@.len() ==> #[trigger] r@[i] == v.data@[i],
{
}

/// One number more is printed behind the others, after a comma and a blank.
pub proof fn one_more_number_is_printed_behind(
    numbers: &[String],
    more: &[String],
    r: String,
    q: String,
)
    requires
        call_ensures(tvector_text, (numbers,), r),
        call_ensures(tvector_text, (more,), q),
        numbers@.len() > 0,
        more@.len() == numbers@.len() + 1,
        more@.drop_last() == numbers@,
    ensures
        q@ == r@.drop_last() + seq![',', ' '] + more@.last()@ + seq![']'],
{
    let a = strings(numbers@);
    let b = strings(more@);
    assert(b.drop_last() =~= a);
    assert(b.last() == more@.last()@);
    assert(r@.drop_last() =~= seq!['['] + joined(a, seq![',', ' ']));
}

/// One entry more of a sparse vector is printed behind the others, after a comma: its position, counted
/// from one, a colon and its number.
#[verifier::rlimit(40)]
pub proof fn one_more_entry_is_printed_behind(
    v: &Sparsevec,
    numbers: &[String],
    w: &Sparsevec,
    more: &[String],
    r: String,
    q: String,
)
    requires
        call_ensures(sparsevec_text, (v, numbers), r),
        call_ensures(sparsevec_text, (w, more), q),
        v.well_formed(),
        w.well_formed(),
        numbers@.len() == v.values@.len(),
        more@.len() == w.values@.len(),
        w.dim == v.dim,
        numbers@.len() > 0,
        more@.len() == numbers@.len() + 1,
        more@.drop_last() == numbers@,
        w.indices@.drop_last() == v.indices@,
    ensures
        ({
            let dim = decimal(v.dim as nat);
            let at = r@.len() - dim.len() - 2;
            &&& at >= 1
            &&& q@ == r@.take(at) + seq![','] + decimal((w.indices@.last() + 1) as nat).push(':')
                + more@.last()@ + r@.skip(at)
        }),
{
    let a = entry_texts(v.indices@, strings(numbers@));
    let b = entry_texts(w.indices@, strings(more@));
    assert(a.len() == numbers@.len() && b.len() == more@.len());
    assert forall|k: int| 0 <= k < a.len() implies #[trigger] b[k] == a[k] by {
        assert(w.indices@.drop_last()[k] == v.indices@[k]);
        assert(more@.drop_last()[k] == numbers@[k]);
    }
    assert(b.drop_last() =~= a);
    let dim = decimal(v.dim as nat);
    let list = joined(a, seq![',']);
    let at = r@.len() - dim.len() - 2;
    assert(at == 1 + list.len());
    assert(r@.take(at) =~= seq!['{'] + list);
    assert(r@.skip(at) =~= seq!['}', '/'] + dim);
    let last = decimal((w.indices@.last() + 1) as nat).push(':') + more@.last()@;
    assert(b.last() =~= last);
    assert(joined(b, seq![',']) == list + seq![','] + last);
    assert(q@ =~= r@.take(at) + seq![','] + decimal((w.indices@.last() + 1) as nat).push(':')
        + more@.last()@ + r@.skip(at));
}

} // verus!
