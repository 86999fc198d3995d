//! The `sparsevec` type: a vector that is mostly zero, held as the coordinates that are not.
//!
//! The text form is `{1:1.5,5:2.25}/10`, with positions that count from one. Numbers are carried as bit
//! patterns, as in a `tvector`.
use crate::float_bits::{all_finite, finite_f32, is_finite_f32};
use crate::text::{
    chars_of, decimal, decimal_reads_back, find_first, find_last, first_at, is_tight, joined,
    last_at, lemma_decimal_digits, lemma_first_at, lemma_joined_tight, lemma_last_at, lemma_tight,
    parse_i32, push_decimal, push_text, signed_value, split, split_at_each,
    splitting_undoes_joining, string_of, strings, texts, trim, trimmed,
};
use crate::tvector::{may_read, reads_back};
use vstd::prelude::*;

verus! {

/// The largest number of dimensions.
pub const MAX_DIM: usize = 1_000_000_000;

/// A sparse vector.
#[derive(Debug)]
pub struct Sparsevec {
    /// The number of dimensions.
    pub dim: i32,
    /// The positions that are held, counted from zero, in increasing order.
    pub indices: Vec<i32>,
    /// The bit pattern of the coordinate at each of these positions.
    pub values: Vec<u32>,
}

/// Why coordinates do not make a sparse vector.
#[derive(Clone, Copy, Debug, PartialEq, Eq, Structural)]
pub enum SparsevecError {
    /// The number of dimensions is below one or above `MAX_DIM`.
    DimOutOfRange,
    /// There are not as many positions as values.
    LengthMismatch { indices: usize, values: usize },
    /// A position does not come after the one before it.
    NotIncreasing { position: usize },
    /// A position lies past the last dimension.
    IndexOutOfRange { position: usize },
    /// A value is not finite.
    NotFinite { position: usize },
}

/// Two sparse vectors that should have the same number of dimensions and do not.
#[derive(Clone, Copy, Debug, PartialEq, Eq, Structural)]
pub struct SparseDimsDiffer {
    pub left: i32,
    pub right: i32,
}

/// What stands against the coordinate that is listed `k`-th.
pub open spec fn coordinate_fault(
    dim: i32,
    indices: Seq<i32>,
    values: Seq<u32>,
    k: int,
) -> Option<SparsevecError> {
    let before: int = if k == 0 {
        -1
    } else {
        indices[k - 1] as int
    };
    if indices[k] <= before {
        Some(SparsevecError::NotIncreasing { position: k as usize })
    } else if indices[k] >= dim {
        Some(SparsevecError::IndexOutOfRange { position: k as usize })
    } else if !finite_f32(values[k]) {
        Some(SparsevecError::NotFinite { position: k as usize })
    } else {
        None
    }
}

/// What stands against the first of the leading `n` coordinates that is not in order.
pub open spec fn coordinates_fault(
    dim: i32,
    indices: Seq<i32>,
    values: Seq<u32>,
    n: nat,
) -> Option<SparsevecError>
    decreases n,
{
    if n == 0 {
        None
    } else {
        match coordinates_fault(dim, indices, values, (n - 1) as nat) {
            Some(e) => Some(e),
            None => coordinate_fault(dim, indices, values, n - 1),
        }
    }
}

/// What stands against making a sparse vector of these parts.
pub open spec fn sparse_fault(dim: i32, indices: Seq<i32>, values: Seq<u32>) -> Option<
    SparsevecError,
> {
    if !(1 <= dim <= MAX_DIM) {
        Some(SparsevecError::DimOutOfRange)
    } else if indices.len() != values.len() {
        Some(
            SparsevecError::LengthMismatch {
                indices: indices.len() as usize,
                values: values.len() as usize,
            },
        )
    } else {
        coordinates_fault(dim, indices, values, indices.len())
    }
}

/// Whether positions increase strictly, from zero on and below `dim`.
pub open spec fn rising(indices: Seq<i32>, dim: int) -> bool {
    &&& forall|i: int| 0 <= i < indices.len() ==> 0 <= #[trigger] indices[i] < dim
    &&& forall|i: int, j: int|
        0 <= i < j < indices.len() ==> #[trigger] indices[i] < #[trigger] indices[j]
}

/// The coordinate at a position: the value that is listed for it, or else zero.
pub open spec fn coordinate(indices: Seq<i32>, values: Seq<u32>, at: int) -> u32
    decreases indices.len(),
{
    if indices.len() == 0 {
        0
    } else if indices.last() == at {
        values[indices.len() - 1]
    } else {
        coordinate(indices.drop_last(), values, at)
    }
}

/// Parts that nothing stands against are in order throughout, and the other way round.
pub proof fn lemma_sparse_fault(dim: i32, indices: Seq<i32>, values: Seq<u32>, n: nat)
    requires
        n <= indices.len(),
        indices.len() == values.len(),
    ensures
        coordinates_fault(dim, indices, values, n) is None <==> rising(
            indices.take(n as int),
            dim as int,
        ) && all_finite(values.take(n as int)),
    decreases n,
{
    let ix = indices.take(n as int);
    let vs = values.take(n as int);
    if n > 0 {
        let k = n - 1;
        lemma_sparse_fault(dim, indices, values, k as nat);
        let ix0 = indices.take(k);
        let vs0 = values.take(k);
        assert forall|i: int| 0 <= i < k implies ix0[i] == ix[i] && vs0[i] == vs[i] by {}
        if coordinates_fault(dim, indices, values, n) is None {
            assert forall|i: int| 0 <= i < n implies 0 <= #[trigger] ix[i] < dim && finite_f32(
                vs[i],
            ) by {
                if i < k {
                    assert(ix0[i] == ix[i] && vs0[i] == vs[i]);
                } else if k > 0 {
                    assert(ix0[k - 1] == indices[k - 1]);
                }
            }
            assert forall|i: int, j: int| 0 <= i < j < n implies #[trigger] ix[i]
                < #[trigger] ix[j] by {
                if j < k {
                    assert(ix0[i] < ix0[j]);
                } else if i < k - 1 {
                    assert(ix0[i] < ix0[k - 1]);
                }
            }
        }
        if rising(ix, dim as int) && all_finite(vs) {
            assert(rising(ix0, dim as int)) by {
                assert forall|i: int| 0 <= i < k implies 0 <= #[trigger] ix0[i] < dim by {
                    assert(ix[i] == ix0[i]);
                }
                assert forall|i: int, j: int| 0 <= i < j < k implies #[trigger] ix0[i]
                    < #[trigger] ix0[j] by {
                    assert(ix[i] < ix[j]);
                }
            }
            assert(all_finite(vs0)) by {
                assert forall|i: int| 0 <= i < k implies finite_f32(#[trigger] vs0[i]) by {
                    assert(finite_f32(vs[i]));
                }
            }
            assert(ix[k] == indices[k] && vs[k] == values[k]);
            if k > 0 {
                assert(ix[k - 1] == indices[k - 1]);
            }
        }
    }
}

impl Sparsevec {
    /// Whether the vector is a proper one.
    pub open spec fn well_formed(&self) -> bool {
        &&& 1 <= self.dim <= MAX_DIM
        &&& self.indices@.len() == self.values@.len()
        &&& rising(self.indices@, self.dim as int)
        &&& all_finite(self.values@)
    }

    /// The coordinate at a position.
    pub open spec fn at(&self, position: int) -> u32 {
        coordinate(self.indices@, self.values@, position)
    }

    /// All coordinates.
    pub open spec fn dense(&self) -> Seq<u32> {
        Seq::new(self.dim as nat, |i: int| self.at(i))
    }

    /// Makes a sparse vector of these parts.
    pub fn new(dim: i32, indices: Vec<i32>, values: Vec<u32>) -> (r: Result<
        Sparsevec,
        SparsevecError,
    >)
        ensures
            match sparse_fault(dim, indices@, values@) {
                Some(e) => r == Err::<Sparsevec, SparsevecError>(e),
                None => r is Ok && r->Ok_0 == (Sparsevec { dim, indices, values })
                    && r->Ok_0.well_formed(),
            },
    {
        if dim < 1 || dim as usize > MAX_DIM {
            return Err(SparsevecError::DimOutOfRange);
        }
        if indices.len() != values.len() {
            return Err(
                SparsevecError::LengthMismatch { indices: indices.len(), values: values.len() },
            );
        }
        let mut before: i32 = -1;
        let mut k: usize = 0;
        while k < indices.len()
            invariant
                k <= indices@.len(),
                indices@.len() == values@.len(),
                1 <= dim <= MAX_DIM,
                before == (if k == 0 {
                    -1
                } else {
                    indices@[k - 1] as int
                }),
                coordinates_fault(dim, indices@, values@, k as nat) is None,
            decreases indices@.len() - k,
        {
            proof {
                lemma_fault_prefix(dim, indices@, values@, (k + 1) as nat, indices@.len());
            }
            if indices[k] <= before {
                return Err(SparsevecError::NotIncreasing { position: k });
            }
            if indices[k] >= dim {
                return Err(SparsevecError::IndexOutOfRange { position: k });
            }
            if !is_finite_f32(values[k]) {
                return Err(SparsevecError::NotFinite { position: k });
            }
            before = indices[k];
            k += 1;
        }
        proof {
            lemma_sparse_fault(dim, indices@, values@, indices@.len());
            assert(indices@.take(indices@.len() as int) =~= indices@);
            assert(values@.take(values@.len() as int) =~= values@);
        }
        Ok(Sparsevec { dim, indices, values })
    }

    /// The number of dimensions.
    pub fn dim(&self) -> (r: i32)
        ensures
            r == self.dim,
    {
        self.dim
    }

    /// The number of coordinates that are held.
    pub fn nnz(&self) -> (r: usize)
        ensures
            r == self.indices@.len(),
    {
        self.indices.len()
    }

    /// All coordinates.
    pub fn to_dense(&self) -> (r: Vec<u32>)
        requires
            self.well_formed(),
        ensures
            r@ == self.dense(),
    {
        let n: usize = self.dim as usize;
        let mut out: Vec<u32> = Vec::new();
        let mut i: usize = 0;
        while i < n
            invariant
                i <= n,
                out@ == Seq::new(i as nat, |j: int| 0u32),
            decreases n - i,
        {
            out.push(0);
            assert(out@ =~= Seq::new((i + 1) as nat, |j: int| 0u32));
            i += 1;
        }
        let mut k: usize = 0;
        while k < self.indices.len()
            invariant
                self.well_formed(),
                n == self.dim,
                k <= self.indices@.len(),
                out@.len() == n,
                forall|j: int|
                    0 <= j < n ==> #[trigger] out@[j] == coordinate(
                        self.indices@.take(k as int),
                        self.values@,
                        j,
                    ),
            decreases self.indices@.len() - k,
        {
            let at: usize = self.indices[k] as usize;
            let ghost now = self.indices@.take(k + 1);
            proof {
                assert(now.drop_last() =~= self.indices@.take(k as int));
                assert(now.last() == self.indices@[k as int]);
            }
            out.set(at, self.values[k]);
            k += 1;
        }
        assert(self.indices@.take(k as int) =~= self.indices@);
        assert(out@ =~= self.dense());
        out
    }

    /// Checks that two vectors have the same number of dimensions.
    pub fn check_same_dim(&self, other: &Sparsevec) -> (r: Result<(), SparseDimsDiffer>)
        ensures
            r == (if self.dim == other.dim {
                Ok::<(), SparseDimsDiffer>(())
            } else {
                Err::<(), SparseDimsDiffer>(
                    (SparseDimsDiffer { left: self.dim, right: other.dim }),
                )
            }),
    {
        if self.dim != other.dim {
            return Err(SparseDimsDiffer { left: self.dim, right: other.dim });
        }
        Ok(())
    }
}

proof fn lemma_fault_prefix(dim: i32, indices: Seq<i32>, values: Seq<u32>, k: nat, n: nat)
    requires
        k <= n,
    ensures
        coordinates_fault(dim, indices, values, k) is Some ==> coordinates_fault(
            dim,
            indices,
            values,
            n,
        ) == coordinates_fault(dim, indices, values, k),
    decreases n,
{
    if k < n {
        lemma_fault_prefix(dim, indices, values, k, (n - 1) as nat);
    }
}

/// Why a text is no sparse vector.
#[derive(Clone, Copy, Debug, PartialEq, Eq, Structural)]
pub enum ParseSparsevecError {
    /// It does not end with a slash and the number of dimensions.
    NoDim,
    /// What follows the slash is no number.
    BadDim,
    /// It does not begin with `{`.
    NoOpening,
    /// No `}` stands before the slash.
    NoClosing,
    /// A coordinate has no colon.
    NoColon { position: usize },
    /// What stands before the colon is no number.
    BadIndex { position: usize },
    /// The number before the colon is below one.
    IndexBelowOne { position: usize, index: i32 },
    /// What stands behind the colon is no number.
    BadValue { position: usize },
    /// The number behind the colon is not finite.
    NotFinite { position: usize },
}

/// A 32-bit number, where a text spells one.
pub open spec fn spelled_i32(s: Seq<char>) -> Option<i32> {
    match signed_value(s) {
        Some(v) => if i32::MIN <= v <= i32::MAX {
            Some(v as i32)
        } else {
            None
        },
        None => None,
    }
}

/// The number of dimensions, and the texts between the braces and commas.
pub open spec fn frame_of(s: Seq<char>) -> Result<(i32, Seq<Seq<char>>), ParseSparsevecError> {
    let t = trimmed(s);
    match last_at(t, '/') {
        None => Err(ParseSparsevecError::NoDim),
        Some(slash) => match spelled_i32(trimmed(t.skip(slash + 1))) {
            None => Err(ParseSparsevecError::BadDim),
            Some(dim) => {
                let body = trimmed(t.take(slash));
                if body.len() == 0 || body[0] != '{' {
                    Err(ParseSparsevecError::NoOpening)
                } else if body.len() == 1 || body.last() != '}' {
                    Err(ParseSparsevecError::NoClosing)
                } else {
                    let list = trimmed(body.subrange(1, body.len() - 1));
                    Ok(
                        (
                            dim,
                            if list.len() == 0 {
                                Seq::empty()
                            } else {
                                split(list, ',')
                            },
                        ),
                    )
                }
            },
        },
    }
}

/// The position, counted from zero, and the text of the value in `index:value`.
pub open spec fn entry_of(token: Seq<char>, position: int) -> Result<
    (i32, Seq<char>),
    ParseSparsevecError,
> {
    let t = trimmed(token);
    match first_at(t, ':') {
        None => Err(ParseSparsevecError::NoColon { position: position as usize }),
        Some(colon) => match spelled_i32(trimmed(t.take(colon))) {
            None => Err(ParseSparsevecError::BadIndex { position: position as usize }),
            Some(index) => if index < 1 {
                Err(ParseSparsevecError::IndexBelowOne { position: position as usize, index })
            } else {
                Ok(((index - 1) as i32, trimmed(t.skip(colon + 1))))
            },
        },
    }
}

/// The positions and values of a list, or what stands against the first coordinate that is not in
/// order. `numbers` says what the value of each coordinate spells.
pub open spec fn coordinates_of(tokens: Seq<Seq<char>>, numbers: Seq<Option<u32>>) -> Result<
    (Seq<i32>, Seq<u32>),
    ParseSparsevecError,
>
    decreases tokens.len(),
{
    if tokens.len() == 0 {
        Ok((Seq::empty(), Seq::empty()))
    } else {
        let k = tokens.len() - 1;
        match coordinates_of(tokens.drop_last(), numbers) {
            Err(e) => Err(e),
            Ok((indices, values)) => match entry_of(tokens[k], k) {
                Err(e) => Err(e),
                Ok((index, _)) => match numbers[k] {
                    None => Err(ParseSparsevecError::BadValue { position: k as usize }),
                    Some(bits) => if finite_f32(bits) {
                        Ok((indices.push(index), values.push(bits)))
                    } else {
                        Err(ParseSparsevecError::NotFinite { position: k as usize })
                    },
                },
            },
        }
    }
}

proof fn lemma_coordinates_prefix(tokens: Seq<Seq<char>>, numbers: Seq<Option<u32>>, k: nat)
    requires
        k <= tokens.len(),
    ensures
        coordinates_of(tokens.take(k as int), numbers) is Err ==> coordinates_of(tokens, numbers)
            == coordinates_of(tokens.take(k as int), numbers),
    decreases tokens.len(),
{
    if k < tokens.len() {
        assert(tokens.drop_last().take(k as int) =~= tokens.take(k as int));
        lemma_coordinates_prefix(tokens.drop_last(), numbers, k);
    } else {
        assert(tokens.take(k as int) =~= tokens);
    }
}

/// The number of dimensions, and the texts between the braces and commas.
pub fn sparsevec_frame(s: &str) -> (r: Result<(i32, Vec<Vec<char>>), ParseSparsevecError>)
    ensures
        match frame_of(s@) {
            Ok((dim, tokens)) => r is Ok && r->Ok_0.0 == dim && texts(r->Ok_0.1@) == tokens,
            Err(e) => r == Err::<(i32, Vec<Vec<char>>), ParseSparsevecError>(e),
        },
{
    let chars: Vec<char> = chars_of(s);
    let t: &[char] = trim(chars.as_slice());
    let slash: usize = match find_last(t, '/') {
        Some(slash) => slash,
        None => {
            return Err(ParseSparsevecError::NoDim);
        },
    };
    let n: usize = t.len();
    let tail: &[char] = vstd::slice::slice_subrange(t, slash + 1, n);
    assert(tail@ =~= t@.skip(slash + 1));
    let dim: i32 = match parse_i32(trim(tail)) {
        Some(dim) => dim,
        None => {
            return Err(ParseSparsevecError::BadDim);
        },
    };
    let head: &[char] = vstd::slice::slice_subrange(t, 0, slash);
    assert(head@ =~= t@.take(slash as int));
    let body: &[char] = trim(head);
    let n: usize = body.len();
    if n == 0 || body[0] != '{' {
        return Err(ParseSparsevecError::NoOpening);
    }
    if n == 1 || body[n - 1] != '}' {
        return Err(ParseSparsevecError::NoClosing);
    }
    let list: &[char] = trim(vstd::slice::slice_subrange(body, 1, n - 1));
    if list.len() == 0 {
        let none: Vec<Vec<char>> = Vec::new();
        assert(texts(none@) =~= Seq::<Seq<char>>::empty());
        return Ok((dim, none));
    }
    Ok((dim, split_at_each(list, ',')))
}

/// The position, counted from zero, and the text of the value in `index:value`.
fn sparsevec_entry(token: &[char], position: usize) -> (r: Result<
    (i32, String),
    ParseSparsevecError,
>)
    ensures
        match entry_of(token@, position as int) {
            Ok((index, value)) => r is Ok && r->Ok_0.0 == index && r->Ok_0.1@ == value,
            Err(e) => r == Err::<(i32, String), ParseSparsevecError>(e),
        },
{
    let t: &[char] = trim(token);
    let colon: usize = match find_first(t, ':') {
        Some(colon) => colon,
        None => {
            return Err(ParseSparsevecError::NoColon { position });
        },
    };
    let head: &[char] = vstd::slice::slice_subrange(t, 0, colon);
    assert(head@ =~= t@.take(colon as int));
    let index: i32 = match parse_i32(trim(head)) {
        Some(index) => index,
        None => {
            return Err(ParseSparsevecError::BadIndex { position });
        },
    };
    if index < 1 {
        return Err(ParseSparsevecError::IndexBelowOne { position, index });
    }
    let n: usize = t.len();
    let tail: &[char] = vstd::slice::slice_subrange(t, colon + 1, n);
    assert(tail@ =~= t@.skip(colon + 1));
    Ok((index - 1, string_of(trim(tail))))
}

/// Whether `read` may answer with this number when it is asked about the value of a coordinate. It is
/// not asked about a text that is no coordinate.
pub open spec fn may_read_value<F: Fn(&str) -> Option<u32>>(
    read: F,
    token: Seq<char>,
    position: int,
    number: Option<u32>,
) -> bool {
    match entry_of(token, position) {
        Ok((_, value)) => may_read(read, value, number),
        Err(_) => true,
    }
}

/// Whether `read` may answer with these numbers when it is asked about the values of a list.
pub open spec fn values_read_as<F: Fn(&str) -> Option<u32>>(
    read: F,
    tokens: Seq<Seq<char>>,
    numbers: Seq<Option<u32>>,
) -> bool {
    &&& numbers.len() == tokens.len()
    &&& forall|i: int|
        0 <= i < tokens.len() ==> #[trigger] may_read_value(read, tokens[i], i, numbers[i])
}

/// The positions, counted from zero, and the values of a list, given what the value of each coordinate
/// spells.
pub fn sparsevec_coordinates(tokens: &[Vec<char>], numbers: &[Option<u32>]) -> (r: Result<
    (Vec<i32>, Vec<u32>),
    ParseSparsevecError,
>)
    requires
        tokens@.len() == numbers@.len(),
    ensures
        match coordinates_of(texts(tokens@), numbers@) {
            Ok((indices, values)) => r is Ok && r->Ok_0.0@ == indices && r->Ok_0.1@ == values,
            Err(e) => r == Err::<(Vec<i32>, Vec<u32>), ParseSparsevecError>(e),
        },
{
    let ghost all = texts(tokens@);
    let mut indices: Vec<i32> = Vec::new();
    let mut values: Vec<u32> = Vec::new();
    let mut i: usize = 0;
    while i < tokens.len()
        invariant
            i <= tokens@.len() == numbers@.len(),
            all == texts(tokens@),
            coordinates_of(all.take(i as int), numbers@) == Ok::<
                (Seq<i32>, Seq<u32>),
                ParseSparsevecError,
            >((indices@, values@)),
        decreases tokens@.len() - i,
    {
        let ghost now = all.take(i + 1);
        proof {
            assert(now.drop_last() =~= all.take(i as int));
            assert(now[i as int] == tokens@[i as int]@);
            lemma_coordinates_prefix(all, numbers@, (i + 1) as nat);
        }
        match sparsevec_entry(tokens[i].as_slice(), i) {
            Err(e) => {
                return Err(e);
            },
            Ok((index, _)) => match numbers[i] {
                None => {
                    return Err(ParseSparsevecError::BadValue { position: i });
                },
                Some(bits) => {
                    if !is_finite_f32(bits) {
                        return Err(ParseSparsevecError::NotFinite { position: i });
                    }
                    indices.push(index);
                    values.push(bits);
                },
            },
        }
        i += 1;
    }
    assert(all.take(i as int) =~= all);
    Ok((indices, values))
}

/// Reads a sparse vector: the number of dimensions, the positions counted from zero, and the values.
/// `read` says which number a text spells, if any.
pub fn parse_sparsevec<F: Fn(&str) -> Option<u32>>(s: &str, read: F) -> (r: Result<
    (i32, Vec<i32>, Vec<u32>),
    ParseSparsevecError,
>)
    requires
        forall|t: &str| #[trigger] call_requires(read, (t,)),
    ensures
        match frame_of(s@) {
            Err(e) => r == Err::<(i32, Vec<i32>, Vec<u32>), ParseSparsevecError>(e),
            Ok((dim, tokens)) => exists|numbers: Seq<Option<u32>>|
                #[trigger] values_read_as(read, tokens, numbers) && match coordinates_of(
                    tokens,
                    numbers,
                ) {
                    Ok((indices, values)) => {
                        &&& r is Ok
                        &&& r->Ok_0.0 == dim
                        &&& r->Ok_0.1@ == indices
                        &&& r->Ok_0.2@ == values
                    },
                    Err(e) => r == Err::<(i32, Vec<i32>, Vec<u32>), ParseSparsevecError>(e),
                },
        },
{
    let (dim, tokens) = match sparsevec_frame(s) {
        Ok(frame) => frame,
        Err(e) => {
            return Err(e);
        },
    };
    let ghost all = texts(tokens@);
    let mut numbers: Vec<Option<u32>> = Vec::new();
    let mut i: usize = 0;
    while i < tokens.len()
        invariant
            i <= tokens@.len(),
            all == texts(tokens@),
            forall|t: &str| #[trigger] call_requires(read, (t,)),
            values_read_as(read, all.take(i as int), numbers@),
        decreases tokens@.len() - i,
    {
        let ghost before = numbers@;
        let number: Option<u32> = match sparsevec_entry(tokens[i].as_slice(), i) {
            Ok((_, text)) => {
                let value: &str = text.as_str();
                let number: Option<u32> = read(value);
                proof {
                    assert(call_ensures(read, (value,), number));
                    assert(may_read(read, value@, number));
                }
                number
            },
            Err(_) => None,
        };
        numbers.push(number);
        proof {
            let now = all.take(i + 1);
            assert(all[i as int] == tokens@[i as int]@);
            assert forall|j: int| 0 <= j < now.len() implies #[trigger] may_read_value(
                read,
                now[j],
                j,
                numbers@[j],
            ) by {
                if j < i {
                    assert(may_read_value(read, all.take(i as int)[j], j, before[j]));
                }
            }
        }
        i += 1;
    }
    proof {
        assert(all.take(i as int) =~= all);
        assert(frame_of(s@)->Ok_0.1 == all);
    }
    match sparsevec_coordinates(tokens.as_slice(), numbers.as_slice()) {
        Ok((indices, values)) => Ok((dim, indices, values)),
        Err(e) => Err(e),
    }
}

/// One coordinate in text form.
pub open spec fn entry_text(index: i32, number: Seq<char>) -> Seq<char> {
    decimal((index + 1) as nat).push(':') + number
}

/// The coordinates in text form.
pub open spec fn entry_texts(indices: Seq<i32>, numbers: Seq<Seq<char>>) -> Seq<Seq<char>> {
    Seq::new(indices.len(), |k: int| entry_text(indices[k], numbers[k]))
}

/// The text form of a sparse vector whose values print like this.
pub open spec fn sparse_text(dim: i32, indices: Seq<i32>, numbers: Seq<Seq<char>>) -> Seq<char> {
    (seq!['{'] + joined(entry_texts(indices, numbers), seq![','])).push('}').push('/') + decimal(
        dim as nat,
    )
}

/// The text form of a sparse vector, given how each of its values prints.
pub fn sparsevec_text(v: &Sparsevec, numbers: &[String]) -> (r: String)
    requires
        v.well_formed(),
        numbers@.len() == v.values@.len(),
    ensures
        r@ == sparse_text(v.dim, v.indices@, strings(numbers@)),
{
    let ghost all = entry_texts(v.indices@, strings(numbers@));
    let mut out: Vec<char> = Vec::new();
    out.push('{');
    let mut i: usize = 0;
    while i < numbers.len()
        invariant
            i <= numbers@.len(),
            v.well_formed(),
            numbers@.len() == v.values@.len(),
            all == entry_texts(v.indices@, strings(numbers@)),
            out@ == seq!['{'] + joined(all.take(i as int), seq![',']),
        decreases numbers@.len() - i,
    {
        let ghost before = out@;
        let ghost now = all.take(i + 1);
        proof {
            assert(now.drop_last() =~= all.take(i as int));
            assert(now.last() == entry_text(v.indices@[i as int], numbers@[i as int]@));
        }
        if i > 0 {
            out.push(',');
            assert(out@ =~= before + seq![',']);
        }
        push_decimal(&mut out, (v.indices[i] + 1) as u64);
        out.push(':');
        push_text(&mut out, numbers[i].as_str());
        proof {
            if i == 0 {
                assert(all.take(0) =~= Seq::<Seq<char>>::empty());
                assert(now[0] == now.last());
            }
            assert(out@ =~= seq!['{'] + joined(now, seq![',']));
        }
        i += 1;
    }
    assert(all.take(i as int) =~= all);
    out.push('}');
    out.push('/');
    push_decimal(&mut out, v.dim as u64);
    string_of(out.as_slice())
}

/// Reading the text form of a sparse vector back gives its number of dimensions, its positions, and
/// the texts of its values, provided that each is more than nothing, holds no comma, and neither
/// begins nor ends with white space.
pub proof fn written_sparse_vector_reads_back(
    dim: i32,
    indices: Seq<i32>,
    numbers: Seq<Seq<char>>,
)
    requires
        dim >= 0,
        indices.len() == numbers.len(),
        forall|k: int| 0 <= k < indices.len() ==> 0 <= #[trigger] indices[k] < i32::MAX,
        forall|k: int|
            0 <= k < numbers.len() ==> is_tight(#[trigger] numbers[k]) && !numbers[k].contains(','),
    ensures
        ({
            let tokens = entry_texts(indices, numbers);
            &&& frame_of(sparse_text(dim, indices, numbers)) == Ok::<
                (i32, Seq<Seq<char>>),
                ParseSparsevecError,
            >((dim, tokens))
            &&& forall|k: int|
                0 <= k < tokens.len() ==> entry_of(#[trigger] tokens[k], k) == Ok::<
                    (i32, Seq<char>),
                    ParseSparsevecError,
                >((indices[k], numbers[k]))
        }),
{
    let tokens = entry_texts(indices, numbers);
    assert forall|k: int| 0 <= k < tokens.len() implies {
        &&& is_tight(#[trigger] tokens[k])
        &&& !tokens[k].contains(',')
        &&& entry_of(tokens[k], k) == Ok::<(i32, Seq<char>), ParseSparsevecError>(
            (indices[k], numbers[k]),
        )
    } by {
        lemma_entry_reads_back(indices[k], numbers[k], k);
    }
    let list = joined(tokens, seq![',']);
    let body = (seq!['{'] + list).push('}');
    let s = sparse_text(dim, indices, numbers);
    lemma_decimal_digits(dim as nat, '/');
    decimal_reads_back(dim as nat);
    let digits = decimal(dim as nat);
    assert(s =~= body.push('/') + digits);
    assert(s[0] == '{');
    assert(s.last() == digits.last());
    lemma_tight(s);
    lemma_last_at(body, '/', digits);
    assert(s.skip(body.len() as int + 1) =~= digits);
    lemma_tight(digits);
    assert(s.take(body.len() as int) =~= body);
    lemma_tight(body);
    assert(body.subrange(1, body.len() - 1) =~= list);
    if tokens.len() == 0 {
        assert(list =~= Seq::<char>::empty());
        assert(trimmed(list) =~= list);
        assert(tokens =~= Seq::<Seq<char>>::empty());
    } else {
        lemma_joined_tight(tokens, seq![',']);
        lemma_tight(list);
        let gap = Seq::<char>::empty();
        assert(seq![','] =~= seq![','] + gap);
        splitting_undoes_joining(tokens, ',', gap);
        assert forall|k: int| 0 <= k < tokens.len() implies #[trigger] split(list, ',')[k]
            == tokens[k] by {
            assert(gap + tokens[k] =~= tokens[k]);
        }
        assert(split(list, ',') =~= tokens);
    }
}

proof fn lemma_entry_reads_back(index: i32, number: Seq<char>, position: int)
    requires
        0 <= index < i32::MAX,
        is_tight(number),
        !number.contains(','),
    ensures
        is_tight(entry_text(index, number)),
        !entry_text(index, number).contains(','),
        entry_of(entry_text(index, number), position) == Ok::<
            (i32, Seq<char>),
            ParseSparsevecError,
        >((index, number)),
{
    let n = (index + 1) as nat;
    let digits = decimal(n);
    let t = entry_text(index, number);
    lemma_decimal_digits(n, ':');
    lemma_decimal_digits(n, ',');
    decimal_reads_back(n);
    assert(t[0] == digits[0]);
    assert(t.last() == number.last());
    lemma_tight(t);
    lemma_first_at(digits, ':', number);
    assert(t.take(digits.len() as int) =~= digits);
    assert(t.skip(digits.len() as int + 1) =~= number);
    lemma_tight(digits);
    lemma_tight(number);
    if t.contains(',') {
        let i = choose|i: int| 0 <= i < t.len() && t[i] == ',';
        if i < digits.len() {
            assert(digits[i] == ',');
            assert(digits.contains(','));
        } else {
            assert(number[i - digits.len() - 1] == ',');
            assert(number.contains(','));
        }
    }
}

proof fn lemma_coordinates_all_in_order(
    tokens: Seq<Seq<char>>,
    numbers: Seq<Option<u32>>,
    indices: Seq<i32>,
    values: Seq<u32>,
    printed: Seq<Seq<char>>,
)
    requires
        tokens.len() == indices.len() == values.len(),
        tokens.len() <= numbers.len(),
        forall|k: int|
            0 <= k < tokens.len() ==> entry_of(#[trigger] tokens[k], k) == Ok::<
                (i32, Seq<char>),
                ParseSparsevecError,
            >((indices[k], printed[k])),
        forall|k: int|
            0 <= k < tokens.len() ==> numbers[k] == Some(#[trigger] values[k]) && finite_f32(
                values[k],
            ),
    ensures
        coordinates_of(tokens, numbers) == Ok::<(Seq<i32>, Seq<u32>), ParseSparsevecError>(
            (indices, values),
        ),
    decreases tokens.len(),
{
    if tokens.len() > 0 {
        let n = tokens.len() - 1;
        let t = tokens.drop_last();
        let v = values.drop_last();
        assert forall|k: int| 0 <= k < t.len() implies entry_of(#[trigger] t[k], k) == Ok::<
            (i32, Seq<char>),
            ParseSparsevecError,
        >((indices.drop_last()[k], printed[k])) by {
            assert(t[k] == tokens[k]);
        }
        assert forall|k: int| 0 <= k < t.len() implies numbers[k] == Some(#[trigger] v[k])
            && finite_f32(v[k]) by {
            assert(v[k] == values[k]);
        }
        lemma_coordinates_all_in_order(t, numbers, indices.drop_last(), v, printed);
        assert(entry_of(tokens[n], n) is Ok);
        assert(numbers[n] == Some(values[n]));
        assert(indices.drop_last().push(indices[n]) =~= indices);
        assert(v.push(values[n]) =~= values);
    } else {
        assert(indices =~= Seq::<i32>::empty());
        assert(values =~= Seq::<u32>::empty());
    }
}

/// The text form of a sparse vector reads back as the same vector, with any way of reading numbers that
/// reads each of its printed values back.
pub proof fn written_sparse_vector_is_read_as_itself<F: Fn(&str) -> Option<u32>>(
    v: Sparsevec,
    printed: Seq<Seq<char>>,
    read: F,
    numbers: Seq<Option<u32>>,
)
    requires
        v.well_formed(),
        printed.len() == v.values@.len(),
        forall|k: int|
            0 <= k < printed.len() ==> is_tight(#[trigger] printed[k]) && !printed[k].contains(','),
        reads_back(read, printed, v.values@),
        values_read_as(read, entry_texts(v.indices@, printed), numbers),
    ensures
        frame_of(sparse_text(v.dim, v.indices@, printed)) == Ok::<
            (i32, Seq<Seq<char>>),
            ParseSparsevecError,
        >((v.dim, entry_texts(v.indices@, printed))),
        coordinates_of(entry_texts(v.indices@, printed), numbers) == Ok::<
            (Seq<i32>, Seq<u32>),
            ParseSparsevecError,
        >((v.indices@, v.values@)),
{
    let tokens = entry_texts(v.indices@, printed);
    written_sparse_vector_reads_back(v.dim, v.indices@, printed);
    assert forall|k: int| 0 <= k < tokens.len() implies numbers[k] == Some(#[trigger] v.values@[k])
        && finite_f32(v.values@[k]) by {
        assert(entry_of(tokens[k], k) is Ok);
        assert(may_read_value(read, tokens[k], k, numbers[k]));
        assert(may_read(read, printed[k], numbers[k]));
    }
    lemma_coordinates_all_in_order(tokens, numbers, v.indices@, v.values@, printed);
}

} // verus!
