//! Little-endian encoding of the fixed-width values that page chains hold.
use vstd::prelude::*;

verus! {

/// Byte `j` of the little-endian form of `x`.
pub open spec fn le_byte(x: nat, j: nat) -> u8
    decreases j,
{
    if j == 0 {
        (x % 256) as u8
    } else {
        le_byte(x / 256, (j - 1) as nat)
    }
}

/// The little-endian form of `x` in `width` bytes.
pub open spec fn le_bytes(x: nat, width: nat) -> Seq<u8> {
    Seq::new(width, |j: int| le_byte(x, j as nat))
}

/// The number that a little-endian byte sequence spells.
pub open spec fn le_value(s: Seq<u8>) -> nat
    decreases s.len(),
{
    if s.len() == 0 {
        0
    } else {
        s[0] as nat + 256 * le_value(s.drop_first())
    }
}

/// The `u32` values `xs`, each in four little-endian bytes, one after the other.
pub open spec fn u32s_to_bytes(xs: Seq<u32>) -> Seq<u8> {
    Seq::new(4 * xs.len(), |i: int| le_byte(xs[i / 4] as nat, (i % 4) as nat))
}

/// The `u64` values `xs`, each in eight little-endian bytes, one after the other.
pub open spec fn u64s_to_bytes(xs: Seq<u64>) -> Seq<u8> {
    Seq::new(8 * xs.len(), |i: int| le_byte(xs[i / 8] as nat, (i % 8) as nat))
}

/// The `u32` values that the whole four-byte groups of `b` spell.
pub open spec fn bytes_to_u32s(b: Seq<u8>) -> Seq<u32> {
    Seq::new(b.len() / 4, |i: int| le_value(b.subrange(4 * i, 4 * i + 4)) as u32)
}

/// The `u64` values that the whole eight-byte groups of `b` spell.
pub open spec fn bytes_to_u64s(b: Seq<u8>) -> Seq<u64> {
    Seq::new(b.len() / 8, |i: int| le_value(b.subrange(8 * i, 8 * i + 8)) as u64)
}

proof fn lemma_value4(s: Seq<u8>)
    requires
        s.len() == 4,
    ensures
        le_value(s) == s[0] + 256 * s[1] + 65536 * s[2] + 16777216 * s[3],
{
    reveal_with_fuel(le_value, 5);
}

proof fn lemma_value8(s: Seq<u8>)
    requires
        s.len() == 8,
    ensures
        le_value(s) == s[0] + 0x100 * s[1] + 0x1_0000 * s[2] + 0x100_0000 * s[3]
            + 0x1_0000_0000 * s[4] + 0x100_0000_0000 * s[5] + 0x1_0000_0000_0000 * s[6]
            + 0x100_0000_0000_0000 * s[7],
{
    reveal_with_fuel(le_value, 9);
}

proof fn lemma_byte_parts(x: nat)
    ensures
        le_byte(x, 0) == x % 256,
        le_byte(x, 1) == x / 0x100 % 256,
        le_byte(x, 2) == x / 0x1_0000 % 256,
        le_byte(x, 3) == x / 0x100_0000 % 256,
        le_byte(x, 4) == x / 0x1_0000_0000 % 256,
        le_byte(x, 5) == x / 0x100_0000_0000 % 256,
        le_byte(x, 6) == x / 0x1_0000_0000_0000 % 256,
        le_byte(x, 7) == x / 0x100_0000_0000_0000 % 256,
{
    reveal_with_fuel(le_byte, 9);
}

/// Encodes `xs`, four little-endian bytes each.
pub fn encode_u32s(xs: &[u32]) -> (r: Vec<u8>)
    ensures
        r@ == u32s_to_bytes(xs@),
{
    let mut out: Vec<u8> = Vec::new();
    let mut i: usize = 0;
    while i < xs.len()
        invariant
            i <= xs.len(),
            out@ == u32s_to_bytes(xs@.take(i as int)),
        decreases xs.len() - i,
    {
        let x: u32 = xs[i];
        proof {
            lemma_byte_parts(x as nat);
        }
        out.push((x % 256) as u8);
        out.push((x / 0x100 % 256) as u8);
        out.push((x / 0x1_0000 % 256) as u8);
        out.push((x / 0x100_0000 % 256) as u8);
        i += 1;
    }
    assert(xs@.take(i as int) == xs@);
    out
}

/// Encodes `xs`, eight little-endian bytes each.
pub fn encode_u64s(xs: &[u64]) -> (r: Vec<u8>)
    ensures
        r@ == u64s_to_bytes(xs@),
{
    let mut out: Vec<u8> = Vec::new();
    let mut i: usize = 0;
    while i < xs.len()
        invariant
            i <= xs.len(),
            out@ == u64s_to_bytes(xs@.take(i as int)),
        decreases xs.len() - i,
    {
        let x: u64 = xs[i];
        proof {
            lemma_byte_parts(x as nat);
        }
        out.push((x % 256) as u8);
        out.push((x / 0x100 % 256) as u8);
        out.push((x / 0x1_0000 % 256) as u8);
        out.push((x / 0x100_0000 % 256) as u8);
        out.push((x / 0x1_0000_0000 % 256) as u8);
        out.push((x / 0x100_0000_0000 % 256) as u8);
        out.push((x / 0x1_0000_0000_0000 % 256) as u8);
        out.push((x / 0x100_0000_0000_0000 % 256) as u8);
        i += 1;
    }
    assert(xs@.take(i as int) == xs@);
    out
}

/// Decodes the whole four-byte groups of `b`; a shorter tail is ignored.
pub fn decode_u32s(b: &[u8]) -> (r: Vec<u32>)
    ensures
        r@ == bytes_to_u32s(b@),
{
    let mut out: Vec<u32> = Vec::new();
    let n: usize = b.len() / 4;
    let mut i: usize = 0;
    while i < n
        invariant
            n == b.len() / 4,
            i <= n,
            out@ == bytes_to_u32s(b@).take(i as int),
        decreases n - i,
    {
        proof {
            lemma_value4(b@.subrange(4 * i, 4 * i + 4));
        }
        let x: u32 = b[4 * i] as u32 + 0x100 * (b[4 * i + 1] as u32) + 0x1_0000 * (b[4 * i
            + 2] as u32) + 0x100_0000 * (b[4 * i + 3] as u32);
        out.push(x);
        i += 1;
    }
    out
}

/// Decodes the whole eight-byte groups of `b`; a shorter tail is ignored.
pub fn decode_u64s(b: &[u8]) -> (r: Vec<u64>)
    ensures
        r@ == bytes_to_u64s(b@),
{
    let mut out: Vec<u64> = Vec::new();
    let n: usize = b.len() / 8;
    let mut i: usize = 0;
    while i < n
        invariant
            n == b.len() / 8,
            i <= n,
            out@ == bytes_to_u64s(b@).take(i as int),
        decreases n - i,
    {
        proof {
            lemma_value8(b@.subrange(8 * i, 8 * i + 8));
        }
        let lo: u64 = b[8 * i] as u64 + 0x100 * (b[8 * i + 1] as u64) + 0x1_0000 * (b[8 * i
            + 2] as u64) + 0x100_0000 * (b[8 * i + 3] as u64);
        let hi: u64 = b[8 * i + 4] as u64 + 0x100 * (b[8 * i + 5] as u64) + 0x1_0000 * (b[8 * i
            + 6] as u64) + 0x100_0000 * (b[8 * i + 7] as u64);
        out.push(lo + 0x1_0000_0000 * hi);
        i += 1;
    }
    out
}

proof fn lemma_value_of_le_bytes(x: nat, width: nat)
    requires
        x < vstd::arithmetic::power::pow(256, width),
    ensures
        le_value(le_bytes(x, width)) == x,
    decreases width,
{
    reveal(vstd::arithmetic::power::pow);
    if width > 0 {
        let s = le_bytes(x, width);
        assert(s.drop_first() =~= le_bytes(x / 256, (width - 1) as nat));
        lemma_value_of_le_bytes(x / 256, (width - 1) as nat);
    }
}

/// Decoding gives back exactly the `u32` values that were encoded.
pub proof fn u32s_round_trip(xs: Seq<u32>)
    ensures
        bytes_to_u32s(u32s_to_bytes(xs)) == xs,
{
    let b = u32s_to_bytes(xs);
    assert(vstd::arithmetic::power::pow(256, 4) == 0x1_0000_0000) by {
        reveal_with_fuel(vstd::arithmetic::power::pow, 5);
    }
    assert forall|i: int| 0 <= i < xs.len() implies bytes_to_u32s(b)[i] == xs[i] by {
        assert(b.subrange(4 * i, 4 * i + 4) =~= le_bytes(xs[i] as nat, 4));
        lemma_value_of_le_bytes(xs[i] as nat, 4);
    }
}

/// Decoding gives back exactly the `u64` values that were encoded.
pub proof fn u64s_round_trip(xs: Seq<u64>)
    ensures
        bytes_to_u64s(u64s_to_bytes(xs)) == xs,
{
    let b = u64s_to_bytes(xs);
    assert(vstd::arithmetic::power::pow(256, 8) == 0x1_0000_0000_0000_0000) by {
        reveal_with_fuel(vstd::arithmetic::power::pow, 9);
    }
    assert forall|i: int| 0 <= i < xs.len() implies bytes_to_u64s(b)[i] == xs[i] by {
        assert(b.subrange(8 * i, 8 * i + 8) =~= le_bytes(xs[i] as nat, 8));
        lemma_value_of_le_bytes(xs[i] as nat, 8);
    }
}

/// Overwrites `dst[at..at + len]` with `src[from..from + len]`.
pub fn copy_into(dst: &mut Vec<u8>, at: usize, src: &[u8], from: usize, len: usize)
    requires
        at + len <= old(dst)@.len(),
        from + len <= src@.len(),
    ensures
        final(dst)@ == Seq::new(
            old(dst)@.len(),
            |i: int| if at <= i < at + len { src@[i - at + from] } else { old(dst)@[i] },
        ),
{
    let dst_len: usize = dst.len();
    let src_len: usize = src.len();
    let mut i: usize = 0;
    while i < len
        invariant
            i <= len,
            at + len <= dst_len == old(dst)@.len(),
            from + len <= src_len == src@.len(),
            dst@ == Seq::new(
                old(dst)@.len(),
                |j: int| if at <= j < at + i { src@[j - at + from] } else { old(dst)@[j] },
            ),
        decreases len - i,
    {
        dst.set(at + i, src[from + i]);
        i += 1;
    }
}

/// Appends `src[from..to]` to `dst`.
pub fn append_range(dst: &mut Vec<u8>, src: &[u8], from: usize, to: usize)
    requires
        from <= to <= src@.len(),
    ensures
        final(dst)@ == old(dst)@ + src@.subrange(from as int, to as int),
{
    let mut i: usize = from;
    while i < to
        invariant
            from <= i <= to <= src@.len(),
            dst@ == old(dst)@ + src@.subrange(from as int, i as int),
        decreases to - i,
    {
        dst.push(src[i]);
        i += 1;
    }
}

/// The number that four bytes from `at` on spell, the lowest first.
pub open spec fn word_at(b: Seq<u8>, at: int) -> int {
    b[at] + 0x100 * b[at + 1] + 0x1_0000 * b[at + 2] + 0x100_0000 * b[at + 3]
}

/// The number that eight bytes from `at` on spell, the lowest first.
pub open spec fn long_at(b: Seq<u8>, at: int) -> int {
    word_at(b, at) + 0x1_0000_0000 * word_at(b, at + 4)
}

/// Four bytes make a number, the lowest first.
pub proof fn lemma_word_at(b: Seq<u8>)
    ensures
        bytes_to_u32s(b).len() == b.len() / 4,
        forall|i: int|
            0 <= i < b.len() / 4 ==> #[trigger] bytes_to_u32s(b)[i] == word_at(b, 4 * i),
{
    assert forall|i: int| 0 <= i < b.len() / 4 implies #[trigger] bytes_to_u32s(b)[i] == word_at(
        b,
        4 * i,
    ) by {
        let s = b.subrange(4 * i, 4 * i + 4);
        lemma_value4(s);
        assert(s[0] == b[4 * i] && s[1] == b[4 * i + 1] && s[2] == b[4 * i + 2] && s[3] == b[4 * i
            + 3]);
    }
}

/// Eight bytes make a number, the lowest first.
pub proof fn lemma_long_at(b: Seq<u8>)
    ensures
        bytes_to_u64s(b).len() == b.len() / 8,
        forall|i: int|
            0 <= i < b.len() / 8 ==> #[trigger] bytes_to_u64s(b)[i] == long_at(b, 8 * i),
{
    assert forall|i: int| 0 <= i < b.len() / 8 implies #[trigger] bytes_to_u64s(b)[i] == long_at(
        b,
        8 * i,
    ) by {
        let s = b.subrange(8 * i, 8 * i + 8);
        lemma_value8(s);
        assert(s[0] == b[8 * i] && s[1] == b[8 * i + 1] && s[2] == b[8 * i + 2] && s[3] == b[8 * i
            + 3]);
        assert(s[4] == b[8 * i + 4] && s[5] == b[8 * i + 5] && s[6] == b[8 * i + 6] && s[7] == b[8
            * i + 7]);
    }
}

/// Numbers of 32 bits take four bytes each, the lowest first.
pub proof fn numbers_take_four_bytes(xs: &[u32], b: Vec<u8>)
    requires
        call_ensures(encode_u32s, (xs,), b),
    ensures
        b@.len() == 4 * xs@.len(),
        forall|i: int| 0 <= i < xs@.len() ==> word_at(b@, 4 * i) == #[trigger] xs@[i],
{
    u32s_round_trip(xs@);
    lemma_word_at(b@);
    assert forall|i: int| 0 <= i < xs@.len() implies word_at(b@, 4 * i) == #[trigger] xs@[i] by {
        assert(bytes_to_u32s(b@)[i] == word_at(b@, 4 * i));
    }
}

/// Numbers of 64 bits take eight bytes each, the lowest first.
pub proof fn long_numbers_take_eight_bytes(xs: &[u64], b: Vec<u8>)
    requires
        call_ensures(encode_u64s, (xs,), b),
    ensures
        b@.len() == 8 * xs@.len(),
        forall|i: int| 0 <= i < xs@.len() ==> long_at(b@, 8 * i) == #[trigger] xs@[i],
{
    u64s_round_trip(xs@);
    lemma_long_at(b@);
    assert forall|i: int| 0 <= i < xs@.len() implies long_at(b@, 8 * i) == #[trigger] xs@[i] by {
        assert(bytes_to_u64s(b@)[i] == long_at(b@, 8 * i));
    }
}

/// Bytes are read four by four, and eight by eight, the lowest first; what is left over is not read.
pub proof fn bytes_are_read_lowest_first(b: &[u8], r: Vec<u32>, q: Vec<u64>)
    requires
        call_ensures(decode_u32s, (b,), r),
        call_ensures(decode_u64s, (b,), q),
    ensures
        r@.len() == b@.len() / 4,
        forall|i: int| 0 <= i < r@.len() ==> #[trigger] r@[i] == word_at(b@, 4 * i),
        q@.len() == b@.len() / 8,
        forall|i: int| 0 <= i < q@.len() ==> #[trigger] q@[i] == long_at(b@, 8 * i),
{
    lemma_word_at(b@);
    lemma_long_at(b@);
}

/// Copying into bytes changes the bytes that are copied over, and these only.
pub proof fn a_copy_stays_in_its_place(
    dst: &mut Vec<u8>,
    at: usize,
    src: &[u8],
    from: usize,
    len: usize,
)
    requires
        call_ensures(copy_into, (dst, at, src, from, len), ()),
        at + len <= old(dst)@.len(),
        from + len <= src@.len(),
    ensures
        final(dst)@.len() == old(dst)@.len(),
        final(dst)@.take(at as int) == old(dst)@.take(at as int),
        final(dst)@.subrange(at as int, at + len) == src@.subrange(from as int, from + len),
        final(dst)@.skip(at + len) == old(dst)@.skip(at + len),
{
}

/// Appending keeps what is there, and what is appended stands behind it.
pub proof fn bytes_are_appended(dst: &mut Vec<u8>, src: &[u8], from: usize, to: usize)
    requires
        call_ensures(append_range, (dst, src, from, to), ()),
        from <= to <= src@.len(),
    ensures
        final(dst)@.len() == old(dst)@.len() + to - from,
        final(dst)@.take(old(dst)@.len() as int) == old(dst)@,
        final(dst)@.skip(old(dst)@.len() as int) == src@.subrange(from as int, to as int),
{
}

} // verus!
