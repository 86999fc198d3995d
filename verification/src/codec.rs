//! The byte form of the meta page: little-endian 32-bit words at fixed places.
use vstd::prelude::*;

use crate::bytes::{
    bytes_to_u32s, decode_u32s, encode_u32s, lemma_word_at, long_at, u32s_round_trip, u32s_to_bytes,
    word_at,
};
use crate::page::{Codebook, MetaPageData, Span, GRAPH_VERSION, MIN_DECODE_VERSION};

verus! {

/// The word that a meta page begins with: the letters `TVIM`.
pub const MAGIC: u32 = 0x4D49_5654;

/// Words of the meta page; what follows them is zero.
pub const META_WORDS: usize = 73;

/// Why a page is not a meta page.
#[derive(Clone, Copy, Debug, PartialEq, Eq, Structural)]
pub enum MetaError {
    /// The page ends inside the meta data.
    TooShort,
    /// The page does not begin with the magic word.
    BadMagic,
    /// The layout version is unknown.
    UnknownVersion(u8),
}

pub open spec fn low_word(x: u64) -> u32 {
    (x % 0x1_0000_0000) as u32
}

pub open spec fn high_word(x: u64) -> u32 {
    (x / 0x1_0000_0000) as u32
}

/// The words of `m`.
pub open spec fn meta_words(m: MetaPageData) -> Seq<u32> {
    seq![
        MAGIC,
        (m.version + 0x100 * m.bit_width + 0x1_0000 * m.kind) as u32,
        m.dim,
        low_word(m.n_vectors),
        high_word(m.n_vectors),
        m.codes.first,
        m.codes.count,
        m.scales.first,
        m.scales.count,
        m.ids.first,
        m.ids.count,
        m.rows_per_codes_page,
        m.rows_per_scales_page,
        m.rows_per_ids_page,
        m.stride_bytes,
        m.am_version,
        m.blocked.first,
        m.blocked.count,
        low_word(m.blocked_bytes),
        high_word(m.blocked_bytes),
        m.n_blocks_blocked,
        m.codebook.n_levels,
    ] + m.codebook.centroids@ + m.codebook.boundaries@ + seq![
        m.rotation.first,
        m.rotation.count,
        m.rotation_dim,
        m.lists,
        m.coarse.first,
        m.coarse.count,
        m.cell_dir.first,
        m.cell_dir.count,
        if m.ivf_degraded {
            1u32
        } else {
            0u32
        },
        m.tombstone.first,
        m.tombstone.count,
        low_word(m.tombstone_bytes),
        high_word(m.tombstone_bytes),
        m.graph.first,
        m.graph.count,
        low_word(m.graph_offsets_bytes),
        high_word(m.graph_offsets_bytes),
        low_word(m.graph_neighbors_bytes),
        high_word(m.graph_neighbors_bytes),
        m.graph_entry_point,
    ]
}

/// `w` with the reserved bits cleared: the top byte of word 1, and all but the truth of the low
/// byte of word 61.
pub open spec fn significant(w: Seq<u32>) -> Seq<u32> {
    w.take(META_WORDS as int).update(1, (w[1] % 0x100_0000) as u32).update(
        61,
        if w[61] % 256 != 0 {
            1u32
        } else {
            0u32
        },
    )
}

/// The layout version that the words `w` state.
pub open spec fn version_of(w: Seq<u32>) -> u8 {
    (w[1] % 256) as u8
}

/// Why the bytes `b` are no meta page, if they are not.
pub open spec fn meta_fault(b: Seq<u8>) -> Option<MetaError> {
    let w = bytes_to_u32s(b);
    if w.len() < META_WORDS {
        Some(MetaError::TooShort)
    } else if w[0] != MAGIC {
        Some(MetaError::BadMagic)
    } else if version_of(w) < MIN_DECODE_VERSION || version_of(w) > GRAPH_VERSION {
        Some(MetaError::UnknownVersion(version_of(w)))
    } else {
        None
    }
}

/// Whether the bytes `b` are a meta page that holds `m`.
pub open spec fn reads_as(b: Seq<u8>, m: MetaPageData) -> bool {
    meta_fault(b) is None && meta_words(m) == significant(bytes_to_u32s(b))
}

fn push_span(out: &mut Vec<u32>, s: Span)
    ensures
        final(out)@ == old(out)@.push(s.first).push(s.count),
{
    out.push(s.first);
    out.push(s.count);
}

fn push_u64(out: &mut Vec<u32>, x: u64)
    ensures
        final(out)@ == old(out)@.push(low_word(x)).push(high_word(x)),
{
    out.push((x % 0x1_0000_0000) as u32);
    out.push((x / 0x1_0000_0000) as u32);
}

impl MetaPageData {
    fn to_words(&self) -> (r: Vec<u32>)
        ensures
            r@ == meta_words(*self),
    {
        let mut out: Vec<u32> = Vec::new();
        out.push(MAGIC);
        out.push(
            self.version as u32 + 0x100 * (self.bit_width as u32) + 0x1_0000 * (self.kind as u32),
        );
        out.push(self.dim);
        push_u64(&mut out, self.n_vectors);
        push_span(&mut out, self.codes);
        push_span(&mut out, self.scales);
        push_span(&mut out, self.ids);
        out.push(self.rows_per_codes_page);
        out.push(self.rows_per_scales_page);
        out.push(self.rows_per_ids_page);
        out.push(self.stride_bytes);
        out.push(self.am_version);
        push_span(&mut out, self.blocked);
        push_u64(&mut out, self.blocked_bytes);
        out.push(self.n_blocks_blocked);
        out.push(self.codebook.n_levels);
        let ghost head = out@;
        let mut i: usize = 0;
        while i < 16
            invariant
                i <= 16,
                out@ == head + self.codebook.centroids@.take(i as int),
            decreases 16 - i,
        {
            out.push(self.codebook.centroids[i]);
            i += 1;
        }
        let ghost head2 = out@;
        let mut k: usize = 0;
        while k < 15
            invariant
                k <= 15,
                out@ == head2 + self.codebook.boundaries@.take(k as int),
            decreases 15 - k,
        {
            out.push(self.codebook.boundaries[k]);
            k += 1;
        }
        push_span(&mut out, self.rotation);
        out.push(self.rotation_dim);
        out.push(self.lists);
        push_span(&mut out, self.coarse);
        push_span(&mut out, self.cell_dir);
        out.push(
            if self.ivf_degraded {
                1
            } else {
                0
            },
        );
        push_span(&mut out, self.tombstone);
        push_u64(&mut out, self.tombstone_bytes);
        push_span(&mut out, self.graph);
        push_u64(&mut out, self.graph_offsets_bytes);
        push_u64(&mut out, self.graph_neighbors_bytes);
        out.push(self.graph_entry_point);
        assert(out@ =~= meta_words(*self));
        out
    }

    /// The bytes of the meta page, without the zeros behind them.
    pub fn encode(&self) -> (r: Vec<u8>)
        ensures
            r@ == u32s_to_bytes(meta_words(*self)),
    {
        let words: Vec<u32> = self.to_words();
        encode_u32s(words.as_slice())
    }

    /// Reads the meta page from the bytes behind a page header.
    pub fn decode(b: &[u8]) -> (r: Result<MetaPageData, MetaError>)
        ensures
            match meta_fault(b@) {
                Some(e) => r == Err::<MetaPageData, MetaError>(e),
                None => r is Ok && reads_as(b@, r->Ok_0),
            },
    {
        let w: Vec<u32> = decode_u32s(b);
        if w.len() < META_WORDS {
            return Err(MetaError::TooShort);
        }
        if w[0] != MAGIC {
            return Err(MetaError::BadMagic);
        }
        let version: u8 = (w[1] % 256) as u8;
        if version < MIN_DECODE_VERSION || version > GRAPH_VERSION {
            return Err(MetaError::UnknownVersion(version));
        }
        let mut centroids: [u32; 16] = [0u32; 16];
        let mut i: usize = 0;
        while i < 16
            invariant
                i <= 16,
                w@.len() >= META_WORDS,
                forall|j: int| 0 <= j < i ==> centroids@[j] == w@[22 + j],
            decreases 16 - i,
        {
            centroids[i] = w[22 + i];
            i += 1;
        }
        let mut boundaries: [u32; 15] = [0u32; 15];
        let mut k: usize = 0;
        while k < 15
            invariant
                k <= 15,
                w@.len() >= META_WORDS,
                forall|j: int| 0 <= j < k ==> boundaries@[j] == w@[38 + j],
            decreases 15 - k,
        {
            boundaries[k] = w[38 + k];
            k += 1;
        }
        let m = MetaPageData {
            version,
            bit_width: (w[1] / 0x100 % 256) as u8,
            kind: (w[1] / 0x1_0000 % 256) as u8,
            dim: w[2],
            n_vectors: w[3] as u64 + 0x1_0000_0000 * (w[4] as u64),
            codes: Span { first: w[5], count: w[6] },
            scales: Span { first: w[7], count: w[8] },
            ids: Span { first: w[9], count: w[10] },
            rows_per_codes_page: w[11],
            rows_per_scales_page: w[12],
            rows_per_ids_page: w[13],
            stride_bytes: w[14],
            am_version: w[15],
            blocked: Span { first: w[16], count: w[17] },
            blocked_bytes: w[18] as u64 + 0x1_0000_0000 * (w[19] as u64),
            n_blocks_blocked: w[20],
            codebook: Codebook { n_levels: w[21], centroids, boundaries },
            rotation: Span { first: w[53], count: w[54] },
            rotation_dim: w[55],
            lists: w[56],
            coarse: Span { first: w[57], count: w[58] },
            cell_dir: Span { first: w[59], count: w[60] },
            ivf_degraded: w[61] % 256 != 0,
            tombstone: Span { first: w[62], count: w[63] },
            tombstone_bytes: w[64] as u64 + 0x1_0000_0000 * (w[65] as u64),
            graph: Span { first: w[66], count: w[67] },
            graph_offsets_bytes: w[68] as u64 + 0x1_0000_0000 * (w[69] as u64),
            graph_neighbors_bytes: w[70] as u64 + 0x1_0000_0000 * (w[71] as u64),
            graph_entry_point: w[72],
        };
        assert(meta_words(m) =~= significant(w@));
        Ok(m)
    }
}

proof fn lemma_halves(x: u64)
    ensures
        x == low_word(x) + 0x1_0000_0000 * high_word(x),
{
}

proof fn lemma_word_places(m: MetaPageData)
    ensures
        meta_words(m).len() == META_WORDS,
        meta_words(m)[0] == MAGIC,
        meta_words(m)[1] == (m.version + 0x100 * m.bit_width + 0x1_0000 * m.kind) as u32,
        meta_words(m)[2] == m.dim,
        meta_words(m)[3] == low_word(m.n_vectors),
        meta_words(m)[4] == high_word(m.n_vectors),
        meta_words(m)[5] == m.codes.first,
        meta_words(m)[6] == m.codes.count,
        meta_words(m)[7] == m.scales.first,
        meta_words(m)[8] == m.scales.count,
        meta_words(m)[9] == m.ids.first,
        meta_words(m)[10] == m.ids.count,
        meta_words(m)[11] == m.rows_per_codes_page,
        meta_words(m)[12] == m.rows_per_scales_page,
        meta_words(m)[13] == m.rows_per_ids_page,
        meta_words(m)[14] == m.stride_bytes,
        meta_words(m)[15] == m.am_version,
        meta_words(m)[16] == m.blocked.first,
        meta_words(m)[17] == m.blocked.count,
        meta_words(m)[18] == low_word(m.blocked_bytes),
        meta_words(m)[19] == high_word(m.blocked_bytes),
        meta_words(m)[20] == m.n_blocks_blocked,
        meta_words(m)[21] == m.codebook.n_levels,
        meta_words(m)[53] == m.rotation.first,
        meta_words(m)[54] == m.rotation.count,
        meta_words(m)[55] == m.rotation_dim,
        meta_words(m)[56] == m.lists,
        meta_words(m)[57] == m.coarse.first,
        meta_words(m)[58] == m.coarse.count,
        meta_words(m)[59] == m.cell_dir.first,
        meta_words(m)[60] == m.cell_dir.count,
        meta_words(m)[61] == (if m.ivf_degraded { 1u32 } else { 0u32 }),
        meta_words(m)[62] == m.tombstone.first,
        meta_words(m)[63] == m.tombstone.count,
        meta_words(m)[64] == low_word(m.tombstone_bytes),
        meta_words(m)[65] == high_word(m.tombstone_bytes),
        meta_words(m)[66] == m.graph.first,
        meta_words(m)[67] == m.graph.count,
        meta_words(m)[68] == low_word(m.graph_offsets_bytes),
        meta_words(m)[69] == high_word(m.graph_offsets_bytes),
        meta_words(m)[70] == low_word(m.graph_neighbors_bytes),
        meta_words(m)[71] == high_word(m.graph_neighbors_bytes),
        meta_words(m)[72] == m.graph_entry_point,
        forall|i: int| 0 <= i < 16 ==> meta_words(m)[22 + i] == #[trigger] m.codebook.centroids@[i],
        forall|i: int| 0 <= i < 15 ==> meta_words(m)[38 + i] == #[trigger] m.codebook.boundaries@[i],
{
}

proof fn lemma_same_numbers(a: MetaPageData, b: MetaPageData)
    requires
        meta_words(a) == meta_words(b),
    ensures
        a.version == b.version,
        a.bit_width == b.bit_width,
        a.kind == b.kind,
        a.n_vectors == b.n_vectors,
        a.blocked_bytes == b.blocked_bytes,
        a.tombstone_bytes == b.tombstone_bytes,
        a.graph_offsets_bytes == b.graph_offsets_bytes,
        a.graph_neighbors_bytes == b.graph_neighbors_bytes,
{
    lemma_word_places(a);
    lemma_word_places(b);
    let w = meta_words(a);
    assert(a.version == w[1] % 256 && b.version == w[1] % 256);
    assert(a.bit_width == w[1] / 0x100 % 256 && b.bit_width == w[1] / 0x100 % 256);
    assert(a.kind == w[1] / 0x1_0000 % 256 && b.kind == w[1] / 0x1_0000 % 256);
    lemma_halves(a.n_vectors);
    lemma_halves(b.n_vectors);
    lemma_halves(a.blocked_bytes);
    lemma_halves(b.blocked_bytes);
    lemma_halves(a.tombstone_bytes);
    lemma_halves(b.tombstone_bytes);
    lemma_halves(a.graph_offsets_bytes);
    lemma_halves(b.graph_offsets_bytes);
    lemma_halves(a.graph_neighbors_bytes);
    lemma_halves(b.graph_neighbors_bytes);
}

/// Two meta pages with the same words are the same.
pub proof fn meta_words_determine(a: MetaPageData, b: MetaPageData)
    requires
        meta_words(a) == meta_words(b),
    ensures
        a == b,
{
    lemma_word_places(a);
    lemma_word_places(b);
    lemma_same_numbers(a, b);
    assert(a.codebook.centroids =~= b.codebook.centroids);
    assert(a.codebook.boundaries =~= b.codebook.boundaries);
    assert(a.codes == b.codes && a.scales == b.scales && a.ids == b.ids);
    assert(a.blocked == b.blocked && a.codebook == b.codebook && a.rotation == b.rotation);
    assert(a.coarse == b.coarse && a.cell_dir == b.cell_dir && a.ivf_degraded == b.ivf_degraded);
    assert(a.tombstone == b.tombstone && a.graph == b.graph);
}

/// A page that begins with the bytes of a meta page of a known version is read as that meta page
/// and as no other, whatever follows.
pub proof fn meta_round_trip(m: MetaPageData, tail: Seq<u8>)
    requires
        MIN_DECODE_VERSION <= m.version <= GRAPH_VERSION,
    ensures
        reads_as(u32s_to_bytes(meta_words(m)) + tail, m),
        forall|other: MetaPageData|
            reads_as(u32s_to_bytes(meta_words(m)) + tail, other) ==> other == m,
{
    let head = u32s_to_bytes(meta_words(m));
    let b = head + tail;
    let w = bytes_to_u32s(b);
    u32s_round_trip(meta_words(m));
    assert forall|i: int| 0 <= i < META_WORDS implies w[i] == meta_words(m)[i] by {
        assert(bytes_to_u32s(head)[i] == meta_words(m)[i]);
        assert(b.subrange(4 * i, 4 * i + 4) =~= head.subrange(4 * i, 4 * i + 4));
    }
    assert(w[1] == meta_words(m)[1]);
    assert(w[0] == MAGIC);
    assert(significant(w) =~= meta_words(m));
    assert forall|other: MetaPageData| reads_as(b, other) implies other == m by {
        meta_words_determine(other, m);
    }
}

/// Whether bytes have the fields of a meta page in their places: the letters `TVIM`, one byte each for
/// the version, the bit width and the kind, then numbers of four and of eight bytes.
pub open spec fn has_fields(b: Seq<u8>, m: MetaPageData) -> bool {
    &&& b[0] == 0x54 && b[1] == 0x56 && b[2] == 0x49 && b[3] == 0x4D
    &&& b[4] == m.version && b[5] == m.bit_width && b[6] == m.kind
    &&& word_at(b, 8) == m.dim && long_at(b, 12) == m.n_vectors
    &&& word_at(b, 20) == m.codes.first && word_at(b, 24) == m.codes.count
    &&& word_at(b, 28) == m.scales.first && word_at(b, 32) == m.scales.count
    &&& word_at(b, 36) == m.ids.first && word_at(b, 40) == m.ids.count
    &&& word_at(b, 44) == m.rows_per_codes_page && word_at(b, 48) == m.rows_per_scales_page
    &&& word_at(b, 52) == m.rows_per_ids_page && word_at(b, 56) == m.stride_bytes
    &&& word_at(b, 60) == m.am_version
    &&& word_at(b, 64) == m.blocked.first && word_at(b, 68) == m.blocked.count
    &&& long_at(b, 72) == m.blocked_bytes && word_at(b, 80) == m.n_blocks_blocked
    &&& word_at(b, 84) == m.codebook.n_levels
    &&& forall|i: int| 0 <= i < 16 ==> word_at(b, 88 + 4 * i) == #[trigger] m.codebook.centroids@[i]
    &&& forall|i: int|
        0 <= i < 15 ==> word_at(b, 152 + 4 * i) == #[trigger] m.codebook.boundaries@[i]
    &&& word_at(b, 212) == m.rotation.first && word_at(b, 216) == m.rotation.count
    &&& word_at(b, 220) == m.rotation_dim && word_at(b, 224) == m.lists
    &&& word_at(b, 228) == m.coarse.first && word_at(b, 232) == m.coarse.count
    &&& word_at(b, 236) == m.cell_dir.first && word_at(b, 240) == m.cell_dir.count
    &&& b[244] != 0 <==> m.ivf_degraded
    &&& word_at(b, 248) == m.tombstone.first && word_at(b, 252) == m.tombstone.count
    &&& long_at(b, 256) == m.tombstone_bytes
    &&& word_at(b, 264) == m.graph.first && word_at(b, 268) == m.graph.count
    &&& long_at(b, 272) == m.graph_offsets_bytes && long_at(b, 280) == m.graph_neighbors_bytes
    &&& word_at(b, 288) == m.graph_entry_point
}

proof fn lemma_word(b: Seq<u8>, m: MetaPageData, i: int)
    requires
        reads_as(b, m),
        0 <= i < 73,
        i != 1,
        i != 61,
    ensures
        word_at(b, 4 * i) == meta_words(m)[i],
{
    let w = bytes_to_u32s(b);
    lemma_word_at(b);
    assert(w[i] == word_at(b, 4 * i));
    assert(significant(w)[i] == w[i]);
}

proof fn lemma_bytes_of(a: u8, b: u8, c: u8, d: u8, x: u8, y: u8, z: u8)
    requires
        (a + 0x100 * b + 0x1_0000 * c + 0x100_0000 * d) % 0x100_0000 == x + 0x100 * y + 0x1_0000 * z,
    ensures
        a == x && b == y && c == z,
{
    assert((a + 0x100 * b + 0x1_0000 * c + 0x100_0000 * d) % 0x100_0000 == a + 0x100 * b + 0x1_0000
        * c);
}

proof fn lemma_magic_bytes(a: u8, b: u8, c: u8, d: u8)
    requires
        a + 0x100 * b + 0x1_0000 * c + 0x100_0000 * d == MAGIC,
    ensures
        a == 0x54 && b == 0x56 && c == 0x49 && d == 0x4D,
{
}

proof fn lemma_odd_words(b: Seq<u8>, m: MetaPageData)
    requires
        reads_as(b, m),
    ensures
        b.len() >= 292,
        meta_words(m)[1] == word_at(b, 4) % 0x100_0000,
        meta_words(m)[61] == if word_at(b, 244) % 256 != 0 {
            1u32
        } else {
            0u32
        },
{
    let w = bytes_to_u32s(b);
    lemma_word_at(b);
    assert(w[1] == word_at(b, 4));
    assert(w[61] == word_at(b, 244));
    let ms = meta_words(m);
    assert(ms == significant(w));
    assert(significant(w)[1] == w[1] % 0x100_0000);
    assert(significant(w)[61] == if w[61] % 256 != 0 { 1u32 } else { 0u32 });
}

proof fn lemma_low_byte(a: u8, b: u8, c: u8, d: u8)
    ensures
        (a + 0x100 * b + 0x1_0000 * c + 0x100_0000 * d) % 256 == a,
{
}

#[verifier::rlimit(40)]
proof fn lemma_first_words(b: Seq<u8>, m: MetaPageData)
    requires
        reads_as(b, m),
    ensures
        b.len() >= 292,
        b[0] == 0x54 && b[1] == 0x56 && b[2] == 0x49 && b[3] == 0x4D,
        b[4] == m.version && b[5] == m.bit_width && b[6] == m.kind,
        b[244] != 0 <==> m.ivf_degraded,
{
    lemma_word_places(m);
    lemma_word(b, m, 0);
    lemma_odd_words(b, m);
    lemma_magic_bytes(b[0], b[1], b[2], b[3]);
    lemma_bytes_of(b[4], b[5], b[6], b[7], m.version, m.bit_width, m.kind);
    lemma_low_byte(b[244], b[245], b[246], b[247]);
}

proof fn lemma_levels(b: Seq<u8>, m: MetaPageData)
    requires
        reads_as(b, m),
    ensures
        forall|i: int| 0 <= i < 16 ==> word_at(b, 88 + 4 * i) == #[trigger] m.codebook.centroids@[i],
        forall|i: int|
            0 <= i < 15 ==> word_at(b, 152 + 4 * i) == #[trigger] m.codebook.boundaries@[i],
{
    lemma_word_places(m);
    assert forall|i: int| 0 <= i < 16 implies word_at(b, 88 + 4 * i)
        == #[trigger] m.codebook.centroids@[i] by {
        lemma_word(b, m, 22 + i);
    }
    assert forall|i: int| 0 <= i < 15 implies word_at(b, 152 + 4 * i)
        == #[trigger] m.codebook.boundaries@[i] by {
        lemma_word(b, m, 38 + i);
    }
}

#[verifier::rlimit(40)]
proof fn lemma_fields(b: Seq<u8>, m: MetaPageData)
    requires
        reads_as(b, m),
    ensures
        b.len() >= 292,
        has_fields(b, m),
{
    lemma_first_words(b, m);
    lemma_levels(b, m);
    lemma_word_places(m);
    lemma_halves(m.n_vectors);
    lemma_halves(m.blocked_bytes);
    lemma_halves(m.tombstone_bytes);
    lemma_halves(m.graph_offsets_bytes);
    lemma_halves(m.graph_neighbors_bytes);
    lemma_word(b, m, 2);
    lemma_word(b, m, 3);
    lemma_word(b, m, 4);
    lemma_word(b, m, 5);
    lemma_word(b, m, 6);
    lemma_word(b, m, 7);
    lemma_word(b, m, 8);
    lemma_word(b, m, 9);
    lemma_word(b, m, 10);
    lemma_word(b, m, 11);
    lemma_word(b, m, 12);
    lemma_word(b, m, 13);
    lemma_word(b, m, 14);
    lemma_word(b, m, 15);
    lemma_word(b, m, 16);
    lemma_word(b, m, 17);
    lemma_word(b, m, 18);
    lemma_word(b, m, 19);
    lemma_word(b, m, 20);
    lemma_word(b, m, 21);
    lemma_word(b, m, 53);
    lemma_word(b, m, 54);
    lemma_word(b, m, 55);
    lemma_word(b, m, 56);
    lemma_word(b, m, 57);
    lemma_word(b, m, 58);
    lemma_word(b, m, 59);
    lemma_word(b, m, 60);
    lemma_word(b, m, 62);
    lemma_word(b, m, 63);
    lemma_word(b, m, 64);
    lemma_word(b, m, 65);
    lemma_word(b, m, 66);
    lemma_word(b, m, 67);
    lemma_word(b, m, 68);
    lemma_word(b, m, 69);
    lemma_word(b, m, 70);
    lemma_word(b, m, 71);
    lemma_word(b, m, 72);
}

/// A page is read as a meta page exactly where it has room for one, begins with `TVIM` and names a
/// version from one to six, and then the fields are read from their places.
#[verifier::rlimit(40)]
pub proof fn a_meta_page_is_read_in_place(b: &[u8], r: Result<MetaPageData, MetaError>)
    requires
        call_ensures(MetaPageData::decode, (b,), r),
    ensures
        r is Ok <==> b@.len() >= 292 && b@.take(4) == seq![0x54u8, 0x56, 0x49, 0x4D] && 1 <= b@[4]
            <= 6,
        r matches Ok(m) ==> has_fields(b@, m),
        b@.len() < 292 <==> r == Err::<MetaPageData, MetaError>(MetaError::TooShort),
        b@.len() >= 292 && b@.take(4) != seq![0x54u8, 0x56, 0x49, 0x4D] <==> r == Err::<
            MetaPageData,
            MetaError,
        >(MetaError::BadMagic),
        r matches Err(MetaError::UnknownVersion(v)) ==> v == b@[4],
{
    let w = bytes_to_u32s(b@);
    lemma_word_at(b@);
    if b@.len() >= 292 {
        assert(w[0] == word_at(b@, 0) && w[1] == word_at(b@, 4));
        assert(version_of(w) == b@[4]);
        let head = b@.take(4);
        if w[0] == MAGIC {
            assert(head =~= seq![0x54u8, 0x56, 0x49, 0x4D]);
        }
        if head == seq![0x54u8, 0x56, 0x49, 0x4D] {
            assert(head[0] == 0x54 && head[1] == 0x56 && head[2] == 0x49 && head[3] == 0x4D);
            assert(w[0] == MAGIC);
        }
    }
    if r is Ok {
        lemma_fields(b@, r->Ok_0);
    }
}

/// What is written as a meta page has its fields in their places and is read back as it was, whatever
/// follows it on the page.
#[verifier::rlimit(40)]
pub proof fn a_meta_page_reads_back(
    m: &MetaPageData,
    b: Vec<u8>,
    page: &[u8],
    r: Result<MetaPageData, MetaError>,
)
    requires
        call_ensures(MetaPageData::encode, (m,), b),
        call_ensures(MetaPageData::decode, (page,), r),
        b@.is_prefix_of(page@),
        1 <= m.version <= 6,
    ensures
        b@.len() == 292,
        has_fields(b@, *m),
        r == Ok::<MetaPageData, MetaError>(*m),
{
    let tail = page@.skip(b@.len() as int);
    assert(page@ =~= b@ + tail);
    meta_round_trip(*m, tail);
    meta_round_trip(*m, Seq::empty());
    assert(b@ + Seq::<u8>::empty() =~= b@);
    lemma_word_places(*m);
    lemma_fields(b@, *m);
}

} // verus!
