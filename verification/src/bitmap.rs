//! The tombstone bitmap: one bit per slot, lowest bit first; a set bit marks a deleted row.
use vstd::arithmetic::power2::{lemma2_to64, pow2};
use vstd::prelude::*;
use vstd::slice::slice_to_vec;

use crate::page::ceil_div;

verus! {

/// Whether bit `j` of `b` is set.
pub open spec fn bit_set(b: u8, j: u8) -> bool {
    (b >> j) & 1u8 == 1u8
}

/// Whether the bitmap marks `slot`. Slots behind the bitmap are not marked.
pub open spec fn is_tombstoned(bitmap: Seq<u8>, slot: int) -> bool {
    0 <= slot && slot / 8 < bitmap.len() && bit_set(bitmap[slot / 8], (slot % 8) as u8)
}

/// How many of the slots before `upto` are marked.
pub open spec fn tombstones_before(bitmap: Seq<u8>, upto: nat) -> nat
    decreases upto,
{
    if upto == 0 {
        0
    } else {
        tombstones_before(bitmap, (upto - 1) as nat) + if is_tombstoned(bitmap, upto - 1) {
            1nat
        } else {
            0nat
        }
    }
}

/// How many slots are marked.
pub open spec fn tombstone_count(bitmap: Seq<u8>) -> nat {
    tombstones_before(bitmap, 8 * bitmap.len())
}

proof fn lemma_or_bit(b: u8, k: u8, j: u8)
    requires
        k < 8,
        j < 8,
    ensures
        bit_set(b | (1u8 << k), j) == (bit_set(b, j) || j == k),
{
    assert(k < 8 && j < 8 ==> (((b | (1u8 << k)) >> j) & 1u8 == 1u8) == (((b >> j) & 1u8 == 1u8)
        || j == k)) by (bit_vector);
}

/// Whether the bitmap marks `slot`.
pub fn is_dead(bitmap: &[u8], slot: usize) -> (r: bool)
    ensures
        r == is_tombstoned(bitmap@, slot as int),
{
    let byte: usize = slot / 8;
    byte < bitmap.len() && (bitmap[byte] >> ((slot % 8) as u8)) & 1u8 == 1u8
}

fn mark(bitmap: &mut Vec<u8>, slot: usize)
    requires
        slot / 8 < old(bitmap)@.len(),
    ensures
        final(bitmap)@.len() == old(bitmap)@.len(),
        forall|s: int| #[trigger]
            is_tombstoned(final(bitmap)@, s) == (is_tombstoned(old(bitmap)@, s) || s == slot),
{
    let byte: usize = slot / 8;
    let k: u8 = (slot % 8) as u8;
    let b: u8 = bitmap[byte];
    bitmap.set(byte, b | (1u8 << k));
    proof {
        assert forall|s: int| #[trigger]
            is_tombstoned(bitmap@, s) == (is_tombstoned(old(bitmap)@, s) || s == slot) by {
            if 0 <= s && s / 8 == byte {
                lemma_or_bit(b, k, (s % 8) as u8);
            }
        }
    }
}

/// Whether one of these slots before `n` is `slot`.
pub open spec fn names(slots: Seq<usize>, n: int, slot: int) -> bool {
    exists|i: int| 0 <= i < slots.len() && #[trigger] slots[i] == slot && slot < n
}

/// The bitmap with the newly dead slots marked as well. It has at least one bit for each of the
/// `n_vectors` slots; dead slots that are none of them are ignored.
pub fn merge_tombstones(existing: &[u8], n_vectors: usize, dead_slots: &[usize]) -> (r: Vec<u8>)
    ensures
        r@.len() == if existing@.len() < ceil_div(n_vectors as nat, 8) {
            ceil_div(n_vectors as nat, 8)
        } else {
            existing@.len()
        },
        forall|s: int| #[trigger]
            is_tombstoned(r@, s) == (is_tombstoned(existing@, s) || names(
                dead_slots@,
                n_vectors as int,
                s,
            )),
{
    let n_bytes: usize = if n_vectors % 8 == 0 {
        n_vectors / 8
    } else {
        n_vectors / 8 + 1
    };
    let mut bitmap: Vec<u8> = slice_to_vec(existing);
    while bitmap.len() < n_bytes
        invariant
            existing@.len() <= bitmap@.len(),
            bitmap@.len() <= n_bytes || bitmap@.len() == existing@.len(),
            forall|s: int| #[trigger]
                is_tombstoned(bitmap@, s) == is_tombstoned(existing@, s),
        decreases n_bytes - bitmap@.len(),
    {
        let ghost before = bitmap@;
        bitmap.push(0);
        proof {
            assert forall|s: int| #[trigger]
                is_tombstoned(bitmap@, s) == is_tombstoned(existing@, s) by {
                assert(is_tombstoned(before, s) == is_tombstoned(existing@, s));
                if 0 <= s && s / 8 == before.len() {
                    let j = (s % 8) as u8;
                    assert((0u8 >> j) & 1u8 == 0u8) by (bit_vector);
                }
            }
        }
    }
    let mut i: usize = 0;
    while i < dead_slots.len()
        invariant
            i <= dead_slots@.len(),
            bitmap@.len() == (if existing@.len() < ceil_div(n_vectors as nat, 8) {
                ceil_div(n_vectors as nat, 8)
            } else {
                existing@.len()
            }),
            forall|s: int| #[trigger]
                is_tombstoned(bitmap@, s) == (is_tombstoned(existing@, s) || exists|k: int|
                    0 <= k < i && dead_slots@[k] == s && s < n_vectors),
        decreases dead_slots@.len() - i,
    {
        let slot: usize = dead_slots[i];
        let ghost before = bitmap@;
        if slot < n_vectors {
            mark(&mut bitmap, slot);
        }
        proof {
            assert forall|s: int| #[trigger]
                is_tombstoned(bitmap@, s) == (is_tombstoned(existing@, s) || exists|k: int|
                    0 <= k < i + 1 && dead_slots@[k] == s && s < n_vectors) by {
                assert(is_tombstoned(before, s) == (is_tombstoned(existing@, s) || exists|k: int|
                    0 <= k < i && dead_slots@[k] == s && s < n_vectors));
                if s == slot && slot < n_vectors {
                    assert(dead_slots@[i as int] == s);
                }
            }
        }
        i += 1;
    }
    assert forall|s: int| #[trigger]
        is_tombstoned(bitmap@, s) == (is_tombstoned(existing@, s) || names(
            dead_slots@,
            n_vectors as int,
            s,
        )) by {
        assert(is_tombstoned(bitmap@, s) == (is_tombstoned(existing@, s) || exists|k: int|
            0 <= k < i && dead_slots@[k] == s && s < n_vectors));
    }
    bitmap
}

/// How many slots the bitmap marks.
pub fn count_dead(bitmap: &[u8]) -> (r: u64)
    requires
        8 * bitmap@.len() <= u64::MAX,
    ensures
        r == tombstone_count(bitmap@),
{
    let mut total: u64 = 0;
    let mut i: usize = 0;
    while i < bitmap.len()
        invariant
            i <= bitmap@.len(),
            8 * bitmap@.len() <= u64::MAX,
            total == tombstones_before(bitmap@, (8 * i) as nat),
            total <= 8 * i,
        decreases bitmap@.len() - i,
    {
        let b: u8 = bitmap[i];
        let mut j: u8 = 0;
        while j < 8
            invariant
                j <= 8,
                i < bitmap@.len(),
                8 * bitmap@.len() <= u64::MAX,
                b == bitmap@[i as int],
                total == tombstones_before(bitmap@, (8 * i + j) as nat),
                total <= 8 * i + j,
            decreases 8 - j,
        {
            if (b >> j) & 1u8 == 1u8 {
                total += 1;
            }
            proof {
                let slot = 8 * i + j;
                assert(slot / 8 == i && slot % 8 == j as int);
            }
            j += 1;
        }
        i += 1;
    }
    total
}

/// Marking slots never unmarks one.
pub proof fn merged_tombstones_keep_the_old(
    existing: Seq<u8>,
    merged: Seq<u8>,
    dead: Seq<usize>,
    n: nat,
    slot: int,
)
    requires
        forall|s: int| #[trigger]
            is_tombstoned(merged, s) == (is_tombstoned(existing, s) || exists|i: int|
                0 <= i < dead.len() && dead[i] == s && s < n),
        is_tombstoned(existing, slot),
    ensures
        is_tombstoned(merged, slot),
{
    assert(is_tombstoned(merged, slot) == (is_tombstoned(existing, slot) || exists|i: int|
        0 <= i < dead.len() && dead[i] == slot && slot < n));
}

/// The bits of a byte stand for consecutive slots, the lowest bit for the first of them.
pub proof fn the_lowest_bit_is_the_first_slot(bitmap: Seq<u8>, slot: int)
    requires
        0 <= slot < 8 * bitmap.len(),
    ensures
        is_tombstoned(bitmap, slot) <==> (bitmap[slot / 8] as nat / pow2((slot % 8) as nat)) % 2 == 1,
{
    let b = bitmap[slot / 8];
    lemma2_to64();
    assert(b >> 0u8 == b / 1u8 && b >> 1u8 == b / 2u8 && b >> 2u8 == b / 4u8 && b >> 3u8 == b / 8u8
        && b >> 4u8 == b / 16u8 && b >> 5u8 == b / 32u8 && b >> 6u8 == b / 64u8 && b >> 7u8 == b
        / 128u8) by (bit_vector);
    let j = (slot % 8) as u8;
    let x = b >> j;
    assert(x & 1u8 == x % 2u8) by (bit_vector);
    assert(j == 0 || j == 1 || j == 2 || j == 3 || j == 4 || j == 5 || j == 6 || j == 7);
}

/// The slots that a bitmap marks.
pub open spec fn marked_slots(bitmap: Seq<u8>, upto: nat) -> Set<int> {
    Set::new(|s: int| 0 <= s < upto && is_tombstoned(bitmap, s))
}

proof fn lemma_marked_count(bitmap: Seq<u8>, upto: nat)
    ensures
        marked_slots(bitmap, upto).finite(),
        marked_slots(bitmap, upto).len() == tombstones_before(bitmap, upto),
    decreases upto,
{
    let now = marked_slots(bitmap, upto);
    if upto == 0 {
        assert(now =~= Set::<int>::empty());
    } else {
        let k = (upto - 1) as nat;
        lemma_marked_count(bitmap, k);
        let before = marked_slots(bitmap, k);
        if is_tombstoned(bitmap, k as int) {
            assert(now =~= before.insert(k as int));
        } else {
            assert(now =~= before);
        }
    }
}

/// The number of tombstones is that of the slots that the bitmap marks.
pub proof fn the_marked_slots_are_counted(bitmap: Seq<u8>)
    ensures
        Set::new(|s: int| is_tombstoned(bitmap, s)).finite(),
        tombstone_count(bitmap) == Set::new(|s: int| is_tombstoned(bitmap, s)).len(),
{
    lemma_marked_count(bitmap, 8 * bitmap.len());
    assert(Set::new(|s: int| is_tombstoned(bitmap, s)) =~= marked_slots(bitmap, 8 * bitmap.len()));
}

/// The count is the number of slots that the bitmap marks.
pub proof fn the_count_is_the_number_of_marked_slots(bitmap: &[u8], r: u64)
    requires
        call_ensures(count_dead, (bitmap,), r),
        8 * bitmap@.len() <= u64::MAX,
    ensures
        Set::new(|s: int| is_tombstoned(bitmap@, s)).finite(),
        r == Set::new(|s: int| is_tombstoned(bitmap@, s)).len(),
{
    the_marked_slots_are_counted(bitmap@);
}

/// Looking a slot up gives its bit; slots behind the bitmap are not marked.
pub proof fn looking_up_gives_the_bit(bitmap: &[u8], slot: usize, r: bool)
    requires
        call_ensures(is_dead, (bitmap, slot), r),
    ensures
        slot >= 8 * bitmap@.len() ==> !r,
        slot < 8 * bitmap@.len() ==> (r <==> (bitmap@[slot as int / 8] as nat / pow2(
            (slot as int % 8) as nat,
        )) % 2 == 1),
{
    if slot < 8 * bitmap@.len() {
        the_lowest_bit_is_the_first_slot(bitmap@, slot as int);
    }
}

/// Merging marks the dead slots that there are, keeps every mark that was there, makes no other, and
/// leaves room for every slot.
pub proof fn merging_adds_exactly_the_dead_slots(
    existing: &[u8],
    n_vectors: usize,
    dead_slots: &[usize],
    r: Vec<u8>,
)
    requires
        call_ensures(merge_tombstones, (existing, n_vectors, dead_slots), r),
    ensures
        n_vectors <= 8 * r@.len(),
        existing@.len() <= r@.len(),
        8 * r@.len() < n_vectors + 8 || r@.len() == existing@.len(),
        forall|s: int| is_tombstoned(existing@, s) ==> #[trigger] is_tombstoned(r@, s),
        forall|i: int|
            0 <= i < dead_slots@.len() && #[trigger] dead_slots@[i] < n_vectors ==> is_tombstoned(
                r@,
                dead_slots@[i] as int,
            ),
        forall|s: int| #[trigger]
            is_tombstoned(r@, s) && !is_tombstoned(existing@, s) ==> s < n_vectors
                && exists|i: int| 0 <= i < dead_slots@.len() && dead_slots@[i] == s,
{
    assert forall|i: int| 0 <= i < dead_slots@.len() && #[trigger] dead_slots@[i]
        < n_vectors implies is_tombstoned(r@, dead_slots@[i] as int) by {
        let s = dead_slots@[i] as int;
        assert(names(dead_slots@, n_vectors as int, s));
    }
}

} // verus!
