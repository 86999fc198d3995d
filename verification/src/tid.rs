//! Heap row identifiers: a block and an offset, packed into one number.
use vstd::prelude::*;

verus! {

/// A heap row: the offset counts from 1 in each block.
#[derive(Clone, Copy, Debug, PartialEq, Eq, Structural)]
pub struct ItemPointer {
    pub block: u32,
    pub offset: u16,
}

/// The identifier of a row in an index: the block in the upper half, the offset in the lower.
pub open spec fn packed(ip: ItemPointer) -> nat {
    ip.block as nat * 0x1_0000_0000 + ip.offset as nat
}

/// Packs a row into its identifier.
pub fn item_pointer_to_u64(ip: ItemPointer) -> (r: u64)
    ensures
        r == packed(ip),
{
    ip.block as u64 * 0x1_0000_0000 + ip.offset as u64
}

/// Unpacks an identifier. Only the lower half of what lies below the block is the offset.
pub fn u64_to_item_pointer(id: u64) -> (r: ItemPointer)
    ensures
        r.block == id / 0x1_0000_0000,
        r.offset == id % 0x1_0000,
{
    ItemPointer { block: (id / 0x1_0000_0000) as u32, offset: (id % 0x1_0000) as u16 }
}

/// A signed number as the identifier that an index holds: a negative number stands above all others.
pub open spec fn id_of(v: i64) -> u64 {
    if v >= 0 {
        v as u64
    } else {
        (v + 0x1_0000_0000_0000_0000) as u64
    }
}

/// A signed number as the identifier that an index holds.
pub fn to_id(v: i64) -> (r: u64)
    ensures
        r == id_of(v),
{
    assert(v >= 0 ==> (v as u64) == v) by (bit_vector);
    assert(v < 0 ==> (v as u64) == v + 0x1_0000_0000_0000_0000) by (bit_vector);
    v as u64
}

/// An identifier as the signed number that queries use for it.
pub fn from_id(id: u64) -> (r: i64)
    ensures
        id_of(r) == id,
{
    assert(id < 0x8000_0000_0000_0000 ==> (id as i64) == id) by (bit_vector);
    assert(id >= 0x8000_0000_0000_0000 ==> (id as i64) == id - 0x1_0000_0000_0000_0000)
        by (bit_vector);
    id as i64
}

/// No two numbers are held as the same identifier.
pub proof fn ids_keep_numbers_apart(v: i64, w: i64)
    requires
        id_of(v) == id_of(w),
    ensures
        v == w,
{
}

/// The identifier of a row as the signed number that queries use for it.
pub fn tid_to_bigint(ip: ItemPointer) -> (r: i64)
    ensures
        id_of(r) == packed(ip),
{
    from_id(item_pointer_to_u64(ip))
}

/// Unpacking a packed row gives the row.
pub proof fn packing_is_undone(ip: ItemPointer)
    ensures
        packed(ip) / 0x1_0000_0000 == ip.block,
        packed(ip) % 0x1_0000 == ip.offset,
{
}

/// No row has the identifier 0, because offsets count from 1.
pub proof fn no_row_is_packed_as_zero(ip: ItemPointer)
    requires
        ip.offset >= 1,
    ensures
        packed(ip) != 0,
{
}

} // verus!
