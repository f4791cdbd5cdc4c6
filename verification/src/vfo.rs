//! Virtual file offsets: a block's offset in the compressed stream in the
//! upper 48 bits, the offset inside the decompressed block in the lower 16.

use vstd::prelude::*;

verus! {

/// The first value that no longer fits in the 48 bits of a block offset.
pub const COFFSET_LIMIT: u64 = 0x1_0000_0000_0000;

/// The number of offsets inside a block that 16 bits can address.
pub const UOFFSET_LIMIT: u64 = 0x1_0000;

/// The packed form of `(coffset, uoffset)`.  Bits of `coffset` above the
/// 48th and bits of `uoffset` above the 16th are dropped.
pub open spec fn vfo_of(coffset: u64, uoffset: u64) -> u64 {
    ((coffset % COFFSET_LIMIT) * UOFFSET_LIMIT + uoffset % UOFFSET_LIMIT) as u64
}

/// The block offset that a virtual file offset names.
pub open spec fn vfo_coffset(vfo: u64) -> u64 {
    vfo / UOFFSET_LIMIT
}

/// The offset inside the block that a virtual file offset names.
pub open spec fn vfo_uoffset(vfo: u64) -> u16 {
    (vfo % UOFFSET_LIMIT) as u16
}

/// Packs a block offset and an offset inside the block into one number.
pub fn vfo_pack(coffset: u64, uoffset: u64) -> (vfo: u64)
    ensures
        vfo == vfo_of(coffset, uoffset),
        vfo == (coffset << 16) | (uoffset & 0xFFFF),
{
    assert(((coffset << 16) | (uoffset & 0xFFFF)) == ((coffset % 0x1_0000_0000_0000) * 0x1_0000 + uoffset % 0x1_0000) as u64)
        by (bit_vector);
    (coffset << 16) | (uoffset & 0xFFFF)
}

/// Splits a virtual file offset into the block offset and the offset inside
/// the block.
pub fn vfo_unpack(vfo: u64) -> (parts: (u64, u16))
    ensures
        parts.0 == vfo_coffset(vfo),
        parts.1 == vfo_uoffset(vfo),
        parts.0 < COFFSET_LIMIT,
{
    assert(vfo >> 16 == vfo / 0x1_0000) by (bit_vector);
    assert((vfo & 0xFFFF) == vfo % 0x1_0000) by (bit_vector);
    assert(vfo / 0x1_0000 < 0x1_0000_0000_0000) by (bit_vector);
    ((vfo >> 16), (vfo & 0xFFFF) as u16)
}

/// Unpacking a packed pair gives the pair back, as long as the block offset
/// fits in 48 bits and the offset inside the block fits in 16.
pub proof fn lemma_vfo_roundtrip(coffset: u64, uoffset: u64)
    requires
        coffset < COFFSET_LIMIT,
        uoffset < UOFFSET_LIMIT,
    ensures
        vfo_coffset(vfo_of(coffset, uoffset)) == coffset,
        vfo_uoffset(vfo_of(coffset, uoffset)) == uoffset,
{
}

/// Packing the two parts of a virtual file offset gives the offset back.
pub proof fn lemma_vfo_pack_unpack(vfo: u64)
    ensures
        vfo_of(vfo_coffset(vfo), vfo_uoffset(vfo) as u64) == vfo,
{
}

/// Packed offsets compare as their pairs do in lexicographic order: first by
/// block offset, then by the offset inside the block.
pub proof fn lemma_vfo_order(c1: u64, u1: u64, c2: u64, u2: u64)
    requires
        c1 < COFFSET_LIMIT,
        c2 < COFFSET_LIMIT,
        u1 < UOFFSET_LIMIT,
        u2 < UOFFSET_LIMIT,
    ensures
        vfo_of(c1, u1) < vfo_of(c2, u2) <==> (c1 < c2 || (c1 == c2 && u1 < u2)),
        vfo_of(c1, u1) == vfo_of(c2, u2) <==> (c1 == c2 && u1 == u2),
{
}

} // verus!
