use vstd::prelude::*;

verus! {

/// The little-endian 16-bit value stored at `b[i..i + 2]`.
pub open spec fn le16(b: Seq<u8>, i: int) -> int {
    b[i] as int + 256 * (b[i + 1] as int)
}

/// The little-endian 32-bit value stored at `b[i..i + 4]`.
pub open spec fn le32(b: Seq<u8>, i: int) -> int {
    b[i] as int + 256 * (b[i + 1] as int) + 65536 * (b[i + 2] as int) + 16777216 * (b[i + 3] as int)
}

/// Reads the little-endian `u16` at byte offset `i` of `b`.
pub fn read_u16_le(b: &[u8], i: usize) -> (r: u16)
    requires
        i + 2 <= b@.len(),
    ensures
        r == le16(b@, i as int),
{
    (b[i] as u16) + 256 * (b[i + 1] as u16)
}

/// Reads the little-endian `u32` at byte offset `i` of `b`.
pub fn read_u32_le(b: &[u8], i: usize) -> (r: u32)
    requires
        i + 4 <= b@.len(),
    ensures
        r == le32(b@, i as int),
{
    (b[i] as u32) + 256 * (b[i + 1] as u32) + 65536 * (b[i + 2] as u32) + 16777216 * (b[i + 3] as u32)
}

} // verus!
