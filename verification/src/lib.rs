pub mod discover;
pub mod idx;
pub mod orient;
pub mod pairing;
pub mod paths;

use vstd::prelude::*;

verus! {

/// A big-endian 32-bit integer read from four bytes of `b` starting at `off`.
pub open spec fn spec_be32(b: Seq<u8>, off: int) -> u32
    recommends
        0 <= off,
        off + 4 <= b.len(),
{
    (b[off] * 0x100_0000 + b[off + 1] * 0x1_0000 + b[off + 2] * 0x100 + b[off + 3]) as u32
}

/// Reads the four bytes of `b` starting at `off` as a big-endian 32-bit integer.
pub fn read_be32(b: &Vec<u8>, off: usize) -> (r: u32)
    requires
        off + 4 <= b@.len(),
    ensures
        r == spec_be32(b@, off as int),
{
    // b.len() fits in usize, so the indices off + 1 .. off + 3 cannot overflow
    let _len: usize = b.len();
    let b0 = b[off] as u32;
    let b1 = b[off + 1] as u32;
    let b2 = b[off + 2] as u32;
    let b3 = b[off + 3] as u32;
    b0 * 0x100_0000 + b1 * 0x1_0000 + b2 * 0x100 + b3
}

} // verus!
