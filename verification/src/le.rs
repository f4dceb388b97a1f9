//! Little-endian integers inside byte buffers.
use vstd::prelude::*;

verus! {

/// The unsigned 32-bit integer stored little-endian at `off`.
pub open spec fn le_u32_at(d: Seq<u8>, off: int) -> u32
    recommends
        0 <= off,
        off + 4 <= d.len(),
{
    (d[off] + 256 * d[off + 1] + 65536 * d[off + 2] + 16777216 * d[off + 3]) as u32
}

/// Two's-complement reading of a 32-bit pattern.
pub open spec fn as_signed(u: u32) -> i32 {
    if u < 0x8000_0000 {
        u as i32
    } else {
        (u - 0x1_0000_0000) as i32
    }
}

/// The signed 32-bit integer stored little-endian at `off`.
pub open spec fn le_i32_at(d: Seq<u8>, off: int) -> i32
    recommends
        0 <= off,
        off + 4 <= d.len(),
{
    as_signed(le_u32_at(d, off))
}

/// Whether four bytes can be read at `off`.
pub open spec fn fits4(d: Seq<u8>, off: int) -> bool {
    0 <= off && off + 4 <= d.len()
}

/// Reads the little-endian `u32` at `off`.
pub fn u32_at(d: &[u8], off: usize) -> (r: u32)
    requires
        off + 4 <= d@.len(),
    ensures
        r == le_u32_at(d@, off as int),
{
    let b0 = d[off] as u32;
    let b1 = d[off + 1] as u32;
    let b2 = d[off + 2] as u32;
    let b3 = d[off + 3] as u32;
    b0 + 256 * b1 + 65536 * b2 + 16777216 * b3
}

/// Reinterprets a `u32` bit pattern as `i32`.
pub fn to_signed(u: u32) -> (r: i32)
    ensures
        r == as_signed(u),
{
    if u < 0x8000_0000 {
        u as i32
    } else {
        let low = (u - 0x8000_0000) as i32;
        low - 0x7fff_ffff - 1
    }
}

/// Reads the little-endian `i32` at `off`.
pub fn i32_at(d: &[u8], off: usize) -> (r: i32)
    requires
        off + 4 <= d@.len(),
    ensures
        r == le_i32_at(d@, off as int),
{
    to_signed(u32_at(d, off))
}

} // verus!
