//! The retained Key2 floor vertex buffer.
use vstd::prelude::*;

verus! {

/// Preserve the retained static-buffer capacity across all scene modes.
pub const VERTICES: usize = 128;
/// Twelve bytes per vertex: three little-endian `f32` coordinates.
pub const FLOOR_BYTES: usize = 1536;

/// A vertex buffer with no visible line: every vertex has x = y = 0 and
/// z = 2.0 (bytes 00 00 00 40), beyond the clip volume.
pub fn empty() -> (bytes: Vec<u8>)
    ensures
        bytes@.len() == FLOOR_BYTES,
        forall|i: int|
            0 <= i < FLOOR_BYTES ==> #[trigger] bytes@[i] == (if i % 12 == 11 {
                64u8
            } else {
                0u8
            }),
{
    let mut bytes: Vec<u8> = Vec::new();
    let mut i: usize = 0;
    while i < FLOOR_BYTES
        invariant
            i <= FLOOR_BYTES,
            bytes@.len() == i,
            forall|k: int|
                0 <= k < i ==> #[trigger] bytes@[k] == (if k % 12 == 11 {
                    64u8
                } else {
                    0u8
                }),
        decreases FLOOR_BYTES - i,
    {
        bytes.push(if i % 12 == 11 {
            64
        } else {
            0
        });
        i = i + 1;
    }
    bytes
}

} // verus!
