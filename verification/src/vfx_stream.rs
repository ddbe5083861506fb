//! Revision-pinned transfer of compressed VFX assets: the chunk check of
//! the asset stream. Repeated slots reuse a cached asset; a chunk of another
//! revision, a duplicate or a chunk of the wrong length is refused.
use vstd::prelude::*;
use crate::network::{payload, spec_payload, le_u16, le_u32, chunk_end, chunks_fit, spliced, CHUNK_BYTES};

verus! {

pub const ASSET_CHUNK: u8 = 0x8a;

/// The chunk index of an asset chunk packet that the transfer of
/// `revision` accepts: the same revision, a chunk not yet received, and
/// exactly the bytes that chunk holds.
pub open spec fn asset_chunk_index(
    b: Seq<u8>,
    revision: u32,
    encoded_len: int,
    received: Seq<bool>,
) -> Option<int> {
    match spec_payload(b, ASSET_CHUNK) {
        None => None,
        Some(p) => if p.len() < 6 || le_u32(p, 0) != revision {
            None
        } else {
            let index = le_u16(p[4], p[5]);
            let start = index * CHUNK_BYTES;
            if index >= received.len() || received[index] {
                None
            } else if p.len() != 6 + chunk_end(start, encoded_len) - start {
                None
            } else {
                Some(index)
            }
        },
    }
}

/// Store a chunk of asset `revision`; false (and nothing changed) for
/// another revision, a duplicate or a wrong length.
pub fn accept_chunk(packet: &[u8], revision: u32, bytes: &mut [u8], received: &mut [bool]) -> (r:
    bool)
    requires
        chunks_fit(old(bytes).len() as int, old(received).len() as int),
    ensures
        match asset_chunk_index(packet@, revision, old(bytes).len() as int, old(received)@) {
            Some(index) => {
                &&& r
                &&& final(received)@ == old(received)@.update(index, true)
                &&& final(bytes)@ == spliced(
                    old(bytes)@,
                    index * CHUNK_BYTES,
                    spec_payload(packet@, ASSET_CHUNK).unwrap().subrange(
                        6,
                        spec_payload(packet@, ASSET_CHUNK).unwrap().len() as int,
                    ),
                )
            },
            None => !r && final(received)@ == old(received)@ && final(bytes)@ == old(bytes)@,
        },
{
    let p = match payload(packet, ASSET_CHUNK) {
        Some(p) => p,
        None => {
            return false;
        },
    };
    if p.len() < 6 {
        return false;
    }
    let rev = p[0] as u32 + 256 * p[1] as u32 + 65536 * p[2] as u32 + 16777216 * p[3] as u32;
    if rev != revision {
        return false;
    }
    let index = p[4] as usize + 256 * p[5] as usize;
    if index >= received.len() || received[index] {
        return false;
    }
    let start = index * CHUNK_BYTES;
    let end = if start + CHUNK_BYTES < bytes.len() {
        start + CHUNK_BYTES
    } else {
        bytes.len()
    };
    if p.len() != 6 + end - start {
        return false;
    }
    let mut k: usize = 0;
    let n = end - start;
    while k < n
        invariant
            n == end - start,
            n == p.len() - 6,
            end <= bytes.len(),
            bytes.len() == old(bytes).len(),
            k <= n,
            forall|i: int|
                0 <= i < bytes.len() ==> #[trigger] bytes@[i] == if start <= i < start + k {
                    p@[6 + i - start]
                } else {
                    old(bytes)@[i]
                },
        decreases n - k,
    {
        bytes[start + k] = p[6 + k];
        k = k + 1;
    }
    proof {
        assert(bytes@ =~= spliced(old(bytes)@, start as int, p@.subrange(6, p@.len() as int)));
    }
    received[index] = true;
    true
}

} // verus!
