//! The CUB1 wire format of the Key-8 gallery and world transfers. Transfers
//! are pinned to revisions; a chunk that does not belong to the transfer
//! under way is refused, so incomplete or mixed frames never replace the
//! displayed scene.
use vstd::prelude::*;

verus! {

pub const SERVER_PORT: u16 = 30018;
pub const MAGIC: [u8; 4] = [67, 85, 66, 49];
pub const HEADER: usize = 8;
pub const INFO: u8 = 0x85;
pub const CHUNK: u8 = 0x86;
pub const WORLD_INFO: u8 = 0x81;
pub const WORLD_CHUNK: u8 = 0x83;
pub const CHUNK_BYTES: usize = 1024;
pub const MAX_ENCODED_BYTES: usize = 4194304;
pub const WINDOW: usize = 32;

pub open spec fn le_u16(lo: u8, hi: u8) -> int {
    lo + 256 * hi
}

pub open spec fn le_u32(b: Seq<u8>, at: int) -> int {
    b[at] + 256 * b[at + 1] + 65536 * b[at + 2] + 16777216 * b[at + 3]
}

/// A packet: the magic, version 1, the kind, the body length (modulo 2^16)
/// in little endian, then the body.
pub open spec fn spec_packet(kind: u8, body: Seq<u8>) -> Seq<u8> {
    let n = body.len() % 65536;
    MAGIC@ + seq![1u8, kind, (n % 256) as u8, (n / 256) as u8] + body
}

pub fn packet(kind: u8, body: &[u8]) -> (bytes: Vec<u8>)
    ensures
        bytes@ == spec_packet(kind, body@),
{
    let n = (body.len() % 65536) as u16;
    let mut bytes: Vec<u8> = Vec::new();
    bytes.push(MAGIC[0]);
    bytes.push(MAGIC[1]);
    bytes.push(MAGIC[2]);
    bytes.push(MAGIC[3]);
    bytes.push(1);
    bytes.push(kind);
    bytes.push((n % 256) as u8);
    bytes.push((n / 256) as u8);
    let mut i: usize = 0;
    while i < body.len()
        invariant
            i <= body.len(),
            n == body@.len() % 65536,
            bytes@ == MAGIC@ + seq![1u8, kind, (n % 256) as u8, (n / 256) as u8] + body@.take(
                i as int,
            ),
        decreases body.len() - i,
    {
        bytes.push(body[i]);
        i = i + 1;
        proof {
            assert(bytes@ =~= MAGIC@ + seq![1u8, kind, (n % 256) as u8, (n / 256) as u8]
                + body@.take(i as int));
        }
    }
    proof {
        assert(body@.take(body.len() as int) =~= body@);
        assert(bytes@ =~= spec_packet(kind, body@));
    }
    bytes
}

/// The body of a packet of the given kind whose length field matches.
pub open spec fn spec_payload(b: Seq<u8>, kind: u8) -> Option<Seq<u8>> {
    if b.len() < HEADER || b[0] != MAGIC[0] || b[1] != MAGIC[1] || b[2] != MAGIC[2] || b[3]
        != MAGIC[3] || b[4] != 1 || b[5] != kind {
        None
    } else if b.len() == HEADER + le_u16(b[6], b[7]) {
        Some(b.subrange(HEADER as int, b.len() as int))
    } else {
        None
    }
}

pub fn payload(bytes: &[u8], kind: u8) -> (p: Option<&[u8]>)
    ensures
        match spec_payload(bytes@, kind) {
            Some(s) => p is Some && p.unwrap()@ == s,
            None => p is None,
        },
{
    if bytes.len() < HEADER || bytes[0] != MAGIC[0] || bytes[1] != MAGIC[1] || bytes[2] != MAGIC[2]
        || bytes[3] != MAGIC[3] || bytes[4] != 1 || bytes[5] != kind {
        return None;
    }
    let len = bytes[6] as usize + 256 * bytes[7] as usize;
    if bytes.len() == HEADER + len {
        Some(&bytes[HEADER..bytes.len()])
    } else {
        None
    }
}

fn read_u32(p: &[u8], at: usize) -> (v: u32)
    requires
        at + 4 <= p.len(),
    ensures
        v == le_u32(p@, at as int),
{
    p[at] as u32 + 256 * p[at + 1] as u32 + 65536 * p[at + 2] as u32 + 16777216 * p[at + 3] as u32
}

/// The encoded length that a world welcome announces for `world_id`: a
/// twelve-byte body naming the world, a length between 16 bytes and 4 MiB,
/// and exactly as many chunks as that length needs.
pub open spec fn spec_world_info(b: Seq<u8>, world_id: u8) -> Option<usize> {
    match spec_payload(b, WORLD_INFO) {
        None => None,
        Some(p) => if p.len() != 12 || p[4] != world_id {
            None
        } else {
            let len = le_u32(p, 5);
            let chunks = le_u16(p[9], p[10]);
            if len >= 16 && len <= MAX_ENCODED_BYTES && chunks == (len + CHUNK_BYTES - 1)
                / CHUNK_BYTES as int {
                Some(len as usize)
            } else {
                None
            }
        },
    }
}

pub fn world_info_for(bytes: &[u8], world_id: u8) -> (r: Option<usize>)
    ensures
        r == spec_world_info(bytes@, world_id),
{
    let p = match payload(bytes, WORLD_INFO) {
        Some(p) => p,
        None => {
            return None;
        },
    };
    if p.len() != 12 || p[4] != world_id {
        return None;
    }
    let len = read_u32(p, 5) as usize;
    let chunks = p[9] as usize + 256 * p[10] as usize;
    if len >= 16 && len <= MAX_ENCODED_BYTES && chunks == (len + CHUNK_BYTES - 1) / CHUNK_BYTES {
        Some(len)
    } else {
        None
    }
}

/// Every chunk index that `received` tracks starts within `encoded`.
pub open spec fn chunks_fit(encoded_len: int, received_len: int) -> bool {
    received_len == 0 || (received_len - 1) * CHUNK_BYTES <= encoded_len
}

pub open spec fn chunk_end(start: int, len: int) -> int {
    if start + CHUNK_BYTES < len {
        start + CHUNK_BYTES
    } else {
        len
    }
}

/// `encoded` with the bytes from `start` replaced by `data`.
pub open spec fn spliced(encoded: Seq<u8>, start: int, data: Seq<u8>) -> Seq<u8> {
    encoded.subrange(0, start) + data + encoded.subrange(start + data.len(), encoded.len() as int)
}

/// The chunk index of a world chunk packet that the transfer of `world_id`
/// accepts: for the same world, the same chunk count, a chunk not yet
/// received, and exactly the bytes that chunk holds.
pub open spec fn world_chunk_index(
    b: Seq<u8>,
    world_id: u8,
    encoded_len: int,
    received: Seq<bool>,
) -> Option<int> {
    match spec_payload(b, WORLD_CHUNK) {
        None => None,
        Some(p) => if p.len() < 5 || p[0] != world_id {
            None
        } else {
            let index = le_u16(p[1], p[2]);
            if le_u16(p[3], p[4]) != received.len() || index >= received.len() || received[index] {
                None
            } else {
                let start = index * CHUNK_BYTES;
                if p.len() != 5 + chunk_end(start, encoded_len) - start {
                    None
                } else {
                    Some(index)
                }
            }
        },
    }
}

/// Copy `data` into `encoded` from `start` on.
fn copy_into(encoded: &mut [u8], start: usize, data: &[u8], from: usize)
    requires
        from <= data.len(),
        start + (data.len() - from) <= old(encoded).len(),
    ensures
        final(encoded)@ == spliced(
            old(encoded)@,
            start as int,
            data@.subrange(from as int, data.len() as int),
        ),
{
    let n = data.len() - from;
    let mut k: usize = 0;
    while k < n
        invariant
            n == data.len() - from,
            from <= data.len(),
            start + n <= encoded.len(),
            encoded.len() == old(encoded).len(),
            k <= n,
            forall|i: int|
                0 <= i < encoded.len() ==> #[trigger] encoded@[i] == if start <= i < start + k {
                    data@[from + i - start]
                } else {
                    old(encoded)@[i]
                },
        decreases n - k,
    {
        encoded[start + k] = data[from + k];
        k = k + 1;
    }
    proof {
        assert(encoded@ =~= spliced(
            old(encoded)@,
            start as int,
            data@.subrange(from as int, data.len() as int),
        ));
    }
}

/// Store a world chunk of the transfer of `world_id`; false (and nothing
/// changed) for a chunk of another world, another transfer size, a
/// duplicate, or a wrong length.
pub fn accept_world_chunk(
    bytes: &[u8],
    world_id: u8,
    encoded: &mut [u8],
    received: &mut [bool],
) -> (r: bool)
    requires
        chunks_fit(old(encoded).len() as int, old(received).len() as int),
    ensures
        match world_chunk_index(bytes@, world_id, old(encoded).len() as int, old(received)@) {
            Some(index) => {
                &&& r
                &&& final(received)@ == old(received)@.update(index, true)
                &&& final(encoded)@ == spliced(
                    old(encoded)@,
                    index * CHUNK_BYTES,
                    spec_payload(bytes@, WORLD_CHUNK).unwrap().subrange(
                        5,
                        spec_payload(bytes@, WORLD_CHUNK).unwrap().len() as int,
                    ),
                )
            },
            None => !r && final(received)@ == old(received)@ && final(encoded)@ == old(encoded)@,
        },
{
    let p = match payload(bytes, WORLD_CHUNK) {
        Some(p) => p,
        None => {
            return false;
        },
    };
    if p.len() < 5 || p[0] != world_id {
        return false;
    }
    let index = p[1] as usize + 256 * p[2] as usize;
    let count = p[3] as usize + 256 * p[4] as usize;
    if count != received.len() || index >= received.len() || received[index] {
        return false;
    }
    let start = index * CHUNK_BYTES;
    let end = if start + CHUNK_BYTES < encoded.len() {
        start + CHUNK_BYTES
    } else {
        encoded.len()
    };
    if p.len() != 5 + end - start {
        return false;
    }
    copy_into(encoded, start, p, 5);
    received[index] = true;
    true
}

/// The chunk index of a gallery chunk packet that the transfer of
/// `revision` accepts: the same revision, a chunk not yet received that
/// starts within the image, and exactly the bytes that chunk holds.
pub open spec fn slide_chunk_index(
    b: Seq<u8>,
    revision: u32,
    encoded_len: int,
    received: Seq<bool>,
) -> Option<int> {
    match spec_payload(b, CHUNK) {
        None => None,
        Some(p) => if p.len() < 6 || le_u32(p, 0) != revision {
            None
        } else {
            let index = le_u16(p[4], p[5]);
            let start = index * CHUNK_BYTES;
            if index >= received.len() || received[index] || start >= encoded_len {
                None
            } else if p.len() != 6 + chunk_end(start, encoded_len) - start {
                None
            } else {
                Some(index)
            }
        },
    }
}

/// Store a gallery chunk of revision `revision`; false (and nothing
/// changed) for a stale revision, a duplicate, a chunk beyond the image or
/// a wrong length.
pub fn accept_chunk(bytes: &[u8], revision: u32, encoded: &mut [u8], received: &mut [bool]) -> (r:
    bool)
    ensures
        match slide_chunk_index(bytes@, revision, old(encoded).len() as int, old(received)@) {
            Some(index) => {
                &&& r
                &&& final(received)@ == old(received)@.update(index, true)
                &&& final(encoded)@ == spliced(
                    old(encoded)@,
                    index * CHUNK_BYTES,
                    spec_payload(bytes@, CHUNK).unwrap().subrange(
                        6,
                        spec_payload(bytes@, CHUNK).unwrap().len() as int,
                    ),
                )
            },
            None => !r && final(received)@ == old(received)@ && final(encoded)@ == old(encoded)@,
        },
{
    let p = match payload(bytes, CHUNK) {
        Some(p) => p,
        None => {
            return false;
        },
    };
    if p.len() < 6 || read_u32(p, 0) != revision {
        return false;
    }
    let index = p[4] as usize + 256 * p[5] as usize;
    if index >= received.len() || received[index] {
        return false;
    }
    let start = index * CHUNK_BYTES;
    if start >= encoded.len() {
        return false;
    }
    let end = if start + CHUNK_BYTES < encoded.len() {
        start + CHUNK_BYTES
    } else {
        encoded.len()
    };
    if p.len() != 6 + end - start {
        return false;
    }
    copy_into(encoded, start, p, 6);
    received[index] = true;
    true
}

/// Law: a chunk is accepted at most once; the same packet, delivered again
/// after it was stored, is refused, for gallery and world transfers alike.
pub proof fn lemma_duplicate_chunk_refused(
    b: Seq<u8>,
    revision: u32,
    world_id: u8,
    encoded_len: int,
    received: Seq<bool>,
)
    ensures
        slide_chunk_index(b, revision, encoded_len, received) matches Some(i)
            ==> slide_chunk_index(b, revision, encoded_len, received.update(i, true)) is None,
        world_chunk_index(b, world_id, encoded_len, received) matches Some(i)
            ==> world_chunk_index(b, world_id, encoded_len, received.update(i, true)) is None,
{
}

/// Why no world welcome came: a rejected welcome means mismatched builds; a
/// gallery without a welcome means a server without world support;
/// otherwise the server was silent.
pub fn world_welcome_error(gallery_seen: bool, rejected_welcome: bool) -> (e: &'static str)
    ensures
        rejected_welcome ==> e@
            == "incompatible world welcome; rebuild CubeSrv and Cubes together"@,
        !rejected_welcome && gallery_seen ==> e@
            == "gallery received without world welcome; rebuild and reload CubeSrv with world1 support"@,
        !rejected_welcome && !gallery_seen ==> e@
            == "world welcome timeout: no valid gallery or world announcement received"@,
{
    if rejected_welcome {
        "incompatible world welcome; rebuild CubeSrv and Cubes together"
    } else if gallery_seen {
        "gallery received without world welcome; rebuild and reload CubeSrv with world1 support"
    } else {
        "world welcome timeout: no valid gallery or world announcement received"
    }
}

/// An 8-bit channel rounded to five bits, as placed assets round it.
pub open spec fn five_bits(c: u8) -> int {
    (c * 31 + 127) / 255
}

/// The RGB555 palette entry of the pixel at `at`.
pub open spec fn rgb555(rgba: Seq<u8>, at: int) -> u16 {
    (0x8000 + five_bits(rgba[at]) + five_bits(rgba[at + 1]) * 32 + five_bits(rgba[at + 2])
        * 1024) as u16
}

/// Where the palette row starts, if the image is as large as its layout,
/// the stride holds a row, and the bytes reach the end of the last row.
pub open spec fn palette_row(extent: [u32; 2], width: u32, height: u32, stride: u32, len: int) -> Option<
    int,
> {
    if width != extent[0] || height != extent[1] || stride < width * 4 {
        None
    } else {
        let row = (height - 1) * stride;
        if row + 4 > row + width * 4 || row + width * 4 > len {
            None
        } else {
            Some(row + 4)
        }
    }
}

/// The gallery palette: the pixels of the last image row after the first,
/// at most 256 of them, as RGB555 colours.
pub fn palette_from_rgba(extent: [u32; 2], width: u32, height: u32, stride: u32, rgba: &[u8]) -> (r:
    Option<Vec<u16>>)
    requires
        extent[1] >= 1,
    ensures
        match palette_row(extent, width, height, stride, rgba@.len() as int) {
            None => r is None,
            Some(first) => r is Some && r.unwrap()@ == Seq::new(
                if width - 1 < 256 {
                    (width - 1) as nat
                } else {
                    256
                },
                |k: int| rgb555(rgba@, first + 4 * k),
            ),
        },
{
    if width != extent[0] || height != extent[1] || (stride as u128) < (width as u128) * 4 {
        return None;
    }
    proof {
        assert((height - 1) * stride <= 0xffff_ffffu64 * 0xffff_ffffu64) by (nonlinear_arith)
            requires
                1 <= height <= 0xffff_ffffu64,
                stride <= 0xffff_ffffu64,
        ;
    }
    let row: u128 = (height as u128 - 1) * stride as u128;
    if row + 4 > row + width as u128 * 4 || row + width as u128 * 4 > rgba.len() as u128 {
        return None;
    }
    let first = (row + 4) as usize;
    let count: usize = if width - 1 < 256 {
        (width - 1) as usize
    } else {
        256
    };
    let mut out: Vec<u16> = Vec::new();
    let mut k: usize = 0;
    while k < count
        invariant
            k <= count,
            count == if width - 1 < 256 {
                (width - 1) as int
            } else {
                256
            },
            first + 4 * (width - 1) <= rgba.len(),
            first == (height - 1) * stride + 4,
            out@.len() == k,
            forall|j: int| 0 <= j < k ==> #[trigger] out@[j] == rgb555(rgba@, first + 4 * j),
        decreases count - k,
    {
        let at = first + 4 * k;
        let red = (rgba[at] as u16 * 31 + 127) / 255;
        let green = (rgba[at + 1] as u16 * 31 + 127) / 255;
        let blue = (rgba[at + 2] as u16 * 31 + 127) / 255;
        out.push(0x8000 + red + green * 32 + blue * 1024);
        k = k + 1;
    }
    proof {
        assert(out@ =~= Seq::new(
            count as nat,
            |k: int| rgb555(rgba@, first + 4 * k),
        ));
    }
    Some(out)
}

/// Request rounds per window before a transfer gives up.
pub const WINDOW_ATTEMPTS: u8 = 8;
/// Hello rounds before a world welcome counts as missing.
pub const HELLO_ATTEMPTS: u8 = 10;

/// Every chunk of the window that starts at `start` has arrived.
pub open spec fn window_complete(received: Seq<bool>, start: int) -> bool {
    forall|i: int| start <= i < start + WINDOW && i < received.len() ==> #[trigger] received[i]
}

/// The first window, from `start` on, that still misses a chunk; the end
/// when none does.
pub open spec fn pending_window(received: Seq<bool>, start: int) -> int
    decreases (if start < received.len() {
        received.len() - start
    } else {
        0
    }),
{
    if start >= received.len() {
        start
    } else if window_complete(received, start) {
        pending_window(received, start + WINDOW)
    } else {
        start
    }
}

/// The chunks in `lo..hi` that have not arrived, in order.
pub open spec fn missing(received: Seq<bool>, lo: int, hi: int) -> Seq<u16>
    decreases hi - lo,
{
    if lo >= hi {
        Seq::empty()
    } else {
        (if received[lo] {
            Seq::empty()
        } else {
            seq![lo as u16]
        }) + missing(received, lo + 1, hi)
    }
}

pub open spec fn window_end(start: int, chunks: int) -> int {
    if start + WINDOW < chunks {
        start + WINDOW
    } else {
        chunks
    }
}

/// What the transfer loop does next.
pub enum Step {
    /// Request these chunks, then collect replies until the window is
    /// complete or the round times out.
    Request(Vec<u16>),
    /// Every chunk has arrived.
    Done,
    /// A window stayed incomplete through every round.
    Failed,
}

/// A windowed chunk transfer: windows of 32 chunks, each retried for at
/// most eight request rounds, in order.
pub struct Transfer {
    received: Vec<bool>,
    len: usize,
    start: usize,
    attempts: u8,
}

/// Law: the windows already passed hold every chunk they cover.
pub open spec fn passed_complete(received: Seq<bool>, start: int) -> bool {
    forall|i: int| 0 <= i < start && i < received.len() ==> #[trigger] received[i]
}

impl Transfer {
    pub closed spec fn arrived(&self) -> Seq<bool> {
        self.received@
    }

    pub closed spec fn byte_len(&self) -> usize {
        self.len
    }

    pub closed spec fn window(&self) -> usize {
        self.start
    }

    pub closed spec fn rounds(&self) -> u8 {
        self.attempts
    }

    /// One flag per chunk of the encoded length; windows start at multiples
    /// of 32; the windows passed are complete.
    pub closed spec fn wf(&self) -> bool {
        &&& self.received@.len() == (self.len + CHUNK_BYTES - 1) / CHUNK_BYTES as int
        &&& self.len <= MAX_ENCODED_BYTES
        &&& self.start % WINDOW == 0
        &&& self.start <= self.received@.len() + WINDOW
        &&& self.attempts <= WINDOW_ATTEMPTS
        &&& passed_complete(self.received@, self.start as int)
    }

    /// A transfer of `len` encoded bytes, nothing received yet.
    pub fn new(len: usize) -> (t: Self)
        requires
            len <= MAX_ENCODED_BYTES,
        ensures
            t.wf(),
            t.byte_len() == len,
            t.arrived() == Seq::new(((len + CHUNK_BYTES - 1) / CHUNK_BYTES as int) as nat, |i: int| false),
            t.window() == 0,
            t.rounds() == 0,
    {
        let chunks = (len + CHUNK_BYTES - 1) / CHUNK_BYTES;
        let received = vec![false; chunks];
        proof {
            assert(received@ =~= Seq::new(chunks as nat, |i: int| false));
        }
        Transfer { received, len, start: 0, attempts: 0 }
    }

    /// The number of chunks.
    pub fn chunks(&self) -> (n: usize)
        ensures
            n == self.arrived().len(),
    {
        self.received.len()
    }

    /// Whether chunk `i` has arrived.
    pub fn has(&self, i: usize) -> (r: bool)
        requires
            i < self.arrived().len(),
        ensures
            r == self.arrived()[i as int],
    {
        self.received[i]
    }

    /// Every chunk of the present window has arrived.
    pub fn window_complete(&self) -> (r: bool)
        requires
            self.wf(),
        ensures
            r == window_complete(self.arrived(), self.window() as int),
    {
        let end = if self.start + WINDOW < self.received.len() {
            self.start + WINDOW
        } else {
            self.received.len()
        };
        let mut i = self.start;
        while i < end
            invariant
                self.start <= i,
                i <= end || end < self.start,
                end <= self.received@.len(),
                end == window_end(self.start as int, self.received@.len() as int),
                forall|k: int| self.start <= k < i ==> #[trigger] self.received@[k],
            decreases end - i,
        {
            if !self.received[i] {
                return false;
            }
            i = i + 1;
        }
        true
    }

    /// Store a world chunk of the transfer of `world_id` (see
    /// `accept_world_chunk`).
    pub fn accept_world(&mut self, bytes: &[u8], world_id: u8, encoded: &mut [u8]) -> (r: bool)
        requires
            old(self).wf(),
            old(encoded).len() == old(self).byte_len(),
        ensures
            final(self).wf(),
            final(self).byte_len() == old(self).byte_len(),
            final(self).window() == old(self).window(),
            final(self).rounds() == old(self).rounds(),
            match world_chunk_index(bytes@, world_id, old(encoded).len() as int, old(self).arrived()) {
                Some(index) => {
                    &&& r
                    &&& final(self).arrived() == old(self).arrived().update(index, true)
                    &&& final(encoded)@ == spliced(
                        old(encoded)@,
                        index * CHUNK_BYTES,
                        spec_payload(bytes@, WORLD_CHUNK).unwrap().subrange(
                            5,
                            spec_payload(bytes@, WORLD_CHUNK).unwrap().len() as int,
                        ),
                    )
                },
                None => !r && final(self).arrived() == old(self).arrived() && final(encoded)@ == old(
                    encoded,
                )@,
            },
    {
        proof {
            lemma_chunks_fit(self.len as int);
        }
        let r = accept_world_chunk(bytes, world_id, encoded, self.received.as_mut_slice());
        proof {
            assert(passed_complete(self.received@, self.start as int));
        }
        r
    }

    /// Store a gallery chunk of revision `revision` (see `accept_chunk`).
    pub fn accept_slide(&mut self, bytes: &[u8], revision: u32, encoded: &mut [u8]) -> (r: bool)
        requires
            old(self).wf(),
            old(encoded).len() == old(self).byte_len(),
        ensures
            final(self).wf(),
            final(self).byte_len() == old(self).byte_len(),
            final(self).window() == old(self).window(),
            final(self).rounds() == old(self).rounds(),
            match slide_chunk_index(bytes@, revision, old(encoded).len() as int, old(self).arrived()) {
                Some(index) => {
                    &&& r
                    &&& final(self).arrived() == old(self).arrived().update(index, true)
                    &&& final(encoded)@ == spliced(
                        old(encoded)@,
                        index * CHUNK_BYTES,
                        spec_payload(bytes@, CHUNK).unwrap().subrange(
                            6,
                            spec_payload(bytes@, CHUNK).unwrap().len() as int,
                        ),
                    )
                },
                None => !r && final(self).arrived() == old(self).arrived() && final(encoded)@ == old(
                    encoded,
                )@,
            },
    {
        let r = accept_chunk(bytes, revision, encoded, self.received.as_mut_slice());
        proof {
            assert(passed_complete(self.received@, self.start as int));
        }
        r
    }

    /// The next round: skip the windows that are complete (each fresh
    /// window starts its rounds from zero); finish when none is left; give
    /// up when the pending window has used all its rounds; otherwise ask for
    /// the window's missing chunks and count the round.
    pub fn next(&mut self) -> (step: Step)
        requires
            old(self).wf(),
        ensures
            final(self).wf(),
            final(self).arrived() == old(self).arrived(),
            final(self).byte_len() == old(self).byte_len(),
            ({
                let n = old(self).arrived().len() as int;
                let w = pending_window(old(self).arrived(), old(self).window() as int);
                let used = if w == old(self).window() {
                    old(self).rounds()
                } else {
                    0
                };
                &&& final(self).window() == w
                &&& if w >= n {
                    step is Done && final(self).rounds() == used
                } else if used >= WINDOW_ATTEMPTS {
                    step is Failed && final(self).rounds() == used
                } else {
                    &&& step matches Step::Request(ids) && ids@ == missing(
                        old(self).arrived(),
                        w,
                        window_end(w, n),
                    )
                    &&& final(self).rounds() == used + 1
                }
            }),
            step is Done ==> forall|i: int|
                0 <= i < old(self).arrived().len() ==> #[trigger] old(self).arrived()[i],
    {
        let n = self.received.len();
        let ghost start0 = self.start as int;
        while self.start < n && self.window_complete()
            invariant
                self.wf(),
                n == self.received@.len(),
                self.received@ == old(self).received@,
                self.len == old(self).len,
                start0 <= self.start,
                pending_window(self.received@, self.start as int) == pending_window(
                    self.received@,
                    start0,
                ),
                self.start != start0 ==> self.attempts == 0,
                self.start == start0 ==> self.attempts == old(self).attempts,
            decreases n + WINDOW - self.start,
        {
            proof {
                assert forall|i: int| 0 <= i < self.start + WINDOW && i < n implies #[trigger] self.received@[i] by {
                    if i < self.start {
                        assert(passed_complete(self.received@, self.start as int));
                    } else {
                        assert(window_complete(self.received@, self.start as int));
                    }
                }
            }
            self.start = self.start + WINDOW;
            self.attempts = 0;
        }
        if self.start >= n {
            proof {
                lemma_done_means_complete(self.received@, start0);
            }
            return Step::Done;
        }
        if self.attempts >= WINDOW_ATTEMPTS {
            return Step::Failed;
        }
        let end = if self.start + WINDOW < n {
            self.start + WINDOW
        } else {
            n
        };
        let mut ids: Vec<u16> = Vec::new();
        let mut i = self.start;
        proof {
            lemma_chunk_count(self.len as int);
        }
        while i < end
            invariant
                self.start <= i <= end,
                end <= n,
                n == self.received@.len(),
                n <= 4096,
                ids@ + missing(self.received@, i as int, end as int) == missing(
                    self.received@,
                    self.start as int,
                    end as int,
                ),
            decreases end - i,
        {
            if !self.received[i] {
                ids.push(i as u16);
            }
            proof {
                assert(ids@ + missing(self.received@, i + 1, end as int) =~= missing(
                    self.received@,
                    self.start as int,
                    end as int,
                ));
            }
            i = i + 1;
        }
        proof {
            assert(ids@ + missing(self.received@, end as int, end as int) =~= ids@);
        }
        self.attempts = self.attempts + 1;
        Step::Request(ids)
    }
}

proof fn lemma_chunks_fit(len: int)
    requires
        0 <= len,
    ensures
        chunks_fit(len, (len + CHUNK_BYTES - 1) / CHUNK_BYTES as int),
{
    let n = (len + CHUNK_BYTES - 1) / CHUNK_BYTES as int;
    assert(n * CHUNK_BYTES <= len + CHUNK_BYTES - 1) by (nonlinear_arith)
        requires
            n == (len + CHUNK_BYTES - 1) / CHUNK_BYTES as int,
            len >= 0,
    ;
    assert((n - 1) * CHUNK_BYTES == n * CHUNK_BYTES - CHUNK_BYTES) by (nonlinear_arith);
}

proof fn lemma_chunk_count(len: int)
    requires
        0 <= len <= MAX_ENCODED_BYTES,
    ensures
        (len + CHUNK_BYTES - 1) / CHUNK_BYTES as int <= 4096,
{
}

/// Law: a transfer reports `Done` only when every chunk has arrived.
pub proof fn lemma_done_means_complete(received: Seq<bool>, start: int)
    requires
        0 <= start,
        passed_complete(received, start),
        pending_window(received, start) >= received.len(),
    ensures
        forall|i: int| 0 <= i < received.len() ==> #[trigger] received[i],
    decreases (if start < received.len() {
        received.len() - start
    } else {
        0
    }),
{
    if start < received.len() {
        assert(window_complete(received, start));
        assert forall|i: int| 0 <= i < start + WINDOW && i < received.len() implies #[trigger] received[i] by {
            if i >= start {
                assert(window_complete(received, start));
            }
        }
        lemma_done_means_complete(received, start + WINDOW);
    }
}

} // verus!

verus! {

/// How many announcements in a row may go unheard before the server is
/// given up as unavailable.
pub const MISSED_LIMIT: u32 = 10;

/// What the gallery stream does after waiting for one announcement.
#[derive(Clone, Copy, Debug, PartialEq, Eq, Structural)]
pub enum Announce {
    /// Too many announcements were missed: the server is unavailable.
    Unavailable,
    /// None was heard; the count of missed ones so far.
    Missed(u32),
    /// The announced revision is the one shown: nothing to download.
    Current,
    /// A new revision was announced: download its `len` bytes.
    Download { revision: u32, len: usize },
}

pub open spec fn spec_announce(missed: u32, shown: Option<u32>, heard: Option<(u32, usize)>) -> Announce {
    match heard {
        None => if missed + 1 >= MISSED_LIMIT {
            Announce::Unavailable
        } else {
            Announce::Missed((missed + 1) as u32)
        },
        Some((revision, len)) => if shown == Some(revision) {
            Announce::Current
        } else {
            Announce::Download { revision, len }
        },
    }
}

/// One announcement round: after `missed` unheard rounds, with revision
/// `shown` on display, an announcement of `(revision, length)` or none.
/// A heard announcement resets the missed count; only a revision other
/// than the one shown is downloaded.
pub fn announce_step(missed: u32, shown: Option<u32>, heard: Option<(u32, usize)>) -> (r: Announce)
    requires
        missed < MISSED_LIMIT,
    ensures
        r == spec_announce(missed, shown, heard),
{
    match heard {
        None => if missed + 1 >= MISSED_LIMIT {
            Announce::Unavailable
        } else {
            Announce::Missed(missed + 1)
        },
        Some((revision, len)) => {
            let current = match shown {
                Some(s) => s == revision,
                None => false,
            };
            if current {
                Announce::Current
            } else {
                Announce::Download { revision, len }
            }
        },
    }
}

} // verus!
