//! Shared read-only record view of CUBES files. V1 remains unchanged for
//! existing assets and the network. World V2 uses c1 units and 12-byte
//! records: i16 xyz, u8 side, palette, part, constituent tier side, and two
//! zero reserved bytes. Packed records retain their constituent tier (e.g. a
//! 32-c1 record packs 4^3 c4 cells).
use vstd::prelude::*;
use vstd::arithmetic::div_mod::lemma_fundamental_div_mod_converse;

verus! {

pub const PORTAL_MARKER_FIRST: u8 = 17;
pub const PORTAL_MARKER_LAST: u8 = 30;
pub const PORTAL_MARKER_FACES: usize = 7;
/// Bytes before the palette: magic, version, dimensions, palette length.
pub const HEADER_LEN: usize = 16;

#[derive(Clone, Copy, Debug, PartialEq, Eq, Structural)]
pub enum PortalMarkerKind {
    Spawn,
    Forward,
}

/// The face and kind of a V2 portal marker part: parts are paired by face in
/// runtime order north, east, south, west, bottom, top, center, the spawn
/// marker first.
pub open spec fn spec_portal_marker(version: u8, part: u8) -> Option<(usize, PortalMarkerKind)> {
    if version != 2 || part < PORTAL_MARKER_FIRST || part > PORTAL_MARKER_LAST {
        None
    } else {
        let marker = part - PORTAL_MARKER_FIRST;
        Some(
            (
                (marker / 2) as usize,
                if marker % 2 == 0 {
                    PortalMarkerKind::Spawn
                } else {
                    PortalMarkerKind::Forward
                },
            ),
        )
    }
}

pub fn portal_marker(version: u8, part: u8) -> (r: Option<(usize, PortalMarkerKind)>)
    ensures
        r == spec_portal_marker(version, part),
{
    if version != 2 || part < PORTAL_MARKER_FIRST || part > PORTAL_MARKER_LAST {
        return None;
    }
    let marker = part - PORTAL_MARKER_FIRST;
    Some(
        (
            (marker / 2) as usize,
            if marker % 2 == 0 {
                PortalMarkerKind::Spawn
            } else {
                PortalMarkerKind::Forward
            },
        ),
    )
}

pub open spec fn spec_is_portal_marker(version: u8, part: u8) -> bool {
    version == 2 && PORTAL_MARKER_FIRST <= part <= PORTAL_MARKER_LAST
}

pub fn is_portal_marker(version: u8, part: u8) -> (r: bool)
    ensures
        r == spec_is_portal_marker(version, part),
        r == spec_portal_marker(version, part).is_some(),
{
    portal_marker(version, part).is_some()
}

#[derive(Clone, Copy, Debug)]
pub struct Record {
    pub origin: [i32; 3],
    pub side: i32,
    pub color: usize,
    pub part: u8,
    pub tier: i32,
}

/// A record that can be unpacked in `i32`: a positive tier, a side that
/// is not negative, at most `i32::MAX` cubes, and every unpacked origin
/// within `i32`.
pub open spec fn unpackable(r: Record) -> bool {
    let n = r.side / r.tier;
    &&& 1 <= r.tier
    &&& 0 <= r.side
    &&& n * n * n <= i32::MAX
    &&& forall|a: int| 0 <= a < 3 ==> #[trigger] r.origin[a] + (n - 1) * r.tier <= i32::MAX
}

/// The render cubes of a packed record: `n^3` cubes of the record's tier,
/// with `n = side / tier`, z fastest, then y, then x.
pub open spec fn spec_unpack(r: Record) -> Seq<Record> {
    let n = r.side / r.tier;
    Seq::new(
        (n * n * n) as nat,
        |i: int|
            Record {
                origin: [
                    (r.origin[0] + i / (n * n) * r.tier) as i32,
                    (r.origin[1] + (i / n) % n * r.tier) as i32,
                    (r.origin[2] + i % n * r.tier) as i32,
                ],
                side: r.tier,
                color: r.color,
                part: r.part,
                tier: r.tier,
            },
    )
}

proof fn lemma_cube_root_bound(n: int)
    requires
        0 <= n,
        n * n * n <= i32::MAX,
    ensures
        n <= 1290,
        n * n <= 1290 * 1290,
{
    if n > 1290 {
        assert(n * n * n >= 1291 * 1291 * 1291) by (nonlinear_arith)
            requires
                n >= 1291,
        ;
    }
    assert(n * n <= 1290 * 1290) by (nonlinear_arith)
        requires
            0 <= n <= 1290,
    ;
}

proof fn lemma_unpack_bounds(i: int, n: int, tier: int, side: int)
    requires
        1 <= tier,
        0 <= side,
        n == side / tier,
        0 <= n,
        0 <= i < n * n * n,
    ensures
        (n - 1) * tier <= side,
        0 <= i / (n * n) * tier <= (n - 1) * tier,
        0 <= (i / n) % n * tier <= (n - 1) * tier,
        0 <= i % n * tier <= (n - 1) * tier,
{
    assert(n > 0) by {
        if n == 0 {
            assert(n * n * n == 0) by (nonlinear_arith)
                requires
                    n == 0,
            ;
        }
    }
    assert(n * tier <= side) by {
        vstd::arithmetic::div_mod::lemma_fundamental_div_mod(side, tier);
        vstd::arithmetic::mul::lemma_mul_is_commutative(n, tier);
    }
    assert((n - 1) * tier <= n * tier) by (nonlinear_arith)
        requires
            1 <= tier,
    ;
    assert(n * n > 0) by (nonlinear_arith)
        requires
            n > 0,
    ;
    assert(i / (n * n) < n) by {
        vstd::arithmetic::div_mod::lemma_multiply_divide_lt(i, n * n, n);
        vstd::arithmetic::mul::lemma_mul_is_associative(n, n, n);
        vstd::arithmetic::mul::lemma_mul_is_commutative(n * n, n);
    }
    assert(0 <= i / (n * n)) by {
        vstd::arithmetic::div_mod::lemma_div_pos_is_pos(i, n * n);
    }
    assert(0 <= (i / n) % n < n) by {
        vstd::arithmetic::div_mod::lemma_mod_bound(i / n, n);
    }
    assert(0 <= i % n < n) by {
        vstd::arithmetic::div_mod::lemma_mod_bound(i, n);
    }
    assert forall|k: int| 0 <= k < n implies 0 <= #[trigger] (k * tier) <= (n - 1) * tier by {
        assert(k * tier <= (n - 1) * tier) by (nonlinear_arith)
            requires
                0 <= k <= n - 1,
                1 <= tier,
        ;
        assert(0 <= k * tier) by (nonlinear_arith)
            requires
                0 <= k,
                1 <= tier,
        ;
    }
}

impl Record {
    /// The render cubes of a validated record. Storage packing never
    /// introduces a render tier.
    pub fn cubes(self) -> (v: Vec<Record>)
        requires
            unpackable(self),
        ensures
            v@ == spec_unpack(self),
    {
        let n: i32 = self.side / self.tier;
        proof {
            vstd::arithmetic::div_mod::lemma_div_pos_is_pos(self.side as int, self.tier as int);
            lemma_cube_root_bound(n as int);
        }
        let total: i32 = n * n * n;
        let mut v: Vec<Record> = Vec::new();
        let mut i: i32 = 0;
        while i < total
            invariant
                unpackable(self),
                n == self.side / self.tier,
                total == n * n * n,
                0 <= n <= 1290,
                n * n <= 1290 * 1290,
                0 <= i <= total,
                v@ == spec_unpack(self).take(i as int),
            decreases total - i,
        {
            proof {
                lemma_unpack_bounds(i as int, n as int, self.tier as int, self.side as int);
                assert(self.origin[0] + (n - 1) * self.tier <= i32::MAX);
                assert(self.origin[1] + (n - 1) * self.tier <= i32::MAX);
                assert(self.origin[2] + (n - 1) * self.tier <= i32::MAX);
            }
            let x = i / (n * n) * self.tier;
            let y = (i / n) % n * self.tier;
            let z = i % n * self.tier;
            let r = Record {
                origin: [self.origin[0] + x, self.origin[1] + y, self.origin[2] + z],
                side: self.tier,
                color: self.color,
                part: self.part,
                tier: self.tier,
            };
            v.push(r);
            proof {
                assert(v@ =~= spec_unpack(self).take(i + 1));
            }
            i = i + 1;
        }
        proof {
            assert(v@ =~= spec_unpack(self));
        }
        v
    }
}

/// The record stride: 12 bytes in V2, 8 in V1.
pub open spec fn spec_stride(b: Seq<u8>) -> int {
    if b[4] == 2 {
        12
    } else {
        8
    }
}

pub fn stride(bytes: &[u8]) -> (r: usize)
    requires
        bytes.len() > 4,
    ensures
        r == spec_stride(bytes@),
{
    if bytes[4] == 2 {
        12
    } else {
        8
    }
}

/// Where the records start: after the header and four bytes per palette entry.
pub open spec fn records_start(b: Seq<u8>) -> int {
    HEADER_LEN + b[10] * 4
}

/// A header that the record view can be taken of.
pub open spec fn has_records(b: Seq<u8>) -> bool {
    b.len() > 10 && records_start(b) <= b.len()
}

/// A little-endian `i16`.
pub open spec fn le_i16(lo: u8, hi: u8) -> i32 {
    let u = lo + 256 * hi;
    (if u >= 32768 {
        u - 65536
    } else {
        u as int
    }) as i32
}

/// A byte read as an `i8`.
pub open spec fn signed_byte(b: u8) -> i32 {
    (if b >= 128 {
        b - 256
    } else {
        b as int
    }) as i32
}

/// The record whose bytes start at `off`.
pub open spec fn parse_record(b: Seq<u8>, off: int) -> Record {
    if b[4] == 2 {
        Record {
            origin: [
                le_i16(b[off], b[off + 1]),
                le_i16(b[off + 2], b[off + 3]),
                le_i16(b[off + 4], b[off + 5]),
            ],
            side: b[off + 6] as i32,
            color: b[off + 7] as usize,
            part: b[off + 8],
            tier: b[off + 9] as i32,
        }
    } else {
        Record {
            origin: [signed_byte(b[off]), signed_byte(b[off + 1]), signed_byte(b[off + 2])],
            side: b[off + 3] as i32,
            color: b[off + 4] as usize,
            part: b[off + 5],
            tier: b[off + 3] as i32,
        }
    }
}

/// All whole records after the palette; a partial tail is ignored.
pub open spec fn spec_records(b: Seq<u8>) -> Seq<Record> {
    let start = records_start(b);
    let stride = spec_stride(b);
    Seq::new(
        ((b.len() - start) / stride) as nat,
        |k: int| parse_record(b, start + k * stride),
    )
}

fn read_le_i16(lo: u8, hi: u8) -> (r: i32)
    ensures
        r == le_i16(lo, hi),
{
    let u: i32 = lo as i32 + 256 * hi as i32;
    if u >= 32768 {
        u - 65536
    } else {
        u
    }
}

fn read_signed_byte(b: u8) -> (r: i32)
    ensures
        r == signed_byte(b),
{
    let u: i32 = b as i32;
    if u >= 128 {
        u - 256
    } else {
        u
    }
}

fn read_record(bytes: &[u8], off: usize) -> (r: Record)
    requires
        bytes.len() > 4,
        off + spec_stride(bytes@) <= bytes.len(),
    ensures
        r == parse_record(bytes@, off as int),
{
    if bytes[4] == 2 {
        Record {
            origin: [
                read_le_i16(bytes[off], bytes[off + 1]),
                read_le_i16(bytes[off + 2], bytes[off + 3]),
                read_le_i16(bytes[off + 4], bytes[off + 5]),
            ],
            side: bytes[off + 6] as i32,
            color: bytes[off + 7] as usize,
            part: bytes[off + 8],
            tier: bytes[off + 9] as i32,
        }
    } else {
        Record {
            origin: [
                read_signed_byte(bytes[off]),
                read_signed_byte(bytes[off + 1]),
                read_signed_byte(bytes[off + 2]),
            ],
            side: bytes[off + 3] as i32,
            color: bytes[off + 4] as usize,
            part: bytes[off + 5],
            tier: bytes[off + 3] as i32,
        }
    }
}

/// Every whole record after the palette, in file order.
pub fn records(bytes: &[u8]) -> (v: Vec<Record>)
    requires
        has_records(bytes@),
    ensures
        v@ == spec_records(bytes@),
{
    let start: usize = HEADER_LEN + bytes[10] as usize * 4;
    let stride = stride(bytes);
    let len = bytes.len();
    let mut v: Vec<Record> = Vec::new();
    let mut off: usize = start;
    while stride <= len - off
        invariant
            has_records(bytes@),
            start == records_start(bytes@),
            stride == spec_stride(bytes@),
            len == bytes.len(),
            start <= off <= len,
            off == start + v.len() * stride,
            forall|k: int| 0 <= k < v.len() ==> v@[k] == parse_record(bytes@, start + k * stride),
        decreases len - off,
    {
        let r = read_record(bytes, off);
        proof {
            assert(off == start + v.len() * stride);
        }
        v.push(r);
        off = off + stride;
        proof {
            assert((v.len() - 1) * stride + stride == v.len() * stride) by (nonlinear_arith);
        }
    }
    proof {
        lemma_fundamental_div_mod_converse(
            (len - start) as int,
            stride as int,
            v.len() as int,
            (len - off) as int,
        );
        assert(v@ =~= spec_records(bytes@));
    }
    v
}

/// The render cubes of a list of records: every record but the portal
/// markers, unpacked, in order.
pub open spec fn spec_render_cubes(rs: Seq<Record>, version: u8) -> Seq<Record>
    decreases rs.len(),
{
    if rs.len() == 0 {
        Seq::empty()
    } else {
        spec_render_cubes(rs.drop_last(), version) + if spec_is_portal_marker(
            version,
            rs.last().part,
        ) {
            Seq::empty()
        } else {
            spec_unpack(rs.last())
        }
    }
}

/// Arrival markers are point metadata represented by non-overlapping c2
/// records. They never become visible, pickable, collidable, animated, or
/// platform-owned world cubes: the render cubes are all other records,
/// unpacked.
pub fn cubes(bytes: &[u8]) -> (v: Vec<Record>)
    requires
        has_records(bytes@),
        forall|k: int|
            0 <= k < spec_records(bytes@).len() ==> unpackable(#[trigger] spec_records(bytes@)[k]),
    ensures
        v@ == spec_render_cubes(spec_records(bytes@), bytes@[4]),
{
    let version = bytes[4];
    let rs = records(bytes);
    let mut v: Vec<Record> = Vec::new();
    let mut k: usize = 0;
    while k < rs.len()
        invariant
            rs@ == spec_records(bytes@),
            version == bytes@[4],
            forall|j: int| 0 <= j < rs.len() ==> unpackable(#[trigger] rs@[j]),
            k <= rs.len(),
            v@ == spec_render_cubes(rs@.take(k as int), version),
        decreases rs.len() - k,
    {
        let r = rs[k];
        proof {
            assert(rs@.take(k + 1).drop_last() =~= rs@.take(k as int));
        }
        if !is_portal_marker(version, r.part) {
            let mut unpacked = r.cubes();
            v.append(&mut unpacked);
        }
        proof {
            assert(v@ =~= spec_render_cubes(rs@.take(k + 1), version));
        }
        k = k + 1;
    }
    proof {
        assert(rs@.take(rs.len() as int) =~= rs@);
    }
    v
}


/// Law: a record's origin coordinates are read as two's complement. In a
/// V1 file coordinate `a` of record `k` is its byte `a`: it lies in
/// -128..=127 and equals the byte modulo 256 (byte 0xFF is -1). In a V2
/// file it is its two little-endian bytes `2a` and `2a + 1`: it lies in
/// -32768..=32767 and equals their value modulo 65536. A V1 record's side
/// and tier are both its byte 3, its colour byte 4 and its part byte 5; a
/// V2 record's side, colour, part and tier are its bytes 6 to 9.
pub proof fn lemma_record_origins(b: Seq<u8>, k: int, a: int)
    requires
        has_records(b),
        0 <= k < spec_records(b).len(),
        0 <= a < 3,
    ensures
        ({
            let r = spec_records(b)[k];
            let o = r.origin[a] as int;
            let off = 16 + 4 * b[10] + k * (if b[4] == 2 {
                12int
            } else {
                8int
            });
            if b[4] == 2 {
                &&& -32768 <= o < 32768
                &&& (o - (b[off + 2 * a] + 256 * b[off + 2 * a + 1])) % 65536 == 0
                &&& r.side == b[off + 6] as int
                &&& r.color == b[off + 7] as int
                &&& r.part == b[off + 8]
                &&& r.tier == b[off + 9] as int
            } else {
                &&& -128 <= o < 128
                &&& (o - b[off + a]) % 256 == 0
                &&& r.side == b[off + 3] as int
                &&& r.tier == b[off + 3] as int
                &&& r.color == b[off + 4] as int
                &&& r.part == b[off + 5]
            }
        }),
{
    let off = records_start(b) + k * spec_stride(b);
    let r = spec_records(b)[k];
    assert(r == parse_record(b, off));
    if a == 0 {
    } else if a == 1 {
    } else {
    }
}


/// Law: the records are every whole record after the 16-byte header and
/// four bytes per palette entry, 12 bytes each in a V2 file and 8 in a V1
/// file; a partial record at the end is not one.
pub proof fn lemma_record_count(b: Seq<u8>)
    requires
        has_records(b),
    ensures
        ({
            let stride = if b[4] == 2 {
                12int
            } else {
                8int
            };
            let room = b.len() - (16 + 4 * b[10]);
            &&& spec_records(b).len() * stride <= room
            &&& room < (spec_records(b).len() + 1) * stride
        }),
{
    let stride = spec_stride(b);
    let room = b.len() - records_start(b);
    assert(room >= 0);
    vstd::arithmetic::div_mod::lemma_fundamental_div_mod(room, stride);
    vstd::arithmetic::div_mod::lemma_mod_pos_bound(room, stride);
    assert(spec_records(b).len() == room / stride);
    assert((room / stride) * stride == stride * (room / stride)) by (nonlinear_arith);
}

} // verus!
