//! Static CUBE assets, version 1: the header, the palette of opaque
//! colours and 8-byte records of cubes one to four cells wide that must not
//! overlap. This module checks the file and reads its cells; where a cube's
//! scale and centre are finite, which takes the float unit, the caller
//! answers, and it turns cells into float geometry.
use vstd::prelude::*;

verus! {

pub const CUSTOM_RGB555: u32 = 0x8000;
/// The most records an asset may hold.
pub const MAX_RECORDS: usize = 1024;

/// Why a file is refused, in the order the checks run.
#[derive(Clone, Copy, Debug, PartialEq, Eq, Structural)]
pub enum Rejection {
    Header,
    StaticOnly,
    Gap,
    Limits,
    Length,
    OpaqueOnly,
    Record,
    Overlap,
    Scale,
    Position,
}

/// One decoded cube: its lowest cell, its width in cells (1 to 4) and its
/// RGB555 flags.
#[derive(Clone, Copy, Debug, PartialEq, Eq, Structural)]
pub struct Cell {
    pub x: i16,
    pub y: i16,
    pub z: i16,
    pub size: u8,
    pub flags: u32,
}

pub open spec fn record_count(b: Seq<u8>) -> int {
    b[8] + 256 * b[9]
}

pub open spec fn records_start(b: Seq<u8>) -> int {
    16 + b[10] * 4
}

/// What the header and palette say, `unit_ok` telling whether the float
/// unit is finite and positive: the first failed check, if any.
pub open spec fn header_check(b: Seq<u8>, unit_ok: bool) -> Option<Rejection> {
    if b.len() < 16 || b[0] != 67 || b[1] != 85 || b[2] != 66 || b[3] != 69 || b[4] != 1 {
        Some(Rejection::Header)
    } else if b[7] != 8 || b[11] != 4 {
        Some(Rejection::Header)
    } else if b[5] != 0 {
        Some(Rejection::StaticOnly)
    } else if b[6] == 0 || b[6] >= 100 {
        Some(Rejection::Gap)
    } else if record_count(b) == 0 || record_count(b) > MAX_RECORDS || b[10] == 0 || !unit_ok {
        Some(Rejection::Limits)
    } else if b.len() != records_start(b) + record_count(b) * 8 {
        Some(Rejection::Length)
    } else if exists|c: int| 0 <= c < b[10] && #[trigger] b[16 + c * 4 + 3] != 255 {
        Some(Rejection::OpaqueOnly)
    } else {
        None
    }
}

/// Byte `i` of record `k`.
pub open spec fn rb(b: Seq<u8>, k: int, i: int) -> u8 {
    b[records_start(b) + k * 8 + i]
}

/// A byte read as a signed cell coordinate.
pub open spec fn signed(x: u8) -> i16 {
    if x < 128 {
        x as i16
    } else {
        (x - 256) as i16
    }
}

pub open spec fn record_valid(b: Seq<u8>, k: int) -> bool {
    1 <= rb(b, k, 3) <= 4 && rb(b, k, 4) < b[10] && rb(b, k, 6) == 0 && rb(b, k, 7) == 0
}

/// Records `j` and `k` share a cell: their cubes meet on every axis.
pub open spec fn overlap(b: Seq<u8>, j: int, k: int) -> bool {
    forall|a: int|
        0 <= a < 3 ==> signed(rb(b, j, a)) < signed(rb(b, k, a)) + rb(b, k, 3) && #[trigger] signed(rb(b, k, a))
            < signed(rb(b, j, a)) + rb(b, j, 3)
}

/// A palette channel rounded to five bits.
pub open spec fn channel5(c: u8) -> u32 {
    ((c * 31 + 127) / 255) as u32
}

/// The flags of palette colour `c`.
pub open spec fn color_flags(b: Seq<u8>, c: int) -> u32 {
    let p = 16 + c * 4;
    CUSTOM_RGB555 | channel5(b[p]) | (channel5(b[p + 1]) << 5u32) | (channel5(b[p + 2]) << 10u32)
}

pub open spec fn record_cell(b: Seq<u8>, k: int) -> Cell {
    Cell {
        x: signed(rb(b, k, 0)),
        y: signed(rb(b, k, 1)),
        z: signed(rb(b, k, 2)),
        size: rb(b, k, 3),
        flags: color_flags(b, rb(b, k, 4) as int),
    }
}

/// The cells of the first `k` records, or the first failure among them:
/// a bad record, a cell already taken, or (as the caller answered for the
/// float geometry) a scale or a position that is not finite.
pub open spec fn cells_upto(b: Seq<u8>, scale_ok: [bool; 4], position_ok: Seq<bool>, k: int) -> Result<
    Seq<Cell>,
    Rejection,
>
    decreases k,
{
    if k <= 0 {
        Ok(Seq::empty())
    } else {
        match cells_upto(b, scale_ok, position_ok, k - 1) {
            Err(e) => Err(e),
            Ok(s) => if !record_valid(b, k - 1) {
                Err(Rejection::Record)
            } else if exists|j: int| 0 <= j < k - 1 && #[trigger] overlap(b, j, k - 1) {
                Err(Rejection::Overlap)
            } else if !scale_ok[rb(b, k - 1, 3) - 1] {
                Err(Rejection::Scale)
            } else if !position_ok[k - 1] {
                Err(Rejection::Position)
            } else {
                Ok(s.push(record_cell(b, k - 1)))
            },
        }
    }
}

pub open spec fn spec_decode(b: Seq<u8>, unit_ok: bool, scale_ok: [bool; 4], position_ok: Seq<bool>) -> Result<
    Seq<Cell>,
    Rejection,
> {
    match header_check(b, unit_ok) {
        Some(e) => Err(e),
        None => cells_upto(b, scale_ok, position_ok, record_count(b)),
    }
}

/// A failure among the first records is the failure of all of them.
proof fn lemma_failure_stays(b: Seq<u8>, scale_ok: [bool; 4], position_ok: Seq<bool>, k: int, m: int)
    requires
        0 <= k <= m,
        cells_upto(b, scale_ok, position_ok, k) is Err,
    ensures
        cells_upto(b, scale_ok, position_ok, m) == cells_upto(b, scale_ok, position_ok, k),
    decreases m - k,
{
    if m > k {
        lemma_failure_stays(b, scale_ok, position_ok, k, m - 1);
    }
}

fn signed_of(x: u8) -> (r: i16)
    ensures
        r == signed(x),
{
    if x < 128 {
        x as i16
    } else {
        x as i16 - 256
    }
}

fn channel(c: u8) -> (r: u32)
    ensures
        r == channel5(c),
        r < 32,
{
    (c as u32 * 31 + 127) / 255
}

fn overlaps(bytes: &[u8], start: usize, j: usize, k: usize) -> (r: bool)
    requires
        start == records_start(bytes@),
        start + k * 8 + 8 <= bytes@.len(),
        j < k,
    ensures
        r == overlap(bytes@, j as int, k as int),
{
    let _len = bytes.len();
    assert(j * 8 < k * 8);
    let pj = start + j * 8;
    let pk = start + k * 8;
    let mut a: usize = 0;
    while a < 3
        invariant
            start == records_start(bytes@),
            start + k * 8 + 8 <= bytes@.len(),
            j < k,
            pj == start + j * 8,
            pk == start + k * 8,
            a <= 3,
            forall|x: int|
                0 <= x < a ==> signed(rb(bytes@, j as int, x)) < signed(rb(bytes@, k as int, x)) + rb(bytes@, k as int, 3)
                    && #[trigger] signed(rb(bytes@, k as int, x)) < signed(rb(bytes@, j as int, x)) + rb(bytes@, j as int, 3),
        decreases 3 - a,
    {
        let oj = signed_of(bytes[pj + a]);
        let ok = signed_of(bytes[pk + a]);
        let sj = bytes[pj + 3] as i16;
        let sk = bytes[pk + 3] as i16;
        assert(oj == signed(rb(bytes@, j as int, a as int)));
        assert(ok == signed(rb(bytes@, k as int, a as int)));
        assert(sj == rb(bytes@, j as int, 3) && sk == rb(bytes@, k as int, 3));
        if !(oj < ok + sk && ok < oj + sj) {
            return false;
        }
        a = a + 1;
    }
    true
}

/// Check and read a CUBE asset. `unit_ok` says whether its float unit is
/// finite and positive, `scale_ok[s - 1]` whether a cube `s` cells wide
/// has a finite scale of at least 0.001, and `position_ok[k]` whether
/// record `k` has a finite centre.
pub fn decode_cells(bytes: &[u8], unit_ok: bool, scale_ok: [bool; 4], position_ok: &[bool]) -> (r: Result<
    Vec<Cell>,
    Rejection,
>)
    requires
        header_check(bytes@, unit_ok) is None ==> position_ok@.len() >= record_count(bytes@),
    ensures
        match r {
            Ok(v) => spec_decode(bytes@, unit_ok, scale_ok, position_ok@) == Ok::<Seq<Cell>, Rejection>(v@),
            Err(e) => spec_decode(bytes@, unit_ok, scale_ok, position_ok@) == Err::<Seq<Cell>, Rejection>(e),
        },
{
    if bytes.len() < 16 || bytes[0] != 67 || bytes[1] != 85 || bytes[2] != 66 || bytes[3] != 69 || bytes[4]
        != 1 {
        return Err(Rejection::Header);
    }
    if bytes[7] != 8 || bytes[11] != 4 {
        return Err(Rejection::Header);
    }
    if bytes[5] != 0 {
        return Err(Rejection::StaticOnly);
    }
    if bytes[6] == 0 || bytes[6] >= 100 {
        return Err(Rejection::Gap);
    }
    let count = bytes[8] as usize + 256 * bytes[9] as usize;
    let colors = bytes[10] as usize;
    if count == 0 || count > MAX_RECORDS || colors == 0 || !unit_ok {
        return Err(Rejection::Limits);
    }
    let start = 16 + colors * 4;
    if bytes.len() != start + count * 8 {
        return Err(Rejection::Length);
    }
    let mut c: usize = 0;
    while c < colors
        invariant
            colors == bytes@[10],
            bytes@.len() >= 16 + colors * 4,
            !(bytes@.len() < 16 || bytes@[0] != 67 || bytes@[1] != 85 || bytes@[2] != 66 || bytes@[3] != 69
                || bytes@[4] != 1),
            !(bytes@[7] != 8 || bytes@[11] != 4),
            bytes@[5] == 0,
            !(bytes@[6] == 0 || bytes@[6] >= 100),
            !(record_count(bytes@) == 0 || record_count(bytes@) > MAX_RECORDS || bytes@[10] == 0 || !unit_ok),
            bytes@.len() == records_start(bytes@) + record_count(bytes@) * 8,
            c <= colors,
            forall|x: int| 0 <= x < c ==> #[trigger] bytes@[16 + x * 4 + 3] == 255,
        decreases colors - c,
    {
        if bytes[16 + c * 4 + 3] != 255 {
            assert(bytes@[16 + (c as int) * 4 + 3] != 255);
            return Err(Rejection::OpaqueOnly);
        }
        c = c + 1;
    }
    assert(header_check(bytes@, unit_ok) is None);
    let mut cells: Vec<Cell> = Vec::new();
    let mut k: usize = 0;
    while k < count
        invariant
            header_check(bytes@, unit_ok) is None,
            position_ok@.len() >= record_count(bytes@),
            count == record_count(bytes@),
            count <= MAX_RECORDS,
            colors == bytes@[10],
            start == records_start(bytes@),
            bytes@.len() == start + count * 8,
            k <= count,
            cells_upto(bytes@, scale_ok, position_ok@, k as int) == Ok::<Seq<Cell>, Rejection>(cells@),
        decreases count - k,
    {
        let p = start + k * 8;
        let size = bytes[p + 3];
        assert(size == rb(bytes@, k as int, 3) && bytes@[p + 4] == rb(bytes@, k as int, 4));
        assert(bytes@[p + 6] == rb(bytes@, k as int, 6) && bytes@[p + 7] == rb(bytes@, k as int, 7));
        if !(1 <= size && size <= 4) || bytes[p + 4] as usize >= colors || bytes[p + 6] != 0 || bytes[p + 7] != 0 {
            proof {
                lemma_failure_stays(bytes@, scale_ok, position_ok@, k + 1, count as int);
            }
            return Err(Rejection::Record);
        }
        let mut j: usize = 0;
        while j < k
            invariant
                start == records_start(bytes@),
                bytes@.len() == start + count * 8,
                k < count,
                j <= k,
                record_valid(bytes@, k as int),
                header_check(bytes@, unit_ok) is None,
                count == record_count(bytes@),
                cells_upto(bytes@, scale_ok, position_ok@, k as int) == Ok::<Seq<Cell>, Rejection>(cells@),
                forall|i: int| 0 <= i < j ==> !#[trigger] overlap(bytes@, i, k as int),
            decreases k - j,
        {
            if overlaps(bytes, start, j, k) {
                proof {
                    assert(overlap(bytes@, j as int, k as int));
                    assert(record_valid(bytes@, k as int));
                    lemma_failure_stays(bytes@, scale_ok, position_ok@, k + 1, count as int);
                }
                return Err(Rejection::Overlap);
            }
            j = j + 1;
        }
        assert(record_valid(bytes@, k as int));
        assert(!exists|i: int| 0 <= i < k && #[trigger] overlap(bytes@, i, k as int));
        if !scale_ok[(size - 1) as usize] {
            proof {
                lemma_failure_stays(bytes@, scale_ok, position_ok@, k + 1, count as int);
            }
            return Err(Rejection::Scale);
        }
        if !position_ok[k] {
            proof {
                lemma_failure_stays(bytes@, scale_ok, position_ok@, k + 1, count as int);
            }
            return Err(Rejection::Position);
        }
        let q = 16 + bytes[p + 4] as usize * 4;
        let flags = CUSTOM_RGB555 | channel(bytes[q]) | (channel(bytes[q + 1]) << 5u32) | (channel(bytes[q + 2])
            << 10u32);
        cells.push(
            Cell {
                x: signed_of(bytes[p]),
                y: signed_of(bytes[p + 1]),
                z: signed_of(bytes[p + 2]),
                size,
                flags,
            },
        );
        k = k + 1;
    }
    Ok(cells)
}


/// Whether cell `(x, y, z)` lies in the cube of record `k`: on every axis
/// from its lowest cell up to, not including, that cell plus its width.
pub open spec fn holds_cell(b: Seq<u8>, k: int, x: int, y: int, z: int) -> bool {
    let s = rb(b, k, 3) as int;
    &&& signed(rb(b, k, 0)) <= x < signed(rb(b, k, 0)) + s
    &&& signed(rb(b, k, 1)) <= y < signed(rb(b, k, 1)) + s
    &&& signed(rb(b, k, 2)) <= z < signed(rb(b, k, 2)) + s
}

/// Whether records `j` and `k` claim a common cell.
pub open spec fn share_cell(b: Seq<u8>, j: int, k: int) -> bool {
    exists|x: int, y: int, z: int| #[trigger] holds_cell(b, j, x, y, z) && holds_cell(b, k, x, y, z)
}

/// Law: two records of cubes at least one cell wide overlap exactly when
/// some cell lies in both cubes; cubes that only touch face to face do not
/// overlap.
pub proof fn lemma_overlap_shares_cell(b: Seq<u8>, j: int, k: int)
    requires
        rb(b, j, 3) >= 1,
        rb(b, k, 3) >= 1,
    ensures
        overlap(b, j, k) <==> share_cell(b, j, k),
{
    let sj = rb(b, j, 3) as int;
    let sk = rb(b, k, 3) as int;
    if overlap(b, j, k) {
        let (j0, j1, j2) = (signed(rb(b, j, 0)) as int, signed(rb(b, j, 1)) as int, signed(rb(b, j, 2)) as int);
        let (k0, k1, k2) = (signed(rb(b, k, 0)) as int, signed(rb(b, k, 1)) as int, signed(rb(b, k, 2)) as int);
        assert(j0 < k0 + sk && k0 < j0 + sj);
        assert(j1 < k1 + sk && k1 < j1 + sj);
        assert(j2 < k2 + sk && k2 < j2 + sj);
        let x = if j0 < k0 {
            k0
        } else {
            j0
        };
        let y = if j1 < k1 {
            k1
        } else {
            j1
        };
        let z = if j2 < k2 {
            k2
        } else {
            j2
        };
        assert(holds_cell(b, j, x, y, z) && holds_cell(b, k, x, y, z));
    }
    if share_cell(b, j, k) {
        let (x, y, z) = choose|x: int, y: int, z: int| #[trigger] holds_cell(b, j, x, y, z) && holds_cell(b, k, x, y, z);
        assert forall|a: int| 0 <= a < 3 implies signed(rb(b, j, a)) < signed(rb(b, k, a)) + rb(b, k, 3)
            && #[trigger] signed(rb(b, k, a)) < signed(rb(b, j, a)) + rb(b, j, 3) by {
            if a == 0 {
            } else if a == 1 {
            } else {
            }
        }
    }
}

/// Law: decoding refuses a file for overlap exactly at the first record
/// that claims a cell of an earlier one; what it accepts has no cell
/// claimed twice, and only cubes one to four cells wide, of a palette
/// colour, with zero reserved bytes. A refusal of a record names a record
/// that is not so.
pub proof fn lemma_decode_cells_disjoint(b: Seq<u8>, scale_ok: [bool; 4], position_ok: Seq<bool>, k: int)
    requires
        0 <= k,
    ensures
        cells_upto(b, scale_ok, position_ok, k) is Ok ==> forall|i: int, j: int|
            0 <= i < j < k ==> !#[trigger] share_cell(b, i, j),
        cells_upto(b, scale_ok, position_ok, k) is Ok ==> forall|i: int| 0 <= i < k ==> #[trigger] record_valid(b, i),
        cells_upto(b, scale_ok, position_ok, k) is Ok ==> forall|i: int|
            0 <= i < k ==> 1 <= #[trigger] rb(b, i, 3) <= 4 && rb(b, i, 4) < b[10] && rb(b, i, 6) == 0 && rb(b, i, 7) == 0,
        cells_upto(b, scale_ok, position_ok, k) == Err::<Seq<Cell>, Rejection>(Rejection::Record) ==> exists|i: int|
            0 <= i < k && !(1 <= #[trigger] rb(b, i, 3) <= 4 && rb(b, i, 4) < b[10] && rb(b, i, 6) == 0 && rb(b, i, 7) == 0),
        cells_upto(b, scale_ok, position_ok, k) == Err::<Seq<Cell>, Rejection>(Rejection::Overlap) ==> exists|
            i: int,
            j: int,
        | 0 <= i < j < k && #[trigger] share_cell(b, i, j),
    decreases k,
{
    if k > 0 {
        lemma_decode_cells_disjoint(b, scale_ok, position_ok, k - 1);
        let prev = cells_upto(b, scale_ok, position_ok, k - 1);
        if prev is Ok && record_valid(b, k - 1) {
            if exists|j: int| 0 <= j < k - 1 && #[trigger] overlap(b, j, k - 1) {
                let j = choose|j: int| 0 <= j < k - 1 && #[trigger] overlap(b, j, k - 1);
                assert(record_valid(b, j));
                lemma_overlap_shares_cell(b, j, k - 1);
            } else {
                assert forall|i: int, j: int| 0 <= i < j < k implies !#[trigger] share_cell(b, i, j) by {
                    if j == k - 1 {
                        assert(record_valid(b, i));
                        lemma_overlap_shares_cell(b, i, j);
                        assert(!overlap(b, i, k - 1));
                    }
                }
            }
        }
    }
}

} // verus!
