//! Full authored occupancy of a walker's world, retained independently of
//! visible seed streaming: one bit per c1 cell of a box.
use vstd::prelude::*;

verus! {

pub struct Solid {
    lo: [i32; 3],
    dims: [usize; 3],
    bits: Vec<u64>,
}

/// The number of cells of a box of the given dimensions.
pub open spec fn cell_count(dims: [usize; 3]) -> int {
    dims[0] * dims[1] * dims[2]
}

/// The linear index of cell `p` of the box at `lo`, if `p` is inside.
pub open spec fn spec_index(lo: [i32; 3], dims: [usize; 3], p: [i32; 3]) -> Option<int> {
    let x = p[0] - lo[0];
    let y = p[1] - lo[1];
    let z = p[2] - lo[2];
    if x < 0 || y < 0 || z < 0 || x >= dims[0] || y >= dims[1] || z >= dims[2] {
        None
    } else {
        Some((x * dims[1] + y) * dims[2] + z)
    }
}

/// Bit `i` of the bit set.
pub open spec fn bit_set(bits: Seq<u64>, i: int) -> bool {
    (bits[i / 64] >> ((i % 64) as u64)) & 1 == 1
}

/// The offsets of `p` from `lo` fit an `i32`.
pub open spec fn offsets_fit(lo: [i32; 3], p: [i32; 3]) -> bool {
    forall|a: int| 0 <= a < 3 ==> i32::MIN <= #[trigger] p[a] - lo[a] <= i32::MAX
}

proof fn lemma_index_bound(x: int, y: int, z: int, d0: int, d1: int, d2: int)
    requires
        0 <= x < d0,
        0 <= y < d1,
        0 <= z < d2,
    ensures
        0 <= (x * d1 + y) * d2 + z < d0 * d1 * d2,
{
    assert(0 <= (x * d1 + y) * d2 + z < d0 * d1 * d2) by (nonlinear_arith)
        requires
            0 <= x < d0,
            0 <= y < d1,
            0 <= z < d2,
    ;
}

proof fn lemma_set_bit(w: u64, k: u64, j: u64)
    requires
        k < 64,
        j < 64,
    ensures
        ((w | (1u64 << k)) >> k) & 1 == 1,
        j != k ==> ((w | (1u64 << k)) >> j) & 1 == (w >> j) & 1,
{
    assert(((w | (1u64 << k)) >> k) & 1 == 1) by (bit_vector)
        requires
            k < 64,
    ;
    assert(j != k ==> ((w | (1u64 << k)) >> j) & 1 == (w >> j) & 1) by (bit_vector)
        requires
            k < 64,
            j < 64,
    ;
}

impl Solid {
    pub closed spec fn origin(&self) -> [i32; 3] {
        self.lo
    }

    pub closed spec fn size(&self) -> [usize; 3] {
        self.dims
    }

    /// Whether the cell of linear index `i` is occupied.
    pub closed spec fn occupied(&self, i: int) -> bool {
        bit_set(self.bits@, i)
    }

    /// One bit for every cell.
    pub closed spec fn wf(&self) -> bool {
        &&& cell_count(self.dims) <= usize::MAX
        &&& self.bits@.len() * 64 >= cell_count(self.dims)
    }

    /// An empty box from `lo` up to (not including) `hi`.
    pub fn new(lo: [i32; 3], hi: [i32; 3]) -> (s: Self)
        requires
            forall|a: int| 0 <= a < 3 ==> lo[a] <= #[trigger] hi[a],
            (hi[0] - lo[0]) * (hi[1] - lo[1]) <= usize::MAX,
            (hi[0] - lo[0]) * (hi[1] - lo[1]) * (hi[2] - lo[2]) + 63 <= usize::MAX,
        ensures
            s.wf(),
            s.origin() == lo,
            s.size() == [(hi[0] - lo[0]) as usize, (hi[1] - lo[1]) as usize, (hi[2] - lo[2]) as usize],
            forall|i: int| 0 <= i < cell_count(s.size()) ==> !#[trigger] s.occupied(i),
    {
        let d0 = (hi[0] as i64 - lo[0] as i64) as usize;
        let d1 = (hi[1] as i64 - lo[1] as i64) as usize;
        let d2 = (hi[2] as i64 - lo[2] as i64) as usize;
        let cells = d0 * d1 * d2;
        let words = (cells + 63) / 64;
        let bits = vec![0u64; words];
        let s = Solid { lo, dims: [d0, d1, d2], bits };
        proof {
            assert(s.dims =~= [(hi[0] - lo[0]) as usize, (hi[1] - lo[1]) as usize, (hi[2] - lo[2]) as usize]);
            assert forall|i: int| 0 <= i < cell_count(s.dims) implies !#[trigger] s.occupied(i) by {
                assert(0 <= i / 64 < words) by {
                    vstd::arithmetic::div_mod::lemma_div_pos_is_pos(i, 64);
                    vstd::arithmetic::div_mod::lemma_div_is_ordered(i, cells as int + 63, 64);
                }
                assert(s.bits@[i / 64] == 0u64);
                let k = (i % 64) as u64;
                assert((0u64 >> k) & 1 == 0) by (bit_vector);
            }
        }
        s
    }

    /// The linear index of cell `p`, if it is inside the box.
    pub fn index(&self, p: [i32; 3]) -> (r: Option<usize>)
        requires
            self.wf(),
            offsets_fit(self.origin(), p),
        ensures
            match spec_index(self.origin(), self.size(), p) {
                Some(i) => r == Some(i as usize) && i < cell_count(self.size()),
                None => r is None,
            },
    {
        proof {
            assert(i32::MIN <= p[0] - self.lo[0] <= i32::MAX);
            assert(i32::MIN <= p[1] - self.lo[1] <= i32::MAX);
            assert(i32::MIN <= p[2] - self.lo[2] <= i32::MAX);
        }
        let x = p[0] - self.lo[0];
        let y = p[1] - self.lo[1];
        let z = p[2] - self.lo[2];
        if x < 0 || y < 0 || z < 0 || x as usize >= self.dims[0] || y as usize >= self.dims[1]
            || z as usize >= self.dims[2] {
            return None;
        }
        proof {
            lemma_index_bound(
                x as int,
                y as int,
                z as int,
                self.dims[0] as int,
                self.dims[1] as int,
                self.dims[2] as int,
            );
            assert(x * self.dims[1] <= (x * self.dims[1] + y) * self.dims[2] + z) by (nonlinear_arith)
                requires
                    0 <= x,
                    0 <= y,
                    0 <= z,
                    0 < self.dims[2],
            ;
            assert((x * self.dims[1] + y) <= (x * self.dims[1] + y) * self.dims[2]) by (nonlinear_arith)
                requires
                    0 <= x,
                    0 <= y,
                    0 < self.dims[2],
            ;
            assert(x * self.dims[1] <= x * self.dims[1] + y);
        }
        Some((x as usize * self.dims[1] + y as usize) * self.dims[2] + z as usize)
    }

    /// Mark cell `p` occupied; a cell outside the box is ignored.
    pub fn insert(&mut self, p: [i32; 3])
        requires
            old(self).wf(),
            offsets_fit(old(self).origin(), p),
        ensures
            final(self).wf(),
            final(self).origin() == old(self).origin(),
            final(self).size() == old(self).size(),
            forall|i: int|
                0 <= i < cell_count(old(self).size()) ==> #[trigger] final(self).occupied(i) == (
                old(self).occupied(i) || spec_index(old(self).origin(), old(self).size(), p)
                    == Some(i)),
    {
        if let Some(i) = self.index(p) {
            proof {
                assert(i / 64 < self.bits@.len()) by {
                    vstd::arithmetic::div_mod::lemma_div_is_ordered(
                        i as int,
                        self.bits@.len() * 64 - 1,
                        64,
                    );
                    vstd::arithmetic::div_mod::lemma_fundamental_div_mod_converse(
                        self.bits@.len() * 64 - 1,
                        64,
                        self.bits@.len() - 1,
                        63,
                    );
                }
            }
            let w = self.bits[i / 64];
            let k = (i % 64) as u64;
            self.bits.set(i / 64, w | (1u64 << k));
            proof {
                assert forall|j: int| 0 <= j < cell_count(old(self).dims) implies #[trigger] self.occupied(j)
                    == (old(self).occupied(j) || Some(i as int) == Some(j)) by {
                    let kj = (j % 64) as u64;
                    lemma_set_bit(w, k, kj);
                    if j / 64 == i / 64 {
                        if j != i {
                            vstd::arithmetic::div_mod::lemma_fundamental_div_mod(j, 64);
                            vstd::arithmetic::div_mod::lemma_fundamental_div_mod(i as int, 64);
                            assert(kj != k);
                        }
                    }
                }
            }
        }
    }

    /// Whether cell `p` is occupied; cells outside the box are not.
    pub fn contains(&self, p: [i32; 3]) -> (b: bool)
        requires
            self.wf(),
            offsets_fit(self.origin(), p),
        ensures
            b == match spec_index(self.origin(), self.size(), p) {
                Some(i) => self.occupied(i),
                None => false,
            },
    {
        match self.index(p) {
            Some(i) => {
                proof {
                    assert(i / 64 < self.bits@.len()) by {
                        vstd::arithmetic::div_mod::lemma_div_is_ordered(
                            i as int,
                            self.bits@.len() * 64 - 1,
                            64,
                        );
                        vstd::arithmetic::div_mod::lemma_fundamental_div_mod_converse(
                            self.bits@.len() * 64 - 1,
                            64,
                            self.bits@.len() - 1,
                            63,
                        );
                    }
                }
                let k = (i % 64) as u64;
                (self.bits[i / 64] >> k) & 1 == 1
            },
            None => false,
        }
    }
}

/// The index of a cell inside the box determines the cell.
proof fn lemma_index_injective(lo: [i32; 3], dims: [usize; 3], p: [i32; 3], q: [i32; 3])
    requires
        spec_index(lo, dims, p) is Some,
        spec_index(lo, dims, p) == spec_index(lo, dims, q),
    ensures
        p[0] == q[0] && p[1] == q[1] && p[2] == q[2],
{
    let d1 = dims[1] as int;
    let d2 = dims[2] as int;
    let (px, py, pz) = (p[0] - lo[0], p[1] - lo[1], p[2] - lo[2]);
    let (qx, qy, qz) = (q[0] - lo[0], q[1] - lo[1], q[2] - lo[2]);
    let m = (px * d1 + py) * d2 + pz;
    vstd::arithmetic::div_mod::lemma_fundamental_div_mod_converse(m, d2, px * d1 + py, pz);
    vstd::arithmetic::div_mod::lemma_fundamental_div_mod_converse(m, d2, qx * d1 + qy, qz);
    vstd::arithmetic::div_mod::lemma_fundamental_div_mod_converse(px * d1 + py, d1, px, py);
    vstd::arithmetic::div_mod::lemma_fundamental_div_mod_converse(qx * d1 + qy, d1, qx, qy);
}

/// A byte read as a two's complement eight-bit number.
pub open spec fn signed(b: u8) -> int {
    if b < 128 {
        b as int
    } else {
        b as int - 256
    }
}

/// The lowest corner on axis `a` of record `k` of a portal's record area
/// (eight bytes a record): the first two bytes are signed x and y, and z is
/// mirrored, so its corner lies at minus the signed third byte minus the side.
pub open spec fn record_corner(records: Seq<u8>, k: int, a: int) -> int {
    if a == 0 {
        signed(records[8 * k])
    } else if a == 1 {
        signed(records[8 * k + 1])
    } else {
        -signed(records[8 * k + 2]) - records[8 * k + 3]
    }
}

/// The side of record `k`'s cube, its fourth byte.
pub open spec fn record_side(records: Seq<u8>, k: int) -> int {
    records[8 * k + 3] as int
}

/// Whether `v` lies among the `side` cells that start at `c`.
pub open spec fn in_span(c: int, side: int, v: int) -> bool {
    c <= v < c + side
}

/// Whether the cube with lowest corner `o` and side `side` holds cell `p`.
pub open spec fn cube_holds(o: [i32; 3], side: int, p: [i32; 3]) -> bool {
    &&& in_span(o[0] as int, side, p[0] as int)
    &&& in_span(o[1] as int, side, p[1] as int)
    &&& in_span(o[2] as int, side, p[2] as int)
}

/// Whether the cube of record `k` holds cell `p`.
pub open spec fn record_covers(records: Seq<u8>, k: int, p: [i32; 3]) -> bool {
    &&& in_span(record_corner(records, k, 0), record_side(records, k), p[0] as int)
    &&& in_span(record_corner(records, k, 1), record_side(records, k), p[1] as int)
    &&& in_span(record_corner(records, k, 2), record_side(records, k), p[2] as int)
}

/// Whether one of the first `n` records holds cell `p`.
pub open spec fn covered_upto(records: Seq<u8>, n: int, p: [i32; 3]) -> bool
    decreases n,
{
    if n <= 0 {
        false
    } else {
        covered_upto(records, n - 1, p) || record_covers(records, n - 1, p)
    }
}

/// The lowest corner on axis `a` over the first `n` records (`i32::MAX` for none).
pub open spec fn low_upto(records: Seq<u8>, a: int, n: int) -> int
    decreases n,
{
    if n <= 0 {
        i32::MAX as int
    } else {
        let rest = low_upto(records, a, n - 1);
        let c = record_corner(records, n - 1, a);
        if c < rest {
            c
        } else {
            rest
        }
    }
}

/// The highest far corner on axis `a` over the first `n` records (`i32::MIN` for none).
pub open spec fn high_upto(records: Seq<u8>, a: int, n: int) -> int
    decreases n,
{
    if n <= 0 {
        i32::MIN as int
    } else {
        let rest = high_upto(records, a, n - 1);
        let c = record_corner(records, n - 1, a) + record_side(records, n - 1);
        if c > rest {
            c
        } else {
            rest
        }
    }
}

/// The number of whole records in a record area.
pub open spec fn record_count(records: Seq<u8>) -> int {
    (records.len() / 8) as int
}

/// The lowest corner of the box that bounds every record's cube.
pub open spec fn portal_origin(records: Seq<u8>) -> [i32; 3] {
    let n = record_count(records);
    [low_upto(records, 0, n) as i32, low_upto(records, 1, n) as i32, low_upto(records, 2, n) as i32]
}

/// The extent of the box that bounds every record's cube.
pub open spec fn portal_size(records: Seq<u8>) -> [usize; 3] {
    let n = record_count(records);
    [
        (high_upto(records, 0, n) - low_upto(records, 0, n)) as usize,
        (high_upto(records, 1, n) - low_upto(records, 1, n)) as usize,
        (high_upto(records, 2, n) - low_upto(records, 2, n)) as usize,
    ]
}

proof fn lemma_covered_witness(records: Seq<u8>, n: int, p: [i32; 3])
    requires
        covered_upto(records, n, p),
    ensures
        exists|j: int| 0 <= j < n && #[trigger] record_covers(records, j, p),
    decreases n,
{
    if n > 0 && covered_upto(records, n - 1, p) {
        lemma_covered_witness(records, n - 1, p);
    }
}

fn signed_byte(b: u8) -> (v: i32)
    ensures
        v == signed(b),
{
    if b < 128 {
        b as i32
    } else {
        b as i32 - 256
    }
}

fn record_corners(records: &[u8], k: usize) -> (c: [i32; 3])
    requires
        8 * k + 8 <= records@.len(),
    ensures
        c[0] == record_corner(records@, k as int, 0),
        c[1] == record_corner(records@, k as int, 1),
        c[2] == record_corner(records@, k as int, 2),
{
    let len = records.len();
    let i = 8 * k;
    proof {
        assert(i + 8 <= len);
    }
    [signed_byte(records[i]), signed_byte(records[i + 1]), -signed_byte(records[i + 2]) - records[i
        + 3] as i32]
}

/// Mark every cell of the cube with lowest corner `o` and side `side`.
fn fill_cube(s: &mut Solid, o: [i32; 3], side: i32)
    requires
        old(s).wf(),
        0 <= side <= 255,
        -1000 <= o[0] <= 1000,
        -1000 <= o[1] <= 1000,
        -1000 <= o[2] <= 1000,
        -1000 <= old(s).origin()[0] <= 1000,
        -1000 <= old(s).origin()[1] <= 1000,
        -1000 <= old(s).origin()[2] <= 1000,
    ensures
        final(s).wf(),
        final(s).origin() == old(s).origin(),
        final(s).size() == old(s).size(),
        forall|p: [i32; 3]|
            #![trigger spec_index(old(s).origin(), old(s).size(), p)]
            spec_index(old(s).origin(), old(s).size(), p) is Some ==> final(s).occupied(
                spec_index(old(s).origin(), old(s).size(), p).unwrap(),
            ) == (old(s).occupied(spec_index(old(s).origin(), old(s).size(), p).unwrap())
                || cube_holds(o, side as int, p)),
{
    let ghost s0: Solid = *s;
    let ghost lo = s.origin();
    let ghost dims = s.size();
    let mut x: i32 = 0;
    while x < side
        invariant
            0 <= x <= side <= 255,
            -1000 <= o[0] <= 1000,
            -1000 <= o[1] <= 1000,
            -1000 <= o[2] <= 1000,
            -1000 <= lo[0] <= 1000,
            -1000 <= lo[1] <= 1000,
            -1000 <= lo[2] <= 1000,
            s.wf(),
            s.origin() == lo,
            s.size() == dims,
            forall|p: [i32; 3]|
                #![trigger spec_index(lo, dims, p)]
                spec_index(lo, dims, p) is Some ==> s.occupied(spec_index(lo, dims, p).unwrap()) == (
                s0.occupied(spec_index(lo, dims, p).unwrap()) || (cube_holds(o, side as int, p)
                    && p[0] - o[0] < x)),
        decreases side - x,
    {
        let mut y: i32 = 0;
        while y < side
            invariant
                0 <= x < side <= 255,
                0 <= y <= side,
                -1000 <= o[0] <= 1000,
                -1000 <= o[1] <= 1000,
                -1000 <= o[2] <= 1000,
                -1000 <= lo[0] <= 1000,
                -1000 <= lo[1] <= 1000,
                -1000 <= lo[2] <= 1000,
                s.wf(),
                s.origin() == lo,
                s.size() == dims,
                forall|p: [i32; 3]|
                    #![trigger spec_index(lo, dims, p)]
                    spec_index(lo, dims, p) is Some ==> s.occupied(spec_index(lo, dims, p).unwrap())
                        == (s0.occupied(spec_index(lo, dims, p).unwrap()) || (cube_holds(
                        o,
                        side as int,
                        p,
                    ) && (p[0] - o[0] < x || (p[0] - o[0] == x && p[1] - o[1] < y)))),
            decreases side - y,
        {
            let mut z: i32 = 0;
            while z < side
                invariant
                    0 <= x < side <= 255,
                    0 <= y < side,
                    0 <= z <= side,
                    -1000 <= o[0] <= 1000,
                    -1000 <= o[1] <= 1000,
                    -1000 <= o[2] <= 1000,
                    -1000 <= lo[0] <= 1000,
                    -1000 <= lo[1] <= 1000,
                    -1000 <= lo[2] <= 1000,
                    s.wf(),
                    s.origin() == lo,
                    s.size() == dims,
                    forall|p: [i32; 3]|
                        #![trigger spec_index(lo, dims, p)]
                        spec_index(lo, dims, p) is Some ==> s.occupied(
                            spec_index(lo, dims, p).unwrap(),
                        ) == (s0.occupied(spec_index(lo, dims, p).unwrap()) || (cube_holds(
                            o,
                            side as int,
                            p,
                        ) && (p[0] - o[0] < x || (p[0] - o[0] == x && p[1] - o[1] < y) || (p[0]
                            - o[0] == x && p[1] - o[1] == y && p[2] - o[2] < z)))),
                decreases side - z,
            {
                let q = [o[0] + x, o[1] + y, o[2] + z];
                proof {
                    assert(offsets_fit(lo, q)) by {
                        assert forall|a: int| 0 <= a < 3 implies i32::MIN <= #[trigger] q[a] - lo[a]
                            <= i32::MAX by {
                            if a == 0 {
                            } else if a == 1 {
                            } else {
                            }
                        }
                    }
                }
                s.insert(q);
                proof {
                    assert forall|p: [i32; 3]|
                        #![trigger spec_index(lo, dims, p)]
                        spec_index(lo, dims, p) is Some implies s.occupied(
                            spec_index(lo, dims, p).unwrap(),
                        ) == (s0.occupied(spec_index(lo, dims, p).unwrap()) || (cube_holds(
                            o,
                            side as int,
                            p,
                        ) && (p[0] - o[0] < x || (p[0] - o[0] == x && p[1] - o[1] < y) || (p[0]
                            - o[0] == x && p[1] - o[1] == y && p[2] - o[2] < z + 1)))) by {
                        let i = spec_index(lo, dims, p).unwrap();
                        lemma_index_bound(
                            p[0] - lo[0],
                            p[1] - lo[1],
                            p[2] - lo[2],
                            dims[0] as int,
                            dims[1] as int,
                            dims[2] as int,
                        );
                        if spec_index(lo, dims, q) == Some(i) {
                            lemma_index_injective(lo, dims, p, q);
                        }
                    }
                }
                z = z + 1;
            }
            y = y + 1;
        }
        x = x + 1;
    }
}

/// The occupancy of a portal's walkable world: every cell of every record's
/// cube marked in a box that just bounds them all. `records` is the record
/// area of a portal file, eight bytes a record; trailing bytes that make no
/// whole record are ignored. At least one record is needed: with none the
/// box has no extent to start from.
pub fn portal_occupancy(records: &[u8]) -> (s: Solid)
    requires
        records@.len() >= 8,
    ensures
        s.wf(),
        s.origin() == portal_origin(records@),
        s.size() == portal_size(records@),
        forall|p: [i32; 3]|
            #![trigger spec_index(s.origin(), s.size(), p)]
            spec_index(s.origin(), s.size(), p) is Some ==> s.occupied(
                spec_index(s.origin(), s.size(), p).unwrap(),
            ) == covered_upto(records@, record_count(records@), p),
        forall|p: [i32; 3]|
            #[trigger] covered_upto(records@, record_count(records@), p) ==> spec_index(
                s.origin(),
                s.size(),
                p,
            ) is Some,
{
    let len = records.len();
    let n = len / 8;
    let ghost r = records@;
    proof {
        vstd::arithmetic::div_mod::lemma_fundamental_div_mod(len as int, 8);
        assert(n >= 1);
    }
    let mut lo0: i32 = i32::MAX;
    let mut lo1: i32 = i32::MAX;
    let mut lo2: i32 = i32::MAX;
    let mut hi0: i32 = i32::MIN;
    let mut hi1: i32 = i32::MIN;
    let mut hi2: i32 = i32::MIN;
    let mut k: usize = 0;
    while k < n
        invariant
            r == records@,
            n == record_count(r),
            n >= 1,
            8 * n <= len,
            len == records@.len(),
            k <= n,
            lo0 == low_upto(r, 0, k as int),
            lo1 == low_upto(r, 1, k as int),
            lo2 == low_upto(r, 2, k as int),
            hi0 == high_upto(r, 0, k as int),
            hi1 == high_upto(r, 1, k as int),
            hi2 == high_upto(r, 2, k as int),
            k > 0 ==> -382 <= lo0 <= 128 && -382 <= lo1 <= 128 && -382 <= lo2 <= 128,
            k > 0 ==> -382 <= hi0 <= 383 && -382 <= hi1 <= 383 && -382 <= hi2 <= 383,
            forall|j: int|
                #![trigger record_side(r, j)]
                #![trigger record_corner(r, j, 0)]
                #![trigger record_corner(r, j, 1)]
                #![trigger record_corner(r, j, 2)]
                0 <= j < k ==> {
                    &&& lo0 <= record_corner(r, j, 0)
                    &&& lo1 <= record_corner(r, j, 1)
                    &&& lo2 <= record_corner(r, j, 2)
                    &&& record_corner(r, j, 0) + record_side(r, j) <= hi0
                    &&& record_corner(r, j, 1) + record_side(r, j) <= hi1
                    &&& record_corner(r, j, 2) + record_side(r, j) <= hi2
                },
        decreases n - k,
    {
        let c = record_corners(records, k);
        let side = records[8 * k + 3] as i32;
        if c[0] < lo0 {
            lo0 = c[0];
        }
        if c[1] < lo1 {
            lo1 = c[1];
        }
        if c[2] < lo2 {
            lo2 = c[2];
        }
        if c[0] + side > hi0 {
            hi0 = c[0] + side;
        }
        if c[1] + side > hi1 {
            hi1 = c[1] + side;
        }
        if c[2] + side > hi2 {
            hi2 = c[2] + side;
        }
        proof {
            assert(record_side(r, k as int) == side);
        }
        k = k + 1;
    }
    let lo = [lo0, lo1, lo2];
    let hi = [hi0, hi1, hi2];
    proof {
        assert forall|a: int| 0 <= a < 3 implies lo[a] <= #[trigger] hi[a] by {
            assert(record_side(r, 0) >= 0);
            if a == 0 {
            } else if a == 1 {
            } else {
            }
        }
        assert((hi0 - lo0) * (hi1 - lo1) <= 765 * 765) by (nonlinear_arith)
            requires
                0 <= hi0 - lo0 <= 765,
                0 <= hi1 - lo1 <= 765,
        ;
        assert((hi0 - lo0) * (hi1 - lo1) * (hi2 - lo2) <= 765 * 765 * 765) by (nonlinear_arith)
            requires
                0 <= hi0 - lo0 <= 765,
                0 <= hi1 - lo1 <= 765,
                0 <= hi2 - lo2 <= 765,
        ;
    }
    let mut s = Solid::new(lo, hi);
    proof {
        assert(s.origin() =~= portal_origin(r));
        assert(s.size() =~= portal_size(r));
    }
    let ghost origin = s.origin();
    let ghost dims = s.size();
    proof {
        assert(origin[0] == lo0 && origin[1] == lo1 && origin[2] == lo2);
        assert forall|p: [i32; 3]|
            #![trigger spec_index(origin, dims, p)]
            spec_index(origin, dims, p) is Some implies s.occupied(
                spec_index(origin, dims, p).unwrap(),
            ) == covered_upto(r, 0, p) by {
            lemma_index_bound(
                p[0] - origin[0],
                p[1] - origin[1],
                p[2] - origin[2],
                dims[0] as int,
                dims[1] as int,
                dims[2] as int,
            );
        }
    }
    let mut k: usize = 0;
    while k < n
        invariant
            r == records@,
            n == record_count(r),
            k <= n,
            s.wf(),
            s.origin() == origin,
            s.size() == dims,
            origin[0] == lo0 && origin[1] == lo1 && origin[2] == lo2,
            8 * n <= len,
            len == records@.len(),
            -382 <= lo0 <= 128 && -382 <= lo1 <= 128 && -382 <= lo2 <= 128,
            forall|p: [i32; 3]|
                #![trigger spec_index(origin, dims, p)]
                spec_index(origin, dims, p) is Some ==> s.occupied(
                    spec_index(origin, dims, p).unwrap(),
                ) == covered_upto(r, k as int, p),
        decreases n - k,
    {
        let c = record_corners(records, k);
        let side = records[8 * k + 3] as i32;
        fill_cube(&mut s, c, side);
        proof {
            assert forall|p: [i32; 3]|
                #![trigger spec_index(origin, dims, p)]
                spec_index(origin, dims, p) is Some implies s.occupied(
                    spec_index(origin, dims, p).unwrap(),
                ) == covered_upto(r, k + 1, p) by {
                assert(covered_upto(r, k + 1, p) == (covered_upto(r, k as int, p) || record_covers(
                    r,
                    k as int,
                    p,
                )));
            }
        }
        k = k + 1;
    }
    proof {
        assert forall|p: [i32; 3]| #[trigger] covered_upto(r, n as int, p) implies spec_index(
            origin,
            dims,
            p,
        ) is Some by {
            lemma_covered_witness(r, n as int, p);
            let j = choose|j: int| 0 <= j < n && #[trigger] record_covers(r, j, p);
            assert(record_side(r, j) >= 0);
        }
    }
    s
}

/// Law: reading a cell back after marking it finds it occupied, and marking
/// one cell leaves every other cell as it was.
pub proof fn lemma_insert_then_contains(before: &Solid, after: &Solid, p: [i32; 3], q: [i32; 3])
    requires
        before.wf(),
        after.origin() == before.origin(),
        after.size() == before.size(),
        forall|i: int|
            0 <= i < cell_count(before.size()) ==> #[trigger] after.occupied(i) == (before.occupied(i)
                || spec_index(before.origin(), before.size(), p) == Some(i)),
        spec_index(before.origin(), before.size(), q) matches Some(j) ==> 0 <= j < cell_count(before.size()),
    ensures
        spec_index(before.origin(), before.size(), p) == spec_index(before.origin(), before.size(), q)
            && spec_index(before.origin(), before.size(), q) is Some ==> (match spec_index(
            after.origin(),
            after.size(),
            q,
        ) {
            Some(j) => after.occupied(j),
            None => false,
        }),
        spec_index(before.origin(), before.size(), p) != spec_index(before.origin(), before.size(), q) ==> (
        match spec_index(after.origin(), after.size(), q) {
            Some(j) => after.occupied(j) == before.occupied(j),
            None => true,
        }),
{
}

} // verus!
