//! Key7 uses an exact 1/24-c1 lattice and block-local subdivision.
use vstd::prelude::*;
use vstd::arithmetic::div_mod::lemma_fundamental_div_mod_converse;

verus! {

/// Existing world/VFX contract, in c1 units.
pub const SIDES: [i32; 7] = [1, 2, 3, 4, 6, 8, 12];
pub const TICKS_PER_C1: i32 = 24;
/// Display tiers, in 1/24-c1 ticks; R1/2 is one third of c1.
pub const MINING_SIDES: [i32; 10] = [6, 8, 12, 24, 48, 72, 96, 144, 192, 384];
/// Maximum target sizes and removal sizes, in 1/24-c1 ticks.
pub const TOOLS: [i32; 6] = [1536, 384, 96, 48, 24, 144];
pub const CUT_SIDES: [i32; 6] = [384, 96, 24, 12, 3, 72];
pub const MINING_NAMES: [&'static str; 10] = ["C1/4", "R1/2", "C1/2", "c1", "c2", "r1", "c3", "r2", "r3", "c4"];
pub const TOOL_NAMES: [&'static str; 6] = [
    "64 c1 -> c4 (16 c1)",
    "c4 (16 c1) -> c3 (4 c1)",
    "c3 (4 c1) -> c1",
    "c2 / c1 -> C1/2",
    "c1 / C1/2 -> collect 1/8 c1",
    "3.5: r2 -> r1 / r1 -> c2",
];
pub const TOOL_IDS: [&'static str; 6] = ["1", "2", "3", "4", "6", "3.5"];
pub const TOOL_6: usize = 4;
pub const TOOL_35: usize = 5;
/// The wheel position that selects no tool.
pub const NO_TOOL: usize = 6;
pub const MINING_BASE_SIDE: i32 = 1536;
/// Wheel order: sizes from largest, with 3.5 between 3 and 4, then off.
pub const WHEEL_ORDER: [usize; 7] = [0, 1, 2, 5, 3, 4, 6];

/// Coordinates handled by the mining demo stay within this many ticks of the
/// origin, so that every sum and difference of two of them fits in an `i32`.
pub const COORD_LIMIT: i32 = 0x2000_0000;

/// True for the side lengths, in c1 units, on which a walker can stand.
pub fn walkable(side: i32) -> (r: bool)
    ensures
        r <==> (side == 4 || side == 6 || side == 8 || side == 12 || side == 16 || side == 64),
{
    side == 4 || side == 6 || side == 8 || side == 12 || side == 16 || side == 64
}

#[derive(Clone, Copy, Debug)]
pub struct Block {
    /// Coordinates and side length in 1/24-c1 ticks.
    pub min: [i32; 3],
    pub side: i32,
    pub material: u32,
}

impl PartialEq for Block {
    fn eq(&self, other: &Self) -> (r: bool) {
        let r = self.min[0] == other.min[0] && self.min[1] == other.min[1]
            && self.min[2] == other.min[2] && self.side == other.side
            && self.material == other.material;
        proof {
            if r {
                assert(self.min =~= other.min);
            }
        }
        r
    }
}

impl vstd::std_specs::cmp::PartialEqSpecImpl for Block {
    open spec fn obeys_eq_spec() -> bool {
        true
    }

    open spec fn eq_spec(&self, other: &Self) -> bool {
        *self == *other
    }
}

impl Eq for Block {}

/// Both the span and the corner of `b` lie within the coordinate limit.
pub open spec fn bounded(b: Block) -> bool {
    &&& -COORD_LIMIT <= b.min[0] <= COORD_LIMIT
    &&& -COORD_LIMIT <= b.min[1] <= COORD_LIMIT
    &&& -COORD_LIMIT <= b.min[2] <= COORD_LIMIT
    &&& -COORD_LIMIT <= b.min[0] + b.side <= COORD_LIMIT
    &&& -COORD_LIMIT <= b.min[1] + b.side <= COORD_LIMIT
    &&& -COORD_LIMIT <= b.min[2] + b.side <= COORD_LIMIT
}

/// `c` lies within `b` on every axis.
pub open spec fn inside(c: Block, b: Block) -> bool {
    &&& b.min[0] <= c.min[0] && c.min[0] + c.side <= b.min[0] + b.side
    &&& b.min[1] <= c.min[1] && c.min[1] + c.side <= b.min[1] + b.side
    &&& b.min[2] <= c.min[2] && c.min[2] + c.side <= b.min[2] + b.side
}

fn inside_exec(c: Block, b: Block) -> (r: bool)
    requires
        bounded(c),
        bounded(b),
    ensures
        r == inside(c, b),
{
    b.min[0] <= c.min[0] && c.min[0] + c.side <= b.min[0] + b.side
        && b.min[1] <= c.min[1] && c.min[1] + c.side <= b.min[1] + b.side
        && b.min[2] <= c.min[2] && c.min[2] + c.side <= b.min[2] + b.side
}

/// `s` is a two- or three-way exact split of `side`.
pub open spec fn fine_split(side: int, s: int) -> bool {
    s < side && side % s == 0 && (side / s == 2 || side / s == 3)
}

/// The side of the children a block of `side` splits into, or 0 when it
/// does not split: halves for the power-of-two tiers, quarters for the
/// remaining tool sizes, else the largest display tier two or three times smaller.
pub open spec fn split_side(side: int) -> int {
    if side == 384 || side == 192 || side == 96 || side == 48 || side == 24 {
        side / 2
    } else if side == 1536 || side == 144 {
        side / 4
    } else if fine_split(side, 384) {
        384
    } else if fine_split(side, 192) {
        192
    } else if fine_split(side, 144) {
        144
    } else if fine_split(side, 96) {
        96
    } else if fine_split(side, 72) {
        72
    } else if fine_split(side, 48) {
        48
    } else if fine_split(side, 24) {
        24
    } else if fine_split(side, 12) {
        12
    } else if fine_split(side, 8) {
        8
    } else if fine_split(side, 6) {
        6
    } else {
        0
    }
}

proof fn lemma_fine(side: int, k: int)
    requires
        k > 0,
        fine_split(side, k),
    ensures
        side == (side / k) * k,
{
    vstd::arithmetic::div_mod::lemma_fundamental_div_mod(side, k);
    assert(side == (side / k) * k) by (nonlinear_arith)
        requires side == k * (side / k) + side % k, side % k == 0;
}

proof fn lemma_split(side: int)
    ensures
        split_side(side) != 0 ==> {
            let s = split_side(side);
            &&& 0 < s < side
            &&& side == (side / s) * s
            &&& 2 <= side / s <= 4
        },
{
    let s = split_side(side);
    if s != 0 && !(side == 384 || side == 192 || side == 96 || side == 48 || side == 24
        || side == 1536 || side == 144) {
        lemma_fine(side, s);
    }
}

fn fine(side: i32, s: i32) -> (r: bool)
    requires
        s > 0,
    ensures
        r == fine_split(side as int, s as int),
{
    s < side && side % s == 0 && (side / s == 2 || side / s == 3)
}

fn split(side: i32) -> (s: i32)
    ensures
        s == split_side(side as int),
{
    if side == 384 || side == 192 || side == 96 || side == 48 || side == 24 {
        side / 2
    } else if side == 1536 || side == 144 {
        side / 4
    } else if fine(side, 384) {
        384
    } else if fine(side, 192) {
        192
    } else if fine(side, 144) {
        144
    } else if fine(side, 96) {
        96
    } else if fine(side, 72) {
        72
    } else if fine(side, 48) {
        48
    } else if fine(side, 24) {
        24
    } else if fine(side, 12) {
        12
    } else if fine(side, 8) {
        8
    } else if fine(side, 6) {
        6
    } else {
        0
    }
}

/// The `i`-th cell of an `n`×`n`×`n` lattice of cubes of side `s` from `b`'s
/// corner, in x-major order.
pub open spec fn lattice_at(b: Block, s: int, n: int, i: int) -> Block {
    Block {
        min: [
            (b.min[0] + (i / (n * n)) * s) as i32,
            (b.min[1] + ((i / n) % n) * s) as i32,
            (b.min[2] + (i % n) * s) as i32,
        ],
        side: s as i32,
        material: b.material,
    }
}

pub open spec fn lattice(b: Block, s: int, n: int) -> Seq<Block> {
    Seq::new((n * n * n) as nat, |i: int| lattice_at(b, s, n, i))
}

/// The children a block splits into; an unsplit block is its own only child.
pub open spec fn spec_children(b: Block) -> Seq<Block> {
    let s = split_side(b.side as int);
    if s == 0 {
        seq![b]
    } else {
        lattice(b, s, (b.side as int) / s)
    }
}

proof fn lemma_decode(x: int, y: int, z: int, n: int)
    requires
        n > 0,
        x >= 0,
        0 <= y < n,
        0 <= z < n,
    ensures
        (x * n * n + y * n + z) / (n * n) == x,
        ((x * n * n + y * n + z) / n) % n == y,
        (x * n * n + y * n + z) % n == z,
{
    assert(x * n * n + y * n + z == (x * n + y) * n + z) by (nonlinear_arith);
    lemma_fundamental_div_mod_converse(x * n * n + y * n + z, n, x * n + y, z);
    lemma_fundamental_div_mod_converse(x * n + y, n, x, y);
    assert(0 <= y * n + z < n * n) by (nonlinear_arith)
        requires 0 <= y < n, 0 <= z < n;
    assert(x * n * n + y * n + z == x * (n * n) + (y * n + z)) by (nonlinear_arith);
    assert(n * n != 0) by (nonlinear_arith) requires n > 0;
    lemma_fundamental_div_mod_converse(x * n * n + y * n + z, n * n, x, y * n + z);
}

/// Pushes the `n`×`n`×`n` lattice of cubes of side `s` from `b`'s corner.
fn push_lattice(b: Block, s: i32, n: i32, out: &mut Vec<Block>)
    requires
        s != 0,
        n > 0,
        bounded(b),
        -2 * COORD_LIMIT <= n * s <= 2 * COORD_LIMIT,
    ensures
        final(out)@ == old(out)@ + lattice(b, s as int, n as int),
{
    let ghost start = old(out)@;
    let mut x: i32 = 0;
    while x < n
        invariant
            0 <= x <= n,
            s != 0,
            n > 0,
            bounded(b),
            -2 * COORD_LIMIT <= n * s <= 2 * COORD_LIMIT,
            start == old(out)@,
            out@.len() == start.len() + x * n * n,
            forall|k: int| 0 <= k < x * n * n ==> out@[start.len() + k] == lattice_at(b, s as int, n as int, k),
            forall|k: int| 0 <= k < start.len() ==> out@[k] == start[k],
        decreases n - x,
    {
        let mut y: i32 = 0;
        while y < n
            invariant
                0 <= x < n,
                0 <= y <= n,
                s != 0,
                n > 0,
                bounded(b),
                -2 * COORD_LIMIT <= n * s <= 2 * COORD_LIMIT,
                start == old(out)@,
                out@.len() == start.len() + x * n * n + y * n,
                forall|k: int| 0 <= k < x * n * n + y * n ==> out@[start.len() + k] == lattice_at(b, s as int, n as int, k),
                forall|k: int| 0 <= k < start.len() ==> out@[k] == start[k],
            decreases n - y,
        {
            let mut z: i32 = 0;
            while z < n
                invariant
                    0 <= x < n,
                    0 <= y < n,
                    0 <= z <= n,
                    s != 0,
                    n > 0,
                    bounded(b),
                    -2 * COORD_LIMIT <= n * s <= 2 * COORD_LIMIT,
                    start == old(out)@,
                    out@.len() == start.len() + x * n * n + y * n + z,
                    forall|k: int| 0 <= k < x * n * n + y * n + z ==> out@[start.len() + k] == lattice_at(b, s as int, n as int, k),
                    forall|k: int| 0 <= k < start.len() ==> out@[k] == start[k],
                decreases n - z,
            {
                proof {
                    lemma_small_product(x as int, n as int, s as int);
                    lemma_small_product(y as int, n as int, s as int);
                    lemma_small_product(z as int, n as int, s as int);
                    lemma_decode(x as int, y as int, z as int, n as int);
                }
                let child = Block {
                    min: [b.min[0] + x * s, b.min[1] + y * s, b.min[2] + z * s],
                    side: s,
                    material: b.material,
                };
                proof {
                    let k = x * n * n + y * n + z;
                    assert(child == lattice_at(b, s as int, n as int, k));
                }
                out.push(child);
                z = z + 1;
            }
            proof {
                assert(x * n * n + y * n + n == x * n * n + (y + 1) * n) by (nonlinear_arith);
            }
            y = y + 1;
        }
        proof {
            assert(x * n * n + n * n == (x + 1) * n * n) by (nonlinear_arith);
        }
        x = x + 1;
    }
    proof {
        assert(out@ =~= start + lattice(b, s as int, n as int));
    }
}

proof fn lemma_small_product(x: int, n: int, s: int)
    requires
        0 <= x < n,
        -2 * COORD_LIMIT <= n * s <= 2 * COORD_LIMIT,
    ensures
        -2 * COORD_LIMIT <= x * s <= 2 * COORD_LIMIT,
{
    if s >= 0 {
        assert(0 <= x * s <= n * s) by (nonlinear_arith) requires 0 <= x < n, s >= 0;
    } else {
        assert(n * s <= x * s <= 0) by (nonlinear_arith) requires 0 <= x < n, s < 0;
    }
}

proof fn lemma_lattice_cell(b: Block, s: int, n: int, i: int)
    requires
        s > 0,
        n > 0,
        n * s <= b.side,
        bounded(b),
        0 <= i < n * n * n,
    ensures
        inside(lattice_at(b, s, n, i), b),
        bounded(lattice_at(b, s, n, i)),
        lattice_at(b, s, n, i).side == s,
        lattice_at(b, s, n, i).material == b.material,
        lattice_at(b, s, n, i).min[0] == b.min[0] + (i / (n * n)) * s,
        lattice_at(b, s, n, i).min[1] == b.min[1] + ((i / n) % n) * s,
        lattice_at(b, s, n, i).min[2] == b.min[2] + (i % n) * s,
{
    assert(n * n > 0) by (nonlinear_arith) requires n > 0;
    assert(0 <= i / (n * n) < n) by {
        vstd::arithmetic::div_mod::lemma_div_pos_is_pos(i, n * n);
        vstd::arithmetic::div_mod::lemma_fundamental_div_mod(i, n * n);
        vstd::arithmetic::div_mod::lemma_mod_bound(i, n * n);
        let q = i / (n * n);
        assert(q < n) by (nonlinear_arith)
            requires i == (n * n) * q + i % (n * n), 0 <= i % (n * n), i < n * n * n, n > 0;
    }
    let q = i / (n * n);
    let r = (i / n) % n;
    let t = i % n;
    assert(0 <= r < n) by { vstd::arithmetic::div_mod::lemma_mod_bound(i / n, n); }
    assert(0 <= t < n) by { vstd::arithmetic::div_mod::lemma_mod_bound(i, n); }
    assert(0 <= q * s && q * s + s <= n * s) by (nonlinear_arith) requires 0 <= q < n, s > 0;
    assert(0 <= r * s && r * s + s <= n * s) by (nonlinear_arith) requires 0 <= r < n, s > 0;
    assert(0 <= t * s && t * s + s <= n * s) by (nonlinear_arith) requires 0 <= t < n, s > 0;
}

impl Block {
    /// A block can be stood on when its side is a whole walkable number of c1.
    pub fn walkable(self) -> (r: bool)
        ensures
            r <==> (self.side == 96 || self.side == 144 || self.side == 192 || self.side == 288
                || self.side == 384 || self.side == 1536),
    {
        self.side % TICKS_PER_C1 == 0 && walkable(self.side / TICKS_PER_C1)
    }

    pub fn children(self) -> (out: Vec<Block>)
        requires
            bounded(self),
        ensures
            out@ == spec_children(self),
    {
        let s = split(self.side);
        proof {
            lemma_split(self.side as int);
        }
        let mut out = Vec::new();
        if s == 0 {
            out.push(self);
            proof {
                assert(out@ =~= seq![self]);
            }
            return out;
        }
        let n = self.side / s;
        push_lattice(self, s, n, &mut out);
        proof {
            assert(out@ =~= lattice(self, s as int, n as int));
        }
        out
    }
}

proof fn lemma_children(b: Block)
    requires
        bounded(b),
    ensures
        forall|k: int| 0 <= k < spec_children(b).len() ==> {
            &&& #[trigger] bounded(spec_children(b)[k])
            &&& inside(spec_children(b)[k], b)
            &&& spec_children(b)[k].material == b.material
            &&& (split_side(b.side as int) != 0 ==> 0 < spec_children(b)[k].side < b.side)
        },
{
    lemma_split(b.side as int);
    let s = split_side(b.side as int);
    if s != 0 {
        let n = (b.side as int) / s;
        assert forall|k: int| 0 <= k < spec_children(b).len() implies {
            &&& #[trigger] bounded(spec_children(b)[k])
            &&& inside(spec_children(b)[k], b)
            &&& spec_children(b)[k].material == b.material
            &&& 0 < spec_children(b)[k].side < b.side
        } by {
            lemma_lattice_cell(b, s, n, k);
        }
    }
}

/// What remains of `b` once `cut` is removed: only the branch that holds the
/// cut is split further; intact siblings are kept whole.
pub open spec fn spec_without(b: Block, cut: Block) -> Seq<Block>
    decreases b.side, 1int, 0int,
{
    if b == cut {
        seq![]
    } else {
        without_kids(spec_children(b), cut, b.side as int)
    }
}

pub open spec fn without_kids(kids: Seq<Block>, cut: Block, bound: int) -> Seq<Block>
    decreases bound, 0int, kids.len(),
{
    if kids.len() == 0 {
        seq![]
    } else {
        let last = kids.last();
        without_kids(kids.drop_last(), cut, bound) + if inside(cut, last) && 0 <= last.side < bound {
            spec_without(last, cut)
        } else {
            seq![last]
        }
    }
}

/// Removing `cut` from `b` terminates: every branch that holds the cut splits
/// into strictly smaller children, down to the cut itself.
pub open spec fn without_defined(b: Block, cut: Block) -> bool
    decreases b.side, 1int, 0int,
{
    b == cut || kids_defined(spec_children(b), cut, b.side as int)
}

pub open spec fn kids_defined(kids: Seq<Block>, cut: Block, bound: int) -> bool
    decreases bound, 0int, kids.len(),
{
    if kids.len() == 0 {
        true
    } else {
        let last = kids.last();
        &&& kids_defined(kids.drop_last(), cut, bound)
        &&& inside(cut, last) ==> (0 <= last.side < bound && without_defined(last, cut))
    }
}

proof fn lemma_kids_defined_at(kids: Seq<Block>, cut: Block, bound: int, k: int)
    requires
        kids_defined(kids, cut, bound),
        0 <= k < kids.len(),
        inside(cut, kids[k]),
    ensures
        0 <= kids[k].side < bound,
        without_defined(kids[k], cut),
    decreases kids.len(),
{
    if k < kids.len() - 1 {
        assert(kids.drop_last()[k] == kids[k]);
        lemma_kids_defined_at(kids.drop_last(), cut, bound, k);
    }
}

impl Block {
    /// Split only the branch containing the cut, retaining intact siblings.
    fn without(self, cut: Block, out: &mut Vec<Block>)
        requires
            bounded(self),
            bounded(cut),
            without_defined(self, cut),
        ensures
            final(out)@ == old(out)@ + spec_without(self, cut),
        decreases self.side,
    {
        if self == cut {
            proof {
                assert(old(out)@ + spec_without(self, cut) =~= old(out)@);
            }
            return;
        }
        let kids = self.children();
        proof {
            lemma_children(self);
            lemma_split(self.side as int);
        }
        let ghost start = old(out)@;
        let mut i: usize = 0;
        while i < kids.len()
            invariant
                0 <= i <= kids@.len(),
                kids@ == spec_children(self),
                bounded(self),
                bounded(cut),
                kids_defined(kids@, cut, self.side as int),
                forall|k: int| 0 <= k < kids@.len() ==> #[trigger] bounded(kids@[k]),
                start == old(out)@,
                out@ == start + without_kids(kids@.take(i as int), cut, self.side as int),
            decreases kids.len() - i,
        {
            let child = kids[i];
            proof {
                assert(kids@.take(i + 1).drop_last() =~= kids@.take(i as int));
                assert(kids@.take(i + 1).last() == child);
                assert(bounded(kids@[i as int]));
            }
            if inside_exec(cut, child) {
                proof {
                    lemma_kids_defined_at(kids@, cut, self.side as int, i as int);
                }
                child.without(cut, out);
            } else {
                out.push(child);
            }
            proof {
                assert(out@ =~= start + without_kids(kids@.take(i + 1), cut, self.side as int));
            }
            i = i + 1;
        }
        proof {
            assert(kids@.take(kids@.len() as int) =~= kids@);
        }
    }
}


/// Rust's integer division, which rounds toward zero.
pub open spec fn tdiv(a: int, b: int) -> int {
    if b > 0 {
        if a >= 0 { a / b } else { -((-a) / b) }
    } else {
        if a >= 0 { -(a / (-b)) } else { (-a) / (-b) }
    }
}

fn div_toward_zero(a: i32, b: i32) -> (q: i32)
    requires
        b != 0,
        -2 * COORD_LIMIT <= a <= 2 * COORD_LIMIT,
        -2 * COORD_LIMIT <= b <= 2 * COORD_LIMIT,
    ensures
        q == tdiv(a as int, b as int),
{
    if b > 0 {
        a / b
    } else {
        -(a / (-b))
    }
}

/// `b` and `cut` overlap with positive volume.
pub open spec fn intersects(b: Block, cut: Block) -> bool {
    &&& b.min[0] < cut.min[0] + cut.side && b.min[0] + b.side > cut.min[0]
    &&& b.min[1] < cut.min[1] + cut.side && b.min[1] + b.side > cut.min[1]
    &&& b.min[2] < cut.min[2] + cut.side && b.min[2] + b.side > cut.min[2]
}

/// The lattice step tool 3.5 resolves partial overlaps on: r1 chunks inside r2, else c1.
pub open spec fn r_step(side: int) -> int {
    if side == 144 { 72 } else { 24 }
}

/// Tool 3.5: untouched chunks are kept, covered ones discarded, partial
/// overlaps resolved on the c1 lattice.
pub open spec fn spec_r_cut(b: Block, cut: Block) -> Seq<Block>
    decreases b.side, 1int, 0int,
{
    if !intersects(b, cut) {
        seq![b]
    } else if inside(b, cut) {
        seq![]
    } else if b.side < r_step(b.side as int) {
        seq![]
    } else {
        r_kids(lattice(b, r_step(b.side as int), (b.side as int) / r_step(b.side as int)), cut, b.side as int)
    }
}

pub open spec fn r_kids(kids: Seq<Block>, cut: Block, bound: int) -> Seq<Block>
    decreases bound, 0int, kids.len(),
{
    if kids.len() == 0 {
        seq![]
    } else {
        let last = kids.last();
        r_kids(kids.drop_last(), cut, bound) + if 0 <= last.side < bound {
            spec_r_cut(last, cut)
        } else {
            seq![last]
        }
    }
}

/// The tool 3.5 recursion terminates: a partial overlap never leaves a c1 cell.
pub open spec fn r_defined(b: Block, cut: Block) -> bool
    decreases b.side, 1int, 0int,
{
    !intersects(b, cut) || inside(b, cut) || b.side < r_step(b.side as int) || r_kids_defined(
        lattice(b, r_step(b.side as int), (b.side as int) / r_step(b.side as int)),
        cut,
        b.side as int,
    )
}

pub open spec fn r_kids_defined(kids: Seq<Block>, cut: Block, bound: int) -> bool
    decreases bound, 0int, kids.len(),
{
    if kids.len() == 0 {
        true
    } else {
        let last = kids.last();
        &&& r_kids_defined(kids.drop_last(), cut, bound)
        &&& 0 <= last.side < bound
        &&& r_defined(last, cut)
    }
}

proof fn lemma_r_kids_defined_at(kids: Seq<Block>, cut: Block, bound: int, k: int)
    requires
        r_kids_defined(kids, cut, bound),
        0 <= k < kids.len(),
    ensures
        0 <= kids[k].side < bound,
        r_defined(kids[k], cut),
    decreases kids.len(),
{
    if k < kids.len() - 1 {
        assert(kids.drop_last()[k] == kids[k]);
        lemma_r_kids_defined_at(kids.drop_last(), cut, bound, k);
    }
}

impl Block {
    fn without_r_cut(self, cut: Block, out: &mut Vec<Block>)
        requires
            bounded(self),
            bounded(cut),
            r_defined(self, cut),
        ensures
            final(out)@ == old(out)@ + spec_r_cut(self, cut),
        decreases self.side,
    {
        let hit = self.min[0] < cut.min[0] + cut.side && self.min[0] + self.side > cut.min[0]
            && self.min[1] < cut.min[1] + cut.side && self.min[1] + self.side > cut.min[1]
            && self.min[2] < cut.min[2] + cut.side && self.min[2] + self.side > cut.min[2];
        if !hit {
            out.push(self);
            proof {
                assert(out@ =~= old(out)@ + spec_r_cut(self, cut));
            }
            return;
        }
        if inside_exec(self, cut) {
            proof {
                assert(old(out)@ + spec_r_cut(self, cut) =~= old(out)@);
            }
            return;
        }
        let side: i32 = if self.side == 144 { 72 } else { TICKS_PER_C1 };
        if self.side < side {
            proof {
                assert(old(out)@ + spec_r_cut(self, cut) =~= old(out)@);
            }
            return;
        }
        let n = self.side / side;
        proof {
            assert(n * side <= self.side) by {
                vstd::arithmetic::div_mod::lemma_fundamental_div_mod(self.side as int, side as int);
                vstd::arithmetic::div_mod::lemma_mod_bound(self.side as int, side as int);
            }
            assert(n >= 1) by {
                vstd::arithmetic::div_mod::lemma_div_is_ordered(side as int, self.side as int, side as int);
                vstd::arithmetic::div_mod::lemma_div_by_self(side as int);
            }
            assert(n * side >= 0) by (nonlinear_arith) requires n >= 1, side > 0;
        }
        let mut kids = Vec::new();
        push_lattice(self, side, n, &mut kids);
        proof {
            assert(kids@ =~= lattice(self, side as int, n as int));
            assert forall|k: int| 0 <= k < kids@.len() implies #[trigger] bounded(kids@[k]) by {
                lemma_lattice_cell(self, side as int, n as int, k);
            }
        }
        let ghost kseq = kids@;
        let ghost start = old(out)@;
        let mut i: usize = 0;
        while i < kids.len()
            invariant
                0 <= i <= kids@.len(),
                kids@ == kseq,
                kseq == lattice(self, side as int, n as int),
                side == r_step(self.side as int),
                n == self.side / side,
                r_kids_defined(kseq, cut, self.side as int),
                bounded(cut),
                forall|k: int| 0 <= k < kids@.len() ==> #[trigger] bounded(kids@[k]),
                start == old(out)@,
                out@ == start + r_kids(kseq.take(i as int), cut, self.side as int),
            decreases kids.len() - i,
        {
            let child = kids[i];
            proof {
                assert(kseq.take(i + 1).drop_last() =~= kseq.take(i as int));
                assert(kseq.take(i + 1).last() == child);
                assert(bounded(kids@[i as int]));
                lemma_r_kids_defined_at(kseq, cut, self.side as int, i as int);
            }
            child.without_r_cut(cut, out);
            proof {
                assert(out@ =~= start + r_kids(kseq.take(i + 1), cut, self.side as int));
            }
            i = i + 1;
        }
        proof {
            assert(kseq.take(kseq.len() as int) =~= kseq);
        }
    }
}


proof fn lemma_tdiv_bound(a: int, b: int)
    requires
        b != 0,
    ensures
        tdiv(a, b) > 0 ==> (a > 0) == (b > 0),
        tdiv(a, b) > 0 ==> (if b > 0 { 0 < tdiv(a, b) * b <= a } else { a <= tdiv(a, b) * b < 0 }),
{
    if b > 0 {
        if a >= 0 {
            vstd::arithmetic::div_mod::lemma_fundamental_div_mod(a, b);
            vstd::arithmetic::div_mod::lemma_mod_bound(a, b);
            let q = a / b;
            if q > 0 {
                assert(0 < q * b <= a) by (nonlinear_arith)
                    requires a == b * q + a % b, 0 <= a % b, q > 0, b > 0;
            }
        } else {
            vstd::arithmetic::div_mod::lemma_div_pos_is_pos(-a, b);
        }
    } else {
        if a >= 0 {
            vstd::arithmetic::div_mod::lemma_div_pos_is_pos(a, -b);
        } else {
            vstd::arithmetic::div_mod::lemma_fundamental_div_mod(-a, -b);
            vstd::arithmetic::div_mod::lemma_mod_bound(-a, -b);
            let q = (-a) / (-b);
            if q > 0 {
                assert(a <= q * b < 0) by (nonlinear_arith)
                    requires -a == (-b) * q + (-a) % (-b), 0 <= (-a) % (-b), q > 0, b < 0;
            }
        }
    }
}

/// `s` without the blocks equal to `cut`, order kept.
pub open spec fn drop_cut(s: Seq<Block>, cut: Block) -> Seq<Block>
    decreases s.len(),
{
    if s.len() == 0 {
        seq![]
    } else {
        drop_cut(s.drop_last(), cut) + if s.last() == cut { seq![] } else { seq![s.last()] }
    }
}

/// Uniform split of `b` into cubes of the cut's side, leaving the cut out.
pub open spec fn spec_uniform(b: Block, cut: Block) -> Seq<Block> {
    let n = tdiv(b.side as int, cut.side as int);
    if n <= 0 {
        seq![]
    } else {
        drop_cut(lattice(b, cut.side as int, n), cut)
    }
}

fn push_uniform(b: Block, cut: Block, out: &mut Vec<Block>)
    requires
        bounded(b),
        bounded(cut),
        cut.side != 0,
    ensures
        final(out)@ == old(out)@ + spec_uniform(b, cut),
{
    let n = div_toward_zero(b.side, cut.side);
    if n <= 0 {
        proof {
            assert(old(out)@ + spec_uniform(b, cut) =~= old(out)@);
        }
        return;
    }
    proof {
        lemma_tdiv_bound(b.side as int, cut.side as int);
    }
    let mut kids = Vec::new();
    push_lattice(b, cut.side, n, &mut kids);
    proof {
        assert(kids@ =~= lattice(b, cut.side as int, n as int));
    }
    let ghost start = old(out)@;
    let mut i: usize = 0;
    while i < kids.len()
        invariant
            0 <= i <= kids@.len(),
            kids@ == lattice(b, cut.side as int, n as int),
            n == tdiv(b.side as int, cut.side as int),
            n > 0,
            start == old(out)@,
            out@ == start + drop_cut(kids@.take(i as int), cut),
        decreases kids.len() - i,
    {
        let child = kids[i];
        proof {
            assert(kids@.take(i + 1).drop_last() =~= kids@.take(i as int));
            assert(kids@.take(i + 1).last() == child);
        }
        if child != cut {
            out.push(child);
        }
        proof {
            assert(out@ =~= start + drop_cut(kids@.take(i + 1), cut));
        }
        i = i + 1;
    }
    proof {
        assert(kids@.take(kids@.len() as int) =~= kids@);
    }
}

#[derive(Clone, Copy, Debug)]
pub struct MiningTarget {
    pub parent: Block,
    pub cut: Block,
}

impl PartialEq for MiningTarget {
    fn eq(&self, other: &Self) -> (r: bool) {
        self.parent == other.parent && self.cut == other.cut
    }
}

impl vstd::std_specs::cmp::PartialEqSpecImpl for MiningTarget {
    open spec fn obeys_eq_spec() -> bool {
        true
    }

    open spec fn eq_spec(&self, other: &Self) -> bool {
        *self == *other
    }
}

impl Eq for MiningTarget {}

/// The C1/2 half of the parent that holds the cut, where collected pieces start.
pub open spec fn spec_collection_source(t: MiningTarget) -> Block {
    Block {
        min: [
            (t.parent.min[0] + tdiv(t.cut.min[0] - t.parent.min[0], 12) * 12) as i32,
            (t.parent.min[1] + tdiv(t.cut.min[1] - t.parent.min[1], 12) * 12) as i32,
            (t.parent.min[2] + tdiv(t.cut.min[2] - t.parent.min[2], 12) * 12) as i32,
        ],
        side: 12,
        material: t.parent.material,
    }
}

proof fn lemma_tdiv12(d: int)
    requires
        -2 * COORD_LIMIT <= d <= 2 * COORD_LIMIT,
    ensures
        -2 * COORD_LIMIT <= tdiv(d, 12) * 12 <= 2 * COORD_LIMIT,
        d >= 0 ==> 0 <= tdiv(d, 12) * 12 <= d,
        d < 0 ==> d <= tdiv(d, 12) * 12 <= 0,
{
    if d >= 0 {
        vstd::arithmetic::div_mod::lemma_fundamental_div_mod(d, 12);
        vstd::arithmetic::div_mod::lemma_mod_bound(d, 12);
    } else {
        vstd::arithmetic::div_mod::lemma_fundamental_div_mod(-d, 12);
        vstd::arithmetic::div_mod::lemma_mod_bound(-d, 12);
    }
}

impl MiningTarget {
    fn collection_source(self) -> (r: Block)
        requires
            bounded(self.parent),
            bounded(self.cut),
        ensures
            r == spec_collection_source(self),
    {
        let side: i32 = TICKS_PER_C1 / 2;
        proof {
            lemma_tdiv12(self.cut.min[0] - self.parent.min[0]);
            lemma_tdiv12(self.cut.min[1] - self.parent.min[1]);
            lemma_tdiv12(self.cut.min[2] - self.parent.min[2]);
        }
        let r = Block {
            min: [
                self.parent.min[0] + div_toward_zero(self.cut.min[0] - self.parent.min[0], side) * side,
                self.parent.min[1] + div_toward_zero(self.cut.min[1] - self.parent.min[1], side) * side,
                self.parent.min[2] + div_toward_zero(self.cut.min[2] - self.parent.min[2], side) * side,
            ],
            side,
            material: self.parent.material,
        };
        r
    }
}

/// Tool 6 on a c1: the half holding the cut is quartered (minus the cut);
/// the other seven halves stay whole.
pub open spec fn six_kids(kids: Seq<Block>, source: Block, cut: Block) -> Seq<Block>
    decreases kids.len(),
{
    if kids.len() == 0 {
        seq![]
    } else {
        let half = kids.last();
        six_kids(kids.drop_last(), source, cut) + if half == source {
            if cut == half { seq![] } else { spec_uniform(half, cut) }
        } else {
            seq![half]
        }
    }
}

/// What replaces a targeted parent in the preview for `tool`.
pub open spec fn spec_replace(tool: usize, b: Block, t: MiningTarget) -> Seq<Block> {
    if tool == TOOL_35 {
        spec_r_cut(b, t.cut)
    } else if tool == TOOL_6 && b.side == 24 {
        six_kids(spec_children(b), spec_collection_source(t), t.cut)
    } else if b.side == 24 || tool == TOOL_6 {
        spec_uniform(b, t.cut)
    } else {
        spec_without(b, t.cut)
    }
}

/// Computing the replacement terminates without a division by zero.
pub open spec fn replace_defined(tool: usize, b: Block, t: MiningTarget) -> bool {
    if tool == TOOL_35 {
        r_defined(b, t.cut)
    } else if b.side == 24 || tool == TOOL_6 {
        t.cut.side != 0
    } else {
        without_defined(b, t.cut)
    }
}

pub open spec fn preview_one(tool: usize, b: Block, target: Option<MiningTarget>) -> Seq<Block> {
    match target {
        Some(t) => if t.parent == b {
            if t.cut == b { seq![] } else { spec_replace(tool, b, t) }
        } else {
            seq![b]
        },
        None => seq![b],
    }
}

/// The scene with the targeted parent replaced by its remaining pieces.
pub open spec fn spec_preview(blocks: Seq<Block>, tool: usize, target: Option<MiningTarget>) -> Seq<Block>
    decreases blocks.len(),
{
    if blocks.len() == 0 {
        seq![]
    } else {
        spec_preview(blocks.drop_last(), tool, target) + preview_one(tool, blocks.last(), target)
    }
}

/// The preview of `target` can be computed for this scene and tool.
pub open spec fn preview_ok(blocks: Seq<Block>, tool: usize, target: Option<MiningTarget>) -> bool {
    match target {
        Some(t) => blocks.contains(t.parent) ==> {
            &&& bounded(t.parent)
            &&& bounded(t.cut)
            &&& (t.cut == t.parent || replace_defined(tool, t.parent, t))
        },
        None => true,
    }
}

fn replace(tool: usize, b: Block, t: MiningTarget, out: &mut Vec<Block>)
    requires
        bounded(b),
        bounded(t.cut),
        t.parent == b,
        replace_defined(tool, b, t),
    ensures
        final(out)@ == old(out)@ + spec_replace(tool, b, t),
{
    if tool == TOOL_35 {
        b.without_r_cut(t.cut, out);
    } else if tool == TOOL_6 && b.side == TICKS_PER_C1 {
        let source = t.collection_source();
        let kids = b.children();
        proof {
            lemma_children(b);
        }
        let ghost start = old(out)@;
        let mut i: usize = 0;
        while i < kids.len()
            invariant
                0 <= i <= kids@.len(),
                kids@ == spec_children(b),
                source == spec_collection_source(t),
                t.cut.side != 0,
                bounded(t.cut),
                forall|k: int| 0 <= k < kids@.len() ==> #[trigger] bounded(kids@[k]),
                start == old(out)@,
                out@ == start + six_kids(kids@.take(i as int), source, t.cut),
            decreases kids.len() - i,
        {
            let half = kids[i];
            proof {
                assert(kids@.take(i + 1).drop_last() =~= kids@.take(i as int));
                assert(kids@.take(i + 1).last() == half);
                assert(bounded(kids@[i as int]));
            }
            if half == source {
                if t.cut != half {
                    push_uniform(half, t.cut, out);
                }
            } else {
                out.push(half);
            }
            proof {
                assert(out@ =~= start + six_kids(kids@.take(i + 1), source, t.cut));
            }
            i = i + 1;
        }
        proof {
            assert(kids@.take(kids@.len() as int) =~= kids@);
        }
    } else if b.side == TICKS_PER_C1 || tool == TOOL_6 {
        push_uniform(b, t.cut, out);
    } else {
        b.without(t.cut, out);
    }
}

fn contains_block(blocks: &Vec<Block>, b: Block) -> (r: bool)
    ensures
        r == blocks@.contains(b),
{
    let mut i: usize = 0;
    while i < blocks.len()
        invariant
            0 <= i <= blocks@.len(),
            forall|k: int| 0 <= k < i ==> blocks@[k] != b,
        decreases blocks.len() - i,
    {
        if blocks[i] == b {
            return true;
        }
        i = i + 1;
    }
    false
}

pub struct Demo {
    pub blocks: Vec<Block>,
    pub tool: usize,
}

/// The target size of each tool, in ticks.
pub open spec fn spec_tool_side(tool: usize) -> Option<i32> {
    if tool < 6 { Some(TOOLS[tool as int]) } else { None }
}

/// The removal size of each tool, in ticks.
pub open spec fn spec_cut_side(tool: usize) -> Option<i32> {
    if tool < 6 { Some(CUT_SIDES[tool as int]) } else { None }
}

/// The removal size for this parent: tool 3.5 takes a c2 out of an r1.
pub open spec fn spec_cut_for(tool: usize, parent: Block) -> Option<i32> {
    if tool == TOOL_35 && parent.side == 72 { Some(48) } else { spec_cut_side(tool) }
}

/// Parent sizes the tool can target.
pub open spec fn spec_accepts(tool: usize, side: i32) -> bool {
    if tool == TOOL_35 {
        side == 72 || side == 144
    } else if tool >= 6 {
        false
    } else {
        ||| side == TOOLS[tool as int]
        ||| (tool < 4 && CUT_SIDES[tool as int] == side)
        ||| ((tool == 1 || tool == 2 || tool == 3 || tool == TOOL_6) && side == TOOLS[tool as int] / 2)
    }
}

/// The target is one the tool may commit: an accepted parent and either the
/// whole parent, or a same-material cut of the tool's size on its lattice inside it.
pub open spec fn valid_target(tool: usize, t: MiningTarget) -> bool {
    &&& spec_accepts(tool, t.parent.side)
    &&& spec_cut_for(tool, t.parent) is Some
    &&& {
        let cut_side = spec_cut_for(tool, t.parent)->0;
        if t.parent.side == cut_side {
            t.cut == t.parent
        } else {
            let step: int = if tool == TOOL_35 { 24 } else { t.cut.side as int };
            &&& t.cut.side == cut_side
            &&& t.cut.material == t.parent.material
            &&& aligned_axis(t, 0, step)
            &&& aligned_axis(t, 1, step)
            &&& aligned_axis(t, 2, step)
        }
    }
}

pub open spec fn aligned_axis(t: MiningTarget, a: int, step: int) -> bool {
    let offset = t.cut.min[a] - t.parent.min[a];
    offset >= 0 && offset + t.cut.side <= t.parent.side && offset % step == 0
}

impl Demo {
    pub fn tool_side(&self) -> (r: Option<i32>)
        ensures
            r == spec_tool_side(self.tool),
    {
        if self.tool < 6 { Some(TOOLS[self.tool]) } else { None }
    }

    pub fn cut_side(&self) -> (r: Option<i32>)
        ensures
            r == spec_cut_side(self.tool),
    {
        if self.tool < 6 { Some(CUT_SIDES[self.tool]) } else { None }
    }

    fn cut_for(&self, parent: Block) -> (r: Option<i32>)
        ensures
            r == spec_cut_for(self.tool, parent),
    {
        if self.tool == TOOL_35 && parent.side == 72 { Some(48) } else { self.cut_side() }
    }

    fn accepts(&self, side: i32) -> (r: bool)
        ensures
            r == spec_accepts(self.tool, side),
    {
        if self.tool == TOOL_35 {
            return side == 72 || side == 144;
        }
        let selected = match self.tool_side() {
            Some(s) => s,
            None => {
                return false;
            },
        };
        side == selected || (self.tool < 4 && self.cut_side() == Some(side)) || ((self.tool == 1
            || self.tool == 2 || self.tool == 3 || self.tool == TOOL_6) && side == selected / 2)
    }

    /// Opaque preview replaces just the parent; occupancy stays intact.
    pub fn preview_blocks(&self, target: Option<MiningTarget>) -> (out: Vec<Block>)
        requires
            preview_ok(self.blocks@, self.tool, target),
        ensures
            out@ == spec_preview(self.blocks@, self.tool, target),
    {
        let mut out: Vec<Block> = Vec::new();
        let mut i: usize = 0;
        while i < self.blocks.len()
            invariant
                0 <= i <= self.blocks@.len(),
                preview_ok(self.blocks@, self.tool, target),
                out@ == spec_preview(self.blocks@.take(i as int), self.tool, target),
            decreases self.blocks.len() - i,
        {
            let block = self.blocks[i];
            proof {
                assert(self.blocks@.take(i + 1).drop_last() =~= self.blocks@.take(i as int));
                assert(self.blocks@.take(i + 1).last() == block);
            }
            match target {
                Some(t) => {
                    if t.parent == block {
                        proof {
                            assert(self.blocks@.contains(t.parent)) by {
                                assert(self.blocks@[i as int] == t.parent);
                            }
                        }
                        if t.cut != block {
                            replace(self.tool, block, t, &mut out);
                        }
                    } else {
                        out.push(block);
                    }
                },
                None => {
                    out.push(block);
                },
            }
            proof {
                assert(out@ =~= spec_preview(self.blocks@.take(i + 1), self.tool, target));
            }
            i = i + 1;
        }
        proof {
            assert(self.blocks@.take(self.blocks@.len() as int) =~= self.blocks@);
        }
        out
    }
}


/// `side` reaches `c` by repeated splitting.
pub open spec fn descends(side: int, c: int) -> bool
    decreases side,
{
    if side == c {
        true
    } else if 0 < split_side(side) < side {
        descends(split_side(side), c)
    } else {
        false
    }
}

proof fn lemma_descends_divides(side: int, c: int)
    requires
        c > 0,
        descends(side, c),
    ensures
        side % c == 0,
        side >= c,
    decreases side,
{
    if side != c {
        let s = split_side(side);
        lemma_split(side);
        lemma_descends_divides(s, c);
        let n = side / s;
        vstd::arithmetic::div_mod::lemma_fundamental_div_mod(s, c);
        let m = s / c;
        assert(side == c * (n * m)) by (nonlinear_arith)
            requires side == n * s, s == c * m + s % c, s % c == 0;
        vstd::arithmetic::div_mod::lemma_mod_multiples_basic(n * m, c);
        assert(c * (n * m) == (n * m) * c) by (nonlinear_arith);
    } else {
        vstd::arithmetic::div_mod::lemma_mod_self_0(c);
    }
}

proof fn lemma_sub_multiples(x: int, y: int, c: int)
    requires
        c > 0,
        x % c == 0,
        y % c == 0,
    ensures
        (x - y) % c == 0,
{
    vstd::arithmetic::div_mod::lemma_fundamental_div_mod(x, c);
    vstd::arithmetic::div_mod::lemma_fundamental_div_mod(y, c);
    let i = x / c;
    let j = y / c;
    assert(x - y == (i - j) * c) by (nonlinear_arith)
        requires x == c * i + x % c, y == c * j + y % c, x % c == 0, y % c == 0;
    vstd::arithmetic::div_mod::lemma_mod_multiples_basic(i - j, c);
}

proof fn lemma_multiple_of_divisor(q: int, s: int, c: int)
    requires
        c > 0,
        s % c == 0,
    ensures
        (q * s) % c == 0,
{
    vstd::arithmetic::div_mod::lemma_fundamental_div_mod(s, c);
    let m = s / c;
    assert(q * s == (q * m) * c) by (nonlinear_arith) requires s == c * m + s % c, s % c == 0;
    vstd::arithmetic::div_mod::lemma_mod_multiples_basic(q * m, c);
}

proof fn lemma_kids_defined_all(kids: Seq<Block>, cut: Block, bound: int)
    requires
        forall|k: int| 0 <= k < kids.len() && #[trigger] inside(cut, kids[k]) ==> (0 <= kids[k].side < bound
            && without_defined(kids[k], cut)),
    ensures
        kids_defined(kids, cut, bound),
    decreases kids.len(),
{
    if kids.len() > 0 {
        assert forall|k: int| 0 <= k < kids.drop_last().len() && #[trigger] inside(cut, kids.drop_last()[k])
            implies (0 <= kids.drop_last()[k].side < bound && without_defined(kids.drop_last()[k], cut)) by {
            assert(kids.drop_last()[k] == kids[k]);
        }
        lemma_kids_defined_all(kids.drop_last(), cut, bound);
        assert(inside(cut, kids.last()) ==> inside(cut, kids[kids.len() - 1]));
    }
}

/// A cut of a size that `b` reaches by splitting, on its own lattice inside
/// `b`, is removed by splitting only the branches that hold it.
proof fn lemma_without_aligned(b: Block, cut: Block)
    requires
        bounded(b),
        bounded(cut),
        cut.side > 0,
        descends(b.side as int, cut.side as int),
        inside(cut, b),
        (cut.min[0] - b.min[0]) % (cut.side as int) == 0,
        (cut.min[1] - b.min[1]) % (cut.side as int) == 0,
        (cut.min[2] - b.min[2]) % (cut.side as int) == 0,
        cut.material == b.material,
    ensures
        without_defined(b, cut),
    decreases b.side,
{
    if b.side == cut.side {
        assert(cut.min =~= b.min);
        assert(cut == b);
    } else {
        lemma_split(b.side as int);
        lemma_children(b);
        let s = split_side(b.side as int);
        let n = (b.side as int) / s;
        let kids = spec_children(b);
        lemma_descends_divides(s, cut.side as int);
        assert forall|k: int| 0 <= k < kids.len() && #[trigger] inside(cut, kids[k]) implies (0 <= kids[k].side
            < b.side && without_defined(kids[k], cut)) by {
            let kid = kids[k];
            assert(kid == lattice_at(b, s, n, k));
            lemma_lattice_cell(b, s, n, k);
            let c = cut.side as int;
            let q0 = k / (n * n);
            let q1 = (k / n) % n;
            let q2 = k % n;
            lemma_multiple_of_divisor(q0, s, c);
            lemma_multiple_of_divisor(q1, s, c);
            lemma_multiple_of_divisor(q2, s, c);
            lemma_sub_multiples(cut.min[0] - b.min[0], q0 * s, c);
            lemma_sub_multiples(cut.min[1] - b.min[1], q1 * s, c);
            lemma_sub_multiples(cut.min[2] - b.min[2], q2 * s, c);
            assert(cut.min[0] - kid.min[0] == (cut.min[0] - b.min[0]) - q0 * s);
            assert(cut.min[1] - kid.min[1] == (cut.min[1] - b.min[1]) - q1 * s);
            assert(cut.min[2] - kid.min[2] == (cut.min[2] - b.min[2]) - q2 * s);
            lemma_without_aligned(kid, cut);
        }
        lemma_kids_defined_all(kids, cut, b.side as int);
    }
}

proof fn lemma_r_kids_defined_all(kids: Seq<Block>, cut: Block, bound: int)
    requires
        forall|k: int| 0 <= k < kids.len() ==> 0 <= #[trigger] kids[k].side < bound && r_defined(kids[k], cut),
    ensures
        r_kids_defined(kids, cut, bound),
    decreases kids.len(),
{
    if kids.len() > 0 {
        assert forall|k: int| 0 <= k < kids.drop_last().len() implies 0 <= #[trigger] kids.drop_last()[k].side
            < bound && r_defined(kids.drop_last()[k], cut) by {
            assert(kids.drop_last()[k] == kids[k]);
        }
        lemma_r_kids_defined_all(kids.drop_last(), cut, bound);
        assert(kids.last() == kids[kids.len() - 1]);
    }
}

/// On a shared c1 lattice, an overlap of a c1 cell and a cut of whole c1 is containment.
proof fn lemma_r_axis(k: int, c: int, l: int)
    requires
        (k - c) % 24 == 0,
        l % 24 == 0,
        l > 0,
        k < c + l,
        k + 24 > c,
    ensures
        c <= k,
        k + 24 <= c + l,
{
    vstd::arithmetic::div_mod::lemma_fundamental_div_mod(k - c, 24);
    vstd::arithmetic::div_mod::lemma_fundamental_div_mod(l, 24);
}

/// Tool 3.5 terminates on r2, r1 and c1 chunks that share the cut's c1 lattice.
proof fn lemma_r_aligned(b: Block, cut: Block)
    requires
        bounded(b),
        bounded(cut),
        b.side == 24 || b.side == 72 || b.side == 144,
        (b.min[0] - cut.min[0]) % 24 == 0,
        (b.min[1] - cut.min[1]) % 24 == 0,
        (b.min[2] - cut.min[2]) % 24 == 0,
        cut.side % 24 == 0,
        cut.side > 0,
    ensures
        r_defined(b, cut),
    decreases b.side,
{
    if intersects(b, cut) && !inside(b, cut) {
        if b.side == 24 {
            lemma_r_axis(b.min[0] as int, cut.min[0] as int, cut.side as int);
            lemma_r_axis(b.min[1] as int, cut.min[1] as int, cut.side as int);
            lemma_r_axis(b.min[2] as int, cut.min[2] as int, cut.side as int);
        } else {
            let s = r_step(b.side as int);
            let n = (b.side as int) / s;
            assert(n * s == b.side);
            let kids = lattice(b, s, n);
            assert forall|k: int| 0 <= k < kids.len() implies 0 <= #[trigger] kids[k].side < b.side && r_defined(
                kids[k],
                cut,
            ) by {
                assert(kids.len() == n * n * n);
                lemma_lattice_cell(b, s, n, k);
                let kid = kids[k];
                assert(s % 24 == 0);
                let q0 = k / (n * n);
                let q1 = (k / n) % n;
                let q2 = k % n;
                lemma_multiple_of_divisor(q0, s, 24);
                lemma_multiple_of_divisor(q1, s, 24);
                lemma_multiple_of_divisor(q2, s, 24);
                assert(kid.min[0] - cut.min[0] == (b.min[0] - cut.min[0]) + q0 * s);
                assert(kid.min[1] - cut.min[1] == (b.min[1] - cut.min[1]) + q1 * s);
                assert(kid.min[2] - cut.min[2] == (b.min[2] - cut.min[2]) + q2 * s);
                lemma_add_multiples(b.min[0] - cut.min[0], q0 * s);
                lemma_add_multiples(b.min[1] - cut.min[1], q1 * s);
                lemma_add_multiples(b.min[2] - cut.min[2], q2 * s);
                lemma_r_aligned(kid, cut);
            }
            lemma_r_kids_defined_all(kids, cut, b.side as int);
        }
    }
}

proof fn lemma_add_multiples(x: int, y: int)
    requires
        x % 24 == 0,
        y % 24 == 0,
    ensures
        (x + y) % 24 == 0,
{
    vstd::arithmetic::div_mod::lemma_fundamental_div_mod(x, 24);
    vstd::arithmetic::div_mod::lemma_fundamental_div_mod(y, 24);
    vstd::arithmetic::div_mod::lemma_mod_multiples_basic(x / 24 + y / 24, 24);
}

/// Every target that `mine` accepts can be previewed.
proof fn lemma_valid_defined(tool: usize, t: MiningTarget)
    requires
        bounded(t.parent),
        bounded(t.cut),
        valid_target(tool, t),
    ensures
        t.cut == t.parent || replace_defined(tool, t.parent, t),
{
    let cut_side = spec_cut_for(tool, t.parent)->0;
    if t.parent.side != cut_side {
        let p = t.parent;
        let c = t.cut;
        if tool == TOOL_35 {
            assert(c.side == 48 || c.side == 72);
            lemma_sub_multiples(0, c.min[0] - p.min[0], 24);
            lemma_sub_multiples(0, c.min[1] - p.min[1], 24);
            lemma_sub_multiples(0, c.min[2] - p.min[2], 24);
            lemma_r_aligned(p, c);
        } else if p.side == 24 || tool == TOOL_6 {
        } else {
            reveal_with_fuel(descends, 4);
            assert(descends(p.side as int, c.side as int));
            lemma_without_aligned(p, c);
        }
    }
}

impl Demo {
    pub fn mine(&mut self, target: MiningTarget)
        requires
            bounded(target.parent),
            bounded(target.cut),
        ensures
            final(self).tool == old(self).tool,
            final(self).blocks@ == if valid_target(old(self).tool, target) && old(self).blocks@.contains(
                target.parent,
            ) {
                spec_preview(old(self).blocks@, old(self).tool, Some(target))
            } else {
                old(self).blocks@
            },
    {
        // Reject stale previews or targets from a different wheel selection.
        if !self.accepts(target.parent.side) {
            return;
        }
        let cut_side = match self.cut_for(target.parent) {
            Some(c) => c,
            None => {
                return;
            },
        };
        let valid = if target.parent.side == cut_side {
            target.cut == target.parent
        } else {
            let step = if self.tool == TOOL_35 { TICKS_PER_C1 } else { target.cut.side };
            target.cut.side == cut_side && target.cut.material == target.parent.material
                && aligned_exec(target, 0, step) && aligned_exec(target, 1, step)
                && aligned_exec(target, 2, step)
        };
        if !valid || !contains_block(&self.blocks, target.parent) {
            return;
        }
        proof {
            lemma_valid_defined(self.tool, target);
        }
        self.blocks = self.preview_blocks(Some(target));
    }
}

fn aligned_exec(t: MiningTarget, a: usize, step: i32) -> (r: bool)
    requires
        a < 3,
        step > 0,
        bounded(t.parent),
        bounded(t.cut),
        t.cut.side <= 1536,
    ensures
        r == aligned_axis(t, a as int, step as int),
{
    let offset = t.cut.min[a] - t.parent.min[a];
    offset >= 0 && offset + t.cut.side <= t.parent.side && offset % step == 0
}


/// The base row of the scene: 27 c4 blocks around the origin.
pub open spec fn spec_world_block(i: int) -> Block {
    Block {
        min: [
            ((i / 9 - 1) * 1536 - 768) as i32,
            (((i / 3) % 3 - 1) * 1536 - 768) as i32,
            ((i % 3 - 1) * 1536 - 768) as i32,
        ],
        side: 1536,
        material: 0,
    }
}

/// Camera regression fixture: a 3×3×3 block of 64-c1 cubes centered on the origin.
pub fn empty_world_blocks() -> (blocks: Vec<Block>)
    ensures
        blocks@ == Seq::new(27, |i: int| spec_world_block(i)),
{
    let mut blocks = Vec::new();
    let mut x: i32 = -1;
    while x <= 1
        invariant
            -1 <= x <= 2,
            blocks@.len() == (x + 1) * 9,
            forall|k: int| 0 <= k < blocks@.len() ==> blocks@[k] == spec_world_block(k),
        decreases 2 - x,
    {
        let mut y: i32 = -1;
        while y <= 1
            invariant
                -1 <= x <= 1,
                -1 <= y <= 2,
                blocks@.len() == (x + 1) * 9 + (y + 1) * 3,
                forall|k: int| 0 <= k < blocks@.len() ==> blocks@[k] == spec_world_block(k),
            decreases 2 - y,
        {
            let mut z: i32 = -1;
            while z <= 1
                invariant
                    -1 <= x <= 1,
                    -1 <= y <= 1,
                    -1 <= z <= 2,
                    blocks@.len() == (x + 1) * 9 + (y + 1) * 3 + (z + 1),
                    forall|k: int| 0 <= k < blocks@.len() ==> blocks@[k] == spec_world_block(k),
                decreases 2 - z,
            {
                let b = Block {
                    min: [
                        x * MINING_BASE_SIDE - MINING_BASE_SIDE / 2,
                        y * MINING_BASE_SIDE - MINING_BASE_SIDE / 2,
                        z * MINING_BASE_SIDE - MINING_BASE_SIDE / 2,
                    ],
                    side: MINING_BASE_SIDE,
                    material: 0,
                };
                proof {
                    let k = (x + 1) * 9 + (y + 1) * 3 + (z + 1);
                    assert(k / 9 == x + 1 && (k / 3) % 3 == y + 1 && k % 3 == z + 1);
                    assert(b == spec_world_block(k));
                }
                blocks.push(b);
                z = z + 1;
            }
            y = y + 1;
        }
        x = x + 1;
    }
    proof {
        assert(blocks@ =~= Seq::new(27, |i: int| spec_world_block(i)));
    }
    blocks
}

/// The showcase scene: one block of every display tier in each of the six
/// materials, in rows by tier, over a floor of twelve 64-c1 blocks.
pub open spec fn spec_demo_block(i: int) -> Block {
    if i < 60 {
        Block {
            min: [(((i % 6) * 18 - 51) * 24) as i32, 0i32, (((i / 6) * 18 - 75) * 24) as i32],
            side: MINING_SIDES[i / 6],
            material: (i % 6) as u32,
        }
    } else {
        Block {
            min: [
                ((((i - 60) / 2) - 3) * 1536) as i32,
                -1536i32,
                ((((i - 60) % 2) - 1) * 1536) as i32,
            ],
            side: 1536,
            material: ((i - 60) / 2) as u32,
        }
    }
}

/// Position of a tool on the wheel; an unknown tool counts as off.
pub open spec fn wheel_index(tool: usize) -> int {
    if tool == 0 { 0 }
    else if tool == 1 { 1 }
    else if tool == 2 { 2 }
    else if tool == 5 { 3 }
    else if tool == 3 { 4 }
    else if tool == 4 { 5 }
    else { 6 }
}

pub open spec fn spec_signum(v: i32) -> int {
    if v > 0 { 1 } else if v < 0 { -1 } else { 0 }
}

impl Demo {
    pub fn new() -> (d: Self)
        ensures
            d.tool == NO_TOOL,
            d.blocks@ == Seq::new(72, |i: int| spec_demo_block(i)),
    {
        let mut blocks = Vec::new();
        let mut row: usize = 0;
        while row < 10
            invariant
                0 <= row <= 10,
                blocks@.len() == row * 6,
                forall|k: int| 0 <= k < blocks@.len() ==> blocks@[k] == spec_demo_block(k),
            decreases 10 - row,
        {
            let mut color: i32 = 0;
            while color < 6
                invariant
                    0 <= row < 10,
                    0 <= color <= 6,
                    blocks@.len() == row * 6 + color,
                    forall|k: int| 0 <= k < blocks@.len() ==> blocks@[k] == spec_demo_block(k),
                decreases 6 - color,
            {
                let b = Block {
                    min: [(color * 18 - 51) * TICKS_PER_C1, 0, (row as i32 * 18 - 75) * TICKS_PER_C1],
                    side: MINING_SIDES[row],
                    material: color as u32,
                };
                proof {
                    let k = row * 6 + color;
                    assert(k / 6 == row && k % 6 == color);
                    assert(b == spec_demo_block(k));
                }
                blocks.push(b);
                color = color + 1;
            }
            row = row + 1;
        }
        let mut material: u32 = 0;
        while material < 6
            invariant
                0 <= material <= 6,
                blocks@.len() == 60 + material * 2,
                forall|k: int| 0 <= k < blocks@.len() ==> blocks@[k] == spec_demo_block(k),
            decreases 6 - material,
        {
            let x = material as i32 - 3;
            let mut z: i32 = -1;
            while z <= 0
                invariant
                    0 <= material < 6,
                    x == material - 3,
                    -1 <= z <= 1,
                    blocks@.len() == 60 + material * 2 + (z + 1),
                    forall|k: int| 0 <= k < blocks@.len() ==> blocks@[k] == spec_demo_block(k),
                decreases 1 - z,
            {
                let b = Block {
                    min: [x * MINING_BASE_SIDE, -MINING_BASE_SIDE, z * MINING_BASE_SIDE],
                    side: MINING_BASE_SIDE,
                    material,
                };
                proof {
                    let k = 60 + material * 2 + (z + 1);
                    assert((k - 60) / 2 == material && (k - 60) % 2 == z + 1);
                    assert(b == spec_demo_block(k));
                }
                blocks.push(b);
                z = z + 1;
            }
            material = material + 1;
        }
        proof {
            assert(blocks@ =~= Seq::new(72, |i: int| spec_demo_block(i)));
        }
        Demo { blocks, tool: NO_TOOL }
    }

    /// One wheel notch moves one position along the wheel, wrapping at both ends.
    pub fn cycle(&mut self, wheel: i32)
        ensures
            final(self).blocks == old(self).blocks,
            final(self).tool == WHEEL_ORDER[(wheel_index(old(self).tool) + spec_signum(wheel)) % 7],
    {
        let at: i32 = if self.tool == 0 { 0 } else if self.tool == 1 { 1 } else if self.tool == 2 { 2 }
            else if self.tool == TOOL_35 { 3 } else if self.tool == 3 { 4 } else if self.tool == TOOL_6 { 5 }
            else { 6 };
        let step: i32 = if wheel > 0 { 1 } else if wheel < 0 { -1 } else { 0 };
        let next = (at + step + 7) % 7;
        proof {
            assert((at + step + 7) % 7 == (at + step) % 7) by {
                vstd::arithmetic::div_mod::lemma_mod_add_multiples_vanish(at + step, 7);
            }
        }
        self.tool = WHEEL_ORDER[next as usize];
    }

    pub fn tool_id(&self) -> (r: &'static str)
        ensures
            r@ == if self.tool < 6 { TOOL_IDS[self.tool as int]@ } else { "0"@ },
    {
        if self.tool < 6 { TOOL_IDS[self.tool] } else { "0" }
    }

    pub fn tool_name(&self) -> (r: &'static str)
        ensures
            r@ == if self.tool < 6 { TOOL_NAMES[self.tool as int]@ } else { "none"@ },
    {
        if self.tool < 6 { TOOL_NAMES[self.tool] } else { "none" }
    }
}

/// A click is armed on press and committed on release; a hold repeats on frames.
pub struct MiningGesture {
    pressed: Option<(MiningTarget, u64)>,
    automatic: bool,
    next_mine: u64,
}

/// The gesture's state: the armed target and press time, whether the hold
/// has turned automatic, and the earliest time of the next automatic cut.
pub struct GestureState {
    pub pressed: Option<(MiningTarget, u64)>,
    pub automatic: bool,
    pub next_mine: u64,
}

pub open spec fn idle_gesture() -> GestureState {
    GestureState { pressed: None, automatic: false, next_mine: 0 }
}

/// After `observe`: a manual press aimed anywhere else is dropped.
pub open spec fn spec_observe(g: GestureState, target: Option<MiningTarget>) -> GestureState {
    if !g.automatic && g.pressed is Some && Some((g.pressed->0).0) != target {
        idle_gesture()
    } else {
        g
    }
}

pub open spec fn spec_tick(g: GestureState, target: Option<MiningTarget>, now: u64) -> (GestureState, Option<MiningTarget>) {
    let o = spec_observe(g, target);
    match o.pressed {
        None => (o, None),
        Some(p) => {
            let started = p.1;
            if !o.automatic && now - started < 2000 {
                (o, None)
            } else {
                let next = if o.automatic { o.next_mine } else { now };
                if now < next {
                    (GestureState { automatic: true, next_mine: next, ..o }, None)
                } else {
                    (GestureState {
                        automatic: true,
                        next_mine: if now + 100 > u64::MAX { u64::MAX } else { (now + 100) as u64 },
                        ..o
                    }, target)
                }
            }
        },
    }
}

impl View for MiningGesture {
    type V = GestureState;

    closed spec fn view(&self) -> GestureState {
        GestureState { pressed: self.pressed, automatic: self.automatic, next_mine: self.next_mine }
    }
}

impl MiningGesture {
    pub fn default() -> (g: Self)
        ensures
            g@ == idle_gesture(),
    {
        MiningGesture { pressed: None, automatic: false, next_mine: 0 }
    }

    pub fn cancel(&mut self)
        ensures
            final(self)@ == idle_gesture(),
    {
        *self = Self::default();
    }

    pub fn press(&mut self, target: Option<MiningTarget>, now: u64)
        ensures
            final(self)@ == (GestureState {
                pressed: match target {
                    Some(t) => Some((t, now)),
                    None => None,
                },
                ..idle_gesture()
            }),
    {
        self.cancel();
        self.pressed = match target {
            Some(t) => Some((t, now)),
            None => None,
        };
    }

    pub fn observe(&mut self, target: Option<MiningTarget>)
        ensures
            final(self)@ == spec_observe(old(self)@, target),
    {
        if !self.automatic {
            if let Some((t, _)) = self.pressed {
                if Some(t) != target {
                    self.cancel();
                }
            }
        }
    }

    /// Release commits the armed target only for a click still aimed at it.
    pub fn release(&mut self, target: Option<MiningTarget>) -> (r: Option<MiningTarget>)
        ensures
            final(self)@ == idle_gesture(),
            r == match old(self)@.pressed {
                Some(p) => if !old(self)@.automatic && Some(p.0) == target { Some(p.0) } else { None },
                None => None,
            },
    {
        let cut = match self.pressed {
            Some((t, _)) => if !self.automatic && Some(t) == target { Some(t) } else { None },
            None => None,
        };
        self.cancel();
        cut
    }

    /// A hold turns automatic after two seconds, then cuts at most every 100 ms.
    pub fn tick(&mut self, target: Option<MiningTarget>, now: u64) -> (r: Option<MiningTarget>)
        ensures
            (final(self)@, r) == spec_tick(old(self)@, target, now),
    {
        self.observe(target);
        let started = match self.pressed {
            Some((_, s)) => s,
            None => {
                return None;
            },
        };
        if !self.automatic {
            if now.saturating_sub(started) < 2000 {
                return None;
            }
            self.automatic = true;
            self.next_mine = now;
        }
        if now < self.next_mine {
            return None;
        }
        // No catch-up bursts after a slow frame or a period without a target.
        self.next_mine = now.saturating_add(100);
        target
    }
}


pub open spec fn cube(x: int) -> int {
    x * x * x
}

/// Total volume of a list of blocks, in cubic ticks.
pub open spec fn volume(s: Seq<Block>) -> int
    decreases s.len(),
{
    if s.len() == 0 {
        0
    } else {
        volume(s.drop_last()) + cube(s.last().side as int)
    }
}

proof fn lemma_volume_single(b: Block)
    ensures
        volume(seq![b]) == cube(b.side as int),
{
    assert(seq![b].drop_last() =~= Seq::<Block>::empty());
    assert(seq![b].len() == 1);
    assert(seq![b].last() == b);
    assert(volume(Seq::<Block>::empty()) == 0);
}

proof fn lemma_volume_concat(a: Seq<Block>, b: Seq<Block>)
    ensures
        volume(a + b) == volume(a) + volume(b),
    decreases b.len(),
{
    if b.len() > 0 {
        assert((a + b).drop_last() =~= a + b.drop_last());
        lemma_volume_concat(a, b.drop_last());
    } else {
        assert(a + b =~= a);
    }
}

proof fn lemma_volume_same_side(s: Seq<Block>, side: int)
    requires
        forall|k: int| 0 <= k < s.len() ==> #[trigger] s[k].side == side,
    ensures
        volume(s) == s.len() * cube(side),
    decreases s.len(),
{
    if s.len() > 0 {
        lemma_volume_same_side(s.drop_last(), side);
        assert(s.last().side == side);
        assert(volume(s) == (s.len() - 1) * cube(side) + cube(side));
        assert((s.len() - 1) * cube(side) + cube(side) == s.len() * cube(side)) by (nonlinear_arith);
    }
}

/// How many blocks of `s` hold `cut`.
pub open spec fn count_holding(s: Seq<Block>, cut: Block) -> int
    decreases s.len(),
{
    if s.len() == 0 {
        0
    } else {
        count_holding(s.drop_last(), cut) + if inside(cut, s.last()) { 1int } else { 0 }
    }
}

proof fn lemma_count_one(s: Seq<Block>, cut: Block, i0: int)
    requires
        0 <= i0 < s.len(),
        forall|k: int| 0 <= k < s.len() ==> (#[trigger] inside(cut, s[k]) <==> k == i0),
    ensures
        count_holding(s, cut) == 1,
    decreases s.len(),
{
    if i0 < s.len() - 1 {
        assert forall|k: int| 0 <= k < s.drop_last().len() implies (#[trigger] inside(cut, s.drop_last()[k]) <==> k == i0) by {
            assert(s.drop_last()[k] == s[k]);
        }
        lemma_count_one(s.drop_last(), cut, i0);
        assert(!inside(cut, s[s.len() - 1]));
    } else {
        lemma_count_none(s.drop_last(), cut);
        assert(inside(cut, s[s.len() - 1]));
    }
}

proof fn lemma_count_none(s: Seq<Block>, cut: Block)
    requires
        forall|k: int| 0 <= k < s.len() ==> !#[trigger] inside(cut, s[k]),
    ensures
        count_holding(s, cut) == 0,
    decreases s.len(),
{
    if s.len() > 0 {
        assert forall|k: int| 0 <= k < s.drop_last().len() implies !#[trigger] inside(cut, s.drop_last()[k]) by {
            assert(s.drop_last()[k] == s[k]);
        }
        lemma_count_none(s.drop_last(), cut);
        assert(!inside(cut, s[s.len() - 1]));
    }
}

proof fn lemma_without_kids_volume(kids: Seq<Block>, cut: Block, bound: int)
    requires
        forall|k: int| 0 <= k < kids.len() && #[trigger] inside(cut, kids[k]) ==> 0 <= kids[k].side < bound
            && volume(spec_without(kids[k], cut)) == cube(kids[k].side as int) - cube(cut.side as int),
    ensures
        volume(without_kids(kids, cut, bound)) == volume(kids) - cube(cut.side as int) * count_holding(
            kids,
            cut,
        ),
    decreases kids.len(),
{
    if kids.len() > 0 {
        assert forall|k: int| 0 <= k < kids.drop_last().len() && #[trigger] inside(cut, kids.drop_last()[k])
            implies 0 <= kids.drop_last()[k].side < bound && volume(spec_without(kids.drop_last()[k], cut))
            == cube(kids.drop_last()[k].side as int) - cube(cut.side as int) by {
            assert(kids.drop_last()[k] == kids[k]);
        }
        lemma_without_kids_volume(kids.drop_last(), cut, bound);
        let last = kids.last();
        assert(last == kids[kids.len() - 1]);
        let tail = if inside(cut, last) && 0 <= last.side < bound {
            spec_without(last, cut)
        } else {
            seq![last]
        };
        lemma_volume_concat(without_kids(kids.drop_last(), cut, bound), tail);
        lemma_volume_single(last);
        assert(volume(kids) == volume(kids.drop_last()) + cube(last.side as int));
        if inside(cut, last) {
            assert(volume(tail) == cube(last.side as int) - cube(cut.side as int));
        } else {
            assert(volume(tail) == cube(last.side as int));
        }
        let c = cube(cut.side as int);
        let m = count_holding(kids.drop_last(), cut);
        assert(c * m + (if inside(cut, last) { c } else { 0 }) == c * count_holding(kids, cut)) by (nonlinear_arith)
            requires count_holding(kids, cut) == m + if inside(cut, last) { 1int } else { 0 };
    }
}

/// Per axis: with `c` dividing both `s` and the offset, the cell of side `s`
/// whose index is `off / s` is the only one that holds `[off, off + c)`.
proof fn lemma_axis_cell(off: int, c: int, s: int, q: int)
    requires
        c > 0,
        s > 0,
        s % c == 0,
        off >= 0,
        off % c == 0,
        0 <= q,
    ensures
        (q * s <= off && off + c <= q * s + s) <==> q == off / s,
{
    vstd::arithmetic::div_mod::lemma_fundamental_div_mod(off, s);
    vstd::arithmetic::div_mod::lemma_mod_bound(off, s);
    let qq = off / s;
    let r = off % s;
    // r is a multiple of c below s, so it leaves room for the cut.
    lemma_multiple_of_divisor(qq, s, c);
    assert(off - qq * s == r) by (nonlinear_arith) requires off == s * qq + r;
    lemma_sub_multiples(off, qq * s, c);
    vstd::arithmetic::div_mod::lemma_fundamental_div_mod(r, c);
    vstd::arithmetic::div_mod::lemma_fundamental_div_mod(s, c);
    let i = r / c;
    let j = s / c;
    assert(r + c <= s) by (nonlinear_arith)
        requires r == c * i + r % c, r % c == 0, s == c * j + s % c, s % c == 0, r < s, c > 0;
    if q * s <= off && off + c <= q * s + s {
        assert(q == qq) by (nonlinear_arith)
            requires q * s <= off, off < q * s + s, off == s * qq + r, 0 <= r < s, s > 0;
    }
    if q == qq {
        assert(q * s <= off && off + c <= q * s + s) by (nonlinear_arith)
            requires q == qq, off == s * qq + r, 0 <= r, r + c <= s;
    }
}

proof fn lemma_recompose(k: int, n: int)
    requires
        n > 0,
        0 <= k,
    ensures
        k == (k / (n * n)) * n * n + ((k / n) % n) * n + k % n,
{
    vstd::arithmetic::div_mod::lemma_fundamental_div_mod(k, n);
    vstd::arithmetic::div_mod::lemma_fundamental_div_mod(k / n, n);
    vstd::arithmetic::div_mod::lemma_div_denominator(k, n, n);
    assert(k == (k / (n * n)) * n * n + ((k / n) % n) * n + k % n) by (nonlinear_arith)
        requires k == n * (k / n) + k % n, k / n == n * ((k / n) / n) + (k / n) % n, (k / n) / n == k / (n * n);
}

/// In the lattice of a block, exactly one cell holds a cut aligned to the
/// cut's own side, when that side divides the cell's.
proof fn lemma_lattice_unique(b: Block, s: int, n: int, cut: Block)
    requires
        s > 0,
        n > 0,
        n * s == b.side,
        bounded(b),
        cut.side > 0,
        s % (cut.side as int) == 0,
        inside(cut, b),
        (cut.min[0] - b.min[0]) % (cut.side as int) == 0,
        (cut.min[1] - b.min[1]) % (cut.side as int) == 0,
        (cut.min[2] - b.min[2]) % (cut.side as int) == 0,
    ensures
        ({
            let i0 = ((cut.min[0] - b.min[0]) / s) * n * n + ((cut.min[1] - b.min[1]) / s) * n + (cut.min[2]
                - b.min[2]) / s;
            &&& 0 <= i0 < n * n * n
            &&& forall|k: int| 0 <= k < n * n * n ==> (#[trigger] inside(cut, lattice_at(b, s, n, k)) <==> k == i0)
            &&& lattice_at(b, s, n, i0).min[0] == b.min[0] + ((cut.min[0] - b.min[0]) / s) * s
            &&& lattice_at(b, s, n, i0).min[1] == b.min[1] + ((cut.min[1] - b.min[1]) / s) * s
            &&& lattice_at(b, s, n, i0).min[2] == b.min[2] + ((cut.min[2] - b.min[2]) / s) * s
        }),
{
    let c = cut.side as int;
    let o0 = cut.min[0] - b.min[0];
    let o1 = cut.min[1] - b.min[1];
    let o2 = cut.min[2] - b.min[2];
    let q0 = o0 / s;
    let q1 = o1 / s;
    let q2 = o2 / s;
    assert(0 <= q0 < n && 0 <= q1 < n && 0 <= q2 < n) by {
        vstd::arithmetic::div_mod::lemma_div_pos_is_pos(o0, s);
        vstd::arithmetic::div_mod::lemma_div_pos_is_pos(o1, s);
        vstd::arithmetic::div_mod::lemma_div_pos_is_pos(o2, s);
        vstd::arithmetic::div_mod::lemma_fundamental_div_mod(o0, s);
        vstd::arithmetic::div_mod::lemma_fundamental_div_mod(o1, s);
        vstd::arithmetic::div_mod::lemma_fundamental_div_mod(o2, s);
        vstd::arithmetic::div_mod::lemma_mod_bound(o0, s);
        vstd::arithmetic::div_mod::lemma_mod_bound(o1, s);
        vstd::arithmetic::div_mod::lemma_mod_bound(o2, s);
        assert(q0 < n) by (nonlinear_arith) requires o0 == s * q0 + o0 % s, 0 <= o0 % s, o0 < n * s, s > 0;
        assert(q1 < n) by (nonlinear_arith) requires o1 == s * q1 + o1 % s, 0 <= o1 % s, o1 < n * s, s > 0;
        assert(q2 < n) by (nonlinear_arith) requires o2 == s * q2 + o2 % s, 0 <= o2 % s, o2 < n * s, s > 0;
    }
    let i0 = q0 * n * n + q1 * n + q2;
    lemma_decode(q0, q1, q2, n);
    assert(0 <= i0 < n * n * n) by (nonlinear_arith)
        requires i0 == q0 * n * n + q1 * n + q2, 0 <= q0 < n, 0 <= q1 < n, 0 <= q2 < n;
    lemma_lattice_cell(b, s, n, i0);
    assert forall|k: int| 0 <= k < n * n * n implies (#[trigger] inside(cut, lattice_at(b, s, n, k)) <==> k == i0) by {
        lemma_lattice_cell(b, s, n, k);
        let k0 = k / (n * n);
        let k1 = (k / n) % n;
        let k2 = k % n;
        assert(0 <= k0) by { vstd::arithmetic::div_mod::lemma_div_pos_is_pos(k, n * n); }
        assert(0 <= k1) by { vstd::arithmetic::div_mod::lemma_mod_bound(k / n, n); }
        assert(0 <= k2) by { vstd::arithmetic::div_mod::lemma_mod_bound(k, n); }
        lemma_axis_cell(o0, c, s, k0);
        lemma_axis_cell(o1, c, s, k1);
        lemma_axis_cell(o2, c, s, k2);
        lemma_recompose(k, n);
    }
}

/// Removing a cut on its own lattice leaves exactly the parent's volume less the cut's.
proof fn lemma_without_volume(b: Block, cut: Block)
    requires
        bounded(b),
        bounded(cut),
        cut.side > 0,
        descends(b.side as int, cut.side as int),
        inside(cut, b),
        (cut.min[0] - b.min[0]) % (cut.side as int) == 0,
        (cut.min[1] - b.min[1]) % (cut.side as int) == 0,
        (cut.min[2] - b.min[2]) % (cut.side as int) == 0,
        cut.material == b.material,
    ensures
        volume(spec_without(b, cut)) == cube(b.side as int) - cube(cut.side as int),
    decreases b.side,
{
    if b.side == cut.side {
        assert(cut.min =~= b.min);
        assert(cut == b);
    } else {
        lemma_split(b.side as int);
        lemma_children(b);
        let s = split_side(b.side as int);
        let n = (b.side as int) / s;
        let kids = spec_children(b);
        lemma_descends_divides(s, cut.side as int);
        assert forall|k: int| 0 <= k < kids.len() && #[trigger] inside(cut, kids[k]) implies 0 <= kids[k].side
            < b.side && volume(spec_without(kids[k], cut)) == cube(kids[k].side as int) - cube(
            cut.side as int,
        ) by {
            let kid = kids[k];
            assert(kid == lattice_at(b, s, n, k));
            lemma_lattice_cell(b, s, n, k);
            let c = cut.side as int;
            let q0 = k / (n * n);
            let q1 = (k / n) % n;
            let q2 = k % n;
            lemma_multiple_of_divisor(q0, s, c);
            lemma_multiple_of_divisor(q1, s, c);
            lemma_multiple_of_divisor(q2, s, c);
            lemma_sub_multiples(cut.min[0] - b.min[0], q0 * s, c);
            lemma_sub_multiples(cut.min[1] - b.min[1], q1 * s, c);
            lemma_sub_multiples(cut.min[2] - b.min[2], q2 * s, c);
            lemma_without_volume(kid, cut);
        }
        lemma_without_kids_volume(kids, cut, b.side as int);
        lemma_lattice_unique(b, s, n, cut);
        let i0 = ((cut.min[0] - b.min[0]) / s) * n * n + ((cut.min[1] - b.min[1]) / s) * n + (cut.min[2]
            - b.min[2]) / s;
        assert forall|k: int| 0 <= k < kids.len() implies (#[trigger] inside(cut, kids[k]) <==> k == i0) by {
            assert(kids[k] == lattice_at(b, s, n, k));
        }
        lemma_count_one(kids, cut, i0);
        assert forall|k: int| 0 <= k < kids.len() implies #[trigger] kids[k].side == s by {
            lemma_lattice_cell(b, s, n, k);
        }
        lemma_volume_same_side(kids, s);
        assert(kids.len() * cube(s) == cube(b.side as int)) by (nonlinear_arith)
            requires kids.len() == n * n * n, b.side == n * s;
        assert(b != cut);
    }
}


/// How many blocks of `s` equal `cut`.
pub open spec fn count_equal(s: Seq<Block>, cut: Block) -> int
    decreases s.len(),
{
    if s.len() == 0 {
        0
    } else {
        count_equal(s.drop_last(), cut) + if s.last() == cut { 1int } else { 0 }
    }
}

proof fn lemma_drop_cut_volume(s: Seq<Block>, cut: Block)
    ensures
        volume(drop_cut(s, cut)) == volume(s) - cube(cut.side as int) * count_equal(s, cut),
    decreases s.len(),
{
    if s.len() > 0 {
        lemma_drop_cut_volume(s.drop_last(), cut);
        let last = s.last();
        let tail = if last == cut { Seq::<Block>::empty() } else { seq![last] };
        lemma_volume_concat(drop_cut(s.drop_last(), cut), tail);
        lemma_volume_single(last);
        let c = cube(cut.side as int);
        let m = count_equal(s.drop_last(), cut);
        assert(c * m + (if last == cut { c } else { 0 }) == c * count_equal(s, cut)) by (nonlinear_arith)
            requires count_equal(s, cut) == m + if last == cut { 1int } else { 0 };
    }
}

proof fn lemma_count_equal_one(s: Seq<Block>, cut: Block, i0: int)
    requires
        0 <= i0 < s.len(),
        forall|k: int| 0 <= k < s.len() ==> (#[trigger] s[k] == cut <==> k == i0),
    ensures
        count_equal(s, cut) == 1,
    decreases s.len(),
{
    if i0 < s.len() - 1 {
        assert forall|k: int| 0 <= k < s.drop_last().len() implies (#[trigger] s.drop_last()[k] == cut <==> k == i0) by {
            assert(s.drop_last()[k] == s[k]);
        }
        lemma_count_equal_one(s.drop_last(), cut, i0);
        assert(s[s.len() - 1] != cut);
    } else {
        lemma_count_equal_none(s.drop_last(), cut);
        assert(s[s.len() - 1] == cut);
    }
}

proof fn lemma_count_equal_none(s: Seq<Block>, cut: Block)
    requires
        forall|k: int| 0 <= k < s.len() ==> #[trigger] s[k] != cut,
    ensures
        count_equal(s, cut) == 0,
    decreases s.len(),
{
    if s.len() > 0 {
        assert forall|k: int| 0 <= k < s.drop_last().len() implies #[trigger] s.drop_last()[k] != cut by {
            assert(s.drop_last()[k] == s[k]);
        }
        lemma_count_equal_none(s.drop_last(), cut);
        assert(s[s.len() - 1] != cut);
    }
}

/// A uniform split into cubes of the cut's side, the cut on that lattice,
/// keeps all of the parent's volume but the cut's.
proof fn lemma_uniform_volume(b: Block, cut: Block, n: int)
    requires
        bounded(b),
        cut.side > 0,
        n > 0,
        n * cut.side == b.side,
        inside(cut, b),
        (cut.min[0] - b.min[0]) % (cut.side as int) == 0,
        (cut.min[1] - b.min[1]) % (cut.side as int) == 0,
        (cut.min[2] - b.min[2]) % (cut.side as int) == 0,
        cut.material == b.material,
    ensures
        volume(spec_uniform(b, cut)) == cube(b.side as int) - cube(cut.side as int),
{
    let c = cut.side as int;
    assert(tdiv(b.side as int, c) == n) by {
        vstd::arithmetic::div_mod::lemma_div_multiples_vanish(n, c);
        assert(n * c == c * n) by (nonlinear_arith);
    }
    vstd::arithmetic::div_mod::lemma_mod_self_0(c);
    lemma_lattice_unique(b, c, n, cut);
    let kids = lattice(b, c, n);
    let i0 = ((cut.min[0] - b.min[0]) / c) * n * n + ((cut.min[1] - b.min[1]) / c) * n + (cut.min[2]
        - b.min[2]) / c;
    assert forall|k: int| 0 <= k < kids.len() implies (#[trigger] kids[k] == cut <==> k == i0) by {
        lemma_lattice_cell(b, c, n, k);
        let kid = kids[k];
        if inside(cut, kid) {
            assert(kid.min =~= cut.min);
        }
    }
    lemma_count_equal_one(kids, cut, i0);
    lemma_drop_cut_volume(kids, cut);
    assert forall|k: int| 0 <= k < kids.len() implies #[trigger] kids[k].side == c by {
        lemma_lattice_cell(b, c, n, k);
    }
    lemma_volume_same_side(kids, c);
    assert(kids.len() * cube(c) == cube(b.side as int)) by (nonlinear_arith)
        requires kids.len() == n * n * n, b.side == n * c;
}

proof fn lemma_six_volume(kids: Seq<Block>, source: Block, cut: Block, i0: int)
    requires
        0 <= i0 < kids.len(),
        forall|k: int| 0 <= k < kids.len() ==> (#[trigger] kids[k] == source <==> k == i0),
        cut != source,
        volume(spec_uniform(source, cut)) == cube(source.side as int) - cube(cut.side as int),
    ensures
        volume(six_kids(kids, source, cut)) == volume(kids) - cube(cut.side as int),
    decreases kids.len(),
{
    let last = kids.last();
    lemma_volume_single(last);
    if i0 < kids.len() - 1 {
        assert forall|k: int| 0 <= k < kids.drop_last().len() implies (#[trigger] kids.drop_last()[k] == source
            <==> k == i0) by {
            assert(kids.drop_last()[k] == kids[k]);
        }
        lemma_six_volume(kids.drop_last(), source, cut, i0);
        assert(kids[kids.len() - 1] != source);
        lemma_volume_concat(six_kids(kids.drop_last(), source, cut), seq![last]);
    } else {
        assert(kids[kids.len() - 1] == source);
        lemma_six_none(kids.drop_last(), source, cut);
        lemma_volume_concat(six_kids(kids.drop_last(), source, cut), spec_uniform(source, cut));
    }
}

proof fn lemma_six_none(kids: Seq<Block>, source: Block, cut: Block)
    requires
        forall|k: int| 0 <= k < kids.len() ==> #[trigger] kids[k] != source,
    ensures
        six_kids(kids, source, cut) == kids,
    decreases kids.len(),
{
    if kids.len() > 0 {
        assert forall|k: int| 0 <= k < kids.drop_last().len() implies #[trigger] kids.drop_last()[k] != source by {
            assert(kids.drop_last()[k] == kids[k]);
        }
        lemma_six_none(kids.drop_last(), source, cut);
        assert(kids[kids.len() - 1] != source);
        assert(kids.drop_last() + seq![kids.last()] =~= kids);
    } else {
        assert(kids =~= Seq::<Block>::empty());
    }
}

/// Mining conserves volume: every tool but 3.5 replaces the parent by pieces
/// whose volume, together with the removed cut, is exactly the parent's.
pub proof fn lemma_mine_volume(tool: usize, t: MiningTarget)
    requires
        bounded(t.parent),
        bounded(t.cut),
        valid_target(tool, t),
        t.cut != t.parent,
        tool != TOOL_35,
    ensures
        volume(spec_replace(tool, t.parent, t)) + cube(t.cut.side as int) == cube(t.parent.side as int),
{
    let p = t.parent;
    let c = t.cut;
    let cs = c.side as int;
    assert(p.side != c.side);
    assert(inside(c, p));
    if tool == TOOL_6 && p.side == 24 {
        // Halves of the c1; the one holding the cut is quartered.
        lemma_split(24);
        let kids = spec_children(p);
        assert(kids == lattice(p, 12, 2));
        assert(12int % cs == 0);
        lemma_lattice_unique(p, 12, 2, c);
        let i0 = ((c.min[0] - p.min[0]) / 12) * 2 * 2 + ((c.min[1] - p.min[1]) / 12) * 2 + (c.min[2]
            - p.min[2]) / 12;
        let source = spec_collection_source(t);
        assert(source.min =~= lattice_at(p, 12, 2, i0).min);
        assert(source == lattice_at(p, 12, 2, i0));
        lemma_lattice_cell(p, 12, 2, i0);
        assert forall|k: int| 0 <= k < kids.len() implies (#[trigger] kids[k] == source <==> k == i0) by {
            lemma_lattice_cell(p, 12, 2, k);
            if kids[k] == source {
                assert(inside(c, kids[k]));
            }
        }
        // Within the source half, the cut keeps its c1/8 alignment.
        let q0 = (c.min[0] - p.min[0]) / 12;
        let q1 = (c.min[1] - p.min[1]) / 12;
        let q2 = (c.min[2] - p.min[2]) / 12;
        lemma_multiple_of_divisor(q0, 12, cs);
        lemma_multiple_of_divisor(q1, 12, cs);
        lemma_multiple_of_divisor(q2, 12, cs);
        lemma_sub_multiples(c.min[0] - p.min[0], q0 * 12, cs);
        lemma_sub_multiples(c.min[1] - p.min[1], q1 * 12, cs);
        lemma_sub_multiples(c.min[2] - p.min[2], q2 * 12, cs);
        lemma_uniform_volume(source, c, 4);
        lemma_six_volume(kids, source, c, i0);
        assert forall|k: int| 0 <= k < kids.len() implies #[trigger] kids[k].side == 12 by {
            lemma_lattice_cell(p, 12, 2, k);
        }
        lemma_volume_same_side(kids, 12);
    } else if p.side == 24 || tool == TOOL_6 {
        if p.side == 24 {
            lemma_uniform_volume(p, c, 2);
        } else {
            lemma_uniform_volume(p, c, 4);
        }
    } else {
        reveal_with_fuel(descends, 4);
        assert(descends(p.side as int, cs));
        lemma_without_volume(p, c);
    }
}

} // verus!
