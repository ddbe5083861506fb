//! The 3x3x3 world puzzle: exact cubie identities and lattice orientations.
//! Turns are committed as exact quarter rotations of integer vectors, so an
//! animation never accumulates drift.
use vstd::prelude::*;

verus! {

pub const PALETTE_FLAG: u32 = 256;
/// Shade an entire key-1 room wall with its matching Rubik palette colour.
pub const ROOM_PALETTE_FLAG: u32 = 0x2000;
/// Shade Key-3 seeds from their sphere position rather than the base material.
pub const SPHERE_GRADIENT_FLAG: u32 = 0x4000;
/// Key 7 combines the otherwise-exclusive room and sphere bits. Bits 0..2
/// select one of six fixed metallic/roughness records in the cube shader.
pub const MATERIAL_SHOWCASE_FLAG: u32 = 0x6000;
/// Duration of one animated quarter turn, in milliseconds.
pub const TURN_MS: u64 = 1000;
/// Delay between selecting a cubie and its first turn, in milliseconds.
pub const OPEN_MS: u64 = 1000;
/// Seed of the turn chooser of a fresh puzzle.
pub const RNG_SEED: u32 = 0x6d2b_79f5;

/// One cubie: its lattice cell and the images of the three solved axes.
#[derive(Clone, Copy, Debug)]
pub struct Cubie {
    pub cell: [i8; 3],
    pub basis: [[i8; 3]; 3],
}

/// A quarter turn of one layer about one axis.
#[derive(Clone, Copy, Debug)]
pub struct Turn {
    pub axis: usize,
    pub layer: i8,
    pub direction: i8,
    pub started: u64,
}

/// Everything of the puzzle but its cubies.
#[derive(Clone, Copy, Debug)]
pub struct Progress {
    pub turn: Option<Turn>,
    pub selected: Option<usize>,
    pub opened: u64,
    pub completed: u8,
    pub previous_axis: Option<usize>,
    pub rng: u32,
    pub revision: u64,
}

pub struct Puzzle {
    cubies: Vec<Cubie>,
    progress: Progress,
}

// ---------------------------------------------------------------------------
// Lattice model
// ---------------------------------------------------------------------------

/// Every component is -1, 0 or 1.
pub open spec fn unit3(v: [i8; 3]) -> bool {
    &&& -1 <= v[0] <= 1
    &&& -1 <= v[1] <= 1
    &&& -1 <= v[2] <= 1
}

pub open spec fn dot(u: [i8; 3], v: [i8; 3]) -> int {
    u[0] * v[0] + u[1] * v[1] + u[2] * v[2]
}

pub open spec fn cells_differ(u: [i8; 3], v: [i8; 3]) -> bool {
    u[0] != v[0] || u[1] != v[1] || u[2] != v[2]
}

pub open spec fn same_cell(u: [i8; 3], v: [i8; 3]) -> bool {
    u[0] == v[0] && u[1] == v[1] && u[2] == v[2]
}

pub open spec fn nonzero_count(v: [i8; 3]) -> int {
    (if v[0] != 0 { 1int } else { 0int }) + (if v[1] != 0 { 1int } else { 0int }) + (if v[2]
        != 0 {
        1int
    } else {
        0int
    })
}

/// The quarter rotation of `v` about `axis`, positive for `d == 1`.
pub open spec fn spec_rotate(v: [i8; 3], axis: int, d: int) -> [i8; 3] {
    if axis == 0 {
        [v[0], (-d * v[2]) as i8, (d * v[1]) as i8]
    } else if axis == 1 {
        [(d * v[2]) as i8, v[1], (-d * v[0]) as i8]
    } else {
        [(-d * v[1]) as i8, (d * v[0]) as i8, v[2]]
    }
}

pub open spec fn valid_turn(t: Turn) -> bool {
    &&& t.axis < 3
    &&& t.direction == 1 || t.direction == -1
    &&& -1 <= t.layer <= 1
}

/// What one committed turn does to one cubie: the cubies of the turning
/// layer rotate their cell and their basis; the others stay.
pub open spec fn spec_turn_cubie(c: Cubie, t: Turn) -> Cubie {
    if c.cell[t.axis as int] == t.layer {
        Cubie {
            cell: spec_rotate(c.cell, t.axis as int, t.direction as int),
            basis: [
                spec_rotate(c.basis[0], t.axis as int, t.direction as int),
                spec_rotate(c.basis[1], t.axis as int, t.direction as int),
                spec_rotate(c.basis[2], t.axis as int, t.direction as int),
            ],
        }
    } else {
        c
    }
}

pub open spec fn spec_commit(s: Seq<Cubie>, t: Turn) -> Seq<Cubie> {
    Seq::new(s.len(), |k: int| spec_turn_cubie(s[k], t))
}

/// The solved cell of cubie `i`: x runs fastest, then y, then z.
pub open spec fn home_cell(i: int) -> [i8; 3] {
    [(i % 3 - 1) as i8, ((i / 3) % 3 - 1) as i8, (i / 9 - 1) as i8]
}

pub open spec fn orthonormal(b: [[i8; 3]; 3]) -> bool {
    &&& dot(b[0], b[0]) == 1
    &&& dot(b[1], b[1]) == 1
    &&& dot(b[2], b[2]) == 1
    &&& dot(b[0], b[1]) == 0
    &&& dot(b[0], b[2]) == 0
    &&& dot(b[1], b[2]) == 0
}

/// The cell is the image of the solved cell `h` under the basis.
pub open spec fn spans(h: [i8; 3], c: Cubie) -> bool {
    &&& c.cell[0] == h[0] * c.basis[0][0] + h[1] * c.basis[1][0] + h[2] * c.basis[2][0]
    &&& c.cell[1] == h[0] * c.basis[0][1] + h[1] * c.basis[1][1] + h[2] * c.basis[2][1]
    &&& c.cell[2] == h[0] * c.basis[0][2] + h[1] * c.basis[1][2] + h[2] * c.basis[2][2]
}

pub open spec fn cubie_units(c: Cubie) -> bool {
    &&& unit3(c.cell)
    &&& unit3(c.basis[0])
    &&& unit3(c.basis[1])
    &&& unit3(c.basis[2])
}

/// Cubie `i` sits in the lattice with an orthonormal basis that carries its
/// solved cell to its present cell.
pub open spec fn cubie_ok(i: int, c: Cubie) -> bool {
    &&& cubie_units(c)
    &&& orthonormal(c.basis)
    &&& spans(home_cell(i), c)
}

/// Twenty-seven cubies on distinct cells, each rigidly placed.
pub open spec fn lattice_ok(s: Seq<Cubie>) -> bool {
    &&& s.len() == 27
    &&& forall|i: int| 0 <= i < 27 ==> #[trigger] cubie_ok(i, s[i])
    &&& forall|i: int, j: int|
        #![trigger s[i], s[j]]
        0 <= i < j < 27 ==> cells_differ(s[i].cell, s[j].cell)
    &&& forall|v: [i8; 3]| unit3(v) ==> #[trigger] occupied(s, v)
}

/// Some cubie sits on cell `v`.
pub open spec fn occupied(s: Seq<Cubie>, v: [i8; 3]) -> bool {
    exists|i: int| 0 <= i < 27 && same_cell(#[trigger] s[i].cell, v)
}

/// The cubie on cell `v`; unique in a lattice where cells are distinct.
pub open spec fn occupant(s: Seq<Cubie>, v: [i8; 3]) -> int {
    choose|i: int| 0 <= i < 27 && same_cell(#[trigger] s[i].cell, v)
}

/// In a well-placed lattice the cubie found on a cell is its occupant.
pub proof fn lemma_occupant(s: Seq<Cubie>, i: int, v: [i8; 3])
    requires
        lattice_ok(s),
        0 <= i < 27,
        same_cell(s[i].cell, v),
    ensures
        occupant(s, v) == i,
{
    let o = occupant(s, v);
    assert(0 <= o < 27 && same_cell(s[o].cell, v));
    if o < i {
        assert(cells_differ(s[o].cell, s[i].cell));
    } else if i < o {
        assert(cells_differ(s[i].cell, s[o].cell));
    }
}

/// The index of a solved cell.
pub open spec fn cell_index(v: [i8; 3]) -> int {
    (v[0] + 1) + 3 * (v[1] + 1) + 9 * (v[2] + 1)
}

pub proof fn lemma_cell_index(v: [i8; 3])
    requires
        unit3(v),
    ensures
        0 <= cell_index(v) < 27,
        same_cell(home_cell(cell_index(v)), v),
{
    let i = cell_index(v);
    vstd::arithmetic::div_mod::lemma_fundamental_div_mod_converse(i, 3, 3 * (v[2] + 1) + (v[1] + 1), v[0] + 1);
    vstd::arithmetic::div_mod::lemma_fundamental_div_mod_converse(i / 3, 3, v[2] + 1, v[1] + 1);
    vstd::arithmetic::div_mod::lemma_fundamental_div_mod_converse(i, 9, v[2] + 1, (v[0] + 1) + 3 * (v[1] + 1));
}

pub open spec fn solved_lattice() -> Seq<Cubie> {
    Seq::new(
        27,
        |i: int| Cubie { cell: home_cell(i), basis: [[1i8, 0, 0], [0i8, 1, 0], [0i8, 0, 1]] },
    )
}

// ---------------------------------------------------------------------------
// Lattice lemmas
// ---------------------------------------------------------------------------

proof fn lemma_rotate_vector(v: [i8; 3], axis: int, d: int)
    requires
        unit3(v),
        0 <= axis < 3,
        d == 1 || d == -1,
    ensures
        unit3(spec_rotate(v, axis, d)),
        spec_rotate(v, axis, d)[axis] == v[axis],
        nonzero_count(spec_rotate(v, axis, d)) == nonzero_count(v),
{
}

proof fn lemma_rotate_dot(u: [i8; 3], v: [i8; 3], axis: int, d: int)
    requires
        unit3(u),
        unit3(v),
        0 <= axis < 3,
        d == 1 || d == -1,
    ensures
        dot(spec_rotate(u, axis, d), spec_rotate(v, axis, d)) == dot(u, v),
{
    let ru = spec_rotate(u, axis, d);
    let rv = spec_rotate(v, axis, d);
    if d == 1 {
        assert(dot(ru, rv) == dot(u, v)) by (nonlinear_arith)
            requires
                axis == 0 ==> ru[0] == u[0] && ru[1] == -u[2] && ru[2] == u[1] && rv[0] == v[0]
                    && rv[1] == -v[2] && rv[2] == v[1],
                axis == 1 ==> ru[0] == u[2] && ru[1] == u[1] && ru[2] == -u[0] && rv[0] == v[2]
                    && rv[1] == v[1] && rv[2] == -v[0],
                axis == 2 ==> ru[0] == -u[1] && ru[1] == u[0] && ru[2] == u[2] && rv[0] == -v[1]
                    && rv[1] == v[0] && rv[2] == v[2],
                0 <= axis < 3,
        ;
    } else {
        assert(dot(ru, rv) == dot(u, v)) by (nonlinear_arith)
            requires
                axis == 0 ==> ru[0] == u[0] && ru[1] == u[2] && ru[2] == -u[1] && rv[0] == v[0]
                    && rv[1] == v[2] && rv[2] == -v[1],
                axis == 1 ==> ru[0] == -u[2] && ru[1] == u[1] && ru[2] == u[0] && rv[0] == -v[2]
                    && rv[1] == v[1] && rv[2] == v[0],
                axis == 2 ==> ru[0] == u[1] && ru[1] == -u[0] && ru[2] == u[2] && rv[0] == v[1]
                    && rv[1] == -v[0] && rv[2] == v[2],
                0 <= axis < 3,
        ;
    }
}

proof fn lemma_rotate_spans(h: [i8; 3], c: Cubie, axis: int, d: int)
    requires
        cubie_units(c),
        spans(h, c),
        0 <= axis < 3,
        d == 1 || d == -1,
    ensures
        spans(
            h,
            Cubie {
                cell: spec_rotate(c.cell, axis, d),
                basis: [
                    spec_rotate(c.basis[0], axis, d),
                    spec_rotate(c.basis[1], axis, d),
                    spec_rotate(c.basis[2], axis, d),
                ],
            },
        ),
{
    let n = Cubie {
        cell: spec_rotate(c.cell, axis, d),
        basis: [
            spec_rotate(c.basis[0], axis, d),
            spec_rotate(c.basis[1], axis, d),
            spec_rotate(c.basis[2], axis, d),
        ],
    };
    lemma_rotate_vector(c.cell, axis, d);
    lemma_rotate_vector(c.basis[0], axis, d);
    lemma_rotate_vector(c.basis[1], axis, d);
    lemma_rotate_vector(c.basis[2], axis, d);
    let h0 = h[0] as int;
    let h1 = h[1] as int;
    let h2 = h[2] as int;
    // Each rotated component is a signed copy of an original component, and
    // the linear combination commutes with that copy.
    assert forall|j: int| 0 <= j < 3 implies #[trigger] n.cell[j] == h0 * n.basis[0][j] + h1
        * n.basis[1][j] + h2 * n.basis[2][j] by {
        let src: int = if axis == 0 {
            if j == 1 {
                2
            } else if j == 2 {
                1
            } else {
                0
            }
        } else if axis == 1 {
            if j == 0 {
                2
            } else if j == 2 {
                0
            } else {
                1
            }
        } else {
            if j == 0 {
                1
            } else if j == 1 {
                0
            } else {
                2
            }
        };
        let s: int = if j == axis {
            1
        } else if (axis == 0 && j == 1) || (axis == 1 && j == 2) || (axis == 2 && j == 0) {
            -d
        } else {
            d
        };
        assert(n.cell[j] == s * c.cell[src]);
        assert(n.basis[0][j] == s * c.basis[0][src]);
        assert(n.basis[1][j] == s * c.basis[1][src]);
        assert(n.basis[2][j] == s * c.basis[2][src]);
        assert(c.cell[src] == h0 * c.basis[0][src] + h1 * c.basis[1][src] + h2
            * c.basis[2][src]);
        lemma_signed_combination(
            s,
            c.cell[src] as int,
            h0,
            h1,
            h2,
            c.basis[0][src] as int,
            c.basis[1][src] as int,
            c.basis[2][src] as int,
        );
    }
}

proof fn lemma_signed_combination(s: int, x: int, h0: int, h1: int, h2: int, b0: int, b1: int, b2: int)
    requires
        s == 1 || s == -1,
        x == h0 * b0 + h1 * b1 + h2 * b2,
    ensures
        s * x == h0 * (s * b0) + h1 * (s * b1) + h2 * (s * b2),
{
    if s == 1 {
        assert(s * x == x && s * b0 == b0 && s * b1 == b1 && s * b2 == b2) by (nonlinear_arith)
            requires
                s == 1,
        ;
    } else {
        assert(s * x == -x && s * b0 == -b0 && s * b1 == -b1 && s * b2 == -b2) by (nonlinear_arith)
            requires
                s == -1,
        ;
        vstd::arithmetic::mul::lemma_mul_unary_negation(h0, b0);
        vstd::arithmetic::mul::lemma_mul_unary_negation(h1, b1);
        vstd::arithmetic::mul::lemma_mul_unary_negation(h2, b2);
    }
}

/// `u_j * (h0 b0 + h1 b1 + h2 b2)` spread over the three terms.
proof fn lemma_spread(u: int, h0: int, h1: int, h2: int, b0: int, b1: int, b2: int)
    ensures
        u * (h0 * b0 + h1 * b1 + h2 * b2) == h0 * (u * b0) + h1 * (u * b1) + h2 * (u * b2),
{
    vstd::arithmetic::mul::lemma_mul_is_distributive_add(u, h0 * b0 + h1 * b1, h2 * b2);
    vstd::arithmetic::mul::lemma_mul_is_distributive_add(u, h0 * b0, h1 * b1);
    lemma_swap_factor(u, h0, b0);
    lemma_swap_factor(u, h1, b1);
    lemma_swap_factor(u, h2, b2);
}

proof fn lemma_swap_factor(u: int, h: int, b: int)
    ensures
        u * (h * b) == h * (u * b),
{
    vstd::arithmetic::mul::lemma_mul_is_associative(u, h, b);
    vstd::arithmetic::mul::lemma_mul_is_commutative(u, h);
    vstd::arithmetic::mul::lemma_mul_is_associative(h, u, b);
}

/// One committed turn keeps a rigidly placed cubie rigidly placed, keeps the
/// coordinate along the turn axis, and keeps a zero cell zero.
pub proof fn lemma_turn_keeps_cubie(i: int, c: Cubie, t: Turn)
    requires
        cubie_ok(i, c),
        valid_turn(t),
    ensures
        cubie_ok(i, spec_turn_cubie(c, t)),
        spec_turn_cubie(c, t).cell[t.axis as int] == c.cell[t.axis as int],
        nonzero_count(spec_turn_cubie(c, t).cell) == nonzero_count(c.cell),
{
    if c.cell[t.axis as int] == t.layer {
        let axis = t.axis as int;
        let d = t.direction as int;
        lemma_rotate_vector(c.cell, axis, d);
        lemma_rotate_vector(c.basis[0], axis, d);
        lemma_rotate_vector(c.basis[1], axis, d);
        lemma_rotate_vector(c.basis[2], axis, d);
        lemma_rotate_dot(c.basis[0], c.basis[0], axis, d);
        lemma_rotate_dot(c.basis[1], c.basis[1], axis, d);
        lemma_rotate_dot(c.basis[2], c.basis[2], axis, d);
        lemma_rotate_dot(c.basis[0], c.basis[1], axis, d);
        lemma_rotate_dot(c.basis[0], c.basis[2], axis, d);
        lemma_rotate_dot(c.basis[1], c.basis[2], axis, d);
        lemma_rotate_spans(home_cell(i), c, axis, d);
    }
}

/// Law: a committed turn keeps the lattice a permutation of distinct cells
/// with every cubie rigidly placed.
pub proof fn lemma_commit_keeps_lattice(s: Seq<Cubie>, t: Turn)
    requires
        lattice_ok(s),
        valid_turn(t),
    ensures
        lattice_ok(spec_commit(s, t)),
{
    let n = spec_commit(s, t);
    assert forall|i: int| 0 <= i < 27 implies #[trigger] cubie_ok(i, n[i]) by {
        lemma_turn_keeps_cubie(i, s[i], t);
    }
    assert forall|i: int, j: int| 0 <= i < j < 27 implies cells_differ(n[i].cell, n[j].cell) by {
        assert(cubie_ok(i, s[i]));
        assert(cubie_ok(j, s[j]));
        assert(cells_differ(s[i].cell, s[j].cell));
        lemma_turn_keeps_cubie(i, s[i], t);
        lemma_turn_keeps_cubie(j, s[j], t);
    }
    assert forall|v: [i8; 3]| unit3(v) implies #[trigger] occupied(n, v) by {
        let axis = t.axis as int;
        let d = t.direction as int;
        if v[axis] == t.layer {
            let u1 = spec_rotate(v, axis, d);
            lemma_rotate_vector(v, axis, d);
            let u2 = spec_rotate(u1, axis, d);
            lemma_rotate_vector(u1, axis, d);
            let u = spec_rotate(u2, axis, d);
            lemma_rotate_vector(u2, axis, d);
            lemma_rotate_four(v, axis, d);
            assert(occupied(s, u));
            let i = choose|i: int| 0 <= i < 27 && same_cell(#[trigger] s[i].cell, u);
            assert(s[i].cell =~= u);
            assert(n[i].cell == spec_rotate(u, axis, d));
            assert(same_cell(n[i].cell, v));
        } else {
            assert(occupied(s, v));
            let j = choose|j: int| 0 <= j < 27 && same_cell(#[trigger] s[j].cell, v);
            assert(n[j] == s[j]);
            assert(same_cell(n[j].cell, v));
        }
    }
}

proof fn lemma_rotate_four(v: [i8; 3], axis: int, d: int)
    requires
        unit3(v),
        0 <= axis < 3,
        d == 1 || d == -1,
    ensures
        spec_rotate(spec_rotate(spec_rotate(spec_rotate(v, axis, d), axis, d), axis, d), axis, d)
            == v,
{
    let r1 = spec_rotate(v, axis, d);
    lemma_rotate_vector(v, axis, d);
    let r2 = spec_rotate(r1, axis, d);
    lemma_rotate_vector(r1, axis, d);
    let r3 = spec_rotate(r2, axis, d);
    lemma_rotate_vector(r2, axis, d);
    let r4 = spec_rotate(r3, axis, d);
    assert(r4 =~= v);
}

/// Law: four equal turns restore every cubie's cell and orientation.
pub proof fn lemma_four_turns_restore_cubie(c: Cubie, t: Turn)
    requires
        cubie_units(c),
        valid_turn(t),
    ensures
        spec_turn_cubie(spec_turn_cubie(spec_turn_cubie(spec_turn_cubie(c, t), t), t), t) == c,
{
    if c.cell[t.axis as int] == t.layer {
        let axis = t.axis as int;
        let d = t.direction as int;
        let c1 = spec_turn_cubie(c, t);
        lemma_rotate_vector(c.cell, axis, d);
        lemma_rotate_vector(c.basis[0], axis, d);
        lemma_rotate_vector(c.basis[1], axis, d);
        lemma_rotate_vector(c.basis[2], axis, d);
        let c2 = spec_turn_cubie(c1, t);
        lemma_rotate_vector(c1.cell, axis, d);
        lemma_rotate_vector(c1.basis[0], axis, d);
        lemma_rotate_vector(c1.basis[1], axis, d);
        lemma_rotate_vector(c1.basis[2], axis, d);
        let c3 = spec_turn_cubie(c2, t);
        lemma_rotate_vector(c2.cell, axis, d);
        lemma_rotate_vector(c2.basis[0], axis, d);
        lemma_rotate_vector(c2.basis[1], axis, d);
        lemma_rotate_vector(c2.basis[2], axis, d);
        let c4 = spec_turn_cubie(c3, t);
        lemma_rotate_four(c.cell, axis, d);
        lemma_rotate_four(c.basis[0], axis, d);
        lemma_rotate_four(c.basis[1], axis, d);
        lemma_rotate_four(c.basis[2], axis, d);
        assert(c4.basis =~= c.basis);
    }
}

/// Law: four commits of one turn restore the whole lattice.
pub proof fn lemma_four_commits_restore(s: Seq<Cubie>, t: Turn)
    requires
        lattice_ok(s),
        valid_turn(t),
    ensures
        spec_commit(spec_commit(spec_commit(spec_commit(s, t), t), t), t) == s,
{
    let r = spec_commit(spec_commit(spec_commit(spec_commit(s, t), t), t), t);
    assert forall|k: int| 0 <= k < 27 implies r[k] == s[k] by {
        assert(cubie_ok(k, s[k]));
        lemma_four_turns_restore_cubie(s[k], t);
    }
    assert(r =~= s);
}

/// Law: every sticker of a rigidly placed cubie faces outward, that is the
/// image of a solved face normal points along the cubie's cell.
pub proof fn lemma_outward_sticker(i: int, c: Cubie, axis: int)
    requires
        cubie_ok(i, c),
        0 <= axis < 3,
        home_cell(i)[axis] != 0,
        0 <= i < 27,
    ensures
        home_cell(i)[axis] * dot(c.basis[axis], c.cell) == 1,
{
    let h = home_cell(i);
    assert(-1 <= h[axis] <= 1);
    let b = c.basis;
    let h0 = h[0] as int;
    let h1 = h[1] as int;
    let h2 = h[2] as int;
    let u = b[axis];
    // dot(b_a, cell) = sum_k h_k dot(b_a, b_k) = h_a
    lemma_spread(u[0] as int, h0, h1, h2, b[0][0] as int, b[1][0] as int, b[2][0] as int);
    lemma_spread(u[1] as int, h0, h1, h2, b[0][1] as int, b[1][1] as int, b[2][1] as int);
    lemma_spread(u[2] as int, h0, h1, h2, b[0][2] as int, b[1][2] as int, b[2][2] as int);
    lemma_gather(h0, u[0] as int, u[1] as int, u[2] as int, b[0][0] as int, b[0][1] as int, b[0][2] as int);
    lemma_gather(h1, u[0] as int, u[1] as int, u[2] as int, b[1][0] as int, b[1][1] as int, b[1][2] as int);
    lemma_gather(h2, u[0] as int, u[1] as int, u[2] as int, b[2][0] as int, b[2][1] as int, b[2][2] as int);
    assert(dot(u, c.cell) == h0 * dot(u, b[0]) + h1 * dot(u, b[1]) + h2 * dot(u, b[2]));
    lemma_dot_symmetric(b[0], b[1]);
    lemma_dot_symmetric(b[0], b[2]);
    lemma_dot_symmetric(b[1], b[2]);
    let d0 = dot(u, b[0]);
    let d1 = dot(u, b[1]);
    let d2 = dot(u, b[2]);
    let ha = h[axis] as int;
    assert(ha * (h0 * d0 + h1 * d1 + h2 * d2) == 1) by (nonlinear_arith)
        requires
            axis == 0 ==> d0 == 1 && d1 == 0 && d2 == 0 && ha == h0,
            axis == 1 ==> d0 == 0 && d1 == 1 && d2 == 0 && ha == h1,
            axis == 2 ==> d0 == 0 && d1 == 0 && d2 == 1 && ha == h2,
            0 <= axis < 3,
            ha == 1 || ha == -1,
    ;
}

proof fn lemma_gather(h: int, u0: int, u1: int, u2: int, b0: int, b1: int, b2: int)
    ensures
        h * (u0 * b0) + h * (u1 * b1) + h * (u2 * b2) == h * (u0 * b0 + u1 * b1 + u2 * b2),
{
    assert(h * (u0 * b0) + h * (u1 * b1) + h * (u2 * b2) == h * (u0 * b0 + u1 * b1 + u2 * b2))
        by (nonlinear_arith);
}

proof fn lemma_dot_symmetric(u: [i8; 3], v: [i8; 3])
    ensures
        dot(u, v) == dot(v, u),
{
    vstd::arithmetic::mul::lemma_mul_is_commutative(u[0] as int, v[0] as int);
    vstd::arithmetic::mul::lemma_mul_is_commutative(u[1] as int, v[1] as int);
    vstd::arithmetic::mul::lemma_mul_is_commutative(u[2] as int, v[2] as int);
}

proof fn lemma_home_cells()
    ensures
        forall|i: int| 0 <= i < 27 ==> unit3(#[trigger] home_cell(i)),
        forall|i: int, j: int|
            0 <= i < j < 27 ==> cells_differ(#[trigger] home_cell(i), #[trigger] home_cell(j)),
{
    assert forall|i: int| 0 <= i < 27 implies unit3(#[trigger] home_cell(i)) by {}
    assert forall|i: int, j: int| 0 <= i < j < 27 implies cells_differ(
        #[trigger] home_cell(i),
        #[trigger] home_cell(j),
    ) by {
        assert(i == i % 3 + 3 * ((i / 3) % 3) + 9 * (i / 9));
        assert(j == j % 3 + 3 * ((j / 3) % 3) + 9 * (j / 9));
    }
}

pub proof fn lemma_solved_lattice()
    ensures
        lattice_ok(solved_lattice()),
{
    lemma_home_cells();
    let s = solved_lattice();
    assert forall|i: int| 0 <= i < 27 implies #[trigger] cubie_ok(i, s[i]) by {
        assert(unit3(home_cell(i)));
    }
    assert forall|i: int, j: int| 0 <= i < j < 27 implies cells_differ(s[i].cell, s[j].cell) by {
        assert(cells_differ(home_cell(i), home_cell(j)));
    }
    assert forall|v: [i8; 3]| unit3(v) implies #[trigger] occupied(s, v) by {
        lemma_cell_index(v);
        assert(same_cell(s[cell_index(v)].cell, v));
    }
}

/// The image of the solved-frame vector `n` under the cubie's basis.
pub open spec fn carried(c: Cubie, n: [i8; 3]) -> [i8; 3] {
    [
        (n[0] * c.basis[0][0] + n[1] * c.basis[1][0] + n[2] * c.basis[2][0]) as i8,
        (n[0] * c.basis[0][1] + n[1] * c.basis[1][1] + n[2] * c.basis[2][1]) as i8,
        (n[0] * c.basis[0][2] + n[1] * c.basis[1][2] + n[2] * c.basis[2][2]) as i8,
    ]
}

/// One component of a signed permutation applied to a lattice vector.
proof fn lemma_signed_permutation_component(
    a0: i8, a1: i8, a2: i8,
    b0: i8, b1: i8, b2: i8,
    c0: i8, c1: i8, c2: i8,
    x: i8, y: i8, z: i8,
)
    requires
        -1 <= a0 <= 1, -1 <= a1 <= 1, -1 <= a2 <= 1,
        -1 <= b0 <= 1, -1 <= b1 <= 1, -1 <= b2 <= 1,
        -1 <= c0 <= 1, -1 <= c1 <= 1, -1 <= c2 <= 1,
        -1 <= x <= 1, -1 <= y <= 1, -1 <= z <= 1,
        a0 * a0 + a1 * a1 + a2 * a2 == 1,
        b0 * b0 + b1 * b1 + b2 * b2 == 1,
        c0 * c0 + c1 * c1 + c2 * c2 == 1,
        a0 * b0 + a1 * b1 + a2 * b2 == 0,
        a0 * c0 + a1 * c1 + a2 * c2 == 0,
        b0 * c0 + b1 * c1 + b2 * c2 == 0,
    ensures
        -1 <= x * a0 + y * b0 + z * c0 <= 1,
        -1 <= x * a1 + y * b1 + z * c1 <= 1,
        -1 <= x * a2 + y * b2 + z * c2 <= 1,
{
    assert(
        -1 <= x * a0 + y * b0 + z * c0 <= 1 && -1 <= x * a1 + y * b1 + z * c1 <= 1 && -1 <= x * a2
            + y * b2 + z * c2 <= 1
    ) by (bit_vector)
        requires
            -1 <= a0 <= 1, -1 <= a1 <= 1, -1 <= a2 <= 1,
            -1 <= b0 <= 1, -1 <= b1 <= 1, -1 <= b2 <= 1,
            -1 <= c0 <= 1, -1 <= c1 <= 1, -1 <= c2 <= 1,
            -1 <= x <= 1, -1 <= y <= 1, -1 <= z <= 1,
            a0 * a0 + a1 * a1 + a2 * a2 == 1,
            b0 * b0 + b1 * b1 + b2 * b2 == 1,
            c0 * c0 + c1 * c1 + c2 * c2 == 1,
            a0 * b0 + a1 * b1 + a2 * b2 == 0,
            a0 * c0 + a1 * c1 + a2 * c2 == 0,
            b0 * c0 + b1 * c1 + b2 * c2 == 0,
    ;
}

/// Law: a rigidly placed cubie carries lattice vectors to lattice vectors;
/// its basis is a signed permutation.
pub proof fn lemma_carried_unit(i: int, c: Cubie, n: [i8; 3])
    requires
        cubie_ok(i, c),
        unit3(n),
    ensures
        unit3(carried(c, n)),
        carried(c, n)[0] == n[0] * c.basis[0][0] + n[1] * c.basis[1][0] + n[2] * c.basis[2][0],
        carried(c, n)[1] == n[0] * c.basis[0][1] + n[1] * c.basis[1][1] + n[2] * c.basis[2][1],
        carried(c, n)[2] == n[0] * c.basis[0][2] + n[1] * c.basis[1][2] + n[2] * c.basis[2][2],
{
    let b = c.basis;
    lemma_signed_permutation_component(
        b[0][0], b[0][1], b[0][2],
        b[1][0], b[1][1], b[1][2],
        b[2][0], b[2][1], b[2][2],
        n[0], n[1], n[2],
    );
}

/// The distance between two components.
pub open spec fn offset(a: int, b: int) -> int {
    if a >= b {
        a - b
    } else {
        b - a
    }
}

/// The grid distance between two cells.
pub open spec fn cell_distance(u: [i8; 3], v: [i8; 3]) -> int {
    offset(u[0] as int, v[0] as int) + offset(u[1] as int, v[1] as int) + offset(u[2] as int, v[2] as int)
}

/// Cells that share a face.
pub open spec fn adjacent_cells(u: [i8; 3], v: [i8; 3]) -> bool {
    cell_distance(u, v) == 1
}

/// The solved-frame vector that the cubie's basis carries to `v`.
pub open spec fn recovered(c: Cubie, v: [i8; 3]) -> [i8; 3] {
    [dot(c.basis[0], v) as i8, dot(c.basis[1], v) as i8, dot(c.basis[2], v) as i8]
}

/// The grid length of a step.
pub open spec fn step_length(d0: int, d1: int, d2: int) -> int {
    offset(d0, 0) + offset(d1, 0) + offset(d2, 0)
}

#[verifier::rlimit(100)]
proof fn lemma_rigid_components(
    a0: i8, a1: i8, a2: i8,
    b0: i8, b1: i8, b2: i8,
    c0: i8, c1: i8, c2: i8,
    d0: i8, d1: i8, d2: i8,
)
    requires
        -1 <= a0 <= 1, -1 <= a1 <= 1, -1 <= a2 <= 1,
        -1 <= b0 <= 1, -1 <= b1 <= 1, -1 <= b2 <= 1,
        -1 <= c0 <= 1, -1 <= c1 <= 1, -1 <= c2 <= 1,
        -2 <= d0 <= 2, -2 <= d1 <= 2, -2 <= d2 <= 2,
        a0 * a0 + a1 * a1 + a2 * a2 == 1,
        b0 * b0 + b1 * b1 + b2 * b2 == 1,
        c0 * c0 + c1 * c1 + c2 * c2 == 1,
        a0 * b0 + a1 * b1 + a2 * b2 == 0,
        a0 * c0 + a1 * c1 + a2 * c2 == 0,
        b0 * c0 + b1 * c1 + b2 * c2 == 0,
    ensures
        step_length(d0 * a0 + d1 * b0 + d2 * c0, d0 * a1 + d1 * b1 + d2 * c1, d0 * a2 + d1 * b2 + d2
            * c2) == step_length(d0 as int, d1 as int, d2 as int),
{
    assert(step_length(d0 * a0 + d1 * b0 + d2 * c0, d0 * a1 + d1 * b1 + d2 * c1, d0 * a2 + d1 * b2
        + d2 * c2) == step_length(d0 as int, d1 as int, d2 as int)) by (bit_vector)
        requires
            -1 <= a0 <= 1, -1 <= a1 <= 1, -1 <= a2 <= 1,
            -1 <= b0 <= 1, -1 <= b1 <= 1, -1 <= b2 <= 1,
            -1 <= c0 <= 1, -1 <= c1 <= 1, -1 <= c2 <= 1,
            -2 <= d0 <= 2, -2 <= d1 <= 2, -2 <= d2 <= 2,
            a0 * a0 + a1 * a1 + a2 * a2 == 1,
            b0 * b0 + b1 * b1 + b2 * b2 == 1,
            c0 * c0 + c1 * c1 + c2 * c2 == 1,
            a0 * b0 + a1 * b1 + a2 * b2 == 0,
            a0 * c0 + a1 * c1 + a2 * c2 == 0,
            b0 * c0 + b1 * c1 + b2 * c2 == 0,
    ;
}

proof fn lemma_inverse_components(
    a0: i8, a1: i8, a2: i8,
    b0: i8, b1: i8, b2: i8,
    c0: i8, c1: i8, c2: i8,
    v0: i8, v1: i8, v2: i8,
)
    requires
        -1 <= a0 <= 1, -1 <= a1 <= 1, -1 <= a2 <= 1,
        -1 <= b0 <= 1, -1 <= b1 <= 1, -1 <= b2 <= 1,
        -1 <= c0 <= 1, -1 <= c1 <= 1, -1 <= c2 <= 1,
        -1 <= v0 <= 1, -1 <= v1 <= 1, -1 <= v2 <= 1,
        a0 * a0 + a1 * a1 + a2 * a2 == 1,
        b0 * b0 + b1 * b1 + b2 * b2 == 1,
        c0 * c0 + c1 * c1 + c2 * c2 == 1,
        a0 * b0 + a1 * b1 + a2 * b2 == 0,
        a0 * c0 + a1 * c1 + a2 * c2 == 0,
        b0 * c0 + b1 * c1 + b2 * c2 == 0,
    ensures
        -1 <= a0 * v0 + a1 * v1 + a2 * v2 <= 1,
        -1 <= b0 * v0 + b1 * v1 + b2 * v2 <= 1,
        -1 <= c0 * v0 + c1 * v1 + c2 * v2 <= 1,
        (a0 * v0 + a1 * v1 + a2 * v2) * a0 + (b0 * v0 + b1 * v1 + b2 * v2) * b0 + (c0 * v0 + c1
            * v1 + c2 * v2) * c0 == v0,
        (a0 * v0 + a1 * v1 + a2 * v2) * a1 + (b0 * v0 + b1 * v1 + b2 * v2) * b1 + (c0 * v0 + c1
            * v1 + c2 * v2) * c1 == v1,
        (a0 * v0 + a1 * v1 + a2 * v2) * a2 + (b0 * v0 + b1 * v1 + b2 * v2) * b2 + (c0 * v0 + c1
            * v1 + c2 * v2) * c2 == v2,
{
    assert(-1 <= a0 * v0 + a1 * v1 + a2 * v2 <= 1 && -1 <= b0 * v0 + b1 * v1 + b2 * v2 <= 1 && -1
        <= c0 * v0 + c1 * v1 + c2 * v2 <= 1 && (a0 * v0 + a1 * v1 + a2 * v2) * a0 + (b0 * v0 + b1
        * v1 + b2 * v2) * b0 + (c0 * v0 + c1 * v1 + c2 * v2) * c0 == v0 && (a0 * v0 + a1 * v1 + a2
        * v2) * a1 + (b0 * v0 + b1 * v1 + b2 * v2) * b1 + (c0 * v0 + c1 * v1 + c2 * v2) * c1 == v1
        && (a0 * v0 + a1 * v1 + a2 * v2) * a2 + (b0 * v0 + b1 * v1 + b2 * v2) * b2 + (c0 * v0 + c1
        * v1 + c2 * v2) * c2 == v2) by (bit_vector)
        requires
            -1 <= a0 <= 1, -1 <= a1 <= 1, -1 <= a2 <= 1,
            -1 <= b0 <= 1, -1 <= b1 <= 1, -1 <= b2 <= 1,
            -1 <= c0 <= 1, -1 <= c1 <= 1, -1 <= c2 <= 1,
            -1 <= v0 <= 1, -1 <= v1 <= 1, -1 <= v2 <= 1,
            a0 * a0 + a1 * a1 + a2 * a2 == 1,
            b0 * b0 + b1 * b1 + b2 * b2 == 1,
            c0 * c0 + c1 * c1 + c2 * c2 == 1,
            a0 * b0 + a1 * b1 + a2 * b2 == 0,
            a0 * c0 + a1 * c1 + a2 * c2 == 0,
            b0 * c0 + b1 * c1 + b2 * c2 == 0,
    ;
}

/// Law: a rigidly placed cubie keeps distances between lattice cells: it
/// carries distinct cells to distinct cells and neighbours to neighbours.
pub proof fn lemma_carried_rigid(i: int, c: Cubie, x: [i8; 3], y: [i8; 3])
    requires
        cubie_ok(i, c),
        unit3(x),
        unit3(y),
    ensures
        cell_distance(carried(c, x), carried(c, y)) == cell_distance(x, y),
        same_cell(carried(c, x), carried(c, y)) ==> same_cell(x, y),
        adjacent_cells(carried(c, x), carried(c, y)) == adjacent_cells(x, y),
{
    let b = c.basis;
    lemma_carried_unit(i, c, x);
    lemma_carried_unit(i, c, y);
    let d0 = (x[0] - y[0]) as i8;
    let d1 = (x[1] - y[1]) as i8;
    let d2 = (x[2] - y[2]) as i8;
    lemma_rigid_components(
        b[0][0], b[0][1], b[0][2],
        b[1][0], b[1][1], b[1][2],
        b[2][0], b[2][1], b[2][2],
        d0, d1, d2,
    );
    lemma_difference(x, y, b[0][0] as int, b[1][0] as int, b[2][0] as int);
    lemma_difference(x, y, b[0][1] as int, b[1][1] as int, b[2][1] as int);
    lemma_difference(x, y, b[0][2] as int, b[1][2] as int, b[2][2] as int);
}

proof fn lemma_difference(x: [i8; 3], y: [i8; 3], p: int, q: int, r: int)
    ensures
        (x[0] * p + x[1] * q + x[2] * r) - (y[0] * p + y[1] * q + y[2] * r) == (x[0] - y[0]) * p + (
        x[1] - y[1]) * q + (x[2] - y[2]) * r,
{
    assert((x[0] * p + x[1] * q + x[2] * r) - (y[0] * p + y[1] * q + y[2] * r) == (x[0] - y[0]) * p
        + (x[1] - y[1]) * q + (x[2] - y[2]) * r) by (nonlinear_arith);
}

/// Law: every lattice cell is carried from exactly one solved-frame vector,
/// the one that `recovered` names.
pub proof fn lemma_recovered(i: int, c: Cubie, v: [i8; 3])
    requires
        cubie_ok(i, c),
        unit3(v),
    ensures
        unit3(recovered(c, v)),
        same_cell(carried(c, recovered(c, v)), v),
{
    let b = c.basis;
    lemma_inverse_components(
        b[0][0], b[0][1], b[0][2],
        b[1][0], b[1][1], b[1][2],
        b[2][0], b[2][1], b[2][2],
        v[0], v[1], v[2],
    );
    lemma_carried_unit(i, c, recovered(c, v));
}

// ---------------------------------------------------------------------------
// Turn choice and the puzzle state machine
// ---------------------------------------------------------------------------

pub open spec fn spec_xorshift(r: u32) -> u32 {
    let a = r ^ (r << 13u32);
    let b = a ^ (a >> 17u32);
    b ^ (b << 5u32)
}

pub open spec fn fresh_axis(cell: [i8; 3], a: int, previous: Option<usize>) -> bool {
    cell[a] != 0 && previous != Some(a as usize)
}

/// The first axis in the rotated order `r % 3, r % 3 + 1, r % 3 + 2` along
/// which the cell is off centre and that differs from the previous axis;
/// failing that, the first axis along which the cell is off centre.
pub open spec fn spec_pick_axis(cell: [i8; 3], r: u32, previous: Option<usize>) -> int {
    let a0 = (r % 3) as int;
    let a1 = (a0 + 1) % 3;
    let a2 = (a0 + 2) % 3;
    if fresh_axis(cell, a0, previous) {
        a0
    } else if fresh_axis(cell, a1, previous) {
        a1
    } else if fresh_axis(cell, a2, previous) {
        a2
    } else if cell[a0] != 0 {
        a0
    } else if cell[a1] != 0 {
        a1
    } else {
        a2
    }
}

/// Face centres always turn positively; other cubies by bit 4 of the chooser.
pub open spec fn spec_direction(cell: [i8; 3], r: u32) -> i8 {
    if nonzero_count(cell) == 1 {
        1i8
    } else if r & 16 == 0 {
        -1i8
    } else {
        1i8
    }
}

/// The next turn of an automatic journey of cubie `id`.
pub open spec fn spec_plan(s: Seq<Cubie>, p: Progress, id: int, now: u64) -> Progress {
    let r = spec_xorshift(p.rng);
    let cell = s[id].cell;
    let axis = spec_pick_axis(cell, r, p.previous_axis);
    Progress {
        turn: Some(
            Turn {
                axis: axis as usize,
                layer: cell[axis],
                direction: spec_direction(cell, r),
                started: now,
            },
        ),
        selected: p.selected,
        opened: p.opened,
        completed: p.completed,
        previous_axis: Some(axis as usize),
        rng: r,
        revision: p.revision,
    }
}

pub open spec fn wrap_inc(r: u64) -> u64 {
    if r == u64::MAX {
        0
    } else {
        (r + 1) as u64
    }
}

pub open spec fn saturating_diff(a: u64, b: u64) -> int {
    if a >= b {
        a - b
    } else {
        0
    }
}

/// What `update` does: nothing before the opening delay or after the third
/// turn; otherwise it commits a finished turn and then plans the next one.
pub open spec fn spec_update(s: Seq<Cubie>, p: Progress, now: u64) -> (Seq<Cubie>, Progress) {
    match p.selected {
        None => (s, p),
        Some(id) => if now < p.opened + OPEN_MS || p.completed == 3 {
            (s, p)
        } else {
            match p.turn {
                Some(t) => if saturating_diff(now, t.started) < TURN_MS {
                    (s, p)
                } else {
                    let s1 = spec_commit(s, t);
                    let p1 = Progress {
                        turn: None,
                        selected: p.selected,
                        opened: p.opened,
                        completed: (p.completed + 1) as u8,
                        previous_axis: p.previous_axis,
                        rng: p.rng,
                        revision: wrap_inc(p.revision),
                    };
                    if p1.completed == 3 {
                        (s1, p1)
                    } else {
                        (s1, spec_plan(s1, p1, id as int, now))
                    }
                },
                None => (s, spec_plan(s, p, id as int, now)),
            }
        },
    }
}

/// The invariant of the puzzle's progress over its cubies `s`.
pub open spec fn progress_ok(s: Seq<Cubie>, p: Progress) -> bool {
    &&& p.completed <= 3
    &&& p.opened <= u64::MAX - OPEN_MS
    &&& (p.turn matches Some(t) ==> valid_turn(t))
    &&& (p.completed == 3 ==> p.turn is None)
    &&& match p.selected {
        Some(id) => id < 27 && (p.completed < 3 && nonzero_count(s[id as int].cell) == 0
            ==> p.completed == 2 && p.turn is Some),
        None => p.completed == 0 && p.turn is None,
    }
}

/// Law: the chosen axis moves the selected cubie, and it differs from the
/// previous axis whenever the cubie is off centre along two or more axes.
pub proof fn lemma_pick_avoids_previous_axis(cell: [i8; 3], r: u32, previous: Option<usize>)
    requires
        nonzero_count(cell) >= 1,
    ensures
        0 <= spec_pick_axis(cell, r, previous) < 3,
        cell[spec_pick_axis(cell, r, previous)] != 0,
        nonzero_count(cell) >= 2 ==> previous != Some(spec_pick_axis(cell, r, previous) as usize),
{
}

fn rotate(v: [i8; 3], axis: usize, direction: i8) -> (r: [i8; 3])
    requires
        v[0] != i8::MIN,
        v[1] != i8::MIN,
        v[2] != i8::MIN,
        axis < 3,
        direction == 1 || direction == -1,
    ensures
        r == spec_rotate(v, axis as int, direction as int),
{
    let a = (axis + 1) % 3;
    let b = (axis + 2) % 3;
    let va = v[a];
    let vb = v[b];
    let mut r = v;
    if direction == 1 {
        r[a] = -vb;
        r[b] = va;
    } else {
        r[a] = vb;
        r[b] = -va;
    }
    proof {
        assert(r =~= spec_rotate(v, axis as int, direction as int));
    }
    r
}

fn turn_cubie(c: Cubie, t: Turn) -> (r: Cubie)
    requires
        cubie_units(c),
        valid_turn(t),
    ensures
        r == spec_turn_cubie(c, t),
{
    if c.cell[t.axis] == t.layer {
        Cubie {
            cell: rotate(c.cell, t.axis, t.direction),
            basis: [
                rotate(c.basis[0], t.axis, t.direction),
                rotate(c.basis[1], t.axis, t.direction),
                rotate(c.basis[2], t.axis, t.direction),
            ],
        }
    } else {
        c
    }
}

fn pick_axis(cell: [i8; 3], r: u32, previous: Option<usize>) -> (a: usize)
    ensures
        a == spec_pick_axis(cell, r, previous),
{
    let a0 = (r % 3) as usize;
    let a1 = (a0 + 1) % 3;
    let a2 = (a0 + 2) % 3;
    let f0 = cell[a0] != 0 && match previous {
        Some(p) => p != a0,
        None => true,
    };
    let f1 = cell[a1] != 0 && match previous {
        Some(p) => p != a1,
        None => true,
    };
    let f2 = cell[a2] != 0 && match previous {
        Some(p) => p != a2,
        None => true,
    };
    if f0 {
        a0
    } else if f1 {
        a1
    } else if f2 {
        a2
    } else if cell[a0] != 0 {
        a0
    } else if cell[a1] != 0 {
        a1
    } else {
        a2
    }
}

fn count_nonzero(cell: [i8; 3]) -> (n: usize)
    ensures
        n == nonzero_count(cell),
{
    let mut n: usize = 0;
    if cell[0] != 0 {
        n = n + 1;
    }
    if cell[1] != 0 {
        n = n + 1;
    }
    if cell[2] != 0 {
        n = n + 1;
    }
    n
}

impl Puzzle {
    pub closed spec fn lattice(&self) -> Seq<Cubie> {
        self.cubies@
    }

    pub closed spec fn state(&self) -> Progress {
        self.progress
    }

    pub open spec fn wf(&self) -> bool {
        lattice_ok(self.lattice()) && progress_ok(self.lattice(), self.state())
    }

    /// A solved puzzle opened at `now`.
    pub fn new(now: u64) -> (p: Self)
        requires
            now <= u64::MAX - OPEN_MS,
        ensures
            p.wf(),
            p.lattice() == solved_lattice(),
            p.state() == (Progress {
                turn: None,
                selected: None,
                opened: now,
                completed: 0,
                previous_axis: None,
                rng: RNG_SEED,
                revision: 0,
            }),
    {
        let mut cubies: Vec<Cubie> = Vec::new();
        let mut i: usize = 0;
        while i < 27
            invariant
                i <= 27,
                cubies.len() == i,
                forall|k: int| 0 <= k < i ==> cubies@[k] == solved_lattice()[k],
            decreases 27 - i,
        {
            let x = (i % 3) as i8 - 1;
            let y = ((i / 3) % 3) as i8 - 1;
            let z = (i / 9) as i8 - 1;
            cubies.push(Cubie { cell: [x, y, z], basis: [[1, 0, 0], [0, 1, 0], [0, 0, 1]] });
            i = i + 1;
        }
        proof {
            assert(cubies@ =~= solved_lattice());
            lemma_solved_lattice();
        }
        Puzzle {
            cubies,
            progress: Progress {
                turn: None,
                selected: None,
                opened: now,
                completed: 0,
                previous_axis: None,
                rng: RNG_SEED,
                revision: 0,
            },
        }
    }

    /// Commit one quarter turn to the lattice: every cubie of the turning
    /// layer rotates its cell and its orientation.
    pub fn commit(&mut self, turn: Turn)
        requires
            old(self).wf(),
            valid_turn(turn),
        ensures
            final(self).wf(),
            final(self).lattice() == spec_commit(old(self).lattice(), turn),
            lattice_ok(final(self).lattice()),
            final(self).state() == (Progress {
                revision: wrap_inc(old(self).state().revision),
                ..old(self).state()
            }),
    {
        proof {
            lemma_commit_keeps_lattice(self.cubies@, turn);
            if let Some(id) = self.progress.selected {
                assert(cubie_ok(id as int, self.cubies@[id as int]));
                lemma_turn_keeps_cubie(id as int, self.cubies@[id as int], turn);
            }
        }
        let mut i: usize = 0;
        while i < self.cubies.len()
            invariant
                self.cubies.len() == 27,
                i <= 27,
                lattice_ok(old(self).cubies@),
                valid_turn(turn),
                self.progress == old(self).progress,
                forall|k: int|
                    0 <= k < i ==> self.cubies@[k] == spec_turn_cubie(old(self).cubies@[k], turn),
                forall|k: int| i <= k < 27 ==> self.cubies@[k] == old(self).cubies@[k],
            decreases 27 - i,
        {
            let c = self.cubies[i];
            proof {
                assert(cubie_ok(i as int, old(self).cubies@[i as int]));
            }
            let n = turn_cubie(c, turn);
            self.cubies.set(i, n);
            i = i + 1;
        }
        proof {
            assert(self.cubies@ =~= spec_commit(old(self).cubies@, turn));
        }
        self.progress.revision = self.progress.revision.wrapping_add(1);
    }

    /// Only completed lattice turns change world adjacency.
    pub fn revision(&self) -> (r: u64)
        ensures
            r == self.state().revision,
    {
        self.progress.revision
    }

    pub fn lattice_pose(&self, id: usize) -> (r: ([i8; 3], [[i8; 3]; 3]))
        requires
            self.wf(),
            id < 27,
        ensures
            r == (self.lattice()[id as int].cell, self.lattice()[id as int].basis),
    {
        (self.cubies[id].cell, self.cubies[id].basis)
    }

    /// The cubie that occupies `cell`, if any.
    pub fn identity_at(&self, cell: [i8; 3]) -> (r: Option<usize>)
        requires
            self.wf(),
        ensures
            match r {
                Some(i) => i < 27 && same_cell(self.lattice()[i as int].cell, cell),
                None => forall|k: int|
                    0 <= k < 27 ==> !same_cell(#[trigger] self.lattice()[k].cell, cell),
            },
    {
        let mut i: usize = 0;
        while i < self.cubies.len()
            invariant
                self.cubies.len() == 27,
                i <= 27,
                forall|k: int| 0 <= k < i ==> !same_cell(#[trigger] self.cubies@[k].cell, cell),
            decreases 27 - i,
        {
            let c = self.cubies[i].cell;
            if c[0] == cell[0] && c[1] == cell[1] && c[2] == cell[2] {
                return Some(i);
            }
            i = i + 1;
        }
        None
    }

    /// Re-enter the Key-2 demo without resetting its shared permutation. An
    /// in-progress action continues; a finished action can be selected again.
    pub fn reenter(&mut self, now: u64)
        requires
            old(self).wf(),
            now <= u64::MAX - OPEN_MS,
        ensures
            final(self).wf(),
            final(self).lattice() == old(self).lattice(),
            final(self).state() == (if spec_locked(old(self).state()) {
                old(self).state()
            } else {
                Progress {
                    selected: None,
                    opened: now,
                    completed: 0,
                    previous_axis: None,
                    ..old(self).state()
                }
            }),
    {
        if !self.locked() {
            self.progress.selected = None;
            self.progress.opened = now;
            self.progress.completed = 0;
            self.progress.previous_axis = None;
        }
    }

    /// Advance an automatic journey: commit a finished turn, then choose the
    /// next, three turns in all.
    pub fn update(&mut self, now: u64)
        requires
            old(self).wf(),
        ensures
            final(self).wf(),
            (final(self).lattice(), final(self).state()) == spec_update(
                old(self).lattice(),
                old(self).state(),
                now,
            ),
    {
        let id = match self.progress.selected {
            Some(id) => id,
            None => {
                return;
            },
        };
        if now < self.progress.opened + OPEN_MS || self.progress.completed == 3 {
            return;
        }
        if let Some(turn) = self.progress.turn {
            if now.saturating_sub(turn.started) < TURN_MS {
                return;
            }
            proof {
                assert(cubie_ok(id as int, self.cubies@[id as int]));
                lemma_turn_keeps_cubie(id as int, self.cubies@[id as int], turn);
            }
            self.commit(turn);
            self.progress.turn = None;
            self.progress.completed = self.progress.completed + 1;
            if self.progress.completed == 3 {
                return;
            }
        }
        let mut r = self.progress.rng;
        r = r ^ (r << 13u32);
        r = r ^ (r >> 17u32);
        r = r ^ (r << 5u32);
        self.progress.rng = r;
        let cell = self.cubies[id].cell;
        proof {
            assert(cubie_ok(id as int, self.cubies@[id as int]));
            lemma_pick_avoids_previous_axis(cell, r, self.progress.previous_axis);
        }
        let axis = pick_axis(cell, r, self.progress.previous_axis);
        self.progress.previous_axis = Some(axis);
        let direction: i8 = if count_nonzero(cell) == 1 {
            1
        } else if r & 16 == 0 {
            -1
        } else {
            1
        };
        self.progress.turn = Some(Turn { axis, layer: cell[axis], direction, started: now });
    }

    /// Start an automatic journey of cubie `id`; the core cannot travel, and
    /// a journey under way refuses another.
    pub fn select(&mut self, id: usize, now: u64) -> (r: bool)
        requires
            old(self).wf(),
            now <= u64::MAX - OPEN_MS,
        ensures
            final(self).wf(),
            final(self).lattice() == old(self).lattice(),
            r == (old(self).state().selected is None && id < 27 && nonzero_count(
                old(self).lattice()[id as int].cell,
            ) >= 1),
            final(self).state() == (if r {
                Progress {
                    selected: Some(id),
                    opened: now,
                    rng: old(self).state().rng ^ ((now as u32) ^ (((id + 1) * 7919) as u32)),
                    ..old(self).state()
                }
            } else {
                old(self).state()
            }),
    {
        if self.progress.selected.is_some() || id >= 27 || count_nonzero(self.cubies[id].cell)
            < 1 {
            return false;
        }
        self.progress.selected = Some(id);
        self.progress.opened = now;
        self.progress.rng = self.progress.rng ^ (now as u32 ^ ((id as u32 + 1) * 7919));
        true
    }

    /// Cancel an automatic journey without altering committed lattice poses.
    pub fn cancel_travel(&mut self, now: u64)
        requires
            old(self).wf(),
            now <= u64::MAX - OPEN_MS,
        ensures
            final(self).wf(),
            final(self).lattice() == old(self).lattice(),
            final(self).state() == (Progress {
                turn: None,
                selected: None,
                completed: 0,
                opened: now,
                previous_axis: None,
                ..old(self).state()
            }),
    {
        self.progress.turn = None;
        self.progress.selected = None;
        self.progress.completed = 0;
        self.progress.opened = now;
        self.progress.previous_axis = None;
    }

    /// One portal-travel turn moves both adjacent worlds in the same layer:
    /// the first axis along which the two cells agree.
    pub fn travel_turn(&mut self, source: usize, destination: usize, now: u64)
        requires
            old(self).wf(),
            now <= u64::MAX - OPEN_MS,
            source < 27,
            destination < 27,
            exists|axis: int|
                0 <= axis < 3 && #[trigger] old(self).lattice()[source as int].cell[axis]
                    == old(self).lattice()[destination as int].cell[axis],
        ensures
            final(self).wf(),
            final(self).lattice() == old(self).lattice(),
            ({
                let a = old(self).lattice()[source as int].cell;
                let b = old(self).lattice()[destination as int].cell;
                let axis: int = if a[0] == b[0] {
                    0
                } else if a[1] == b[1] {
                    1
                } else {
                    2
                };
                final(self).state() == Progress {
                    selected: Some(source),
                    opened: now,
                    completed: 2,
                    previous_axis: Some(axis as usize),
                    turn: Some(Turn { axis: axis as usize, layer: a[axis], direction: 1, started: now }),
                    ..old(self).state()
                }
            }),
    {
        let a = self.cubies[source].cell;
        let b = self.cubies[destination].cell;
        proof {
            assert(cubie_ok(source as int, self.cubies@[source as int]));
        }
        let axis: usize = if a[0] == b[0] {
            0
        } else if a[1] == b[1] {
            1
        } else {
            2
        };
        self.progress.selected = Some(source);
        self.progress.opened = now;
        self.progress.completed = 2;
        self.progress.previous_axis = Some(axis);
        self.progress.turn = Some(Turn { axis, layer: a[axis], direction: 1, started: now });
    }

    pub fn selected(&self) -> (r: Option<usize>)
        ensures
            r == self.state().selected,
    {
        self.progress.selected
    }

    /// A journey is under way until its third turn.
    pub fn locked(&self) -> (r: bool)
        ensures
            r == spec_locked(self.state()),
    {
        self.progress.selected.is_some() && self.progress.completed < 3
    }

    /// How many turns of the present journey are committed.
    pub fn completed(&self) -> (c: u8)
        ensures
            c == self.state().completed,
    {
        self.progress.completed
    }

    /// When the present journey was opened, in milliseconds.
    pub fn opened_at(&self) -> (r: u64)
        ensures
            r == self.state().opened,
    {
        self.progress.opened
    }

    /// The turn being animated, if any.
    pub fn current_turn(&self) -> (r: Option<Turn>)
        ensures
            r == self.state().turn,
    {
        self.progress.turn
    }
}

pub open spec fn spec_locked(p: Progress) -> bool {
    p.selected is Some && p.completed < 3
}

} // verus!

verus! {

/// Law: a quarter turn keeps the turning axis, the opposite turn undoes it,
/// and four turns the same way give the vector back, for every vector with
/// no component at `i8::MIN`.
pub proof fn lemma_rotate_cycle(v: [i8; 3], axis: int, d: int)
    requires
        0 <= axis < 3,
        d == 1 || d == -1,
        v[0] != i8::MIN,
        v[1] != i8::MIN,
        v[2] != i8::MIN,
    ensures
        spec_rotate(v, axis, d)[axis] == v[axis],
        spec_rotate(spec_rotate(v, axis, d), axis, -d) =~= v,
        spec_rotate(spec_rotate(spec_rotate(spec_rotate(v, axis, d), axis, d), axis, d), axis, d) =~= v,
{
}

} // verus!
