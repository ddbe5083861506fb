//! World identities are cubie sticker sets; connections follow exact lattice poses.
use vstd::prelude::*;
use crate::rubik::{
    Cubie, Puzzle, adjacent_cells, carried, cell_index, cubie_ok, home_cell, lattice_ok,
    lemma_carried_rigid, lemma_carried_unit, lemma_cell_index, lemma_occupant, lemma_recovered,
    lemma_solved_lattice, occupant, occupied, recovered, same_cell, solved_lattice, unit3,
};

verus! {

/// The authored roster: opposing pairs are Sky/Underground (+/-X),
/// Black/White hole (+/-Y), Island/City (+/-Z). Index order is not lattice order.
pub const THEME_MASKS: [u8; 27] = [
    1, 2, 4, 8, 16, 32, 5, 9, 17, 33, 6, 10, 18, 34, 20, 36, 24, 40, 21, 37, 25, 41, 22, 38, 26,
    42, 0,
];

pub const VOID: usize = 26;

/// North, east, south, west, bottom, top, center.
pub const FACES: usize = 7;

#[derive(Clone, Copy, Debug, PartialEq, Eq, Structural)]
pub enum Destination {
    World(usize),
    Leave,
    /// No route from this face.
    Nowhere,
}

/// The value of theme bit `k`.
pub open spec fn bit_value(k: int) -> int {
    if k == 0 {
        1
    } else if k == 1 {
        2
    } else if k == 2 {
        4
    } else if k == 3 {
        8
    } else if k == 4 {
        16
    } else {
        32
    }
}

/// Whether theme `k` is in the mask.
pub open spec fn has_bit(m: int, k: int) -> bool {
    (m / bit_value(k)) % 2 == 1
}

pub open spec fn bit_count(m: int) -> int {
    (if has_bit(m, 0) { 1int } else { 0int }) + (if has_bit(m, 1) { 1int } else { 0int }) + (if has_bit(
        m,
        2,
    ) {
        1int
    } else {
        0int
    }) + (if has_bit(m, 3) { 1int } else { 0int }) + (if has_bit(m, 4) { 1int } else { 0int }) + (
    if has_bit(m, 5) {
        1int
    } else {
        0int
    })
}

/// The lowest theme in the mask.
pub open spec fn lowest_bit(m: int) -> int {
    if has_bit(m, 0) {
        0
    } else if has_bit(m, 1) {
        1
    } else if has_bit(m, 2) {
        2
    } else if has_bit(m, 3) {
        3
    } else if has_bit(m, 4) {
        4
    } else {
        5
    }
}

/// +1 for the first theme of a pair, -1 for the second, 0 for neither.
pub open spec fn pair_sign(m: int, pair: int) -> i8 {
    if has_bit(m, 2 * pair) {
        1i8
    } else if has_bit(m, 2 * pair + 1) {
        -1i8
    } else {
        0i8
    }
}

/// The solved cell of a world: one coordinate per opposing pair of themes.
pub open spec fn spec_solved_cell(world: int) -> [i8; 3] {
    let m = THEME_MASKS[world] as int;
    [pair_sign(m, 0), pair_sign(m, 1), pair_sign(m, 2)]
}

pub open spec fn spec_cubie(world: int) -> int {
    let c = spec_solved_cell(world);
    (c[0] + 1) + 3 * (c[1] + 1) + 9 * (c[2] + 1)
}

/// The index of mask `m` in the roster; 27 for a mask outside it.
pub open spec fn roster_world(m: int) -> int {
    if m == 1 {
        0
    } else if m == 2 {
        1
    } else if m == 4 {
        2
    } else if m == 8 {
        3
    } else if m == 16 {
        4
    } else if m == 32 {
        5
    } else if m == 5 {
        6
    } else if m == 9 {
        7
    } else if m == 17 {
        8
    } else if m == 33 {
        9
    } else if m == 6 {
        10
    } else if m == 10 {
        11
    } else if m == 18 {
        12
    } else if m == 34 {
        13
    } else if m == 20 {
        14
    } else if m == 36 {
        15
    } else if m == 24 {
        16
    } else if m == 40 {
        17
    } else if m == 21 {
        18
    } else if m == 37 {
        19
    } else if m == 25 {
        20
    } else if m == 41 {
        21
    } else if m == 22 {
        22
    } else if m == 38 {
        23
    } else if m == 26 {
        24
    } else if m == 42 {
        25
    } else if m == 0 {
        26
    } else {
        27
    }
}

/// The world whose solved cell is cubie `c`; 27 for no cubie.
pub open spec fn cubie_world(c: int) -> int {
    if c == 0 {
        25
    } else if c == 1 {
        17
    } else if c == 2 {
        21
    } else if c == 3 {
        13
    } else if c == 4 {
        5
    } else if c == 5 {
        9
    } else if c == 6 {
        23
    } else if c == 7 {
        15
    } else if c == 8 {
        19
    } else if c == 9 {
        11
    } else if c == 10 {
        3
    } else if c == 11 {
        7
    } else if c == 12 {
        1
    } else if c == 13 {
        26
    } else if c == 14 {
        0
    } else if c == 15 {
        10
    } else if c == 16 {
        2
    } else if c == 17 {
        6
    } else if c == 18 {
        24
    } else if c == 19 {
        16
    } else if c == 20 {
        20
    } else if c == 21 {
        12
    } else if c == 22 {
        4
    } else if c == 23 {
        8
    } else if c == 24 {
        22
    } else if c == 25 {
        14
    } else if c == 26 {
        18
    } else {
        27
    }
}

proof fn lemma_roster_value(m: int)
    ensures
        roster_world(m) < 27 ==> THEME_MASKS[roster_world(m)] == m,
        0 <= roster_world(m) <= 27,
{
}

/// The facts about the closed roster that world `w` needs: it is found
/// under its own mask, has at most three themes, at most one per pair, and
/// every world its authored routes name is in the roster.
pub open spec fn roster_facts(w: int) -> bool {
    let m = THEME_MASKS[w] as int;
    &&& roster_world(m) == w
    &&& 0 <= m < 64
    &&& bit_count(m) <= 3
    &&& !(has_bit(m, 0) && has_bit(m, 1))
    &&& !(has_bit(m, 2) && has_bit(m, 3))
    &&& !(has_bit(m, 4) && has_bit(m, 5))
    &&& 0 <= spec_cubie(w) < 27
    &&& cubie_world(spec_cubie(w)) == w
    &&& forall|k: int| 0 <= k < 7 ==> #[trigger] routes_named(w, k)
}

/// The mask whose world authored route `k` of world `w` names, if any.
pub open spec fn route_mask(w: int, k: int) -> Option<int> {
    let m = THEME_MASKS[w] as int;
    let n = bit_count(m);
    if n == 1 {
        let pair = lowest_bit(m) / 2;
        if k < 4 {
            Some(m + bit_value(if k < 2 * pair { k } else { k + 2 }))
        } else {
            None
        }
    } else if n == 2 {
        let a = bit_value(lowest_bit(m));
        let b = bit_value(lowest_bit(m - a));
        let pair: int = if !has_bit(m, 0) && !has_bit(m, 1) {
            0
        } else if !has_bit(m, 2) && !has_bit(m, 3) {
            1
        } else {
            2
        };
        if k == 0 {
            Some(a)
        } else if k == 1 {
            Some(m + bit_value(2 * pair))
        } else if k == 2 {
            Some(b)
        } else if k == 3 {
            Some(m + bit_value(2 * pair + 1))
        } else {
            None
        }
    } else if n == 3 {
        let a = bit_value(lowest_bit(m));
        let b = bit_value(lowest_bit(m - a));
        let c = bit_value(lowest_bit(m - a - b));
        if k == 0 {
            Some(a + b)
        } else if k == 1 {
            Some(a + c)
        } else if k == 2 {
            Some(b + c)
        } else {
            None
        }
    } else {
        None
    }
}

pub open spec fn routes_named(w: int, k: int) -> bool {
    route_mask(w, k) matches Some(x) ==> roster_world(x) < 27
}

/// Law: the roster is closed: every world satisfies the roster facts.
pub proof fn lemma_roster(w: int)
    requires
        0 <= w < 27,
    ensures
        roster_facts(w),
{
    if w == 0 {
        lemma_roster_value(THEME_MASKS[0] as int);

    } else if w == 1 {
        lemma_roster_value(THEME_MASKS[1] as int);

    } else if w == 2 {
        lemma_roster_value(THEME_MASKS[2] as int);

    } else if w == 3 {
        lemma_roster_value(THEME_MASKS[3] as int);

    } else if w == 4 {
        lemma_roster_value(THEME_MASKS[4] as int);

    } else if w == 5 {
        lemma_roster_value(THEME_MASKS[5] as int);

    } else if w == 6 {
        lemma_roster_value(THEME_MASKS[6] as int);

    } else if w == 7 {
        lemma_roster_value(THEME_MASKS[7] as int);

    } else if w == 8 {
        lemma_roster_value(THEME_MASKS[8] as int);

    } else if w == 9 {
        lemma_roster_value(THEME_MASKS[9] as int);

    } else if w == 10 {
        lemma_roster_value(THEME_MASKS[10] as int);

    } else if w == 11 {
        lemma_roster_value(THEME_MASKS[11] as int);

    } else if w == 12 {
        lemma_roster_value(THEME_MASKS[12] as int);

    } else if w == 13 {
        lemma_roster_value(THEME_MASKS[13] as int);

    } else if w == 14 {
        lemma_roster_value(THEME_MASKS[14] as int);

    } else if w == 15 {
        lemma_roster_value(THEME_MASKS[15] as int);

    } else if w == 16 {
        lemma_roster_value(THEME_MASKS[16] as int);

    } else if w == 17 {
        lemma_roster_value(THEME_MASKS[17] as int);

    } else if w == 18 {
        lemma_roster_value(THEME_MASKS[18] as int);

    } else if w == 19 {
        lemma_roster_value(THEME_MASKS[19] as int);

    } else if w == 20 {
        lemma_roster_value(THEME_MASKS[20] as int);

    } else if w == 21 {
        lemma_roster_value(THEME_MASKS[21] as int);

    } else if w == 22 {
        lemma_roster_value(THEME_MASKS[22] as int);

    } else if w == 23 {
        lemma_roster_value(THEME_MASKS[23] as int);

    } else if w == 24 {
        lemma_roster_value(THEME_MASKS[24] as int);

    } else if w == 25 {
        lemma_roster_value(THEME_MASKS[25] as int);

    } else if w == 26 {
        lemma_roster_value(THEME_MASKS[26] as int);
    }

    assert forall|k: int| 0 <= k < 7 implies #[trigger] routes_named(w, k) by {
        if let Some(x) = route_mask(w, k) {
            lemma_roster_value(x);
        }
    }
}

/// Law: the roster is a bijection onto the 27 cubies, and the Void world is
/// the core cubie.
pub proof fn lemma_roster_bijection()
    ensures
        forall|w: int| 0 <= w < 27 ==> 0 <= #[trigger] spec_cubie(w) < 27,
        forall|i: int, j: int|
            0 <= i < j < 27 ==> #[trigger] spec_cubie(i) != #[trigger] spec_cubie(j),
        spec_cubie(VOID as int) == 13,
{
    assert forall|w: int| 0 <= w < 27 implies 0 <= #[trigger] spec_cubie(w) < 27 by {
        lemma_roster(w);
    }
    assert forall|i: int, j: int| 0 <= i < j < 27 implies #[trigger] spec_cubie(i)
        != #[trigger] spec_cubie(j) by {
        lemma_roster(i);
        lemma_roster(j);
    }
    lemma_roster(VOID as int);
}

fn bit_value_of(k: usize) -> (v: u8)
    requires
        k < 6,
    ensures
        v == bit_value(k as int),
{
    if k == 0 {
        1
    } else if k == 1 {
        2
    } else if k == 2 {
        4
    } else if k == 3 {
        8
    } else if k == 4 {
        16
    } else {
        32
    }
}

fn theme_bit(m: u8, k: usize) -> (b: bool)
    requires
        k < 6,
    ensures
        b == has_bit(m as int, k as int),
{
    (m / bit_value_of(k)) % 2 == 1
}

fn sign(m: u8, pair: usize) -> (s: i8)
    requires
        pair < 3,
    ensures
        s == pair_sign(m as int, pair as int),
{
    if theme_bit(m, 2 * pair) {
        1
    } else if theme_bit(m, 2 * pair + 1) {
        -1
    } else {
        0
    }
}

/// The solved cell of `world`: per axis +1 or -1 for its theme of that pair.
pub fn solved_cell(world: usize) -> (c: [i8; 3])
    requires
        world < 27,
    ensures
        c == spec_solved_cell(world as int),
{
    let m = THEME_MASKS[world];
    [sign(m, 0), sign(m, 1), sign(m, 2)]
}

/// The cubie whose solved cell is the world's cell.
pub fn cubie(world: usize) -> (c: usize)
    requires
        world < 27,
    ensures
        c == spec_cubie(world as int),
        c < 27,
{
    proof {
        lemma_roster(world as int);
    }
    let cell = solved_cell(world);
    ((cell[0] + 1) as usize) + ((cell[1] + 1) as usize) * 3 + ((cell[2] + 1) as usize) * 9
}

/// The world of a mask of the closed roster.
pub fn world_for_mask(mask: u8) -> (w: usize)
    requires
        roster_world(mask as int) < 27,
    ensures
        w == roster_world(mask as int),
{
    proof {
        lemma_roster_value(mask as int);
    }
    let mut i: usize = 0;
    while i < 27
        invariant
            i <= 27,
            roster_world(mask as int) < 27,
            THEME_MASKS[roster_world(mask as int)] == mask,
            forall|j: int| 0 <= j < i ==> THEME_MASKS[j] != mask,
        decreases 27 - i,
    {
        if THEME_MASKS[i] == mask {
            proof {
                lemma_roster(i as int);
            }
            return i;
        }
        i = i + 1;
    }
    i
}

/// Authored route `k` of world `w`: the neighbouring worlds by theme
/// masks, the generic Leave slots, the Void below single-theme worlds, and
/// the fixed routes of the Void itself.
pub open spec fn spec_route(w: int, k: int) -> Destination {
    let m = THEME_MASKS[w] as int;
    let n = bit_count(m);
    match route_mask(w, k) {
        Some(x) => Destination::World(roster_world(x) as usize),
        None => if n == 0 {
            if k == 0 {
                Destination::World(0)
            } else if k == 1 {
                Destination::World(2)
            } else if k == 2 {
                Destination::World(1)
            } else if k == 3 {
                Destination::World(3)
            } else if k == 4 {
                Destination::World(5)
            } else if k == 5 {
                Destination::World(4)
            } else {
                Destination::Leave
            }
        } else if n == 1 {
            if k == 4 {
                Destination::World(VOID)
            } else if k == 5 {
                Destination::Leave
            } else {
                Destination::Nowhere
            }
        } else if k == 6 {
            Destination::Nowhere
        } else {
            Destination::Leave
        },
    }
}

pub open spec fn spec_authored_routes(w: int) -> Seq<Destination> {
    Seq::new(7, |k: int| spec_route(w, k))
}

fn lowest(m: u8) -> (k: usize)
    ensures
        k == lowest_bit(m as int),
        k < 6,
{
    if theme_bit(m, 0) {
        0
    } else if theme_bit(m, 1) {
        1
    } else if theme_bit(m, 2) {
        2
    } else if theme_bit(m, 3) {
        3
    } else if theme_bit(m, 4) {
        4
    } else {
        5
    }
}

fn count_bits(m: u8) -> (n: usize)
    ensures
        n == bit_count(m as int),
{
    let mut n: usize = 0;
    let mut k: usize = 0;
    while k < 6
        invariant
            k <= 6,
            n <= k,
            n == bit_count_below(m as int, k as int),
        decreases 6 - k,
    {
        if theme_bit(m, k) {
            n = n + 1;
        }
        k = k + 1;
    }
    proof {
        reveal_with_fuel(bit_count_below, 7);
    }
    n
}

pub open spec fn bit_count_below(m: int, k: int) -> int
    decreases k,
{
    if k <= 0 {
        0
    } else {
        bit_count_below(m, k - 1) + if has_bit(m, k - 1) {
            1int
        } else {
            0int
        }
    }
}

/// Keep the authored room faces, including its Leave slots and Void markers.
pub fn authored_routes(world: usize) -> (r: [Destination; 7])
    requires
        world < 27,
    ensures
        r@ == spec_authored_routes(world as int),
{
    proof {
        lemma_roster(world as int);
        reveal_with_fuel(bit_count_below, 7);
    }
    let mask = THEME_MASKS[world];
    let n = count_bits(mask);
    let r: [Destination; 7] = if n == 0 {
        [
            Destination::World(0),
            Destination::World(2),
            Destination::World(1),
            Destination::World(3),
            Destination::World(5),
            Destination::World(4),
            Destination::Leave,
        ]
    } else if n == 1 {
        let pair = lowest(mask) / 2;
        let mut routes = [Destination::Nowhere; 7];
        let mut k: usize = 0;
        while k < 4
            invariant
                k <= 4,
                n == 1,
                pair == lowest_bit(mask as int) / 2,
                roster_facts(world as int),
                mask == THEME_MASKS[world as int],
                bit_count(mask as int) == 1,
                forall|j: int| 0 <= j < k ==> routes[j] == spec_route(world as int, j),
                forall|j: int| k <= j < 7 ==> routes[j] == Destination::Nowhere,
            decreases 4 - k,
        {
            let other = if k < 2 * pair {
                k
            } else {
                k + 2
            };
            proof {
                assert(routes_named(world as int, k as int));
            }
            routes[k] = Destination::World(world_for_mask(mask + bit_value_of(other)));
            k = k + 1;
        }
        routes[4] = Destination::World(VOID);
        routes[5] = Destination::Leave;
        routes
    } else if n == 2 {
        let a = bit_value_of(lowest(mask));
        let b = bit_value_of(lowest(mask - a));
        let pair: usize = if !theme_bit(mask, 0) && !theme_bit(mask, 1) {
            0
        } else if !theme_bit(mask, 2) && !theme_bit(mask, 3) {
            1
        } else {
            2
        };
        proof {
            assert(routes_named(world as int, 0));
            assert(routes_named(world as int, 1));
            assert(routes_named(world as int, 2));
            assert(routes_named(world as int, 3));
        }
        [
            Destination::World(world_for_mask(a)),
            Destination::World(world_for_mask(mask + bit_value_of(2 * pair))),
            Destination::World(world_for_mask(b)),
            Destination::World(world_for_mask(mask + bit_value_of(2 * pair + 1))),
            Destination::Leave,
            Destination::Leave,
            Destination::Nowhere,
        ]
    } else {
        let a = bit_value_of(lowest(mask));
        let b = bit_value_of(lowest(mask - a));
        let c = bit_value_of(lowest(mask - a - b));
        proof {
            assert(routes_named(world as int, 0));
            assert(routes_named(world as int, 1));
            assert(routes_named(world as int, 2));
        }
        [
            Destination::World(world_for_mask(a + b)),
            Destination::World(world_for_mask(a + c)),
            Destination::World(world_for_mask(b + c)),
            Destination::Leave,
            Destination::Leave,
            Destination::Leave,
            Destination::Nowhere,
        ]
    };
    proof {
        assert(r@ =~= spec_authored_routes(world as int));
    }
    r
}

proof fn lemma_cubie_world(c: int)
    ensures
        cubie_world(c) < 27 ==> spec_cubie(cubie_world(c)) == c,
        0 <= cubie_world(c) <= 27,
        0 <= c < 27 ==> cubie_world(c) < 27,
{
    if c == 0 {
        lemma_roster_value(0);

    } else if c == 1 {
        lemma_roster_value(0);

    } else if c == 2 {
        lemma_roster_value(0);

    } else if c == 3 {
        lemma_roster_value(0);

    } else if c == 4 {
        lemma_roster_value(0);

    } else if c == 5 {
        lemma_roster_value(0);

    } else if c == 6 {
        lemma_roster_value(0);

    } else if c == 7 {
        lemma_roster_value(0);

    } else if c == 8 {
        lemma_roster_value(0);

    } else if c == 9 {
        lemma_roster_value(0);

    } else if c == 10 {
        lemma_roster_value(0);

    } else if c == 11 {
        lemma_roster_value(0);

    } else if c == 12 {
        lemma_roster_value(0);

    } else if c == 13 {
        lemma_roster_value(0);

    } else if c == 14 {
        lemma_roster_value(0);

    } else if c == 15 {
        lemma_roster_value(0);

    } else if c == 16 {
        lemma_roster_value(0);

    } else if c == 17 {
        lemma_roster_value(0);

    } else if c == 18 {
        lemma_roster_value(0);

    } else if c == 19 {
        lemma_roster_value(0);

    } else if c == 20 {
        lemma_roster_value(0);

    } else if c == 21 {
        lemma_roster_value(0);

    } else if c == 22 {
        lemma_roster_value(0);

    } else if c == 23 {
        lemma_roster_value(0);

    } else if c == 24 {
        lemma_roster_value(0);

    } else if c == 25 {
        lemma_roster_value(0);

    } else if c == 26 {
        lemma_roster_value(0);
    }

}

/// Which of the world's nonzero axes `axis` is, counting from x: the rank
/// of the sticker on that axis among the world's stickers.
pub open spec fn axis_rank(cell: [i8; 3], axis: int) -> Option<int> {
    if axis < 0 || axis >= 3 || cell[axis] == 0 {
        None
    } else {
        Some(
            (if axis > 0 && cell[0] != 0 {
                1int
            } else {
                0int
            }) + (if axis > 1 && cell[1] != 0 {
                1int
            } else {
                0int
            }),
        )
    }
}

/// The face of the `rank`-th Leave slot of world `w`, searching from `p`.
pub open spec fn nth_leave(w: int, rank: int, p: int) -> Option<int>
    decreases 7 - p,
{
    if p >= 7 || p < 0 {
        None
    } else if spec_route(w, p) == Destination::Leave {
        if rank == 0 {
            Some(p)
        } else {
            nth_leave(w, rank - 1, p + 1)
        }
    } else {
        nth_leave(w, rank, p + 1)
    }
}

/// The world of a cubie (never the Void) and the Leave slot of the given
/// sticker axis: local sticker axes map to the authored generic Leave slots
/// in order.
pub open spec fn spec_entry(cubie_id: int, face_axis: int) -> Option<(usize, usize)> {
    let w = cubie_world(cubie_id);
    if w >= VOID {
        None
    } else {
        match axis_rank(spec_solved_cell(w), face_axis) {
            None => None,
            Some(rank) => match nth_leave(w, rank, 0) {
                None => None,
                Some(p) => Some((w as usize, p as usize)),
            },
        }
    }
}

/// The first world other than the Void whose solved cell is `cubie_id`.
fn world_of_cubie(cubie_id: usize) -> (r: Option<usize>)
    ensures
        r == (if cubie_world(cubie_id as int) < VOID {
            Some(cubie_world(cubie_id as int) as usize)
        } else {
            None
        }),
{
    proof {
        lemma_cubie_world(cubie_id as int);
    }
    let mut world: usize = 0;
    while world < VOID
        invariant
            world <= VOID,
            forall|v: int| 0 <= v < world ==> spec_cubie(v) != cubie_id,
            cubie_world(cubie_id as int) < 27 ==> spec_cubie(cubie_world(cubie_id as int))
                == cubie_id,
        decreases VOID - world,
    {
        if cubie(world) == cubie_id {
            proof {
                lemma_roster(world as int);
            }
            return Some(world);
        }
        world = world + 1;
    }
    None
}

/// Cubie identity (not its post-turn lattice location) determines the
/// world; the sticker axis determines the portal.
pub fn entry(cubie_id: usize, face_axis: usize) -> (r: Option<(usize, usize)>)
    ensures
        r == spec_entry(cubie_id as int, face_axis as int),
{
    proof {
        lemma_cubie_world(cubie_id as int);
    }
    let world = match world_of_cubie(cubie_id) {
        Some(w) => w,
        None => {
            return None;
        },
    };
    proof {
        lemma_roster(world as int);
    }
    let cell = solved_cell(world);
    if face_axis >= 3 || cell[face_axis] == 0 {
        return None;
    }
    let mut rank: usize = 0;
    if face_axis > 0 && cell[0] != 0 {
        rank = rank + 1;
    }
    if face_axis > 1 && cell[1] != 0 {
        rank = rank + 1;
    }
    let routes = authored_routes(world);
    let mut p: usize = 0;
    let mut left: usize = rank;
    while p < 7
        invariant
            p <= 7,
            routes@ == spec_authored_routes(world as int),
            world == cubie_world(cubie_id as int),
            world < VOID,
            axis_rank(spec_solved_cell(world as int), face_axis as int) == Some(rank as int),
            nth_leave(world as int, rank as int, 0) == nth_leave(world as int, left as int, p as int),
        decreases 7 - p,
    {
        if routes[p] == Destination::Leave {
            if left == 0 {
                proof {
                    assert(routes@[p as int] == spec_route(world as int, p as int));
                    assert(nth_leave(world as int, 0, p as int) == Some(p as int));
                }
                return Some((world, p));
            }
            left = left - 1;
        }
        p = p + 1;
    }
    None
}


/// Route `k` of world `w` once the cubies have moved: an authored world
/// neighbour becomes the world of whichever cubie now sits on the cell that
/// the authored direction reaches through the cubie's present pose; Leave
/// and Nowhere faces stay as authored.
pub open spec fn spec_moved_route(w: int, k: int, s: Seq<Cubie>) -> Destination {
    match spec_route(w, k) {
        Destination::World(t) => Destination::World(
            cubie_world(occupant(s, carried(s[spec_cubie(w)], spec_solved_cell(t as int)))) as usize,
        ),
        d => d,
    }
}

/// The routes of world `w` in lattice `s`; the Void keeps its authored routes.
pub open spec fn spec_routes(w: int, s: Seq<Cubie>) -> Seq<Destination> {
    if w == VOID {
        spec_authored_routes(w)
    } else {
        Seq::new(7, |k: int| spec_moved_route(w, k, s))
    }
}

/// The world whose solved cell is cubie `identity`.
fn world_of_identity(identity: usize) -> (w: usize)
    requires
        identity < 27,
    ensures
        w == cubie_world(identity as int),
{
    proof {
        lemma_cubie_world(identity as int);
    }
    let mut world: usize = 0;
    while world < 27
        invariant
            world <= 27,
            identity < 27,
            cubie_world(identity as int) < 27,
            spec_cubie(cubie_world(identity as int)) == identity,
            forall|v: int| 0 <= v < world ==> spec_cubie(v) != identity,
        decreases 27 - world,
    {
        if cubie(world) == identity {
            proof {
                lemma_roster_bijection();
                if world < cubie_world(identity as int) {
                    assert(spec_cubie(world as int) != spec_cubie(cubie_world(identity as int)));
                }
            }
            return world;
        }
        world = world + 1;
    }
    world
}

/// `b * d` for a lattice component `b` and a small step `d`.
fn scale(b: i8, d: i8) -> (r: i8)
    requires
        -1 <= b <= 1,
        -2 <= d <= 2,
    ensures
        r == b * d,
        -2 <= r <= 2,
{
    if b == 0 {
        0
    } else if b == 1 {
        d
    } else {
        assert(b * d == -d) by (nonlinear_arith)
            requires
                b == -1,
        ;
        -d
    }
}

proof fn lemma_shift(h0: int, h1: int, h2: int, n0: int, n1: int, n2: int, b0: int, b1: int, b2: int)
    ensures
        (h0 * b0 + h1 * b1 + h2 * b2) + (b0 * (n0 - h0) + b1 * (n1 - h1) + b2 * (n2 - h2)) == n0
            * b0 + n1 * b1 + n2 * b2,
{
    assert((h0 * b0 + h1 * b1 + h2 * b2) + (b0 * (n0 - h0) + b1 * (n1 - h1) + b2 * (n2 - h2))
        == n0 * b0 + n1 * b1 + n2 * b2) by (nonlinear_arith);
}

proof fn lemma_solved_cell_unit(w: int)
    requires
        0 <= w < 27,
    ensures
        unit3(spec_solved_cell(w)),
        cell_index(spec_solved_cell(w)) == spec_cubie(w),
{
}

/// A world's routes in the present lattice: every authored world neighbour
/// is replaced by the world of the cubie that now sits on the adjacent cell.
pub fn routes(world: usize, puzzle: &Puzzle) -> (r: [Destination; 7])
    requires
        world < 27,
        puzzle.wf(),
    ensures
        r@ == spec_routes(world as int, puzzle.lattice()),
{
    let authored = authored_routes(world);
    if world == VOID {
        return authored;
    }
    proof {
        lemma_roster(world as int);
    }
    let ghost s = puzzle.lattice();
    let ghost w = world as int;
    let origin = solved_cell(world);
    let id = cubie(world);
    let (cell, basis) = puzzle.lattice_pose(id);
    proof {
        lemma_solved_cell_unit(w);
        lemma_cell_index(origin);
        assert(cubie_ok(id as int, s[id as int]));
        assert(same_cell(home_cell(id as int), origin));
    }
    let mut r = authored;
    let mut k: usize = 0;
    while k < 7
        invariant
            k <= 7,
            w == world,
            world < 27,
            world != VOID,
            puzzle.wf(),
            s == puzzle.lattice(),
            roster_facts(w),
            id == spec_cubie(w),
            id < 27,
            origin == spec_solved_cell(w),
            cell == s[id as int].cell,
            basis == s[id as int].basis,
            cubie_ok(id as int, s[id as int]),
            same_cell(home_cell(id as int), origin),
            authored@ == spec_authored_routes(w),
            forall|j: int| 0 <= j < k ==> r@[j] == spec_moved_route(w, j, s),
            forall|j: int| k <= j < 7 ==> r@[j] == authored@[j],
        decreases 7 - k,
    {
        if let Destination::World(target) = authored[k] {
            proof {
                assert(authored@[k as int] == spec_route(w, k as int));
                assert(routes_named(w, k as int));
                assert(target < 27);
            }
            let neighbor = solved_cell(target);
            proof {
                lemma_solved_cell_unit(target as int);
            }
            let d0 = neighbor[0] - origin[0];
            let d1 = neighbor[1] - origin[1];
            let d2 = neighbor[2] - origin[2];
            let a0 = cell[0] + (scale(basis[0][0], d0) + scale(basis[1][0], d1) + scale(basis[2][0], d2));
            let a1 = cell[1] + (scale(basis[0][1], d0) + scale(basis[1][1], d1) + scale(basis[2][1], d2));
            let a2 = cell[2] + (scale(basis[0][2], d0) + scale(basis[1][2], d1) + scale(basis[2][2], d2));
            let adjacent: [i8; 3] = [a0, a1, a2];
            let ghost v = carried(s[id as int], neighbor);
            proof {
                let b = basis;
                lemma_carried_unit(id as int, s[id as int], neighbor);
                lemma_shift(origin[0] as int, origin[1] as int, origin[2] as int, neighbor[0] as int,
                    neighbor[1] as int, neighbor[2] as int, b[0][0] as int, b[1][0] as int, b[2][0] as int);
                lemma_shift(origin[0] as int, origin[1] as int, origin[2] as int, neighbor[0] as int,
                    neighbor[1] as int, neighbor[2] as int, b[0][1] as int, b[1][1] as int, b[2][1] as int);
                lemma_shift(origin[0] as int, origin[1] as int, origin[2] as int, neighbor[0] as int,
                    neighbor[1] as int, neighbor[2] as int, b[0][2] as int, b[1][2] as int, b[2][2] as int);
                assert(same_cell(adjacent, v));
                assert(occupied(s, v));
                let i = choose|i: int| 0 <= i < 27 && same_cell(#[trigger] s[i].cell, v);
                assert(same_cell(s[i].cell, adjacent));
            }
            let found = puzzle.identity_at(adjacent);
            let identity = found.unwrap();
            proof {
                lemma_occupant(s, identity as int, v);
            }
            r[k] = Destination::World(world_of_identity(identity));
        }
        k = k + 1;
    }
    proof {
        assert(r@ =~= spec_routes(w, s));
    }
    r
}


/// Authored route `k` of world `w`, if it names a world, names one of the
/// 27 whose solved cell shares a face with the solved cell of `w`.
pub open spec fn route_adjacent(w: int, k: int) -> bool {
    spec_route(w, k) matches Destination::World(t) ==> t < 27 && adjacent_cells(
        spec_solved_cell(w),
        spec_solved_cell(t as int),
    )
}

/// Some authored route of world `w` names the world whose solved cell is `v`.
pub open spec fn routed_to(w: int, v: [i8; 3]) -> bool {
    exists|k: int|
        0 <= k < 7 && #[trigger] spec_route(w, k) == Destination::World(
            cubie_world(cell_index(v)) as usize,
        )
}

/// Law: the authored routes of every world name exactly the worlds on the
/// cells that share a face with its solved cell; only the six single-theme
/// worlds route to the Void, through their bottom face.
#[verifier::spinoff_prover]
#[verifier::rlimit(100)]
pub proof fn lemma_authored_neighbours(w: int)
    requires
        0 <= w < 27,
    ensures
        forall|k: int| 0 <= k < 7 ==> #[trigger] route_adjacent(w, k),
        forall|v: [i8; 3]|
            unit3(v) && adjacent_cells(spec_solved_cell(w), v) ==> #[trigger] routed_to(w, v),
        forall|k: int|
            0 <= k < 7 && #[trigger] spec_route(w, k) == Destination::World(VOID) ==> w < 6,
        w < 6 ==> spec_route(w, 4) == Destination::World(VOID),
{
    lemma_roster(w);
    if w == 0 {
        assert(spec_route(0, 0) == Destination::World(6));
        assert(spec_route(0, 1) == Destination::World(7));
        assert(spec_route(0, 2) == Destination::World(8));
        assert(spec_route(0, 3) == Destination::World(9));
        assert(spec_route(0, 4) == Destination::World(26));
        assert(spec_route(0, 5) == Destination::Leave);
        assert(spec_route(0, 6) == Destination::Nowhere);
        assert forall|v: [i8; 3]| unit3(v) && adjacent_cells(spec_solved_cell(0), v) implies #[trigger] routed_to(0, v) by {
            if v[0] == 0 && v[1] == 0 && v[2] == 0 {
                assert(spec_route(0, 4) == Destination::World(26));
            } else if v[0] == 1 && v[1] == -1 && v[2] == 0 {
                assert(spec_route(0, 1) == Destination::World(7));
            } else if v[0] == 1 && v[1] == 1 && v[2] == 0 {
                assert(spec_route(0, 0) == Destination::World(6));
            } else if v[0] == 1 && v[1] == 0 && v[2] == -1 {
                assert(spec_route(0, 3) == Destination::World(9));
            } else if v[0] == 1 && v[1] == 0 && v[2] == 1 {
                assert(spec_route(0, 2) == Destination::World(8));
            }
        }
    } else if w == 1 {
        assert(spec_route(1, 0) == Destination::World(10));
        assert(spec_route(1, 1) == Destination::World(11));
        assert(spec_route(1, 2) == Destination::World(12));
        assert(spec_route(1, 3) == Destination::World(13));
        assert(spec_route(1, 4) == Destination::World(26));
        assert(spec_route(1, 5) == Destination::Leave);
        assert(spec_route(1, 6) == Destination::Nowhere);
        assert forall|v: [i8; 3]| unit3(v) && adjacent_cells(spec_solved_cell(1), v) implies #[trigger] routed_to(1, v) by {
            if v[0] == 0 && v[1] == 0 && v[2] == 0 {
                assert(spec_route(1, 4) == Destination::World(26));
            } else if v[0] == -1 && v[1] == -1 && v[2] == 0 {
                assert(spec_route(1, 1) == Destination::World(11));
            } else if v[0] == -1 && v[1] == 1 && v[2] == 0 {
                assert(spec_route(1, 0) == Destination::World(10));
            } else if v[0] == -1 && v[1] == 0 && v[2] == -1 {
                assert(spec_route(1, 3) == Destination::World(13));
            } else if v[0] == -1 && v[1] == 0 && v[2] == 1 {
                assert(spec_route(1, 2) == Destination::World(12));
            }
        }
    } else if w == 2 {
        assert(spec_route(2, 0) == Destination::World(6));
        assert(spec_route(2, 1) == Destination::World(10));
        assert(spec_route(2, 2) == Destination::World(14));
        assert(spec_route(2, 3) == Destination::World(15));
        assert(spec_route(2, 4) == Destination::World(26));
        assert(spec_route(2, 5) == Destination::Leave);
        assert(spec_route(2, 6) == Destination::Nowhere);
        assert forall|v: [i8; 3]| unit3(v) && adjacent_cells(spec_solved_cell(2), v) implies #[trigger] routed_to(2, v) by {
            if v[0] == -1 && v[1] == 1 && v[2] == 0 {
                assert(spec_route(2, 1) == Destination::World(10));
            } else if v[0] == 1 && v[1] == 1 && v[2] == 0 {
                assert(spec_route(2, 0) == Destination::World(6));
            } else if v[0] == 0 && v[1] == 0 && v[2] == 0 {
                assert(spec_route(2, 4) == Destination::World(26));
            } else if v[0] == 0 && v[1] == 1 && v[2] == -1 {
                assert(spec_route(2, 3) == Destination::World(15));
            } else if v[0] == 0 && v[1] == 1 && v[2] == 1 {
                assert(spec_route(2, 2) == Destination::World(14));
            }
        }
    } else if w == 3 {
        assert(spec_route(3, 0) == Destination::World(7));
        assert(spec_route(3, 1) == Destination::World(11));
        assert(spec_route(3, 2) == Destination::World(16));
        assert(spec_route(3, 3) == Destination::World(17));
        assert(spec_route(3, 4) == Destination::World(26));
        assert(spec_route(3, 5) == Destination::Leave);
        assert(spec_route(3, 6) == Destination::Nowhere);
        assert forall|v: [i8; 3]| unit3(v) && adjacent_cells(spec_solved_cell(3), v) implies #[trigger] routed_to(3, v) by {
            if v[0] == -1 && v[1] == -1 && v[2] == 0 {
                assert(spec_route(3, 1) == Destination::World(11));
            } else if v[0] == 1 && v[1] == -1 && v[2] == 0 {
                assert(spec_route(3, 0) == Destination::World(7));
            } else if v[0] == 0 && v[1] == 0 && v[2] == 0 {
                assert(spec_route(3, 4) == Destination::World(26));
            } else if v[0] == 0 && v[1] == -1 && v[2] == -1 {
                assert(spec_route(3, 3) == Destination::World(17));
            } else if v[0] == 0 && v[1] == -1 && v[2] == 1 {
                assert(spec_route(3, 2) == Destination::World(16));
            }
        }
    } else if w == 4 {
        assert(spec_route(4, 0) == Destination::World(8));
        assert(spec_route(4, 1) == Destination::World(12));
        assert(spec_route(4, 2) == Destination::World(14));
        assert(spec_route(4, 3) == Destination::World(16));
        assert(spec_route(4, 4) == Destination::World(26));
        assert(spec_route(4, 5) == Destination::Leave);
        assert(spec_route(4, 6) == Destination::Nowhere);
        assert forall|v: [i8; 3]| unit3(v) && adjacent_cells(spec_solved_cell(4), v) implies #[trigger] routed_to(4, v) by {
            if v[0] == -1 && v[1] == 0 && v[2] == 1 {
                assert(spec_route(4, 1) == Destination::World(12));
            } else if v[0] == 1 && v[1] == 0 && v[2] == 1 {
                assert(spec_route(4, 0) == Destination::World(8));
            } else if v[0] == 0 && v[1] == -1 && v[2] == 1 {
                assert(spec_route(4, 3) == Destination::World(16));
            } else if v[0] == 0 && v[1] == 1 && v[2] == 1 {
                assert(spec_route(4, 2) == Destination::World(14));
            } else if v[0] == 0 && v[1] == 0 && v[2] == 0 {
                assert(spec_route(4, 4) == Destination::World(26));
            }
        }
    } else if w == 5 {
        assert(spec_route(5, 0) == Destination::World(9));
        assert(spec_route(5, 1) == Destination::World(13));
        assert(spec_route(5, 2) == Destination::World(15));
        assert(spec_route(5, 3) == Destination::World(17));
        assert(spec_route(5, 4) == Destination::World(26));
        assert(spec_route(5, 5) == Destination::Leave);
        assert(spec_route(5, 6) == Destination::Nowhere);
        assert forall|v: [i8; 3]| unit3(v) && adjacent_cells(spec_solved_cell(5), v) implies #[trigger] routed_to(5, v) by {
            if v[0] == -1 && v[1] == 0 && v[2] == -1 {
                assert(spec_route(5, 1) == Destination::World(13));
            } else if v[0] == 1 && v[1] == 0 && v[2] == -1 {
                assert(spec_route(5, 0) == Destination::World(9));
            } else if v[0] == 0 && v[1] == -1 && v[2] == -1 {
                assert(spec_route(5, 3) == Destination::World(17));
            } else if v[0] == 0 && v[1] == 1 && v[2] == -1 {
                assert(spec_route(5, 2) == Destination::World(15));
            } else if v[0] == 0 && v[1] == 0 && v[2] == 0 {
                assert(spec_route(5, 4) == Destination::World(26));
            }
        }
    } else if w == 6 {
        assert(spec_route(6, 0) == Destination::World(0));
        assert(spec_route(6, 1) == Destination::World(18));
        assert(spec_route(6, 2) == Destination::World(2));
        assert(spec_route(6, 3) == Destination::World(19));
        assert(spec_route(6, 4) == Destination::Leave);
        assert(spec_route(6, 5) == Destination::Leave);
        assert(spec_route(6, 6) == Destination::Nowhere);
        assert forall|v: [i8; 3]| unit3(v) && adjacent_cells(spec_solved_cell(6), v) implies #[trigger] routed_to(6, v) by {
            if v[0] == 0 && v[1] == 1 && v[2] == 0 {
                assert(spec_route(6, 2) == Destination::World(2));
            } else if v[0] == 1 && v[1] == 0 && v[2] == 0 {
                assert(spec_route(6, 0) == Destination::World(0));
            } else if v[0] == 1 && v[1] == 1 && v[2] == -1 {
                assert(spec_route(6, 3) == Destination::World(19));
            } else if v[0] == 1 && v[1] == 1 && v[2] == 1 {
                assert(spec_route(6, 1) == Destination::World(18));
            }
        }
    } else if w == 7 {
        assert(spec_route(7, 0) == Destination::World(0));
        assert(spec_route(7, 1) == Destination::World(20));
        assert(spec_route(7, 2) == Destination::World(3));
        assert(spec_route(7, 3) == Destination::World(21));
        assert(spec_route(7, 4) == Destination::Leave);
        assert(spec_route(7, 5) == Destination::Leave);
        assert(spec_route(7, 6) == Destination::Nowhere);
        assert forall|v: [i8; 3]| unit3(v) && adjacent_cells(spec_solved_cell(7), v) implies #[trigger] routed_to(7, v) by {
            if v[0] == 0 && v[1] == -1 && v[2] == 0 {
                assert(spec_route(7, 2) == Destination::World(3));
            } else if v[0] == 1 && v[1] == 0 && v[2] == 0 {
                assert(spec_route(7, 0) == Destination::World(0));
            } else if v[0] == 1 && v[1] == -1 && v[2] == -1 {
                assert(spec_route(7, 3) == Destination::World(21));
            } else if v[0] == 1 && v[1] == -1 && v[2] == 1 {
                assert(spec_route(7, 1) == Destination::World(20));
            }
        }
    } else if w == 8 {
        assert(spec_route(8, 0) == Destination::World(0));
        assert(spec_route(8, 1) == Destination::World(18));
        assert(spec_route(8, 2) == Destination::World(4));
        assert(spec_route(8, 3) == Destination::World(20));
        assert(spec_route(8, 4) == Destination::Leave);
        assert(spec_route(8, 5) == Destination::Leave);
        assert(spec_route(8, 6) == Destination::Nowhere);
        assert forall|v: [i8; 3]| unit3(v) && adjacent_cells(spec_solved_cell(8), v) implies #[trigger] routed_to(8, v) by {
            if v[0] == 0 && v[1] == 0 && v[2] == 1 {
                assert(spec_route(8, 2) == Destination::World(4));
            } else if v[0] == 1 && v[1] == -1 && v[2] == 1 {
                assert(spec_route(8, 3) == Destination::World(20));
            } else if v[0] == 1 && v[1] == 1 && v[2] == 1 {
                assert(spec_route(8, 1) == Destination::World(18));
            } else if v[0] == 1 && v[1] == 0 && v[2] == 0 {
                assert(spec_route(8, 0) == Destination::World(0));
            }
        }
    } else if w == 9 {
        assert(spec_route(9, 0) == Destination::World(0));
        assert(spec_route(9, 1) == Destination::World(19));
        assert(spec_route(9, 2) == Destination::World(5));
        assert(spec_route(9, 3) == Destination::World(21));
        assert(spec_route(9, 4) == Destination::Leave);
        assert(spec_route(9, 5) == Destination::Leave);
        assert(spec_route(9, 6) == Destination::Nowhere);
        assert forall|v: [i8; 3]| unit3(v) && adjacent_cells(spec_solved_cell(9), v) implies #[trigger] routed_to(9, v) by {
            if v[0] == 0 && v[1] == 0 && v[2] == -1 {
                assert(spec_route(9, 2) == Destination::World(5));
            } else if v[0] == 1 && v[1] == -1 && v[2] == -1 {
                assert(spec_route(9, 3) == Destination::World(21));
            } else if v[0] == 1 && v[1] == 1 && v[2] == -1 {
                assert(spec_route(9, 1) == Destination::World(19));
            } else if v[0] == 1 && v[1] == 0 && v[2] == 0 {
                assert(spec_route(9, 0) == Destination::World(0));
            }
        }
    } else if w == 10 {
        assert(spec_route(10, 0) == Destination::World(1));
        assert(spec_route(10, 1) == Destination::World(22));
        assert(spec_route(10, 2) == Destination::World(2));
        assert(spec_route(10, 3) == Destination::World(23));
        assert(spec_route(10, 4) == Destination::Leave);
        assert(spec_route(10, 5) == Destination::Leave);
        assert(spec_route(10, 6) == Destination::Nowhere);
        assert forall|v: [i8; 3]| unit3(v) && adjacent_cells(spec_solved_cell(10), v) implies #[trigger] routed_to(10, v) by {
            if v[0] == 0 && v[1] == 1 && v[2] == 0 {
                assert(spec_route(10, 2) == Destination::World(2));
            } else if v[0] == -1 && v[1] == 0 && v[2] == 0 {
                assert(spec_route(10, 0) == Destination::World(1));
            } else if v[0] == -1 && v[1] == 1 && v[2] == -1 {
                assert(spec_route(10, 3) == Destination::World(23));
            } else if v[0] == -1 && v[1] == 1 && v[2] == 1 {
                assert(spec_route(10, 1) == Destination::World(22));
            }
        }
    } else if w == 11 {
        assert(spec_route(11, 0) == Destination::World(1));
        assert(spec_route(11, 1) == Destination::World(24));
        assert(spec_route(11, 2) == Destination::World(3));
        assert(spec_route(11, 3) == Destination::World(25));
        assert(spec_route(11, 4) == Destination::Leave);
        assert(spec_route(11, 5) == Destination::Leave);
        assert(spec_route(11, 6) == Destination::Nowhere);
        assert forall|v: [i8; 3]| unit3(v) && adjacent_cells(spec_solved_cell(11), v) implies #[trigger] routed_to(11, v) by {
            if v[0] == 0 && v[1] == -1 && v[2] == 0 {
                assert(spec_route(11, 2) == Destination::World(3));
            } else if v[0] == -1 && v[1] == 0 && v[2] == 0 {
                assert(spec_route(11, 0) == Destination::World(1));
            } else if v[0] == -1 && v[1] == -1 && v[2] == -1 {
                assert(spec_route(11, 3) == Destination::World(25));
            } else if v[0] == -1 && v[1] == -1 && v[2] == 1 {
                assert(spec_route(11, 1) == Destination::World(24));
            }
        }
    } else if w == 12 {
        assert(spec_route(12, 0) == Destination::World(1));
        assert(spec_route(12, 1) == Destination::World(22));
        assert(spec_route(12, 2) == Destination::World(4));
        assert(spec_route(12, 3) == Destination::World(24));
        assert(spec_route(12, 4) == Destination::Leave);
        assert(spec_route(12, 5) == Destination::Leave);
        assert(spec_route(12, 6) == Destination::Nowhere);
        assert forall|v: [i8; 3]| unit3(v) && adjacent_cells(spec_solved_cell(12), v) implies #[trigger] routed_to(12, v) by {
            if v[0] == 0 && v[1] == 0 && v[2] == 1 {
                assert(spec_route(12, 2) == Destination::World(4));
            } else if v[0] == -1 && v[1] == -1 && v[2] == 1 {
                assert(spec_route(12, 3) == Destination::World(24));
            } else if v[0] == -1 && v[1] == 1 && v[2] == 1 {
                assert(spec_route(12, 1) == Destination::World(22));
            } else if v[0] == -1 && v[1] == 0 && v[2] == 0 {
                assert(spec_route(12, 0) == Destination::World(1));
            }
        }
    } else if w == 13 {
        assert(spec_route(13, 0) == Destination::World(1));
        assert(spec_route(13, 1) == Destination::World(23));
        assert(spec_route(13, 2) == Destination::World(5));
        assert(spec_route(13, 3) == Destination::World(25));
        assert(spec_route(13, 4) == Destination::Leave);
        assert(spec_route(13, 5) == Destination::Leave);
        assert(spec_route(13, 6) == Destination::Nowhere);
        assert forall|v: [i8; 3]| unit3(v) && adjacent_cells(spec_solved_cell(13), v) implies #[trigger] routed_to(13, v) by {
            if v[0] == 0 && v[1] == 0 && v[2] == -1 {
                assert(spec_route(13, 2) == Destination::World(5));
            } else if v[0] == -1 && v[1] == -1 && v[2] == -1 {
                assert(spec_route(13, 3) == Destination::World(25));
            } else if v[0] == -1 && v[1] == 1 && v[2] == -1 {
                assert(spec_route(13, 1) == Destination::World(23));
            } else if v[0] == -1 && v[1] == 0 && v[2] == 0 {
                assert(spec_route(13, 0) == Destination::World(1));
            }
        }
    } else if w == 14 {
        assert(spec_route(14, 0) == Destination::World(2));
        assert(spec_route(14, 1) == Destination::World(18));
        assert(spec_route(14, 2) == Destination::World(4));
        assert(spec_route(14, 3) == Destination::World(22));
        assert(spec_route(14, 4) == Destination::Leave);
        assert(spec_route(14, 5) == Destination::Leave);
        assert(spec_route(14, 6) == Destination::Nowhere);
        assert forall|v: [i8; 3]| unit3(v) && adjacent_cells(spec_solved_cell(14), v) implies #[trigger] routed_to(14, v) by {
            if v[0] == -1 && v[1] == 1 && v[2] == 1 {
                assert(spec_route(14, 3) == Destination::World(22));
            } else if v[0] == 1 && v[1] == 1 && v[2] == 1 {
                assert(spec_route(14, 1) == Destination::World(18));
            } else if v[0] == 0 && v[1] == 0 && v[2] == 1 {
                assert(spec_route(14, 2) == Destination::World(4));
            } else if v[0] == 0 && v[1] == 1 && v[2] == 0 {
                assert(spec_route(14, 0) == Destination::World(2));
            }
        }
    } else if w == 15 {
        assert(spec_route(15, 0) == Destination::World(2));
        assert(spec_route(15, 1) == Destination::World(19));
        assert(spec_route(15, 2) == Destination::World(5));
        assert(spec_route(15, 3) == Destination::World(23));
        assert(spec_route(15, 4) == Destination::Leave);
        assert(spec_route(15, 5) == Destination::Leave);
        assert(spec_route(15, 6) == Destination::Nowhere);
        assert forall|v: [i8; 3]| unit3(v) && adjacent_cells(spec_solved_cell(15), v) implies #[trigger] routed_to(15, v) by {
            if v[0] == -1 && v[1] == 1 && v[2] == -1 {
                assert(spec_route(15, 3) == Destination::World(23));
            } else if v[0] == 1 && v[1] == 1 && v[2] == -1 {
                assert(spec_route(15, 1) == Destination::World(19));
            } else if v[0] == 0 && v[1] == 0 && v[2] == -1 {
                assert(spec_route(15, 2) == Destination::World(5));
            } else if v[0] == 0 && v[1] == 1 && v[2] == 0 {
                assert(spec_route(15, 0) == Destination::World(2));
            }
        }
    } else if w == 16 {
        assert(spec_route(16, 0) == Destination::World(3));
        assert(spec_route(16, 1) == Destination::World(20));
        assert(spec_route(16, 2) == Destination::World(4));
        assert(spec_route(16, 3) == Destination::World(24));
        assert(spec_route(16, 4) == Destination::Leave);
        assert(spec_route(16, 5) == Destination::Leave);
        assert(spec_route(16, 6) == Destination::Nowhere);
        assert forall|v: [i8; 3]| unit3(v) && adjacent_cells(spec_solved_cell(16), v) implies #[trigger] routed_to(16, v) by {
            if v[0] == -1 && v[1] == -1 && v[2] == 1 {
                assert(spec_route(16, 3) == Destination::World(24));
            } else if v[0] == 1 && v[1] == -1 && v[2] == 1 {
                assert(spec_route(16, 1) == Destination::World(20));
            } else if v[0] == 0 && v[1] == 0 && v[2] == 1 {
                assert(spec_route(16, 2) == Destination::World(4));
            } else if v[0] == 0 && v[1] == -1 && v[2] == 0 {
                assert(spec_route(16, 0) == Destination::World(3));
            }
        }
    } else if w == 17 {
        assert(spec_route(17, 0) == Destination::World(3));
        assert(spec_route(17, 1) == Destination::World(21));
        assert(spec_route(17, 2) == Destination::World(5));
        assert(spec_route(17, 3) == Destination::World(25));
        assert(spec_route(17, 4) == Destination::Leave);
        assert(spec_route(17, 5) == Destination::Leave);
        assert(spec_route(17, 6) == Destination::Nowhere);
        assert forall|v: [i8; 3]| unit3(v) && adjacent_cells(spec_solved_cell(17), v) implies #[trigger] routed_to(17, v) by {
            if v[0] == -1 && v[1] == -1 && v[2] == -1 {
                assert(spec_route(17, 3) == Destination::World(25));
            } else if v[0] == 1 && v[1] == -1 && v[2] == -1 {
                assert(spec_route(17, 1) == Destination::World(21));
            } else if v[0] == 0 && v[1] == 0 && v[2] == -1 {
                assert(spec_route(17, 2) == Destination::World(5));
            } else if v[0] == 0 && v[1] == -1 && v[2] == 0 {
                assert(spec_route(17, 0) == Destination::World(3));
            }
        }
    } else if w == 18 {
        assert(spec_route(18, 0) == Destination::World(6));
        assert(spec_route(18, 1) == Destination::World(8));
        assert(spec_route(18, 2) == Destination::World(14));
        assert(spec_route(18, 3) == Destination::Leave);
        assert(spec_route(18, 4) == Destination::Leave);
        assert(spec_route(18, 5) == Destination::Leave);
        assert(spec_route(18, 6) == Destination::Nowhere);
        assert forall|v: [i8; 3]| unit3(v) && adjacent_cells(spec_solved_cell(18), v) implies #[trigger] routed_to(18, v) by {
            if v[0] == 0 && v[1] == 1 && v[2] == 1 {
                assert(spec_route(18, 2) == Destination::World(14));
            } else if v[0] == 1 && v[1] == 0 && v[2] == 1 {
                assert(spec_route(18, 1) == Destination::World(8));
            } else if v[0] == 1 && v[1] == 1 && v[2] == 0 {
                assert(spec_route(18, 0) == Destination::World(6));
            }
        }
    } else if w == 19 {
        assert(spec_route(19, 0) == Destination::World(6));
        assert(spec_route(19, 1) == Destination::World(9));
        assert(spec_route(19, 2) == Destination::World(15));
        assert(spec_route(19, 3) == Destination::Leave);
        assert(spec_route(19, 4) == Destination::Leave);
        assert(spec_route(19, 5) == Destination::Leave);
        assert(spec_route(19, 6) == Destination::Nowhere);
        assert forall|v: [i8; 3]| unit3(v) && adjacent_cells(spec_solved_cell(19), v) implies #[trigger] routed_to(19, v) by {
            if v[0] == 0 && v[1] == 1 && v[2] == -1 {
                assert(spec_route(19, 2) == Destination::World(15));
            } else if v[0] == 1 && v[1] == 0 && v[2] == -1 {
                assert(spec_route(19, 1) == Destination::World(9));
            } else if v[0] == 1 && v[1] == 1 && v[2] == 0 {
                assert(spec_route(19, 0) == Destination::World(6));
            }
        }
    } else if w == 20 {
        assert(spec_route(20, 0) == Destination::World(7));
        assert(spec_route(20, 1) == Destination::World(8));
        assert(spec_route(20, 2) == Destination::World(16));
        assert(spec_route(20, 3) == Destination::Leave);
        assert(spec_route(20, 4) == Destination::Leave);
        assert(spec_route(20, 5) == Destination::Leave);
        assert(spec_route(20, 6) == Destination::Nowhere);
        assert forall|v: [i8; 3]| unit3(v) && adjacent_cells(spec_solved_cell(20), v) implies #[trigger] routed_to(20, v) by {
            if v[0] == 0 && v[1] == -1 && v[2] == 1 {
                assert(spec_route(20, 2) == Destination::World(16));
            } else if v[0] == 1 && v[1] == 0 && v[2] == 1 {
                assert(spec_route(20, 1) == Destination::World(8));
            } else if v[0] == 1 && v[1] == -1 && v[2] == 0 {
                assert(spec_route(20, 0) == Destination::World(7));
            }
        }
    } else if w == 21 {
        assert(spec_route(21, 0) == Destination::World(7));
        assert(spec_route(21, 1) == Destination::World(9));
        assert(spec_route(21, 2) == Destination::World(17));
        assert(spec_route(21, 3) == Destination::Leave);
        assert(spec_route(21, 4) == Destination::Leave);
        assert(spec_route(21, 5) == Destination::Leave);
        assert(spec_route(21, 6) == Destination::Nowhere);
        assert forall|v: [i8; 3]| unit3(v) && adjacent_cells(spec_solved_cell(21), v) implies #[trigger] routed_to(21, v) by {
            if v[0] == 0 && v[1] == -1 && v[2] == -1 {
                assert(spec_route(21, 2) == Destination::World(17));
            } else if v[0] == 1 && v[1] == 0 && v[2] == -1 {
                assert(spec_route(21, 1) == Destination::World(9));
            } else if v[0] == 1 && v[1] == -1 && v[2] == 0 {
                assert(spec_route(21, 0) == Destination::World(7));
            }
        }
    } else if w == 22 {
        assert(spec_route(22, 0) == Destination::World(10));
        assert(spec_route(22, 1) == Destination::World(12));
        assert(spec_route(22, 2) == Destination::World(14));
        assert(spec_route(22, 3) == Destination::Leave);
        assert(spec_route(22, 4) == Destination::Leave);
        assert(spec_route(22, 5) == Destination::Leave);
        assert(spec_route(22, 6) == Destination::Nowhere);
        assert forall|v: [i8; 3]| unit3(v) && adjacent_cells(spec_solved_cell(22), v) implies #[trigger] routed_to(22, v) by {
            if v[0] == 0 && v[1] == 1 && v[2] == 1 {
                assert(spec_route(22, 2) == Destination::World(14));
            } else if v[0] == -1 && v[1] == 0 && v[2] == 1 {
                assert(spec_route(22, 1) == Destination::World(12));
            } else if v[0] == -1 && v[1] == 1 && v[2] == 0 {
                assert(spec_route(22, 0) == Destination::World(10));
            }
        }
    } else if w == 23 {
        assert(spec_route(23, 0) == Destination::World(10));
        assert(spec_route(23, 1) == Destination::World(13));
        assert(spec_route(23, 2) == Destination::World(15));
        assert(spec_route(23, 3) == Destination::Leave);
        assert(spec_route(23, 4) == Destination::Leave);
        assert(spec_route(23, 5) == Destination::Leave);
        assert(spec_route(23, 6) == Destination::Nowhere);
        assert forall|v: [i8; 3]| unit3(v) && adjacent_cells(spec_solved_cell(23), v) implies #[trigger] routed_to(23, v) by {
            if v[0] == 0 && v[1] == 1 && v[2] == -1 {
                assert(spec_route(23, 2) == Destination::World(15));
            } else if v[0] == -1 && v[1] == 0 && v[2] == -1 {
                assert(spec_route(23, 1) == Destination::World(13));
            } else if v[0] == -1 && v[1] == 1 && v[2] == 0 {
                assert(spec_route(23, 0) == Destination::World(10));
            }
        }
    } else if w == 24 {
        assert(spec_route(24, 0) == Destination::World(11));
        assert(spec_route(24, 1) == Destination::World(12));
        assert(spec_route(24, 2) == Destination::World(16));
        assert(spec_route(24, 3) == Destination::Leave);
        assert(spec_route(24, 4) == Destination::Leave);
        assert(spec_route(24, 5) == Destination::Leave);
        assert(spec_route(24, 6) == Destination::Nowhere);
        assert forall|v: [i8; 3]| unit3(v) && adjacent_cells(spec_solved_cell(24), v) implies #[trigger] routed_to(24, v) by {
            if v[0] == 0 && v[1] == -1 && v[2] == 1 {
                assert(spec_route(24, 2) == Destination::World(16));
            } else if v[0] == -1 && v[1] == 0 && v[2] == 1 {
                assert(spec_route(24, 1) == Destination::World(12));
            } else if v[0] == -1 && v[1] == -1 && v[2] == 0 {
                assert(spec_route(24, 0) == Destination::World(11));
            }
        }
    } else if w == 25 {
        assert(spec_route(25, 0) == Destination::World(11));
        assert(spec_route(25, 1) == Destination::World(13));
        assert(spec_route(25, 2) == Destination::World(17));
        assert(spec_route(25, 3) == Destination::Leave);
        assert(spec_route(25, 4) == Destination::Leave);
        assert(spec_route(25, 5) == Destination::Leave);
        assert(spec_route(25, 6) == Destination::Nowhere);
        assert forall|v: [i8; 3]| unit3(v) && adjacent_cells(spec_solved_cell(25), v) implies #[trigger] routed_to(25, v) by {
            if v[0] == 0 && v[1] == -1 && v[2] == -1 {
                assert(spec_route(25, 2) == Destination::World(17));
            } else if v[0] == -1 && v[1] == 0 && v[2] == -1 {
                assert(spec_route(25, 1) == Destination::World(13));
            } else if v[0] == -1 && v[1] == -1 && v[2] == 0 {
                assert(spec_route(25, 0) == Destination::World(11));
            }
        }
    } else if w == 26 {
        assert(spec_route(26, 0) == Destination::World(0));
        assert(spec_route(26, 1) == Destination::World(2));
        assert(spec_route(26, 2) == Destination::World(1));
        assert(spec_route(26, 3) == Destination::World(3));
        assert(spec_route(26, 4) == Destination::World(5));
        assert(spec_route(26, 5) == Destination::World(4));
        assert(spec_route(26, 6) == Destination::Leave);
        assert forall|v: [i8; 3]| unit3(v) && adjacent_cells(spec_solved_cell(26), v) implies #[trigger] routed_to(26, v) by {
            if v[0] == -1 && v[1] == 0 && v[2] == 0 {
                assert(spec_route(26, 2) == Destination::World(1));
            } else if v[0] == 1 && v[1] == 0 && v[2] == 0 {
                assert(spec_route(26, 0) == Destination::World(0));
            } else if v[0] == 0 && v[1] == -1 && v[2] == 0 {
                assert(spec_route(26, 3) == Destination::World(3));
            } else if v[0] == 0 && v[1] == 1 && v[2] == 0 {
                assert(spec_route(26, 1) == Destination::World(2));
            } else if v[0] == 0 && v[1] == 0 && v[2] == -1 {
                assert(spec_route(26, 4) == Destination::World(5));
            } else if v[0] == 0 && v[1] == 0 && v[2] == 1 {
                assert(spec_route(26, 5) == Destination::World(4));
            }
        }
    }
}

/// The solved cell of the Void is the core, which every basis keeps.
proof fn lemma_core_carried(i: int, c: Cubie)
    requires
        cubie_ok(i, c),
    ensures
        same_cell(carried(c, spec_solved_cell(VOID as int)), [0i8, 0i8, 0i8]),
{
    let n = spec_solved_cell(VOID as int);
    assert(n[0] == 0 && n[1] == 0 && n[2] == 0);
    lemma_carried_unit(i, c, n);
    let b = c.basis;
    assert(n[0] * b[0][0] + n[1] * b[1][0] + n[2] * b[2][0] == 0 && n[0] * b[0][1] + n[1] * b[1][1]
        + n[2] * b[2][1] == 0 && n[0] * b[0][2] + n[1] * b[1][2] + n[2] * b[2][2] == 0)
        by (nonlinear_arith)
        requires
            n[0] == 0,
            n[1] == 0,
            n[2] == 0,
    ;
}

/// The cubie of the Void never leaves the core.
proof fn lemma_core_fixed(s: Seq<Cubie>)
    requires
        lattice_ok(s),
    ensures
        same_cell(s[13].cell, [0i8, 0i8, 0i8]),
        spec_cubie(VOID as int) == 13,
{
    lemma_roster(VOID as int);
    lemma_cell_carried(s, VOID as int);
    lemma_core_carried(13, s[13]);
}

/// The identity basis carries every vector to itself.
proof fn lemma_identity_carried(c: Cubie, n: [i8; 3])
    requires
        c.basis == [[1i8, 0i8, 0i8], [0i8, 1i8, 0i8], [0i8, 0i8, 1i8]],
        unit3(n),
    ensures
        same_cell(carried(c, n), n),
{
    let b = c.basis;
    assert(n[0] * b[0][0] + n[1] * b[1][0] + n[2] * b[2][0] == n[0] && n[0] * b[0][1] + n[1] * b[1][1]
        + n[2] * b[2][1] == n[1] && n[0] * b[0][2] + n[1] * b[1][2] + n[2] * b[2][2] == n[2])
        by (nonlinear_arith)
        requires
            b[0][0] == 1, b[0][1] == 0, b[0][2] == 0,
            b[1][0] == 0, b[1][1] == 1, b[1][2] == 0,
            b[2][0] == 0, b[2][1] == 0, b[2][2] == 1,
    ;
}

/// Law: in the solved puzzle every world's routes are its authored routes.
pub proof fn lemma_solved_routes(w: int)
    requires
        0 <= w < 27,
    ensures
        spec_routes(w, solved_lattice()) == spec_authored_routes(w),
{
    if w != VOID {
        let s = solved_lattice();
        lemma_solved_lattice();
        lemma_roster(w);
        lemma_authored_neighbours(w);
        assert forall|k: int| 0 <= k < 7 implies #[trigger] spec_moved_route(w, k, s) == spec_route(
            w,
            k,
        ) by {
            assert(route_adjacent(w, k));
            if let Destination::World(t) = spec_route(w, k) {
                let n = spec_solved_cell(t as int);
                lemma_roster(t as int);
                lemma_solved_cell_unit(t as int);
                lemma_cell_index(n);
                let v = carried(s[spec_cubie(w)], n);
                lemma_identity_carried(s[spec_cubie(w)], n);
                assert(same_cell(s[cell_index(n)].cell, v));
                lemma_occupant(s, cell_index(n), v);
            }
        }
        assert(spec_routes(w, s) =~= spec_authored_routes(w));
    }
}

/// Law: committed turns never change a Leave or Nowhere face, and never the
/// routes of the Void.
pub proof fn lemma_routes_keep_exits(w: int, s: Seq<Cubie>, k: int)
    requires
        0 <= w < 27,
        0 <= k < 7,
    ensures
        !(spec_route(w, k) is World) ==> spec_routes(w, s)[k] == spec_route(w, k),
        spec_routes(VOID as int, s) == spec_authored_routes(VOID as int),
{
}

/// The cell of a world's cubie is its solved cell carried by its basis.
proof fn lemma_cell_carried(s: Seq<Cubie>, w: int)
    requires
        lattice_ok(s),
        0 <= w < 27,
    ensures
        0 <= spec_cubie(w) < 27,
        unit3(spec_solved_cell(w)),
        cubie_ok(spec_cubie(w), s[spec_cubie(w)]),
        same_cell(s[spec_cubie(w)].cell, carried(s[spec_cubie(w)], spec_solved_cell(w))),
        roster_facts(w),
{
    lemma_roster(w);
    lemma_solved_cell_unit(w);
    let h = spec_solved_cell(w);
    lemma_cell_index(h);
    let id = spec_cubie(w);
    assert(cubie_ok(id, s[id]));
    assert(same_cell(home_cell(id), h));
    lemma_carried_unit(id, s[id], h);
}

/// Where a moved route of a world other than the Void leads: to the world of
/// the cubie on a cell that shares a face with the world's own cell; that
/// cubie is the Void's only when the authored route named the Void.
proof fn lemma_moved_target(s: Seq<Cubie>, w: int, k: int)
    requires
        lattice_ok(s),
        0 <= w < 27,
        w != VOID,
        0 <= k < 7,
        spec_route(w, k) is World,
    ensures
        ({
            let t = spec_routes(w, s)[k]->World_0 as int;
            &&& spec_routes(w, s)[k] is World
            &&& 0 <= t < 27
            &&& roster_facts(t)
            &&& adjacent_cells(s[spec_cubie(w)].cell, s[spec_cubie(t)].cell)
            &&& t == VOID ==> spec_route(w, k) == Destination::World(VOID)
        }),
{
    lemma_authored_neighbours(w);
    assert(route_adjacent(w, k));
    let t0 = spec_route(w, k)->World_0 as int;
    let id = spec_cubie(w);
    let c = s[id];
    let h = spec_solved_cell(w);
    let n = spec_solved_cell(t0);
    lemma_cell_carried(s, w);
    lemma_solved_cell_unit(t0);
    let v = carried(c, n);
    lemma_carried_unit(id, c, n);
    lemma_carried_rigid(id, c, h, n);
    assert(occupied(s, v));
    let i = choose|i: int| 0 <= i < 27 && same_cell(#[trigger] s[i].cell, v);
    lemma_occupant(s, i, v);
    lemma_cubie_world(i);
    let t = cubie_world(i);
    assert(spec_routes(w, s)[k] == Destination::World(t as usize));
    lemma_roster(t);
    if t == VOID {
        lemma_core_fixed(s);
        lemma_core_carried(id, c);
        let zero = spec_solved_cell(VOID as int);
        lemma_solved_cell_unit(VOID as int);
        lemma_carried_rigid(id, c, n, zero);
        lemma_cell_index(n);
        lemma_roster_bijection();
        if t0 != VOID {
            assert(spec_cubie(t0) != spec_cubie(VOID as int));
        }
    }
}

/// A world whose cubie shares a face with the cubie of world `w` routes back
/// to `w`.
proof fn lemma_route_back(s: Seq<Cubie>, w: int, t: int)
    requires
        lattice_ok(s),
        0 <= w < 27,
        0 <= t < 27,
        t != VOID,
        adjacent_cells(s[spec_cubie(w)].cell, s[spec_cubie(t)].cell),
    ensures
        exists|j: int| 0 <= j < 7 && #[trigger] spec_routes(t, s)[j] == Destination::World(w as usize),
{
    lemma_cell_carried(s, w);
    lemma_cell_carried(s, t);
    let id = spec_cubie(w);
    let i = spec_cubie(t);
    let ct = s[i];
    let ht = spec_solved_cell(t);
    let cw = s[id].cell;
    let u = recovered(ct, cw);
    lemma_recovered(i, ct, cw);
    lemma_carried_unit(i, ct, u);
    lemma_carried_unit(i, ct, ht);
    lemma_carried_rigid(i, ct, ht, u);
    assert(adjacent_cells(ht, u));
    lemma_authored_neighbours(t);
    assert(routed_to(t, u));
    let j = choose|j: int|
        0 <= j < 7 && #[trigger] spec_route(t, j) == Destination::World(
            cubie_world(cell_index(u)) as usize,
        );
    lemma_cell_index(u);
    lemma_cubie_world(cell_index(u));
    let t1 = cubie_world(cell_index(u));
    lemma_roster(t1);
    lemma_solved_cell_unit(t1);
    lemma_cell_index(spec_solved_cell(t1));
    assert(same_cell(spec_solved_cell(t1), u));
    let back = carried(ct, spec_solved_cell(t1));
    lemma_carried_unit(i, ct, spec_solved_cell(t1));
    assert(same_cell(back, carried(ct, u)));
    lemma_occupant(s, id, back);
    assert(spec_routes(t, s)[j] == Destination::World(w as usize));
}

/// The Void routes to each single-theme world.
proof fn lemma_void_routes(s: Seq<Cubie>)
    ensures
        spec_routes(VOID as int, s)[0] == Destination::World(0),
        spec_routes(VOID as int, s)[1] == Destination::World(2),
        spec_routes(VOID as int, s)[2] == Destination::World(1),
        spec_routes(VOID as int, s)[3] == Destination::World(3),
        spec_routes(VOID as int, s)[4] == Destination::World(5),
        spec_routes(VOID as int, s)[5] == Destination::World(4),
        spec_routes(VOID as int, s)[6] == Destination::Leave,
{
    lemma_roster(VOID as int);
}

/// Law: in every well-placed lattice, a route from one world to another is
/// answered by a route back; no world routes to itself, the Void routes
/// only to single-theme worlds, and only they route to the Void.
pub proof fn lemma_routes_reciprocal(w: int, s: Seq<Cubie>, k: int)
    requires
        lattice_ok(s),
        0 <= w < 27,
        0 <= k < 7,
        spec_routes(w, s)[k] is World,
    ensures
        ({
            let t = spec_routes(w, s)[k]->World_0 as int;
            &&& 0 <= t < 27
            &&& t != w
            &&& exists|j: int|
                0 <= j < 7 && #[trigger] spec_routes(t, s)[j] == Destination::World(w as usize)
            &&& w == VOID ==> t < 6
            &&& t == VOID ==> w < 6
        }),
{
    let t = spec_routes(w, s)[k]->World_0 as int;
    lemma_void_routes(s);
    lemma_core_fixed(s);
    if w == VOID {
        assert(t < 6);
        lemma_cell_carried(s, t);
        lemma_authored_neighbours(t);
        let i = spec_cubie(t);
        let ht = spec_solved_cell(t);
        let zero = spec_solved_cell(VOID as int);
        lemma_solved_cell_unit(VOID as int);
        lemma_core_carried(i, s[i]);
        lemma_carried_unit(i, s[i], ht);
        lemma_carried_rigid(i, s[i], zero, ht);
        assert(route_adjacent(t, 4));
        lemma_route_back(s, w, t);
    } else {
        lemma_moved_target(s, w, k);
        lemma_roster(w);
        if t == VOID {
            lemma_authored_neighbours(w);
            assert(w < 6);
        } else {
            lemma_route_back(s, w, t);
        }
    }
}

} // verus!

verus! {

/// How many of a world's seven routes are Leave slots.
pub open spec fn leave_count(r: Seq<Destination>) -> int {
    (if r[0] == Destination::Leave { 1int } else { 0int }) + (if r[1] == Destination::Leave { 1int } else { 0int })
        + (if r[2] == Destination::Leave { 1int } else { 0int }) + (if r[3] == Destination::Leave { 1int } else { 0int })
        + (if r[4] == Destination::Leave { 1int } else { 0int }) + (if r[5] == Destination::Leave { 1int } else { 0int })
        + (if r[6] == Destination::Leave { 1int } else { 0int })
}

/// Law: a world has one Leave slot per theme (the Void, with none, has
/// one), and a single-theme world routes its bottom face to the Void.
pub proof fn lemma_leave_slots(w: int)
    requires
        0 <= w < 27,
    ensures
        ({
            let n = bit_count(THEME_MASKS[w] as int);
            leave_count(spec_authored_routes(w)) == if n == 0 {
                1
            } else {
                n
            }
        }),
        bit_count(THEME_MASKS[w] as int) == 1 ==> spec_route(w, 4) == Destination::World(VOID),
{
    lemma_roster(w);
    let r = spec_authored_routes(w);
    assert(r[0] == spec_route(w, 0) && r[1] == spec_route(w, 1) && r[2] == spec_route(w, 2) && r[3] == spec_route(w, 3)
        && r[4] == spec_route(w, 4) && r[5] == spec_route(w, 5) && r[6] == spec_route(w, 6));
}


/// How many of the axes before `a` the cell lies off centre on.
pub open spec fn stickers_before(cell: [i8; 3], a: int) -> int
    decreases a,
{
    if a <= 0 {
        0
    } else {
        stickers_before(cell, a - 1) + if cell[a - 1] != 0 {
            1int
        } else {
            0int
        }
    }
}

/// How many of world `w`'s faces before face `p` are Leave slots.
pub open spec fn leaves_before(w: int, p: int) -> int
    decreases p,
{
    if p <= 0 {
        0
    } else {
        leaves_before(w, p - 1) + if spec_route(w, p - 1) == Destination::Leave {
            1int
        } else {
            0int
        }
    }
}

proof fn lemma_nth_leave_finds(w: int, k: int, p: int)
    requires
        0 <= p <= 7,
        0 <= k < leaves_before(w, 7) - leaves_before(w, p),
    ensures
        nth_leave(w, k, p) is Some,
        p <= nth_leave(w, k, p).unwrap() < 7,
        spec_route(w, nth_leave(w, k, p).unwrap()) == Destination::Leave,
        leaves_before(w, nth_leave(w, k, p).unwrap()) - leaves_before(w, p) == k,
    decreases 7 - p,
{
    if p == 7 {
        assert(false);
    } else {
        assert(leaves_before(w, p + 1) == leaves_before(w, p) + if spec_route(w, p) == Destination::Leave {
            1int
        } else {
            0int
        });
        if spec_route(w, p) == Destination::Leave {
            if k > 0 {
                lemma_nth_leave_finds(w, k - 1, p + 1);
            }
        } else {
            lemma_nth_leave_finds(w, k, p + 1);
        }
    }
}

/// Law: every sticker of every world's cubie enters that world, through
/// the Leave slot of the sticker's rank: the sticker on a world's `k`-th
/// off-centre axis (counting from x) takes the world's `k`-th Leave face.
/// No sticker is without an entry.
pub proof fn lemma_every_sticker_enters(w: int, a: int)
    requires
        0 <= w < VOID,
        0 <= a < 3,
        spec_solved_cell(w)[a] != 0,
    ensures
        spec_entry(spec_cubie(w), a) is Some,
        ({
            let (v, p) = spec_entry(spec_cubie(w), a).unwrap();
            &&& v == w
            &&& p < 7
            &&& spec_route(w, p as int) == Destination::Leave
            &&& leaves_before(w, p as int) == stickers_before(spec_solved_cell(w), a)
        }),
{
    lemma_roster(w);
    lemma_leave_slots(w);
    let m = THEME_MASKS[w] as int;
    let cell = spec_solved_cell(w);
    let r = spec_authored_routes(w);
    assert(r[0] == spec_route(w, 0) && r[1] == spec_route(w, 1) && r[2] == spec_route(w, 2) && r[3]
        == spec_route(w, 3) && r[4] == spec_route(w, 4) && r[5] == spec_route(w, 5) && r[6]
        == spec_route(w, 6));
    reveal_with_fuel(leaves_before, 8);
    assert(leaves_before(w, 7) == leave_count(r));
    reveal_with_fuel(stickers_before, 4);
    assert(stickers_before(cell, 3) == bit_count(m));
    assert(stickers_before(cell, a) < stickers_before(cell, 3)) by {
        if a == 0 {
        } else if a == 1 {
        } else {
        }
    }
    let k = stickers_before(cell, a);
    assert(axis_rank(cell, a) == Some(k)) by {
        if a == 0 {
        } else if a == 1 {
        } else {
        }
    }
    lemma_nth_leave_finds(w, k, 0);
}


/// Law: only a sticker enters: an entry is always through the cubie of a
/// world other than the Void, on an axis where that world's cell is off
/// centre.
pub proof fn lemma_entry_only_stickers(c: int, a: int)
    ensures
        spec_entry(c, a) is Some ==> ({
            let v = spec_entry(c, a).unwrap().0 as int;
            &&& 0 <= v < VOID
            &&& spec_cubie(v) == c
            &&& 0 <= a < 3
            &&& spec_solved_cell(v)[a] != 0
        }),
{
    lemma_cubie_world(c);
}

} // verus!
