//! The texture of the joined world mesh: one tile per palette colour, each
//! with a darkened border, as a BMP. The mesh upload and its rendering are
//! GPU work done by the caller.
use crate::cube_interface::{bmp, spec_bmp};
use vstd::prelude::*;

verus! {

pub const VERTEX_STRIDE: usize = 48;
/// The side of one palette tile, in texels.
pub const TILE: usize = 96;
/// The border of each tile: 7/96 = 7.29%, one third wider than the 5.5% demo seam.
pub const EDGE: usize = 7;

/// Whether texel `(x, y)` of a tile lies in its border.
pub open spec fn on_edge(x: int, y: int) -> bool {
    x < EDGE || y < EDGE || x >= TILE - EDGE || y >= TILE - EDGE
}

/// A border channel: the colour darkened to 66%, rounded.
pub open spec fn darkened(c: u8) -> u8 {
    ((c * 66 + 50) / 100) as u8
}

/// Byte `i` of the atlas's packed RGB rows: `count` tiles side by side,
/// tile `m` in palette colour `m` (RGBA entries from byte 16 of the world).
pub open spec fn atlas_byte(world: Seq<u8>, count: int, i: int) -> u8 {
    let p = i / 3;
    let channel = i % 3;
    let cell = p / TILE as int;
    let x = p % TILE as int;
    let y = cell / count;
    let m = cell % count;
    let c = world[16 + m * 4 + channel];
    if on_edge(x, y) {
        darkened(c)
    } else {
        c
    }
}

/// The atlas rows for the palette of `world`, whose byte 10 counts its colours.
pub open spec fn atlas_rgb(world: Seq<u8>) -> Seq<u8> {
    let count = world[10] as int;
    Seq::new((count * TILE * TILE * 3) as nat, |i: int| atlas_byte(world, count, i))
}

/// The palette atlas of an encoded world: exact opaque palette texels with a
/// hard, darker border, as a BMP `count` tiles wide and one tile high.
pub fn palette_atlas(world: &[u8]) -> (bytes: Vec<u8>)
    requires
        world@.len() > 10,
        world@[10] > 0,
        world@.len() >= 16 + world@[10] * 4,
        forall|m: int| 0 <= m < world@[10] ==> #[trigger] world@[16 + m * 4 + 3] == 255,
    ensures
        bytes@ == spec_bmp((world@[10] * TILE) as int, TILE as int, atlas_rgb(world@)),
{
    let count = world[10] as usize;
    let mut rgb: Vec<u8> = Vec::new();
    let mut y: usize = 0;
    while y < TILE
        invariant
            world@.len() >= 16 + count * 4,
            count == world@[10],
            0 < count <= 255,
            y <= TILE,
            rgb@ =~= atlas_rgb(world@).take((y * count * TILE * 3) as int),
        decreases TILE - y,
    {
        let mut m: usize = 0;
        while m < count
            invariant
                world@.len() >= 16 + count * 4,
                count == world@[10],
                0 < count <= 255,
                y < TILE,
                m <= count,
                rgb@ =~= atlas_rgb(world@).take(((y * count + m) * TILE * 3) as int),
            decreases count - m,
        {
            let mut x: usize = 0;
            while x < TILE
                invariant
                    world@.len() >= 16 + count * 4,
                    count == world@[10],
                    0 < count <= 255,
                    y < TILE,
                    m < count,
                    x <= TILE,
                    rgb@ =~= atlas_rgb(world@).take((((y * count + m) * TILE + x) * 3) as int),
                decreases TILE - x,
            {
                let edge = x < EDGE || y < EDGE || x >= TILE - EDGE || y >= TILE - EDGE;
                let mut channel: usize = 0;
                while channel < 3
                    invariant
                        world@.len() >= 16 + count * 4,
                        count == world@[10],
                        0 < count <= 255,
                        y < TILE,
                        m < count,
                        x < TILE,
                        channel <= 3,
                        edge == on_edge(x as int, y as int),
                        rgb@ =~= atlas_rgb(world@).take(
                            ((((y * count + m) * TILE + x) * 3) + channel) as int,
                        ),
                    decreases 3 - channel,
                {
                    let c = world[16 + m * 4 + channel];
                    let v: u8 = if edge {
                        ((c as u16 * 66 + 50) / 100) as u8
                    } else {
                        c
                    };
                    let ghost k: int = (((y * count + m) * TILE + x) * 3 + channel) as int;
                    proof {
                        lemma_atlas_index(count as int, y as int, m as int, x as int, channel as int);
                        assert(atlas_byte(world@, count as int, k) == v);
                        assert(k < atlas_rgb(world@).len()) by {
                            lemma_atlas_bound(count as int, y as int, m as int, x as int, channel as int);
                        }
                    }
                    rgb.push(v);
                    channel = channel + 1;
                }
                x = x + 1;
            }
            m = m + 1;
        }
        proof {
            assert((y * count + count) * TILE * 3 == (y + 1) * count * TILE * 3) by (nonlinear_arith);
        }
        y = y + 1;
    }
    proof {
        assert(TILE * count * TILE * 3 == count * TILE * TILE * 3) by (nonlinear_arith);
        assert(atlas_rgb(world@).take((TILE * count * TILE * 3) as int) =~= atlas_rgb(world@));
    }
    bmp(count * TILE, TILE, &rgb)
}

proof fn lemma_atlas_index(count: int, y: int, m: int, x: int, channel: int)
    requires
        0 < count,
        0 <= y < TILE,
        0 <= m < count,
        0 <= x < TILE,
        0 <= channel < 3,
    ensures
        ({
            let k = ((y * count + m) * TILE + x) * 3 + channel;
            let p = k / 3;
            &&& k % 3 == channel
            &&& p % TILE as int == x
            &&& (p / TILE as int) / count == y
            &&& (p / TILE as int) % count == m
        }),
{
    let cell = y * count + m;
    let p = cell * TILE + x;
    let k = p * 3 + channel;
    vstd::arithmetic::div_mod::lemma_fundamental_div_mod_converse(k, 3, p, channel);
    vstd::arithmetic::div_mod::lemma_fundamental_div_mod_converse(p, TILE as int, cell, x);
    vstd::arithmetic::div_mod::lemma_fundamental_div_mod_converse(cell, count, y, m);
}

proof fn lemma_atlas_bound(count: int, y: int, m: int, x: int, channel: int)
    requires
        0 < count,
        0 <= y < TILE,
        0 <= m < count,
        0 <= x < TILE,
        0 <= channel < 3,
    ensures
        ((y * count + m) * TILE + x) * 3 + channel < count * TILE * TILE * 3,
{
    assert(0 <= y * count + m <= TILE * count - 1) by (nonlinear_arith)
        requires
            0 <= y < TILE,
            0 <= m < count,
    ;
    assert(((y * count + m) * TILE + x) * 3 + channel < count * TILE * TILE * 3) by (nonlinear_arith)
        requires
            0 <= y * count + m <= TILE * count - 1,
            0 <= x < TILE,
            0 <= channel < 3,
            count > 0,
    ;
}

} // verus!
