//! One render-only landing cube. It never participates in collision or
//! placement. This module holds its material choice and appearance state.
use vstd::prelude::*;

verus! {

pub const APPEAR_MS: u64 = 700;
/// Existing whole-cube transparent material encoding; class 3 is 35% alpha.
pub const FLAGS: u32 = 24576 | 512 | 4096 | (3 << 10);
/// A cube whose flags hold an RGB555 colour rather than a palette ID.
pub const CUSTOM_RGB555: u32 = 0x8000;

/// Channel `a` (red, green, blue) of a packed palette colour.
pub open spec fn channel(color: u32, a: int) -> int {
    if a == 0 {
        (color & 255) as int
    } else if a == 1 {
        ((color >> 8u32) & 255) as int
    } else {
        ((color >> 16u32) & 255) as int
    }
}

/// Component `a` of an RGB555 shade.
pub open spec fn shade(flags: u32, a: int) -> int {
    if a == 0 {
        (flags & 31) as int
    } else if a == 1 {
        ((flags >> 5u32) & 31) as int
    } else {
        ((flags >> 10u32) & 31) as int
    }
}

/// A palette channel rounded to five bits, as placed assets round it.
pub open spec fn to_five_bits(c: int) -> int {
    (c * 31 + 127) / 255
}

pub open spec fn delta_sq(flags: u32, color: u32, a: int) -> int {
    (shade(flags, a) - to_five_bits(channel(color, a))) * (shade(flags, a) - to_five_bits(
        channel(color, a),
    ))
}

/// Squared distance between an RGB555 shade and a palette colour.
pub open spec fn distance(flags: u32, color: u32) -> int {
    delta_sq(flags, color, 0) + delta_sq(flags, color, 1) + delta_sq(flags, color, 2)
}

proof fn lemma_masks(x: u32)
    ensures
        x & 255 <= 255,
        (x >> 8u32) & 255 <= 255,
        (x >> 16u32) & 255 <= 255,
        x & 31 <= 31,
        (x >> 5u32) & 31 <= 31,
        (x >> 10u32) & 31 <= 31,
        x & 7 <= 7,
{
    assert(x & 255 <= 255) by (bit_vector);
    assert((x >> 8u32) & 255 <= 255) by (bit_vector);
    assert((x >> 16u32) & 255 <= 255) by (bit_vector);
    assert(x & 31 <= 31) by (bit_vector);
    assert((x >> 5u32) & 31 <= 31) by (bit_vector);
    assert((x >> 10u32) & 31 <= 31) by (bit_vector);
    assert(x & 7 <= 7) by (bit_vector);
}

fn channel_delta_sq(s: u32, c: u32) -> (d: i32)
    requires
        s <= 31,
        c <= 255,
    ensures
        d == (s - to_five_bits(c as int)) * (s - to_five_bits(c as int)),
        0 <= d <= 961,
{
    let q: i32 = (c as i32 * 31 + 127) / 255;
    let delta: i32 = s as i32 - q;
    proof {
        assert(0 <= q <= 31);
        assert(delta * delta <= 961) by (nonlinear_arith)
            requires
                -31 <= delta <= 31,
        ;
        assert(0 <= delta * delta) by (nonlinear_arith);
    }
    delta * delta
}

fn palette_distance(flags: u32, color: u32) -> (d: i32)
    ensures
        d == distance(flags, color),
{
    proof {
        lemma_masks(flags);
        lemma_masks(color);
    }
    channel_delta_sq(flags & 31, color & 255) + channel_delta_sq((flags >> 5) & 31, (color >> 8)
        & 255) + channel_delta_sq((flags >> 10) & 31, (color >> 16) & 255)
}

/// The theme material of a cube's flags: a palette ID (the low three bits,
/// at most 5) is kept; a world RGB555 shade maps back to the nearest of the
/// six shared theme colours, the first one on a tie.
pub fn material(flags: u32, palette: &[u32; 6]) -> (m: u32)
    ensures
        flags & CUSTOM_RGB555 == 0 ==> m == if flags & 7 > 5 {
            5
        } else {
            flags & 7
        },
        flags & CUSTOM_RGB555 != 0 ==> {
            &&& m < 6
            &&& forall|j: int|
                0 <= j < 6 ==> distance(flags, palette[m as int]) <= distance(
                    flags,
                    #[trigger] palette[j],
                )
            &&& forall|j: int|
                0 <= j < m ==> distance(flags, #[trigger] palette[j]) > distance(
                    flags,
                    palette[m as int],
                )
        },
{
    if flags & CUSTOM_RGB555 == 0 {
        let id = flags & 7;
        return if id > 5 {
            5
        } else {
            id
        };
    }
    let mut best: usize = 0;
    let mut best_distance = palette_distance(flags, palette[0]);
    let mut i: usize = 1;
    while i < 6
        invariant
            1 <= i <= 6,
            best < i,
            best_distance == distance(flags, palette[best as int]),
            forall|j: int|
                0 <= j < i ==> best_distance <= distance(flags, #[trigger] palette[j]),
            forall|j: int| 0 <= j < best ==> distance(flags, #[trigger] palette[j]) > best_distance,
        decreases 6 - i,
    {
        let d = palette_distance(flags, palette[i]);
        if d < best_distance {
            best = i;
            best_distance = d;
        }
        i = i + 1;
    }
    best as u32
}

/// The appearance of the landing cube: when its target last changed and the
/// theme material found under it, if any.
pub struct Indicator {
    started: u64,
    material: Option<u32>,
}

impl Default for Indicator {
    fn default() -> (i: Self)
        ensures
            i.started_at() == 0,
            i.theme() is None,
    {
        Indicator { started: 0, material: None }
    }
}

impl Indicator {
    pub closed spec fn started_at(&self) -> u64 {
        self.started
    }

    pub closed spec fn theme(&self) -> Option<u32> {
        self.material
    }

    /// The landing cube's flags: the shared transparent class with the
    /// target's theme material.
    pub fn flags(&self) -> (f: Option<u32>)
        ensures
            f == match self.theme() {
                Some(m) => Some(FLAGS | m),
                None => None,
            },
    {
        match self.material {
            Some(m) => Some(FLAGS | m),
            None => None,
        }
    }

    /// Forget the target: the next one starts a fresh appearance.
    pub fn clear(&mut self)
        ensures
            final(self).started_at() == 0,
            final(self).theme() is None,
    {
        self.started = 0;
        self.material = None;
    }

    /// A new target (or none) restarts the appearance at `now` with the
    /// material found under it.
    pub fn retarget(&mut self, now: u64, material: Option<u32>)
        ensures
            final(self).started_at() == now,
            final(self).theme() == material,
    {
        self.started = now;
        self.material = material;
    }

    /// When the present appearance started.
    pub fn started(&self) -> (t: u64)
        ensures
            t == self.started_at(),
    {
        self.started
    }

    /// The material of the present target, if one was found.
    pub fn material(&self) -> (m: Option<u32>)
        ensures
            m == self.theme(),
    {
        self.material
    }
}

} // verus!
