//! Authored world colours: the palette of a world, found by the theme words
//! of its asset name.
use vstd::prelude::*;
use vstd::string::StringSliceAdditionalSpecFns;

verus! {

/// The world assets' theme names, in roster order.
pub const THEME_NAMES: [&'static str; 6] = [
    "sky",
    "underground",
    "black-hole",
    "white-hole",
    "island",
    "city",
];

/// The optional Mandelbox shader uses these legacy packed values as geometry
/// identifiers, independently of the world material palette.
pub const MANDELBOX_COLORS: [u32; 6] = [0x63c7f2, 0x7a4b30, 0x25153d, 0xf4e8a6, 0x4eaf68, 0xd76567];
pub const MANDELBOX_VOID: u32 = 0xd83cff;
/// The theme whose terrain colour the Void world takes.
pub const VOID_THEME: usize = 2;

/// The first terrain material of a CUBES v2 asset: palette entry zero, as
/// the exporter writes it.
pub fn terrain_color(bytes: &[u8]) -> (c: u32)
    requires
        bytes.len() >= 19,
    ensures
        c == bytes@[16] * 65536 + bytes@[17] * 256 + bytes@[18],
{
    bytes[16] as u32 * 65536 + bytes[17] as u32 * 256 + bytes[18] as u32
}

#[derive(Clone, Copy, Debug)]
pub struct Palette {
    pub colors: [u32; 3],
    pub count: u32,
    /// Folded Core is reserved for void; every other world uses Box Cathedral.
    pub cathedral: bool,
}

impl PartialEq for Palette {
    fn eq(&self, other: &Self) -> (r: bool) {
        let r = self.colors[0] == other.colors[0] && self.colors[1] == other.colors[1]
            && self.colors[2] == other.colors[2] && self.count == other.count && self.cathedral
            == other.cathedral;
        proof {
            if r {
                assert(self.colors =~= other.colors);
            }
        }
        r
    }
}

impl vstd::std_specs::cmp::PartialEqSpecImpl for Palette {
    open spec fn obeys_eq_spec() -> bool {
        true
    }

    open spec fn eq_spec(&self, other: &Self) -> bool {
        *self == *other
    }
}

impl Eq for Palette {}

/// Channel `shift` of the first `n` colours, summed.
pub open spec fn channel_sum(colors: [u32; 3], n: int, shift: u32) -> int
    decreases n,
{
    if n <= 0 {
        0
    } else {
        channel_sum(colors, n - 1, shift) + ((colors[n - 1] >> shift) & 255) as int
    }
}

proof fn lemma_channel(c: u32, shift: u32)
    ensures
        (c >> shift) & 255 <= 255,
{
    assert((c >> shift) & 255 <= 255) by (bit_vector);
}

impl Palette {
    fn channel_average(&self, shift: u32) -> (a: u8)
        requires
            1 <= self.count <= 3,
            shift < 32,
        ensures
            a == (channel_sum(self.colors, self.count as int, shift) + self.count / 2) / self.count as int,
    {
        let mut sum: u32 = 0;
        let mut i: usize = 0;
        let n = self.count as usize;
        while i < n
            invariant
                n == self.count,
                1 <= n <= 3,
                i <= n,
                sum == channel_sum(self.colors, i as int, shift),
                sum <= 255 * i,
                shift < 32,
            decreases n - i,
        {
            proof {
                lemma_channel(self.colors[i as int], shift);
            }
            sum = sum + ((self.colors[i] >> shift) & 255);
            i = i + 1;
        }
        proof {
            assert((sum + n / 2) / (n as int) <= 255) by (nonlinear_arith)
                requires
                    1 <= n <= 3,
                    sum <= 255 * n,
            ;
        }
        ((sum + self.count / 2) / self.count) as u8
    }

    /// Arithmetic average of the authored sRGB bytes, rounded to nearest.
    /// Repeated padding colors are excluded; pure and Void colors stay exact.
    pub fn average_rgb(&self) -> (rgb: [u8; 3])
        requires
            1 <= self.count <= 3,
        ensures
            rgb[0] == (channel_sum(self.colors, self.count as int, 16) + self.count / 2)
                / self.count as int,
            rgb[1] == (channel_sum(self.colors, self.count as int, 8) + self.count / 2)
                / self.count as int,
            rgb[2] == (channel_sum(self.colors, self.count as int, 0) + self.count / 2)
                / self.count as int,
    {
        [self.channel_average(16), self.channel_average(8), self.channel_average(0)]
    }

    /// The palette of the world asset `name`, with the terrain colours that
    /// the six theme assets hold (`terrain_color` of each, in roster order).
    pub fn for_world(name: &str, terrain: [u32; 6]) -> (p: Option<Self>)
        ensures
            p == spec_from_themes(name.spec_bytes(), terrain, terrain[VOID_THEME as int]),
    {
        Self::from_themes(name, terrain, terrain[VOID_THEME])
    }

    /// The palette of the world asset `name` for the Mandelbox shader.
    pub fn for_mandelbox_world(name: &str) -> (p: Option<Self>)
        ensures
            p == spec_from_themes(name.spec_bytes(), MANDELBOX_COLORS, MANDELBOX_VOID),
    {
        Self::from_themes(name, MANDELBOX_COLORS, MANDELBOX_VOID)
    }

    /// The palette of `name`: the Void world takes the void colour alone;
    /// any other world takes the colours of the themes that are words of its
    /// name (words are separated by `_`; a `.cubes` suffix is ignored), one
    /// to three of them, padded with the first.
    pub fn from_themes(name: &str, colors: [u32; 6], void: u32) -> (p: Option<Self>)
        ensures
            p == spec_from_themes(name.spec_bytes(), colors, void),
    {
        let bytes = name.as_bytes();
        let suffix = ".cubes".as_bytes();
        let base_len = if ends_with(bytes, suffix) {
            bytes.len() - suffix.len()
        } else {
            bytes.len()
        };
        let void_name = "world_27_void".as_bytes();
        if prefix_equals(bytes, base_len, void_name) {
            return Some(Palette { colors: [void, void, void], count: 1, cathedral: false });
        }
        let mut chosen: [u32; 3] = [0, 0, 0];
        let mut count: usize = 0;
        let mut t: usize = 0;
        while t < 6
            invariant
                t <= 6,
                count <= 3,
                base_len == spec_base_len(name.spec_bytes()),
                bytes@ == name.spec_bytes(),
                bytes@.subrange(0, base_len as int) != "world_27_void".spec_bytes(),
                matched_count(bytes@, base_len as int, t as int) == count,
                count <= t,
                forall|k: int|
                    0 <= k < count ==> chosen[k] == colors[matched_theme(
                        bytes@,
                        base_len as int,
                        k,
                    )],
                forall|k: int| 0 <= k < count ==> matched_theme(bytes@, base_len as int, k) < t,
            decreases 6 - t,
        {
            let theme = THEME_NAMES[t].as_bytes();
            if has_word(bytes, base_len, theme) {
                if count == 3 {
                    proof {
                        assert(theme@ == theme_word(t as int));
                        assert(matched_count(bytes@, base_len as int, t as int + 1) == 4);
                        lemma_matched_count_monotone(bytes@, base_len as int, t as int + 1, 6);
                    }
                    return None;
                }
                chosen[count] = colors[t];
                proof {
                    lemma_matched_theme_next(bytes@, base_len as int, t as int, count as int);
                }
                count = count + 1;
            }
            t = t + 1;
        }
        if count == 0 {
            return None;
        }
        let mut i = count;
        while i < 3
            invariant
                1 <= count <= i <= 3,
                forall|k: int|
                    0 <= k < count ==> chosen[k] == colors[matched_theme(
                        bytes@,
                        base_len as int,
                        k,
                    )],
                forall|k: int| count <= k < i ==> #[trigger] chosen[k] == chosen[0],
            decreases 3 - i,
        {
            chosen[i] = chosen[0];
            i = i + 1;
        }
        proof {
            assert(chosen =~= palette_colors(bytes@, base_len as int, colors, count as int));
        }
        Some(Palette { colors: chosen, count: count as u32, cathedral: true })
    }
}

pub open spec fn cubes_suffix() -> Seq<u8> {
    ".cubes".spec_bytes()
}

/// The length of the name without a `.cubes` suffix.
pub open spec fn spec_base_len(b: Seq<u8>) -> int {
    let s = cubes_suffix();
    if b.len() >= s.len() && b.subrange(b.len() - s.len(), b.len() as int) == s {
        b.len() - s.len()
    } else {
        b.len() as int
    }
}

/// `word` is one of the `_`-separated words of `b[..len]`.
pub open spec fn is_word(b: Seq<u8>, len: int, word: Seq<u8>) -> bool {
    exists|i: int|
        0 <= i && i + word.len() <= len && #[trigger] b.subrange(i, i + word.len()) == word && (i
            == 0 || b[i - 1] == 95) && (i + word.len() == len || b[i + word.len()] == 95)
            && forall|k: int| i <= k < i + word.len() ==> b[k] != 95
}

pub open spec fn theme_word(t: int) -> Seq<u8> {
    THEME_NAMES[t].spec_bytes()
}

/// How many of the first `t` themes are words of the name.
pub open spec fn matched_count(b: Seq<u8>, len: int, t: int) -> int
    decreases t,
{
    if t <= 0 {
        0
    } else {
        matched_count(b, len, t - 1) + if is_word(b, len, theme_word(t - 1)) {
            1int
        } else {
            0int
        }
    }
}

/// The theme of the `k`-th match, counting from zero.
pub open spec fn matched_theme(b: Seq<u8>, len: int, k: int) -> int {
    choose|t: int|
        0 <= t < 6 && is_word(b, len, theme_word(t)) && matched_count(b, len, t) == k
}

pub open spec fn palette_colors(b: Seq<u8>, len: int, colors: [u32; 6], n: int) -> [u32; 3] {
    let c0 = colors[matched_theme(b, len, 0)];
    [c0, if n > 1 {
        colors[matched_theme(b, len, 1)]
    } else {
        c0
    }, if n > 2 {
        colors[matched_theme(b, len, 2)]
    } else {
        c0
    }]
}

pub open spec fn spec_from_themes(b: Seq<u8>, colors: [u32; 6], void: u32) -> Option<Palette> {
    let len = spec_base_len(b);
    if b.subrange(0, len) == "world_27_void".spec_bytes() {
        Some(Palette { colors: [void, void, void], count: 1, cathedral: false })
    } else {
        let n = matched_count(b, len, 6);
        if n == 0 || n > 3 {
            None
        } else {
            Some(Palette { colors: palette_colors(b, len, colors, n), count: n as u32, cathedral: true })
        }
    }
}

proof fn lemma_matched_count_monotone(b: Seq<u8>, len: int, t: int, u: int)
    requires
        0 <= t <= u,
    ensures
        matched_count(b, len, t) <= matched_count(b, len, u),
    decreases u - t,
{
    if t < u {
        lemma_matched_count_monotone(b, len, t, u - 1);
    }
}

proof fn lemma_matched_theme_next(b: Seq<u8>, len: int, t: int, k: int)
    requires
        0 <= t < 6,
        is_word(b, len, theme_word(t)),
        matched_count(b, len, t) == k,
    ensures
        matched_theme(b, len, k) == t,
{
    let c = choose|u: int|
        0 <= u < 6 && is_word(b, len, theme_word(u)) && matched_count(b, len, u) == k;
    assert(0 <= c < 6 && is_word(b, len, theme_word(c)) && matched_count(b, len, c) == k);
    if c < t {
        lemma_matched_count_monotone(b, len, c + 1, t);
    } else if c > t {
        lemma_matched_count_monotone(b, len, t + 1, c);
    }
}

fn ends_with(b: &[u8], suffix: &[u8]) -> (r: bool)
    ensures
        r == (b@.len() >= suffix@.len() && b@.subrange(
            b@.len() - suffix@.len(),
            b@.len() as int,
        ) == suffix@),
{
    if b.len() < suffix.len() {
        return false;
    }
    let start = b.len() - suffix.len();
    let mut i: usize = 0;
    while i < suffix.len()
        invariant
            start == b.len() - suffix.len(),
            i <= suffix.len(),
            forall|k: int| 0 <= k < i ==> b@[start + k] == suffix@[k],
        decreases suffix.len() - i,
    {
        if b[start + i] != suffix[i] {
            proof {
                assert(b@.subrange(start as int, b@.len() as int)[i as int] != suffix@[i as int]);
            }
            return false;
        }
        i = i + 1;
    }
    proof {
        assert(b@.subrange(start as int, b@.len() as int) =~= suffix@);
    }
    true
}

/// `b[..len]` equals `w`.
fn prefix_equals(b: &[u8], len: usize, w: &[u8]) -> (r: bool)
    requires
        len <= b.len(),
    ensures
        r == (b@.subrange(0, len as int) == w@),
{
    if len != w.len() {
        proof {
            assert(b@.subrange(0, len as int).len() != w@.len());
        }
        return false;
    }
    let mut i: usize = 0;
    while i < len
        invariant
            len == w.len(),
            len <= b.len(),
            i <= len,
            forall|k: int| 0 <= k < i ==> b@[k] == w@[k],
        decreases len - i,
    {
        if b[i] != w[i] {
            proof {
                assert(b@.subrange(0, len as int)[i as int] != w@[i as int]);
            }
            return false;
        }
        i = i + 1;
    }
    proof {
        assert(b@.subrange(0, len as int) =~= w@);
    }
    true
}

/// Whether `w` is one of the `_`-separated words of `b[..len]`.
fn has_word(b: &[u8], len: usize, w: &[u8]) -> (r: bool)
    requires
        len <= b.len(),
    ensures
        r == is_word(b@, len as int, w@),
{
    let mut start: usize = 0;
    let mut i: usize = 0;
    while i < len
        invariant
            len <= b.len(),
            start <= i <= len,
            start == 0 || b@[start - 1] == 95,
            forall|k: int| start <= k < i ==> b@[k] != 95,
            forall|s: int|
                0 <= s < start && s + w@.len() <= len && #[trigger] b@.subrange(s, s + w@.len())
                    == w@ && (s == 0 || b@[s - 1] == 95) && (s + w@.len() == len || b@[s
                    + w@.len()] == 95) ==> exists|k: int| s <= k < s + w@.len() && b@[k] == 95,
        decreases len - i,
    {
        if b[i] == 95 {
            if i - start == w.len() && segment_equals(b, start, w) {
                proof {
                    assert(forall|k: int| start <= k < start + w@.len() ==> b@[k] != 95);
                    assert(b@.subrange(start as int, start + w@.len()) == w@);
                }
                return true;
            }
            proof {
                assert forall|s: int|
                    0 <= s < i + 1 && s + w@.len() <= len && #[trigger] b@.subrange(
                        s,
                        s + w@.len(),
                    ) == w@ && (s == 0 || b@[s - 1] == 95) && (s + w@.len() == len || b@[s
                        + w@.len()] == 95) implies exists|k: int|
                    s <= k < s + w@.len() && b@[k] == 95 by {
                    if s >= start {
                        if s > start {
                            assert(b@[s - 1] != 95);
                        } else if s + w@.len() < i {
                            assert(b@[s + w@.len()] != 95);
                        } else if s + w@.len() > i {
                            assert(b@[i as int] == 95);
                        } else {
                            assert(b@.subrange(start as int, start + w@.len()) == w@);
                        }
                    }
                }
            }
            start = i + 1;
        }
        i = i + 1;
    }
    if len - start == w.len() && segment_equals(b, start, w) {
        proof {
            assert(forall|k: int| start <= k < start + w@.len() ==> b@[k] != 95);
            assert(b@.subrange(start as int, start + w@.len()) == w@);
        }
        return true;
    }
    proof {
        assert forall|s: int|
            0 <= s && s + w@.len() <= len && #[trigger] b@.subrange(s, s + w@.len()) == w@ && (s
                == 0 || b@[s - 1] == 95) && (s + w@.len() == len || b@[s + w@.len()] == 95)
                implies exists|k: int| s <= k < s + w@.len() && b@[k] == 95 by {
            if s >= start {
                if s > start {
                    assert(b@[s - 1] != 95);
                } else if s + w@.len() < len {
                    assert(b@[s + w@.len()] != 95);
                } else {
                    assert(b@.subrange(start as int, start + w@.len()) == w@);
                }
            }
        }
    }
    false
}

/// `b[start..start + w.len()]` equals `w`.
fn segment_equals(b: &[u8], start: usize, w: &[u8]) -> (r: bool)
    requires
        start + w.len() <= b.len(),
    ensures
        r == (b@.subrange(start as int, start + w@.len()) == w@),
{
    let mut i: usize = 0;
    while i < w.len()
        invariant
            start + w.len() <= b.len(),
            i <= w.len(),
            forall|k: int| 0 <= k < i ==> b@[start + k] == w@[k],
        decreases w.len() - i,
    {
        if b[start + i] != w[i] {
            proof {
                assert(b@.subrange(start as int, start + w@.len())[i as int] != w@[i as int]);
            }
            return false;
        }
        i = i + 1;
    }
    proof {
        assert(b@.subrange(start as int, start + w@.len()) =~= w@);
    }
    true
}

} // verus!
