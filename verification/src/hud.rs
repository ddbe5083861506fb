//! The tiny status panel composited over the retained cube frame: its text,
//! `M<mode> E<expanded> U<unexpanded>` with counts in four digits, and its
//! RGBA sprite, the text stamped in the 6x11 cell font of `microfont`.
use vstd::prelude::*;

verus! {

pub const TEXT_BYTES: usize = 14;
pub const PADDING: usize = 2;
pub const SPRITE_ID: u32 = 1;
pub const INSET: u32 = 8;

pub open spec fn pow10(k: nat) -> nat
    decreases k,
{
    if k == 0 {
        1
    } else {
        10 * pow10((k - 1) as nat)
    }
}

proof fn lemma_pow10_positive(k: nat)
    ensures
        pow10(k) > 0,
    decreases k,
{
    if k > 0 {
        lemma_pow10_positive((k - 1) as nat);
    }
}

pub open spec fn capped(value: usize) -> nat {
    if value > 9999 {
        9999
    } else {
        value as nat
    }
}

/// The ASCII digit of `value`, capped at 9999, for the power of ten `k`.
pub open spec fn digit(value: usize, k: nat) -> u8 {
    (48 + (capped(value) / pow10(k)) % 10) as u8
}

/// Write `value`, capped at 9999, in decimal over the whole of `output`,
/// most significant digit first, padded with zeros.
pub fn write_count(output: &mut [u8], value: usize)
    ensures
        final(output)@.len() == old(output)@.len(),
        forall|i: int|
            0 <= i < old(output)@.len() ==> #[trigger] final(output)@[i] == digit(
                value,
                (old(output)@.len() - 1 - i) as nat,
            ),
{
    let mut v: usize = if value > 9999 {
        9999
    } else {
        value
    };
    let len = output.len();
    let mut k: usize = 0;
    proof {
        assert(pow10(0) == 1);
        assert(v == capped(value) / pow10(0));
    }
    while k < len
        invariant
            len == output@.len(),
            len == old(output)@.len(),
            k <= len,
            v == capped(value) / pow10(k as nat),
            forall|i: int|
                len - k <= i < len ==> #[trigger] output@[i] == digit(
                    value,
                    (len - 1 - i) as nat,
                ),
        decreases len - k,
    {
        let i = len - 1 - k;
        output[i] = 48 + (v % 10) as u8;
        proof {
            lemma_pow10_positive(k as nat);
            vstd::arithmetic::div_mod::lemma_div_denominator(
                capped(value) as int,
                pow10(k as nat) as int,
                10,
            );
            assert(pow10((k + 1) as nat) == pow10(k as nat) * 10) by {
                vstd::arithmetic::mul::lemma_mul_is_commutative(pow10(k as nat) as int, 10);
            }
        }
        v = v / 10;
        k = k + 1;
    }
}

pub open spec fn spec_status_text(mode: u8, expanded: usize, unexpanded: usize) -> Seq<u8> {
    seq![
        77u8,
        (48 + if mode > 9 {
            9
        } else {
            mode
        }) as u8,
        32,
        69,
        digit(expanded, 3),
        digit(expanded, 2),
        digit(expanded, 1),
        digit(expanded, 0),
        32,
        85,
        digit(unexpanded, 3),
        digit(unexpanded, 2),
        digit(unexpanded, 1),
        digit(unexpanded, 0),
    ]
}

/// `M<mode> E<expanded> U<unexpanded>`: the mode capped at 9 and both counts
/// capped at 9999 in four digits.
pub fn status_text(mode: u8, expanded: usize, unexpanded: usize) -> (t: [u8; 14])
    ensures
        t@ == spec_status_text(mode, expanded, unexpanded),
{
    let mut e: [u8; 4] = [0; 4];
    write_count(&mut e, expanded);
    let mut u: [u8; 4] = [0; 4];
    write_count(&mut u, unexpanded);
    let m: u8 = if mode > 9 {
        9
    } else {
        mode
    };
    let t: [u8; 14] = [77, 48 + m, 32, 69, e[0], e[1], e[2], e[3], 32, 85, u[0], u[1], u[2], u[3]];
    proof {
        assert(t@ =~= spec_status_text(mode, expanded, unexpanded));
    }
    t
}

/// The sprite's size: the text in 6x11 font cells and the padding round it.
pub const WIDTH: usize = 88;
pub const HEIGHT: usize = 15;

/// The mask that `microfont::stamp_text` leaves when it stamps `text` at
/// `(x, y)` in `color` into `buffer`, read as `width` by `height` pixels.
pub uninterp spec fn stamped(
    buffer: Seq<u8>,
    width: usize,
    height: usize,
    x: i32,
    y: i32,
    text: Seq<char>,
    color: u8,
) -> Seq<u8>;

/// Whether `microfont::stamp_text` accepts a buffer of `len` pixels read as
/// `width` by `height`.
pub open spec fn stamp_fits(len: int, width: usize, height: usize) -> bool {
    &&& width <= i32::MAX
    &&& height <= i32::MAX
    &&& (width == 0 || height == 0 || (width * height <= usize::MAX && width * height <= len))
}

/// `microfont::stamp_text` on a byte mask whose rows are `width` long. Per
/// its source: it fails, writing nothing, exactly when the dimensions do not
/// fit the buffer or `i32`; otherwise it writes `color` into some pixels and
/// leaves the others. Which pixels is the font's glyph rendering, named
/// `stamped` here. Glyph offsets and positions are summed in `i32`, so the
/// text's width must fit an `i32`, and the text must end, and its cells
/// reach, below `i32::MAX`.
#[verifier::external_body]
fn stamp_text(buffer: &mut Vec<u8>, width: usize, height: usize, x: i32, y: i32, text: &str, color: u8) -> (r:
    Result<(), &'static str>)
    requires
        y <= i32::MAX - 11,
        6 * text@.len() <= i32::MAX,
        x + 6 * text@.len() + 7 <= i32::MAX,
    ensures
        final(buffer)@.len() == old(buffer)@.len(),
        r is Ok <==> stamp_fits(old(buffer)@.len() as int, width, height),
        r is Ok ==> final(buffer)@ == stamped(old(buffer)@, width, height, x, y, text@, color),
        r is Err ==> final(buffer)@ == old(buffer)@,
        forall|i: int|
            0 <= i < old(buffer)@.len() ==> #[trigger] final(buffer)@[i] == old(buffer)@[i] || final(buffer)@[i]
                == color,
{
    microfont::stamp_text(buffer, width, height, x, y, text, color)
}

/// The status text as characters.
pub open spec fn status_chars(mode: u8, expanded: usize, unexpanded: usize) -> Seq<char> {
    spec_status_text(mode, expanded, unexpanded).map_values(|b: u8| b as char)
}

/// The glyph mask of the status text: ink 1 on 0, inside the padding.
pub open spec fn status_mask(mode: u8, expanded: usize, unexpanded: usize) -> Seq<u8> {
    stamped(
        Seq::new((WIDTH * HEIGHT) as nat, |i: int| 0u8),
        WIDTH,
        HEIGHT,
        PADDING as i32,
        PADDING as i32,
        status_chars(mode, expanded, unexpanded),
        1,
    )
}

/// Channel `c` of a sprite pixel: light opaque ink, translucent black ground.
pub open spec fn sprite_channel(ink: u8, c: int) -> u8 {
    if ink != 0 {
        if c == 3 {
            255
        } else {
            235
        }
    } else {
        if c == 3 {
            150
        } else {
            0
        }
    }
}

/// An RGBA sprite from a text mask: each mask byte becomes one pixel, ink
/// where it is non-zero and ground elsewhere.
pub fn sprite_pixels(mask: &Vec<u8>) -> (rgba: Vec<u8>)
    requires
        mask@.len() * 4 <= usize::MAX,
    ensures
        rgba@.len() == mask@.len() * 4,
        forall|i: int| 0 <= i < mask@.len() * 4 ==> #[trigger] rgba@[i] == sprite_channel(mask@[i / 4], i % 4),
{
    let mut rgba: Vec<u8> = Vec::new();
    let mut p: usize = 0;
    while p < mask.len()
        invariant
            p <= mask@.len(),
            mask@.len() * 4 <= usize::MAX,
            rgba@.len() == 4 * p,
            forall|i: int| 0 <= i < 4 * p ==> #[trigger] rgba@[i] == sprite_channel(mask@[i / 4], i % 4),
        decreases mask.len() - p,
    {
        let ink = mask[p];
        if ink != 0 {
            rgba.push(235);
            rgba.push(235);
            rgba.push(235);
            rgba.push(255);
        } else {
            rgba.push(0);
            rgba.push(0);
            rgba.push(0);
            rgba.push(150);
        }
        proof {
            assert forall|i: int| 4 * p <= i < 4 * p + 4 implies #[trigger] rgba@[i] == sprite_channel(
                mask@[i / 4],
                i % 4,
            ) by {
                vstd::arithmetic::div_mod::lemma_fundamental_div_mod_converse(i, 4, p as int, i - 4 * p);
            }
        }
        p = p + 1;
    }
    rgba
}

/// The status panel's RGBA sprite, `WIDTH` by `HEIGHT`: each pixel of the
/// stamped text mask becomes ink or ground.
pub fn status_sprite(mode: u8, expanded: usize, unexpanded: usize) -> (rgba: Vec<u8>)
    ensures
        rgba@.len() == WIDTH * HEIGHT * 4,
        status_mask(mode, expanded, unexpanded).len() == WIDTH * HEIGHT,
        forall|i: int|
            0 <= i < WIDTH * HEIGHT * 4 ==> #[trigger] rgba@[i] == sprite_channel(
                status_mask(mode, expanded, unexpanded)[i / 4],
                i % 4,
            ),
{
    let bytes = status_text(mode, expanded, unexpanded);
    let mut text = String::new();
    let mut k: usize = 0;
    while k < TEXT_BYTES
        invariant
            k <= TEXT_BYTES,
            bytes@ == spec_status_text(mode, expanded, unexpanded),
            text@ == status_chars(mode, expanded, unexpanded).take(k as int),
        decreases TEXT_BYTES - k,
    {
        crate::cube_interface::push_char(&mut text, bytes[k] as char);
        k = k + 1;
        proof {
            assert(text@ =~= status_chars(mode, expanded, unexpanded).take(k as int));
        }
    }
    proof {
        assert(status_chars(mode, expanded, unexpanded).take(TEXT_BYTES as int) =~= status_chars(
            mode,
            expanded,
            unexpanded,
        ));
    }
    let mut mask: Vec<u8> = vec![0u8; WIDTH * HEIGHT];
    let ghost blank = mask@;
    proof {
        assert(blank =~= Seq::new((WIDTH * HEIGHT) as nat, |i: int| 0u8));
    }
    let stamp = stamp_text(&mut mask, WIDTH, HEIGHT, PADDING as i32, PADDING as i32, text.as_str(), 1u8);
    proof {
        assert(stamp is Ok);
        assert(mask@ == status_mask(mode, expanded, unexpanded));
    }
    sprite_pixels(&mask)
}

} // verus!
