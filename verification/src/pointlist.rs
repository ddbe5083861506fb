//! Point-list batches for the background: dots grouped into draws by their
//! stroke width and colour. Exact colours are kept unless there would be
//! more groups than one batch may draw; then colours snap to an 8x8x8 grid
//! at width 2. Dot positions are float geometry kept by the caller, which
//! lays out the vertices in the order given here.
use crate::marker_lod::sort_by_key;
use vstd::prelude::*;

verus! {

/// The most dots one batch draws.
pub const MAX_POINTS: usize = 264;
/// The most draws one indexed batch may hold.
pub const MAX_DRAWS: usize = 600;

/// How a dot is drawn.
#[derive(Clone, Copy, Debug, PartialEq, Eq, Structural)]
pub struct Style {
    pub width: u8,
    pub color: u32,
}

/// One draw: `count` vertices from `base_vertex`, in one colour and width.
#[derive(Clone, Copy, Debug, PartialEq, Eq, Structural)]
pub struct Draw {
    pub base_vertex: usize,
    pub color: u32,
    pub width: u32,
    pub count: u32,
}

/// The dots in draw order: which dot comes at each place and how it is
/// drawn, whether colours were snapped, and the draws.
pub struct Batch {
    pub order: Vec<usize>,
    pub styles: Vec<Style>,
    pub quantized: bool,
    pub draws: Vec<Draw>,
}

/// Styles in order of width, then colour.
pub open spec fn style_le(a: Style, b: Style) -> bool {
    a.width < b.width || (a.width == b.width && a.color <= b.color)
}

/// `order` lists each of `0..n` once.
pub open spec fn permutation(order: Seq<usize>, n: int) -> bool {
    &&& order.len() == n
    &&& forall|i: int| 0 <= i < n ==> #[trigger] order[i] < n
    &&& forall|i: int, j: int| 0 <= i < j < n ==> #[trigger] order[i] != #[trigger] order[j]
}

/// The styles of `styles` taken in `order`.
pub open spec fn arranged(styles: Seq<Style>, order: Seq<usize>) -> Seq<Style> {
    Seq::new(order.len(), |k: int| styles[order[k] as int])
}

/// The number of runs of equal styles.
pub open spec fn runs(s: Seq<Style>) -> int
    decreases s.len(),
{
    if s.len() == 0 {
        0
    } else {
        runs(s.drop_last()) + if s.len() >= 2 && s[s.len() - 2] == s.last() {
            0int
        } else {
            1int
        }
    }
}

/// A colour snapped to the 8x8x8 grid, opaque.
pub open spec fn snapped(c: u32) -> u32 {
    ((c & 0xff) / 32 * 36 + ((c >> 8u32) & 0xff) / 32 * 36 * 256 + ((c >> 16u32) & 0xff) / 32 * 36 * 65536
        + 255 * 16777216) as u32
}

/// The draws of the first `m` styles: a new draw wherever the colour or the
/// width changes.
pub open spec fn grouped(s: Seq<Style>, m: int) -> Seq<Draw>
    decreases m,
{
    if m <= 0 {
        Seq::empty()
    } else {
        let d = grouped(s, m - 1);
        let st = s[m - 1];
        if d.len() > 0 && d.last().color == st.color && d.last().width == st.width as u32 {
            d.update(d.len() - 1, Draw { count: (d.last().count + 1) as u32, ..d.last() })
        } else {
            d.push(Draw { base_vertex: (m - 1) as usize, color: st.color, width: st.width as u32, count: 1 })
        }
    }
}

/// The draws of a batch: those of its first `MAX_POINTS` dots, or, with no
/// dot, one clear draw of one clipped vertex.
pub open spec fn draws_of(s: Seq<Style>) -> Seq<Draw> {
    let m = if s.len() < MAX_POINTS {
        s.len() as int
    } else {
        MAX_POINTS as int
    };
    if m == 0 {
        seq![Draw { base_vertex: 0, color: 0, width: 0, count: 1 }]
    } else {
        grouped(s, m)
    }
}

fn snap(c: u32) -> (r: u32)
    ensures
        r == snapped(c),
{
    let r = c & 0xff;
    let g = (c >> 8u32) & 0xff;
    let b = (c >> 16u32) & 0xff;
    assert(r <= 255 && g <= 255 && b <= 255) by (bit_vector)
        requires
            r == c & 0xff,
            g == (c >> 8u32) & 0xff,
            b == (c >> 16u32) & 0xff,
    ;
    r / 32 * 36 + g / 32 * 36 * 256 + b / 32 * 36 * 65536 + 255 * 16777216
}

proof fn lemma_grouped_bounds(s: Seq<Style>, m: int)
    requires
        0 <= m <= s.len(),
    ensures
        grouped(s, m).len() <= m,
        forall|i: int| 0 <= i < grouped(s, m).len() ==> (#[trigger] grouped(s, m)[i]).count <= m,
    decreases m,
{
    if m > 0 {
        lemma_grouped_bounds(s, m - 1);
    }
}

fn group_draws(s: &Vec<Style>) -> (d: Vec<Draw>)
    ensures
        d@ == draws_of(s@),
{
    let m = if s.len() < MAX_POINTS {
        s.len()
    } else {
        MAX_POINTS
    };
    let mut d: Vec<Draw> = Vec::new();
    let mut k: usize = 0;
    while k < m
        invariant
            m <= s@.len(),
            m <= MAX_POINTS,
            k <= m,
            d@ == grouped(s@, k as int),
        decreases m - k,
    {
        let st = s[k];
        proof {
            lemma_grouped_bounds(s@, k as int);
        }
        let n = d.len();
        if n > 0 && d[n - 1].color == st.color && d[n - 1].width == st.width as u32 {
            let last = d[n - 1];
            d.set(n - 1, Draw { count: last.count + 1, ..last });
        } else {
            d.push(Draw { base_vertex: k, color: st.color, width: st.width as u32, count: 1 });
        }
        k = k + 1;
    }
    if m == 0 {
        d.push(Draw { base_vertex: 0, color: 0, width: 0, count: 1 });
        proof {
            assert(d@ =~= seq![Draw { base_vertex: 0, color: 0, width: 0, count: 1 }]);
        }
    }
    d
}

/// What `sort_by_key` hands back lists each position once.
proof fn lemma_sorted_positions(keys: Seq<u32>, order: Seq<usize>)
    requires
        order.len() == keys.len(),
        forall|i: int| 0 <= i < order.len() ==> #[trigger] order[i] < keys.len(),
        forall|i: int, j: int|
            0 <= i < j < order.len() ==> keys[#[trigger] order[i] as int] < keys[#[trigger] order[j] as int] || (
            keys[order[i] as int] == keys[order[j] as int] && order[i] < order[j]),
    ensures
        permutation(order, keys.len() as int),
{
    assert forall|i: int, j: int| 0 <= i < j < keys.len() implies #[trigger] order[i] != #[trigger] order[j] by {
        assert(keys[order[i] as int] < keys[order[j] as int] || (keys[order[i] as int] == keys[order[j] as int]
            && order[i] < order[j]));
    }
}

fn runs_of(s: &Vec<Style>) -> (r: usize)
    ensures
        r == runs(s@),
{
    let mut r: usize = 0;
    let mut k: usize = 0;
    while k < s.len()
        invariant
            k <= s@.len(),
            r == runs(s@.take(k as int)),
            r <= k,
        decreases s.len() - k,
    {
        proof {
            assert(s@.take(k + 1).drop_last() =~= s@.take(k as int));
        }
        if k == 0 || s[k - 1] != s[k] {
            r = r + 1;
        }
        k = k + 1;
    }
    proof {
        assert(s@.take(s@.len() as int) =~= s@);
    }
    r
}

impl Batch {
    /// Arrange `styles` into draws: by width, then colour; when that makes
    /// more than `MAX_DRAWS` groups, every colour snaps to the grid at width
    /// 2 and the dots are ordered by colour instead. Only the first
    /// `MAX_POINTS` dots are drawn.
    pub fn new(styles: &[Style]) -> (b: Batch)
        ensures
            permutation(b.order@, styles@.len() as int),
            b.styles@.len() == styles@.len(),
            b.draws@ == draws_of(b.styles@),
            !b.quantized ==> {
                &&& b.styles@ == arranged(styles@, b.order@)
                &&& forall|i: int, j: int|
                    0 <= i < j < b.styles@.len() ==> style_le(#[trigger] b.styles@[i], #[trigger] b.styles@[j])
                &&& runs(b.styles@) <= MAX_DRAWS
            },
            b.quantized ==> {
                &&& forall|k: int|
                    0 <= k < b.styles@.len() ==> #[trigger] b.styles@[k] == (Style {
                        width: 2,
                        color: snapped(styles@[b.order@[k] as int].color),
                    })
                &&& forall|i: int, j: int|
                    0 <= i < j < b.styles@.len() ==> (#[trigger] b.styles@[i]).color <= (
                    #[trigger] b.styles@[j]).color
                &&& exists|p: Seq<usize>|
                    permutation(p, styles@.len() as int) && (forall|i: int, j: int|
                        0 <= i < j < p.len() ==> style_le(
                            #[trigger] arranged(styles@, p)[i],
                            #[trigger] arranged(styles@, p)[j],
                        )) && runs(arranged(styles@, p)) > MAX_DRAWS
            },
    {
        let n = styles.len();
        let mut colors: Vec<u32> = Vec::new();
        let mut k: usize = 0;
        while k < n
            invariant
                n == styles@.len(),
                k <= n,
                colors@.len() == k,
                forall|i: int| 0 <= i < k ==> #[trigger] colors@[i] == styles@[i].color,
            decreases n - k,
        {
            colors.push(styles[k].color);
            k = k + 1;
        }
        let by_color = sort_by_key(&colors);
        proof {
            lemma_sorted_positions(colors@, by_color@);
        }
        let mut widths: Vec<u32> = Vec::new();
        k = 0;
        while k < n
            invariant
                n == styles@.len(),
                by_color@.len() == n,
                forall|i: int| 0 <= i < n ==> #[trigger] by_color@[i] < n,
                k <= n,
                widths@.len() == k,
                forall|i: int| 0 <= i < k ==> #[trigger] widths@[i] == styles@[by_color@[i] as int].width as u32,
            decreases n - k,
        {
            widths.push(styles[by_color[k]].width as u32);
            k = k + 1;
        }
        let by_width = sort_by_key(&widths);
        proof {
            lemma_sorted_positions(widths@, by_width@);
        }
        let mut sorted: Vec<usize> = Vec::new();
        let mut lex: Vec<Style> = Vec::new();
        k = 0;
        while k < n
            invariant
                n == styles@.len(),
                by_color@.len() == n,
                by_width@.len() == n,
                forall|i: int| 0 <= i < n ==> #[trigger] by_color@[i] < n,
                forall|i: int| 0 <= i < n ==> #[trigger] by_width@[i] < n,
                k <= n,
                sorted@.len() == k,
                lex@.len() == k,
                forall|i: int| 0 <= i < k ==> #[trigger] sorted@[i] == by_color@[by_width@[i] as int],
                forall|i: int| 0 <= i < k ==> #[trigger] lex@[i] == styles@[sorted@[i] as int],
            decreases n - k,
        {
            let at = by_color[by_width[k]];
            sorted.push(at);
            lex.push(styles[at]);
            k = k + 1;
        }
        proof {
            assert(permutation(sorted@, n as int)) by {
                assert forall|i: int, j: int| 0 <= i < j < n implies #[trigger] sorted@[i] != #[trigger] sorted@[j] by {
                    let a = by_width@[i] as int;
                    let b = by_width@[j] as int;
                    assert(a != b);
                    if a < b {
                        assert(by_color@[a] != by_color@[b]);
                    } else {
                        assert(by_color@[b] != by_color@[a]);
                    }
                }
            }
            assert(lex@ =~= arranged(styles@, sorted@));
            assert forall|i: int, j: int| 0 <= i < j < n implies style_le(#[trigger] lex@[i], #[trigger] lex@[j]) by {
                let a = by_width@[i] as int;
                let b = by_width@[j] as int;
                assert(widths@[a] < widths@[b] || (widths@[a] == widths@[b] && a < b));
                if widths@[a] == widths@[b] {
                    assert(colors@[by_color@[a] as int] < colors@[by_color@[b] as int] || (colors@[by_color@[a] as int]
                        == colors@[by_color@[b] as int] && by_color@[a] < by_color@[b]));
                }
            }
        }
        let groups = runs_of(&lex);
        if groups > MAX_DRAWS {
            let mut snaps: Vec<u32> = Vec::new();
            k = 0;
            while k < n
                invariant
                    n == styles@.len(),
                    lex@.len() == n,
                    k <= n,
                    snaps@.len() == k,
                    forall|i: int| 0 <= i < k ==> #[trigger] snaps@[i] == snapped(lex@[i].color),
                decreases n - k,
            {
                snaps.push(snap(lex[k].color));
                k = k + 1;
            }
            let by_snap = sort_by_key(&snaps);
            proof {
                lemma_sorted_positions(snaps@, by_snap@);
            }
            let mut order: Vec<usize> = Vec::new();
            let mut out: Vec<Style> = Vec::new();
            k = 0;
            while k < n
                invariant
                    n == styles@.len(),
                    sorted@.len() == n,
                    lex@.len() == n,
                    snaps@.len() == n,
                    by_snap@.len() == n,
                    forall|i: int| 0 <= i < n ==> #[trigger] by_snap@[i] < n,
                    forall|i: int| 0 <= i < n ==> #[trigger] sorted@[i] < n,
                    k <= n,
                    order@.len() == k,
                    out@.len() == k,
                    forall|i: int| 0 <= i < k ==> #[trigger] order@[i] == sorted@[by_snap@[i] as int],
                    forall|i: int| 0 <= i < k ==> #[trigger] out@[i] == (Style { width: 2, color: snaps@[by_snap@[i] as int] }),
                decreases n - k,
            {
                let at = by_snap[k];
                order.push(sorted[at]);
                out.push(Style { width: 2, color: snaps[at] });
                k = k + 1;
            }
            let draws = group_draws(&out);
            proof {
                assert forall|i: int, j: int| 0 <= i < j < n implies #[trigger] order@[i] != #[trigger] order@[j] by {
                    let a = by_snap@[i] as int;
                    let b = by_snap@[j] as int;
                    assert(a != b);
                    if a < b {
                        assert(sorted@[a] != sorted@[b]);
                    } else {
                        assert(sorted@[b] != sorted@[a]);
                    }
                }
                assert forall|kk: int| 0 <= kk < out@.len() implies #[trigger] out@[kk] == (Style {
                    width: 2,
                    color: snapped(styles@[order@[kk] as int].color),
                }) by {
                    let a = by_snap@[kk] as int;
                    assert(lex@[a] == styles@[sorted@[a] as int]);
                }
                assert forall|i: int, j: int| 0 <= i < j < out@.len() implies (#[trigger] out@[i]).color <= (
                #[trigger] out@[j]).color by {
                    let a = by_snap@[i] as int;
                    let b = by_snap@[j] as int;
                    assert(snaps@[a] < snaps@[b] || (snaps@[a] == snaps@[b] && a < b));
                }
                assert(permutation(sorted@, n as int) && runs(arranged(styles@, sorted@)) > MAX_DRAWS);
            }
            Batch { order, styles: out, quantized: true, draws }
        } else {
            let draws = group_draws(&lex);
            Batch { order: sorted, styles: lex, quantized: false, draws }
        }
    }
}

} // verus!
