//! Custom-menu preview model: page layouts, control states and pointer input.
//! All actions are local visual state; buttons and close intentionally do nothing.
use vstd::prelude::*;
use vstd::string::*;
use vstd::arithmetic::div_mod::lemma_fundamental_div_mod_converse;

verus! {

#[derive(Clone, Copy, Debug, PartialEq, Eq, Structural)]
pub struct State {
    pub progress: i32,
    pub count: i32,
    pub enabled: bool,
    pub checked: bool,
}

#[derive(Clone, Copy, Debug)]
pub struct Button {
    pub mode: usize,
    pub icon: usize,
    pub text: &'static str,
}

#[derive(Clone, Copy, Debug)]
pub struct Definition {
    pub name: &'static str,
    pub title: &'static str,
    pub text: &'static str,
    pub theme: usize,
    pub tier: u8,
    pub buttons: &'static [Button],
    pub controls: [bool; 4],
    pub initial: State,
}

pub const PLATEAU_LOADING: usize = 3;
pub const PLATEAU_THEME: usize = 4;
pub const PLATEAU_ERROR: usize = 5;
pub const PAGE_COUNT: usize = 6;
/// The most rows of body text, and the most characters in one row.
pub const MAX_ROWS: usize = 12;
pub const ROW_CHARS: usize = 40;

#[derive(Clone, Copy, Debug, PartialEq, Eq, Structural)]
pub enum Action {
    Noop,
    Slider,
    Checkbox,
    Toggle,
    Decrement,
    Increment,
}

#[derive(Clone, Copy, Debug)]
pub struct Widget {
    pub rect: [i32; 4],
    pub action: Action,
    pub disabled: bool,
}

pub struct Layout {
    pub width: usize,
    pub height: usize,
    pub rows: Vec<String>,
    pub positions: [i32; 4],
    pub widgets: Vec<Widget>,
}

/// Appends `c` to `s`: `String::push`.
#[verifier::external_body]
pub(crate) fn push_char(s: &mut String, c: char)
    ensures
        final(s)@ == old(s)@.push(c),
{
    s.push(c)
}

/// A printable ASCII character or the space.
pub open spec fn is_printable(c: char) -> bool {
    c == ' ' || (33 <= c as u32 <= 126)
}

/// Printable characters stay; every other character becomes `?`.
pub open spec fn sanitize(c: char) -> char {
    if is_printable(c) {
        c
    } else {
        '?'
    }
}

fn sanitized(c: char) -> (r: char)
    ensures
        r == sanitize(c),
{
    let code = c as u32;
    if c == ' ' || (33 <= code && code <= 126) {
        c
    } else {
        '?'
    }
}

pub open spec fn spec_printable(text: Seq<char>) -> Seq<char> {
    text.map_values(|c: char| sanitize(c))
}

/// The text with every unprintable character replaced by `?`.
pub fn printable(text: &str) -> (s: String)
    ensures
        s@ == spec_printable(text@),
{
    let n = text.unicode_len();
    let mut s = String::new();
    let mut i: usize = 0;
    while i < n
        invariant
            n == text@.len(),
            i <= n,
            s@ == spec_printable(text@.take(i as int)),
        decreases n - i,
    {
        let c = text.get_char(i);
        push_char(&mut s, sanitized(c));
        proof {
            assert(spec_printable(text@.take(i + 1)) =~= spec_printable(text@.take(i as int)).push(
                sanitize(c),
            ));
        }
        i = i + 1;
    }
    proof {
        assert(text@.take(n as int) =~= text@);
    }
    s
}

/// Line breaks normalised to `\n` (`\r\n` and a lone `\r` alike) and each
/// tab widened to two spaces.
pub open spec fn normalize(cs: Seq<char>) -> Seq<char>
    decreases cs.len(),
{
    if cs.len() == 0 {
        Seq::empty()
    } else if cs[0] == '\r' {
        if cs.len() > 1 && cs[1] == '\n' {
            normalize(cs.drop_first())
        } else {
            seq!['\n'] + normalize(cs.drop_first())
        }
    } else if cs[0] == '\t' {
        seq![' ', ' '] + normalize(cs.drop_first())
    } else {
        seq![cs[0]] + normalize(cs.drop_first())
    }
}

/// Rows filled with `cs`: a new row at a line break or when the last row
/// holds 40 characters, at most 12 rows; unprintable characters become `?`.
pub open spec fn fill(rows: Seq<Seq<char>>, cs: Seq<char>) -> Seq<Seq<char>>
    decreases cs.len(),
{
    if cs.len() == 0 || rows.len() == 0 {
        rows
    } else {
        let c = cs[0];
        if c == '\n' || rows.last().len() == ROW_CHARS {
            if rows.len() == MAX_ROWS {
                rows
            } else if c == '\n' {
                fill(rows.push(Seq::empty()), cs.drop_first())
            } else {
                fill(rows.push(seq![sanitize(c)]), cs.drop_first())
            }
        } else {
            fill(rows.update(rows.len() - 1, rows.last().push(sanitize(c))), cs.drop_first())
        }
    }
}

pub open spec fn spec_text_rows(text: Seq<char>) -> Seq<Seq<char>> {
    if text.len() == 0 {
        Seq::empty()
    } else {
        fill(seq![Seq::empty()], normalize(text))
    }
}

/// At most 12 rows of at most 40 printable characters.
pub open spec fn rows_fit(rows: Seq<Seq<char>>) -> bool {
    &&& rows.len() <= MAX_ROWS
    &&& forall|r: int| 0 <= r < rows.len() ==> #[trigger] rows[r].len() <= ROW_CHARS
    &&& forall|r: int, k: int|
        0 <= r < rows.len() && 0 <= k < rows[r].len() ==> is_printable(#[trigger] rows[r][k])
}

/// Law: the text rows always fit the editor's limits.
pub proof fn lemma_fill_fits(rows: Seq<Seq<char>>, cs: Seq<char>)
    requires
        rows_fit(rows),
    ensures
        rows_fit(fill(rows, cs)),
    decreases cs.len(),
{
    if cs.len() > 0 && rows.len() > 0 {
        let c = cs[0];
        if c == '\n' || rows.last().len() == ROW_CHARS {
            if rows.len() == MAX_ROWS {
            } else if c == '\n' {
                let next = rows.push(Seq::empty());
                assert(rows_fit(next)) by {
                    assert forall|r: int, k: int|
                        0 <= r < next.len() && 0 <= k < next[r].len() implies is_printable(
                        #[trigger] next[r][k],
                    ) by {
                        assert(r < rows.len());
                    }
                }
                lemma_fill_fits(next, cs.drop_first());
            } else {
                let next = rows.push(seq![sanitize(c)]);
                assert(rows_fit(next)) by {
                    assert forall|r: int, k: int|
                        0 <= r < next.len() && 0 <= k < next[r].len() implies is_printable(
                        #[trigger] next[r][k],
                    ) by {
                        if r < rows.len() {
                            assert(next[r] == rows[r]);
                        }
                    }
                }
                lemma_fill_fits(next, cs.drop_first());
            }
        } else {
            let next = rows.update(rows.len() - 1, rows.last().push(sanitize(c)));
            assert(rows_fit(next)) by {
                assert forall|r: int, k: int|
                    0 <= r < next.len() && 0 <= k < next[r].len() implies is_printable(
                    #[trigger] next[r][k],
                ) by {
                    if r < rows.len() - 1 {
                        assert(next[r] == rows[r]);
                    } else if k < rows.last().len() {
                        assert(next[r][k] == rows[r][k]);
                    }
                }
                assert forall|r: int| 0 <= r < next.len() implies #[trigger] next[r].len()
                    <= ROW_CHARS by {
                    if r < rows.len() - 1 {
                        assert(next[r] == rows[r]);
                    }
                }
            }
            lemma_fill_fits(next, cs.drop_first());
        }
    }
}

fn normalized(text: &str) -> (v: Vec<char>)
    ensures
        v@ == normalize(text@),
{
    let n = text.unicode_len();
    let mut v: Vec<char> = Vec::new();
    let mut i: usize = 0;
    proof {
        assert(text@.skip(0) =~= text@);
        assert(v@ + normalize(text@) =~= normalize(text@));
    }
    while i < n
        invariant
            n == text@.len(),
            i <= n,
            v@ + normalize(text@.skip(i as int)) == normalize(text@),
        decreases n - i,
    {
        let c = text.get_char(i);
        let ghost rest = text@.skip(i as int);
        proof {
            assert(rest[0] == c);
            assert(rest.drop_first() =~= text@.skip(i + 1));
        }
        if c == '\r' {
            if i + 1 < n && text.get_char(i + 1) == '\n' {
                proof {
                    assert(rest[1] == text@[i + 1]);
                }
            } else {
                v.push('\n');
            }
        } else if c == '\t' {
            v.push(' ');
            v.push(' ');
        } else {
            v.push(c);
        }
        proof {
            assert(v@ + normalize(text@.skip(i + 1)) =~= normalize(text@));
        }
        i = i + 1;
    }
    proof {
        assert(text@.skip(n as int) =~= Seq::<char>::empty());
        assert(v@ + Seq::<char>::empty() =~= v@);
    }
    v
}

/// The body text in rows: line breaks and the 40-character width start new
/// rows; rows beyond the twelfth are dropped.
pub fn text_rows(text: &str) -> (rows: Vec<String>)
    ensures
        rows.deep_view() == spec_text_rows(text@),
        rows_fit(rows.deep_view()),
{
    if text.unicode_len() == 0 {
        let rows: Vec<String> = Vec::new();
        proof {
            assert(rows.deep_view() =~= Seq::<Seq<char>>::empty());
        }
        return rows;
    }
    let cs = normalized(text);
    let mut done: Vec<String> = Vec::new();
    let mut current = String::new();
    let mut current_len: usize = 0;
    let mut i: usize = 0;
    let mut stopped = false;
    proof {
        assert(done.deep_view().push(current@) =~= seq![Seq::<char>::empty()]);
        assert(cs@.skip(0) =~= cs@);
    }
    while i < cs.len() && !stopped
        invariant
            i <= cs.len(),
            current_len == current@.len(),
            current_len <= ROW_CHARS,
            done.len() < MAX_ROWS,
            ({
                let rows = done.deep_view().push(current@);
                &&& fill(rows, cs@.skip(i as int)) == fill(seq![Seq::<char>::empty()], cs@)
                &&& stopped ==> fill(rows, cs@.skip(i as int)) == rows
            }),
        decreases cs.len() - i + if stopped {
            0int
        } else {
            1int
        },
    {
        let c = cs[i];
        let ghost rows = done.deep_view().push(current@);
        proof {
            assert(cs@.skip(i as int)[0] == c);
            assert(cs@.skip(i as int).drop_first() =~= cs@.skip(i + 1));
            assert(rows.last() == current@);
        }
        if c == '\n' || current_len == ROW_CHARS {
            if done.len() + 1 == MAX_ROWS {
                stopped = true;
            } else {
                let mut full = String::new();
                core::mem::swap(&mut full, &mut current);
                done.push(full);
                current_len = 0;
                if c != '\n' {
                    push_char(&mut current, sanitized(c));
                    current_len = 1;
                }
                proof {
                    assert(done.deep_view().push(current@) =~= if c == '\n' {
                        rows.push(Seq::empty())
                    } else {
                        rows.push(seq![sanitize(c)])
                    });
                }
                i = i + 1;
            }
        } else {
            push_char(&mut current, sanitized(c));
            current_len = current_len + 1;
            proof {
                assert(done.deep_view().push(current@) =~= rows.update(
                    rows.len() - 1,
                    rows.last().push(sanitize(c)),
                ));
            }
            i = i + 1;
        }
    }
    let ghost final_rows = done.deep_view().push(current@);
    done.push(current);
    proof {
        assert(done.deep_view() =~= final_rows);
        if !stopped {
            assert(cs@.skip(i as int) =~= Seq::<char>::empty());
        }
        let empty_row = seq![Seq::<char>::empty()];
        assert(rows_fit(empty_row));
        lemma_fill_fits(empty_row, cs@);
    }
    done
}

/// The characters of a button's label: none for an icon-only button.
pub open spec fn label_len(b: Button) -> int {
    if b.mode == 1 {
        0
    } else {
        b.text@.len() as int
    }
}

/// The width of a button's label and icon, with a gap between them.
pub open spec fn content_width(b: Button) -> int {
    label_len(b) * 6 + (if b.mode != 0 {
        7int
    } else {
        0int
    }) + (if b.mode != 0 && label_len(b) > 0 {
        4int
    } else {
        0int
    })
}

/// A button's label (printable, none for an icon-only button), its icon
/// (none for a text-only button) and the width of both.
pub fn content(b: Button) -> (r: (String, Option<usize>, i32))
    requires
        b.text@.len() <= 1000,
    ensures
        r.0@ == (if b.mode == 1 {
            Seq::<char>::empty()
        } else {
            spec_printable(b.text@)
        }),
        r.1 == (if b.mode != 0 {
            Some(b.icon)
        } else {
            None
        }),
        r.2 == content_width(b),
{
    let text = if b.mode == 1 {
        String::new()
    } else {
        printable(b.text)
    };
    let n: i32 = if b.mode == 1 {
        0
    } else {
        b.text.unicode_len() as i32
    };
    let icon = if b.mode != 0 {
        Some(b.icon)
    } else {
        None
    };
    let width = n * 6 + if icon.is_some() {
        7
    } else {
        0
    } + if icon.is_some() && n > 0 {
        4
    } else {
        0
    };
    (text, icon, width)
}

pub open spec fn max2(a: int, b: int) -> int {
    if a >= b {
        a
    } else {
        b
    }
}

/// A button's width before the row's spare width is shared out.
pub open spec fn base_width(b: Button) -> int {
    max2(content_width(b) + 12, 26)
}

pub open spec fn widths_sum(bs: Seq<Button>, k: int) -> int
    decreases k,
{
    if k <= 0 {
        0
    } else {
        widths_sum(bs, k - 1) + base_width(bs[k - 1])
    }
}

pub open spec fn longest_row(rows: Seq<Seq<char>>, k: int) -> int
    decreases k,
{
    if k <= 0 {
        0
    } else {
        max2(longest_row(rows, k - 1), rows[k - 1].len() as int)
    }
}

/// Definitions whose texts are small enough to lay out.
pub open spec fn definition_ok(def: &Definition) -> bool {
    &&& def.title@.len() <= 1000
    &&& def.buttons@.len() <= 64
    &&& forall|i: int| 0 <= i < def.buttons@.len() ==> (#[trigger] def.buttons@[i]).text@.len() <= 1000
}

/// The panel width: wide enough for the title, the longest row and the
/// button row, and at least 126.
pub open spec fn panel_width(def: &Definition, rows: Seq<Seq<char>>) -> int {
    let n = def.buttons@.len() as int;
    max2(
        max2(max2(126, (def.title@.len() * 6 + 28) as int), longest_row(rows, rows.len() as int) * 6 + 14),
        widths_sum(def.buttons@, n) + 6 * (n - 1) + 14,
    )
}

/// The top of the controls: below the body rows.
pub open spec fn controls_top(rows: Seq<Seq<char>>) -> int {
    if rows.len() == 0 {
        24
    } else {
        24 + (rows.len() - 1) * 15 + 11 + 9
    }
}

/// The rows of the slider, the checkbox and toggle, the counter and the
/// buttons (-1 for an absent control), and the bottom of the last row.
pub open spec fn spec_positions(c: [bool; 4], top: int) -> ([i32; 4], int) {
    let y1 = top + if c[0] {
        23int
    } else {
        0int
    };
    let y2 = y1 + if c[1] || c[2] {
        24int
    } else {
        0int
    };
    let y3 = y2 + if c[3] {
        24int
    } else {
        0int
    };
    (
        [
            (if c[0] {
                top
            } else {
                -1
            }) as i32,
            (if c[1] || c[2] {
                y1
            } else {
                -1
            }) as i32,
            (if c[3] {
                y2
            } else {
                -1
            }) as i32,
            (y3 + 2) as i32,
        ],
        y3,
    )
}

pub open spec fn widget(x: int, y: int, w: int, h: int, action: Action, disabled: bool) -> Widget {
    Widget { rect: [x as i32, y as i32, w as i32, h as i32], action, disabled }
}

/// The close button and the present controls, in order.
pub open spec fn control_widgets(c: [bool; 4], state: State, width: int, p: [i32; 4]) -> Seq<Widget> {
    let half = (width - 20) / 2;
    let x = (width - 80) / 2;
    seq![widget(width - 16, 3, 12, 12, Action::Noop, false)] + (if c[0] {
        seq![widget(7, p[0] as int, width - 48, 14, Action::Slider, false)]
    } else {
        Seq::empty()
    }) + (if c[1] {
        seq![widget(7, p[1] as int, half, 18, Action::Checkbox, false)]
    } else {
        Seq::empty()
    }) + (if c[2] {
        seq![widget(width - 7 - half, p[1] as int, half, 18, Action::Toggle, false)]
    } else {
        Seq::empty()
    }) + (if c[3] {
        seq![
            widget(x, p[2] as int, 18, 18, Action::Decrement, state.count <= -999),
            widget(x + 18, p[2] as int, 44, 18, Action::Noop, false),
            widget(x + 62, p[2] as int, 18, 18, Action::Increment, state.count >= 999),
        ]
    } else {
        Seq::empty()
    })
}

/// Button `i`'s width: its base width and an even share of the spare width,
/// the first `extra % n` buttons one more.
pub open spec fn shared_width(bs: Seq<Button>, extra: int, i: int) -> int {
    let n = bs.len() as int;
    base_width(bs[i]) + extra / n + if i < extra % n {
        1int
    } else {
        0int
    }
}

pub open spec fn button_x(bs: Seq<Button>, extra: int, i: int) -> int
    decreases i,
{
    if i <= 0 {
        7
    } else {
        button_x(bs, extra, i - 1) + shared_width(bs, extra, i - 1) + 6
    }
}

/// The first `k` buttons, left to right on the button row `y`.
pub open spec fn button_widgets(bs: Seq<Button>, extra: int, y: int, k: int) -> Seq<Widget>
    decreases k,
{
    if k <= 0 {
        Seq::empty()
    } else {
        button_widgets(bs, extra, y, k - 1).push(
            widget(button_x(bs, extra, k - 1), y, shared_width(bs, extra, k - 1), 20, Action::Noop, false),
        )
    }
}

proof fn lemma_widths_bound(bs: Seq<Button>, k: int)
    requires
        0 <= k <= bs.len(),
        forall|i: int| 0 <= i < bs.len() ==> (#[trigger] bs[i]).text@.len() <= 1000,
    ensures
        26 * k <= widths_sum(bs, k) <= 6100 * k,
    decreases k,
{
    if k > 0 {
        lemma_widths_bound(bs, k - 1);
        assert(bs[k - 1].text@.len() <= 1000);
    }
}

proof fn lemma_longest_row(rows: Seq<Seq<char>>, k: int)
    requires
        0 <= k <= rows.len(),
        forall|r: int| 0 <= r < rows.len() ==> #[trigger] rows[r].len() <= ROW_CHARS,
    ensures
        0 <= longest_row(rows, k) <= ROW_CHARS,
    decreases k,
{
    if k > 0 {
        lemma_longest_row(rows, k - 1);
    }
}

/// The base widths of the buttons and their sum.
fn base_widths(def: &Definition) -> (r: (Vec<i32>, i32))
    requires
        definition_ok(def),
    ensures
        r.0@.len() == def.buttons@.len(),
        forall|k: int| 0 <= k < r.0@.len() ==> #[trigger] r.0@[k] == base_width(def.buttons@[k]),
        forall|k: int| 0 <= k < r.0@.len() ==> 26 <= #[trigger] r.0@[k] <= 6100,
        r.1 == widths_sum(def.buttons@, def.buttons@.len() as int),
        0 <= r.1 <= 6100 * 64,
{
    let n = def.buttons.len();
    proof {
        lemma_widths_bound(def.buttons@, n as int);
    }
    let mut widths: Vec<i32> = Vec::new();
    let mut sum: i32 = 0;
    let mut i: usize = 0;
    while i < n
        invariant
            n == def.buttons@.len(),
            definition_ok(def),
            i <= n,
            widths@.len() == i,
            forall|k: int| 0 <= k < i ==> #[trigger] widths@[k] == base_width(def.buttons@[k]),
            forall|k: int| 0 <= k < i ==> 26 <= #[trigger] widths@[k] <= 6100,
            sum == widths_sum(def.buttons@, i as int),
            0 <= sum <= 6100 * i,
        decreases n - i,
    {
        let b = def.buttons[i];
        proof {
            assert(def.buttons@[i as int].text@.len() <= 1000);
            lemma_widths_bound(def.buttons@, i as int + 1);
        }
        let c = content(b).2;
        let w = if c + 12 >= 26 {
            c + 12
        } else {
            26
        };
        widths.push(w);
        sum = sum + w;
        i = i + 1;
    }
    (widths, sum)
}

/// The length of the longest row.
fn longest_len(rows: &Vec<String>) -> (m: i32)
    requires
        rows_fit(rows.deep_view()),
    ensures
        m == longest_row(rows.deep_view(), rows.deep_view().len() as int),
        0 <= m <= ROW_CHARS,
{
    let ghost rv = rows.deep_view();
    let mut longest: i32 = 0;
    let mut r: usize = 0;
    while r < rows.len()
        invariant
            rows.deep_view() == rv,
            rows_fit(rv),
            r <= rows.len(),
            longest == longest_row(rv, r as int),
            0 <= longest <= ROW_CHARS,
        decreases rows.len() - r,
    {
        let len = rows[r].as_str().unicode_len() as i32;
        proof {
            assert(rv[r as int] == rows@[r as int]@);
            assert(rv[r as int].len() <= ROW_CHARS);
        }
        if len > longest {
            longest = len;
        }
        r = r + 1;
    }
    longest
}

/// The close button and the present controls.
fn controls(c: [bool; 4], state: State, width: i32, positions: [i32; 4]) -> (w: Vec<Widget>)
    requires
        126 <= width <= 400000,
        forall|k: int| 0 <= k < 4 ==> -1 <= #[trigger] positions[k] <= 1000,
    ensures
        w@ == control_widgets(c, state, width as int, positions),
{
    let mut widgets: Vec<Widget> = Vec::new();
    widgets.push(Widget { rect: [width - 16, 3, 12, 12], action: Action::Noop, disabled: false });
    if c[0] {
        widgets.push(
            Widget { rect: [7, positions[0], width - 48, 14], action: Action::Slider, disabled: false },
        );
    }
    let half = (width - 20) / 2;
    if c[1] {
        widgets.push(
            Widget { rect: [7, positions[1], half, 18], action: Action::Checkbox, disabled: false },
        );
    }
    if c[2] {
        widgets.push(
            Widget {
                rect: [width - 7 - half, positions[1], half, 18],
                action: Action::Toggle,
                disabled: false,
            },
        );
    }
    if c[3] {
        let x = (width - 80) / 2;
        widgets.push(
            Widget {
                rect: [x, positions[2], 18, 18],
                action: Action::Decrement,
                disabled: state.count <= -999,
            },
        );
        widgets.push(Widget { rect: [x + 18, positions[2], 44, 18], action: Action::Noop, disabled: false });
        widgets.push(
            Widget {
                rect: [x + 62, positions[2], 18, 18],
                action: Action::Increment,
                disabled: state.count >= 999,
            },
        );
    }
    proof {
        assert(widgets@ =~= control_widgets(c, state, width as int, positions));
    }
    widgets
}

proof fn lemma_button_x(bs: Seq<Button>, extra: int, k: int)
    requires
        0 <= k <= bs.len(),
        0 <= extra <= 400000,
        forall|j: int| 0 <= j < bs.len() ==> 26 <= #[trigger] base_width(bs[j]) <= 6100,
    ensures
        7 <= button_x(bs, extra, k) <= 7 + k * (6100 + 400000 + 7),
    decreases k,
{
    if k > 0 {
        lemma_button_x(bs, extra, k - 1);
        let n = bs.len() as int;
        assert(0 <= extra / n <= extra) by {
            vstd::arithmetic::div_mod::lemma_div_pos_is_pos(extra, n);
            vstd::arithmetic::div_mod::lemma_div_is_ordered_by_denominator(extra, 1, n);
        }
        assert(base_width(bs[k - 1]) <= 6100);
        let w = shared_width(bs, extra, k - 1);
        assert(w <= 6100 + 400000 + 1);
        assert(w >= 0);
        let prev = button_x(bs, extra, k - 1);
        assert(prev + w + 6 <= 7 + k * (6100 + 400000 + 7)) by (nonlinear_arith)
            requires
                prev <= 7 + (k - 1) * (6100 + 400000 + 7),
                w <= 6100 + 400000 + 1,
        ;
    }
}

/// Append the buttons, sharing the row's spare width among them.
fn push_buttons(
    widgets: &mut Vec<Widget>,
    bs: &'static [Button],
    widths: &Vec<i32>,
    extra: i32,
    y: i32,
)
    requires
        bs@.len() <= 64,
        widths@.len() == bs@.len(),
        forall|j: int| 0 <= j < widths@.len() ==> #[trigger] widths@[j] == base_width(bs@[j]),
        forall|j: int| 0 <= j < widths@.len() ==> 26 <= #[trigger] widths@[j] <= 6100,
        0 <= extra <= 400000,
        -1 <= y <= 1000,
    ensures
        final(widgets)@ == old(widgets)@ + button_widgets(bs@, extra as int, y as int, bs@.len() as int),
{
    let n = bs.len();
    let ni = n as i32;
    proof {
        assert forall|j: int| 0 <= j < bs@.len() implies 26 <= #[trigger] base_width(bs@[j]) <= 6100 by {
            assert(widths@[j] == base_width(bs@[j]));
        }
    }
    let mut x: i32 = 7;
    let mut k: usize = 0;
    while k < n
        invariant
            n == bs@.len(),
            n == widths@.len(),
            n <= 64,
            ni == n,
            0 <= extra <= 400000,
            -1 <= y <= 1000,
            forall|j: int| 0 <= j < n ==> #[trigger] widths@[j] == base_width(bs@[j]),
            forall|j: int| 0 <= j < n ==> 26 <= #[trigger] base_width(bs@[j]) <= 6100,
            k <= n,
            x == button_x(bs@, extra as int, k as int),
            widgets@ == old(widgets)@ + button_widgets(bs@, extra as int, y as int, k as int),
        decreases n - k,
    {
        proof {
            lemma_button_x(bs@, extra as int, k as int);
            assert(0 <= extra / ni <= extra) by {
                vstd::arithmetic::div_mod::lemma_div_pos_is_pos(extra as int, ni as int);
                vstd::arithmetic::div_mod::lemma_div_is_ordered_by_denominator(extra as int, 1, ni as int);
            }
            assert(widths@[k as int] <= 6100);
        }
        let w = widths[k] + extra / ni + if (k as i32) < extra % ni {
            1
        } else {
            0
        };
        widgets.push(Widget { rect: [x, y, w, 20], action: Action::Noop, disabled: false });
        proof {
            assert(widgets@ =~= old(widgets)@ + button_widgets(bs@, extra as int, y as int, k + 1));
            lemma_button_x(bs@, extra as int, k + 1);
            assert(button_x(bs@, extra as int, k + 1) == x + w + 6);
            assert((k + 1) * (6100 + 400000 + 7) <= 64 * (6100 + 400000 + 7)) by (nonlinear_arith)
                requires
                    k + 1 <= 64,
            ;
        }
        x = x + w + 6;
        k = k + 1;
    }
}

/// Lay out a definition with the given control state: the body rows, the
/// panel size, the rows of the controls and every clickable widget, close
/// first, then the controls, then the buttons sharing the full row width.
pub fn layout(def: &Definition, state: State) -> (l: Layout)
    requires
        definition_ok(def),
    ensures
        l.rows.deep_view() == spec_text_rows(def.text@),
        ({
            let rows = spec_text_rows(def.text@);
            let width = panel_width(def, rows);
            let (p, bottom) = spec_positions(def.controls, controls_top(rows));
            let n = def.buttons@.len() as int;
            let extra = width - 14 - 6 * (n - 1) - widths_sum(def.buttons@, n);
            &&& l.width == width
            &&& l.height == bottom + 29
            &&& l.positions == p
            &&& l.widgets@ == control_widgets(def.controls, state, width, p) + button_widgets(
                def.buttons@,
                extra,
                p[3] as int,
                n,
            )
        }),
{
    let rows = text_rows(def.text);
    let ghost rv = rows.deep_view();
    let n = def.buttons.len();
    let (widths, sum) = base_widths(def);
    let longest = longest_len(&rows);
    let title = def.title.unicode_len() as i32;
    let ni = n as i32;
    let mut width: i32 = 126;
    if title * 6 + 28 > width {
        width = title * 6 + 28;
    }
    if longest * 6 + 14 > width {
        width = longest * 6 + 14;
    }
    if sum + 6 * (ni - 1) + 14 > width {
        width = sum + 6 * (ni - 1) + 14;
    }
    let mut y: i32 = if rows.len() == 0 {
        24
    } else {
        24 + (rows.len() as i32 - 1) * 15 + 11 + 9
    };
    let mut positions: [i32; 4] = [-1, -1, -1, -1];
    if def.controls[0] {
        positions[0] = y;
        y = y + 23;
    }
    if def.controls[1] || def.controls[2] {
        positions[1] = y;
        y = y + 24;
    }
    if def.controls[3] {
        positions[2] = y;
        y = y + 24;
    }
    positions[3] = y + 2;
    proof {
        let pos = spec_positions(def.controls, controls_top(rv));
        assert(positions =~= pos.0);
    }
    let mut widgets = controls(def.controls, state, width, positions);
    let extra = width - 14 - 6 * (ni - 1) - sum;
    push_buttons(&mut widgets, def.buttons, &widths, extra, positions[3]);
    Layout { width: width as usize, height: (y + 29) as usize, rows, positions, widgets }
}

/// `l` is the layout of `def` with control state `state`.
pub open spec fn laid_out(l: &Layout, def: Definition, state: State) -> bool {
    let rows = spec_text_rows(def.text@);
    let width = panel_width(&def, rows);
    let (p, bottom) = spec_positions(def.controls, controls_top(rows));
    let n = def.buttons@.len() as int;
    let extra = width - 14 - 6 * (n - 1) - widths_sum(def.buttons@, n);
    &&& l.rows.deep_view() == rows
    &&& l.width == width
    &&& l.height == bottom + 29
    &&& l.positions == p
    &&& l.widgets@ == control_widgets(def.controls, state, width, p) + button_widgets(
        def.buttons@,
        extra,
        p[3] as int,
        n,
    )
}

pub open spec fn no_state() -> State {
    State { progress: 0, count: 0, enabled: false, checked: false }
}

/// The three fixed plateau pages: loading, theme choice and error.
pub fn plateau_page(i: usize) -> (d: Definition)
    requires
        i < 3,
    ensures
        d.controls == [false, false, false, false],
        d.initial == no_state(),
        definition_ok(&d),
        d.buttons@.len() == (if i == 0 {
            0int
        } else if i == 1 {
            6int
        } else {
            1int
        }),
{
    let none = State { progress: 0, count: 0, enabled: false, checked: false };
    let d = if i == 0 {
        Definition {
            name: "plateau-loading",
            title: "CUSTOM PLATEAU",
            text: "Loading your profile...",
            theme: 0,
            tier: 1,
            buttons: &[],
            controls: [false, false, false, false],
            initial: none,
        }
    } else if i == 1 {
        Definition {
            name: "plateau-theme",
            title: "CUSTOM PLATEAU",
            text: "Choose your terrace colour once.\nOne personal plateau. Your space.",
            theme: 0,
            tier: 1,
            buttons: &[
                Button { mode: 0, icon: 0, text: "SKY" },
                Button { mode: 0, icon: 0, text: "GROUND" },
                Button { mode: 0, icon: 0, text: "BLACK" },
                Button { mode: 0, icon: 0, text: "WHITE" },
                Button { mode: 0, icon: 0, text: "ISLAND" },
                Button { mode: 0, icon: 0, text: "CITY" },
            ],
            controls: [false, false, false, false],
            initial: none,
        }
    } else {
        Definition {
            name: "plateau-error",
            title: "CUSTOM PLATEAU",
            text: "Profile request did not complete.\nKey4: retry. Key5: leave.\nReload discards unsaved placements.",
            theme: 0,
            tier: 1,
            buttons: &[Button { mode: 0, icon: 0, text: "RELOAD SAVED" }],
            controls: [false, false, false, false],
            initial: none,
        }
    };
    proof {
        reveal_strlit("CUSTOM PLATEAU");
        reveal_strlit("SKY");
        reveal_strlit("GROUND");
        reveal_strlit("BLACK");
        reveal_strlit("WHITE");
        reveal_strlit("ISLAND");
        reveal_strlit("CITY");
        reveal_strlit("RELOAD SAVED");
        assert(d.controls =~= [false, false, false, false]);
    }
    d
}

/// The page definitions: the three examples, then the plateau pages.
pub fn definition(examples: &'static [Definition], page: usize) -> (d: Definition)
    requires
        page < examples@.len() + 3,
    ensures
        page < examples@.len() ==> d == examples@[page as int],
        page >= examples@.len() ==> d.controls == [false, false, false, false] && d.initial
            == no_state() && definition_ok(&d),
{
    if page < examples.len() {
        examples[page]
    } else {
        plateau_page(page - examples.len())
    }
}

fn same_widget(a: Option<usize>, b: Option<usize>) -> (r: bool)
    ensures
        r == (a == b),
{
    match (a, b) {
        (Some(x), Some(y)) => x == y,
        (None, None) => true,
        _ => false,
    }
}

/// What a control does to the preview state when it is activated.
pub open spec fn apply_action(action: Action, s: State) -> State {
    match action {
        Action::Checkbox => State { checked: !s.checked, ..s },
        Action::Toggle => State { enabled: !s.enabled, ..s },
        Action::Decrement => State {
            count: if s.count - 1 < -999 {
                -999i32
            } else {
                (s.count - 1) as i32
            },
            ..s
        },
        Action::Increment => State {
            count: if s.count + 1 > 999 {
                999i32
            } else {
                (s.count + 1) as i32
            },
            ..s
        },
        _ => s,
    }
}

pub open spec fn min_int(a: int, b: int) -> int {
    if a <= b {
        a
    } else {
        b
    }
}

pub open spec fn max_int(a: int, b: int) -> int {
    if a >= b {
        a
    } else {
        b
    }
}

/// Law: activating a control changes only what it controls. Increment
/// raises the count by one up to 999, Decrement lowers it by one down to
/// -999; the checkbox and the toggle flip their flag; the others change
/// nothing.
pub proof fn lemma_action_effects(action: Action, s: State)
    ensures
        ({
            let n = apply_action(action, s);
            &&& n.progress == s.progress
            &&& action == Action::Increment ==> n.count == min_int(s.count + 1, 999)
            &&& action == Action::Decrement ==> n.count == max_int(s.count - 1, -999)
            &&& action != Action::Increment && action != Action::Decrement ==> n.count == s.count
            &&& action == Action::Increment && s.count <= 999 ==> s.count <= n.count
            &&& action == Action::Decrement && s.count >= -999 ==> n.count <= s.count
            &&& n.checked == (if action == Action::Checkbox {
                !s.checked
            } else {
                s.checked
            })
            &&& n.enabled == (if action == Action::Toggle {
                !s.enabled
            } else {
                s.enabled
            })
        }),
{
}

/// The interface preview: the six pages, their control states, the layout
/// of the page shown and the pointer state.
pub struct Demo {
    page: usize,
    states: [State; 6],
    layout: Layout,
    revision: u64,
    hover: Option<usize>,
    pressed: Option<usize>,
    capture: Option<usize>,
    pulse_until: u64,
    activated: Option<usize>,
    pages: Vec<Definition>,
}

/// Two layouts of one definition differ at most in which widgets are
/// disabled: every widget keeps its place in the list and its action.
pub proof fn lemma_layout_actions(l1: &Layout, l2: &Layout, def: Definition, s1: State, s2: State)
    requires
        laid_out(l1, def, s1),
        laid_out(l2, def, s2),
    ensures
        l1.widgets@.len() == l2.widgets@.len(),
        forall|i: int|
            0 <= i < l1.widgets@.len() ==> (#[trigger] l1.widgets@[i]).action
                == l2.widgets@[i].action,
{
    let rows = spec_text_rows(def.text@);
    let width = panel_width(&def, rows);
    let (p, bottom) = spec_positions(def.controls, controls_top(rows));
    let c1 = control_widgets(def.controls, s1, width, p);
    let c2 = control_widgets(def.controls, s2, width, p);
    assert(c1.len() == c2.len());
    assert forall|i: int| 0 <= i < c1.len() implies c1[i].action == c2[i].action by {}
}

/// A well-formed preview shows its page laid out from that page's
/// definition and control state, and has six pages.
pub proof fn lemma_shown_layout(d: &Demo)
    requires
        d.wf(),
    ensures
        d.definitions().len() == PAGE_COUNT,
        d.shown_page() < PAGE_COUNT,
        laid_out(
            &d.current_layout(),
            d.definitions()[d.shown_page() as int],
            d.page_states()[d.shown_page() as int],
        ),
{
}

/// An enabled widget whose rectangle holds the pixel cell `(x, y)`.
pub open spec fn holds(w: Widget, x: int, y: int) -> bool {
    &&& !w.disabled
    &&& w.rect[0] <= x < w.rect[0] + w.rect[2]
    &&& w.rect[1] <= y < w.rect[1] + w.rect[3]
}

impl Demo {
    pub closed spec fn shown_page(&self) -> usize {
        self.page
    }

    pub closed spec fn page_states(&self) -> [State; 6] {
        self.states
    }

    pub closed spec fn current_layout(&self) -> Layout {
        self.layout
    }

    pub closed spec fn rev(&self) -> u64 {
        self.revision
    }

    pub closed spec fn hovered(&self) -> Option<usize> {
        self.hover
    }

    pub closed spec fn press(&self) -> Option<usize> {
        self.pressed
    }

    pub closed spec fn definitions(&self) -> Seq<Definition> {
        self.pages@
    }

    pub closed spec fn capture_id(&self) -> Option<usize> {
        self.capture
    }

    pub closed spec fn pulse_end(&self) -> u64 {
        self.pulse_until
    }

    pub closed spec fn activation(&self) -> Option<usize> {
        self.activated
    }

    /// Six laid-out-able pages, the shown page laid out with its state, and
    /// a captured widget that exists.
    pub closed spec fn wf(&self) -> bool {
        &&& self.definitions().len() == PAGE_COUNT
        &&& forall|i: int| 0 <= i < PAGE_COUNT ==> definition_ok(&#[trigger] self.definitions()[i])
        &&& self.shown_page() < PAGE_COUNT
        &&& laid_out(&self.current_layout(), self.definitions()[self.shown_page() as int], self.page_states()[self.shown_page() as int])
        &&& self.capture_id() matches Some(id) ==> id < self.current_layout().widgets@.len()
    }

    /// The page shown.
    pub fn page(&self) -> (p: usize)
        ensures
            p == self.shown_page(),
    {
        self.page
    }

    /// The control state of every page.
    pub fn states(&self) -> (s: [State; 6])
        ensures
            s == self.page_states(),
    {
        self.states
    }

    /// The layout of the page shown.
    pub fn layout(&self) -> (l: &Layout)
        ensures
            *l == self.current_layout(),
    {
        &self.layout
    }

    /// The revision, raised by every change that redraws the preview.
    pub fn revision(&self) -> (r: u64)
        ensures
            r == self.rev(),
    {
        self.revision
    }

    /// The widget under the pointer.
    pub fn hover(&self) -> (h: Option<usize>)
        ensures
            h == self.hovered(),
    {
        self.hover
    }

    /// The widget held down.
    pub fn pressed(&self) -> (p: Option<usize>)
        ensures
            p == self.press(),
    {
        self.pressed
    }

    /// The first example page, every page in its initial state.
    pub fn new(examples: &'static [Definition]) -> (d: Self)
        requires
            examples@.len() == PLATEAU_LOADING,
            forall|i: int| 0 <= i < examples@.len() ==> definition_ok(&#[trigger] examples@[i]),
        ensures
            d.wf(),
            d.shown_page() == 0,
            d.rev() == 1,
            d.hovered() is None,
            d.press() is None,
            d.capture_id() is None,
            d.activation() is None,
            forall|i: int| 0 <= i < 3 ==> #[trigger] d.definitions()[i] == examples@[i],
            forall|i: int| 0 <= i < 6 ==> d.page_states()[i] == (#[trigger] d.definitions()[i]).initial,
    {
        let mut pages: Vec<Definition> = Vec::new();
        let mut i: usize = 0;
        while i < PAGE_COUNT
            invariant
                examples@.len() == 3,
                forall|k: int| 0 <= k < examples@.len() ==> definition_ok(&#[trigger] examples@[k]),
                i <= PAGE_COUNT,
                pages@.len() == i,
                forall|k: int| 0 <= k < i ==> definition_ok(&#[trigger] pages@[k]),
                forall|k: int| 0 <= k < i && k < 3 ==> #[trigger] pages@[k] == examples@[k],
            decreases PAGE_COUNT - i,
        {
            pages.push(definition(examples, i));
            i = i + 1;
        }
        let states = [
            pages[0].initial,
            pages[1].initial,
            pages[2].initial,
            pages[3].initial,
            pages[4].initial,
            pages[5].initial,
        ];
        let layout = layout(&pages[0], states[0]);
        Demo {
            page: 0,
            states,
            layout,
            revision: 1,
            hover: None,
            pressed: None,
            capture: None,
            pulse_until: 0,
            activated: None,
            pages,
        }
    }

    /// Lay out the shown page again.
    fn rebuild(&mut self)
        requires
            old(self).definitions().len() == PAGE_COUNT,
            forall|i: int| 0 <= i < PAGE_COUNT ==> definition_ok(&#[trigger] old(self).definitions()[i]),
            old(self).shown_page() < PAGE_COUNT,
            old(self).rev() < u64::MAX,
        ensures
            laid_out(&final(self).current_layout(), final(self).definitions()[final(self).shown_page() as int], final(self).page_states()[final(self).shown_page() as int]),
            final(self).rev() == old(self).rev() + 1,
            final(self).shown_page() == old(self).shown_page(),
            final(self).page_states() == old(self).page_states(),
            final(self).hovered() == old(self).hovered(),
            final(self).press() == old(self).press(),
            final(self).capture_id() == old(self).capture_id(),
            final(self).pulse_end() == old(self).pulse_end(),
            final(self).activation() == old(self).activation(),
            final(self).definitions() == old(self).definitions(),
    {
        self.layout = layout(&self.pages[self.page], self.states[self.page]);
        self.revision = self.revision + 1;
    }

    /// Paint the page shown in its state, with the pointer's hover and press
    /// (see `raster` for the style arguments).
    pub fn raster(&self, glyphs: &[u64], icons: &[[u8; 7]], themes: &[[u32; 11]], tones: &Tones) -> (c: Canvas)
        requires
            self.wf(),
            glyphs@.len() == 95,
            style_covers(self.definitions()[self.shown_page() as int], icons@.len() as int, themes@.len() as int),
            slider_fits(
                self.definitions()[self.shown_page() as int],
                self.current_layout(),
                self.page_states()[self.shown_page() as int],
            ),
        ensures
            c.wf(),
            c.width == self.current_layout().width,
            c.height == self.current_layout().height,
            c.cells() == spec_raster(
                self.definitions()[self.shown_page() as int],
                self.page_states()[self.shown_page() as int],
                self.current_layout(),
                self.hovered(),
                self.press(),
                glyphs@,
                icons@,
                themes@[self.definitions()[self.shown_page() as int].theme as int],
                *tones,
            ),
    {
        let def = &self.pages[self.page];
        raster(def, self.states[self.page], &self.layout, self.hover, self.pressed, glyphs, icons, themes, tones)
    }

    /// Drop hover, press, capture and any pending activation.
    pub fn cancel(&mut self)
        requires
            old(self).wf(),
            old(self).rev() < u64::MAX,
        ensures
            final(self).wf(),
            final(self).hovered() is None,
            final(self).press() is None,
            final(self).capture_id() is None,
            final(self).pulse_end() == 0,
            final(self).activation() is None,
            final(self).rev() == old(self).rev() + 1,
            final(self).shown_page() == old(self).shown_page(),
            final(self).page_states() == old(self).page_states(),
            final(self).definitions() == old(self).definitions(),
    {
        self.hover = None;
        self.pressed = None;
        self.capture = None;
        self.pulse_until = 0;
        self.activated = None;
        self.revision = self.revision + 1;
    }

    /// Show page `page` (modulo the page count), keeping every page's state.
    pub fn select(&mut self, page: usize)
        requires
            old(self).wf(),
            old(self).rev() < u64::MAX - 1,
        ensures
            final(self).wf(),
            final(self).shown_page() == page % PAGE_COUNT,
            final(self).hovered() is None,
            final(self).press() is None,
            final(self).capture_id() is None,
            final(self).pulse_end() == 0,
            final(self).activation() is None,
            final(self).rev() == old(self).rev() + 2,
            final(self).page_states() == old(self).page_states(),
            final(self).definitions() == old(self).definitions(),
            laid_out(
                &final(self).current_layout(),
                final(self).definitions()[(page % PAGE_COUNT) as int],
                final(self).page_states()[(page % PAGE_COUNT) as int],
            ),
    {
        self.page = page % PAGE_COUNT;
        self.hover = None;
        self.pressed = None;
        self.capture = None;
        self.pulse_until = 0;
        self.activated = None;
        self.revision = self.revision + 1;
        self.rebuild();
    }

    pub fn captured(&self) -> (c: bool)
        ensures
            c == self.capture_id() is Some,
    {
        self.capture.is_some()
    }

    /// The widget being dragged, if any.
    pub fn captured_widget(&self) -> (c: Option<usize>)
        ensures
            c == self.capture_id(),
    {
        self.capture
    }

    /// The widget activated since the last call, once.
    pub fn take_activation(&mut self) -> (a: Option<usize>)
        ensures
            a == old(self).activation(),
            final(self).activation() is None,
            final(self).shown_page() == old(self).shown_page(),
            final(self).page_states() == old(self).page_states(),
            final(self).current_layout() == old(self).current_layout(),
            final(self).rev() == old(self).rev(),
            final(self).hovered() == old(self).hovered(),
            final(self).press() == old(self).press(),
            final(self).capture_id() == old(self).capture_id(),
            final(self).pulse_end() == old(self).pulse_end(),
            final(self).definitions() == old(self).definitions(),
            old(self).wf() ==> final(self).wf(),
    {
        let a = self.activated;
        self.activated = None;
        a
    }

    /// End the press pulse of a released widget once its time is up.
    pub fn tick(&mut self, now: u64)
        requires
            old(self).rev() < u64::MAX,
        ensures
            ({
                let ends = old(self).capture_id() is None && old(self).press() is Some && now
                    >= old(self).pulse_end();
                &&& final(self).press() == if ends {
                    None
                } else {
                    old(self).press()
                }
                &&& final(self).rev() == old(self).rev() + if ends {
                    1int
                } else {
                    0int
                }
            }),
            final(self).shown_page() == old(self).shown_page(),
            final(self).page_states() == old(self).page_states(),
            final(self).current_layout() == old(self).current_layout(),
            final(self).hovered() == old(self).hovered(),
            final(self).capture_id() == old(self).capture_id(),
            final(self).pulse_end() == old(self).pulse_end(),
            final(self).activation() == old(self).activation(),
            final(self).definitions() == old(self).definitions(),
            old(self).wf() ==> final(self).wf(),
    {
        if self.capture.is_none() && self.pressed.is_some() && now >= self.pulse_until {
            self.pressed = None;
            self.revision = self.revision + 1;
        }
    }

    /// The first enabled widget whose rectangle holds the pixel cell
    /// `(x, y)`.
    pub fn hit_at(&self, x: i32, y: i32) -> (r: Option<usize>)
        ensures
            match r {
                Some(i) => i < self.current_layout().widgets@.len() && holds(
                    self.current_layout().widgets@[i as int],
                    x as int,
                    y as int,
                ) && forall|j: int|
                    0 <= j < i ==> !holds(#[trigger] self.current_layout().widgets@[j], x as int, y as int),
                None => forall|j: int|
                    0 <= j < self.current_layout().widgets@.len() ==> !holds(
                        #[trigger] self.current_layout().widgets@[j],
                        x as int,
                        y as int,
                    ),
            },
    {
        let mut i: usize = 0;
        while i < self.layout.widgets.len()
            invariant
                i <= self.layout.widgets@.len(),
                forall|j: int| 0 <= j < i ==> !holds(#[trigger] self.layout.widgets@[j], x as int, y as int),
            decreases self.layout.widgets.len() - i,
        {
            let w = self.layout.widgets[i];
            if !w.disabled && w.rect[0] as i64 <= x as i64 && w.rect[1] as i64 <= y as i64 && (x as i64)
                < w.rect[0] as i64 + w.rect[2] as i64 && (y as i64) < w.rect[1] as i64 + w.rect[3] as i64 {
                return Some(i);
            }
            i = i + 1;
        }
        None
    }

    /// One pointer event, given the widget under the pointer (`hit`) and,
    /// while a slider is dragged with the pointer on screen, the slider value
    /// under it: hover follows the pointer; a press captures the widget under
    /// it; a captured slider follows the value; a release over the captured
    /// widget activates it (the checkbox, toggle and counter change the
    /// preview state; everything else only animates); a release anywhere
    /// ends the capture and starts the press pulse.
    pub fn pointer_hit(
        &mut self,
        hit: Option<usize>,
        slider: Option<i32>,
        pressed: bool,
        down: bool,
        now: u64,
    )
        requires
            old(self).wf(),
            hit matches Some(h) ==> h < old(self).current_layout().widgets@.len(),
            slider matches Some(v) ==> 0 <= v <= 100,
            now <= u64::MAX - 180,
            old(self).rev() <= u64::MAX - 4,
            i32::MIN < old(self).page_states()[old(self).shown_page() as int].count < i32::MAX,
        ensures
            final(self).wf(),
            ({
                let page = old(self).shown_page() as int;
                let st0 = old(self).page_states()[page];
                let cap = if pressed {
                    hit
                } else {
                    old(self).capture_id()
                };
                let action = match cap {
                    Some(id) => old(self).current_layout().widgets@[id as int].action,
                    None => Action::Noop,
                };
                let slid = cap is Some && action == Action::Slider && (slider matches Some(v)
                    && st0.progress != v);
                let st1 = if slid {
                    State { progress: slider->0, ..st0 }
                } else {
                    st0
                };
                let released = cap is Some && !down;
                let activates = released && hit == cap;
                let st2 = if activates {
                    apply_action(action, st1)
                } else {
                    st1
                };
                &&& final(self).page_states()@ == old(self).page_states()@.update(page, st2)
                &&& final(self).hovered() == hit
                &&& final(self).press() == if pressed {
                    hit
                } else {
                    old(self).press()
                }
                &&& final(self).capture_id() == if released {
                    None
                } else {
                    cap
                }
                &&& final(self).pulse_end() == if released {
                    (now + 180) as u64
                } else {
                    old(self).pulse_end()
                }
                &&& final(self).activation() == if activates {
                    cap
                } else {
                    old(self).activation()
                }
                &&& final(self).rev() == old(self).rev() + (if hit != old(self).hovered() {
                    1int
                } else {
                    0int
                }) + (if pressed {
                    1int
                } else {
                    0int
                }) + (if slid {
                    1int
                } else {
                    0int
                }) + (if activates {
                    1int
                } else {
                    0int
                })
            }),
            final(self).shown_page() == old(self).shown_page(),
            final(self).definitions() == old(self).definitions(),
    {
        let ghost old_layout = self.layout;
        let ghost page = self.page as int;
        if !same_widget(self.hover, hit) {
            self.hover = hit;
            self.revision = self.revision + 1;
        }
        if pressed {
            self.capture = hit;
            self.pressed = hit;
            self.revision = self.revision + 1;
        }
        if let Some(id) = self.capture {
            let action = self.layout.widgets[id].action;
            if action == Action::Slider {
                if let Some(value) = slider {
                    if self.states[self.page].progress != value {
                        let mut st = self.states[self.page];
                        st.progress = value;
                        self.states[self.page] = st;
                        let ghost before = self.layout;
                        self.rebuild();
                        proof {
                            lemma_layout_actions(
                                &before,
                                &self.layout,
                                self.pages@[page],
                                old(self).states[page],
                                self.states[page],
                            );
                        }
                    }
                }
            }
            if !down {
                if same_widget(hit, Some(id)) {
                    self.activated = Some(id);
                    let st = self.states[self.page];
                    let next = match action {
                        Action::Checkbox => State { checked: !st.checked, ..st },
                        Action::Toggle => State { enabled: !st.enabled, ..st },
                        Action::Decrement => State {
                            count: if st.count - 1 < -999 {
                                -999
                            } else {
                                st.count - 1
                            },
                            ..st
                        },
                        Action::Increment => State {
                            count: if st.count + 1 > 999 {
                                999
                            } else {
                                st.count + 1
                            },
                            ..st
                        },
                        _ => st,
                    };
                    self.states[self.page] = next;
                    let ghost before = self.layout;
                    let ghost prior = self.states[page];
                    self.rebuild();
                    proof {
                        lemma_layout_actions(
                            &before,
                            &self.layout,
                            self.pages@[page],
                            st,
                            next,
                        );
                    }
                }
                self.capture = None;
                self.pulse_until = now + 180;
            }
        }
        proof {
            assert(self.states@ =~= old(self).states@.update(page, self.states[page]));
        }
    }
}

/// A UI raster: a colour and a height per cell.
pub struct Canvas {
    pub width: usize,
    pub height: usize,
    pub colors: Vec<u32>,
    pub heights: Vec<u8>,
}

/// Cells on the bevelled border strip of width `clip` are left out of a
/// rectangle: a cell is drawn when its distances to the nearest vertical and
/// horizontal edges add up to `clip` or more.
pub open spec fn edge_distance(d: int, n: int) -> int {
    if d <= n - 1 - d {
        d
    } else {
        n - 1 - d
    }
}

pub open spec fn in_rect(r: [i32; 4], clip: i32, px: int, py: int) -> bool {
    let dx = px - r[0];
    let dy = py - r[1];
    &&& 0 <= dx < r[2]
    &&& 0 <= dy < r[3]
    &&& edge_distance(dx, r[2] as int) + edge_distance(dy, r[3] as int) >= clip
}

impl Canvas {
    /// Colours and heights hold one value per cell.
    pub open spec fn wf(&self) -> bool {
        &&& self.colors@.len() == self.width * self.height
        &&& self.heights@.len() == self.width * self.height
    }

    /// A canvas of one colour at height zero.
    pub fn new(w: usize, h: usize, color: u32) -> (c: Self)
        requires
            w * h <= usize::MAX,
        ensures
            c.wf(),
            c.width == w,
            c.height == h,
            c.colors@ == Seq::new((w * h) as nat, |i: int| color),
            c.heights@ == Seq::new((w * h) as nat, |i: int| 0u8),
    {
        let n = w * h;
        let colors = vec![color; n];
        let heights = vec![0u8; n];
        proof {
            assert(colors@ =~= Seq::new((w * h) as nat, |i: int| color));
            assert(heights@ =~= Seq::new((w * h) as nat, |i: int| 0u8));
        }
        Canvas { width: w, height: h, colors, heights }
    }

    /// Draw one cell at height `z` unless it is off the canvas or a higher
    /// cell is already there.
    pub fn put(&mut self, x: i32, y: i32, z: u8, color: u32)
        requires
            old(self).wf(),
        ensures
            final(self).wf(),
            final(self).width == old(self).width,
            final(self).height == old(self).height,
            ({
                let w = old(self).width as int;
                let i = y * w + x;
                if 0 <= x < w && 0 <= y < old(self).height && z >= old(self).heights@[i] {
                    &&& final(self).colors@ == old(self).colors@.update(i, color)
                    &&& final(self).heights@ == old(self).heights@.update(i, z)
                } else {
                    &&& final(self).colors@ == old(self).colors@
                    &&& final(self).heights@ == old(self).heights@
                }
            }),
    {
        let n = self.colors.len();
        if x >= 0 && y >= 0 && (x as usize) < self.width && (y as usize) < self.height {
            proof {
                assert(n == self.width * self.height);
                assert((y as int) * self.width + x < self.width * self.height) by (nonlinear_arith)
                    requires
                        0 <= x < self.width,
                        0 <= y < self.height,
                ;
                assert(0 <= (y as int) * self.width) by (nonlinear_arith)
                    requires
                        0 <= y,
                ;
                assert((y as int) * self.width <= (y as int) * self.width + x);
            }
            let i = y as usize * self.width + x as usize;
            if z >= self.heights[i] {
                self.colors.set(i, color);
                self.heights.set(i, z);
            }
        }
    }
}

proof fn lemma_cell_index(w: int, px: int, py: int, qx: int, qy: int)
    requires
        0 <= px < w,
        0 <= qx < w,
        0 <= py,
        0 <= qy,
        py * w + px == qy * w + qx,
    ensures
        px == qx && py == qy,
{
    lemma_fundamental_div_mod_converse(py * w + px, w, py, px);
    lemma_fundamental_div_mod_converse(qy * w + qx, w, qy, qx);
}

/// The cells of `r` that rows before `dy`, and columns before `dx` of row
/// `dy`, have drawn.
pub open spec fn drawn_before(r: [i32; 4], px: int, py: int, dy: int, dx: int) -> bool {
    (py - r[1] < dy) || (py - r[1] == dy && px - r[0] < dx)
}

pub open spec fn rect_result(
    old_colors: Seq<u32>,
    old_heights: Seq<u8>,
    colors: Seq<u32>,
    heights: Seq<u8>,
    w: int,
    h: int,
    r: [i32; 4],
    z: u8,
    color: u32,
    clip: i32,
    dy: int,
    dx: int,
) -> bool {
    &&& colors.len() == old_colors.len()
    &&& heights.len() == old_heights.len()
    &&& forall|px: int, py: int|
        #![trigger colors[py * w + px]]
        #![trigger heights[py * w + px]]
        0 <= px < w && 0 <= py < h ==> {
            let i = py * w + px;
            let drawn = in_rect(r, clip, px, py) && drawn_before(r, px, py, dy, dx) && z
                >= old_heights[i];
            &&& colors[i] == if drawn {
                color
            } else {
                old_colors[i]
            }
            &&& heights[i] == if drawn {
                z
            } else {
                old_heights[i]
            }
        }
}

/// The cells after drawing rectangle `r` at height `z`, leaving out its
/// bevelled border strip of width `clip`: cell `i` of a `w` wide canvas is
/// column `i % w` of row `i / w`.
pub open spec fn rect_cells(
    cells: (Seq<u32>, Seq<u8>),
    w: int,
    h: int,
    r: [i32; 4],
    z: u8,
    color: u32,
    clip: i32,
) -> (Seq<u32>, Seq<u8>) {
    (
        Seq::new(
            cells.0.len(),
            |i: int|
                if in_rect(r, clip, i % w, i / w) && z >= cells.1[i] {
                    color
                } else {
                    cells.0[i]
                },
        ),
        Seq::new(
            cells.1.len(),
            |i: int|
                if in_rect(r, clip, i % w, i / w) && z >= cells.1[i] {
                    z
                } else {
                    cells.1[i]
                },
        ),
    )
}

proof fn lemma_rect_cells(
    old_colors: Seq<u32>,
    old_heights: Seq<u8>,
    colors: Seq<u32>,
    heights: Seq<u8>,
    w: int,
    h: int,
    r: [i32; 4],
    z: u8,
    color: u32,
    clip: i32,
)
    requires
        old_colors.len() == w * h,
        old_heights.len() == w * h,
        0 <= w,
        0 <= h,
        rect_result(old_colors, old_heights, colors, heights, w, h, r, z, color, clip, r[3] as int, 0),
    ensures
        (colors, heights) == rect_cells((old_colors, old_heights), w, h, r, z, color, clip),
{
    let rc = rect_cells((old_colors, old_heights), w, h, r, z, color, clip);
    assert forall|i: int| 0 <= i < w * h implies colors[i] == rc.0[i] && heights[i] == rc.1[i] by {
        assert(w > 0) by (nonlinear_arith)
            requires
                0 <= i < w * h,
                0 <= h,
                0 <= w,
        ;
        let px = i % w;
        let py = i / w;
        vstd::arithmetic::div_mod::lemma_fundamental_div_mod(i, w);
        vstd::arithmetic::div_mod::lemma_mod_pos_bound(i, w);
        assert(i == py * w + px) by (nonlinear_arith)
            requires
                i == w * (i / w) + i % w,
                py == i / w,
                px == i % w,
        ;
        assert(0 <= py < h) by (nonlinear_arith)
            requires
                i == py * w + px,
                0 <= px < w,
                0 <= i < w * h,
                w > 0,
        ;
        assert(colors[py * w + px] == colors[i]);
        assert(heights[py * w + px] == heights[i]);
    }
    assert(colors =~= rc.0);
    assert(heights =~= rc.1);
}

impl Canvas {
    /// Draw the rectangle `r` (x, y, width, height) at height `z`, leaving
    /// out its bevelled border strip of width `clip`.
    pub fn rect(&mut self, r: [i32; 4], z: u8, color: u32, clip: i32)
        requires
            old(self).wf(),
            r[0] + r[2] <= i32::MAX,
            r[1] + r[3] <= i32::MAX,
        ensures
            final(self).wf(),
            final(self).width == old(self).width,
            final(self).height == old(self).height,
            rect_result(
                old(self).colors@,
                old(self).heights@,
                final(self).colors@,
                final(self).heights@,
                old(self).width as int,
                old(self).height as int,
                r,
                z,
                color,
                clip,
                r[3] as int,
                0,
            ),
            final(self).cells() == rect_cells(
                old(self).cells(),
                old(self).width as int,
                old(self).height as int,
                r,
                z,
                color,
                clip,
            ),
    {
        let ghost w = self.width as int;
        let ghost h = self.height as int;
        let mut dy: i32 = 0;
        while dy < r[3]
            invariant
                self.wf(),
                self.width == w,
                self.height == h,
                r[0] + r[2] <= i32::MAX,
                r[1] + r[3] <= i32::MAX,
                0 <= dy,
                dy <= r[3] || r[3] < 0,
                rect_result(
                    old(self).colors@,
                    old(self).heights@,
                    self.colors@,
                    self.heights@,
                    w,
                    h,
                    r,
                    z,
                    color,
                    clip,
                    dy as int,
                    0,
                ),
            decreases r[3] - dy,
        {
            self.rect_row(r, z, color, clip, dy, Ghost(old(self).colors@), Ghost(old(self).heights@));
            dy = dy + 1;
        }
        proof {
            if r[3] <= 0 {
                assert forall|px: int, py: int| 0 <= px < w && 0 <= py < h implies !in_rect(
                    r,
                    clip,
                    px,
                    py,
                ) by {}
            }
            lemma_rect_cells(
                old(self).colors@,
                old(self).heights@,
                self.colors@,
                self.heights@,
                w,
                h,
                r,
                z,
                color,
                clip,
            );
        }
    }

    fn rect_row(
        &mut self,
        r: [i32; 4],
        z: u8,
        color: u32,
        clip: i32,
        dy: i32,
        Ghost(colors0): Ghost<Seq<u32>>,
        Ghost(heights0): Ghost<Seq<u8>>,
    )
        requires
            old(self).wf(),
            0 <= dy < r[3],
            r[0] + r[2] <= i32::MAX,
            r[1] + r[3] <= i32::MAX,
            rect_result(
                colors0,
                heights0,
                old(self).colors@,
                old(self).heights@,
                old(self).width as int,
                old(self).height as int,
                r,
                z,
                color,
                clip,
                dy as int,
                0,
            ),
        ensures
            final(self).wf(),
            final(self).width == old(self).width,
            final(self).height == old(self).height,
            rect_result(
                colors0,
                heights0,
                final(self).colors@,
                final(self).heights@,
                old(self).width as int,
                old(self).height as int,
                r,
                z,
                color,
                clip,
                dy + 1,
                0,
            ),
    {
        let ghost w = self.width as int;
        let ghost h = self.height as int;
        let mut dx: i32 = 0;
        while dx < r[2]
            invariant
                self.wf(),
                self.width == w,
                self.height == h,
                0 <= dy < r[3],
                r[0] + r[2] <= i32::MAX,
                r[1] + r[3] <= i32::MAX,
                0 <= dx,
                dx <= r[2] || r[2] < 0,
                rect_result(
                    colors0,
                    heights0,
                    self.colors@,
                    self.heights@,
                    w,
                    h,
                    r,
                    z,
                    color,
                    clip,
                    dy as int,
                    dx as int,
                ),
            decreases r[2] - dx,
        {
            let ex = if dx <= r[2] - 1 - dx {
                dx
            } else {
                r[2] - 1 - dx
            };
            let ey = if dy <= r[3] - 1 - dy {
                dy
            } else {
                r[3] - 1 - dy
            };
            let ghost c1 = self.colors@;
            let ghost h1 = self.heights@;
            assert(c1.len() == w * h && h1.len() == w * h);
            let ghost qx: int = r[0] + dx;
            let ghost qy: int = r[1] + dy;
            let ghost j: int = qy * w + qx;
            let ghost put_here: bool = ex + ey >= clip && 0 <= qx < w && 0 <= qy < h && z >= h1[j];
            if ex + ey >= clip {
                self.put(r[0] + dx, r[1] + dy, z, color);
            }
            proof {
                assert(self.colors@ == if put_here {
                    c1.update(j, color)
                } else {
                    c1
                });
                assert(self.heights@ == if put_here {
                    h1.update(j, z)
                } else {
                    h1
                });
                assert forall|px: int, py: int|
                    #![trigger self.colors@[py * w + px]]
                    #![trigger self.heights@[py * w + px]]
                    0 <= px < w && 0 <= py < h implies {
                    let i = py * w + px;
                    let drawn = in_rect(r, clip, px, py) && drawn_before(r, px, py, dy as int, dx + 1)
                        && z >= heights0[i];
                    &&& self.colors@[i] == if drawn {
                        color
                    } else {
                        colors0[i]
                    }
                    &&& self.heights@[i] == if drawn {
                        z
                    } else {
                        heights0[i]
                    }
                } by {
                    let i = py * w + px;
                    assert(0 <= py * w) by (nonlinear_arith)
                        requires
                            0 <= py,
                            0 <= w,
                    ;
                    assert(i < w * h) by (nonlinear_arith)
                        requires
                            0 <= px < w,
                            0 <= py < h,
                            i == py * w + px,
                    ;
                    assert(c1[py * w + px] == c1[i]);
                    assert(h1[py * w + px] == h1[i]);
                    if px == qx && py == qy {
                        assert(!drawn_before(r, px, py, dy as int, dx as int));
                        assert(c1[i] == colors0[i] && h1[i] == heights0[i]);
                        assert(edge_distance(px - r[0], r[2] as int) == ex);
                        assert(edge_distance(py - r[1], r[3] as int) == ey);
                    } else {
                        if put_here {
                            if i == j {
                                lemma_cell_index(w, px, py, qx, qy);
                            }
                            assert(i != j);
                            assert(0 <= i < c1.len());
                            assert(0 <= j < w * h) by (nonlinear_arith)
                                requires
                                    0 <= qx < w,
                                    0 <= qy < h,
                                    j == qy * w + qx,
                            ;
                            assert(c1.update(j, color)[i] == c1[i]);
                            assert(h1.update(j, z)[i] == h1[i]);
                        }
                        assert(self.colors@[i] == c1[i]);
                        assert(self.heights@[i] == h1[i]);
                        assert(drawn_before(r, px, py, dy as int, dx + 1) == drawn_before(
                            r,
                            px,
                            py,
                            dy as int,
                            dx as int,
                        ));
                    }
                }
            }
            dx = dx + 1;
        }
        proof {
            assert forall|px: int, py: int| 0 <= px < w && 0 <= py < h && in_rect(r, clip, px, py)
                implies (drawn_before(r, px, py, dy as int, dx as int) == drawn_before(
                r,
                px,
                py,
                dy + 1,
                0,
            )) by {}
        }
    }
}

/// The colours and heights of a `w` by `h` canvas after drawing one cell:
/// nothing changes off the canvas or under a higher cell.
pub open spec fn put_cell(
    cells: (Seq<u32>, Seq<u8>),
    w: int,
    h: int,
    x: int,
    y: int,
    z: u8,
    color: u32,
) -> (Seq<u32>, Seq<u8>) {
    let i = y * w + x;
    if 0 <= x < w && 0 <= y < h && z >= cells.1[i] {
        (cells.0.update(i, color), cells.1.update(i, z))
    } else {
        cells
    }
}

/// The cells after drawing the first `k` of a glyph's 64 bits, the most
/// significant first; bit `b` sits in column `b % 6` of row `b / 6`.
pub open spec fn glyph_cells(
    cells: (Seq<u32>, Seq<u8>),
    w: int,
    h: int,
    bits: u64,
    x: int,
    y: int,
    z: u8,
    color: u32,
    k: int,
) -> (Seq<u32>, Seq<u8>)
    decreases k,
{
    if k <= 0 {
        cells
    } else {
        let prev = glyph_cells(cells, w, h, bits, x, y, z, color, k - 1);
        let b = k - 1;
        if (bits >> ((63 - b) as u64)) & 1 != 0 {
            put_cell(prev, w, h, x + b % 6, y + b / 6, z, color)
        } else {
            prev
        }
    }
}

/// The cells after drawing the first `n` characters of `text` from `(x, y)`,
/// six cells apart, each the glyph of its code less 32; a `q` sits one cell
/// to the right.
pub open spec fn label_cells(
    cells: (Seq<u32>, Seq<u8>),
    w: int,
    h: int,
    glyphs: Seq<u64>,
    text: Seq<char>,
    x: int,
    y: int,
    z: u8,
    color: u32,
    n: int,
) -> (Seq<u32>, Seq<u8>)
    decreases n,
{
    if n <= 0 {
        cells
    } else {
        let prev = label_cells(cells, w, h, glyphs, text, x, y, z, color, n - 1);
        let c = text[n - 1];
        glyph_cells(
            prev,
            w,
            h,
            glyphs[c as int - 32],
            x + (n - 1) * 6 + (if c == 'q' {
                1int
            } else {
                0int
            }),
            y,
            z,
            color,
            64,
        )
    }
}

/// The cells after drawing the first `k` of a seven by seven icon's cells,
/// row by row; the top bit of each row's seven is its left cell.
pub open spec fn icon_cells(
    cells: (Seq<u32>, Seq<u8>),
    w: int,
    h: int,
    rows: [u8; 7],
    x: int,
    y: int,
    z: u8,
    color: u32,
    k: int,
) -> (Seq<u32>, Seq<u8>)
    decreases k,
{
    if k <= 0 {
        cells
    } else {
        let prev = icon_cells(cells, w, h, rows, x, y, z, color, k - 1);
        let b = k - 1;
        if (rows[b / 7] >> ((6 - b % 7) as u8)) & 1 != 0 {
            put_cell(prev, w, h, x + b % 7, y + b / 7, z, color)
        } else {
            prev
        }
    }
}

impl Canvas {
    /// The colours and heights together.
    pub open spec fn cells(&self) -> (Seq<u32>, Seq<u8>) {
        (self.colors@, self.heights@)
    }

    /// Draw one glyph, given as 64 bits, with its top left cell at `(x, y)`.
    fn glyph(&mut self, bits: u64, x: i32, y: i32, z: u8, color: u32)
        requires
            old(self).wf(),
            x <= i32::MAX - 5,
            y <= i32::MAX - 10,
        ensures
            final(self).wf(),
            final(self).width == old(self).width,
            final(self).height == old(self).height,
            final(self).cells() == glyph_cells(
                old(self).cells(),
                old(self).width as int,
                old(self).height as int,
                bits,
                x as int,
                y as int,
                z,
                color,
                64,
            ),
    {
        let ghost w = self.width as int;
        let ghost h = self.height as int;
        let ghost start = self.cells();
        let mut b: u64 = 0;
        while b < 64
            invariant
                self.wf(),
                self.width == w,
                self.height == h,
                b <= 64,
                x <= i32::MAX - 5,
                y <= i32::MAX - 10,
                self.cells() == glyph_cells(start, w, h, bits, x as int, y as int, z, color, b as int),
            decreases 64 - b,
        {
            if (bits >> (63 - b)) & 1 != 0 {
                self.put(x + (b % 6) as i32, y + (b / 6) as i32, z, color);
            }
            b = b + 1;
        }
    }

    /// Draw the printable form of `text` from `(x, y)` with the font `glyphs`
    /// (the 95 printable characters from the space on).
    pub fn label(&mut self, glyphs: &[u64], text: &str, x: i32, y: i32, z: u8, color: u32)
        requires
            old(self).wf(),
            glyphs@.len() == 95,
            6 * text@.len() + 6 <= i32::MAX,
            x + 6 * text@.len() + 6 <= i32::MAX,
            y <= i32::MAX - 10,
        ensures
            final(self).wf(),
            final(self).width == old(self).width,
            final(self).height == old(self).height,
            final(self).cells() == label_cells(
                old(self).cells(),
                old(self).width as int,
                old(self).height as int,
                glyphs@,
                spec_printable(text@),
                x as int,
                y as int,
                z,
                color,
                text@.len() as int,
            ),
    {
        let ghost w = self.width as int;
        let ghost h = self.height as int;
        let ghost start = self.cells();
        let s = printable(text);
        let n = text.unicode_len();
        let mut i: usize = 0;
        while i < n
            invariant
                self.wf(),
                self.width == w,
                self.height == h,
                glyphs@.len() == 95,
                n == text@.len(),
                s@ == spec_printable(text@),
                i <= n,
                6 * n + 6 <= i32::MAX,
                x + 6 * n + 6 <= i32::MAX,
                y <= i32::MAX - 10,
                self.cells() == label_cells(start, w, h, glyphs@, s@, x as int, y as int, z, color, i as int),
            decreases n - i,
        {
            let c = s.as_str().get_char(i);
            proof {
                assert(c == sanitize(text@[i as int]));
                assert(is_printable(c));
            }
            let code = c as u32;
            let bits = glyphs[(code - 32) as usize];
            let q: i32 = if c == 'q' {
                1
            } else {
                0
            };
            self.glyph(bits, x + (i as i32) * 6 + q, y, z, color);
            i = i + 1;
        }
    }

    /// Draw icon `id` of `icons` (seven rows of seven cells) with its top
    /// left cell at `(x, y)`.
    pub fn icon(&mut self, icons: &[[u8; 7]], id: usize, x: i32, y: i32, z: u8, color: u32)
        requires
            old(self).wf(),
            id < icons@.len(),
            x <= i32::MAX - 6,
            y <= i32::MAX - 6,
        ensures
            final(self).wf(),
            final(self).width == old(self).width,
            final(self).height == old(self).height,
            final(self).cells() == icon_cells(
                old(self).cells(),
                old(self).width as int,
                old(self).height as int,
                icons@[id as int],
                x as int,
                y as int,
                z,
                color,
                49,
            ),
    {
        let ghost w = self.width as int;
        let ghost h = self.height as int;
        let ghost start = self.cells();
        let rows = icons[id];
        let mut b: usize = 0;
        while b < 49
            invariant
                self.wf(),
                self.width == w,
                self.height == h,
                b <= 49,
                rows == icons@[id as int],
                x <= i32::MAX - 6,
                y <= i32::MAX - 6,
                self.cells() == icon_cells(start, w, h, rows, x as int, y as int, z, color, b as int),
            decreases 49 - b,
        {
            let dx = (b % 7) as u8;
            let dy = b / 7;
            if (rows[dy] >> (6 - dx)) & 1 != 0 {
                self.put(x + dx as i32, y + dy as i32, z, color);
            }
            b = b + 1;
        }
    }

    /// Draw a button: its edge and its bevelled face at height `2 + lift`,
    /// then the icon and the label centred together, in `ink`.
    pub fn button(
        &mut self,
        glyphs: &[u64],
        icons: &[[u8; 7]],
        r: [i32; 4],
        text: &str,
        icon: Option<usize>,
        fill: u32,
        ink: u32,
        edge: u32,
        lift: u8,
    )
        requires
            old(self).wf(),
            glyphs@.len() == 95,
            icon matches Some(id) ==> id < icons@.len(),
            lift <= 250,
            text@.len() <= BUTTON_TEXT_LIMIT,
            forall|i: int| 0 <= i < text@.len() ==> is_printable(#[trigger] text@[i]),
            button_fits(r),
        ensures
            final(self).wf(),
            final(self).width == old(self).width,
            final(self).height == old(self).height,
            final(self).cells() == button_cells(
                old(self).cells(),
                old(self).width as int,
                old(self).height as int,
                glyphs@,
                icons@,
                r,
                text@,
                icon,
                fill,
                ink,
                edge,
                lift,
            ),
    {
        self.rect(r, 1, edge, 1);
        self.rect(r, 2 + lift, fill, 1);
        let n = text.unicode_len() as i32;
        let has_icon = icon.is_some();
        let content = n * 6 + if has_icon {
            7
        } else {
            0
        } + if has_icon && n > 0 {
            4
        } else {
            0
        };
        let left = r[0] + half(r[2] - content);
        if let Some(id) = icon {
            self.icon(icons, id, left, r[1] + half(r[3] - 7), 3 + lift, ink);
        }
        if n > 0 {
            proof {
                assert(spec_printable(text@) =~= text@);
            }
            self.label(
                glyphs,
                text,
                left + if has_icon {
                    11
                } else {
                    0
                },
                r[1] + half(r[3] - 11),
                3 + lift,
                ink,
            );
        }
    }
}

/// Half of `a`, rounded toward zero as integer division rounds.
pub open spec fn half_toward_zero(a: int) -> int {
    if a >= 0 {
        a / 2
    } else {
        -((-a) / 2)
    }
}

fn half(a: i32) -> (r: i32)
    requires
        a > i32::MIN,
    ensures
        r == half_toward_zero(a as int),
{
    if a >= 0 {
        a / 2
    } else {
        -((-a) / 2)
    }
}

/// The longest button label drawn.
pub const BUTTON_TEXT_LIMIT: usize = 100000;

/// A button rectangle whose corners and centring sums fit an `i32`: every
/// coordinate and size within 2^26.
pub open spec fn button_fits(r: [i32; 4]) -> bool {
    &&& -0x400_0000 <= r[0] <= 0x400_0000
    &&& -0x400_0000 <= r[1] <= 0x400_0000
    &&& -0x400_0000 <= r[2] <= 0x400_0000
    &&& -0x400_0000 <= r[3] <= 0x400_0000
}

/// The cells after drawing a button with `Canvas::button`.
pub open spec fn button_cells(
    cells: (Seq<u32>, Seq<u8>),
    w: int,
    h: int,
    glyphs: Seq<u64>,
    icons: Seq<[u8; 7]>,
    r: [i32; 4],
    text: Seq<char>,
    icon: Option<usize>,
    fill: u32,
    ink: u32,
    edge: u32,
    lift: u8,
) -> (Seq<u32>, Seq<u8>) {
    let edged = rect_cells(cells, w, h, r, 1, edge, 1);
    let faced = rect_cells(edged, w, h, r, (2 + lift) as u8, fill, 1);
    let content = text.len() * 6 + (if icon is Some {
        7int
    } else {
        0int
    }) + (if icon is Some && text.len() > 0 {
        4int
    } else {
        0int
    });
    let left = r[0] + half_toward_zero(r[2] - content);
    let iconed = match icon {
        Some(id) => icon_cells(
            faced,
            w,
            h,
            icons[id as int],
            left,
            r[1] + half_toward_zero(r[3] - 7),
            (3 + lift) as u8,
            ink,
            49,
        ),
        None => faced,
    };
    if text.len() > 0 {
        label_cells(
            iconed,
            w,
            h,
            glyphs,
            text,
            left + (if icon is Some {
                11int
            } else {
                0int
            }),
            r[1] + half_toward_zero(r[3] - 11),
            (3 + lift) as u8,
            ink,
            text.len() as int,
        )
    } else {
        iconed
    }
}

/// The decimal digit `d` as a character.
pub open spec fn digit_char(d: int) -> char {
    (48 + d) as char
}

/// The decimal digits of `n`, most significant first.
pub open spec fn digits(n: nat) -> Seq<char>
    decreases n,
{
    if n < 10 {
        seq![digit_char(n as int)]
    } else {
        digits(n / 10).push(digit_char((n % 10) as int))
    }
}

/// `v` written in decimal, with a leading `-` when negative.
pub open spec fn decimal(v: int) -> Seq<char> {
    if v < 0 {
        seq!['-'] + digits((-v) as nat)
    } else {
        digits(v as nat)
    }
}

proof fn lemma_digits(n: nat, k: nat, bound: nat)
    requires
        n < bound,
        bound == vstd::arithmetic::power::pow(10, k),
        k >= 1,
    ensures
        1 <= digits(n).len() <= k,
        forall|i: int| 0 <= i < digits(n).len() ==> is_printable(#[trigger] digits(n)[i]),
    decreases n,
{
    if n >= 10 {
        vstd::arithmetic::power::lemma_pow_positive(10, (k - 1) as nat);
        assert(k >= 2) by {
            if k == 1 {
                vstd::arithmetic::power::lemma_pow1(10);
            }
        }
        let b = vstd::arithmetic::power::pow(10, (k - 1) as nat);
        assert(bound == 10 * b) by {
            vstd::arithmetic::power::lemma_pow_adds(10, 1, (k - 1) as nat);
            vstd::arithmetic::power::lemma_pow1(10);
        }
        assert(n / 10 < b) by (nonlinear_arith)
            requires
                n < 10 * b,
                b > 0,
        ;
        lemma_digits(n / 10, (k - 1) as nat, b as nat);
    }
}

/// Append the decimal digits of `n`.
fn push_digits(s: &mut String, n: u64)
    ensures
        final(s)@ == old(s)@ + digits(n as nat),
    decreases n,
{
    let ghost before = s@;
    if n >= 10 {
        push_digits(s, n / 10);
    }
    let d = (n % 10) as u8;
    push_char(s, (48 + d) as char);
    proof {
        if n >= 10 {
            assert(s@ =~= before + digits(n as nat));
        } else {
            assert(s@ =~= before + digits(n as nat));
        }
    }
}

/// `v` in decimal, followed by `suffix` when it is given.
fn decimal_text(v: i32, suffix: Option<char>) -> (s: String)
    ensures
        s@ == match suffix {
            Some(c) => decimal(v as int).push(c),
            None => decimal(v as int),
        },
{
    let mut s = String::new();
    if v < 0 {
        push_char(&mut s, '-');
        push_digits(&mut s, (-(v as i64)) as u64);
        proof {
            assert(s@ =~= decimal(v as int));
        }
    } else {
        push_digits(&mut s, v as u64);
        proof {
            assert(s@ =~= decimal(v as int));
        }
    }
    if let Some(c) = suffix {
        push_char(&mut s, c);
    }
    s
}

proof fn lemma_decimal(v: i32)
    ensures
        1 <= decimal(v as int).len() <= 11,
        forall|i: int| 0 <= i < decimal(v as int).len() ==> is_printable(#[trigger] decimal(v as int)[i]),
{
    reveal_with_fuel(vstd::arithmetic::power::pow, 11);
    let n: nat = if v < 0 {
        (-v) as nat
    } else {
        v as nat
    };
    lemma_digits(n, 10, 10000000000);
    if v < 0 {
        assert forall|i: int| 0 <= i < decimal(v as int).len() implies is_printable(
            #[trigger] decimal(v as int)[i],
        ) by {
            if i > 0 {
                assert(decimal(v as int)[i] == digits(n)[i - 1]);
            }
        }
    }
}

/// A theme's colours as drawn on a widget at rest, under the pointer and
/// held down (the theme's colours toned by the caller).
#[derive(Clone, Copy)]
pub struct Tones {
    pub rest: [u32; 11],
    pub hover: [u32; 11],
    pub press: [u32; 11],
}

/// The fill of widget `id` from theme colour `k`, and how far it lifts: a
/// widget held down is darker, one under the pointer lighter and lifted.
pub open spec fn face(tones: Tones, hover: Option<usize>, pressed: Option<usize>, id: int, k: int) -> (
    u32,
    u8,
) {
    if pressed == Some(id as usize) {
        (tones.press[k], 0)
    } else if hover == Some(id as usize) {
        (tones.hover[k], 1)
    } else {
        (tones.rest[k], 0)
    }
}

fn face_of(tones: &Tones, hover: Option<usize>, pressed: Option<usize>, id: usize, k: usize) -> (r: (
    u32,
    u8,
))
    requires
        k < 11,
    ensures
        r == face(*tones, hover, pressed, id as int, k as int),
{
    if pressed == Some(id) {
        (tones.press[k], 0)
    } else if hover == Some(id) {
        (tones.hover[k], 1)
    } else {
        (tones.rest[k], 0)
    }
}

/// A canvas of `w` by `h` cells of one colour at height zero.
pub open spec fn blank_cells(w: int, h: int, color: u32) -> (Seq<u32>, Seq<u8>) {
    (Seq::new((w * h) as nat, |i: int| color), Seq::new((w * h) as nat, |i: int| 0u8))
}

/// The first `k` body rows drawn 15 cells apart, the first in colour 3 and
/// the others in colour 4.
pub open spec fn rows_cells(
    cells: (Seq<u32>, Seq<u8>),
    w: int,
    h: int,
    glyphs: Seq<u64>,
    rows: Seq<Seq<char>>,
    t: [u32; 11],
    k: int,
) -> (Seq<u32>, Seq<u8>)
    decreases k,
{
    if k <= 0 {
        cells
    } else {
        let prev = rows_cells(cells, w, h, glyphs, rows, t, k - 1);
        let i = k - 1;
        label_cells(
            prev,
            w,
            h,
            glyphs,
            spec_printable(rows[i]),
            7,
            24 + i * 15,
            1,
            if i == 0 {
                t[3]
            } else {
                t[4]
            },
            rows[i].len() as int,
        )
    }
}

/// Integer division by a positive `d`, rounded toward zero.
pub open spec fn div_toward_zero(a: int, d: int) -> int {
    if a >= 0 {
        a / d
    } else {
        -((-a) / d)
    }
}

/// The slider: its groove, the filled part up to the progress, the knob and
/// the percentage at the panel's right.
pub open spec fn slider_cells(
    cells: (Seq<u32>, Seq<u8>),
    w: int,
    h: int,
    glyphs: Seq<u64>,
    r: [i32; 4],
    progress: i32,
    fill: u32,
    lift: u8,
    t: [u32; 11],
    panel: int,
) -> (Seq<u32>, Seq<u8>) {
    let (x, y, width) = (r[0] as int, r[1] as int, r[2] as int);
    let offset = div_toward_zero((width - 9) * progress + 50, 100);
    let c1 = rect_cells(cells, w, h, [(x + 3) as i32, (y + 5) as i32, (width - 6) as i32, 4], 2, t[8], 0);
    let c2 = rect_cells(c1, w, h, [(x + 3) as i32, (y + 5) as i32, (offset + 3) as i32, 4], 2, fill, 0);
    let c3 = rect_cells(c2, w, h, [(x + 3 + offset) as i32, (y + 2) as i32, 3, 10], (3 + lift) as u8, t[6], 0);
    let text = decimal(progress as int).push('%');
    label_cells(c3, w, h, glyphs, text, panel - 33, y + 1, 1, t[3], text.len() as int)
}

/// The sound checkbox: a button face, the box, its tick when checked and
/// the word SOUND.
pub open spec fn checkbox_cells(
    cells: (Seq<u32>, Seq<u8>),
    w: int,
    h: int,
    glyphs: Seq<u64>,
    icons: Seq<[u8; 7]>,
    r: [i32; 4],
    checked: bool,
    fill: u32,
    lift: u8,
    t: [u32; 11],
) -> (Seq<u32>, Seq<u8>) {
    let (x, y) = (r[0] as int, r[1] as int);
    let ink = if checked {
        t[6]
    } else {
        t[3]
    };
    let c1 = button_cells(cells, w, h, glyphs, icons, r, Seq::empty(), None, fill, ink, t[0], lift);
    let c2 = rect_cells(c1, w, h, [(x + 5) as i32, (y + 5) as i32, 9, 9], (3 + lift) as u8, t[3], 0);
    let c3 = rect_cells(c2, w, h, [(x + 6) as i32, (y + 6) as i32, 7, 7], (3 + lift) as u8, t[1], 0);
    let c4 = if checked {
        icon_cells(c3, w, h, icons[1], x + 6, y + 6, (4 + lift) as u8, t[5], 49)
    } else {
        c3
    };
    label_cells(c4, w, h, glyphs, seq!['S', 'O', 'U', 'N', 'D'], x + 18, y + 4, (3 + lift) as u8, ink, 5)
}

/// The on/off toggle: a button face, ON or OFF, the track and the knob at
/// its right end when on.
pub open spec fn toggle_cells(
    cells: (Seq<u32>, Seq<u8>),
    w: int,
    h: int,
    glyphs: Seq<u64>,
    icons: Seq<[u8; 7]>,
    r: [i32; 4],
    enabled: bool,
    fill: u32,
    lift: u8,
    t: [u32; 11],
) -> (Seq<u32>, Seq<u8>) {
    let (x, y, width) = (r[0] as int, r[1] as int, r[2] as int);
    let ink = if enabled {
        t[6]
    } else {
        t[3]
    };
    let word = if enabled {
        seq!['O', 'N']
    } else {
        seq!['O', 'F', 'F']
    };
    let c1 = button_cells(cells, w, h, glyphs, icons, r, Seq::empty(), None, fill, ink, t[0], lift);
    let c2 = label_cells(c1, w, h, glyphs, word, x + 5, y + 3, (3 + lift) as u8, ink, word.len() as int);
    let c3 = rect_cells(c2, w, h, [(x + width - 19) as i32, (y + 6) as i32, 14, 5], (3 + lift) as u8, t[8], 0);
    let knob = if enabled {
        10int
    } else {
        19int
    };
    rect_cells(c3, w, h, [(x + width - knob) as i32, (y + 5) as i32, 5, 7], (4 + lift) as u8, t[6], 0)
}

/// The widget of the counter group (its three widgets from `id`) that the
/// pointer is on or holds, the first one otherwise.
pub open spec fn counter_group(hover: Option<usize>, pressed: Option<usize>, id: int) -> int {
    if hover == Some(id as usize) || pressed == Some(id as usize) {
        id
    } else if hover == Some((id + 1) as usize) || pressed == Some((id + 1) as usize) {
        id + 1
    } else if hover == Some((id + 2) as usize) || pressed == Some((id + 2) as usize) {
        id + 2
    } else {
        id
    }
}

/// The counter: one 80 by 18 face centred on the panel, the minus and plus
/// icons and the count centred between them.
pub open spec fn counter_cells(
    cells: (Seq<u32>, Seq<u8>),
    w: int,
    h: int,
    glyphs: Seq<u64>,
    icons: Seq<[u8; 7]>,
    panel: int,
    y: int,
    count: i32,
    fill: u32,
    lift: u8,
    t: [u32; 11],
) -> (Seq<u32>, Seq<u8>) {
    let x = (panel - 80) / 2;
    let c1 = button_cells(cells, w, h, glyphs, icons, [x as i32, y as i32, 80, 18], Seq::empty(), None, fill, t[6], t[0], lift);
    let c2 = icon_cells(c1, w, h, icons[3], x + 5, y + 5, (3 + lift) as u8, t[6], 49);
    let c3 = icon_cells(c2, w, h, icons[2], x + 68, y + 5, (3 + lift) as u8, t[6], 49);
    let text = decimal(count as int);
    label_cells(c3, w, h, glyphs, text, x + (80 - text.len() * 6) / 2, y + 3, (3 + lift) as u8, t[6], text.len() as int)
}

/// The label of a button as drawn: none for an icon-only button, else its
/// printable text.
pub open spec fn button_text(b: Button) -> Seq<char> {
    if b.mode == 1 {
        Seq::empty()
    } else {
        spec_printable(b.text@)
    }
}

/// The icon of a button, if it shows one.
pub open spec fn button_icon(b: Button) -> Option<usize> {
    if b.mode != 0 {
        Some(b.icon)
    } else {
        None
    }
}

/// The first `k` buttons, widget `first + i` for button `i`; the first
/// button in colour 5 with ink 6, the others in colour 7 with ink 3.
pub open spec fn buttons_cells(
    cells: (Seq<u32>, Seq<u8>),
    w: int,
    h: int,
    glyphs: Seq<u64>,
    icons: Seq<[u8; 7]>,
    bs: Seq<Button>,
    widgets: Seq<Widget>,
    first: int,
    tones: Tones,
    hover: Option<usize>,
    pressed: Option<usize>,
    t: [u32; 11],
    k: int,
) -> (Seq<u32>, Seq<u8>)
    decreases k,
{
    if k <= 0 {
        cells
    } else {
        let prev = buttons_cells(cells, w, h, glyphs, icons, bs, widgets, first, tones, hover, pressed, t, k - 1);
        let i = k - 1;
        let (fill, lift) = face(tones, hover, pressed, first + i, if i == 0 {
            5
        } else {
            7
        });
        button_cells(
            prev,
            w,
            h,
            glyphs,
            icons,
            widgets[first + i].rect,
            button_text(bs[i]),
            button_icon(bs[i]),
            fill,
            if i == 0 {
                t[6]
            } else {
                t[3]
            },
            t[0],
            lift,
        )
    }
}

/// The number of control widgets: the close button, then one each for the
/// slider, the checkbox and the toggle, and three for the counter.
pub open spec fn control_count(c: [bool; 4]) -> int {
    1 + (if c[0] {
        1int
    } else {
        0
    }) + (if c[1] {
        1int
    } else {
        0
    }) + (if c[2] {
        1int
    } else {
        0
    }) + (if c[3] {
        3int
    } else {
        0
    })
}

/// The preview of `def` in control state `state` laid out as `l`, with the
/// pointer on `hover` and holding `pressed`: the panel and its title bar,
/// the title and body rows, the close button, the present controls and the
/// buttons, in that order, each over what came before.
pub open spec fn spec_raster(
    def: Definition,
    state: State,
    l: Layout,
    hover: Option<usize>,
    pressed: Option<usize>,
    glyphs: Seq<u64>,
    icons: Seq<[u8; 7]>,
    t: [u32; 11],
    tones: Tones,
) -> (Seq<u32>, Seq<u8>) {
    let (w, h) = (l.width as int, l.height as int);
    let ws = l.widgets@;
    let c0 = blank_cells(w, h, t[0]);
    let c1 = rect_cells(c0, w, h, [1, 1, (w - 2) as i32, (h - 2) as i32], 0, t[1], 1);
    let c2 = rect_cells(c1, w, h, [1, 1, (w - 2) as i32, 16], 1, t[2], 1);
    let c3 = label_cells(c2, w, h, glyphs, spec_printable(def.title@), 6, 4, 2, t[6], def.title@.len() as int);
    let c4 = rows_cells(c3, w, h, glyphs, l.rows.deep_view(), t, l.rows@.len() as int);
    let close = face(tones, hover, pressed, 0, 10);
    let c5 = button_cells(c4, w, h, glyphs, icons, ws[0].rect, Seq::empty(), Some(0), close.0, t[6], t[0], close.1);
    let i1 = 1int;
    let slide = face(tones, hover, pressed, i1, 5);
    let c6 = if def.controls[0] {
        slider_cells(c5, w, h, glyphs, ws[i1].rect, state.progress, slide.0, slide.1, t, w)
    } else {
        c5
    };
    let i2 = i1 + if def.controls[0] {
        1int
    } else {
        0
    };
    let check = face(tones, hover, pressed, i2, if state.checked {
        5
    } else {
        7
    });
    let c7 = if def.controls[1] {
        checkbox_cells(c6, w, h, glyphs, icons, ws[i2].rect, state.checked, check.0, check.1, t)
    } else {
        c6
    };
    let i3 = i2 + if def.controls[1] {
        1int
    } else {
        0
    };
    let switch = face(tones, hover, pressed, i3, if state.enabled {
        5
    } else {
        7
    });
    let c8 = if def.controls[2] {
        toggle_cells(c7, w, h, glyphs, icons, ws[i3].rect, state.enabled, switch.0, switch.1, t)
    } else {
        c7
    };
    let i4 = i3 + if def.controls[2] {
        1int
    } else {
        0
    };
    let counter = face(tones, hover, pressed, counter_group(hover, pressed, i4), 5);
    let c9 = if def.controls[3] {
        counter_cells(c8, w, h, glyphs, icons, w, l.positions[2] as int, state.count, counter.0, counter.1, t)
    } else {
        c8
    };
    buttons_cells(c9, w, h, glyphs, icons, def.buttons@, ws, control_count(def.controls), tones, hover, pressed, t, def.buttons@.len() as int)
}

proof fn lemma_button_widgets(bs: Seq<Button>, extra: int, y: int, k: int)
    requires
        0 <= k,
    ensures
        button_widgets(bs, extra, y, k).len() == k,
        forall|j: int|
            0 <= j < k ==> #[trigger] button_widgets(bs, extra, y, k)[j] == widget(
                button_x(bs, extra, j),
                y,
                shared_width(bs, extra, j),
                20,
                Action::Noop,
                false,
            ),
    decreases k,
{
    if k > 0 {
        lemma_button_widgets(bs, extra, y, k - 1);
    }
}

proof fn lemma_buttons_fit(bs: Seq<Button>, extra: int, y: int)
    requires
        bs.len() <= 64,
        0 <= extra <= 400000,
        -1 <= y <= 400,
        forall|j: int| 0 <= j < bs.len() ==> 26 <= #[trigger] base_width(bs[j]) <= 6100,
    ensures
        button_widgets(bs, extra, y, bs.len() as int).len() == bs.len(),
        forall|j: int|
            0 <= j < bs.len() ==> button_fits(#[trigger] button_widgets(bs, extra, y, bs.len() as int)[j].rect),
{
    let n = bs.len() as int;
    lemma_button_widgets(bs, extra, y, n);
    assert forall|j: int| 0 <= j < n implies button_fits(
        #[trigger] button_widgets(bs, extra, y, n)[j].rect,
    ) by {
        lemma_button_x(bs, extra, j);
        assert(0 <= extra / n <= extra) by {
            vstd::arithmetic::div_mod::lemma_div_pos_is_pos(extra, n);
            vstd::arithmetic::div_mod::lemma_div_is_ordered_by_denominator(extra, 1, n);
        }
        assert(base_width(bs[j]) <= 6100);
        assert(j * (6100 + 400000 + 7) <= 64 * (6100 + 400000 + 7)) by (nonlinear_arith)
            requires
                j <= 64,
        ;
        let x = button_x(bs, extra, j);
        let sw = shared_width(bs, extra, j);
        assert(0 <= sw <= 6100 + 400000 + 1);
        assert(7 <= x <= 7 + 64 * (6100 + 400000 + 7));
        let wd = button_widgets(bs, extra, y, n)[j];
        assert(wd == widget(x, y, sw, 20, Action::Noop, false));
        assert(wd.rect[0] == x);
        assert(wd.rect[1] == y);
        assert(wd.rect[2] == sw);
        assert(wd.rect[3] == 20);
    }
}

proof fn lemma_controls_fit(c: [bool; 4], state: State, width: int, p: [i32; 4])
    requires
        126 <= width <= 400000,
        -1 <= p[0] <= 400,
        -1 <= p[1] <= 400,
        -1 <= p[2] <= 400,
    ensures
        control_widgets(c, state, width, p).len() == control_count(c),
        forall|j: int|
            0 <= j < control_count(c) ==> button_fits(#[trigger] control_widgets(c, state, width, p)[j].rect),
{
    let half = (width - 20) / 2;
    let x = (width - 80) / 2;
    assert(0 <= half <= width && 0 <= x <= width);
    let s0 = seq![widget(width - 16, 3, 12, 12, Action::Noop, false)];
    let s1: Seq<Widget> = if c[0] {
        seq![widget(7, p[0] as int, width - 48, 14, Action::Slider, false)]
    } else {
        Seq::empty()
    };
    let s2: Seq<Widget> = if c[1] {
        seq![widget(7, p[1] as int, half, 18, Action::Checkbox, false)]
    } else {
        Seq::empty()
    };
    let s3: Seq<Widget> = if c[2] {
        seq![widget(width - 7 - half, p[1] as int, half, 18, Action::Toggle, false)]
    } else {
        Seq::empty()
    };
    let s4: Seq<Widget> = if c[3] {
        seq![
            widget(x, p[2] as int, 18, 18, Action::Decrement, state.count <= -999),
            widget(x + 18, p[2] as int, 44, 18, Action::Noop, false),
            widget(x + 62, p[2] as int, 18, 18, Action::Increment, state.count >= 999),
        ]
    } else {
        Seq::empty()
    };
    let all = s0 + s1 + s2 + s3 + s4;
    assert(control_widgets(c, state, width, p) == all);
    assert forall|j: int| 0 <= j < s0.len() implies button_fits(#[trigger] s0[j].rect) by {}
    assert forall|j: int| 0 <= j < s1.len() implies button_fits(#[trigger] s1[j].rect) by {}
    assert forall|j: int| 0 <= j < s2.len() implies button_fits(#[trigger] s2[j].rect) by {}
    assert forall|j: int| 0 <= j < s3.len() implies button_fits(#[trigger] s3[j].rect) by {}
    assert forall|j: int| 0 <= j < s4.len() implies button_fits(#[trigger] s4[j].rect) by {}
    assert forall|j: int| 0 <= j < all.len() implies button_fits(#[trigger] all[j].rect) by {
        let a = s0 + s1;
        let b = a + s2;
        let d = b + s3;
        if j < s0.len() {
            assert(all[j] == s0[j]);
        } else if j < a.len() {
            assert(all[j] == s1[j - s0.len()]);
        } else if j < b.len() {
            assert(all[j] == s2[j - a.len()]);
        } else if j < d.len() {
            assert(all[j] == s3[j - b.len()]);
        } else {
            assert(all[j] == s4[j - d.len()]);
        }
    }
}

/// What a laid-out definition offers raster drawing: a panel small enough,
/// rows that fit, the close button and controls first, then one widget
/// per button, and every rectangle well inside `i32`.
proof fn lemma_raster_geometry(def: Definition, state: State, l: Layout)
    requires
        definition_ok(&def),
        laid_out(&l, def, state),
    ensures
        126 <= l.width <= 400000,
        1 <= l.height <= 400,
        rows_fit(l.rows.deep_view()),
        -1 <= l.positions[2] <= 400,
        l.widgets@.len() == control_count(def.controls) + def.buttons@.len(),
        forall|id: int| 0 <= id < l.widgets@.len() ==> button_fits(#[trigger] l.widgets@[id].rect),
{
    let rows = spec_text_rows(def.text@);
    if def.text@.len() > 0 {
        lemma_fill_fits(seq![Seq::empty()], normalize(def.text@));
    }
    assert(rows_fit(rows));
    let n = def.buttons@.len() as int;
    lemma_longest_row(rows, rows.len() as int);
    lemma_widths_bound(def.buttons@, n);
    let width = panel_width(&def, rows);
    assert(width <= 400000) by (nonlinear_arith)
        requires
            width == max2(max2(max2(126, (def.title@.len() * 6 + 28) as int), longest_row(rows, rows.len() as int) * 6 + 14), widths_sum(def.buttons@, n) + 6 * (n - 1) + 14),
            def.title@.len() <= 1000,
            0 <= longest_row(rows, rows.len() as int) <= ROW_CHARS,
            widths_sum(def.buttons@, n) <= 6100 * n,
            n <= 64,
    ;
    let top = controls_top(rows);
    let (p, bottom) = spec_positions(def.controls, top);
    let extra = width - 14 - 6 * (n - 1) - widths_sum(def.buttons@, n);
    let cw = control_widgets(def.controls, state, width, p);
    let bw = button_widgets(def.buttons@, extra, p[3] as int, n);
    assert forall|j: int| 0 <= j < n implies 26 <= #[trigger] base_width(def.buttons@[j]) <= 6100 by {
        assert(def.buttons@[j].text@.len() <= 1000);
    }
    assert(-1 <= p[0] <= 400 && -1 <= p[1] <= 400 && -1 <= p[2] <= 400 && -1 <= p[3] <= 400);
    lemma_buttons_fit(def.buttons@, extra, p[3] as int);
    lemma_controls_fit(def.controls, state, width, p);
    assert(cw.len() == control_count(def.controls));
    assert forall|id: int| 0 <= id < l.widgets@.len() implies button_fits(#[trigger] l.widgets@[id].rect) by {
        if id < cw.len() {
            assert(l.widgets@[id] == cw[id]);
        } else {
            assert(l.widgets@[id] == bw[id - cw.len()]);
        }
    }
}

impl Canvas {
    fn slider(&mut self, glyphs: &[u64], r: [i32; 4], progress: i32, fill: u32, lift: u8, t: [u32; 11], panel: i32)
        requires
            old(self).wf(),
            glyphs@.len() == 95,
            button_fits(r),
            lift <= 1,
            126 <= panel <= 400000,
            i32::MIN <= (r[2] - 9) * progress,
            (r[2] - 9) * progress + 50 <= i32::MAX,
        ensures
            final(self).wf(),
            final(self).width == old(self).width,
            final(self).height == old(self).height,
            final(self).cells() == slider_cells(
                old(self).cells(),
                old(self).width as int,
                old(self).height as int,
                glyphs@,
                r,
                progress,
                fill,
                lift,
                t,
                panel as int,
            ),
    {
        let x = r[0];
        let y = r[1];
        let width = r[2];
        let travel = width - 9;
        let a = travel * progress + 50;
        let offset = if a >= 0 {
            a / 100
        } else {
            -((-a) / 100)
        };
        self.rect([x + 3, y + 5, width - 6, 4], 2, t[8], 0);
        self.rect([x + 3, y + 5, offset + 3, 4], 2, fill, 0);
        self.rect([x + 3 + offset, y + 2, 3, 10], 3 + lift, t[6], 0);
        let text = decimal_text(progress, Some('%'));
        proof {
            lemma_decimal(progress);
            assert(spec_printable(text@) =~= text@);
        }
        self.label(glyphs, text.as_str(), panel - 33, y + 1, 1, t[3]);
    }

    fn checkbox(
        &mut self,
        glyphs: &[u64],
        icons: &[[u8; 7]],
        r: [i32; 4],
        checked: bool,
        fill: u32,
        lift: u8,
        t: [u32; 11],
    )
        requires
            old(self).wf(),
            glyphs@.len() == 95,
            icons@.len() >= 4,
            button_fits(r),
            lift <= 1,
        ensures
            final(self).wf(),
            final(self).width == old(self).width,
            final(self).height == old(self).height,
            final(self).cells() == checkbox_cells(
                old(self).cells(),
                old(self).width as int,
                old(self).height as int,
                glyphs@,
                icons@,
                r,
                checked,
                fill,
                lift,
                t,
            ),
    {
        let x = r[0];
        let y = r[1];
        let ink = if checked {
            t[6]
        } else {
            t[3]
        };
        proof {
            reveal_strlit("");
        }
        self.button(glyphs, icons, r, "", None, fill, ink, t[0], lift);
        self.rect([x + 5, y + 5, 9, 9], 3 + lift, t[3], 0);
        self.rect([x + 6, y + 6, 7, 7], 3 + lift, t[1], 0);
        if checked {
            self.icon(icons, 1, x + 6, y + 6, 4 + lift, t[5]);
        }
        proof {
            reveal_strlit("SOUND");
            assert(spec_printable("SOUND"@) =~= seq!['S', 'O', 'U', 'N', 'D']);
        }
        self.label(glyphs, "SOUND", x + 18, y + 4, 3 + lift, ink);
    }

    fn toggle(
        &mut self,
        glyphs: &[u64],
        icons: &[[u8; 7]],
        r: [i32; 4],
        enabled: bool,
        fill: u32,
        lift: u8,
        t: [u32; 11],
    )
        requires
            old(self).wf(),
            glyphs@.len() == 95,
            button_fits(r),
            lift <= 1,
        ensures
            final(self).wf(),
            final(self).width == old(self).width,
            final(self).height == old(self).height,
            final(self).cells() == toggle_cells(
                old(self).cells(),
                old(self).width as int,
                old(self).height as int,
                glyphs@,
                icons@,
                r,
                enabled,
                fill,
                lift,
                t,
            ),
    {
        let x = r[0];
        let y = r[1];
        let width = r[2];
        let ink = if enabled {
            t[6]
        } else {
            t[3]
        };
        proof {
            reveal_strlit("");
        }
        self.button(glyphs, icons, r, "", None, fill, ink, t[0], lift);
        if enabled {
            proof {
                reveal_strlit("ON");
                assert(spec_printable("ON"@) =~= seq!['O', 'N']);
            }
            self.label(glyphs, "ON", x + 5, y + 3, 3 + lift, ink);
        } else {
            proof {
                reveal_strlit("OFF");
                assert(spec_printable("OFF"@) =~= seq!['O', 'F', 'F']);
            }
            self.label(glyphs, "OFF", x + 5, y + 3, 3 + lift, ink);
        }
        self.rect([x + width - 19, y + 6, 14, 5], 3 + lift, t[8], 0);
        let knob: i32 = if enabled {
            10
        } else {
            19
        };
        self.rect([x + width - knob, y + 5, 5, 7], 4 + lift, t[6], 0);
    }

    fn counter(
        &mut self,
        glyphs: &[u64],
        icons: &[[u8; 7]],
        panel: i32,
        y: i32,
        count: i32,
        fill: u32,
        lift: u8,
        t: [u32; 11],
    )
        requires
            old(self).wf(),
            glyphs@.len() == 95,
            icons@.len() >= 4,
            126 <= panel <= 400000,
            -1 <= y <= 400,
            lift <= 1,
        ensures
            final(self).wf(),
            final(self).width == old(self).width,
            final(self).height == old(self).height,
            final(self).cells() == counter_cells(
                old(self).cells(),
                old(self).width as int,
                old(self).height as int,
                glyphs@,
                icons@,
                panel as int,
                y as int,
                count,
                fill,
                lift,
                t,
            ),
    {
        let x = (panel - 80) / 2;
        proof {
            reveal_strlit("");
        }
        self.button(glyphs, icons, [x, y, 80, 18], "", None, fill, t[6], t[0], lift);
        self.icon(icons, 3, x + 5, y + 5, 3 + lift, t[6]);
        self.icon(icons, 2, x + 68, y + 5, 3 + lift, t[6]);
        let text = decimal_text(count, None);
        proof {
            lemma_decimal(count);
            assert(spec_printable(text@) =~= text@);
        }
        let len = text.as_str().unicode_len() as i32;
        self.label(glyphs, text.as_str(), x + (80 - len * 6) / 2, y + 3, 3 + lift, t[6]);
    }
}

/// The icons hold the four the controls draw and every button's icon, and
/// the themes hold `def`'s.
pub open spec fn style_covers(def: Definition, icons: int, themes: int) -> bool {
    &&& icons >= 4
    &&& def.theme < themes
    &&& forall|i: int|
        0 <= i < def.buttons@.len() ==> (#[trigger] button_icon(def.buttons@[i]) matches Some(k) ==> k
            < icons)
}

/// The slider's knob offset, its travel times the progress, fits an `i32`
/// (the slider is widget 1 when present).
pub open spec fn slider_fits(def: Definition, l: Layout, state: State) -> bool {
    def.controls[0] ==> {
        &&& i32::MIN <= (l.widgets@[1].rect[2] - 9) * state.progress
        &&& (l.widgets@[1].rect[2] - 9) * state.progress + 50 <= i32::MAX
    }
}

/// Paint the preview of `def` in state `state`, laid out as `l`, with the
/// pointer on `hover` and holding `pressed`. `glyphs` is the font of the 95
/// printable characters, `icons` the seven by seven icons, `themes` the
/// colour themes, and `tones` the colours of `def`'s theme toned for a
/// widget at rest, under the pointer and held down.
pub fn raster(
    def: &Definition,
    state: State,
    l: &Layout,
    hover: Option<usize>,
    pressed: Option<usize>,
    glyphs: &[u64],
    icons: &[[u8; 7]],
    themes: &[[u32; 11]],
    tones: &Tones,
) -> (c: Canvas)
    requires
        definition_ok(def),
        laid_out(l, *def, state),
        glyphs@.len() == 95,
        style_covers(*def, icons@.len() as int, themes@.len() as int),
        slider_fits(*def, *l, state),
    ensures
        c.wf(),
        c.width == l.width,
        c.height == l.height,
        c.cells() == spec_raster(
            *def,
            state,
            *l,
            hover,
            pressed,
            glyphs@,
            icons@,
            themes@[def.theme as int],
            *tones,
        ),
{
    proof {
        lemma_raster_geometry(*def, state, *l);
    }
    let t = themes[def.theme];
    let ghost gw = l.width as int;
    let ghost gh = l.height as int;
    let ghost ws = l.widgets@;
    let w = l.width as i32;
    let h = l.height as i32;
    proof {
        assert(l.width * l.height <= 400000 * 400) by (nonlinear_arith)
            requires
                l.width <= 400000,
                l.height <= 400,
        ;
    }
    let mut c = Canvas::new(l.width, l.height, t[0]);
    proof {
        assert(c.cells() =~= blank_cells(gw, gh, t[0]));
    }
    c.rect([1, 1, w - 2, h - 2], 0, t[1], 1);
    c.rect([1, 1, w - 2, 16], 1, t[2], 1);
    c.label(glyphs, def.title, 6, 4, 2, t[6]);
    let ghost c3 = c.cells();
    let ghost rv = l.rows.deep_view();
    let nrows = l.rows.len();
    let mut i: usize = 0;
    while i < nrows
        invariant
            c.wf(),
            c.width == l.width,
            c.height == l.height,
            gw == l.width,
            gh == l.height,
            glyphs@.len() == 95,
            rv == l.rows.deep_view(),
            rows_fit(rv),
            nrows == rv.len(),
            i <= nrows,
            c.cells() == rows_cells(c3, gw, gh, glyphs@, rv, t, i as int),
        decreases nrows - i,
    {
        let color = if i == 0 {
            t[3]
        } else {
            t[4]
        };
        proof {
            assert(rv[i as int] == l.rows@[i as int]@);
            assert(rv[i as int].len() <= ROW_CHARS);
        }
        c.label(glyphs, l.rows[i].as_str(), 7, 24 + (i as i32) * 15, 1, color);
        i = i + 1;
    }
    let (fill, lift) = face_of(tones, hover, pressed, 0, 10);
    proof {
        reveal_strlit("");
    }
    c.button(glyphs, icons, l.widgets[0].rect, "", Some(0), fill, t[6], t[0], lift);
    let mut id: usize = 1;
    if def.controls[0] {
        let (fill, lift) = face_of(tones, hover, pressed, id, 5);
        c.slider(glyphs, l.widgets[id].rect, state.progress, fill, lift, t, w);
        id = id + 1;
    }
    if def.controls[1] {
        let (fill, lift) = face_of(tones, hover, pressed, id, if state.checked {
            5
        } else {
            7
        });
        c.checkbox(glyphs, icons, l.widgets[id].rect, state.checked, fill, lift, t);
        id = id + 1;
    }
    if def.controls[2] {
        let (fill, lift) = face_of(tones, hover, pressed, id, if state.enabled {
            5
        } else {
            7
        });
        c.toggle(glyphs, icons, l.widgets[id].rect, state.enabled, fill, lift, t);
        id = id + 1;
    }
    if def.controls[3] {
        let group = if hover == Some(id) || pressed == Some(id) {
            id
        } else if hover == Some(id + 1) || pressed == Some(id + 1) {
            id + 1
        } else if hover == Some(id + 2) || pressed == Some(id + 2) {
            id + 2
        } else {
            id
        };
        let (fill, lift) = face_of(tones, hover, pressed, group, 5);
        c.counter(glyphs, icons, w, l.positions[2], state.count, fill, lift, t);
        id = id + 3;
    }
    let ghost c9 = c.cells();
    let ghost first = id as int;
    proof {
        assert(first == control_count(def.controls));
    }
    let n = def.buttons.len();
    let mut k: usize = 0;
    while k < n
        invariant
            c.wf(),
            c.width == l.width,
            c.height == l.height,
            gw == l.width,
            gh == l.height,
            glyphs@.len() == 95,
            icons@.len() >= 4,
            n == def.buttons@.len(),
            n <= 64,
            forall|i: int|
                0 <= i < def.buttons@.len() ==> (#[trigger] button_icon(def.buttons@[i]) matches Some(q)
                    ==> q < icons@.len()),
            forall|i: int| 0 <= i < n ==> (#[trigger] def.buttons@[i]).text@.len() <= 1000,
            ws == l.widgets@,
            ws.len() == first + n,
            forall|j: int| 0 <= j < ws.len() ==> button_fits(#[trigger] ws[j].rect),
            first == id,
            id <= 7,
            k <= n,
            c.cells() == buttons_cells(c9, gw, gh, glyphs@, icons@, def.buttons@, ws, first, *tones, hover, pressed, t, k as int),
        decreases n - k,
    {
        let b = def.buttons[k];
        let (text, icon, _) = content(b);
        let (fill, lift) = face_of(tones, hover, pressed, id + k, if k == 0 {
            5
        } else {
            7
        });
        let ink = if k == 0 {
            t[6]
        } else {
            t[3]
        };
        proof {
            assert(button_icon(def.buttons@[k as int]) == icon);
            assert forall|q: int| 0 <= q < text@.len() implies is_printable(#[trigger] text@[q]) by {
                assert(text@[q] == sanitize(b.text@[q]));
            }
        }
        c.button(glyphs, icons, l.widgets[id + k].rect, text.as_str(), icon, fill, ink, t[0], lift);
        k = k + 1;
    }
    c
}

/// Four little-endian bytes of `v` modulo 2^32.
pub open spec fn le32(v: int) -> Seq<u8> {
    let u = v % 0x1_0000_0000;
    seq![(u % 256) as u8, ((u / 256) % 256) as u8, ((u / 65536) % 256) as u8, (u / 16777216) as u8]
}

/// The 54-byte header of a 32-bit BMP of `width` by `height` pixels.
pub open spec fn bmp_header(width: int, height: int) -> Seq<u8> {
    seq![66u8, 77u8] + le32(54 + width * height * 4) + le32(0) + le32(54) + le32(40) + le32(width)
        + le32(height) + seq![1u8, 0u8, 32u8, 0u8] + le32(0) + le32(width * height * 4) + le32(0)
        + le32(0) + le32(0) + le32(0)
}

/// Byte `k` of the pixel data: bottom row first, each pixel blue, green,
/// red, then opaque alpha.
pub open spec fn bmp_pixel_byte(rgb: Seq<u8>, width: int, height: int, k: int) -> u8 {
    let p = k / 4;
    let ch = k % 4;
    let row = p / width;
    let col = p % width;
    let src = ((height - 1 - row) * width + col) * 3;
    if ch == 0 {
        rgb[src + 2]
    } else if ch == 1 {
        rgb[src + 1]
    } else if ch == 2 {
        rgb[src]
    } else {
        255
    }
}

pub open spec fn spec_bmp(width: int, height: int, rgb: Seq<u8>) -> Seq<u8> {
    bmp_header(width, height) + Seq::new(
        (width * height * 4) as nat,
        |k: int| bmp_pixel_byte(rgb, width, height, k),
    )
}

fn push_le32(bytes: &mut Vec<u8>, v: u64)
    ensures
        final(bytes)@ == old(bytes)@ + le32(v as int),
{
    let u = v % 0x1_0000_0000;
    bytes.push((u % 256) as u8);
    bytes.push(((u / 256) % 256) as u8);
    bytes.push(((u / 65536) % 256) as u8);
    bytes.push((u / 16777216) as u8);
    proof {
        assert(final(bytes)@ =~= old(bytes)@ + le32(v as int));
    }
}

fn push_bmp_row(
    bytes: &mut Vec<u8>,
    Ghost(header): Ghost<Seq<u8>>,
    width: usize,
    height: usize,
    rgb: &[u8],
    row: usize,
)
    requires
        width > 0,
        row < height,
        rgb@.len() == width * height * 3,
        old(bytes)@ == header + Seq::new(
            (row * width * 4) as nat,
            |k: int| bmp_pixel_byte(rgb@, width as int, height as int, k),
        ),
    ensures
        final(bytes)@ == header + Seq::new(
            ((row * width + width) * 4) as nat,
            |k: int| bmp_pixel_byte(rgb@, width as int, height as int, k),
        ),
{
    let src_row = height - 1 - row;
    let total = rgb.len();
    let mut col: usize = 0;
    while col < width
        invariant
            width > 0,
            rgb@.len() == width * height * 3,
            total == rgb@.len(),
            row < height,
            src_row == height - 1 - row,
            col <= width,
            bytes@ == header + Seq::new(
                ((row * width + col) * 4) as nat,
                |k: int| bmp_pixel_byte(rgb@, width as int, height as int, k),
            ),
        decreases width - col,
    {
        proof {
            assert((src_row * width + col) * 3 + 2 < width * height * 3) by (nonlinear_arith)
                requires
                    src_row < height,
                    col < width,
            ;
            assert(0 <= src_row * width <= src_row * width + col) by (nonlinear_arith)
                requires
                    0 <= src_row,
                    0 <= col,
            ;
        }
        let src = (src_row * width + col) * 3;
        bytes.push(rgb[src + 2]);
        bytes.push(rgb[src + 1]);
        bytes.push(rgb[src]);
        bytes.push(255);
        proof {
            let p = (row * width + col) as int;
            assert forall|ch: int| 0 <= ch < 4 implies (#[trigger] ((p * 4 + ch) / 4)) == p && (p
                * 4 + ch) % 4 == ch by {
                lemma_fundamental_div_mod_converse(p * 4 + ch, 4, p, ch);
            }
            lemma_fundamental_div_mod_converse(p, width as int, row as int, col as int);
            assert(((row * width + col + 1) * 4) as int == p * 4 + 4) by (nonlinear_arith)
                requires
                    p == row * width + col,
            ;
            assert(bytes@ =~= header + Seq::new(
                ((row * width + col + 1) * 4) as nat,
                |k: int| bmp_pixel_byte(rgb@, width as int, height as int, k),
            ));
        }
        col = col + 1;
    }
}

fn header_bytes(width: usize, height: usize) -> (bytes: Vec<u8>)
    requires
        54 + width * height * 4 <= usize::MAX,
    ensures
        bytes@ == bmp_header(width as int, height as int),
{
    let size = width * height * 4;
    let mut bytes: Vec<u8> = Vec::new();
    bytes.push(66);
    bytes.push(77);
    push_le32(&mut bytes, 54 + size as u64);
    push_le32(&mut bytes, 0);
    push_le32(&mut bytes, 54);
    push_le32(&mut bytes, 40);
    push_le32(&mut bytes, width as u64);
    push_le32(&mut bytes, height as u64);
    bytes.push(1);
    bytes.push(0);
    bytes.push(32);
    bytes.push(0);
    push_le32(&mut bytes, 0);
    push_le32(&mut bytes, size as u64);
    push_le32(&mut bytes, 0);
    push_le32(&mut bytes, 0);
    push_le32(&mut bytes, 0);
    push_le32(&mut bytes, 0);
    proof {
        assert(bytes@ =~= bmp_header(width as int, height as int));
    }
    bytes
}

/// A standard 32-bit BMP of `width` by `height` pixels from packed RGB rows,
/// top row first.
#[verifier::spinoff_prover]
pub fn bmp(width: usize, height: usize, rgb: &[u8]) -> (bytes: Vec<u8>)
    requires
        width > 0,
        rgb@.len() == width * height * 3,
        54 + width * height * 4 <= usize::MAX,
    ensures
        bytes@ == spec_bmp(width as int, height as int, rgb@),
{
    let mut bytes = header_bytes(width, height);
    let ghost header = bytes@;
    let mut row: usize = 0;
    while row < height
        invariant
            width > 0,
            rgb@.len() == width * height * 3,
            row <= height,
            bytes@ == header + Seq::new(
                (row * width * 4) as nat,
                |k: int| bmp_pixel_byte(rgb@, width as int, height as int, k),
            ),
        decreases height - row,
    {
        push_bmp_row(&mut bytes, Ghost(header), width, height, rgb, row);
        proof {
            assert((row * width + width) == (row + 1) * width) by (nonlinear_arith);
        }
        row = row + 1;
    }
    proof {
        assert(height * width * 4 == width * height * 4) by (nonlinear_arith);
        assert(bytes@ =~= spec_bmp(width as int, height as int, rgb@));
    }
    bytes
}

/// The red, green or blue byte (`channel` 0, 1 or 2) of an RGB colour.
pub open spec fn rgb_byte(color: u32, channel: int) -> u8 {
    if channel == 0 {
        (color >> 16u32) as u8
    } else if channel == 1 {
        (color >> 8u32) as u8
    } else {
        color as u8
    }
}

/// Byte `i` of the colour texture's packed RGB rows: four texels per cell
/// each way, each texel the colour of its cell.
pub open spec fn texture_byte(colors: Seq<u32>, width: int, i: int) -> u8 {
    let p = i / 3;
    let x = p % (4 * width);
    let y = p / (4 * width);
    rgb_byte(colors[(y / 4) * width + x / 4], i % 3)
}

proof fn lemma_texture_index(width: int, height: int, y: int, x: int, channel: int)
    requires
        width > 0,
        0 <= y < 4 * height,
        0 <= x < 4 * width,
        0 <= channel < 3,
    ensures
        ({
            let k = (y * (4 * width) + x) * 3 + channel;
            &&& k % 3 == channel
            &&& (k / 3) % (4 * width) == x
            &&& (k / 3) / (4 * width) == y
            &&& 0 <= k < (4 * width) * (4 * height) * 3
            &&& 0 <= (y / 4) * width + x / 4 < width * height
        }),
{
    let p = y * (4 * width) + x;
    let k = p * 3 + channel;
    vstd::arithmetic::div_mod::lemma_fundamental_div_mod_converse(k, 3, p, channel);
    vstd::arithmetic::div_mod::lemma_fundamental_div_mod_converse(p, 4 * width, y, x);
    assert(0 <= p < (4 * width) * (4 * height)) by (nonlinear_arith)
        requires
            width > 0,
            0 <= y < 4 * height,
            0 <= x < 4 * width,
            p == y * (4 * width) + x,
    ;
    let cy = y / 4;
    let cx = x / 4;
    assert(0 <= cy < height && 0 <= cx < width);
    assert(0 <= cy * width + cx < width * height) by (nonlinear_arith)
        requires
            0 <= cy < height,
            0 <= cx < width,
    ;
}

/// The colour texture of a canvas, a BMP with four texels per cell each
/// way; the bevel normals that go with it are float geometry.
pub fn color_texture(canvas: &Canvas) -> (bytes: Vec<u8>)
    requires
        canvas.wf(),
        canvas.width > 0,
        4 * canvas.width <= usize::MAX,
        4 * canvas.height <= usize::MAX,
        54 + (4 * canvas.width) * (4 * canvas.height) * 4 <= usize::MAX,
    ensures
        bytes@ == spec_bmp(
            4 * canvas.width,
            4 * canvas.height,
            Seq::new(
                ((4 * canvas.width) * (4 * canvas.height) * 3) as nat,
                |i: int| texture_byte(canvas.colors@, canvas.width as int, i),
            ),
        ),
{
    let width = canvas.width * 4;
    let height = canvas.height * 4;
    let ghost want = Seq::new(
        ((4 * canvas.width) * (4 * canvas.height) * 3) as nat,
        |i: int| texture_byte(canvas.colors@, canvas.width as int, i),
    );
    let mut rgb: Vec<u8> = Vec::new();
    let mut y: usize = 0;
    while y < height
        invariant
            canvas.wf(),
            canvas.width > 0,
            width == 4 * canvas.width,
            height == 4 * canvas.height,
            54 + width * height * 4 <= usize::MAX,
            want.len() == width * height * 3,
            forall|i: int| 0 <= i < want.len() ==> #[trigger] want[i] == texture_byte(canvas.colors@, canvas.width as int, i),
            y <= height,
            rgb@ =~= want.take((y * width * 3) as int),
        decreases height - y,
    {
        let mut x: usize = 0;
        while x < width
            invariant
                canvas.wf(),
                canvas.width > 0,
                width == 4 * canvas.width,
                height == 4 * canvas.height,
                54 + width * height * 4 <= usize::MAX,
                want.len() == width * height * 3,
                forall|i: int| 0 <= i < want.len() ==> #[trigger] want[i] == texture_byte(canvas.colors@, canvas.width as int, i),
                y < height,
                x <= width,
                rgb@ =~= want.take(((y * width + x) * 3) as int),
            decreases width - x,
        {
            proof {
                lemma_texture_index(canvas.width as int, canvas.height as int, y as int, x as int, 0);
                lemma_texture_index(canvas.width as int, canvas.height as int, y as int, x as int, 1);
                lemma_texture_index(canvas.width as int, canvas.height as int, y as int, x as int, 2);
            }
            let cell_row = y / 4;
            let cell = x / 4;
            let total = canvas.colors.len();
            proof {
                assert(total == canvas.colors@.len());
                assert(cell_row * canvas.width + cell < canvas.colors@.len());
                assert(cell_row * canvas.width <= cell_row * canvas.width + cell);
            }
            let color = canvas.colors[cell_row * canvas.width + cell];
            rgb.push((color >> 16u32) as u8);
            rgb.push((color >> 8u32) as u8);
            rgb.push(color as u8);
            x = x + 1;
        }
        proof {
            assert((y * width + width) * 3 == (y + 1) * width * 3) by (nonlinear_arith);
        }
        y = y + 1;
    }
    proof {
        assert(height * width * 3 == width * height * 3) by (nonlinear_arith);
        assert(want.take((width * height * 3) as int) =~= want);
    }
    bmp(width, height, &rgb)
}

} // verus!
