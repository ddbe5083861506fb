//! Allocation-free quarter-second count samples, one report per completed
//! second.
use vstd::prelude::*;
use vstd::string::*;
use crate::cube_interface::push_char;

verus! {

pub const REPORT_MS: u64 = 1000;
pub const BIN_MS: u64 = 250;

#[derive(Clone, Copy, Debug, PartialEq, Eq, Structural)]
pub struct Visibility {
    pub frustum: usize,
    pub occluded: usize,
    pub patches_per_cube: usize,
}

/// The last frame recorded in a quarter-second bin, and how many frames it saw.
#[derive(Clone, Copy, Debug, PartialEq, Eq, Structural)]
pub struct Sample {
    pub at: u64,
    pub mode: u8,
    pub expanded: usize,
    pub unexpanded: usize,
    pub visibility: Option<Visibility>,
    pub frames: u32,
}

pub open spec fn empty_sample() -> Sample {
    Sample { at: 0, mode: 0, expanded: 0, unexpanded: 0, visibility: None, frames: 0 }
}

fn blank_sample() -> (s: Sample)
    ensures
        s == empty_sample(),
{
    Sample { at: 0, mode: 0, expanded: 0, unexpanded: 0, visibility: None, frames: 0 }
}

/// One completed second: when it started and its four bins.
pub struct Report {
    start: u64,
    samples: [Sample; 4],
}

impl Report {
    pub closed spec fn started_at(&self) -> u64 {
        self.start
    }

    pub closed spec fn bins(&self) -> Seq<Sample> {
        self.samples@
    }

    pub fn start(&self) -> (s: u64)
        ensures
            s == self.started_at(),
    {
        self.start
    }

    pub fn samples(&self) -> (s: [Sample; 4])
        ensures
            s@ == self.bins(),
    {
        self.samples
    }
}

pub struct Sampler {
    start: u64,
    samples: [Sample; 4],
}

/// What one recorded frame does to a second that started at `start`: once a
/// second or more has passed, the finished second is reported and the clock
/// moves on by whole seconds (no catch-up samples after a stall); then the
/// frame's bin takes the frame.
pub open spec fn spec_record(
    start: u64,
    samples: Seq<Sample>,
    now: u64,
    mode: u8,
    expanded: usize,
    unexpanded: usize,
    visibility: Option<Visibility>,
) -> (u64, Seq<Sample>, Option<(u64, Seq<Sample>)>) {
    let elapsed = now - start;
    let (start1, samples1, report) = if elapsed >= REPORT_MS {
        (
            (start + elapsed / REPORT_MS as int * REPORT_MS) as u64,
            Seq::new(4, |i: int| empty_sample()),
            Some((start, samples)),
        )
    } else {
        (start, samples, None)
    };
    let bin = if (now - start1) / BIN_MS as int > 3 {
        3
    } else {
        (now - start1) / BIN_MS as int
    };
    let frames = if samples1[bin].frames == u32::MAX {
        u32::MAX
    } else {
        (samples1[bin].frames + 1) as u32
    };
    (
        start1,
        samples1.update(
            bin,
            Sample { at: (now - start1) as u64, mode, expanded, unexpanded, visibility, frames },
        ),
        report,
    )
}

impl Sampler {
    pub closed spec fn started_at(&self) -> u64 {
        self.start
    }

    pub closed spec fn bins(&self) -> Seq<Sample> {
        self.samples@
    }

    pub fn new(now: u64) -> (s: Self)
        ensures
            s.started_at() == now,
            s.bins() == Seq::new(4, |i: int| empty_sample()),
    {
        let s = Sampler {
            start: now,
            samples: [blank_sample(), blank_sample(), blank_sample(), blank_sample()],
        };
        proof {
            assert(s.samples@ =~= Seq::new(4, |i: int| empty_sample()));
        }
        s
    }

    /// When the present second started.
    pub fn start(&self) -> (s: u64)
        ensures
            s == self.started_at(),
    {
        self.start
    }

    /// The bins of the present second.
    pub fn samples(&self) -> (s: [Sample; 4])
        ensures
            s@ == self.bins(),
    {
        self.samples
    }

    /// Record one frame at `now` (never before the present second).
    pub fn record(
        &mut self,
        now: u64,
        mode: u8,
        expanded: usize,
        unexpanded: usize,
        visibility: Option<Visibility>,
    ) -> (r: Option<Report>)
        requires
            old(self).started_at() <= now,
        ensures
            final(self).started_at() <= now,
            ({
                let (start, samples, report) = spec_record(
                    old(self).started_at(),
                    old(self).bins(),
                    now,
                    mode,
                    expanded,
                    unexpanded,
                    visibility,
                );
                &&& final(self).started_at() == start
                &&& final(self).bins() == samples
                &&& match report {
                    Some((s, bins)) => r is Some && r.unwrap().started_at() == s
                        && r.unwrap().bins() == bins,
                    None => r is None,
                }
            }),
    {
        let elapsed = now - self.start;
        let report = if elapsed >= REPORT_MS {
            let report = Report { start: self.start, samples: self.samples };
            proof {
                assert(elapsed / REPORT_MS * REPORT_MS <= elapsed) by (nonlinear_arith);
            }
            self.start = self.start + elapsed / REPORT_MS * REPORT_MS;
            self.samples = [blank_sample(), blank_sample(), blank_sample(), blank_sample()];
            proof {
                assert(self.samples@ =~= Seq::new(4, |i: int| empty_sample()));
            }
            Some(report)
        } else {
            None
        };
        let quarter = (now - self.start) / BIN_MS;
        let index: usize = if quarter > 3 {
            3
        } else {
            quarter as usize
        };
        let frames = self.samples[index].frames.saturating_add(1);
        self.samples[index] = Sample {
            at: now - self.start,
            mode,
            expanded,
            unexpanded,
            visibility,
            frames,
        };
        report
    }
}

/// The character of decimal digit `d`.
pub open spec fn digit_char(d: nat) -> char {
    if d == 0 {
        '0'
    } else if d == 1 {
        '1'
    } else if d == 2 {
        '2'
    } else if d == 3 {
        '3'
    } else if d == 4 {
        '4'
    } else if d == 5 {
        '5'
    } else if d == 6 {
        '6'
    } else if d == 7 {
        '7'
    } else if d == 8 {
        '8'
    } else {
        '9'
    }
}

/// `n` in decimal, most significant digit first, without leading zeros.
pub open spec fn decimal(n: nat) -> Seq<char>
    decreases n,
{
    if n < 10 {
        seq![digit_char(n)]
    } else {
        decimal(n / 10).push(digit_char(n % 10))
    }
}

/// The text of bin `i`: a dash for an empty bin; otherwise when its last
/// frame came, the mode and the counts, with the visibility figures when the
/// frame had them.
pub open spec fn bin_text(i: nat, s: Sample) -> Seq<char> {
    if s.frames == 0 {
        " ["@ + decimal(i) + ":-]"@
    } else {
        match s.visibility {
            Some(v) => " ["@ + decimal(i) + ":+"@ + decimal(s.at as nat) + "ms M"@ + decimal(
                s.mode as nat,
            ) + " S"@ + decimal((s.expanded + s.unexpanded) as nat) + " F"@ + decimal(
                v.frustum as nat,
            ) + " O"@ + decimal(v.occluded as nat) + " V"@ + decimal(s.expanded as nat) + " P"@
                + decimal((s.expanded * v.patches_per_cube) as nat) + " X"@ + decimal(
                (s.unexpanded * v.patches_per_cube) as nat,
            ) + " frames"@ + decimal(s.frames as nat) + "]"@,
            None => " ["@ + decimal(i) + ":+"@ + decimal(s.at as nat) + "ms M"@ + decimal(
                s.mode as nat,
            ) + " E"@ + decimal(s.expanded as nat) + " U"@ + decimal(s.unexpanded as nat) + " F"@
                + decimal(s.frames as nat) + "]"@,
        }
    }
}

/// The texts of the first `k` bins.
pub open spec fn bins_text(bins: Seq<Sample>, k: nat) -> Seq<char>
    decreases k,
{
    if k == 0 {
        Seq::empty()
    } else {
        bins_text(bins, (k - 1) as nat) + bin_text((k - 1) as nat, bins[k - 1])
    }
}

/// One report line: when the second started, then its four bins.
pub open spec fn report_text(start: u64, bins: Seq<Sample>) -> Seq<char> {
    "counts t="@ + decimal(start as nat) + "ms bins=250ms"@ + bins_text(bins, 4)
}

/// The sums and products that a bin's text shows fit in `usize`.
pub open spec fn bin_fits(s: Sample) -> bool {
    s.frames != 0 ==> (s.visibility matches Some(v) ==> {
        &&& s.expanded + s.unexpanded <= usize::MAX
        &&& s.expanded * v.patches_per_cube <= usize::MAX
        &&& s.unexpanded * v.patches_per_cube <= usize::MAX
    })
}

fn digit_of(d: u64) -> (c: char)
    requires
        d < 10,
    ensures
        c == digit_char(d as nat),
{
    if d == 0 {
        '0'
    } else if d == 1 {
        '1'
    } else if d == 2 {
        '2'
    } else if d == 3 {
        '3'
    } else if d == 4 {
        '4'
    } else if d == 5 {
        '5'
    } else if d == 6 {
        '6'
    } else if d == 7 {
        '7'
    } else if d == 8 {
        '8'
    } else {
        '9'
    }
}

/// Appends `n` in decimal.
fn push_decimal(s: &mut String, n: u64)
    ensures
        final(s)@ == old(s)@ + decimal(n as nat),
    decreases n,
{
    if n >= 10 {
        push_decimal(s, n / 10);
    }
    push_char(s, digit_of(n % 10));
    proof {
        if n >= 10 {
            assert(final(s)@ =~= old(s)@ + decimal(n as nat));
        } else {
            assert(final(s)@ =~= old(s)@ + decimal(n as nat));
        }
    }
}

/// Appends `t` to the text built so far.
fn push_text(s: &mut String, Ghost(base): Ghost<Seq<char>>, Ghost(acc): Ghost<Seq<char>>, t: &str)
    requires
        old(s)@ == base + acc,
    ensures
        final(s)@ == base + (acc + t@),
{
    let n = t.unicode_len();
    let mut i: usize = 0;
    while i < n
        invariant
            n == t@.len(),
            i <= n,
            s@ == base + (acc + t@.take(i as int)),
        decreases n - i,
    {
        push_char(s, t.get_char(i));
        i = i + 1;
        proof {
            assert(s@ =~= base + (acc + t@.take(i as int)));
        }
    }
    proof {
        assert(t@.take(n as int) =~= t@);
    }
}

/// Appends `n` in decimal to the text built so far.
fn push_number(s: &mut String, Ghost(base): Ghost<Seq<char>>, Ghost(acc): Ghost<Seq<char>>, n: u64)
    requires
        old(s)@ == base + acc,
    ensures
        final(s)@ == base + (acc + decimal(n as nat)),
{
    push_decimal(s, n);
    proof {
        assert(final(s)@ =~= base + (acc + decimal(n as nat)));
    }
}

/// Appends the text of bin `i`.
fn push_bin(s: &mut String, i: usize, b: Sample)
    requires
        bin_fits(b),
    ensures
        final(s)@ == old(s)@ + bin_text(i as nat, b),
{
    let ghost base = s@;
    let ghost empty = Seq::<char>::empty();
    proof {
        assert(s@ =~= base + empty);
    }
    push_text(s, Ghost(base), Ghost(empty), " [");
    let ghost acc = empty + " ["@;
    push_number(s, Ghost(base), Ghost(acc), i as u64);
    let ghost acc = acc + decimal(i as nat);
    if b.frames == 0 {
        push_text(s, Ghost(base), Ghost(acc), ":-]");
        proof {
            assert(empty + " ["@ =~= " ["@);
        }
        return;
    }
    push_text(s, Ghost(base), Ghost(acc), ":+");
    let ghost acc = acc + ":+"@;
    push_number(s, Ghost(base), Ghost(acc), b.at);
    let ghost acc = acc + decimal(b.at as nat);
    push_text(s, Ghost(base), Ghost(acc), "ms M");
    let ghost acc = acc + "ms M"@;
    push_number(s, Ghost(base), Ghost(acc), b.mode as u64);
    let ghost acc = acc + decimal(b.mode as nat);
    match b.visibility {
        Some(v) => {
            push_text(s, Ghost(base), Ghost(acc), " S");
            let ghost acc = acc + " S"@;
            push_number(s, Ghost(base), Ghost(acc), (b.expanded + b.unexpanded) as u64);
            let ghost acc = acc + decimal((b.expanded + b.unexpanded) as nat);
            push_text(s, Ghost(base), Ghost(acc), " F");
            let ghost acc = acc + " F"@;
            push_number(s, Ghost(base), Ghost(acc), v.frustum as u64);
            let ghost acc = acc + decimal(v.frustum as nat);
            push_text(s, Ghost(base), Ghost(acc), " O");
            let ghost acc = acc + " O"@;
            push_number(s, Ghost(base), Ghost(acc), v.occluded as u64);
            let ghost acc = acc + decimal(v.occluded as nat);
            push_text(s, Ghost(base), Ghost(acc), " V");
            let ghost acc = acc + " V"@;
            push_number(s, Ghost(base), Ghost(acc), b.expanded as u64);
            let ghost acc = acc + decimal(b.expanded as nat);
            push_text(s, Ghost(base), Ghost(acc), " P");
            let ghost acc = acc + " P"@;
            push_number(s, Ghost(base), Ghost(acc), (b.expanded * v.patches_per_cube) as u64);
            let ghost acc = acc + decimal((b.expanded * v.patches_per_cube) as nat);
            push_text(s, Ghost(base), Ghost(acc), " X");
            let ghost acc = acc + " X"@;
            push_number(s, Ghost(base), Ghost(acc), (b.unexpanded * v.patches_per_cube) as u64);
            let ghost acc = acc + decimal((b.unexpanded * v.patches_per_cube) as nat);
            push_text(s, Ghost(base), Ghost(acc), " frames");
            let ghost acc = acc + " frames"@;
            push_number(s, Ghost(base), Ghost(acc), b.frames as u64);
            let ghost acc = acc + decimal(b.frames as nat);
            push_text(s, Ghost(base), Ghost(acc), "]");
        },
        None => {
            push_text(s, Ghost(base), Ghost(acc), " E");
            let ghost acc = acc + " E"@;
            push_number(s, Ghost(base), Ghost(acc), b.expanded as u64);
            let ghost acc = acc + decimal(b.expanded as nat);
            push_text(s, Ghost(base), Ghost(acc), " U");
            let ghost acc = acc + " U"@;
            push_number(s, Ghost(base), Ghost(acc), b.unexpanded as u64);
            let ghost acc = acc + decimal(b.unexpanded as nat);
            push_text(s, Ghost(base), Ghost(acc), " F");
            let ghost acc = acc + " F"@;
            push_number(s, Ghost(base), Ghost(acc), b.frames as u64);
            let ghost acc = acc + decimal(b.frames as nat);
            push_text(s, Ghost(base), Ghost(acc), "]");
        },
    }
    proof {
        assert(empty + " ["@ =~= " ["@);
    }
}

impl Report {
    /// The report as one log line: when the second started, then each bin.
    pub fn text(&self) -> (t: String)
        requires
            forall|i: int| 0 <= i < 4 ==> bin_fits(#[trigger] self.bins()[i]),
        ensures
            t@ == report_text(self.started_at(), self.bins()),
    {
        let mut s = String::new();
        let ghost empty = Seq::<char>::empty();
        proof {
            assert(s@ =~= empty + empty);
        }
        push_text(&mut s, Ghost(empty), Ghost(empty), "counts t=");
        let ghost acc = empty + "counts t="@;
        push_number(&mut s, Ghost(empty), Ghost(acc), self.start);
        let ghost acc = acc + decimal(self.start as nat);
        push_text(&mut s, Ghost(empty), Ghost(acc), "ms bins=250ms");
        let ghost head = acc + "ms bins=250ms"@;
        proof {
            assert(empty + "counts t="@ =~= "counts t="@);
            assert(s@ =~= head);
        }
        let mut i: usize = 0;
        while i < 4
            invariant
                i <= 4,
                self.samples@ == self.bins(),
                forall|k: int| 0 <= k < 4 ==> bin_fits(#[trigger] self.bins()[k]),
                s@ == head + bins_text(self.bins(), i as nat),
            decreases 4 - i,
        {
            push_bin(&mut s, i, self.samples[i]);
            proof {
                assert(s@ =~= head + bins_text(self.bins(), (i + 1) as nat));
            }
            i = i + 1;
        }
        s
    }
}

} // verus!
