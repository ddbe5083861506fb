//! Rate-limited Key4/Key5 reveals, keyed by authored cube ID.
use vstd::prelude::*;

verus! {

pub const DELAY_MS: u64 = 333;
pub const STARTS_PER_SECOND: u64 = 1600;
pub const MAX_STARTS_PER_FRAME: u64 = 32;
pub const REARM_MS: u64 = 240;
/// Key5 placement experiment. False restores full-size pop-in after admission.
pub const PLACED_BOUNCE_UNIFORM_GROWTH: bool = true;
pub const GROWTH_MS: u64 = 700;
/// One start, in thousandths of a start.
pub const START_COST: u64 = 1000;

#[derive(Clone, Copy, Debug, PartialEq, Eq, Structural)]
pub enum Phase {
    Hidden,
    /// Seen since the given time, waiting for the delay and for credit.
    Waiting(u64),
    /// Admitted at the given time.
    Full(u64),
}

#[derive(Clone, Copy, Debug, PartialEq, Eq, Structural)]
pub struct Seed {
    pub phase: Phase,
    pub absent_since: Option<u64>,
    pub seen: bool,
}

pub struct Reveal {
    seeds: Vec<Seed>,
    now: u64,
    previous_frame: Option<u64>,
    // Thousandths of one start; retained fractions make the rate FPS-independent
    // until the per-frame burst cap becomes the limiting factor.
    credit: u64,
}

pub open spec fn blank() -> Seed {
    Seed { phase: Phase::Hidden, absent_since: None, seen: false }
}

fn blank_seed() -> (s: Seed)
    ensures
        s == blank(),
{
    Seed { phase: Phase::Hidden, absent_since: None, seen: false }
}

/// `s` cut or padded with blank seeds to length `n`.
pub open spec fn resized(s: Seq<Seed>, n: int) -> Seq<Seed> {
    if n <= s.len() {
        s.take(n)
    } else {
        s + Seq::new((n - s.len()) as nat, |i: int| blank())
    }
}

pub open spec fn elapsed(now: u64, since: u64) -> int {
    if now >= since {
        now - since
    } else {
        0
    }
}

/// What admitting one seed does, given the frame time and the credit: a seed
/// absent for `REARM_MS` or more is hidden again; a hidden seed starts to
/// wait; a waiting seed is admitted once it has waited `DELAY_MS` and one
/// start of credit is left. The flag says whether the seed is drawn.
pub open spec fn spec_admit(seed: Seed, now: u64, credit: u64) -> (Seed, u64, bool) {
    let rearmed = match seed.absent_since {
        Some(since) => elapsed(now, since) >= REARM_MS,
        None => false,
    };
    let phase = if rearmed {
        Phase::Waiting(now)
    } else if seed.phase == Phase::Hidden {
        Phase::Waiting(now)
    } else {
        seed.phase
    };
    match phase {
        Phase::Waiting(since) => if elapsed(now, since) < DELAY_MS || credit < START_COST {
            (Seed { phase, absent_since: None, seen: true }, credit, false)
        } else {
            (
                Seed { phase: Phase::Full(now), absent_since: None, seen: true },
                (credit - START_COST) as u64,
                true,
            )
        },
        _ => (Seed { phase, absent_since: None, seen: true }, credit, true),
    }
}

/// A seed that the frame did not see loses a pending wait and remembers
/// since when it is absent.
pub open spec fn spec_unseen(seed: Seed, now: u64) -> Seed {
    if seed.seen {
        seed
    } else {
        Seed {
            phase: match seed.phase {
                Phase::Waiting(_) => Phase::Hidden,
                p => p,
            },
            absent_since: match seed.absent_since {
                Some(t) => Some(t),
                None => Some(now),
            },
            seen: false,
        }
    }
}

/// The credit of a new frame: what was left, plus the rate times the elapsed
/// time, capped at one burst.
pub open spec fn spec_credit(credit: u64, elapsed_ms: u64) -> u64 {
    let gained = if elapsed_ms * STARTS_PER_SECOND > u64::MAX {
        u64::MAX as int
    } else {
        elapsed_ms * STARTS_PER_SECOND
    };
    let total = if credit + gained > u64::MAX {
        u64::MAX as int
    } else {
        credit + gained
    };
    if total > MAX_STARTS_PER_FRAME * 1000 {
        (MAX_STARTS_PER_FRAME * 1000) as u64
    } else {
        total as u64
    }
}

impl Reveal {
    pub closed spec fn seeds(&self) -> Seq<Seed> {
        self.seeds@
    }

    pub closed spec fn clock(&self) -> u64 {
        self.now
    }

    pub closed spec fn last_frame(&self) -> Option<u64> {
        self.previous_frame
    }

    pub closed spec fn start_credit(&self) -> u64 {
        self.credit
    }

    /// The credit never exceeds one burst.
    pub open spec fn wf(&self) -> bool {
        self.start_credit() <= MAX_STARTS_PER_FRAME * 1000
    }

    pub fn new() -> (r: Self)
        ensures
            r.wf(),
            r.seeds() == Seq::<Seed>::empty(),
            r.clock() == 0,
            r.last_frame() is None,
            r.start_credit() == 0,
    {
        Reveal { seeds: Vec::new(), now: 0, previous_frame: None, credit: 0 }
    }

    /// Reset on every Key4 entry or asset-page change, including equal-size pages.
    pub fn reset(&mut self)
        ensures
            final(self).wf(),
            final(self).seeds() == Seq::<Seed>::empty(),
            final(self).clock() == old(self).clock(),
            final(self).last_frame() is None,
            final(self).start_credit() == 0,
    {
        self.seeds.clear();
        self.previous_frame = None;
        self.credit = 0;
    }

    /// Adding placed cubes preserves the reveal state of existing instances.
    pub fn append(&mut self, source: usize)
        requires
            old(self).wf(),
        ensures
            final(self).wf(),
            final(self).seeds() == resized(old(self).seeds(), source as int),
            final(self).clock() == old(self).clock(),
            final(self).last_frame() == old(self).last_frame(),
            final(self).start_credit() == old(self).start_credit(),
    {
        let old_len = self.seeds.len();
        self.seeds.resize(source, blank_seed());
        proof {
            if source > old_len {
                assert(self.seeds@ =~= resized(old(self).seeds@, source as int));
            }
        }
    }

    /// Hide the seeds of `range` again.
    pub fn reset_range(&mut self, range: core::ops::Range<usize>)
        requires
            old(self).wf(),
            range.start <= range.end <= old(self).seeds().len(),
        ensures
            final(self).wf(),
            final(self).seeds() == Seq::new(
                old(self).seeds().len(),
                |i: int|
                    if range.start <= i < range.end {
                        blank()
                    } else {
                        old(self).seeds()[i]
                    },
            ),
            final(self).clock() == old(self).clock(),
            final(self).last_frame() == old(self).last_frame(),
            final(self).start_credit() == old(self).start_credit(),
    {
        let mut i = range.start;
        while i < range.end
            invariant
                range.start <= i <= range.end <= self.seeds.len(),
                self.seeds.len() == old(self).seeds.len(),
                self.now == old(self).now,
                self.previous_frame == old(self).previous_frame,
                self.credit == old(self).credit,
                forall|k: int|
                    0 <= k < self.seeds.len() ==> #[trigger] self.seeds@[k] == if range.start <= k
                        < i {
                        blank()
                    } else {
                        old(self).seeds@[k]
                    },
            decreases range.end - i,
        {
            self.seeds.set(i, blank_seed());
            i = i + 1;
        }
        proof {
            assert(self.seeds@ =~= Seq::new(
                old(self).seeds@.len(),
                |i: int|
                    if range.start <= i < range.end {
                        blank()
                    } else {
                        old(self).seeds@[i]
                    },
            ));
        }
    }

    /// Start a frame at `now` with `source` seeds: a change of count resets
    /// the reveal; the credit grows with the elapsed time up to one burst.
    pub fn begin_frame(&mut self, now: u64, source: usize)
        requires
            old(self).wf(),
        ensures
            final(self).wf(),
            ({
                let changed = old(self).seeds().len() != source;
                let base = if changed {
                    Seq::new(source as nat, |i: int| blank())
                } else {
                    old(self).seeds()
                };
                let previous = if changed {
                    now
                } else {
                    match old(self).last_frame() {
                        Some(p) => p,
                        None => now,
                    }
                };
                let credit = if changed {
                    0
                } else {
                    old(self).start_credit()
                };
                &&& final(self).seeds() == Seq::new(
                    source as nat,
                    |i: int| Seed { seen: false, ..base[i] },
                )
                &&& final(self).start_credit() == spec_credit(
                    credit,
                    elapsed(now, previous) as u64,
                )
                &&& final(self).last_frame() == Some(now)
                &&& final(self).clock() == now
            }),
    {
        if self.seeds.len() != source {
            self.reset();
            let b = blank_seed();
            self.seeds.resize(source, b);
            proof {
                assert forall|i: int| 0 <= i < source implies self.seeds@[i] == blank() by {
                    assert(cloned::<Seed>(b, self.seeds@[i]));
                }
                assert(self.seeds@ =~= Seq::new(source as nat, |i: int| blank()));
            }
        }
        let previous = match self.previous_frame {
            Some(p) => p,
            None => now,
        };
        let waited = now.saturating_sub(previous);
        let gained = match waited.checked_mul(STARTS_PER_SECOND) {
            Some(g) => g,
            None => u64::MAX,
        };
        let total = self.credit.saturating_add(gained);
        self.credit = if total > MAX_STARTS_PER_FRAME * 1000 {
            MAX_STARTS_PER_FRAME * 1000
        } else {
            total
        };
        self.previous_frame = Some(now);
        self.now = now;
        let ghost base = self.seeds@;
        let ghost credit = self.credit;
        let mut i: usize = 0;
        while i < self.seeds.len()
            invariant
                self.seeds.len() == base.len(),
                i <= self.seeds.len(),
                forall|k: int|
                    0 <= k < base.len() ==> #[trigger] self.seeds@[k] == if k < i {
                        Seed { seen: false, ..base[k] }
                    } else {
                        base[k]
                    },
                self.credit == credit,
                credit <= MAX_STARTS_PER_FRAME * 1000,
                self.now == now,
                self.previous_frame == Some(now),
            decreases self.seeds.len() - i,
        {
            let mut s = self.seeds[i];
            s.seen = false;
            self.seeds.set(i, s);
            i = i + 1;
        }
        proof {
            assert(self.seeds@ =~= Seq::new(
                base.len(),
                |i: int| Seed { seen: false, ..base[i] },
            ));
        }
    }

    /// Called once per eligible seed in the culler's nearest-first order.
    /// False means no submitted seed and therefore no occlusion coverage.
    pub fn admit_seed(&mut self, id: usize) -> (r: bool)
        requires
            old(self).wf(),
            id < old(self).seeds().len(),
        ensures
            final(self).wf(),
            ({
                let (seed, credit, drawn) = spec_admit(
                    old(self).seeds()[id as int],
                    old(self).clock(),
                    old(self).start_credit(),
                );
                &&& final(self).seeds() == old(self).seeds().update(id as int, seed)
                &&& final(self).start_credit() == credit
                &&& r == drawn
            }),
            final(self).clock() == old(self).clock(),
            final(self).last_frame() == old(self).last_frame(),
    {
        let mut seed = self.seeds[id];
        seed.seen = true;
        let rearmed = match seed.absent_since {
            Some(since) => self.now.saturating_sub(since) >= REARM_MS,
            None => false,
        };
        if rearmed {
            seed.phase = Phase::Hidden;
        }
        seed.absent_since = None;
        if let Phase::Hidden = seed.phase {
            seed.phase = Phase::Waiting(self.now);
        }
        let mut drawn = true;
        if let Phase::Waiting(since) = seed.phase {
            if self.now.saturating_sub(since) < DELAY_MS || self.credit < START_COST {
                drawn = false;
            } else {
                self.credit = self.credit - START_COST;
                seed.phase = Phase::Full(self.now);
            }
        }
        self.seeds.set(id, seed);
        drawn
    }

    /// Whether seed `id` has finished its growth.
    pub fn settled(&self, id: usize) -> (r: bool)
        requires
            id < self.seeds().len(),
        ensures
            r == (!PLACED_BOUNCE_UNIFORM_GROWTH || match self.seeds()[id as int].phase {
                Phase::Full(start) => elapsed(self.clock(), start) >= GROWTH_MS,
                _ => false,
            }),
    {
        !PLACED_BOUNCE_UNIFORM_GROWTH || match self.seeds[id].phase {
            Phase::Full(start) => self.now.saturating_sub(start) >= GROWTH_MS,
            _ => false,
        }
    }

    /// Close the frame: every seed it did not see is marked absent.
    pub fn end_frame(&mut self)
        requires
            old(self).wf(),
        ensures
            final(self).wf(),
            final(self).seeds() == Seq::new(
                old(self).seeds().len(),
                |i: int| spec_unseen(old(self).seeds()[i], old(self).clock()),
            ),
            final(self).clock() == old(self).clock(),
            final(self).last_frame() == old(self).last_frame(),
            final(self).start_credit() == old(self).start_credit(),
    {
        let mut i: usize = 0;
        while i < self.seeds.len()
            invariant
                self.seeds.len() == old(self).seeds.len(),
                i <= self.seeds.len(),
                self.now == old(self).now,
                self.previous_frame == old(self).previous_frame,
                self.credit == old(self).credit,
                forall|k: int|
                    0 <= k < self.seeds.len() ==> #[trigger] self.seeds@[k] == if k < i {
                        spec_unseen(old(self).seeds@[k], old(self).now)
                    } else {
                        old(self).seeds@[k]
                    },
            decreases self.seeds.len() - i,
        {
            let mut seed = self.seeds[i];
            if !seed.seen {
                if let Phase::Waiting(_) = seed.phase {
                    seed.phase = Phase::Hidden;
                }
                if seed.absent_since.is_none() {
                    seed.absent_since = Some(self.now);
                }
                self.seeds.set(i, seed);
            }
            i = i + 1;
        }
        proof {
            assert(self.seeds@ =~= Seq::new(
                old(self).seeds@.len(),
                |i: int| spec_unseen(old(self).seeds@[i], old(self).now),
            ));
        }
    }

    /// The phase of seed `id`, for the renderer's growth curves.
    pub fn phase(&self, id: usize) -> (r: Phase)
        requires
            id < self.seeds().len(),
        ensures
            r == self.seeds()[id as int].phase,
    {
        self.seeds[id].phase
    }

    /// The time of the present frame.
    pub fn now(&self) -> (r: u64)
        ensures
            r == self.clock(),
    {
        self.now
    }
}

/// Admitting `ids` in order, from the given seeds and credit: the seeds, the
/// credit left and the number of seeds that started (went to `Full`).
pub open spec fn admit_all(seeds: Seq<Seed>, now: u64, credit: u64, ids: Seq<usize>) -> (
    Seq<Seed>,
    u64,
    nat,
)
    decreases ids.len(),
{
    if ids.len() == 0 {
        (seeds, credit, 0)
    } else {
        let (s0, c0, n0) = admit_all(seeds, now, credit, ids.drop_last());
        let id = ids.last() as int;
        if 0 <= id < s0.len() {
            let (seed, c1, _) = spec_admit(s0[id], now, c0);
            (s0.update(id, seed), c1, n0 + if c1 < c0 {
                1nat
            } else {
                0nat
            })
        } else {
            (s0, c0, n0)
        }
    }
}

/// Law: in one frame every start costs one unit of credit, so however many
/// seeds a frame admits, at most `MAX_STARTS_PER_FRAME` of them start.
pub proof fn lemma_frame_burst_limit(seeds: Seq<Seed>, now: u64, credit: u64, ids: Seq<usize>)
    requires
        credit <= MAX_STARTS_PER_FRAME * 1000,
    ensures
        ({
            let (_, left, started) = admit_all(seeds, now, credit, ids);
            &&& started * START_COST + left == credit
            &&& started <= MAX_STARTS_PER_FRAME
        }),
    decreases ids.len(),
{
    if ids.len() > 0 {
        lemma_frame_burst_limit(seeds, now, credit, ids.drop_last());
    }
}

/// The sum of a sequence of counts.
pub open spec fn total(s: Seq<int>) -> int
    decreases s.len(),
{
    if s.len() == 0 {
        0
    } else {
        total(s.drop_last()) + s.last()
    }
}

/// Frame `i` of a run: it starts with the credit that the previous frame
/// left (`c0` for the first), gains its elapsed time, and ends with
/// `left[i]` after `started[i]` starts.
pub open spec fn frame_accounted(c0: u64, elapsed: Seq<int>, started: Seq<int>, left: Seq<u64>, i: int) -> bool {
    let before = if i == 0 {
        c0
    } else {
        left[i - 1]
    };
    &&& 0 <= elapsed[i] <= u64::MAX
    &&& started[i] >= 0
    &&& started[i] * START_COST + left[i] == spec_credit(before, elapsed[i] as u64)
}

proof fn lemma_credit_gain(credit: u64, e: u64)
    ensures
        spec_credit(credit, e) <= credit + e * STARTS_PER_SECOND,
{
}

/// Law: reveals start at most at the configured rate. Over consecutive
/// frames, each accounted as `begin_frame`, `admit_seed` and `end_frame`
/// account it (see `lemma_frame_burst_limit`), the starts cost no more than
/// the first credit plus `STARTS_PER_SECOND` per second of elapsed time;
/// from an empty credit, at most 1.6 starts per millisecond.
pub proof fn lemma_rate_limit(c0: u64, elapsed: Seq<int>, started: Seq<int>, left: Seq<u64>)
    requires
        elapsed.len() == started.len(),
        started.len() == left.len(),
        forall|i: int| 0 <= i < elapsed.len() ==> #[trigger] frame_accounted(c0, elapsed, started, left, i),
    ensures
        total(started) * START_COST + (if left.len() == 0 {
            c0 as int
        } else {
            left.last() as int
        }) <= c0 + total(elapsed) * STARTS_PER_SECOND,
    decreases elapsed.len(),
{
    if elapsed.len() > 0 {
        let n = elapsed.len() - 1;
        let e = elapsed.drop_last();
        let st = started.drop_last();
        let l = left.drop_last();
        assert forall|i: int| 0 <= i < e.len() implies #[trigger] frame_accounted(c0, e, st, l, i) by {
            assert(frame_accounted(c0, elapsed, started, left, i));
        }
        lemma_rate_limit(c0, e, st, l);
        assert(frame_accounted(c0, elapsed, started, left, n));
        let before = if n == 0 {
            c0
        } else {
            left[n - 1]
        };
        lemma_credit_gain(before, elapsed[n] as u64);
        if n > 0 {
            assert(l.last() == left[n - 1]);
        }
        assert(total(started) == total(st) + started[n]);
        assert(total(elapsed) == total(e) + elapsed[n]);
        assert((total(st) + started[n]) * START_COST == total(st) * START_COST + started[n] * START_COST)
            by (nonlinear_arith);
        assert((total(e) + elapsed[n]) * STARTS_PER_SECOND == total(e) * STARTS_PER_SECOND + elapsed[n]
            * STARTS_PER_SECOND) by (nonlinear_arith);
    }
}

} // verus!
