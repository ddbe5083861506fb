//! Which destination each portal face of a world shows, driven by the
//! shared puzzle: a change of routes plays as a one-second collapse and a
//! one-second rebuild, and later changes wait for it to finish.
use vstd::prelude::*;
use crate::rubik::Puzzle;
use crate::world_topology::{Destination, routes, spec_routes};

verus! {

pub const PHASE_MS: u64 = 1000;

/// A change of routes in progress.
#[derive(Clone, Copy, Debug)]
pub struct Change {
    pub from: [Destination; 7],
    pub to: [Destination; 7],
    pub started: u64,
}

/// The routes a world shows and the newest routes it has seen.
pub struct PortalRoutes {
    index: usize,
    revision: u64,
    current: [Destination; 7],
    latest: [Destination; 7],
    change: Option<Change>,
}

/// The routes shown and the change in progress after a frame at `now`:
/// a change that has run two phases is complete; with none in progress,
/// newer routes start one.
pub open spec fn spec_step(
    current: [Destination; 7],
    change: Option<Change>,
    latest: [Destination; 7],
    now: u64,
) -> ([Destination; 7], Option<Change>) {
    let (current1, change1) = match change {
        Some(c) => if now >= c.started + 2 * PHASE_MS {
            (c.to, None)
        } else {
            (current, change)
        },
        None => (current, change),
    };
    if change1 is None && current1 != latest {
        (current1, Some(Change { from: current1, to: latest, started: now }))
    } else {
        (current1, change1)
    }
}

fn same_routes(a: &[Destination; 7], b: &[Destination; 7]) -> (r: bool)
    ensures
        r == (*a == *b),
{
    let mut k: usize = 0;
    while k < 7
        invariant
            k <= 7,
            forall|j: int| 0 <= j < k ==> a[j] == b[j],
        decreases 7 - k,
    {
        if a[k] != b[k] {
            return false;
        }
        k = k + 1;
    }
    proof {
        assert(*a =~= *b);
    }
    true
}

impl PortalRoutes {
    pub closed spec fn world(&self) -> usize {
        self.index
    }

    pub closed spec fn seen(&self) -> u64 {
        self.revision
    }

    pub closed spec fn shown(&self) -> [Destination; 7] {
        self.current
    }

    pub closed spec fn newest(&self) -> [Destination; 7] {
        self.latest
    }

    pub closed spec fn changing(&self) -> Option<Change> {
        self.change
    }

    pub closed spec fn wf(&self) -> bool {
        self.index < 27
    }

    /// World `index` showing its present routes.
    pub fn new(index: usize, puzzle: &Puzzle) -> (p: Self)
        requires
            index < 27,
            puzzle.wf(),
        ensures
            p.wf(),
            p.world() == index,
            p.seen() == puzzle.state().revision,
            p.shown()@ == spec_routes(index as int, puzzle.lattice()),
            p.newest() == p.shown(),
            p.changing() is None,
    {
        let current = routes(index, puzzle);
        PortalRoutes { index, revision: puzzle.revision(), current, latest: current, change: None }
    }

    /// One frame: take the puzzle's routes when it has committed a turn,
    /// then advance the change (see `spec_step`). True when the portals
    /// must be repainted: a change was or is in progress.
    pub fn update(&mut self, puzzle: &Puzzle, now: u64) -> (repaint: bool)
        requires
            old(self).wf(),
            puzzle.wf(),
        ensures
            final(self).wf(),
            final(self).world() == old(self).world(),
            final(self).seen() == puzzle.state().revision,
            old(self).seen() != puzzle.state().revision ==> final(self).newest()@ == spec_routes(
                old(self).world() as int,
                puzzle.lattice(),
            ),
            old(self).seen() == puzzle.state().revision ==> final(self).newest() == old(self).newest(),
            (final(self).shown(), final(self).changing()) == spec_step(
                old(self).shown(),
                old(self).changing(),
                final(self).newest(),
                now,
            ),
            repaint == (old(self).changing() is Some || final(self).changing() is Some),
    {
        let revision = puzzle.revision();
        if self.revision != revision {
            self.revision = revision;
            self.latest = routes(self.index, puzzle);
        }
        let was_changing = self.change.is_some();
        if let Some(change) = self.change {
            if now >= change.started && now - change.started >= PHASE_MS * 2 {
                self.current = change.to;
                self.change = None;
            }
        }
        if self.change.is_none() && !same_routes(&self.current, &self.latest) {
            self.change = Some(Change { from: self.current, to: self.latest, started: now });
        }
        was_changing || self.change.is_some()
    }

    /// The routes shown.
    pub fn current(&self) -> (r: [Destination; 7])
        ensures
            r == self.shown(),
    {
        self.current
    }

    /// The newest routes seen.
    pub fn latest(&self) -> (r: [Destination; 7])
        ensures
            r == self.newest(),
    {
        self.latest
    }

    /// The change in progress.
    pub fn change(&self) -> (r: Option<Change>)
        ensures
            r == self.changing(),
    {
        self.change
    }
}

/// Law: while a change is in progress, later routes never restart it: it
/// keeps its start and its destinations until its two phases have run.
pub proof fn lemma_change_not_restarted(
    current: [Destination; 7],
    c: Change,
    latest: [Destination; 7],
    now: u64,
)
    requires
        now < c.started + 2 * PHASE_MS,
    ensures
        spec_step(current, Some(c), latest, now) == (current, Some(c)),
{
}

/// Law: once a change has run its two phases, its destinations are shown;
/// then the newest routes start the next change only if they differ.
pub proof fn lemma_change_completes(
    current: [Destination; 7],
    c: Change,
    latest: [Destination; 7],
    now: u64,
)
    requires
        now >= c.started + 2 * PHASE_MS,
    ensures
        spec_step(current, Some(c), latest, now).0 == c.to,
        (spec_step(current, Some(c), latest, now).1 is None) == (c.to == latest),
{
}

} // verus!
