//! Display-only first-person Rubik companion. Opening never changes a cubie.
use vstd::prelude::*;

verus! {

pub const SEEDS: usize = 27 + 54;
pub const PERIOD_MS: u64 = 7500;

pub struct Companion {
    visible: bool,
    held: bool,
    started: u64,
}

impl Default for Companion {
    fn default() -> (c: Self)
        ensures
            !c.shown(),
            !c.key_held(),
            c.started_at() == 0,
    {
        Companion { visible: false, held: false, started: 0 }
    }
}

impl Companion {
    pub closed spec fn shown(&self) -> bool {
        self.visible
    }

    pub closed spec fn key_held(&self) -> bool {
        self.held
    }

    pub closed spec fn started_at(&self) -> u64 {
        self.started
    }

    /// A rising edge of the key inside a world toggles the companion and
    /// restarts its pulse.
    pub fn key(&mut self, held: bool, in_world: bool, now: u64)
        ensures
            final(self).key_held() == held,
            held && !old(self).key_held() && in_world ==> final(self).shown() == !old(
                self,
            ).shown() && final(self).started_at() == now,
            !(held && !old(self).key_held() && in_world) ==> final(self).shown() == old(
                self,
            ).shown() && final(self).started_at() == old(self).started_at(),
    {
        if held && !self.held && in_world {
            self.visible = !self.visible;
            self.started = now;
        }
        self.held = held;
    }

    pub fn visible(&self, in_world: bool) -> (v: bool)
        ensures
            v == (in_world && self.shown()),
    {
        in_world && self.visible
    }

    /// Milliseconds into the present pulse period.
    pub fn pulse_ms(&self, now: u64) -> (t: u64)
        ensures
            t == (if now >= self.started_at() {
                now - self.started_at()
            } else {
                0
            }) % (PERIOD_MS as int),
            t < PERIOD_MS,
    {
        now.saturating_sub(self.started) % PERIOD_MS
    }
}

} // verus!
