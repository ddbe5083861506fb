//! The asset carousel: five scrolling asset slots plus two fixed previews of
//! the neighbouring groups, all under one reveal budget. This module holds
//! the navigation (groups, selection, pending wheel steps, slot rotation)
//! and the admission order; poses, growth curves and the travelling frame
//! are float geometry done by the caller.
use crate::reveals::{blank, elapsed, resized, spec_admit, spec_credit, spec_unseen, Reveal, Seed};
use vstd::prelude::*;

verus! {

pub const SLIDE_MS: u64 = 333;
pub const FRAME_CYCLE_MS: u64 = 4000;
/// RGB palette index (9 bits), translucency marker, opacity class, showcase class.
pub const FLAGS: u32 = 24576 | 512;
pub const PALETTE_MATERIAL: u32 = 1 << 12;
/// The scrolling row: slots 0..5, the selection in slot 2.
pub const ROW_SLOTS: usize = 5;
/// The row and the previews of the groups above (slot 5) and below (slot 6).
pub const SLOT_COUNT: usize = 7;
/// The largest pending wheel step, either way.
pub const MAX_PENDING: i32 = 32;

/// One drawn asset slot: the asset it shows, its reveal key (its range of
/// seeds) and the row position it slides from.
#[derive(Clone, Copy, Debug, PartialEq, Eq, Structural)]
pub struct Slot {
    pub asset: usize,
    pub key: usize,
    pub from: i32,
}

/// A cube admitted this frame: its slot, its index in the slot's asset and
/// its reveal seed.
#[derive(Clone, Copy, Debug, PartialEq, Eq, Structural)]
pub struct Admitted {
    pub slot: usize,
    pub cube: usize,
    pub seed: usize,
}

pub open spec fn spec_signum(v: int) -> int {
    if v > 0 {
        1
    } else if v < 0 {
        -1
    } else {
        0
    }
}

/// `v` wrapped into `0..n` (Euclidean remainder).
pub open spec fn wrap(v: int, n: int) -> int {
    v % n
}

fn wrap_index(v: i64, n: usize) -> (r: usize)
    requires
        0 < n <= i32::MAX,
        i64::MIN < v,
    ensures
        r == wrap(v as int, n as int),
        r < n,
{
    let m = n as i64;
    if v >= 0 {
        (v % m) as usize
    } else {
        let k = (-v) % m;
        proof {
            lemma_wrap_negative(v as int, m as int, k as int);
        }
        if k == 0 {
            0
        } else {
            (m - k) as usize
        }
    }
}

proof fn lemma_wrap_negative(v: int, m: int, k: int)
    requires
        v < 0,
        m > 0,
        k == (-v) % m,
    ensures
        v % m == if k == 0 {
            0
        } else {
            m - k
        },
{
    let q = (-v) / m;
    assert(-v == q * m + k) by (nonlinear_arith)
        requires
            m > 0,
            q == (-v) / m,
            k == (-v) % m,
    ;
    if k == 0 {
        assert(v == (-q) * m + 0) by (nonlinear_arith)
            requires
                -v == q * m + k,
                k == 0,
        ;
        vstd::arithmetic::div_mod::lemma_fundamental_div_mod_converse(v, m, -q, 0);
    } else {
        assert(v == (-q - 1) * m + (m - k)) by (nonlinear_arith)
            requires
                -v == q * m + k,
        ;
        vstd::arithmetic::div_mod::lemma_fundamental_div_mod_converse(v, m, -q - 1, m - k);
    }
}

pub struct Carousel {
    pub groups: Vec<Vec<usize>>,
    pub source_count: usize,
    pub palette_len: usize,
    pub stride: usize,
    pub group: usize,
    pub selected: usize,
    pub slots: Vec<Slot>,
    pub reveal: Reveal,
    pub slide_start: Option<u64>,
    pub pending: i32,
    pub held_keys: u8,
}

impl Carousel {
    /// The asset ids of each exported group.
    pub open spec fn group_ids(&self) -> Seq<Seq<usize>> {
        self.groups@.map_values(|g: Vec<usize>| g@)
    }

    /// How many assets come from sources; the Key7 palette follows them.
    pub open spec fn sources(&self) -> int {
        self.source_count as int
    }

    /// How many cubes the Key7 group shows.
    pub open spec fn palette(&self) -> int {
        self.palette_len as int
    }

    /// The reveal seeds of one slot.
    pub open spec fn seed_stride(&self) -> int {
        self.stride as int
    }

    /// Wheel steps still to scroll, signed.
    pub open spec fn pending_steps(&self) -> int {
        self.pending as int
    }

    /// The movement keys held on the last call of `key_input`.
    pub open spec fn held(&self) -> u8 {
        self.held_keys
    }

    /// The exported groups, then the Key7 group.
    pub open spec fn spec_group_count(&self) -> int {
        self.group_ids().len() + 1int
    }

    pub open spec fn spec_group_len(&self, g: int) -> int {
        if g == self.group_ids().len() {
            self.palette()
        } else {
            self.group_ids()[g].len() as int
        }
    }

    /// The asset at `index` (wrapped) of group `g`.
    pub open spec fn spec_asset_of(&self, g: int, index: int) -> int {
        if g == self.group_ids().len() {
            self.sources() + wrap(index, self.palette())
        } else {
            self.group_ids()[g][wrap(index, self.group_ids()[g].len() as int)] as int
        }
    }

    /// The asset `offset` places from the selection, in the current group.
    pub open spec fn spec_asset_at(&self, offset: int) -> int {
        self.spec_asset_of(self.group as int, self.selected + offset)
    }

    pub open spec fn spec_adjacent(&self, direction: int) -> int {
        wrap(self.group + direction, self.spec_group_count())
    }

    /// Sizes fit the index arithmetic, every group is non-empty and names
    /// a source, the selection lies in its group, and the slots, once
    /// chosen, are the row (reveal keys 0..5, each once) and the two
    /// previews (keys 5 and 6), each with one seed range.
    pub open spec fn wf(&self) -> bool {
        &&& self.spec_group_count() <= i32::MAX
        &&& 0 < self.palette() <= i32::MAX
        &&& self.sources() + self.palette() <= usize::MAX
        &&& SLOT_COUNT * self.seed_stride() <= usize::MAX
        &&& forall|g: int|
            0 <= g < self.group_ids().len() ==> 0 < #[trigger] self.group_ids()[g].len() <= i32::MAX
        &&& forall|g: int, i: int|
            0 <= g < self.group_ids().len() && 0 <= i < self.group_ids()[g].len() ==> #[trigger] self.group_ids()[g][i]
                < self.sources()
        &&& self.group < self.spec_group_count()
        &&& self.selected < self.spec_group_len(self.group as int)
        &&& -MAX_PENDING <= self.pending_steps() <= MAX_PENDING
        &&& self.reveal.wf()
        &&& self.slots@.len() == 0 || self.slots@.len() == SLOT_COUNT
        &&& self.slots@.len() == SLOT_COUNT ==> self.slots_ok()
    }

    pub open spec fn slots_ok(&self) -> bool {
        &&& self.reveal.seeds().len() == SLOT_COUNT * self.seed_stride()
        &&& forall|i: int| 0 <= i < ROW_SLOTS ==> #[trigger] self.slots@[i].key < ROW_SLOTS
        &&& forall|i: int, j: int|
            0 <= i < j < ROW_SLOTS ==> #[trigger] self.slots@[i].key != #[trigger] self.slots@[j].key
        &&& self.slots@[5].key == 5
        &&& self.slots@[6].key == 6
        &&& forall|i: int|
            0 <= i < SLOT_COUNT ==> #[trigger] self.slots@[i].asset < self.sources() + self.palette()
    }

    /// A carousel over `groups` of source assets (each non-empty), the Key7
    /// palette of `palette_len` cubes and `sources`, whose headers give the
    /// seed stride: the largest cube count among them (one with no sources).
    pub fn new(groups: Vec<Vec<usize>>, sources: &[Vec<u8>], palette_len: usize) -> (c: Self)
        requires
            groups@.len() < i32::MAX,
            0 < palette_len <= i32::MAX,
            sources@.len() + palette_len <= usize::MAX,
            forall|i: int| 0 <= i < sources@.len() ==> #[trigger] sources@[i]@.len() >= 10,
            forall|g: int| 0 <= g < groups@.len() ==> 0 < #[trigger] groups@[g]@.len() <= i32::MAX,
            forall|g: int, i: int|
                0 <= g < groups@.len() && 0 <= i < groups@[g]@.len() ==> #[trigger] groups@[g]@[i]
                    < sources@.len(),
        ensures
            c.wf(),
            c.group_ids() == groups@.map_values(|g: Vec<usize>| g@),
            c.sources() == sources@.len(),
            c.palette() == palette_len,
            c.seed_stride() == stride_of(sources@),
            c.group == 0,
            c.selected == 0,
            c.slots@.len() == 0,
            c.slide_start is None,
            c.pending_steps() == 0,
            c.held() == 0,
            c.reveal.seeds().len() == 0,
    {
        let mut stride: usize = 0;
        let mut i: usize = 0;
        while i < sources.len()
            invariant
                i <= sources@.len(),
                forall|k: int| 0 <= k < sources@.len() ==> #[trigger] sources@[k]@.len() >= 10,
                stride == stride_upto(sources@, i as int),
            decreases sources.len() - i,
        {
            let h = header_count(&sources[i]);
            if h > stride {
                stride = h;
            }
            i = i + 1;
        }
        if sources.len() == 0 {
            stride = 1;
        }
        let c = Carousel {
            groups,
            source_count: sources.len(),
            palette_len,
            stride,
            group: 0,
            selected: 0,
            slots: Vec::new(),
            reveal: Reveal::new(),
            slide_start: None,
            pending: 0,
            held_keys: 0,
        };
        proof {
            assert(c.group_ids() =~= groups@.map_values(|g: Vec<usize>| g@));
            lemma_stride_bound(sources@, sources@.len() as int);
        }
        c
    }

    pub fn group_count(&self) -> (n: usize)
        requires
            self.wf(),
        ensures
            n == self.spec_group_count(),
    {
        self.groups.len() + 1
    }

    fn len_of(&self, g: usize) -> (n: usize)
        requires
            self.wf(),
            g < self.spec_group_count(),
        ensures
            n == self.spec_group_len(g as int),
            0 < n <= i32::MAX,
    {
        if g == self.groups.len() {
            self.palette_len
        } else {
            proof {
                assert(self.group_ids()[g as int] == self.groups@[g as int]@);
            }
            self.groups[g].len()
        }
    }

    /// The number of assets in the current group.
    pub fn group_len(&self) -> (n: usize)
        requires
            self.wf(),
        ensures
            n == self.spec_group_len(self.group as int),
    {
        self.len_of(self.group)
    }

    fn group_asset_at(&self, g: usize, index: i64) -> (a: usize)
        requires
            self.wf(),
            g < self.spec_group_count(),
            i64::MIN < index,
        ensures
            a == self.spec_asset_of(g as int, index as int),
            a < self.sources() + self.palette(),
    {
        if g == self.groups.len() {
            self.source_count + wrap_index(index, self.palette_len)
        } else {
            proof {
                assert(self.group_ids()[g as int] == self.groups@[g as int]@);
            }
            let ids = &self.groups[g];
            let at = wrap_index(index, ids.len());
            proof {
                assert(self.group_ids()[g as int][at as int] < self.sources());
            }
            ids[at]
        }
    }

    fn asset_at(&self, offset: i64) -> (a: usize)
        requires
            self.wf(),
            -8 <= offset <= 8,
        ensures
            a == self.spec_asset_at(offset as int),
            a < self.sources() + self.palette(),
    {
        self.group_asset_at(self.group, self.selected as i64 + offset)
    }

    /// The selected asset.
    pub fn selected_id(&self) -> (a: usize)
        requires
            self.wf(),
        ensures
            a == self.spec_asset_at(0),
    {
        self.asset_at(0)
    }

    /// The group `direction` steps away, wrapping.
    pub fn adjacent_group(&self, direction: i32) -> (g: usize)
        requires
            self.wf(),
        ensures
            g == self.spec_adjacent(direction as int),
            g < self.spec_group_count(),
    {
        let n = self.groups.len() + 1;
        wrap_index(self.group as i64 + direction as i64, n)
    }

    /// Queue one wheel step (by the sign of `step`), at most 32 either way.
    pub fn wheel(&mut self, step: i32)
        requires
            old(self).wf(),
        ensures
            final(self).wf(),
            final(self).pending_steps() == {
                let p = old(self).pending_steps() + spec_signum(step as int);
                if p < -MAX_PENDING {
                    -MAX_PENDING as int
                } else if p > MAX_PENDING {
                    MAX_PENDING as int
                } else {
                    p
                }
            },
            final(self).group == old(self).group,
            final(self).selected == old(self).selected,
            final(self).slots == old(self).slots,
            final(self).slide_start == old(self).slide_start,
            final(self).held() == old(self).held(),
            final(self).reveal == old(self).reveal,
            final(self).same_layout(*old(self)),
    {
        let s: i32 = if step > 0 {
            1
        } else if step < 0 {
            -1
        } else {
            0
        };
        let p = self.pending + s;
        self.pending = if p < -MAX_PENDING {
            -MAX_PENDING
        } else if p > MAX_PENDING {
            MAX_PENDING
        } else {
            p
        };
    }

    /// Slot `i` as a fresh selection lays it out: the row around the
    /// selection, then the first assets of the groups above and below.
    pub open spec fn fresh_slot(&self, i: int) -> Slot {
        if i < ROW_SLOTS {
            Slot { asset: self.spec_asset_at(i - 2) as usize, key: i as usize, from: (i - 2) as i32 }
        } else if i == 5 {
            Slot { asset: self.spec_asset_of(self.spec_adjacent(1), 0) as usize, key: 5, from: 0 }
        } else {
            Slot { asset: self.spec_asset_of(self.spec_adjacent(-1), 0) as usize, key: 6, from: 0 }
        }
    }

    /// Select item `selected` of group `group` (both wrapped): the row and
    /// previews are laid out afresh, pending steps are dropped and every
    /// seed is hidden again.
    pub fn select_item(&mut self, group: usize, selected: usize)
        requires
            old(self).wf(),
        ensures
            final(self).wf(),
            final(self).same_layout(*old(self)),
            final(self).group == group as int % old(self).spec_group_count(),
            final(self).selected == selected as int % final(self).spec_group_len(final(self).group as int),
            final(self).pending_steps() == 0,
            final(self).slide_start is None,
            final(self).held() == old(self).held(),
            final(self).slots@ == Seq::new(SLOT_COUNT as nat, |i: int| final(self).fresh_slot(i)),
            final(self).reveal.seeds() == Seq::new(
                (SLOT_COUNT * old(self).seed_stride()) as nat,
                |i: int| blank(),
            ),
            final(self).reveal.last_frame() is None,
            final(self).reveal.start_credit() == 0,
            final(self).reveal.clock() == old(self).reveal.clock(),
    {
        let g = group % self.group_count();
        let n = self.len_of(g);
        self.group = g;
        self.selected = selected % n;
        self.pending = 0;
        self.slide_start = None;
        let mut slots: Vec<Slot> = Vec::new();
        let mut i: usize = 0;
        while i < ROW_SLOTS
            invariant
                self.wf(),
                i <= ROW_SLOTS,
                slots@.len() == i,
                forall|k: int| 0 <= k < i ==> #[trigger] slots@[k] == self.fresh_slot(k),
            decreases ROW_SLOTS - i,
        {
            let asset = self.asset_at(i as i64 - 2);
            slots.push(Slot { asset, key: i, from: i as i32 - 2 });
            i = i + 1;
        }
        let above = self.group_asset_at(self.adjacent_group(1), 0);
        slots.push(Slot { asset: above, key: 5, from: 0 });
        let below = self.group_asset_at(self.adjacent_group(-1), 0);
        slots.push(Slot { asset: below, key: 6, from: 0 });
        self.slots = slots;
        self.reveal.reset();
        self.reveal.append(SLOT_COUNT * self.stride);
        proof {
            assert(self.slots@ =~= Seq::new(SLOT_COUNT as nat, |i: int| self.fresh_slot(i)));
            assert(self.reveal.seeds() =~= Seq::new(
                (SLOT_COUNT * self.seed_stride()) as nat,
                |i: int| blank(),
            ));
        }
    }

    /// Select the first item of `group` (wrapped).
    pub fn select_group(&mut self, group: usize)
        requires
            old(self).wf(),
        ensures
            final(self).wf(),
            final(self).same_layout(*old(self)),
            final(self).group == group as int % old(self).spec_group_count(),
            final(self).selected == 0,
            final(self).pending_steps() == 0,
            final(self).slide_start is None,
            final(self).held() == old(self).held(),
            final(self).slots@ == Seq::new(SLOT_COUNT as nat, |i: int| final(self).fresh_slot(i)),
            final(self).reveal.seeds() == Seq::new(
                (SLOT_COUNT * old(self).seed_stride()) as nat,
                |i: int| blank(),
            ),
            final(self).reveal.last_frame() is None,
            final(self).reveal.start_credit() == 0,
            final(self).reveal.clock() == old(self).reveal.clock(),
    {
        self.select_item(group, 0);
    }

    /// The world wheel picks the next or previous item at once, wrapping
    /// within the group.
    pub fn cycle_selection(&mut self, wheel: i16)
        requires
            old(self).wf(),
        ensures
            final(self).wf(),
            final(self).same_layout(*old(self)),
            final(self).group == old(self).group,
            final(self).selected == wrap(
                old(self).selected - spec_signum(wheel as int),
                old(self).spec_group_len(old(self).group as int),
            ),
            final(self).pending_steps() == 0,
            final(self).slide_start is None,
            final(self).held() == old(self).held(),
            final(self).slots@ == Seq::new(SLOT_COUNT as nat, |i: int| final(self).fresh_slot(i)),
            final(self).reveal.seeds() == Seq::new(
                (SLOT_COUNT * old(self).seed_stride()) as nat,
                |i: int| blank(),
            ),
            final(self).reveal.last_frame() is None,
            final(self).reveal.start_credit() == 0,
            final(self).reveal.clock() == old(self).reveal.clock(),
    {
        let s: i64 = if wheel > 0 {
            1
        } else if wheel < 0 {
            -1
        } else {
            0
        };
        let n = self.group_len();
        let selected = wrap_index(self.selected as i64 - s, n);
        proof {
            vstd::arithmetic::div_mod::lemma_small_mod(self.group as nat, self.spec_group_count() as nat);
            vstd::arithmetic::div_mod::lemma_small_mod(selected as nat, n as nat);
        }
        self.select_item(self.group, selected);
    }

    /// The row slot that moves into row position `i` on a step of `d`:
    /// the row turns left for a step forward and right for a step back.
    pub open spec fn source_index(d: int, i: int) -> int {
        if d > 0 {
            if i == 4 {
                0
            } else {
                i + 1
            }
        } else {
            if i == 0 {
                4
            } else {
                i - 1
            }
        }
    }

    /// The row position that receives a new asset on a step of `d`.
    pub open spec fn incoming(d: int) -> int {
        if d > 0 {
            4
        } else {
            0
        }
    }

    /// The slots after a step of `d`: the row turns, the slot that wrapped
    /// around shows the asset now two places from the selection, every row
    /// slot slides from one place back, and the previews stay.
    pub open spec fn stepped_slots(&self, d: int) -> Seq<Slot> {
        let sel = wrap(self.selected + d, self.spec_group_len(self.group as int));
        Seq::new(
            SLOT_COUNT as nat,
            |i: int|
                if i >= ROW_SLOTS {
                    self.slots@[i]
                } else {
                    let moved = self.slots@[Self::source_index(d, i)];
                    Slot {
                        asset: if i == Self::incoming(d) {
                            self.spec_asset_of(self.group as int, sel + Self::incoming(d) - 2) as usize
                        } else {
                            moved.asset
                        },
                        key: moved.key,
                        from: (i - 2 + d) as i32,
                    }
                },
        )
    }

    /// Whether the running slide is over at `now`.
    pub open spec fn slide_over(&self, now: u64) -> bool {
        self.slide_start matches Some(start) && elapsed(now, start) >= SLIDE_MS
    }

    /// Whether a frame at `now` takes a pending step.
    pub open spec fn steps_at(&self, now: u64) -> bool {
        (self.slide_start is None || self.slide_over(now)) && self.pending != 0
    }

    /// Start a frame's navigation at `now`: a slide that has run its time
    /// ends, and with no slide running one pending step is taken. The step
    /// turns the row, moves the selection and hides the seeds of the slot
    /// that wrapped around.
    pub fn advance(&mut self, now: u64)
        requires
            old(self).wf(),
            old(self).slots@.len() == SLOT_COUNT,
        ensures
            final(self).wf(),
            final(self).same_layout(*old(self)),
            final(self).slots@.len() == SLOT_COUNT,
            final(self).group == old(self).group,
            final(self).held() == old(self).held(),
            final(self).reveal.clock() == old(self).reveal.clock(),
            final(self).reveal.last_frame() == old(self).reveal.last_frame(),
            final(self).reveal.start_credit() == old(self).reveal.start_credit(),
            !old(self).steps_at(now) ==> {
                &&& final(self).selected == old(self).selected
                &&& final(self).pending == old(self).pending
                &&& final(self).slots == old(self).slots
                &&& final(self).reveal.seeds() == old(self).reveal.seeds()
                &&& final(self).slide_start == if old(self).slide_over(now) {
                    None
                } else {
                    old(self).slide_start
                }
            },
            old(self).steps_at(now) ==> {
                let d = spec_signum(old(self).pending as int);
                let key = old(self).slots@[Self::source_index(d, Self::incoming(d))].key as int;
                let stride = old(self).seed_stride();
                &&& final(self).selected == wrap(
                    old(self).selected + d,
                    old(self).spec_group_len(old(self).group as int),
                )
                &&& final(self).pending == old(self).pending - d
                &&& final(self).slots@ == old(self).stepped_slots(d)
                &&& final(self).slide_start == Some(now)
                &&& final(self).reveal.seeds() == Seq::new(
                    old(self).reveal.seeds().len(),
                    |i: int|
                        if key * stride <= i < key * stride + stride {
                            blank()
                        } else {
                            old(self).reveal.seeds()[i]
                        },
                )
            },
    {
        let over = match self.slide_start {
            Some(start) => now.saturating_sub(start) >= SLIDE_MS,
            None => false,
        };
        if over {
            self.slide_start = None;
        }
        if self.slide_start.is_none() && self.pending != 0 {
            let d: i32 = if self.pending > 0 {
                1
            } else {
                -1
            };
            self.pending = self.pending - d;
            self.step(d, now);
        }
    }

    fn step(&mut self, d: i32, now: u64)
        requires
            old(self).wf(),
            old(self).slots@.len() == SLOT_COUNT,
            d == 1 || d == -1,
        ensures
            final(self).wf(),
            final(self).same_layout(*old(self)),
            final(self).slots@.len() == SLOT_COUNT,
            final(self).group == old(self).group,
            final(self).held() == old(self).held(),
            final(self).pending == old(self).pending,
            final(self).reveal.clock() == old(self).reveal.clock(),
            final(self).reveal.last_frame() == old(self).reveal.last_frame(),
            final(self).reveal.start_credit() == old(self).reveal.start_credit(),
            ({
                let key = old(self).slots@[Self::source_index(d as int, Self::incoming(d as int))].key as int;
                let stride = old(self).seed_stride();
                &&& final(self).selected == wrap(
                    old(self).selected + d,
                    old(self).spec_group_len(old(self).group as int),
                )
                &&& final(self).slots@ == old(self).stepped_slots(d as int)
                &&& final(self).slide_start == Some(now)
                &&& final(self).reveal.seeds() == Seq::new(
                    old(self).reveal.seeds().len(),
                    |i: int|
                        if key * stride <= i < key * stride + stride {
                            blank()
                        } else {
                            old(self).reveal.seeds()[i]
                        },
                )
            }),
    {
        let ghost before = *self;
        let n = self.group_len();
        self.selected = wrap_index(self.selected as i64 + d as i64, n);
        let incoming: usize = if d > 0 {
            4
        } else {
            0
        };
        let mut slots: Vec<Slot> = Vec::new();
        let mut i: usize = 0;
        while i < SLOT_COUNT
            invariant
                self.wf(),
                before.wf(),
                before.slots@.len() == SLOT_COUNT,
                self.slots == before.slots,
                self.group == before.group,
                self.same_layout(before),
                self.selected == wrap(before.selected + d, before.spec_group_len(before.group as int)),
                d == 1 || d == -1,
                incoming == Self::incoming(d as int),
                i <= SLOT_COUNT,
                slots@.len() == i,
                forall|k: int| 0 <= k < i ==> #[trigger] slots@[k] == before.stepped_slots(d as int)[k],
            decreases SLOT_COUNT - i,
        {
            let slot = if i >= ROW_SLOTS {
                self.slots[i]
            } else {
                let from_index: usize = if d > 0 {
                    if i == 4 {
                        0
                    } else {
                        i + 1
                    }
                } else {
                    if i == 0 {
                        4
                    } else {
                        i - 1
                    }
                };
                let moved = self.slots[from_index];
                let asset = if i == incoming {
                    self.asset_at(incoming as i64 - 2)
                } else {
                    moved.asset
                };
                Slot { asset, key: moved.key, from: i as i32 - 2 + d }
            };
            slots.push(slot);
            i = i + 1;
        }
        let key = slots[incoming].key;
        proof {
            assert(slots@ =~= before.stepped_slots(d as int));
            assert(key < ROW_SLOTS);
            assert(key * self.stride + self.stride <= SLOT_COUNT * self.stride) by (nonlinear_arith)
                requires
                    key < ROW_SLOTS,
            ;
        }
        let start = key * self.stride;
        self.reveal.reset_range(start..start + self.stride);
        self.slots = slots;
        self.slide_start = Some(now);
        proof {
            assert forall|a: int, b: int|
                0 <= a < b < ROW_SLOTS implies #[trigger] self.slots@[a].key != #[trigger] self.slots@[b].key by {
                assert(self.slots@[a].key == before.slots@[Self::source_index(d as int, a)].key);
                assert(self.slots@[b].key == before.slots@[Self::source_index(d as int, b)].key);
                let sa = Self::source_index(d as int, a);
                let sb = Self::source_index(d as int, b);
                if sa < sb {
                    assert(before.slots@[sa].key != before.slots@[sb].key);
                } else {
                    assert(before.slots@[sb].key != before.slots@[sa].key);
                }
            }
            assert forall|a: int| 0 <= a < ROW_SLOTS implies #[trigger] self.slots@[a].key < ROW_SLOTS by {
                assert(self.slots@[a].key == before.slots@[Self::source_index(d as int, a)].key);
            }
        }
    }

    /// Run one frame's admission at `now`: the reveal starts the frame,
    /// every candidate cube is offered in order, and the frame closes. The
    /// result lists the cubes to draw, in that order.
    pub fn admit_frame(&mut self, now: u64, counts: &[usize]) -> (drawn: Vec<Admitted>)
        requires
            old(self).wf(),
            old(self).slots@.len() == SLOT_COUNT,
            counts@.len() == old(self).sources() + old(self).palette(),
        ensures
            final(self).wf(),
            final(self).same_layout(*old(self)),
            final(self).group == old(self).group,
            final(self).selected == old(self).selected,
            final(self).slots == old(self).slots,
            final(self).slide_start == old(self).slide_start,
            final(self).pending == old(self).pending,
            final(self).held() == old(self).held(),
            ({
                let old_seeds = old(self).reveal.seeds();
                let seeds0 = Seq::new(old_seeds.len(), |i: int| Seed { seen: false, ..old_seeds[i] });
                let previous = match old(self).reveal.last_frame() {
                    Some(p) => p,
                    None => now,
                };
                let credit0 = spec_credit(old(self).reveal.start_credit(), elapsed(now, previous) as u64);
                let (seeds1, credit1, shown) = admission(
                    seeds0,
                    now,
                    credit0,
                    candidates(
                        old(self).slots@,
                        counts@,
                        old(self).seed_stride(),
                        SLOT_COUNT * old(self).seed_stride(),
                    ),
                );
                &&& final(self).reveal.seeds() == Seq::new(
                    old_seeds.len(),
                    |i: int| spec_unseen(seeds1[i], now),
                )
                &&& final(self).reveal.start_credit() == credit1
                &&& final(self).reveal.clock() == now
                &&& final(self).reveal.last_frame() == Some(now)
                &&& drawn@ == shown
            }),
    {
        let ghost before = *self;
        let total = SLOT_COUNT * self.stride;
        self.reveal.begin_frame(now, total);
        let ghost seeds0 = self.reveal.seeds();
        let ghost credit0 = self.reveal.start_credit();
        proof {
            assert(seeds0 =~= Seq::new(
                before.reveal.seeds().len(),
                |i: int| Seed { seen: false, ..before.reveal.seeds()[i] },
            ));
        }
        let mut drawn: Vec<Admitted> = Vec::new();
        let mut j: usize = 0;
        while j < self.stride
            invariant
                self.wf(),
                self.slots@.len() == SLOT_COUNT,
                self.slots == before.slots,
                self.same_layout(before),
                self.group == before.group,
                self.selected == before.selected,
                self.slide_start == before.slide_start,
                self.pending == before.pending,
                self.held_keys == before.held_keys,
                counts@.len() == self.sources() + self.palette(),
                self.reveal.clock() == now,
                self.reveal.last_frame() == Some(now),
                self.reveal.seeds().len() == SLOT_COUNT * self.stride,
                j <= self.stride,
                (self.reveal.seeds(), self.reveal.start_credit(), drawn@) == admission(
                    seeds0,
                    now,
                    credit0,
                    candidates(self.slots@, counts@, self.stride as int, 7 * j),
                ),
            decreases self.stride - j,
        {
            let mut k: usize = 0;
            while k < SLOT_COUNT
                invariant
                    self.wf(),
                    self.slots@.len() == SLOT_COUNT,
                    self.slots == before.slots,
                    self.same_layout(before),
                    self.group == before.group,
                    self.selected == before.selected,
                    self.slide_start == before.slide_start,
                    self.pending == before.pending,
                    self.held_keys == before.held_keys,
                    counts@.len() == self.sources() + self.palette(),
                    self.reveal.clock() == now,
                    self.reveal.last_frame() == Some(now),
                    self.reveal.seeds().len() == SLOT_COUNT * self.stride,
                    j < self.stride,
                    k <= SLOT_COUNT,
                    (self.reveal.seeds(), self.reveal.start_credit(), drawn@) == admission(
                        seeds0,
                        now,
                        credit0,
                        candidates(self.slots@, counts@, self.stride as int, 7 * j + k),
                    ),
                decreases SLOT_COUNT - k,
            {
                let ghost n = 7 * j + k;
                proof {
                    vstd::arithmetic::div_mod::lemma_fundamental_div_mod_converse(n, 7, j as int, k as int);
                }
                let i = admission_slot_at(k);
                let slot = self.slots[i];
                let ghost cands = candidates(self.slots@, counts@, self.stride as int, n);
                if j < counts[slot.asset] {
                    proof {
                        assert(slot.key < SLOT_COUNT);
                        assert(slot.key * self.stride + j < SLOT_COUNT * self.stride) by (nonlinear_arith)
                            requires
                                slot.key < SLOT_COUNT,
                                j < self.stride,
                        ;
                    }
                    let id = slot.key * self.stride + j;
                    let c = Admitted { slot: i, cube: j, seed: id };
                    proof {
                        assert(candidates(self.slots@, counts@, self.stride as int, n + 1) == cands.push(c));
                        assert(cands.push(c).drop_last() =~= cands);
                    }
                    if self.reveal.admit_seed(id) {
                        drawn.push(c);
                    }
                } else {
                    proof {
                        assert(candidates(self.slots@, counts@, self.stride as int, n + 1) == cands);
                    }
                }
                k = k + 1;
            }
            j = j + 1;
        }
        self.reveal.end_frame();
        drawn
    }

    /// The row shows the assets around the selection: slot `i` holds the
    /// asset `i - 2` places from it.
    pub open spec fn row_shows_selection(&self) -> bool {
        forall|i: int| 0 <= i < ROW_SLOTS ==> #[trigger] self.slots@[i].asset == self.spec_asset_at(i - 2)
    }

    /// The groups, sources, palette and stride are those of `other`.
    pub open spec fn same_layout(&self, other: Self) -> bool {
        &&& self.group_ids() == other.group_ids()
        &&& self.sources() == other.sources()
        &&& self.palette() == other.palette()
        &&& self.seed_stride() == other.seed_stride()
    }

    /// A/D/W/S as bits 1, 2, 4 and 8, tracked outside the carousel too so
    /// that held movement keys select nothing on entry. A press gives the
    /// horizontal step (D minus A) and the vertical one (W minus S).
    pub fn key_input(&mut self, held: u8, active: bool) -> (r: (i32, i32))
        requires
            old(self).wf(),
        ensures
            final(self).wf(),
            final(self).held() == held,
            ({
                let pressed = held & !old(self).held();
                r == if !active {
                    (0i32, 0i32)
                } else {
                    (
                        ((if pressed & 2 != 0 { 1i32 } else { 0i32 }) - (if pressed & 1 != 0 { 1i32 } else { 0i32 })) as i32,
                        ((if pressed & 4 != 0 { 1i32 } else { 0i32 }) - (if pressed & 8 != 0 { 1i32 } else { 0i32 })) as i32,
                    )
                }
            }),
            final(self).group == old(self).group,
            final(self).selected == old(self).selected,
            final(self).slots == old(self).slots,
            final(self).slide_start == old(self).slide_start,
            final(self).pending_steps() == old(self).pending_steps(),
            final(self).reveal == old(self).reveal,
            final(self).same_layout(*old(self)),
    {
        let pressed = held & !self.held_keys;
        self.held_keys = held;
        if !active {
            return (0, 0);
        }
        let right: i32 = if pressed & 2 != 0 { 1 } else { 0 };
        let left: i32 = if pressed & 1 != 0 { 1 } else { 0 };
        let up: i32 = if pressed & 4 != 0 { 1 } else { 0 };
        let down: i32 = if pressed & 8 != 0 { 1 } else { 0 };
        (right - left, up - down)
    }
}

/// The order in which the slots share the admission budget: the selection,
/// the two previews, its neighbours, then the outer row slots, so that a
/// dense centre asset cannot starve either preview.
pub open spec fn admission_slot(k: int) -> int {
    if k == 0 {
        2
    } else if k == 1 {
        5
    } else if k == 2 {
        6
    } else if k == 3 {
        1
    } else if k == 4 {
        3
    } else if k == 5 {
        0
    } else {
        4
    }
}

fn admission_slot_at(k: usize) -> (i: usize)
    requires
        k < SLOT_COUNT,
    ensures
        i == admission_slot(k as int),
        i < SLOT_COUNT,
{
    if k == 0 {
        2
    } else if k == 1 {
        5
    } else if k == 2 {
        6
    } else if k == 3 {
        1
    } else if k == 4 {
        3
    } else if k == 5 {
        0
    } else {
        4
    }
}

/// The first `n` cubes offered for admission: cube `j` of every slot in
/// admission order, then cube `j + 1`, skipping slots whose asset has no
/// such cube. Each names its slot, its cube and its reveal seed.
pub open spec fn candidates(slots: Seq<Slot>, counts: Seq<usize>, stride: int, n: int) -> Seq<Admitted>
    decreases n,
{
    if n <= 0 {
        Seq::empty()
    } else {
        let earlier = candidates(slots, counts, stride, n - 1);
        let j = (n - 1) / 7;
        let i = admission_slot((n - 1) % 7);
        let slot = slots[i];
        if j < counts[slot.asset as int] {
            earlier.push(Admitted { slot: i as usize, cube: j as usize, seed: (slot.key * stride + j) as usize })
        } else {
            earlier
        }
    }
}

/// Offering `cands` in order to the reveal: the seeds, the credit left and
/// the cubes that are drawn.
pub open spec fn admission(seeds: Seq<Seed>, now: u64, credit: u64, cands: Seq<Admitted>) -> (
    Seq<Seed>,
    u64,
    Seq<Admitted>,
)
    decreases cands.len(),
{
    if cands.len() == 0 {
        (seeds, credit, Seq::empty())
    } else {
        let (s0, c0, d0) = admission(seeds, now, credit, cands.drop_last());
        let c = cands.last();
        let (seed, c1, drawn) = spec_admit(s0[c.seed as int], now, c0);
        (
            s0.update(c.seed as int, seed),
            c1,
            if drawn {
                d0.push(c)
            } else {
                d0
            },
        )
    }
}

proof fn lemma_wrap_shift(x: int, y: int, n: int)
    requires
        n > 0,
    ensures
        wrap(wrap(x, n) + y, n) == wrap(x + y, n),
{
    let w = x % n;
    vstd::arithmetic::div_mod::lemma_add_mod_noop(x, y, n);
    vstd::arithmetic::div_mod::lemma_add_mod_noop(w, y, n);
    vstd::arithmetic::div_mod::lemma_mod_twice(x, n);
}

/// Law: a step keeps the row around the selection. When the row shows the
/// assets around the selection, after a step of one either way each row
/// slot shows the asset `i - 2` places from the new selection.
pub proof fn lemma_step_keeps_row(c: Carousel, d: int)
    requires
        c.wf(),
        c.slots@.len() == SLOT_COUNT,
        c.row_shows_selection(),
        d == 1 || d == -1,
    ensures
        ({
            let sel = wrap(c.selected + d, c.spec_group_len(c.group as int));
            forall|i: int|
                0 <= i < ROW_SLOTS ==> #[trigger] c.stepped_slots(d)[i].asset == c.spec_asset_of(
                    c.group as int,
                    sel + i - 2,
                )
        }),
{
    let n = c.spec_group_len(c.group as int);
    let sel = wrap(c.selected + d, n);
    assert forall|i: int| 0 <= i < ROW_SLOTS implies #[trigger] c.stepped_slots(d)[i].asset
        == c.spec_asset_of(c.group as int, sel + i - 2) by {
        if i != Carousel::incoming(d) {
            let src = Carousel::source_index(d, i);
            assert(src == i + d);
            assert(c.slots@[src].asset == c.spec_asset_at(src - 2));
            lemma_wrap_shift(c.selected + d, i - 2, n);
            assert(c.selected + src - 2 == (c.selected + d) + (i - 2));
            assert(sel + i - 2 == wrap(c.selected + d, n) + (i - 2));
        }
    }
}

/// Law: the previews lead where W and S go. A fresh layout previews, above
/// and below the row, exactly the assets that selecting the group above
/// or below centres in the row; a step never changes the previews.
pub proof fn lemma_previews_lead_to_their_groups(c: Carousel, above: Carousel, below: Carousel, d: int)
    requires
        c.wf(),
        above.wf(),
        below.wf(),
        above.same_layout(c),
        below.same_layout(c),
        above.group == c.spec_adjacent(1),
        below.group == c.spec_adjacent(-1),
        above.selected == 0,
        below.selected == 0,
    ensures
        c.fresh_slot(5).asset == above.fresh_slot(2).asset,
        c.fresh_slot(6).asset == below.fresh_slot(2).asset,
        c.slots@.len() == SLOT_COUNT ==> c.stepped_slots(d)[5] == c.slots@[5] && c.stepped_slots(d)[6]
            == c.slots@[6],
{
}

/// The cube count in an asset header (bytes 8 and 9, little-endian).
pub open spec fn header_cubes(b: Seq<u8>) -> int {
    b[8] + 256 * b[9]
}

/// The largest header count among the first `n` sources (0 for none).
pub open spec fn stride_upto(s: Seq<Vec<u8>>, n: int) -> int
    decreases n,
{
    if n <= 0 {
        0
    } else {
        let rest = stride_upto(s, n - 1);
        let h = header_cubes(s[n - 1]@);
        if h > rest {
            h
        } else {
            rest
        }
    }
}

/// The seed stride: the largest cube count of any source, one without sources.
pub open spec fn stride_of(s: Seq<Vec<u8>>) -> int {
    if s.len() == 0 {
        1
    } else {
        stride_upto(s, s.len() as int)
    }
}

proof fn lemma_stride_bound(s: Seq<Vec<u8>>, n: int)
    ensures
        0 <= stride_upto(s, n) <= 65535,
    decreases n,
{
    if n > 0 {
        lemma_stride_bound(s, n - 1);
        if n - 1 < s.len() {
        }
        assert(header_cubes(s[n - 1]@) <= 65535) by {
            let b = s[n - 1]@;
            assert(b[8] <= 255 && b[9] <= 255);
        }
    }
}

fn header_count(b: &Vec<u8>) -> (h: usize)
    requires
        b@.len() >= 10,
    ensures
        h == header_cubes(b@),
{
    b[8] as usize + 256 * (b[9] as usize)
}

} // verus!
