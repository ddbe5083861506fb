//! Render-only platform replacement: far platforms are drawn as one hull
//! each, the nearest ones in full detail. Authored geometry still drives
//! walking, picking, portals and placement. This module keeps the item list
//! (which authored cubes and which hulls are drawn, and what each drawn item
//! stands for); which platforms are nearest, the hull cubes and their drift
//! are float geometry done by the caller.
use vstd::prelude::*;

verus! {

pub const ENABLED: bool = true;
/// How many of the nearest platforms keep their detail.
pub const DETAIL_PLATFORMS: usize = 2;

/// What one platform layout says of a world, as plain values: the
/// one-based platform of each decoded cube (zero: not part of a platform)
/// and the number of platform hulls.
pub struct Layout {
    pub owners: Vec<u8>,
    pub hulls: usize,
}

/// One drawn item: an authored cube or a platform hull.
#[derive(Clone, Copy, Debug, PartialEq, Eq, Structural)]
pub enum Item {
    Source(usize),
    Hull(usize),
}

/// The platform of cube `id`, one-based, or zero.
pub open spec fn owner_of(owners: Seq<u8>, id: int) -> int {
    if 0 <= id < owners.len() {
        owners[id] as int
    } else {
        0
    }
}

/// Whether platform `p` is one of the nearest.
pub open spec fn detailed(nearest: [usize; 2], p: int) -> bool {
    nearest[0] == p || nearest[1] == p
}

/// The first `n` authored cubes that stay: those of no platform and those
/// of the nearest platforms, in order.
pub open spec fn kept_sources(owners: Seq<u8>, nearest: [usize; 2], n: int) -> Seq<Item>
    decreases n,
{
    if n <= 0 {
        Seq::empty()
    } else {
        let earlier = kept_sources(owners, nearest, n - 1);
        let owner = owner_of(owners, n - 1);
        if owner == 0 || detailed(nearest, owner - 1) {
            earlier.push(Item::Source((n - 1) as usize))
        } else {
            earlier
        }
    }
}

/// The first `n` hulls that are drawn: those of the platforms not in detail.
pub open spec fn far_hulls(nearest: [usize; 2], n: int) -> Seq<Item>
    decreases n,
{
    if n <= 0 {
        Seq::empty()
    } else {
        let earlier = far_hulls(nearest, n - 1);
        if detailed(nearest, n - 1) {
            earlier
        } else {
            earlier.push(Item::Hull((n - 1) as usize))
        }
    }
}

/// The drawn items: the kept authored cubes, then the far hulls.
pub open spec fn spec_items(owners: Seq<u8>, hulls: int, nearest: [usize; 2], sources: int) -> Seq<Item> {
    kept_sources(owners, nearest, sources) + far_hulls(nearest, hulls)
}

proof fn lemma_far_hulls(nearest: [usize; 2], n: int, item: Item)
    requires
        n <= usize::MAX,
    ensures
        far_hulls(nearest, n).contains(item) == match item {
            Item::Hull(h) => h < n && !detailed(nearest, h as int),
            Item::Source(_) => false,
        },
    decreases n,
{
    if n > 0 {
        lemma_far_hulls(nearest, n - 1, item);
        let earlier = far_hulls(nearest, n - 1);
        if !detailed(nearest, n - 1) {
            let pushed = earlier.push(Item::Hull((n - 1) as usize));
            if pushed.contains(item) && item != Item::Hull((n - 1) as usize) {
                let k = choose|k: int| 0 <= k < pushed.len() && pushed[k] == item;
                assert(earlier[k] == item);
            }
            if earlier.contains(item) {
                let k = choose|k: int| 0 <= k < earlier.len() && earlier[k] == item;
                assert(pushed[k] == item);
            }
            assert(pushed[earlier.len() as int] == Item::Hull((n - 1) as usize));
        }
    }
}

proof fn lemma_kept_sources(owners: Seq<u8>, nearest: [usize; 2], n: int, item: Item)
    requires
        n <= usize::MAX,
    ensures
        kept_sources(owners, nearest, n).contains(item) == match item {
            Item::Source(s) => s < n && (owner_of(owners, s as int) == 0 || detailed(
                nearest,
                owner_of(owners, s as int) - 1,
            )),
            Item::Hull(_) => false,
        },
    decreases n,
{
    if n > 0 {
        lemma_kept_sources(owners, nearest, n - 1, item);
        let earlier = kept_sources(owners, nearest, n - 1);
        let owner = owner_of(owners, n - 1);
        if owner == 0 || detailed(nearest, owner - 1) {
            let pushed = earlier.push(Item::Source((n - 1) as usize));
            if pushed.contains(item) && item != Item::Source((n - 1) as usize) {
                let k = choose|k: int| 0 <= k < pushed.len() && pushed[k] == item;
                assert(earlier[k] == item);
            }
            if earlier.contains(item) {
                let k = choose|k: int| 0 <= k < earlier.len() && earlier[k] == item;
                assert(pushed[k] == item);
            }
            assert(pushed[earlier.len() as int] == Item::Source((n - 1) as usize));
        }
    }
}

/// Law: each platform is drawn once, in detail or as its hull. The hull of
/// platform `p` is drawn exactly when `p` is not among the nearest, and
/// each authored cube of `p` exactly when it is; cubes of no platform are
/// always drawn.
pub proof fn lemma_platform_drawn_once(
    owners: Seq<u8>,
    hulls: int,
    nearest: [usize; 2],
    sources: int,
    p: int,
    id: int,
)
    requires
        0 <= p < hulls <= usize::MAX,
        0 <= id < sources <= usize::MAX,
    ensures
        spec_items(owners, hulls, nearest, sources).contains(Item::Hull(p as usize)) == !detailed(nearest, p),
        owner_of(owners, id) == p + 1 ==> spec_items(owners, hulls, nearest, sources).contains(
            Item::Source(id as usize),
        ) == detailed(nearest, p),
        owner_of(owners, id) == 0 ==> spec_items(owners, hulls, nearest, sources).contains(
            Item::Source(id as usize),
        ),
{
    let kept = kept_sources(owners, nearest, sources);
    let far = far_hulls(nearest, hulls);
    let all = kept + far;
    assert forall|item: Item| #[trigger] all.contains(item) == (kept.contains(item) || far.contains(item)) by {
        if all.contains(item) {
            let k = choose|k: int| 0 <= k < all.len() && all[k] == item;
            if k < kept.len() {
                assert(kept[k] == item);
            } else {
                assert(far[k - kept.len()] == item);
            }
        }
        if kept.contains(item) {
            let k = choose|k: int| 0 <= k < kept.len() && kept[k] == item;
            assert(all[k] == item);
        }
        if far.contains(item) {
            let k = choose|k: int| 0 <= k < far.len() && far[k] == item;
            assert(all[kept.len() + k] == item);
        }
    }
    lemma_far_hulls(nearest, hulls, Item::Hull(p as usize));
    lemma_kept_sources(owners, nearest, sources, Item::Hull(p as usize));
    lemma_far_hulls(nearest, hulls, Item::Source(id as usize));
    lemma_kept_sources(owners, nearest, sources, Item::Source(id as usize));
}

pub struct PlatformView {
    pub items: Vec<Item>,
    pub layout: Option<Layout>,
    pub nearest: [usize; 2],
    pub source_count: usize,
}

/// Two layouts say the same.
pub open spec fn same_layout(a: Option<Layout>, b: Option<&Layout>) -> bool {
    match (a, b) {
        (None, None) => true,
        (Some(x), Some(y)) => x.owners@ == y.owners@ && x.hulls == y.hulls,
        _ => false,
    }
}

fn layouts_equal(a: &Option<Layout>, b: Option<&Layout>) -> (r: bool)
    ensures
        r == same_layout(*a, b),
{
    match (a, b) {
        (None, None) => true,
        (Some(x), Some(y)) => {
            if x.hulls != y.hulls || x.owners.len() != y.owners.len() {
                return false;
            }
            let mut i: usize = 0;
            while i < x.owners.len()
                invariant
                    *a == Some(*x),
                    b == Some(y),
                    x.hulls == y.hulls,
                    x.owners@.len() == y.owners@.len(),
                    i <= x.owners@.len(),
                    forall|k: int| 0 <= k < i ==> x.owners@[k] == y.owners@[k],
                decreases x.owners.len() - i,
            {
                if x.owners[i] != y.owners[i] {
                    proof {
                        assert(x.owners@[i as int] != y.owners@[i as int]);
                        assert(x.owners@ != y.owners@);
                    }
                    return false;
                }
                i = i + 1;
            }
            proof {
                assert(x.owners@ =~= y.owners@);
            }
            true
        },
        _ => false,
    }
}

fn copy_layout(l: &Layout) -> (c: Layout)
    ensures
        c.owners@ == l.owners@,
        c.hulls == l.hulls,
{
    let mut owners: Vec<u8> = Vec::new();
    let mut i: usize = 0;
    while i < l.owners.len()
        invariant
            i <= l.owners@.len(),
            owners@ == l.owners@.take(i as int),
        decreases l.owners.len() - i,
    {
        owners.push(l.owners[i]);
        i = i + 1;
        proof {
            assert(owners@ =~= l.owners@.take(i as int));
        }
    }
    proof {
        assert(l.owners@.take(l.owners@.len() as int) =~= l.owners@);
    }
    Layout { owners, hulls: l.hulls }
}

impl PlatformView {
    /// With a layout, the items are those of the layout, the nearest
    /// platforms and the source count that the view holds.
    pub open spec fn wf(&self) -> bool {
        match self.layout {
            Some(l) => self.items@ == spec_items(l.owners@, l.hulls as int, self.nearest, self.source_count as int),
            None => true,
        }
    }

    pub fn new() -> (v: Self)
        ensures
            v.wf(),
            v.items@.len() == 0,
            v.layout is None,
            v.nearest == [usize::MAX, usize::MAX],
            v.source_count == usize::MAX,
    {
        PlatformView { items: Vec::new(), layout: None, nearest: [usize::MAX, usize::MAX], source_count: usize::MAX }
    }

    /// Prepare a frame of a world with `sources` authored cubes, its platform
    /// `layout` and the `nearest` platforms: without a layout everything is
    /// drawn as authored; with one, the kept cubes and far hulls, rebuilt
    /// only when the layout, the nearest platforms or the count change.
    pub fn prepare(&mut self, layout: Option<&Layout>, nearest: [usize; 2], sources: usize)
        requires
            old(self).wf(),
        ensures
            final(self).wf(),
            same_layout(final(self).layout, layout),
            layout is None ==> final(self).source_count == usize::MAX && final(self).items == old(self).items,
            layout matches Some(l) ==> {
                &&& final(self).items@ == spec_items(l.owners@, l.hulls as int, nearest, sources as int)
                &&& final(self).nearest == nearest
                &&& final(self).source_count == sources
            },
    {
        match layout {
            None => {
                self.layout = None;
                self.source_count = usize::MAX;
            },
            Some(l) => {
                let changed = !layouts_equal(&self.layout, layout) || self.nearest[0] != nearest[0] || self.nearest[1] != nearest[1]
                    || self.source_count != sources;
                if changed {
                    let mut items: Vec<Item> = Vec::new();
                    let mut id: usize = 0;
                    while id < sources
                        invariant
                            id <= sources,
                            items@ == kept_sources(l.owners@, nearest, id as int),
                        decreases sources - id,
                    {
                        let owner: u8 = if id < l.owners.len() {
                            l.owners[id]
                        } else {
                            0
                        };
                        if owner == 0 || nearest[0] == (owner - 1) as usize || nearest[1] == (owner - 1) as usize {
                            items.push(Item::Source(id));
                        }
                        id = id + 1;
                    }
                    let ghost kept = items@;
                    let mut h: usize = 0;
                    while h < l.hulls
                        invariant
                            h <= l.hulls,
                            items@ == kept + far_hulls(nearest, h as int),
                        decreases l.hulls - h,
                    {
                        if nearest[0] != h && nearest[1] != h {
                            items.push(Item::Hull(h));
                        }
                        h = h + 1;
                        proof {
                            assert(items@ =~= kept + far_hulls(nearest, h as int));
                        }
                    }
                    self.items = items;
                    self.nearest = nearest;
                    self.source_count = sources;
                    self.layout = Some(copy_layout(l));
                } else {
                    proof {
                        assert(self.nearest =~= nearest);
                    }
                }
            },
        }
    }

    /// The number of platforms and of those drawn in detail, with a layout.
    pub fn counts(&self) -> (r: Option<(usize, usize)>)
        ensures
            r == match self.layout {
                Some(l) => Some((l.hulls, if l.hulls < DETAIL_PLATFORMS { l.hulls } else { DETAIL_PLATFORMS })),
                None => None,
            },
    {
        match &self.layout {
            Some(l) => Some((l.hulls, if l.hulls < DETAIL_PLATFORMS { l.hulls } else { DETAIL_PLATFORMS })),
            None => None,
        }
    }

    /// The authored cube that drawn item `id` is, if any.
    pub fn source_id(&self, id: usize) -> (r: Option<usize>)
        requires
            self.layout is Some ==> id < self.items@.len(),
        ensures
            r == match self.layout {
                None => Some(id),
                Some(_) => match self.items@[id as int] {
                    Item::Source(s) => Some(s),
                    Item::Hull(_) => None,
                },
            },
    {
        if self.layout.is_none() {
            return Some(id);
        }
        match self.items[id] {
            Item::Source(s) => Some(s),
            Item::Hull(_) => None,
        }
    }

    /// The stable per-world hull of drawn item `id`, only for a hull.
    pub fn hull_id(&self, id: usize) -> (r: Option<usize>)
        ensures
            r == if self.layout is Some && id < self.items@.len() {
                match self.items@[id as int] {
                    Item::Hull(h) => Some(h),
                    Item::Source(_) => None,
                }
            } else {
                None
            },
    {
        if self.layout.is_none() || id >= self.items.len() {
            return None;
        }
        match self.items[id] {
            Item::Hull(h) => Some(h),
            Item::Source(_) => None,
        }
    }

    /// Platform detail and its replacement stay solid; ordinary world cells
    /// keep the marker policy.
    pub fn solid(&self, id: usize) -> (r: bool)
        requires
            self.layout is Some ==> id < self.items@.len(),
        ensures
            r == match self.layout {
                None => false,
                Some(l) => match self.items@[id as int] {
                    Item::Hull(_) => true,
                    Item::Source(s) => s < l.owners@.len() && l.owners@[s as int] != 0,
                },
            },
    {
        match &self.layout {
            None => false,
            Some(l) => match self.items[id] {
                Item::Hull(_) => true,
                Item::Source(s) => s < l.owners.len() && l.owners[s] != 0,
            },
        }
    }
}

} // verus!
