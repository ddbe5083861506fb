//! Incremental A* over oriented voxel faces. The caller supplies the
//! traversable edges of each expanded face, so different agents can share the
//! search without sharing locomotion. Costs are walking distances in
//! thousandths of a voxel.
use vstd::prelude::*;

verus! {

/// One face of a voxel cell.
#[derive(Clone, Copy, Debug, PartialEq, Eq, PartialOrd, Ord, Hash)]
pub struct Face {
    pub cell: [i32; 3],
    /// Axis * 2, plus one for the positive face.
    pub side: u8,
}

#[derive(Clone, Copy, Debug, PartialEq, Eq, Structural)]
pub enum Status {
    Searching,
    Ready,
    Unreachable,
    Limit,
}


/// The most nodes a search may record.
pub const MAX_NODES: usize = 65536;
/// The most queue entries a search may hold.
pub const MAX_OPEN: usize = 262144;
/// The most that one edge, or one estimate, may cost, in thousandths of a
/// voxel.
pub const STEP_LIMIT: u64 = 0x100_0000_0000;

/// The same face.
pub open spec fn face_eq(a: Face, b: Face) -> bool {
    a.cell[0] == b.cell[0] && a.cell[1] == b.cell[1] && a.cell[2] == b.cell[2] && a.side == b.side
}

/// The order of faces: by cell coordinates, then by side.
pub open spec fn face_lt(a: Face, b: Face) -> bool {
    ||| a.cell[0] < b.cell[0]
    ||| a.cell[0] == b.cell[0] && a.cell[1] < b.cell[1]
    ||| a.cell[0] == b.cell[0] && a.cell[1] == b.cell[1] && a.cell[2] < b.cell[2]
    ||| a.cell[0] == b.cell[0] && a.cell[1] == b.cell[1] && a.cell[2] == b.cell[2] && a.side < b.side
}

fn same_face(a: Face, b: Face) -> (r: bool)
    ensures
        r == face_eq(a, b),
{
    a.cell[0] == b.cell[0] && a.cell[1] == b.cell[1] && a.cell[2] == b.cell[2] && a.side == b.side
}

fn face_before(a: Face, b: Face) -> (r: bool)
    ensures
        r == face_lt(a, b),
{
    a.cell[0] < b.cell[0] || (a.cell[0] == b.cell[0] && a.cell[1] < b.cell[1]) || (a.cell[0]
        == b.cell[0] && a.cell[1] == b.cell[1] && a.cell[2] < b.cell[2]) || (a.cell[0] == b.cell[0]
        && a.cell[1] == b.cell[1] && a.cell[2] == b.cell[2] && a.side < b.side)
}

/// An edge to explore: where it leads, its cost (at least one is charged)
/// and the estimate of the rest of the way from its end, both in
/// thousandths of a voxel, and what the caller keeps of the way.
#[derive(Clone, Copy)]
pub struct Step<L> {
    pub to: Face,
    pub cost: u64,
    pub estimate: u64,
    pub leg: L,
}

/// The best known way to a face: its cost and the face and leg it came by.
#[derive(Clone, Copy)]
pub struct Entry<L> {
    pub face: Face,
    pub cost: u64,
    pub parent: Option<(Face, L)>,
}

/// A queued face with its cost so far and its priority (cost plus estimate).
#[derive(Clone, Copy)]
pub struct Open {
    pub priority: u64,
    pub cost: u64,
    pub face: Face,
}

/// Queue order: lowest priority first; among equals the costliest way
/// first (it is closest to the goal), then the lowest face.
pub open spec fn open_before(a: Open, b: Open) -> bool {
    ||| a.priority < b.priority
    ||| a.priority == b.priority && a.cost > b.cost
    ||| a.priority == b.priority && a.cost == b.cost && face_lt(a.face, b.face)
}

fn is_before(a: Open, b: Open) -> (r: bool)
    ensures
        r == open_before(a, b),
{
    a.priority < b.priority || (a.priority == b.priority && a.cost > b.cost) || (a.priority
        == b.priority && a.cost == b.cost && face_before(a.face, b.face))
}

/// What one step of the search found.
pub enum Popped {
    /// The search is over (or already was).
    Finished,
    /// An outdated queue entry; nothing to explore.
    Stale,
    /// Explore the edges of this face, then relax them.
    Expand(Face),
}

/// The index of the entry for face `f`, if there is one.
pub open spec fn find<L>(best: Seq<Entry<L>>, f: Face) -> Option<int> {
    if exists|i: int| 0 <= i < best.len() && face_eq(#[trigger] best[i].face, f) {
        Some(choose|i: int| 0 <= i < best.len() && face_eq(#[trigger] best[i].face, f))
    } else {
        None
    }
}

/// No face has two entries.
pub open spec fn unique_faces<L>(best: Seq<Entry<L>>) -> bool {
    forall|i: int, j: int|
        0 <= i < best.len() && 0 <= j < best.len() && i != j ==> !face_eq(
            #[trigger] best[i].face,
            #[trigger] best[j].face,
        )
}

pub proof fn lemma_find<L>(best: Seq<Entry<L>>, i: int, f: Face)
    requires
        unique_faces(best),
        0 <= i < best.len(),
        face_eq(best[i].face, f),
    ensures
        find(best, f) == Some(i),
{
    let j = choose|j: int| 0 <= j < best.len() && face_eq(#[trigger] best[j].face, f);
    assert(face_eq(best[j].face, f));
    if j != i {
        assert(face_eq(best[i].face, best[j].face));
    }
}

/// The cost charged for an edge: at least one.
pub open spec fn charged(cost: u64) -> u64 {
    if cost == 0 {
        1
    } else {
        cost
    }
}

/// The search state that relaxing changes.
pub struct Frontier<L> {
    pub best: Seq<Entry<L>>,
    pub open: Seq<Open>,
    pub status: Status,
}

/// Relax one edge of `from`, reached at cost `from_cost`: a way that is no
/// cheaper than the known one is dropped; a full search stops at its
/// limit; otherwise the way is recorded and its end queued.
pub open spec fn relax_one<L>(s: Frontier<L>, from: Face, from_cost: u64, e: Step<L>) -> Frontier<L> {
    if s.status != Status::Searching {
        s
    } else {
        let c = (from_cost + charged(e.cost)) as u64;
        let known = find(s.best, e.to);
        if known matches Some(i) && s.best[i].cost <= c {
            s
        } else if s.best.len() >= MAX_NODES || s.open.len() >= MAX_OPEN {
            Frontier { status: Status::Limit, ..s }
        } else {
            let entry = Entry { face: e.to, cost: c, parent: Some((from, e.leg)) };
            Frontier {
                best: match known {
                    Some(i) => s.best.update(i, entry),
                    None => s.best.push(entry),
                },
                open: s.open.push(Open { priority: (c + e.estimate) as u64, cost: c, face: e.to }),
                status: Status::Searching,
            }
        }
    }
}

/// Relax the first `k` edges in order.
pub open spec fn relax_all<L>(s: Frontier<L>, from: Face, from_cost: u64, edges: Seq<Step<L>>, k: int) -> Frontier<L>
    decreases k,
{
    if k <= 0 {
        s
    } else {
        relax_one(relax_all(s, from, from_cost, edges, k - 1), from, from_cost, edges[k - 1])
    }
}

/// `faces` runs from `start` to `goal`, each face recorded as reached from
/// the one before it by the matching leg.
pub open spec fn follows<L>(best: Seq<Entry<L>>, start: Face, goal: Face, faces: Seq<Face>, legs: Seq<L>) -> bool {
    &&& faces.len() == legs.len() + 1
    &&& face_eq(faces[0], start)
    &&& face_eq(faces.last(), goal)
    &&& forall|k: int| 0 <= k < legs.len() ==> #[trigger] linked_at(best, faces, legs, k)
}

/// Step `k` of a route: face `k + 1` is reached from face `k` by leg `k`.
pub open spec fn linked_at<L>(best: Seq<Entry<L>>, faces: Seq<Face>, legs: Seq<L>, k: int) -> bool {
    linked(best, faces[k], legs[k], faces[k + 1])
}

/// Face `to` is recorded as reached from face `from` by `leg`.
pub open spec fn linked<L>(best: Seq<Entry<L>>, from: Face, leg: L, to: Face) -> bool {
    find(best, to) matches Some(j) && best[j].parent == Some((from, leg))
}

/// An incremental A* search over faces.
pub struct Search<L> {
    start: Face,
    goal: Face,
    open: Vec<Open>,
    best: Vec<Entry<L>>,
    expanding: Option<usize>,
    pub status: Status,
}

impl<L: Copy> Search<L> {
    /// How far the search has come.
    pub closed spec fn state(&self) -> Status {
        self.status
    }

    pub closed spec fn origin(&self) -> Face {
        self.start
    }

    pub closed spec fn target(&self) -> Face {
        self.goal
    }

    pub closed spec fn entries(&self) -> Seq<Entry<L>> {
        self.best@
    }

    pub closed spec fn queue(&self) -> Seq<Open> {
        self.open@
    }

    /// The face whose edges the next relaxation handles, by entry index.
    pub closed spec fn pending(&self) -> Option<usize> {
        self.expanding
    }

    pub closed spec fn frontier(&self) -> Frontier<L> {
        Frontier { best: self.entries(), open: self.queue(), status: self.status }
    }

    /// One entry per face, the start first at cost zero; every other face
    /// reached from a recorded face of strictly lower cost; costs bounded by
    /// the number of entries; every queued face recorded; a ready search
    /// has reached its goal.
    pub closed spec fn wf(&self) -> bool {
        &&& frontier_ok(self.frontier(), self.start, self.goal)
        &&& self.expanding matches Some(x) ==> x < self.best@.len()
    }
}

/// The search invariant on its recorded ways and queue.
pub open spec fn frontier_ok<L>(s: Frontier<L>, start: Face, goal: Face) -> bool {
    let best = s.best;
    &&& unique_faces(best)
    &&& 1 <= best.len() <= MAX_NODES
    &&& s.open.len() <= MAX_OPEN
    &&& face_eq(best[0].face, start)
    &&& best[0].cost == 0
    &&& best[0].parent is None
    &&& forall|i: int| 0 <= i < best.len() ==> #[trigger] best[i].cost <= best.len() * STEP_LIMIT
    &&& forall|i: int|
        1 <= i < best.len() ==> parent_cheaper(best, #[trigger] best[i])
    &&& forall|k: int| 0 <= k < s.open.len() ==> find(best, (#[trigger] s.open[k]).face) is Some
    &&& s.status == Status::Ready ==> find(best, goal) is Some
}

/// Entry `e` was reached from a recorded face of strictly lower cost.
pub open spec fn parent_cheaper<L>(best: Seq<Entry<L>>, e: Entry<L>) -> bool {
    e.parent matches Some((p, leg)) && (find(best, p) matches Some(j) && best[j].cost < e.cost)
}

/// Faces keep their entries: every face recorded in `a` sits at the same
/// index in `b`, at no higher cost.
pub open spec fn kept<L>(a: Seq<Entry<L>>, b: Seq<Entry<L>>) -> bool {
    &&& a.len() <= b.len()
    &&& forall|i: int| 0 <= i < a.len() ==> face_eq(#[trigger] b[i].face, a[i].face) && b[i].cost <= a[i].cost
}

proof fn lemma_kept_find<L>(a: Seq<Entry<L>>, b: Seq<Entry<L>>, f: Face)
    requires
        unique_faces(a),
        unique_faces(b),
        kept(a, b),
        find(a, f) is Some,
    ensures
        find(b, f) == find(a, f),
{
    let j = find(a, f)->0;
    lemma_find(a, j, f);
    assert(face_eq(b[j].face, a[j].face));
    lemma_find(b, j, f);
}

/// Law: relaxing one edge of a recorded face keeps the search invariant,
/// keeps every recorded face at its index at no higher cost, and leaves the
/// expanded face's own entry alone.
pub proof fn lemma_relax_one<L>(s: Frontier<L>, start: Face, goal: Face, x: int, e: Step<L>)
    requires
        frontier_ok(s, start, goal),
        0 <= x < s.best.len(),
        e.cost <= STEP_LIMIT,
        e.estimate <= STEP_LIMIT,
    ensures
        ({
            let t = relax_one(s, s.best[x].face, s.best[x].cost, e);
            &&& frontier_ok(t, start, goal)
            &&& kept(s.best, t.best)
            &&& t.best[x] == s.best[x]
            &&& t.status == s.status || t.status == Status::Limit
        }),
{
    let from = s.best[x].face;
    let from_cost = s.best[x].cost;
    let t = relax_one(s, from, from_cost, e);
    if s.status != Status::Searching {
        return;
    }
    let c = (from_cost + charged(e.cost)) as u64;
    let known = find(s.best, e.to);
    if known matches Some(i) && s.best[i].cost <= c {
        return;
    }
    if s.best.len() >= MAX_NODES || s.open.len() >= MAX_OPEN {
        return;
    }
    let entry = Entry { face: e.to, cost: c, parent: Some((from, e.leg)) };
    let b = t.best;
    lemma_find(s.best, x, from);
    match known {
        Some(u) => {
            assert(face_eq(s.best[u].face, e.to)) by {
                let w = choose|w: int| 0 <= w < s.best.len() && face_eq(#[trigger] s.best[w].face, e.to);
            }
            assert(u != x);
            assert(u != 0);
            assert(b == s.best.update(u, entry));
        },
        None => {
            assert(b == s.best.push(entry));
            assert forall|w: int| 0 <= w < s.best.len() implies !face_eq(#[trigger] s.best[w].face, e.to) by {}
        },
    }
    assert(unique_faces(b)) by {
        assert forall|i: int, j: int|
            0 <= i < b.len() && 0 <= j < b.len() && i != j implies !face_eq(#[trigger] b[i].face, #[trigger] b[j].face) by {
            if known is None {
                if i < s.best.len() && j < s.best.len() {
                    assert(!face_eq(s.best[i].face, s.best[j].face));
                }
            } else {
                assert(!face_eq(s.best[i].face, s.best[j].face));
            }
        }
    }
    assert(kept(s.best, b));
    assert forall|f: Face| find(s.best, f) is Some implies find(b, f) == find(s.best, f) by {
        lemma_kept_find(s.best, b, f);
    }
    lemma_find(b, x, from);
    assert forall|i: int| 1 <= i < b.len() implies parent_cheaper(b, #[trigger] b[i]) by {
        if b[i] == entry {
            assert(find(b, from) == Some(x));
        } else {
            assert(i < s.best.len() && b[i] == s.best[i]);
            assert(parent_cheaper(s.best, s.best[i]));
            let pl = s.best[i].parent->0;
            let p = pl.0;
            let j = find(s.best, p)->0;
            assert(find(b, p) == Some(j));
        }
    }
    assert forall|i: int| 0 <= i < b.len() implies #[trigger] b[i].cost <= b.len() * STEP_LIMIT by {
        if i < s.best.len() {
            assert(s.best[i].cost <= s.best.len() * STEP_LIMIT);
        }
        assert(from_cost <= s.best.len() * STEP_LIMIT);
    }
    assert forall|k: int| 0 <= k < t.open.len() implies find(b, (#[trigger] t.open[k]).face) is Some by {
        if k < s.open.len() {
            assert(t.open[k] == s.open[k]);
            assert(find(s.best, s.open[k].face) is Some);
        } else {
            let w = if known is Some { known->0 } else { s.best.len() as int };
            assert(face_eq(b[w].face, e.to));
        }
    }
}

/// Relaxing a prefix of the edges keeps the search invariant and the
/// expanded face's entry.
proof fn lemma_relax_all<L>(s: Frontier<L>, start: Face, goal: Face, x: int, edges: Seq<Step<L>>, k: int)
    requires
        frontier_ok(s, start, goal),
        0 <= x < s.best.len(),
        0 <= k <= edges.len(),
        forall|m: int| 0 <= m < edges.len() ==> (#[trigger] edges[m]).cost <= STEP_LIMIT && edges[m].estimate <= STEP_LIMIT,
    ensures
        ({
            let t = relax_all(s, s.best[x].face, s.best[x].cost, edges, k);
            &&& frontier_ok(t, start, goal)
            &&& kept(s.best, t.best)
            &&& x < t.best.len()
            &&& t.best[x] == s.best[x]
            &&& t.status == s.status || t.status == Status::Limit
        }),
    decreases k,
{
    if k > 0 {
        lemma_relax_all(s, start, goal, x, edges, k - 1);
        let t0 = relax_all(s, s.best[x].face, s.best[x].cost, edges, k - 1);
        lemma_relax_one(t0, start, goal, x, edges[k - 1]);
        let t1 = relax_one(t0, s.best[x].face, s.best[x].cost, edges[k - 1]);
        assert(kept(s.best, t1.best)) by {
            assert forall|i: int| 0 <= i < s.best.len() implies face_eq(#[trigger] t1.best[i].face, s.best[i].face) && t1.best[i].cost <= s.best[i].cost by {
                assert(face_eq(t0.best[i].face, s.best[i].face));
                assert(face_eq(t1.best[i].face, t0.best[i].face));
            }
        }
    }
}

proof fn lemma_before_order(a: Open, b: Open, c: Open)
    ensures
        !open_before(a, a),
        open_before(a, b) && open_before(b, c) ==> open_before(a, c),
{
}

impl<L: Copy> Search<L> {
    /// A search from `start` to `goal`; `estimate` is the start's estimate.
    pub fn new(start: Face, goal: Face, estimate: u64) -> (s: Self)
        ensures
            s.wf(),
            s.origin() == start,
            s.target() == goal,
            s.state() == Status::Searching,
            s.entries() == seq![Entry::<L> { face: start, cost: 0, parent: None }],
            s.queue() == seq![Open { priority: estimate, cost: 0, face: start }],
            s.pending() is None,
    {
        let mut best: Vec<Entry<L>> = Vec::new();
        best.push(Entry { face: start, cost: 0, parent: None });
        let mut open: Vec<Open> = Vec::new();
        open.push(Open { priority: estimate, cost: 0, face: start });
        let s = Search { start, goal, open, best, expanding: None, status: Status::Searching };
        proof {
            lemma_find(s.best@, 0, start);
            assert(s.best@ =~= seq![Entry::<L> { face: start, cost: 0, parent: None }]);
            assert(s.open@ =~= seq![Open { priority: estimate, cost: 0, face: start }]);
        }
        s
    }

    /// The entry of face `f`.
    fn locate(&self, f: Face) -> (r: Option<usize>)
        requires
            unique_faces(self.best@),
        ensures
            match r {
                Some(i) => i < self.best@.len() && find(self.best@, f) == Some(i as int),
                None => find(self.best@, f) is None,
            },
    {
        let mut i: usize = 0;
        while i < self.best.len()
            invariant
                i <= self.best@.len(),
                unique_faces(self.best@),
                forall|k: int| 0 <= k < i ==> !face_eq(#[trigger] self.best@[k].face, f),
            decreases self.best.len() - i,
        {
            if same_face(self.best[i].face, f) {
                proof {
                    lemma_find(self.best@, i as int, f);
                }
                return Some(i);
            }
            i = i + 1;
        }
        None
    }

    /// Take the first queued face: an outdated entry is stale; the goal ends
    /// the search as ready; any other face is to be expanded. An empty queue
    /// ends the search as unreachable; a finished search stays finished.
    pub fn pop(&mut self) -> (p: Popped)
        requires
            old(self).wf(),
        ensures
            final(self).wf(),
            final(self).origin() == old(self).origin(),
            final(self).target() == old(self).target(),
            final(self).entries() == old(self).entries(),
            old(self).state() != Status::Searching ==> p is Finished && final(self).queue() == old(self).queue()
                && final(self).state() == old(self).state() && final(self).pending() is None,
            old(self).state() == Status::Searching && old(self).queue().len() == 0 ==> p is Finished
                && final(self).queue() == old(self).queue() && final(self).state() == Status::Unreachable
                && final(self).pending() is None,
            old(self).state() == Status::Searching && old(self).queue().len() > 0 ==> exists|i: int|
                0 <= i < old(self).queue().len() && (forall|j: int|
                    0 <= j < old(self).queue().len() ==> !open_before(
                        #[trigger] old(self).queue()[j],
                        old(self).queue()[i],
                    )) && final(self).queue() == old(self).queue().remove(i) && ({
                    let e = old(self).queue()[i];
                    let b = find(old(self).entries(), e.face)->0;
                    if old(self).entries()[b].cost != e.cost {
                        p is Stale && final(self).state() == Status::Searching && final(self).pending() is None
                    } else if face_eq(e.face, old(self).target()) {
                        p is Finished && final(self).state() == Status::Ready && final(self).pending() is None
                    } else {
                        p == Popped::Expand(e.face) && final(self).state() == Status::Searching
                            && final(self).pending() == Some(b as usize)
                    }
                }),
    {
        self.expanding = None;
        if self.status != Status::Searching {
            return Popped::Finished;
        }
        if self.open.len() == 0 {
            self.status = Status::Unreachable;
            return Popped::Finished;
        }
        let mut m: usize = 0;
        let mut k: usize = 1;
        while k < self.open.len()
            invariant
                1 <= k <= self.open@.len(),
                m < k,
                forall|j: int| 0 <= j < k ==> !open_before(#[trigger] self.open@[j], self.open@[m as int]),
            decreases self.open.len() - k,
        {
            if is_before(self.open[k], self.open[m]) {
                proof {
                    assert forall|j: int| 0 <= j < k + 1 implies !open_before(#[trigger] self.open@[j], self.open@[k as int]) by {
                        lemma_before_order(self.open@[j], self.open@[k as int], self.open@[m as int]);
                    }
                }
                m = k;
            }
            k = k + 1;
        }
        let ghost q = self.open@;
        let e = self.open.remove(m);
        proof {
            assert(find(self.best@, q[m as int].face) is Some);
            assert forall|j: int| 0 <= j < self.open@.len() implies find(self.best@, (#[trigger] self.open@[j]).face) is Some by {
                if j < m {
                    assert(self.open@[j] == q[j]);
                } else {
                    assert(self.open@[j] == q[j + 1]);
                }
            }
        }
        let b = match self.locate(e.face) {
            Some(b) => b,
            None => {
                return Popped::Finished;
            },
        };
        if self.best[b].cost != e.cost {
            return Popped::Stale;
        }
        if same_face(e.face, self.goal) {
            self.status = Status::Ready;
            proof {
                lemma_find(self.best@, b as int, self.goal);
            }
            return Popped::Finished;
        }
        self.expanding = Some(b);
        Popped::Expand(e.face)
    }

    /// Relax the edges of the face that `pop` handed out, in order; without
    /// one, nothing changes.
    pub fn relax(&mut self, edges: &[Step<L>])
        requires
            old(self).wf(),
            forall|k: int| 0 <= k < edges@.len() ==> (#[trigger] edges@[k]).cost <= STEP_LIMIT
                && edges@[k].estimate <= STEP_LIMIT,
        ensures
            final(self).wf(),
            final(self).origin() == old(self).origin(),
            final(self).target() == old(self).target(),
            final(self).pending() is None,
            match old(self).pending() {
                Some(x) => final(self).frontier() == relax_all(
                    old(self).frontier(),
                    old(self).entries()[x as int].face,
                    old(self).entries()[x as int].cost,
                    edges@,
                    edges@.len() as int,
                ),
                None => final(self).frontier() == old(self).frontier(),
            },
    {
        let x = match self.expanding {
            Some(x) => x,
            None => {
                return;
            },
        };
        self.expanding = None;
        let from = self.best[x].face;
        let from_cost = self.best[x].cost;
        let ghost s0 = self.frontier();
        let mut k: usize = 0;
        while k < edges.len()
            invariant
                k <= edges@.len(),
                forall|m: int| 0 <= m < edges@.len() ==> (#[trigger] edges@[m]).cost <= STEP_LIMIT
                    && edges@[m].estimate <= STEP_LIMIT,
                frontier_ok(s0, self.start, self.goal),
                x < s0.best.len(),
                from == s0.best[x as int].face,
                from_cost == s0.best[x as int].cost,
                self.frontier() == relax_all(s0, from, from_cost, edges@, k as int),
                frontier_ok(self.frontier(), self.start, self.goal),
                x < self.best@.len(),
                self.best@[x as int] == s0.best[x as int],
                self.expanding is None,
                self.start == old(self).start,
                self.goal == old(self).goal,
            decreases edges.len() - k,
        {
            proof {
                lemma_relax_one(self.frontier(), self.start, self.goal, x as int, edges@[k as int]);
                lemma_relax_all(s0, self.start, self.goal, x as int, edges@, k as int + 1);
            }
            if self.status == Status::Searching {
                let e = edges[k];
                let c = from_cost + if e.cost == 0 {
                    1
                } else {
                    e.cost
                };
                let known = self.locate(e.to);
                let skip = match known {
                    Some(i) => self.best[i].cost <= c,
                    None => false,
                };
                if !skip {
                    if self.best.len() >= MAX_NODES || self.open.len() >= MAX_OPEN {
                        self.status = Status::Limit;
                    } else {
                        let entry = Entry { face: e.to, cost: c, parent: Some((from, e.leg)) };
                        match known {
                            Some(i) => {
                                self.best.set(i, entry);
                            },
                            None => {
                                self.best.push(entry);
                            },
                        }
                        self.open.push(Open { priority: c + e.estimate, cost: c, face: e.to });
                    }
                }
            }
            k = k + 1;
        }
    }

    /// The legs from the start to the goal of a ready search.
    pub fn route(&self) -> (r: Option<Vec<L>>)
        requires
            self.wf(),
        ensures
            r is Some == (self.state() == Status::Ready),
            r matches Some(legs) ==> exists|faces: Seq<Face>|
                #[trigger] follows(self.entries(), self.origin(), self.target(), faces, legs@),
    {
        if self.status != Status::Ready {
            return None;
        }
        let mut i = match self.locate(self.goal) {
            Some(i) => i,
            None => {
                return None;
            },
        };
        let mut legs: Vec<L> = Vec::new();
        let ghost mut faces: Seq<Face> = seq![self.best@[i as int].face];
        while !same_face(self.best[i].face, self.start)
            invariant
                frontier_ok(self.frontier(), self.start, self.goal),
                self.status == Status::Ready,
                i < self.best@.len(),
                faces.len() == legs@.len() + 1,
                face_eq(faces[0], self.best@[i as int].face),
                face_eq(faces.last(), self.goal),
                forall|k: int| 0 <= k < legs@.len() ==> #[trigger] linked_at(self.best@, faces, legs@, k),
            decreases self.best@[i as int].cost,
        {
            proof {
                if i == 0 {
                    assert(face_eq(self.best@[0].face, self.start));
                }
                assert(parent_cheaper(self.best@, self.best@[i as int]));
                lemma_find(self.best@, i as int, faces[0]);
            }
            let (p, leg) = match self.best[i].parent {
                Some(pl) => pl,
                None => {
                    return None;
                },
            };
            let j = match self.locate(p) {
                Some(j) => j,
                None => {
                    return None;
                },
            };
            let ghost old_faces = faces;
            let ghost old_legs = legs@;
            let ghost here = i;
            legs.insert(0, leg);
            proof {
                assert(legs@ =~= seq![leg] + old_legs);
                faces = seq![p] + old_faces;
                assert forall|k: int| 0 <= k < legs@.len() implies #[trigger] linked_at(self.best@, faces, legs@, k) by {
                    if k == 0 {
                        assert(faces[1] == old_faces[0]);
                        assert(find(self.best@, faces[1]) == Some(here as int));
                        assert(legs@[0] == leg);
                        assert(faces[0] == p);
                    } else {
                        assert(faces[k + 1] == old_faces[k]);
                        assert(faces[k] == old_faces[k - 1]);
                        assert(legs@[k] == old_legs[k - 1]);
                        assert(linked_at(self.best@, old_faces, old_legs, k - 1));
                    }
                }
                assert(face_eq(self.best@[j as int].face, p));
            }
            i = j;
        }
        let r = Some(legs);
        proof {
            let l = r->0;
            assert(follows(self.entries(), self.origin(), self.target(), faces, l@));
        }
        r
    }
}

/// The graph and the estimate depend on a face alone, not on how it is
/// written.
pub open spec fn respects<L>(g: spec_fn(Face) -> Seq<Step<L>>, h: spec_fn(Face) -> int) -> bool {
    forall|a: Face, b: Face| #[trigger] face_eq(a, b) ==> g(a) == g(b) && h(a) == h(b)
}

/// The edges that the caller supplies for each face form the graph `g`,
/// within the step limit; the estimate `h` is what the edges carry, never
/// above an edge's charged cost plus the estimate at its end (consistent),
/// never negative, and zero at the goal.
pub open spec fn consistent<L>(g: spec_fn(Face) -> Seq<Step<L>>, h: spec_fn(Face) -> int, goal: Face) -> bool {
    &&& respects(g, h)
    &&& h(goal) == 0
    &&& forall|f: Face| #[trigger] h(f) >= 0
    &&& forall|f: Face, m: int|
        0 <= m < g(f).len() ==> {
            let e = #[trigger] g(f)[m];
            &&& e.estimate == h(e.to)
            &&& h(f) <= charged(e.cost) + h(e.to)
            &&& e.cost <= STEP_LIMIT
            &&& e.estimate <= STEP_LIMIT
        }
}

/// Every hop names an edge of the face it leaves.
pub open spec fn walk_ok<L>(g: spec_fn(Face) -> Seq<Step<L>>, from: Face, hops: Seq<int>) -> bool
    decreases hops.len(),
{
    hops.len() == 0 || (0 <= hops[0] < g(from).len() && walk_ok(g, g(from)[hops[0]].to, hops.drop_first()))
}

/// Where a walk that follows edge `hops[k]` at its step `k` ends.
pub open spec fn walk_end<L>(g: spec_fn(Face) -> Seq<Step<L>>, from: Face, hops: Seq<int>) -> Face
    decreases hops.len(),
{
    if hops.len() == 0 {
        from
    } else {
        walk_end(g, g(from)[hops[0]].to, hops.drop_first())
    }
}

/// What a walk costs: the charged costs of its edges.
pub open spec fn walk_cost<L>(g: spec_fn(Face) -> Seq<Step<L>>, from: Face, hops: Seq<int>) -> int
    decreases hops.len(),
{
    if hops.len() == 0 {
        0
    } else {
        charged(g(from)[hops[0]].cost) + walk_cost(g, g(from)[hops[0]].to, hops.drop_first())
    }
}

/// Entry `v` has a queued way at its recorded cost.
pub open spec fn live<L>(s: Frontier<L>, v: int) -> bool {
    exists|k: int|
        0 <= k < s.open.len() && face_eq(#[trigger] s.open[k].face, s.best[v].face) && s.open[k].cost
            == s.best[v].cost
}

/// Every edge of entry `v`'s face leads to a recorded face at no more than
/// `v`'s cost plus the edge's.
pub open spec fn closed<L>(s: Frontier<L>, g: spec_fn(Face) -> Seq<Step<L>>, v: int) -> bool {
    forall|m: int|
        0 <= m < g(s.best[v].face).len() ==> {
            let e = #[trigger] g(s.best[v].face)[m];
            find(s.best, e.to) matches Some(j) && s.best[j].cost <= s.best[v].cost + charged(e.cost)
        }
}

/// The A* invariant of a search on graph `g` with estimate `h`: while it
/// searches, every queued way is prioritised by its cost plus the
/// estimate; every recorded face is queued at its cost, or has had its
/// edges relaxed at that cost, or is the one being expanded; and a
/// recorded goal is queued at its cost.
pub open spec fn search_inv<L>(
    s: Frontier<L>,
    g: spec_fn(Face) -> Seq<Step<L>>,
    h: spec_fn(Face) -> int,
    start: Face,
    goal: Face,
    pending: Option<usize>,
) -> bool {
    &&& frontier_ok(s, start, goal)
    &&& s.status == Status::Searching ==> {
        &&& forall|k: int| 0 <= k < s.open.len() ==> (#[trigger] s.open[k]).priority == s.open[k].cost + h(s.open[k].face)
        &&& forall|v: int| 0 <= v < s.best.len() ==> live(s, v) || closed(s, g, v) || pending == Some(v as usize)
        &&& find(s.best, goal) matches Some(j) ==> live(s, j)
        &&& pending matches Some(x) ==> x < s.best.len() && !face_eq(s.best[x as int].face, goal)
    }
}

proof fn lemma_walk_same<L>(g: spec_fn(Face) -> Seq<Step<L>>, h: spec_fn(Face) -> int, a: Face, b: Face, hops: Seq<int>)
    requires
        respects(g, h),
        face_eq(a, b),
    ensures
        walk_ok(g, a, hops) == walk_ok(g, b, hops),
        walk_cost(g, a, hops) == walk_cost(g, b, hops),
        face_eq(walk_end(g, a, hops), walk_end(g, b, hops)),
{
    assert(g(a) == g(b));
}

proof fn lemma_estimate_walk<L>(g: spec_fn(Face) -> Seq<Step<L>>, h: spec_fn(Face) -> int, goal: Face, from: Face, hops: Seq<int>)
    requires
        consistent(g, h, goal),
        walk_ok(g, from, hops),
    ensures
        h(from) <= walk_cost(g, from, hops) + h(walk_end(g, from, hops)),
    decreases hops.len(),
{
    if hops.len() > 0 {
        let e = g(from)[hops[0]];
        assert(h(from) <= charged(e.cost) + h(e.to));
        lemma_estimate_walk(g, h, goal, e.to, hops.drop_first());
    }
}

/// Along any walk from a recorded face to the goal, either some queued way
/// is prioritised within the walk's reach, or the goal is recorded within it.
proof fn lemma_walk<L>(
    s: Frontier<L>,
    g: spec_fn(Face) -> Seq<Step<L>>,
    h: spec_fn(Face) -> int,
    goal: Face,
    u: int,
    bound: int,
    hops: Seq<int>,
)
    requires
        unique_faces(s.best),
        consistent(g, h, goal),
        forall|k: int| 0 <= k < s.open.len() ==> (#[trigger] s.open[k]).priority == s.open[k].cost + h(s.open[k].face),
        forall|v: int| 0 <= v < s.best.len() ==> live(s, v) || closed(s, g, v),
        0 <= u < s.best.len(),
        s.best[u].cost <= bound,
        walk_ok(g, s.best[u].face, hops),
        face_eq(walk_end(g, s.best[u].face, hops), goal),
    ensures
        (exists|k: int| 0 <= k < s.open.len() && #[trigger] s.open[k].priority <= bound + walk_cost(g, s.best[u].face, hops))
            || (find(s.best, goal) matches Some(j) && s.best[j].cost <= bound + walk_cost(g, s.best[u].face, hops)),
    decreases hops.len(),
{
    let f = s.best[u].face;
    if live(s, u) {
        let k = choose|k: int| 0 <= k < s.open.len() && face_eq(#[trigger] s.open[k].face, s.best[u].face) && s.open[k].cost == s.best[u].cost;
        assert(h(s.open[k].face) == h(f));
        lemma_estimate_walk(g, h, goal, f, hops);
        assert(h(walk_end(g, f, hops)) == h(goal));
        assert(s.open[k].priority <= bound + walk_cost(g, f, hops));
    } else {
        assert(closed(s, g, u));
        if hops.len() == 0 {
            lemma_find(s.best, u, goal);
        } else {
            let e = g(f)[hops[0]];
            let j = find(s.best, e.to)->0;
            assert(find(s.best, e.to) matches Some(jj) && s.best[jj].cost <= s.best[u].cost + charged(e.cost));
            assert(face_eq(s.best[j].face, e.to)) by {
                let w = choose|w: int| 0 <= w < s.best.len() && face_eq(#[trigger] s.best[w].face, e.to);
            }
            lemma_walk_same(g, h, s.best[j].face, e.to, hops.drop_first());
            lemma_walk(s, g, h, goal, j, bound + charged(e.cost), hops.drop_first());
        }
    }
}

/// Law: A* with a consistent estimate finds a cheapest way. When the pop
/// that makes a search ready takes the goal's queued way (one that no
/// queued way comes before, at the goal's recorded cost) from a frontier
/// that keeps the invariant, the goal's recorded cost is no more than the
/// cost of any walk from the start to the goal.
pub proof fn lemma_ready_is_cheapest<L>(
    s: Frontier<L>,
    g: spec_fn(Face) -> Seq<Step<L>>,
    h: spec_fn(Face) -> int,
    start: Face,
    goal: Face,
    i: int,
    hops: Seq<int>,
)
    requires
        consistent(g, h, goal),
        search_inv(s, g, h, start, goal, None),
        s.status == Status::Searching,
        0 <= i < s.open.len(),
        forall|j: int| 0 <= j < s.open.len() ==> !open_before(#[trigger] s.open[j], s.open[i]),
        face_eq(s.open[i].face, goal),
        find(s.best, s.open[i].face) matches Some(b) && s.best[b].cost == s.open[i].cost,
        walk_ok(g, start, hops),
        face_eq(walk_end(g, start, hops), goal),
    ensures
        find(s.best, goal) matches Some(j) && s.best[j].cost == s.open[i].cost && s.open[i].cost <= walk_cost(
            g,
            start,
            hops,
        ),
{
    assert(find(s.best, s.open[i].face) is Some);
    let j = find(s.best, s.open[i].face)->0;
    assert(face_eq(s.best[j].face, s.open[i].face)) by {
        let w = choose|w: int| 0 <= w < s.best.len() && face_eq(#[trigger] s.best[w].face, s.open[i].face);
    }
    lemma_find(s.best, j, goal);
    lemma_walk_same(g, h, start, s.best[0].face, hops);
    lemma_walk(s, g, h, goal, 0, 0, hops);
    assert(h(s.open[i].face) == h(goal));
    if exists|k: int| 0 <= k < s.open.len() && #[trigger] s.open[k].priority <= walk_cost(g, start, hops) {
        let k = choose|k: int| 0 <= k < s.open.len() && #[trigger] s.open[k].priority <= walk_cost(g, start, hops);
        assert(!open_before(s.open[k], s.open[i]));
    }
}

/// Law: a search that runs out of queued ways while keeping the invariant
/// has no walk to find: when the pop that finds the queue empty ends the
/// search as unreachable, no walk leads from the start to the goal.
pub proof fn lemma_unreachable_has_no_walk<L>(
    s: Frontier<L>,
    g: spec_fn(Face) -> Seq<Step<L>>,
    h: spec_fn(Face) -> int,
    start: Face,
    goal: Face,
    hops: Seq<int>,
)
    requires
        consistent(g, h, goal),
        search_inv(s, g, h, start, goal, None),
        s.status == Status::Searching,
        s.open.len() == 0,
    ensures
        !(walk_ok(g, start, hops) && face_eq(walk_end(g, start, hops), goal)),
{
    if walk_ok(g, start, hops) && face_eq(walk_end(g, start, hops), goal) {
        lemma_walk_same(g, h, start, s.best[0].face, hops);
        lemma_walk(s, g, h, goal, 0, 0, hops);
        let j = find(s.best, goal)->0;
        assert(live(s, j));
    }
}

/// Relaxing edge `e` of the face being expanded keeps the invariant and
/// leaves the edge's end recorded within the expanded face's cost plus the
/// edge's; ends recorded before stay recorded, at no higher cost.
proof fn lemma_inv_relax_one<L>(
    s: Frontier<L>,
    g: spec_fn(Face) -> Seq<Step<L>>,
    h: spec_fn(Face) -> int,
    start: Face,
    goal: Face,
    x: usize,
    e: Step<L>,
)
    requires
        consistent(g, h, goal),
        search_inv(s, g, h, start, goal, Some(x)),
        x < s.best.len(),
        e.cost <= STEP_LIMIT,
        e.estimate <= STEP_LIMIT,
        e.estimate == h(e.to),
    ensures
        ({
            let t = relax_one(s, s.best[x as int].face, s.best[x as int].cost, e);
            &&& search_inv(t, g, h, start, goal, Some(x))
            &&& kept(s.best, t.best)
            &&& t.best[x as int] == s.best[x as int]
            &&& (t.status == Status::Searching ==> s.status == Status::Searching)
            &&& (t.status == Status::Searching ==> (find(t.best, e.to) matches Some(j) && t.best[j].cost
                <= s.best[x as int].cost + charged(e.cost)))
        }),
{
    let from = s.best[x as int].face;
    let from_cost = s.best[x as int].cost;
    let t = relax_one(s, from, from_cost, e);
    lemma_relax_one(s, start, goal, x as int, e);
    if s.status != Status::Searching {
        return;
    }
    let c = (from_cost + charged(e.cost)) as u64;
    assert(from_cost <= s.best.len() * STEP_LIMIT);
    assert(s.best.len() * STEP_LIMIT <= MAX_NODES * STEP_LIMIT) by (nonlinear_arith)
        requires
            s.best.len() <= MAX_NODES,
    ;
    assert(c == from_cost + charged(e.cost));
    let known = find(s.best, e.to);
    if known matches Some(i) && s.best[i].cost <= c {
        return;
    }
    if s.best.len() >= MAX_NODES || s.open.len() >= MAX_OPEN {
        return;
    }
    let entry = Entry { face: e.to, cost: c, parent: Some((from, e.leg)) };
    let o = Open { priority: (c + e.estimate) as u64, cost: c, face: e.to };
    assert(o.priority == c + h(e.to));
    let w: int = match known {
        Some(i) => i,
        None => s.best.len() as int,
    };
    match known {
        Some(i) => {
            assert(face_eq(s.best[i].face, e.to)) by {
                let q = choose|q: int| 0 <= q < s.best.len() && face_eq(#[trigger] s.best[q].face, e.to);
            }
            assert(t.best == s.best.update(i, entry));
        },
        None => {
            assert(t.best == s.best.push(entry));
        },
    }
    assert(t.open == s.open.push(o));
    assert(w != x) by {
        if w == x as int {
            assert(s.best[x as int].cost <= c);
        }
    }
    assert(t.best[w] == entry);
    lemma_find(t.best, w, e.to);
    assert forall|k: int| 0 <= k < t.open.len() implies (#[trigger] t.open[k]).priority == t.open[k].cost + h(t.open[k].face) by {
        if k < s.open.len() {
            assert(t.open[k] == s.open[k]);
        }
    }
    assert(live(t, w)) by {
        assert(t.open[s.open.len() as int] == o);
    }
    assert forall|v: int| 0 <= v < t.best.len() implies live(t, v) || closed(t, g, v) || Some(x) == Some(v as usize) by {
        if v != w {
            assert(v < s.best.len());
            assert(t.best[v] == s.best[v]);
            if live(s, v) {
                let k = choose|k: int| 0 <= k < s.open.len() && face_eq(#[trigger] s.open[k].face, s.best[v].face) && s.open[k].cost == s.best[v].cost;
                assert(t.open[k] == s.open[k]);
            } else if closed(s, g, v) {
                assert forall|m: int| 0 <= m < g(t.best[v].face).len() implies {
                    let e2 = #[trigger] g(t.best[v].face)[m];
                    find(t.best, e2.to) matches Some(j) && t.best[j].cost <= t.best[v].cost + charged(e2.cost)
                } by {
                    let e2 = g(s.best[v].face)[m];
                    assert(find(s.best, e2.to) is Some);
                    lemma_kept_find(s.best, t.best, e2.to);
                }
            }
        }
    }
    if find(t.best, goal) is Some {
        let j = find(t.best, goal)->0;
        assert(face_eq(t.best[j].face, goal)) by {
            let q = choose|q: int| 0 <= q < t.best.len() && face_eq(#[trigger] t.best[q].face, goal);
        }
        if j != w {
            assert(j < s.best.len() && t.best[j] == s.best[j]);
            lemma_find(s.best, j, goal);
            assert(live(s, j));
            let k = choose|k: int| 0 <= k < s.open.len() && face_eq(#[trigger] s.open[k].face, s.best[j].face) && s.open[k].cost == s.best[j].cost;
            assert(t.open[k] == s.open[k]);
        }
    }
}

proof fn lemma_inv_relax_all<L>(
    s: Frontier<L>,
    g: spec_fn(Face) -> Seq<Step<L>>,
    h: spec_fn(Face) -> int,
    start: Face,
    goal: Face,
    x: usize,
    k: int,
)
    requires
        consistent(g, h, goal),
        search_inv(s, g, h, start, goal, Some(x)),
        x < s.best.len(),
        0 <= k <= g(s.best[x as int].face).len(),
    ensures
        ({
            let edges = g(s.best[x as int].face);
            let t = relax_all(s, s.best[x as int].face, s.best[x as int].cost, edges, k);
            &&& search_inv(t, g, h, start, goal, Some(x))
            &&& x < t.best.len()
            &&& t.best[x as int] == s.best[x as int]
            &&& (t.status == Status::Searching ==> s.status == Status::Searching)
            &&& (t.status == Status::Searching ==> forall|m: int|
                0 <= m < k ==> (find(t.best, (#[trigger] edges[m]).to) matches Some(j) && t.best[j].cost
                    <= s.best[x as int].cost + charged(edges[m].cost)))
        }),
    decreases k,
{
    let edges = g(s.best[x as int].face);
    if k > 0 {
        lemma_inv_relax_all(s, g, h, start, goal, x, k - 1);
        let t0 = relax_all(s, s.best[x as int].face, s.best[x as int].cost, edges, k - 1);
        let e = edges[k - 1];
        assert(e.estimate == h(e.to) && e.cost <= STEP_LIMIT && e.estimate <= STEP_LIMIT);
        lemma_inv_relax_one(t0, g, h, start, goal, x, e);
        let t1 = relax_one(t0, t0.best[x as int].face, t0.best[x as int].cost, e);
        assert(t1 == relax_all(s, s.best[x as int].face, s.best[x as int].cost, edges, k));
        lemma_relax_one(t0, start, goal, x as int, e);
        if t1.status == Status::Searching {
            assert forall|m: int| 0 <= m < k implies (find(t1.best, (#[trigger] edges[m]).to) matches Some(j)
                && t1.best[j].cost <= s.best[x as int].cost + charged(edges[m].cost)) by {
                if m < k - 1 {
                    lemma_kept_find(t0.best, t1.best, edges[m].to);
                }
            }
        }
    }
}

/// Law: relaxing every edge of the face that `pop` handed out keeps the
/// A* invariant, with that face's edges now relaxed at its cost.
pub proof fn lemma_relax_keeps_invariant<L>(
    s: Frontier<L>,
    g: spec_fn(Face) -> Seq<Step<L>>,
    h: spec_fn(Face) -> int,
    start: Face,
    goal: Face,
    x: usize,
)
    requires
        consistent(g, h, goal),
        search_inv(s, g, h, start, goal, Some(x)),
        x < s.best.len(),
    ensures
        search_inv(
            relax_all(
                s,
                s.best[x as int].face,
                s.best[x as int].cost,
                g(s.best[x as int].face),
                g(s.best[x as int].face).len() as int,
            ),
            g,
            h,
            start,
            goal,
            None,
        ),
{
    let edges = g(s.best[x as int].face);
    let n = edges.len() as int;
    lemma_inv_relax_all(s, g, h, start, goal, x, n);
    let t = relax_all(s, s.best[x as int].face, s.best[x as int].cost, edges, n);
    if t.status == Status::Searching {
        assert(closed(t, g, x as int)) by {
            assert(t.best[x as int] == s.best[x as int]);
            assert forall|m: int| 0 <= m < g(t.best[x as int].face).len() implies {
                let e = #[trigger] g(t.best[x as int].face)[m];
                find(t.best, e.to) matches Some(j) && t.best[j].cost <= t.best[x as int].cost + charged(e.cost)
            } by {
                assert(g(t.best[x as int].face)[m] == edges[m]);
            }
        }
        assert forall|v: int| 0 <= v < t.best.len() implies live(t, v) || closed(t, g, v) || None::<usize> == Some(v as usize) by {
            assert(live(t, v) || closed(t, g, v) || Some(x) == Some(v as usize));
        }
    }
}

/// Law: a new search keeps the A* invariant when its start estimate is the
/// start's estimate.
pub proof fn lemma_new_search_invariant<L>(
    g: spec_fn(Face) -> Seq<Step<L>>,
    h: spec_fn(Face) -> int,
    start: Face,
    goal: Face,
    estimate: u64,
)
    requires
        consistent(g, h, goal),
        estimate == h(start),
    ensures
        search_inv(
            Frontier {
                best: seq![Entry::<L> { face: start, cost: 0, parent: None }],
                open: seq![Open { priority: estimate, cost: 0, face: start }],
                status: Status::Searching,
            },
            g,
            h,
            start,
            goal,
            None,
        ),
{
    let s = Frontier {
        best: seq![Entry::<L> { face: start, cost: 0, parent: None }],
        open: seq![Open { priority: estimate, cost: 0, face: start }],
        status: Status::Searching,
    };
    lemma_find(s.best, 0, start);
    assert(live(s, 0)) by {
        assert(face_eq(s.open[0].face, s.best[0].face));
    }
    if find(s.best, goal) is Some {
        let j = find(s.best, goal)->0;
        assert(j == 0);
    }
}

/// Law: a pop keeps the A* invariant. From a searching frontier that keeps
/// it with nothing being expanded, taking queued way `i`: a way below its
/// face's recorded cost is dropped and nothing is expanded; otherwise, if
/// it is not the goal's, its face is the one being expanded.
pub proof fn lemma_pop_keeps_invariant<L>(
    s: Frontier<L>,
    g: spec_fn(Face) -> Seq<Step<L>>,
    h: spec_fn(Face) -> int,
    start: Face,
    goal: Face,
    i: int,
)
    requires
        consistent(g, h, goal),
        search_inv(s, g, h, start, goal, None),
        s.status == Status::Searching,
        0 <= i < s.open.len(),
    ensures
        ({
            let e = s.open[i];
            let b = find(s.best, e.face)->0;
            let t = Frontier { open: s.open.remove(i), ..s };
            &&& s.best[b].cost != e.cost ==> search_inv(t, g, h, start, goal, None)
            &&& (s.best[b].cost == e.cost && !face_eq(e.face, goal)) ==> search_inv(
                t,
                g,
                h,
                start,
                goal,
                Some(b as usize),
            )
        }),
{
    let e = s.open[i];
    assert(find(s.best, e.face) is Some);
    let b = find(s.best, e.face)->0;
    assert(face_eq(s.best[b].face, e.face)) by {
        let q = choose|q: int| 0 <= q < s.best.len() && face_eq(#[trigger] s.best[q].face, e.face);
    }
    let t = Frontier { open: s.open.remove(i), ..s };
    assert forall|k: int| 0 <= k < t.open.len() implies find(t.best, (#[trigger] t.open[k]).face) is Some by {
        if k < i {
            assert(t.open[k] == s.open[k]);
        } else {
            assert(t.open[k] == s.open[k + 1]);
        }
    }
    assert forall|k: int| 0 <= k < t.open.len() implies (#[trigger] t.open[k]).priority == t.open[k].cost + h(t.open[k].face) by {
        if k < i {
            assert(t.open[k] == s.open[k]);
        } else {
            assert(t.open[k] == s.open[k + 1]);
        }
    }
    // A face stays queued at its cost unless the way taken was its only one.
    assert forall|v: int| 0 <= v < s.best.len() && live(s, v) && v != b implies live(t, v) by {
        let k = choose|k: int| 0 <= k < s.open.len() && face_eq(#[trigger] s.open[k].face, s.best[v].face) && s.open[k].cost == s.best[v].cost;
        if k == i {
            assert(face_eq(s.best[v].face, s.best[b].face));
        }
        if k < i {
            assert(t.open[k] == s.open[k]);
        } else {
            assert(t.open[k - 1] == s.open[k]);
        }
    }
    if s.best[b].cost != e.cost {
        assert(live(s, b) ==> live(t, b)) by {
            if live(s, b) {
                let k = choose|k: int| 0 <= k < s.open.len() && face_eq(#[trigger] s.open[k].face, s.best[b].face) && s.open[k].cost == s.best[b].cost;
                assert(k != i);
                if k < i {
                    assert(t.open[k] == s.open[k]);
                } else {
                    assert(t.open[k - 1] == s.open[k]);
                }
            }
        }
    }
    if find(s.best, goal) is Some {
        let j = find(s.best, goal)->0;
        assert(face_eq(s.best[j].face, goal)) by {
            let q = choose|q: int| 0 <= q < s.best.len() && face_eq(#[trigger] s.best[q].face, goal);
        }
        if j == b && s.best[b].cost == e.cost {
            assert(face_eq(e.face, goal));
        }
        if j == b && s.best[b].cost != e.cost {
            assert(live(s, b));
        }
    }
}

} // verus!
