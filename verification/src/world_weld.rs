//! Render-only welding of equal opaque palette cubes: cubes of one colour,
//! scale and size that sit face to face on the grid hide the faces they
//! share. This module decides which faces; finding each cube's grid cell is
//! float geometry done by the caller.
use crate::marker_lod::CUSTOM_RGB555;
use vstd::prelude::*;

verus! {

// 0x1000..0x17ff overlaps Rubik transparent faces 4/5 (face << 10).
// This tag requires both face bits 11/12; no valid Rubik face ID (0..5) does.
pub const CLASS: u32 = 0x1800;
pub const MATERIAL: u32 = 0x0400;

/// A cube on the weld grid: its colour class, its exact scale bits, its
/// side in grid steps and its centre in half steps.
#[derive(Clone, Copy, Debug)]
pub struct WeldKey {
    pub color: u32,
    pub scale: u32,
    pub side: i32,
    pub center: [i32; 3],
}

pub open spec fn same_key(a: WeldKey, b: WeldKey) -> bool {
    &&& a.color == b.color
    &&& a.scale == b.scale
    &&& a.side == b.side
    &&& a.center[0] == b.center[0]
    &&& a.center[1] == b.center[1]
    &&& a.center[2] == b.center[2]
}

/// Keys in order: colour, scale, side, then the centre coordinates.
pub open spec fn key_lt(a: WeldKey, b: WeldKey) -> bool {
    ||| a.color < b.color
    ||| a.color == b.color && a.scale < b.scale
    ||| a.color == b.color && a.scale == b.scale && a.side < b.side
    ||| a.color == b.color && a.scale == b.scale && a.side == b.side && a.center[0] < b.center[0]
    ||| a.color == b.color && a.scale == b.scale && a.side == b.side && a.center[0] == b.center[0]
        && a.center[1] < b.center[1]
    ||| a.color == b.color && a.scale == b.scale && a.side == b.side && a.center[0] == b.center[0]
        && a.center[1] == b.center[1] && a.center[2] < b.center[2]
}

proof fn lemma_key_order(a: WeldKey, b: WeldKey, c: WeldKey)
    ensures
        !key_lt(a, a),
        key_lt(a, b) ==> !key_lt(b, a) && !same_key(a, b),
        key_lt(a, b) || same_key(a, b) || key_lt(b, a),
        key_lt(a, b) && key_lt(b, c) ==> key_lt(a, c),
        key_lt(a, b) && same_key(b, c) ==> key_lt(a, c),
        same_key(a, b) && key_lt(b, c) ==> key_lt(a, c),
{
}

fn key_less(a: &WeldKey, b: &WeldKey) -> (r: bool)
    ensures
        r == key_lt(*a, *b),
{
    a.color < b.color || (a.color == b.color && a.scale < b.scale) || (a.color == b.color && a.scale
        == b.scale && a.side < b.side) || (a.color == b.color && a.scale == b.scale && a.side
        == b.side && a.center[0] < b.center[0]) || (a.color == b.color && a.scale == b.scale
        && a.side == b.side && a.center[0] == b.center[0] && a.center[1] < b.center[1]) || (a.color
        == b.color && a.scale == b.scale && a.side == b.side && a.center[0] == b.center[0]
        && a.center[1] == b.center[1] && a.center[2] < b.center[2])
}

fn key_equal(a: &WeldKey, b: &WeldKey) -> (r: bool)
    ensures
        r == same_key(*a, *b),
{
    a.color == b.color && a.scale == b.scale && a.side == b.side && a.center[0] == b.center[0]
        && a.center[1] == b.center[1] && a.center[2] == b.center[2]
}

/// The key moved by `delta` half steps along `axis`, if its side doubled
/// and the moved coordinate fit in `i32`.
pub open spec fn moved(k: WeldKey, axis: int, delta: int) -> Option<WeldKey> {
    if i32::MIN <= 2 * k.side <= i32::MAX && i32::MIN <= k.center[axis] + delta <= i32::MAX {
        let v = (k.center[axis] + delta) as i32;
        Some(
            WeldKey {
                center: [
                    if axis == 0 {
                        v
                    } else {
                        k.center[0]
                    },
                    if axis == 1 {
                        v
                    } else {
                        k.center[1]
                    },
                    if axis == 2 {
                        v
                    } else {
                        k.center[2]
                    },
                ],
                ..k
            },
        )
    } else {
        None
    }
}

/// How many of `keys` equal `k`.
pub open spec fn count(keys: Seq<WeldKey>, k: WeldKey) -> int
    decreases keys.len(),
{
    if keys.len() == 0 {
        0
    } else {
        count(keys.drop_last(), k) + if same_key(keys.last(), k) {
            1int
        } else {
            0int
        }
    }
}

/// A neighbour that exists exactly once.
pub open spec fn single(keys: Seq<WeldKey>, n: Option<WeldKey>) -> bool {
    n matches Some(k) && count(keys, k) == 1
}

/// The render face of each side of an axis: world +Y and +Z are local -Y
/// and -Z.
pub open spec fn face_bit(axis: int, upper: bool) -> int {
    let face = axis * 2 + if axis != 0 {
        1int
    } else {
        0int
    };
    let f = if upper {
        face
    } else if face % 2 == 0 {
        face + 1
    } else {
        face - 1
    };
    if f == 0 {
        1
    } else if f == 1 {
        2
    } else if f == 2 {
        4
    } else if f == 3 {
        8
    } else if f == 4 {
        16
    } else {
        32
    }
}

pub open spec fn axis_mask(keys: Seq<WeldKey>, k: WeldKey, axis: int) -> int {
    (if single(keys, moved(k, axis, 2 * k.side)) {
        face_bit(axis, true)
    } else {
        0
    }) + (if single(keys, moved(k, axis, -2 * k.side)) {
        face_bit(axis, false)
    } else {
        0
    })
}

/// Whether cube `i` hides its face toward the upper or lower neighbour
/// along `axis`: its cell is not duplicated and that neighbour cell holds
/// exactly one equal cube.
pub open spec fn hides(keys: Seq<WeldKey>, i: int, axis: int, upper: bool) -> bool {
    &&& count(keys, keys[i]) == 1
    &&& single(
        keys,
        moved(
            keys[i],
            axis,
            if upper {
                2 * keys[i].side
            } else {
                -2 * keys[i].side
            },
        ),
    )
}

/// The faces that cube `i` hides, one bit per render face.
pub open spec fn weld_mask(keys: Seq<WeldKey>, i: int) -> u32 {
    ((if hides(keys, i, 0, true) { face_bit(0, true) } else { 0 }) + (if hides(keys, i, 0, false) {
        face_bit(0, false)
    } else {
        0
    }) + (if hides(keys, i, 1, true) { face_bit(1, true) } else { 0 }) + (if hides(keys, i, 1, false) {
        face_bit(1, false)
    } else {
        0
    }) + (if hides(keys, i, 2, true) { face_bit(2, true) } else { 0 }) + (if hides(keys, i, 2, false) {
        face_bit(2, false)
    } else {
        0
    })) as u32
}

/// Equal keys are counted alike.
proof fn lemma_count_same(s: Seq<WeldKey>, a: WeldKey, b: WeldKey)
    requires
        same_key(a, b),
    ensures
        count(s, a) == count(s, b),
    decreases s.len(),
{
    if s.len() > 0 {
        lemma_count_same(s.drop_last(), a, b);
    }
}

/// Welding is mutual: when cube `i` hides its upper face along `axis`
/// toward cube `j`, cube `j` hides its lower face along that axis, and
/// `j`'s lower neighbour is `i`'s cell.
pub proof fn lemma_weld_mutual(keys: Seq<WeldKey>, i: int, j: int, axis: int)
    requires
        0 <= i < keys.len(),
        0 <= j < keys.len(),
        0 <= axis < 3,
        hides(keys, i, axis, true),
        moved(keys[i], axis, 2 * keys[i].side) matches Some(n) && same_key(n, keys[j]),
    ensures
        hides(keys, j, axis, false),
        moved(keys[j], axis, -2 * keys[j].side) matches Some(m) && same_key(m, keys[i]),
{
    let n = moved(keys[i], axis, 2 * keys[i].side).unwrap();
    lemma_count_same(keys, n, keys[j]);
    let m = moved(keys[j], axis, -2 * keys[j].side);
    assert(m is Some);
    lemma_count_same(keys, m.unwrap(), keys[i]);
}

/// The keys of key and index pairs.
pub open spec fn keys_of(s: Seq<(WeldKey, usize)>) -> Seq<WeldKey> {
    s.map_values(|p: (WeldKey, usize)| p.0)
}

/// How many pairs carry index `i`.
pub open spec fn index_count(s: Seq<(WeldKey, usize)>, i: int) -> int
    decreases s.len(),
{
    if s.len() == 0 {
        0
    } else {
        index_count(s.drop_last(), i) + if s.last().1 == i {
            1int
        } else {
            0int
        }
    }
}

/// Keys never decrease along the pairs.
pub open spec fn key_sorted(s: Seq<(WeldKey, usize)>) -> bool {
    forall|p: int, q: int| 0 <= p < q < s.len() ==> !key_lt(#[trigger] s[q].0, #[trigger] s[p].0)
}

proof fn lemma_count_push(s: Seq<WeldKey>, y: WeldKey, k: WeldKey)
    ensures
        count(s.push(y), k) == count(s, k) + if same_key(y, k) {
            1int
        } else {
            0int
        },
{
    assert(s.push(y).drop_last() =~= s);
}

proof fn lemma_index_count_push(s: Seq<(WeldKey, usize)>, y: (WeldKey, usize), i: int)
    ensures
        index_count(s.push(y), i) == index_count(s, i) + if y.1 == i {
            1int
        } else {
            0int
        },
{
    assert(s.push(y).drop_last() =~= s);
}

proof fn lemma_count_concat(a: Seq<WeldKey>, b: Seq<WeldKey>, k: WeldKey)
    ensures
        count(a + b, k) == count(a, k) + count(b, k),
    decreases b.len(),
{
    if b.len() > 0 {
        lemma_count_concat(a, b.drop_last(), k);
        assert(a + b =~= (a + b.drop_last()).push(b.last()));
        lemma_count_push(a + b.drop_last(), b.last(), k);
        assert(b =~= b.drop_last().push(b.last()));
        lemma_count_push(b.drop_last(), b.last(), k);
    } else {
        assert(a + b =~= a);
    }
}

proof fn lemma_index_count_concat(a: Seq<(WeldKey, usize)>, b: Seq<(WeldKey, usize)>, i: int)
    ensures
        index_count(a + b, i) == index_count(a, i) + index_count(b, i),
    decreases b.len(),
{
    if b.len() > 0 {
        lemma_index_count_concat(a, b.drop_last(), i);
        assert(a + b =~= (a + b.drop_last()).push(b.last()));
        lemma_index_count_push(a + b.drop_last(), b.last(), i);
        assert(b =~= b.drop_last().push(b.last()));
        lemma_index_count_push(b.drop_last(), b.last(), i);
    } else {
        assert(a + b =~= a);
    }
}

/// A key found at `p` is there once exactly when no other position holds it.
proof fn lemma_count_one(s: Seq<WeldKey>, k: WeldKey, p: int)
    requires
        0 <= p < s.len(),
        same_key(s[p], k),
    ensures
        count(s, k) >= 1,
        (count(s, k) == 1) == (forall|q: int| 0 <= q < s.len() && q != p ==> !same_key(#[trigger] s[q], k)),
    decreases s.len(),
{
    let t = s.drop_last();
    let last = s.len() - 1;
    assert forall|q: int| 0 <= q < t.len() implies #[trigger] t[q] == s[q] by {}
    if p == last {
        lemma_count_zero(t, k);
        let all_s = forall|q: int| 0 <= q < s.len() && q != p ==> !same_key(#[trigger] s[q], k);
        let all_t = forall|q: int| 0 <= q < t.len() ==> !same_key(#[trigger] t[q], k);
        assert(all_s == all_t) by {
            if all_t {
                assert forall|q: int| 0 <= q < s.len() && q != p implies !same_key(#[trigger] s[q], k) by {
                    assert(t[q] == s[q]);
                }
            }
            if all_s {
                assert forall|q: int| 0 <= q < t.len() implies !same_key(#[trigger] t[q], k) by {
                    assert(t[q] == s[q]);
                }
            }
        }
    } else {
        lemma_count_one(t, k, p);
        let all_s = forall|q: int| 0 <= q < s.len() && q != p ==> !same_key(#[trigger] s[q], k);
        let all_t = forall|q: int| 0 <= q < t.len() && q != p ==> !same_key(#[trigger] t[q], k);
        assert(all_s == (all_t && !same_key(s[last], k))) by {
            if all_t && !same_key(s[last], k) {
                assert forall|q: int| 0 <= q < s.len() && q != p implies !same_key(#[trigger] s[q], k) by {
                    if q < t.len() {
                        assert(t[q] == s[q]);
                    }
                }
            }
            if all_s {
                assert forall|q: int| 0 <= q < t.len() && q != p implies !same_key(#[trigger] t[q], k) by {
                    assert(t[q] == s[q]);
                }
                assert(!same_key(s[last], k));
            }
        }
    }
}

/// No key, no count.
proof fn lemma_count_zero(s: Seq<WeldKey>, k: WeldKey)
    ensures
        (count(s, k) == 0) == (forall|q: int| 0 <= q < s.len() ==> !same_key(#[trigger] s[q], k)),
        count(s, k) >= 0,
    decreases s.len(),
{
    if s.len() > 0 {
        let t = s.drop_last();
        let last = s.len() - 1;
        lemma_count_zero(t, k);
        assert forall|q: int| 0 <= q < t.len() implies #[trigger] t[q] == s[q] by {}
        let all_s = forall|q: int| 0 <= q < s.len() ==> !same_key(#[trigger] s[q], k);
        let all_t = forall|q: int| 0 <= q < t.len() ==> !same_key(#[trigger] t[q], k);
        assert(all_s == (all_t && !same_key(s[last], k))) by {
            if all_t && !same_key(s[last], k) {
                assert forall|q: int| 0 <= q < s.len() implies !same_key(#[trigger] s[q], k) by {
                    if q < t.len() {
                        assert(t[q] == s[q]);
                    }
                }
            }
            if all_s {
                assert forall|q: int| 0 <= q < t.len() implies !same_key(#[trigger] t[q], k) by {
                    assert(t[q] == s[q]);
                }
                assert(!same_key(s[last], k));
            }
        }
    }
}

/// An index is counted exactly when some pair carries it; two positions
/// with one index count it twice.
proof fn lemma_index_count(s: Seq<(WeldKey, usize)>, i: int)
    ensures
        (index_count(s, i) >= 1) == (exists|p: int| 0 <= p < s.len() && #[trigger] s[p].1 == i),
        forall|p: int, q: int|
            0 <= p < q < s.len() && #[trigger] s[p].1 == i && #[trigger] s[q].1 == i ==> index_count(s, i) >= 2,
        index_count(s, i) >= 0,
    decreases s.len(),
{
    if s.len() > 0 {
        let t = s.drop_last();
        let last = s.len() - 1;
        lemma_index_count(t, i);
        assert forall|q: int| 0 <= q < t.len() implies #[trigger] t[q] == s[q] by {}
        if index_count(s, i) >= 1 {
            if s[last].1 != i {
                let p = choose|p: int| 0 <= p < t.len() && #[trigger] t[p].1 == i;
                assert(s[p].1 == i);
            }
        }
        if exists|p: int| 0 <= p < s.len() && #[trigger] s[p].1 == i {
            let p = choose|p: int| 0 <= p < s.len() && #[trigger] s[p].1 == i;
            if p < t.len() {
                assert(t[p].1 == i);
            }
        }
        assert forall|p: int, q: int|
            0 <= p < q < s.len() && #[trigger] s[p].1 == i && #[trigger] s[q].1 == i implies index_count(s, i) >= 2 by {
            if q < t.len() {
                assert(t[p].1 == i && t[q].1 == i);
            } else {
                assert(t[p].1 == i);
            }
        }
    }
}

/// Merge two sorted runs into one, keeping every pair.
fn merge(a: Vec<(WeldKey, usize)>, b: Vec<(WeldKey, usize)>) -> (out: Vec<(WeldKey, usize)>)
    requires
        key_sorted(a@),
        key_sorted(b@),
    ensures
        key_sorted(out@),
        out@.len() == a@.len() + b@.len(),
        forall|k: WeldKey| #[trigger] count(keys_of(out@), k) == count(keys_of(a@), k) + count(keys_of(b@), k),
        forall|i: int| #[trigger] index_count(out@, i) == index_count(a@, i) + index_count(b@, i),
        forall|p: int| 0 <= p < out@.len() ==> a@.contains(#[trigger] out@[p]) || b@.contains(out@[p]),
{
    let mut out: Vec<(WeldKey, usize)> = Vec::new();
    let mut i: usize = 0;
    let mut j: usize = 0;
    proof {
        assert(keys_of(a@.take(0)) =~= Seq::<WeldKey>::empty());
        assert(keys_of(b@.take(0)) =~= Seq::<WeldKey>::empty());
        assert(keys_of(out@) =~= Seq::<WeldKey>::empty());
        assert(a@.take(0) =~= Seq::<(WeldKey, usize)>::empty());
        assert(b@.take(0) =~= Seq::<(WeldKey, usize)>::empty());
    }
    while i < a.len() || j < b.len()
        invariant
            i <= a@.len(),
            j <= b@.len(),
            key_sorted(a@),
            key_sorted(b@),
            key_sorted(out@),
            out@.len() == i + j,
            forall|k: WeldKey| #[trigger] count(keys_of(out@), k) == count(keys_of(a@.take(i as int)), k) + count(keys_of(b@.take(j as int)), k),
            forall|x: int| #[trigger] index_count(out@, x) == index_count(a@.take(i as int), x) + index_count(b@.take(j as int), x),
            forall|p: int| 0 <= p < out@.len() ==> a@.contains(#[trigger] out@[p]) || b@.contains(out@[p]),
            out@.len() > 0 && i < a@.len() ==> !key_lt(a@[i as int].0, out@.last().0),
            out@.len() > 0 && j < b@.len() ==> !key_lt(b@[j as int].0, out@.last().0),
        decreases a.len() + b.len() - i - j,
    {
        let take_a = j >= b.len() || (i < a.len() && !key_less(&b[j].0, &a[i].0));
        let x = if take_a {
            a[i]
        } else {
            b[j]
        };
        let ghost before = out@;
        proof {
            assert forall|p: int| 0 <= p < before.len() implies !key_lt(x.0, #[trigger] before[p].0) by {
                lemma_key_order(x.0, before[p].0, before.last().0);
                lemma_key_order(before[p].0, before.last().0, x.0);
                lemma_key_order(x.0, before.last().0, before[p].0);
                if p < before.len() - 1 {
                    assert(!key_lt(before.last().0, before[p].0));
                }
            }
            assert(keys_of(before.push(x)) =~= keys_of(before).push(x.0));
            if take_a {
                assert(a@.take(i + 1) =~= a@.take(i as int).push(x));
                assert(keys_of(a@.take(i + 1)) =~= keys_of(a@.take(i as int)).push(x.0));
                assert(a@.contains(x) && a@[i as int] == x);
            } else {
                assert(b@.take(j + 1) =~= b@.take(j as int).push(x));
                assert(keys_of(b@.take(j + 1)) =~= keys_of(b@.take(j as int)).push(x.0));
                assert(b@.contains(x) && b@[j as int] == x);
            }
            assert forall|k: WeldKey| #[trigger] count(keys_of(before.push(x)), k) == count(keys_of(before), k) + if same_key(x.0, k) {
                1int
            } else {
                0int
            } by {
                lemma_count_push(keys_of(before), x.0, k);
            }
            assert forall|k: WeldKey| #[trigger] count(keys_of(a@.take(i as int).push(x)), k) == count(keys_of(a@.take(i as int)), k) + if same_key(x.0, k) {
                1int
            } else {
                0int
            } by {
                assert(keys_of(a@.take(i as int).push(x)) =~= keys_of(a@.take(i as int)).push(x.0));
                lemma_count_push(keys_of(a@.take(i as int)), x.0, k);
            }
            assert forall|k: WeldKey| #[trigger] count(keys_of(b@.take(j as int).push(x)), k) == count(keys_of(b@.take(j as int)), k) + if same_key(x.0, k) {
                1int
            } else {
                0int
            } by {
                assert(keys_of(b@.take(j as int).push(x)) =~= keys_of(b@.take(j as int)).push(x.0));
                lemma_count_push(keys_of(b@.take(j as int)), x.0, k);
            }
            assert forall|y: int| #[trigger] index_count(before.push(x), y) == index_count(before, y) + if x.1 == y {
                1int
            } else {
                0int
            } by {
                lemma_index_count_push(before, x, y);
            }
            assert forall|y: int| #[trigger] index_count(a@.take(i as int).push(x), y) == index_count(a@.take(i as int), y) + if x.1 == y {
                1int
            } else {
                0int
            } by {
                lemma_index_count_push(a@.take(i as int), x, y);
            }
            assert forall|y: int| #[trigger] index_count(b@.take(j as int).push(x), y) == index_count(b@.take(j as int), y) + if x.1 == y {
                1int
            } else {
                0int
            } by {
                lemma_index_count_push(b@.take(j as int), x, y);
            }
            if take_a {
                if i + 1 < a@.len() {
                    assert(!key_lt(a@[i + 1].0, a@[i as int].0));
                }
                if j < b@.len() {
                    lemma_key_order(b@[j as int].0, a@[i as int].0, a@[i as int].0);
                }
            } else {
                if j + 1 < b@.len() {
                    assert(!key_lt(b@[j + 1].0, b@[j as int].0));
                }
                if i < a@.len() {
                    lemma_key_order(a@[i as int].0, b@[j as int].0, b@[j as int].0);
                }
            }
        }
        out.push(x);
        if take_a {
            i = i + 1;
        } else {
            j = j + 1;
        }
    }
    proof {
        assert(a@.take(a@.len() as int) =~= a@);
        assert(b@.take(b@.len() as int) =~= b@);
    }
    out
}

/// Sort pairs by key (merge sort), keeping every pair.
fn sort_pairs(v: Vec<(WeldKey, usize)>) -> (out: Vec<(WeldKey, usize)>)
    ensures
        key_sorted(out@),
        out@.len() == v@.len(),
        forall|k: WeldKey| #[trigger] count(keys_of(out@), k) == count(keys_of(v@), k),
        forall|i: int| #[trigger] index_count(out@, i) == index_count(v@, i),
        forall|p: int| 0 <= p < out@.len() ==> v@.contains(#[trigger] out@[p]),
    decreases v@.len(),
{
    let n = v.len();
    if n <= 1 {
        return v;
    }
    let mid = n / 2;
    let mut left: Vec<(WeldKey, usize)> = Vec::new();
    let mut right: Vec<(WeldKey, usize)> = Vec::new();
    let mut k: usize = 0;
    while k < n
        invariant
            n == v@.len(),
            mid == n / 2,
            k <= n,
            k <= mid ==> left@ == v@.take(k as int) && right@.len() == 0,
            k > mid ==> left@ == v@.take(mid as int) && right@ == v@.subrange(mid as int, k as int),
        decreases n - k,
    {
        if k < mid {
            left.push(v[k]);
            proof {
                assert(left@ =~= v@.take(k + 1));
            }
        } else {
            right.push(v[k]);
            proof {
                assert(right@ =~= v@.subrange(mid as int, k + 1));
            }
        }
        k = k + 1;
    }
    proof {
        assert(v@ =~= left@ + right@);
    }
    let a = sort_pairs(left);
    let b = sort_pairs(right);
    let out = merge(a, b);
    proof {
        assert(keys_of(v@) =~= keys_of(left@) + keys_of(right@));
        assert forall|kk: WeldKey| #[trigger] count(keys_of(out@), kk) == count(keys_of(v@), kk) by {
            lemma_count_concat(keys_of(left@), keys_of(right@), kk);
        }
        assert forall|x: int| #[trigger] index_count(out@, x) == index_count(v@, x) by {
            lemma_index_count_concat(left@, right@, x);
        }
        assert forall|p: int| 0 <= p < out@.len() implies v@.contains(#[trigger] out@[p]) by {
            if a@.contains(out@[p]) {
                let q = choose|q: int| 0 <= q < a@.len() && a@[q] == out@[p];
                assert(left@.contains(a@[q]));
                let r = choose|r: int| 0 <= r < left@.len() && left@[r] == a@[q];
                assert(v@[r] == left@[r]);
            } else {
                let q = choose|q: int| 0 <= q < b@.len() && b@[q] == out@[p];
                assert(right@.contains(b@[q]));
                let r = choose|r: int| 0 <= r < right@.len() && right@[r] == b@[q];
                assert(v@[mid + r] == right@[r]);
            }
        }
    }
    out
}


/// The position of a pair with key `k`, if any, in pairs sorted by key.
fn find_key(s: &Vec<(WeldKey, usize)>, k: &WeldKey) -> (r: Option<usize>)
    requires
        key_sorted(s@),
    ensures
        match r {
            Some(q) => q < s@.len() && same_key(s@[q as int].0, *k),
            None => forall|q: int| 0 <= q < s@.len() ==> !same_key(#[trigger] s@[q].0, *k),
        },
{
    let mut lo: usize = 0;
    let mut hi: usize = s.len();
    while lo < hi
        invariant
            key_sorted(s@),
            lo <= hi <= s@.len(),
            forall|q: int| 0 <= q < lo ==> key_lt(#[trigger] s@[q].0, *k),
            forall|q: int| hi <= q < s@.len() ==> !key_lt(#[trigger] s@[q].0, *k),
        decreases hi - lo,
    {
        let mid = lo + (hi - lo) / 2;
        if key_less(&s[mid].0, k) {
            proof {
                assert forall|q: int| 0 <= q < mid + 1 implies key_lt(#[trigger] s@[q].0, *k) by {
                    if q < mid {
                        lemma_key_order(s@[q].0, s@[mid as int].0, *k);
                        lemma_key_order(s@[mid as int].0, s@[q].0, *k);
                        lemma_key_order(s@[q].0, s@[q].0, s@[mid as int].0);
                    }
                }
            }
            lo = mid + 1;
        } else {
            proof {
                assert forall|q: int| mid <= q < s@.len() implies !key_lt(#[trigger] s@[q].0, *k) by {
                    if q > mid {
                        lemma_key_order(s@[q].0, s@[mid as int].0, *k);
                        lemma_key_order(s@[mid as int].0, s@[q].0, *k);
                        lemma_key_order(s@[q].0, *k, s@[mid as int].0);
                    }
                }
            }
            hi = mid;
        }
    }
    if lo < s.len() && key_equal(&s[lo].0, k) {
        return Some(lo);
    }
    proof {
        assert forall|q: int| 0 <= q < s@.len() implies !same_key(#[trigger] s@[q].0, *k) by {
            lemma_key_order(s@[q].0, *k, *k);
            if q >= lo {
                lemma_key_order(*k, s@[lo as int].0, s@[q].0);
                lemma_key_order(s@[lo as int].0, *k, *k);
                lemma_key_order(s@[q].0, s@[lo as int].0, *k);
            }
        }
    }
    None
}

/// Whether no other pair shares the key at `p`: in sorted pairs, exactly
/// when neither neighbour does.
fn unique_at(s: &Vec<(WeldKey, usize)>, p: usize) -> (r: bool)
    requires
        key_sorted(s@),
        p < s@.len(),
    ensures
        r == (forall|q: int| 0 <= q < s@.len() && q != p ==> !same_key(#[trigger] s@[q].0, s@[p as int].0)),
{
    let below = p > 0 && key_equal(&s[p - 1].0, &s[p].0);
    let above = p < s.len() - 1 && key_equal(&s[p + 1].0, &s[p].0);
    proof {
        if !below && !above {
            assert forall|q: int| 0 <= q < s@.len() && q != p implies !same_key(#[trigger] s@[q].0, s@[p as int].0) by {
                if q < p {
                    lemma_key_order(s@[p - 1].0, s@[p as int].0, s@[p as int].0);
                    lemma_key_order(s@[q].0, s@[p - 1].0, s@[p as int].0);
                    lemma_key_order(s@[p - 1].0, s@[q].0, s@[p as int].0);
                    lemma_key_order(s@[q].0, s@[q].0, s@[p - 1].0);
                } else {
                    lemma_key_order(s@[p as int].0, s@[p + 1].0, s@[p + 1].0);
                    lemma_key_order(s@[p as int].0, s@[p + 1].0, s@[q].0);
                    lemma_key_order(s@[p + 1].0, s@[q].0, s@[p as int].0);
                    lemma_key_order(s@[q].0, s@[q].0, s@[p + 1].0);
                }
            }
        }
    }
    !below && !above
}

/// `moved` in machine integers.
fn moved_key(k: &WeldKey, axis: usize, up: bool) -> (r: Option<WeldKey>)
    requires
        axis < 3,
    ensures
        r == moved(*k, axis as int, if up {
            2 * k.side
        } else {
            -2 * k.side
        }),
{
    let step = 2 * (k.side as i64);
    if step < i32::MIN as i64 || step > i32::MAX as i64 {
        return None;
    }
    let c = k.center[axis] as i64 + if up {
        step
    } else {
        -step
    };
    if c < i32::MIN as i64 || c > i32::MAX as i64 {
        return None;
    }
    let v = c as i32;
    Some(
        WeldKey {
            center: [
                if axis == 0 {
                    v
                } else {
                    k.center[0]
                },
                if axis == 1 {
                    v
                } else {
                    k.center[1]
                },
                if axis == 2 {
                    v
                } else {
                    k.center[2]
                },
            ],
            ..*k
        },
    )
}

fn bit_of(axis: usize, upper: bool) -> (b: u32)
    requires
        axis < 3,
    ensures
        b == face_bit(axis as int, upper),
{
    if axis == 0 {
        if upper {
            1
        } else {
            2
        }
    } else if axis == 1 {
        if upper {
            8
        } else {
            4
        }
    } else {
        if upper {
            32
        } else {
            16
        }
    }
}

/// Whether `n` is the key of exactly one cube, looked up in the sorted pairs.
fn single_in(s: &Vec<(WeldKey, usize)>, n: Option<WeldKey>, Ghost(keys): Ghost<Seq<WeldKey>>) -> (r: bool)
    requires
        key_sorted(s@),
        forall|k: WeldKey| #[trigger] count(keys_of(s@), k) == count(keys, k),
    ensures
        r == single(keys, n),
{
    match n {
        None => false,
        Some(k) => match find_key(s, &k) {
            None => {
                proof {
                    lemma_count_zero(keys_of(s@), k);
                    assert forall|q: int| 0 <= q < keys_of(s@).len() implies !same_key(#[trigger] keys_of(s@)[q], k) by {
                        assert(keys_of(s@)[q] == s@[q].0);
                    }
                }
                false
            },
            Some(q) => {
                let u = unique_at(s, q);
                proof {
                    let ks = keys_of(s@);
                    assert(ks[q as int] == s@[q as int].0);
                    lemma_count_one(ks, k, q as int);
                    assert forall|x: int| 0 <= x < ks.len() implies #[trigger] ks[x] == s@[x].0 by {}
                    if u {
                        assert forall|x: int| 0 <= x < ks.len() && x != q implies !same_key(#[trigger] ks[x], k) by {
                            assert(!same_key(s@[x].0, s@[q as int].0));
                        }
                    } else {
                        let x = choose|x: int| 0 <= x < s@.len() && x != q && same_key(#[trigger] s@[x].0, s@[q as int].0);
                        assert(same_key(ks[x], k));
                    }
                }
                u
            },
        },
    }
}

/// The faces that a cube with key `k` hides along one axis.
fn axis_bits(s: &Vec<(WeldKey, usize)>, k: &WeldKey, axis: usize, Ghost(keys): Ghost<Seq<WeldKey>>) -> (b: u32)
    requires
        axis < 3,
        key_sorted(s@),
        forall|kk: WeldKey| #[trigger] count(keys_of(s@), kk) == count(keys, kk),
    ensures
        b == axis_mask(keys, *k, axis as int),
        b <= 48,
{
    let upper = single_in(s, moved_key(k, axis, true), Ghost(keys));
    let lower = single_in(s, moved_key(k, axis, false), Ghost(keys));
    (if upper {
        bit_of(axis, true)
    } else {
        0
    }) + (if lower {
        bit_of(axis, false)
    } else {
        0
    })
}

/// The faces each cube hides (see `weld_mask`), by position in `keys`.
pub fn face_masks(keys: &[WeldKey]) -> (masks: Vec<u32>)
    ensures
        masks@.len() == keys@.len(),
        forall|i: int| 0 <= i < keys@.len() ==> #[trigger] masks@[i] == weld_mask(keys@, i),
{
    let n = keys.len();
    let mut pairs: Vec<(WeldKey, usize)> = Vec::new();
    let mut i: usize = 0;
    while i < n
        invariant
            n == keys@.len(),
            i <= n,
            pairs@.len() == i,
            forall|j: int| 0 <= j < i ==> #[trigger] pairs@[j] == (keys@[j], j as usize),
            forall|x: int| #[trigger] index_count(pairs@, x) == if 0 <= x < i {
                1int
            } else {
                0int
            },
        decreases n - i,
    {
        proof {
            assert forall|x: int| #[trigger] index_count(pairs@.push((keys@[i as int], i)), x) == if 0 <= x < i + 1 {
                1int
            } else {
                0int
            } by {
                lemma_index_count_push(pairs@, (keys@[i as int], i), x);
            }
        }
        pairs.push((keys[i], i));
        i = i + 1;
    }
    let ghost start = pairs@;
    proof {
        assert(keys_of(start) =~= keys@);
    }
    let sorted = sort_pairs(pairs);
    let mut masks: Vec<u32> = vec![0u32; n];
    let mut p: usize = 0;
    while p < n
        invariant
            n == keys@.len(),
            sorted@.len() == n,
            masks@.len() == n,
            key_sorted(sorted@),
            keys_of(start) == keys@,
            forall|k: WeldKey| #[trigger] count(keys_of(sorted@), k) == count(keys@, k),
            forall|x: int| #[trigger] index_count(sorted@, x) == if 0 <= x < n {
                1int
            } else {
                0int
            },
            forall|q: int| 0 <= q < n ==> start.contains(#[trigger] sorted@[q]),
            forall|j: int| 0 <= j < n ==> #[trigger] start[j] == (keys@[j], j as usize),
            p <= n,
            forall|q: int| 0 <= q < p ==> #[trigger] masks@[sorted@[q].1 as int] == weld_mask(keys@, sorted@[q].1 as int),
        decreases n - p,
    {
        let (k, idx) = sorted[p];
        proof {
            let j = choose|j: int| 0 <= j < start.len() && start[j] == sorted@[p as int];
            assert(idx == j && k == keys@[j]);
        }
        let u = unique_at(&sorted, p);
        proof {
            let ks = keys_of(sorted@);
            assert forall|x: int| 0 <= x < ks.len() implies #[trigger] ks[x] == sorted@[x].0 by {}
            lemma_count_one(ks, k, p as int);
            if u {
                assert forall|x: int| 0 <= x < ks.len() && x != p implies !same_key(#[trigger] ks[x], k) by {
                    assert(!same_key(sorted@[x].0, sorted@[p as int].0));
                }
            } else {
                let x = choose|x: int| 0 <= x < sorted@.len() && x != p && same_key(#[trigger] sorted@[x].0, sorted@[p as int].0);
                assert(same_key(ks[x], k));
            }
            assert(u == (count(ks, k) == 1));
        }
        let m: u32 = if u {
            axis_bits(&sorted, &k, 0, Ghost(keys@)) + axis_bits(&sorted, &k, 1, Ghost(keys@))
                + axis_bits(&sorted, &k, 2, Ghost(keys@))
        } else {
            0
        };
        let ghost at = idx as int;
        proof {
            assert(keys@[at] == k);
            lemma_index_count(sorted@, at);
            assert forall|q: int| 0 <= q < p implies sorted@[q].1 != idx by {
                if sorted@[q].1 == idx {
                    assert(index_count(sorted@, at) >= 2);
                }
            }
        }
        masks.set(idx, m);
        p = p + 1;
    }
    proof {
        assert forall|x: int| 0 <= x < n implies #[trigger] masks@[x] == weld_mask(keys@, x) by {
            lemma_index_count(sorted@, x);
            let q = choose|q: int| 0 <= q < sorted@.len() && #[trigger] sorted@[q].1 == x;
            assert(masks@[sorted@[q].1 as int] == weld_mask(keys@, sorted@[q].1 as int));
        }
    }
    masks
}

/// How many masks hide at least one face.
pub open spec fn joined_count(masks: Seq<u32>) -> int
    decreases masks.len(),
{
    if masks.len() == 0 {
        0
    } else {
        joined_count(masks.drop_last()) + if masks.last() != 0 {
            1int
        } else {
            0int
        }
    }
}

/// The number of set bits.
pub open spec fn bit_count(m: u32) -> int
    decreases m,
{
    if m == 0 {
        0
    } else {
        (m % 2) as int + bit_count(m / 2)
    }
}

/// How many faces the masks hide in all.
pub open spec fn face_total(masks: Seq<u32>) -> int
    decreases masks.len(),
{
    if masks.len() == 0 {
        0
    } else {
        face_total(masks.drop_last()) + bit_count(masks.last())
    }
}

proof fn lemma_bit_count_bound(m: u32)
    ensures
        0 <= bit_count(m),
        m < 64 ==> bit_count(m) <= 6,
    decreases m,
{
    if m != 0 {
        lemma_bit_count_bound(m / 2);
        if m < 64 {
            assert(m / 2 < 32);
            lemma_bit_count_small(m / 2);
        }
    }
}

proof fn lemma_bit_count_small(m: u32)
    requires
        m < 32,
    ensures
        bit_count(m) <= 5,
    decreases m,
{
    if m != 0 {
        lemma_bit_count_at_most(m / 2, 16, 4);
    }
}

/// Fewer than `2^b` has at most `b` set bits.
proof fn lemma_bit_count_at_most(m: u32, limit: u32, b: int)
    requires
        m < limit,
        (limit == 16 && b == 4) || (limit == 8 && b == 3) || (limit == 4 && b == 2) || (limit == 2 && b
            == 1) || (limit == 1 && b == 0),
    ensures
        bit_count(m) <= b,
    decreases limit,
{
    if m != 0 {
        lemma_bit_count_at_most(m / 2, limit / 2, b - 1);
    }
}

fn bits_in(m: u32) -> (c: usize)
    ensures
        c == bit_count(m),
{
    let mut c: usize = 0;
    let mut rest: u32 = m;
    while rest > 0
        invariant
            c + bit_count(rest) == bit_count(m),
            c + rest as int <= m,
        decreases rest,
    {
        c = c + (rest % 2) as usize;
        rest = rest / 2;
    }
    proof {
        lemma_bit_count_upper(m);
    }
    c
}

proof fn lemma_bit_count_upper(m: u32)
    ensures
        bit_count(m) <= m,
    decreases m,
{
    if m != 0 {
        lemma_bit_count_upper(m / 2);
    }
}

proof fn lemma_weld_mask_small(keys: Seq<WeldKey>, i: int)
    ensures
        weld_mask(keys, i) < 64,
{
}

/// The flags of a welded cube: the weld class, its colour class and the
/// faces it hides.
pub fn welded_flags(color: u32, mask: u32) -> (f: u32)
    requires
        mask < 64,
    ensures
        f == CLASS | color | (mask << 4u32),
{
    CLASS | color | (mask << 4u32)
}

/// The colour class of a cube's flags, if it can weld: a palette colour
/// found among the first sixteen `colors`, or one of the six materials.
pub fn color_class(flags: u32, colors: &[u32]) -> (r: Option<u32>)
    ensures
        (flags & 0xffff) & CUSTOM_RGB555 != 0 ==> match r {
            Some(c) => c < 16 && c < colors@.len() && colors@[c as int] == flags & 0x7fff && forall|
                j: int,
            | 0 <= j < c ==> colors@[j] != flags & 0x7fff,
            None => forall|j: int| 0 <= j < colors@.len() && j < 16 ==> colors@[j] != flags & 0x7fff,
        },
        (flags & 0xffff) & CUSTOM_RGB555 == 0 ==> r == if (flags & 0xffff) & !7u32 == 24576 && (flags
            & 0xffff) & 7 < 6 {
            Some(MATERIAL | ((flags & 0xffff) & 7))
        } else {
            None
        },
{
    let f = flags & 0xffff;
    if f & CUSTOM_RGB555 != 0 {
        let rgb = f & 0x7fff;
        assert(rgb == flags & 0x7fff) by (bit_vector)
            requires
                f == flags & 0xffff,
                rgb == f & 0x7fff,
        ;
        let mut i: usize = 0;
        while i < colors.len()
            invariant
                i <= colors@.len(),
                f == flags & 0xffff,
                f & CUSTOM_RGB555 != 0,
                rgb == flags & 0x7fff,
                forall|j: int| 0 <= j < i ==> colors@[j] != rgb,
            decreases colors.len() - i,
        {
            if colors[i] == rgb {
                if i >= 16 {
                    return None;
                }
                return Some(i as u32);
            }
            i = i + 1;
        }
        None
    } else if f & !7u32 == 24576 && f & 7 < 6 {
        Some(MATERIAL | (f & 7))
    } else {
        None
    }
}

/// The weld switch and what the last frame welded.
pub struct Welder {
    pub enabled: bool,
    /// Whether the toggle key was down on the last call of `key`.
    pub held: bool,
    pub joined: usize,
    pub removed_faces: usize,
}

impl Default for Welder {
    fn default() -> (w: Self)
        ensures
            !w.enabled,
            !w.held,
            w.joined == 0,
            w.removed_faces == 0,
    {
        Welder { enabled: false, held: false, joined: 0, removed_faces: 0 }
    }
}

impl Welder {
    /// The toggle key flips welding on its press, while the world is active.
    pub fn key(&mut self, held: bool, active: bool)
        ensures
            final(self).enabled == if held && !old(self).held && active {
                !old(self).enabled
            } else {
                old(self).enabled
            },
            final(self).held == held,
            final(self).joined == old(self).joined,
            final(self).removed_faces == old(self).removed_faces,
    {
        if held && !self.held && active {
            self.enabled = !self.enabled;
        }
        self.held = held;
    }

    /// The faces that each of `keys` hides this frame (none at all while
    /// welding is off), and the tallies of the frame.
    pub fn prepare(&mut self, keys: &[WeldKey]) -> (masks: Vec<u32>)
        requires
            keys@.len() * 6 <= usize::MAX,
        ensures
            final(self).enabled == old(self).enabled,
            final(self).held == old(self).held,
            !old(self).enabled ==> masks@.len() == 0,
            old(self).enabled ==> masks@.len() == keys@.len() && forall|i: int|
                0 <= i < keys@.len() ==> #[trigger] masks@[i] == weld_mask(keys@, i),
            final(self).joined == joined_count(masks@),
            final(self).removed_faces == face_total(masks@),
    {
        self.joined = 0;
        self.removed_faces = 0;
        if !self.enabled {
            let empty: Vec<u32> = Vec::new();
            return empty;
        }
        let masks = face_masks(keys);
        let mut i: usize = 0;
        while i < masks.len()
            invariant
                masks@.len() == keys@.len(),
                keys@.len() * 6 <= usize::MAX,
                i <= masks@.len(),
                forall|x: int| 0 <= x < keys@.len() ==> #[trigger] masks@[x] == weld_mask(keys@, x),
                self.joined == joined_count(masks@.take(i as int)),
                self.removed_faces == face_total(masks@.take(i as int)),
                self.joined <= i,
                self.removed_faces <= 6 * i,
                self.enabled == old(self).enabled,
                self.held == old(self).held,
            decreases masks.len() - i,
        {
            proof {
                assert(masks@.take(i + 1).drop_last() =~= masks@.take(i as int));
                lemma_weld_mask_small(keys@, i as int);
                lemma_bit_count_bound(masks@[i as int]);
            }
            if masks[i] != 0 {
                self.joined = self.joined + 1;
            }
            self.removed_faces = self.removed_faces + bits_in(masks[i]);
            i = i + 1;
        }
        proof {
            assert(masks@.take(masks@.len() as int) =~= masks@);
        }
        masks
    }

    /// Triangles that welding spared this frame.
    pub fn triangles_saved(&self) -> (n: usize)
        requires
            self.joined * 32 + self.removed_faces * 2 <= usize::MAX,
        ensures
            n == self.joined * 32 + self.removed_faces * 2,
    {
        self.joined * 32 + self.removed_faces * 2
    }
}

} // verus!
