//! Marker level of detail: Morton keys that order marker cells spatially.
use vstd::prelude::*;

verus! {

/// Bit `k` of the ten low bits of `v`, moved to bit `3k`.
pub open spec fn spec_spread(v: u32) -> u32 {
    (v & 1) | ((v & 2) << 2u32) | ((v & 4) << 4u32) | ((v & 8) << 6u32) | ((v & 16) << 8u32) | ((v
        & 32) << 10u32) | ((v & 64) << 12u32) | ((v & 128) << 14u32) | ((v & 256) << 16u32) | ((v
        & 512) << 18u32)
}

/// Spread the ten low bits of `value` three apart, so that three spread
/// coordinates interleave into one Morton key. Of the higher bits only bits
/// 24 and 25 survive, at bits 24 and 27; coordinates below 1024 have none.
pub fn spread(value: u32) -> (r: u32)
    ensures
        r == spec_spread(value) | (value & 0x0100_0000) | ((value & 0x0200_0000) << 2u32),
        value < 1024 ==> r == spec_spread(value),
{
    let mut v = value;
    v = (v | (v << 16)) & 0x030000ff;
    v = (v | (v << 8)) & 0x0300f00f;
    v = (v | (v << 4)) & 0x030c30c3;
    v = (v | (v << 2)) & 0x09249249;
    proof {
        let x = value;
        let a = (x | (x << 16u32)) & 0x030000ffu32;
        let b = (a | (a << 8u32)) & 0x0300f00fu32;
        let c = (b | (b << 4u32)) & 0x030c30c3u32;
        let d = (c | (c << 2u32)) & 0x09249249u32;
        assert(d == (x & 1) | ((x & 2) << 2u32) | ((x & 4) << 4u32) | ((x & 8) << 6u32) | ((x
            & 16) << 8u32) | ((x & 32) << 10u32) | ((x & 64) << 12u32) | ((x & 128) << 14u32) | ((
        x & 256) << 16u32) | ((x & 512) << 18u32) | (x & 0x0100_0000u32) | ((x & 0x0200_0000u32)
            << 2u32)) by (bit_vector)
            requires
                a == (x | (x << 16u32)) & 0x030000ffu32,
                b == (a | (a << 8u32)) & 0x0300f00fu32,
                c == (b | (b << 4u32)) & 0x030c30c3u32,
                d == (c | (c << 2u32)) & 0x09249249u32,
        ;
        if x < 1024 {
            assert((x & 0x0100_0000u32) == 0 && (x & 0x0200_0000u32) == 0) by (bit_vector)
                requires
                    x < 1024,
            ;
            assert(((x & 0x0200_0000u32) << 2u32) == 0) by (bit_vector)
                requires
                    (x & 0x0200_0000u32) == 0,
            ;
            let s = spec_spread(x);
            assert(s | 0u32 | 0u32 == s) by (bit_vector);
        }
    }
    v
}


/// A marker's sort key and its position in the caller's list.
#[derive(Clone, Copy, Debug)]
pub struct Keyed {
    pub key: u32,
    pub id: usize,
}

/// Byte `shift / 8` of `key`.
pub open spec fn digit(key: u32, shift: u32) -> int {
    ((key >> shift) & 255u32) as int
}

/// The elements of `s` whose byte at `shift` is `v`, in order.
pub open spec fn block(s: Seq<Keyed>, shift: u32, v: int) -> Seq<Keyed>
    decreases s.len(),
{
    if s.len() == 0 {
        Seq::empty()
    } else {
        let b = block(s.drop_last(), shift, v);
        if digit(s.last().key, shift) == v {
            b.push(s.last())
        } else {
            b
        }
    }
}

/// The blocks of the bytes below `v`, one after another: one counting pass.
pub open spec fn grouped(s: Seq<Keyed>, shift: u32, v: int) -> Seq<Keyed>
    decreases v,
{
    if v <= 0 {
        Seq::empty()
    } else {
        grouped(s, shift, v - 1) + block(s, shift, v - 1)
    }
}

/// Where block `v` starts in the counting pass.
pub open spec fn below(s: Seq<Keyed>, shift: u32, v: int) -> int {
    grouped(s, shift, v).len() as int
}

proof fn lemma_block_push(s: Seq<Keyed>, x: Keyed, shift: u32, v: int)
    ensures
        block(s.push(x), shift, v) == (if digit(x.key, shift) == v {
            block(s, shift, v).push(x)
        } else {
            block(s, shift, v)
        }),
{
    assert(s.push(x).drop_last() =~= s);
}

proof fn lemma_grouped_push(s: Seq<Keyed>, x: Keyed, shift: u32, v: int)
    requires
        0 <= v,
    ensures
        below(s.push(x), shift, v) == below(s, shift, v) + (if digit(x.key, shift) < v {
            1int
        } else {
            0int
        }),
    decreases v,
{
    if v > 0 {
        lemma_grouped_push(s, x, shift, v - 1);
        lemma_block_push(s, x, shift, v - 1);
    }
}

proof fn lemma_digit_range(key: u32, shift: u32)
    ensures
        0 <= digit(key, shift) < 256,
{
    assert(((key >> shift) & 255u32) <= 255u32) by (bit_vector);
}

/// The blocks of all 256 bytes hold every element once.
proof fn lemma_grouped_len(s: Seq<Keyed>, shift: u32)
    ensures
        below(s, shift, 256) == s.len(),
    decreases s.len(),
{
    if s.len() > 0 {
        lemma_grouped_len(s.drop_last(), shift);
        lemma_grouped_push(s.drop_last(), s.last(), shift, 256);
        lemma_digit_range(s.last().key, shift);
        assert(s.drop_last().push(s.last()) =~= s);
    } else {
        lemma_grouped_empty(s, shift, 256);
    }
}

proof fn lemma_grouped_empty(s: Seq<Keyed>, shift: u32, v: int)
    requires
        s.len() == 0,
        0 <= v,
    ensures
        below(s, shift, v) == 0,
    decreases v,
{
    if v > 0 {
        lemma_grouped_empty(s, shift, v - 1);
    }
}

proof fn lemma_below_step(s: Seq<Keyed>, shift: u32, v: int)
    requires
        0 <= v,
    ensures
        below(s, shift, v + 1) == below(s, shift, v) + block(s, shift, v).len(),
{
}

proof fn lemma_below_monotone(s: Seq<Keyed>, shift: u32, v: int, w: int)
    requires
        0 <= v <= w,
    ensures
        below(s, shift, v) <= below(s, shift, w),
    decreases w - v,
{
    if v < w {
        lemma_below_monotone(s, shift, v, w - 1);
        lemma_below_step(s, shift, w - 1);
    }
}

/// A block of a prefix is no longer than the block of the whole.
proof fn lemma_block_prefix(s: Seq<Keyed>, k: int, shift: u32, v: int)
    requires
        0 <= k <= s.len(),
    ensures
        block(s.take(k), shift, v).len() <= block(s, shift, v).len(),
    decreases s.len() - k,
{
    if k < s.len() {
        lemma_block_prefix(s, k + 1, shift, v);
        assert(s.take(k + 1) =~= s.take(k).push(s[k]));
        lemma_block_push(s.take(k), s[k], shift, v);
    } else {
        assert(s.take(k) =~= s);
    }
}

/// One stable counting pass by the byte at `shift`.
fn counting_pass(src: &Vec<Keyed>, shift: u32) -> (out: Vec<Keyed>)
    requires
        shift < 32,
    ensures
        out@ == grouped(src@, shift, 256),
{
    let n = src.len();
    proof {
        lemma_grouped_len(src@, shift);
    }
    if n == 0 {
        proof {
            assert(grouped(src@, shift, 256).len() == 0);
            assert(grouped(src@, shift, 256) =~= Seq::<Keyed>::empty());
        }
        return Vec::new();
    }
    let mut counts: Vec<usize> = vec![0usize; 256];
    let mut k: usize = 0;
    while k < n
        invariant
            n == src@.len(),
            shift < 32,
            k <= n,
            counts@.len() == 256,
            forall|v: int| 0 <= v < 256 ==> #[trigger] counts@[v] == block(src@.take(k as int), shift, v).len(),
        decreases n - k,
    {
        let v = ((src[k].key >> shift) & 255) as usize;
        proof {
            lemma_digit_range(src@[k as int].key, shift);
            assert(src@.take(k + 1) =~= src@.take(k as int).push(src@[k as int]));
            assert forall|u: int| 0 <= u < 256 implies block(src@.take(k + 1), shift, u).len() == block(src@.take(k as int), shift, u).len() + (if u == v {
                1int
            } else {
                0int
            }) by {
                lemma_block_push(src@.take(k as int), src@[k as int], shift, u);
            }
            lemma_block_len(src@.take(k as int), shift, v as int);
        }
        counts.set(v, counts[v] + 1);
        k = k + 1;
    }
    proof {
        assert(src@.take(n as int) =~= src@);
    }
    let mut offsets: Vec<usize> = vec![0usize; 256];
    let mut at: usize = 0;
    let mut v: usize = 0;
    while v < 256
        invariant
            n == src@.len(),
            v <= 256,
            counts@.len() == 256,
            offsets@.len() == 256,
            forall|u: int| 0 <= u < 256 ==> #[trigger] counts@[u] == block(src@, shift, u).len(),
            at == below(src@, shift, v as int),
            forall|u: int| 0 <= u < v ==> #[trigger] offsets@[u] == below(src@, shift, u),
        decreases 256 - v,
    {
        proof {
            lemma_below_step(src@, shift, v as int);
            lemma_below_monotone(src@, shift, v as int + 1, 256);
            lemma_grouped_len(src@, shift);
        }
        offsets.set(v, at);
        at = at + counts[v];
        v = v + 1;
    }
    let mut out: Vec<Keyed> = vec![src[0]; n];
    let mut k: usize = 0;
    proof {
        assert forall|u: int| 0 <= u < 256 implies out@.subrange(below(src@, shift, u), #[trigger] offsets@[u] as int)
            == block(src@.take(0), shift, u) by {
            assert(src@.take(0) =~= Seq::<Keyed>::empty());
            lemma_below_monotone(src@, shift, u, 256);
            lemma_below_monotone(src@, shift, 0, u);
            assert(out@.subrange(below(src@, shift, u), below(src@, shift, u)) =~= Seq::<Keyed>::empty());
        }
    }
    while k < n
        invariant
            n == src@.len(),
            shift < 32,
            k <= n,
            out@.len() == n,
            offsets@.len() == 256,
            below(src@, shift, 256) == n,
            forall|u: int| 0 <= u < 256 ==> #[trigger] offsets@[u] == below(src@, shift, u) + block(src@.take(k as int), shift, u).len(),
            forall|u: int| 0 <= u < 256 ==> out@.subrange(below(src@, shift, u), #[trigger] offsets@[u] as int) == block(src@.take(k as int), shift, u),
        decreases n - k,
    {
        let x = src[k];
        let v = ((x.key >> shift) & 255) as usize;
        let ghost prev = out@;
        let ghost pre = src@.take(k as int);
        proof {
            lemma_digit_range(x.key, shift);
            assert(src@.take(k + 1) =~= pre.push(x));
            lemma_block_push(pre, x, shift, v as int);
            lemma_block_prefix(src@, k + 1, shift, v as int);
            lemma_below_step(src@, shift, v as int);
            lemma_below_monotone(src@, shift, v as int + 1, 256);
        }
        let pos = offsets[v];
        out.set(pos, x);
        offsets.set(v, pos + 1);
        proof {
            assert forall|u: int| 0 <= u < 256 implies #[trigger] offsets@[u] == below(src@, shift, u) + block(src@.take(k + 1), shift, u).len() by {
                lemma_block_push(pre, x, shift, u);
            }
            assert forall|u: int| 0 <= u < 256 implies out@.subrange(below(src@, shift, u), #[trigger] offsets@[u] as int) == block(src@.take(k + 1), shift, u) by {
                lemma_block_push(pre, x, shift, u);
                let lo = below(src@, shift, u);
                assert(prev.subrange(lo, offsets@[u] as int - (if u == v { 1int } else { 0int })) == block(pre, shift, u));
                if u == v {
                    assert(out@.subrange(lo, offsets@[u] as int) =~= prev.subrange(lo, pos as int).push(x));
                } else if u < v {
                    lemma_below_step(src@, shift, u);
                    lemma_block_prefix(src@, k as int, shift, u);
                    lemma_below_monotone(src@, shift, u + 1, v as int);
                    assert(out@.subrange(lo, offsets@[u] as int) =~= prev.subrange(lo, offsets@[u] as int));
                } else {
                    lemma_below_monotone(src@, shift, v as int + 1, u);
                    lemma_below_step(src@, shift, u);
                    lemma_block_prefix(src@, k as int, shift, u);
                    lemma_below_monotone(src@, shift, u + 1, 256);
                    assert(out@.subrange(lo, offsets@[u] as int) =~= prev.subrange(lo, offsets@[u] as int));
                }
            }
        }
        k = k + 1;
    }
    proof {
        assert(src@.take(n as int) =~= src@);
        assert forall|u: int| 0 <= u < 256 implies out@.subrange(below(src@, shift, u), #[trigger] below(src@, shift, u + 1)) == block(src@, shift, u) by {
            lemma_below_step(src@, shift, u);
            assert(offsets@[u] == below(src@, shift, u + 1));
        }
        lemma_blocks_concat(out@, src@, shift, 256);
        assert(out@.subrange(0, n as int) =~= out@);
    }
    out
}

proof fn lemma_block_len(s: Seq<Keyed>, shift: u32, v: int)
    ensures
        block(s, shift, v).len() <= s.len(),
    decreases s.len(),
{
    if s.len() > 0 {
        lemma_block_len(s.drop_last(), shift, v);
    }
}

/// Blocks laid out one after another form the grouped sequence.
proof fn lemma_blocks_concat(out: Seq<Keyed>, s: Seq<Keyed>, shift: u32, v: int)
    requires
        0 <= v <= 256,
        below(s, shift, 256) <= out.len(),
        forall|u: int| 0 <= u < 256 ==> out.subrange(below(s, shift, u), #[trigger] below(s, shift, u + 1)) == block(s, shift, u),
    ensures
        out.subrange(0, below(s, shift, v)) == grouped(s, shift, v),
    decreases v,
{
    if v > 0 {
        lemma_blocks_concat(out, s, shift, v - 1);
        lemma_below_step(s, shift, v - 1);
        lemma_below_monotone(s, shift, v, 256);
        lemma_below_monotone(s, shift, 0, v - 1);
        assert(out.subrange(below(s, shift, v - 1), below(s, shift, v)) == block(s, shift, v - 1));
        assert(out.subrange(0, below(s, shift, v)) =~= out.subrange(0, below(s, shift, v - 1)) + out.subrange(
            below(s, shift, v - 1),
            below(s, shift, v),
        ));
    } else {
        assert(out.subrange(0, 0) =~= Seq::<Keyed>::empty());
    }
}


/// The low `bits` bits of `key`, for the byte boundaries of the passes.
pub open spec fn low(key: u32, bits: int) -> int {
    if bits <= 0 {
        0
    } else if bits == 8 {
        (key & 0xffu32) as int
    } else if bits == 16 {
        (key & 0xffffu32) as int
    } else if bits == 24 {
        (key & 0xff_ffffu32) as int
    } else {
        key as int
    }
}

/// `a` comes before `b` by the low `bits` bits of their keys, then by
/// position.
pub open spec fn ranked(a: Keyed, b: Keyed, bits: int) -> bool {
    low(a.key, bits) < low(b.key, bits) || (low(a.key, bits) == low(b.key, bits) && a.id < b.id)
}

pub open spec fn sorted_at(s: Seq<Keyed>, bits: int) -> bool {
    forall|i: int, j: int| 0 <= i < j < s.len() ==> ranked(#[trigger] s[i], #[trigger] s[j], bits)
}

pub open spec fn pass_shift(shift: u32) -> bool {
    shift == 0 || shift == 8 || shift == 16 || shift == 24
}

/// The low bits up to the next byte: the byte at `shift` above the bits
/// below it.
proof fn lemma_low_split(key: u32, shift: u32)
    requires
        pass_shift(shift),
    ensures
        low(key, shift + 8) == digit(key, shift) * (if shift == 0 {
            1int
        } else if shift == 8 {
            0x100int
        } else if shift == 16 {
            0x1_0000int
        } else {
            0x100_0000int
        }) + low(key, shift as int),
        0 <= low(key, shift as int) < (if shift == 0 {
            1int
        } else if shift == 8 {
            0x100int
        } else if shift == 16 {
            0x1_0000int
        } else {
            0x100_0000int
        }),
{
    if shift == 0 {
        assert((key & 0xffu32) == ((key >> 0u32) & 255u32)) by (bit_vector);
    } else if shift == 8 {
        assert((key & 0xffffu32) == ((key >> 8u32) & 255u32) * 0x100u32 + (key & 0xffu32)) by (bit_vector);
        assert((key & 0xffu32) < 0x100u32) by (bit_vector);
    } else if shift == 16 {
        assert((key & 0xff_ffffu32) == ((key >> 16u32) & 255u32) * 0x1_0000u32 + (key & 0xffffu32)) by (bit_vector);
        assert((key & 0xffffu32) < 0x1_0000u32) by (bit_vector);
    } else {
        assert(key == ((key >> 24u32) & 255u32) * 0x100_0000u32 + (key & 0xff_ffffu32)) by (bit_vector);
        assert((key & 0xff_ffffu32) < 0x100_0000u32) by (bit_vector);
    }
}

/// A block of a sorted sequence is sorted, holds only elements of that
/// byte, and only elements of the sequence.
proof fn lemma_block_sorted(s: Seq<Keyed>, shift: u32, v: int, bits: int)
    requires
        sorted_at(s, bits),
    ensures
        sorted_at(block(s, shift, v), bits),
        forall|i: int| 0 <= i < block(s, shift, v).len() ==> digit(#[trigger] block(s, shift, v)[i].key, shift) == v,
        forall|i: int| 0 <= i < block(s, shift, v).len() ==> s.contains(#[trigger] block(s, shift, v)[i]),
    decreases s.len(),
{
    if s.len() > 0 {
        let t = s.drop_last();
        let x = s.last();
        assert(sorted_at(t, bits));
        lemma_block_sorted(t, shift, v, bits);
        let b = block(t, shift, v);
        assert forall|i: int| 0 <= i < b.len() implies s.contains(#[trigger] b[i]) by {
            let j = choose|j: int| 0 <= j < t.len() && t[j] == b[i];
            assert(s[j] == b[i]);
        }
        if digit(x.key, shift) == v {
            let c = b.push(x);
            assert forall|i: int, j: int| 0 <= i < j < c.len() implies ranked(#[trigger] c[i], #[trigger] c[j], bits) by {
                if j == c.len() - 1 {
                    let k = choose|k: int| 0 <= k < t.len() && t[k] == b[i];
                    assert(s[k] == c[i] && s[s.len() - 1] == c[j]);
                } else {
                    assert(c[i] == b[i] && c[j] == b[j]);
                }
            }
            assert(s.contains(x)) by {
                assert(s[s.len() - 1] == x);
            }
        }
    }
}

/// One counting pass of a sequence sorted by the bits below `shift` sorts
/// it by the bits through the byte at `shift`; it keeps only elements of
/// the sequence.
proof fn lemma_grouped_sorted(s: Seq<Keyed>, shift: u32, v: int)
    requires
        pass_shift(shift),
        sorted_at(s, shift as int),
        0 <= v <= 256,
    ensures
        sorted_at(grouped(s, shift, v), shift + 8),
        forall|i: int| 0 <= i < grouped(s, shift, v).len() ==> digit(#[trigger] grouped(s, shift, v)[i].key, shift) < v,
        forall|i: int| 0 <= i < grouped(s, shift, v).len() ==> s.contains(#[trigger] grouped(s, shift, v)[i]),
    decreases v,
{
    if v > 0 {
        lemma_grouped_sorted(s, shift, v - 1);
        lemma_block_sorted(s, shift, v - 1, shift as int);
        let g = grouped(s, shift, v - 1);
        let b = block(s, shift, v - 1);
        let c = g + b;
        assert(grouped(s, shift, v) == c);
        assert forall|i: int, j: int| 0 <= i < j < c.len() implies ranked(#[trigger] c[i], #[trigger] c[j], shift + 8) by {
            lemma_low_split(c[i].key, shift);
            lemma_low_split(c[j].key, shift);
            if j < g.len() {
                assert(c[i] == g[i] && c[j] == g[j]);
            } else if i >= g.len() {
                assert(c[i] == b[i - g.len()] && c[j] == b[j - g.len()]);
                assert(ranked(b[i - g.len()], b[j - g.len()], shift as int));
                assert(digit(b[i - g.len()].key, shift) == v - 1);
                assert(digit(b[j - g.len()].key, shift) == v - 1);
            } else {
                assert(c[i] == g[i] && c[j] == b[j - g.len()]);
                assert(digit(g[i].key, shift) < v - 1);
                assert(digit(b[j - g.len()].key, shift) == v - 1);
            }
        }
        assert forall|i: int| 0 <= i < c.len() implies digit(#[trigger] c[i].key, shift) < v && s.contains(c[i]) by {
            if i < g.len() {
                assert(c[i] == g[i]);
            } else {
                assert(c[i] == b[i - g.len()]);
            }
        }
    }
}

/// The positions of `keys` in ascending key order, equal keys in their
/// given order: four stable counting passes, lowest byte first.
pub fn sort_by_key(keys: &[u32]) -> (order: Vec<usize>)
    ensures
        order@.len() == keys@.len(),
        forall|i: int| 0 <= i < order@.len() ==> #[trigger] order@[i] < keys@.len(),
        forall|i: int, j: int|
            0 <= i < j < order@.len() ==> keys@[#[trigger] order@[i] as int] < keys@[#[trigger] order@[j] as int]
                || (keys@[order@[i] as int] == keys@[order@[j] as int] && order@[i] < order@[j]),
{
    let n = keys.len();
    let mut entries: Vec<Keyed> = Vec::new();
    let mut i: usize = 0;
    while i < n
        invariant
            n == keys@.len(),
            i <= n,
            entries@.len() == i,
            forall|k: int| 0 <= k < i ==> #[trigger] entries@[k] == (Keyed { key: keys@[k], id: k as usize }),
        decreases n - i,
    {
        entries.push(Keyed { key: keys[i], id: i });
        i = i + 1;
    }
    let ghost start = entries@;
    let p0 = counting_pass(&entries, 0);
    let p1 = counting_pass(&p0, 8);
    let p2 = counting_pass(&p1, 16);
    let p3 = counting_pass(&p2, 24);
    proof {
        lemma_grouped_len(start, 0);
        lemma_grouped_len(p0@, 8);
        lemma_grouped_len(p1@, 16);
        lemma_grouped_len(p2@, 24);
        assert(sorted_at(start, 0));
        lemma_grouped_sorted(start, 0, 256);
        lemma_grouped_sorted(p0@, 8, 256);
        lemma_grouped_sorted(p1@, 16, 256);
        lemma_grouped_sorted(p2@, 24, 256);
        assert forall|k: int| 0 <= k < p3@.len() implies start.contains(#[trigger] p3@[k]) by {
            let a = choose|a: int| 0 <= a < p2@.len() && p2@[a] == p3@[k];
            assert(p1@.contains(p2@[a]));
            let b = choose|b: int| 0 <= b < p1@.len() && p1@[b] == p2@[a];
            assert(p0@.contains(p1@[b]));
            let c = choose|c: int| 0 <= c < p0@.len() && p0@[c] == p1@[b];
            assert(start.contains(p0@[c]));
        }
    }
    let mut order: Vec<usize> = Vec::new();
    let mut k: usize = 0;
    while k < n
        invariant
            n == keys@.len(),
            p3@.len() == n,
            k <= n,
            order@.len() == k,
            forall|m: int| 0 <= m < k ==> #[trigger] order@[m] == p3@[m].id,
            forall|m: int| 0 <= m < n ==> #[trigger] start[m] == (Keyed { key: keys@[m], id: m as usize }),
            start.len() == n,
            forall|m: int| 0 <= m < n ==> start.contains(#[trigger] p3@[m]),
        decreases n - k,
    {
        order.push(p3[k].id);
        k = k + 1;
    }
    proof {
        assert forall|m: int| 0 <= m < n implies p3@[m].id < n && keys@[p3@[m].id as int] == #[trigger] p3@[m].key by {
            let a = choose|a: int| 0 <= a < start.len() && start[a] == p3@[m];
        }
        assert forall|a: int, b: int|
            0 <= a < b < order@.len() implies keys@[#[trigger] order@[a] as int] < keys@[#[trigger] order@[b] as int]
                || (keys@[order@[a] as int] == keys@[order@[b] as int] && order@[a] < order@[b]) by {
            assert(ranked(p3@[a], p3@[b], 32));
            assert(keys@[p3@[a].id as int] == p3@[a].key);
            assert(keys@[p3@[b].id as int] == p3@[b].key);
        }
    }
    order
}


/// The most markers that one averaged marker may stand for.
pub const MAX_GROUP: usize = 16;
/// Colours that are RGB555 rather than material identifiers.
pub const CUSTOM_RGB555: u32 = 0x8000;

/// How many markers of the level in the key's top bits one group may hold:
/// one, two, four, eight, then sixteen.
pub open spec fn group_size(key: u32) -> int {
    let level = key >> 27u32;
    if level == 0 {
        1
    } else if level == 1 {
        2
    } else if level == 2 {
        4
    } else if level == 3 {
        8
    } else {
        16
    }
}

/// Where the group that starts at `first` ends, having reached `end`: it
/// grows while it has room and the next key shares the group's tile
/// (all bits from bit 12 up).
pub open spec fn run_end(keys: Seq<u32>, first: int, end: int) -> int
    decreases keys.len() - end,
{
    if 0 <= first < end < keys.len() && end - first < group_size(keys[first]) && keys[end] >> 12u32
        == keys[first] >> 12u32 {
        run_end(keys, first, end + 1)
    } else {
        end
    }
}

/// The groups of sorted keys from `first` on, as start and end positions.
pub open spec fn spec_groups(keys: Seq<u32>, first: int) -> Seq<(usize, usize)>
    decreases keys.len() - first,
{
    if first < 0 || first >= keys.len() {
        Seq::empty()
    } else {
        let e = run_end(keys, first, first + 1);
        if e <= first || e > keys.len() {
            Seq::empty()
        } else {
            seq![(first as usize, e as usize)] + spec_groups(keys, e)
        }
    }
}

proof fn lemma_run_end(keys: Seq<u32>, first: int, end: int)
    requires
        0 <= first < end <= keys.len(),
    ensures
        end <= run_end(keys, first, end) <= keys.len(),
    decreases keys.len() - end,
{
    if end < keys.len() && end - first < group_size(keys[first]) && keys[end] >> 12u32 == keys[first]
        >> 12u32 {
        lemma_run_end(keys, first, end + 1);
    }
}

/// Split keys in ascending order into the groups that are averaged into
/// one marker each.
pub fn groups(keys: &[u32]) -> (out: Vec<(usize, usize)>)
    ensures
        out@ == spec_groups(keys@, 0),
{
    let n = keys.len();
    let mut out: Vec<(usize, usize)> = Vec::new();
    let mut first: usize = 0;
    while first < n
        invariant
            n == keys@.len(),
            first <= n,
            out@ + spec_groups(keys@, first as int) == spec_groups(keys@, 0),
        decreases n - first,
    {
        let key = keys[first];
        let level = key >> 27;
        let size: usize = if level == 0 {
            1
        } else if level == 1 {
            2
        } else if level == 2 {
            4
        } else if level == 3 {
            8
        } else {
            16
        };
        let mut end = first + 1;
        proof {
            lemma_run_end(keys@, first as int, end as int);
        }
        while end < n && end - first < size && keys[end] >> 12 == key >> 12
            invariant
                n == keys@.len(),
                first < end <= n,
                size == group_size(keys@[first as int]),
                key == keys@[first as int],
                run_end(keys@, first as int, end as int) == run_end(keys@, first as int, first + 1),
            decreases n - end,
        {
            end = end + 1;
        }
        proof {
            lemma_run_end(keys@, first as int, first + 1);
            assert(run_end(keys@, first as int, end as int) == end);
            assert(spec_groups(keys@, first as int) == seq![(first, end)] + spec_groups(keys@, end as int));
            assert((out@.push((first, end))) + spec_groups(keys@, end as int) =~= out@ + spec_groups(keys@, first as int));
        }
        out.push((first, end));
        first = end;
    }
    proof {
        assert(spec_groups(keys@, n as int) =~= Seq::<(usize, usize)>::empty());
        assert(out@ + spec_groups(keys@, n as int) =~= out@);
    }
    out
}

/// The sum of the five-bit channel at `shift` over the first `k` colours.
pub open spec fn channel_total(colors: Seq<u32>, shift: u32, k: int) -> int
    decreases k,
{
    if k <= 0 {
        0
    } else {
        channel_total(colors, shift, k - 1) + ((colors[k - 1] >> shift) & 31u32) as int
    }
}

/// The rounded mean of one channel over all colours.
pub open spec fn channel_mean(colors: Seq<u32>, shift: u32) -> int {
    (channel_total(colors, shift, colors.len() as int) + colors.len() / 2) / colors.len() as int
}

proof fn lemma_channel_total(colors: Seq<u32>, shift: u32, k: int)
    requires
        0 <= k <= colors.len(),
        shift < 32,
    ensures
        0 <= channel_total(colors, shift, k) <= 31 * k,
    decreases k,
{
    if k > 0 {
        lemma_channel_total(colors, shift, k - 1);
        let c = colors[k - 1];
        assert((c >> shift) & 31u32 <= 31u32) by (bit_vector);
    }
}

fn channel_sum(colors: &[u32], shift: u32) -> (s: u32)
    requires
        1 <= colors@.len() <= MAX_GROUP,
        shift < 32,
    ensures
        s == channel_total(colors@, shift, colors@.len() as int),
{
    let mut s: u32 = 0;
    let mut k: usize = 0;
    while k < colors.len()
        invariant
            colors@.len() <= MAX_GROUP,
            shift < 32,
            k <= colors@.len(),
            s == channel_total(colors@, shift, k as int),
        decreases colors.len() - k,
    {
        proof {
            lemma_channel_total(colors@, shift, k + 1);
        }
        s = s + ((colors[k] >> shift) & 31);
        k = k + 1;
    }
    s
}

proof fn lemma_mean_bound(t: int, n: int)
    requires
        1 <= n,
        0 <= t <= 31 * n,
    ensures
        0 <= (t + n / 2) / n <= 31,
{
    assert(0 <= (t + n / 2) / n <= 31) by (nonlinear_arith)
        requires
            1 <= n,
            0 <= t <= 31 * n,
    ;
}

/// The RGB555 colour that stands for a group: each five-bit channel
/// averaged and rounded to nearest.
pub fn average_rgb555(colors: &[u32]) -> (c: u32)
    requires
        1 <= colors@.len() <= MAX_GROUP,
    ensures
        c == CUSTOM_RGB555 | (channel_mean(colors@, 0) as u32) | ((channel_mean(colors@, 5) as u32)
            << 5u32) | ((channel_mean(colors@, 10) as u32) << 10u32),
        channel_mean(colors@, 0) <= 31,
        channel_mean(colors@, 5) <= 31,
        channel_mean(colors@, 10) <= 31,
{
    let count = colors.len() as u32;
    let r = channel_sum(colors, 0);
    let g = channel_sum(colors, 5);
    let b = channel_sum(colors, 10);
    proof {
        let n = colors@.len() as int;
        lemma_channel_total(colors@, 0, n);
        lemma_channel_total(colors@, 5, n);
        lemma_channel_total(colors@, 10, n);
        lemma_mean_bound(r as int, n);
        lemma_mean_bound(g as int, n);
        lemma_mean_bound(b as int, n);
    }
    CUSTOM_RGB555 | ((r + count / 2) / count) | (((g + count / 2) / count) << 5) | (((b + count / 2)
        / count) << 10)
}


/// How a visible cube is drawn: with its geometry, as a single dot, or
/// averaged into a dot with its group.
#[derive(Clone, Copy, Debug, PartialEq, Eq, Structural)]
pub enum Route {
    Detailed,
    Single,
    Grouped,
}

/// The route of the visible cube of rank `rank`: within the detail budget a
/// cube that wants detail keeps its geometry; otherwise a dot at level 0 or
/// without a custom RGB555 colour stays single, and the others are grouped.
pub open spec fn spec_route(rank: int, budget: int, wants_detail: bool, level: u32, flags: u32) -> Route {
    if rank < budget && wants_detail {
        Route::Detailed
    } else if level == 0 || flags & CUSTOM_RGB555 == 0 {
        Route::Single
    } else {
        Route::Grouped
    }
}

/// How many of the first `k` routes are dots.
pub open spec fn dot_count(routes: Seq<Route>, k: int) -> int
    decreases k,
{
    if k <= 0 {
        0
    } else {
        dot_count(routes, k - 1) + if routes[k - 1] == Route::Detailed {
            0int
        } else {
            1int
        }
    }
}

/// The route of every visible cube, nearest first, and the number of dots
/// before grouping. `wants_detail[i]`, `levels[i]` and `flags[i]` describe
/// the cube of rank `i`: whether it is solid or near enough for detail, its
/// distance level and its colour flags.
pub fn routes(wants_detail: &[bool], levels: &[u32], flags: &[u32], budget: usize) -> (r: (Vec<Route>, usize))
    requires
        wants_detail@.len() == levels@.len(),
        levels@.len() == flags@.len(),
    ensures
        r.0@.len() == levels@.len(),
        forall|i: int|
            0 <= i < levels@.len() ==> #[trigger] r.0@[i] == spec_route(
                i,
                budget as int,
                wants_detail@[i],
                levels@[i],
                flags@[i],
            ),
        r.1 == dot_count(r.0@, r.0@.len() as int),
{
    let n = levels.len();
    let mut out: Vec<Route> = Vec::new();
    let mut dots: usize = 0;
    let mut i: usize = 0;
    while i < n
        invariant
            n == levels@.len(),
            wants_detail@.len() == n,
            flags@.len() == n,
            i <= n,
            out@.len() == i,
            forall|k: int|
                0 <= k < i ==> #[trigger] out@[k] == spec_route(
                    k,
                    budget as int,
                    wants_detail@[k],
                    levels@[k],
                    flags@[k],
                ),
            dots == dot_count(out@, i as int),
            dots <= i,
        decreases n - i,
    {
        let route = if i < budget && wants_detail[i] {
            Route::Detailed
        } else if levels[i] == 0 || flags[i] & CUSTOM_RGB555 == 0 {
            Route::Single
        } else {
            Route::Grouped
        };
        let ghost before = out@;
        out.push(route);
        proof {
            assert(out@.drop_last() =~= before);
            assert forall|k: int| 0 <= k < i implies out@[k] == before[k] by {}
            lemma_dot_count_prefix(out@, before, i as int);
        }
        if !(i < budget && wants_detail[i]) {
            dots = dots + 1;
        }
        i = i + 1;
    }
    (out, dots)
}

proof fn lemma_dot_count_prefix(longer: Seq<Route>, shorter: Seq<Route>, k: int)
    requires
        0 <= k <= shorter.len() <= longer.len(),
        forall|j: int| 0 <= j < shorter.len() ==> longer[j] == shorter[j],
    ensures
        dot_count(longer, k) == dot_count(shorter, k),
    decreases k,
{
    if k > 0 {
        lemma_dot_count_prefix(longer, shorter, k - 1);
    }
}


/// Two to the power `level`, by doubling.
pub open spec fn doubled(level: int) -> int
    decreases level,
{
    if level <= 0 {
        1
    } else {
        2 * doubled(level - 1)
    }
}

/// The most markers a group of the given level may hold: `2^level`, but
/// never more than `MAX_GROUP`.
pub open spec fn level_capacity(level: int) -> int {
    if doubled(level) < MAX_GROUP {
        doubled(level)
    } else {
        MAX_GROUP as int
    }
}

/// The tile of a key: all bits from bit 12 up.
pub open spec fn tile(key: u32) -> u32 {
    key >> 12u32
}

proof fn lemma_capacity(key: u32)
    ensures
        group_size(key) == level_capacity((key >> 27u32) as int),
{
    let level = (key >> 27u32) as int;
    assert(doubled(0) == 1);
    assert(doubled(1) == 2);
    assert(doubled(2) == 4);
    assert(doubled(3) == 8);
    assert(doubled(4) == 16);
    if level >= 4 {
        lemma_doubled_grows(4, level);
    }
}

proof fn lemma_doubled_grows(a: int, b: int)
    requires
        0 <= a <= b,
    ensures
        doubled(a) <= doubled(b),
    decreases b - a,
{
    if a < b {
        lemma_doubled_grows(a, b - 1);
        assert(doubled(b - 1) >= 1) by {
            lemma_doubled_positive(b - 1);
        }
    }
}

proof fn lemma_doubled_positive(a: int)
    ensures
        doubled(a) >= 1,
    decreases a,
{
    if a > 0 {
        lemma_doubled_positive(a - 1);
    }
}

/// What a run of one group is: the keys it covers share the first key's
/// tile, there are at most as many as the first key's level allows, and it
/// stops only at the end of the keys, at a new tile or when full.
pub open spec fn full_run(keys: Seq<u32>, first: int, end: int) -> bool {
    &&& 0 <= first < end <= keys.len()
    &&& end - first <= level_capacity((keys[first] >> 27u32) as int)
    &&& forall|i: int| first <= i < end ==> #[trigger] tile(keys[i]) == tile(keys[first])
    &&& (end == keys.len() || tile(keys[end]) != tile(keys[first]) || end - first == level_capacity(
        (keys[first] >> 27u32) as int,
    ))
}

proof fn lemma_run_is_full(keys: Seq<u32>, first: int, end: int)
    requires
        0 <= first < end <= keys.len(),
        end - first <= group_size(keys[first]),
        forall|i: int| first <= i < end ==> #[trigger] tile(keys[i]) == tile(keys[first]),
    ensures
        full_run(keys, first, run_end(keys, first, end)),
    decreases keys.len() - end,
{
    lemma_capacity(keys[first]);
    if end < keys.len() && end - first < group_size(keys[first]) && keys[end] >> 12u32 == keys[first]
        >> 12u32 {
        lemma_run_is_full(keys, first, end + 1);
    }
}

/// Law: the groups cover the keys from `first` on in order, one after the
/// other, and each is a full run: a group whose first key has level `L`
/// holds `min(2^L, MAX_GROUP)` keys of that key's tile unless the tile or
/// the keys end first.
pub proof fn lemma_groups_are_full_runs(keys: Seq<u32>, first: int)
    requires
        0 <= first <= keys.len(),
        keys.len() <= usize::MAX,
    ensures
        ({
            let g = spec_groups(keys, first);
            &&& forall|i: int| 0 <= i < g.len() ==> #[trigger] full_run(keys, g[i].0 as int, g[i].1 as int)
            &&& g.len() == 0 <==> first == keys.len()
            &&& g.len() > 0 ==> g[0].0 == first && g[g.len() - 1].1 == keys.len()
            &&& forall|i: int| 0 <= i < g.len() - 1 ==> #[trigger] g[i].1 == g[i + 1].0
        }),
    decreases keys.len() - first,
{
    if first < keys.len() {
        lemma_run_end(keys, first, first + 1);
        let e = run_end(keys, first, first + 1);
        lemma_capacity(keys[first]);
        lemma_run_is_full(keys, first, first + 1);
        lemma_groups_are_full_runs(keys, e);
        let rest = spec_groups(keys, e);
        let g = spec_groups(keys, first);
        assert(g == seq![(first as usize, e as usize)] + rest);
        assert forall|i: int| 0 <= i < g.len() implies #[trigger] full_run(keys, g[i].0 as int, g[i].1 as int) by {
            if i > 0 {
                assert(g[i] == rest[i - 1]);
            }
        }
        assert forall|i: int| 0 <= i < g.len() - 1 implies #[trigger] g[i].1 == g[i + 1].0 by {
            if i > 0 {
                assert(g[i] == rest[i - 1]);
                assert(g[i + 1] == rest[i]);
            }
        }
        if rest.len() > 0 {
            assert(g[g.len() - 1] == rest[rest.len() - 1]);
        }
    }
}

} // verus!
