//! Segments: aligned blocks of a power of two of coordinates, and how a
//! stretch of an axis is cut into them.

use vstd::prelude::*;
use vstd::arithmetic::power2::{pow2, lemma_pow2_pos, lemma_pow2_unfold, lemma_pow2_strictly_increases, lemma2_to64};
use crate::coords::RING_SIZE;

verus! {

/// The power of the segment that is a whole axis.
pub const MAX_POWER: u8 = 32;

/// Powers of two grow with their exponent.
pub proof fn lemma_pow2_monotone(a: nat, b: nat)
    requires
        a <= b,
    ensures
        1 <= pow2(a) <= pow2(b),
{
    lemma_pow2_pos(a);
    if a < b {
        lemma_pow2_strictly_increases(a, b);
    }
}

/// Two to the power of `k`.
pub fn pow2_u64(k: u8) -> (r: u64)
    requires
        k <= MAX_POWER,
    ensures
        r == pow2(k as nat),
        1 <= r <= RING_SIZE,
{
    let mut r: u64 = 1;
    let mut i: u8 = 0;
    proof {
        lemma2_to64();
    }
    while i < k
        invariant
            i <= k <= MAX_POWER,
            r == pow2(i as nat),
            pow2(32) == 0x1_0000_0000,
        decreases k - i,
    {
        proof {
            lemma_pow2_unfold((i + 1) as nat);
            lemma_pow2_monotone((i + 1) as nat, 32);
        }
        r = 2 * r;
        i = i + 1;
    }
    proof {
        lemma_pow2_monotone(k as nat, 32);
    }
    r
}

/// A block of `2^power` coordinates that starts at a multiple of its width.
#[derive(Clone, Copy, Debug, PartialEq, Eq, Structural)]
pub struct Segment {
    /// Binary logarithm of the width.
    pub power: u8,
    /// First coordinate.
    pub start: u32,
}

impl Segment {
    /// Number of coordinates in the segment.
    pub open spec fn width(self) -> int {
        pow2(self.power as nat) as int
    }

    /// The segment is aligned to its width and lies on the axis.
    pub open spec fn wf(self) -> bool {
        &&& self.power <= MAX_POWER
        &&& self.start as int % self.width() == 0
        &&& self.start + self.width() <= RING_SIZE
    }

    /// First coordinate of the segment.
    pub open spec fn first(self) -> int {
        self.start as int
    }

    /// Last coordinate of the segment.
    pub open spec fn last(self) -> int {
        self.start + self.width() - 1
    }

    /// Whether the coordinate lies in the segment.
    pub open spec fn contains(self, x: int) -> bool {
        self.first() <= x <= self.last()
    }

    /// First and last coordinate of the segment.
    pub fn bounds(&self) -> (r: (u32, u32))
        requires
            self.wf(),
        ensures
            r.0 == self.first(),
            r.1 == self.last(),
    {
        let w = pow2_u64(self.power);
        (self.start, (self.start as u64 + w - 1) as u32)
    }
}

/// The highest power from `k` up to `max_power` at which a segment can
/// start at `cur` without passing `last`, given that one of power `k` can.
pub open spec fn fit_power(cur: int, last: int, max_power: nat, k: nat) -> nat
    decreases max_power - k,
{
    if k < max_power && cur % (pow2(k + 1) as int) == 0 && cur + pow2(k + 1) - 1 <= last {
        fit_power(cur, last, max_power, k + 1)
    } else {
        k
    }
}

/// The segments that tile the coordinates from `first` to `last`: each is
/// the widest segment of power at most `max_power` that starts where the
/// one before it ended and does not pass `last`.
pub open spec fn span_segments(first: int, last: int, max_power: nat) -> Seq<Segment>
    decreases last - first + 1,
    via span_segments_decreases
{
    if first > last {
        Seq::empty()
    } else {
        let k = fit_power(first, last, max_power, 0);
        seq![Segment { power: k as u8, start: first as u32 }] + span_segments(
            first + pow2(k),
            last,
            max_power,
        )
    }
}

#[via_fn]
proof fn span_segments_decreases(first: int, last: int, max_power: nat) {
    if first <= last {
        lemma2_to64();
        lemma_fit_power(first, last, max_power, 0);
        lemma_pow2_pos(fit_power(first, last, max_power, 0));
    }
}

/// The power that `fit_power` finds is one at which a segment fits.
pub proof fn lemma_fit_power(cur: int, last: int, max_power: nat, k: nat)
    requires
        k <= max_power,
        cur % (pow2(k) as int) == 0,
        cur + pow2(k) - 1 <= last,
    ensures
        k <= fit_power(cur, last, max_power, k) <= max_power,
        cur % (pow2(fit_power(cur, last, max_power, k)) as int) == 0,
        cur + pow2(fit_power(cur, last, max_power, k)) - 1 <= last,
    decreases max_power - k,
{
    if k < max_power && cur % (pow2(k + 1) as int) == 0 && cur + pow2(k + 1) - 1 <= last {
        lemma_fit_power(cur, last, max_power, k + 1);
    }
}

/// The tiling of a stretch is made of well-formed segments that follow one
/// another without gap from its first coordinate to its last.
pub proof fn lemma_span_segments(first: int, last: int, max_power: nat)
    requires
        0 <= first,
        last < RING_SIZE,
        max_power <= MAX_POWER,
    ensures
        first > last ==> span_segments(first, last, max_power).len() == 0,
        first <= last ==> {
            &&& span_segments(first, last, max_power).len() > 0
            &&& span_segments(first, last, max_power)[0].first() == first
            &&& span_segments(first, last, max_power).last().last() == last
        },
        forall|i: int|
            0 <= i < span_segments(first, last, max_power).len() ==> {
                let g = #[trigger] span_segments(first, last, max_power)[i];
                g.wf() && g.power <= max_power && first <= g.first() && g.last() <= last
            },
        forall|i: int|
            0 < i < span_segments(first, last, max_power).len() ==> (#[trigger] span_segments(
                first,
                last,
                max_power,
            )[i]).first() == span_segments(first, last, max_power)[i - 1].last() + 1,
    decreases last - first + 1,
{
    if first <= last {
        lemma2_to64();
        lemma_fit_power(first, last, max_power, 0);
        let k = fit_power(first, last, max_power, 0);
        lemma_pow2_pos(k);
        let head = Segment { power: k as u8, start: first as u32 };
        let rest = span_segments(first + pow2(k), last, max_power);
        let s = span_segments(first, last, max_power);
        assert(s == seq![head] + rest);
        lemma_span_segments(first + pow2(k), last, max_power);
        assert(s[0] == head);
        assert forall|i: int| 0 <= i < s.len() implies {
            let g = #[trigger] s[i];
            g.wf() && g.power <= max_power && first <= g.first() && g.last() <= last
        } by {
            if i > 0 {
                assert(s[i] == rest[i - 1]);
            }
        }
        assert forall|i: int| 0 < i < s.len() implies (#[trigger] s[i]).first() == s[i - 1].last()
            + 1 by {
            assert(s[i] == rest[i - 1]);
            if i > 1 {
                assert(s[i - 1] == rest[i - 2]);
            }
        }
        if rest.len() > 0 {
            assert(s.last() == rest.last());
        }
    }
}

/// In the tiling of a stretch, later segments lie beyond earlier ones.
pub proof fn lemma_span_ascend(first: int, last: int, max_power: nat, a: int, b: int)
    requires
        0 <= first,
        last < RING_SIZE,
        max_power <= MAX_POWER,
        0 <= a < b < span_segments(first, last, max_power).len(),
    ensures
        span_segments(first, last, max_power)[a].last() < span_segments(
            first,
            last,
            max_power,
        )[b].first(),
    decreases b - a,
{
    let s = span_segments(first, last, max_power);
    lemma_span_segments(first, last, max_power);
    assert(s[b].first() == s[b - 1].last() + 1);
    if a < b - 1 {
        lemma_span_ascend(first, last, max_power, a, b - 1);
        assert(s[b - 1].wf());
        lemma_pow2_pos(s[b - 1].power as nat);
    }
}

/// Every coordinate of a stretch lies in a segment of its tiling.
pub proof fn lemma_span_covered(first: int, last: int, max_power: nat, x: int) -> (i: int)
    requires
        0 <= first <= x <= last < RING_SIZE,
        max_power <= MAX_POWER,
    ensures
        0 <= i < span_segments(first, last, max_power).len(),
        span_segments(first, last, max_power)[i].contains(x),
    decreases last - first + 1,
{
    lemma2_to64();
    lemma_fit_power(first, last, max_power, 0);
    let k = fit_power(first, last, max_power, 0);
    lemma_pow2_pos(k);
    let head = Segment { power: k as u8, start: first as u32 };
    let rest = span_segments(first + pow2(k), last, max_power);
    let s = span_segments(first, last, max_power);
    assert(s == seq![head] + rest);
    if x < first + pow2(k) {
        assert(s[0] == head);
        0
    } else {
        let j = lemma_span_covered(first + pow2(k), last, max_power, x);
        assert(s[j + 1] == rest[j]);
        j + 1
    }
}

/// Cuts the coordinates from `first` to `last` into segments of power at most `max_power`.
pub fn tile_span(first: u32, last: u32, max_power: u8) -> (r: Vec<Segment>)
    requires
        max_power <= MAX_POWER,
    ensures
        r@ == span_segments(first as int, last as int, max_power as nat),
{
    let mut out: Vec<Segment> = Vec::new();
    let mut cur: u64 = first as u64;
    let end: u64 = last as u64;
    while cur <= end
        invariant
            max_power <= MAX_POWER,
            end == last,
            first <= cur <= end + 1 || (first > end && cur == first),
            out@ + span_segments(cur as int, last as int, max_power as nat) == span_segments(
                first as int,
                last as int,
                max_power as nat,
            ),
        decreases end + 1 - cur,
    {
        let mut k: u8 = 0;
        let mut w: u64 = 1;
        proof {
            lemma2_to64();
        }
        while k < max_power && cur % (2 * w) == 0 && cur + 2 * w - 1 <= end
            invariant
                k <= max_power <= MAX_POWER,
                w == pow2(k as nat),
                1 <= w <= RING_SIZE,
                cur + w - 1 <= end,
                end < RING_SIZE,
                fit_power(cur as int, end as int, max_power as nat, k as nat) == fit_power(
                    cur as int,
                    end as int,
                    max_power as nat,
                    0,
                ),
            decreases max_power - k,
        {
            proof {
                lemma_pow2_unfold((k + 1) as nat);
            }
            w = 2 * w;
            k = k + 1;
        }
        proof {
            if k < max_power {
                lemma_pow2_unfold((k + 1) as nat);
            }
            assert(fit_power(cur as int, end as int, max_power as nat, k as nat) == k);
            let ghost rest = span_segments(cur + w, last as int, max_power as nat);
            assert(span_segments(cur as int, last as int, max_power as nat) == seq![
                Segment { power: k, start: cur as u32 },
            ] + rest);
            assert(out@.push(Segment { power: k, start: cur as u32 }) + rest == out@ + (seq![
                Segment { power: k, start: cur as u32 },
            ] + rest));
        }
        out.push(Segment { power: k, start: cur as u32 });
        cur = cur + w;
    }
    proof {
        assert(span_segments(cur as int, last as int, max_power as nat) == Seq::<Segment>::empty());
        assert(out@ + Seq::<Segment>::empty() == out@);
    }
    out
}

} // verus!
