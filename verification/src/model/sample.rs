//! Samples delivered by libqcperf and the rolling window each graph keeps.
use vstd::prelude::*;

use std::collections::VecDeque;

use crate::model::capability::{capability_pos, metric_pos, Capability, MetricInfo};

verus! {

pub const MAX_RING_POINTS: usize = 4096;

/// One metric value. `at` is the sample time in milliseconds since the Unix
/// epoch; `V` is the measured value, which this crate carries but never reads.
pub struct Sample<V> {
    pub at: u64,
    pub backend_id: u8,
    pub capability_id: u8,
    pub metric_id: u16,
    pub value: V,
}

/// How many points a ring keeps: one per streaming period across the window,
/// at least one and at most `MAX_RING_POINTS`.
pub open spec fn spec_ring_capacity(window: u64, stream_period: u64) -> nat {
    let period = if stream_period == 0 {
        1
    } else {
        stream_period
    };
    let points = window / period;
    if points < 1 {
        1
    } else if points > MAX_RING_POINTS {
        MAX_RING_POINTS as nat
    } else {
        points as nat
    }
}

/// A ring holds one point per streaming period across its window: the
/// capacity is the number of whole periods that fit in the window (a period
/// of 0 counts as 1 ms), at least one and at most `MAX_RING_POINTS`. So
/// `capacity` periods fit in the window, and one more period would not,
/// unless the bounds cut in.
pub proof fn lemma_ring_capacity_spans_window(window: u64, stream_period: u64)
    ensures
        ({
            let cap = spec_ring_capacity(window, stream_period);
            let period = if stream_period == 0 {
                1
            } else {
                stream_period
            };
            &&& 1 <= cap <= MAX_RING_POINTS
            &&& cap == 1 || cap * period <= window
            &&& cap == MAX_RING_POINTS || window < (cap + 1) * period
        }),
{
    let period: u64 = if stream_period == 0 {
        1
    } else {
        stream_period
    };
    let q = window / period;
    assert(q * period <= window < (q + 1) * period) by (nonlinear_arith)
        requires
            period > 0,
            q == window / period,
    ;
    let cap = spec_ring_capacity(window, stream_period);
    if q < 1 {
        assert(cap == 1);
        assert(window < (cap + 1) * period) by (nonlinear_arith)
            requires
                cap == 1,
                window < (q + 1) * period,
                q == 0,
        ;
    } else if q > MAX_RING_POINTS {
        assert(cap == MAX_RING_POINTS);
        assert(cap * period <= window) by (nonlinear_arith)
            requires
                cap < q,
                q * period <= window,
                period > 0,
        ;
    } else {
        assert(cap == q);
        assert(window < (cap + 1) * period) by (nonlinear_arith)
            requires
                cap == q,
                window < (q + 1) * period,
        ;
    }
}

/// Capacity of a ring covering `window` at one point per `stream_period`
/// (both in milliseconds).
pub fn ring_capacity(window: u64, stream_period: u64) -> (r: usize)
    ensures
        r == spec_ring_capacity(window, stream_period),
        1 <= r <= MAX_RING_POINTS,
        r == 1 || r * (if stream_period == 0 { 1 } else { stream_period }) <= window,
        r == MAX_RING_POINTS || window < (r + 1) * (if stream_period == 0 { 1 } else { stream_period }),
{
    proof {
        lemma_ring_capacity_spans_window(window, stream_period);
    }
    let period = if stream_period == 0 {
        1
    } else {
        stream_period
    };
    let points = window / period;
    if points < 1 {
        1
    } else if points > MAX_RING_POINTS as u64 {
        MAX_RING_POINTS
    } else {
        points as usize
    }
}

/// `points` without the oldest entries beyond `cap`.
pub open spec fn cap_points<V>(points: Seq<(u64, V)>, cap: nat) -> Seq<(u64, V)> {
    if points.len() > cap {
        points.subrange(points.len() - cap, points.len() as int)
    } else {
        points
    }
}

/// `points` without its leading entries older than `cutoff`.
pub open spec fn drop_older<V>(points: Seq<(u64, V)>, cutoff: u64) -> Seq<(u64, V)>
    decreases points.len(),
{
    if points.len() > 0 && points[0].0 < cutoff {
        drop_older(points.drop_first(), cutoff)
    } else {
        points
    }
}

/// What a ring keeps of `points`: at most `cap` newest entries, then, from
/// the front, every entry older than the newest one's time minus `window`.
pub open spec fn trim_points<V>(points: Seq<(u64, V)>, cap: nat, window: u64) -> Seq<(u64, V)> {
    let kept = cap_points(points, cap);
    if kept.len() == 0 || kept.last().0 < window {
        kept
    } else {
        drop_older(kept, (kept.last().0 - window) as u64)
    }
}

/// Every entry of `points` is at most `window` older than its last entry.
pub open spec fn within_window<V>(points: Seq<(u64, V)>, window: u64) -> bool {
    forall|i: int| 0 <= i < points.len() ==> #[trigger] points[i].0 + window >= points.last().0
}

/// The entries of `points` are in time order.
pub open spec fn time_ordered<V>(points: Seq<(u64, V)>) -> bool {
    forall|i: int, j: int| 0 <= i <= j < points.len() ==> points[i].0 <= points[j].0
}

proof fn lemma_drop_older<V>(points: Seq<(u64, V)>, cutoff: u64)
    ensures
        ({
            let r = drop_older(points, cutoff);
            &&& r.len() <= points.len()
            &&& r =~= points.subrange(points.len() - r.len(), points.len() as int)
            &&& r.len() > 0 ==> r[0].0 >= cutoff
            &&& (points.len() > 0 && points.last().0 >= cutoff) ==> r.len() > 0
            &&& forall|i: int| 0 <= i < points.len() - r.len() ==> #[trigger] points[i].0 < cutoff
        }),
    decreases points.len(),
{
    if points.len() > 0 && points[0].0 < cutoff {
        let rest = points.drop_first();
        lemma_drop_older(rest, cutoff);
        if points.len() > 1 {
            assert(rest.last() == points.last());
        }
        let r = drop_older(rest, cutoff);
        assert forall|i: int| 0 <= i < points.len() - r.len() implies #[trigger] points[i].0
            < cutoff by {
            if i > 0 {
                assert(points[i] == rest[i - 1]);
            }
        }
    }
}

/// What trimming keeps: a suffix of the input, never more than `cap`
/// entries, always the newest entry, and, for time-ordered input, only
/// entries inside the window.
pub proof fn lemma_trim_points<V>(points: Seq<(u64, V)>, cap: nat, window: u64)
    requires
        cap >= 1,
    ensures
        ({
            let r = trim_points(points, cap, window);
            &&& r.len() <= cap
            &&& r.len() <= points.len()
            &&& r =~= points.subrange(points.len() - r.len(), points.len() as int)
            &&& points.len() > 0 ==> r.len() > 0 && r.last() == points.last()
            &&& time_ordered(points) ==> within_window(r, window)
        }),
{
    let kept = cap_points(points, cap);
    assert(kept =~= points.subrange(points.len() - kept.len(), points.len() as int));
    if kept.len() == 0 || kept.last().0 < window {
        if time_ordered(points) && kept.len() > 0 {
            assert forall|i: int| 0 <= i < kept.len() implies #[trigger] kept[i].0 + window
                >= kept.last().0 by {}
        }
    } else {
        let cutoff = (kept.last().0 - window) as u64;
        lemma_drop_older(kept, cutoff);
        let r = drop_older(kept, cutoff);
        assert(r.last() == kept.last());
        if time_ordered(points) {
            assert forall|i: int| 0 <= i < r.len() implies #[trigger] r[i].0 + window
                >= r.last().0 by {
                assert(r[i] == points[points.len() - r.len() + i]);
                assert(r[0] == points[points.len() - r.len()]);
            }
        }
    }
}

/// `points` fits a ring of capacity `cap` over `window`: no more than `cap`
/// entries, none more than `window` older than the newest.
pub open spec fn fits<V>(points: Seq<(u64, V)>, cap: nat, window: u64) -> bool {
    points.len() <= cap && within_window(points, window)
}

/// Trimming time-ordered points keeps the longest suffix that fits: what it
/// keeps fits, and every longer suffix does not.
pub proof fn lemma_trim_keeps_longest<V>(points: Seq<(u64, V)>, cap: nat, window: u64)
    requires
        cap >= 1,
        time_ordered(points),
    ensures
        ({
            let r = trim_points(points, cap, window);
            let k = points.len() - r.len();
            &&& fits(r, cap, window)
            &&& r == points.skip(k)
            &&& forall|j: int| 0 <= j < k ==> !fits(#[trigger] points.skip(j), cap, window)
        }),
{
    lemma_trim_points(points, cap, window);
    let r = trim_points(points, cap, window);
    let k = points.len() - r.len();
    assert(r =~= points.skip(k));
    let kept = cap_points(points, cap);
    let d = points.len() - kept.len();
    assert(kept =~= points.subrange(d, points.len() as int));
    assert forall|j: int| 0 <= j < k implies !fits(#[trigger] points.skip(j), cap, window) by {
        let t = points.skip(j);
        if j < d {
            assert(t.len() > cap);
        } else {
            assert(kept.len() > 0 && kept.last().0 >= window);
            let cutoff = (kept.last().0 - window) as u64;
            lemma_drop_older(kept, cutoff);
            let i = j - d;
            assert(kept[i] == points[j]);
            assert(kept[i].0 < cutoff);
            assert(t[0] == points[j]);
            assert(t.last() == points.last());
            assert(kept.last() == points.last());
            assert(!(t[0].0 + window >= t.last().0));
        }
    }
}

/// Pushing a point no older than the ring's points leaves the newest point
/// last and keeps the longest suffix of the old points and the new one that
/// fits the ring.
pub proof fn lemma_push_keeps_longest<V>(
    before: Seq<(u64, V)>,
    at: u64,
    value: V,
    cap: nat,
    window: u64,
)
    requires
        cap >= 1,
        time_ordered(before),
        forall|i: int| 0 <= i < before.len() ==> #[trigger] before[i].0 <= at,
    ensures
        ({
            let s = before.push((at, value));
            let r = trim_points(s, cap, window);
            let k = s.len() - r.len();
            &&& r.len() > 0 && r.last() == (at, value)
            &&& fits(r, cap, window)
            &&& r == s.skip(k)
            &&& forall|j: int| 0 <= j < k ==> !fits(#[trigger] s.skip(j), cap, window)
        }),
{
    let s = before.push((at, value));
    assert forall|i: int, j: int| 0 <= i <= j < s.len() implies s[i].0 <= s[j].0 by {
        if j == s.len() - 1 {
            if i < j {
                assert(s[i] == before[i]);
            }
        } else {
            assert(s[i] == before[i] && s[j] == before[j]);
        }
    }
    lemma_trim_keeps_longest(s, cap, window);
    lemma_trim_points(s, cap, window);
}

/// A rolling window of one graph's samples: times in milliseconds since the
/// epoch, with values of type `V`.
pub struct SampleRing<V> {
    window: u64,
    stream_period: u64,
    max_points: usize,
    points: VecDeque<(u64, V)>,
}

impl<V> SampleRing<V> {
    #[verifier::type_invariant]
    spec fn inv(self) -> bool {
        &&& self.max_points == spec_ring_capacity(self.window, self.stream_period)
        &&& self.points@.len() <= self.max_points
    }

    /// The points, oldest first.
    pub closed spec fn spec_points(&self) -> Seq<(u64, V)> {
        self.points@
    }

    pub closed spec fn spec_window(&self) -> u64 {
        self.window
    }

    pub closed spec fn spec_stream_period(&self) -> u64 {
        self.stream_period
    }

    /// How many points the ring keeps at most.
    pub open spec fn capacity(&self) -> nat {
        spec_ring_capacity(self.spec_window(), self.spec_stream_period())
    }

    /// An empty ring covering `window` at one point per `stream_period`
    /// (both in milliseconds).
    pub fn new(window: u64, stream_period: u64) -> (r: Self)
        ensures
            r.spec_window() == window,
            r.spec_stream_period() == stream_period,
            r.spec_points() == Seq::<(u64, V)>::empty(),
    {
        SampleRing {
            window,
            stream_period,
            max_points: ring_capacity(window, stream_period),
            points: VecDeque::new(),
        }
    }

    /// Changes the window, then drops what no longer fits.
    pub fn set_window(&mut self, window: u64)
        ensures
            final(self).spec_window() == window,
            final(self).spec_stream_period() == old(self).spec_stream_period(),
            final(self).spec_points() == trim_points(
                old(self).spec_points(),
                spec_ring_capacity(window, old(self).spec_stream_period()),
                window,
            ),
    {
        proof {
            use_type_invariant(&*self);
        }
        let cap = ring_capacity(window, self.stream_period);
        let mut points = VecDeque::new();
        std::mem::swap(&mut points, &mut self.points);
        let kept = Self::trimmed(points, cap, window);
        *self = SampleRing { window, stream_period: self.stream_period, max_points: cap, points: kept };
    }

    /// Adds a point at the back, then drops what no longer fits.
    pub fn push(&mut self, at: u64, value: V)
        ensures
            final(self).spec_window() == old(self).spec_window(),
            final(self).spec_stream_period() == old(self).spec_stream_period(),
            final(self).spec_points() == trim_points(
                old(self).spec_points().push((at, value)),
                old(self).capacity(),
                old(self).spec_window(),
            ),
    {
        proof {
            use_type_invariant(&*self);
        }
        let mut points = VecDeque::new();
        std::mem::swap(&mut points, &mut self.points);
        points.push_back((at, value));
        let kept = Self::trimmed(points, self.max_points, self.window);
        *self = SampleRing {
            window: self.window,
            stream_period: self.stream_period,
            max_points: self.max_points,
            points: kept,
        };
    }

    fn trimmed(points: VecDeque<(u64, V)>, cap: usize, window: u64) -> (r: VecDeque<(u64, V)>)
        requires
            cap >= 1,
        ensures
            r@ == trim_points(points@, cap as nat, window),
            r@.len() <= cap,
    {
        let mut points = points;
        let ghost untrimmed = points@;
        while points.len() > cap
            invariant
                cap >= 1,
                cap_points(points@, cap as nat) == cap_points(untrimmed, cap as nat),
            decreases points@.len(),
        {
            let ghost before = points@;
            points.pop_front();
            assert(cap_points(points@, cap as nat) =~= cap_points(before, cap as nat));
        }
        assert(points@ == cap_points(untrimmed, cap as nat));
        if points.len() == 0 {
            return points;
        }
        let newest = points[points.len() - 1].0;
        if newest < window {
            return points;
        }
        let cutoff = newest - window;
        let ghost kept = points@;
        loop
            invariant
                drop_older(points@, cutoff) == drop_older(kept, cutoff),
            ensures
                points@ == drop_older(kept, cutoff),
            decreases points@.len(),
        {
            if points.len() == 0 {
                break;
            }
            if points[0].0 >= cutoff {
                break;
            }
            points.pop_front();
        }
        proof {
            lemma_trim_points(untrimmed, cap as nat, window);
        }
        points
    }

    /// The points, oldest first.
    pub fn points(&self) -> (r: &VecDeque<(u64, V)>)
        ensures
            r@ == self.spec_points(),
    {
        &self.points
    }

    pub fn window(&self) -> (r: u64)
        ensures
            r == self.spec_window(),
    {
        self.window
    }
}

impl<V: Copy> SampleRing<V> {
    /// The newest value.
    pub fn latest(&self) -> (r: Option<V>)
        ensures
            r == (if self.spec_points().len() > 0 {
                Some(self.spec_points().last().1)
            } else {
                None
            }),
    {
        let n = self.points.len();
        if n == 0 {
            None
        } else {
            Some(self.points[n - 1].1)
        }
    }
}

/// The metric `sample` belongs to: in the first capability with the sample's
/// backend and capability ids, the first metric with its metric id.
pub open spec fn sample_metric<V>(caps: Seq<Capability>, sample: Sample<V>) -> Option<MetricInfo> {
    let c = capability_pos(caps, sample.backend_id, sample.capability_id);
    if c < caps.len() {
        let metrics = caps[c].metrics@;
        let m = metric_pos(metrics, sample.metric_id);
        if m < metrics.len() {
            Some(metrics[m])
        } else {
            None
        }
    } else {
        None
    }
}

pub fn lookup_metric<'a, V>(capabilities: &'a [Capability], sample: &Sample<V>) -> (r: Option<
    &'a MetricInfo,
>)
    ensures
        match sample_metric(capabilities@, *sample) {
            Some(m) => r matches Some(x) && *x == m,
            None => r is None,
        },
{
    match crate::model::capability::find(capabilities, sample.backend_id, sample.capability_id) {
        Some(cap) => cap.metric(sample.metric_id),
        None => None,
    }
}

} // verus!
