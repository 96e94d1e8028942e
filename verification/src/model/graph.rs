//! Graphs on a dashboard and the sampling and streaming rates of the
//! capabilities they draw from.
use vstd::prelude::*;

use crate::error::Error;
use crate::model::capability::{label_text, Capability};
use crate::model::unit::{is_percent, spec_is_percent};
use crate::seqs::{first_index, lemma_first_index_is};
use crate::text::{decimal, push_decimal, push_str};

verus! {

#[derive(Clone, Copy, Debug, PartialEq, Eq, Structural)]
pub enum ChartKind {
    Pie,
    Line,
    Bar,
}

pub open spec fn chart_label(kind: ChartKind) -> Seq<char> {
    match kind {
        ChartKind::Pie => "pie"@,
        ChartKind::Line => "line"@,
        ChartKind::Bar => "bar"@,
    }
}

/// The chart a metric gets by default: a pie for percentages, a line for
/// every other unit.
pub open spec fn default_chart(unit: Seq<char>) -> ChartKind {
    if spec_is_percent(unit) {
        ChartKind::Pie
    } else {
        ChartKind::Line
    }
}

pub open spec fn next_chart(kind: ChartKind) -> ChartKind {
    match kind {
        ChartKind::Pie => ChartKind::Line,
        ChartKind::Line => ChartKind::Bar,
        ChartKind::Bar => ChartKind::Pie,
    }
}

impl ChartKind {
    pub fn default_for(unit: &str) -> (r: Self)
        ensures
            r == default_chart(unit@),
    {
        if is_percent(unit) {
            ChartKind::Pie
        } else {
            ChartKind::Line
        }
    }

    pub fn next(self) -> (r: Self)
        ensures
            r == next_chart(self),
    {
        match self {
            ChartKind::Pie => ChartKind::Line,
            ChartKind::Line => ChartKind::Bar,
            ChartKind::Bar => ChartKind::Pie,
        }
    }

    pub fn label(self) -> (r: &'static str)
        ensures
            r@ == chart_label(self),
    {
        match self {
            ChartKind::Pie => "pie",
            ChartKind::Line => "line",
            ChartKind::Bar => "bar",
        }
    }
}

/// Palette index. The theme resolves it to an RGB color.
#[derive(Clone, Copy, Debug, PartialEq, Eq, Structural)]
pub struct SeriesColor {
    pub index: u8,
}

impl SeriesColor {
    pub fn new(index: u8) -> (r: Self)
        ensures
            r.index == index,
    {
        SeriesColor { index }
    }

    /// The next palette entry, wrapping after 255.
    pub fn next(self) -> (r: Self)
        ensures
            r.index == (self.index + 1) % 256,
    {
        SeriesColor { index: self.index.wrapping_add(1) }
    }
}

/// One graph: a metric of a capability, how it is drawn, and how much time it
/// shows (`window`, in milliseconds).
#[derive(Clone, Copy, Debug, PartialEq, Eq, Structural)]
pub struct GraphSpec {
    pub backend_id: u8,
    pub capability_id: u8,
    pub metric_id: u16,
    pub chart: ChartKind,
    pub color: SeriesColor,
    pub window: u64,
}

/// Sampling and streaming apply to a whole capability, not to one graph.
#[derive(Clone, Copy, Debug, PartialEq, Eq, Structural)]
pub struct CapabilityRate {
    pub backend_id: u8,
    pub capability_id: u8,
    pub sampling_rate_ms: u16,
    pub streaming_rate_ms: u16,
}

/// Why `rate` cannot be used with `cap`, or `None` when it can.
pub open spec fn rate_problem(rate: CapabilityRate, cap: Capability) -> Option<Seq<char>> {
    if rate.backend_id != cap.backend_id || rate.capability_id != cap.capability_id {
        Some("rate does not belong to the selected capability"@)
    } else if !cap.sampling_rates_ms@.contains(rate.sampling_rate_ms) {
        Some(
            "sampling rate "@ + decimal(rate.sampling_rate_ms as nat) + " ms is not offered by "@
                + label_text(cap),
        )
    } else if !cap.streaming_rates_ms@.contains(rate.streaming_rate_ms) {
        Some(
            "streaming rate "@ + decimal(rate.streaming_rate_ms as nat) + " ms is not offered by "@
                + label_text(cap),
        )
    } else if rate.streaming_rate_ms < rate.sampling_rate_ms {
        Some(
            "streaming rate "@ + decimal(rate.streaming_rate_ms as nat)
                + " ms is shorter than sampling rate "@ + decimal(rate.sampling_rate_ms as nat)
                + " ms"@,
        )
    } else {
        None
    }
}

pub fn contains_u16(values: &Vec<u16>, x: u16) -> (r: bool)
    ensures
        r == values@.contains(x),
{
    let mut i: usize = 0;
    while i < values.len()
        invariant
            i <= values.len(),
            forall|k: int| 0 <= k < i ==> values@[k] != x,
        decreases values.len() - i,
    {
        if values[i] == x {
            return true;
        }
        i = i + 1;
    }
    false
}

impl CapabilityRate {
    /// Checks that this rate belongs to `capability`, that both rates are
    /// among the ones the capability offers, and that streaming is not
    /// shorter than sampling.
    pub fn validate(&self, capability: &Capability) -> (r: Result<(), Error>)
        ensures
            match rate_problem(*self, *capability) {
                None => r is Ok,
                Some(text) => r matches Err(Error::Message(t)) && t@ == text,
            },
    {
        if self.backend_id != capability.backend_id || self.capability_id
            != capability.capability_id {
            let mut s = String::new();
            push_str(&mut s, "rate does not belong to the selected capability");
            return Err(Error::message(s));
        }
        if !contains_u16(&capability.sampling_rates_ms, self.sampling_rate_ms) {
            let mut s = String::new();
            push_str(&mut s, "sampling rate ");
            push_decimal(&mut s, self.sampling_rate_ms as u64);
            push_str(&mut s, " ms is not offered by ");
            let label = capability.label();
            push_str(&mut s, label.as_str());
            return Err(Error::message(s));
        }
        if !contains_u16(&capability.streaming_rates_ms, self.streaming_rate_ms) {
            let mut s = String::new();
            push_str(&mut s, "streaming rate ");
            push_decimal(&mut s, self.streaming_rate_ms as u64);
            push_str(&mut s, " ms is not offered by ");
            let label = capability.label();
            push_str(&mut s, label.as_str());
            return Err(Error::message(s));
        }
        if self.streaming_rate_ms < self.sampling_rate_ms {
            let mut s = String::new();
            push_str(&mut s, "streaming rate ");
            push_decimal(&mut s, self.streaming_rate_ms as u64);
            push_str(&mut s, " ms is shorter than sampling rate ");
            push_decimal(&mut s, self.sampling_rate_ms as u64);
            push_str(&mut s, " ms");
            return Err(Error::message(s));
        }
        Ok(())
    }
}

/// Whether a value is at least `floor`.
pub open spec fn at_least(floor: u16) -> spec_fn(u16) -> bool {
    |v: u16| v >= floor
}

/// Whether a value is `x`.
pub open spec fn equal_to(x: u16) -> spec_fn(u16) -> bool {
    |v: u16| v == x
}

/// The smallest value of `values` that is at least `floor`; `None` when no
/// value is that large.
pub open spec fn least_at_least(values: Seq<u16>, floor: u16) -> Option<u16>
    decreases values.len(),
{
    if values.len() == 0 {
        None
    } else {
        let rest = least_at_least(values.drop_last(), floor);
        let v = values.last();
        if v < floor {
            rest
        } else {
            match rest {
                Some(m) => if m <= v {
                    Some(m)
                } else {
                    Some(v)
                },
                None => Some(v),
            }
        }
    }
}

/// `least_at_least` is the least listed value at or above `floor`.
pub proof fn lemma_least_at_least(values: Seq<u16>, floor: u16)
    ensures
        match least_at_least(values, floor) {
            Some(m) => {
                &&& m >= floor
                &&& values.contains(m)
                &&& forall|j: int| 0 <= j < values.len() && values[j] >= floor ==> m <= #[trigger] values[j]
            },
            None => forall|j: int| 0 <= j < values.len() ==> #[trigger] values[j] < floor,
        },
    decreases values.len(),
{
    if values.len() > 0 {
        let init = values.drop_last();
        lemma_least_at_least(init, floor);
        let n = values.len() - 1;
        assert(values[n] == values.last());
        match least_at_least(values, floor) {
            Some(m) => {
                assert forall|j: int| 0 <= j < values.len() && values[j] >= floor implies m
                    <= #[trigger] values[j] by {
                    if j < n {
                        assert(init[j] == values[j]);
                    }
                }
                if m == values[n] {
                } else {
                    let k = choose|k: int| 0 <= k < init.len() && init[k] == m;
                    assert(values[k] == m);
                }
            },
            None => {
                assert forall|j: int| 0 <= j < values.len() implies #[trigger] values[j] < floor by {
                    if j < n {
                        assert(init[j] == values[j]);
                    }
                }
            },
        }
    }
}

/// The rate a capability starts with: its first sampling rate, and the
/// smallest streaming rate at least that long (the last streaming rate when
/// none is). `None` when either list is empty.
pub open spec fn spec_default_rate(cap: Capability) -> Option<CapabilityRate> {
    let sampling = cap.sampling_rates_ms@;
    let streaming = cap.streaming_rates_ms@;
    if sampling.len() == 0 || streaming.len() == 0 {
        None
    } else {
        let s = sampling[0];
        let st = match least_at_least(streaming, s) {
            Some(m) => m,
            None => streaming.last(),
        };
        Some(
            CapabilityRate {
                backend_id: cap.backend_id,
                capability_id: cap.capability_id,
                sampling_rate_ms: s,
                streaming_rate_ms: st,
            },
        )
    }
}

/// The smallest value of `values` that is at least `floor`.
pub fn smallest_at_least(values: &Vec<u16>, floor: u16) -> (r: Option<u16>)
    ensures
        r == least_at_least(values@, floor),
{
    let mut best: Option<u16> = None;
    let mut i: usize = 0;
    while i < values.len()
        invariant
            i <= values.len(),
            best == least_at_least(values@.take(i as int), floor),
        decreases values.len() - i,
    {
        let v = values[i];
        proof {
            assert(values@.take(i as int + 1).drop_last() =~= values@.take(i as int));
            assert(values@.take(i as int + 1).last() == v);
        }
        if v >= floor {
            best = match best {
                Some(m) => if m <= v {
                    Some(m)
                } else {
                    Some(v)
                },
                None => Some(v),
            };
        }
        i = i + 1;
    }
    proof {
        assert(values@.take(i as int) =~= values@);
    }
    best
}

/// The first value of `values` that is at least `floor`.
pub fn first_at_least(values: &Vec<u16>, floor: u16) -> (r: Option<u16>)
    ensures
        ({
            let i = first_index(values@, at_least(floor));
            r == (if i < values@.len() {
                Some(values@[i])
            } else {
                None
            })
        }),
{
    let ghost p = at_least(floor);
    let mut i: usize = 0;
    while i < values.len()
        invariant
            i <= values.len(),
            p == at_least(floor),
            forall|j: int| 0 <= j < i ==> !p(#[trigger] values@[j]),
        decreases values.len() - i,
    {
        if values[i] >= floor {
            proof {
                lemma_first_index_is(values@, p, i as int);
            }
            return Some(values[i]);
        }
        i = i + 1;
    }
    proof {
        lemma_first_index_is(values@, p, i as int);
    }
    None
}

pub fn default_rate(capability: &Capability) -> (r: Option<CapabilityRate>)
    ensures
        r == spec_default_rate(*capability),
{
    if capability.sampling_rates_ms.len() == 0 {
        return None;
    }
    let sampling_rate_ms = capability.sampling_rates_ms[0];
    let streaming_rate_ms = match smallest_at_least(&capability.streaming_rates_ms, sampling_rate_ms) {
        Some(rate) => rate,
        None => {
            if capability.streaming_rates_ms.len() == 0 {
                return None;
            }
            capability.streaming_rates_ms[capability.streaming_rates_ms.len() - 1]
        },
    };
    Some(
        CapabilityRate {
            backend_id: capability.backend_id,
            capability_id: capability.capability_id,
            sampling_rate_ms,
            streaming_rate_ms,
        },
    )
}

pub const WINDOW_PRESETS_SECS: [u64; 4] = [15, 30, 60, 300];

pub open spec fn window_presets() -> Seq<u64> {
    seq![15, 30, 60, 300]
}

/// The next preset window after `current` (milliseconds): the first preset
/// longer than `current`'s whole seconds, wrapping to the first preset.
pub open spec fn spec_next_window(current: u64) -> u64 {
    let secs = current / 1000;
    let i = first_index(window_presets(), |p: u64| p > secs);
    let next = if i < 4 {
        window_presets()[i]
    } else {
        window_presets()[0]
    };
    (next * 1000) as u64
}

/// The `w` key steps through the preset windows (15 s, 30 s, 1 min, 5 min):
/// the next window is always a preset; it is the shortest preset longer
/// than the current window's whole seconds; past the longest preset it
/// wraps to the shortest, so four presses from any preset come back to it.
pub proof fn lemma_next_window_cycles(current: u64)
    ensures
        ({
            let next = spec_next_window(current);
            let secs = current / 1000;
            &&& next == 15_000 || next == 30_000 || next == 60_000 || next == 300_000
            &&& secs >= 300 ==> next == 15_000
            &&& secs < 300 ==> next / 1000 > secs
            &&& 15 > secs ==> next / 1000 <= 15
            &&& 30 > secs ==> next / 1000 <= 30
            &&& 60 > secs ==> next / 1000 <= 60
            &&& 300 > secs ==> next / 1000 <= 300
        }),
        (current == 15_000 || current == 30_000 || current == 60_000 || current == 300_000)
            ==> spec_next_window(spec_next_window(spec_next_window(spec_next_window(current))))
            == current,
{
    lemma_next_window_steps();
    let secs = current / 1000;
    let presets = window_presets();
    let p = |x: u64| x > secs;
    if secs < 15 {
        lemma_first_index_is(presets, p, 0);
    } else if secs < 30 {
        lemma_first_index_is(presets, p, 1);
    } else if secs < 60 {
        lemma_first_index_is(presets, p, 2);
    } else if secs < 300 {
        lemma_first_index_is(presets, p, 3);
    } else {
        lemma_first_index_is(presets, p, 4);
    }
}

proof fn lemma_next_window_steps()
    ensures
        spec_next_window(15_000) == 30_000,
        spec_next_window(30_000) == 60_000,
        spec_next_window(60_000) == 300_000,
        spec_next_window(300_000) == 15_000,
{
    let presets = window_presets();
    lemma_first_index_is(presets, |x: u64| x > 15, 1);
    lemma_first_index_is(presets, |x: u64| x > 30, 2);
    lemma_first_index_is(presets, |x: u64| x > 60, 3);
    lemma_first_index_is(presets, |x: u64| x > 300, 4);
}

/// The window after `current`, both in milliseconds.
pub fn next_window(current: u64) -> (r: u64)
    ensures
        r == spec_next_window(current),
        r == 15_000 || r == 30_000 || r == 60_000 || r == 300_000,
        current / 1000 >= 300 ==> r == 15_000,
        current / 1000 < 300 ==> r / 1000 > current / 1000,
{
    proof {
        lemma_next_window_cycles(current);
    }
    let secs = current / 1000;
    let ghost p = |x: u64| x > secs;
    let ghost presets = window_presets();
    let next: u64 = if secs < 15 {
        proof {
            lemma_first_index_is(presets, p, 0);
        }
        15
    } else if secs < 30 {
        proof {
            lemma_first_index_is(presets, p, 1);
        }
        30
    } else if secs < 60 {
        proof {
            lemma_first_index_is(presets, p, 2);
        }
        60
    } else if secs < 300 {
        proof {
            lemma_first_index_is(presets, p, 3);
        }
        300
    } else {
        proof {
            lemma_first_index_is(presets, p, 4);
        }
        15
    };
    next * 1000
}

} // verus!
