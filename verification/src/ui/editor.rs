//! The dashboard editor: one row per metric that libqcperf reports, keys
//! that add or remove a metric's graph, change its chart, color and window,
//! and step the capability's sampling and streaming rates through the values
//! the capability offers.
use vstd::prelude::*;

use crate::model::capability::{capability_pos, label_text, metric_pos, Capability, MetricInfo};
use crate::model::dashboard::{rate_pos, rate_for, Dashboard};
use crate::model::graph::{
    at_least, default_chart, default_rate, equal_to, first_at_least, lemma_least_at_least,
    least_at_least, next_window, rate_problem, spec_default_rate, spec_next_window,
    CapabilityRate, ChartKind, GraphSpec, SeriesColor,
};
use crate::seqs::{
    first_index, keep_where, lemma_first_index, lemma_first_index_is, lemma_keep_where,
    lemma_keep_where_all, lemma_keep_where_distinct, lemma_keep_where_push,
};
use crate::text::{copy_string, push_str};

verus! {

/// The keys the editor and the screens react to.
#[derive(Clone, Copy, Debug, PartialEq, Eq, Structural)]
pub enum Key {
    Char(char),
    Up,
    Down,
    Left { shift: bool },
    Right { shift: bool },
    Enter,
    Esc,
    Tab,
    Other,
}

/// What a key in the editor asks of the program.
pub enum EditorEffect {
    /// Nothing for the program to do.
    Nothing,
    Cancel,
    Saved,
    Status(String),
}

/// One editor row: a metric of a capability, with its label and unit.
pub struct MetricRow {
    pub backend_id: u8,
    pub capability_id: u8,
    pub metric_id: u16,
    pub label: String,
    pub unit: String,
}

/// A row as ids, label and unit.
pub type RowView = (u8, u8, u16, Seq<char>, Seq<char>);

impl MetricRow {
    pub open spec fn view(self) -> RowView {
        (self.backend_id, self.capability_id, self.metric_id, self.label@, self.unit@)
    }
}

pub open spec fn rows_view(rows: Seq<MetricRow>) -> Seq<RowView> {
    rows.map_values(|r: MetricRow| r.view())
}

/// The row of metric `m` of `cap`: labelled `<capability label> / <metric name>`.
pub open spec fn row_of(cap: Capability, m: MetricInfo) -> RowView {
    (cap.backend_id, cap.capability_id, m.metric_id, label_text(cap) + " / "@ + m.name@, m.unit@)
}

/// The rows of the metrics `metrics` of `cap`, in order.
pub open spec fn cap_rows(cap: Capability, metrics: Seq<MetricInfo>) -> Seq<RowView>
    decreases metrics.len(),
{
    if metrics.len() == 0 {
        Seq::empty()
    } else {
        cap_rows(cap, metrics.drop_last()).push(row_of(cap, metrics.last()))
    }
}

/// Every metric of every capability, capability by capability.
pub open spec fn rows_of(caps: Seq<Capability>) -> Seq<RowView>
    decreases caps.len(),
{
    if caps.len() == 0 {
        Seq::empty()
    } else {
        rows_of(caps.drop_last()) + cap_rows(caps.last(), caps.last().metrics@)
    }
}

/// One row per metric of every capability, in the order libqcperf listed
/// them.
pub fn metric_rows(capabilities: &[Capability]) -> (r: Vec<MetricRow>)
    ensures
        rows_view(r@) == rows_of(capabilities@),
{
    let mut rows: Vec<MetricRow> = Vec::new();
    let mut i: usize = 0;
    while i < capabilities.len()
        invariant
            i <= capabilities@.len(),
            rows_view(rows@) == rows_of(capabilities@.take(i as int)),
        decreases capabilities.len() - i,
    {
        let cap = &capabilities[i];
        let label = cap.label();
        let ghost before = rows_view(rows@);
        let mut j: usize = 0;
        while j < cap.metrics.len()
            invariant
                j <= cap.metrics@.len(),
                label@ == label_text(*cap),
                rows_view(rows@) == before + cap_rows(*cap, cap.metrics@.take(j as int)),
            decreases cap.metrics.len() - j,
        {
            let metric = &cap.metrics[j];
            let mut text = copy_string(&label);
            push_str(&mut text, " / ");
            push_str(&mut text, metric.name.as_str());
            let ghost mid = rows@;
            rows.push(
                MetricRow {
                    backend_id: cap.backend_id,
                    capability_id: cap.capability_id,
                    metric_id: metric.metric_id,
                    label: text,
                    unit: copy_string(&metric.unit),
                },
            );
            proof {
                assert(cap.metrics@.take(j + 1).drop_last() =~= cap.metrics@.take(j as int));
                assert(rows_view(rows@) =~= rows_view(mid).push(row_of(*cap, *metric)));
            }
            j = j + 1;
        }
        proof {
            assert(cap.metrics@.take(cap.metrics@.len() as int) =~= cap.metrics@);
            assert(capabilities@.take(i + 1).drop_last() =~= capabilities@.take(i as int));
        }
        i = i + 1;
    }
    assert(capabilities@.take(capabilities@.len() as int) =~= capabilities@);
    rows
}

// ---------------------------------------------------------------------------
// What each edit does to the dashboard's graphs and rates
// ---------------------------------------------------------------------------

/// Whether a graph shows the metric of row ids `(b, c, m)`.
pub open spec fn graph_is(b: u8, c: u8, m: u16) -> spec_fn(GraphSpec) -> bool {
    |g: GraphSpec| g.backend_id == b && g.capability_id == c && g.metric_id == m
}

/// Position of the first graph of the metric, or the length.
pub open spec fn graph_pos(graphs: Seq<GraphSpec>, b: u8, c: u8, m: u16) -> int {
    first_index(graphs, graph_is(b, c, m))
}

/// Whether a rate is for another capability than `(b, c)`.
pub open spec fn rate_of_other(b: u8, c: u8) -> spec_fn(CapabilityRate) -> bool {
    |r: CapabilityRate| !(r.backend_id == b && r.capability_id == c)
}

/// Whether some graph draws from capability `(b, c)`.
pub open spec fn draws_on(graphs: Seq<GraphSpec>, b: u8, c: u8) -> bool {
    exists|k: int| 0 <= k < graphs.len() && #[trigger] graphs[k].backend_id == b && graphs[k].capability_id == c
}

/// The window, in milliseconds, a graph added in the editor starts with.
pub open spec fn new_graph_window() -> u64 {
    60000
}

/// Space on a row: removes the metric's graph, and the capability's rate
/// when no graph of it is left; or adds a graph of the metric, with the
/// chart its unit calls for, the next color and a minute's window, and the
/// capability's default rate when the dashboard has none for it yet.
/// Nothing changes when the capabilities do not list the metric.
pub open spec fn toggled(
    graphs: Seq<GraphSpec>,
    rates: Seq<CapabilityRate>,
    b: u8,
    c: u8,
    m: u16,
    caps: Seq<Capability>,
) -> (Seq<GraphSpec>, Seq<CapabilityRate>) {
    let i = graph_pos(graphs, b, c, m);
    if i < graphs.len() {
        let rest = graphs.remove(i);
        if draws_on(rest, b, c) {
            (rest, rates)
        } else {
            (rest, keep_where(rates, rate_of_other(b, c)))
        }
    } else {
        let ci = capability_pos(caps, b, c);
        if ci < caps.len() && metric_pos(caps[ci].metrics@, m) < caps[ci].metrics@.len() {
            let cap = caps[ci];
            let metric = cap.metrics@[metric_pos(cap.metrics@, m)];
            let new_rates = if rate_for(rates, b, c) is None {
                match spec_default_rate(cap) {
                    Some(r) => rates.push(r),
                    None => rates,
                }
            } else {
                rates
            };
            let graph = GraphSpec {
                backend_id: b,
                capability_id: c,
                metric_id: m,
                chart: default_chart(metric.unit@),
                color: SeriesColor { index: graphs.len() as u8 },
                window: new_graph_window(),
            };
            (graphs.push(graph), new_rates)
        } else {
            (graphs, rates)
        }
    }
}

/// What `t`, `c` and `w` change on a graph.
pub enum GraphEdit {
    Chart,
    Color,
    Window,
}

pub open spec fn edit_graph(g: GraphSpec, edit: GraphEdit) -> GraphSpec {
    match edit {
        GraphEdit::Chart => GraphSpec { chart: crate::model::graph::next_chart(g.chart), ..g },
        GraphEdit::Color => GraphSpec { color: SeriesColor { index: ((g.color.index + 1) % 256) as u8 }, ..g },
        GraphEdit::Window => GraphSpec { window: spec_next_window(g.window), ..g },
    }
}

/// The graphs after `edit` on the row's metric; unchanged when the
/// dashboard has no graph of it.
pub open spec fn edited(graphs: Seq<GraphSpec>, b: u8, c: u8, m: u16, edit: GraphEdit) -> Seq<GraphSpec> {
    let i = graph_pos(graphs, b, c, m);
    if i < graphs.len() {
        graphs.update(i, edit_graph(graphs[i], edit))
    } else {
        graphs
    }
}

/// One step through `values` from `current` (`dir` is the step): from the
/// position of `current`, or from the first value when `current` is not
/// listed; `current` stays when the step leaves the list.
pub open spec fn stepped(values: Seq<u16>, current: u16, dir: int) -> u16 {
    if values.len() == 0 {
        current
    } else {
        let found = first_index(values, equal_to(current));
        let from = if found < values.len() {
            found
        } else {
            0
        };
        let next = from + dir;
        if 0 <= next < values.len() {
            values[next]
        } else {
            current
        }
    }
}

/// The rate after stepping its sampling (or, with `stream`, its streaming)
/// rate, then raising streaming to the first offered value at least the
/// sampling rate when it fell below it (if the capability offers one).
pub open spec fn step_one(rate: CapabilityRate, cap: Capability, stream: bool, dir: int) -> CapabilityRate {
    let r1 = if stream {
        CapabilityRate {
            streaming_rate_ms: stepped(cap.streaming_rates_ms@, rate.streaming_rate_ms, dir),
            ..rate
        }
    } else {
        CapabilityRate {
            sampling_rate_ms: stepped(cap.sampling_rates_ms@, rate.sampling_rate_ms, dir),
            ..rate
        }
    };
    if r1.streaming_rate_ms < r1.sampling_rate_ms {
        let streaming = cap.streaming_rates_ms@;
        let k = first_index(streaming, at_least(r1.sampling_rate_ms));
        if k < streaming.len() {
            CapabilityRate { streaming_rate_ms: streaming[k], ..r1 }
        } else {
            r1
        }
    } else {
        r1
    }
}

/// The rates after a rate step on capability `(b, c)`; unchanged when the
/// capabilities do not list it or the dashboard sets no rate for it.
pub open spec fn rate_stepped(
    rates: Seq<CapabilityRate>,
    b: u8,
    c: u8,
    caps: Seq<Capability>,
    stream: bool,
    dir: int,
) -> Seq<CapabilityRate> {
    let ci = capability_pos(caps, b, c);
    let ri = rate_pos(rates, b, c);
    if ci < caps.len() && ri < rates.len() {
        rates.update(ri, step_one(rates[ri], caps[ci], stream, dir))
    } else {
        rates
    }
}

/// The status text for a rate key on a capability another dashboard holds.
pub open spec fn locked_text() -> Seq<char> {
    "that capability is streaming on another dashboard; stop it there before changing the rate"@
}

/// What a key on a non-empty row list does: the graphs, rates and cursor
/// after it, given the row under the (already clamped) cursor.
pub open spec fn after_key(
    graphs: Seq<GraphSpec>,
    rates: Seq<CapabilityRate>,
    cursor: int,
    row_count: int,
    row: RowView,
    key: Key,
    caps: Seq<Capability>,
    locked: bool,
) -> (Seq<GraphSpec>, Seq<CapabilityRate>, int) {
    let (b, c, m) = (row.0, row.1, row.2);
    match key {
        Key::Up => (graphs, rates, if cursor > 0 {
            cursor - 1
        } else {
            0
        }),
        Key::Down => (graphs, rates, if cursor + 1 < row_count {
            cursor + 1
        } else {
            cursor
        }),
        Key::Char(' ') => {
            let t = toggled(graphs, rates, b, c, m, caps);
            (t.0, t.1, cursor)
        },
        Key::Char('t') => (edited(graphs, b, c, m, GraphEdit::Chart), rates, cursor),
        Key::Char('c') => (edited(graphs, b, c, m, GraphEdit::Color), rates, cursor),
        Key::Char('w') => (edited(graphs, b, c, m, GraphEdit::Window), rates, cursor),
        Key::Left { shift } => if locked {
            (graphs, rates, cursor)
        } else {
            (graphs, rate_stepped(rates, b, c, caps, shift, -1), cursor)
        },
        Key::Right { shift } => if locked {
            (graphs, rates, cursor)
        } else {
            (graphs, rate_stepped(rates, b, c, caps, shift, 1), cursor)
        },
        _ => (graphs, rates, cursor),
    }
}

/// The effect a key has, on a non-empty row list.
pub open spec fn effect_matches(r: EditorEffect, key: Key, locked: bool) -> bool {
    match key {
        Key::Esc => r is Cancel,
        Key::Enter => r is Saved,
        Key::Left { .. } | Key::Right { .. } => if locked {
            r matches EditorEffect::Status(t) && t@ == locked_text()
        } else {
            r is Nothing
        },
        _ => r is Nothing,
    }
}

// ---------------------------------------------------------------------------
// The edits
// ---------------------------------------------------------------------------

/// Position of the first graph of the metric `(b, c, m)`, or the length.
pub fn graph_index(graphs: &Vec<GraphSpec>, b: u8, c: u8, m: u16) -> (r: usize)
    ensures
        r == graph_pos(graphs@, b, c, m),
        r <= graphs@.len(),
{
    let ghost p = graph_is(b, c, m);
    let mut i: usize = 0;
    while i < graphs.len()
        invariant
            i <= graphs@.len(),
            p == graph_is(b, c, m),
            forall|j: int| 0 <= j < i ==> !p(#[trigger] graphs@[j]),
        decreases graphs.len() - i,
    {
        if graphs[i].backend_id == b && graphs[i].capability_id == c && graphs[i].metric_id == m {
            proof {
                lemma_first_index_is(graphs@, p, i as int);
            }
            return i;
        }
        i = i + 1;
    }
    proof {
        lemma_first_index_is(graphs@, p, i as int);
    }
    i
}

fn rate_index(rates: &Vec<CapabilityRate>, b: u8, c: u8) -> (r: usize)
    ensures
        r == rate_pos(rates@, b, c),
        r <= rates@.len(),
{
    let ghost p = |r: CapabilityRate| r.backend_id == b && r.capability_id == c;
    let mut i: usize = 0;
    while i < rates.len()
        invariant
            i <= rates@.len(),
            p == (|r: CapabilityRate| r.backend_id == b && r.capability_id == c),
            forall|j: int| 0 <= j < i ==> !p(#[trigger] rates@[j]),
        decreases rates.len() - i,
    {
        if rates[i].backend_id == b && rates[i].capability_id == c {
            proof {
                lemma_first_index_is(rates@, p, i as int);
            }
            return i;
        }
        i = i + 1;
    }
    proof {
        lemma_first_index_is(rates@, p, i as int);
    }
    i
}

fn capability_index(capabilities: &[Capability], b: u8, c: u8) -> (r: usize)
    ensures
        r == capability_pos(capabilities@, b, c),
        r <= capabilities@.len(),
{
    let ghost p = |x: Capability| x.backend_id == b && x.capability_id == c;
    let mut i: usize = 0;
    while i < capabilities.len()
        invariant
            i <= capabilities@.len(),
            p == (|x: Capability| x.backend_id == b && x.capability_id == c),
            forall|j: int| 0 <= j < i ==> !p(#[trigger] capabilities@[j]),
        decreases capabilities.len() - i,
    {
        if capabilities[i].backend_id == b && capabilities[i].capability_id == c {
            proof {
                lemma_first_index_is(capabilities@, p, i as int);
            }
            return i;
        }
        i = i + 1;
    }
    proof {
        lemma_first_index_is(capabilities@, p, i as int);
    }
    i
}

fn any_graph_on(graphs: &Vec<GraphSpec>, b: u8, c: u8) -> (r: bool)
    ensures
        r == draws_on(graphs@, b, c),
{
    let mut i: usize = 0;
    while i < graphs.len()
        invariant
            i <= graphs@.len(),
            forall|k: int| 0 <= k < i ==> !(#[trigger] graphs@[k].backend_id == b && graphs@[k].capability_id == c),
        decreases graphs.len() - i,
    {
        if graphs[i].backend_id == b && graphs[i].capability_id == c {
            assert(graphs@[i as int].backend_id == b && graphs@[i as int].capability_id == c);
            return true;
        }
        i = i + 1;
    }
    false
}

fn drop_rates_of(rates: &mut Vec<CapabilityRate>, b: u8, c: u8)
    ensures
        final(rates)@ == keep_where(old(rates)@, rate_of_other(b, c)),
{
    let ghost orig = rates@;
    let ghost p = rate_of_other(b, c);
    let mut rest: Vec<CapabilityRate> = Vec::new();
    std::mem::swap(&mut rest, rates);
    while rest.len() > 0
        invariant
            p == rate_of_other(b, c),
            rates@ + keep_where(rest@, p) == keep_where(orig, p),
        decreases rest@.len(),
    {
        let ghost before_rest = rest@;
        let ghost before_out = rates@;
        let x = rest.remove(0);
        assert(rest@ =~= before_rest.drop_first());
        if !(x.backend_id == b && x.capability_id == c) {
            rates.push(x);
            assert(before_out.push(x) + keep_where(rest@, p) =~= before_out + (seq![x] + keep_where(rest@, p)));
        }
    }
    assert(rates@ =~= rates@ + keep_where(rest@, p));
}

fn toggle(
    graphs: &mut Vec<GraphSpec>,
    rates: &mut Vec<CapabilityRate>,
    b: u8,
    c: u8,
    m: u16,
    capabilities: &[Capability],
)
    ensures
        (final(graphs)@, final(rates)@) == toggled(old(graphs)@, old(rates)@, b, c, m, capabilities@),
{
    let i = graph_index(graphs, b, c, m);
    if i < graphs.len() {
        graphs.remove(i);
        if !any_graph_on(graphs, b, c) {
            drop_rates_of(rates, b, c);
        }
        return;
    }
    let ci = capability_index(capabilities, b, c);
    if ci == capabilities.len() {
        return;
    }
    let capability = &capabilities[ci];
    let metric = match capability.metric(m) {
        Some(metric) => metric,
        None => {
            return;
        },
    };
    let ri = rate_index(rates, b, c);
    if ri == rates.len() {
        match default_rate(capability) {
            Some(rate) => {
                rates.push(rate);
            },
            None => {},
        }
    }
    let color = graphs.len() as u8;
    graphs.push(
        GraphSpec {
            backend_id: b,
            capability_id: c,
            metric_id: m,
            chart: ChartKind::default_for(metric.unit.as_str()),
            color: SeriesColor::new(color),
            window: 60000,
        },
    );
}

fn edit(graphs: &mut Vec<GraphSpec>, b: u8, c: u8, m: u16, which: GraphEdit)
    ensures
        final(graphs)@ == edited(old(graphs)@, b, c, m, which),
{
    let i = graph_index(graphs, b, c, m);
    if i < graphs.len() {
        let g = graphs[i];
        let changed = match which {
            GraphEdit::Chart => GraphSpec { chart: g.chart.next(), ..g },
            GraphEdit::Color => GraphSpec { color: g.color.next(), ..g },
            GraphEdit::Window => GraphSpec { window: next_window(g.window), ..g },
        };
        graphs.set(i, changed);
    }
}

/// One step through `values` from `current`, by `dir` positions; see
/// `stepped`.
pub fn step_list(values: &[u16], current: &mut u16, dir: i32)
    ensures
        *final(current) == stepped(values@, *old(current), dir as int),
{
    if values.len() == 0 {
        return;
    }
    let ghost p = equal_to(*old(current));
    let mut index: usize = 0;
    while index < values.len() && values[index] != *current
        invariant
            index <= values@.len(),
            *current == *old(current),
            p == equal_to(*old(current)),
            forall|j: int| 0 <= j < index ==> !p(#[trigger] values@[j]),
        decreases values.len() - index,
    {
        index = index + 1;
    }
    proof {
        lemma_first_index_is(values@, p, index as int);
    }
    let from: usize = if index < values.len() {
        index
    } else {
        0
    };
    if dir >= 0 {
        let forward = dir as usize;
        if forward < values.len() - from {
            *current = values[from + forward];
        }
    } else {
        let back = (0 - (dir as i64)) as usize;
        if back <= from {
            *current = values[from - back];
        }
    }
}

fn step_rate(
    rates: &mut Vec<CapabilityRate>,
    b: u8,
    c: u8,
    capabilities: &[Capability],
    stream: bool,
    dir: i32,
)
    ensures
        final(rates)@ == rate_stepped(old(rates)@, b, c, capabilities@, stream, dir as int),
{
    let ci = capability_index(capabilities, b, c);
    if ci == capabilities.len() {
        return;
    }
    let capability = &capabilities[ci];
    let ri = rate_index(rates, b, c);
    if ri == rates.len() {
        return;
    }
    let mut rate = rates[ri];
    if stream {
        step_list(capability.streaming_rates_ms.as_slice(), &mut rate.streaming_rate_ms, dir);
    } else {
        step_list(capability.sampling_rates_ms.as_slice(), &mut rate.sampling_rate_ms, dir);
    }
    if rate.streaming_rate_ms < rate.sampling_rate_ms {
        match first_at_least(&capability.streaming_rates_ms, rate.sampling_rate_ms) {
            Some(stream_rate) => {
                rate.streaming_rate_ms = stream_rate;
            },
            None => {},
        }
    }
    rates.set(ri, rate);
}

/// What a key does to the editor: only the dashboard's graphs and rates and
/// the cursor change, as `after_key` says, and the effect is `effect_matches`
/// (with no rows, only Esc does anything: it cancels).
pub open spec fn key_edits(
    before: Editor,
    after: Editor,
    key: Key,
    caps: Seq<Capability>,
    locked: bool,
    r: EditorEffect,
) -> bool {
    let rows = rows_of(caps);
    &&& after.dashboard.id == before.dashboard.id
    &&& after.dashboard.name == before.dashboard.name
    &&& after.dashboard.run == before.dashboard.run
    &&& after.dashboard.csv_export == before.dashboard.csv_export
    &&& after.active == before.active
    &&& if rows.len() == 0 {
        &&& after.dashboard.graphs@ == before.dashboard.graphs@
        &&& after.dashboard.rates@ == before.dashboard.rates@
        &&& after.cursor == before.cursor
        &&& if key == Key::Esc {
            r is Cancel
        } else {
            r is Nothing
        }
    } else {
        let cursor = if before.cursor < rows.len() {
            before.cursor as int
        } else {
            rows.len() - 1
        };
        let next = after_key(
            before.dashboard.graphs@,
            before.dashboard.rates@,
            cursor,
            rows.len() as int,
            rows[cursor],
            key,
            caps,
            locked,
        );
        &&& after.dashboard.graphs@ == next.0
        &&& after.dashboard.rates@ == next.1
        &&& after.cursor == next.2
        &&& effect_matches(r, key, locked)
    }
}

/// The editor over a copy of one dashboard.
pub struct Editor {
    pub dashboard: Dashboard,
    pub cursor: usize,
    pub active: bool,
}

impl Editor {
    pub fn open(dashboard: Dashboard) -> (r: Self)
        ensures
            r.dashboard == dashboard,
            r.cursor == 0,
            r.active,
    {
        Editor { dashboard, cursor: 0, active: true }
    }

    /// Handles one key. With no rows, only Esc does anything (it cancels).
    /// Otherwise the cursor is first brought onto the last row if it lies
    /// past it, then: Esc cancels, Enter saves, Up and Down move, Space
    /// toggles the row's metric, `t`, `c` and `w` change its graph's chart,
    /// color and window, and Left and Right step the capability's sampling
    /// rate (streaming with Shift) unless `rate_locked`, in which case they
    /// only explain why not.
    pub fn handle_key(&mut self, key: Key, capabilities: &[Capability], rate_locked: bool) -> (r:
        EditorEffect)
        ensures
            key_edits(*old(self), *final(self), key, capabilities@, rate_locked, r),
    {
        let rows = metric_rows(capabilities);
        if rows.len() == 0 {
            return match key {
                Key::Esc => EditorEffect::Cancel,
                _ => EditorEffect::Nothing,
            };
        }
        assert(rows_view(rows@).len() == rows@.len());
        if self.cursor >= rows.len() {
            self.cursor = rows.len() - 1;
        }
        let b = rows[self.cursor].backend_id;
        let c = rows[self.cursor].capability_id;
        let m = rows[self.cursor].metric_id;
        assert(rows_view(rows@)[self.cursor as int] == rows@[self.cursor as int].view());
        match key {
            Key::Esc => EditorEffect::Cancel,
            Key::Enter => EditorEffect::Saved,
            Key::Up => {
                if self.cursor > 0 {
                    self.cursor = self.cursor - 1;
                }
                EditorEffect::Nothing
            },
            Key::Down => {
                if self.cursor + 1 < rows.len() {
                    self.cursor = self.cursor + 1;
                }
                EditorEffect::Nothing
            },
            Key::Char(ch) => {
                if ch == ' ' {
                    toggle(&mut self.dashboard.graphs, &mut self.dashboard.rates, b, c, m, capabilities);
                } else if ch == 't' {
                    edit(&mut self.dashboard.graphs, b, c, m, GraphEdit::Chart);
                } else if ch == 'c' {
                    edit(&mut self.dashboard.graphs, b, c, m, GraphEdit::Color);
                } else if ch == 'w' {
                    edit(&mut self.dashboard.graphs, b, c, m, GraphEdit::Window);
                }
                EditorEffect::Nothing
            },
            Key::Left { shift } => {
                if rate_locked {
                    return EditorEffect::Status(locked_status());
                }
                step_rate(&mut self.dashboard.rates, b, c, capabilities, shift, -1);
                EditorEffect::Nothing
            },
            Key::Right { shift } => {
                if rate_locked {
                    return EditorEffect::Status(locked_status());
                }
                step_rate(&mut self.dashboard.rates, b, c, capabilities, shift, 1);
                EditorEffect::Nothing
            },
            _ => EditorEffect::Nothing,
        }
    }
}

fn locked_status() -> (r: String)
    ensures
        r@ == locked_text(),
{
    let mut s = String::new();
    push_str(
        &mut s,
        "that capability is streaming on another dashboard; stop it there before changing the rate",
    );
    s
}

/// A step through `values` gives one of them, or leaves `current` as it is.
pub proof fn lemma_stepped_listed(values: Seq<u16>, current: u16, dir: int)
    ensures
        stepped(values, current, dir) == current || values.contains(stepped(values, current, dir)),
{
    if values.len() > 0 {
        let found = first_index(values, equal_to(current));
        let from = if found < values.len() {
            found
        } else {
            0
        };
        lemma_first_index(values, |v: u16| v == current);
        let next = from + dir;
        if 0 <= next < values.len() {
            assert(values[next] == stepped(values, current, dir));
        }
    }
}

/// The editor offers only the rates a capability lists: after a rate step,
/// a rate whose sampling and streaming values both were among its
/// capability's lists still has both among them, and no other rate changes.
pub proof fn lemma_rate_steps_stay_listed(
    rates: Seq<CapabilityRate>,
    b: u8,
    c: u8,
    caps: Seq<Capability>,
    stream: bool,
    dir: int,
)
    ensures
        ({
            let after = rate_stepped(rates, b, c, caps, stream, dir);
            let ci = capability_pos(caps, b, c);
            let ri = rate_pos(rates, b, c);
            &&& after.len() == rates.len()
            &&& forall|k: int| 0 <= k < rates.len() && k != ri ==> #[trigger] after[k] == rates[k]
            &&& (ci < caps.len() && ri < rates.len() && caps[ci].sampling_rates_ms@.contains(
                rates[ri].sampling_rate_ms,
            ) && caps[ci].streaming_rates_ms@.contains(rates[ri].streaming_rate_ms)) ==> {
                &&& caps[ci].sampling_rates_ms@.contains(after[ri].sampling_rate_ms)
                &&& caps[ci].streaming_rates_ms@.contains(after[ri].streaming_rate_ms)
            }
        }),
{
    let ci = capability_pos(caps, b, c);
    let ri = rate_pos(rates, b, c);
    lemma_first_index(rates, |r: CapabilityRate| r.backend_id == b && r.capability_id == c);
    lemma_first_index(caps, |x: Capability| x.backend_id == b && x.capability_id == c);
    if ci < caps.len() && ri < rates.len() {
        let cap = caps[ci];
        let rate = rates[ri];
        lemma_stepped_listed(cap.streaming_rates_ms@, rate.streaming_rate_ms, dir);
        lemma_stepped_listed(cap.sampling_rates_ms@, rate.sampling_rate_ms, dir);
        let r1 = if stream {
            CapabilityRate {
                streaming_rate_ms: stepped(cap.streaming_rates_ms@, rate.streaming_rate_ms, dir),
                ..rate
            }
        } else {
            CapabilityRate {
                sampling_rate_ms: stepped(cap.sampling_rates_ms@, rate.sampling_rate_ms, dir),
                ..rate
            }
        };
        let streaming = cap.streaming_rates_ms@;
        lemma_first_index(streaming, |v: u16| v >= r1.sampling_rate_ms);
        let k = first_index(streaming, at_least(r1.sampling_rate_ms));
        if k < streaming.len() {
            assert(streaming.contains(streaming[k]));
        }
    }
}

/// The capability a rate is for.
pub open spec fn rate_key(r: CapabilityRate) -> (u8, u8) {
    (r.backend_id, r.capability_id)
}

/// `r` is valid for the first capability of `caps` with its ids.
pub open spec fn rate_fits(r: CapabilityRate, caps: Seq<Capability>) -> bool {
    let ci = capability_pos(caps, r.backend_id, r.capability_id);
    ci < caps.len() && rate_problem(r, caps[ci]) is None
}

/// Every rate is valid for its capability, and no capability has two rates.
pub open spec fn rates_ok(rates: Seq<CapabilityRate>, caps: Seq<Capability>) -> bool {
    &&& forall|i: int| 0 <= i < rates.len() ==> rate_fits(#[trigger] rates[i], caps)
    &&& forall|a: int, b: int|
        #![trigger rates[a], rates[b]]
        0 <= a < b < rates.len() ==> rate_key(rates[a]) != rate_key(rates[b])
}

/// Each capability lists, for every sampling rate it offers, a streaming rate
/// at least as long.
pub open spec fn streams_cover(caps: Seq<Capability>) -> bool {
    forall|k: int, i: int|
        0 <= k < caps.len() && 0 <= i < caps[k].sampling_rates_ms@.len() ==> exists|j: int|
            0 <= j < caps[k].streaming_rates_ms@.len() && caps[k].streaming_rates_ms@[j]
                >= #[trigger] caps[k].sampling_rates_ms@[i]
}

proof fn lemma_pos_of_rate(caps: Seq<Capability>, b: u8, c: u8)
    ensures
        0 <= capability_pos(caps, b, c) <= caps.len(),
        capability_pos(caps, b, c) < caps.len() ==> caps[capability_pos(caps, b, c)].backend_id == b
            && caps[capability_pos(caps, b, c)].capability_id == c,
{
    lemma_first_index(caps, |x: Capability| x.backend_id == b && x.capability_id == c);
}

/// Under `streams_cover`, some listed streaming rate is at least `s`, for
/// every listed sampling rate `s` of `caps[k]`.
proof fn lemma_cover_at(caps: Seq<Capability>, k: int, s: u16)
    requires
        streams_cover(caps),
        0 <= k < caps.len(),
        caps[k].sampling_rates_ms@.contains(s),
    ensures
        exists|j: int| 0 <= j < caps[k].streaming_rates_ms@.len() && #[trigger] caps[k].streaming_rates_ms@[j] >= s,
{
    let i = choose|i: int| 0 <= i < caps[k].sampling_rates_ms@.len() && caps[k].sampling_rates_ms@[i] == s;
    let _ = caps[k].sampling_rates_ms@[i];
}

proof fn lemma_toggle_keeps_rates_ok(
    graphs: Seq<GraphSpec>,
    rates: Seq<CapabilityRate>,
    b: u8,
    c: u8,
    m: u16,
    caps: Seq<Capability>,
)
    requires
        rates_ok(rates, caps),
        streams_cover(caps),
    ensures
        rates_ok(toggled(graphs, rates, b, c, m, caps).1, caps),
{
    let i = graph_pos(graphs, b, c, m);
    if i < graphs.len() {
        let rest = graphs.remove(i);
        if !draws_on(rest, b, c) {
            let p = rate_of_other(b, c);
            let kept = keep_where(rates, p);
            lemma_keep_where(rates, p);
            let f = |r: CapabilityRate| rate_key(r);
            assert forall|x: int, y: int| #![trigger rates[x], rates[y]] 0 <= x < y < rates.len()
                implies f(rates[x]) != f(rates[y]) by {}
            lemma_keep_where_distinct(rates, p, f);
            assert forall|k: int| 0 <= k < kept.len() implies rate_fits(#[trigger] kept[k], caps) by {
                assert(rates.contains(kept[k]));
                let j = choose|j: int| 0 <= j < rates.len() && rates[j] == kept[k];
                assert(rate_fits(rates[j], caps));
            }
            assert forall|x: int, y: int| #![trigger kept[x], kept[y]] 0 <= x < y < kept.len()
                implies rate_key(kept[x]) != rate_key(kept[y]) by {
                assert(f(kept[x]) != f(kept[y]));
            }
        }
    } else {
        let ci = capability_pos(caps, b, c);
        lemma_pos_of_rate(caps, b, c);
        if ci < caps.len() && metric_pos(caps[ci].metrics@, m) < caps[ci].metrics@.len()
            && rate_for(rates, b, c) is None {
            let cap = caps[ci];
            lemma_pos_of_rate(caps, b, c);
            match spec_default_rate(cap) {
                Some(d) => {
                    let sampling = cap.sampling_rates_ms@;
                    let streaming = cap.streaming_rates_ms@;
                    assert(sampling.contains(sampling[0]));
                    lemma_cover_at(caps, ci, sampling[0]);
                    lemma_least_at_least(streaming, sampling[0]);
                    assert(least_at_least(streaming, sampling[0]) is Some);
                    assert(rate_problem(d, cap) is None);
                    assert(capability_pos(caps, d.backend_id, d.capability_id) == ci);
                    let ri = rate_pos(rates, b, c);
                    lemma_first_index(rates, |r: CapabilityRate| r.backend_id == b && r.capability_id == c);
                    let after = rates.push(d);
                    assert forall|k: int| 0 <= k < after.len() implies rate_fits(#[trigger] after[k], caps) by {
                        if k < rates.len() {
                            assert(after[k] == rates[k]);
                        }
                    }
                    assert forall|x: int, y: int| #![trigger after[x], after[y]] 0 <= x < y < after.len()
                        implies rate_key(after[x]) != rate_key(after[y]) by {
                        assert(after[x] == rates[x]);
                        if y < rates.len() {
                            assert(after[y] == rates[y]);
                        }
                    }
                },
                None => {},
            }
        }
    }
}

proof fn lemma_step_keeps_rates_ok(
    rates: Seq<CapabilityRate>,
    b: u8,
    c: u8,
    caps: Seq<Capability>,
    stream: bool,
    dir: int,
)
    requires
        rates_ok(rates, caps),
        streams_cover(caps),
    ensures
        rates_ok(rate_stepped(rates, b, c, caps, stream, dir), caps),
{
    let ci = capability_pos(caps, b, c);
    let ri = rate_pos(rates, b, c);
    lemma_first_index(rates, |r: CapabilityRate| r.backend_id == b && r.capability_id == c);
    lemma_pos_of_rate(caps, b, c);
    if ci < caps.len() && ri < rates.len() {
        let cap = caps[ci];
        let rate = rates[ri];
        assert(rate_fits(rate, caps));
        lemma_stepped_listed(cap.streaming_rates_ms@, rate.streaming_rate_ms, dir);
        lemma_stepped_listed(cap.sampling_rates_ms@, rate.sampling_rate_ms, dir);
        let r1 = if stream {
            CapabilityRate {
                streaming_rate_ms: stepped(cap.streaming_rates_ms@, rate.streaming_rate_ms, dir),
                ..rate
            }
        } else {
            CapabilityRate {
                sampling_rate_ms: stepped(cap.sampling_rates_ms@, rate.sampling_rate_ms, dir),
                ..rate
            }
        };
        let streaming = cap.streaming_rates_ms@;
        assert(cap.sampling_rates_ms@.contains(r1.sampling_rate_ms));
        assert(streaming.contains(r1.streaming_rate_ms));
        if r1.streaming_rate_ms < r1.sampling_rate_ms {
            lemma_cover_at(caps, ci, r1.sampling_rate_ms);
            let p = at_least(r1.sampling_rate_ms);
            lemma_first_index(streaming, p);
            let k = first_index(streaming, p);
            let j = choose|j: int| 0 <= j < streaming.len() && #[trigger] streaming[j] >= r1.sampling_rate_ms;
            assert(p(streaming[j]));
            assert(k < streaming.len());
            assert(streaming.contains(streaming[k]));
        }
        let nr = step_one(rate, cap, stream, dir);
        assert(rate_problem(nr, cap) is None);
        let after = rates.update(ri, nr);
        assert(rate_key(nr) == rate_key(rate));
        assert forall|k: int| 0 <= k < after.len() implies rate_fits(#[trigger] after[k], caps) by {
            if k != ri {
                assert(after[k] == rates[k]);
            }
        }
        assert forall|x: int, y: int| #![trigger after[x], after[y]] 0 <= x < y < after.len()
            implies rate_key(after[x]) != rate_key(after[y]) by {
            assert(rate_key(after[x]) == rate_key(rates[x]));
            assert(rate_key(after[y]) == rate_key(rates[y]));
        }
    }
}

/// Editor keys keep a dashboard's rates sound: when every rate was valid
/// for its capability and no capability had two rates, the same holds after
/// any key, provided each capability lists, for every sampling rate it
/// offers, a streaming rate at least as long.
pub proof fn lemma_keys_keep_rates_ok(
    before: Editor,
    after: Editor,
    key: Key,
    caps: Seq<Capability>,
    locked: bool,
    r: EditorEffect,
)
    requires
        key_edits(before, after, key, caps, locked, r),
        rates_ok(before.dashboard.rates@, caps),
        streams_cover(caps),
    ensures
        rates_ok(after.dashboard.rates@, caps),
{
    let rows = rows_of(caps);
    if rows.len() > 0 {
        let cursor = if before.cursor < rows.len() {
            before.cursor as int
        } else {
            rows.len() - 1
        };
        let row = rows[cursor];
        let graphs = before.dashboard.graphs@;
        let rates = before.dashboard.rates@;
        lemma_toggle_keeps_rates_ok(graphs, rates, row.0, row.1, row.2, caps);
        lemma_step_keeps_rates_ok(rates, row.0, row.1, caps, true, -1);
        lemma_step_keeps_rates_ok(rates, row.0, row.1, caps, false, -1);
        lemma_step_keeps_rates_ok(rates, row.0, row.1, caps, true, 1);
        lemma_step_keeps_rates_ok(rates, row.0, row.1, caps, false, 1);
    }
}

/// Space twice on a row undoes the first: when the capabilities list the
/// row's metric, the dashboard has no graph of it yet, and it holds a rate
/// for the row's capability exactly when some graph draws on it, adding the
/// metric's graph and then removing it again leaves the graphs and the
/// rates as they were.
pub proof fn lemma_toggle_twice_restores(
    graphs: Seq<GraphSpec>,
    rates: Seq<CapabilityRate>,
    b: u8,
    c: u8,
    m: u16,
    caps: Seq<Capability>,
)
    requires
        capability_pos(caps, b, c) < caps.len(),
        metric_pos(caps[capability_pos(caps, b, c)].metrics@, m) < caps[capability_pos(
            caps,
            b,
            c,
        )].metrics@.len(),
        graph_pos(graphs, b, c, m) == graphs.len(),
        (rate_for(rates, b, c) is Some) <==> draws_on(graphs, b, c),
    ensures
        ({
            let once = toggled(graphs, rates, b, c, m, caps);
            toggled(once.0, once.1, b, c, m, caps) == (graphs, rates)
        }),
{
    let once = toggled(graphs, rates, b, c, m, caps);
    let g1 = once.0;
    let p = graph_is(b, c, m);
    lemma_first_index(graphs, p);
    assert(g1.len() == graphs.len() + 1);
    assert(g1.drop_last() =~= graphs);
    assert forall|j: int| 0 <= j < graphs.len() implies !p(#[trigger] g1[j]) by {
        assert(g1[j] == graphs[j]);
    }
    assert(p(g1[graphs.len() as int]));
    lemma_first_index_is(g1, p, graphs.len() as int);
    assert(g1.remove(graphs.len() as int) =~= graphs);
    let q = rate_of_other(b, c);
    if draws_on(graphs, b, c) {
        assert(once.1 == rates);
    } else {
        // No rate of the capability: removing the graph drops only what the
        // first space added.
        lemma_first_index(rates, |r: CapabilityRate| r.backend_id == b && r.capability_id == c);
        assert forall|k: int| 0 <= k < rates.len() implies q(#[trigger] rates[k]) by {}
        lemma_keep_where_all(rates, q);
        let cap = caps[capability_pos(caps, b, c)];
        lemma_first_index(caps, |x: Capability| x.backend_id == b && x.capability_id == c);
        match spec_default_rate(cap) {
            Some(d) => {
                assert(once.1 == rates.push(d));
                assert(!q(d));
                lemma_keep_where_push(rates, d, q);
            },
            None => {
                assert(once.1 == rates);
            },
        }
    }
}

} // verus!
