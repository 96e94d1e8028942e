//! What a snapshot file holds: the dashboard's graphs and rates and, for
//! each graph, the metric's name and unit and the ring's current points.
//! Taking a snapshot changes nothing about the dashboard's state.
use vstd::prelude::*;

use crate::backend::session::SessionTable;
use crate::export::csv::{format_rfc3339, ring_points, rfc3339, safe_name, spec_safe_name};
use crate::model::capability::{find_metric, graph_metric, Capability};
use crate::model::dashboard::{run_label, Dashboard};
use crate::model::graph::{chart_label, CapabilityRate, GraphSpec};
use crate::seqs::{first_index, lemma_first_index_is};
use crate::text::{chars_of, copy_string, push_all, push_str};

verus! {

pub struct GraphSnap {
    pub backend_id: u8,
    pub capability_id: u8,
    pub metric_id: u16,
    pub chart: String,
    pub window_ms: u64,
}

pub struct PointSnap<V> {
    pub timestamp_rfc3339: String,
    pub value: V,
}

pub struct SeriesSnap<V> {
    pub metric_id: u16,
    pub metric_name: String,
    pub unit: String,
    pub points: Vec<PointSnap<V>>,
}

pub struct SnapshotFile<V> {
    pub name: String,
    pub run: String,
    pub graphs: Vec<GraphSnap>,
    pub rates: Vec<CapabilityRate>,
    pub series: Vec<SeriesSnap<V>>,
}

/// The snapshot entry of a graph: its ids, chart and window.
pub open spec fn graph_snap_matches(s: GraphSnap, g: GraphSpec) -> bool {
    &&& s.backend_id == g.backend_id
    &&& s.capability_id == g.capability_id
    &&& s.metric_id == g.metric_id
    &&& s.chart@ == chart_label(g.chart)
    &&& s.window_ms == g.window
}

/// Whether an entry of the point lists is for `metric_id`.
pub open spec fn entry_for<V>(metric_id: u16) -> spec_fn((u16, Vec<(u64, V)>)) -> bool {
    |e: (u16, Vec<(u64, V)>)| e.0 == metric_id
}

/// The points listed for `metric_id`: those of its first entry in `points`,
/// or none.
pub open spec fn points_for<V>(points: Seq<(u16, Vec<(u64, V)>)>, metric_id: u16) -> Seq<(u64, V)> {
    let i = first_index(points, entry_for::<V>(metric_id));
    if i < points.len() {
        points[i].1@
    } else {
        Seq::empty()
    }
}

/// The snapshot series of a graph: the metric's name and unit (empty when
/// the capabilities do not list it), and its points with RFC 3339 times.
pub open spec fn series_matches<V>(
    s: SeriesSnap<V>,
    caps: Seq<Capability>,
    g: GraphSpec,
    points: Seq<(u16, Vec<(u64, V)>)>,
) -> bool {
    let pts = points_for(points, g.metric_id);
    &&& s.metric_id == g.metric_id
    &&& s.metric_name@ == match graph_metric(caps, g.backend_id, g.capability_id, g.metric_id) {
        Some(m) => m.name@,
        None => Seq::empty(),
    }
    &&& s.unit@ == match graph_metric(caps, g.backend_id, g.capability_id, g.metric_id) {
        Some(m) => m.unit@,
        None => Seq::empty(),
    }
    &&& s.points@.len() == pts.len()
    &&& forall|k: int|
        0 <= k < pts.len() ==> (#[trigger] s.points@[k]).timestamp_rfc3339@ == rfc3339(pts[k].0)
            && s.points@[k].value == pts[k].1
}

/// Position of the first entry for `metric_id`, or the length.
fn entry_index<V>(points: &[(u16, Vec<(u64, V)>)], metric_id: u16) -> (r: usize)
    ensures
        r == first_index(points@, entry_for::<V>(metric_id)),
        r <= points@.len(),
{
    let ghost p = entry_for::<V>(metric_id);
    let mut i: usize = 0;
    while i < points.len()
        invariant
            i <= points@.len(),
            p == entry_for::<V>(metric_id),
            forall|j: int| 0 <= j < i ==> !p(#[trigger] points@[j]),
        decreases points.len() - i,
    {
        if points[i].0 == metric_id {
            proof {
                lemma_first_index_is(points@, p, i as int);
            }
            return i;
        }
        i = i + 1;
    }
    proof {
        lemma_first_index_is(points@, p, i as int);
    }
    i
}

fn series_of<V: Copy>(
    capabilities: &[Capability],
    graph: &GraphSpec,
    points: &[(u16, Vec<(u64, V)>)],
) -> (r: SeriesSnap<V>)
    ensures
        series_matches(r, capabilities@, *graph, points@),
{
    let metric = find_metric(capabilities, graph.backend_id, graph.capability_id, graph.metric_id);
    let (metric_name, unit) = match metric {
        Some(m) => (copy_string(&m.name), copy_string(&m.unit)),
        None => (String::new(), String::new()),
    };
    let mut out: Vec<PointSnap<V>> = Vec::new();
    let at = entry_index(points, graph.metric_id);
    let ghost pts = points_for(points@, graph.metric_id);
    if at < points.len() {
        let list = &points[at].1;
        let mut k: usize = 0;
        while k < list.len()
            invariant
                k <= list@.len(),
                pts == list@,
                out@.len() == k,
                forall|t: int|
                    0 <= t < k ==> (#[trigger] out@[t]).timestamp_rfc3339@ == rfc3339(pts[t].0)
                        && out@[t].value == pts[t].1,
            decreases list.len() - k,
        {
            let (at_ms, value) = list[k];
            out.push(PointSnap { timestamp_rfc3339: format_rfc3339(at_ms), value });
            k = k + 1;
        }
    }
    SeriesSnap { metric_id: graph.metric_id, metric_name, unit, points: out }
}

/// The snapshot of `dashboard`: its name and run state, a graph entry and a
/// series per graph, and its rates. `points` lists the ring points per
/// metric id.
pub fn snapshot<V: Copy>(
    capabilities: &[Capability],
    dashboard: &Dashboard,
    points: &[(u16, Vec<(u64, V)>)],
) -> (r: SnapshotFile<V>)
    ensures
        r.name@ == dashboard.name@,
        r.run@ == run_label(dashboard.run),
        r.rates@ == dashboard.rates@,
        r.graphs@.len() == dashboard.graphs@.len(),
        forall|i: int|
            0 <= i < dashboard.graphs@.len() ==> graph_snap_matches(
                #[trigger] r.graphs@[i],
                dashboard.graphs@[i],
            ),
        r.series@.len() == dashboard.graphs@.len(),
        forall|i: int|
            0 <= i < dashboard.graphs@.len() ==> series_matches(
                #[trigger] r.series@[i],
                capabilities@,
                dashboard.graphs@[i],
                points@,
            ),
{
    let mut graphs: Vec<GraphSnap> = Vec::new();
    let mut series: Vec<SeriesSnap<V>> = Vec::new();
    let mut i: usize = 0;
    while i < dashboard.graphs.len()
        invariant
            i <= dashboard.graphs@.len(),
            graphs@.len() == i,
            series@.len() == i,
            forall|t: int|
                0 <= t < i ==> graph_snap_matches(#[trigger] graphs@[t], dashboard.graphs@[t]),
            forall|t: int|
                0 <= t < i ==> series_matches(
                    #[trigger] series@[t],
                    capabilities@,
                    dashboard.graphs@[t],
                    points@,
                ),
        decreases dashboard.graphs.len() - i,
    {
        let g = &dashboard.graphs[i];
        let mut chart = String::new();
        push_str(&mut chart, g.chart.label());
        graphs.push(
            GraphSnap {
                backend_id: g.backend_id,
                capability_id: g.capability_id,
                metric_id: g.metric_id,
                chart,
                window_ms: g.window,
            },
        );
        series.push(series_of(capabilities, g, points));
        i = i + 1;
    }
    let mut rates: Vec<CapabilityRate> = Vec::new();
    let mut k: usize = 0;
    while k < dashboard.rates.len()
        invariant
            k <= dashboard.rates@.len(),
            rates@ == dashboard.rates@.take(k as int),
        decreases dashboard.rates.len() - k,
    {
        rates.push(dashboard.rates[k]);
        k = k + 1;
        assert(rates@ =~= dashboard.rates@.take(k as int));
    }
    assert(dashboard.rates@.take(dashboard.rates@.len() as int) =~= dashboard.rates@);
    let mut run = String::new();
    push_str(&mut run, dashboard.run.label());
    SnapshotFile { name: copy_string(&dashboard.name), run, graphs, rates, series }
}

/// Name of the snapshot file of dashboard `name` taken at `now`:
/// `<safe name>-<safe RFC 3339 time>.json`.
pub open spec fn snapshot_file_name(name: Seq<char>, now: u64) -> Seq<char> {
    spec_safe_name(name) + seq!['-'] + spec_safe_name(rfc3339(now)) + seq!['.', 'j', 's', 'o', 'n']
}

/// The file name, under the snapshots directory, of a snapshot of `name`
/// taken at `now` (milliseconds since the epoch).
pub fn snapshot_file(name: &str, now: u64) -> (r: String)
    ensures
        r@ == snapshot_file_name(name@, now),
{
    let mut s = safe_name(name);
    s.push('-');
    let stamp = format_rfc3339(now);
    let cleaned = safe_name(stamp.as_str());
    let cs = chars_of(cleaned.as_str());
    push_all(&mut s, &cs);
    push_str(&mut s, ".json");
    proof {
        reveal_strlit(".json");
    }
    assert(s@ =~= snapshot_file_name(name@, now));
    s
}

/// The current points of each graph's ring, listed by the graph's metric id.
pub fn snapshot_points<V: Copy>(dashboard: &Dashboard, sessions: &SessionTable<V>) -> (r: Vec<
    (u16, Vec<(u64, V)>),
>)
    ensures
        r@.len() == dashboard.graphs@.len(),
        forall|i: int|
            0 <= i < r@.len() ==> (#[trigger] r@[i]).0 == dashboard.graphs@[i].metric_id && r@[i].1@
                == ring_points(sessions.view(), dashboard.id, dashboard.graphs@[i].metric_id),
{
    let mut out: Vec<(u16, Vec<(u64, V)>)> = Vec::new();
    let mut i: usize = 0;
    while i < dashboard.graphs.len()
        invariant
            i <= dashboard.graphs@.len(),
            out@.len() == i,
            forall|t: int|
                0 <= t < i ==> (#[trigger] out@[t]).0 == dashboard.graphs@[t].metric_id && out@[t].1@
                    == ring_points(sessions.view(), dashboard.id, dashboard.graphs@[t].metric_id),
        decreases dashboard.graphs.len() - i,
    {
        let metric_id = dashboard.graphs[i].metric_id;
        let points = sessions.points(dashboard.id, metric_id);
        out.push((metric_id, points));
        i = i + 1;
    }
    out
}

} // verus!
