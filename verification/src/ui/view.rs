//! The live view's layout: which cells the graphs become, their titles,
//! and how the grid splits the terminal.
use vstd::prelude::*;

use crate::model::capability::{
    capability_pos, find, find_metric, graph_metric, label_text, Capability,
};
use crate::model::dashboard::Dashboard;
use crate::model::graph::{ChartKind, GraphSpec};
use crate::model::unit::{is_percent, spec_is_percent};
use crate::text::{copy_string, decimal, push_decimal, push_str};

verus! {

// ---------------------------------------------------------------------------
// Cells
// ---------------------------------------------------------------------------

/// `g` joins the pie that `head` starts: a pie of the same capability.
pub open spec fn joins_pie(head: GraphSpec, g: GraphSpec) -> bool {
    g.chart == ChartKind::Pie && g.backend_id == head.backend_id && g.capability_id
        == head.capability_id
}

/// Where the pie `head` starts ends, looking from position `k` on: the first
/// graph that does not join it, or the length.
pub open spec fn pie_end(graphs: Seq<GraphSpec>, head: GraphSpec, k: int) -> int
    decreases graphs.len() - k,
{
    if k < 0 || k >= graphs.len() {
        graphs.len() as int
    } else if !joins_pie(head, graphs[k]) {
        k
    } else {
        pie_end(graphs, head, k + 1)
    }
}

/// Where a pie ends lies between `k` and the length, and every graph up to
/// there joins it.
pub proof fn lemma_pie_end(graphs: Seq<GraphSpec>, head: GraphSpec, k: int)
    requires
        0 <= k <= graphs.len(),
    ensures
        k <= pie_end(graphs, head, k) <= graphs.len(),
        forall|j: int| k <= j < pie_end(graphs, head, k) ==> joins_pie(head, #[trigger] graphs[j]),
    decreases graphs.len() - k,
{
    if k < graphs.len() && joins_pie(head, graphs[k]) {
        lemma_pie_end(graphs, head, k + 1);
    }
}

/// Where the cell that starts at graph `k` ends: a pie takes the pies of the
/// same capability that follow it; a line or bar is one graph.
pub open spec fn cell_end(graphs: Seq<GraphSpec>, k: int) -> int {
    if graphs[k].chart == ChartKind::Pie {
        pie_end(graphs, graphs[k], k + 1)
    } else {
        k + 1
    }
}

/// The graph positions each cell covers, from graph `k` on.
pub open spec fn cell_spans(graphs: Seq<GraphSpec>, k: int) -> Seq<(int, int)>
    decreases graphs.len() - k,
{
    if k < 0 || k >= graphs.len() {
        Seq::empty()
    } else {
        proof {
            lemma_pie_end(graphs, graphs[k], k + 1);
        }
        seq![(k, cell_end(graphs, k))] + cell_spans(graphs, cell_end(graphs, k))
    }
}

/// One cell of the live view.
pub enum CellPlan {
    /// The pie of graphs `first..end`, one slice per graph, titled with
    /// their capability.
    Pie { title: String, first: usize, end: usize },
    /// The line of one graph, titled with its metric.
    Line { graph: usize, title: String, unit: String, percent: bool },
    /// The bars of one graph, titled with its metric.
    Bar { graph: usize, title: String, unit: String },
}

/// A capability's title for a graph: its label, or its ids when the
/// capabilities do not list it.
pub open spec fn capability_title(caps: Seq<Capability>, g: GraphSpec) -> Seq<char> {
    let i = capability_pos(caps, g.backend_id, g.capability_id);
    if i < caps.len() {
        label_text(caps[i])
    } else {
        "backend "@ + decimal(g.backend_id as nat) + " capability "@ + decimal(g.capability_id as nat)
    }
}

/// A graph's metric name and unit, or `metric <id>` and no unit when the
/// capabilities do not list it.
pub open spec fn metric_title(caps: Seq<Capability>, g: GraphSpec) -> (Seq<char>, Seq<char>) {
    match graph_metric(caps, g.backend_id, g.capability_id, g.metric_id) {
        Some(m) => (m.name@, m.unit@),
        None => ("metric "@ + decimal(g.metric_id as nat), Seq::empty()),
    }
}

/// The cell covers `span` of `graphs`, is drawn as the first graph's chart
/// calls for, and carries the titles.
pub open spec fn cell_matches(c: CellPlan, span: (int, int), graphs: Seq<GraphSpec>, caps: Seq<Capability>) -> bool {
    let g = graphs[span.0];
    let (name, unit) = metric_title(caps, g);
    match c {
        CellPlan::Pie { title, first, end } => g.chart == ChartKind::Pie && first == span.0 && end
            == span.1 && title@ == capability_title(caps, g),
        CellPlan::Line { graph, title, unit: u, percent } => g.chart == ChartKind::Line && graph
            == span.0 && span.1 == span.0 + 1 && title@ == name && u@ == unit && percent
            == spec_is_percent(unit),
        CellPlan::Bar { graph, title, unit: u } => g.chart == ChartKind::Bar && graph == span.0
            && span.1 == span.0 + 1 && title@ == name && u@ == unit,
    }
}

/// A capability's title for `graph`.
pub fn capability_label(capabilities: &[Capability], graph: &GraphSpec) -> (r: String)
    ensures
        r@ == capability_title(capabilities@, *graph),
{
    match find(capabilities, graph.backend_id, graph.capability_id) {
        Some(cap) => cap.label(),
        None => {
            let mut s = String::new();
            push_str(&mut s, "backend ");
            push_decimal(&mut s, graph.backend_id as u64);
            push_str(&mut s, " capability ");
            push_decimal(&mut s, graph.capability_id as u64);
            s
        },
    }
}

/// The metric name and unit of `graph`.
pub fn metric_text(capabilities: &[Capability], graph: &GraphSpec) -> (r: (String, String))
    ensures
        (r.0@, r.1@) == metric_title(capabilities@, *graph),
{
    match find_metric(capabilities, graph.backend_id, graph.capability_id, graph.metric_id) {
        Some(m) => (copy_string(&m.name), copy_string(&m.unit)),
        None => {
            let mut s = String::new();
            push_str(&mut s, "metric ");
            push_decimal(&mut s, graph.metric_id as u64);
            (s, String::new())
        },
    }
}

/// The cells of `dashboard`'s live view, in graph order: each run of pies
/// of one capability shares a cell, every line or bar graph has its own.
pub fn plan_cells(capabilities: &[Capability], dashboard: &Dashboard) -> (r: Vec<CellPlan>)
    ensures
        r@.len() == cell_spans(dashboard.graphs@, 0).len(),
        forall|j: int|
            0 <= j < r@.len() ==> cell_matches(
                #[trigger] r@[j],
                cell_spans(dashboard.graphs@, 0)[j],
                dashboard.graphs@,
                capabilities@,
            ),
{
    let graphs = &dashboard.graphs;
    let ghost all = cell_spans(graphs@, 0);
    let mut cells: Vec<CellPlan> = Vec::new();
    let mut index: usize = 0;
    while index < graphs.len()
        invariant
            index <= graphs@.len(),
            all == cell_spans(graphs@, 0),
            cells@.len() + cell_spans(graphs@, index as int).len() == all.len(),
            forall|t: int|
                0 <= t < cells@.len() ==> cell_matches(#[trigger] cells@[t], all[t], graphs@, capabilities@),
            forall|t: int|
                0 <= t < cell_spans(graphs@, index as int).len() ==> #[trigger] cell_spans(
                    graphs@,
                    index as int,
                )[t] == all[cells@.len() + t],
        decreases graphs.len() - index,
    {
        let ghost rest = cell_spans(graphs@, index as int);
        proof {
            lemma_pie_end(graphs@, graphs@[index as int], index + 1);
            assert(rest == seq![(index as int, cell_end(graphs@, index as int))] + cell_spans(
                graphs@,
                cell_end(graphs@, index as int),
            ));
            assert(rest[0] == (index as int, cell_end(graphs@, index as int)));
        }
        let graph = &graphs[index];
        let next: usize;
        if graph.chart == ChartKind::Pie {
            let title = capability_label(capabilities, graph);
            let head = *graph;
            let mut end = index + 1;
            while end < graphs.len() && graphs[end].chart == ChartKind::Pie && graphs[end].backend_id
                == head.backend_id && graphs[end].capability_id == head.capability_id
                invariant
                    index < end <= graphs@.len(),
                    head == graphs@[index as int],
                    pie_end(graphs@, head, end as int) == pie_end(graphs@, head, index + 1),
                decreases graphs.len() - end,
            {
                end = end + 1;
            }
            cells.push(CellPlan::Pie { title, first: index, end });
            next = end;
        } else {
            let (title, unit) = metric_text(capabilities, graph);
            if graph.chart == ChartKind::Bar {
                cells.push(CellPlan::Bar { graph: index, title, unit });
            } else {
                let percent = is_percent(unit.as_str());
                cells.push(CellPlan::Line { graph: index, title, unit, percent });
            }
            next = index + 1;
        }
        proof {
            assert(next == cell_end(graphs@, index as int));
            let before = cells@.len() - 1;
            assert(all[before] == rest[0]);
            assert forall|t: int| 0 <= t < cell_spans(graphs@, next as int).len() implies #[trigger] cell_spans(
                graphs@,
                next as int,
            )[t] == all[cells@.len() + t] by {
                assert(cell_spans(graphs@, next as int)[t] == rest[t + 1]);
            }
        }
        index = next;
    }
    cells
}

// ---------------------------------------------------------------------------
// Grid
// ---------------------------------------------------------------------------

pub open spec fn spec_columns(width: u16) -> nat {
    if width < 60 {
        1
    } else if width < 120 {
        2
    } else {
        3
    }
}

/// How many columns of cells a terminal `width` columns wide shows.
pub fn columns(width: u16) -> (r: usize)
    ensures
        r == spec_columns(width),
{
    if width < 60 {
        1
    } else if width < 120 {
        2
    } else {
        3
    }
}

/// The grid for `count` cells at terminal width `width`: as many columns as
/// the width allows but no more than there are cells (and at least one),
/// and as many rows as it takes: every cell gets a place, and no row is
/// left empty.
pub fn grid_shape(width: u16, count: usize) -> (r: (usize, usize))
    ensures
        r.0 == (if spec_columns(width) < count {
            spec_columns(width)
        } else if count >= 1 {
            count as nat
        } else {
            1
        }),
        r.1 == (count + r.0 - 1) / (r.0 as int),
        r.0 * r.1 >= count,
        r.1 > 0 ==> (r.1 - 1) * r.0 < count,
{
    let wide = columns(width);
    let cols = if wide < count {
        wide
    } else if count >= 1 {
        count
    } else {
        1
    };
    let rows = count / cols + if count % cols != 0 {
        1
    } else {
        0
    };
    assert(rows == (count + cols - 1) / (cols as int)) by (nonlinear_arith)
        requires
            cols >= 1,
            rows == count / cols + if count % cols != 0 {
                1int
            } else {
                0int
            },
    ;
    assert(cols * rows >= count && (rows > 0 ==> (rows - 1) * cols < count)) by (nonlinear_arith)
        requires
            cols >= 1,
            rows == count / cols + if count % cols != 0 {
                1int
            } else {
                0int
            },
    ;
    (cols, rows)
}

/// `n` equal shares of 100 percent, the last taking what rounding leaves;
/// `n` counts modulo 2^16 and at least 1.
pub open spec fn shares_count(n: nat) -> nat {
    if n == 0 {
        1
    } else {
        n % 65536
    }
}

/// The percentages `n` rows or columns of the grid get.
pub fn equal_shares(n: usize) -> (r: Vec<u16>)
    requires
        n == 0 || n % 65536 != 0,
    ensures
        r@.len() == shares_count(n as nat),
        forall|i: int| 0 <= i < r@.len() - 1 ==> #[trigger] r@[i] == 100nat / shares_count(n as nat),
        r@[r@.len() - 1] == 100 - (100nat / shares_count(n as nat)) * (shares_count(n as nat) - 1),
{
    let k: u16 = if n == 0 {
        1
    } else {
        (n % 65536) as u16
    };
    let base: u16 = 100 / k;
    let mut out: Vec<u16> = Vec::new();
    let mut i: u16 = 0;
    while i < k - 1
        invariant
            k >= 1,
            i <= k - 1,
            base == 100u16 / k,
            out@.len() == i,
            forall|j: int| 0 <= j < i ==> #[trigger] out@[j] == base,
        decreases k - 1 - i,
    {
        out.push(base);
        i = i + 1;
    }
    assert(base * (k - 1) <= 100) by (nonlinear_arith)
        requires
            k >= 1,
            base == 100u16 / k,
    ;
    let used: u16 = base * (k - 1);
    out.push(100 - used);
    out
}

// ---------------------------------------------------------------------------
// Bars
// ---------------------------------------------------------------------------

/// How many bars a chart `width` columns wide shows: a third of the width,
/// between 1 and 40.
pub fn bucket_count(width: u16) -> (r: usize)
    ensures
        r == (if width / 3 < 1 {
            1
        } else if width / 3 > 40 {
            40
        } else {
            width / 3
        }),
{
    let third = (width / 3) as usize;
    if third < 1 {
        1
    } else if third > 40 {
        40
    } else {
        third
    }
}

/// The value a pie slice shows for graph `index`: the latest value of its
/// series, or `zero` when the series is missing or has no points.
pub open spec fn slice_value_of<V>(series: Seq<Vec<(u64, V)>>, index: int, zero: V) -> V {
    if 0 <= index < series.len() && series[index]@.len() > 0 {
        series[index]@.last().1
    } else {
        zero
    }
}

/// See `slice_value_of`.
pub fn slice_value<V: Copy>(series: &[Vec<(u64, V)>], index: usize, zero: V) -> (r: V)
    ensures
        r == slice_value_of(series@, index as int, zero),
{
    if index < series.len() {
        let points = &series[index];
        if points.len() > 0 {
            return points[points.len() - 1].1;
        }
    }
    zero
}

/// The bar values of a series: its last `buckets` values, right-aligned
/// and padded with `zero` on the left when there are fewer points. With no
/// points, or no buckets, `buckets` values (at least one), all `zero`.
pub open spec fn bucket_values<V>(points: Seq<(u64, V)>, buckets: nat, zero: V) -> Seq<V> {
    if points.len() == 0 || buckets == 0 {
        Seq::new(if buckets == 0 {
            1
        } else {
            buckets
        }, |_i: int| zero)
    } else {
        let shown = if points.len() < buckets {
            points.len()
        } else {
            buckets
        };
        let pad = buckets - shown;
        Seq::new(
            buckets,
            |i: int|
                if i < pad {
                    zero
                } else {
                    points[points.len() - shown + (i - pad)].1
                },
        )
    }
}

/// The values of the bars: see `bucket_values`.
pub fn bucket<V: Copy>(points: &[(u64, V)], buckets: usize, zero: V) -> (r: Vec<V>)
    ensures
        r@ == bucket_values(points@, buckets as nat, zero),
{
    let n = points.len();
    if n == 0 || buckets == 0 {
        let count = if buckets == 0 {
            1
        } else {
            buckets
        };
        let mut out: Vec<V> = Vec::new();
        let mut i: usize = 0;
        while i < count
            invariant
                i <= count,
                out@.len() == i,
                forall|j: int| 0 <= j < i ==> #[trigger] out@[j] == zero,
            decreases count - i,
        {
            out.push(zero);
            i = i + 1;
        }
        assert(out@ =~= bucket_values(points@, buckets as nat, zero));
        return out;
    }
    let shown = if n < buckets {
        n
    } else {
        buckets
    };
    let pad = buckets - shown;
    let mut out: Vec<V> = Vec::new();
    let mut i: usize = 0;
    while i < buckets
        invariant
            i <= buckets,
            n == points@.len(),
            shown == (if n < buckets {
                n
            } else {
                buckets
            }),
            pad == buckets - shown,
            out@.len() == i,
            forall|j: int|
                0 <= j < i ==> #[trigger] out@[j] == (if j < pad {
                    zero
                } else {
                    points@[n - shown + (j - pad)].1
                }),
        decreases buckets - i,
    {
        if i < pad {
            out.push(zero);
        } else {
            out.push(points[n - shown + (i - pad)].1);
        }
        i = i + 1;
    }
    assert(out@ =~= bucket_values(points@, buckets as nat, zero));
    out
}

} // verus!
