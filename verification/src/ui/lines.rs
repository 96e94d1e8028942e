//! The text lines the screens show: the header, the dashboard list, the
//! editor rows, the help page, and labels cut to fit.
use vstd::prelude::*;

use crate::app::Screen;
use crate::model::dashboard::{rate_for, run_label, Dashboard, RunState};
use crate::model::graph::{chart_label, CapabilityRate, GraphSpec};
use crate::text::{chars_of, decimal, push_decimal, push_str, string_of};
use crate::ui::editor::{graph_index, graph_pos, MetricRow};

verus! {

/// One rate as the header shows it: `b<backend>:c<capability> <sample>/<stream>ms`.
pub open spec fn rate_text(rate: CapabilityRate) -> Seq<char> {
    "b"@ + decimal(rate.backend_id as nat) + ":c"@ + decimal(rate.capability_id as nat) + " "@
        + decimal(rate.sampling_rate_ms as nat) + "/"@ + decimal(rate.streaming_rate_ms as nat)
        + "ms"@
}

/// The rates of a dashboard, separated by spaces.
pub open spec fn rates_text(rates: Seq<CapabilityRate>) -> Seq<char>
    decreases rates.len(),
{
    if rates.len() == 0 {
        Seq::empty()
    } else if rates.len() == 1 {
        rate_text(rates[0])
    } else {
        rates_text(rates.drop_last()) + " "@ + rate_text(rates.last())
    }
}

fn push_rate(s: &mut String, rate: &CapabilityRate)
    ensures
        final(s)@ == old(s)@ + rate_text(*rate),
{
    push_str(s, "b");
    push_decimal(s, rate.backend_id as u64);
    push_str(s, ":c");
    push_decimal(s, rate.capability_id as u64);
    push_str(s, " ");
    push_decimal(s, rate.sampling_rate_ms as u64);
    push_str(s, "/");
    push_decimal(s, rate.streaming_rate_ms as u64);
    push_str(s, "ms");
    proof {
        reveal_strlit("b");
        reveal_strlit(":c");
        reveal_strlit(" ");
        reveal_strlit("/");
        reveal_strlit("ms");
    }
    assert(s@ =~= old(s)@ + rate_text(*rate));
}

/// The rates of `dashboard` for the header.
pub fn rate_summary(dashboard: &Dashboard) -> (r: String)
    ensures
        r@ == rates_text(dashboard.rates@),
{
    let mut s = String::new();
    let mut i: usize = 0;
    while i < dashboard.rates.len()
        invariant
            i <= dashboard.rates@.len(),
            s@ == rates_text(dashboard.rates@.take(i as int)),
        decreases dashboard.rates.len() - i,
    {
        proof {
            assert(dashboard.rates@.take(i + 1).drop_last() =~= dashboard.rates@.take(i as int));
            assert(dashboard.rates@.take(i + 1).last() == dashboard.rates@[i as int]);
            assert(dashboard.rates@.take(1)[0] == dashboard.rates@[0]);
        }
        if i > 0 {
            push_str(&mut s, " ");
        }
        push_rate(&mut s, &dashboard.rates[i]);
        i = i + 1;
    }
    assert(dashboard.rates@.take(dashboard.rates@.len() as int) =~= dashboard.rates@);
    s
}

/// The key hints of a screen.
pub open spec fn hint_text(screen: Screen) -> Seq<char> {
    match screen {
        Screen::List => "Enter open  n new  d delete  ? help  q quit"@,
        Screen::View => "s start  x stop  e edit  c csv  v follow  p snapshot  ? help"@,
        Screen::Edit => "Space toggle  t chart  c color  w window  arrows rates  Enter save"@,
        Screen::Help => "Esc back"@,
    }
}

pub fn hint(screen: Screen) -> (r: &'static str)
    ensures
        r@ == hint_text(screen),
{
    match screen {
        Screen::List => "Enter open  n new  d delete  ? help  q quit",
        Screen::View => "s start  x stop  e edit  c csv  v follow  p snapshot  ? help",
        Screen::Edit => "Space toggle  t chart  c color  w window  arrows rates  Enter save",
        Screen::Help => "Esc back",
    }
}

/// The header line: the focused dashboard's name, run state and rates (or
/// the program's name), then the screen's key hints.
pub open spec fn header_text(focus: Option<Dashboard>, screen: Screen) -> Seq<char> {
    let left = match focus {
        Some(d) => d.name@ + "  "@ + run_label(d.run) + "  "@ + rates_text(d.rates@),
        None => "qcperf-tui"@,
    };
    left + "    "@ + hint_text(screen)
}

pub fn header(focus: Option<&Dashboard>, screen: Screen) -> (r: String)
    ensures
        r@ == header_text(
            match focus {
                Some(d) => Some(*d),
                None => None,
            },
            screen,
        ),
{
    let mut s = String::new();
    match focus {
        Some(d) => {
            push_str(&mut s, d.name.as_str());
            push_str(&mut s, "  ");
            push_str(&mut s, d.run.label());
            push_str(&mut s, "  ");
            let rates = rate_summary(d);
            push_str(&mut s, rates.as_str());
        },
        None => {
            push_str(&mut s, "qcperf-tui");
        },
    }
    push_str(&mut s, "    ");
    push_str(&mut s, hint(screen));
    s
}

/// The mark before a dashboard in the list.
pub open spec fn run_mark_text(run: RunState) -> Seq<char> {
    match run {
        RunState::Running => "●"@,
        RunState::Stopped => "○"@,
        RunState::Idle => "·"@,
    }
}

pub fn run_mark(run: RunState) -> (r: &'static str)
    ensures
        r@ == run_mark_text(run),
{
    match run {
        RunState::Running => "●",
        RunState::Stopped => "○",
        RunState::Idle => "·",
    }
}

/// A dashboard's line in the list, in three parts: the mark and name, the
/// run state (drawn dimmed), and the number of graphs.
pub fn list_row(dashboard: &Dashboard) -> (r: (String, &'static str, String))
    ensures
        r.0@ == run_mark_text(dashboard.run) + " "@ + dashboard.name@ + "  "@,
        r.1@ == run_label(dashboard.run),
        r.2@ == "  "@ + decimal(dashboard.graphs@.len()) + " graphs"@,
{
    let mut first = String::new();
    push_str(&mut first, run_mark(dashboard.run));
    push_str(&mut first, " ");
    push_str(&mut first, dashboard.name.as_str());
    push_str(&mut first, "  ");
    let mut last = String::new();
    push_str(&mut last, "  ");
    push_decimal(&mut last, dashboard.graphs.len() as u64);
    push_str(&mut last, " graphs");
    (first, dashboard.run.label(), last)
}

/// The editor's line for a row: whether the dashboard shows the metric, the
/// row's label and unit, the graph's chart, window and color when it has
/// one, and the capability's rates when the dashboard sets them.
pub open spec fn editor_line_text(graphs: Seq<GraphSpec>, rates: Seq<CapabilityRate>, row: MetricRow) -> Seq<
    char,
> {
    let i = graph_pos(graphs, row.backend_id, row.capability_id, row.metric_id);
    let mark = if i < graphs.len() {
        "[x]"@
    } else {
        "[ ]"@
    };
    let detail = if i < graphs.len() {
        "  "@ + chart_label(graphs[i].chart) + "  "@ + decimal((graphs[i].window / 1000) as nat)
            + "s  color "@ + decimal(graphs[i].color.index as nat)
    } else {
        Seq::empty()
    };
    let rate = match rate_for(rates, row.backend_id, row.capability_id) {
        Some(r) => "  sample "@ + decimal(r.sampling_rate_ms as nat) + " ms  stream "@ + decimal(
            r.streaming_rate_ms as nat,
        ) + " ms"@,
        None => Seq::empty(),
    };
    mark + " "@ + row.label@ + " ("@ + row.unit@ + ")"@ + detail + rate
}

pub fn editor_line(dashboard: &Dashboard, row: &MetricRow) -> (r: String)
    ensures
        r@ == editor_line_text(dashboard.graphs@, dashboard.rates@, *row),
{
    let graphs = &dashboard.graphs;
    let i = graph_index(graphs, row.backend_id, row.capability_id, row.metric_id);
    let mut s = String::new();
    if i < graphs.len() {
        push_str(&mut s, "[x]");
    } else {
        push_str(&mut s, "[ ]");
    }
    push_str(&mut s, " ");
    push_str(&mut s, row.label.as_str());
    push_str(&mut s, " (");
    push_str(&mut s, row.unit.as_str());
    push_str(&mut s, ")");
    if i < graphs.len() {
        let g = graphs[i];
        push_str(&mut s, "  ");
        push_str(&mut s, g.chart.label());
        push_str(&mut s, "  ");
        push_decimal(&mut s, g.window / 1000);
        push_str(&mut s, "s  color ");
        push_decimal(&mut s, g.color.index as u64);
    }
    match dashboard.rate(row.backend_id, row.capability_id) {
        Some(r) => {
            push_str(&mut s, "  sample ");
            push_decimal(&mut s, r.sampling_rate_ms as u64);
            push_str(&mut s, " ms  stream ");
            push_decimal(&mut s, r.streaming_rate_ms as u64);
            push_str(&mut s, " ms");
        },
        None => {},
    }
    s
}

/// The first `n` characters of `s`, or all of them.
pub open spec fn cut(s: Seq<char>, width: nat) -> Seq<char> {
    if s.len() <= width {
        s
    } else if width == 0 {
        Seq::empty()
    } else {
        s.take(width - 1).push('…')
    }
}

/// `text` cut to `width` characters: unchanged when it fits, else its first
/// `width - 1` characters and an ellipsis; empty for a width of 0.
pub fn truncate(text: &str, width: usize) -> (r: String)
    ensures
        r@ == (if width == 0 {
            Seq::empty()
        } else {
            cut(text@, width as nat)
        }),
{
    if width == 0 {
        return String::new();
    }
    let cs = chars_of(text);
    if cs.len() <= width {
        return string_of(&cs);
    }
    let mut out: Vec<char> = Vec::new();
    let mut i: usize = 0;
    while i < width - 1
        invariant
            i <= width - 1,
            width - 1 < cs@.len(),
            out@ == cs@.take(i as int),
        decreases width - 1 - i,
    {
        out.push(cs[i]);
        i = i + 1;
        assert(out@ =~= cs@.take(i as int));
    }
    out.push('…');
    string_of(&out)
}

/// The help page.
pub const HELP: &'static str = "Dashboards
  Up/Down  select
  Enter    open
  n        new dashboard
  d        delete a stopped dashboard
  q        quit

Live view
  s        start profiling
  x        stop this dashboard only
  e        edit metrics, chart, color, window, and rates
  Tab or Left/Right   switch dashboard (profiling keeps running)
  c        write the current samples to CSV
  v        toggle appending CSV while this dashboard runs
  p        snapshot to JSON without stopping
  Esc      back to the list
  q        quit

Editor
  Space    toggle the focused metric
  t        cycle chart (pie, line, bar)
  c        next color
  w        next time window (15s, 30s, 60s, 5min)
  Left/Right          step the sampling rate
  Shift+Left/Right    step the streaming rate
  Enter    save
  Esc      cancel

Percent metrics default to a pie of the current value. Other units default to a scrolling line. Rates come from the capability lists libqcperf reported and apply to every graph of that capability.
";

} // verus!
