//! Dashboards: named sets of graphs with one rate per capability they draw
//! from.
use vstd::prelude::*;

use crate::error::Error;
use crate::model::capability::Capability;
use crate::text::push_str;
use crate::model::graph::{
    default_chart, default_rate, spec_default_rate, CapabilityRate, ChartKind, GraphSpec,
    SeriesColor,
};
use crate::model::unit::{is_frequency, is_percent, spec_is_frequency, spec_is_percent};
use crate::seqs::{first_index, lemma_first_index_is};

verus! {

/// Dashboards are identified by the 128-bit value of a random (version 4)
/// UUID.
pub type DashboardId = u128;

#[derive(Clone, Copy, Debug, PartialEq, Eq, Structural)]
pub enum RunState {
    Idle,
    Running,
    Stopped,
}

pub open spec fn run_label(state: RunState) -> Seq<char> {
    match state {
        RunState::Idle => "Idle"@,
        RunState::Running => "Running"@,
        RunState::Stopped => "Stopped"@,
    }
}

impl RunState {
    pub fn label(self) -> (r: &'static str)
        ensures
            r@ == run_label(self),
    {
        match self {
            RunState::Idle => "Idle",
            RunState::Running => "Running",
            RunState::Stopped => "Stopped",
        }
    }
}

/// `getrandom::fill` on 16 bytes: the bytes the system's random source gave,
/// or `None` when the source reported an error. Nothing is claimed of the
/// bytes.
#[verifier::external_body]
pub(crate) fn random_bytes() -> (r: Option<[u8; 16]>) {
    let mut bytes = [0u8; 16];
    match getrandom::fill(&mut bytes) {
        Ok(()) => Some(bytes),
        Err(_) => None,
    }
}

/// The value of `bytes` read as a big-endian number.
pub open spec fn be_value(bytes: Seq<u8>) -> nat
    decreases bytes.len(),
{
    if bytes.len() == 0 {
        0
    } else {
        be_value(bytes.drop_last()) * 256 + bytes.last() as nat
    }
}

/// `bytes` with the UUID version set to 4 (the high nibble of byte 6) and the
/// variant set to RFC 4122 (the top two bits of byte 8 are binary 10).
pub open spec fn v4_bytes(bytes: Seq<u8>) -> Seq<u8> {
    bytes.update(6, ((bytes[6] & 0x0fu8) | 0x40u8) as u8).update(
        8,
        ((bytes[8] & 0x3fu8) | 0x80u8) as u8,
    )
}

/// `uuid::Builder::from_random_bytes(bytes).into_uuid().as_u128()`: the uuid
/// crate sets the version and variant fields of the random bytes and reads
/// them as a big-endian 128-bit value, so the version nibble (bits 76 to 79)
/// is 4 and the variant bits (62 and 63) are binary 10.
#[verifier::external_body]
fn uuid_from_random_bytes(bytes: [u8; 16]) -> (id: u128)
    ensures
        id == be_value(v4_bytes(bytes@)),
        (id >> 76u128) & 0xFu128 == 4,
        (id >> 62u128) & 0x3u128 == 2,
{
    uuid::Builder::from_random_bytes(bytes).into_uuid().as_u128()
}

/// The error a dashboard gets when no random id could be drawn.
pub open spec fn no_random_id_text() -> Seq<char> {
    "could not draw a random dashboard id"@
}

/// The error is the one for a failed random source.
pub open spec fn is_no_random_id(e: Error) -> bool {
    e matches Error::Message(t) && t@ == no_random_id_text()
}

fn no_random_id() -> (e: Error)
    ensures
        is_no_random_id(e),
{
    let mut s = String::new();
    push_str(&mut s, "could not draw a random dashboard id");
    Error::message(s)
}

/// The window, in milliseconds, every new graph starts with.
pub open spec fn default_window() -> u64 {
    60_000
}

pub struct Dashboard {
    pub id: DashboardId,
    pub name: String,
    pub graphs: Vec<GraphSpec>,
    pub rates: Vec<CapabilityRate>,
    pub run: RunState,
    pub csv_export: bool,
}

/// The chart the overview gives a metric: a pie for percentages, a line for
/// frequencies, and the default chart otherwise.
pub open spec fn overview_chart(unit: Seq<char>) -> ChartKind {
    if spec_is_percent(unit) {
        ChartKind::Pie
    } else if spec_is_frequency(unit) {
        ChartKind::Line
    } else {
        default_chart(unit)
    }
}

/// A capability appears in the overview when it has a default rate and at
/// least one metric.
pub open spec fn overview_includes(cap: Capability) -> bool {
    spec_default_rate(cap) is Some && cap.metrics@.len() > 0
}

/// The overview graphs of `cap`'s metrics, colored from palette index
/// `first_color` on.
pub open spec fn overview_graphs_of(cap: Capability, first_color: nat) -> Seq<GraphSpec> {
    Seq::new(
        cap.metrics@.len(),
        |j: int|
            GraphSpec {
                backend_id: cap.backend_id,
                capability_id: cap.capability_id,
                metric_id: cap.metrics@[j].metric_id,
                chart: overview_chart(cap.metrics@[j].unit@),
                color: SeriesColor { index: ((first_color + j) % 256) as u8 },
                window: default_window(),
            },
    )
}

/// The graphs and rates of the overview of `caps`.
pub open spec fn overview_parts(caps: Seq<Capability>) -> (Seq<GraphSpec>, Seq<CapabilityRate>)
    decreases caps.len(),
{
    if caps.len() == 0 {
        (Seq::empty(), Seq::empty())
    } else {
        let (graphs, rates) = overview_parts(caps.drop_last());
        let cap = caps.last();
        if overview_includes(cap) {
            (
                graphs + overview_graphs_of(cap, graphs.len()),
                rates.push(spec_default_rate(cap).unwrap()),
            )
        } else {
            (graphs, rates)
        }
    }
}

/// Position of the first rate for the given capability, or the length.
pub open spec fn rate_pos(rates: Seq<CapabilityRate>, backend_id: u8, capability_id: u8) -> int {
    first_index(
        rates,
        |r: CapabilityRate| r.backend_id == backend_id && r.capability_id == capability_id,
    )
}

/// The rate `rates` holds for a capability: its first entry for it.
pub open spec fn rate_for(rates: Seq<CapabilityRate>, backend_id: u8, capability_id: u8) -> Option<
    CapabilityRate,
> {
    let i = rate_pos(rates, backend_id, capability_id);
    if i < rates.len() {
        Some(rates[i])
    } else {
        None
    }
}

/// `graphs` holds a graph of the given metric.
pub open spec fn has_metric(
    graphs: Seq<GraphSpec>,
    backend_id: u8,
    capability_id: u8,
    metric_id: u16,
) -> bool {
    exists|i: int|
        0 <= i < graphs.len() && #[trigger] graphs[i].backend_id == backend_id
            && graphs[i].capability_id == capability_id && graphs[i].metric_id == metric_id
}

/// Some rate of `rates` is for capability `(b, c)`.
pub open spec fn has_rate_for(rates: Seq<CapabilityRate>, b: u8, c: u8) -> bool {
    exists|j: int| 0 <= j < rates.len() && #[trigger] rates[j].backend_id == b && rates[j].capability_id == c
}

/// Some graph of `graphs` draws on capability `(b, c)`.
pub open spec fn has_graph_on(graphs: Seq<GraphSpec>, b: u8, c: u8) -> bool {
    exists|i: int| 0 <= i < graphs.len() && #[trigger] graphs[i].backend_id == b && graphs[i].capability_id == c
}

/// `r` is the default rate of a listed capability with its ids.
pub open spec fn default_of_listed(caps: Seq<Capability>, r: CapabilityRate) -> bool {
    exists|k: int| 0 <= k < caps.len() && caps[k].backend_id == r.backend_id && caps[k].capability_id
        == r.capability_id && #[trigger] spec_default_rate(caps[k]) == Some(r)
}

/// The overview streams what it shows: every graph has a rate for its
/// capability, every rate has a graph on its capability and is the default
/// rate of a listed capability with its ids, and, when no two listed
/// capabilities share ids, no capability has two rates.
pub proof fn lemma_overview_rates_cover_graphs(caps: Seq<Capability>)
    ensures
        ({
            let (graphs, rates) = overview_parts(caps);
            &&& forall|i: int| 0 <= i < graphs.len() ==> has_rate_for(rates, #[trigger] graphs[i].backend_id, graphs[i].capability_id)
            &&& forall|j: int| 0 <= j < rates.len() ==> has_graph_on(graphs, #[trigger] rates[j].backend_id, rates[j].capability_id)
            &&& forall|j: int| 0 <= j < rates.len() ==> default_of_listed(caps, #[trigger] rates[j])
            &&& (forall|a: int, b: int| #![trigger caps[a], caps[b]] 0 <= a < b < caps.len() ==> !(caps[a].backend_id
                == caps[b].backend_id && caps[a].capability_id == caps[b].capability_id)) ==> forall|a: int, b: int|
                #![trigger rates[a], rates[b]]
                0 <= a < b < rates.len() ==> !(rates[a].backend_id == rates[b].backend_id && rates[a].capability_id
                    == rates[b].capability_id)
        }),
    decreases caps.len(),
{
    if caps.len() > 0 {
        let init = caps.drop_last();
        lemma_overview_rates_cover_graphs(init);
        let (graphs0, rates0) = overview_parts(init);
        let cap = caps.last();
        let n = caps.len() - 1;
        assert(cap == caps[n]);
        let (graphs, rates) = overview_parts(caps);
        assert forall|k: int| 0 <= k < init.len() implies #[trigger] init[k] == caps[k] by {}
        if overview_includes(cap) {
            let d = spec_default_rate(cap).unwrap();
            let added = overview_graphs_of(cap, graphs0.len());
            assert(graphs == graphs0 + added);
            assert(rates == rates0.push(d));
            assert(d.backend_id == cap.backend_id && d.capability_id == cap.capability_id);
            assert(added.len() > 0);
            assert(added[0].backend_id == cap.backend_id && added[0].capability_id == cap.capability_id);
            assert(graphs[graphs0.len() as int] == added[0]);
            assert forall|i: int| 0 <= i < graphs.len() implies has_rate_for(rates, #[trigger] graphs[i].backend_id, graphs[i].capability_id) by {
                if i < graphs0.len() {
                    assert(graphs[i] == graphs0[i]);
                    assert(has_rate_for(rates0, graphs0[i].backend_id, graphs0[i].capability_id));
                    let j = choose|j: int| 0 <= j < rates0.len() && #[trigger] rates0[j].backend_id == graphs0[i].backend_id
                        && rates0[j].capability_id == graphs0[i].capability_id;
                    assert(rates[j] == rates0[j]);
                } else {
                    assert(graphs[i] == added[i - graphs0.len()]);
                    assert(rates[rates0.len() as int] == d);
                }
            }
            assert forall|j: int| 0 <= j < rates.len() implies has_graph_on(graphs, #[trigger] rates[j].backend_id, rates[j].capability_id) by {
                if j < rates0.len() {
                    assert(rates[j] == rates0[j]);
                    assert(has_graph_on(graphs0, rates0[j].backend_id, rates0[j].capability_id));
                    let i = choose|i: int| 0 <= i < graphs0.len() && #[trigger] graphs0[i].backend_id == rates0[j].backend_id
                        && graphs0[i].capability_id == rates0[j].capability_id;
                    assert(graphs[i] == graphs0[i]);
                } else {
                    assert(rates[j] == d);
                }
            }
            assert forall|j: int| 0 <= j < rates.len() implies default_of_listed(caps, #[trigger] rates[j]) by {
                if j < rates0.len() {
                    assert(rates[j] == rates0[j]);
                    let k = choose|k: int| 0 <= k < init.len() && init[k].backend_id == rates0[j].backend_id
                        && init[k].capability_id == rates0[j].capability_id && #[trigger] spec_default_rate(init[k])
                        == Some(rates0[j]);
                    assert(caps[k] == init[k]);
                } else {
                    assert(rates[j] == d);
                    assert(spec_default_rate(caps[n]) == Some(d));
                }
            }
            if forall|a: int, b: int| #![trigger caps[a], caps[b]] 0 <= a < b < caps.len() ==> !(caps[a].backend_id
                == caps[b].backend_id && caps[a].capability_id == caps[b].capability_id) {
                assert forall|a: int, b: int| #![trigger init[a], init[b]] 0 <= a < b < init.len() implies !(init[a].backend_id
                    == init[b].backend_id && init[a].capability_id == init[b].capability_id) by {
                    assert(init[a] == caps[a] && init[b] == caps[b]);
                }
                assert forall|a: int, b: int| #![trigger rates[a], rates[b]] 0 <= a < b < rates.len() implies !(
                    rates[a].backend_id == rates[b].backend_id && rates[a].capability_id == rates[b].capability_id) by {
                    assert(rates[a] == rates0[a]);
                    if b < rates0.len() {
                        assert(rates[b] == rates0[b]);
                    } else {
                        let k = choose|k: int| 0 <= k < init.len() && init[k].backend_id == rates0[a].backend_id
                            && init[k].capability_id == rates0[a].capability_id && #[trigger] spec_default_rate(init[k])
                            == Some(rates0[a]);
                        assert(caps[k] == init[k]);
                        assert(!(caps[k].backend_id == caps[n].backend_id && caps[k].capability_id == caps[n].capability_id));
                    }
                }
            }
        } else {
            assert(graphs == graphs0 && rates == rates0);
            assert forall|j: int| 0 <= j < rates.len() implies default_of_listed(caps, #[trigger] rates[j]) by {
                let k = choose|k: int| 0 <= k < init.len() && init[k].backend_id == rates0[j].backend_id
                    && init[k].capability_id == rates0[j].capability_id && #[trigger] spec_default_rate(init[k])
                    == Some(rates0[j]);
                assert(caps[k] == init[k]);
            }
            if forall|a: int, b: int| #![trigger caps[a], caps[b]] 0 <= a < b < caps.len() ==> !(caps[a].backend_id
                == caps[b].backend_id && caps[a].capability_id == caps[b].capability_id) {
                assert forall|a: int, b: int| #![trigger init[a], init[b]] 0 <= a < b < init.len() implies !(init[a].backend_id
                    == init[b].backend_id && init[a].capability_id == init[b].capability_id) by {
                    assert(init[a] == caps[a] && init[b] == caps[b]);
                }
            }
        }
    }
}

/// `d` is the empty dashboard named `name` whose id is made from the random
/// bytes `bytes`: a version 4 UUID.
pub open spec fn fresh_dashboard(d: Dashboard, name: Seq<char>, bytes: Seq<u8>) -> bool {
    &&& d.id == be_value(v4_bytes(bytes))
    &&& (d.id >> 76u128) & 0xFu128 == 4
    &&& (d.id >> 62u128) & 0x3u128 == 2
    &&& d.name@ == name
    &&& d.graphs@ == Seq::<GraphSpec>::empty()
    &&& d.rates@ == Seq::<CapabilityRate>::empty()
    &&& d.run == RunState::Idle
    &&& !d.csv_export
}

/// `d` is the overview of `caps` whose id is made from the random bytes
/// `bytes`.
pub open spec fn is_overview(d: Dashboard, caps: Seq<Capability>, bytes: Seq<u8>) -> bool {
    &&& d.id == be_value(v4_bytes(bytes))
    &&& (d.id >> 76u128) & 0xFu128 == 4
    &&& (d.id >> 62u128) & 0x3u128 == 2
    &&& d.name@ == "Overview"@
    &&& d.graphs@ == overview_parts(caps).0
    &&& d.rates@ == overview_parts(caps).1
    &&& d.run == RunState::Idle
    &&& !d.csv_export
}

/// `a` and `b` hold the same dashboard.
pub open spec fn same_dashboard(a: Dashboard, b: Dashboard) -> bool {
    &&& a.id == b.id
    &&& a.name@ == b.name@
    &&& a.graphs@ == b.graphs@
    &&& a.rates@ == b.rates@
    &&& a.run == b.run
    &&& a.csv_export == b.csv_export
}

impl Dashboard {
    /// A copy of this dashboard.
    pub fn duplicate(&self) -> (r: Self)
        ensures
            same_dashboard(r, *self),
    {
        let mut graphs: Vec<GraphSpec> = Vec::new();
        let mut i: usize = 0;
        while i < self.graphs.len()
            invariant
                i <= self.graphs@.len(),
                graphs@ == self.graphs@.take(i as int),
            decreases self.graphs.len() - i,
        {
            graphs.push(self.graphs[i]);
            i = i + 1;
            assert(graphs@ =~= self.graphs@.take(i as int));
        }
        let mut rates: Vec<CapabilityRate> = Vec::new();
        let mut k: usize = 0;
        while k < self.rates.len()
            invariant
                k <= self.rates@.len(),
                rates@ == self.rates@.take(k as int),
            decreases self.rates.len() - k,
        {
            rates.push(self.rates[k]);
            k = k + 1;
            assert(rates@ =~= self.rates@.take(k as int));
        }
        assert(graphs@ =~= self.graphs@);
        assert(rates@ =~= self.rates@);
        Dashboard {
            id: self.id,
            name: crate::text::copy_string(&self.name),
            graphs,
            rates,
            run: self.run,
            csv_export: self.csv_export,
        }
    }

    /// An empty dashboard named `name` whose id is made from the random
    /// bytes `drawn`; the random-id error when no bytes were drawn.
    pub fn from_draw(name: String, drawn: Option<[u8; 16]>) -> (r: Result<Self, Error>)
        ensures
            r is Ok <==> drawn is Some,
            match drawn {
                Some(bytes) => r matches Ok(d) && fresh_dashboard(d, name@, bytes@),
                None => r matches Err(e) && is_no_random_id(e),
            },
    {
        match drawn {
            Some(bytes) => Ok(
                Dashboard {
                    id: uuid_from_random_bytes(bytes),
                    name,
                    graphs: Vec::new(),
                    rates: Vec::new(),
                    run: RunState::Idle,
                    csv_export: false,
                },
            ),
            None => Err(no_random_id()),
        }
    }

    /// An empty dashboard with a fresh random (version 4) id; an error when
    /// the system's random source fails. What comes back is `from_draw` of
    /// whatever the random source gave.
    pub fn new(name: String) -> (r: Result<Self, Error>)
        ensures
            match r {
                Ok(d) => {
                    &&& (d.id >> 76u128) & 0xFu128 == 4
                    &&& (d.id >> 62u128) & 0x3u128 == 2
                    &&& d.name@ == name@
                    &&& d.graphs@ == Seq::<GraphSpec>::empty()
                    &&& d.rates@ == Seq::<CapabilityRate>::empty()
                    &&& d.run == RunState::Idle
                    &&& !d.csv_export
                },
                Err(e) => is_no_random_id(e),
            },
    {
        Self::from_draw(name, random_bytes())
    }

    /// One dashboard covering every connected capability, with its id made
    /// from the random bytes `drawn`; the random-id error when no bytes were
    /// drawn. Chart kind follows the metric unit. No backend id is
    /// special-cased.
    pub fn overview_from_draw(capabilities: &[Capability], drawn: Option<[u8; 16]>) -> (r: Result<
        Self,
        Error,
    >)
        ensures
            r is Ok <==> drawn is Some,
            match drawn {
                Some(bytes) => r matches Ok(d) && is_overview(d, capabilities@, bytes@),
                None => r matches Err(e) && is_no_random_id(e),
            },
    {
        let mut name = String::new();
        crate::text::push_str(&mut name, "Overview");
        let mut dashboard = match Self::from_draw(name, drawn) {
            Ok(d) => d,
            Err(e) => {
                return Err(e);
            },
        };
        let ghost id = dashboard.id;
        let mut color: u8 = 0;
        let mut i: usize = 0;
        while i < capabilities.len()
            invariant
                i <= capabilities.len(),
                dashboard.name@ == "Overview"@,
                dashboard.id == id,
                (id >> 76u128) & 0xFu128 == 4,
                (id >> 62u128) & 0x3u128 == 2,
                dashboard.run == RunState::Idle,
                !dashboard.csv_export,
                dashboard.graphs@ == overview_parts(capabilities@.take(i as int)).0,
                dashboard.rates@ == overview_parts(capabilities@.take(i as int)).1,
                color as int == dashboard.graphs@.len() % 256,
            decreases capabilities.len() - i,
        {
            let capability = &capabilities[i];
            proof {
                assert(capabilities@.take(i + 1).drop_last() =~= capabilities@.take(i as int));
                assert(capabilities@.take(i + 1).last() == capabilities@[i as int]);
            }
            match default_rate(capability) {
                None => {},
                Some(rate) => {
                    let ghost before = dashboard.graphs@;
                    let mut graphs: Vec<GraphSpec> = Vec::new();
                    let mut j: usize = 0;
                    while j < capability.metrics.len()
                        invariant
                            j <= capability.metrics.len(),
                            graphs@ == overview_graphs_of(*capability, before.len()).take(
                                j as int,
                            ),
                            color as int == (before.len() + j) % 256,
                        decreases capability.metrics.len() - j,
                    {
                        let metric = &capability.metrics[j];
                        let chart = if is_percent(metric.unit.as_str()) {
                            ChartKind::Pie
                        } else if is_frequency(metric.unit.as_str()) {
                            ChartKind::Line
                        } else {
                            ChartKind::default_for(metric.unit.as_str())
                        };
                        graphs.push(
                            GraphSpec {
                                backend_id: capability.backend_id,
                                capability_id: capability.capability_id,
                                metric_id: metric.metric_id,
                                chart,
                                color: SeriesColor::new(color),
                                window: 60_000,
                            },
                        );
                        color = color.wrapping_add(1);
                        j = j + 1;
                        assert(graphs@ =~= overview_graphs_of(*capability, before.len()).take(
                            j as int,
                        ));
                    }
                    assert(graphs@ =~= overview_graphs_of(*capability, before.len()));
                    if graphs.len() > 0 {
                        dashboard.rates.push(rate);
                        let mut k: usize = 0;
                        let ghost mid = dashboard.graphs@;
                        let ghost rates_now = dashboard.rates@;
                        while k < graphs.len()
                            invariant
                                k <= graphs.len(),
                                dashboard.name@ == "Overview"@,
                                dashboard.id == id,
                                dashboard.run == RunState::Idle,
                                !dashboard.csv_export,
                                dashboard.rates@ == rates_now,
                                dashboard.graphs@ == mid + graphs@.take(k as int),
                            decreases graphs.len() - k,
                        {
                            dashboard.graphs.push(graphs[k]);
                            k = k + 1;
                            assert(dashboard.graphs@ =~= mid + graphs@.take(k as int));
                        }
                        assert(graphs@.take(graphs.len() as int) =~= graphs@);
                    }
                },
            }
            i = i + 1;
        }
        assert(capabilities@.take(capabilities.len() as int) =~= capabilities@);
        Ok(dashboard)
    }

    /// One dashboard covering every connected capability, with a fresh
    /// random id; an error when the system's random source fails. What comes
    /// back is `overview_from_draw` of whatever the random source gave.
    pub fn overview(capabilities: &[Capability]) -> (r: Result<Self, Error>)
        ensures
            match r {
                Ok(d) => {
                    &&& (d.id >> 76u128) & 0xFu128 == 4
                    &&& (d.id >> 62u128) & 0x3u128 == 2
                    &&& d.name@ == "Overview"@
                    &&& d.graphs@ == overview_parts(capabilities@).0
                    &&& d.rates@ == overview_parts(capabilities@).1
                    &&& d.run == RunState::Idle
                    &&& !d.csv_export
                },
                Err(e) => is_no_random_id(e),
            },
    {
        Self::overview_from_draw(capabilities, random_bytes())
    }

    /// The rate this dashboard sets for a capability.
    pub fn rate(&self, backend_id: u8, capability_id: u8) -> (r: Option<&CapabilityRate>)
        ensures
            r matches Some(x) ==> rate_for(self.rates@, backend_id, capability_id) == Some(*x),
            r is None ==> rate_for(self.rates@, backend_id, capability_id) is None,
    {
        let ghost p = |r: CapabilityRate|
            r.backend_id == backend_id && r.capability_id == capability_id;
        let mut i: usize = 0;
        while i < self.rates.len()
            invariant
                i <= self.rates.len(),
                p == (|r: CapabilityRate|
                    r.backend_id == backend_id && r.capability_id == capability_id),
                forall|j: int| 0 <= j < i ==> !p(#[trigger] self.rates@[j]),
            decreases self.rates.len() - i,
        {
            if self.rates[i].backend_id == backend_id && self.rates[i].capability_id
                == capability_id {
                proof {
                    lemma_first_index_is(self.rates@, p, i as int);
                }
                return Some(&self.rates[i]);
            }
            i = i + 1;
        }
        proof {
            lemma_first_index_is(self.rates@, p, i as int);
        }
        None
    }

    /// Whether a graph of this dashboard shows the given metric.
    pub fn contains_metric(&self, backend_id: u8, capability_id: u8, metric_id: u16) -> (r: bool)
        ensures
            r == has_metric(self.graphs@, backend_id, capability_id, metric_id),
    {
        let mut i: usize = 0;
        while i < self.graphs.len()
            invariant
                i <= self.graphs.len(),
                forall|j: int|
                    0 <= j < i ==> !(#[trigger] self.graphs@[j].backend_id == backend_id
                        && self.graphs@[j].capability_id == capability_id
                        && self.graphs@[j].metric_id == metric_id),
            decreases self.graphs.len() - i,
        {
            let g = self.graphs[i];
            if g.backend_id == backend_id && g.capability_id == capability_id && g.metric_id
                == metric_id {
                return true;
            }
            i = i + 1;
        }
        false
    }
}

} // verus!
