//! Which capabilities are streaming, at which rates, for which dashboards.
//!
//! A capability has one active request: every dashboard that shows metrics of
//! the same capability at the same rates shares it, and each subscribed graph
//! keeps its own ring of samples. Starting and stopping the request itself is
//! libqcperf's work; this table decides when that work is due and records its
//! outcome.
use vstd::prelude::*;

use crate::backend::session_laws::{
    lemma_attach_keeps_table_ok, lemma_detach_keeps_table_ok, lemma_empty_table_ok,
    lemma_holders_listed_once, lemma_ingest_keeps_table_ok, lemma_join_keeps_table_ok,
    lemma_remove_keeps_table_ok, lemma_resync_keeps_table_ok, table_ok,
};
use crate::error::Error;
use crate::model::dashboard::{rate_for, Dashboard, DashboardId};
use crate::model::graph::{CapabilityRate, GraphSpec};
use crate::model::sample::{spec_ring_capacity, trim_points, Sample, SampleRing};
use crate::seqs::{first_index, keep_where, lemma_first_index, lemma_first_index_is};
use crate::text::{decimal, push_decimal, push_str};

verus! {

/// What identifies one active request: a capability and its two rates.
#[derive(Clone, Copy, Debug, PartialEq, Eq, Structural)]
struct SessionKey {
    backend_id: u8,
    capability_id: u8,
    sampling_rate_ms: u16,
    streaming_rate_ms: u16,
}

impl SessionKey {
    spec fn spec_rate(self) -> CapabilityRate {
        CapabilityRate {
            backend_id: self.backend_id,
            capability_id: self.capability_id,
            sampling_rate_ms: self.sampling_rate_ms,
            streaming_rate_ms: self.streaming_rate_ms,
        }
    }

    fn from_rate(rate: &CapabilityRate) -> (r: Self)
        ensures
            r.spec_rate() == *rate,
    {
        SessionKey {
            backend_id: rate.backend_id,
            capability_id: rate.capability_id,
            sampling_rate_ms: rate.sampling_rate_ms,
            streaming_rate_ms: rate.streaming_rate_ms,
        }
    }

    fn rate(self) -> (r: CapabilityRate)
        ensures
            r == self.spec_rate(),
    {
        CapabilityRate {
            backend_id: self.backend_id,
            capability_id: self.capability_id,
            sampling_rate_ms: self.sampling_rate_ms,
            streaming_rate_ms: self.streaming_rate_ms,
        }
    }

    /// The streaming period in milliseconds.
    fn period(self) -> (r: u64)
        ensures
            r == self.streaming_rate_ms,
    {
        self.streaming_rate_ms as u64
    }
}

/// One graph's ring: the dashboard, the metric, the ring's window and
/// streaming period (milliseconds), and its points.
pub type RingView<V> = (DashboardId, u16, u64, u64, Seq<(u64, V)>);

/// One active request: its rate, the dashboards subscribed to it, and their
/// rings.
pub type SessionView<V> = (CapabilityRate, Seq<DashboardId>, Seq<RingView<V>>);

struct RingSlot<V> {
    dashboard: DashboardId,
    metric_id: u16,
    ring: SampleRing<V>,
}

impl<V> RingSlot<V> {
    spec fn view(self) -> RingView<V> {
        (
            self.dashboard,
            self.metric_id,
            self.ring.spec_window(),
            self.ring.spec_stream_period(),
            self.ring.spec_points(),
        )
    }
}

struct Session<V> {
    key: SessionKey,
    dashboards: Vec<DashboardId>,
    rings: Vec<RingSlot<V>>,
}

impl<V> Session<V> {
    spec fn view(self) -> SessionView<V> {
        (self.key.spec_rate(), self.dashboards@, slots_view(self.rings@))
    }
}

pub struct SessionTable<V> {
    active: Vec<Session<V>>,
}

// ---------------------------------------------------------------------------
// The model
// ---------------------------------------------------------------------------

pub open spec fn same_capability(rate: CapabilityRate, backend_id: u8, capability_id: u8) -> bool {
    rate.backend_id == backend_id && rate.capability_id == capability_id
}

pub open spec fn has_key<V>(s: SessionView<V>, key: CapabilityRate) -> bool {
    s.0 == key
}

/// Position of the session with rate `key`, or the length.
pub open spec fn session_pos<V>(v: Seq<SessionView<V>>, key: CapabilityRate) -> int {
    first_index(v, |s: SessionView<V>| has_key(s, key))
}

/// Position of the first session of a capability, or the length.
pub open spec fn capability_session_pos<V>(
    v: Seq<SessionView<V>>,
    backend_id: u8,
    capability_id: u8,
) -> int {
    first_index(v, |s: SessionView<V>| same_capability(s.0, backend_id, capability_id))
}

/// The rate a capability is streaming at, if any session has it.
pub open spec fn live_rate<V>(v: Seq<SessionView<V>>, backend_id: u8, capability_id: u8) -> Option<
    CapabilityRate,
> {
    let i = capability_session_pos(v, backend_id, capability_id);
    if i < v.len() {
        Some(v[i].0)
    } else {
        None
    }
}

/// `rate` asks for other rates than the ones its capability is streaming at.
pub open spec fn conflicts<V>(v: Seq<SessionView<V>>, rate: CapabilityRate) -> bool {
    match live_rate(v, rate.backend_id, rate.capability_id) {
        Some(live) => live.sampling_rate_ms != rate.sampling_rate_ms || live.streaming_rate_ms
            != rate.streaming_rate_ms,
        None => false,
    }
}

/// What the status line says when a capability is busy at other rates.
pub open spec fn busy_message(backend_id: u8, capability_id: u8, live: CapabilityRate) -> Seq<char> {
    "backend "@ + decimal(backend_id as nat) + " capability "@ + decimal(capability_id as nat)
        + " is already streaming at sample "@ + decimal(live.sampling_rate_ms as nat)
        + " ms / stream "@ + decimal(live.streaming_rate_ms as nat) + " ms"@
}

/// What the status line says when an edited rate cannot take effect yet.
pub open spec fn stays_message(key: CapabilityRate) -> Seq<char> {
    "backend "@ + decimal(key.backend_id as nat) + " capability "@ + decimal(
        key.capability_id as nat,
    ) + " stays at sample "@ + decimal(key.sampling_rate_ms as nat) + " ms / stream "@ + decimal(
        key.streaming_rate_ms as nat,
    ) + " ms until every dashboard stops it"@
}

/// Position of the first rate of `rates` that conflicts with the table.
pub open spec fn start_conflict_pos<V>(v: Seq<SessionView<V>>, rates: Seq<CapabilityRate>) -> int {
    first_index(rates, |r: CapabilityRate| conflicts(v, r))
}

/// The rates of the sessions `id` is subscribed to, in table order.
pub open spec fn subscribed_rates<V>(v: Seq<SessionView<V>>, id: DashboardId) -> Seq<
    CapabilityRate,
>
    decreases v.len(),
{
    if v.len() == 0 {
        Seq::empty()
    } else {
        let prev = subscribed_rates(v.drop_last(), id);
        if v.last().1.contains(id) {
            prev.push(v.last().0)
        } else {
            prev
        }
    }
}

/// The dashboards subscribed to a capability, session by session.
pub open spec fn holders_of<V>(v: Seq<SessionView<V>>, backend_id: u8, capability_id: u8) -> Seq<
    DashboardId,
>
    decreases v.len(),
{
    if v.len() == 0 {
        Seq::empty()
    } else {
        let prev = holders_of(v.drop_last(), backend_id, capability_id);
        if same_capability(v.last().0, backend_id, capability_id) {
            prev + v.last().1
        } else {
            prev
        }
    }
}

/// The ring `s` belongs to dashboard `id` and shows `metric_id`.
pub open spec fn is_slot<V>(s: RingView<V>, id: DashboardId, metric_id: u16) -> bool {
    s.0 == id && s.1 == metric_id
}

/// Position of the first ring of `id` and `metric_id`, or the length.
pub open spec fn slot_pos<V>(slots: Seq<RingView<V>>, id: DashboardId, metric_id: u16) -> int {
    first_index(slots, |s: RingView<V>| is_slot(s, id, metric_id))
}

/// Position of the first session holding a ring of `id` and `metric_id`.
pub open spec fn ring_session_pos<V>(v: Seq<SessionView<V>>, id: DashboardId, metric_id: u16) -> int {
    first_index(v, |s: SessionView<V>| slot_pos(s.2, id, metric_id) < s.2.len())
}

/// The ring of `id` and `metric_id`: in the first session that has one, its
/// first such ring.
pub open spec fn ring_of<V>(v: Seq<SessionView<V>>, id: DashboardId, metric_id: u16) -> Option<
    RingView<V>,
> {
    let i = ring_session_pos(v, id, metric_id);
    if i < v.len() {
        Some(v[i].2[slot_pos(v[i].2, id, metric_id)])
    } else {
        None
    }
}

/// What `join_plan` tells the caller to do for one rate of an edited
/// dashboard.
pub enum JoinPlan {
    /// The dashboard already holds this capability.
    Subscribed,
    /// The capability streams at other rates; the text says so.
    Conflict(String),
    /// No request exists for this rate: start one, then `join`.
    Start,
    /// A request exists for this rate: `join` it.
    Join,
}

/// Position of the first session of a capability that `id` holds.
pub open spec fn subscription_pos<V>(
    v: Seq<SessionView<V>>,
    id: DashboardId,
    backend_id: u8,
    capability_id: u8,
) -> int {
    first_index(
        v,
        |s: SessionView<V>| same_capability(s.0, backend_id, capability_id) && s.1.contains(id),
    )
}


// ---------------------------------------------------------------------------
// What the mutating operations do to the model
// ---------------------------------------------------------------------------

/// `slots` holds a ring of `id` and `metric_id`.
pub open spec fn has_slot<V>(slots: Seq<RingView<V>>, id: DashboardId, metric_id: u16) -> bool {
    slot_pos(slots, id, metric_id) < slots.len()
}

/// An empty ring of `graph` on request `key`.
pub open spec fn fresh_ring<V>(id: DashboardId, graph: GraphSpec, key: CapabilityRate) -> RingView<V> {
    (id, graph.metric_id, graph.window, key.streaming_rate_ms as u64, Seq::empty())
}

/// The graph draws from the capability of `key`.
pub open spec fn draws_from(graph: GraphSpec, key: CapabilityRate) -> bool {
    graph.backend_id == key.backend_id && graph.capability_id == key.capability_id
}

/// Starting: `slots` plus an empty ring for each graph of `graphs` on the
/// capability of `key` that has none yet. Existing rings are left as they are.
pub open spec fn add_rings<V>(
    slots: Seq<RingView<V>>,
    id: DashboardId,
    graphs: Seq<GraphSpec>,
    key: CapabilityRate,
) -> Seq<RingView<V>>
    decreases graphs.len(),
{
    if graphs.len() == 0 {
        slots
    } else {
        let prev = add_rings(slots, id, graphs.drop_last(), key);
        let g = graphs.last();
        if draws_from(g, key) && !has_slot(prev, id, g.metric_id) {
            prev.push(fresh_ring(id, g, key))
        } else {
            prev
        }
    }
}

/// Some graph of `graphs` shows `metric_id` of the capability of `key`.
pub open spec fn wants_metric(graphs: Seq<GraphSpec>, key: CapabilityRate, metric_id: u16) -> bool {
    exists|k: int| 0 <= k < graphs.len() && draws_from(graphs[k], key) && #[trigger] graphs[k].metric_id == metric_id
}

/// The rings of `slots` that stay after an edit: those of other dashboards,
/// and those of `id` whose metric it still shows.
pub open spec fn keep_rings<V>(
    slots: Seq<RingView<V>>,
    id: DashboardId,
    graphs: Seq<GraphSpec>,
    key: CapabilityRate,
) -> Seq<RingView<V>> {
    keep_where(slots, ring_stays(id, graphs, key))
}

/// Whether a ring stays after dashboard `id`'s graphs changed.
pub open spec fn ring_stays<V>(id: DashboardId, graphs: Seq<GraphSpec>, key: CapabilityRate) -> spec_fn(
    RingView<V>,
) -> bool {
    |r: RingView<V>| r.0 != id || wants_metric(graphs, key, r.1)
}

/// `slot` with a new window: its points are trimmed to what the new window
/// keeps.
pub open spec fn retarget<V>(slot: RingView<V>, window: u64) -> RingView<V> {
    (slot.0, slot.1, window, slot.3, trim_points(slot.4, spec_ring_capacity(window, slot.3), window))
}

/// Each graph of `graphs` on the capability of `key`, in order, sets the
/// window of its ring, or gets an empty ring when it has none.
pub open spec fn apply_windows<V>(
    slots: Seq<RingView<V>>,
    id: DashboardId,
    graphs: Seq<GraphSpec>,
    key: CapabilityRate,
) -> Seq<RingView<V>>
    decreases graphs.len(),
{
    if graphs.len() == 0 {
        slots
    } else {
        let prev = apply_windows(slots, id, graphs.drop_last(), key);
        let g = graphs.last();
        if draws_from(g, key) {
            let k = slot_pos(prev, id, g.metric_id);
            if k < prev.len() {
                prev.update(k, retarget(prev[k], g.window))
            } else {
                prev.push(fresh_ring(id, g, key))
            }
        } else {
            prev
        }
    }
}

/// The rings of a session after dashboard `id`'s graphs changed.
pub open spec fn synced<V>(
    slots: Seq<RingView<V>>,
    id: DashboardId,
    graphs: Seq<GraphSpec>,
    key: CapabilityRate,
) -> Seq<RingView<V>> {
    apply_windows(keep_rings(slots, id, graphs, key), id, graphs, key)
}

/// `ids` with `id` added at the end unless it is there.
pub open spec fn subscribe(ids: Seq<DashboardId>, id: DashboardId) -> Seq<DashboardId> {
    if ids.contains(id) {
        ids
    } else {
        ids.push(id)
    }
}

/// `v` with a session for `key`, added empty at the end if it had none.
pub open spec fn with_session<V>(v: Seq<SessionView<V>>, key: CapabilityRate) -> Seq<SessionView<V>> {
    if session_pos(v, key) < v.len() {
        v
    } else {
        v.push((key, Seq::empty(), Seq::empty()))
    }
}

/// Starting `dashboard` on `rate` once its request runs: the dashboard is
/// subscribed and each of its graphs on that capability has a ring.
pub open spec fn attached<V>(v: Seq<SessionView<V>>, dashboard: Dashboard, rate: CapabilityRate) -> Seq<
    SessionView<V>,
> {
    let v1 = with_session(v, rate);
    let j = session_pos(v1, rate);
    let s = v1[j];
    v1.update(j, (s.0, subscribe(s.1, dashboard.id), add_rings(s.2, dashboard.id, dashboard.graphs@, rate)))
}

/// Joining `rate` from an edited dashboard: like starting, but the rings
/// follow the edited graphs.
pub open spec fn joined<V>(v: Seq<SessionView<V>>, dashboard: Dashboard, rate: CapabilityRate) -> Seq<
    SessionView<V>,
> {
    let v1 = with_session(v, rate);
    let j = session_pos(v1, rate);
    let s = v1[j];
    v1.update(j, (s.0, subscribe(s.1, dashboard.id), synced(s.2, dashboard.id, dashboard.graphs@, rate)))
}

/// The note an edit of a running dashboard leaves for a request it keeps: set
/// when the dashboard now asks other rates while other dashboards share the
/// request.
pub open spec fn reconcile_note<V>(v: Seq<SessionView<V>>, key: CapabilityRate, dashboard: Dashboard) -> Option<
    Seq<char>,
> {
    let same = match rate_for(dashboard.rates@, key.backend_id, key.capability_id) {
        Some(r) => r.sampling_rate_ms == key.sampling_rate_ms && r.streaming_rate_ms == key.streaming_rate_ms,
        None => false,
    };
    let i = session_pos(v, key);
    let others = i < v.len() && exists|k: int| 0 <= k < v[i].1.len() && #[trigger] v[i].1[k] != dashboard.id;
    if !same && others {
        Some(stays_message(key))
    } else {
        None
    }
}

/// The table after the rings of request `key` followed an edit of `dashboard`.
pub open spec fn resynced<V>(v: Seq<SessionView<V>>, key: CapabilityRate, dashboard: Dashboard) -> Seq<
    SessionView<V>,
> {
    let i = session_pos(v, key);
    if i < v.len() {
        v.update(i, (v[i].0, v[i].1, synced(v[i].2, dashboard.id, dashboard.graphs@, key)))
    } else {
        v
    }
}

/// `ids` without `id`.
pub open spec fn without_id(ids: Seq<DashboardId>, id: DashboardId) -> Seq<DashboardId> {
    keep_where(ids, other_than(id))
}

/// Whether a dashboard id differs from `id`.
pub open spec fn other_than(id: DashboardId) -> spec_fn(DashboardId) -> bool {
    |x: DashboardId| x != id
}

/// `slots` without the rings of `id`.
pub open spec fn rings_without<V>(slots: Seq<RingView<V>>, id: DashboardId) -> Seq<RingView<V>> {
    keep_where(slots, ring_of_other(id))
}

/// Whether a ring belongs to another dashboard than `id`.
pub open spec fn ring_of_other<V>(id: DashboardId) -> spec_fn(RingView<V>) -> bool {
    |r: RingView<V>| r.0 != id
}

/// The table after `id` left request `key`.
pub open spec fn detached<V>(v: Seq<SessionView<V>>, key: CapabilityRate, id: DashboardId) -> Seq<
    SessionView<V>,
> {
    let i = session_pos(v, key);
    if i < v.len() {
        v.update(i, (v[i].0, without_id(v[i].1, id), rings_without(v[i].2, id)))
    } else {
        v
    }
}

/// The table without request `key`.
pub open spec fn removed<V>(v: Seq<SessionView<V>>, key: CapabilityRate) -> Seq<SessionView<V>> {
    let i = session_pos(v, key);
    if i < v.len() {
        v.remove(i)
    } else {
        v
    }
}

/// `slot` after `sample` arrived: pushed into the ring when it shows the
/// sample's metric.
pub open spec fn feed<V>(slot: RingView<V>, sample: Sample<V>) -> RingView<V> {
    if slot.1 == sample.metric_id {
        (
            slot.0,
            slot.1,
            slot.2,
            slot.3,
            trim_points(slot.4.push((sample.at, sample.value)), spec_ring_capacity(slot.2, slot.3), slot.2),
        )
    } else {
        slot
    }
}

/// `feed` with `sample`, as a function of the ring.
pub open spec fn fed_with<V>(sample: Sample<V>) -> spec_fn(RingView<V>) -> RingView<V> {
    |s: RingView<V>| feed(s, sample)
}

/// The table after one sample arrived: it goes to every ring of its metric in
/// the first session of its capability.
pub open spec fn ingest_one<V>(v: Seq<SessionView<V>>, sample: Sample<V>) -> Seq<SessionView<V>> {
    let i = capability_session_pos(v, sample.backend_id, sample.capability_id);
    if i < v.len() {
        v.update(i, (v[i].0, v[i].1, v[i].2.map_values(fed_with(sample))))
    } else {
        v
    }
}

/// The table after `samples` arrived, in order.
pub open spec fn ingested<V>(v: Seq<SessionView<V>>, samples: Seq<Sample<V>>) -> Seq<SessionView<V>>
    decreases samples.len(),
{
    if samples.len() == 0 {
        v
    } else {
        ingest_one(ingested(v, samples.drop_last()), samples.last())
    }
}


// ---------------------------------------------------------------------------
// Rings of one session
// ---------------------------------------------------------------------------

spec fn slots_view<V>(rings: Seq<RingSlot<V>>) -> Seq<RingView<V>> {
    rings.map_values(|s: RingSlot<V>| s.view())
}

fn find_slot<V>(rings: &Vec<RingSlot<V>>, id: DashboardId, metric_id: u16) -> (r: usize)
    ensures
        r == slot_pos(slots_view(rings@), id, metric_id),
        r <= rings@.len(),
{
    let ghost p = |s: RingView<V>| is_slot(s, id, metric_id);
    let ghost sv = slots_view(rings@);
    let mut i: usize = 0;
    while i < rings.len()
        invariant
            i <= rings@.len(),
            sv == slots_view(rings@),
            p == (|s: RingView<V>| is_slot(s, id, metric_id)),
            forall|j: int| 0 <= j < i ==> !p(#[trigger] sv[j]),
        decreases rings.len() - i,
    {
        assert(sv[i as int] == rings@[i as int].view());
        if rings[i].dashboard == id && rings[i].metric_id == metric_id {
            proof {
                lemma_first_index_is(sv, p, i as int);
            }
            return i;
        }
        i = i + 1;
    }
    proof {
        lemma_first_index_is(sv, p, i as int);
    }
    i
}

fn draws(graph: &GraphSpec, key: SessionKey) -> (r: bool)
    ensures
        r == draws_from(*graph, key.spec_rate()),
{
    graph.backend_id == key.backend_id && graph.capability_id == key.capability_id
}

fn add_missing_rings<V>(
    rings: &mut Vec<RingSlot<V>>,
    id: DashboardId,
    graphs: &Vec<GraphSpec>,
    key: SessionKey,
)
    ensures
        slots_view(final(rings)@) == add_rings(slots_view(old(rings)@), id, graphs@, key.spec_rate()),
{
    let ghost orig = slots_view(rings@);
    let ghost rate = key.spec_rate();
    let mut k: usize = 0;
    while k < graphs.len()
        invariant
            k <= graphs@.len(),
            rate == key.spec_rate(),
            slots_view(rings@) == add_rings(orig, id, graphs@.take(k as int), rate),
        decreases graphs.len() - k,
    {
        let g = graphs[k];
        proof {
            assert(graphs@.take(k + 1).drop_last() =~= graphs@.take(k as int));
            assert(graphs@.take(k + 1).last() == g);
        }
        if draws(&g, key) && find_slot(rings, id, g.metric_id) == rings.len() {
            let ghost before = slots_view(rings@);
            rings.push(RingSlot { dashboard: id, metric_id: g.metric_id, ring: SampleRing::new(g.window, key.period()) });
            assert(slots_view(rings@) =~= before.push(fresh_ring(id, g, rate)));
        }
        k = k + 1;
    }
    assert(graphs@.take(graphs.len() as int) =~= graphs@);
}

fn wants(graphs: &Vec<GraphSpec>, key: SessionKey, metric_id: u16) -> (r: bool)
    ensures
        r == wants_metric(graphs@, key.spec_rate(), metric_id),
{
    let mut k: usize = 0;
    while k < graphs.len()
        invariant
            k <= graphs@.len(),
            forall|j: int| 0 <= j < k ==> !(draws_from(graphs@[j], key.spec_rate()) && #[trigger] graphs@[j].metric_id == metric_id),
        decreases graphs.len() - k,
    {
        if draws(&graphs[k], key) && graphs[k].metric_id == metric_id {
            assert(draws_from(graphs@[k as int], key.spec_rate()) && graphs@[k as int].metric_id == metric_id);
            return true;
        }
        k = k + 1;
    }
    false
}

fn keep_wanted_rings<V>(
    rings: &mut Vec<RingSlot<V>>,
    id: DashboardId,
    graphs: &Vec<GraphSpec>,
    key: SessionKey,
)
    ensures
        slots_view(final(rings)@) == keep_rings(slots_view(old(rings)@), id, graphs@, key.spec_rate()),
{
    let ghost orig = slots_view(rings@);
    let ghost rate = key.spec_rate();
    let mut rest: Vec<RingSlot<V>> = Vec::new();
    std::mem::swap(&mut rest, rings);
    assert(slots_view(rings@) =~= Seq::<RingView<V>>::empty());
    while rest.len() > 0
        invariant
            rate == key.spec_rate(),
            slots_view(rings@) + keep_rings(slots_view(rest@), id, graphs@, rate) == keep_rings(orig, id, graphs@, rate),
        decreases rest@.len(),
    {
        let ghost before_rest = slots_view(rest@);
        let ghost before_out = slots_view(rings@);
        let slot = rest.remove(0);
        assert(slots_view(rest@) =~= before_rest.drop_first());
        assert(before_rest[0] == slot.view());
        if slot.dashboard != id || wants(graphs, key, slot.metric_id) {
            rings.push(slot);
            assert(slots_view(rings@) =~= before_out.push(before_rest[0]));
            assert(before_out.push(before_rest[0]) + keep_rings(slots_view(rest@), id, graphs@, rate) =~= before_out + (seq![before_rest[0]] + keep_rings(slots_view(rest@), id, graphs@, rate)));
        }
    }
    assert(keep_rings(slots_view(rest@), id, graphs@, rate) =~= Seq::<RingView<V>>::empty());
    assert(slots_view(rings@) =~= slots_view(rings@) + Seq::<RingView<V>>::empty());
}

fn apply_graph_windows<V>(
    rings: &mut Vec<RingSlot<V>>,
    id: DashboardId,
    graphs: &Vec<GraphSpec>,
    key: SessionKey,
)
    ensures
        slots_view(final(rings)@) == apply_windows(slots_view(old(rings)@), id, graphs@, key.spec_rate()),
{
    let ghost orig = slots_view(rings@);
    let ghost rate = key.spec_rate();
    let mut k: usize = 0;
    while k < graphs.len()
        invariant
            k <= graphs@.len(),
            rate == key.spec_rate(),
            slots_view(rings@) == apply_windows(orig, id, graphs@.take(k as int), rate),
        decreases graphs.len() - k,
    {
        let g = graphs[k];
        proof {
            assert(graphs@.take(k + 1).drop_last() =~= graphs@.take(k as int));
            assert(graphs@.take(k + 1).last() == g);
        }
        if draws(&g, key) {
            let i = find_slot(rings, id, g.metric_id);
            let ghost before = slots_view(rings@);
            if i < rings.len() {
                let mut slot = rings.remove(i);
                assert(before[i as int] == slot.view());
                slot.ring.set_window(g.window);
                rings.insert(i, slot);
                assert(slots_view(rings@) =~= before.update(i as int, retarget(before[i as int], g.window)));
            } else {
                rings.push(RingSlot { dashboard: id, metric_id: g.metric_id, ring: SampleRing::new(g.window, key.period()) });
                assert(slots_view(rings@) =~= before.push(fresh_ring(id, g, rate)));
            }
        }
        k = k + 1;
    }
    assert(graphs@.take(graphs.len() as int) =~= graphs@);
}

fn sync_slot_rings<V>(
    rings: &mut Vec<RingSlot<V>>,
    id: DashboardId,
    graphs: &Vec<GraphSpec>,
    key: SessionKey,
)
    ensures
        slots_view(final(rings)@) == synced(slots_view(old(rings)@), id, graphs@, key.spec_rate()),
{
    keep_wanted_rings(rings, id, graphs, key);
    apply_graph_windows(rings, id, graphs, key);
}

fn drop_rings_of<V>(rings: &mut Vec<RingSlot<V>>, id: DashboardId)
    ensures
        slots_view(final(rings)@) == rings_without(slots_view(old(rings)@), id),
{
    let ghost orig = slots_view(rings@);
    let mut rest: Vec<RingSlot<V>> = Vec::new();
    std::mem::swap(&mut rest, rings);
    assert(slots_view(rings@) =~= Seq::<RingView<V>>::empty());
    while rest.len() > 0
        invariant
            slots_view(rings@) + rings_without(slots_view(rest@), id) == rings_without(orig, id),
        decreases rest@.len(),
    {
        let ghost before_rest = slots_view(rest@);
        let ghost before_out = slots_view(rings@);
        let slot = rest.remove(0);
        assert(slots_view(rest@) =~= before_rest.drop_first());
        assert(before_rest[0] == slot.view());
        if slot.dashboard != id {
            rings.push(slot);
            assert(slots_view(rings@) =~= before_out.push(before_rest[0]));
            assert(before_out.push(before_rest[0]) + rings_without(slots_view(rest@), id) =~= before_out + (seq![before_rest[0]] + rings_without(slots_view(rest@), id)));
        }
    }
    assert(rings_without(slots_view(rest@), id) =~= Seq::<RingView<V>>::empty());
    assert(slots_view(rings@) =~= slots_view(rings@) + Seq::<RingView<V>>::empty());
}

fn drop_id(ids: &mut Vec<DashboardId>, id: DashboardId)
    ensures
        final(ids)@ == without_id(old(ids)@, id),
{
    let ghost orig = ids@;
    let mut rest: Vec<DashboardId> = Vec::new();
    std::mem::swap(&mut rest, ids);
    while rest.len() > 0
        invariant
            ids@ + without_id(rest@, id) == without_id(orig, id),
        decreases rest@.len(),
    {
        let ghost before_rest = rest@;
        let ghost before_out = ids@;
        let x = rest.remove(0);
        assert(rest@ =~= before_rest.drop_first());
        if x != id {
            ids.push(x);
            assert(before_out.push(x) + without_id(rest@, id) =~= before_out + (seq![x] + without_id(rest@, id)));
        }
    }
    assert(ids@ =~= ids@ + without_id(rest@, id));
}

fn subscribe_id(ids: &mut Vec<DashboardId>, id: DashboardId)
    ensures
        final(ids)@ == subscribe(old(ids)@, id),
{
    if !contains_id(ids, id) {
        ids.push(id);
    }
}

fn feed_rings<V: Copy>(rings: &mut Vec<RingSlot<V>>, sample: &Sample<V>)
    ensures
        slots_view(final(rings)@) == slots_view(old(rings)@).map_values(fed_with(*sample)),
{
    let ghost orig = slots_view(rings@);
    let mut i: usize = 0;
    while i < rings.len()
        invariant
            i <= rings@.len(),
            rings@.len() == orig.len(),
            forall|j: int| 0 <= j < i ==> #[trigger] slots_view(rings@)[j] == feed(orig[j], *sample),
            forall|j: int| i <= j < orig.len() ==> #[trigger] slots_view(rings@)[j] == orig[j],
        decreases rings.len() - i,
    {
        let ghost before = slots_view(rings@);
        if rings[i].metric_id == sample.metric_id {
            let mut slot = rings.remove(i);
            assert(before[i as int] == slot.view());
            slot.ring.push(sample.at, sample.value);
            rings.insert(i, slot);
            assert(slots_view(rings@) =~= before.update(i as int, feed(before[i as int], *sample)));
        } else {
            assert(before[i as int] == rings@[i as int].view());
        }
        i = i + 1;
    }
    assert(slots_view(rings@) =~= orig.map_values(fed_with(*sample)));
}

impl<V> SessionTable<V> {
    pub closed spec fn view(&self) -> Seq<SessionView<V>> {
        self.active@.map_values(|s: Session<V>| s.view())
    }

    pub fn new() -> (r: Self)
        ensures
            r.view() == Seq::<SessionView<V>>::empty(),
            table_ok(r.view()),
    {
        let r = SessionTable { active: Vec::new() };
        assert(r.view() =~= Seq::<SessionView<V>>::empty());
        proof {
            lemma_empty_table_ok::<V>();
        }
        r
    }

    /// Index of the session with rate `key`.
    fn find_key(&self, key: &CapabilityRate) -> (r: usize)
        ensures
            r == session_pos(self.view(), *key),
            r <= self.active@.len(),
    {
        let ghost kv: CapabilityRate = *key;
        let ghost p = |s: SessionView<V>| has_key(s, kv);
        assert(session_pos(self.view(), kv) == first_index(self.view(), p));
        let mut i: usize = 0;
        while i < self.active.len()
            invariant
                i <= self.active@.len(),
                kv == *key,
                p == (|s: SessionView<V>| has_key(s, kv)),
                forall|j: int| 0 <= j < i ==> !p(#[trigger] self.view()[j]),
            decreases self.active.len() - i,
        {
            let k = self.active[i].key;
            if k.backend_id == key.backend_id && k.capability_id == key.capability_id
                && k.sampling_rate_ms == key.sampling_rate_ms && k.streaming_rate_ms
                == key.streaming_rate_ms {
                proof {
                    assert(self.view()[i as int] == self.active@[i as int].view());
                    lemma_first_index_is(self.view(), p, i as int);
                }
                return i;
            }
            assert(self.view()[i as int] == self.active@[i as int].view());
            i = i + 1;
        }
        proof {
            lemma_first_index_is(self.view(), p, i as int);
        }
        i
    }

    /// Index of the first session of a capability.
    fn capability_index(&self, backend_id: u8, capability_id: u8) -> (r: usize)
        ensures
            r == capability_session_pos(self.view(), backend_id, capability_id),
            r <= self.active@.len(),
    {
        let ghost p = |s: SessionView<V>| same_capability(s.0, backend_id, capability_id);
        let mut i: usize = 0;
        while i < self.active.len()
            invariant
                i <= self.active@.len(),
                p == (|s: SessionView<V>| same_capability(s.0, backend_id, capability_id)),
                forall|j: int| 0 <= j < i ==> !p(#[trigger] self.view()[j]),
            decreases self.active.len() - i,
        {
            let k = self.active[i].key;
            assert(self.view()[i as int] == self.active@[i as int].view());
            if k.backend_id == backend_id && k.capability_id == capability_id {
                proof {
                    lemma_first_index_is(self.view(), p, i as int);
                }
                return i;
            }
            i = i + 1;
        }
        proof {
            lemma_first_index_is(self.view(), p, i as int);
        }
        i
    }

    /// The rate a capability is streaming at.
    fn live_rate(&self, backend_id: u8, capability_id: u8) -> (r: Option<CapabilityRate>)
        ensures
            r == live_rate(self.view(), backend_id, capability_id),
    {
        let i = self.capability_index(backend_id, capability_id);
        if i < self.active.len() {
            assert(self.view()[i as int] == self.active@[i as int].view());
            Some(self.active[i].key.rate())
        } else {
            None
        }
    }

    /// Checks, before anything starts, that no rate of `dashboard` asks a
    /// streaming capability for other rates.
    pub fn check_start(&self, dashboard: &Dashboard) -> (r: Result<(), Error>)
        ensures
            ({
                let rates = dashboard.rates@;
                let i = start_conflict_pos(self.view(), rates);
                if i < rates.len() {
                    r matches Err(Error::Message(t)) && t@ == busy_message(
                        rates[i].backend_id,
                        rates[i].capability_id,
                        live_rate(self.view(), rates[i].backend_id, rates[i].capability_id)->0,
                    )
                } else {
                    r is Ok
                }
            }),
    {
        let ghost p = |r: CapabilityRate| conflicts(self.view(), r);
        let mut i: usize = 0;
        while i < dashboard.rates.len()
            invariant
                i <= dashboard.rates@.len(),
                p == (|r: CapabilityRate| conflicts(self.view(), r)),
                forall|j: int| 0 <= j < i ==> !p(#[trigger] dashboard.rates@[j]),
            decreases dashboard.rates.len() - i,
        {
            let rate = dashboard.rates[i];
            if let Some(live) = self.live_rate(rate.backend_id, rate.capability_id) {
                if live.sampling_rate_ms != rate.sampling_rate_ms || live.streaming_rate_ms
                    != rate.streaming_rate_ms {
                    proof {
                        lemma_first_index_is(dashboard.rates@, p, i as int);
                    }
                    let text = busy_text(rate.backend_id, rate.capability_id, &live);
                    return Err(Error::message(text));
                }
            }
            i = i + 1;
        }
        proof {
            lemma_first_index_is(dashboard.rates@, p, i as int);
        }
        Ok(())
    }

    /// Whether no request exists yet for exactly this capability and rate.
    pub fn needs_start(&self, rate: &CapabilityRate) -> (r: bool)
        ensures
            r == (session_pos(self.view(), *rate) == self.view().len()),
    {
        let i = self.find_key(rate);
        i == self.active.len()
    }

    /// The rates of the requests `dashboard_id` is subscribed to.
    pub fn subscriptions(&self, dashboard_id: DashboardId) -> (r: Vec<CapabilityRate>)
        ensures
            r@ == subscribed_rates(self.view(), dashboard_id),
    {
        let mut out: Vec<CapabilityRate> = Vec::new();
        let mut i: usize = 0;
        while i < self.active.len()
            invariant
                i <= self.active@.len(),
                out@ == subscribed_rates(self.view().take(i as int), dashboard_id),
            decreases self.active.len() - i,
        {
            proof {
                assert(self.view().take(i + 1).drop_last() =~= self.view().take(i as int));
                assert(self.view()[i as int] == self.active@[i as int].view());
            }
            if contains_id(&self.active[i].dashboards, dashboard_id) {
                out.push(self.active[i].key.rate());
            }
            i = i + 1;
        }
        assert(self.view().take(self.active.len() as int) =~= self.view());
        out
    }

    /// The rates of every active request, in table order.
    pub fn active_rates(&self) -> (r: Vec<CapabilityRate>)
        ensures
            r@ == self.view().map_values(|s: SessionView<V>| s.0),
    {
        let mut out: Vec<CapabilityRate> = Vec::new();
        let mut i: usize = 0;
        while i < self.active.len()
            invariant
                i <= self.active@.len(),
                out@ == self.view().take(i as int).map_values(|s: SessionView<V>| s.0),
            decreases self.active.len() - i,
        {
            assert(self.view()[i as int] == self.active@[i as int].view());
            out.push(self.active[i].key.rate());
            i = i + 1;
            assert(out@ =~= self.view().take(i as int).map_values(|s: SessionView<V>| s.0));
        }
        assert(self.view().take(self.active.len() as int) =~= self.view());
        out
    }

    /// Forgets every request.
    pub fn clear(&mut self)
        ensures
            final(self).view() == Seq::<SessionView<V>>::empty(),
            table_ok(final(self).view()),
    {
        self.active.clear();
        assert(self.view() =~= Seq::<SessionView<V>>::empty());
        proof {
            lemma_empty_table_ok::<V>();
        }
    }

    /// Whether `dashboard_id` holds any request.
    pub fn is_running(&self, dashboard_id: DashboardId) -> (r: bool)
        ensures
            r == exists|i: int| 0 <= i < self.view().len() && #[trigger] self.view()[i].1.contains(
                dashboard_id,
            ),
    {
        let mut i: usize = 0;
        while i < self.active.len()
            invariant
                i <= self.active@.len(),
                forall|j: int| 0 <= j < i ==> !#[trigger] self.view()[j].1.contains(dashboard_id),
            decreases self.active.len() - i,
        {
            assert(self.view()[i as int] == self.active@[i as int].view());
            if contains_id(&self.active[i].dashboards, dashboard_id) {
                assert(self.view()[i as int].1.contains(dashboard_id));
                return true;
            }
            i = i + 1;
        }
        false
    }

    /// The dashboards subscribed to a capability, at whatever rates.
    pub fn holders(&self, backend_id: u8, capability_id: u8) -> (r: Vec<DashboardId>)
        ensures
            r@ == holders_of(self.view(), backend_id, capability_id),
            table_ok(self.view()) ==> r@.no_duplicates(),
    {
        proof {
            if table_ok(self.view()) {
                lemma_holders_listed_once(self.view(), backend_id, capability_id);
            }
        }
        let mut out: Vec<DashboardId> = Vec::new();
        let mut i: usize = 0;
        while i < self.active.len()
            invariant
                i <= self.active@.len(),
                out@ == holders_of(self.view().take(i as int), backend_id, capability_id),
            decreases self.active.len() - i,
        {
            proof {
                assert(self.view().take(i + 1).drop_last() =~= self.view().take(i as int));
                assert(self.view()[i as int] == self.active@[i as int].view());
            }
            let k = self.active[i].key;
            if k.backend_id == backend_id && k.capability_id == capability_id {
                let ds = &self.active[i].dashboards;
                let ghost before = out@;
                let mut j: usize = 0;
                while j < ds.len()
                    invariant
                        j <= ds@.len(),
                        out@ == before + ds@.take(j as int),
                    decreases ds.len() - j,
                {
                    out.push(ds[j]);
                    j = j + 1;
                    assert(out@ =~= before + ds@.take(j as int));
                }
                assert(ds@.take(ds.len() as int) =~= ds@);
            }
            i = i + 1;
        }
        assert(self.view().take(self.active.len() as int) =~= self.view());
        out
    }

    /// Index of the first session of a capability that `id` holds.
    fn subscription_index(&self, id: DashboardId, backend_id: u8, capability_id: u8) -> (r: usize)
        ensures
            r == subscription_pos(self.view(), id, backend_id, capability_id),
    {
        let ghost p = |s: SessionView<V>|
            same_capability(s.0, backend_id, capability_id) && s.1.contains(id);
        let mut i: usize = 0;
        while i < self.active.len()
            invariant
                i <= self.active@.len(),
                p == (|s: SessionView<V>|
                    same_capability(s.0, backend_id, capability_id) && s.1.contains(id)),
                forall|j: int| 0 <= j < i ==> !p(#[trigger] self.view()[j]),
            decreases self.active.len() - i,
        {
            assert(self.view()[i as int] == self.active@[i as int].view());
            let k = self.active[i].key;
            if k.backend_id == backend_id && k.capability_id == capability_id && contains_id(
                &self.active[i].dashboards,
                id,
            ) {
                proof {
                    lemma_first_index_is(self.view(), p, i as int);
                }
                return i;
            }
            i = i + 1;
        }
        proof {
            lemma_first_index_is(self.view(), p, i as int);
        }
        i
    }

    /// What to do for one rate of an edited, running dashboard.
    pub fn join_plan(&self, dashboard_id: DashboardId, rate: &CapabilityRate) -> (r: JoinPlan)
        ensures
            ({
                let v = self.view();
                if subscription_pos(v, dashboard_id, rate.backend_id, rate.capability_id)
                    < v.len() {
                    r is Subscribed
                } else if conflicts(v, *rate) {
                    r matches JoinPlan::Conflict(t) && t@ == busy_message(
                        rate.backend_id,
                        rate.capability_id,
                        live_rate(v, rate.backend_id, rate.capability_id)->0,
                    )
                } else if session_pos(v, *rate) == v.len() {
                    r is Start
                } else {
                    r is Join
                }
            }),
    {
        if self.subscription_index(dashboard_id, rate.backend_id, rate.capability_id)
            < self.active.len() {
            return JoinPlan::Subscribed;
        }
        if let Some(live) = self.live_rate(rate.backend_id, rate.capability_id) {
            if live.sampling_rate_ms != rate.sampling_rate_ms || live.streaming_rate_ms
                != rate.streaming_rate_ms {
                return JoinPlan::Conflict(busy_text(rate.backend_id, rate.capability_id, &live));
            }
        }
        if self.needs_start(rate) {
            JoinPlan::Start
        } else {
            JoinPlan::Join
        }
    }
}

fn contains_id(ids: &Vec<DashboardId>, id: DashboardId) -> (r: bool)
    ensures
        r == ids@.contains(id),
{
    let mut i: usize = 0;
    while i < ids.len()
        invariant
            i <= ids@.len(),
            forall|k: int| 0 <= k < i ==> ids@[k] != id,
        decreases ids.len() - i,
    {
        if ids[i] == id {
            return true;
        }
        i = i + 1;
    }
    false
}

fn busy_text(backend_id: u8, capability_id: u8, live: &CapabilityRate) -> (r: String)
    ensures
        r@ == busy_message(backend_id, capability_id, *live),
{
    let mut s = String::new();
    push_str(&mut s, "backend ");
    push_decimal(&mut s, backend_id as u64);
    push_str(&mut s, " capability ");
    push_decimal(&mut s, capability_id as u64);
    push_str(&mut s, " is already streaming at sample ");
    push_decimal(&mut s, live.sampling_rate_ms as u64);
    push_str(&mut s, " ms / stream ");
    push_decimal(&mut s, live.streaming_rate_ms as u64);
    push_str(&mut s, " ms");
    s
}

/// What `revisit` did with one request an edited, running dashboard holds.
pub enum Revisit {
    /// The dashboard no longer sets a rate for the capability and left the
    /// request; when `idle`, no dashboard holds it any more: stop it, then
    /// `remove_session`.
    Left { idle: bool },
    /// The dashboard keeps the request and its rings follow the edit; the
    /// text, if any, tells why a changed rate does not take effect yet.
    Kept(Option<String>),
}

/// The request `key` has no subscriber left once `id` leaves it.
pub open spec fn idle_after<V>(v: Seq<SessionView<V>>, key: CapabilityRate, id: DashboardId) -> bool {
    let i = session_pos(v, key);
    i < v.len() && without_id(v[i].1, id).len() == 0
}

impl<V> SessionTable<V> {
    /// Index of the session with rate `rate`, adding an empty one at the end
    /// when there is none.
    fn open_session(&mut self, rate: &CapabilityRate) -> (i: usize)
        ensures
            final(self).view() == with_session(old(self).view(), *rate),
            i == session_pos(final(self).view(), *rate),
            i < final(self).view().len(),
    {
        let ghost v0 = self.view();
        let ghost p = |s: SessionView<V>| has_key(s, *rate);
        let i = self.find_key(rate);
        proof {
            lemma_first_index(v0, p);
        }
        if i == self.active.len() {
            self.active.push(
                Session { key: SessionKey::from_rate(rate), dashboards: Vec::new(), rings: Vec::new() },
            );
            proof {
                let fresh: SessionView<V> = (*rate, Seq::empty(), Seq::empty());
                assert(slots_view(Seq::<RingSlot<V>>::empty()) =~= Seq::<RingView<V>>::empty());
                assert(self.view() =~= v0.push(fresh));
                assert forall|j: int| 0 <= j < i implies !p(#[trigger] self.view()[j]) by {
                    assert(self.view()[j] == v0[j]);
                }
                lemma_first_index_is(self.view(), p, i as int);
            }
        }
        i
    }

    /// Subscribes `dashboard` to the running request for `rate`, adding the
    /// request to the table if it is new, and gives each of its graphs on that
    /// capability a ring.
    pub fn attach(&mut self, dashboard: &Dashboard, rate: &CapabilityRate)
        ensures
            final(self).view() == attached(old(self).view(), *dashboard, *rate),
            table_ok(old(self).view()) && !conflicts(old(self).view(), *rate) ==> table_ok(
                final(self).view(),
            ),
    {
        proof {
            if table_ok(self.view()) && !conflicts(self.view(), *rate) {
                lemma_attach_keeps_table_ok(self.view(), *dashboard, *rate);
            }
        }
        let i = self.open_session(rate);
        let ghost v1 = self.view();
        proof {
            lemma_first_index(v1, |s: SessionView<V>| has_key(s, *rate));
        }
        let mut s = self.active.remove(i);
        assert(s.view() == v1[i as int]);
        let key = s.key;
        subscribe_id(&mut s.dashboards, dashboard.id);
        add_missing_rings(&mut s.rings, dashboard.id, &dashboard.graphs, key);
        self.active.insert(i, s);
        assert(self.view() =~= attached(old(self).view(), *dashboard, *rate));
    }

    /// Subscribes an edited, running `dashboard` to the request for `rate`;
    /// its rings on that capability follow the edited graphs.
    pub fn join(&mut self, dashboard: &Dashboard, rate: &CapabilityRate)
        ensures
            final(self).view() == joined(old(self).view(), *dashboard, *rate),
            table_ok(old(self).view()) && !conflicts(old(self).view(), *rate) ==> table_ok(
                final(self).view(),
            ),
    {
        proof {
            if table_ok(self.view()) && !conflicts(self.view(), *rate) {
                lemma_join_keeps_table_ok(self.view(), *dashboard, *rate);
            }
        }
        let i = self.open_session(rate);
        let ghost v1 = self.view();
        proof {
            lemma_first_index(v1, |s: SessionView<V>| has_key(s, *rate));
        }
        let mut s = self.active.remove(i);
        assert(s.view() == v1[i as int]);
        let key = s.key;
        subscribe_id(&mut s.dashboards, dashboard.id);
        sync_slot_rings(&mut s.rings, dashboard.id, &dashboard.graphs, key);
        self.active.insert(i, s);
        assert(self.view() =~= joined(old(self).view(), *dashboard, *rate));
    }

    /// Takes `id` off the request `key` and drops its rings there. Returns
    /// whether the request is left without subscribers: the caller then stops
    /// it and calls `remove_session`.
    pub fn detach(&mut self, key: &CapabilityRate, id: DashboardId) -> (idle: bool)
        ensures
            final(self).view() == detached(old(self).view(), *key, id),
            idle == idle_after(old(self).view(), *key, id),
            table_ok(old(self).view()) ==> table_ok(final(self).view()),
    {
        proof {
            if table_ok(self.view()) {
                lemma_detach_keeps_table_ok(self.view(), *key, id);
            }
        }
        let i = self.find_key(key);
        if i == self.active.len() {
            return false;
        }
        let ghost v0 = self.view();
        let mut s = self.active.remove(i);
        assert(s.view() == v0[i as int]);
        drop_id(&mut s.dashboards, id);
        drop_rings_of(&mut s.rings, id);
        let idle = s.dashboards.len() == 0;
        self.active.insert(i, s);
        assert(self.view() =~= detached(v0, *key, id));
        idle
    }

    /// Forgets the request `key`.
    pub fn remove_session(&mut self, key: &CapabilityRate)
        ensures
            final(self).view() == removed(old(self).view(), *key),
            table_ok(old(self).view()) ==> table_ok(final(self).view()),
    {
        proof {
            if table_ok(self.view()) {
                lemma_remove_keeps_table_ok(self.view(), *key);
            }
        }
        let i = self.find_key(key);
        if i < self.active.len() {
            let ghost v0 = self.view();
            let _ = self.active.remove(i);
            assert(self.view() =~= v0.remove(i as int));
        }
    }

    /// Lets the rings of request `key` follow an edit of `dashboard`, which
    /// still sets a rate for its capability. Returns the note to show when
    /// that rate differs from the running one while other dashboards share
    /// the request.
    pub fn keep_subscription(&mut self, key: &CapabilityRate, dashboard: &Dashboard) -> (r: Option<String>)
        ensures
            final(self).view() == resynced(old(self).view(), *key, *dashboard),
            match r {
                Some(t) => reconcile_note(old(self).view(), *key, *dashboard) == Some(t@),
                None => reconcile_note(old(self).view(), *key, *dashboard) is None,
            },
            table_ok(old(self).view()) && (session_pos(old(self).view(), *key) < old(self).view().len()
                ==> old(self).view()[session_pos(old(self).view(), *key)].1.contains(dashboard.id))
                ==> table_ok(final(self).view()),
    {
        proof {
            if table_ok(self.view()) && (session_pos(self.view(), *key) < self.view().len()
                ==> self.view()[session_pos(self.view(), *key)].1.contains(dashboard.id)) {
                lemma_resync_keeps_table_ok(self.view(), *key, *dashboard);
            }
        }
        let same = match dashboard.rate(key.backend_id, key.capability_id) {
            Some(r) => r.sampling_rate_ms == key.sampling_rate_ms && r.streaming_rate_ms == key.streaming_rate_ms,
            None => false,
        };
        let i = self.find_key(key);
        if i == self.active.len() {
            return None;
        }
        let ghost v0 = self.view();
        assert(v0[i as int] == self.active@[i as int].view());
        let others = has_other(&self.active[i].dashboards, dashboard.id);
        let note = if !same && others {
            Some(stays_text(key))
        } else {
            None
        };
        proof {
            lemma_first_index(v0, |s: SessionView<V>| has_key(s, *key));
        }
        let mut s = self.active.remove(i);
        assert(s.view() == v0[i as int]);
        let skey = s.key;
        sync_slot_rings(&mut s.rings, dashboard.id, &dashboard.graphs, skey);
        self.active.insert(i, s);
        assert(self.view() =~= resynced(v0, *key, *dashboard));
        note
    }

    /// Handles one request that an edited, running `dashboard` holds: leaves
    /// it when the dashboard no longer sets a rate for its capability, else
    /// keeps it (see `keep_subscription`).
    pub fn revisit(&mut self, key: &CapabilityRate, dashboard: &Dashboard) -> (r: Revisit)
        ensures
            match rate_for(dashboard.rates@, key.backend_id, key.capability_id) {
                None => final(self).view() == detached(old(self).view(), *key, dashboard.id)
                    && r == (Revisit::Left { idle: idle_after(old(self).view(), *key, dashboard.id) }),
                Some(_) => final(self).view() == resynced(old(self).view(), *key, *dashboard)
                    && (r matches Revisit::Kept(n) && match n {
                        Some(t) => reconcile_note(old(self).view(), *key, *dashboard) == Some(t@),
                        None => reconcile_note(old(self).view(), *key, *dashboard) is None,
                    }),
            },
            table_ok(old(self).view()) && (session_pos(old(self).view(), *key) < old(self).view().len()
                ==> old(self).view()[session_pos(old(self).view(), *key)].1.contains(dashboard.id))
                ==> table_ok(final(self).view()),
    {
        match dashboard.rate(key.backend_id, key.capability_id) {
            None => {
                let idle = self.detach(key, dashboard.id);
                Revisit::Left { idle }
            },
            Some(_) => Revisit::Kept(self.keep_subscription(key, dashboard)),
        }
    }
}

fn has_other(ids: &Vec<DashboardId>, id: DashboardId) -> (r: bool)
    ensures
        r == exists|k: int| 0 <= k < ids@.len() && #[trigger] ids@[k] != id,
{
    let mut i: usize = 0;
    while i < ids.len()
        invariant
            i <= ids@.len(),
            forall|k: int| 0 <= k < i ==> ids@[k] == id,
        decreases ids.len() - i,
    {
        if ids[i] != id {
            assert(ids@[i as int] != id);
            return true;
        }
        i = i + 1;
    }
    false
}

fn stays_text(key: &CapabilityRate) -> (r: String)
    ensures
        r@ == stays_message(*key),
{
    let mut s = String::new();
    push_str(&mut s, "backend ");
    push_decimal(&mut s, key.backend_id as u64);
    push_str(&mut s, " capability ");
    push_decimal(&mut s, key.capability_id as u64);
    push_str(&mut s, " stays at sample ");
    push_decimal(&mut s, key.sampling_rate_ms as u64);
    push_str(&mut s, " ms / stream ");
    push_decimal(&mut s, key.streaming_rate_ms as u64);
    push_str(&mut s, " ms until every dashboard stops it");
    s
}

impl<V: Copy> SessionTable<V> {
    fn ingest_sample(&mut self, sample: &Sample<V>)
        ensures
            final(self).view() == ingest_one(old(self).view(), *sample),
    {
        let i = self.capability_index(sample.backend_id, sample.capability_id);
        if i < self.active.len() {
            let ghost v0 = self.view();
            let mut s = self.active.remove(i);
            assert(s.view() == v0[i as int]);
            feed_rings(&mut s.rings, sample);
            self.active.insert(i, s);
            assert(self.view() =~= ingest_one(v0, *sample));
        }
    }

    /// Hands each sample, in order, to the rings of its metric in the first
    /// request of its capability. Samples of capabilities without a request
    /// are dropped.
    pub fn ingest(&mut self, samples: &[Sample<V>])
        ensures
            final(self).view() == ingested(old(self).view(), samples@),
            table_ok(old(self).view()) ==> table_ok(final(self).view()),
    {
        proof {
            if table_ok(self.view()) {
                lemma_ingest_keeps_table_ok(self.view(), samples@);
            }
        }
        let ghost v0 = self.view();
        let mut n: usize = 0;
        while n < samples.len()
            invariant
                n <= samples@.len(),
                self.view() == ingested(v0, samples@.take(n as int)),
            decreases samples.len() - n,
        {
            proof {
                assert(samples@.take(n + 1).drop_last() =~= samples@.take(n as int));
                assert(samples@.take(n + 1).last() == samples@[n as int]);
            }
            self.ingest_sample(&samples[n]);
            n = n + 1;
        }
        assert(samples@.take(samples.len() as int) =~= samples@);
    }

    /// The points of the ring of `dashboard_id` and `metric_id`, oldest
    /// first; empty when there is no such ring.
    pub fn points(&self, dashboard_id: DashboardId, metric_id: u16) -> (r: Vec<(u64, V)>)
        ensures
            r@ == match ring_of(self.view(), dashboard_id, metric_id) {
                Some(rv) => rv.4,
                None => Seq::empty(),
            },
    {
        match self.ring(dashboard_id, metric_id) {
            Some(ring) => {
                let pts = ring.points();
                let mut out: Vec<(u64, V)> = Vec::new();
                let mut k: usize = 0;
                while k < pts.len()
                    invariant
                        k <= pts@.len(),
                        out@ == pts@.take(k as int),
                    decreases pts.len() - k,
                {
                    out.push(pts[k]);
                    k = k + 1;
                    assert(out@ =~= pts@.take(k as int));
                }
                assert(pts@.take(pts@.len() as int) =~= pts@);
                out
            },
            None => Vec::new(),
        }
    }
}

impl<V> SessionTable<V> {
    /// The ring of `dashboard_id` and `metric_id`: in the first request that
    /// has one, its first such ring.
    pub fn ring(&self, dashboard_id: DashboardId, metric_id: u16) -> (r: Option<&SampleRing<V>>)
        ensures
            match ring_of(self.view(), dashboard_id, metric_id) {
                Some(rv) => r matches Some(ring) && rv == (
                    dashboard_id,
                    metric_id,
                    ring.spec_window(),
                    ring.spec_stream_period(),
                    ring.spec_points(),
                ),
                None => r is None,
            },
    {
        let ghost p = |s: SessionView<V>| slot_pos(s.2, dashboard_id, metric_id) < s.2.len();
        let mut i: usize = 0;
        while i < self.active.len()
            invariant
                i <= self.active@.len(),
                p == (|s: SessionView<V>| slot_pos(s.2, dashboard_id, metric_id) < s.2.len()),
                forall|j: int| 0 <= j < i ==> !p(#[trigger] self.view()[j]),
            decreases self.active.len() - i,
        {
            assert(self.view()[i as int] == self.active@[i as int].view());
            let k = find_slot(&self.active[i].rings, dashboard_id, metric_id);
            if k < self.active[i].rings.len() {
                proof {
                    lemma_first_index_is(self.view(), p, i as int);
                    let sv = slots_view(self.active@[i as int].rings@);
                    lemma_first_index(sv, |s: RingView<V>| is_slot(s, dashboard_id, metric_id));
                    assert(sv[k as int] == self.active@[i as int].rings@[k as int].view());
                }
                return Some(&self.active[i].rings[k].ring);
            }
            i = i + 1;
        }
        proof {
            lemma_first_index_is(self.view(), p, i as int);
        }
        None
    }
}

} // verus!
