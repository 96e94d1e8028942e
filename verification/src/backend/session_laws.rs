//! What the session table keeps true from one operation to the next, and
//! what its operations promise of each other.
use vstd::prelude::*;

use crate::backend::session::{
    add_rings, apply_windows, attached, capability_session_pos, conflicts, detached, draws_from,
    feed, fed_with, fresh_ring, has_key, has_slot, holders_of, idle_after, ingest_one, ingested,
    is_slot, joined, reconcile_note, stays_message, subscription_pos, wants_metric,
    keep_rings, live_rate, other_than, removed, resynced, retarget, ring_of_other, ring_stays,
    rings_without, same_capability, session_pos, slot_pos, subscribe, synced, with_session,
    without_id, RingView, SessionView,
};
use crate::model::dashboard::{rate_for, Dashboard, DashboardId};
use crate::model::graph::{CapabilityRate, GraphSpec};
use crate::model::sample::{lemma_trim_points, spec_ring_capacity, Sample};
use crate::seqs::{
    keep_where, lemma_first_index, lemma_first_index_is, lemma_keep_where, lemma_keep_where_all,
    lemma_keep_where_distinct, lemma_keep_where_push,
};

verus! {

/// No two requests are for the same capability.
pub open spec fn one_per_capability<V>(v: Seq<SessionView<V>>) -> bool {
    forall|i: int, j: int|
        #![trigger v[i], v[j]]
        0 <= i < j < v.len() ==> !same_capability(v[i].0, v[j].0.backend_id, v[j].0.capability_id)
}

/// The dashboard and metric a ring is kept for.
pub open spec fn ring_owner<V>(r: RingView<V>) -> (DashboardId, u16) {
    (r.0, r.1)
}

/// A ring of a request that streams every `period` milliseconds, with
/// subscribers `ids`: it belongs to one of them, runs at that period and
/// holds no more points than its capacity.
pub open spec fn ring_ok<V>(r: RingView<V>, ids: Seq<DashboardId>, period: u64) -> bool {
    &&& ids.contains(r.0)
    &&& r.3 == period
    &&& r.4.len() <= spec_ring_capacity(r.2, r.3)
}

/// Every ring is sound and no two rings are kept for the same dashboard and
/// metric.
pub open spec fn slots_ok<V>(slots: Seq<RingView<V>>, ids: Seq<DashboardId>, period: u64) -> bool {
    &&& forall|k: int| 0 <= k < slots.len() ==> ring_ok(#[trigger] slots[k], ids, period)
    &&& forall|a: int, b: int|
        #![trigger slots[a], slots[b]]
        0 <= a < b < slots.len() ==> ring_owner(slots[a]) != ring_owner(slots[b])
}

/// A request lists each subscriber once and its rings are sound.
pub open spec fn session_ok<V>(s: SessionView<V>) -> bool {
    &&& s.1.no_duplicates()
    &&& slots_ok(s.2, s.1, s.0.streaming_rate_ms as u64)
}

/// The table's invariant.
pub open spec fn table_ok<V>(v: Seq<SessionView<V>>) -> bool {
    &&& one_per_capability(v)
    &&& forall|i: int| 0 <= i < v.len() ==> session_ok(#[trigger] v[i])
}

proof fn lemma_capacity_positive(window: u64, period: u64)
    ensures
        spec_ring_capacity(window, period) >= 1,
{
}

proof fn lemma_slots_more_ids<V>(
    slots: Seq<RingView<V>>,
    ids: Seq<DashboardId>,
    more: Seq<DashboardId>,
    period: u64,
)
    requires
        slots_ok(slots, ids, period),
        forall|x: DashboardId| ids.contains(x) ==> more.contains(x),
    ensures
        slots_ok(slots, more, period),
{
    assert forall|k: int| 0 <= k < slots.len() implies ring_ok(#[trigger] slots[k], more, period) by {
        assert(ring_ok(slots[k], ids, period));
    }
}

proof fn lemma_subscribe<V>(ids: Seq<DashboardId>, id: DashboardId)
    requires
        ids.no_duplicates(),
    ensures
        subscribe(ids, id).no_duplicates(),
        subscribe(ids, id).contains(id),
        forall|x: DashboardId| ids.contains(x) ==> subscribe(ids, id).contains(x),
{
    let r = subscribe(ids, id);
    if !ids.contains(id) {
        assert(r[ids.len() as int] == id);
        assert forall|x: DashboardId| ids.contains(x) implies r.contains(x) by {
            let k = choose|k: int| 0 <= k < ids.len() && ids[k] == x;
            assert(r[k] == x);
        }
    }
}

proof fn lemma_add_rings_ok<V>(
    slots: Seq<RingView<V>>,
    ids: Seq<DashboardId>,
    id: DashboardId,
    graphs: Seq<GraphSpec>,
    key: CapabilityRate,
)
    requires
        slots_ok(slots, ids, key.streaming_rate_ms as u64),
        ids.contains(id),
    ensures
        slots_ok(add_rings(slots, id, graphs, key), ids, key.streaming_rate_ms as u64),
    decreases graphs.len(),
{
    if graphs.len() > 0 {
        let prev = add_rings(slots, id, graphs.drop_last(), key);
        lemma_add_rings_ok(slots, ids, id, graphs.drop_last(), key);
        let g = graphs.last();
        if draws_from(g, key) && !has_slot(prev, id, g.metric_id) {
            lemma_first_index(prev, |s: RingView<V>| is_slot(s, id, g.metric_id));
            let r = prev.push(fresh_ring(id, g, key));
            assert forall|k: int| 0 <= k < r.len() implies ring_ok(
                #[trigger] r[k],
                ids,
                key.streaming_rate_ms as u64,
            ) by {
                if k < prev.len() {
                    assert(r[k] == prev[k]);
                }
            }
            assert forall|a: int, b: int| #![trigger r[a], r[b]] 0 <= a < b < r.len() implies ring_owner(
                r[a],
            ) != ring_owner(r[b]) by {
                assert(r[a] == prev[a]);
                if b < prev.len() {
                    assert(r[b] == prev[b]);
                } else {
                    assert(!is_slot(prev[a], id, g.metric_id));
                }
            }
        }
    }
}

proof fn lemma_keep_rings_ok<V>(
    slots: Seq<RingView<V>>,
    ids: Seq<DashboardId>,
    period: u64,
    id: DashboardId,
    graphs: Seq<GraphSpec>,
    key: CapabilityRate,
)
    requires
        slots_ok(slots, ids, period),
    ensures
        slots_ok(keep_rings(slots, id, graphs, key), ids, period),
{
    let p = ring_stays::<V>(id, graphs, key);
    let r = keep_where(slots, p);
    lemma_keep_where(slots, p);
    lemma_keep_where_distinct(slots, p, |x: RingView<V>| ring_owner(x));
    assert forall|k: int| 0 <= k < r.len() implies ring_ok(#[trigger] r[k], ids, period) by {
        assert(slots.contains(r[k]));
        let j = choose|j: int| 0 <= j < slots.len() && slots[j] == r[k];
        assert(ring_ok(slots[j], ids, period));
    }
}

proof fn lemma_apply_windows_ok<V>(
    slots: Seq<RingView<V>>,
    ids: Seq<DashboardId>,
    id: DashboardId,
    graphs: Seq<GraphSpec>,
    key: CapabilityRate,
)
    requires
        slots_ok(slots, ids, key.streaming_rate_ms as u64),
        ids.contains(id),
    ensures
        slots_ok(apply_windows(slots, id, graphs, key), ids, key.streaming_rate_ms as u64),
    decreases graphs.len(),
{
    let period = key.streaming_rate_ms as u64;
    if graphs.len() > 0 {
        let prev = apply_windows(slots, id, graphs.drop_last(), key);
        lemma_apply_windows_ok(slots, ids, id, graphs.drop_last(), key);
        let g = graphs.last();
        if draws_from(g, key) {
            let k = slot_pos(prev, id, g.metric_id);
            lemma_first_index(prev, |s: RingView<V>| is_slot(s, id, g.metric_id));
            if k < prev.len() {
                let r = prev.update(k, retarget(prev[k], g.window));
                lemma_capacity_positive(g.window, prev[k].3);
                lemma_trim_points(prev[k].4, spec_ring_capacity(g.window, prev[k].3), g.window);
                assert(ring_ok(prev[k], ids, period));
                assert forall|j: int| 0 <= j < r.len() implies ring_ok(#[trigger] r[j], ids, period) by {
                    if j != k {
                        assert(r[j] == prev[j]);
                    }
                }
                assert forall|a: int, b: int| #![trigger r[a], r[b]] 0 <= a < b < r.len() implies ring_owner(
                    r[a],
                ) != ring_owner(r[b]) by {
                    assert(ring_owner(r[a]) == ring_owner(prev[a]));
                    assert(ring_owner(r[b]) == ring_owner(prev[b]));
                }
            } else {
                let r = prev.push(fresh_ring(id, g, key));
                assert forall|j: int| 0 <= j < r.len() implies ring_ok(#[trigger] r[j], ids, period) by {
                    if j < prev.len() {
                        assert(r[j] == prev[j]);
                    }
                }
                assert forall|a: int, b: int| #![trigger r[a], r[b]] 0 <= a < b < r.len() implies ring_owner(
                    r[a],
                ) != ring_owner(r[b]) by {
                    assert(r[a] == prev[a]);
                    if b < prev.len() {
                        assert(r[b] == prev[b]);
                    } else {
                        assert(!is_slot(prev[a], id, g.metric_id));
                    }
                }
            }
        }
    }
}

proof fn lemma_synced_ok<V>(
    slots: Seq<RingView<V>>,
    ids: Seq<DashboardId>,
    id: DashboardId,
    graphs: Seq<GraphSpec>,
    key: CapabilityRate,
)
    requires
        slots_ok(slots, ids, key.streaming_rate_ms as u64),
        ids.contains(id),
    ensures
        slots_ok(synced(slots, id, graphs, key), ids, key.streaming_rate_ms as u64),
{
    lemma_keep_rings_ok(slots, ids, key.streaming_rate_ms as u64, id, graphs, key);
    lemma_apply_windows_ok(keep_rings(slots, id, graphs, key), ids, id, graphs, key);
}

/// Where `with_session` puts the request for `rate`.
proof fn lemma_with_session<V>(v: Seq<SessionView<V>>, rate: CapabilityRate)
    ensures
        0 <= session_pos(with_session(v, rate), rate) < with_session(v, rate).len(),
        with_session(v, rate)[session_pos(with_session(v, rate), rate)].0 == rate,
        session_pos(v, rate) < v.len() ==> with_session(v, rate) == v,
        session_pos(v, rate) == v.len() ==> with_session(v, rate) == v.push(
            (rate, Seq::<DashboardId>::empty(), Seq::<RingView<V>>::empty()),
        ) && session_pos(with_session(v, rate), rate) == v.len(),
{
    let p = |s: SessionView<V>| has_key(s, rate);
    lemma_first_index(v, p);
    if session_pos(v, rate) == v.len() {
        let fresh: SessionView<V> = (rate, Seq::empty(), Seq::empty());
        let v1 = v.push(fresh);
        assert forall|j: int| 0 <= j < v.len() implies !p(#[trigger] v1[j]) by {
            assert(v1[j] == v[j]);
        }
        lemma_first_index_is(v1, p, v.len() as int);
    }
}

/// Adding the request for `rate` keeps the table sound when `rate` does not
/// conflict.
proof fn lemma_with_session_ok<V>(v: Seq<SessionView<V>>, rate: CapabilityRate)
    requires
        table_ok(v),
        !conflicts(v, rate),
    ensures
        table_ok(with_session(v, rate)),
        0 <= session_pos(with_session(v, rate), rate) < with_session(v, rate).len(),
        with_session(v, rate)[session_pos(with_session(v, rate), rate)].0 == rate,
{
    lemma_with_session(v, rate);
    lemma_first_index(v, |s: SessionView<V>| has_key(s, rate));
    if session_pos(v, rate) == v.len() {
        let c = capability_session_pos(v, rate.backend_id, rate.capability_id);
        lemma_first_index(
            v,
            |s: SessionView<V>| same_capability(s.0, rate.backend_id, rate.capability_id),
        );
        if c < v.len() {
            assert(live_rate(v, rate.backend_id, rate.capability_id) == Some(v[c].0));
            assert(v[c].0 == rate);
            assert(!has_key(v[c], rate));
        }
        let fresh: SessionView<V> = (rate, Seq::empty(), Seq::empty());
        let v1 = v.push(fresh);
        assert forall|i: int, j: int| #![trigger v1[i], v1[j]] 0 <= i < j < v1.len() implies !same_capability(
            v1[i].0,
            v1[j].0.backend_id,
            v1[j].0.capability_id,
        ) by {
            assert(v1[i] == v[i]);
            if j < v.len() {
                assert(v1[j] == v[j]);
            }
        }
        assert forall|i: int| 0 <= i < v1.len() implies session_ok(#[trigger] v1[i]) by {
            if i < v.len() {
                assert(v1[i] == v[i]);
            }
        }
    }
}

/// Replacing request `j` by one with the same rate keeps the position of
/// every rate.
proof fn lemma_update_keeps_pos<V>(v: Seq<SessionView<V>>, j: int, s: SessionView<V>, key: CapabilityRate)
    requires
        0 <= j < v.len(),
        s.0 == v[j].0,
    ensures
        session_pos(v.update(j, s), key) == session_pos(v, key),
{
    let w = v.update(j, s);
    let p = |t: SessionView<V>| has_key(t, key);
    lemma_first_index(v, p);
    let i = session_pos(v, key);
    assert forall|k: int| 0 <= k < i implies !p(#[trigger] w[k]) by {
        assert(w[k].0 == v[k].0);
    }
    if i < v.len() {
        assert(w[i].0 == v[i].0);
    }
    lemma_first_index_is(w, p, i);
}

/// Replacing request `j` by one with the same rate keeps one request per
/// capability.
proof fn lemma_update_same_key<V>(v: Seq<SessionView<V>>, j: int, s: SessionView<V>, key: CapabilityRate)
    requires
        0 <= j < v.len(),
        s.0 == v[j].0,
        one_per_capability(v),
        session_pos(v, key) == j,
    ensures
        one_per_capability(v.update(j, s)),
        session_pos(v.update(j, s), key) == j,
{
    let w = v.update(j, s);
    assert forall|a: int, b: int| #![trigger w[a], w[b]] 0 <= a < b < w.len() implies !same_capability(
        w[a].0,
        w[b].0.backend_id,
        w[b].0.capability_id,
    ) by {
        assert(w[a].0 == v[a].0);
        assert(w[b].0 == v[b].0);
        assert(!same_capability(v[a].0, v[b].0.backend_id, v[b].0.capability_id));
    }
    lemma_update_keeps_pos(v, j, s, key);
}

/// Starting a dashboard on a rate that does not conflict keeps the table
/// sound: still one request per capability, each subscriber listed once, and
/// every ring kept for one subscribed dashboard and metric, at its request's
/// period, within its capacity.
pub proof fn lemma_attach_keeps_table_ok<V>(v: Seq<SessionView<V>>, dashboard: Dashboard, rate: CapabilityRate)
    requires
        table_ok(v),
        !conflicts(v, rate),
    ensures
        table_ok(attached(v, dashboard, rate)),
{
    lemma_with_session_ok(v, rate);
    let v1 = with_session(v, rate);
    let j = session_pos(v1, rate);
    let s = v1[j];
    assert(session_ok(s));
    lemma_subscribe::<V>(s.1, dashboard.id);
    let ids = subscribe(s.1, dashboard.id);
    lemma_slots_more_ids(s.2, s.1, ids, rate.streaming_rate_ms as u64);
    lemma_add_rings_ok(s.2, ids, dashboard.id, dashboard.graphs@, rate);
    let ns = (s.0, ids, add_rings(s.2, dashboard.id, dashboard.graphs@, rate));
    lemma_update_same_key(v1, j, ns, rate);
    let w = v1.update(j, ns);
    assert(w == attached(v, dashboard, rate));
    assert forall|i: int| 0 <= i < w.len() implies session_ok(#[trigger] w[i]) by {
        if i != j {
            assert(w[i] == v1[i]);
        }
    }
}

/// Joining a rate from an edited dashboard, when the rate does not conflict,
/// keeps the table sound.
pub proof fn lemma_join_keeps_table_ok<V>(v: Seq<SessionView<V>>, dashboard: Dashboard, rate: CapabilityRate)
    requires
        table_ok(v),
        !conflicts(v, rate),
    ensures
        table_ok(joined(v, dashboard, rate)),
{
    lemma_with_session_ok(v, rate);
    let v1 = with_session(v, rate);
    let j = session_pos(v1, rate);
    let s = v1[j];
    assert(session_ok(s));
    lemma_subscribe::<V>(s.1, dashboard.id);
    let ids = subscribe(s.1, dashboard.id);
    lemma_slots_more_ids(s.2, s.1, ids, rate.streaming_rate_ms as u64);
    lemma_synced_ok(s.2, ids, dashboard.id, dashboard.graphs@, rate);
    let ns = (s.0, ids, synced(s.2, dashboard.id, dashboard.graphs@, rate));
    lemma_update_same_key(v1, j, ns, rate);
    let w = v1.update(j, ns);
    assert(w == joined(v, dashboard, rate));
    assert forall|i: int| 0 <= i < w.len() implies session_ok(#[trigger] w[i]) by {
        if i != j {
            assert(w[i] == v1[i]);
        }
    }
}

/// A new table is sound.
pub proof fn lemma_empty_table_ok<V>()
    ensures
        table_ok(Seq::<SessionView<V>>::empty()),
{
}

/// Leaving a request keeps the table sound.
pub proof fn lemma_detach_keeps_table_ok<V>(v: Seq<SessionView<V>>, key: CapabilityRate, id: DashboardId)
    requires
        table_ok(v),
    ensures
        table_ok(detached(v, key, id)),
{
    let i = session_pos(v, key);
    lemma_first_index(v, |t: SessionView<V>| has_key(t, key));
    if i < v.len() {
        let s = v[i];
        assert(session_ok(s));
        let period = s.0.streaming_rate_ms as u64;
        let ids = without_id(s.1, id);
        lemma_keep_where(s.1, other_than(id));
        lemma_keep_where_distinct(s.1, other_than(id), |x: DashboardId| x);
        assert forall|a: int, b: int| 0 <= a < ids.len() && 0 <= b < ids.len() && a != b implies ids[a]
            != ids[b] by {
            if a < b {
                assert((|x: DashboardId| x)(ids[a]) != (|x: DashboardId| x)(ids[b]));
            } else {
                assert((|x: DashboardId| x)(ids[b]) != (|x: DashboardId| x)(ids[a]));
            }
        }
        let rings = rings_without(s.2, id);
        lemma_keep_where(s.2, ring_of_other::<V>(id));
        lemma_keep_where_distinct(s.2, ring_of_other::<V>(id), |x: RingView<V>| ring_owner(x));
        assert forall|k: int| 0 <= k < rings.len() implies ring_ok(#[trigger] rings[k], ids, period) by {
            assert(s.2.contains(rings[k]));
            let j = choose|j: int| 0 <= j < s.2.len() && s.2[j] == rings[k];
            assert(ring_ok(s.2[j], s.1, period));
            let m = choose|m: int| 0 <= m < s.1.len() && s.1[m] == rings[k].0;
            assert(ring_of_other::<V>(id)(rings[k]));
            assert(other_than(id)(s.1[m]));
        }
        assert forall|a: int, b: int| #![trigger rings[a], rings[b]] 0 <= a < b < rings.len() implies ring_owner(
            rings[a],
        ) != ring_owner(rings[b]) by {
            assert((|x: RingView<V>| ring_owner(x))(rings[a]) != (|x: RingView<V>| ring_owner(x))(
                rings[b],
            ));
        }
        let ns = (s.0, ids, rings);
        assert(session_ok(ns));
        lemma_update_same_key(v, i, ns, key);
        let w = v.update(i, ns);
        assert(w == detached(v, key, id));
        assert forall|k: int| 0 <= k < w.len() implies session_ok(#[trigger] w[k]) by {
            if k != i {
                assert(w[k] == v[k]);
            }
        }
    }
}

/// Forgetting a request keeps the table sound.
pub proof fn lemma_remove_keeps_table_ok<V>(v: Seq<SessionView<V>>, key: CapabilityRate)
    requires
        table_ok(v),
    ensures
        table_ok(removed(v, key)),
{
    let i = session_pos(v, key);
    lemma_first_index(v, |t: SessionView<V>| has_key(t, key));
    if i < v.len() {
        let w = v.remove(i);
        assert forall|a: int, b: int| #![trigger w[a], w[b]] 0 <= a < b < w.len() implies !same_capability(
            w[a].0,
            w[b].0.backend_id,
            w[b].0.capability_id,
        ) by {
            let a0 = if a < i { a } else { a + 1 };
            let b0 = if b < i { b } else { b + 1 };
            assert(w[a] == v[a0]);
            assert(w[b] == v[b0]);
            assert(!same_capability(v[a0].0, v[b0].0.backend_id, v[b0].0.capability_id));
        }
        assert forall|k: int| 0 <= k < w.len() implies session_ok(#[trigger] w[k]) by {
            let k0 = if k < i { k } else { k + 1 };
            assert(w[k] == v[k0]);
        }
    }
}

proof fn lemma_feed_ok<V>(slots: Seq<RingView<V>>, ids: Seq<DashboardId>, period: u64, sample: Sample<V>)
    requires
        slots_ok(slots, ids, period),
    ensures
        slots_ok(slots.map_values(fed_with(sample)), ids, period),
{
    let r = slots.map_values(fed_with(sample));
    assert forall|k: int| 0 <= k < r.len() implies ring_ok(#[trigger] r[k], ids, period) by {
        assert(r[k] == feed(slots[k], sample));
        assert(ring_ok(slots[k], ids, period));
        let s = slots[k];
        if s.1 == sample.metric_id {
            lemma_capacity_positive(s.2, s.3);
            lemma_trim_points(s.4.push((sample.at, sample.value)), spec_ring_capacity(s.2, s.3), s.2);
        }
    }
    assert forall|a: int, b: int| #![trigger r[a], r[b]] 0 <= a < b < r.len() implies ring_owner(r[a])
        != ring_owner(r[b]) by {
        assert(r[a] == feed(slots[a], sample));
        assert(r[b] == feed(slots[b], sample));
    }
}

proof fn lemma_ingest_one_ok<V>(v: Seq<SessionView<V>>, sample: Sample<V>)
    requires
        table_ok(v),
    ensures
        table_ok(ingest_one(v, sample)),
{
    let i = capability_session_pos(v, sample.backend_id, sample.capability_id);
    lemma_first_index(
        v,
        |t: SessionView<V>| same_capability(t.0, sample.backend_id, sample.capability_id),
    );
    if i < v.len() {
        let s = v[i];
        assert(session_ok(s));
        lemma_feed_ok(s.2, s.1, s.0.streaming_rate_ms as u64, sample);
        let ns = (s.0, s.1, s.2.map_values(fed_with(sample)));
        let w = v.update(i, ns);
        assert(w == ingest_one(v, sample));
        assert forall|a: int, b: int| #![trigger w[a], w[b]] 0 <= a < b < w.len() implies !same_capability(
            w[a].0,
            w[b].0.backend_id,
            w[b].0.capability_id,
        ) by {
            assert(w[a].0 == v[a].0);
            assert(w[b].0 == v[b].0);
            assert(!same_capability(v[a].0, v[b].0.backend_id, v[b].0.capability_id));
        }
        assert forall|k: int| 0 <= k < w.len() implies session_ok(#[trigger] w[k]) by {
            if k != i {
                assert(w[k] == v[k]);
            }
        }
    }
}

/// Samples keep the table sound: every ring still holds no more points
/// than its capacity.
pub proof fn lemma_ingest_keeps_table_ok<V>(v: Seq<SessionView<V>>, samples: Seq<Sample<V>>)
    requires
        table_ok(v),
    ensures
        table_ok(ingested(v, samples)),
    decreases samples.len(),
{
    if samples.len() > 0 {
        lemma_ingest_keeps_table_ok(v, samples.drop_last());
        lemma_ingest_one_ok(ingested(v, samples.drop_last()), samples.last());
    }
}

/// Following an edit of a dashboard that holds request `key` keeps the table
/// sound.
pub proof fn lemma_resync_keeps_table_ok<V>(v: Seq<SessionView<V>>, key: CapabilityRate, dashboard: Dashboard)
    requires
        table_ok(v),
        session_pos(v, key) < v.len() ==> v[session_pos(v, key)].1.contains(dashboard.id),
    ensures
        table_ok(resynced(v, key, dashboard)),
{
    let i = session_pos(v, key);
    lemma_first_index(v, |t: SessionView<V>| has_key(t, key));
    if i < v.len() {
        let s = v[i];
        assert(session_ok(s));
        assert(s.0 == key);
        lemma_synced_ok(s.2, s.1, dashboard.id, dashboard.graphs@, key);
        let ns = (s.0, s.1, synced(s.2, dashboard.id, dashboard.graphs@, key));
        lemma_update_same_key(v, i, ns, key);
        let w = v.update(i, ns);
        assert(w == resynced(v, key, dashboard));
        assert forall|k: int| 0 <= k < w.len() implies session_ok(#[trigger] w[k]) by {
            if k != i {
                assert(w[k] == v[k]);
            }
        }
    }
}

/// Dashboards on the same capability and rates share one request: once a
/// dashboard has started on `rate`, the request for `rate` exists and lists
/// it, and starting on a rate whose request exists adds no request.
pub proof fn lemma_attach_shares_request<V>(v: Seq<SessionView<V>>, dashboard: Dashboard, rate: CapabilityRate)
    ensures
        0 <= session_pos(attached(v, dashboard, rate), rate) < attached(v, dashboard, rate).len(),
        attached(v, dashboard, rate)[session_pos(attached(v, dashboard, rate), rate)].1.contains(
            dashboard.id,
        ),
        session_pos(v, rate) < v.len() ==> attached(v, dashboard, rate).len() == v.len(),
        session_pos(v, rate) == v.len() ==> attached(v, dashboard, rate).len() == v.len() + 1,
{
    lemma_with_session(v, rate);
    let v1 = with_session(v, rate);
    let j = session_pos(v1, rate);
    let s = v1[j];
    let ns = (s.0, subscribe(s.1, dashboard.id), add_rings(s.2, dashboard.id, dashboard.graphs@, rate));
    lemma_update_keeps_pos(v1, j, ns, rate);
    assert(ns.1.contains(dashboard.id)) by {
        if !s.1.contains(dashboard.id) {
            assert(ns.1[s.1.len() as int] == dashboard.id);
        }
    }
}

/// Every ring that `add_rings` adds belongs to `id`.
proof fn lemma_rings_without_added<V>(
    slots: Seq<RingView<V>>,
    id: DashboardId,
    graphs: Seq<GraphSpec>,
    key: CapabilityRate,
)
    ensures
        rings_without(add_rings(slots, id, graphs, key), id) == rings_without(slots, id),
    decreases graphs.len(),
{
    if graphs.len() > 0 {
        lemma_rings_without_added(slots, id, graphs.drop_last(), key);
        let prev = add_rings(slots, id, graphs.drop_last(), key);
        let g = graphs.last();
        if draws_from(g, key) && !has_slot(prev, id, g.metric_id) {
            lemma_keep_where_push(prev, fresh_ring(id, g, key), ring_of_other::<V>(id));
        }
    }
}

/// Stopping undoes starting. When `dashboard` did not hold the request for
/// `rate`, starting it there and then leaving gives back the table; when the
/// request was new, leaving also finds it without subscribers, and
/// forgetting it gives back the table.
pub proof fn lemma_detach_undoes_attach<V>(v: Seq<SessionView<V>>, dashboard: Dashboard, rate: CapabilityRate)
    requires
        table_ok(v),
        session_pos(v, rate) < v.len() ==> !v[session_pos(v, rate)].1.contains(dashboard.id),
    ensures
        session_pos(v, rate) < v.len() ==> detached(attached(v, dashboard, rate), rate, dashboard.id)
            == v,
        session_pos(v, rate) == v.len() ==> idle_after(attached(v, dashboard, rate), rate, dashboard.id)
            && removed(detached(attached(v, dashboard, rate), rate, dashboard.id), rate) == v,
{
    let id = dashboard.id;
    lemma_with_session(v, rate);
    lemma_first_index(v, |t: SessionView<V>| has_key(t, rate));
    let v1 = with_session(v, rate);
    let j = session_pos(v1, rate);
    let s = v1[j];
    let ns = (s.0, subscribe(s.1, id), add_rings(s.2, id, dashboard.graphs@, rate));
    let w = v1.update(j, ns);
    assert(w == attached(v, dashboard, rate));
    lemma_update_keeps_pos(v1, j, ns, rate);
    // Leaving takes off what starting added.
    lemma_rings_without_added(s.2, id, dashboard.graphs@, rate);
    if s.1.contains(id) {
        assert(false);
    }
    assert(ns.1 == s.1.push(id));
    lemma_keep_where_push(s.1, id, other_than(id));
    assert(without_id(ns.1, id) == without_id(s.1, id));
    if session_pos(v, rate) < v.len() {
        assert(session_ok(s));
        assert forall|k: int| 0 <= k < s.1.len() implies other_than(id)(#[trigger] s.1[k]) by {}
        lemma_keep_where_all(s.1, other_than(id));
        assert forall|k: int| 0 <= k < s.2.len() implies ring_of_other::<V>(id)(#[trigger] s.2[k]) by {
            assert(ring_ok(s.2[k], s.1, s.0.streaming_rate_ms as u64));
        }
        lemma_keep_where_all(s.2, ring_of_other::<V>(id));
        assert(detached(w, rate, id) == w.update(j, s));
        assert(w.update(j, s) =~= v);
    } else {
        assert(s.1 =~= Seq::<DashboardId>::empty());
        assert(s.2 =~= Seq::<RingView<V>>::empty());
        assert(without_id(s.1, id) =~= Seq::<DashboardId>::empty());
        assert(rings_without(s.2, id) =~= Seq::<RingView<V>>::empty());
        let d = detached(w, rate, id);
        assert(d == w.update(j, (s.0, Seq::<DashboardId>::empty(), Seq::<RingView<V>>::empty())));
        assert(d =~= v1);
        lemma_update_keeps_pos(v1, j, (s.0, Seq::<DashboardId>::empty(), Seq::<RingView<V>>::empty()), rate);
        assert(d.remove(j) =~= v);
    }
}

/// Leaving a request takes only `id` off it: the other requests, the other
/// subscribers and their rings stay as they were.
pub proof fn lemma_detach_leaves_others<V>(v: Seq<SessionView<V>>, key: CapabilityRate, id: DashboardId)
    ensures
        detached(v, key, id).len() == v.len(),
        forall|j: int|
            0 <= j < v.len() && j != session_pos(v, key) ==> #[trigger] detached(v, key, id)[j] == v[j],
        session_pos(v, key) < v.len() ==> ({
            let i = session_pos(v, key);
            let w = detached(v, key, id);
            &&& w[i].0 == v[i].0
            &&& forall|x: DashboardId| #[trigger] w[i].1.contains(x) <==> (v[i].1.contains(x) && x != id)
            &&& forall|r: RingView<V>| #[trigger] w[i].2.contains(r) <==> (v[i].2.contains(r) && r.0 != id)
        }),
{
    let i = session_pos(v, key);
    lemma_first_index(v, |t: SessionView<V>| has_key(t, key));
    if i < v.len() {
        let s = v[i];
        let w = detached(v, key, id);
        lemma_keep_where(s.1, other_than(id));
        lemma_keep_where(s.2, ring_of_other::<V>(id));
        assert forall|x: DashboardId| #[trigger] w[i].1.contains(x) <==> (s.1.contains(x) && x != id) by {
            if w[i].1.contains(x) {
                let k = choose|k: int| 0 <= k < w[i].1.len() && w[i].1[k] == x;
                assert(other_than(id)(w[i].1[k]));
            }
            if s.1.contains(x) && x != id {
                let k = choose|k: int| 0 <= k < s.1.len() && s.1[k] == x;
                assert(other_than(id)(s.1[k]));
            }
        }
        assert forall|r: RingView<V>| #[trigger] w[i].2.contains(r) <==> (s.2.contains(r) && r.0 != id) by {
            if w[i].2.contains(r) {
                let k = choose|k: int| 0 <= k < w[i].2.len() && w[i].2[k] == r;
                assert(ring_of_other::<V>(id)(w[i].2[k]));
            }
            if s.2.contains(r) && r.0 != id {
                let k = choose|k: int| 0 <= k < s.2.len() && s.2[k] == r;
                assert(ring_of_other::<V>(id)(s.2[k]));
            }
        }
    }
}

/// A sample reaches the rings of its metric in the first request of its
/// capability, and only those: each of them ends with the sample; every
/// other ring, and every request's rate and subscribers, stay as they were.
pub proof fn lemma_sample_reaches_its_rings<V>(v: Seq<SessionView<V>>, sample: Sample<V>)
    ensures
        ingest_one(v, sample).len() == v.len(),
        forall|i: int|
            0 <= i < v.len() ==> (#[trigger] ingest_one(v, sample)[i]).0 == v[i].0
                && ingest_one(v, sample)[i].1 == v[i].1 && ingest_one(v, sample)[i].2.len()
                == v[i].2.len(),
        forall|i: int, k: int|
            #![trigger ingest_one(v, sample)[i].2[k]]
            0 <= i < v.len() && 0 <= k < v[i].2.len() ==> if i == capability_session_pos(
                v,
                sample.backend_id,
                sample.capability_id,
            ) && v[i].2[k].1 == sample.metric_id {
                ingest_one(v, sample)[i].2[k].4.len() > 0 && ingest_one(v, sample)[i].2[k].4.last() == (
                    sample.at,
                    sample.value,
                )
            } else {
                ingest_one(v, sample)[i].2[k] == v[i].2[k]
            },
{
    let c = capability_session_pos(v, sample.backend_id, sample.capability_id);
    lemma_first_index(
        v,
        |t: SessionView<V>| same_capability(t.0, sample.backend_id, sample.capability_id),
    );
    let w = ingest_one(v, sample);
    if c < v.len() {
        assert(w[c].2 == v[c].2.map_values(fed_with(sample)));
        assert(w[c].2.len() == v[c].2.len());
    }
    assert forall|i: int| 0 <= i < v.len() implies (#[trigger] w[i]).0 == v[i].0 && w[i].1 == v[i].1
        && w[i].2.len() == v[i].2.len() by {
        if i != c {
            assert(w[i] == v[i]);
        }
    }
    assert forall|i: int, k: int| #![trigger w[i].2[k]] 0 <= i < v.len() && 0 <= k < v[i].2.len() implies if i
        == c && v[i].2[k].1 == sample.metric_id {
        w[i].2[k].4.len() > 0 && w[i].2[k].4.last() == (sample.at, sample.value)
    } else {
        w[i].2[k] == v[i].2[k]
    } by {
        if i == c && c < v.len() {
            let s = v[i].2[k];
            assert(w[i].2[k] == fed_with(sample)(s));
            assert(w[i].2[k] == feed(s, sample));
            if s.1 == sample.metric_id {
                lemma_capacity_positive(s.2, s.3);
                lemma_trim_points(s.4.push((sample.at, sample.value)), spec_ring_capacity(s.2, s.3), s.2);
            }
        }
    }
}

/// An edit never changes the rates a request runs at: following it keeps
/// every request and its rate, and joining adds at most one request.
pub proof fn lemma_edits_keep_running_rates<V>(
    v: Seq<SessionView<V>>,
    key: CapabilityRate,
    dashboard: Dashboard,
    rate: CapabilityRate,
)
    ensures
        resynced(v, key, dashboard).len() == v.len(),
        forall|i: int| 0 <= i < v.len() ==> (#[trigger] resynced(v, key, dashboard)[i]).0 == v[i].0,
        joined(v, dashboard, rate).len() <= v.len() + 1,
        forall|i: int| 0 <= i < v.len() ==> (#[trigger] joined(v, dashboard, rate)[i]).0 == v[i].0,
{
    lemma_first_index(v, |t: SessionView<V>| has_key(t, key));
    lemma_with_session(v, rate);
    let v1 = with_session(v, rate);
    assert forall|i: int| 0 <= i < v.len() implies (#[trigger] joined(v, dashboard, rate)[i]).0 == v[i].0 by {
        assert(v1[i] == v[i]);
    }
}

/// Without a request of the capability, nobody holds it.
pub proof fn lemma_holders_none<V>(v: Seq<SessionView<V>>, backend_id: u8, capability_id: u8)
    requires
        forall|i: int| 0 <= i < v.len() ==> !same_capability(#[trigger] v[i].0, backend_id, capability_id),
    ensures
        holders_of(v, backend_id, capability_id) == Seq::<DashboardId>::empty(),
    decreases v.len(),
{
    if v.len() > 0 {
        let init = v.drop_last();
        assert forall|i: int| 0 <= i < init.len() implies !same_capability(
            #[trigger] init[i].0,
            backend_id,
            capability_id,
        ) by {
            assert(init[i] == v[i]);
        }
        lemma_holders_none(init, backend_id, capability_id);
        assert(!same_capability(v[v.len() - 1].0, backend_id, capability_id));
    }
}

/// In a sound table, the dashboards holding a capability are listed once
/// each.
pub proof fn lemma_holders_listed_once<V>(v: Seq<SessionView<V>>, backend_id: u8, capability_id: u8)
    requires
        table_ok(v),
    ensures
        holders_of(v, backend_id, capability_id).no_duplicates(),
    decreases v.len(),
{
    if v.len() > 0 {
        let n = v.len() - 1;
        let init = v.drop_last();
        assert(v.last() == v[n]);
        assert forall|i: int, j: int| #![trigger init[i], init[j]] 0 <= i < j < init.len() implies !same_capability(
            init[i].0,
            init[j].0.backend_id,
            init[j].0.capability_id,
        ) by {
            assert(init[i] == v[i] && init[j] == v[j]);
        }
        assert forall|i: int| 0 <= i < init.len() implies session_ok(#[trigger] init[i]) by {
            assert(init[i] == v[i]);
        }
        assert(session_ok(v[n]));
        if same_capability(v.last().0, backend_id, capability_id) {
            assert forall|i: int| 0 <= i < init.len() implies !same_capability(
                #[trigger] init[i].0,
                backend_id,
                capability_id,
            ) by {
                assert(init[i] == v[i]);
            }
            lemma_holders_none(init, backend_id, capability_id);
            assert(holders_of(v, backend_id, capability_id) =~= v[n].1);
        } else {
            lemma_holders_listed_once(init, backend_id, capability_id);
        }
    }
}

/// A dashboard is subscribed to some request exactly when it is among the
/// holders of that request's capability.
pub proof fn lemma_running_iff_holder<V>(v: Seq<SessionView<V>>, id: DashboardId)
    ensures
        (exists|i: int| 0 <= i < v.len() && #[trigger] v[i].1.contains(id)) <==> (exists|
            b: u8,
            c: u8,
        | #[trigger] holders_of(v, b, c).contains(id)),
    decreases v.len(),
{
    if v.len() > 0 {
        let n = v.len() - 1;
        let init = v.drop_last();
        lemma_running_iff_holder(init, id);
        assert(v.last() == v[n]);
        if exists|i: int| 0 <= i < v.len() && #[trigger] v[i].1.contains(id) {
            let i = choose|i: int| 0 <= i < v.len() && #[trigger] v[i].1.contains(id);
            let b = v[i].0.backend_id;
            let c = v[i].0.capability_id;
            lemma_holds_from(v, i, id);
            assert(holders_of(v, b, c).contains(id));
        }
        if exists|b: u8, c: u8| #[trigger] holders_of(v, b, c).contains(id) {
            let (b, c) = choose|b: u8, c: u8| #[trigger] holders_of(v, b, c).contains(id);
            if same_capability(v.last().0, b, c) && v.last().1.contains(id) {
                assert(v[n].1.contains(id));
            } else {
                let hp = holders_of(init, b, c);
                if same_capability(v.last().0, b, c) {
                    let k = choose|k: int| 0 <= k < hp.len() + v.last().1.len() && (hp + v.last().1)[k] == id;
                    if k >= hp.len() {
                        assert(v.last().1[k - hp.len()] == id);
                    }
                    assert(hp.contains(id));
                }
                assert(hp.contains(id));
                let i = choose|i: int| 0 <= i < init.len() && #[trigger] init[i].1.contains(id);
                assert(init[i] == v[i]);
            }
        }
    }
}

/// A subscriber of request `i` is among the holders of its capability.
proof fn lemma_holds_from<V>(v: Seq<SessionView<V>>, i: int, id: DashboardId)
    requires
        0 <= i < v.len(),
        v[i].1.contains(id),
    ensures
        holders_of(v, v[i].0.backend_id, v[i].0.capability_id).contains(id),
    decreases v.len(),
{
    let b = v[i].0.backend_id;
    let c = v[i].0.capability_id;
    let n = v.len() - 1;
    let init = v.drop_last();
    let hp = holders_of(init, b, c);
    assert(v.last() == v[n]);
    if i == n {
        let k = choose|k: int| 0 <= k < v[n].1.len() && v[n].1[k] == id;
        assert((hp + v[n].1)[hp.len() + k] == id);
    } else {
        assert(init[i] == v[i]);
        lemma_holds_from(init, i, id);
        let k = choose|k: int| 0 <= k < hp.len() && hp[k] == id;
        if same_capability(v[n].0, b, c) {
            assert((hp + v[n].1)[k] == id);
        }
    }
}

/// Adding rings keeps the rings already there, in place, and every ring it
/// adds belongs to `id`.
proof fn lemma_add_rings_extends<V>(
    slots: Seq<RingView<V>>,
    id: DashboardId,
    graphs: Seq<GraphSpec>,
    key: CapabilityRate,
)
    ensures
        add_rings(slots, id, graphs, key).len() >= slots.len(),
        add_rings(slots, id, graphs, key).take(slots.len() as int) == slots,
        forall|k: int|
            slots.len() <= k < add_rings(slots, id, graphs, key).len() ==> (#[trigger] add_rings(
                slots,
                id,
                graphs,
                key,
            )[k]).0 == id,
    decreases graphs.len(),
{
    if graphs.len() > 0 {
        lemma_add_rings_extends(slots, id, graphs.drop_last(), key);
        let prev = add_rings(slots, id, graphs.drop_last(), key);
        let g = graphs.last();
        if draws_from(g, key) && !has_slot(prev, id, g.metric_id) {
            let next = prev.push(fresh_ring::<V>(id, g, key));
            assert(next.take(slots.len() as int) =~= prev.take(slots.len() as int));
            assert forall|k: int| slots.len() <= k < next.len() implies (#[trigger] next[k]).0 == id by {
                if k < prev.len() {
                    assert(next[k] == prev[k]);
                }
            }
        }
    }
}

/// Two dashboards starting on the same rate share one request. The second
/// start finds the request running (it starts nothing) and leaves the first
/// dashboard's rings as they were; both hold the request, in start order.
/// When the first stops, the request is not idle: it keeps running for the
/// second, which keeps its rings while the first loses all of its own; when
/// the second stops too, the request is idle and is stopped.
pub proof fn lemma_shared_request_lifecycle<V>(a: Dashboard, b: Dashboard, rate: CapabilityRate)
    requires
        a.id != b.id,
    ensures
        ({
            let v1 = attached(Seq::<SessionView<V>>::empty(), a, rate);
            let v2 = attached(v1, b, rate);
            let v3 = detached(v2, rate, a.id);
            &&& session_pos(v1, rate) < v1.len()
            &&& v1.len() == 1 && v2.len() == 1 && v3.len() == 1
            &&& forall|r: RingView<V>| #![trigger v2[0].2.contains(r)] r.0 != b.id ==> (
                v2[0].2.contains(r) <==> v1[0].2.contains(r))
            &&& holders_of(v2, rate.backend_id, rate.capability_id) == seq![a.id, b.id]
            &&& !idle_after(v2, rate, a.id)
            &&& holders_of(v3, rate.backend_id, rate.capability_id) == seq![b.id]
            &&& forall|r: RingView<V>| #[trigger] v3[0].2.contains(r) <==> (v2[0].2.contains(r)
                && r.0 != a.id)
            &&& idle_after(v3, rate, b.id)
        }),
{
    let v0 = Seq::<SessionView<V>>::empty();
    let p = |t: SessionView<V>| has_key(t, rate);
    lemma_first_index_is(v0, p, 0);
    let w0 = with_session(v0, rate);
    assert(w0.len() == 1);
    lemma_first_index_is(w0, p, 0);
    let v1 = attached(v0, a, rate);
    assert(v1.len() == 1);
    lemma_first_index_is(v1, p, 0);
    assert(with_session(v1, rate) == v1);
    let s1 = v1[0];
    assert(s1.1 == seq![a.id]);
    let v2 = attached(v1, b, rate);
    let s2 = v2[0];
    assert(!s1.1.contains(b.id));
    assert(s2.1 == seq![a.id, b.id]);
    lemma_add_rings_extends(s1.2, b.id, b.graphs@, rate);
    assert forall|r: RingView<V>| #![trigger v2[0].2.contains(r)] r.0 != b.id implies (
        v2[0].2.contains(r) <==> v1[0].2.contains(r)) by {
        if v2[0].2.contains(r) {
            let k = choose|k: int| 0 <= k < s2.2.len() && s2.2[k] == r;
            assert(k < s1.2.len());
            assert(s2.2.take(s1.2.len() as int)[k] == r);
        }
        if v1[0].2.contains(r) {
            let k = choose|k: int| 0 <= k < s1.2.len() && s1.2[k] == r;
            assert(s2.2.take(s1.2.len() as int)[k] == r);
        }
    }
    assert(v2.drop_last() =~= v0);
    assert(holders_of(v0, rate.backend_id, rate.capability_id) =~= Seq::<DashboardId>::empty());
    assert(holders_of(v2, rate.backend_id, rate.capability_id) =~= seq![a.id, b.id]);
    lemma_first_index_is(v2, p, 0);
    reveal_with_fuel(keep_where, 3);
    assert(seq![a.id, b.id].drop_first() =~= seq![b.id]);
    assert(seq![b.id].drop_first() =~= Seq::<DashboardId>::empty());
    assert(without_id(seq![a.id, b.id], a.id) =~= seq![b.id]);
    assert(!idle_after(v2, rate, a.id));
    let v3 = detached(v2, rate, a.id);
    lemma_detach_leaves_others(v2, rate, a.id);
    assert(v3[0].1 == seq![b.id]);
    assert(v3.drop_last() =~= v0);
    assert(holders_of(v3, rate.backend_id, rate.capability_id) =~= seq![b.id]);
    lemma_first_index_is(v3, p, 0);
    assert(without_id(seq![b.id], b.id) =~= Seq::<DashboardId>::empty());
}

/// When request `i` is the only one of capability `(b, c)`, its subscribers
/// are the capability's holders.
pub proof fn lemma_holders_single<V>(v: Seq<SessionView<V>>, i: int, b: u8, c: u8)
    requires
        0 <= i < v.len(),
        same_capability(v[i].0, b, c),
        forall|j: int| 0 <= j < v.len() && j != i ==> !same_capability(#[trigger] v[j].0, b, c),
    ensures
        holders_of(v, b, c) == v[i].1,
    decreases v.len(),
{
    let n = v.len() - 1;
    let init = v.drop_last();
    assert(v.last() == v[n]);
    if i == n {
        assert forall|j: int| 0 <= j < init.len() implies !same_capability(#[trigger] init[j].0, b, c) by {
            assert(init[j] == v[j]);
        }
        lemma_holders_none(init, b, c);
        assert(holders_of(v, b, c) =~= v[i].1);
    } else {
        assert(init[i] == v[i]);
        assert forall|j: int| 0 <= j < init.len() && j != i implies !same_capability(
            #[trigger] init[j].0,
            b,
            c,
        ) by {
            assert(init[j] == v[j]);
        }
        lemma_holders_single(init, i, b, c);
    }
}

/// Changing only the rings leaves the holders as they were.
proof fn lemma_holders_same<V>(v: Seq<SessionView<V>>, w: Seq<SessionView<V>>, b: u8, c: u8)
    requires
        w.len() == v.len(),
        forall|j: int| 0 <= j < v.len() ==> (#[trigger] w[j]).0 == v[j].0 && w[j].1 == v[j].1,
    ensures
        holders_of(w, b, c) == holders_of(v, b, c),
    decreases v.len(),
{
    if v.len() > 0 {
        let n = v.len() - 1;
        assert(w.last() == w[n] && v.last() == v[n]);
        assert forall|j: int| 0 <= j < v.drop_last().len() implies (#[trigger] w.drop_last()[j]).0
            == v.drop_last()[j].0 && w.drop_last()[j].1 == v.drop_last()[j].1 by {
            assert(w.drop_last()[j] == w[j] && v.drop_last()[j] == v[j]);
        }
        lemma_holders_same(v.drop_last(), w.drop_last(), b, c);
    }
}

/// Editing the rate of a shared request: when a dashboard asks other rates
/// for the capability of request `key`, which it shares with another
/// dashboard, the request stays as it is (same rate, same holders, every
/// other request unchanged), the note names the rate it stays at, and the
/// dashboard still holds the capability, so its new rate is not started.
pub proof fn lemma_shared_rate_edit_stays<V>(
    v: Seq<SessionView<V>>,
    key: CapabilityRate,
    dashboard: Dashboard,
    other: DashboardId,
)
    requires
        session_pos(v, key) < v.len(),
        v[session_pos(v, key)].1.contains(dashboard.id),
        v[session_pos(v, key)].1.contains(other),
        other != dashboard.id,
        rate_for(dashboard.rates@, key.backend_id, key.capability_id) matches Some(r) && (
        r.sampling_rate_ms != key.sampling_rate_ms || r.streaming_rate_ms != key.streaming_rate_ms),
    ensures
        reconcile_note(v, key, dashboard) == Some(stays_message(key)),
        ({
            let w = resynced(v, key, dashboard);
            let i = session_pos(v, key);
            &&& w.len() == v.len()
            &&& w[i].0 == key
            &&& w[i].1 == v[i].1
            &&& forall|j: int| 0 <= j < v.len() && j != i ==> #[trigger] w[j] == v[j]
            &&& holders_of(w, key.backend_id, key.capability_id) == holders_of(
                v,
                key.backend_id,
                key.capability_id,
            )
            &&& subscription_pos(w, dashboard.id, key.backend_id, key.capability_id) < w.len()
        }),
{
    let i = session_pos(v, key);
    lemma_first_index(v, |t: SessionView<V>| has_key(t, key));
    let k = choose|k: int| 0 <= k < v[i].1.len() && v[i].1[k] == other;
    assert(v[i].1[k] != dashboard.id);
    let w = resynced(v, key, dashboard);
    lemma_holders_same(v, w, key.backend_id, key.capability_id);
    let p = |t: SessionView<V>| same_capability(t.0, key.backend_id, key.capability_id) && t.1.contains(
        dashboard.id,
    );
    lemma_first_index(w, p);
    assert(p(w[i]));
}

/// Leaving a capability: after dashboard `dashboard` leaves request `key` of
/// a sound table, it no longer holds the capability, and the request is
/// idle (to be stopped) exactly when nobody else held it.
pub proof fn lemma_leaving_capability<V>(v: Seq<SessionView<V>>, key: CapabilityRate, id: DashboardId)
    requires
        table_ok(v),
        session_pos(v, key) < v.len(),
    ensures
        !holders_of(detached(v, key, id), key.backend_id, key.capability_id).contains(id),
        idle_after(v, key, id) <==> (forall|x: DashboardId| #[trigger] v[session_pos(v, key)].1.contains(x) ==> x == id),
{
    let i = session_pos(v, key);
    lemma_first_index(v, |t: SessionView<V>| has_key(t, key));
    let w = detached(v, key, id);
    lemma_detach_leaves_others(v, key, id);
    assert forall|j: int| 0 <= j < w.len() && j != i implies !same_capability(
        #[trigger] w[j].0,
        key.backend_id,
        key.capability_id,
    ) by {
        assert(w[j] == v[j]);
        if j < i {
            assert(!same_capability(v[j].0, v[i].0.backend_id, v[i].0.capability_id));
        } else {
            assert(!same_capability(v[i].0, v[j].0.backend_id, v[j].0.capability_id));
        }
    }
    lemma_holders_single(w, i, key.backend_id, key.capability_id);
    let ids = v[i].1;
    let kept = without_id(ids, id);
    lemma_keep_where(ids, other_than(id));
    if kept.len() == 0 {
        assert forall|x: DashboardId| #[trigger] ids.contains(x) implies x == id by {
            let j = choose|j: int| 0 <= j < ids.len() && ids[j] == x;
            if x != id {
                assert(other_than(id)(ids[j]));
                assert(kept.contains(ids[j]));
            }
        }
    } else {
        assert(other_than(id)(kept[0]));
        assert(ids.contains(kept[0]));
    }
}

/// Following an edit touches only `id`'s rings in `apply_windows`.
proof fn lemma_apply_windows_others<V>(
    slots: Seq<RingView<V>>,
    id: DashboardId,
    graphs: Seq<GraphSpec>,
    key: CapabilityRate,
)
    ensures
        forall|r: RingView<V>| r.0 != id ==> (#[trigger] apply_windows(slots, id, graphs, key).contains(r)
            <==> slots.contains(r)),
    decreases graphs.len(),
{
    if graphs.len() > 0 {
        let prev = apply_windows(slots, id, graphs.drop_last(), key);
        lemma_apply_windows_others(slots, id, graphs.drop_last(), key);
        let g = graphs.last();
        let out = apply_windows(slots, id, graphs, key);
        if draws_from(g, key) {
            let k = slot_pos(prev, id, g.metric_id);
            lemma_first_index(prev, |s: RingView<V>| is_slot(s, id, g.metric_id));
            assert forall|r: RingView<V>| r.0 != id implies (#[trigger] out.contains(r) <==> prev.contains(r)) by {
                if out.contains(r) {
                    let j = choose|j: int| 0 <= j < out.len() && out[j] == r;
                    if j < prev.len() {
                        if k < prev.len() {
                            assert(j != k);
                        }
                        assert(prev[j] == r);
                    }
                }
                if prev.contains(r) {
                    let j = choose|j: int| 0 <= j < prev.len() && prev[j] == r;
                    assert(out[j] == r);
                }
            }
        }
    }
}

/// Following an edit keeps the rings of every other dashboard.
proof fn lemma_synced_others<V>(
    slots: Seq<RingView<V>>,
    id: DashboardId,
    graphs: Seq<GraphSpec>,
    key: CapabilityRate,
)
    ensures
        forall|r: RingView<V>| r.0 != id ==> (#[trigger] synced(slots, id, graphs, key).contains(r)
            <==> slots.contains(r)),
{
    let p = ring_stays::<V>(id, graphs, key);
    let kept = keep_where(slots, p);
    lemma_keep_where(slots, p);
    lemma_apply_windows_others(kept, id, graphs, key);
    assert forall|r: RingView<V>| r.0 != id implies (kept.contains(r) <==> slots.contains(r)) by {
        if kept.contains(r) {
            let j = choose|j: int| 0 <= j < kept.len() && kept[j] == r;
            assert(slots.contains(kept[j]));
        }
        if slots.contains(r) {
            let j = choose|j: int| 0 <= j < slots.len() && slots[j] == r;
            assert(p(slots[j]));
        }
    }
}

/// What the graphs of a dashboard do, in order, to its ring `r`.
pub open spec fn own_ring<V>(r: RingView<V>, graphs: Seq<GraphSpec>, key: CapabilityRate) -> RingView<V>
    decreases graphs.len(),
{
    if graphs.len() == 0 {
        r
    } else {
        let prev = own_ring(r, graphs.drop_last(), key);
        let g = graphs.last();
        if draws_from(g, key) && g.metric_id == r.1 {
            retarget(prev, g.window)
        } else {
            prev
        }
    }
}

/// `apply_windows` keeps the ring of `id` and `m` in place and applies each
/// graph of that metric to it.
proof fn lemma_apply_windows_own<V>(
    slots: Seq<RingView<V>>,
    id: DashboardId,
    graphs: Seq<GraphSpec>,
    key: CapabilityRate,
    m: u16,
)
    requires
        slot_pos(slots, id, m) < slots.len(),
    ensures
        ({
            let out = apply_windows(slots, id, graphs, key);
            let i = slot_pos(slots, id, m);
            &&& out.len() >= slots.len()
            &&& slot_pos(out, id, m) == i
            &&& out[i] == own_ring(slots[i], graphs, key)
        }),
    decreases graphs.len(),
{
    let i = slot_pos(slots, id, m);
    lemma_first_index(slots, |s: RingView<V>| is_slot(s, id, m));
    if graphs.len() > 0 {
        let prev = apply_windows(slots, id, graphs.drop_last(), key);
        lemma_apply_windows_own(slots, id, graphs.drop_last(), key, m);
        lemma_first_index(prev, |s: RingView<V>| is_slot(s, id, m));
        let g = graphs.last();
        let out = apply_windows(slots, id, graphs, key);
        let ps = |s: RingView<V>| is_slot(s, id, m);
        if draws_from(g, key) {
            let k = slot_pos(prev, id, g.metric_id);
            lemma_first_index(prev, |s: RingView<V>| is_slot(s, id, g.metric_id));
            if k < prev.len() {
                if g.metric_id == m {
                    assert(k == i);
                }
                assert forall|j: int| 0 <= j < i implies !ps(#[trigger] out[j]) by {
                    assert(!ps(prev[j]));
                }
                lemma_first_index_is(out, ps, i);
            } else {
                assert forall|j: int| 0 <= j < i implies !ps(#[trigger] out[j]) by {
                    assert(out[j] == prev[j]);
                }
                assert(ps(prev[i]));
                assert(g.metric_id != m);
                assert(out[i] == prev[i]);
                lemma_first_index_is(out, ps, i);
            }
        }
    }
}

/// A single graph of the ring's metric sets its window.
proof fn lemma_own_ring_single<V>(r: RingView<V>, graphs: Seq<GraphSpec>, key: CapabilityRate, k: int)
    requires
        0 <= k < graphs.len(),
        draws_from(graphs[k], key) && graphs[k].metric_id == r.1,
        forall|j: int| 0 <= j < graphs.len() && j != k ==> !(draws_from(#[trigger] graphs[j], key)
            && graphs[j].metric_id == r.1),
    ensures
        own_ring(r, graphs, key) == retarget(r, graphs[k].window),
    decreases graphs.len(),
{
    let n = graphs.len() - 1;
    let init = graphs.drop_last();
    assert(graphs.last() == graphs[n]);
    if k < n {
        assert(init[k] == graphs[k]);
        assert forall|j: int| 0 <= j < init.len() && j != k implies !(draws_from(#[trigger] init[j], key)
            && init[j].metric_id == r.1) by {
            assert(init[j] == graphs[j]);
        }
        lemma_own_ring_single(r, init, key, k);
    } else {
        lemma_own_ring_none(r, init, key);
        assert forall|j: int| 0 <= j < init.len() implies !(draws_from(#[trigger] init[j], key)
            && init[j].metric_id == r.1) by {
            assert(init[j] == graphs[j]);
        }
    }
}

proof fn lemma_own_ring_none<V>(r: RingView<V>, graphs: Seq<GraphSpec>, key: CapabilityRate)
    requires
        forall|j: int| 0 <= j < graphs.len() ==> !(draws_from(#[trigger] graphs[j], key)
            && graphs[j].metric_id == r.1),
    ensures
        own_ring(r, graphs, key) == r,
    decreases graphs.len(),
{
    if graphs.len() > 0 {
        let init = graphs.drop_last();
        assert(graphs.last() == graphs[graphs.len() - 1]);
        assert forall|j: int| 0 <= j < init.len() implies !(draws_from(#[trigger] init[j], key)
            && init[j].metric_id == r.1) by {
            assert(init[j] == graphs[j]);
        }
        lemma_own_ring_none(r, init, key);
    }
}

/// A view-only edit of a running dashboard (one that leaves its rate for the
/// request `key` as it is) keeps the request: no note, the same rate and
/// subscribers, every other request and every other dashboard's ring as
/// they were; and when one graph `graphs[k]` shows metric `m` of that
/// capability, the dashboard's ring of `m` takes that graph's window, its
/// points trimmed to what the new window keeps.
pub proof fn lemma_view_edit_keeps_request<V>(
    v: Seq<SessionView<V>>,
    key: CapabilityRate,
    dashboard: Dashboard,
    k: int,
)
    requires
        table_ok(v),
        session_pos(v, key) < v.len(),
        rate_for(dashboard.rates@, key.backend_id, key.capability_id) matches Some(r)
            && r.sampling_rate_ms == key.sampling_rate_ms && r.streaming_rate_ms
            == key.streaming_rate_ms,
        0 <= k < dashboard.graphs@.len(),
        draws_from(dashboard.graphs@[k], key),
        forall|j: int|
            0 <= j < dashboard.graphs@.len() && j != k ==> !(draws_from(#[trigger] dashboard.graphs@[j], key)
                && dashboard.graphs@[j].metric_id == dashboard.graphs@[k].metric_id),
        slot_pos(v[session_pos(v, key)].2, dashboard.id, dashboard.graphs@[k].metric_id)
            < v[session_pos(v, key)].2.len(),
    ensures
        reconcile_note(v, key, dashboard) is None,
        ({
            let w = resynced(v, key, dashboard);
            let i = session_pos(v, key);
            let m = dashboard.graphs@[k].metric_id;
            let old_slots = v[i].2;
            let new_slots = w[i].2;
            &&& w.len() == v.len()
            &&& w[i].0 == key && w[i].1 == v[i].1
            &&& forall|j: int| 0 <= j < v.len() && j != i ==> #[trigger] w[j] == v[j]
            &&& forall|r: RingView<V>| r.0 != dashboard.id ==> (#[trigger] new_slots.contains(r)
                <==> old_slots.contains(r))
            &&& slot_pos(new_slots, dashboard.id, m) < new_slots.len()
            &&& new_slots[slot_pos(new_slots, dashboard.id, m)] == retarget(
                old_slots[slot_pos(old_slots, dashboard.id, m)],
                dashboard.graphs@[k].window,
            )
        }),
{
    let i = session_pos(v, key);
    lemma_first_index(v, |t: SessionView<V>| has_key(t, key));
    let id = dashboard.id;
    let graphs = dashboard.graphs@;
    let m = graphs[k].metric_id;
    let slots = v[i].2;
    assert(session_ok(v[i]));
    lemma_synced_others(slots, id, graphs, key);
    // The ring of `m` survives `keep_rings`, as the only ring of `id` and `m`.
    let p = ring_stays::<V>(id, graphs, key);
    let kept = keep_where(slots, p);
    lemma_keep_where(slots, p);
    let a = slot_pos(slots, id, m);
    lemma_first_index(slots, |s: RingView<V>| is_slot(s, id, m));
    let ring = slots[a];
    assert(wants_metric(graphs, key, ring.1)) by {
        assert(graphs[k].metric_id == ring.1);
    }
    assert(p(ring));
    assert(kept.contains(ring));
    let ps = |s: RingView<V>| is_slot(s, id, m);
    lemma_first_index(kept, ps);
    let b = slot_pos(kept, id, m);
    let kb = choose|x: int| 0 <= x < kept.len() && kept[x] == ring;
    assert(ps(kept[kb]));
    assert(b < kept.len());
    assert(slots.contains(kept[b]));
    let c = choose|x: int| 0 <= x < slots.len() && slots[x] == kept[b];
    if c != a {
        assert(ring_owner(slots[c]) == ring_owner(slots[a]));
        if c < a {
            assert(ring_owner(slots[c]) != ring_owner(slots[a]));
        } else {
            assert(ring_owner(slots[a]) != ring_owner(slots[c]));
        }
    }
    assert(kept[b] == ring);
    lemma_apply_windows_own(kept, id, graphs, key, m);
    lemma_own_ring_single(ring, graphs, key, k);
}

} // verus!
