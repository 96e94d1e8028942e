//! Whole runs of the program's session calls: starting, stopping and
//! following an edit of a dashboard step by step, as the program does with
//! the table's operations when every libqcperf call succeeds, and what holds
//! over any sequence of them.
use vstd::prelude::*;

use crate::backend::session::{
    attached, capability_session_pos, conflicts, detached, has_key, holders_of, idle_after,
    ingest_one, ingested, joined, live_rate, removed, resynced, same_capability, session_pos,
    start_conflict_pos, subscribed_rates, subscription_pos, SessionView, reconcile_note, stays_message,
    retarget, slot_pos, draws_from, RingView, without_id, rings_without, other_than,
};
use crate::backend::session_laws::{
    lemma_attach_keeps_table_ok, lemma_detach_keeps_table_ok, lemma_empty_table_ok,
    lemma_holders_listed_once, lemma_ingest_keeps_table_ok, lemma_join_keeps_table_ok,
    lemma_remove_keeps_table_ok, lemma_resync_keeps_table_ok, lemma_running_iff_holder,
    one_per_capability, session_ok, table_ok, lemma_holders_single, lemma_shared_rate_edit_stays,
    lemma_view_edit_keeps_request, lemma_holders_none, lemma_leaving_capability,
};
use crate::model::dashboard::{rate_for, Dashboard, DashboardId};
use crate::model::graph::CapabilityRate;
use crate::model::Sample;
use crate::seqs::{first_index, lemma_first_index, lemma_first_index_is};

verus! {

// ---------------------------------------------------------------------------
// The runs
// ---------------------------------------------------------------------------

/// `id` leaves request `key`; the request is stopped and dropped when nobody
/// is left on it.
pub open spec fn leave_step<V>(v: Seq<SessionView<V>>, key: CapabilityRate, id: DashboardId) -> Seq<
    SessionView<V>,
> {
    if idle_after(v, key, id) {
        removed(detached(v, key, id), key)
    } else {
        detached(v, key, id)
    }
}

/// `id` leaves each request of `keys`, in order.
pub open spec fn leave_all<V>(v: Seq<SessionView<V>>, keys: Seq<CapabilityRate>, id: DashboardId) -> Seq<
    SessionView<V>,
>
    decreases keys.len(),
{
    if keys.len() == 0 {
        v
    } else {
        leave_step(leave_all(v, keys.drop_last(), id), keys.last(), id)
    }
}

/// Stopping dashboard `id`: it leaves every request it holds.
pub open spec fn stop_run<V>(v: Seq<SessionView<V>>, id: DashboardId) -> Seq<SessionView<V>> {
    leave_all(v, subscribed_rates(v, id), id)
}

/// Following an edit of `d` on request `key` it holds: it leaves the request
/// when it sets no rate for that capability any more, else its rings follow.
pub open spec fn revisit_step<V>(v: Seq<SessionView<V>>, key: CapabilityRate, d: Dashboard) -> Seq<
    SessionView<V>,
> {
    match rate_for(d.rates@, key.backend_id, key.capability_id) {
        None => leave_step(v, key, d.id),
        Some(_) => resynced(v, key, d),
    }
}

pub open spec fn revisit_all<V>(v: Seq<SessionView<V>>, keys: Seq<CapabilityRate>, d: Dashboard) -> Seq<
    SessionView<V>,
>
    decreases keys.len(),
{
    if keys.len() == 0 {
        v
    } else {
        revisit_step(revisit_all(v, keys.drop_last(), d), keys.last(), d)
    }
}

/// Request `rate` is started for `d` in this state: `d` holds no request of
/// its capability, it does not conflict, and no request runs at it.
pub open spec fn starts_at<V>(v: Seq<SessionView<V>>, rate: CapabilityRate, d: Dashboard) -> bool {
    subscription_pos(v, d.id, rate.backend_id, rate.capability_id) == v.len() && !conflicts(v, rate)
        && session_pos(v, rate) == v.len()
}

/// One rate of an edited dashboard: nothing when it already holds the
/// capability or the rate conflicts, else it joins the request (started
/// first when none runs).
pub open spec fn join_step<V>(v: Seq<SessionView<V>>, rate: CapabilityRate, d: Dashboard) -> Seq<
    SessionView<V>,
> {
    if subscription_pos(v, d.id, rate.backend_id, rate.capability_id) < v.len() || conflicts(v, rate) {
        v
    } else {
        joined(v, d, rate)
    }
}

pub open spec fn join_all<V>(v: Seq<SessionView<V>>, rates: Seq<CapabilityRate>, d: Dashboard) -> Seq<
    SessionView<V>,
>
    decreases rates.len(),
{
    if rates.len() == 0 {
        v
    } else {
        join_step(join_all(v, rates.drop_last(), d), rates.last(), d)
    }
}

/// Following an edit of running dashboard `d`: first each request it held,
/// then each of its rates.
pub open spec fn reconcile_run<V>(v: Seq<SessionView<V>>, d: Dashboard) -> Seq<SessionView<V>> {
    join_all(revisit_all(v, subscribed_rates(v, d.id), d), d.rates@, d)
}

pub open spec fn attach_all<V>(v: Seq<SessionView<V>>, d: Dashboard, rates: Seq<CapabilityRate>) -> Seq<
    SessionView<V>,
>
    decreases rates.len(),
{
    if rates.len() == 0 {
        v
    } else {
        attached(attach_all(v, d, rates.drop_last()), d, rates.last())
    }
}

/// Starting `d`: nothing when one of its rates conflicts, else it joins the
/// request of each of its rates in order (each started first when none runs).
pub open spec fn start_run<V>(v: Seq<SessionView<V>>, d: Dashboard) -> Seq<SessionView<V>> {
    if start_conflict_pos(v, d.rates@) < d.rates@.len() {
        v
    } else {
        attach_all(v, d, d.rates@)
    }
}

/// What the program does to the table.
pub enum ProgramStep<V> {
    Start(Dashboard),
    Stop(DashboardId),
    StopAll,
    Reconcile(Dashboard),
    Ingest(Sample<V>),
}

pub open spec fn program_step<V>(v: Seq<SessionView<V>>, step: ProgramStep<V>) -> Seq<SessionView<V>> {
    match step {
        ProgramStep::Start(d) => start_run(v, d),
        ProgramStep::Stop(id) => stop_run(v, id),
        ProgramStep::StopAll => Seq::empty(),
        ProgramStep::Reconcile(d) => reconcile_run(v, d),
        ProgramStep::Ingest(x) => ingest_one(v, x),
    }
}

/// The table after `steps`, from an empty one.
pub open spec fn program_run<V>(steps: Seq<ProgramStep<V>>) -> Seq<SessionView<V>>
    decreases steps.len(),
{
    if steps.len() == 0 {
        Seq::empty()
    } else {
        program_step(program_run(steps.drop_last()), steps.last())
    }
}

/// No two rates are for the same capability.
pub open spec fn one_rate_each(rates: Seq<CapabilityRate>) -> bool {
    forall|a: int, b: int|
        #![trigger rates[a], rates[b]]
        0 <= a < b < rates.len() ==> !same_capability(rates[a], rates[b].backend_id, rates[b].capability_id)
}

/// Every dashboard the steps start or edit sets at most one rate per
/// capability.
pub open spec fn steps_well_formed<V>(steps: Seq<ProgramStep<V>>) -> bool {
    forall|i: int|
        0 <= i < steps.len() ==> match #[trigger] steps[i] {
            ProgramStep::Start(d) => one_rate_each(d.rates@),
            ProgramStep::Reconcile(d) => one_rate_each(d.rates@),
            _ => true,
        }
}

/// Dashboard `id` holds some request.
pub open spec fn running<V>(v: Seq<SessionView<V>>, id: DashboardId) -> bool {
    exists|i: int| 0 <= i < v.len() && #[trigger] v[i].1.contains(id)
}

// ---------------------------------------------------------------------------
// Starting
// ---------------------------------------------------------------------------

proof fn lemma_first_index_same<T>(s: Seq<T>, t: Seq<T>, p: spec_fn(T) -> bool)
    requires
        s.len() <= t.len(),
        forall|k: int| 0 <= k < s.len() ==> p(#[trigger] t[k]) == p(s[k]),
        forall|k: int| s.len() <= k < t.len() ==> !p(#[trigger] t[k]),
    ensures
        first_index(t, p) == if first_index(s, p) < s.len() {
            first_index(s, p)
        } else {
            t.len() as int
        },
{
    lemma_first_index(s, p);
    let i = first_index(s, p);
    if i < s.len() {
        assert forall|j: int| 0 <= j < i implies !p(#[trigger] t[j]) by {
            assert(!p(s[j]));
        }
        lemma_first_index_is(t, p, i);
    } else {
        assert forall|j: int| 0 <= j < t.len() implies !p(#[trigger] t[j]) by {
            if j < s.len() {
                assert(!p(s[j]));
            }
        }
        lemma_first_index_is(t, p, t.len() as int);
    }
}

/// Requests added or changed only at `r` leave the live rate of every other
/// capability.
proof fn lemma_live_other<V>(
    v: Seq<SessionView<V>>,
    w: Seq<SessionView<V>>,
    r: CapabilityRate,
    b: u8,
    c: u8,
)
    requires
        v.len() <= w.len(),
        forall|k: int| 0 <= k < v.len() ==> (#[trigger] w[k]).0 == v[k].0,
        forall|k: int| v.len() <= k < w.len() ==> (#[trigger] w[k]).0 == r,
        !same_capability(r, b, c),
    ensures
        live_rate(w, b, c) == live_rate(v, b, c),
{
    let p = |s: SessionView<V>| same_capability(s.0, b, c);
    lemma_first_index_same(v, w, p);
    lemma_first_index(v, p);
}

/// Joining or attaching at `r` changes no other capability's live rate.
proof fn lemma_attach_live_other<V>(v: Seq<SessionView<V>>, d: Dashboard, r: CapabilityRate, b: u8, c: u8)
    requires
        !same_capability(r, b, c),
    ensures
        live_rate(attached(v, d, r), b, c) == live_rate(v, b, c),
        live_rate(joined(v, d, r), b, c) == live_rate(v, b, c),
{
    let pk = |s: SessionView<V>| has_key(s, r);
    lemma_first_index(v, pk);
    let v1 = if session_pos(v, r) < v.len() {
        v
    } else {
        v.push((r, Seq::empty(), Seq::empty()))
    };
    lemma_first_index(v1, pk);
    let j = session_pos(v1, r);
    if session_pos(v, r) == v.len() {
        assert forall|k: int| 0 <= k < v.len() implies !pk(#[trigger] v1[k]) by {
            assert(v1[k] == v[k]);
        }
        lemma_first_index_is(v1, pk, v.len() as int);
    }
    let a = attached(v, d, r);
    let jn = joined(v, d, r);
    assert forall|k: int| 0 <= k < v.len() implies (#[trigger] a[k]).0 == v[k].0 && jn[k].0 == v[k].0 by {
        assert(v1[k] == v[k]);
    }
    lemma_live_other(v, a, r, b, c);
    lemma_live_other(v, jn, r, b, c);
}

proof fn lemma_attach_all_live_other<V>(
    v: Seq<SessionView<V>>,
    d: Dashboard,
    rs: Seq<CapabilityRate>,
    b: u8,
    c: u8,
)
    requires
        forall|k: int| 0 <= k < rs.len() ==> !same_capability(#[trigger] rs[k], b, c),
    ensures
        live_rate(attach_all(v, d, rs), b, c) == live_rate(v, b, c),
    decreases rs.len(),
{
    if rs.len() > 0 {
        assert forall|k: int| 0 <= k < rs.drop_last().len() implies !same_capability(
            #[trigger] rs.drop_last()[k],
            b,
            c,
        ) by {
            assert(rs.drop_last()[k] == rs[k]);
        }
        lemma_attach_all_live_other(v, d, rs.drop_last(), b, c);
        assert(rs.last() == rs[rs.len() - 1]);
        lemma_attach_live_other(attach_all(v, d, rs.drop_last()), d, rs.last(), b, c);
    }
}

/// A rate that does not conflict and has no request of its own finds its
/// capability free: no request of that capability is live.
pub proof fn lemma_start_finds_capability_free<V>(v: Seq<SessionView<V>>, r: CapabilityRate)
    requires
        !conflicts(v, r),
        session_pos(v, r) == v.len(),
    ensures
        live_rate(v, r.backend_id, r.capability_id) is None,
{
    let i = capability_session_pos(v, r.backend_id, r.capability_id);
    lemma_first_index(v, |s: SessionView<V>| same_capability(s.0, r.backend_id, r.capability_id));
    lemma_first_index(v, |s: SessionView<V>| has_key(s, r));
    if i < v.len() {
        assert(v[i].0 == r);
        assert(has_key(v[i], r));
    }
}

/// Attaching a dashboard's rates in turn, none conflicting and one per
/// capability: no rate conflicts when its turn comes, and the table stays
/// sound.
proof fn lemma_attach_all_ok<V>(v: Seq<SessionView<V>>, d: Dashboard, rs: Seq<CapabilityRate>)
    requires
        table_ok(v),
        one_rate_each(rs),
        forall|k: int| 0 <= k < rs.len() ==> !conflicts(v, #[trigger] rs[k]),
    ensures
        table_ok(attach_all(v, d, rs)),
        forall|k: int| 0 <= k < rs.len() ==> !conflicts(attach_all(v, d, rs.take(k)), #[trigger] rs[k]),
    decreases rs.len(),
{
    if rs.len() > 0 {
        let n = rs.len() - 1;
        let init = rs.drop_last();
        assert forall|a: int, b: int| #![trigger init[a], init[b]] 0 <= a < b < init.len() implies !same_capability(
            init[a],
            init[b].backend_id,
            init[b].capability_id,
        ) by {
            assert(init[a] == rs[a] && init[b] == rs[b]);
        }
        assert forall|k: int| 0 <= k < init.len() implies !conflicts(v, #[trigger] init[k]) by {
            assert(init[k] == rs[k]);
        }
        lemma_attach_all_ok(v, d, init);
        assert forall|k: int| 0 <= k < rs.len() implies !conflicts(attach_all(v, d, rs.take(k)), #[trigger] rs[k]) by {
            if k < n {
                assert(rs.take(k) =~= init.take(k));
                assert(init[k] == rs[k]);
            } else {
                assert(rs.take(k) =~= init);
                assert forall|j: int| 0 <= j < init.len() implies !same_capability(
                    #[trigger] init[j],
                    rs[k].backend_id,
                    rs[k].capability_id,
                ) by {
                    assert(init[j] == rs[j]);
                }
                lemma_attach_all_live_other(v, d, init, rs[k].backend_id, rs[k].capability_id);
            }
        }
        assert(rs.last() == rs[n]);
        assert(rs.take(n) =~= init);
        lemma_attach_keeps_table_ok(attach_all(v, d, init), d, rs.last());
    }
}

/// Starting a dashboard with one rate per capability keeps the table sound,
/// and a request is started only where no request of its capability is
/// live: at the turn of rate `k`, when no request runs at that rate, its
/// capability is free.
pub proof fn lemma_start_run_ok<V>(v: Seq<SessionView<V>>, d: Dashboard)
    requires
        table_ok(v),
        one_rate_each(d.rates@),
    ensures
        table_ok(start_run(v, d)),
        start_conflict_pos(v, d.rates@) == d.rates@.len() ==> forall|k: int|
            0 <= k < d.rates@.len() && session_pos(attach_all(v, d, d.rates@.take(k)), d.rates@[k])
                == attach_all(v, d, d.rates@.take(k)).len() ==> (#[trigger] live_rate(
                attach_all(v, d, d.rates@.take(k)),
                d.rates@[k].backend_id,
                d.rates@[k].capability_id,
            )) is None,
{
    let rs = d.rates@;
    lemma_first_index(rs, |r: CapabilityRate| conflicts(v, r));
    if start_conflict_pos(v, rs) == rs.len() {
        lemma_attach_all_ok(v, d, rs);
        assert forall|k: int|
            0 <= k < rs.len() && session_pos(attach_all(v, d, rs.take(k)), rs[k]) == attach_all(
                v,
                d,
                rs.take(k),
            ).len() implies (#[trigger] live_rate(
            attach_all(v, d, rs.take(k)),
            rs[k].backend_id,
            rs[k].capability_id,
        )) is None by {
            lemma_start_finds_capability_free(attach_all(v, d, rs.take(k)), rs[k]);
        }
    }
}

// ---------------------------------------------------------------------------
// Stopping and following an edit
// ---------------------------------------------------------------------------

/// Leaving a request keeps the table sound.
pub proof fn lemma_leave_step_ok<V>(v: Seq<SessionView<V>>, key: CapabilityRate, id: DashboardId)
    requires
        table_ok(v),
    ensures
        table_ok(leave_step(v, key, id)),
{
    lemma_detach_keeps_table_ok(v, key, id);
    lemma_remove_keeps_table_ok(detached(v, key, id), key);
}

/// Stopping a dashboard, request by request, keeps the table sound.
proof fn lemma_leave_all_ok<V>(v: Seq<SessionView<V>>, keys: Seq<CapabilityRate>, id: DashboardId)
    requires
        table_ok(v),
    ensures
        table_ok(leave_all(v, keys, id)),
    decreases keys.len(),
{
    if keys.len() > 0 {
        lemma_leave_all_ok(v, keys.drop_last(), id);
        lemma_leave_step_ok(leave_all(v, keys.drop_last(), id), keys.last(), id);
    }
}

/// Changing the request at `i` (but not its rate) leaves the request of
/// another rate `k` where it was.
proof fn lemma_update_keeps_other<V>(v: Seq<SessionView<V>>, i: int, x: SessionView<V>, k: CapabilityRate)
    requires
        0 <= i < v.len(),
        x.0 == v[i].0,
        v[i].0 != k,
        session_pos(v, k) < v.len(),
    ensures
        session_pos(v.update(i, x), k) == session_pos(v, k),
        v.update(i, x)[session_pos(v, k)] == v[session_pos(v, k)],
{
    let p = |s: SessionView<V>| has_key(s, k);
    let w = v.update(i, x);
    assert forall|j: int| 0 <= j < v.len() implies p(#[trigger] w[j]) == p(v[j]) by {
        if j == i {
            assert(w[j].0 == v[j].0);
        }
    }
    lemma_first_index_same(v, w, p);
    lemma_first_index(v, p);
}

/// Dropping the request at `i` leaves the request of another rate `k`.
proof fn lemma_remove_keeps_other<V>(v: Seq<SessionView<V>>, i: int, k: CapabilityRate)
    requires
        0 <= i < v.len(),
        v[i].0 != k,
        session_pos(v, k) < v.len(),
    ensures
        session_pos(v.remove(i), k) < v.remove(i).len(),
        v.remove(i)[session_pos(v.remove(i), k)] == v[session_pos(v, k)],
{
    let p = |s: SessionView<V>| has_key(s, k);
    let w = v.remove(i);
    lemma_first_index(v, p);
    let pk = session_pos(v, k);
    assert(pk != i);
    if pk < i {
        assert forall|j: int| 0 <= j < pk implies !p(#[trigger] w[j]) by {
            assert(w[j] == v[j]);
        }
        assert(w[pk] == v[pk]);
        lemma_first_index_is(w, p, pk);
    } else {
        assert forall|j: int| 0 <= j < pk - 1 implies !p(#[trigger] w[j]) by {
            if j < i {
                assert(w[j] == v[j]);
            } else {
                assert(w[j] == v[j + 1]);
            }
        }
        assert(w[pk - 1] == v[pk]);
        lemma_first_index_is(w, p, pk - 1);
    }
}

/// A step of reconcile on request `key` leaves the request of any other rate
/// `k`, with its subscribers, where it was.
proof fn lemma_revisit_step_keeps_other<V>(v: Seq<SessionView<V>>, key: CapabilityRate, d: Dashboard, k: CapabilityRate)
    requires
        key != k,
        session_pos(v, k) < v.len(),
    ensures
        session_pos(revisit_step(v, key, d), k) < revisit_step(v, key, d).len(),
        revisit_step(v, key, d)[session_pos(revisit_step(v, key, d), k)] == v[session_pos(v, k)],
{
    let pk = |s: SessionView<V>| has_key(s, key);
    lemma_first_index(v, pk);
    let i = session_pos(v, key);
    if i < v.len() {
        match rate_for(d.rates@, key.backend_id, key.capability_id) {
            None => {
                let w = detached(v, key, d.id);
                lemma_update_keeps_other(v, i, w[i], k);
                assert(w == v.update(i, w[i]));
                if idle_after(v, key, d.id) {
                    lemma_first_index(w, pk);
                    assert forall|j: int| 0 <= j < w.len() implies pk(#[trigger] w[j]) == pk(v[j]) by {
                        if j == i {
                            assert(w[j].0 == v[j].0);
                        }
                    }
                    lemma_first_index_same(v, w, pk);
                    lemma_remove_keeps_other(w, i, k);
                }
            },
            Some(_) => {
                let w = resynced(v, key, d);
                lemma_update_keeps_other(v, i, w[i], k);
                assert(w == v.update(i, w[i]));
            },
        }
    } else {
        match rate_for(d.rates@, key.backend_id, key.capability_id) {
            None => {
                assert(detached(v, key, d.id) == v);
                assert(!idle_after(v, key, d.id));
            },
            Some(_) => {},
        }
    }
}

proof fn lemma_revisit_all_keeps<V>(v: Seq<SessionView<V>>, keys: Seq<CapabilityRate>, d: Dashboard, k: CapabilityRate)
    requires
        forall|j: int| 0 <= j < keys.len() ==> #[trigger] keys[j] != k,
        session_pos(v, k) < v.len(),
    ensures
        session_pos(revisit_all(v, keys, d), k) < revisit_all(v, keys, d).len(),
        revisit_all(v, keys, d)[session_pos(revisit_all(v, keys, d), k)] == v[session_pos(v, k)],
    decreases keys.len(),
{
    if keys.len() > 0 {
        assert forall|j: int| 0 <= j < keys.drop_last().len() implies #[trigger] keys.drop_last()[j] != k by {
            assert(keys.drop_last()[j] == keys[j]);
        }
        lemma_revisit_all_keeps(v, keys.drop_last(), d, k);
        assert(keys.last() == keys[keys.len() - 1]);
        lemma_revisit_step_keeps_other(revisit_all(v, keys.drop_last(), d), keys.last(), d, k);
    }
}

/// Following an edit on requests the dashboard holds, each once, keeps the
/// table sound.
proof fn lemma_revisit_all_ok<V>(v: Seq<SessionView<V>>, keys: Seq<CapabilityRate>, d: Dashboard)
    requires
        table_ok(v),
        forall|j: int|
            0 <= j < keys.len() ==> session_pos(v, #[trigger] keys[j]) < v.len() && v[session_pos(
                v,
                keys[j],
            )].1.contains(d.id),
        forall|a: int, b: int| #![trigger keys[a], keys[b]] 0 <= a < b < keys.len() ==> keys[a] != keys[b],
    ensures
        table_ok(revisit_all(v, keys, d)),
    decreases keys.len(),
{
    if keys.len() > 0 {
        let n = keys.len() - 1;
        let init = keys.drop_last();
        assert forall|j: int| 0 <= j < init.len() implies session_pos(v, #[trigger] init[j]) < v.len()
            && v[session_pos(v, init[j])].1.contains(d.id) by {
            assert(init[j] == keys[j]);
        }
        assert forall|a: int, b: int| #![trigger init[a], init[b]] 0 <= a < b < init.len() implies init[a]
            != init[b] by {
            assert(init[a] == keys[a] && init[b] == keys[b]);
        }
        lemma_revisit_all_ok(v, init, d);
        let kl = keys.last();
        assert(kl == keys[n]);
        assert(session_pos(v, keys[n]) < v.len());
        assert forall|j: int| 0 <= j < init.len() implies #[trigger] init[j] != kl by {
            assert(init[j] == keys[j]);
        }
        lemma_revisit_all_keeps(v, init, d, kl);
        let prev = revisit_all(v, init, d);
        match rate_for(d.rates@, kl.backend_id, kl.capability_id) {
            None => {
                lemma_leave_step_ok(prev, kl, d.id);
            },
            Some(_) => {
                lemma_resync_keeps_table_ok(prev, kl, d);
            },
        }
    }
}

/// A sound table without its last request is sound.
proof fn lemma_table_ok_init<V>(v: Seq<SessionView<V>>)
    requires
        table_ok(v),
        v.len() > 0,
    ensures
        table_ok(v.drop_last()),
{
    let init = v.drop_last();
    assert forall|i: int, j: int| #![trigger init[i], init[j]] 0 <= i < j < init.len() implies !same_capability(
        init[i].0,
        init[j].0.backend_id,
        init[j].0.capability_id,
    ) by {
        assert(init[i] == v[i] && init[j] == v[j]);
    }
    assert forall|i: int| 0 <= i < init.len() implies session_ok(#[trigger] init[i]) by {
        assert(init[i] == v[i]);
    }
}

/// In a sound table, the requests a dashboard holds are listed once each,
/// and each is found by its rate, with the dashboard among its subscribers.
pub proof fn lemma_subscribed_rates<V>(v: Seq<SessionView<V>>, id: DashboardId)
    requires
        table_ok(v),
    ensures
        ({
            let keys = subscribed_rates(v, id);
            &&& forall|j: int|
                0 <= j < keys.len() ==> session_pos(v, #[trigger] keys[j]) < v.len() && v[session_pos(
                    v,
                    keys[j],
                )].1.contains(id)
            &&& forall|a: int, b: int| #![trigger keys[a], keys[b]] 0 <= a < b < keys.len() ==> keys[a] != keys[b]
        }),
    decreases v.len(),
{
    if v.len() > 0 {
        let n = v.len() - 1;
        let init = v.drop_last();
        lemma_table_ok_init(v);
        lemma_subscribed_rates(init, id);
        let prev = subscribed_rates(init, id);
        assert(v.last() == v[n]);
        // Old keys keep their requests.
        assert forall|j: int| 0 <= j < prev.len() implies session_pos(v, #[trigger] prev[j]) == session_pos(
            init,
            prev[j],
        ) && v[session_pos(v, prev[j])] == init[session_pos(init, prev[j])] by {
            let p = |s: SessionView<V>| has_key(s, prev[j]);
            let q = session_pos(init, prev[j]);
            lemma_first_index(init, p);
            assert forall|x: int| 0 <= x < q implies !p(#[trigger] v[x]) by {
                assert(v[x] == init[x]);
            }
            assert(v[q] == init[q]);
            lemma_first_index_is(v, p, q);
        }
        if v.last().1.contains(id) {
            let kl = v[n].0;
            let keys = prev.push(kl);
            assert(subscribed_rates(v, id) == keys);
            let p = |s: SessionView<V>| has_key(s, kl);
            assert forall|x: int| 0 <= x < n implies !p(#[trigger] v[x]) by {
                assert(!same_capability(v[x].0, v[n].0.backend_id, v[n].0.capability_id));
            }
            lemma_first_index_is(v, p, n);
            assert forall|j: int| 0 <= j < keys.len() implies session_pos(v, #[trigger] keys[j]) < v.len()
                && v[session_pos(v, keys[j])].1.contains(id) by {
                if j < prev.len() {
                    assert(keys[j] == prev[j]);
                }
            }
            assert forall|a: int, b: int| #![trigger keys[a], keys[b]] 0 <= a < b < keys.len() implies keys[a]
                != keys[b] by {
                assert(keys[a] == prev[a]);
                if b < prev.len() {
                    assert(keys[b] == prev[b]);
                } else {
                    let q = session_pos(init, prev[a]);
                    lemma_first_index(init, |s: SessionView<V>| has_key(s, prev[a]));
                    assert(init[q].0 == prev[a]);
                    assert(v[q] == init[q]);
                    assert(!same_capability(v[q].0, v[n].0.backend_id, v[n].0.capability_id));
                }
            }
        }
    }
}

/// Joining an edited dashboard's rates in turn keeps the table sound.
proof fn lemma_join_all_ok<V>(v: Seq<SessionView<V>>, rates: Seq<CapabilityRate>, d: Dashboard)
    requires
        table_ok(v),
    ensures
        table_ok(join_all(v, rates, d)),
    decreases rates.len(),
{
    if rates.len() > 0 {
        lemma_join_all_ok(v, rates.drop_last(), d);
        let prev = join_all(v, rates.drop_last(), d);
        if !(subscription_pos(prev, d.id, rates.last().backend_id, rates.last().capability_id) < prev.len()
            || conflicts(prev, rates.last())) {
            lemma_join_keeps_table_ok(prev, d, rates.last());
        }
    }
}

/// Following an edit keeps the table sound, and a request is started only
/// where no request of its capability is live.
pub proof fn lemma_reconcile_run_ok<V>(v: Seq<SessionView<V>>, d: Dashboard)
    requires
        table_ok(v),
    ensures
        table_ok(reconcile_run(v, d)),
        forall|k: int|
            0 <= k < d.rates@.len() && #[trigger] starts_at(
                join_all(revisit_all(v, subscribed_rates(v, d.id), d), d.rates@.take(k), d),
                d.rates@[k],
                d,
            ) ==> live_rate(
                join_all(revisit_all(v, subscribed_rates(v, d.id), d), d.rates@.take(k), d),
                d.rates@[k].backend_id,
                d.rates@[k].capability_id,
            ) is None,
{
    lemma_subscribed_rates(v, d.id);
    lemma_revisit_all_ok(v, subscribed_rates(v, d.id), d);
    lemma_join_all_ok(revisit_all(v, subscribed_rates(v, d.id), d), d.rates@, d);
    let mid = revisit_all(v, subscribed_rates(v, d.id), d);
    assert forall|k: int|
        0 <= k < d.rates@.len() && #[trigger] starts_at(join_all(mid, d.rates@.take(k), d), d.rates@[k], d)
            implies live_rate(
        join_all(mid, d.rates@.take(k), d),
        d.rates@[k].backend_id,
        d.rates@[k].capability_id,
    ) is None by {
        lemma_start_finds_capability_free(join_all(mid, d.rates@.take(k), d), d.rates@[k]);
    }
}

/// Stopping a dashboard keeps the table sound.
pub proof fn lemma_stop_run_ok<V>(v: Seq<SessionView<V>>, id: DashboardId)
    requires
        table_ok(v),
    ensures
        table_ok(stop_run(v, id)),
{
    lemma_leave_all_ok(v, subscribed_rates(v, id), id);
}

// ---------------------------------------------------------------------------
// Any run of the program
// ---------------------------------------------------------------------------

/// Over any run of starts, stops, edits and samples from an empty table,
/// where each dashboard sets at most one rate per capability, the table
/// stays sound: at most one request per capability is live, each holder of
/// a capability is listed once, and a dashboard is running exactly when it
/// holds some capability.
pub proof fn lemma_program_runs_stay_sound<V>(steps: Seq<ProgramStep<V>>)
    requires
        steps_well_formed(steps),
    ensures
        table_ok(program_run(steps)),
        one_per_capability(program_run(steps)),
        forall|b: u8, c: u8| #[trigger] holders_of(program_run(steps), b, c).no_duplicates(),
        forall|id: DashboardId| running(program_run(steps), id) <==> (exists|b: u8, c: u8|
            #[trigger] holders_of(program_run(steps), b, c).contains(id)),
    decreases steps.len(),
{
    lemma_empty_table_ok::<V>();
    if steps.len() > 0 {
        let init = steps.drop_last();
        assert forall|i: int| 0 <= i < init.len() implies match #[trigger] init[i] {
            ProgramStep::Start(d) => one_rate_each(d.rates@),
            ProgramStep::Reconcile(d) => one_rate_each(d.rates@),
            _ => true,
        } by {
            assert(init[i] == steps[i]);
        }
        lemma_program_runs_stay_sound(init);
        let prev = program_run(init);
        let last = steps.last();
        assert(last == steps[steps.len() - 1]);
        match last {
            ProgramStep::Start(d) => {
                lemma_start_run_ok(prev, d);
            },
            ProgramStep::Stop(id) => {
                lemma_stop_run_ok(prev, id);
            },
            ProgramStep::StopAll => {},
            ProgramStep::Reconcile(d) => {
                lemma_reconcile_run_ok(prev, d);
            },
            ProgramStep::Ingest(x) => {
                lemma_ingest_keeps_table_ok(prev, seq![x]);
                let xs = seq![x];
                assert(xs.drop_last() =~= Seq::<Sample<V>>::empty());
                assert(xs.last() == x);
                assert(ingested(prev, xs.drop_last()) == prev);
                assert(ingested(prev, xs) == ingest_one(prev, x));
            },
        }
    }
    let v = program_run(steps);
    assert forall|b: u8, c: u8| #[trigger] holders_of(v, b, c).no_duplicates() by {
        lemma_holders_listed_once(v, b, c);
    }
    assert forall|id: DashboardId| running(v, id) <==> (exists|b: u8, c: u8|
        #[trigger] holders_of(v, b, c).contains(id)) by {
        lemma_running_iff_holder(v, id);
    }
}

// ---------------------------------------------------------------------------
// Following an edit, request by request
// ---------------------------------------------------------------------------

proof fn lemma_revisit_all_split<V>(v: Seq<SessionView<V>>, a: Seq<CapabilityRate>, b: Seq<CapabilityRate>, d: Dashboard)
    ensures
        revisit_all(v, a + b, d) == revisit_all(revisit_all(v, a, d), b, d),
    decreases b.len(),
{
    if b.len() == 0 {
        assert(a + b =~= a);
    } else {
        assert((a + b).drop_last() =~= a + b.drop_last());
        assert((a + b).last() == b.last());
        lemma_revisit_all_split(v, a, b.drop_last(), d);
    }
}

/// Every request a dashboard holds is among its subscribed rates.
proof fn lemma_subscribed_contains<V>(v: Seq<SessionView<V>>, id: DashboardId, i: int)
    requires
        0 <= i < v.len(),
        v[i].1.contains(id),
    ensures
        subscribed_rates(v, id).contains(v[i].0),
    decreases v.len(),
{
    let n = v.len() - 1;
    assert(v.last() == v[n]);
    if i < n {
        assert(v.drop_last()[i] == v[i]);
        lemma_subscribed_contains(v.drop_last(), id, i);
        let prev = subscribed_rates(v.drop_last(), id);
        if v.last().1.contains(id) {
            let j = choose|j: int| 0 <= j < prev.len() && prev[j] == v[i].0;
            assert(prev.push(v.last().0)[j] == v[i].0);
        }
    } else {
        let prev = subscribed_rates(v.drop_last(), id);
        assert(prev.push(v[n].0)[prev.len() as int] == v[n].0);
    }
}

/// Joining rate `r` of another rate leaves the request of `k` as it was.
proof fn lemma_join_step_keeps_other<V>(u: Seq<SessionView<V>>, r: CapabilityRate, d: Dashboard, k: CapabilityRate)
    requires
        r != k,
        session_pos(u, k) < u.len(),
    ensures
        session_pos(join_step(u, r, d), k) < join_step(u, r, d).len(),
        join_step(u, r, d)[session_pos(join_step(u, r, d), k)] == u[session_pos(u, k)],
{
    if !(subscription_pos(u, d.id, r.backend_id, r.capability_id) < u.len() || conflicts(u, r)) {
        let pr = |s: SessionView<V>| has_key(s, r);
        let pk = |s: SessionView<V>| has_key(s, k);
        lemma_first_index(u, pr);
        lemma_first_index(u, pk);
        let v1 = if session_pos(u, r) < u.len() {
            u
        } else {
            u.push((r, Seq::empty(), Seq::empty()))
        };
        if session_pos(u, r) == u.len() {
            assert forall|x: int| 0 <= x < u.len() implies !pr(#[trigger] v1[x]) by {
                assert(v1[x] == u[x]);
            }
            lemma_first_index_is(v1, pr, u.len() as int);
            assert forall|x: int| 0 <= x < session_pos(u, k) implies !pk(#[trigger] v1[x]) by {
                assert(v1[x] == u[x]);
            }
            assert(v1[session_pos(u, k)] == u[session_pos(u, k)]);
            lemma_first_index_is(v1, pk, session_pos(u, k));
        }
        lemma_first_index(v1, pr);
        let j = session_pos(v1, r);
        let w = joined(u, d, r);
        assert(w == v1.update(j, w[j]));
        lemma_update_keeps_other(v1, j, w[j], k);
    }
}

/// After the requests before it, the edit's rates leave a request the
/// dashboard holds as it was, and start nothing of its capability.
proof fn lemma_join_all_keeps<V>(u: Seq<SessionView<V>>, rates: Seq<CapabilityRate>, d: Dashboard, k: CapabilityRate)
    requires
        session_pos(u, k) < u.len(),
        u[session_pos(u, k)].1.contains(d.id),
    ensures
        session_pos(join_all(u, rates, d), k) < join_all(u, rates, d).len(),
        join_all(u, rates, d)[session_pos(join_all(u, rates, d), k)] == u[session_pos(u, k)],
        forall|x: int|
            0 <= x < rates.len() && same_capability(#[trigger] rates[x], k.backend_id, k.capability_id)
                ==> !starts_at(join_all(u, rates.take(x), d), rates[x], d),
    decreases rates.len(),
{
    if rates.len() > 0 {
        let n = rates.len() - 1;
        let init = rates.drop_last();
        lemma_join_all_keeps(u, init, d, k);
        let prev = join_all(u, init, d);
        let r = rates.last();
        assert(r == rates[n]);
        let pos = session_pos(prev, k);
        lemma_first_index(prev, |s: SessionView<V>| has_key(s, k));
        assert(prev[pos].0 == k);
        let ps = |s: SessionView<V>| same_capability(s.0, r.backend_id, r.capability_id) && s.1.contains(d.id);
        lemma_first_index(prev, ps);
        if same_capability(r, k.backend_id, k.capability_id) {
            assert(ps(prev[pos]));
            assert(subscription_pos(prev, d.id, r.backend_id, r.capability_id) < prev.len());
        } else {
            assert(r != k);
            lemma_join_step_keeps_other(prev, r, d, k);
        }
        assert forall|x: int|
            0 <= x < rates.len() && same_capability(#[trigger] rates[x], k.backend_id, k.capability_id)
                implies !starts_at(join_all(u, rates.take(x), d), rates[x], d) by {
            if x < n {
                assert(rates.take(x) =~= init.take(x));
                assert(init[x] == rates[x]);
            } else {
                assert(rates.take(x) =~= init);
            }
        }
    }
}

/// The whole edit, seen from one request `k` the dashboard holds and still
/// sets a rate for: afterwards the request is the one `resynced` makes of
/// it (same rate and subscribers, rings following the edited graphs), and
/// nothing of its capability is started.
pub proof fn lemma_reconcile_run_keeps_request<V>(v: Seq<SessionView<V>>, d: Dashboard, k: CapabilityRate)
    requires
        table_ok(v),
        session_pos(v, k) < v.len(),
        v[session_pos(v, k)].1.contains(d.id),
        rate_for(d.rates@, k.backend_id, k.capability_id) is Some,
    ensures
        ({
            let w = reconcile_run(v, d);
            &&& session_pos(w, k) < w.len()
            &&& w[session_pos(w, k)] == resynced(v, k, d)[session_pos(v, k)]
        }),
        forall|x: int|
            0 <= x < d.rates@.len() && same_capability(#[trigger] d.rates@[x], k.backend_id, k.capability_id)
                ==> !starts_at(
                join_all(revisit_all(v, subscribed_rates(v, d.id), d), d.rates@.take(x), d),
                d.rates@[x],
                d,
            ),
{
    let keys = subscribed_rates(v, d.id);
    lemma_subscribed_rates(v, d.id);
    let pos = session_pos(v, k);
    lemma_first_index(v, |s: SessionView<V>| has_key(s, k));
    lemma_subscribed_contains(v, d.id, pos);
    let m = choose|m: int| 0 <= m < keys.len() && keys[m] == v[pos].0;
    assert(keys[m] == k);
    let front = keys.take(m);
    let back = keys.skip(m + 1);
    assert(keys =~= front.push(k) + back);
    assert(front.push(k).drop_last() =~= front);
    assert forall|j: int| 0 <= j < front.len() implies #[trigger] front[j] != k by {
        assert(front[j] == keys[j]);
    }
    lemma_revisit_all_keeps(v, front, d, k);
    let s1 = revisit_all(v, front, d);
    let p1 = session_pos(s1, k);
    lemma_first_index(s1, |s: SessionView<V>| has_key(s, k));
    let s2 = revisit_step(s1, k, d);
    assert(s2 == resynced(s1, k, d));
    // Resyncing keeps the request where it is.
    assert forall|x: int| 0 <= x < s1.len() implies has_key(#[trigger] s2[x], k) == has_key(s1[x], k) by {}
    lemma_first_index_same(s1, s2, |s: SessionView<V>| has_key(s, k));
    assert(s2[p1] == resynced(v, k, d)[pos]);
    assert forall|j: int| 0 <= j < back.len() implies #[trigger] back[j] != k by {
        assert(back[j] == keys[m + 1 + j]);
    }
    lemma_revisit_all_keeps(s2, back, d, k);
    lemma_revisit_all_split(v, front.push(k), back, d);
    let mid = revisit_all(v, keys, d);
    assert(mid == revisit_all(s2, back, d));
    lemma_join_all_keeps(mid, d.rates@, d, k);
}

/// In a sound table, the request at `i` is the only one of its capability.
proof fn lemma_only_of_capability<V>(v: Seq<SessionView<V>>, i: int)
    requires
        table_ok(v),
        0 <= i < v.len(),
    ensures
        forall|j: int| 0 <= j < v.len() && j != i ==> !same_capability(
            #[trigger] v[j].0,
            v[i].0.backend_id,
            v[i].0.capability_id,
        ),
{
    assert forall|j: int| 0 <= j < v.len() && j != i implies !same_capability(
        #[trigger] v[j].0,
        v[i].0.backend_id,
        v[i].0.capability_id,
    ) by {
        if j < i {
            assert(!same_capability(v[j].0, v[i].0.backend_id, v[i].0.capability_id));
        } else {
            assert(!same_capability(v[i].0, v[j].0.backend_id, v[j].0.capability_id));
        }
    }
}

/// Editing the rate of a shared request, over the whole edit: when the
/// dashboard asks other rates for the capability of request `k`, which it
/// shares with another dashboard, the edit leaves the note naming the rate
/// the request stays at; afterwards the request still runs at `k` with the
/// same subscribers, the capability's holders are the same, and nothing of
/// that capability is started.
pub proof fn lemma_reconcile_shared_rate_edit<V>(
    v: Seq<SessionView<V>>,
    d: Dashboard,
    k: CapabilityRate,
    other: DashboardId,
)
    requires
        table_ok(v),
        session_pos(v, k) < v.len(),
        v[session_pos(v, k)].1.contains(d.id),
        v[session_pos(v, k)].1.contains(other),
        other != d.id,
        rate_for(d.rates@, k.backend_id, k.capability_id) matches Some(r) && (r.sampling_rate_ms
            != k.sampling_rate_ms || r.streaming_rate_ms != k.streaming_rate_ms),
    ensures
        reconcile_note(v, k, d) == Some(stays_message(k)),
        ({
            let w = reconcile_run(v, d);
            &&& session_pos(w, k) < w.len()
            &&& w[session_pos(w, k)].0 == k
            &&& w[session_pos(w, k)].1 == v[session_pos(v, k)].1
            &&& holders_of(w, k.backend_id, k.capability_id) == holders_of(v, k.backend_id, k.capability_id)
        }),
        forall|x: int|
            0 <= x < d.rates@.len() && same_capability(#[trigger] d.rates@[x], k.backend_id, k.capability_id)
                ==> !starts_at(
                join_all(revisit_all(v, subscribed_rates(v, d.id), d), d.rates@.take(x), d),
                d.rates@[x],
                d,
            ),
{
    lemma_shared_rate_edit_stays(v, k, d, other);
    lemma_reconcile_run_keeps_request(v, d, k);
    lemma_reconcile_run_ok(v, d);
    let w = reconcile_run(v, d);
    let i = session_pos(v, k);
    let j = session_pos(w, k);
    lemma_first_index(v, |s: SessionView<V>| has_key(s, k));
    lemma_first_index(w, |s: SessionView<V>| has_key(s, k));
    lemma_only_of_capability(v, i);
    lemma_only_of_capability(w, j);
    lemma_holders_single(v, i, k.backend_id, k.capability_id);
    lemma_holders_single(w, j, k.backend_id, k.capability_id);
}

/// A view-only edit over the whole edit: when the dashboard keeps its rate
/// for the capability of request `k` and one graph `graphs[g]` shows metric
/// `m` of it, the edit leaves no note for `k`; afterwards the request runs at
/// the same rate with the same subscribers, every other dashboard's ring on
/// it is as it was, and the dashboard's ring of `m` takes the graph's
/// window, its points trimmed to what the new window keeps.
pub proof fn lemma_reconcile_view_edit<V>(v: Seq<SessionView<V>>, d: Dashboard, k: CapabilityRate, g: int)
    requires
        table_ok(v),
        session_pos(v, k) < v.len(),
        v[session_pos(v, k)].1.contains(d.id),
        rate_for(d.rates@, k.backend_id, k.capability_id) matches Some(r) && r.sampling_rate_ms
            == k.sampling_rate_ms && r.streaming_rate_ms == k.streaming_rate_ms,
        0 <= g < d.graphs@.len(),
        draws_from(d.graphs@[g], k),
        forall|j: int|
            0 <= j < d.graphs@.len() && j != g ==> !(draws_from(#[trigger] d.graphs@[j], k)
                && d.graphs@[j].metric_id == d.graphs@[g].metric_id),
        slot_pos(v[session_pos(v, k)].2, d.id, d.graphs@[g].metric_id) < v[session_pos(v, k)].2.len(),
    ensures
        reconcile_note(v, k, d) is None,
        ({
            let w = reconcile_run(v, d);
            let m = d.graphs@[g].metric_id;
            let old_slots = v[session_pos(v, k)].2;
            let new_slots = w[session_pos(w, k)].2;
            &&& session_pos(w, k) < w.len()
            &&& w[session_pos(w, k)].0 == k
            &&& w[session_pos(w, k)].1 == v[session_pos(v, k)].1
            &&& forall|r: RingView<V>| r.0 != d.id ==> (#[trigger] new_slots.contains(r)
                <==> old_slots.contains(r))
            &&& slot_pos(new_slots, d.id, m) < new_slots.len()
            &&& new_slots[slot_pos(new_slots, d.id, m)] == retarget(
                old_slots[slot_pos(old_slots, d.id, m)],
                d.graphs@[g].window,
            )
        }),
{
    lemma_view_edit_keeps_request(v, k, d, g);
    lemma_reconcile_run_keeps_request(v, d, k);
    lemma_first_index(v, |s: SessionView<V>| has_key(s, k));
}

/// No request of capability `(b, c)` has `id` among its subscribers.
pub open spec fn not_holding<V>(v: Seq<SessionView<V>>, b: u8, c: u8, id: DashboardId) -> bool {
    forall|i: int| 0 <= i < v.len() && same_capability(#[trigger] v[i].0, b, c) ==> !v[i].1.contains(id)
}

proof fn lemma_not_holding_update<V>(u: Seq<SessionView<V>>, i: int, x: SessionView<V>, b: u8, c: u8, id: DashboardId)
    requires
        not_holding(u, b, c, id),
        0 <= i < u.len(),
        x.0 == u[i].0,
        !same_capability(u[i].0, b, c),
    ensures
        not_holding(u.update(i, x), b, c, id),
{
    let w = u.update(i, x);
    assert forall|j: int| 0 <= j < w.len() && same_capability(#[trigger] w[j].0, b, c) implies !w[j].1.contains(id) by {
        assert(j != i);
        assert(w[j] == u[j]);
    }
}

proof fn lemma_not_holding_remove<V>(u: Seq<SessionView<V>>, i: int, b: u8, c: u8, id: DashboardId)
    requires
        not_holding(u, b, c, id),
        0 <= i < u.len(),
    ensures
        not_holding(u.remove(i), b, c, id),
{
    let w = u.remove(i);
    assert forall|j: int| 0 <= j < w.len() && same_capability(#[trigger] w[j].0, b, c) implies !w[j].1.contains(id) by {
        if j < i {
            assert(w[j] == u[j]);
        } else {
            assert(w[j] == u[j + 1]);
        }
    }
}

/// A step of the edit on a request of another capability keeps `id` off
/// capability `(b, c)`.
proof fn lemma_revisit_step_not_holding<V>(u: Seq<SessionView<V>>, key: CapabilityRate, d: Dashboard, b: u8, c: u8)
    requires
        not_holding(u, b, c, d.id),
        !same_capability(key, b, c),
    ensures
        not_holding(revisit_step(u, key, d), b, c, d.id),
{
    let pk = |s: SessionView<V>| has_key(s, key);
    lemma_first_index(u, pk);
    let i = session_pos(u, key);
    if i < u.len() {
        match rate_for(d.rates@, key.backend_id, key.capability_id) {
            None => {
                let w = detached(u, key, d.id);
                assert(w == u.update(i, w[i]));
                lemma_not_holding_update(u, i, w[i], b, c, d.id);
                if idle_after(u, key, d.id) {
                    assert forall|x: int| 0 <= x < w.len() implies pk(#[trigger] w[x]) == pk(u[x]) by {
                        if x == i {
                            assert(w[x].0 == u[x].0);
                        }
                    }
                    lemma_first_index_same(u, w, pk);
                    lemma_not_holding_remove(w, i, b, c, d.id);
                }
            },
            Some(_) => {
                let w = resynced(u, key, d);
                assert(w == u.update(i, w[i]));
                lemma_not_holding_update(u, i, w[i], b, c, d.id);
            },
        }
    } else {
        match rate_for(d.rates@, key.backend_id, key.capability_id) {
            None => {
                assert(detached(u, key, d.id) == u);
                assert(!idle_after(u, key, d.id));
            },
            Some(_) => {},
        }
    }
}

proof fn lemma_revisit_all_not_holding<V>(u: Seq<SessionView<V>>, keys: Seq<CapabilityRate>, d: Dashboard, b: u8, c: u8)
    requires
        not_holding(u, b, c, d.id),
        forall|j: int| 0 <= j < keys.len() ==> !same_capability(#[trigger] keys[j], b, c),
    ensures
        not_holding(revisit_all(u, keys, d), b, c, d.id),
    decreases keys.len(),
{
    if keys.len() > 0 {
        assert forall|j: int| 0 <= j < keys.drop_last().len() implies !same_capability(
            #[trigger] keys.drop_last()[j],
            b,
            c,
        ) by {
            assert(keys.drop_last()[j] == keys[j]);
        }
        lemma_revisit_all_not_holding(u, keys.drop_last(), d, b, c);
        assert(keys.last() == keys[keys.len() - 1]);
        lemma_revisit_step_not_holding(revisit_all(u, keys.drop_last(), d), keys.last(), d, b, c);
    }
}

/// Joining rates of other capabilities keeps `id` off capability `(b, c)`.
proof fn lemma_join_all_not_holding<V>(u: Seq<SessionView<V>>, rates: Seq<CapabilityRate>, d: Dashboard, b: u8, c: u8)
    requires
        not_holding(u, b, c, d.id),
        forall|j: int| 0 <= j < rates.len() ==> !same_capability(#[trigger] rates[j], b, c),
    ensures
        not_holding(join_all(u, rates, d), b, c, d.id),
    decreases rates.len(),
{
    if rates.len() > 0 {
        assert forall|j: int| 0 <= j < rates.drop_last().len() implies !same_capability(
            #[trigger] rates.drop_last()[j],
            b,
            c,
        ) by {
            assert(rates.drop_last()[j] == rates[j]);
        }
        lemma_join_all_not_holding(u, rates.drop_last(), d, b, c);
        let prev = join_all(u, rates.drop_last(), d);
        let r = rates.last();
        assert(r == rates[rates.len() - 1]);
        if !(subscription_pos(prev, d.id, r.backend_id, r.capability_id) < prev.len() || conflicts(prev, r)) {
            let pr = |s: SessionView<V>| has_key(s, r);
            lemma_first_index(prev, pr);
            let v1 = if session_pos(prev, r) < prev.len() {
                prev
            } else {
                prev.push((r, Seq::empty(), Seq::empty()))
            };
            if session_pos(prev, r) == prev.len() {
                assert forall|x: int| 0 <= x < prev.len() implies !pr(#[trigger] v1[x]) by {
                    assert(v1[x] == prev[x]);
                }
                lemma_first_index_is(v1, pr, prev.len() as int);
                assert forall|j: int| 0 <= j < v1.len() && same_capability(#[trigger] v1[j].0, b, c)
                    implies !v1[j].1.contains(d.id) by {
                    if j < prev.len() {
                        assert(v1[j] == prev[j]);
                    }
                }
            }
            lemma_first_index(v1, pr);
            let j = session_pos(v1, r);
            let w = joined(prev, d, r);
            assert(w == v1.update(j, w[j]));
            lemma_not_holding_update(v1, j, w[j], b, c, d.id);
        }
    }
}

proof fn lemma_join_all_keeps_other<V>(u: Seq<SessionView<V>>, rates: Seq<CapabilityRate>, d: Dashboard, k: CapabilityRate)
    requires
        session_pos(u, k) < u.len(),
        forall|j: int| 0 <= j < rates.len() ==> #[trigger] rates[j] != k,
    ensures
        session_pos(join_all(u, rates, d), k) < join_all(u, rates, d).len(),
        join_all(u, rates, d)[session_pos(join_all(u, rates, d), k)] == u[session_pos(u, k)],
    decreases rates.len(),
{
    if rates.len() > 0 {
        assert forall|j: int| 0 <= j < rates.drop_last().len() implies #[trigger] rates.drop_last()[j] != k by {
            assert(rates.drop_last()[j] == rates[j]);
        }
        lemma_join_all_keeps_other(u, rates.drop_last(), d, k);
        assert(rates.last() == rates[rates.len() - 1]);
        lemma_join_step_keeps_other(join_all(u, rates.drop_last(), d), rates.last(), d, k);
    }
}

/// Leaving a capability over the whole edit: when the dashboard no longer
/// sets a rate for the capability of request `k` it holds, the edit reaches
/// `k` with the request as it was, leaves it there, and stops it exactly
/// when the dashboard was its only subscriber; afterwards the dashboard
/// holds nothing of that capability, and when the request goes on, its
/// other subscribers keep their rings.
pub proof fn lemma_reconcile_leaves_capability<V>(v: Seq<SessionView<V>>, d: Dashboard, k: CapabilityRate)
    requires
        table_ok(v),
        session_pos(v, k) < v.len(),
        v[session_pos(v, k)].1.contains(d.id),
        rate_for(d.rates@, k.backend_id, k.capability_id) is None,
    ensures
        idle_after(v, k, d.id) <==> (forall|x: DashboardId| #[trigger] v[session_pos(v, k)].1.contains(x) ==> x == d.id),
        forall|m: int|
            0 <= m < subscribed_rates(v, d.id).len() && subscribed_rates(v, d.id)[m] == k ==> idle_after(
                #[trigger] revisit_all(v, subscribed_rates(v, d.id).take(m), d),
                k,
                d.id,
            ) == idle_after(v, k, d.id),
        !holders_of(reconcile_run(v, d), k.backend_id, k.capability_id).contains(d.id),
        !idle_after(v, k, d.id) ==> ({
            let w = reconcile_run(v, d);
            &&& session_pos(w, k) < w.len()
            &&& w[session_pos(w, k)].1 == without_id(v[session_pos(v, k)].1, d.id)
            &&& w[session_pos(w, k)].2 == rings_without(v[session_pos(v, k)].2, d.id)
        }),
{
    let b = k.backend_id;
    let c = k.capability_id;
    lemma_leaving_capability(v, k, d.id);
    let keys = subscribed_rates(v, d.id);
    lemma_subscribed_rates(v, d.id);
    let pos = session_pos(v, k);
    lemma_first_index(v, |s: SessionView<V>| has_key(s, k));
    lemma_subscribed_contains(v, d.id, pos);
    lemma_only_of_capability(v, pos);
    // The other requests the dashboard holds are of other capabilities.
    assert forall|j: int| 0 <= j < keys.len() && keys[j] != k implies !same_capability(#[trigger] keys[j], b, c) by {
        let q = session_pos(v, keys[j]);
        lemma_first_index(v, |s: SessionView<V>| has_key(s, keys[j]));
        assert(v[q].0 == keys[j]);
        assert(q != pos);
    }
    let m = choose|m: int| 0 <= m < keys.len() && keys[m] == v[pos].0;
    assert(keys[m] == k);
    assert forall|x: int| 0 <= x < keys.len() && keys[x] == k implies x == m by {
        if x != m {
            if x < m {
                assert(keys[x] != keys[m]);
            } else {
                assert(keys[m] != keys[x]);
            }
        }
    }
    let front = keys.take(m);
    let back = keys.skip(m + 1);
    assert(keys =~= front.push(k) + back);
    assert(front.push(k).drop_last() =~= front);
    assert(keys.take(m) == front);
    assert forall|j: int| 0 <= j < front.len() implies #[trigger] front[j] != k by {
        assert(front[j] == keys[j]);
    }
    lemma_revisit_all_keeps(v, front, d, k);
    let s1 = revisit_all(v, front, d);
    let p1 = session_pos(s1, k);
    lemma_first_index(s1, |s: SessionView<V>| has_key(s, k));
    assert(idle_after(s1, k, d.id) == idle_after(v, k, d.id));
    // The request of `k` is the only one of its capability when its turn comes.
    assert forall|j: int| 0 <= j < front.len() implies session_pos(v, #[trigger] front[j]) < v.len()
        && v[session_pos(v, front[j])].1.contains(d.id) by {
        assert(front[j] == keys[j]);
    }
    assert forall|x: int, y: int| #![trigger front[x], front[y]] 0 <= x < y < front.len() implies front[x]
        != front[y] by {
        assert(front[x] == keys[x] && front[y] == keys[y]);
    }
    lemma_revisit_all_ok(v, front, d);
    lemma_only_of_capability(s1, p1);
    let s2 = revisit_step(s1, k, d);
    assert(s2 == leave_step(s1, k, d.id));
    let dt = detached(s1, k, d.id);
    lemma_keep_where_facts(s1[p1].1, d.id);
    assert(dt == s1.update(p1, dt[p1]));
    assert(not_holding(dt, b, c, d.id)) by {
        assert forall|j: int| 0 <= j < dt.len() && same_capability(#[trigger] dt[j].0, b, c) implies !dt[j].1.contains(d.id) by {
            if j != p1 {
                assert(dt[j] == s1[j]);
            }
        }
    }
    assert forall|x: int| 0 <= x < s1.len() implies has_key(#[trigger] dt[x], k) == has_key(s1[x], k) by {}
    lemma_first_index_same(s1, dt, |s: SessionView<V>| has_key(s, k));
    if idle_after(s1, k, d.id) {
        lemma_not_holding_remove(dt, p1, b, c, d.id);
    }
    assert(not_holding(s2, b, c, d.id));
    assert forall|j: int| 0 <= j < back.len() implies !same_capability(#[trigger] back[j], b, c) by {
        assert(back[j] == keys[m + 1 + j]);
        assert(keys[m + 1 + j] != k);
    }
    lemma_revisit_all_not_holding(s2, back, d, b, c);
    lemma_revisit_all_split(v, front.push(k), back, d);
    let mid = revisit_all(v, keys, d);
    assert(mid == revisit_all(s2, back, d));
    // The dashboard sets no rate of this capability.
    lemma_first_index(d.rates@, |r: CapabilityRate| r.backend_id == b && r.capability_id == c);
    assert forall|j: int| 0 <= j < d.rates@.len() implies !same_capability(#[trigger] d.rates@[j], b, c) by {}
    lemma_join_all_not_holding(mid, d.rates@, d, b, c);
    let w = reconcile_run(v, d);
    lemma_reconcile_run_ok(v, d);
    let ci = capability_session_pos(w, b, c);
    lemma_first_index(w, |s: SessionView<V>| same_capability(s.0, b, c));
    if ci < w.len() {
        lemma_only_of_capability(w, ci);
        lemma_holders_single(w, ci, b, c);
    } else {
        lemma_holders_none(w, b, c);
    }
    if !idle_after(v, k, d.id) {
        assert(s2 == dt);
        assert forall|j: int| 0 <= j < back.len() implies #[trigger] back[j] != k by {
            assert(back[j] == keys[m + 1 + j]);
        }
        lemma_revisit_all_keeps(s2, back, d, k);
        assert forall|j: int| 0 <= j < d.rates@.len() implies #[trigger] d.rates@[j] != k by {}
        lemma_join_all_keeps_other(mid, d.rates@, d, k);
    }
}

proof fn lemma_keep_where_facts(ids: Seq<DashboardId>, id: DashboardId)
    ensures
        !without_id(ids, id).contains(id),
{
    crate::seqs::lemma_keep_where(ids, other_than(id));
    if without_id(ids, id).contains(id) {
        let j = choose|j: int| 0 <= j < without_id(ids, id).len() && without_id(ids, id)[j] == id;
        assert(other_than(id)(without_id(ids, id)[j]));
    }
}

} // verus!
