use qcperf_tui::backend::session::{JoinPlan, Revisit};
use qcperf_tui::backend::SessionTable;
use qcperf_tui::model::{CapabilityRate, ChartKind, Dashboard, GraphSpec, RunState, Sample, SeriesColor};

fn rate(sampling: u16, streaming: u16) -> CapabilityRate {
    CapabilityRate { backend_id: 3, capability_id: 1, sampling_rate_ms: sampling, streaming_rate_ms: streaming }
}

fn graph(metric_id: u16) -> GraphSpec {
    GraphSpec {
        backend_id: 3,
        capability_id: 1,
        metric_id,
        chart: ChartKind::Line,
        color: SeriesColor::new(0),
        window: 60_000,
    }
}

fn dashboard(id: u128, metrics: &[u16], rates: Vec<CapabilityRate>) -> Dashboard {
    Dashboard {
        id,
        name: format!("d{id}"),
        graphs: metrics.iter().map(|m| graph(*m)).collect(),
        rates,
        run: RunState::Idle,
        csv_export: false,
    }
}

fn sample(at: u64, capability_id: u8, metric_id: u16, value: f64) -> Sample<f64> {
    Sample { at, backend_id: 3, capability_id, metric_id, value }
}

#[test]
fn dashboards_on_the_same_rates_share_one_request() {
    let mut table: SessionTable<f64> = SessionTable::new();
    let r = rate(100, 500);
    let first = dashboard(1, &[1], vec![r]);
    let second = dashboard(2, &[1, 2], vec![r]);
    assert!(table.check_start(&first).is_ok());
    assert!(table.needs_start(&r));
    table.attach(&first, &r);
    assert!(!table.needs_start(&r));
    assert!(table.check_start(&second).is_ok());
    table.attach(&second, &r);
    assert_eq!(table.active_rates(), vec![r]);
    assert_eq!(table.holders(3, 1), vec![1, 2]);
    assert!(table.is_running(1) && table.is_running(2));
    assert_eq!(table.subscriptions(2), vec![r]);
}

#[test]
fn a_second_rate_on_a_started_capability_is_refused() {
    let mut table: SessionTable<f64> = SessionTable::new();
    let first = dashboard(1, &[1], vec![rate(100, 500)]);
    table.attach(&first, &rate(100, 500));
    let other = dashboard(2, &[1], vec![rate(200, 500)]);
    let err = table.check_start(&other).unwrap_err();
    assert_eq!(
        err.text(),
        "backend 3 capability 1 is already streaming at sample 100 ms / stream 500 ms"
    );
    match table.join_plan(2, &rate(200, 500)) {
        JoinPlan::Conflict(text) => assert_eq!(
            text,
            "backend 3 capability 1 is already streaming at sample 100 ms / stream 500 ms"
        ),
        _ => panic!("expected a conflict"),
    }
    assert!(matches!(table.join_plan(1, &rate(100, 500)), JoinPlan::Subscribed));
    assert!(matches!(table.join_plan(3, &rate(100, 500)), JoinPlan::Join));
}

#[test]
fn samples_reach_only_the_rings_of_their_metric() {
    let mut table: SessionTable<f64> = SessionTable::new();
    let r = rate(100, 500);
    let d = dashboard(7, &[1], vec![r]);
    table.attach(&d, &r);
    table.ingest(&[sample(1000, 1, 1, 42.0), sample(1500, 1, 9, 1.0), sample(1600, 2, 1, 5.0)]);
    assert_eq!(table.points(7, 1), vec![(1000, 42.0)]);
    assert_eq!(table.points(7, 9), Vec::<(u64, f64)>::new());
    assert_eq!(table.ring(7, 1).map(|ring| ring.window()), Some(60_000));
    assert!(table.ring(8, 1).is_none());
}

#[test]
fn stopping_the_last_subscriber_frees_the_request() {
    let mut table: SessionTable<f64> = SessionTable::new();
    let r = rate(100, 500);
    let a = dashboard(1, &[1], vec![r]);
    let b = dashboard(2, &[1], vec![r]);
    table.attach(&a, &r);
    table.attach(&b, &r);
    assert!(!table.detach(&r, 1));
    assert_eq!(table.holders(3, 1), vec![2]);
    assert!(table.detach(&r, 2));
    table.remove_session(&r);
    assert!(table.active_rates().is_empty());
    assert!(!table.is_running(2));
}

#[test]
fn an_edit_that_changes_a_shared_rate_leaves_a_note() {
    let mut table: SessionTable<f64> = SessionTable::new();
    let r = rate(100, 500);
    let a = dashboard(1, &[1], vec![r]);
    let b = dashboard(2, &[1], vec![r]);
    table.attach(&a, &r);
    table.attach(&b, &r);
    let edited = dashboard(1, &[1, 2], vec![rate(200, 500)]);
    match table.revisit(&r, &edited) {
        Revisit::Kept(Some(note)) => assert_eq!(
            note,
            "backend 3 capability 1 stays at sample 100 ms / stream 500 ms until every dashboard stops it"
        ),
        _ => panic!("expected a note"),
    }
    assert!(table.ring(1, 2).is_some());
    let dropped = dashboard(2, &[], vec![]);
    assert!(matches!(table.revisit(&r, &dropped), Revisit::Left { idle: false }));
    assert_eq!(table.holders(3, 1), vec![1]);
}

#[test]
fn stop_all_clears_the_table() {
    let mut table: SessionTable<f64> = SessionTable::new();
    let r = rate(100, 500);
    table.attach(&dashboard(1, &[1], vec![r]), &r);
    table.clear();
    assert!(table.active_rates().is_empty());
}
