use qcperf_tui::backend::SessionTable;
use qcperf_tui::export::csv::{export_samples, format_row, shown_samples};
use qcperf_tui::export::snapshot::{snapshot, snapshot_file, snapshot_points};
use qcperf_tui::model::{
    Capability, CapabilityRate, ChartKind, Dashboard, GraphSpec, MetricInfo, RunState, Sample,
    SeriesColor,
};
use qcperf_tui::persist::{name_in_order, settle_loaded};

fn named(name: &str, run: RunState) -> Dashboard {
    let mut d = Dashboard::new(name.into()).unwrap();
    d.run = run;
    d
}

fn setup() -> (Vec<Capability>, Dashboard, SessionTable<f64>) {
    let caps = vec![Capability {
        backend_id: 3,
        capability_id: 1,
        name: "cpu".into(),
        metrics: vec![MetricInfo { metric_id: 1, name: "util".into(), description: String::new(), unit: "%".into() }],
        sampling_rates_ms: vec![100],
        streaming_rates_ms: vec![100],
    }];
    let rate = CapabilityRate { backend_id: 3, capability_id: 1, sampling_rate_ms: 100, streaming_rate_ms: 100 };
    let mut d = Dashboard::new("my dash".into()).unwrap();
    d.graphs = vec![GraphSpec { backend_id: 3, capability_id: 1, metric_id: 1, chart: ChartKind::Pie, color: SeriesColor::new(0), window: 60_000 }];
    d.rates = vec![rate];
    let mut table = SessionTable::new();
    table.attach(&d, &rate);
    table.ingest(&[Sample { at: 1_700_000_000_000, backend_id: 3, capability_id: 1, metric_id: 1, value: 12.5 }]);
    (caps, d, table)
}

#[test]
fn loaded_dashboards_are_idle_and_ordered_by_name() {
    let loaded = vec![named("b", RunState::Running), named("a", RunState::Stopped), named("B", RunState::Idle)];
    let settled = settle_loaded(loaded);
    let names: Vec<_> = settled.iter().map(|d| d.name.as_str()).collect();
    assert_eq!(names, vec!["B", "a", "b"]);
    assert!(settled.iter().all(|d| d.run == RunState::Idle));
    assert!(name_in_order("ab", "b"));
    assert!(name_in_order("a", "ab"));
    assert!(!name_in_order("b", "a"));
}

#[test]
fn snapshots_list_graphs_rates_and_points() {
    let (caps, d, table) = setup();
    let points = snapshot_points(&d, &table);
    assert_eq!(points, vec![(1, vec![(1_700_000_000_000, 12.5)])]);
    let snap = snapshot(&caps, &d, &points);
    assert_eq!(snap.name, "my dash");
    assert_eq!(snap.run, "Idle");
    assert_eq!(snap.graphs[0].chart, "pie");
    assert_eq!(snap.graphs[0].window_ms, 60_000);
    assert_eq!(snap.rates, d.rates);
    assert_eq!(snap.series[0].metric_name, "util");
    assert_eq!(snap.series[0].unit, "%");
    assert_eq!(snap.series[0].points[0].timestamp_rfc3339, "2023-11-14T22:13:20.000Z");
    assert_eq!(snap.series[0].points[0].value, 12.5);
    assert_eq!(snapshot_file("my dash", 1_700_000_000_000), "my_dash-2023-11-14T22_13_20_000Z.json");
}

#[test]
fn exports_write_the_rings_and_follow_only_shown_metrics() {
    let (_caps, d, table) = setup();
    let samples = export_samples(&d, &table);
    assert_eq!(samples.len(), 1);
    assert_eq!((samples[0].at, samples[0].metric_id, samples[0].value), (1_700_000_000_000, 1, 12.5));
    let batch = [
        Sample { at: 1, backend_id: 3, capability_id: 1, metric_id: 1, value: 1.0 },
        Sample { at: 2, backend_id: 3, capability_id: 1, metric_id: 2, value: 2.0 },
    ];
    let shown = shown_samples(&d, &batch);
    assert_eq!(shown.len(), 1);
    assert_eq!(shown[0].at, 1);
    let row = format_row("a,b", "say \"hi\"", "%", &shown[0], "1");
    assert!(row.ends_with(",\"a,b\",3,1,1,\"say \"\"hi\"\"\",1,%"));
}
