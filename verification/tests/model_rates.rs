use qcperf_tui::model::{
    ring_capacity, Capability, CapabilityRate, ChartKind, MetricInfo, SampleRing, MAX_RING_POINTS,
};

fn capability() -> Capability {
    Capability {
        backend_id: 3,
        capability_id: 1,
        name: "load".into(),
        metrics: vec![MetricInfo {
            metric_id: 1,
            name: "util".into(),
            description: String::new(),
            unit: "%".into(),
        }],
        sampling_rates_ms: vec![100, 200, 500],
        streaming_rates_ms: vec![100, 500, 1000],
    }
}

#[test]
fn rejects_rate_outside_the_capability_list() {
    let cap = capability();
    let rate = CapabilityRate {
        backend_id: 3,
        capability_id: 1,
        sampling_rate_ms: 150,
        streaming_rate_ms: 1000,
    };
    assert!(rate.validate(&cap).is_err());
}

#[test]
fn rejects_streaming_shorter_than_sampling() {
    let cap = capability();
    let rate = CapabilityRate {
        backend_id: 3,
        capability_id: 1,
        sampling_rate_ms: 500,
        streaming_rate_ms: 100,
    };
    assert!(rate.validate(&cap).is_err());
}

#[test]
fn accepts_listed_rates() {
    let cap = capability();
    let rate = CapabilityRate {
        backend_id: 3,
        capability_id: 1,
        sampling_rate_ms: 200,
        streaming_rate_ms: 1000,
    };
    assert!(rate.validate(&cap).is_ok());
}

#[test]
fn pie_is_the_default_for_percent_and_line_for_mhz() {
    assert_eq!(ChartKind::default_for("%"), ChartKind::Pie);
    assert_eq!(ChartKind::default_for("percent"), ChartKind::Pie);
    assert_eq!(ChartKind::default_for("MHz"), ChartKind::Line);
}

#[test]
fn ring_drops_samples_outside_the_window() {
    let mut ring = SampleRing::new(1000, 100);
    let start: u64 = 1_700_000_000 * 1000;
    ring.push(start, 1.0f64);
    ring.push(start + 500, 2.0);
    ring.push(start + 2000, 3.0);
    let values: Vec<_> = ring.points().iter().map(|(_, value)| *value).collect();
    assert_eq!(values, vec![3.0]);
}

#[test]
fn ring_capacity_is_capped() {
    assert_eq!(ring_capacity(10_000 * 1000, 1), MAX_RING_POINTS);
}
