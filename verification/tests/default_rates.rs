use qcperf_tui::model::{default_rate, Capability, MetricInfo};

fn capability(sampling: Vec<u16>, streaming: Vec<u16>) -> Capability {
    Capability {
        backend_id: 2,
        capability_id: 7,
        name: "freq".into(),
        metrics: vec![MetricInfo {
            metric_id: 1,
            name: "cpu0".into(),
            description: String::new(),
            unit: "MHz".into(),
        }],
        sampling_rates_ms: sampling,
        streaming_rates_ms: streaming,
    }
}

#[test]
fn default_streaming_rate_is_the_smallest_listed_at_or_above_sampling() {
    let cap = capability(vec![100], vec![50, 500, 200]);
    let rate = default_rate(&cap).unwrap();
    assert_eq!(rate.backend_id, 2);
    assert_eq!(rate.capability_id, 7);
    assert_eq!(rate.sampling_rate_ms, 100);
    assert_eq!(rate.streaming_rate_ms, 200);
    assert!(rate.validate(&cap).is_ok());
}

#[test]
fn default_streaming_rate_falls_back_to_the_last_entry() {
    let cap = capability(vec![1000, 100], vec![50, 500, 200]);
    let rate = default_rate(&cap).unwrap();
    assert_eq!(rate.sampling_rate_ms, 1000);
    assert_eq!(rate.streaming_rate_ms, 200);
}

#[test]
fn no_default_rate_without_both_lists() {
    assert!(default_rate(&capability(vec![], vec![100])).is_none());
    assert!(default_rate(&capability(vec![100], vec![])).is_none());
}
