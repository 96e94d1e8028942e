use qcperf_tui::backend::qcperf::{
    check, copy_metric, copy_rates, copy_text, init_accepted, message_event, request_from,
    sample_time, samples_from, shutdown_failure, BridgeEvent, MessageLevel, MetricRow, QcPerf,
    ReturnCode, ShutdownFailure,
};
use qcperf_tui::error::Error;
use qcperf_tui::model::CapabilityRate;

fn failure() -> Error {
    Error::QcPerf { code: -3, message: "boom".into() }
}

#[test]
fn connect_answers_become_warnings() {
    let mut qc = QcPerf::new();
    assert!(!qc.note_connect(1, ReturnCode::InvalidBackendId, &failure()));
    assert!(!qc.note_connect(4, ReturnCode::NotSupported, &failure()));
    assert!(qc.warnings().is_empty());
    assert!(!qc.note_connect(5, ReturnCode::Failed, &failure()));
    assert_eq!(qc.warnings(), &["backend 5: libqcperf error -3: boom".to_string()]);
    assert!(qc.note_connect(2, ReturnCode::BackendAlreadyConnected, &failure()));
    qc.note_data_callback(2, ReturnCode::CallbackAlreadySet, &failure());
    qc.note_data_callback(2, ReturnCode::Failed, &failure());
    assert_eq!(qc.warnings()[1], "backend 2 data callback: libqcperf error -3: boom");
    qc.note_capabilities(Err(Error::message("no caps".into())));
    assert_eq!(qc.warnings()[2], "no caps");
    qc.mark_connected(1);
    qc.mark_connected(2);
    assert_eq!(qc.connected(), &[1, 2]);
    assert_eq!(qc.disconnect_order(), vec![2, 1]);
}

#[test]
fn shutdown_reports_the_first_failure() {
    assert_eq!(
        shutdown_failure(&[ReturnCode::Success, ReturnCode::Failed, ReturnCode::Failed], ReturnCode::Failed),
        Some(ShutdownFailure::Disconnect(1))
    );
    assert_eq!(shutdown_failure(&[ReturnCode::Success], ReturnCode::NotInitialized), None);
    assert_eq!(shutdown_failure(&[], ReturnCode::Failed), Some(ShutdownFailure::Deinit));
}

#[test]
fn return_codes() {
    assert!(init_accepted(ReturnCode::AlreadyInitialized));
    assert!(!init_accepted(ReturnCode::Failed));
    assert_eq!(check(ReturnCode::Success), Ok(()));
    assert_eq!(check(ReturnCode::NotSupported), Err(ReturnCode::NotSupported));
    let rate = CapabilityRate { backend_id: 3, capability_id: 1, sampling_rate_ms: 100, streaming_rate_ms: 500 };
    let request = request_from(&rate);
    assert_eq!((request.capability_id, request.sampling_rate, request.streaming_rate), (1, 100, 500));
}

#[test]
fn c_text_fields_stop_at_the_length_and_at_nul() {
    assert_eq!(copy_text(b"abc\0def", 10), "abc");
    assert_eq!(copy_text(b"abcdef", 3), "abc");
    assert_eq!(copy_text(&[0xff, b'a'], 2), "\u{FFFD}a");
    assert_eq!(copy_rates(&[1, 2, 3, 4], 2), vec![1, 2]);
    assert_eq!(copy_rates(&[1, 2], 9), vec![1, 2]);
    let metric = copy_metric(7, b"util\0", 8, b"load", 4, b"%", 1);
    assert_eq!((metric.metric_id, metric.name.as_str(), metric.description.as_str(), metric.unit.as_str()), (7, "util", "load", "%"));
}

#[test]
fn only_warnings_and_errors_with_text_reach_the_status() {
    match message_event::<f64>(MessageLevel::Warning, Some(b"  disk full \n")) {
        Some(BridgeEvent::Message { level, text }) => {
            assert_eq!(level, "warning");
            assert_eq!(text, "disk full");
        }
        _ => panic!("expected a message"),
    }
    assert!(message_event::<f64>(MessageLevel::Info, Some(b"hello")).is_none());
    assert!(message_event::<f64>(MessageLevel::Error, Some(b"   ")).is_none());
    assert!(message_event::<f64>(MessageLevel::Error, None).is_none());
}

#[test]
fn rows_without_a_numeric_value_are_skipped() {
    let rows = [
        MetricRow { timestamp: 0, metric_id: 1, value: Some(1.5f64) },
        MetricRow { timestamp: 7, metric_id: 2, value: None },
        MetricRow { timestamp: 9, metric_id: 3, value: Some(2.0) },
    ];
    let samples = samples_from(3, 1, &rows, 100);
    assert_eq!(samples.len(), 2);
    assert_eq!((samples[0].at, samples[0].metric_id, samples[0].value), (100, 1, 1.5));
    assert_eq!((samples[1].at, samples[1].metric_id, samples[1].backend_id), (9, 3, 3));
    assert_eq!(sample_time(0, 5), 5);
    assert_eq!(sample_time(7, 5), 7);
}
