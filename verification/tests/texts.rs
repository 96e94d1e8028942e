use qcperf_tui::app::Screen;
use qcperf_tui::error::Error;
use qcperf_tui::export::calendar::civil_from_days;
use qcperf_tui::export::csv::{csv_file, format_rfc3339, safe_name};
use qcperf_tui::model::{CapabilityRate, Dashboard, RunState};
use qcperf_tui::theme::{default_palette, Theme};
use qcperf_tui::ui::lines::{header, list_row, rate_summary, truncate};

fn dashboard() -> Dashboard {
    let mut d = Dashboard::new("Overview".into()).unwrap();
    d.rates = vec![
        CapabilityRate { backend_id: 3, capability_id: 1, sampling_rate_ms: 100, streaming_rate_ms: 500 },
        CapabilityRate { backend_id: 4, capability_id: 2, sampling_rate_ms: 200, streaming_rate_ms: 1000 },
    ];
    d
}

#[test]
fn header_and_list_lines() {
    let d = dashboard();
    assert_eq!(rate_summary(&d), "b3:c1 100/500ms b4:c2 200/1000ms");
    assert_eq!(
        header(Some(&d), Screen::View),
        "Overview  Idle  b3:c1 100/500ms b4:c2 200/1000ms    s start  x stop  e edit  c csv  v follow  p snapshot  ? help"
    );
    assert_eq!(header(None, Screen::Help), "qcperf-tui    Esc back");
    let mut running = dashboard();
    running.run = RunState::Running;
    let (first, state, count) = list_row(&running);
    assert_eq!((first.as_str(), state, count.as_str()), ("● Overview  ", "Running", "  0 graphs"));
}

#[test]
fn labels_are_cut_with_an_ellipsis() {
    assert_eq!(truncate("hello", 3), "he…");
    assert_eq!(truncate("hi", 5), "hi");
    assert_eq!(truncate("x", 0), "");
}

#[test]
fn times_and_file_names() {
    assert_eq!(civil_from_days(0), (1970, 1, 1));
    assert_eq!(civil_from_days(19_675), (2023, 11, 14));
    assert_eq!(format_rfc3339(1_700_000_000_123), "2023-11-14T22:13:20.123Z");
    assert_eq!(format_rfc3339(951_782_400_000), "2000-02-29T00:00:00.000Z");
    assert_eq!(safe_name("my dash/1"), "my_dash_1");
    assert_eq!(safe_name(""), "dashboard");
    assert_eq!(csv_file("Over view", 1_700_000_000_000), "Over_view-2023-11-14.csv");
}

#[test]
fn error_texts() {
    assert_eq!(Error::Toml("bad".into()).text(), "invalid dashboard file: bad");
    assert_eq!(Error::Json("bad".into()).text(), "invalid snapshot: bad");
    assert_eq!(Error::QcPerf { code: 4, message: "busy".into() }.text(), "libqcperf error 4: busy");
    assert_eq!(Error::message("plain".into()).text(), "plain");
}

#[test]
fn theme_colors_cycle_through_the_palette() {
    let theme = Theme::from_palette(None);
    assert_eq!(theme.color(0), (80, 200, 255));
    assert_eq!(theme.color(5), (80, 200, 255));
    assert_eq!(theme.color(6), (255, 176, 46));
    assert_eq!(Theme::from_palette(Some(vec![])).color(1), default_palette()[1]);
    assert_eq!(Theme::from_palette(Some(vec![(1, 2, 3)])).color(7), (1, 2, 3));
}

#[test]
fn new_dashboards_get_random_version_four_ids() {
    let a = Dashboard::new("a".into()).unwrap();
    let b = Dashboard::new("b".into()).unwrap();
    assert_ne!(a.id, b.id);
    assert_eq!((a.id >> 76) & 0xF, 4);
    assert_eq!((a.id >> 62) & 0x3, 2);
}

#[test]
fn dates_before_the_epoch_and_around_leap_days() {
    assert_eq!(civil_from_days(-1), (1969, 12, 31));
    assert_eq!(civil_from_days(-365), (1969, 1, 1));
    assert_eq!(civil_from_days(-719_468), (0, 3, 1));
    assert_eq!(civil_from_days(11_016), (2000, 2, 29));
    assert_eq!(civil_from_days(11_017), (2000, 3, 1));
}

#[test]
fn rfc3339_texts_sort_as_their_times() {
    let times = [0u64, 999, 1_000, 59_999, 86_399_999, 86_400_000, 951_782_400_000, 1_700_000_000_123];
    for pair in times.windows(2) {
        let a = format_rfc3339(pair[0]);
        let b = format_rfc3339(pair[1]);
        assert!(a < b, "{a} !< {b}");
        assert_eq!(a.len(), 24);
        assert_eq!(&a[4..5], "-");
        assert_eq!(&a[10..11], "T");
        assert_eq!(&a[23..24], "Z");
    }
}
