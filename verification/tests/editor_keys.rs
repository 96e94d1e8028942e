use qcperf_tui::model::{Capability, ChartKind, Dashboard, MetricInfo};
use qcperf_tui::ui::editor::{metric_rows, step_list};
use qcperf_tui::ui::lines::editor_line;
use qcperf_tui::ui::{Editor, EditorEffect, Key};

fn capability() -> Capability {
    Capability {
        backend_id: 3,
        capability_id: 1,
        name: "load".into(),
        metrics: vec![
            MetricInfo { metric_id: 1, name: "util".into(), description: String::new(), unit: "%".into() },
            MetricInfo { metric_id: 2, name: "clock".into(), description: String::new(), unit: "MHz".into() },
        ],
        sampling_rates_ms: vec![100, 200, 500],
        streaming_rates_ms: vec![100, 500, 1000],
    }
}

#[test]
fn rows_cover_every_metric() {
    let rows = metric_rows(&[capability()]);
    assert_eq!(rows.len(), 2);
    assert_eq!(rows[0].label, "load (backend 3) / util");
    assert_eq!(rows[1].unit, "MHz");
}

#[test]
fn space_adds_a_graph_with_the_default_rate_and_removes_it_again() {
    let caps = vec![capability()];
    let mut editor = Editor::open(Dashboard::new("x".into()).unwrap());
    assert!(matches!(editor.handle_key(Key::Char(' '), &caps, false), EditorEffect::Nothing));
    assert_eq!(editor.dashboard.graphs.len(), 1);
    assert_eq!(editor.dashboard.graphs[0].chart, ChartKind::Pie);
    assert_eq!(editor.dashboard.graphs[0].window, 60_000);
    assert_eq!(editor.dashboard.rates.len(), 1);
    assert_eq!(editor.dashboard.rates[0].sampling_rate_ms, 100);
    assert_eq!(editor.dashboard.rates[0].streaming_rate_ms, 100);
    editor.handle_key(Key::Char(' '), &caps, false);
    assert!(editor.dashboard.graphs.is_empty());
    assert!(editor.dashboard.rates.is_empty());
}

#[test]
fn rate_keys_step_through_the_offered_lists() {
    let caps = vec![capability()];
    let mut editor = Editor::open(Dashboard::new("x".into()).unwrap());
    editor.handle_key(Key::Char(' '), &caps, false);
    editor.handle_key(Key::Right { shift: false }, &caps, false);
    assert_eq!(editor.dashboard.rates[0].sampling_rate_ms, 200);
    assert_eq!(editor.dashboard.rates[0].streaming_rate_ms, 500);
    editor.handle_key(Key::Right { shift: true }, &caps, false);
    assert_eq!(editor.dashboard.rates[0].streaming_rate_ms, 1000);
    editor.handle_key(Key::Right { shift: true }, &caps, false);
    assert_eq!(editor.dashboard.rates[0].streaming_rate_ms, 1000);
    match editor.handle_key(Key::Left { shift: false }, &caps, true) {
        EditorEffect::Status(text) => assert_eq!(
            text,
            "that capability is streaming on another dashboard; stop it there before changing the rate"
        ),
        _ => panic!("expected a status"),
    }
    assert_eq!(editor.dashboard.rates[0].sampling_rate_ms, 200);
}

#[test]
fn chart_color_and_window_keys_edit_the_focused_graph() {
    let caps = vec![capability()];
    let mut editor = Editor::open(Dashboard::new("x".into()).unwrap());
    editor.handle_key(Key::Down, &caps, false);
    editor.handle_key(Key::Down, &caps, false);
    assert_eq!(editor.cursor, 1);
    editor.handle_key(Key::Char(' '), &caps, false);
    assert_eq!(editor.dashboard.graphs[0].chart, ChartKind::Line);
    editor.handle_key(Key::Char('t'), &caps, false);
    assert_eq!(editor.dashboard.graphs[0].chart, ChartKind::Bar);
    editor.handle_key(Key::Char('c'), &caps, false);
    assert_eq!(editor.dashboard.graphs[0].color.index, 1);
    editor.handle_key(Key::Char('w'), &caps, false);
    assert_eq!(editor.dashboard.graphs[0].window, 300_000);
    let rows = metric_rows(&caps);
    assert_eq!(
        editor_line(&editor.dashboard, &rows[1]),
        "[x] load (backend 3) / clock (MHz)  bar  300s  color 1  sample 100 ms  stream 100 ms"
    );
    assert_eq!(editor_line(&editor.dashboard, &rows[0]), "[ ] load (backend 3) / util (%)  sample 100 ms  stream 100 ms");
}

#[test]
fn esc_cancels_and_enter_saves() {
    let caps = vec![capability()];
    let mut editor = Editor::open(Dashboard::new("x".into()).unwrap());
    assert!(matches!(editor.handle_key(Key::Esc, &caps, false), EditorEffect::Cancel));
    assert!(matches!(editor.handle_key(Key::Enter, &caps, false), EditorEffect::Saved));
    assert!(matches!(editor.handle_key(Key::Enter, &[], false), EditorEffect::Nothing));
    assert!(matches!(editor.handle_key(Key::Esc, &[], false), EditorEffect::Cancel));
}

#[test]
fn step_list_stays_inside_the_list() {
    let values = [100u16, 200, 500];
    let mut current = 200u16;
    step_list(&values, &mut current, 1);
    assert_eq!(current, 500);
    step_list(&values, &mut current, 1);
    assert_eq!(current, 500);
    let mut unknown = 150u16;
    step_list(&values, &mut unknown, 1);
    assert_eq!(unknown, 200);
    let mut low = 100u16;
    step_list(&values, &mut low, -1);
    assert_eq!(low, 100);
}
