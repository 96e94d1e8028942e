use qcperf_tui::app::{App, Command, Screen};
use qcperf_tui::backend::qcperf::QcPerf;
use qcperf_tui::backend::SessionTable;
use qcperf_tui::error::Error;
use qcperf_tui::model::{
    Capability, CapabilityRate, ChartKind, Dashboard, GraphSpec, MetricInfo, RunState, SeriesColor,
};
use qcperf_tui::theme::Theme;
use qcperf_tui::ui::Key;

fn capability() -> Capability {
    Capability {
        backend_id: 3,
        capability_id: 1,
        name: "load".into(),
        metrics: vec![MetricInfo { metric_id: 1, name: "util".into(), description: String::new(), unit: "%".into() }],
        sampling_rates_ms: vec![100, 200],
        streaming_rates_ms: vec![100, 500],
    }
}

#[test]
fn without_libqcperf_the_list_shows_the_error_and_start_explains() {
    let sessions: SessionTable<f64> = SessionTable::new();
    let (mut app, command) = App::new(None, Some("no library".into()), vec![], Theme::from_palette(None));
    assert!(matches!(command, Command::Nothing));
    assert_eq!(app.status(), "no library");
    assert_eq!(app.screen(), Screen::List);
    assert!(matches!(app.handle_key(Key::Char('n'), &sessions), Command::Save(0)));
    assert_eq!(app.dashboards()[0].name, "Dashboard 1");
    assert_eq!(app.screen(), Screen::Edit);
    assert!(matches!(app.handle_key(Key::Esc, &sessions), Command::Nothing));
    assert_eq!(app.screen(), Screen::View);
    assert!(matches!(app.handle_key(Key::Char('s'), &sessions), Command::Nothing));
    assert_eq!(app.status(), "no library");
    assert!(matches!(app.handle_key(Key::Char('q'), &sessions), Command::Quit));
}

#[test]
fn first_start_builds_the_overview() {
    let mut qc = QcPerf::new();
    qc.note_capabilities(Ok(vec![capability()]));
    let (app, command) = App::new(Some(qc), None, vec![], Theme::from_palette(None));
    assert!(matches!(command, Command::Save(0)));
    assert_eq!(app.dashboards().len(), 1);
    assert_eq!(app.dashboards()[0].name, "Overview");
    assert_eq!(app.status(), "Up/Down select a dashboard, Enter opens it, ? shows help");
}

#[test]
fn view_keys_cycle_follow_and_help() {
    let sessions: SessionTable<f64> = SessionTable::new();
    let mut qc = QcPerf::new();
    qc.note_capabilities(Ok(vec![capability()]));
    let (mut app, _) = App::new(Some(qc), None, vec![], Theme::from_palette(None));
    app.handle_key(Key::Char('n'), &sessions);
    app.handle_key(Key::Esc, &sessions);
    assert_eq!(app.selected(), 1);
    assert!(matches!(app.handle_key(Key::Tab, &sessions), Command::Nothing));
    assert_eq!(app.selected(), 0);
    assert_eq!(app.status(), "showing Overview");
    app.handle_key(Key::Left { shift: false }, &sessions);
    assert_eq!(app.selected(), 1);
    assert!(matches!(app.handle_key(Key::Char('v'), &sessions), Command::Save(1)));
    assert_eq!(app.status(), "Dashboard 2 will append CSV while it runs");
    assert!(matches!(app.handle_key(Key::Char('s'), &sessions), Command::Nothing));
    assert_eq!(app.status(), "edit the dashboard and choose at least one metric before starting");
    app.handle_key(Key::Char('?'), &sessions);
    assert_eq!(app.screen(), Screen::Help);
    app.handle_key(Key::Esc, &sessions);
    assert_eq!(app.screen(), Screen::View);
    assert!(matches!(app.handle_key(Key::Char('p'), &sessions), Command::Snapshot(1)));
    app.handle_key(Key::Tab, &sessions);
    assert!(matches!(app.handle_key(Key::Char('s'), &sessions), Command::Start(0)));
}

#[test]
fn running_dashboards_are_not_deleted() {
    let sessions: SessionTable<f64> = SessionTable::new();
    let mut qc = QcPerf::new();
    qc.note_capabilities(Ok(vec![capability()]));
    let (mut app, _) = App::new(Some(qc), None, vec![], Theme::from_palette(None));
    app.start_finished(0, Ok(()));
    assert_eq!(app.dashboards()[0].run, RunState::Running);
    assert_eq!(app.status(), "started Overview");
    assert!(matches!(app.handle_key(Key::Char('d'), &sessions), Command::Nothing));
    assert_eq!(app.status(), "stop the dashboard before deleting it");
    app.stop_finished(0, Err(Error::message("busy".into())));
    assert_eq!(app.status(), "busy");
    app.stop_finished(0, Ok(()));
    assert_eq!(app.dashboards()[0].run, RunState::Stopped);
    let id = app.dashboards()[0].id;
    match app.handle_key(Key::Char('d'), &sessions) {
        Command::Delete(deleted) => assert_eq!(deleted, id),
        _ => panic!("expected a delete"),
    }
    assert_eq!(app.status(), "deleted Overview");
    assert!(app.dashboards().is_empty());
}

#[test]
fn saving_an_edit_of_a_stopped_dashboard_stores_it() {
    let sessions: SessionTable<f64> = SessionTable::new();
    let mut qc = QcPerf::new();
    qc.note_capabilities(Ok(vec![capability()]));
    let (mut app, _) = App::new(Some(qc), None, vec![], Theme::from_palette(None));
    app.handle_key(Key::Enter, &sessions);
    app.handle_key(Key::Char('e'), &sessions);
    assert_eq!(app.screen(), Screen::Edit);
    app.handle_key(Key::Char(' '), &sessions);
    match app.handle_key(Key::Enter, &sessions) {
        Command::Store(d) => assert!(d.graphs.is_empty()),
        _ => panic!("expected a store"),
    }
    assert_eq!(app.status(), "saved Overview");
    assert_eq!(app.screen(), Screen::View);
    assert!(app.dashboards()[0].graphs.is_empty());
}

#[test]
fn an_edit_of_a_running_dashboard_is_reconciled_first() {
    let sessions: SessionTable<f64> = SessionTable::new();
    let mut qc = QcPerf::new();
    qc.note_capabilities(Ok(vec![capability()]));
    let (mut app, _) = App::new(Some(qc), None, vec![], Theme::from_palette(None));
    app.start_finished(0, Ok(()));
    app.handle_key(Key::Enter, &sessions);
    app.handle_key(Key::Char('e'), &sessions);
    let edited = match app.handle_key(Key::Enter, &sessions) {
        Command::Reconcile(d) => d,
        _ => panic!("expected a reconcile"),
    };
    assert_eq!(edited.run, RunState::Running);
    assert!(matches!(app.edit_reconciled(edited, Ok(Some("note".into()))), Command::Store(_)));
    assert_eq!(app.status(), "note");
}

fn load_capability() -> Capability {
    Capability {
        backend_id: 3,
        capability_id: 1,
        name: "load".into(),
        metrics: vec![
            MetricInfo { metric_id: 1, name: "util".into(), description: String::new(), unit: "%".into() },
            MetricInfo { metric_id: 2, name: "freq".into(), description: String::new(), unit: "MHz".into() },
        ],
        sampling_rates_ms: vec![100, 200, 500],
        streaming_rates_ms: vec![100, 500, 1000],
    }
}

#[test]
fn the_overview_of_drawn_bytes_covers_every_metric() {
    let caps = vec![load_capability()];
    let bytes = [0x11u8; 16];
    let d = Dashboard::overview_from_draw(&caps, Some(bytes)).unwrap();
    assert_eq!(d.name, "Overview");
    assert_eq!(d.id, 0x1111_1111_1111_4111_9111_1111_1111_1111);
    let graph = |metric_id: u16, chart: ChartKind, color: u8| GraphSpec {
        backend_id: 3,
        capability_id: 1,
        metric_id,
        chart,
        color: SeriesColor::new(color),
        window: 60_000,
    };
    assert_eq!(d.graphs, vec![graph(1, ChartKind::Pie, 0), graph(2, ChartKind::Line, 1)]);
    assert_eq!(
        d.rates,
        vec![CapabilityRate { backend_id: 3, capability_id: 1, sampling_rate_ms: 100, streaming_rate_ms: 100 }]
    );
    assert_eq!(d.run, RunState::Idle);
    assert!(!d.csv_export);
    assert!(Dashboard::overview_from_draw(&caps, None).is_err());
}

#[test]
fn a_dashboard_id_is_made_from_the_drawn_bytes() {
    let d = Dashboard::from_draw("x".into(), Some([0u8; 16])).unwrap();
    assert_eq!(d.id, 0x0000_0000_0000_4000_8000_0000_0000_0000);
    match Dashboard::from_draw("x".into(), None) {
        Err(e) => assert_eq!(e.text(), "could not draw a random dashboard id"),
        Ok(_) => panic!("a dashboard without an id"),
    }
}

#[test]
fn startup_with_and_without_random_bytes() {
    let mut qc = QcPerf::new();
    qc.note_capabilities(Ok(vec![load_capability()]));
    let (app, command) = App::start_with(Some(qc), None, vec![], Theme::from_palette(None), Some([7u8; 16]));
    assert!(matches!(command, Command::Save(0)));
    assert_eq!(app.dashboards().len(), 1);
    assert_eq!(app.dashboards()[0].graphs.len(), 2);
    let mut qc = QcPerf::new();
    qc.note_capabilities(Ok(vec![load_capability()]));
    let (app, command) = App::start_with(Some(qc), None, vec![], Theme::from_palette(None), None);
    assert!(matches!(command, Command::Nothing));
    assert!(app.dashboards().is_empty());
    assert_eq!(app.status(), "could not draw a random dashboard id");
    assert_eq!(app.screen(), Screen::List);
    assert_eq!(app.selected(), 0);
}
