use qcperf_tui::model::{Capability, ChartKind, Dashboard, GraphSpec, MetricInfo, SeriesColor};
use qcperf_tui::ui::view::{
    slice_value,
    bucket, bucket_count, capability_label, columns, equal_shares, grid_shape, metric_text,
    plan_cells, CellPlan,
};

fn graph(backend_id: u8, metric_id: u16, chart: ChartKind) -> GraphSpec {
    GraphSpec { backend_id, capability_id: 1, metric_id, chart, color: SeriesColor::new(0), window: 60_000 }
}

fn capability() -> Capability {
    Capability {
        backend_id: 3,
        capability_id: 1,
        name: "cpu".into(),
        metrics: vec![
            MetricInfo { metric_id: 1, name: "core0".into(), description: String::new(), unit: "%".into() },
            MetricInfo { metric_id: 3, name: "clock".into(), description: String::new(), unit: "MHz".into() },
        ],
        sampling_rates_ms: vec![100],
        streaming_rates_ms: vec![100],
    }
}

#[test]
fn columns_follow_the_terminal_width() {
    assert_eq!(columns(59), 1);
    assert_eq!(columns(60), 2);
    assert_eq!(columns(119), 2);
    assert_eq!(columns(120), 3);
    assert_eq!(grid_shape(200, 4), (3, 2));
    assert_eq!(grid_shape(200, 2), (2, 1));
    assert_eq!(grid_shape(50, 0), (1, 0));
}

#[test]
fn shares_add_up_to_a_hundred() {
    assert_eq!(equal_shares(3), vec![33, 33, 34]);
    assert_eq!(equal_shares(0), vec![100]);
    assert_eq!(equal_shares(1), vec![100]);
    assert_eq!(equal_shares(7).iter().map(|x| *x as u32).sum::<u32>(), 100);
}

#[test]
fn bars_show_the_newest_values() {
    let points = [(1u64, 1.0f64), (2, 2.0), (3, 3.0), (4, 4.0), (5, 5.0)];
    assert_eq!(bucket(&points[..2], 4, 0.0), vec![0.0, 0.0, 1.0, 2.0]);
    assert_eq!(bucket(&points, 3, 0.0), vec![3.0, 4.0, 5.0]);
    assert_eq!(bucket(&[], 2, 0.0), vec![0.0, 0.0]);
    assert_eq!(bucket(&points, 0, 0.0), vec![0.0]);
    assert_eq!(bucket_count(2), 1);
    assert_eq!(bucket_count(30), 10);
    assert_eq!(bucket_count(300), 40);
}

#[test]
fn pies_of_one_capability_share_a_cell() {
    let mut dashboard = Dashboard::new("d".into()).unwrap();
    dashboard.graphs = vec![
        graph(3, 1, ChartKind::Pie),
        graph(3, 2, ChartKind::Pie),
        graph(3, 3, ChartKind::Line),
        graph(4, 1, ChartKind::Pie),
        graph(3, 1, ChartKind::Bar),
    ];
    let cells = plan_cells(&[capability()], &dashboard);
    assert_eq!(cells.len(), 4);
    match &cells[0] {
        CellPlan::Pie { title, first, end } => {
            assert_eq!(title, "cpu (backend 3)");
            assert_eq!((*first, *end), (0, 2));
        }
        _ => panic!("expected a pie"),
    }
    match &cells[1] {
        CellPlan::Line { graph, title, unit, percent } => {
            assert_eq!((*graph, title.as_str(), unit.as_str(), *percent), (2, "clock", "MHz", false));
        }
        _ => panic!("expected a line"),
    }
    match &cells[2] {
        CellPlan::Pie { title, first, end } => {
            assert_eq!(title, "backend 4 capability 1");
            assert_eq!((*first, *end), (3, 4));
        }
        _ => panic!("expected a pie"),
    }
    assert!(matches!(&cells[3], CellPlan::Bar { graph: 4, .. }));
}

#[test]
fn titles_fall_back_to_ids() {
    let caps = [capability()];
    assert_eq!(capability_label(&caps, &graph(9, 1, ChartKind::Line)), "backend 9 capability 1");
    assert_eq!(metric_text(&caps, &graph(3, 7, ChartKind::Line)), ("metric 7".to_string(), String::new()));
    assert_eq!(metric_text(&caps, &graph(3, 1, ChartKind::Line)), ("core0".to_string(), "%".to_string()));
}

#[test]
fn pie_slices_show_the_latest_value_or_zero() {
    let series: Vec<Vec<(u64, f64)>> = vec![vec![(1, 10.0), (2, 42.5)], vec![]];
    assert_eq!(slice_value(&series, 0, 0.0), 42.5);
    assert_eq!(slice_value(&series, 1, 0.0), 0.0);
    assert_eq!(slice_value(&series, 2, 0.0), 0.0);
}
