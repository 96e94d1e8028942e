//! The data the dashboards are made of: capabilities reported by libqcperf,
//! graphs and their rates, dashboards, and sample rings.
pub mod capability;
pub mod dashboard;
pub mod graph;
pub mod sample;
pub mod unit;

pub use capability::{find as find_capability, Capability, MetricInfo};
pub use graph::{
    default_rate, next_window, CapabilityRate, ChartKind, GraphSpec, SeriesColor,
    WINDOW_PRESETS_SECS,
};
pub use dashboard::{Dashboard, DashboardId, RunState};
pub use sample::{lookup_metric, ring_capacity, Sample, SampleRing, MAX_RING_POINTS};
