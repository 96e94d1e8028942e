//! The profiling sessions libqcperf runs for the dashboards.
pub mod qcperf;
pub mod session;
pub mod session_laws;
pub mod runs;

pub use qcperf::{BridgeEvent, QcPerf};
pub use session::SessionTable;
