//! What the dashboards write out: CSV rows and snapshots.
pub mod calendar;
pub mod csv;
pub mod snapshot;
