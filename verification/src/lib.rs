//! Dashboard, sampling and export logic of a terminal front end for
//! libqcperf.
pub mod app;
pub mod backend;
pub mod error;
pub mod export;
pub mod model;
pub mod persist;
pub mod seqs;
pub mod text;
pub mod theme;
pub mod ui;
