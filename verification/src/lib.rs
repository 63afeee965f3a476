//! Comparative benchmark orchestration: build-artifact caching by revision,
//! parsing of benchmark output into timing samples, statistical summaries,
//! and grouped, deterministically ordered result reports.

pub mod format;
pub mod parse;
pub mod text;
pub mod render;
pub mod report;
pub mod run;
pub mod stats;
pub mod strops;
