//! A dependency-graph browser library: the artifact graph, its size
//! analytics, the three-pane navigator state machine, the status line and
//! the command line.
pub mod cli;
pub mod navigator;
pub mod path_stats;
pub mod status;
pub mod store_path;
pub mod text;
