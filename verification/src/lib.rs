//! Simulation of contiguous memory allocation: three placement strategies
//! (best fit, worst fit, next fit) stepped through discrete ticks over one
//! shared stream of requests.

pub mod config;
pub mod report;
pub mod simulation;
pub mod strategies;
pub mod workload;

pub use config::{parse_config, Config};
