use vstd::prelude::*;

pub mod balancer;
pub mod config;
pub mod control;
pub mod dashboard;
pub mod load_test;
pub mod models;
pub mod telemetry;
pub mod text;
pub mod watchdog;

verus! {
} // verus!
