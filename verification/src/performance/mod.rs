//! Measuring runs: the clock around a run, the complexity class used to scale a
//! measurement to larger graphs, and the settings of repeated timings.

pub mod benchmark;
pub mod predictor;
pub mod stats;
pub mod tracker;
