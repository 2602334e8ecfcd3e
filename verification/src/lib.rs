//! A verified core for a trade-order benchmarking pipeline.
//!
//! The library models synthetic trade orders and their fill-state
//! transition, generates reproducible order workloads from a seeded
//! random source, runs the same logical create/read/update workload
//! under three registry disciplines, and aggregates raw nanosecond
//! timings into exact derived metrics and scalability ratings.
//! Rendering of charts, documents, and the command-line entry points
//! live outside the library and consume only its result records.

pub mod bench_name;
pub mod csv;
pub mod gen;
pub mod order;
pub mod registry;
pub mod rng;
pub mod shared_registry;
pub mod simple_plotter;
pub mod stats;
pub mod strategy;
pub mod text;
