//! Optimal pipeline templates: partitions of a layered model's profile into
//! contiguous stages, one template per requested stage (node) count.
//!
//! Cost model. A stage's forward latency, backward latency and memory are the
//! sums over its layers; its latency is forward plus backward. A pipeline's
//! cost is its bottleneck, the largest stage latency.
//!
//! Order on pipelines, by their aggregates: a smaller bottleneck first; then a
//! larger smallest stage latency (the more even pipeline); then the stage
//! boundaries, compared in order, the earlier boundary first. Its minimum over
//! the candidates of a cell is the same whatever order they are met in.
//!
//! Latencies are integers in a time unit of the caller's choice.
use vstd::prelude::*;

pub mod profile;
pub mod execution_result;
pub mod balance;
pub mod cache;
pub mod pipeline_template_generator;

verus! {

} // verus!
