//! Per-layer measurements and the sums over layer ranges that every cost in
//! this crate is built from.
use vstd::prelude::*;

verus! {

/// One profiled layer: its position, its name, the forward and backward
/// latency (in integer time units) and the memory it needs (in bytes).
pub struct LayerExecutionResult {
    pub layer_index: u32,
    pub layer_name: String,
    pub forward: u64,
    pub backward: u64,
    pub mem_required: u64,
}

impl LayerExecutionResult {
    pub fn new(layer_index: u32, layer_name: String, forward: u64, backward: u64, mem_required: u64) -> (r: Self)
        ensures
            r.layer_index == layer_index,
            r.layer_name == layer_name,
            r.forward == forward,
            r.backward == backward,
            r.mem_required == mem_required,
    {
        LayerExecutionResult { layer_index, layer_name, forward, backward, mem_required }
    }
}

/// Sum of the forward latencies of the first `k` layers.
pub open spec fn forward_prefix(layers: Seq<LayerExecutionResult>, k: int) -> int
    decreases k,
{
    if k <= 0 {
        0
    } else {
        forward_prefix(layers, k - 1) + layers[k - 1].forward
    }
}

/// Sum of the backward latencies of the first `k` layers.
pub open spec fn backward_prefix(layers: Seq<LayerExecutionResult>, k: int) -> int
    decreases k,
{
    if k <= 0 {
        0
    } else {
        backward_prefix(layers, k - 1) + layers[k - 1].backward
    }
}

/// Sum of the memory needs of the first `k` layers.
pub open spec fn mem_prefix(layers: Seq<LayerExecutionResult>, k: int) -> int
    decreases k,
{
    if k <= 0 {
        0
    } else {
        mem_prefix(layers, k - 1) + layers[k - 1].mem_required
    }
}

/// Forward latency of the layers `[i, j)`.
pub open spec fn range_forward(layers: Seq<LayerExecutionResult>, i: int, j: int) -> int {
    forward_prefix(layers, j) - forward_prefix(layers, i)
}

/// Backward latency of the layers `[i, j)`.
pub open spec fn range_backward(layers: Seq<LayerExecutionResult>, i: int, j: int) -> int {
    backward_prefix(layers, j) - backward_prefix(layers, i)
}

/// Memory of the layers `[i, j)`: a stage holds all of its layers at once.
pub open spec fn range_mem(layers: Seq<LayerExecutionResult>, i: int, j: int) -> int {
    mem_prefix(layers, j) - mem_prefix(layers, i)
}

/// Latency of one stage made of the layers `[i, j)`: forward plus backward.
pub open spec fn range_latency(layers: Seq<LayerExecutionResult>, i: int, j: int) -> int {
    range_forward(layers, i, j) + range_backward(layers, i, j)
}

/// The whole profile's totals fit the 64-bit counters that hold them.
pub open spec fn profile_fits(layers: Seq<LayerExecutionResult>) -> bool {
    &&& forward_prefix(layers, layers.len() as int) + backward_prefix(layers, layers.len() as int)
        <= u64::MAX
    &&& mem_prefix(layers, layers.len() as int) <= u64::MAX
}

/// The prefix sums grow with their length, and the ranges of a profile that
/// fits fit too.
pub proof fn lemma_prefix_monotone(layers: Seq<LayerExecutionResult>, a: int, b: int)
    requires
        0 <= a <= b <= layers.len(),
    ensures
        0 <= forward_prefix(layers, a) <= forward_prefix(layers, b),
        0 <= backward_prefix(layers, a) <= backward_prefix(layers, b),
        0 <= mem_prefix(layers, a) <= mem_prefix(layers, b),
    decreases b,
{
    if b > a {
        lemma_prefix_monotone(layers, a, b - 1);
    } else if a > 0 {
        lemma_prefix_monotone(layers, a - 1, a - 1);
    }
}

/// Errors of the planner.
#[derive(Debug, PartialEq, Eq, Structural)]
pub enum PlannerError {
    /// A requested node count is zero or exceeds the number of layers.
    InvalidNodeCount,
    /// The layer profile could not be read.
    ProfileLoadError,
    /// No template has been computed for this node count.
    NoTemplate(u32),
}

} // verus!
