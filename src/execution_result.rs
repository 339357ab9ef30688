//! The cost primitives: a stage made of a contiguous layer range, and a
//! pipeline made of consecutive stages.
//!
//! Cost model: a stage's forward, backward and memory figures are the sums
//! over its layers, and its latency is forward plus backward. A pipeline's
//! cost is its bottleneck, the largest stage latency; it also carries the
//! total forward and backward latency and the largest stage memory.
use vstd::prelude::*;
use std::sync::Arc;
use crate::profile::{LayerExecutionResult, range_latency, range_mem, range_forward, range_backward, profile_fits, lemma_prefix_monotone, forward_prefix, backward_prefix, mem_prefix};

verus! {

/// The larger of two integers.
pub open spec fn max_int(a: int, b: int) -> int {
    if a >= b { a } else { b }
}

/// Largest element of a sequence (0 for the empty one).
pub open spec fn peak(xs: Seq<int>) -> int
    decreases xs.len(),
{
    if xs.len() == 0 {
        0
    } else if xs.len() == 1 {
        xs[0]
    } else {
        max_int(peak(xs.drop_last()), xs.last())
    }
}

/// The smaller of two integers.
pub open spec fn min_int(a: int, b: int) -> int {
    if a <= b { a } else { b }
}

/// Smallest element of a sequence (0 for the empty one).
pub open spec fn low(xs: Seq<int>) -> int
    decreases xs.len(),
{
    if xs.len() == 0 {
        0
    } else if xs.len() == 1 {
        xs[0]
    } else {
        min_int(low(xs.drop_last()), xs.last())
    }
}

pub proof fn lemma_low_concat(a: Seq<int>, b: Seq<int>)
    requires
        a.len() > 0,
        b.len() > 0,
    ensures
        low(a + b) == min_int(low(a), low(b)),
    decreases b.len(),
{
    if b.len() == 1 {
        assert((a + b).drop_last() =~= a);
    } else {
        assert((a + b).drop_last() =~= a + b.drop_last());
        lemma_low_concat(a, b.drop_last());
    }
}

/// No element of a non-empty sequence is below its smallest.
pub proof fn lemma_low_le(xs: Seq<int>, k: int)
    requires
        0 <= k < xs.len(),
    ensures
        low(xs) <= xs[k],
    decreases xs.len(),
{
    if xs.len() > 1 && k < xs.len() - 1 {
        lemma_low_le(xs.drop_last(), k);
    }
}

/// `p` splits `[i, j)` into non-empty consecutive ranges, in order.
pub open spec fn is_partition(p: Seq<(int, int)>, i: int, j: int) -> bool {
    &&& p.len() > 0
    &&& p[0].0 == i
    &&& p.last().1 == j
    &&& forall|k: int| 0 <= k < p.len() ==> #[trigger] p[k].0 < p[k].1
    &&& forall|k: int| 0 <= k < p.len() - 1 ==> #[trigger] p[k].1 == p[k + 1].0
}

/// Stage latencies of the ranges of `p`.
pub open spec fn latencies(layers: Seq<LayerExecutionResult>, p: Seq<(int, int)>) -> Seq<int> {
    p.map_values(|r: (int, int)| range_latency(layers, r.0, r.1))
}

/// Stage memories of the ranges of `p`.
pub open spec fn memories(layers: Seq<LayerExecutionResult>, p: Seq<(int, int)>) -> Seq<int> {
    p.map_values(|r: (int, int)| range_mem(layers, r.0, r.1))
}

/// The cost of a partition: its largest stage latency.
pub open spec fn bottleneck_of(layers: Seq<LayerExecutionResult>, p: Seq<(int, int)>) -> int {
    peak(latencies(layers, p))
}

/// The smallest stage latency of a partition.
pub open spec fn lightest_of(layers: Seq<LayerExecutionResult>, p: Seq<(int, int)>) -> int {
    low(latencies(layers, p))
}

/// The stage ends of `a` come before those of `b` in dictionary order.
pub open spec fn ends_before(a: Seq<(int, int)>, b: Seq<(int, int)>) -> bool
    decreases a.len(),
{
    if a.len() == 0 || b.len() == 0 {
        false
    } else if a[0].1 != b[0].1 {
        a[0].1 < b[0].1
    } else {
        ends_before(a.drop_first(), b.drop_first())
    }
}

/// The order on pipelines: a smaller bottleneck first; among equal
/// bottlenecks, a larger smallest stage, i.e. the more even pipeline; then
/// the earlier stage ends.
pub open spec fn better_than(layers: Seq<LayerExecutionResult>, a: Seq<(int, int)>, b: Seq<(int, int)>) -> bool {
    ||| bottleneck_of(layers, a) < bottleneck_of(layers, b)
    ||| bottleneck_of(layers, a) == bottleneck_of(layers, b) && lightest_of(layers, a) > lightest_of(layers, b)
    ||| bottleneck_of(layers, a) == bottleneck_of(layers, b) && lightest_of(layers, a) == lightest_of(layers, b)
        && ends_before(a, b)
}

/// `p` is a partition of `[i, j)` into `s` stages and no partition of `[i, j)`
/// into `s` stages has a smaller bottleneck.
pub open spec fn is_optimal(layers: Seq<LayerExecutionResult>, p: Seq<(int, int)>, s: int, i: int, j: int) -> bool {
    &&& is_partition(p, i, j)
    &&& p.len() == s
    &&& forall|q: Seq<(int, int)>| #[trigger] is_partition(q, i, j) && q.len() == s
        ==> bottleneck_of(layers, p) <= bottleneck_of(layers, q)
}

pub proof fn lemma_peak_concat(a: Seq<int>, b: Seq<int>)
    requires
        a.len() > 0,
        b.len() > 0,
    ensures
        peak(a + b) == max_int(peak(a), peak(b)),
    decreases b.len(),
{
    if b.len() == 1 {
        assert((a + b).drop_last() =~= a);
    } else {
        assert((a + b).drop_last() =~= a + b.drop_last());
        lemma_peak_concat(a, b.drop_last());
    }
}

/// Concatenating partitions of `[i, k)` and `[k, j)` gives one of `[i, j)`.
pub proof fn lemma_partition_concat(a: Seq<(int, int)>, b: Seq<(int, int)>, i: int, k: int, j: int)
    requires
        is_partition(a, i, k),
        is_partition(b, k, j),
    ensures
        is_partition(a + b, i, j),
{
    let c = a + b;
    assert forall|x: int| 0 <= x < c.len() - 1 implies #[trigger] c[x].1 == c[x + 1].0 by {
        if x < a.len() - 1 {
        } else if x == a.len() - 1 {
        } else {
            assert(b[x - a.len()].1 == b[x - a.len() + 1].0);
        }
    }
    assert forall|x: int| 0 <= x < c.len() implies #[trigger] c[x].0 < c[x].1 by {
        if x >= a.len() {
            assert(b[x - a.len()].0 < b[x - a.len()].1);
        }
    }
}

/// A partition of `[i, j)` into two or more stages is its first stage followed
/// by a partition of the rest.
pub proof fn lemma_partition_split_first(p: Seq<(int, int)>, i: int, j: int)
    requires
        is_partition(p, i, j),
        p.len() >= 2,
    ensures
        is_partition(p.subrange(0, 1), i, p[0].1),
        is_partition(p.subrange(1, p.len() as int), p[0].1, j),
        p =~= p.subrange(0, 1) + p.subrange(1, p.len() as int),
        i < p[0].1 < j,
{
    let r = p.subrange(1, p.len() as int);
    assert(p[0].0 < p[0].1);
    assert(p[0].1 == p[1].0);
    assert forall|x: int| 0 <= x < r.len() - 1 implies #[trigger] r[x].1 == r[x + 1].0 by {
        assert(p[x + 1].1 == p[x + 2].0);
    }
    assert forall|x: int| 0 <= x < r.len() implies #[trigger] r[x].0 < r[x].1 by {
        assert(p[x + 1].0 < p[x + 1].1);
    }
    lemma_partition_bounds(r, p[0].1, j);
}

/// Every stage of a partition of `[i, j)` lies inside `[i, j)`, and there are
/// at most `j - i` stages.
pub proof fn lemma_partition_bounds(p: Seq<(int, int)>, i: int, j: int)
    requires
        is_partition(p, i, j),
    ensures
        p.len() <= j - i,
        forall|x: int| 0 <= x < p.len() ==> i <= #[trigger] p[x].0 && p[x].1 <= j && p[x].0 - i >= x,
    decreases p.len(),
{
    if p.len() == 1 {
        assert(p[0].0 < p[0].1);
    } else {
        let q = p.drop_last();
        let m = q.last().1;
        assert(p[p.len() - 2].1 == p[p.len() - 1].0);
        assert(p[p.len() - 1].0 < p[p.len() - 1].1);
        assert forall|x: int| 0 <= x < q.len() - 1 implies #[trigger] q[x].1 == q[x + 1].0 by {
            assert(p[x].1 == p[x + 1].0);
        }
        assert forall|x: int| 0 <= x < q.len() implies #[trigger] q[x].0 < q[x].1 by {
            assert(p[x].0 < p[x].1);
        }
        lemma_partition_bounds(q, i, m);
        assert(q[q.len() - 1].0 < q[q.len() - 1].1);
        assert forall|x: int| 0 <= x < p.len() implies i <= #[trigger] p[x].0 && p[x].1 <= j
            && p[x].0 - i >= x by {
            if x < q.len() {
                assert(q[x] == p[x]);
                assert(q[x].0 < q[x].1);
            }
        }
    }
}

/// Names of the layers `[i, j)`, in order.
pub open spec fn names(layers: Seq<LayerExecutionResult>, i: int, j: int) -> Seq<String> {
    layers.subrange(i, j).map_values(|l: LayerExecutionResult| l.layer_name)
}

/// The template of a partition: for each stage, the names of its layers.
pub open spec fn template_of(layers: Seq<LayerExecutionResult>, p: Seq<(int, int)>) -> Seq<Seq<String>> {
    p.map_values(|r: (int, int)| names(layers, r.0, r.1))
}

/// One pipeline stage: the layers `[layers.0, layers.1)` run together.
#[derive(Clone, Copy, Debug)]
pub struct StageExecutionResult {
    pub layers: (usize, usize),
    pub forward: u64,
    pub backward: u64,
    pub mem_required: u64,
}

impl StageExecutionResult {
    /// The stage covers a non-empty range of the profile and its figures are
    /// the sums over that range.
    pub open spec fn wf(self, layers: Seq<LayerExecutionResult>) -> bool {
        &&& self.layers.0 < self.layers.1 <= layers.len()
        &&& self.forward == range_forward(layers, self.layers.0 as int, self.layers.1 as int)
        &&& self.backward == range_backward(layers, self.layers.0 as int, self.layers.1 as int)
        &&& self.mem_required == range_mem(layers, self.layers.0 as int, self.layers.1 as int)
    }

    pub open spec fn range(self) -> (int, int) {
        (self.layers.0 as int, self.layers.1 as int)
    }

    /// Builds the stage of the layers `[i, j)`.
    pub fn new(layers: &Vec<LayerExecutionResult>, i: usize, j: usize) -> (r: Self)
        requires
            i < j <= layers@.len(),
            profile_fits(layers@),
        ensures
            r.wf(layers@),
            r.layers == (i, j),
    {
        let mut forward: u64 = 0;
        let mut backward: u64 = 0;
        let mut mem_required: u64 = 0;
        let mut x: usize = i;
        proof {
            lemma_prefix_monotone(layers@, i as int, i as int);
        }
        while x < j
            invariant
                i <= x <= j <= layers@.len(),
                profile_fits(layers@),
                forward == range_forward(layers@, i as int, x as int),
                backward == range_backward(layers@, i as int, x as int),
                mem_required == range_mem(layers@, i as int, x as int),
            decreases j - x,
        {
            proof {
                lemma_prefix_monotone(layers@, i as int, x as int + 1);
                lemma_prefix_monotone(layers@, x as int + 1, layers@.len() as int);
            }
            forward = forward + layers[x].forward;
            backward = backward + layers[x].backward;
            mem_required = mem_required + layers[x].mem_required;
            x = x + 1;
        }
        StageExecutionResult { layers: (i, j), forward, backward, mem_required }
    }

    /// The stage's latency: forward plus backward.
    pub fn latency(&self) -> (r: u64)
        requires
            self.forward + self.backward <= u64::MAX,
        ensures
            r == self.forward + self.backward,
    {
        self.forward + self.backward
    }
}

/// The latency of a stage of a profile that fits, as a bounded integer.
pub proof fn lemma_stage_fits(layers: Seq<LayerExecutionResult>, i: int, j: int)
    requires
        0 <= i <= j <= layers.len(),
        profile_fits(layers),
    ensures
        0 <= range_forward(layers, i, j),
        0 <= range_backward(layers, i, j),
        0 <= range_mem(layers, i, j) <= u64::MAX,
        0 <= range_latency(layers, i, j) <= u64::MAX,
        range_forward(layers, i, j) <= u64::MAX,
        range_backward(layers, i, j) <= u64::MAX,
{
    lemma_prefix_monotone(layers, 0, i);
    lemma_prefix_monotone(layers, i, j);
    lemma_prefix_monotone(layers, j, layers.len() as int);
}

/// Relies on `Arc::clone`: a new handle to the same stage.
#[verifier::external_body]
pub(crate) fn share_stage(stage: &Arc<StageExecutionResult>) -> (r: Arc<StageExecutionResult>)
    ensures
        r == *stage,
{
    Arc::clone(stage)
}

/// A candidate or optimal assignment of a layer range to consecutive stages.
#[derive(Clone, Debug)]
pub struct PipelineExecutionResult {
    /// The stages, shared with the stage cache and with other pipelines.
    pub stages: Vec<Arc<StageExecutionResult>>,
    /// Largest stage latency: the pipeline's cost.
    pub bottleneck: u64,
    /// Smallest stage latency: breaks ties between equal bottlenecks.
    pub lightest: u64,
    /// Total forward latency of all stages.
    pub forward: u64,
    /// Total backward latency of all stages.
    pub backward: u64,
    /// Largest stage memory.
    pub mem_required: u64,
}

impl PipelineExecutionResult {
    /// The layer ranges of the stages, in order.
    pub open spec fn ranges(self) -> Seq<(int, int)> {
        self.stages@.map_values(|st: Arc<StageExecutionResult>| st.range())
    }

    pub open spec fn start(self) -> int {
        self.stages@[0].layers.0 as int
    }

    pub open spec fn end(self) -> int {
        self.stages@.last().layers.1 as int
    }

    /// The stages partition `[start, end)` and the aggregates match them.
    pub open spec fn wf(self, layers: Seq<LayerExecutionResult>) -> bool {
        &&& is_partition(self.ranges(), self.start(), self.end())
        &&& forall|k: int| 0 <= k < self.stages@.len() ==> (#[trigger] self.stages@[k]).wf(layers)
        &&& self.bottleneck == bottleneck_of(layers, self.ranges())
        &&& self.lightest == lightest_of(layers, self.ranges())
        &&& self.forward == range_forward(layers, self.start(), self.end())
        &&& self.backward == range_backward(layers, self.start(), self.end())
        &&& self.mem_required == peak(memories(layers, self.ranges()))
    }

    /// A pipeline of the single stage `stage`.
    pub fn make_base_result(layers: &Vec<LayerExecutionResult>, stage: Arc<StageExecutionResult>) -> (r: Self)
        requires
            stage.wf(layers@),
            profile_fits(layers@),
        ensures
            r.wf(layers@),
            r.ranges() == seq![stage.range()],
            r.stages@ == seq![stage],
    {
        proof {
            lemma_stage_fits(layers@, stage.layers.0 as int, stage.layers.1 as int);
        }
        let bottleneck = stage.latency();
        let forward = stage.forward;
        let backward = stage.backward;
        let mem_required = stage.mem_required;
        let ghost shared = stage;
        let mut stages: Vec<Arc<StageExecutionResult>> = Vec::new();
        stages.push(stage);
        let r = PipelineExecutionResult { stages, bottleneck, lightest: bottleneck, forward, backward, mem_required };
        assert(r.ranges() =~= seq![shared.range()]);
        assert(r.stages@ =~= seq![shared]);
        r
    }

    /// The pipeline that runs `left`'s stages, then `right`'s.
    pub fn new(layers: &Vec<LayerExecutionResult>, left: &Self, right: &Self) -> (r: Self)
        requires
            left.wf(layers@),
            right.wf(layers@),
            left.end() == right.start(),
            profile_fits(layers@),
        ensures
            r.wf(layers@),
            r.ranges() == left.ranges() + right.ranges(),
            r.start() == left.start(),
            r.end() == right.end(),
            r.bottleneck == max_int(left.bottleneck as int, right.bottleneck as int),
            r.lightest == min_int(left.lightest as int, right.lightest as int),
    {
        let mut stages: Vec<Arc<StageExecutionResult>> = Vec::new();
        let mut x: usize = 0;
        while x < left.stages.len()
            invariant
                x <= left.stages@.len(),
                stages@ == left.stages@.subrange(0, x as int),
            decreases left.stages@.len() - x,
        {
            stages.push(share_stage(&left.stages[x]));
            x = x + 1;
            assert(stages@ =~= left.stages@.subrange(0, x as int));
        }
        let mut y: usize = 0;
        while y < right.stages.len()
            invariant
                y <= right.stages@.len(),
                x == left.stages@.len(),
                stages@ == left.stages@ + right.stages@.subrange(0, y as int),
            decreases right.stages@.len() - y,
        {
            stages.push(share_stage(&right.stages[y]));
            y = y + 1;
            assert(stages@ =~= left.stages@ + right.stages@.subrange(0, y as int));
        }
        assert(right.stages@.subrange(0, y as int) =~= right.stages@);
        let ghost l = layers@;
        let ghost (i, k, j) = (left.start(), left.end(), right.end());
        proof {
            lemma_partition_bounds(left.ranges(), i, k);
            lemma_partition_bounds(right.ranges(), k, j);
            let _ = left.ranges()[0];
            assert(left.stages@[0].wf(l));
            assert(right.stages@.last().wf(l));
            assert(right.ranges()[right.ranges().len() - 1] == right.stages@.last().range());
            lemma_prefix_monotone(l, 0, i);
            lemma_prefix_monotone(l, i, k);
            lemma_prefix_monotone(l, k, j);
            lemma_prefix_monotone(l, j, l.len() as int);
        }
        let forward = left.forward + right.forward;
        let backward = left.backward + right.backward;
        let bottleneck = if left.bottleneck >= right.bottleneck { left.bottleneck } else { right.bottleneck };
        let mem_required = if left.mem_required >= right.mem_required {
            left.mem_required
        } else {
            right.mem_required
        };
        let lightest = if left.lightest <= right.lightest { left.lightest } else { right.lightest };
        let r = PipelineExecutionResult { stages, bottleneck, lightest, forward, backward, mem_required };
        proof {
            assert(r.ranges() =~= left.ranges() + right.ranges());
            lemma_partition_concat(left.ranges(), right.ranges(), i, k, j);
            assert(latencies(l, r.ranges()) =~= latencies(l, left.ranges()) + latencies(l, right.ranges()));
            assert(memories(l, r.ranges()) =~= memories(l, left.ranges()) + memories(l, right.ranges()));
            lemma_peak_concat(latencies(l, left.ranges()), latencies(l, right.ranges()));
            lemma_low_concat(latencies(l, left.ranges()), latencies(l, right.ranges()));
            lemma_peak_concat(memories(l, left.ranges()), memories(l, right.ranges()));
            assert forall|x: int| 0 <= x < r.stages@.len() implies (#[trigger] r.stages@[x]).wf(l) by {
                if x >= left.stages@.len() {
                    assert(right.stages@[x - left.stages@.len()].wf(l));
                } else {
                    assert(left.stages@[x].wf(l));
                }
            }
        }
        r
    }

    /// Whether this pipeline's stage ends come first in dictionary order.
    pub fn ends_before(&self, other: &Self) -> (r: bool)
        ensures
            r == ends_before(self.ranges(), other.ranges()),
    {
        let ghost a = self.ranges();
        let ghost b = other.ranges();
        let mut k: usize = 0;
        assert(a.subrange(0, a.len() as int) =~= a);
        assert(b.subrange(0, b.len() as int) =~= b);
        while k < self.stages.len() && k < other.stages.len()
            invariant
                a == self.ranges(),
                b == other.ranges(),
                k <= self.stages@.len(),
                k <= other.stages@.len(),
                ends_before(a, b) == ends_before(a.subrange(k as int, a.len() as int), b.subrange(k as int, b.len() as int)),
            decreases self.stages@.len() - k,
        {
            let x = self.stages[k].layers.1;
            let y = other.stages[k].layers.1;
            let ghost ak = a.subrange(k as int, a.len() as int);
            let ghost bk = b.subrange(k as int, b.len() as int);
            assert(ak[0] == a[k as int] && bk[0] == b[k as int]);
            if x != y {
                return x < y;
            }
            assert(ak.drop_first() =~= a.subrange(k + 1, a.len() as int));
            assert(bk.drop_first() =~= b.subrange(k + 1, b.len() as int));
            k = k + 1;
        }
        false
    }

    /// Whether this pipeline comes before `other` in the order on pipelines.
    pub fn is_better(&self, other: &Self) -> (r: bool)
        ensures
            r == (self.bottleneck < other.bottleneck || (self.bottleneck == other.bottleneck
                && self.lightest > other.lightest) || (self.bottleneck == other.bottleneck
                && self.lightest == other.lightest && ends_before(self.ranges(), other.ranges()))),
    {
        if self.bottleneck != other.bottleneck {
            self.bottleneck < other.bottleneck
        } else if self.lightest != other.lightest {
            self.lightest > other.lightest
        } else {
            self.ends_before(other)
        }
    }

    /// The pipeline's cost: its bottleneck stage latency.
    pub fn latency(&self) -> (r: u64)
        ensures
            r == self.bottleneck,
    {
        self.bottleneck
    }

    /// For each stage, the names of its layers.
    pub fn get_modules_per_stage(&self, layers: &Vec<LayerExecutionResult>) -> (r: Vec<Vec<String>>)
        requires
            self.wf(layers@),
        ensures
            r@.map_values(|v: Vec<String>| v@) == template_of(layers@, self.ranges()),
    {
        let mut out: Vec<Vec<String>> = Vec::new();
        let mut k: usize = 0;
        while k < self.stages.len()
            invariant
                self.wf(layers@),
                k <= self.stages@.len(),
                out@.len() == k,
                forall|m: int| 0 <= m < k ==> (#[trigger] out@[m])@ == names(layers@, self.ranges()[m].0, self.ranges()[m].1),
            decreases self.stages@.len() - k,
        {
            let st = &self.stages[k];
            assert(self.stages@[k as int].wf(layers@));
            let mut stage_names: Vec<String> = Vec::new();
            let mut x: usize = st.layers.0;
            while x < st.layers.1
                invariant
                    st.layers.0 <= x <= st.layers.1 <= layers@.len(),
                    stage_names@ == names(layers@, st.layers.0 as int, x as int),
                decreases st.layers.1 - x,
            {
                stage_names.push(layers[x].layer_name.clone());
                x = x + 1;
                assert(stage_names@ =~= names(layers@, st.layers.0 as int, x as int));
            }
            out.push(stage_names);
            k = k + 1;
        }
        assert(out@.map_values(|v: Vec<String>| v@) =~= template_of(layers@, self.ranges()));
        out
    }
}

} // verus!
