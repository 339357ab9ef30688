//! The dynamic program: for every stage count `s` and layer range `[i, j)`,
//! the partition of `[i, j)` into `s` stages with the smallest bottleneck,
//! computed one stage count (wave) at a time.
use vstd::prelude::*;
use crate::profile::{LayerExecutionResult, PlannerError, profile_fits, range_latency};
use std::collections::HashMap;
use std::sync::Arc;
use rayon::iter::{IntoParallelRefIterator, ParallelIterator};
use crate::cache::{
    PipelineCache, PipelineKey, StageCache, StageKey, new_pipeline_cache, new_stage_cache,
    pipeline_cache_get, pipeline_cache_insert, pipeline_contents, stage_cache_insert,
    stage_cache_is_empty, stage_contents,
};
use crate::balance::{ceil_div, equal_cost, lemma_peak_ge, lemma_bottleneck_lower, lemma_div_bounds, lemma_split_arith, lemma_uniform_range, unit_cost};
use crate::execution_result::{
    better_than, lemma_low_le, lightest_of, low, min_int,
    PipelineExecutionResult, StageExecutionResult, bottleneck_of, is_optimal, is_partition,
    latencies, lemma_partition_bounds, lemma_partition_split_first, lemma_peak_concat, max_int,
    names, share_stage, template_of,
};

verus! {

/// The stage ranges the solver keeps for `s` stages over `[i, j)`: the range
/// itself for one stage; for more, the least in the order `better_than` of
/// the candidates over the splits `k = i + 1 .. j - 1` and, for each, the
/// left shares `1 .. s - 1`; none when `[i, j)` has fewer than `s` layers.
pub open spec fn chosen(layers: Seq<LayerExecutionResult>, s: int, i: int, j: int) -> Option<Seq<(int, int)>>
    decreases s, 2int, 0int, 0int,
{
    if s <= 0 || i >= j || s > j - i {
        None
    } else if s == 1 {
        Some(seq![(i, j)])
    } else {
        scan_splits(layers, s, i, j, i + 1, None)
    }
}

/// The candidate kept after trying the splits `k .. j - 1`, starting from
/// `best`.
pub open spec fn scan_splits(
    layers: Seq<LayerExecutionResult>,
    s: int,
    i: int,
    j: int,
    k: int,
    best: Option<Seq<(int, int)>>,
) -> Option<Seq<(int, int)>>
    decreases s, 1int, j - k, s,
{
    if k >= j || s < 1 {
        best
    } else {
        scan_splits(layers, s, i, j, k + 1, scan_shares(layers, s, i, j, k, 1, best))
    }
}

/// The candidate kept after trying, at split `k`, the left shares
/// `sl .. s - 1`, starting from `best`.
pub open spec fn scan_shares(
    layers: Seq<LayerExecutionResult>,
    s: int,
    i: int,
    j: int,
    k: int,
    sl: int,
    best: Option<Seq<(int, int)>>,
) -> Option<Seq<(int, int)>>
    decreases s, 1int, j - k, s - sl,
{
    if sl >= s || sl < 1 || k >= j {
        best
    } else {
        let next = match (chosen(layers, sl, i, k), chosen(layers, s - sl, k, j)) {
            (Some(l), Some(r)) => if best is None || better_than(layers, l + r, best->0) {
                Some(l + r)
            } else {
                best
            },
            _ => best,
        };
        scan_shares(layers, s, i, j, k, sl + 1, next)
    }
}

/// The stage ranges of a cell's content.
pub open spec fn ranges_opt(c: Option<PipelineExecutionResult>) -> Option<Seq<(int, int)>> {
    match c {
        Some(p) => Some(p.ranges()),
        None => None,
    }
}

/// Contents of a cache cell of stage count `s` over `[i, j)` that the solver
/// can rely on: a result exactly when `s <= j - i`, and then an optimal one,
/// the one `chosen` names; on equal-cost layers, an even one.
pub open spec fn cell_ok(
    layers: Seq<LayerExecutionResult>,
    c: Option<PipelineExecutionResult>,
    s: int,
    i: int,
    j: int,
) -> bool {
    &&& (c is Some <==> s <= j - i)
    &&& ranges_opt(c) == chosen(layers, s, i, j)
    &&& (c is Some && equal_cost(layers)) ==> even_cell(layers, c->0, s, i, j)
    &&& c matches Some(p) ==> {
        &&& p.wf(layers)
        &&& p.start() == i
        &&& p.end() == j
        &&& is_optimal(layers, p.ranges(), s, i, j)
    }
}

/// On equal-cost layers: the bottleneck is `ceil((j - i) / s)` layers and no
/// stage is lighter than `floor((j - i) / s)` layers.
pub open spec fn even_cell(layers: Seq<LayerExecutionResult>, p: PipelineExecutionResult, s: int, i: int, j: int) -> bool {
    &&& p.bottleneck == unit_cost(layers) * ceil_div(j - i, s)
    &&& p.lightest >= unit_cost(layers) * ((j - i) / s)
}

/// The pipeline cache key of `s` stages over `[i, j)`.
pub open spec fn key(s: int, i: int, j: int) -> PipelineKey {
    (s as u32, i as usize, j as usize)
}

/// The cell of stage count `s` over `[i, j)`.
pub open spec fn cell(m: Map<PipelineKey, Option<PipelineExecutionResult>>, s: int, i: int, j: int) -> Option<
    PipelineExecutionResult,
> {
    m[key(s, i, j)]
}

/// The cell of `s` stages over `[i, j)` is written, and as `cell_ok` says.
pub open spec fn cell_done(
    layers: Seq<LayerExecutionResult>,
    m: Map<PipelineKey, Option<PipelineExecutionResult>>,
    s: int,
    i: int,
    j: int,
) -> bool {
    m.contains_key(key(s, i, j)) && cell_ok(layers, cell(m, s, i, j), s, i, j)
}

/// Only cells of `1 ..= waves` stages over non-empty ranges of `[0, n)` are
/// written.
pub open spec fn dom_ok(m: Map<PipelineKey, Option<PipelineExecutionResult>>, waves: int, n: int) -> bool {
    forall|k: PipelineKey| #[trigger] m.contains_key(k) ==> 1 <= k.0 <= waves && k.1 < k.2 <= n
}

/// Every cell of `1 ..= waves` stages over a non-empty range is done.
pub open spec fn waves_done(
    layers: Seq<LayerExecutionResult>,
    m: Map<PipelineKey, Option<PipelineExecutionResult>>,
    waves: int,
) -> bool {
    forall|s: int, i: int, j: int|
        1 <= s <= waves && 0 <= i < j <= layers.len() ==> #[trigger] cell_done(layers, m, s, i, j)
}

/// The cells of `s` stages are done for every row before `i`, and in row `i`
/// up to column `j`.
pub open spec fn wave_done_upto(
    layers: Seq<LayerExecutionResult>,
    m: Map<PipelineKey, Option<PipelineExecutionResult>>,
    s: int,
    i: int,
    j: int,
) -> bool {
    forall|i2: int, j2: int|
        0 <= i2 < j2 <= layers.len() && (i2 < i || (i2 == i && j2 <= j)) ==> #[trigger] cell_done(
            layers,
            m,
            s,
            i2,
            j2,
        )
}

/// The pipeline cache holds exactly the finished waves `1 ..= waves`.
pub open spec fn cache_ok(
    layers: Seq<LayerExecutionResult>,
    m: Map<PipelineKey, Option<PipelineExecutionResult>>,
    waves: int,
) -> bool {
    &&& 0 <= waves <= u32::MAX
    &&& dom_ok(m, waves, layers.len() as int)
    &&& waves_done(layers, m, waves)
}

/// The stage cache holds the stage `[i, j)`, made from the profile.
pub open spec fn stage_done(layers: Seq<LayerExecutionResult>, st: Map<StageKey, Arc<StageExecutionResult>>, i: int, j: int) -> bool {
    &&& st.contains_key((i as usize, j as usize))
    &&& st[(i as usize, j as usize)].wf(layers)
    &&& st[(i as usize, j as usize)].layers == (i as usize, j as usize)
}

/// `cells` lists the cell over `[i, j)`.
pub open spec fn covers(cells: Seq<(usize, usize)>, i: int, j: int) -> bool {
    exists|k: int| 0 <= k < cells.len() && cells[k] == (i as usize, j as usize)
}

/// Writing cell `(s, i, j)` leaves every other cell as it was.
pub proof fn lemma_insert_keeps_cells(
    layers: Seq<LayerExecutionResult>,
    m: Map<PipelineKey, Option<PipelineExecutionResult>>,
    s: int,
    i: int,
    j: int,
    v: Option<PipelineExecutionResult>,
)
    requires
        1 <= s <= u32::MAX,
        0 <= i < j <= layers.len() <= usize::MAX,
    ensures
        forall|s2: int, i2: int, j2: int|
            1 <= s2 <= u32::MAX && 0 <= i2 < j2 <= layers.len() && (s2, i2, j2) != (s, i, j) && cell_done(
                layers,
                m,
                s2,
                i2,
                j2,
            ) ==> #[trigger] cell_done(layers, m.insert(key(s, i, j), v), s2, i2, j2),
        cell_ok(layers, v, s, i, j) ==> cell_done(layers, m.insert(key(s, i, j), v), s, i, j),
{
    assert forall|s2: int, i2: int, j2: int|
        1 <= s2 <= u32::MAX && 0 <= i2 < j2 <= layers.len() && (s2, i2, j2) != (s, i, j) && cell_done(
            layers,
            m,
            s2,
            i2,
            j2,
        ) implies #[trigger] cell_done(layers, m.insert(key(s, i, j), v), s2, i2, j2) by {
        assert(key(s2, i2, j2) != key(s, i, j));
    }
}

/// Bound on the best candidate once the split after the first stage `[i, k)`
/// has been tried: the first stage's latency against the best `s - 1` stages
/// over `[k, j)`.
pub open spec fn split_bound(
    layers: Seq<LayerExecutionResult>,
    m: Map<PipelineKey, Option<PipelineExecutionResult>>,
    s: int,
    i: int,
    k: int,
    j: int,
) -> int {
    max_int(range_latency(layers, i, k), cell(m, s - 1, k, j).unwrap().bottleneck as int)
}

/// The only partition of `[i, j)` into one stage is `[i, j)` itself.
pub proof fn lemma_single_stage_optimal(layers: Seq<LayerExecutionResult>, i: int, j: int)
    requires
        i < j,
    ensures
        is_optimal(layers, seq![(i, j)], 1, i, j),
{
    let p = seq![(i, j)];
    assert(p.last() == p[0]);
    assert forall|q: Seq<(int, int)>| #[trigger] is_partition(q, i, j) && q.len() == 1 implies
        bottleneck_of(layers, p) <= bottleneck_of(layers, q) by {
        assert(q.last() == q[0]);
        assert(q =~= p);
    }
}

/// `t` is the template of an optimal partition of the whole profile into `n`
/// stages.
pub open spec fn is_optimal_template(layers: Seq<LayerExecutionResult>, t: Seq<Seq<String>>, n: int) -> bool {
    exists|p: Seq<(int, int)>| #[trigger] is_optimal(layers, p, n, 0, layers.len() as int) && t == template_of(layers, p)
}

/// A candidate kept so far: a pipeline of `s` stages over `[i, j)`.
pub open spec fn candidate_ok(
    layers: Seq<LayerExecutionResult>,
    best: Option<PipelineExecutionResult>,
    s: int,
    i: int,
    j: int,
) -> bool {
    best matches Some(b) ==> b.wf(layers) && b.start() == i && b.end() == j && b.ranges().len() == s
}

/// The smallest stage latency of that candidate.
pub open spec fn split_lightest(
    layers: Seq<LayerExecutionResult>,
    m: Map<PipelineKey, Option<PipelineExecutionResult>>,
    s: int,
    i: int,
    k: int,
    j: int,
) -> int {
    min_int(range_latency(layers, i, k), cell(m, s - 1, k, j).unwrap().lightest as int)
}

/// Once the split after the first stage `[i, k)` has been tried, and the rest
/// can hold `s - 1` stages, the kept candidate is no worse than it.
pub open spec fn tried(
    layers: Seq<LayerExecutionResult>,
    cache: Map<PipelineKey, Option<PipelineExecutionResult>>,
    best: Option<PipelineExecutionResult>,
    s: int,
    i: int,
    k: int,
    j: int,
) -> bool {
    s - 1 <= j - k ==> best is Some && ((best->0).bottleneck < split_bound(layers, cache, s, i, k, j) || (
    (best->0).bottleneck == split_bound(layers, cache, s, i, k, j) && (best->0).lightest >= split_lightest(
        layers,
        cache,
        s,
        i,
        k,
        j,
    )))
}

/// Holds the profile, the stage cache and the pipeline cache of one solver
/// run.
pub struct PipelineTemplateGenerator {
    layer_execution_results: Vec<LayerExecutionResult>,
    stage_execution_results: StageCache,
    execution_result_cache: PipelineCache,
    /// Number of stage counts solved so far: `1 ..= solved`.
    solved: Ghost<nat>,
}

impl PipelineTemplateGenerator {
    /// The layer profile.
    pub closed spec fn layers(self) -> Seq<LayerExecutionResult> {
        self.layer_execution_results@
    }

    /// Number of stage counts solved so far: `1 ..= solved()`.
    pub closed spec fn solved(self) -> nat {
        self.solved@
    }

    /// The stage cache holds something: a later solve is a no-op.
    pub closed spec fn has_stages(self) -> bool {
        stage_contents(self.stage_execution_results).dom() != Set::<StageKey>::empty()
    }

    /// What the stage cache holds.
    pub closed spec fn stage_view(self) -> Map<StageKey, Arc<StageExecutionResult>> {
        stage_contents(self.stage_execution_results)
    }

    /// The stage ranges of the pipeline cached for `s` stages over `[i, j)`.
    pub closed spec fn cell_view(self, s: int, i: int, j: int) -> Option<Seq<(int, int)>> {
        let m = pipeline_contents(self.execution_result_cache);
        if m.contains_key(key(s, i, j)) {
            match cell(m, s, i, j) {
                Some(p) => Some(p.ranges()),
                None => None,
            }
        } else {
            None
        }
    }

    /// The profile fits its counters, the pipeline cache holds exactly the
    /// solved waves, and once solved the stage cache holds every stage once.
    pub closed spec fn wf(self) -> bool {
        let layers = self.layer_execution_results@;
        let n = layers.len() as int;
        let st = stage_contents(self.stage_execution_results);
        &&& profile_fits(layers)
        &&& cache_ok(layers, pipeline_contents(self.execution_result_cache), self.solved@ as int)
        &&& self.solved@ == 0 ==> st.dom() == Set::<StageKey>::empty()
        &&& self.solved@ > 0 ==> forall|i: int, j: int| 0 <= i < j <= n ==> #[trigger] stage_done(layers, st, i, j)
        &&& forall|k: StageKey| #[trigger] st.contains_key(k) ==> k.0 < k.1 <= n
    }

    /// A generator for the given profile, with nothing solved yet.
    pub fn new(layers: Vec<LayerExecutionResult>) -> (r: Self)
        requires
            profile_fits(layers@),
        ensures
            r.wf(),
            r.layers() == layers@,
            r.solved() == 0,
            !r.has_stages(),
    {
        let r = PipelineTemplateGenerator {
            layer_execution_results: layers,
            stage_execution_results: new_stage_cache(),
            execution_result_cache: new_pipeline_cache(),
            solved: Ghost(0),
        };
        proof {
            let m = pipeline_contents(r.execution_result_cache);
            assert forall|k: PipelineKey| #[trigger] m.contains_key(k) implies false by {
                assert(m.dom().contains(k));
            }
        }
        r
    }

    /// Solves every cell for `1 ..= max_num_nodes` stages (at least the single
    /// stage wave), unless the stage cache already holds results, in which
    /// case nothing changes. Fails when `max_num_nodes` exceeds the number of
    /// layers.
    pub fn divide_and_conquer(&mut self, max_num_nodes: u32) -> (r: Result<(), PlannerError>)
        requires
            old(self).wf(),
        ensures
            final(self).wf(),
            final(self).layers() == old(self).layers(),
            old(self).has_stages() ==> r == Ok::<(), PlannerError>(()) && *final(self) == *old(self),
            !old(self).has_stages() && max_num_nodes > old(self).layers().len() ==> r == Err::<(), PlannerError>(
                PlannerError::InvalidNodeCount) && *final(self) == *old(self),
            !old(self).has_stages() && max_num_nodes <= old(self).layers().len() ==> r == Ok::<(), PlannerError>(())
                && final(self).solved() == max_int(1, max_num_nodes as int),
            old(self).solved() > 0 && old(self).layers().len() > 0 ==> old(self).has_stages(),
    {
        proof {
            if self.solved@ > 0 && self.layer_execution_results@.len() > 0 {
                assert(stage_done(self.layer_execution_results@, stage_contents(self.stage_execution_results), 0, 1));
                assert(stage_contents(self.stage_execution_results).dom().contains((0usize, 1usize)));
            }
        }
        if !stage_cache_is_empty(&self.stage_execution_results) {
            return Ok(());
        }
        let n = self.layer_execution_results.len();
        if max_num_nodes as usize > n {
            return Err(PlannerError::InvalidNodeCount);
        }
        let ghost layers = self.layer_execution_results@;
        proof {
            let m = pipeline_contents(self.execution_result_cache);
            if n == 0 {
                assert forall|k: PipelineKey| #[trigger] m.contains_key(k) implies 1 <= k.0 <= 0 by {}
            } else {
                assert(self.solved@ == 0) by {
                    if self.solved@ > 0 {
                        assert(stage_done(self.layer_execution_results@, stage_contents(self.stage_execution_results), 0, 1));
                        assert(stage_contents(self.stage_execution_results).dom().contains((0usize, 1usize)));
                    }
                }
            }
        }
        self.solved = Ghost(0);
        // Single-stage cells: every range is one stage.
        let mut i: usize = 0;
        while i < n
            invariant
                layers == self.layer_execution_results@,
                n == layers.len(),
                profile_fits(layers),
                i <= n,
                dom_ok(pipeline_contents(self.execution_result_cache), 1, n as int),
                wave_done_upto(layers, pipeline_contents(self.execution_result_cache), 1, i as int, i as int),
                forall|k: StageKey| #[trigger] stage_contents(self.stage_execution_results).contains_key(k) ==> k.0 < k.1 <= n,
                forall|i2: int, j2: int| 0 <= i2 < j2 <= n && i2 < i ==> #[trigger] stage_done(layers, stage_contents(self.stage_execution_results), i2, j2),
            decreases n - i,
        {
            let mut j: usize = i;
            while j < n
                invariant
                    layers == self.layer_execution_results@,
                    n == layers.len(),
                    profile_fits(layers),
                    i < n,
                    i <= j <= n,
                    dom_ok(pipeline_contents(self.execution_result_cache), 1, n as int),
                    wave_done_upto(layers, pipeline_contents(self.execution_result_cache), 1, i as int, j as int),
                    forall|k: StageKey| #[trigger] stage_contents(self.stage_execution_results).contains_key(k) ==> k.0 < k.1 <= n,
                    forall|i2: int, j2: int| 0 <= i2 < j2 <= n && (i2 < i || (i2 == i && j2 <= j)) ==> #[trigger] stage_done(layers, stage_contents(self.stage_execution_results), i2, j2),
                decreases n - j,
            {
                let jj = j + 1;
                let st = Arc::new(StageExecutionResult::new(&self.layer_execution_results, i, jj));
                let ghost st0 = stage_contents(self.stage_execution_results);
                stage_cache_insert(&mut self.stage_execution_results, (i, jj), share_stage(&st));
                proof {
                    let st1 = stage_contents(self.stage_execution_results);
                    assert forall|i2: int, j2: int| 0 <= i2 < j2 <= n && (i2 < i || (i2 == i && j2 <= jj))
                        implies #[trigger] stage_done(layers, st1, i2, j2) by {
                        if (i2, j2) != (i as int, jj as int) {
                            assert(stage_done(layers, st0, i2, j2));
                            assert((i2 as usize, j2 as usize) != (i, jj));
                        }
                    }
                    assert forall|k: StageKey| #[trigger] st1.contains_key(k) implies k.0 < k.1 <= n by {
                        if k != (i, jj) {
                            assert(st0.contains_key(k));
                        }
                    }
                }
                let p = PipelineExecutionResult::make_base_result(&self.layer_execution_results, st);
                let ghost m0 = pipeline_contents(self.execution_result_cache);
                proof {
                    lemma_single_stage_optimal(layers, i as int, jj as int);
                    assert(p.ranges() == seq![(i as int, jj as int)]);
                    assert(latencies(layers, p.ranges()) =~= seq![range_latency(layers, i as int, jj as int)]);
                    if equal_cost(layers) {
                        lemma_uniform_range(layers, unit_cost(layers), i as int, jj as int);
                        lemma_div_bounds(jj - i, 1);
                    }
                    assert(cell_ok(layers, Some(p), 1, i as int, jj as int));
                    lemma_insert_keeps_cells(layers, m0, 1, i as int, jj as int, Some(p));
                }
                pipeline_cache_insert(&mut self.execution_result_cache, (1, i, jj), Some(p));
                proof {
                    let m1 = pipeline_contents(self.execution_result_cache);
                    assert(key(1, i as int, jj as int) == (1u32, i, jj));
                    assert forall|k: PipelineKey| #[trigger] m1.contains_key(k) implies 1 <= k.0 <= 1 && k.1 < k.2 <= n by {
                        if k != (1u32, i, jj) {
                            assert(m0.contains_key(k));
                        }
                    }
                    assert forall|i2: int, j2: int| 0 <= i2 < j2 <= n && (i2 < i || (i2 == i && j2 <= jj))
                        implies #[trigger] cell_done(layers, m1, 1, i2, j2) by {
                        if (i2, j2) != (i as int, jj as int) {
                            assert(cell_done(layers, m0, 1, i2, j2));
                        }
                    }
                }
                j = jj;
            }
            i = i + 1;
        }
        self.solved = Ghost(1);
        // Waves of two and more stages, each from the waves before it.
        let mut s: u64 = 2;
        while s <= max_num_nodes as u64
            invariant
                self.wf(),
                layers == self.layer_execution_results@,
                n == layers.len(),
                max_num_nodes <= n,
                2 <= s,
                s <= max_int(2, max_num_nodes as int + 1),
                self.solved@ == s - 1,
            decreases max_num_nodes as u64 + 1 - s,
        {
            self.solve_wave(s as u32);
            s = s + 1;
        }
        Ok(())
    }

    /// The template for `num_nodes` stages over the whole profile: for each
    /// stage of the cached optimal pipeline, the names of its layers. Fails
    /// when that stage count has not been solved or exceeds the layer count.
    pub fn get_pipeline_template(&self, num_nodes: u32) -> (r: Result<Vec<Vec<String>>, PlannerError>)
        requires
            self.wf(),
        ensures
            r is Ok <==> 1 <= num_nodes <= self.solved() && num_nodes <= self.layers().len(),
            r matches Ok(t) ==> self.cell_view(num_nodes as int, 0, self.layers().len() as int) matches Some(p)
                && t@.map_values(|v: Vec<String>| v@) == template_of(self.layers(), p)
                && is_optimal(self.layers(), p, num_nodes as int, 0, self.layers().len() as int),
            r matches Ok(t) ==> t@.map_values(|v: Vec<String>| v@) == expected_template(self.layers(), num_nodes as int),
            r matches Err(e) ==> e == PlannerError::NoTemplate(num_nodes),
    {
        let n = self.layer_execution_results.len();
        let ghost m = pipeline_contents(self.execution_result_cache);
        proof {
            assert(key(num_nodes as int, 0, n as int) == (num_nodes, 0usize, n));
            if 1 <= num_nodes <= self.solved@ && num_nodes <= n {
                assert(cell_done(self.layers(), m, num_nodes as int, 0, n as int));
            }
            if m.contains_key((num_nodes, 0usize, n)) {
                assert(cell_done(self.layers(), m, num_nodes as int, 0, n as int));
            }
        }
        match pipeline_cache_get(&self.execution_result_cache, &(num_nodes, 0, n)) {
            Some(Some(p)) => Ok(p.get_modules_per_stage(&self.layer_execution_results)),
            _ => Err(PlannerError::NoTemplate(num_nodes)),
        }
    }

    /// Fills every cell of `s` stages from the waves of fewer stages: a cell
    /// over fewer than `s` layers is infeasible, any other holds its best split.
    /// The cells of one wave read only earlier waves, so they are computed in
    /// parallel and written once all are done.
    fn solve_wave(&mut self, s: u32)
        requires
            old(self).wf(),
            old(self).solved@ == s - 1,
            2 <= s,
        ensures
            final(self).wf(),
            final(self).solved@ == s,
            final(self).layer_execution_results@ == old(self).layer_execution_results@,
    {
        let ghost layers = self.layer_execution_results@;
        let n = self.layer_execution_results.len();
        // Every cell `(i, j)` with `i < j <= n`, row by row.
        let mut cells: Vec<(usize, usize)> = Vec::new();
        let mut i: usize = 0;
        while i < n
            invariant
                n == layers.len(),
                i <= n,
                forall|k: int| 0 <= k < cells@.len() ==> #[trigger] cells@[k].0 < cells@[k].1 <= n,
                forall|i2: int, j2: int| 0 <= i2 < j2 <= n && i2 < i ==> #[trigger] covers(cells@, i2, j2),
            decreases n - i,
        {
            let mut j: usize = i;
            while j < n
                invariant
                    n == layers.len(),
                    i < n,
                    i <= j <= n,
                    forall|k: int| 0 <= k < cells@.len() ==> #[trigger] cells@[k].0 < cells@[k].1 <= n,
                    forall|i2: int, j2: int| 0 <= i2 < j2 <= n && (i2 < i || (i2 == i && j2 <= j)) ==> #[trigger] covers(
                        cells@,
                        i2,
                        j2,
                    ),
                decreases n - j,
            {
                let ghost before = cells@;
                cells.push((i, j + 1));
                proof {
                    assert forall|i2: int, j2: int| 0 <= i2 < j2 <= n && (i2 < i || (i2 == i && j2 <= j + 1))
                        implies #[trigger] covers(cells@, i2, j2) by {
                        if i2 == i && j2 == j + 1 {
                            assert(cells@[before.len() as int] == (i2 as usize, j2 as usize));
                        } else {
                            assert(covers(before, i2, j2));
                            let k = choose|k: int| 0 <= k < before.len() && before[k] == (i2 as usize, j2 as usize);
                            assert(cells@[k] == before[k]);
                        }
                    }
                }
                j = j + 1;
            }
            i = i + 1;
        }
        let mut results = self.solve_cells_parallel(s, &cells);
        let ghost all = results@;
        while results.len() > 0
            invariant
                layers == self.layer_execution_results@,
                n == layers.len(),
                profile_fits(layers),
                2 <= s,
                self.solved@ == s - 1,
                all.len() == cells@.len(),
                results@.len() <= all.len(),
                results@ == all.subrange(0, results@.len() as int),
                forall|k: int| 0 <= k < cells@.len() ==> #[trigger] cells@[k].0 < cells@[k].1 <= n,
                forall|k: int| 0 <= k < all.len() ==> cell_ok(layers, #[trigger] all[k], s as int, cells@[k].0 as int, cells@[k].1 as int),
                forall|i2: int, j2: int| 0 <= i2 < j2 <= n ==> #[trigger] covers(cells@, i2, j2),
                dom_ok(pipeline_contents(self.execution_result_cache), s as int, n as int),
                waves_done(layers, pipeline_contents(self.execution_result_cache), s - 1),
                forall|k: int| results@.len() <= k < cells@.len() ==> #[trigger] cell_done(
                    layers,
                    pipeline_contents(self.execution_result_cache),
                    s as int,
                    cells@[k].0 as int,
                    cells@[k].1 as int,
                ),
                s - 1 > 0 ==> forall|i2: int, j2: int| 0 <= i2 < j2 <= n ==> #[trigger] stage_done(layers, stage_contents(self.stage_execution_results), i2, j2),
                forall|k: StageKey| #[trigger] stage_contents(self.stage_execution_results).contains_key(k) ==> k.0 < k.1 <= n,
            decreases results@.len(),
        {
            let idx = results.len() - 1;
            let c = cells[idx];
            let v = results.pop().unwrap();
            assert(v == all[idx as int]);
            assert(cell_ok(layers, all[idx as int], s as int, c.0 as int, c.1 as int));
            let ghost m0 = pipeline_contents(self.execution_result_cache);
            proof {
                lemma_insert_keeps_cells(layers, m0, s as int, c.0 as int, c.1 as int, v);
            }
            pipeline_cache_insert(&mut self.execution_result_cache, (s, c.0, c.1), v);
            proof {
                let m1 = pipeline_contents(self.execution_result_cache);
                assert(key(s as int, c.0 as int, c.1 as int) == (s, c.0, c.1));
                assert forall|k: PipelineKey| #[trigger] m1.contains_key(k) implies 1 <= k.0 <= s && k.1 < k.2 <= n by {
                    if k != (s, c.0, c.1) {
                        assert(m0.contains_key(k));
                    }
                }
                assert forall|s2: int, i2: int, j2: int| 1 <= s2 <= s - 1 && 0 <= i2 < j2 <= n
                    implies #[trigger] cell_done(layers, m1, s2, i2, j2) by {
                    assert(cell_done(layers, m0, s2, i2, j2));
                }
                assert forall|k: int| results@.len() <= k < cells@.len() implies #[trigger] cell_done(
                    layers, m1, s as int, cells@[k].0 as int, cells@[k].1 as int) by {
                    if k > idx {
                        assert(cell_done(layers, m0, s as int, cells@[k].0 as int, cells@[k].1 as int));
                    }
                }
                assert(results@ =~= all.subrange(0, results@.len() as int));
            }
        }
        self.solved = Ghost(s as nat);
        proof {
            let m = pipeline_contents(self.execution_result_cache);
            assert forall|s2: int, i2: int, j2: int| 1 <= s2 <= s && 0 <= i2 < j2 <= n
                implies #[trigger] cell_done(layers, m, s2, i2, j2) by {
                if s2 == s {
                    assert(covers(cells@, i2, j2));
                    let k = choose|k: int| 0 <= k < cells@.len() && cells@[k] == (i2 as usize, j2 as usize);
                    assert(cell_done(layers, m, s as int, cells@[k].0 as int, cells@[k].1 as int));
                }
            }
        }
    }

    /// The cell of `s` stages over `[i, j)`: infeasible over fewer than `s`
    /// layers, else the best split.
    fn solve_cell(&self, s: u32, i: usize, j: usize) -> (r: Option<PipelineExecutionResult>)
        requires
            profile_fits(self.layer_execution_results@),
            waves_done(self.layer_execution_results@, pipeline_contents(self.execution_result_cache), s - 1),
            2 <= s,
            i < j <= self.layer_execution_results@.len(),
        ensures
            cell_ok(self.layer_execution_results@, r, s as int, i as int, j as int),
    {
        if j - i < s as usize {
            None
        } else {
            self.best_split(s, i, j)
        }
    }

    /// Relies on rayon: `par_iter().map(f).collect()` over a `Vec` gives `f` of
    /// each element, in the elements' order; `f` is `solve_cell`.
    #[verifier::external_body]
    fn solve_cells_parallel(&self, s: u32, cells: &Vec<(usize, usize)>) -> (r: Vec<Option<PipelineExecutionResult>>)
        requires
            profile_fits(self.layer_execution_results@),
            waves_done(self.layer_execution_results@, pipeline_contents(self.execution_result_cache), s - 1),
            2 <= s,
            forall|k: int| 0 <= k < cells@.len() ==> #[trigger] cells@[k].0 < cells@[k].1
                <= self.layer_execution_results@.len(),
        ensures
            r@.len() == cells@.len(),
            forall|k: int| 0 <= k < cells@.len() ==> cell_ok(
                self.layer_execution_results@,
                #[trigger] r@[k],
                s as int,
                cells@[k].0 as int,
                cells@[k].1 as int,
            ),
    {
        cells.par_iter().map(|c| self.solve_cell(s, c.0, c.1)).collect()
    }

    /// The best pipeline of `s` stages over `[i, j)`, from the waves of fewer
    /// stages: the least, in the order on pipelines, over every split point `k`
    /// and every share `s_left + s_right = s` of a left pipeline over `[i, k)`
    /// and a right one over `[k, j)`.
    fn best_split(&self, s: u32, i: usize, j: usize) -> (r: Option<PipelineExecutionResult>)
        requires
            profile_fits(self.layer_execution_results@),
            waves_done(self.layer_execution_results@, pipeline_contents(self.execution_result_cache), s - 1),
            2 <= s <= j - i,
            j <= self.layer_execution_results@.len(),
        ensures
            cell_ok(self.layer_execution_results@, r, s as int, i as int, j as int),
    {
        let ghost layers = self.layer_execution_results@;
        let ghost cache = pipeline_contents(self.execution_result_cache);
        let mut best: Option<PipelineExecutionResult> = None;
        let mut k: usize = i + 1;
        while k < j
            invariant
                profile_fits(layers),
                layers == self.layer_execution_results@,
                cache == pipeline_contents(self.execution_result_cache),
                waves_done(layers, cache, s - 1),
                2 <= s <= j - i,
                j <= layers.len(),
                i + 1 <= k <= j,
                candidate_ok(layers, best, s as int, i as int, j as int),
                forall|k2: int| i < k2 < k ==> #[trigger] tried(layers, cache, best, s as int, i as int, k2, j as int),
                scan_splits(layers, s as int, i as int, j as int, i + 1, None) == scan_splits(
                    layers,
                    s as int,
                    i as int,
                    j as int,
                    k as int,
                    ranges_opt(best),
                ),
            decreases j - k,
        {
            let mut sl: u32 = 1;
            while sl < s
                invariant
                    profile_fits(layers),
                    layers == self.layer_execution_results@,
                    cache == pipeline_contents(self.execution_result_cache),
                    waves_done(layers, cache, s - 1),
                    2 <= s <= j - i,
                    j <= layers.len(),
                    i + 1 <= k < j,
                    1 <= sl <= s,
                    candidate_ok(layers, best, s as int, i as int, j as int),
                    forall|k2: int| i < k2 < k ==> #[trigger] tried(layers, cache, best, s as int, i as int, k2, j as int),
                    sl > 1 ==> tried(layers, cache, best, s as int, i as int, k as int, j as int),
                    scan_splits(layers, s as int, i as int, j as int, i + 1, None) == scan_splits(
                        layers,
                        s as int,
                        i as int,
                        j as int,
                        k + 1,
                        scan_shares(layers, s as int, i as int, j as int, k as int, sl as int, ranges_opt(best)),
                    ),
                decreases s - sl,
            {
                let sr = s - sl;
                assert(cell_done(layers, cache, sl as int, i as int, k as int));
                assert(cell_done(layers, cache, sr as int, k as int, j as int));
                assert(key(sl as int, i as int, k as int) == (sl, i, k));
                assert(key(sr as int, k as int, j as int) == (sr, k, j));
                let left = pipeline_cache_get(&self.execution_result_cache, &(sl, i, k));
                let right = pipeline_cache_get(&self.execution_result_cache, &(sr, k, j));
                let ghost old_best = best;
                let ghost b0 = ranges_opt(best);
                match (left, right) {
                    (Some(Some(l)), Some(Some(r))) => {
                        let cand = PipelineExecutionResult::new(&self.layer_execution_results, &l, &r);
                        let better = match &best {
                            None => true,
                            Some(b) => cand.is_better(b),
                        };
                        if better {
                            best = Some(cand);
                        }
                        proof {
                            assert(best is Some && ((best->0).bottleneck < cand.bottleneck || ((best->0).bottleneck
                                == cand.bottleneck && (best->0).lightest >= cand.lightest)));
                            if sl == 1 {
                                let lr = l.ranges();
                                assert(lr.len() == 1);
                                assert(lr[0] == lr.last());
                                assert(latencies(layers, lr) =~= seq![range_latency(layers, i as int, k as int)]);
                                assert(l.lightest == range_latency(layers, i as int, k as int));
                                assert(tried(layers, cache, best, s as int, i as int, k as int, j as int));
                            }
                            assert forall|k2: int| i < k2 < k implies #[trigger] tried(layers, cache, best, s as int, i as int, k2, j as int) by {
                                assert(tried(layers, cache, old_best, s as int, i as int, k2, j as int));
                            }
                            if sl > 1 {
                                assert(tried(layers, cache, old_best, s as int, i as int, k as int, j as int));
                            }
                            assert(ranges_opt(best) == (if better { Some(l.ranges() + r.ranges()) } else { b0 }));
                            assert(scan_shares(layers, s as int, i as int, j as int, k as int, sl as int, b0)
                                == scan_shares(layers, s as int, i as int, j as int, k as int, sl + 1, ranges_opt(best)));
                        }
                    },
                    _ => {
                        proof {
                            if sl == 1 {
                                assert(s - 1 > j - k);
                            }
                            assert(scan_shares(layers, s as int, i as int, j as int, k as int, sl as int, b0)
                                == scan_shares(layers, s as int, i as int, j as int, k as int, sl + 1, b0));
                        }
                    },
                }
                sl = sl + 1;
            }
            k = k + 1;
        }
        proof {
            assert(chosen(layers, s as int, i as int, j as int) == scan_splits(layers, s as int, i as int, j as int, i + 1, None));
            assert(tried(layers, cache, best, s as int, i as int, i + 1, j as int));
            let b = best->0;
            assert forall|q: Seq<(int, int)>| #[trigger] is_partition(q, i as int, j as int) && q.len() == s implies
                bottleneck_of(layers, b.ranges()) <= bottleneck_of(layers, q) by {
                lemma_partition_split_first(q, i as int, j as int);
                let k0 = q[0].1;
                let q0 = q.subrange(0, 1);
                let q1 = q.subrange(1, q.len() as int);
                lemma_partition_bounds(q1, k0, j as int);
                assert(tried(layers, cache, best, s as int, i as int, k0, j as int));
                assert(cell_done(layers, cache, s - 1, k0, j as int));
                assert(is_partition(q1, k0, j as int));
                assert(latencies(layers, q) =~= latencies(layers, q0) + latencies(layers, q1));
                lemma_peak_concat(latencies(layers, q0), latencies(layers, q1));
                assert(latencies(layers, q0) =~= seq![range_latency(layers, i as int, k0)]);
            }
        }
        proof {
            if equal_cost(layers) {
                let b = best->0;
                let c = unit_cost(layers);
                let l = j - i;
                lemma_split_arith(l, s as int);
                let m = ceil_div(l, s as int);
                let k0 = i + m;
                assert(tried(layers, cache, best, s as int, i as int, k0, j as int));
                assert(cell_done(layers, cache, s - 1, k0, j as int));
                let right = cell(cache, s - 1, k0, j as int)->0;
                assert(even_cell(layers, right, s - 1, k0, j as int));
                lemma_uniform_range(layers, c, i as int, k0);
                let m2 = ceil_div(l - m, s - 1);
                let f2 = (l - m) / (s - 1);
                let f = l / (s as int);
                assert(c * m2 <= c * m && c * f2 >= c * f && c * m >= c * f) by (nonlinear_arith)
                    requires
                        m2 <= m,
                        f2 >= f,
                        f <= m,
                        c > 0,
                ;
                assert(k0 - i == m);
                assert(split_bound(layers, cache, s as int, i as int, k0, j as int) == c * m);
                assert(split_lightest(layers, cache, s as int, i as int, k0, j as int) >= c * f);
                lemma_bottleneck_lower(layers, b.ranges(), s as int, i as int, j as int);
            }
        }
        best
    }
}

/// Every solved cell of `s` stages over `[i, j)` with `s <= j - i` holds a
/// partition of `[i, j)` into exactly `s` stages, with no gap and no overlap,
/// and no partition of `[i, j)` into `s` stages has a smaller bottleneck.
pub proof fn lemma_solved_cells_are_optimal_partitions(g: PipelineTemplateGenerator, s: int, i: int, j: int)
    requires
        g.wf(),
        1 <= s <= g.solved(),
        0 <= i < j <= g.layers().len(),
        s <= j - i,
    ensures
        g.cell_view(s, i, j) matches Some(p) && is_partition(p, i, j) && p.len() == s && is_optimal(
            g.layers(),
            p,
            s,
            i,
            j,
        ),
{
    assert(cell_done(g.layers(), pipeline_contents(g.execution_result_cache), s, i, j));
}

/// Every solved cell holds exactly what `chosen` names: the cache contents
/// depend on the profile alone, not on scheduling or worker count.
pub proof fn lemma_solved_cell_is_chosen(g: PipelineTemplateGenerator, s: int, i: int, j: int)
    requires
        g.wf(),
        1 <= s <= g.solved(),
        0 <= i < j <= g.layers().len(),
    ensures
        g.cell_view(s, i, j) == chosen(g.layers(), s, i, j),
{
    assert(cell_done(g.layers(), pipeline_contents(g.execution_result_cache), s, i, j));
}

/// Once solved, the stage cache holds exactly one stage for each range
/// `i < j <= L`: the stage `[i, j)` of the profile.
pub proof fn lemma_stage_cache_exact(g: PipelineTemplateGenerator)
    requires
        g.wf(),
        g.solved() > 0,
    ensures
        forall|k: StageKey| #[trigger] g.stage_view().contains_key(k) <==> k.0 < k.1 <= g.layers().len(),
        forall|k: StageKey| #[trigger] g.stage_view().contains_key(k) ==> g.stage_view()[k].wf(g.layers())
            && g.stage_view()[k].layers == k,
{
    let layers = g.layers();
    let st = g.stage_view();
    assert forall|k: StageKey| k.0 < k.1 <= layers.len() implies #[trigger] st.contains_key(k) by {
        assert(stage_done(layers, st, k.0 as int, k.1 as int));
    }
    assert forall|k: StageKey| #[trigger] st.contains_key(k) implies st[k].wf(layers) && st[k].layers == k by {
        assert(stage_done(layers, st, k.0 as int, k.1 as int));
    }
}

/// On equal-cost layers, every stage of the template for `n` nodes holds
/// within one layer of the average `L / n`: its size `d` satisfies
/// `(d - 1) * n < L < (d + 1) * n`.
pub proof fn lemma_equal_cost_template_even(g: PipelineTemplateGenerator, n: int)
    requires
        g.wf(),
        equal_cost(g.layers()),
        1 <= n <= g.solved(),
        n <= g.layers().len(),
    ensures
        g.cell_view(n, 0, g.layers().len() as int) matches Some(p) && forall|k: int| 0 <= k < p.len() ==> {
            &&& (#[trigger] p[k].1 - p[k].0 - 1) * n < g.layers().len()
            &&& (p[k].1 - p[k].0 + 1) * n > g.layers().len()
        },
{
    let layers = g.layers();
    let len = layers.len() as int;
    let m = pipeline_contents(g.execution_result_cache);
    assert(cell_done(layers, m, n, 0, len));
    let c = unit_cost(layers);
    let b = cell(m, n, 0, len)->0;
    let p = b.ranges();
    lemma_partition_bounds(p, 0, len);
    lemma_div_bounds(len, n);
    let hi = ceil_div(len, n);
    let lo = len / n;
    assert forall|k: int| 0 <= k < p.len() implies {
        &&& (#[trigger] p[k].1 - p[k].0 - 1) * n < len
        &&& (p[k].1 - p[k].0 + 1) * n > len
    } by {
        lemma_peak_ge(latencies(layers, p), k);
        lemma_low_le(latencies(layers, p), k);
        assert(0 <= p[k].0 && p[k].0 < p[k].1 && p[k].1 <= len);
        lemma_uniform_range(layers, c, p[k].0, p[k].1);
        let d = p[k].1 - p[k].0;
        assert(c * d <= c * hi && c * d >= c * lo);
        assert((d - 1) * n < len && (d + 1) * n > len) by (nonlinear_arith)
            requires
                c * d <= c * hi,
                c * d >= c * lo,
                c > 0,
                n >= 1,
                (hi - 1) * n < len,
                len < (lo + 1) * n,
        ;
    }
}

/// The template of a partition of `[i, j)` has one entry per stage, and its
/// entries, concatenated, are the names of the layers `[i, j)` in order.
pub proof fn lemma_template_concatenates(layers: Seq<LayerExecutionResult>, p: Seq<(int, int)>, i: int, j: int)
    requires
        is_partition(p, i, j),
        0 <= i,
        j <= layers.len(),
    ensures
        template_of(layers, p).len() == p.len(),
        template_of(layers, p).flatten() == names(layers, i, j),
    decreases p.len(),
{
    let t = template_of(layers, p);
    if p.len() == 1 {
        assert(p.last() == p[0]);
        assert(t.drop_first() =~= Seq::<Seq<String>>::empty());
        assert(t.drop_first().flatten() =~= Seq::<String>::empty());
        assert(t.flatten() =~= names(layers, i, j));
    } else {
        lemma_partition_split_first(p, i, j);
        let k0 = p[0].1;
        let rest = p.subrange(1, p.len() as int);
        lemma_template_concatenates(layers, rest, k0, j);
        assert(t.drop_first() =~= template_of(layers, rest));
        assert(t.flatten() =~= names(layers, i, k0) + names(layers, k0, j));
        assert(names(layers, i, k0) + names(layers, k0, j) =~= names(layers, i, j));
    }
}

/// The template for `n` nodes of a solved generator has exactly `n` stages,
/// and its stages, concatenated, are all the layer names of the profile in
/// order.
pub proof fn lemma_template_covers_profile(g: PipelineTemplateGenerator, n: int)
    requires
        g.wf(),
        1 <= n <= g.solved(),
        n <= g.layers().len(),
    ensures
        g.cell_view(n, 0, g.layers().len() as int) matches Some(p) && template_of(g.layers(), p).len() == n
            && template_of(g.layers(), p).flatten() == g.layers().map_values(
            |l: LayerExecutionResult| l.layer_name,
        ),
{
    let layers = g.layers();
    let len = layers.len() as int;
    lemma_solved_cells_are_optimal_partitions(g, n, 0, len);
    let p = g.cell_view(n, 0, len)->0;
    lemma_template_concatenates(layers, p, 0, len);
    assert(layers.subrange(0, len) =~= layers);
}

/// The templates of a result map, as sequences of layer names.
pub open spec fn templates_view(m: HashMap<u32, Vec<Vec<String>>>) -> Map<u32, Seq<Seq<String>>> {
    m@.map_values(|t: Vec<Vec<String>>| t@.map_values(|v: Vec<String>| v@))
}

/// The template the solver gives for `c` nodes over the whole profile.
pub open spec fn expected_template(layers: Seq<LayerExecutionResult>, c: int) -> Seq<Seq<String>> {
    template_of(layers, chosen(layers, c, 0, layers.len() as int)->0)
}

/// `m` maps exactly the counts in `nodes`, each to its expected template.
pub open spec fn templates_for(layers: Seq<LayerExecutionResult>, nodes: Seq<u32>, m: Map<u32, Seq<Seq<String>>>) -> bool {
    &&& forall|k: int| 0 <= k < nodes.len() ==> m.contains_key(#[trigger] nodes[k])
    &&& forall|c: u32| #[trigger] m.contains_key(c) ==> exists|k: int| 0 <= k < nodes.len() && nodes[k] == c
    &&& forall|c: u32| #[trigger] m.contains_key(c) ==> m[c] == expected_template(layers, c as int)
}

/// The templates depend on the profile and the requested counts alone: two
/// results for the same arguments (two calls, in any order, on any machine)
/// are equal.
pub proof fn lemma_templates_determined(
    layers: Seq<LayerExecutionResult>,
    nodes: Seq<u32>,
    a: Map<u32, Seq<Seq<String>>>,
    b: Map<u32, Seq<Seq<String>>>,
)
    requires
        templates_for(layers, nodes, a),
        templates_for(layers, nodes, b),
    ensures
        a == b,
{
    assert forall|c: u32| a.contains_key(c) <==> b.contains_key(c) by {
        if a.contains_key(c) {
            let k = choose|k: int| 0 <= k < nodes.len() && nodes[k] == c;
            assert(b.contains_key(nodes[k]));
        }
        if b.contains_key(c) {
            let k = choose|k: int| 0 <= k < nodes.len() && nodes[k] == c;
            assert(a.contains_key(nodes[k]));
        }
    }
    assert(a =~= b);
}

/// The templates for each node count in `nodes`, over the profile `layers`:
/// one solver run up to the largest count, then one template per count.
/// Fails with `InvalidNodeCount` when a count is zero or exceeds the number of
/// layers.
pub fn create_pipeline_templates(layers: Vec<LayerExecutionResult>, nodes: Vec<u32>) -> (r: Result<
    HashMap<u32, Vec<Vec<String>>>,
    PlannerError,
>)
    requires
        profile_fits(layers@),
        nodes@.len() > 0,
    ensures
        r is Err <==> exists|k: int| 0 <= k < nodes@.len() && (#[trigger] nodes@[k] == 0 || nodes@[k] > layers@.len()),
        r matches Err(e) ==> e == PlannerError::InvalidNodeCount,
        r matches Ok(m) ==> templates_for(layers@, nodes@, templates_view(m)),
        r matches Ok(m) ==> forall|c: u32| #[trigger] templates_view(m).contains_key(c) ==> is_optimal_template(
            layers@,
            templates_view(m)[c],
            c as int,
        ),
{
    broadcast use vstd::std_specs::hash::group_hash_axioms;
    let n = layers.len();
    let mut max_nodes: u32 = 0;
    let mut x: usize = 0;
    while x < nodes.len()
        invariant
            n == layers@.len(),
            x <= nodes@.len(),
            forall|k: int| 0 <= k < x ==> 1 <= #[trigger] nodes@[k] <= max_nodes,
            max_nodes <= n,
            x > 0 ==> max_nodes >= 1,
        decreases nodes@.len() - x,
    {
        if nodes[x] == 0 || nodes[x] as usize > n {
            return Err(PlannerError::InvalidNodeCount);
        }
        if nodes[x] > max_nodes {
            max_nodes = nodes[x];
        }
        x = x + 1;
    }
    let ghost l = layers@;
    let mut generator = PipelineTemplateGenerator::new(layers);
    let solved = generator.divide_and_conquer(max_nodes);
    assert(solved is Ok);
    let mut results: HashMap<u32, Vec<Vec<String>>> = HashMap::new();
    let mut y: usize = 0;
    while y < nodes.len()
        invariant
            generator.wf(),
            generator.layers() == l,
            generator.solved() == max_nodes,
            n == l.len(),
            y <= nodes@.len(),
            forall|k: int| 0 <= k < nodes@.len() ==> 1 <= #[trigger] nodes@[k] <= max_nodes,
            max_nodes <= n,
            templates_for(l, nodes@.subrange(0, y as int), templates_view(results)),
            forall|c: u32| #[trigger] templates_view(results).contains_key(c) ==> is_optimal_template(
                l,
                templates_view(results)[c],
                c as int,
            ),
        decreases nodes@.len() - y,
    {
        let c = nodes[y];
        let ghost before = templates_view(results);
        let template = generator.get_pipeline_template(c)?;
        let ghost tv = template@.map_values(|v: Vec<String>| v@);
        proof {
            let p = generator.cell_view(c as int, 0, n as int)->0;
            assert(is_optimal(l, p, c as int, 0, l.len() as int));
        }
        results.insert(c, template);
        proof {
            assert(templates_view(results) =~= before.insert(c, tv));
        }
        y = y + 1;
        proof {
            let m = templates_view(results);
            let ns = nodes@.subrange(0, y as int);
            let ns0 = nodes@.subrange(0, y - 1);
            assert forall|k: int| 0 <= k < ns.len() implies m.contains_key(#[trigger] ns[k]) by {
                if k < y - 1 {
                    assert(ns[k] == ns0[k]);
                }
            }
            assert forall|c2: u32| #[trigger] m.contains_key(c2) implies exists|k: int| 0 <= k < ns.len() && ns[k] == c2 by {
                if c2 == c {
                    assert(ns[y - 1] == c2);
                } else {
                    let k = choose|k: int| 0 <= k < ns0.len() && ns0[k] == c2;
                    assert(ns[k] == c2);
                }
            }
        }
    }
    assert(nodes@.subrange(0, y as int) =~= nodes@);
    Ok(results)
}

} // verus!
