//! The solver's two memo tables, held in `dashmap` maps: the stage cache,
//! keyed by layer range, and the pipeline cache, keyed by stage count and
//! layer range. Each map's contents are named by a spec function, and each
//! operation the solver uses states its effect on them.
use vstd::prelude::*;
use dashmap::DashMap;
use std::sync::Arc;
use crate::execution_result::{PipelineExecutionResult, StageExecutionResult};

verus! {

#[verifier::external_type_specification]
#[verifier::external_body]
#[verifier::reject_recursive_types(K)]
#[verifier::reject_recursive_types(V)]
#[verifier::reject_recursive_types(S)]
pub struct ExDashMap<K, V, S>(DashMap<K, V, S>);

/// Key of the stage cache: `(start, end)`.
pub type StageKey = (usize, usize);

/// Key of the pipeline cache: `(stages, start, end)`.
pub type PipelineKey = (u32, usize, usize);

/// The stage cache: stage results by `(start, end)`.
pub type StageCache = DashMap<(usize, usize), Arc<StageExecutionResult>>;

/// The pipeline cache: cell results by `(stages, start, end)`.
pub type PipelineCache = DashMap<(u32, usize, usize), Option<PipelineExecutionResult>>;

/// What the stage cache holds, by `(start, end)`.
pub uninterp spec fn stage_contents(m: StageCache) -> Map<
    (usize, usize),
    Arc<StageExecutionResult>,
>;

/// What the pipeline cache holds, by `(stages, start, end)`; `None` marks an
/// infeasible cell.
pub uninterp spec fn pipeline_contents(m: PipelineCache) -> Map<
    (u32, usize, usize),
    Option<PipelineExecutionResult>,
>;

/// Relies on `DashMap::new`: a new map holds nothing.
#[verifier::external_body]
pub(crate) fn new_stage_cache() -> (r: StageCache)
    ensures
        stage_contents(r).dom() == Set::<StageKey>::empty(),
{
    DashMap::new()
}

/// Relies on `DashMap::insert`: afterwards `key` maps to `value` and every
/// other key is unchanged.
#[verifier::external_body]
pub(crate) fn stage_cache_insert(
    m: &mut StageCache,
    key: (usize, usize),
    value: Arc<StageExecutionResult>,
)
    ensures
        stage_contents(*final(m)) == stage_contents(*old(m)).insert(key, value),
{
    m.insert(key, value);
}

/// Relies on `DashMap::is_empty`: true exactly when the map holds no key.
#[verifier::external_body]
pub(crate) fn stage_cache_is_empty(m: &StageCache) -> (r: bool)
    ensures
        r <==> stage_contents(*m).dom() == Set::<StageKey>::empty(),
{
    m.is_empty()
}

/// Relies on `DashMap::new`: a new map holds nothing.
#[verifier::external_body]
pub(crate) fn new_pipeline_cache() -> (r: PipelineCache)
    ensures
        pipeline_contents(r).dom() == Set::<PipelineKey>::empty(),
{
    DashMap::new()
}

/// Relies on `DashMap::insert`: afterwards `key` maps to `value` and every
/// other key is unchanged.
#[verifier::external_body]
pub(crate) fn pipeline_cache_insert(
    m: &mut PipelineCache,
    key: (u32, usize, usize),
    value: Option<PipelineExecutionResult>,
)
    ensures
        pipeline_contents(*final(m)) == pipeline_contents(*old(m)).insert(key, value),
{
    m.insert(key, value);
}

/// Relies on `DashMap::get`: the value held for `key`, if any (copied out of
/// the map's read guard).
#[verifier::external_body]
pub(crate) fn pipeline_cache_get(
    m: &PipelineCache,
    key: &(u32, usize, usize),
) -> (r: Option<Option<PipelineExecutionResult>>)
    ensures
        pipeline_contents(*m).contains_key(*key) ==> r == Some(pipeline_contents(*m)[*key]),
        !pipeline_contents(*m).contains_key(*key) ==> r is None,
{
    m.get(key).map(|e| e.value().clone())
}

} // verus!
