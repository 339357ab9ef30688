use std::collections::HashMap;
use std::sync::Arc;

use oobleck_planner::execution_result::{PipelineExecutionResult, StageExecutionResult};
use oobleck_planner::pipeline_template_generator::{create_pipeline_templates, PipelineTemplateGenerator};
use oobleck_planner::profile::{LayerExecutionResult, PlannerError};

fn profile(num_layers: u32, same_latency: bool) -> Vec<LayerExecutionResult> {
    (0..num_layers)
        .map(|i| {
            let v = if same_latency { 1 } else { (i + 1) as u64 };
            LayerExecutionResult::new(i, format!("layer{}", i), v, v, v)
        })
        .collect()
}

fn names(v: &[&str]) -> Vec<String> {
    v.iter().map(|s| s.to_string()).collect()
}

fn sizes(template: &Vec<Vec<String>>) -> Vec<usize> {
    template.iter().map(|stage| stage.len()).collect()
}

#[test]
fn test_return_no_template_for_too_large_num_nodes() {
    let templates = create_pipeline_templates(profile(6, true), vec![7]);
    assert!(templates.is_err());
}

#[test]
fn test_all_layers_covered() {
    let templates = create_pipeline_templates(profile(6, false), vec![1, 2, 3, 4, 5, 6]).unwrap();

    let expected_layers: Vec<String> = (0..6).map(|i| format!("layer{}", i)).collect();

    for (_, template) in templates.iter() {
        let mut covered_layers: Vec<String> = Vec::new();
        for stage in template.iter() {
            for layer in stage.iter() {
                covered_layers.push(layer.clone());
            }
        }
        assert_eq!(covered_layers, expected_layers);
    }
}

#[test]
fn test_divide_and_conquer_base_only() {
    let template = create_pipeline_templates(profile(6, false), vec![1]).unwrap();
    assert_eq!(template.len(), 1);
    assert_eq!(template[&1].len(), 1);
    assert_eq!(
        template[&1][0],
        vec!["layer0", "layer1", "layer2", "layer3", "layer4", "layer5"]
    );
}

#[test]
fn test_divide_and_conquer_divide() {
    let templates = create_pipeline_templates(profile(6, false), vec![1, 2]).unwrap();
    assert_eq!(templates.len(), 2);
    assert_eq!(
        templates[&1][0],
        vec!["layer0", "layer1", "layer2", "layer3", "layer4", "layer5"]
    );
    assert_eq!(
        templates[&2][0],
        vec!["layer0", "layer1", "layer2", "layer3"]
    );
    assert_eq!(templates[&2][1], vec!["layer4", "layer5"]);
}

#[test]
fn test_divide_and_conquer_divide2() {
    let templates = create_pipeline_templates(profile(6, false), vec![2, 3, 4]).unwrap();
    assert_eq!(templates.len(), 3);
    assert_eq!(
        templates[&2][0],
        vec!["layer0", "layer1", "layer2", "layer3"]
    );
    assert_eq!(templates[&2][1], vec!["layer4", "layer5"]);

    assert_eq!(templates[&3][0], vec!["layer0", "layer1", "layer2"]);
    assert_eq!(templates[&3][1], vec!["layer3", "layer4"]);
    assert_eq!(templates[&3][2], vec!["layer5"]);

    assert_eq!(templates[&4][0], vec!["layer0", "layer1", "layer2"]);
    assert_eq!(templates[&4][1], vec!["layer3"]);
    assert_eq!(templates[&4][2], vec!["layer4"]);
    assert_eq!(templates[&4][3], vec!["layer5"]);
}

#[test]
fn equal_layers_split_evenly() {
    let templates = create_pipeline_templates(profile(6, true), vec![3]).unwrap();
    let s = sizes(&templates[&3]);
    assert_eq!(s.iter().sum::<usize>(), 6);
    assert_eq!(s, vec![2, 2, 2]);
}

#[test]
fn equal_layers_uneven_count_stays_within_one_of_average() {
    // Seven equal layers on three stages: bottleneck three layers, and among
    // such splits the one whose lightest stage is heaviest.
    let templates = create_pipeline_templates(profile(7, true), vec![3]).unwrap();
    assert_eq!(sizes(&templates[&3]), vec![2, 2, 3]);
}

#[test]
fn equal_layers_every_count_is_even() {
    for num_layers in 1..=10u32 {
        let nodes: Vec<u32> = (1..=num_layers).collect();
        let templates = create_pipeline_templates(profile(num_layers, true), nodes).unwrap();
        for n in 1..=num_layers {
            let s = sizes(&templates[&n]);
            assert_eq!(s.len(), n as usize);
            assert_eq!(s.iter().sum::<usize>(), num_layers as usize);
            for d in s {
                // |d - L/n| < 1, i.e. (d - 1) * n < L < (d + 1) * n.
                assert!((d as i64 - 1) * (n as i64) < num_layers as i64);
                assert!((d as i64 + 1) * (n as i64) > num_layers as i64);
            }
        }
    }
}

#[test]
fn zero_node_count_is_invalid() {
    assert_eq!(
        create_pipeline_templates(profile(6, false), vec![0, 2]),
        Err(PlannerError::InvalidNodeCount)
    );
}

#[test]
fn node_count_equal_to_layer_count_gives_one_layer_per_stage() {
    let templates = create_pipeline_templates(profile(6, false), vec![6]).unwrap();
    assert_eq!(sizes(&templates[&6]), vec![1, 1, 1, 1, 1, 1]);
}

#[test]
fn facade_is_idempotent_and_repeatable() {
    let a = create_pipeline_templates(profile(6, false), vec![1, 2, 3, 4, 5, 6]).unwrap();
    let b = create_pipeline_templates(profile(6, false), vec![6, 5, 4, 3, 2, 1]).unwrap();
    assert_eq!(a, b);
    let expected: HashMap<u32, Vec<Vec<String>>> = a.clone();
    assert_eq!(create_pipeline_templates(profile(6, false), vec![1, 2, 3, 4, 5, 6]).unwrap(), expected);
}

#[test]
fn generator_reports_missing_templates() {
    let mut g = PipelineTemplateGenerator::new(profile(6, false));
    assert_eq!(g.get_pipeline_template(1), Err(PlannerError::NoTemplate(1)));
    assert_eq!(g.divide_and_conquer(7), Err(PlannerError::InvalidNodeCount));
    assert_eq!(g.divide_and_conquer(3), Ok(()));
    assert_eq!(g.get_pipeline_template(0), Err(PlannerError::NoTemplate(0)));
    assert_eq!(g.get_pipeline_template(4), Err(PlannerError::NoTemplate(4)));
    // A second run is a no-op, even with a larger count.
    assert_eq!(g.divide_and_conquer(5), Ok(()));
    assert_eq!(g.get_pipeline_template(5), Err(PlannerError::NoTemplate(5)));
    assert_eq!(
        g.get_pipeline_template(3).unwrap(),
        vec![names(&["layer0", "layer1", "layer2"]), names(&["layer3", "layer4"]), names(&["layer5"])]
    );
}

#[test]
fn empty_profile_has_no_template() {
    let mut g = PipelineTemplateGenerator::new(Vec::new());
    assert_eq!(g.divide_and_conquer(1), Err(PlannerError::InvalidNodeCount));
    assert_eq!(g.divide_and_conquer(0), Ok(()));
    assert_eq!(g.get_pipeline_template(1), Err(PlannerError::NoTemplate(1)));
}

#[test]
fn stage_sums_its_layers() {
    let layers = profile(6, false);
    let st = StageExecutionResult::new(&layers, 1, 4);
    assert_eq!(st.layers, (1, 4));
    assert_eq!(st.forward, 2 + 3 + 4);
    assert_eq!(st.backward, 9);
    assert_eq!(st.mem_required, 9);
    assert_eq!(st.latency(), 18);
}

#[test]
fn pipeline_composition_aggregates() {
    let layers = profile(6, false);
    let left = PipelineExecutionResult::make_base_result(&layers, Arc::new(StageExecutionResult::new(&layers, 0, 4)));
    let right = PipelineExecutionResult::make_base_result(&layers, Arc::new(StageExecutionResult::new(&layers, 4, 6)));
    assert_eq!(left.latency(), 20);
    assert_eq!(right.latency(), 22);
    let p = PipelineExecutionResult::new(&layers, &left, &right);
    assert_eq!(p.stages.len(), 2);
    assert!(Arc::ptr_eq(&p.stages[0], &left.stages[0]));
    assert!(Arc::ptr_eq(&p.stages[1], &right.stages[0]));
    assert_eq!(p.stages[1].layers, (4, 6));
    assert_eq!(p.bottleneck, 22);
    assert_eq!(p.latency(), 22);
    assert_eq!(p.forward, 21);
    assert_eq!(p.backward, 21);
    assert_eq!(p.mem_required, 11);
    assert_eq!(
        p.get_modules_per_stage(&layers),
        vec![names(&["layer0", "layer1", "layer2", "layer3"]), names(&["layer4", "layer5"])]
    );
}

fn varied_profile(num_layers: u32, seed: u64) -> Vec<LayerExecutionResult> {
    let mut state = seed;
    (0..num_layers)
        .map(|i| {
            state = state.wrapping_mul(6364136223846793005).wrapping_add(1442695040888963407);
            let forward = (state >> 33) % 9 + 1;
            state = state.wrapping_mul(6364136223846793005).wrapping_add(1442695040888963407);
            let backward = (state >> 33) % 9;
            LayerExecutionResult::new(i, format!("layer{}", i), forward, backward, 1)
        })
        .collect()
}

fn best_bottleneck(lat: &[u64], start: usize, stages: usize) -> u64 {
    if stages == 1 {
        return lat[start..].iter().sum();
    }
    let mut best = u64::MAX;
    for end in start + 1..=lat.len() - (stages - 1) {
        let first: u64 = lat[start..end].iter().sum();
        let rest = best_bottleneck(lat, end, stages - 1);
        best = best.min(first.max(rest));
    }
    best
}

#[test]
fn solver_matches_brute_force_on_small_profiles() {
    for seed in 0..4u64 {
        for num_layers in 1..=7u32 {
            let layers = varied_profile(num_layers, seed);
            let lat: Vec<u64> = layers.iter().map(|l| l.forward + l.backward).collect();
            let nodes: Vec<u32> = (1..=num_layers).collect();
            let templates = create_pipeline_templates(layers, nodes).unwrap();
            for n in 1..=num_layers {
                let template = &templates[&n];
                assert_eq!(template.len(), n as usize);
                let mut at = 0usize;
                let mut bottleneck = 0u64;
                for stage in template {
                    assert!(!stage.is_empty());
                    bottleneck = bottleneck.max(lat[at..at + stage.len()].iter().sum());
                    at += stage.len();
                }
                assert_eq!(at, num_layers as usize);
                assert_eq!(bottleneck, best_bottleneck(&lat, 0, n as usize));
            }
        }
    }
}

#[test]
fn one_more_node_than_layers_is_invalid() {
    for num_layers in 1..=6u32 {
        assert_eq!(
            create_pipeline_templates(profile(num_layers, false), vec![num_layers + 1]),
            Err(PlannerError::InvalidNodeCount)
        );
    }
}
