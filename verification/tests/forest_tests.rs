use isolation_forest::{Feature, Forest, ForestError, Node, PathLength, Sample, Score};
use rand::rngs::StdRng;
use rand::{Rng, SeedableRng};

const SCALE: f64 = 1000.0;

fn fixed(value: f64) -> i64 {
    (value * SCALE).round() as i64
}

fn point(x: f64, y: f64) -> Sample {
    let mut sample = Sample::new("");
    sample.add_feature(Feature::new("x", fixed(x))).unwrap();
    sample.add_feature(Feature::new("y", fixed(y))).unwrap();
    sample
}

fn only_x(x: f64) -> Sample {
    let mut sample = Sample::new("");
    sample.add_feature(Feature::new("x", fixed(x))).unwrap();
    sample
}

/// A cluster of samples between (0, 0) and (30, 30).
fn cluster(count: usize, seed: u64) -> Vec<Sample> {
    let mut rng = StdRng::seed_from_u64(seed);
    (0..count)
        .map(|_| {
            let x = 0.3 * rng.gen_range(0..100) as f64;
            let y = 0.3 * rng.gen_range(0..100) as f64;
            point(x, y)
        })
        .collect()
}

fn trained(trees: u32, sub_sampling_size: u32, samples: &Vec<Sample>, seed: u64) -> Forest {
    let mut forest = Forest::new(trees, sub_sampling_size).unwrap();
    for sample in samples {
        forest.add_sample(sample.clone()).unwrap();
    }
    forest.create(&mut StdRng::seed_from_u64(seed)).unwrap();
    forest
}

/// The average path length of an unsuccessful search in a binary search
/// tree of `n` nodes.
fn c(n: usize) -> f64 {
    if n <= 1 {
        0.0
    } else {
        let n = n as f64;
        2.0 * ((n - 1.0).ln() + 0.5772156649) - 2.0 * (n - 1.0) / n
    }
}

fn average_path_length(score: &Score) -> f64 {
    let total: f64 = score.path_lengths.iter().map(|p| p.depth as f64 + c(p.leaf_size)).sum();
    total / score.path_lengths.len() as f64
}

fn anomaly_score(score: &Score) -> f64 {
    let norm = c(score.sub_sample_size);
    if norm == 0.0 {
        return 0.5;
    }
    2f64.powf(-average_path_length(score) / norm)
}

fn height_of(node: &Node) -> usize {
    match node {
        Node::Leaf { .. } => 0,
        Node::Internal { left, right, .. } => 1 + height_of(left).max(height_of(right)),
    }
}

fn size_of(node: &Node) -> usize {
    match node {
        Node::Leaf { size } => *size,
        Node::Internal { left, right, .. } => size_of(left) + size_of(right),
    }
}

#[test]
fn new_forest_is_empty_and_not_built() {
    let forest = Forest::new(10, 256).unwrap();
    assert_eq!(forest.num_trees_to_create(), 10);
    assert_eq!(forest.sub_sampling_size(), 256);
    assert!(forest.training_samples().is_empty());
    assert!(forest.trees().is_empty());
    assert!(!forest.is_built());
}

#[test]
fn new_refuses_a_zero_setting() {
    assert_eq!(Forest::new(0, 16).unwrap_err(), ForestError::InvalidConfiguration);
    assert_eq!(Forest::new(16, 0).unwrap_err(), ForestError::InvalidConfiguration);
    assert_eq!(Forest::new(0, 0).unwrap_err(), ForestError::InvalidConfiguration);
    assert!(Forest::new(1, 1).is_ok());
    assert!(Forest::new(u32::MAX, u32::MAX).is_ok());
}

#[test]
fn add_sample_appends_in_order() {
    let mut forest = Forest::new(3, 4).unwrap();
    assert_eq!(forest.add_sample(point(1.0, 2.0)), Ok(()));
    assert_eq!(forest.add_sample(point(3.0, 4.0)), Ok(()));
    assert_eq!(forest.training_samples(), &vec![point(1.0, 2.0), point(3.0, 4.0)]);
    assert!(!forest.is_built());
}

#[test]
fn score_before_create_is_refused() {
    let forest = Forest::new(5, 8).unwrap();
    assert_eq!(forest.score(point(1.0, 1.0)), Err(ForestError::NotBuilt));
    let mut forest = Forest::new(5, 8).unwrap();
    forest.add_sample(point(1.0, 1.0)).unwrap();
    assert_eq!(forest.score(point(1.0, 1.0)), Err(ForestError::NotBuilt));
}

#[test]
fn create_without_samples_is_refused_and_changes_nothing() {
    let mut forest = Forest::new(5, 8).unwrap();
    let mut rng = StdRng::seed_from_u64(9);
    assert_eq!(forest.create(&mut rng), Err(ForestError::EmptyTrainingSet));
    assert!(!forest.is_built());
    assert!(forest.trees().is_empty());
    assert!(forest.training_samples().is_empty());
    assert_eq!(forest.num_trees_to_create(), 5);
    assert_eq!(forest.sub_sampling_size(), 8);
    assert_eq!(forest.score(point(1.0, 1.0)), Err(ForestError::NotBuilt));
    assert_eq!(forest.create(&mut rng), Err(ForestError::EmptyTrainingSet));
    forest.add_sample(point(1.0, 1.0)).unwrap();
    forest.add_sample(point(2.0, 2.0)).unwrap();
    assert_eq!(forest.create(&mut rng), Ok(()));
    assert!(forest.is_built());
    assert_eq!(forest.trees().len(), 5);
}

#[test]
fn a_built_forest_takes_no_sample_and_is_not_built_again() {
    let samples = cluster(20, 1);
    let mut forest = trained(4, 8, &samples, 2);
    let trees_before: Vec<String> = forest.trees().iter().map(|t| format!("{:?}", t)).collect();
    assert_eq!(forest.add_sample(point(1.0, 1.0)), Err(ForestError::AlreadyBuilt));
    assert_eq!(forest.training_samples().len(), 20);
    assert_eq!(forest.create(&mut StdRng::seed_from_u64(3)), Err(ForestError::AlreadyBuilt));
    let trees_after: Vec<String> = forest.trees().iter().map(|t| format!("{:?}", t)).collect();
    assert_eq!(trees_before, trees_after);
}

#[test]
fn create_builds_every_tree_from_a_subsample() {
    let samples = cluster(100, 4);
    let forest = trained(50, 16, &samples, 5);
    assert!(forest.is_built());
    assert_eq!(forest.trees().len(), 50);
    assert_eq!(forest.training_samples(), &samples);
    for tree in forest.trees() {
        assert_eq!(tree.height_limit(), 4);
        assert!(height_of(tree.root()) <= 4);
        assert_eq!(size_of(tree.root()), 16);
    }
}

#[test]
fn create_uses_the_whole_training_set_where_it_is_small() {
    let samples = cluster(5, 4);
    let forest = trained(7, 256, &samples, 5);
    assert_eq!(forest.trees().len(), 7);
    for tree in forest.trees() {
        assert_eq!(tree.height_limit(), 8);
        assert_eq!(size_of(tree.root()), 5);
    }
    let score = forest.score(point(1.0, 1.0)).unwrap();
    assert_eq!(score.sub_sample_size, 5);
    assert_eq!(score.path_lengths.len(), 7);
}

#[test]
fn create_fails_as_a_whole_where_a_sample_lacks_a_feature() {
    let mut forest = Forest::new(6, 4).unwrap();
    forest.add_sample(only_x(1.0)).unwrap();
    forest.add_sample(Sample::new("bare")).unwrap();
    forest.add_sample(only_x(3.0)).unwrap();
    forest.add_sample(Sample::new("bare too")).unwrap();
    let mut failures = 0;
    for seed in 0..20u64 {
        let result = forest.create(&mut StdRng::seed_from_u64(seed));
        if result.is_err() {
            assert_eq!(result, Err(ForestError::FeatureNotFound));
            assert!(!forest.is_built());
            assert!(forest.trees().is_empty());
            assert_eq!(forest.training_samples().len(), 4);
            failures += 1;
        } else {
            assert_eq!(forest.trees().len(), 6);
            break;
        }
    }
    assert!(failures > 0);
}

#[test]
fn score_holds_one_path_for_each_tree() {
    let samples = cluster(100, 6);
    let forest = trained(25, 16, &samples, 7);
    let query = point(15.0, 15.0);
    let score = forest.score(query.clone()).unwrap();
    assert_eq!(score.sub_sample_size, 16);
    assert_eq!(score.path_lengths.len(), 25);
    for (tree, reached) in forest.trees().iter().zip(score.path_lengths.iter()) {
        assert_eq!(tree.path_length(&query), Ok(*reached));
        assert!(reached.depth <= 4);
        assert!(1 <= reached.leaf_size && reached.leaf_size <= 16);
    }
}

#[test]
fn score_of_a_forest_over_one_sample() {
    let forest = trained(3, 16, &vec![point(1.0, 1.0)], 7);
    let score = forest.score(point(99.0, -99.0)).unwrap();
    assert_eq!(
        score,
        Score {
            path_lengths: vec![PathLength { depth: 0, leaf_size: 1 }; 3],
            sub_sample_size: 1,
        }
    );
    assert_eq!(anomaly_score(&score), 0.5);
}

#[test]
fn score_is_the_same_for_the_same_seed() {
    let samples = cluster(100, 8);
    let first = trained(20, 16, &samples, 1234);
    let second = trained(20, 16, &samples, 1234);
    assert_eq!(first.trees(), second.trees());
    for query in [point(15.0, 15.0), point(200.0, 200.0), point(-3.0, 31.0)] {
        let one = first.score(query.clone()).unwrap();
        let two = second.score(query.clone()).unwrap();
        assert_eq!(one, two);
        assert_eq!(first.score(query).unwrap(), one);
        assert_eq!(anomaly_score(&one), anomaly_score(&two));
    }
    let other = trained(20, 16, &samples, 4321);
    assert_ne!(first.trees(), other.trees());
}

#[test]
fn score_lies_between_zero_and_one() {
    let samples = cluster(100, 10);
    let forest = trained(50, 16, &samples, 11);
    let queries = [
        point(15.0, 15.0),
        point(0.0, 0.0),
        point(29.7, 29.7),
        point(200.0, 200.0),
        point(-1.0e6, 1.0e6),
    ];
    for query in queries {
        let score = forest.score(query).unwrap();
        assert!(average_path_length(&score) >= 0.0);
        let value = anomaly_score(&score);
        assert!(0.0 <= value && value <= 1.0, "score {}", value);
    }
}

#[test]
fn expected_search_length_starts_at_zero_and_does_not_fall() {
    assert_eq!(c(1), 0.0);
    assert!((c(2) - 0.1544313298).abs() < 1e-9);
    assert!((c(16) - 4.6955315).abs() < 1e-6);
    for n in 1..5000 {
        assert!(c(n) <= c(n + 1), "c({}) > c({})", n, n + 1);
    }
    let at_norm = Score {
        path_lengths: vec![PathLength { depth: 0, leaf_size: 16 }],
        sub_sample_size: 16,
    };
    assert_eq!(anomaly_score(&at_norm), 0.5);
    let at_once = Score {
        path_lengths: vec![PathLength { depth: 0, leaf_size: 1 }],
        sub_sample_size: 16,
    };
    assert_eq!(anomaly_score(&at_once), 1.0);
}

#[test]
fn a_sample_inside_the_cluster_scores_low_and_one_far_outside_scores_high() {
    let samples = cluster(100, 2024);
    let forest = trained(50, 16, &samples, 1);
    let inside = anomaly_score(&forest.score(point(15.0, 15.0)).unwrap());
    let outside = anomaly_score(&forest.score(point(200.0, 200.0)).unwrap());
    assert!(inside < 0.5, "inside the cluster: {}", inside);
    assert!(outside > 0.6, "far outside: {}", outside);
}

#[test]
fn score_fails_where_the_sample_lacks_the_feature_of_every_root() {
    let samples: Vec<Sample> = (0..40).map(|i| only_x(i as f64)).collect();
    let forest = trained(10, 8, &samples, 3);
    for tree in forest.trees() {
        assert!(matches!(tree.root(), Node::Internal { split_feature, .. } if split_feature == "x"));
    }
    let mut lacking = Sample::new("no x");
    lacking.add_feature(Feature::new("y", 5)).unwrap();
    assert_eq!(forest.score(lacking), Err(ForestError::FeatureNotFound));
    assert_eq!(forest.score(Sample::new("bare")), Err(ForestError::FeatureNotFound));
    assert!(forest.score(only_x(5.0)).is_ok());
}
