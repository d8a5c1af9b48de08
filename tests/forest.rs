use survival_forest::dataset::Dataset;
use survival_forest::error::ForestError;
use survival_forest::forest::{bootstrap_sample, build_tree, predict, train, Forest, ForestConfig};
use survival_forest::rng::{mix64, next_below, next_u64, stream_start};
use survival_forest::tree::{classify, draw_feature_set, grow_tree, Node, Tree};

fn leaf(class: u64) -> Node {
    Node::Leaf { class }
}

fn split(feature: usize, threshold: u64, left: Node, right: Node) -> Node {
    Node::Split { feature, threshold, left: Box::new(left), right: Box::new(right) }
}

fn config(tree_count: u32, features_per_split: u32, max_depth: u32, seed: u64) -> ForestConfig {
    ForestConfig { tree_count, features_per_split, max_depth, seed }
}

/// Passengers whose survival follows the sex code exactly.
fn by_sex() -> Dataset {
    let rows = vec![
        vec![3, 1, 1, 0],
        vec![1, 0, 0, 0],
        vec![2, 1, 0, 2],
        vec![3, 0, 1, 1],
        vec![1, 1, 2, 0],
        vec![2, 0, 0, 0],
        vec![3, 1, 0, 0],
        vec![3, 0, 3, 1],
    ];
    let labels = vec![1, 0, 1, 0, 1, 0, 1, 0];
    Dataset::new(4, rows, Some(labels)).unwrap()
}

#[test]
fn majority_of_three_trees() {
    let trees = vec![
        Tree { root: leaf(1) },
        Tree { root: split(1, 0, leaf(0), leaf(1)) },
        Tree { root: leaf(0) },
    ];
    let forest = Forest::new(4, trees).unwrap();
    let eval = Dataset::new(4, vec![vec![3, 1, 1, 0], vec![3, 0, 1, 0]], None).unwrap();
    assert_eq!(predict(&forest, &eval), Ok(vec![1, 0]));
}

#[test]
fn tie_goes_to_lower_class() {
    let forest = Forest::new(4, vec![Tree { root: leaf(1) }, Tree { root: leaf(0) }]).unwrap();
    let eval = Dataset::new(4, vec![vec![0, 0, 0, 0]], None).unwrap();
    assert_eq!(predict(&forest, &eval), Ok(vec![0]));
}

#[test]
fn prediction_shape_mismatch() {
    let forest = Forest::new(4, vec![Tree { root: leaf(1) }]).unwrap();
    let narrow = Dataset::new(3, vec![vec![1, 0, 0]], None).unwrap();
    assert_eq!(predict(&forest, &narrow), Err(ForestError::ShapeMismatch { expected: 4, found: 3 }));
    let wide = Dataset::new(5, vec![vec![1, 0, 0, 0, 0]], None).unwrap();
    assert_eq!(predict(&forest, &wide), Err(ForestError::ShapeMismatch { expected: 4, found: 5 }));
    let empty = Dataset::new(2, vec![], None).unwrap();
    assert_eq!(predict(&forest, &empty), Err(ForestError::ShapeMismatch { expected: 4, found: 2 }));
}

#[test]
fn prediction_with_empty_forest() {
    let forest = Forest::new(4, vec![]).unwrap();
    let eval = Dataset::new(4, vec![vec![1, 0, 0, 0]], None).unwrap();
    assert_eq!(predict(&forest, &eval), Err(ForestError::Configuration));
}

#[test]
fn hand_built_forest_is_checked() {
    assert_eq!(
        Forest::new(4, vec![Tree { root: split(4, 0, leaf(0), leaf(1)) }]).err(),
        Some(ForestError::Configuration)
    );
    assert_eq!(Forest::new(4, vec![Tree { root: leaf(2) }]).err(), Some(ForestError::Configuration));
    assert!(Forest::new(4, vec![Tree { root: split(3, 9, leaf(0), leaf(1)) }]).is_ok());
}

#[test]
fn classify_follows_thresholds() {
    let t = split(0, 2, split(2, 0, leaf(1), leaf(0)), leaf(0));
    assert_eq!(classify(&t, &vec![2, 5, 0]), 1);
    assert_eq!(classify(&t, &vec![1, 5, 1]), 0);
    assert_eq!(classify(&t, &vec![3, 5, 0]), 0);
}

#[test]
fn training_is_deterministic() {
    let d = by_sex();
    let c = config(15, 2, 4, 42);
    let a = train(&d, c).unwrap();
    let b = train(&d, c).unwrap();
    assert_eq!(a.tree_values(), b.tree_values());
    assert_eq!(a.tree_count(), 15);
    assert_eq!(a.feature_count(), 4);
}

#[test]
fn invalid_configurations_are_rejected() {
    let d = by_sex();
    assert_eq!(train(&d, config(0, 1, 5, 1)).err(), Some(ForestError::Configuration));
    assert_eq!(train(&d, config(10, 5, 5, 1)).err(), Some(ForestError::Configuration));
    assert_eq!(train(&d, config(10, 0, 5, 1)).err(), Some(ForestError::Configuration));
    assert_eq!(train(&d, config(10, 1, 0, 1)).err(), Some(ForestError::Configuration));
}

#[test]
fn configuration_checked_before_empty_data() {
    let empty = Dataset::new(4, vec![], Some(vec![])).unwrap();
    assert_eq!(train(&empty, config(0, 1, 5, 1)).err(), Some(ForestError::Configuration));
    assert_eq!(train(&empty, config(3, 1, 5, 1)).err(), Some(ForestError::EmptyDataset));
}

#[test]
fn training_needs_labels() {
    let d = Dataset::new(4, vec![vec![1, 0, 0, 0]], None).unwrap();
    assert_eq!(train(&d, config(3, 1, 5, 1)).err(), Some(ForestError::Configuration));
}

#[test]
fn pure_labels_give_single_leaves() {
    let d = Dataset::new(4, vec![vec![1, 0, 0, 0], vec![3, 1, 2, 1], vec![2, 0, 1, 0]], Some(vec![1, 1, 1])).unwrap();
    let f = train(&d, config(6, 4, 50, 9)).unwrap();
    for t in f.tree_values() {
        assert_eq!(t.root, leaf(1));
    }
}

#[test]
fn grow_pure_subset_is_leaf() {
    let rows = vec![vec![0, 1], vec![5, 2], vec![9, 3]];
    let labels = vec![0, 1, 1];
    let mut state: u64 = 77;
    let node = grow_tree(&rows, &labels, vec![1, 2, 2], 2, 2, 0, 100, &mut state);
    assert_eq!(node, leaf(1));
    assert_eq!(state, 77);
}

#[test]
fn grow_finds_the_separating_threshold() {
    let rows = vec![vec![0], vec![1], vec![2], vec![3]];
    let labels = vec![0, 0, 1, 1];
    let mut state: u64 = 5;
    let node = grow_tree(&rows, &labels, vec![0, 1, 2, 3], 1, 1, 0, 1, &mut state);
    assert_eq!(node, split(0, 1, leaf(0), leaf(1)));
}

#[test]
fn grow_stops_at_depth_budget() {
    let rows = vec![vec![0], vec![1], vec![2], vec![3]];
    let labels = vec![0, 1, 1, 1];
    let mut state: u64 = 5;
    assert_eq!(grow_tree(&rows, &labels, vec![0, 1, 2, 3], 1, 1, 2, 2, &mut state), leaf(1));
    let mut state: u64 = 5;
    assert_eq!(grow_tree(&rows, &labels, vec![0, 1, 2, 3, 0], 1, 1, 2, 2, &mut state), leaf(1));
    let mut state: u64 = 5;
    assert_eq!(grow_tree(&rows, &labels, vec![0, 0, 1, 2], 1, 1, 2, 2, &mut state), leaf(0));
}

#[test]
fn grow_with_no_proper_split_is_leaf() {
    let rows = vec![vec![4], vec![4]];
    let labels = vec![0, 1];
    let mut state: u64 = 3;
    assert_eq!(grow_tree(&rows, &labels, vec![0, 1], 1, 1, 0, 5, &mut state), leaf(0));
}

#[test]
fn forest_learns_a_separable_rule() {
    let d = by_sex();
    let f = train(&d, config(25, 4, 3, 2024)).unwrap();
    assert_eq!(predict(&f, &d), Ok(vec![1, 0, 1, 0, 1, 0, 1, 0]));
}

#[test]
fn dataset_shape_is_checked() {
    assert_eq!(
        Dataset::new(4, vec![vec![1, 0, 0, 0], vec![1, 0, 0]], None).err(),
        Some(ForestError::ShapeMismatch { expected: 4, found: 3 })
    );
    assert_eq!(
        Dataset::new(1, vec![vec![1], vec![2]], Some(vec![0])).err(),
        Some(ForestError::ShapeMismatch { expected: 2, found: 1 })
    );
    assert_eq!(
        Dataset::new(1, vec![vec![1], vec![2]], Some(vec![0, 3])).err(),
        Some(ForestError::MalformedInput { field: "label".to_string(), row: 1 })
    );
}

#[test]
fn splitmix_known_output() {
    let mut s: u64 = 0;
    assert_eq!(next_u64(&mut s), 0xE220_A839_7B1D_CDAF);
    assert_eq!(s, 0x9E37_79B9_7F4A_7C15);
    assert_eq!(mix64(0), 0);
    assert_eq!(stream_start(42, 3), stream_start(42, 3));
    assert_ne!(stream_start(42, 3), stream_start(42, 4));
}

#[test]
fn draws_stay_in_range() {
    let mut s: u64 = 123;
    for _ in 0..100 {
        assert!(next_below(&mut s, 7) < 7);
    }
    let mut s: u64 = 9;
    let sample = bootstrap_sample(10, &mut s);
    assert_eq!(sample.len(), 10);
    assert!(sample.iter().all(|&i| i < 10));
}

#[test]
fn feature_draws_are_distinct() {
    for seed in 0..50u64 {
        let mut s = seed;
        let mut all = draw_feature_set(4, 4, &mut s);
        all.sort();
        assert_eq!(all, vec![0, 1, 2, 3]);
        let mut s = seed;
        let two = draw_feature_set(4, 2, &mut s);
        assert_eq!(two.len(), 2);
        assert_ne!(two[0], two[1]);
        assert!(two.iter().all(|&f| f < 4));
    }
}

#[test]
fn build_tree_checks_feature_count() {
    let d = by_sex();
    let mut s: u64 = 11;
    assert_eq!(build_tree(&d, vec![0, 1, 2], 5, 3, &mut s), Err(ForestError::Configuration));
    assert_eq!(build_tree(&d, vec![0, 1, 2], 0, 3, &mut s), Err(ForestError::Configuration));
    assert_eq!(s, 11);
    let unlabelled = Dataset::new(4, vec![vec![1, 0, 0, 0]], None).unwrap();
    assert_eq!(build_tree(&unlabelled, vec![0], 1, 3, &mut s), Err(ForestError::Configuration));
}

#[test]
fn build_tree_splits_on_sex() {
    let d = by_sex();
    let mut s: u64 = 11;
    let node = build_tree(&d, (0..8).collect(), 4, 1, &mut s).unwrap();
    assert_eq!(node, split(1, 0, leaf(0), leaf(1)));
}

#[test]
fn build_tree_pure_subset_is_leaf() {
    let d = by_sex();
    let mut s: u64 = 11;
    assert_eq!(build_tree(&d, vec![0, 2, 4, 6], 2, 9, &mut s), Ok(leaf(1)));
    assert_eq!(s, 11);
}
