use survival_forest::results::{assemble_results, PredictionRow};

#[test]
fn identifiers_start_at_offset() {
    let rows = assemble_results(&vec![0, 1, 1], 892);
    assert_eq!(
        rows,
        vec![
            PredictionRow { id: 892, label: 0 },
            PredictionRow { id: 893, label: 1 },
            PredictionRow { id: 894, label: 1 },
        ]
    );
}

#[test]
fn no_predictions_no_rows() {
    assert_eq!(assemble_results(&vec![], 5), vec![]);
}

#[test]
fn identifiers_reach_the_largest_value() {
    let rows = assemble_results(&vec![1, 0], u64::MAX - 1);
    assert_eq!(rows[1], PredictionRow { id: u64::MAX, label: 0 });
}
