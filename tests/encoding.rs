use survival_forest::encode::{
    assemble_dataset, encode_label, encode_record, parse_count_text, ColumnKind, FeatureColumn, Record,
};
use survival_forest::error::ForestError;

fn record(pairs: &[(&str, &str)]) -> Record {
    Record {
        fields: pairs.iter().map(|(k, v)| (k.to_string(), v.to_string())).collect(),
    }
}

fn columns() -> Vec<FeatureColumn> {
    vec![
        FeatureColumn { name: "class".to_string(), kind: ColumnKind::Count },
        FeatureColumn { name: "sex".to_string(), kind: ColumnKind::Sex },
        FeatureColumn { name: "sib_sp".to_string(), kind: ColumnKind::Count },
        FeatureColumn { name: "parch".to_string(), kind: ColumnKind::Count },
    ]
}

fn passenger(class: &str, sex: &str, sib_sp: &str, parch: &str, survived: &str) -> Record {
    record(&[("class", class), ("sex", sex), ("sib_sp", sib_sp), ("parch", parch), ("survived", survived)])
}

#[test]
fn round_trip_female_record() {
    let r = passenger("3", "female", "1", "0", "1");
    assert_eq!(encode_record(&r, &columns(), 0), Ok(vec![3, 1, 1, 0]));
    assert_eq!(encode_label(&r, &"survived".to_string(), 0), Ok(1));
}

#[test]
fn field_order_does_not_matter() {
    let r = record(&[("parch", "2"), ("survived", "0"), ("sex", "male"), ("class", "1"), ("sib_sp", "4")]);
    assert_eq!(encode_record(&r, &columns(), 0), Ok(vec![1, 0, 4, 2]));
}

#[test]
fn unknown_sex_is_coded_zero() {
    let r = passenger("2", "unknown", "0", "0", "0");
    assert_eq!(encode_record(&r, &columns(), 0), Ok(vec![2, 0, 0, 0]));
    let r = passenger("2", "Female", "0", "0", "0");
    assert_eq!(encode_record(&r, &columns(), 0), Ok(vec![2, 0, 0, 0]));
}

#[test]
fn missing_column_names_field_and_row() {
    let r = record(&[("class", "3"), ("sex", "male"), ("parch", "0")]);
    assert_eq!(
        encode_record(&r, &columns(), 7),
        Err(ForestError::MalformedInput { field: "sib_sp".to_string(), row: 7 })
    );
}

#[test]
fn unparsable_count_is_malformed() {
    let r = passenger("3", "male", "x1", "0", "0");
    assert_eq!(
        encode_record(&r, &columns(), 4),
        Err(ForestError::MalformedInput { field: "sib_sp".to_string(), row: 4 })
    );
    let r = passenger("", "male", "1", "0", "0");
    assert_eq!(
        encode_record(&r, &columns(), 0),
        Err(ForestError::MalformedInput { field: "class".to_string(), row: 0 })
    );
}

#[test]
fn first_failing_column_is_reported() {
    let r = passenger("a", "male", "b", "0", "0");
    assert_eq!(
        encode_record(&r, &columns(), 2),
        Err(ForestError::MalformedInput { field: "class".to_string(), row: 2 })
    );
}

#[test]
fn label_must_be_zero_or_one() {
    let name = "survived".to_string();
    assert_eq!(encode_label(&passenger("1", "male", "0", "0", "0"), &name, 3), Ok(0));
    assert_eq!(
        encode_label(&passenger("1", "male", "0", "0", "2"), &name, 3),
        Err(ForestError::MalformedInput { field: "survived".to_string(), row: 3 })
    );
    assert_eq!(
        encode_label(&passenger("1", "male", "0", "0", "yes"), &name, 5),
        Err(ForestError::MalformedInput { field: "survived".to_string(), row: 5 })
    );
    let r = record(&[("class", "1")]);
    assert_eq!(
        encode_label(&r, &name, 0),
        Err(ForestError::MalformedInput { field: "survived".to_string(), row: 0 })
    );
}

#[test]
fn parse_count_values() {
    assert_eq!(parse_count_text("0"), Some(0));
    assert_eq!(parse_count_text("892"), Some(892));
    assert_eq!(parse_count_text("007"), Some(7));
    assert_eq!(parse_count_text("18446744073709551615"), Some(u64::MAX));
    assert_eq!(parse_count_text("18446744073709551616"), None);
    assert_eq!(parse_count_text("99999999999999999999x"), None);
    assert_eq!(parse_count_text(""), None);
    assert_eq!(parse_count_text("-1"), None);
    assert_eq!(parse_count_text("1.0"), None);
    assert_eq!(parse_count_text(" 1"), None);
}

#[test]
fn assemble_training_dataset() {
    let records = vec![
        passenger("3", "female", "1", "0", "1"),
        passenger("1", "male", "0", "2", "0"),
    ];
    let d = assemble_dataset(&records, &columns(), &Some("survived".to_string())).unwrap();
    assert_eq!(d.feature_count(), 4);
    assert_eq!(d.row_count(), 2);
    assert_eq!(d.row_values(), &vec![vec![3, 1, 1, 0], vec![1, 0, 0, 2]]);
    assert_eq!(d.label_values(), &Some(vec![1, 0]));
}

#[test]
fn assemble_evaluation_dataset_without_labels() {
    let records = vec![record(&[("class", "2"), ("sex", "male"), ("sib_sp", "0"), ("parch", "1")])];
    let d = assemble_dataset(&records, &columns(), &None).unwrap();
    assert_eq!(d.row_values(), &vec![vec![2, 0, 0, 1]]);
    assert_eq!(d.label_values(), &None);
}

#[test]
fn assemble_fails_on_first_bad_record() {
    let records = vec![
        passenger("3", "female", "1", "0", "1"),
        passenger("1", "male", "0", "0", "5"),
        passenger("z", "male", "0", "0", "0"),
    ];
    assert_eq!(
        assemble_dataset(&records, &columns(), &Some("survived".to_string())).err(),
        Some(ForestError::MalformedInput { field: "survived".to_string(), row: 1 })
    );
}

#[test]
fn assemble_names_the_failing_feature() {
    let records = vec![
        passenger("3", "female", "1", "0", "1"),
        passenger("2", "male", "1", "0", "0"),
        record(&[("class", "1"), ("sex", "male"), ("sib_sp", "0"), ("survived", "1")]),
    ];
    assert_eq!(
        assemble_dataset(&records, &columns(), &Some("survived".to_string())).err(),
        Some(ForestError::MalformedInput { field: "parch".to_string(), row: 2 })
    );
}

#[test]
fn null_sex_cell_is_missing_field() {
    let r = record(&[("class", "1"), ("sib_sp", "0"), ("parch", "0")]);
    assert_eq!(
        encode_record(&r, &columns(), 9),
        Err(ForestError::MalformedInput { field: "sex".to_string(), row: 9 })
    );
}
