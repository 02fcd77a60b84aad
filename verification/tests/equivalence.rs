use witchhat_core::{check_equivalence, Cell, Column, DataType, Error, Field, RecordBatch, Schema};
use witchhat_core::{EquivalenceMode, EquivalenceOptions, HashVersion, ValidateSchemaOptions};

fn ints(values: &[i64]) -> Column {
    let cells = values.iter().map(|v| Some(Cell::Int64(*v))).collect();
    Column::try_new(DataType::Int64, cells).unwrap()
}

fn texts(values: &[&str]) -> Column {
    let cells = values.iter().map(|v| Some(Cell::Text(v.to_string()))).collect();
    Column::try_new(DataType::Utf8, cells).unwrap()
}

fn batch(schema: Schema, ids: Vec<i64>, names: Vec<&str>) -> RecordBatch {
    RecordBatch::try_new(schema, vec![ints(&ids), texts(&names)]).unwrap()
}

fn id_name_schema() -> Schema {
    Schema::new(vec![
        Field::new("id", DataType::Int64, false),
        Field::new("name", DataType::Utf8, false),
    ])
}

fn exact() -> EquivalenceOptions {
    EquivalenceOptions {
        mode: EquivalenceMode::Exact,
        ..Default::default()
    }
}

#[test]
fn identical_batches_are_equivalent() {
    let s = id_name_schema();
    let a = batch(s.clone(), vec![1, 2], vec!["a", "b"]);
    let b = batch(s, vec![1, 2], vec!["a", "b"]);
    let report = check_equivalence(&a, &b, EquivalenceOptions::default()).unwrap();
    assert!(report.is_equivalent());
}

#[test]
fn reordered_rows_are_still_equivalent() {
    let s = id_name_schema();
    let a = batch(s.clone(), vec![2, 1], vec!["b", "a"]);
    let b = batch(s, vec![1, 2], vec!["a", "b"]);
    let report = check_equivalence(&a, &b, EquivalenceOptions::default()).unwrap();
    assert!(report.is_equivalent());
}

#[test]
fn different_values_are_not_equivalent() {
    let s = id_name_schema();
    let a = batch(s.clone(), vec![1, 2], vec!["a", "b"]);
    let b = batch(s, vec![1, 2], vec!["a", "c"]);
    let report = check_equivalence(&a, &b, EquivalenceOptions::default()).unwrap();
    assert!(!report.is_equivalent());
    assert!(!report.fingerprints_match);
}

#[test]
fn different_row_counts_are_not_equivalent() {
    let s = id_name_schema();
    let a = batch(s.clone(), vec![1], vec!["a"]);
    let b = batch(s, vec![1, 2], vec!["a", "b"]);
    let report = check_equivalence(&a, &b, EquivalenceOptions::default()).unwrap();
    assert!(!report.is_equivalent());
}

#[test]
fn column_order_does_not_affect_equivalence() {
    let schema_a = Schema::new(vec![
        Field::new("name", DataType::Utf8, false),
        Field::new("id", DataType::Int64, false),
    ]);
    let a = RecordBatch::try_new(schema_a, vec![texts(&["a"]), ints(&[1])]).unwrap();
    let b = batch(id_name_schema(), vec![1], vec!["a"]);
    let report = check_equivalence(&a, &b, EquivalenceOptions::default()).unwrap();
    assert!(report.is_equivalent());
}

#[test]
fn missing_column_is_visible_in_schema_diff_and_breaks_equivalence() {
    let s = id_name_schema();
    let a = RecordBatch::try_new(
        Schema::new(vec![Field::new("id", DataType::Int64, false)]),
        vec![ints(&[1])],
    )
    .unwrap();
    let b = batch(s, vec![1], vec!["a"]);
    let report = check_equivalence(&a, &b, EquivalenceOptions::default()).unwrap();
    assert!(!report.schema_diff.is_empty());
    assert!(!report.is_equivalent());
}

#[test]
fn explicit_columns_restrict_the_comparison() {
    let s = id_name_schema();
    let a = batch(s.clone(), vec![1, 2], vec!["different", "values"]);
    let b = batch(s, vec![1, 2], vec!["a", "b"]);
    let options = EquivalenceOptions {
        columns: Some(vec!["id".to_string()]),
        ..Default::default()
    };
    let report = check_equivalence(&a, &b, options).unwrap();
    assert!(report.fingerprints_match);
}

#[test]
fn fast_mode_leaves_rows_exactly_match_unset() {
    let s = id_name_schema();
    let a = batch(s.clone(), vec![1, 2], vec!["a", "b"]);
    let b = batch(s, vec![1, 2], vec!["a", "b"]);
    let report = check_equivalence(&a, &b, EquivalenceOptions::default()).unwrap();
    assert_eq!(report.rows_exactly_match, None);
    assert!(report.is_equivalent());
}

#[test]
fn exact_mode_confirms_reordered_identical_rows() {
    let s = id_name_schema();
    let a = batch(s.clone(), vec![2, 1], vec!["b", "a"]);
    let b = batch(s, vec![1, 2], vec!["a", "b"]);
    let report = check_equivalence(&a, &b, exact()).unwrap();
    assert_eq!(report.rows_exactly_match, Some(true));
    assert!(report.is_equivalent());
}

#[test]
fn exact_mode_catches_what_fingerprints_alone_would_not_distinguish() {
    let s = id_name_schema();
    let a = batch(s.clone(), vec![1, 2], vec!["a", "b"]);
    let b = batch(s, vec![1, 2], vec!["a", "z"]);
    let report = check_equivalence(&a, &b, exact()).unwrap();
    assert_eq!(report.rows_exactly_match, Some(false));
    assert!(!report.is_equivalent());
    assert!(!report.fingerprints_match);
}

#[test]
fn exact_mode_false_on_row_count_mismatch_without_erroring() {
    let s = id_name_schema();
    let a = batch(s.clone(), vec![1], vec!["a"]);
    let b = batch(s, vec![1, 2], vec!["a", "b"]);
    let report = check_equivalence(&a, &b, exact()).unwrap();
    assert_eq!(report.rows_exactly_match, Some(false));
}

#[test]
fn exact_mode_counts_repeated_rows() {
    let s = id_name_schema();
    let a = batch(s.clone(), vec![1, 1, 2], vec!["a", "a", "b"]);
    let b = batch(s.clone(), vec![1, 2, 2], vec!["a", "b", "b"]);
    let report = check_equivalence(&a, &b, exact()).unwrap();
    assert_eq!(report.rows_exactly_match, Some(false));
    let c = batch(s, vec![2, 1, 1], vec!["b", "a", "a"]);
    let report = check_equivalence(&a, &c, exact()).unwrap();
    assert_eq!(report.rows_exactly_match, Some(true));
    assert!(report.is_equivalent());
}

#[test]
fn exact_mode_sees_what_shares_a_fingerprint() {
    let schema = Schema::new(vec![Field::new("v", DataType::Float64, false)]);
    let column = |value: f64| {
        Column::try_new(DataType::Float64, vec![Some(Cell::Float64(value.to_bits()))]).unwrap()
    };
    let a = RecordBatch::try_new(schema.clone(), vec![column(0.0)]).unwrap();
    let b = RecordBatch::try_new(schema, vec![column(-0.0)]).unwrap();
    let report = check_equivalence(&a, &b, EquivalenceOptions::default()).unwrap();
    assert!(report.fingerprints_match);
    let report = check_equivalence(&a, &b, exact()).unwrap();
    assert_eq!(report.rows_exactly_match, Some(false));
}

#[test]
fn another_type_is_another_row_even_where_it_only_widened() {
    let narrow = RecordBatch::try_new(
        Schema::new(vec![Field::new("id", DataType::Int32, false)]),
        vec![Column::try_new(DataType::Int32, vec![Some(Cell::Int32(5))]).unwrap()],
    )
    .unwrap();
    let wide = RecordBatch::try_new(
        Schema::new(vec![Field::new("id", DataType::Int64, false)]),
        vec![ints(&[5])],
    )
    .unwrap();
    let options = EquivalenceOptions {
        schema_options: ValidateSchemaOptions {
            allow_numeric_widening: true,
        },
        ..exact()
    };
    let report = check_equivalence(&wide, &narrow, options).unwrap();
    assert!(report.schema_diff.is_empty());
    assert!(!report.fingerprints_match);
    assert_eq!(report.rows_exactly_match, Some(false));
}

#[test]
fn additional_column_is_enough_to_differ() {
    let a = batch(id_name_schema(), vec![1], vec!["a"]);
    let b = RecordBatch::try_new(
        Schema::new(vec![Field::new("id", DataType::Int64, false)]),
        vec![ints(&[1])],
    )
    .unwrap();
    let report = check_equivalence(&a, &b, EquivalenceOptions::default()).unwrap();
    assert!(!report.schema_diff.is_breaking());
    assert!(report.fingerprints_match);
    assert!(!report.is_equivalent());
}

#[test]
fn unknown_compared_column_errors() {
    let a = batch(id_name_schema(), vec![1], vec!["a"]);
    let options = EquivalenceOptions {
        columns: Some(vec!["id".to_string(), "absent".to_string()]),
        ..Default::default()
    };
    let out = check_equivalence(&a, &a, options);
    assert!(matches!(out, Err(Error::UnknownColumn(c)) if c == "absent"));
}

#[test]
fn comparing_no_columns_compares_the_row_counts() {
    let a = batch(id_name_schema(), vec![1], vec!["a"]);
    let b = batch(id_name_schema(), vec![2], vec!["b"]);
    let options = EquivalenceOptions {
        columns: Some(vec![]),
        ..exact()
    };
    let report = check_equivalence(&a, &b, options).unwrap();
    assert_eq!(report.rows_exactly_match, Some(true));
    assert!(report.is_equivalent());
}

#[test]
fn default_options() {
    let options = EquivalenceOptions::default();
    assert!(options.columns.is_none());
    assert_eq!(options.hash_version, HashVersion::V1);
    assert_eq!(options.mode, EquivalenceMode::Fast);
    assert!(!options.schema_options.allow_numeric_widening);
}

#[test]
fn order_of_actual_rows_and_columns_does_not_matter() {
    let (id, name) = (
        Field::new("id", DataType::Int64, false),
        Field::new("name", DataType::Utf8, false),
    );
    let texts = |values: &[&str]| {
        let cells = values.iter().map(|v| Some(Cell::Text(v.to_string()))).collect();
        Column::try_new(DataType::Utf8, cells).unwrap()
    };
    let actual = batch(id_name_schema(), vec![1, 2, 3], vec!["a", "b", "c"]);
    let turned = RecordBatch::try_new(
        Schema::new(vec![name, id]),
        vec![texts(&["c", "a", "b"]), ints(&[3, 1, 2])],
    )
    .unwrap();
    let others = [
        batch(id_name_schema(), vec![1, 2, 3], vec!["a", "b", "c"]),
        batch(id_name_schema(), vec![1, 2, 3], vec!["a", "b", "x"]),
        batch(id_name_schema(), vec![1], vec!["a"]),
    ];
    for (expected, equivalent) in others.iter().zip([true, false, false]) {
        let before = check_equivalence(&actual, expected, exact()).unwrap();
        let after = check_equivalence(&turned, expected, exact()).unwrap();
        assert_eq!(
            after.table_fingerprint_actual,
            before.table_fingerprint_actual
        );
        assert_eq!(after.fingerprints_match, before.fingerprints_match);
        assert_eq!(after.rows_exactly_match, before.rows_exactly_match);
        assert_eq!(before.is_equivalent(), equivalent);
        assert_eq!(after.is_equivalent(), equivalent);
    }
}
