use witchhat_core::json::{normalize_parsed, Json};
use witchhat_core::{normalize_json, Cell, DataType, Error, Field, NormalizeStats};
use witchhat_core::{NormalizeVersion, Schema};

fn schema() -> Schema {
    Schema::new(vec![
        Field::new("id", DataType::Int64, true),
        Field::new("name", DataType::Utf8, true),
        Field::new("active", DataType::Boolean, true),
        Field::new("address.city", DataType::Utf8, true),
    ])
}

fn rows(values: &[&str]) -> Vec<Option<String>> {
    values.iter().map(|v| Some(v.to_string())).collect()
}

#[test]
fn flat_and_nested_fields_are_extracted() {
    let json = rows(&[r#"{"id": 1, "name": "a", "active": true, "address": {"city": "Oslo"}}"#]);
    let (batch, stats) = normalize_json(&json, &schema(), NormalizeVersion::CURRENT).unwrap();
    assert_eq!(stats.rows_malformed, 0);
    assert!(stats.type_mismatches.is_empty());
    assert_eq!(batch.column(0).cell(0), Some(&Cell::Int64(1)));
    assert_eq!(
        batch.column(3).cell(0),
        Some(&Cell::Text("Oslo".to_string()))
    );
}

#[test]
fn malformed_json_nulls_every_column_and_is_counted() {
    let json = rows(&["not json"]);
    let (batch, stats) = normalize_json(&json, &schema(), NormalizeVersion::CURRENT).unwrap();
    assert_eq!(stats.rows_malformed, 1);
    for i in 0..batch.num_columns() {
        assert!(batch.column(i).is_null(0), "column {i} should be null");
    }
}

#[test]
fn non_object_top_level_is_malformed() {
    let json = rows(&["[1, 2, 3]", "42", r#""just a string""#]);
    let (_, stats) = normalize_json(&json, &schema(), NormalizeVersion::CURRENT).unwrap();
    assert_eq!(stats.rows_malformed, 3);
}

#[test]
fn absent_key_is_null_but_not_counted_as_mismatch() {
    let json = rows(&[r#"{"id": 1}"#]);
    let (batch, stats) = normalize_json(&json, &schema(), NormalizeVersion::CURRENT).unwrap();
    assert!(batch.column(1).is_null(0));
    assert!(stats.type_mismatches.is_empty());
}

#[test]
fn explicit_json_null_is_null_but_not_counted_as_mismatch() {
    let json = rows(&[r#"{"id": null, "name": "a"}"#]);
    let (batch, stats) = normalize_json(&json, &schema(), NormalizeVersion::CURRENT).unwrap();
    assert!(batch.column(0).is_null(0));
    assert!(stats.type_mismatches.is_empty());
}

#[test]
fn wrong_type_is_null_and_counted() {
    let json = rows(&[r#"{"id": "not a number"}"#]);
    let (batch, stats) = normalize_json(&json, &schema(), NormalizeVersion::CURRENT).unwrap();
    assert!(batch.column(0).is_null(0));
    assert_eq!(stats.mismatches("id"), Some(1));
}

#[test]
fn null_input_row_is_malformed() {
    let json = vec![None];
    let (_, stats) = normalize_json(&json, &schema(), NormalizeVersion::CURRENT).unwrap();
    assert_eq!(stats.rows_malformed, 1);
}

#[test]
fn unsupported_target_type_errors_before_processing_rows() {
    let bad_schema = Schema::new(vec![Field::new("v", DataType::Date32, true)]);
    let json = rows(&["{}"]);
    let out = normalize_json(&json, &bad_schema, NormalizeVersion::CURRENT);
    assert!(matches!(out, Err(Error::UnsupportedType(t)) if t == "Date32"));
}

#[test]
fn bad_rows_do_not_lose_the_others() {
    let json = rows(&[
        r#"{"id": 1, "address": {"city": "Oslo"}}"#,
        r#"{"id": 2}"#,
        "not json",
    ]);
    let (batch, stats) = normalize_json(&json, &schema(), Default::default()).unwrap();
    assert_eq!(batch.num_rows(), 3);
    assert_eq!(stats.rows_malformed, 1);
    assert_eq!(batch.column(0).cell(1), Some(&Cell::Int64(2)));
}

#[test]
fn numbers_by_target_type() {
    let target = Schema::new(vec![
        Field::new("i", DataType::Int64, true),
        Field::new("f", DataType::Float64, true),
    ]);
    let json = rows(&[
        r#"{"i": 7, "f": 7}"#,
        r#"{"i": -9223372036854775808, "f": -0.5}"#,
        r#"{"i": 1.5, "f": 1e300}"#,
        r#"{"i": 9223372036854775808, "f": 18446744073709551615}"#,
    ]);
    let (batch, stats) = normalize_json(&json, &target, NormalizeVersion::V1).unwrap();
    assert_eq!(batch.column(0).cell(0), Some(&Cell::Int64(7)));
    assert_eq!(batch.column(0).cell(1), Some(&Cell::Int64(i64::MIN)));
    assert!(batch.column(0).is_null(2));
    assert!(batch.column(0).is_null(3));
    let doubles: Vec<u64> = (0..4)
        .map(|row| match batch.column(1).cell(row) {
            Some(Cell::Float64(bits)) => *bits,
            other => panic!("no double: {other:?}"),
        })
        .collect();
    let expected: Vec<u64> = [7.0, -0.5, 1e300, u64::MAX as f64]
        .iter()
        .map(|v: &f64| v.to_bits())
        .collect();
    assert_eq!(doubles, expected);
    assert_eq!(stats.mismatches("i"), Some(2));
    assert_eq!(stats.mismatches("f"), None);
}

#[test]
fn objects_and_arrays_are_mismatches() {
    let json = rows(&[r#"{"name": {"first": "a"}, "active": [true], "id": true}"#]);
    let (batch, stats) = normalize_json(&json, &schema(), NormalizeVersion::CURRENT).unwrap();
    assert!(batch.column(1).is_null(0));
    assert_eq!(stats.mismatches("name"), Some(1));
    assert_eq!(stats.mismatches("active"), Some(1));
    assert_eq!(stats.mismatches("id"), Some(1));
    assert_eq!(stats.mismatches("address.city"), None);
}

#[test]
fn path_through_something_else_leads_to_nothing() {
    let json = rows(&[r#"{"address": "Oslo", "id": 1}"#]);
    let (batch, stats) = normalize_json(&json, &schema(), NormalizeVersion::CURRENT).unwrap();
    assert!(batch.column(3).is_null(0));
    assert!(stats.type_mismatches.is_empty());
}

#[test]
fn dots_separate_keys_also_empty_ones() {
    let target = Schema::new(vec![
        Field::new("a..b", DataType::Int64, true),
        Field::new("é.x.y", DataType::Int64, true),
        Field::new("", DataType::Int64, true),
    ]);
    let json = rows(&[r#"{"a": {"": {"b": 1}}, "é": {"x": {"y": 2}}, "": 3}"#]);
    let (batch, _) = normalize_json(&json, &target, NormalizeVersion::CURRENT).unwrap();
    for (column, value) in [(0, 1), (1, 2), (2, 3)] {
        assert_eq!(batch.column(column).cell(0), Some(&Cell::Int64(value)));
    }
}

#[test]
fn fields_of_one_name_share_a_count() {
    let target = Schema::new(vec![
        Field::new("v", DataType::Int64, true),
        Field::new("w", DataType::Int64, true),
        Field::new("v", DataType::Boolean, true),
    ]);
    let json = rows(&[r#"{"v": "x", "w": "y"}"#, r#"{"v": 1}"#]);
    let (_, stats) = normalize_json(&json, &target, NormalizeVersion::CURRENT).unwrap();
    assert_eq!(stats.mismatches("v"), Some(3));
    assert_eq!(stats.mismatches("w"), Some(1));
    assert_eq!(stats.type_mismatches.len(), 2);
}

#[test]
fn null_in_a_field_that_takes_none_makes_it_nullable() {
    let target = Schema::new(vec![
        Field::new("id", DataType::Int64, false),
        Field::new("at", DataType::Int64, false),
    ]);
    let json = rows(&["not json"]);
    let (batch, stats) = normalize_json(&json, &target, NormalizeVersion::V1).unwrap();
    assert_eq!(stats.rows_malformed, 1);
    assert!(stats.type_mismatches.is_empty());
    assert_eq!(batch.num_rows(), 1);
    assert!(batch.schema().fields.iter().all(|f| f.nullable));

    let json = rows(&[r#"{"at": 1}"#, r#"{"at": 2, "id": "x"}"#]);
    let (batch, stats) = normalize_json(&json, &target, NormalizeVersion::V1).unwrap();
    assert_eq!(stats.rows_malformed, 0);
    assert_eq!(stats.mismatches("id"), Some(1));
    assert_eq!(batch.column(0).cell(0), None);
    assert_eq!(batch.column(0).cell(1), None);
    let nullable: Vec<bool> = batch.schema().fields.iter().map(|f| f.nullable).collect();
    assert_eq!(nullable, [true, false]);
}

#[test]
fn no_fields_leave_the_rows() {
    let json = rows(&["{}", "[]"]);
    let (batch, stats) =
        normalize_json(&json, &Schema::new(vec![]), NormalizeVersion::V1).unwrap();
    assert_eq!(batch.num_rows(), 2);
    assert_eq!(batch.num_columns(), 0);
    assert_eq!(stats.rows_malformed, 1);
}

#[test]
fn last_of_repeated_keys_counts() {
    let target = Schema::new(vec![Field::new("a", DataType::Int64, true)]);
    let json = rows(&[r#"{"a": 1, "a": 2}"#]);
    let (batch, _) = normalize_json(&json, &target, NormalizeVersion::V1).unwrap();
    assert_eq!(batch.column(0).cell(0), Some(&Cell::Int64(2)));
}

#[test]
fn parsed_rows_normalize_alike() {
    let row = Json::Object(vec![
        ("id".to_string(), Json::Number(Some(4), Some(4.0f64.to_bits()))),
        ("name".to_string(), Json::Array(vec![Json::Null])),
        (
            "address".to_string(),
            Json::Object(vec![("city".to_string(), Json::Text("Oslo".to_string()))]),
        ),
    ]);
    let parsed = vec![Some(row), None, Some(Json::Bool(true))];
    let (batch, stats) = normalize_parsed(&parsed, &schema(), NormalizeVersion::V1).unwrap();
    let texts = vec![
        Some(r#"{"id": 4, "name": [null], "address": {"city": "Oslo"}}"#.to_string()),
        None,
        Some("true".to_string()),
    ];
    let (same_batch, same_stats) =
        normalize_json(&texts, &schema(), NormalizeVersion::V1).unwrap();
    assert_eq!(batch, same_batch);
    assert_eq!(stats, same_stats);
    assert_eq!(stats.rows_malformed, 2);
    assert_eq!(stats.mismatches("name"), Some(1));
}

#[test]
fn statistics_start_empty() {
    let stats = NormalizeStats::default();
    assert_eq!(stats.rows_malformed, 0);
    assert!(stats.type_mismatches.is_empty());
    assert_eq!(stats.clone(), stats);
}

#[test]
fn normalize_version_names_round_trip() {
    assert_eq!(
        NormalizeVersion::parse(NormalizeVersion::CURRENT.as_str()),
        Some(NormalizeVersion::V1)
    );
    assert_eq!(NormalizeVersion::parse(""), None);
    assert_eq!(NormalizeVersion::default(), NormalizeVersion::CURRENT);
}
