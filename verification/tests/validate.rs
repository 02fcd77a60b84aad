use witchhat_core::{validate_schema, DataType, Field, Schema, ValidateSchemaOptions};

fn schema(fields: Vec<(&str, DataType, bool)>) -> Schema {
    Schema::new(
        fields
            .into_iter()
            .map(|(name, ty, nullable)| Field::new(name, ty, nullable))
            .collect::<Vec<_>>(),
    )
}

fn widening() -> ValidateSchemaOptions {
    ValidateSchemaOptions {
        allow_numeric_widening: true,
    }
}

#[test]
fn identical_schemas_are_empty() {
    let s = schema(vec![("id", DataType::Int64, false)]);
    let diff = validate_schema(&s, &s, ValidateSchemaOptions::default());
    assert!(diff.is_empty());
    assert!(!diff.is_breaking());
}

#[test]
fn missing_column_is_breaking() {
    let expected = schema(vec![
        ("id", DataType::Int64, false),
        ("email", DataType::Utf8, true),
    ]);
    let actual = schema(vec![("id", DataType::Int64, false)]);
    let diff = validate_schema(&actual, &expected, ValidateSchemaOptions::default());
    assert_eq!(diff.missing.as_slice(), &["email".to_string()]);
    assert!(diff.is_breaking());
}

#[test]
fn unexpected_column_is_reported_but_not_breaking() {
    let expected = schema(vec![("id", DataType::Int64, false)]);
    let actual = schema(vec![
        ("id", DataType::Int64, false),
        ("extra", DataType::Utf8, true),
    ]);
    let diff = validate_schema(&actual, &expected, ValidateSchemaOptions::default());
    assert_eq!(diff.unexpected.as_slice(), &["extra".to_string()]);
    assert!(!diff.is_empty());
    assert!(!diff.is_breaking());
}

#[test]
fn retype_is_rejected_by_default() {
    let expected = schema(vec![("id", DataType::Int32, false)]);
    let actual = schema(vec![("id", DataType::Int64, false)]);
    let diff = validate_schema(&actual, &expected, ValidateSchemaOptions::default());
    assert_eq!(diff.retyped.len(), 1);
    assert_eq!(diff.retyped[0].expected, DataType::Int32);
    assert_eq!(diff.retyped[0].actual, DataType::Int64);
    assert!(diff.is_breaking());
}

#[test]
fn numeric_widening_accepted_only_when_opted_in() {
    let expected = schema(vec![("id", DataType::Int32, false)]);
    let actual = schema(vec![("id", DataType::Int64, false)]);
    assert!(validate_schema(&actual, &expected, widening()).is_empty());
    assert!(!validate_schema(&actual, &expected, ValidateSchemaOptions::default()).is_empty());
}

#[test]
fn narrowing_is_never_accepted() {
    let expected = schema(vec![("id", DataType::Int64, false)]);
    let actual = schema(vec![("id", DataType::Int32, false)]);
    assert!(!validate_schema(&actual, &expected, widening()).is_empty());
}

#[test]
fn cross_signedness_is_never_widening() {
    let expected = schema(vec![("id", DataType::Int32, false)]);
    let actual = schema(vec![("id", DataType::UInt32, false)]);
    assert!(!validate_schema(&actual, &expected, widening()).is_empty());
}

#[test]
fn tightened_nullability_is_breaking() {
    let expected = schema(vec![("id", DataType::Int64, false)]);
    let actual = schema(vec![("id", DataType::Int64, true)]);
    let diff = validate_schema(&actual, &expected, ValidateSchemaOptions::default());
    assert_eq!(diff.nullability.len(), 1);
    assert!(diff.is_breaking());
}

#[test]
fn relaxed_nullability_is_fine() {
    let expected = schema(vec![("id", DataType::Int64, true)]);
    let actual = schema(vec![("id", DataType::Int64, false)]);
    let diff = validate_schema(&actual, &expected, ValidateSchemaOptions::default());
    assert!(diff.is_empty());
}

#[test]
fn widening_table() {
    let signed = [DataType::Int8, DataType::Int16, DataType::Int32, DataType::Int64];
    let unsigned = [DataType::UInt8, DataType::UInt16, DataType::UInt32, DataType::UInt64];
    let floats = [DataType::Float32, DataType::Float64];
    let kinds: [&[DataType]; 3] = [&signed, &unsigned, &floats];
    for (a, from) in kinds.iter().enumerate() {
        for (m, e) in from.iter().enumerate() {
            for (b, to) in kinds.iter().enumerate() {
                for (n, t) in to.iter().enumerate() {
                    let expected = schema(vec![("v", e.clone(), false)]);
                    let actual = schema(vec![("v", t.clone(), false)]);
                    assert_eq!(
                        validate_schema(&actual, &expected, widening()).is_empty(),
                        a == b && m <= n
                    );
                }
            }
        }
    }
}

#[test]
fn findings_carry_both_sides() {
    let expected = schema(vec![
        ("a", DataType::Int32, false),
        ("b", DataType::Utf8, false),
        ("c", DataType::Utf8, true),
    ]);
    let actual = schema(vec![
        ("b", DataType::Utf8, true),
        ("a", DataType::Utf8, true),
        ("d", DataType::Utf8, true),
    ]);
    let diff = validate_schema(&actual, &expected, ValidateSchemaOptions::default());
    assert_eq!(diff.missing, vec!["c".to_string()]);
    assert_eq!(diff.unexpected, vec!["d".to_string()]);
    assert_eq!(diff.retyped[0].column, "a");
    let loosened: Vec<&str> = diff.nullability.iter().map(|n| n.column.as_str()).collect();
    assert_eq!(loosened, ["a", "b"]);
    assert!(!diff.nullability[0].expected_nullable);
    assert!(diff.nullability[0].actual_nullable);
    let mirrored = validate_schema(&expected, &actual, ValidateSchemaOptions::default());
    assert_eq!(mirrored.unexpected, diff.missing);
    assert_eq!(mirrored.missing, diff.unexpected);
}

#[test]
fn last_field_of_a_name_counts() {
    let expected = schema(vec![("a", DataType::Int64, false)]);
    let actual = schema(vec![
        ("a", DataType::Utf8, false),
        ("a", DataType::Int64, false),
    ]);
    assert!(validate_schema(&actual, &expected, ValidateSchemaOptions::default()).is_empty());
    let twice = schema(vec![
        ("a", DataType::Int32, false),
        ("a", DataType::Int64, false),
    ]);
    let once = schema(vec![("a", DataType::Int64, false)]);
    assert!(validate_schema(&once, &twice, ValidateSchemaOptions::default()).is_empty());
    assert!(validate_schema(&twice, &twice, ValidateSchemaOptions::default()).is_empty());
    let narrow = schema(vec![("a", DataType::Int32, false)]);
    let diff = validate_schema(&narrow, &twice, ValidateSchemaOptions::default());
    assert_eq!(diff.retyped.len(), 1);
    assert_eq!(diff.retyped[0].expected, DataType::Int64);
    assert_eq!(diff.retyped[0].actual, DataType::Int32);
    let loose = schema(vec![("a", DataType::Int64, true)]);
    let diff = validate_schema(&loose, &twice, ValidateSchemaOptions::default());
    assert_eq!(diff.nullability.len(), 1);
    let none = schema(vec![]);
    let diff = validate_schema(&none, &twice, ValidateSchemaOptions::default());
    assert_eq!(diff.missing, vec!["a".to_string()]);
    let diff = validate_schema(&twice, &none, ValidateSchemaOptions::default());
    assert_eq!(diff.unexpected, vec!["a".to_string()]);
}

#[test]
fn names_are_case_sensitive() {
    let expected = schema(vec![("id", DataType::Int64, false)]);
    let actual = schema(vec![("ID", DataType::Int64, false)]);
    let diff = validate_schema(&actual, &expected, ValidateSchemaOptions::default());
    assert_eq!(diff.missing, vec!["id".to_string()]);
    assert_eq!(diff.unexpected, vec!["ID".to_string()]);
}

#[test]
fn widening_takes_only_widenings_off_the_list() {
    let expected = schema(vec![
        ("wider", DataType::Int32, false),
        ("narrower", DataType::Int64, false),
        ("gone", DataType::Utf8, false),
        ("other", DataType::Float32, false),
    ]);
    let actual = schema(vec![
        ("wider", DataType::Int64, false),
        ("narrower", DataType::Int32, false),
        ("other", DataType::Utf8, true),
        ("more", DataType::Utf8, true),
    ]);
    let strict = validate_schema(&actual, &expected, ValidateSchemaOptions::default());
    let lax = validate_schema(&actual, &expected, widening());
    assert_eq!(strict.retyped.len(), 3);
    assert_eq!(lax.retyped, strict.retyped[1..]);
    assert_eq!(lax.missing, strict.missing);
    assert_eq!(lax.unexpected, strict.unexpected);
    assert_eq!(lax.nullability, strict.nullability);
}
