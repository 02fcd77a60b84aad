use witchhat_core::{drop_duplicates, Cell, Column, DataType, Error, Field, HashVersion};
use witchhat_core::{RecordBatch, Schema};

fn ints(values: &[i64]) -> Column {
    let cells = values.iter().map(|v| Some(Cell::Int64(*v))).collect();
    Column::try_new(DataType::Int64, cells).unwrap()
}

fn texts(values: &[&str]) -> Column {
    let cells = values.iter().map(|v| Some(Cell::Text(v.to_string()))).collect();
    Column::try_new(DataType::Utf8, cells).unwrap()
}

fn table(columns: Vec<(&str, bool, Column)>) -> RecordBatch {
    let fields = columns
        .iter()
        .map(|(name, nullable, c)| Field::new(name, c.data_type().clone(), *nullable))
        .collect();
    let columns = columns.into_iter().map(|(_, _, c)| c).collect();
    RecordBatch::try_new(Schema::new(fields), columns).unwrap()
}

fn int_values(batch: &RecordBatch, column: usize) -> Vec<i64> {
    (0..batch.num_rows())
        .map(|row| match batch.column(column).cell(row) {
            Some(Cell::Int64(v)) => *v,
            other => panic!("no integer: {other:?}"),
        })
        .collect()
}

#[test]
fn keeps_first_occurrence_of_each_value() {
    let batch = table(vec![("id", false, ints(&[1, 2, 1, 3, 2]))]);
    let deduped = drop_duplicates(&batch, &["id"], HashVersion::CURRENT).unwrap();
    assert_eq!(int_values(&deduped, 0), vec![1, 2, 3]);
}

#[test]
fn composite_key_over_multiple_columns() {
    let batch = table(vec![
        ("a", false, ints(&[1, 1, 1])),
        ("b", false, texts(&["x", "x", "y"])),
    ]);
    let deduped = drop_duplicates(&batch, &["a", "b"], HashVersion::CURRENT).unwrap();
    assert_eq!(deduped.num_rows(), 2);
}

#[test]
fn no_duplicates_returns_every_row() {
    let batch = table(vec![("id", false, ints(&[1, 2, 3]))]);
    let deduped = drop_duplicates(&batch, &["id"], HashVersion::CURRENT).unwrap();
    assert_eq!(deduped.num_rows(), 3);
}

#[test]
fn dedup_unknown_column_errors() {
    let batch = table(vec![("id", false, ints(&[1]))]);
    assert!(drop_duplicates(&batch, &["missing"], HashVersion::CURRENT).is_err());
}

#[test]
fn preserves_all_columns_not_just_the_key() {
    let batch = table(vec![
        ("id", false, ints(&[1, 1])),
        ("label", false, texts(&["first", "second"])),
    ]);
    let deduped = drop_duplicates(&batch, &["id"], HashVersion::CURRENT).unwrap();
    assert_eq!(deduped.num_rows(), 1);
    assert_eq!(
        deduped.column(1).cell(0),
        Some(&Cell::Text("first".to_string()))
    );
}

#[test]
fn nulls_are_equal_to_each_other_and_to_nothing_else() {
    let cells = vec![None, Some(Cell::Text(String::new())), None];
    let column = Column::try_new(DataType::Utf8, cells).unwrap();
    let batch = table(vec![("s", true, column), ("n", false, ints(&[1, 2, 3]))]);
    let deduped = drop_duplicates(&batch, &["s"], HashVersion::CURRENT).unwrap();
    assert_eq!(int_values(&deduped, 1), vec![1, 2]);
}

#[test]
fn nulls_and_single_zero_bytes_are_different_rows() {
    let cells = vec![
        None,
        Some(Cell::Boolean(false)),
        Some(Cell::Boolean(true)),
        Some(Cell::Boolean(false)),
    ];
    let column = Column::try_new(DataType::Boolean, cells).unwrap();
    let batch = table(vec![("b", true, column)]);
    let hashes = witchhat_core::hash_batch(&batch, &["b"], HashVersion::CURRENT).unwrap();
    assert_ne!(hashes[0], hashes[1]);
    assert_eq!(hashes[1], hashes[3]);
    let deduped = drop_duplicates(&batch, &["b"], HashVersion::CURRENT).unwrap();
    assert_eq!(deduped.num_rows(), 3);
}

#[test]
fn floats_that_hash_alike_are_duplicates() {
    let values = [0.0, -0.0, f64::NAN, -f64::NAN, 1.0];
    let cells = values.iter().map(|v| Some(Cell::Float64(v.to_bits()))).collect();
    let column = Column::try_new(DataType::Float64, cells).unwrap();
    let batch = table(vec![("v", false, column)]);
    let deduped = drop_duplicates(&batch, &["v"], HashVersion::CURRENT).unwrap();
    assert_eq!(deduped.num_rows(), 3);
    assert_eq!(deduped.column(0).cell(0), Some(&Cell::Float64(0)));
}

#[test]
fn dropping_twice_is_dropping_once() {
    let batch = table(vec![
        ("id", false, ints(&[3, 1, 3, 2, 1])),
        ("at", false, ints(&[0, 1, 2, 3, 4])),
    ]);
    let once = drop_duplicates(&batch, &["id"], HashVersion::CURRENT).unwrap();
    let twice = drop_duplicates(&once, &["id"], HashVersion::CURRENT).unwrap();
    assert_eq!(once, twice);
    assert_eq!(int_values(&once, 1), vec![0, 1, 3]);
}

#[test]
fn no_columns_make_all_rows_duplicates() {
    let batch = table(vec![("id", false, ints(&[4, 5]))]);
    let deduped = drop_duplicates(&batch, &[], HashVersion::CURRENT).unwrap();
    assert_eq!(int_values(&deduped, 0), vec![4]);
    let empty = table(vec![("id", false, ints(&[]))]);
    assert_eq!(
        drop_duplicates(&empty, &[], HashVersion::CURRENT).unwrap().num_rows(),
        0
    );
}

#[test]
fn type_without_a_hash_errors() {
    let column = Column::try_new(DataType::Other("Float16".to_string()), vec![]).unwrap();
    let batch = table(vec![("v", true, column)]);
    let out = drop_duplicates(&batch, &["v"], HashVersion::CURRENT);
    assert!(matches!(out, Err(Error::UnsupportedType(t)) if t == "Float16"));
}

#[test]
fn many_rows_keep_first_seen_order() {
    let values: Vec<i64> = (0..2000).map(|i| (i * 7919) % 613).collect();
    let batch = table(vec![("id", false, ints(&values))]);
    let deduped = drop_duplicates(&batch, &["id"], HashVersion::CURRENT).unwrap();
    let mut expected: Vec<i64> = Vec::new();
    for v in values {
        if !expected.contains(&v) {
            expected.push(v);
        }
    }
    assert_eq!(int_values(&deduped, 0), expected);
}
