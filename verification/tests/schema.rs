use arrow_array::{ArrayRef, Int64Array, StringArray};
use arrow_schema::{
    DataType as Arrow, Field as ArrowField, Schema as ArrowSchema, TimeUnit as Unit,
};
use std::sync::Arc;
use witchhat_core::schema::TimeUnit;
use witchhat_core::{schema_fingerprint, Cell, Column, DataType, Error, Field, HashVersion};
use witchhat_core::{RecordBatch, Schema};
use xxhash_rust::xxh3::xxh3_64_with_seed;

fn schema(fields: Vec<(&str, DataType, bool)>) -> Schema {
    Schema::new(
        fields
            .into_iter()
            .map(|(name, ty, nullable)| Field::new(name, ty, nullable))
            .collect::<Vec<_>>(),
    )
}

#[test]
fn same_shape_same_fingerprint() {
    let a = schema(vec![("id", DataType::Int64, false)]);
    let b = schema(vec![("id", DataType::Int64, false)]);
    assert_eq!(
        schema_fingerprint(&a, HashVersion::CURRENT),
        schema_fingerprint(&b, HashVersion::CURRENT)
    );
}

#[test]
fn field_order_changes_fingerprint() {
    let a = schema(vec![
        ("id", DataType::Int64, false),
        ("name", DataType::Utf8, true),
    ]);
    let b = schema(vec![
        ("name", DataType::Utf8, true),
        ("id", DataType::Int64, false),
    ]);
    assert_ne!(
        schema_fingerprint(&a, HashVersion::CURRENT),
        schema_fingerprint(&b, HashVersion::CURRENT)
    );
}

#[test]
fn nullability_changes_fingerprint() {
    let a = schema(vec![("id", DataType::Int64, false)]);
    let b = schema(vec![("id", DataType::Int64, true)]);
    assert_ne!(
        schema_fingerprint(&a, HashVersion::CURRENT),
        schema_fingerprint(&b, HashVersion::CURRENT)
    );
}

#[test]
fn fingerprint_is_the_hash_of_names_types_and_nullability() {
    let s = schema(vec![
        ("id", DataType::Int64, false),
        (
            "at",
            DataType::Timestamp(TimeUnit::Second, Some("UTC".to_string())),
            true,
        ),
    ]);
    let mut bytes = b"idInt64".to_vec();
    bytes.push(0);
    bytes.extend(b"at");
    let shown = arrow_schema::DataType::Timestamp(arrow_schema::TimeUnit::Second, Some("UTC".into()));
    bytes.extend(shown.to_string().as_bytes());
    bytes.push(1);
    assert_eq!(
        schema_fingerprint(&s, HashVersion::V1),
        xxh3_64_with_seed(&bytes, 0x9E37_79B9_7F4A_7C15)
    );
}

#[test]
fn names_of_types_are_those_arrow_displays() {
    let pairs = vec![
        (DataType::Boolean, Arrow::Boolean),
        (DataType::Int8, Arrow::Int8),
        (DataType::Int16, Arrow::Int16),
        (DataType::Int32, Arrow::Int32),
        (DataType::Int64, Arrow::Int64),
        (DataType::UInt8, Arrow::UInt8),
        (DataType::UInt16, Arrow::UInt16),
        (DataType::UInt32, Arrow::UInt32),
        (DataType::UInt64, Arrow::UInt64),
        (DataType::Float32, Arrow::Float32),
        (DataType::Float64, Arrow::Float64),
        (DataType::Utf8, Arrow::Utf8),
        (DataType::LargeUtf8, Arrow::LargeUtf8),
        (DataType::Binary, Arrow::Binary),
        (DataType::LargeBinary, Arrow::LargeBinary),
        (DataType::Date32, Arrow::Date32),
        (DataType::Date64, Arrow::Date64),
        (
            DataType::Time32(TimeUnit::Second),
            Arrow::Time32(Unit::Second),
        ),
        (
            DataType::Time32(TimeUnit::Millisecond),
            Arrow::Time32(Unit::Millisecond),
        ),
        (
            DataType::Time64(TimeUnit::Microsecond),
            Arrow::Time64(Unit::Microsecond),
        ),
        (
            DataType::Time64(TimeUnit::Nanosecond),
            Arrow::Time64(Unit::Nanosecond),
        ),
        (
            DataType::Timestamp(TimeUnit::Millisecond, None),
            Arrow::Timestamp(Unit::Millisecond, None),
        ),
        (
            DataType::Timestamp(TimeUnit::Nanosecond, Some("Europe/\"Oslo\"".into())),
            Arrow::Timestamp(Unit::Nanosecond, Some("Europe/\"Oslo\"".into())),
        ),
        (DataType::Decimal128(38, 10), Arrow::Decimal128(38, 10)),
        (DataType::Decimal128(5, -2), Arrow::Decimal128(5, -2)),
        (DataType::Decimal256(76, 0), Arrow::Decimal256(76, 0)),
        (
            DataType::Other(Arrow::Float16.to_string()),
            Arrow::Float16,
        ),
    ];
    for (ours, arrow) in pairs {
        assert_eq!(ours.name(), arrow.to_string());
    }
}

#[test]
fn batches_fail_with_the_words_of_arrow() {
    let number = |v: &[Option<i64>]| {
        Column::try_new(
            DataType::Int64,
            v.iter().map(|x| x.map(Cell::Int64)).collect(),
        )
        .unwrap()
    };
    let arrow_int = |v: &[Option<i64>]| Arc::new(Int64Array::from(v.to_vec())) as ArrayRef;
    let text = || Column::try_new(DataType::Utf8, vec![Some(Cell::Text("x".into()))]).unwrap();
    let arrow_text = || Arc::new(StringArray::from(vec!["x"])) as ArrayRef;
    let fields = |n: usize, nullable: bool| {
        (
            schema(
                ["a", "b"][..n]
                    .iter()
                    .map(|f| (*f, DataType::Int64, nullable))
                    .collect(),
            ),
            ArrowSchema::new(
                ["a", "b"][..n]
                    .iter()
                    .map(|f| ArrowField::new(*f, Arrow::Int64, nullable))
                    .collect::<Vec<_>>(),
            ),
        )
    };
    let cases = vec![
        (fields(0, true), vec![], vec![]),
        (fields(2, true), vec![number(&[])], vec![arrow_int(&[])]),
        (fields(1, false), vec![number(&[None])], vec![arrow_int(&[None])]),
        (
            fields(2, true),
            vec![number(&[Some(1)]), number(&[])],
            vec![arrow_int(&[Some(1)]), arrow_int(&[])],
        ),
        (
            fields(2, true),
            vec![number(&[Some(1)]), text()],
            vec![arrow_int(&[Some(1)]), arrow_text()],
        ),
    ];
    for ((ours, arrow), columns, arrays) in cases {
        let message = match RecordBatch::try_new(ours, columns) {
            Err(Error::SchemaMismatch(m)) => m,
            other => panic!("no mismatch: {other:?}"),
        };
        let words = arrow_array::RecordBatch::try_new(Arc::new(arrow), arrays)
            .unwrap_err()
            .to_string();
        assert_eq!(message, words);
    }
}

#[test]
fn batch_without_columns_can_have_rows() {
    let b = RecordBatch::try_new_with_row_count(Schema::new(vec![]), vec![], 3).unwrap();
    assert_eq!(b.num_rows(), 3);
    let out = RecordBatch::try_new_with_row_count(
        schema(vec![("a", DataType::Int64, true)]),
        vec![Column::try_new(DataType::Int64, vec![None]).unwrap()],
        2,
    );
    assert!(matches!(
        out,
        Err(Error::SchemaMismatch(m))
            if m == "Invalid argument error: all columns in a record batch must have the specified row count"
    ));
}

#[test]
fn cells_must_be_of_the_type() {
    assert!(Column::try_new(DataType::Int64, vec![Some(Cell::Int32(1))]).is_none());
    assert!(Column::try_new(DataType::Decimal256(40, 0), vec![Some(Cell::Bytes(vec![0; 31]))]).is_none());
    assert!(Column::try_new(DataType::Date32, vec![Some(Cell::Int32(1)), None]).is_some());
}

#[test]
fn first_of_repeated_names_is_found() {
    let s = schema(vec![
        ("x", DataType::Int8, true),
        ("a", DataType::Int16, true),
        ("a", DataType::Int32, true),
    ]);
    assert_eq!(s.index_of("a"), Some(1));
    assert_eq!(s.index_of("A"), None);
}
