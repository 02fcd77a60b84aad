use witchhat_core::{aggregate, AggFunc, Aggregation, Cell, Column, DataType, Error, Field};
use witchhat_core::{RecordBatch, Schema};

fn ints(values: &[Option<i64>]) -> Column {
    let cells = values.iter().map(|v| v.map(Cell::Int64)).collect();
    Column::try_new(DataType::Int64, cells).unwrap()
}

fn texts(values: &[&str]) -> Column {
    let cells = values.iter().map(|v| Some(Cell::Text(v.to_string()))).collect();
    Column::try_new(DataType::Utf8, cells).unwrap()
}

fn doubles(values: &[f64]) -> Column {
    let cells = values.iter().map(|v| Some(Cell::Float64(v.to_bits()))).collect();
    Column::try_new(DataType::Float64, cells).unwrap()
}

fn table(columns: Vec<(&str, bool, Column)>) -> RecordBatch {
    let fields = columns
        .iter()
        .map(|(name, nullable, c)| Field::new(name, c.data_type().clone(), *nullable))
        .collect();
    let columns = columns.into_iter().map(|(_, _, c)| c).collect();
    RecordBatch::try_new(Schema::new(fields), columns).unwrap()
}

fn sales() -> RecordBatch {
    table(vec![
        ("country", false, texts(&["NO", "SE", "NO", "SE", "NO"])),
        (
            "amount",
            true,
            ints(&[Some(10), Some(20), Some(5), None, Some(100)]),
        ),
    ])
}

fn text(batch: &RecordBatch, column: usize, row: usize) -> &str {
    match batch.column(column).cell(row) {
        Some(Cell::Text(s)) => s,
        other => panic!("no text: {other:?}"),
    }
}

fn integer(batch: &RecordBatch, column: usize, row: usize) -> i64 {
    match batch.column(column).cell(row) {
        Some(Cell::Int64(v)) => *v,
        other => panic!("no integer: {other:?}"),
    }
}

fn double(batch: &RecordBatch, column: usize, row: usize) -> f64 {
    match batch.column(column).cell(row) {
        Some(Cell::Float64(bits)) => f64::from_bits(*bits),
        other => panic!("no double: {other:?}"),
    }
}

#[test]
fn sum_per_group() {
    let out = aggregate(
        &sales(),
        &["country"],
        &[Aggregation::new("amount", AggFunc::Sum, "total")],
    )
    .unwrap();
    assert_eq!(out.num_rows(), 2);
    assert_eq!(text(&out, 0, 0), "NO");
    assert_eq!(double(&out, 1, 0), 115.0);
    assert_eq!(text(&out, 0, 1), "SE");
    assert_eq!(double(&out, 1, 1), 20.0);
}

#[test]
fn count_skips_nulls() {
    let out = aggregate(
        &sales(),
        &["country"],
        &[Aggregation::new("amount", AggFunc::Count, "n")],
    )
    .unwrap();
    for i in 0..out.num_rows() {
        if text(&out, 0, i) == "NO" {
            assert_eq!(integer(&out, 1, i), 3);
        } else {
            assert_eq!(integer(&out, 1, i), 1);
        }
    }
}

#[test]
fn min_and_max_preserve_source_type() {
    let out = aggregate(
        &sales(),
        &["country"],
        &[
            Aggregation::new("amount", AggFunc::Min, "lo"),
            Aggregation::new("amount", AggFunc::Max, "hi"),
        ],
    )
    .unwrap();
    assert_eq!(out.schema().fields[1].data_type, DataType::Int64);
    for i in 0..out.num_rows() {
        if text(&out, 0, i) == "NO" {
            assert_eq!(integer(&out, 1, i), 5);
            assert_eq!(integer(&out, 2, i), 100);
        }
    }
}

#[test]
fn no_group_by_aggregates_whole_batch() {
    let out = aggregate(
        &sales(),
        &[],
        &[Aggregation::new("amount", AggFunc::Sum, "total")],
    )
    .unwrap();
    assert_eq!(out.num_rows(), 1);
    assert_eq!(double(&out, 0, 0), 135.0);
}

#[test]
fn empty_batch_whole_table_aggregate_produces_one_null_row() {
    let empty = table(vec![("amount", true, ints(&[]))]);
    let out = aggregate(
        &empty,
        &[],
        &[
            Aggregation::new("amount", AggFunc::Count, "n"),
            Aggregation::new("amount", AggFunc::Sum, "total"),
        ],
    )
    .unwrap();
    assert_eq!(out.num_rows(), 1);
    assert_eq!(integer(&out, 0, 0), 0);
    assert!(out.column(1).is_null(0));
}

#[test]
fn unsupported_type_for_sum_errors() {
    let out = aggregate(
        &sales(),
        &["country"],
        &[Aggregation::new("country", AggFunc::Sum, "bad")],
    );
    assert!(matches!(out, Err(Error::UnsupportedType(t)) if t == "Utf8"));
}

#[test]
fn aggregate_unknown_column_errors() {
    assert!(aggregate(
        &sales(),
        &["missing"],
        &[Aggregation::new("amount", AggFunc::Sum, "total")]
    )
    .is_err());
}

#[test]
fn unknown_aggregated_column_is_named() {
    let out = aggregate(
        &sales(),
        &["country"],
        &[
            Aggregation::new("amount", AggFunc::Sum, "total"),
            Aggregation::new("absent", AggFunc::Count, "n"),
        ],
    );
    assert!(matches!(out, Err(Error::UnknownColumn(c)) if c == "absent"));
}

#[test]
fn output_schema_lists_keys_then_aliases() {
    let out = aggregate(
        &sales(),
        &["country"],
        &[
            Aggregation::new("amount", AggFunc::Count, "n"),
            Aggregation::new("amount", AggFunc::Mean, "mean"),
        ],
    )
    .unwrap();
    let fields = &out.schema().fields;
    assert_eq!(fields[0], Field::new("country", DataType::Utf8, true));
    assert_eq!(fields[1], Field::new("n", DataType::Int64, false));
    assert_eq!(fields[2], Field::new("mean", DataType::Float64, true));
    assert_eq!(double(&out, 2, 0), 115.0 / 3.0);
    assert_eq!(double(&out, 2, 1), 20.0);
}

#[test]
fn counts_take_any_type() {
    let out = aggregate(
        &sales(),
        &[],
        &[Aggregation::new("country", AggFunc::Count, "n")],
    )
    .unwrap();
    assert_eq!(integer(&out, 0, 0), 5);
}

#[test]
fn group_of_nulls_reduces_to_null() {
    let batch = table(vec![
        ("k", false, texts(&["a", "a"])),
        ("v", true, ints(&[None, None])),
    ]);
    let out = aggregate(
        &batch,
        &["k"],
        &[
            Aggregation::new("v", AggFunc::Sum, "sum"),
            Aggregation::new("v", AggFunc::Mean, "mean"),
            Aggregation::new("v", AggFunc::Min, "min"),
            Aggregation::new("v", AggFunc::Max, "max"),
            Aggregation::new("v", AggFunc::Count, "n"),
        ],
    )
    .unwrap();
    for c in 1..5 {
        assert!(out.column(c).is_null(0));
    }
    assert_eq!(integer(&out, 5, 0), 0);
}

#[test]
fn null_keys_form_one_group() {
    let batch = table(vec![
        ("k", true, ints(&[None, Some(1), None])),
        ("v", false, ints(&[Some(1), Some(2), Some(3)])),
    ]);
    let out = aggregate(&batch, &["k"], &[Aggregation::new("v", AggFunc::Sum, "s")]).unwrap();
    assert_eq!(out.num_rows(), 2);
    assert!(out.column(0).is_null(0));
    assert_eq!(double(&out, 1, 0), 4.0);
    assert_eq!(integer(&out, 0, 1), 1);
}

#[test]
fn groups_appear_in_the_order_of_their_first_rows() {
    let batch = table(vec![
        ("k", false, texts(&["z", "a", "z", "m", "a"])),
        (
            "v",
            false,
            ints(&[Some(1), Some(2), Some(3), Some(4), Some(5)]),
        ),
    ]);
    let out = aggregate(&batch, &["k"], &[Aggregation::new("v", AggFunc::Count, "n")]).unwrap();
    let keys: Vec<&str> = (0..3).map(|i| text(&out, 0, i)).collect();
    assert_eq!(keys, ["z", "a", "m"]);
    let counts: i64 = (0..3).map(|i| integer(&out, 1, i)).sum();
    assert_eq!(counts, 5);
}

#[test]
fn composite_keys_group_by_all_columns() {
    let batch = table(vec![
        ("a", false, ints(&[Some(1), Some(1), Some(2), Some(1)])),
        ("b", false, texts(&["x", "y", "x", "x"])),
    ]);
    let out = aggregate(
        &batch,
        &["a", "b"],
        &[Aggregation::new("a", AggFunc::Count, "n")],
    )
    .unwrap();
    assert_eq!(out.num_rows(), 3);
    assert_eq!(integer(&out, 2, 0), 2);
}

#[test]
fn sums_round_like_doubles() {
    let values = [0.1, 0.2, 0.3, 1e16, -1e16, f64::MIN_POSITIVE];
    let batch = table(vec![("v", false, doubles(&values))]);
    let out = aggregate(
        &batch,
        &[],
        &[
            Aggregation::new("v", AggFunc::Sum, "s"),
            Aggregation::new("v", AggFunc::Mean, "m"),
        ],
    )
    .unwrap();
    let mut total = 0.0;
    for v in values {
        total += v;
    }
    assert_eq!(double(&out, 0, 0), total);
    assert_eq!(double(&out, 1, 0), total / 6.0);
}

#[test]
fn large_integers_sum_as_doubles() {
    let batch = table(vec![(
        "v",
        false,
        ints(&[Some(9_007_199_254_740_993), Some(1)]),
    )]);
    let out = aggregate(&batch, &[], &[Aggregation::new("v", AggFunc::Sum, "s")]).unwrap();
    assert_eq!(double(&out, 0, 0), 9_007_199_254_740_993_i64 as f64 + 1.0);
}

#[test]
fn large_integers_are_compared_exactly() {
    let extremes = [
        Aggregation::new("v", AggFunc::Min, "lo"),
        Aggregation::new("v", AggFunc::Max, "hi"),
    ];
    let big = 9_007_199_254_740_992;
    for values in [[big + 1, big], [big, big + 1]] {
        let batch = table(vec![("v", false, ints(&values.map(Some)))]);
        let out = aggregate(&batch, &[], &extremes).unwrap();
        assert_eq!(integer(&out, 0, 0), big);
        assert_eq!(integer(&out, 1, 0), big + 1);
    }
    let batch = table(vec![(
        "v",
        true,
        ints(&[Some(i64::MIN + 1), None, Some(i64::MIN), Some(i64::MAX - 1), Some(i64::MAX)]),
    )]);
    let out = aggregate(&batch, &[], &extremes).unwrap();
    assert_eq!(integer(&out, 0, 0), i64::MIN);
    assert_eq!(integer(&out, 1, 0), i64::MAX);
    let cells = [u64::MAX - 1, u64::MAX, u64::MAX - 2].map(|v| Some(Cell::UInt64(v)));
    let column = Column::try_new(DataType::UInt64, cells.to_vec()).unwrap();
    let out = aggregate(&table(vec![("v", false, column)]), &[], &extremes).unwrap();
    assert_eq!(out.column(0).cell(0), Some(&Cell::UInt64(u64::MAX - 2)));
    assert_eq!(out.column(1).cell(0), Some(&Cell::UInt64(u64::MAX)));
}

#[test]
fn a_leading_nan_stays_the_least() {
    let batch = table(vec![("v", false, doubles(&[f64::NAN, 1.0, -1.0]))]);
    let out = aggregate(
        &batch,
        &[],
        &[
            Aggregation::new("v", AggFunc::Min, "lo"),
            Aggregation::new("v", AggFunc::Sum, "s"),
        ],
    )
    .unwrap();
    assert!(double(&out, 0, 0).is_nan());
    assert!(double(&out, 1, 0).is_nan());
    let batch = table(vec![("v", false, doubles(&[1.0, f64::NAN, -1.0]))]);
    let out = aggregate(&batch, &[], &[Aggregation::new("v", AggFunc::Min, "lo")]).unwrap();
    assert_eq!(double(&out, 0, 0), -1.0);
}

#[test]
fn every_numeric_type_is_summed() {
    let columns = vec![
        (DataType::Int8, Cell::Int8(-3), -3.0),
        (DataType::Int16, Cell::Int16(300), 300.0),
        (DataType::Int32, Cell::Int32(-70000), -70000.0),
        (DataType::UInt8, Cell::UInt8(200), 200.0),
        (DataType::UInt16, Cell::UInt16(60000), 60000.0),
        (DataType::UInt32, Cell::UInt32(4_000_000_000), 4e9),
        (DataType::UInt64, Cell::UInt64(u64::MAX), u64::MAX as f64),
        (DataType::Float32, Cell::Float32(0.1f32.to_bits()), 0.1f32 as f64),
    ];
    for (t, cell, expected) in columns {
        let column = Column::try_new(t, vec![Some(cell)]).unwrap();
        let batch = table(vec![("v", false, column)]);
        let out = aggregate(&batch, &[], &[Aggregation::new("v", AggFunc::Sum, "s")]).unwrap();
        assert_eq!(double(&out, 0, 0), expected);
    }
}

#[test]
fn nothing_to_compute_is_a_schema_mismatch() {
    let out = aggregate(&sales(), &[], &[]);
    assert!(matches!(out, Err(Error::SchemaMismatch(_))));
}

#[test]
fn function_names() {
    assert_eq!(AggFunc::parse("count"), Some(AggFunc::Count));
    assert_eq!(AggFunc::parse("sum"), Some(AggFunc::Sum));
    assert_eq!(AggFunc::parse("mean"), Some(AggFunc::Mean));
    assert_eq!(AggFunc::parse("avg"), Some(AggFunc::Mean));
    assert_eq!(AggFunc::parse("min"), Some(AggFunc::Min));
    assert_eq!(AggFunc::parse("max"), Some(AggFunc::Max));
    assert_eq!(AggFunc::parse("Sum"), None);
}
