use witchhat_core::{aggregate, clean_with_preset, hash_batch, join, normalize_json};
use witchhat_core::{AggFunc, Aggregation, Cell, CleanupVersion, Column, DataType, Field};
use witchhat_core::{HashVersion, JoinType, NormalizeVersion, RecordBatch, Schema};

fn ints(values: &[i64]) -> Column {
    let cells = values.iter().map(|v| Some(Cell::Int64(*v))).collect();
    Column::try_new(DataType::Int64, cells).unwrap()
}

fn texts(values: &[&str]) -> Column {
    let cells = values.iter().map(|v| Some(Cell::Text(v.to_string()))).collect();
    Column::try_new(DataType::Utf8, cells).unwrap()
}

fn table(columns: Vec<(&str, Column)>) -> RecordBatch {
    let fields = columns
        .iter()
        .map(|(name, c)| Field::new(name, c.data_type().clone(), true))
        .collect();
    let columns = columns.into_iter().map(|(_, c)| c).collect();
    RecordBatch::try_new(Schema::new(fields), columns).unwrap()
}

#[test]
fn joining_and_aggregating() {
    let users = table(vec![
        ("id", ints(&[1, 2, 3])),
        ("country", texts(&["NO", "SE", "NO"])),
    ]);
    let orders = table(vec![
        ("user_id", ints(&[1, 1, 2])),
        ("amount", ints(&[10, 5, 20])),
    ]);
    let joined = join(&users, &orders, &["id"], &["user_id"], JoinType::Inner).unwrap();
    let totals = aggregate(
        &joined,
        &["country"],
        &[Aggregation::new("amount", AggFunc::Sum, "total")],
    )
    .unwrap();
    assert_eq!(totals.num_rows(), 2);
    assert_eq!(totals.column(0).cell(0), Some(&Cell::Text("NO".to_string())));
    assert_eq!(
        totals.column(1).cell(0),
        Some(&Cell::Float64(15.0f64.to_bits()))
    );
    assert_eq!(totals.column(0).cell(1), Some(&Cell::Text("SE".to_string())));
    assert_eq!(
        totals.column(1).cell(1),
        Some(&Cell::Float64(20.0f64.to_bits()))
    );
}

#[test]
fn normalizing_and_cleaning() {
    let json = vec![Some(r#"{"id": 1, "note": "  hi   there  "}"#.to_string())];
    let schema = Schema::new(vec![
        Field::new("id", DataType::Int64, true),
        Field::new("note", DataType::Utf8, true),
    ]);
    let (batch, stats) = normalize_json(&json, &schema, NormalizeVersion::CURRENT).unwrap();
    assert_eq!(stats.rows_malformed, 0);
    let notes: Vec<Option<String>> = (0..batch.num_rows())
        .map(|row| match batch.column(1).cell(row) {
            Some(Cell::Text(s)) => Some(s.clone()),
            _ => None,
        })
        .collect();
    let cleaned =
        clean_with_preset(&notes, "collapse_whitespace", CleanupVersion::CURRENT).unwrap();
    assert_eq!(cleaned, vec![Some(" hi there ".to_string())]);
}

#[test]
fn selected_rows_keep_their_hashes() {
    let batch = table(vec![
        ("id", ints(&[1, 2, 3])),
        ("email", texts(&["a@x.com", "b@x.com", "a@x.com"])),
    ]);
    let hashes = hash_batch(&batch, &["id", "email"], HashVersion::CURRENT).unwrap();
    let selected = batch.take(&vec![2, 0, 2]);
    assert_eq!(
        hash_batch(&selected, &["id", "email"], HashVersion::CURRENT).unwrap(),
        vec![hashes[2], hashes[0], hashes[2]]
    );
}
