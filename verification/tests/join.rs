use witchhat_core::{join, join_null_safe, Cell, Column, DataType, Error, Field, JoinType};
use witchhat_core::{RecordBatch, Schema};

fn ints(values: &[i64]) -> Column {
    let cells = values.iter().map(|v| Some(Cell::Int64(*v))).collect();
    Column::try_new(DataType::Int64, cells).unwrap()
}

fn maybe_ints(values: &[Option<i64>]) -> Column {
    let cells = values.iter().map(|v| v.map(Cell::Int64)).collect();
    Column::try_new(DataType::Int64, cells).unwrap()
}

fn texts(values: &[&str]) -> Column {
    let cells = values.iter().map(|v| Some(Cell::Text(v.to_string()))).collect();
    Column::try_new(DataType::Utf8, cells).unwrap()
}

fn table(columns: Vec<(&str, bool, Column)>) -> RecordBatch {
    let fields = columns
        .iter()
        .map(|(name, nullable, c)| Field::new(name, c.data_type().clone(), *nullable))
        .collect();
    let columns = columns.into_iter().map(|(_, _, c)| c).collect();
    RecordBatch::try_new(Schema::new(fields), columns).unwrap()
}

fn users() -> RecordBatch {
    table(vec![
        ("id", false, ints(&[1, 2, 3])),
        ("name", false, texts(&["alice", "bob", "carol"])),
    ])
}

fn orders() -> RecordBatch {
    table(vec![
        ("user_id", false, ints(&[1, 1, 4])),
        ("item", false, texts(&["book", "pen", "ghost"])),
    ])
}

fn cells(batch: &RecordBatch, column: usize) -> Vec<Option<Cell>> {
    (0..batch.num_rows())
        .map(|row| batch.column(column).cell(row).cloned())
        .collect()
}

fn text_cells(values: &[Option<&str>]) -> Vec<Option<Cell>> {
    values
        .iter()
        .map(|v| v.map(|s| Cell::Text(s.to_string())))
        .collect()
}

#[test]
fn inner_join_keeps_only_matches() {
    let out = join(&users(), &orders(), &["id"], &["user_id"], JoinType::Inner).unwrap();
    assert_eq!(out.num_rows(), 2);
    assert_eq!(
        cells(&out, 1),
        text_cells(&[Some("alice"), Some("alice")])
    );
}

#[test]
fn left_join_keeps_unmatched_left_rows() {
    let out = join(&users(), &orders(), &["id"], &["user_id"], JoinType::Left).unwrap();
    assert_eq!(out.num_rows(), 4);
    assert!(out.column(3).is_null(2));
    assert!(out.column(3).is_null(3));
}

#[test]
fn right_join_keeps_unmatched_right_rows() {
    let out = join(&users(), &orders(), &["id"], &["user_id"], JoinType::Right).unwrap();
    assert_eq!(out.num_rows(), 3);
    assert!(out.column(1).is_null(2));
}

#[test]
fn full_join_keeps_every_unmatched_row_from_both_sides() {
    let out = join(&users(), &orders(), &["id"], &["user_id"], JoinType::Full).unwrap();
    assert_eq!(out.num_rows(), 5);
}

#[test]
fn colliding_column_names_get_suffixed() {
    let left = table(vec![("id", false, ints(&[1]))]);
    let right = table(vec![("id", false, ints(&[1]))]);
    let out = join(&left, &right, &["id"], &["id"], JoinType::Inner).unwrap();
    assert_eq!(out.schema().fields[0].name, "id");
    assert_eq!(out.schema().fields[1].name, "id_right");
}

#[test]
fn key_type_mismatch_errors() {
    let left = table(vec![("id", false, ints(&[1]))]);
    let right = table(vec![("id", false, texts(&["1"]))]);
    assert!(join(&left, &right, &["id"], &["id"], JoinType::Inner).is_err());
}

#[test]
fn join_unknown_column_errors() {
    assert!(join(
        &users(),
        &orders(),
        &["missing"],
        &["user_id"],
        JoinType::Inner
    )
    .is_err());
}

#[test]
fn composite_key_join() {
    let left = table(vec![
        ("a", false, ints(&[1, 1])),
        ("b", false, texts(&["x", "y"])),
    ]);
    let right = table(vec![
        ("a", false, ints(&[1, 1])),
        ("b", false, texts(&["x", "z"])),
        ("v", false, ints(&[100, 200])),
    ]);
    let out = join(&left, &right, &["a", "b"], &["a", "b"], JoinType::Inner).unwrap();
    assert_eq!(out.num_rows(), 1);
    assert_eq!(out.column(4).cell(0), Some(&Cell::Int64(100)));
}

#[test]
fn full_join_rows_come_in_order() {
    let out = join(&users(), &orders(), &["id"], &["user_id"], JoinType::Full).unwrap();
    assert_eq!(
        cells(&out, 1),
        text_cells(&[
            Some("alice"),
            Some("alice"),
            Some("bob"),
            Some("carol"),
            None
        ])
    );
    assert_eq!(
        cells(&out, 3),
        text_cells(&[Some("book"), Some("pen"), None, None, Some("ghost")])
    );
}

#[test]
fn null_keys_never_match() {
    let left = table(vec![("k", true, maybe_ints(&[None, Some(1)]))]);
    let right = table(vec![("k", true, maybe_ints(&[None, Some(1)]))]);
    let out = join(&left, &right, &["k"], &["k"], JoinType::Inner).unwrap();
    assert_eq!(out.num_rows(), 1);
    let out = join(&left, &right, &["k"], &["k"], JoinType::Full).unwrap();
    assert_eq!(out.num_rows(), 3);
}

#[test]
fn null_keys_match_when_asked_to() {
    let left = table(vec![("k", true, maybe_ints(&[None, Some(1)]))]);
    let right = table(vec![("k", true, maybe_ints(&[None, Some(1), None]))]);
    let out = join_null_safe(&left, &right, &["k"], &["k"], JoinType::Inner).unwrap();
    assert_eq!(out.num_rows(), 3);
    assert!(out.column(0).is_null(0));
}

#[test]
fn one_null_in_a_composite_key_is_enough() {
    let side = || {
        table(vec![
            ("a", false, ints(&[1, 1])),
            ("b", true, maybe_ints(&[None, Some(2)])),
        ])
    };
    let out = join(&side(), &side(), &["a", "b"], &["a", "b"], JoinType::Inner).unwrap();
    assert_eq!(out.num_rows(), 1);
    let out =
        join_null_safe(&side(), &side(), &["a", "b"], &["a", "b"], JoinType::Inner).unwrap();
    assert_eq!(out.num_rows(), 2);
}

#[test]
fn without_null_keys_both_joins_agree() {
    for how in [JoinType::Inner, JoinType::Left, JoinType::Right, JoinType::Full] {
        let plain = join(&users(), &orders(), &["id"], &["user_id"], how).unwrap();
        let safe = join_null_safe(&users(), &orders(), &["id"], &["user_id"], how).unwrap();
        assert_eq!(plain, safe);
    }
}

#[test]
fn every_output_field_is_nullable() {
    let out = join(&users(), &orders(), &["id"], &["user_id"], JoinType::Inner).unwrap();
    let names: Vec<&str> = out.schema().fields.iter().map(|f| f.name.as_str()).collect();
    assert_eq!(names, ["id", "name", "user_id", "item"]);
    assert!(out.schema().fields.iter().all(|f| f.nullable));
}

#[test]
fn type_mismatch_names_both_columns() {
    let left = table(vec![("id", false, ints(&[1]))]);
    let right = table(vec![("key", false, texts(&["1"]))]);
    match join(&left, &right, &["id"], &["key"], JoinType::Inner) {
        Err(Error::TypeMismatch {
            column,
            expected,
            actual,
        }) => {
            assert_eq!(column, "id/key");
            assert_eq!(expected, "Int64");
            assert_eq!(actual, "Utf8");
        }
        other => panic!("no type mismatch: {other:?}"),
    }
}

#[test]
fn key_lists_must_pair_up() {
    for (l, r) in [
        (vec![], vec![]),
        (vec!["id"], vec![]),
        (vec!["id"], vec!["user_id", "item"]),
    ] {
        let out = join(&users(), &orders(), &l, &r, JoinType::Inner);
        assert!(matches!(
            out,
            Err(Error::Config(m)) if m == "left_keys and right_keys must be the same non-zero length"
        ));
    }
    let out = join(&users(), &orders(), &["id"], &["absent"], JoinType::Inner);
    assert!(matches!(out, Err(Error::UnknownColumn(c)) if c == "absent"));
}

#[test]
fn types_that_are_not_read_into_still_match() {
    let column = |values: &[&[u8]]| {
        let cells = values.iter().map(|v| Some(Cell::Bytes(v.to_vec()))).collect();
        Column::try_new(DataType::Other("Float16".to_string()), cells).unwrap()
    };
    let left = table(vec![("k", false, column(&[&[1, 0], &[2, 0]]))]);
    let right = table(vec![("k", false, column(&[&[2, 0]]))]);
    let out = join(&left, &right, &["k"], &["k"], JoinType::Inner).unwrap();
    assert_eq!(out.num_rows(), 1);
}

#[test]
fn empty_and_null_keys_differ() {
    let cells_of = |v: Vec<Option<Cell>>| Column::try_new(DataType::Utf8, v).unwrap();
    let left = table(vec![("k", true, cells_of(vec![Some(Cell::Text(String::new()))]))]);
    let right = table(vec![("k", true, cells_of(vec![None]))]);
    let out = join_null_safe(&left, &right, &["k"], &["k"], JoinType::Inner).unwrap();
    assert_eq!(out.num_rows(), 0);
}

#[test]
fn join_type_names() {
    assert_eq!(JoinType::parse("inner"), Some(JoinType::Inner));
    assert_eq!(JoinType::parse("left"), Some(JoinType::Left));
    assert_eq!(JoinType::parse("right"), Some(JoinType::Right));
    assert_eq!(JoinType::parse("full"), Some(JoinType::Full));
    assert_eq!(JoinType::parse("outer"), None);
    assert_eq!(JoinType::default(), JoinType::Inner);
}
