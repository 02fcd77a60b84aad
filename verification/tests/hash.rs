use witchhat_core::hash::{combine, parse_version};
use witchhat_core::schema::TimeUnit;
use witchhat_core::{hash_batch, hash_batch_all_columns, table_fingerprint, HashVersion};
use witchhat_core::{Cell, Column, DataType, Error, Field, RecordBatch, Schema};
use xxhash_rust::xxh3::xxh3_64_with_seed;

const SEED: u64 = 0x9E37_79B9_7F4A_7C15;

fn column(data_type: DataType, cells: Vec<Option<Cell>>) -> Column {
    Column::try_new(data_type, cells).unwrap()
}

fn table(columns: Vec<(&str, bool, Column)>) -> RecordBatch {
    let fields = columns
        .iter()
        .map(|(name, nullable, c)| Field::new(name, c.data_type().clone(), *nullable))
        .collect();
    let columns = columns.into_iter().map(|(_, _, c)| c).collect();
    RecordBatch::try_new(Schema::new(fields), columns).unwrap()
}

fn text(s: &str) -> Option<Cell> {
    Some(Cell::Text(s.to_string()))
}

fn double(v: f64) -> Option<Cell> {
    Some(Cell::Float64(v.to_bits()))
}

fn batch() -> RecordBatch {
    table(vec![
        (
            "id",
            false,
            column(
                DataType::Int64,
                vec![
                    Some(Cell::Int64(1)),
                    Some(Cell::Int64(2)),
                    Some(Cell::Int64(3)),
                ],
            ),
        ),
        (
            "name",
            true,
            column(DataType::Utf8, vec![text("a"), None, text("c")]),
        ),
        (
            "score",
            true,
            column(
                DataType::Float64,
                vec![double(1.5), double(f64::NAN), double(-0.0)],
            ),
        ),
    ])
}

fn one(data_type: DataType, cell: Option<Cell>) -> u64 {
    let b = table(vec![("v", true, column(data_type, vec![cell]))]);
    hash_batch(&b, &["v"], HashVersion::CURRENT).unwrap()[0]
}

fn expected(preimage: &[u8]) -> u64 {
    combine(SEED, xxh3_64_with_seed(preimage, SEED))
}

#[test]
fn deterministic_across_runs() {
    let b = batch();
    let h1 = hash_batch(&b, &["id", "name"], HashVersion::CURRENT).unwrap();
    let h2 = hash_batch(&b, &["id", "name"], HashVersion::CURRENT).unwrap();
    assert_eq!(h1, h2);
}

#[test]
fn column_order_matters() {
    let b = batch();
    let h1 = hash_batch(&b, &["id", "name"], HashVersion::CURRENT).unwrap();
    let h2 = hash_batch(&b, &["name", "id"], HashVersion::CURRENT).unwrap();
    assert_ne!(h1[0], h2[0]);
}

#[test]
fn null_is_distinct_from_any_value() {
    let b = table(vec![(
        "s",
        true,
        column(DataType::Utf8, vec![text(""), None]),
    )]);
    let h = hash_batch(&b, &["s"], HashVersion::CURRENT).unwrap();
    assert_ne!(h[0], h[1]);
}

#[test]
fn nulls_hash_apart_from_single_zero_bytes() {
    let cases = vec![
        (DataType::Boolean, Cell::Boolean(false)),
        (DataType::Int8, Cell::Int8(0)),
        (DataType::UInt8, Cell::UInt8(0)),
        (DataType::Utf8, Cell::Text("\0".to_string())),
        (DataType::LargeUtf8, Cell::Text("\0".to_string())),
        (DataType::Binary, Cell::Bytes(vec![0])),
        (DataType::LargeBinary, Cell::Bytes(vec![0])),
    ];
    for (t, zero) in cases {
        let b = table(vec![("v", true, column(t, vec![Some(zero), None]))]);
        let h = hash_batch(&b, &["v"], HashVersion::V1).unwrap();
        assert_eq!(h.len(), 2);
        assert_ne!(h[0], h[1]);
    }
}

#[test]
fn nulls_of_different_types_hash_apart() {
    assert_ne!(one(DataType::Int32, None), one(DataType::Int64, None));
    assert_ne!(
        one(DataType::Decimal128(10, 2), None),
        one(DataType::Decimal128(10, 3), None)
    );
}

#[test]
fn same_bytes_different_type_do_not_collide() {
    let ints = table(vec![(
        "v",
        false,
        column(DataType::Int32, vec![Some(Cell::Int32(5))]),
    )]);
    let bools = table(vec![(
        "v",
        false,
        column(DataType::Boolean, vec![Some(Cell::Boolean(true))]),
    )]);
    let hi = hash_batch(&ints, &["v"], HashVersion::CURRENT).unwrap();
    let hb = hash_batch(&bools, &["v"], HashVersion::CURRENT).unwrap();
    assert_ne!(hi[0], hb[0]);
}

#[test]
fn nan_and_negative_zero_are_canonicalized() {
    let a = table(vec![(
        "v",
        false,
        column(DataType::Float64, vec![double(0.0)]),
    )]);
    let b = table(vec![(
        "v",
        false,
        column(DataType::Float64, vec![double(-0.0)]),
    )]);
    let ha = hash_batch(&a, &["v"], HashVersion::CURRENT).unwrap();
    let hb = hash_batch(&b, &["v"], HashVersion::CURRENT).unwrap();
    assert_eq!(ha[0], hb[0]);
}

#[test]
fn hash_unknown_column_errors() {
    let b = batch();
    assert!(hash_batch(&b, &["missing"], HashVersion::CURRENT).is_err());
}

#[test]
fn table_fingerprint_is_order_independent() {
    let b = batch();
    let rows = hash_batch(&b, &["id", "name", "score"], HashVersion::CURRENT).unwrap();
    let forward = table_fingerprint(&rows, HashVersion::CURRENT);
    let reversed: Vec<u64> = rows.iter().rev().copied().collect();
    let backward = table_fingerprint(&reversed, HashVersion::CURRENT);
    assert_eq!(forward, backward);
}

#[test]
fn preimages_are_tag_and_little_endian_bytes() {
    let cases: Vec<(DataType, Cell, Vec<u8>)> = vec![
        (DataType::Boolean, Cell::Boolean(true), vec![1, 1]),
        (DataType::Int8, Cell::Int8(-1), vec![2, 0xFF]),
        (DataType::Int16, Cell::Int16(-2), vec![3, 0xFE, 0xFF]),
        (DataType::Int32, Cell::Int32(5), vec![4, 5, 0, 0, 0]),
        (
            DataType::Int64,
            Cell::Int64(i64::MIN),
            vec![5, 0, 0, 0, 0, 0, 0, 0, 0x80],
        ),
        (DataType::UInt8, Cell::UInt8(200), vec![6, 200]),
        (DataType::UInt16, Cell::UInt16(0x1234), vec![7, 0x34, 0x12]),
        (
            DataType::UInt32,
            Cell::UInt32(0x0102_0304),
            vec![8, 4, 3, 2, 1],
        ),
        (
            DataType::UInt64,
            Cell::UInt64(1),
            vec![9, 1, 0, 0, 0, 0, 0, 0, 0],
        ),
        (
            DataType::Float32,
            Cell::Float32(1.0f32.to_bits()),
            vec![0x0A, 0, 0, 0x80, 0x3F],
        ),
        (
            DataType::Float64,
            Cell::Float64(1.0f64.to_bits()),
            vec![0x0B, 0, 0, 0, 0, 0, 0, 0xF0, 0x3F],
        ),
        (DataType::Utf8, Cell::Text("é".into()), vec![0x0C, 0xC3, 0xA9]),
        (DataType::LargeUtf8, Cell::Text("a".into()), vec![0x0C, 0x61]),
        (DataType::Binary, Cell::Bytes(vec![7, 8]), vec![0x0D, 7, 8]),
        (DataType::LargeBinary, Cell::Bytes(vec![]), vec![0x0D]),
        (DataType::Date32, Cell::Int32(1), vec![0x0E, 1, 0, 0, 0]),
        (
            DataType::Date64,
            Cell::Int64(1),
            vec![0x0F, 1, 0, 0, 0, 0, 0, 0, 0],
        ),
        (
            DataType::Time32(TimeUnit::Second),
            Cell::Int32(5),
            vec![0x10, 0, 5, 0, 0, 0],
        ),
        (
            DataType::Time32(TimeUnit::Millisecond),
            Cell::Int32(5),
            vec![0x10, 1, 5, 0, 0, 0],
        ),
        (
            DataType::Time64(TimeUnit::Microsecond),
            Cell::Int64(5),
            vec![0x11, 2, 5, 0, 0, 0, 0, 0, 0, 0],
        ),
        (
            DataType::Time64(TimeUnit::Nanosecond),
            Cell::Int64(5),
            vec![0x11, 3, 5, 0, 0, 0, 0, 0, 0, 0],
        ),
        (
            DataType::Timestamp(TimeUnit::Second, None),
            Cell::Int64(0),
            vec![0x12, 0, 0, 0, 0, 0, 0, 0, 0, 0],
        ),
        (
            DataType::Timestamp(TimeUnit::Second, Some("UTC".into())),
            Cell::Int64(0),
            vec![0x12, 0, 0x55, 0x54, 0x43, 0, 0, 0, 0, 0, 0, 0, 0],
        ),
        (
            DataType::Decimal128(10, -2),
            Cell::Int128(1),
            vec![0x13, 10, 0xFE, 1, 0, 0, 0, 0, 0, 0, 0, 0, 0, 0, 0, 0, 0, 0, 0],
        ),
    ];
    for (t, cell, preimage) in cases {
        assert_eq!(one(t.clone(), Some(cell)), expected(&preimage), "{t:?}");
        let null_preimage: Vec<u8> = match &t {
            DataType::Boolean
            | DataType::Int8
            | DataType::UInt8
            | DataType::Utf8
            | DataType::LargeUtf8
            | DataType::Binary
            | DataType::LargeBinary => vec![0, preimage[0]],
            DataType::Time32(_) | DataType::Time64(_) => vec![preimage[0], preimage[1], 0],
            DataType::Timestamp(_, None) => vec![preimage[0], preimage[1], 0],
            DataType::Timestamp(_, Some(_)) => vec![0x12, 0, 0x55, 0x54, 0x43, 0],
            DataType::Decimal128(_, _) => vec![0x13, 10, 0xFE, 0],
            _ => vec![preimage[0], 0],
        };
        assert_eq!(one(t, None), expected(&null_preimage));
    }
}

#[test]
fn decimal256_is_tagged_with_precision_and_scale() {
    let mut preimage = vec![0x14, 40, 3];
    preimage.extend([9u8; 32]);
    assert_eq!(
        one(DataType::Decimal256(40, 3), Some(Cell::Bytes(vec![9; 32]))),
        expected(&preimage)
    );
}

#[test]
fn every_nan_hashes_alike() {
    let quiet = one(DataType::Float64, double(f64::NAN));
    assert_eq!(
        one(DataType::Float64, Some(Cell::Float64(0xFFF0_0000_0000_0001))),
        quiet
    );
    assert_eq!(
        one(DataType::Float32, Some(Cell::Float32(0xFF80_0001))),
        one(DataType::Float32, Some(Cell::Float32(f32::NAN.to_bits())))
    );
    assert_eq!(
        one(DataType::Float32, Some(Cell::Float32(0x8000_0000))),
        one(DataType::Float32, Some(Cell::Float32(0)))
    );
}

#[test]
fn units_zones_and_scales_change_the_hash() {
    let utc = DataType::Timestamp(TimeUnit::Second, Some("UTC".into()));
    let naive = DataType::Timestamp(TimeUnit::Second, None);
    assert_ne!(
        one(utc, Some(Cell::Int64(5))),
        one(naive.clone(), Some(Cell::Int64(5)))
    );
    let millis = DataType::Timestamp(TimeUnit::Millisecond, None);
    assert_ne!(
        one(millis, Some(Cell::Int64(5))),
        one(naive, Some(Cell::Int64(5)))
    );
    assert_ne!(
        one(DataType::Decimal128(10, 2), Some(Cell::Int128(5))),
        one(DataType::Decimal128(10, 3), Some(Cell::Int128(5)))
    );
}

#[test]
fn rows_fold_columns_in_order() {
    let b = batch();
    let h = hash_batch(&b, &["id", "name"], HashVersion::V1).unwrap();
    let id = xxh3_64_with_seed(&[5, 2, 0, 0, 0, 0, 0, 0, 0], SEED);
    let name = xxh3_64_with_seed(&[0, 0x0C], SEED);
    assert_eq!(h[1], combine(combine(SEED, id), name));
}

#[test]
fn combining_follows_its_formula() {
    assert_eq!(combine(0, 0), 0x9E37_79B9_7F4A_7C15);
    let acc: u64 = 0x0123_4567_89AB_CDEF;
    let sum = 7u64
        .wrapping_add(0x9E37_79B9_7F4A_7C15)
        .wrapping_add(acc << 6)
        .wrapping_add(acc >> 2);
    assert_eq!(combine(acc, 7), acc ^ sum);
    assert_ne!(combine(acc, 7), combine(acc, 8));
}

#[test]
fn all_columns_are_hashed_in_schema_order() {
    let b = batch();
    assert_eq!(
        hash_batch_all_columns(&b, HashVersion::CURRENT).unwrap(),
        hash_batch(&b, &["id", "name", "score"], HashVersion::CURRENT).unwrap()
    );
}

#[test]
fn unlisted_columns_do_not_matter() {
    let b = batch();
    let fewer = table(vec![("name", true, b.column(1).clone())]);
    assert_eq!(
        hash_batch(&b, &["name"], HashVersion::CURRENT).unwrap(),
        hash_batch(&fewer, &["name"], HashVersion::CURRENT).unwrap()
    );
}

#[test]
fn no_columns_leave_the_seed() {
    let b = batch();
    assert_eq!(
        hash_batch(&b, &[], HashVersion::CURRENT).unwrap(),
        vec![SEED; 3]
    );
}

#[test]
fn errors_name_the_first_offender() {
    let b = table(vec![
        (
            "list",
            true,
            column(DataType::Other("List(Int64)".into()), vec![]),
        ),
        (
            "time",
            true,
            column(DataType::Time32(TimeUnit::Nanosecond), vec![]),
        ),
    ]);
    let out = hash_batch(&b, &["list", "absent", "gone"], HashVersion::CURRENT);
    assert!(matches!(out, Err(Error::UnknownColumn(c)) if c == "absent"));
    let out = hash_batch(&b, &["time", "list"], HashVersion::CURRENT);
    let shown = arrow_schema::DataType::Time32(arrow_schema::TimeUnit::Nanosecond).to_string();
    assert!(matches!(out, Err(Error::UnsupportedType(t)) if t == shown));
    let out = hash_batch_all_columns(&b, HashVersion::CURRENT);
    assert!(matches!(out, Err(Error::UnsupportedType(t)) if t == "List(Int64)"));
}

#[test]
fn fingerprints_add_up() {
    assert_eq!(table_fingerprint(&vec![], HashVersion::CURRENT), SEED);
    let (a, b) = (vec![u64::MAX, 5], vec![77]);
    let whole = vec![u64::MAX, 5, 77];
    assert_eq!(
        table_fingerprint(&whole, HashVersion::CURRENT),
        table_fingerprint(&a, HashVersion::CURRENT)
            .wrapping_add(table_fingerprint(&b, HashVersion::CURRENT))
            .wrapping_sub(SEED)
    );
    assert_eq!(
        table_fingerprint(&whole, HashVersion::CURRENT),
        SEED.wrapping_add(u64::MAX).wrapping_add(82)
    );
}

#[test]
fn hash_version_names_round_trip() {
    assert_eq!(HashVersion::CURRENT.as_str(), "v1");
    assert_eq!(HashVersion::parse("v1"), Some(HashVersion::V1));
    assert_eq!(HashVersion::parse("V1"), None);
    assert_eq!(HashVersion::default(), HashVersion::CURRENT);
    assert_eq!(HashVersion::V1.seed(), SEED);
}

#[test]
fn unknown_version_is_quoted() {
    assert_eq!(parse_version("v1"), Ok(HashVersion::V1));
    assert_eq!(
        parse_version("v\"2"),
        Err("unknown hash version \"v\\\"2\"".to_string())
    );
}
