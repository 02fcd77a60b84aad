//! Composite row hashing.
//!
//! Fingerprints one or more columns of a batch into a single `u64` per row. The algorithm
//! is versioned ([`HashVersion`]): a fingerprint computed today stays reproducible, and an
//! improvement is a new version. A value hashes its type's key followed by its bytes, with
//! floats brought to one `NaN` and one zero first. A null hashes its type's key and a zero byte
//! behind it. Where that is what a value hashes, as `false` does, the zero byte stands in front:
//! no key starts with one, so a null hashes apart from every value of its column.

use crate::batch::{
    first_unknown, lemma_known_names, resolve_indices, texts, BatchView, RecordBatch,
};
use crate::bytes::{lemma_byte_spans, lemma_le_bytes_len, twos_complement};
use crate::column::{
    cell_bytes, fits, fits_or_null, lemma_cell_bytes_injective, Cell, CellView, Column, ColumnView,
};
use crate::error::{same_outcome, Error, ErrorView};
use crate::rows::{first_where, lemma_first_where, lemma_first_where_is};
use crate::schema::{
    display_name, index_of, is_index_of, lemma_index_of, names_are_distinct, DataType,
    DataTypeView, FieldView, TimeUnit,
};
use crate::text::{debug_text, lemma_utf8_injective, quoted, text_eq};
use vstd::arithmetic::div_mod::lemma_fundamental_div_mod_converse;
use vstd::prelude::*;
use vstd::string::{StrSliceExecFns, StringExecFns};
use vstd::utf8::encode_utf8;
use xxhash_rust::xxh3::Xxh3;

verus! {

/// Names one exact, frozen hashing algorithm.
#[derive(Debug, Clone, Copy, PartialEq, Eq, Structural, Hash)]
pub enum HashVersion {
    V1,
}

/// The seed of a version, frozen with it.
pub open spec fn seed_of(version: HashVersion) -> u64 {
    match version {
        HashVersion::V1 => 0x9E37_79B9_7F4A_7C15,
    }
}

/// The stable name of a version.
pub open spec fn hash_version_name(version: HashVersion) -> Seq<char> {
    match version {
        HashVersion::V1 => "v1"@,
    }
}

/// The version of a stable name.
pub open spec fn hash_version_named(name: Seq<char>) -> Option<HashVersion> {
    if name == "v1"@ {
        Some(HashVersion::V1)
    } else {
        None
    }
}

impl HashVersion {
    /// The version used where a caller does not pin one.
    pub const CURRENT: HashVersion = HashVersion::V1;

    /// The version's stable name.
    pub fn as_str(self) -> (s: &'static str)
        ensures
            s@ == hash_version_name(self),
    {
        match self {
            HashVersion::V1 => "v1",
        }
    }

    /// The version of a stable name.
    pub fn parse(s: &str) -> (r: Option<Self>)
        ensures
            r == hash_version_named(s@),
    {
        if text_eq(s, "v1") {
            Some(HashVersion::V1)
        } else {
            None
        }
    }

    /// The version's seed.
    pub fn seed(self) -> (r: u64)
        ensures
            r == seed_of(self),
    {
        match self {
            HashVersion::V1 => 0x9E37_79B9_7F4A_7C15,
        }
    }
}

/// The version of a name, or the words for a name that has none.
pub fn parse_version(name: &str) -> (r: Result<HashVersion, String>)
    ensures
        match (r, hash_version_named(name@)) {
            (Ok(v), Some(version)) => v == version,
            (Err(words), None) => words@ == "unknown hash version "@ + debug_text(name@),
            _ => false,
        },
{
    match HashVersion::parse(name) {
        Some(version) => Ok(version),
        None => {
            let mut words = "unknown hash version ".to_owned();
            words.append(quoted(name).as_str());
            Err(words)
        },
    }
}

impl Default for HashVersion {
    fn default() -> (r: Self)
        ensures
            r == HashVersion::CURRENT,
    {
        HashVersion::CURRENT
    }
}

/// The bits of a 32-bit float with every `NaN` brought to one and the negative zero to zero.
pub open spec fn canonical_f32(bits: u32) -> u32 {
    let magnitude = bits as int % 0x8000_0000;
    if magnitude > 0x7F80_0000 {
        0x7FC0_0000
    } else if magnitude == 0 {
        0
    } else {
        bits
    }
}

/// The bits of a 64-bit float with every `NaN` brought to one and the negative zero to zero.
pub open spec fn canonical_f64(bits: u64) -> u64 {
    let magnitude = bits as int % 0x8000_0000_0000_0000;
    if magnitude > 0x7FF0_0000_0000_0000 {
        0x7FF8_0000_0000_0000
    } else if magnitude == 0 {
        0
    } else {
        bits
    }
}

/// A cell with its float bits, where it has them, in canonical form.
pub open spec fn canonical(c: CellView) -> CellView {
    match c {
        CellView::Float32(bits) => CellView::Float32(canonical_f32(bits)),
        CellView::Float64(bits) => CellView::Float64(canonical_f64(bits)),
        _ => c,
    }
}

/// A cell or null with its float bits in canonical form.
pub open spec fn canonical_or_null(c: Option<CellView>) -> Option<CellView> {
    match c {
        Some(v) => Some(canonical(v)),
        None => None,
    }
}

/// The byte that stands for a unit in a type's key.
pub open spec fn unit_byte(unit: TimeUnit) -> u8 {
    match unit {
        TimeUnit::Second => 0,
        TimeUnit::Millisecond => 1,
        TimeUnit::Microsecond => 2,
        TimeUnit::Nanosecond => 3,
    }
}

/// The bytes that stand for a type in front of a value: a tag, and the parameters that change
/// what a value means. A type without a key has no defined hash.
pub open spec fn type_key(t: DataTypeView) -> Option<Seq<u8>> {
    match t {
        DataTypeView::Boolean => Some(seq![0x01u8]),
        DataTypeView::Int8 => Some(seq![0x02u8]),
        DataTypeView::Int16 => Some(seq![0x03u8]),
        DataTypeView::Int32 => Some(seq![0x04u8]),
        DataTypeView::Int64 => Some(seq![0x05u8]),
        DataTypeView::UInt8 => Some(seq![0x06u8]),
        DataTypeView::UInt16 => Some(seq![0x07u8]),
        DataTypeView::UInt32 => Some(seq![0x08u8]),
        DataTypeView::UInt64 => Some(seq![0x09u8]),
        DataTypeView::Float32 => Some(seq![0x0Au8]),
        DataTypeView::Float64 => Some(seq![0x0Bu8]),
        DataTypeView::Utf8 => Some(seq![0x0Cu8]),
        DataTypeView::LargeUtf8 => Some(seq![0x0Cu8]),
        DataTypeView::Binary => Some(seq![0x0Du8]),
        DataTypeView::LargeBinary => Some(seq![0x0Du8]),
        DataTypeView::Date32 => Some(seq![0x0Eu8]),
        DataTypeView::Date64 => Some(seq![0x0Fu8]),
        DataTypeView::Time32(TimeUnit::Second) => Some(seq![0x10u8, 0u8]),
        DataTypeView::Time32(TimeUnit::Millisecond) => Some(seq![0x10u8, 1u8]),
        DataTypeView::Time64(TimeUnit::Microsecond) => Some(seq![0x11u8, 2u8]),
        DataTypeView::Time64(TimeUnit::Nanosecond) => Some(seq![0x11u8, 3u8]),
        DataTypeView::Timestamp(unit, None) => Some(seq![0x12u8, unit_byte(unit)]),
        DataTypeView::Timestamp(unit, Some(zone)) => Some(
            seq![0x12u8, unit_byte(unit)] + encode_utf8(zone),
        ),
        DataTypeView::Decimal128(precision, scale) => Some(
            seq![0x13u8, precision, twos_complement(scale as int, 1) as u8],
        ),
        DataTypeView::Decimal256(precision, scale) => Some(
            seq![0x14u8, precision, twos_complement(scale as int, 1) as u8],
        ),
        _ => None,
    }
}

/// Whether some value of a type, told by the tag that its key starts with, has a single zero byte
/// for its bytes: booleans, integers of eight bits, texts and binary values do.
pub open spec fn has_zero_byte(tag: u8) -> bool {
    tag == 0x01 || tag == 0x02 || tag == 0x06 || tag == 0x0C || tag == 0x0D
}

/// What is hashed for a null of the type with the given key: the key and a zero byte, which stands
/// in front of the key where behind it some value's byte could stand.
pub open spec fn null_preimage(key: Seq<u8>) -> Seq<u8> {
    if key.len() > 0 && has_zero_byte(key[0]) {
        seq![0u8] + key
    } else {
        key + seq![0u8]
    }
}

/// What is hashed for a cell of a type: for a value the type's key and the value's bytes, for a
/// null the key and a zero byte.
pub open spec fn cell_preimage(t: DataTypeView, c: Option<CellView>) -> Seq<u8> {
    match c {
        Some(v) => type_key(t)->0 + cell_bytes(canonical(v)),
        None => null_preimage(type_key(t)->0),
    }
}

/// The XXH3 hash, of 64 bits, of bytes under a seed.
pub uninterp spec fn xxh3(seed: u64, bytes: Seq<u8>) -> u64;

/// Calls `xxhash_rust::xxh3::Xxh3`: `with_seed`, one `update` with the bytes, and `digest`.
/// Claims that the digest is a function of the seed and the bytes alone.
#[verifier::external_body]
pub(crate) fn xxh3_hash(seed: u64, bytes: &[u8]) -> (r: u64)
    ensures
        r == xxh3(seed, bytes@),
{
    let mut hasher = Xxh3::with_seed(seed);
    hasher.update(bytes);
    hasher.digest()
}

/// Folds a column's hash into a row's, so that the order of the columns matters.
pub open spec fn combined(acc: u64, value: u64) -> u64 {
    acc ^ value.wrapping_add(0x9E37_79B9_7F4A_7C15).wrapping_add(acc << 6u64).wrapping_add(
        acc >> 2u64,
    )
}

/// The hash of a cell of a type.
pub open spec fn cell_hash(version: HashVersion, t: DataTypeView, c: Option<CellView>) -> u64 {
    xxh3(seed_of(version), cell_preimage(t, c))
}

/// The hash of a row over columns, in their order.
pub open spec fn row_hash(version: HashVersion, columns: Seq<ColumnView>, row: int) -> u64
    decreases columns.len(),
{
    if columns.len() == 0 {
        seed_of(version)
    } else {
        let c = columns.last();
        combined(
            row_hash(version, columns.drop_last(), row),
            cell_hash(version, c.data_type, c.cells[row]),
        )
    }
}

/// The hashes of all rows over columns.
pub open spec fn row_hashes(version: HashVersion, columns: Seq<ColumnView>, rows: nat) -> Seq<u64> {
    Seq::new(rows, |i: int| row_hash(version, columns, i))
}

/// The first of the columns whose type has no defined hash.
pub open spec fn first_unhashable(columns: Seq<ColumnView>) -> Option<int> {
    first_where(columns.len(), |i: int| type_key(columns[i].data_type) is None)
}

/// What hashing columns gives: one hash per row, or the first type without a defined hash.
pub open spec fn hash_columns_outcome(
    version: HashVersion,
    columns: Seq<ColumnView>,
    rows: nat,
) -> Result<Seq<u64>, ErrorView> {
    match first_unhashable(columns) {
        Some(i) => Err(ErrorView::UnsupportedType(display_name(columns[i].data_type))),
        None => Ok(row_hashes(version, columns, rows)),
    }
}

/// The columns of the given names, in the order given.
pub open spec fn named_columns(batch: BatchView, names: Seq<Seq<char>>) -> Seq<ColumnView> {
    names.map_values(|name: Seq<char>| batch.column_named(name))
}

/// What [`hash_batch`] gives.
pub open spec fn hash_batch_outcome(
    batch: BatchView,
    names: Seq<Seq<char>>,
    version: HashVersion,
) -> Result<Seq<u64>, ErrorView> {
    match first_unknown(batch.fields, names) {
        Some(i) => Err(ErrorView::UnknownColumn(names[i])),
        None => hash_columns_outcome(version, named_columns(batch, names), batch.rows),
    }
}

fn canonicalize_f32(bits: u32) -> (r: u32)
    ensures
        r == canonical_f32(bits),
{
    let magnitude: u32 = bits % 0x8000_0000;
    if magnitude > 0x7F80_0000 {
        0x7FC0_0000
    } else if magnitude == 0 {
        0
    } else {
        bits
    }
}

fn canonicalize_f64(bits: u64) -> (r: u64)
    ensures
        r == canonical_f64(bits),
{
    let magnitude: u64 = bits % 0x8000_0000_0000_0000;
    if magnitude > 0x7FF0_0000_0000_0000 {
        0x7FF8_0000_0000_0000
    } else if magnitude == 0 {
        0
    } else {
        bits
    }
}

/// The bytes of a cell in canonical form.
pub fn canonical_bytes(c: &Cell) -> (out: Vec<u8>)
    ensures
        out@ == cell_bytes(canonical(c@)),
{
    match c {
        Cell::Float32(bits) => Cell::Float32(canonicalize_f32(*bits)).to_bytes(),
        Cell::Float64(bits) => Cell::Float64(canonicalize_f64(*bits)).to_bytes(),
        _ => c.to_bytes(),
    }
}

fn tag(a: u8) -> (r: Option<Vec<u8>>)
    ensures
        r is Some,
        r->0@ == seq![a],
{
    let mut v: Vec<u8> = Vec::new();
    v.push(a);
    assert(v@ =~= seq![a]);
    Some(v)
}

fn tag_unit(a: u8, unit: TimeUnit) -> (r: Vec<u8>)
    ensures
        r@ == seq![a, unit_byte(unit)],
{
    let mut v: Vec<u8> = Vec::new();
    v.push(a);
    v.push(
        match unit {
            TimeUnit::Second => 0,
            TimeUnit::Millisecond => 1,
            TimeUnit::Microsecond => 2,
            TimeUnit::Nanosecond => 3,
        },
    );
    assert(v@ =~= seq![a, unit_byte(unit)]);
    v
}

fn tag_decimal(a: u8, precision: u8, scale: i8) -> (r: Option<Vec<u8>>)
    ensures
        r is Some,
        r->0@ == seq![a, precision, twos_complement(scale as int, 1) as u8],
{
    proof {
        lemma_byte_spans();
    }
    let low: u8 = if scale < 0 {
        (scale as i16 + 0x100) as u8
    } else {
        scale as u8
    };
    let mut v: Vec<u8> = Vec::new();
    v.push(a);
    v.push(precision);
    v.push(low);
    assert(v@ =~= seq![a, precision, twos_complement(scale as int, 1) as u8]);
    Some(v)
}

/// The key of a type, or `None` where it has no defined hash.
pub fn key_of_type(t: &DataType) -> (r: Option<Vec<u8>>)
    ensures
        match r {
            Some(k) => type_key(t@) == Some(k@),
            None => type_key(t@) is None,
        },
{
    match t {
        DataType::Boolean => tag(0x01),
        DataType::Int8 => tag(0x02),
        DataType::Int16 => tag(0x03),
        DataType::Int32 => tag(0x04),
        DataType::Int64 => tag(0x05),
        DataType::UInt8 => tag(0x06),
        DataType::UInt16 => tag(0x07),
        DataType::UInt32 => tag(0x08),
        DataType::UInt64 => tag(0x09),
        DataType::Float32 => tag(0x0A),
        DataType::Float64 => tag(0x0B),
        DataType::Utf8 => tag(0x0C),
        DataType::LargeUtf8 => tag(0x0C),
        DataType::Binary => tag(0x0D),
        DataType::LargeBinary => tag(0x0D),
        DataType::Date32 => tag(0x0E),
        DataType::Date64 => tag(0x0F),
        DataType::Time32(unit) => match unit {
            TimeUnit::Second | TimeUnit::Millisecond => Some(tag_unit(0x10, *unit)),
            _ => None,
        },
        DataType::Time64(unit) => match unit {
            TimeUnit::Microsecond | TimeUnit::Nanosecond => Some(tag_unit(0x11, *unit)),
            _ => None,
        },
        DataType::Timestamp(unit, None) => Some(tag_unit(0x12, *unit)),
        DataType::Timestamp(unit, Some(zone)) => {
            let mut k = tag_unit(0x12, *unit);
            let mut z = zone.as_str().as_bytes_vec();
            k.append(&mut z);
            Some(k)
        },
        DataType::Decimal128(precision, scale) => tag_decimal(0x13, *precision, *scale),
        DataType::Decimal256(precision, scale) => tag_decimal(0x14, *precision, *scale),
        DataType::Other(_) => None,
    }
}

/// The hash of a value's bytes behind its type's key.
pub fn value_hash(version: HashVersion, key: &Vec<u8>, bytes: &Vec<u8>) -> (r: u64)
    ensures
        r == xxh3(seed_of(version), key@ + bytes@),
{
    let mut all = key.clone();
    let mut rest = bytes.clone();
    assert(all@ =~= key@);
    assert(rest@ =~= bytes@);
    all.append(&mut rest);
    xxh3_hash(version.seed(), all.as_slice())
}

/// The hash of a null of the type with the given key.
pub fn null_hash(version: HashVersion, key: &Vec<u8>) -> (r: u64)
    ensures
        r == xxh3(seed_of(version), null_preimage(key@)),
{
    let mut mark: Vec<u8> = Vec::new();
    mark.push(0x00);
    assert(mark@ =~= seq![0u8]);
    let in_front = key.len() > 0 && match key[0] {
        0x01 | 0x02 | 0x06 | 0x0C | 0x0D => true,
        _ => false,
    };
    if in_front {
        value_hash(version, &mark, key)
    } else {
        value_hash(version, key, &mark)
    }
}

/// Folds a column's hash into a row's, so that the order of the columns matters.
pub fn combine(acc: u64, value: u64) -> (r: u64)
    ensures
        r == combined(acc, value),
{
    acc ^ value.wrapping_add(0x9E37_79B9_7F4A_7C15).wrapping_add(acc << 6u64).wrapping_add(
        acc >> 2u64,
    )
}

/// Folds a column's cell hashes into the rows' hashes.
fn hash_column_into(column: &Column, version: HashVersion, acc: &mut Vec<u64>) -> (r: Result<
    (),
    Error,
>)
    requires
        old(acc)@.len() == column@.cells.len(),
    ensures
        match r {
            Ok(_) => {
                &&& type_key(column@.data_type) is Some
                &&& final(acc)@ == Seq::new(
                    old(acc)@.len(),
                    |i: int|
                        combined(
                            old(acc)@[i],
                            cell_hash(version, column@.data_type, column@.cells[i]),
                        ),
                )
            },
            Err(e) => {
                &&& type_key(column@.data_type) is None
                &&& e@ == ErrorView::UnsupportedType(display_name(column@.data_type))
                &&& final(acc)@ == old(acc)@
            },
        },
{
    let key = match key_of_type(column.data_type()) {
        Some(k) => k,
        None => {
            return Err(Error::unsupported_type(column.data_type().name().as_str()));
        },
    };
    let ghost before = acc@;
    let mut i: usize = 0;
    while i < acc.len()
        invariant
            i <= acc@.len() == before.len() == column@.cells.len(),
            type_key(column@.data_type) == Some(key@),
            forall|j: int| i <= j < before.len() ==> acc@[j] == before[j],
            forall|j: int|
                0 <= j < i ==> #[trigger] acc@[j] == combined(
                    before[j],
                    cell_hash(version, column@.data_type, column@.cells[j]),
                ),
        decreases before.len() - i,
    {
        let h = match column.cell(i) {
            Some(c) => value_hash(version, &key, &canonical_bytes(c)),
            None => null_hash(version, &key),
        };
        assert(h == cell_hash(version, column@.data_type, column@.cells[i as int]));
        let slot = acc[i];
        acc.set(i, combine(slot, h));
        i += 1;
    }
    assert(acc@ =~= Seq::new(
        before.len(),
        |i: int|
            combined(before[i], cell_hash(version, column@.data_type, column@.cells[i])),
    ));
    Ok(())
}

fn seeds(version: HashVersion, rows: usize) -> (acc: Vec<u64>)
    ensures
        acc@ == row_hashes(version, Seq::empty(), rows as nat),
{
    let mut acc: Vec<u64> = Vec::new();
    let mut i: usize = 0;
    while i < rows
        invariant
            i <= rows,
            acc@.len() == i,
            forall|j: int| 0 <= j < i ==> acc@[j] == seed_of(version),
        decreases rows - i,
    {
        acc.push(version.seed());
        i += 1;
    }
    assert(acc@ =~= row_hashes(version, Seq::empty(), rows as nat));
    acc
}

/// Fingerprints the given columns, in the given order, into one `u64` per row. Columns not
/// listed do not affect the result.
///
/// Fails with `UnknownColumn` for the first name that the schema does not have, and then with
/// `UnsupportedType` for the first listed column whose type has no defined hash.
pub fn hash_batch(batch: &RecordBatch, columns: &[&str], version: HashVersion) -> (r: Result<
    Vec<u64>,
    Error,
>)
    ensures
        same_outcome(r, hash_batch_outcome(batch@, texts(columns@), version)),
{
    let indices = match resolve_indices(batch.schema(), columns) {
        Ok(v) => v,
        Err(e) => {
            return Err(e);
        },
    };
    let rows = batch.num_rows();
    let ghost cs = named_columns(batch@, texts(columns@));
    let ghost p = |i: int| type_key(cs[i].data_type) is None;
    let mut acc = seeds(version, rows);
    let mut k: usize = 0;
    assert(cs.take(0) =~= Seq::empty());
    while k < indices.len()
        invariant
            k <= indices@.len() == columns@.len() == cs.len(),
            rows == batch@.rows,
            batch@.wf(),
            first_unknown(batch@.fields, texts(columns@)) is None,
            cs == named_columns(batch@, texts(columns@)),
            p == (|i: int| type_key(cs[i].data_type) is None),
            forall|i: int|
                0 <= i < indices@.len() ==> {
                    &&& (#[trigger] indices@[i]) < batch@.fields.len()
                    &&& index_of(batch@.fields, columns@[i]@) == Some(indices@[i] as int)
                },
            forall|j: int| 0 <= j < k ==> !#[trigger] p(j),
            acc@ == row_hashes(version, cs.take(k as int), rows as nat),
        decreases indices@.len() - k,
    {
        let column = batch.column(indices[k]);
        assert(texts(columns@)[k as int] == columns@[k as int]@);
        assert(cs[k as int] == column@);
        let ghost before = acc@;
        match hash_column_into(column, version, &mut acc) {
            Ok(_) => {},
            Err(e) => {
                proof {
                    lemma_first_where_is(cs.len(), p, k as int);
                }
                return Err(e);
            },
        }
        proof {
            let done = cs.take(k as int + 1);
            assert(done.drop_last() =~= cs.take(k as int));
            assert(done.last() == cs[k as int]);
            assert(acc@ =~= row_hashes(version, done, rows as nat));
            assert(!p(k as int));
        }
        k += 1;
    }
    proof {
        lemma_first_where(cs.len(), p);
        assert(cs.take(k as int) =~= cs);
    }
    Ok(acc)
}

/// [`hash_batch`] over every column of the batch, in schema order.
pub fn hash_batch_all_columns(batch: &RecordBatch, version: HashVersion) -> (r: Result<
    Vec<u64>,
    Error,
>)
    ensures
        same_outcome(r, hash_columns_outcome(version, batch@.columns, batch@.rows)),
{
    let rows = batch.num_rows();
    let ghost cs = batch@.columns;
    let ghost p = |i: int| type_key(cs[i].data_type) is None;
    let mut acc = seeds(version, rows);
    let mut k: usize = 0;
    assert(cs.take(0) =~= Seq::empty());
    while k < batch.num_columns()
        invariant
            k <= cs.len(),
            rows == batch@.rows,
            batch@.wf(),
            cs == batch@.columns,
            p == (|i: int| type_key(cs[i].data_type) is None),
            forall|j: int| 0 <= j < k ==> !#[trigger] p(j),
            acc@ == row_hashes(version, cs.take(k as int), rows as nat),
        decreases cs.len() - k,
    {
        match hash_column_into(batch.column(k), version, &mut acc) {
            Ok(_) => {},
            Err(e) => {
                proof {
                    lemma_first_where_is(cs.len(), p, k as int);
                }
                return Err(e);
            },
        }
        proof {
            let done = cs.take(k as int + 1);
            assert(done.drop_last() =~= cs.take(k as int));
            assert(done.last() == cs[k as int]);
            assert(acc@ =~= row_hashes(version, done, rows as nat));
            assert(!p(k as int));
        }
        k += 1;
    }
    proof {
        lemma_first_where(cs.len(), p);
        assert(cs.take(k as int) =~= cs);
    }
    Ok(acc)
}

/// The sum of hashes.
pub open spec fn hash_sum(hashes: Seq<u64>) -> int
    decreases hashes.len(),
{
    if hashes.len() == 0 {
        0
    } else {
        hash_sum(hashes.drop_last()) + hashes.last()
    }
}

/// The seed plus the sum of the row hashes, within 64 bits.
pub open spec fn table_hash(hashes: Seq<u64>, version: HashVersion) -> u64 {
    ((seed_of(version) + hash_sum(hashes)) % 0x1_0000_0000_0000_0000) as u64
}

/// Order-independent aggregate of row fingerprints: two batches with the same rows in a
/// different order have the same table fingerprint.
pub fn table_fingerprint(row_hashes: &Vec<u64>, version: HashVersion) -> (r: u64)
    ensures
        r == table_hash(row_hashes@, version),
{
    let mut acc: u64 = version.seed();
    let mut i: usize = 0;
    assert(row_hashes@.take(0) =~= Seq::empty());
    while i < row_hashes.len()
        invariant
            i <= row_hashes@.len(),
            acc == table_hash(row_hashes@.take(i as int), version),
        decreases row_hashes@.len() - i,
    {
        let h = row_hashes[i];
        let ghost before = row_hashes@.take(i as int);
        let ghost after = row_hashes@.take(i as int + 1);
        assert(after.drop_last() =~= before);
        assert(after.last() == h);
        proof {
            lemma_wrapping_step(seed_of(version) + hash_sum(before), acc, h);
        }
        acc = acc.wrapping_add(h);
        i += 1;
    }
    assert(row_hashes@.take(i as int) =~= row_hashes@);
    acc
}

proof fn lemma_wrapping_step(total: int, acc: u64, h: u64)
    requires
        acc == (total % 0x1_0000_0000_0000_0000) as u64,
    ensures
        acc.wrapping_add(h) == ((total + h) % 0x1_0000_0000_0000_0000) as u64,
{
}

/// A version is found again by its name.
pub proof fn law_hash_version_names(version: HashVersion)
    ensures
        hash_version_named(hash_version_name(version)) == Some(version),
{
}

/// Columns that are not listed do not affect the result.
pub proof fn law_only_listed_columns_matter(
    a: BatchView,
    b: BatchView,
    names: Seq<Seq<char>>,
    version: HashVersion,
)
    requires
        a.rows == b.rows,
        first_unknown(a.fields, names) is None,
        first_unknown(b.fields, names) is None,
        forall|i: int|
            0 <= i < names.len() ==> a.column_named(#[trigger] names[i]) == b.column_named(
                names[i],
            ),
    ensures
        hash_batch_outcome(a, names, version) == hash_batch_outcome(b, names, version),
{
    assert(named_columns(a, names) =~= named_columns(b, names));
}

/// The names of a batch's columns.
pub open spec fn column_names(batch: BatchView) -> Seq<Seq<char>> {
    batch.fields.map_values(|f: FieldView| f.name)
}

/// Where no name repeats, hashing all columns is hashing those of all names.
pub proof fn law_all_columns_are_all_names(batch: BatchView, version: HashVersion)
    requires
        batch.wf(),
        names_are_distinct(batch.fields),
    ensures
        hash_batch_outcome(batch, column_names(batch), version) == hash_columns_outcome(
            version,
            batch.columns,
            batch.rows,
        ),
{
    let names = column_names(batch);
    assert forall|i: int| 0 <= i < names.len() implies index_of(batch.fields, #[trigger] names[i])
        == Some(i) by {
        assert(is_index_of(batch.fields, names[i], i));
        lemma_index_of(batch.fields, names[i], i);
    }
    lemma_first_where(names.len(), |i: int| index_of(batch.fields, names[i]) is None);
    assert(named_columns(batch, names) =~= batch.columns);
}

/// Within a row so far, different column hashes give different row hashes.
pub proof fn law_combine_tells_values_apart(acc: u64, a: u64, b: u64)
    requires
        combined(acc, a) == combined(acc, b),
    ensures
        a == b,
{
    let x = a.wrapping_add(0x9E37_79B9_7F4A_7C15).wrapping_add(acc << 6u64).wrapping_add(
        acc >> 2u64,
    );
    let y = b.wrapping_add(0x9E37_79B9_7F4A_7C15).wrapping_add(acc << 6u64).wrapping_add(
        acc >> 2u64,
    );
    assert(acc ^ x == acc ^ y ==> x == y) by (bit_vector);
}

/// Within a type, values are told apart by what is hashed for them, but for the floats that
/// count as equal.
pub proof fn law_values_are_told_apart(t: DataTypeView, a: CellView, b: CellView)
    requires
        type_key(t) is Some,
        fits(t, a),
        fits(t, b),
    ensures
        cell_preimage(t, Some(a)) == cell_preimage(t, Some(b)) <==> canonical(a) == canonical(b),
{
    let key = type_key(t)->0;
    let (x, y) = (cell_bytes(canonical(a)), cell_bytes(canonical(b)));
    if key + x == key + y {
        assert(x =~= (key + x).skip(key.len() as int));
        assert(y =~= (key + y).skip(key.len() as int));
        lemma_cell_bytes_injective(t, canonical(a), canonical(b));
    }
}

/// Within a type, a null is told apart from every value.
pub proof fn law_nulls_are_told_apart(t: DataTypeView, a: CellView)
    requires
        type_key(t) is Some,
        fits(t, a),
    ensures
        cell_preimage(t, Some(a)) != cell_preimage(t, None),
{
    let key = type_key(t)->0;
    let x = cell_bytes(canonical(a));
    if has_zero_byte(key[0]) {
        assert(cell_preimage(t, Some(a))[0] == key[0]);
        assert(cell_preimage(t, None)[0] == 0);
    } else {
        lemma_cell_is_wide(t, a);
        assert(cell_preimage(t, Some(a)).len() == key.len() + x.len());
        assert(cell_preimage(t, None).len() == key.len() + 1);
    }
}

/// The values of the other types have more than one byte.
proof fn lemma_cell_is_wide(t: DataTypeView, a: CellView)
    requires
        type_key(t) is Some,
        fits(t, a),
        !has_zero_byte(type_key(t)->0[0]),
    ensures
        cell_bytes(canonical(a)).len() > 1,
{
    match canonical(a) {
        CellView::Int16(v) => lemma_le_bytes_len(twos_complement(v as int, 2), 2),
        CellView::Int32(v) => lemma_le_bytes_len(twos_complement(v as int, 4), 4),
        CellView::Int64(v) => lemma_le_bytes_len(twos_complement(v as int, 8), 8),
        CellView::Int128(v) => lemma_le_bytes_len(twos_complement(v as int, 16), 16),
        CellView::UInt16(v) => lemma_le_bytes_len(v as nat, 2),
        CellView::UInt32(v) => lemma_le_bytes_len(v as nat, 4),
        CellView::UInt64(v) => lemma_le_bytes_len(v as nat, 8),
        CellView::Float32(v) => lemma_le_bytes_len(v as nat, 4),
        CellView::Float64(v) => lemma_le_bytes_len(v as nat, 8),
        _ => {},
    }
}

/// Cells of types with different tags, nulls among them, are told apart by what is hashed for
/// them.
pub proof fn law_tags_tell_types_apart(
    t: DataTypeView,
    u: DataTypeView,
    a: Option<CellView>,
    b: Option<CellView>,
)
    requires
        type_key(t) is Some,
        type_key(u) is Some,
        type_key(t)->0[0] != type_key(u)->0[0],
    ensures
        cell_preimage(t, a) != cell_preimage(u, b),
{
    lemma_preimage_start(t, a);
    lemma_preimage_start(u, b);
}

/// What is hashed starts with the type's tag, or with a zero byte and the tag.
proof fn lemma_preimage_start(t: DataTypeView, a: Option<CellView>)
    requires
        type_key(t) is Some,
    ensures
        type_key(t)->0.len() > 0,
        type_key(t)->0[0] != 0,
        cell_preimage(t, a)[0] == type_key(t)->0[0] || {
            &&& cell_preimage(t, a)[0] == 0
            &&& cell_preimage(t, a)[1] == type_key(t)->0[0]
        },
{
}

/// Whether two types are timestamps that differ only in that one has no zone and the other an
/// empty one.
pub open spec fn differ_by_empty_zone(t: DataTypeView, u: DataTypeView) -> bool {
    match (t, u) {
        (DataTypeView::Timestamp(a, None), DataTypeView::Timestamp(b, Some(z))) => a == b
            && z.len() == 0,
        (DataTypeView::Timestamp(a, Some(z)), DataTypeView::Timestamp(b, None)) => a == b
            && z.len() == 0,
        _ => false,
    }
}

/// Times and timestamps of different units, and decimals of different precision or scale, have
/// different keys, and so does a timestamp with a zone from one without or with another, unless
/// the zone is empty.
pub proof fn law_parameters_tell_types_apart(t: DataTypeView, u: DataTypeView)
    requires
        type_key(t) is Some,
        type_key(u) is Some,
        t is Time32 || t is Time64 || t is Timestamp || t is Decimal128 || t is Decimal256,
        t != u,
        !differ_by_empty_zone(t, u),
    ensures
        type_key(t) != type_key(u),
{
    let (k, l) = (type_key(t)->0, type_key(u)->0);
    lemma_byte_spans();
    if k == l {
        assert(k[0] == l[0]);
        assert(k[1] == l[1]);
        match (t, u) {
            (DataTypeView::Timestamp(_, zone_t), DataTypeView::Timestamp(_, zone_u)) => {
                let (x, y) = (k.skip(2), l.skip(2));
                match (zone_t, zone_u) {
                    (Some(z), Some(w)) => {
                        assert(x =~= encode_utf8(z));
                        assert(y =~= encode_utf8(w));
                        lemma_utf8_injective(z, w);
                    },
                    (Some(z), None) => {
                        assert(k.len() == 2 + encode_utf8(z).len());
                        assert(encode_utf8(z) =~= encode_utf8(Seq::empty()));
                        lemma_utf8_injective(z, Seq::empty());
                    },
                    (None, Some(w)) => {
                        assert(l.len() == 2 + encode_utf8(w).len());
                        assert(encode_utf8(w) =~= encode_utf8(Seq::empty()));
                        lemma_utf8_injective(w, Seq::empty());
                    },
                    (None, None) => {},
                }
            },
            (DataTypeView::Decimal128(_, s), DataTypeView::Decimal128(_, r)) => {
                assert(k[2] == l[2]);
            },
            (DataTypeView::Decimal256(_, s), DataTypeView::Decimal256(_, r)) => {
                assert(k[2] == l[2]);
            },
            _ => {},
        }
    }
}

/// Whether two types are timestamps of one unit.
pub open spec fn are_timestamps_of_one_unit(t: DataTypeView, u: DataTypeView) -> bool {
    match (t, u) {
        (DataTypeView::Timestamp(a, _), DataTypeView::Timestamp(b, _)) => a == b,
        _ => false,
    }
}

/// Cells of such types are told apart by what is hashed for them, whatever they hold: values from
/// values, nulls from nulls, and nulls from values but for timestamps that differ in their zones
/// alone.
pub proof fn law_parameters_tell_cells_apart(
    t: DataTypeView,
    u: DataTypeView,
    a: Option<CellView>,
    b: Option<CellView>,
)
    requires
        type_key(t) is Some,
        type_key(u) is Some,
        t is Time32 || t is Time64 || t is Timestamp || t is Decimal128 || t is Decimal256,
        t != u,
        !differ_by_empty_zone(t, u),
        fits_or_null(t, a),
        fits_or_null(u, b),
        (a is None) == (b is None) || !are_timestamps_of_one_unit(t, u),
    ensures
        cell_preimage(t, a) != cell_preimage(u, b),
{
    let (k, l) = (type_key(t)->0, type_key(u)->0);
    let (x, y) = (cell_preimage(t, a), cell_preimage(u, b));
    law_parameters_tell_types_apart(t, u);
    if k[0] != l[0] {
        law_tags_tell_types_apart(t, u, a, b);
    } else {
        match (a, b) {
            (None, None) => {
                assert(x.drop_last() =~= k);
                assert(y.drop_last() =~= l);
            },
            (Some(v), Some(w)) => {
                if x == y {
                    let (p, q) = (cell_bytes(canonical(v)), cell_bytes(canonical(w)));
                    assert(x.len() == k.len() + p.len());
                    assert(y.len() == l.len() + q.len());
                    if t is Timestamp {
                        assert(u is Timestamp);
                        assert(v is Int64 && w is Int64);
                        lemma_le_bytes_len(twos_complement(v->Int64_0 as int, 8), 8);
                        lemma_le_bytes_len(twos_complement(w->Int64_0 as int, 8), 8);
                        assert(p.len() == 8 && q.len() == 8);
                    } else if t is Time32 || t is Time64 {
                        assert(k.len() == 2 && l.len() == 2);
                    } else {
                        assert(k.len() == 3 && l.len() == 3);
                    }
                    assert(k.len() == l.len());
                    assert(x.take(k.len() as int) =~= k);
                    assert(y.take(k.len() as int) =~= l);
                }
            },
            (Some(v), None) => {
                lemma_cell_is_wide(t, v);
                assert(x[1] == k[1] && y[1] == l[1]);
            },
            (None, Some(w)) => {
                lemma_cell_is_wide(u, w);
                assert(x[1] == k[1] && y[1] == l[1]);
            },
        }
    }
}

/// Any two `NaN`s are hashed alike, and so are the two zeros.
pub proof fn law_equal_floats_are_hashed_alike(a: u64, b: u64, x: u32, y: u32)
    ensures
        crate::float::is_nan(a) && crate::float::is_nan(b) ==> cell_preimage(
            DataTypeView::Float64,
            Some(CellView::Float64(a)),
        ) == cell_preimage(DataTypeView::Float64, Some(CellView::Float64(b))),
        cell_preimage(
            DataTypeView::Float64,
            Some(CellView::Float64(0x8000_0000_0000_0000)),
        ) == cell_preimage(DataTypeView::Float64, Some(CellView::Float64(0))),
        x as int % 0x8000_0000 > 0x7F80_0000 && y as int % 0x8000_0000 > 0x7F80_0000
            ==> cell_preimage(DataTypeView::Float32, Some(CellView::Float32(x))) == cell_preimage(
            DataTypeView::Float32,
            Some(CellView::Float32(y)),
        ),
        cell_preimage(DataTypeView::Float32, Some(CellView::Float32(0x8000_0000)))
            == cell_preimage(DataTypeView::Float32, Some(CellView::Float32(0))),
{
}

/// Rows with the same cells in columns of the same types have the same hash.
proof fn lemma_same_row_hash(
    version: HashVersion,
    a: Seq<ColumnView>,
    i: int,
    b: Seq<ColumnView>,
    j: int,
)
    requires
        a.len() == b.len(),
        forall|c: int|
            0 <= c < a.len() ==> (#[trigger] a[c]).data_type == b[c].data_type && a[c].cells[i]
                == b[c].cells[j],
    ensures
        row_hash(version, a, i) == row_hash(version, b, j),
    decreases a.len(),
{
    if a.len() > 0 {
        assert forall|c: int| 0 <= c < a.len() - 1 implies (
        #[trigger] a.drop_last()[c]).data_type == b.drop_last()[c].data_type
            && a.drop_last()[c].cells[i] == b.drop_last()[c].cells[j] by {
            assert(a.drop_last()[c] == a[c]);
        }
        lemma_same_row_hash(version, a.drop_last(), i, b.drop_last(), j);
        assert(a[a.len() - 1] == a.last());
    }
}

/// A row's hash is its own, whatever rows it stands among: selecting rows selects their hashes.
pub proof fn law_rows_are_hashed_alone(
    batch: BatchView,
    names: Seq<Seq<char>>,
    version: HashVersion,
    rows: Seq<int>,
)
    requires
        batch.wf(),
        first_unknown(batch.fields, names) is None,
        forall|k: int| 0 <= k < rows.len() ==> 0 <= #[trigger] rows[k] < batch.rows,
    ensures
        row_hashes(version, named_columns(batch.take(rows), names), rows.len())
            == rows.map_values(
            |r: int| row_hashes(version, named_columns(batch, names), batch.rows)[r],
        ),
{
    let taken = batch.take(rows);
    let (a, b) = (named_columns(taken, names), named_columns(batch, names));
    lemma_known_names(batch.fields, names);
    assert forall|k: int| 0 <= k < rows.len() implies row_hash(version, a, k) == row_hash(
        version,
        b,
        rows[k],
    ) by {
        assert forall|c: int| 0 <= c < a.len() implies (#[trigger] a[c]).data_type
            == b[c].data_type && a[c].cells[k] == b[c].cells[rows[k]] by {
            let at = index_of(batch.fields, names[c])->0;
            assert(a[c] == taken.columns[at]);
            assert(b[c] == batch.columns[at]);
        }
        lemma_same_row_hash(version, a, k, b, rows[k]);
    }
    assert(row_hashes(version, a, rows.len()) =~= rows.map_values(
        |r: int| row_hashes(version, b, batch.rows)[r],
    ));
}

/// The sum of hashes is that of its parts.
proof fn lemma_hash_sum_append(a: Seq<u64>, b: Seq<u64>)
    ensures
        hash_sum(a + b) == hash_sum(a) + hash_sum(b),
    decreases b.len(),
{
    if b.len() == 0 {
        assert(a + b =~= a);
    } else {
        assert((a + b).drop_last() =~= a + b.drop_last());
        lemma_hash_sum_append(a, b.drop_last());
    }
}

proof fn lemma_hash_sum_remove(s: Seq<u64>, i: int)
    requires
        0 <= i < s.len(),
    ensures
        hash_sum(s) == hash_sum(s.remove(i)) + s[i],
{
    let (head, tail) = (s.take(i), s.skip(i + 1));
    assert(s =~= head.push(s[i]) + tail);
    assert(s.remove(i) =~= head + tail);
    assert(head.push(s[i]).drop_last() =~= head);
    lemma_hash_sum_append(head.push(s[i]), tail);
    lemma_hash_sum_append(head, tail);
}

proof fn lemma_hash_sum_permutation(a: Seq<u64>, b: Seq<u64>)
    requires
        a.to_multiset() == b.to_multiset(),
    ensures
        hash_sum(a) == hash_sum(b),
    decreases a.len(),
{
    broadcast use vstd::seq_lib::group_to_multiset_ensures;

    assert(a.len() == a.to_multiset().len());
    assert(b.len() == b.to_multiset().len());
    if a.len() > 0 {
        let i = a.len() - 1;
        let x = a[i];
        assert(a.contains(x));
        assert(b.contains(x)) by {
            assert(a.to_multiset().count(x) > 0);
            assert(b.to_multiset().count(x) > 0);
        }
        let j = choose|j: int| 0 <= j < b.len() && b[j] == x;
        lemma_hash_sum_remove(a, i);
        lemma_hash_sum_remove(b, j);
        assert(a.remove(i).to_multiset() =~= a.to_multiset().remove(x));
        assert(b.remove(j).to_multiset() =~= b.to_multiset().remove(x));
        lemma_hash_sum_permutation(a.remove(i), b.remove(j));
    }
}

/// The order of the rows does not affect a table's fingerprint.
pub proof fn law_row_order_does_not_matter(a: Seq<u64>, b: Seq<u64>, version: HashVersion)
    requires
        a.to_multiset() == b.to_multiset(),
    ensures
        table_hash(a, version) == table_hash(b, version),
{
    lemma_hash_sum_permutation(a, b);
}

/// Wrapped totals add up, if what both of them start from is taken off once.
proof fn lemma_wrapped_totals(a: int, b: int, start: u64, x: u64, y: u64)
    requires
        x == a % 0x1_0000_0000_0000_0000,
        y == b % 0x1_0000_0000_0000_0000,
    ensures
        x.wrapping_add(y).wrapping_sub(start) == (a + b - start) % 0x1_0000_0000_0000_0000,
{
    let m = 0x1_0000_0000_0000_0000int;
    let r = x.wrapping_add(y).wrapping_sub(start) as int;
    let (p, q) = (a / m, b / m);
    assert(a == m * p + x);
    assert(b == m * q + y);
    let k: int = if r == x + y - start {
        0
    } else if r == x + y - start - m {
        1
    } else {
        -1
    };
    assert(r == x + y - start - m * k);
    assert(a + b - start == (p + q + k) * m + r);
    lemma_fundamental_div_mod_converse(a + b - start, m, p + q + k, r);
}

/// A table's fingerprint follows from those of its parts, however the rows are divided.
pub proof fn law_fingerprints_of_parts_add_up(a: Seq<u64>, b: Seq<u64>, version: HashVersion)
    ensures
        table_hash(a + b, version) == table_hash(a, version).wrapping_add(
            table_hash(b, version),
        ).wrapping_sub(seed_of(version)),
{
    lemma_hash_sum_append(a, b);
    let seed = seed_of(version);
    lemma_wrapped_totals(
        seed + hash_sum(a),
        seed + hash_sum(b),
        seed,
        table_hash(a, version),
        table_hash(b, version),
    );
}

/// Every column counts, however many there are: hashing one more column combines each row's hash
/// so far with the hash of what the column holds in that row. Over no columns a row's hash is the
/// version's seed.
pub proof fn law_every_column_counts(
    batch: BatchView,
    names: Seq<Seq<char>>,
    name: Seq<char>,
    version: HashVersion,
    before: Seq<u64>,
    after: Seq<u64>,
)
    requires
        hash_batch_outcome(batch, names, version) == Ok::<Seq<u64>, ErrorView>(before),
        hash_batch_outcome(batch, names.push(name), version) == Ok::<Seq<u64>, ErrorView>(after),
    ensures
        before.len() == batch.rows,
        after.len() == batch.rows,
        names.len() == 0 ==> forall|i: int|
            0 <= i < batch.rows ==> #[trigger] before[i] == seed_of(version),
        forall|i: int|
            0 <= i < batch.rows ==> {
                let column = batch.columns[index_of(batch.fields, name)->0];
                #[trigger] after[i] == combined(
                    before[i],
                    xxh3(seed_of(version), cell_preimage(column.data_type, column.cells[i])),
                )
            },
{
    let columns = named_columns(batch, names);
    let more = named_columns(batch, names.push(name));
    assert(more =~= columns.push(batch.column_named(name)));
    assert(more.drop_last() =~= columns);
}

/// Hashing all columns is the same fold over them in their order, one column at a time.
pub proof fn law_every_column_of_all_counts(
    version: HashVersion,
    columns: Seq<ColumnView>,
    column: ColumnView,
    rows: nat,
    before: Seq<u64>,
    after: Seq<u64>,
)
    requires
        hash_columns_outcome(version, columns, rows) == Ok::<Seq<u64>, ErrorView>(before),
        hash_columns_outcome(version, columns.push(column), rows) == Ok::<Seq<u64>, ErrorView>(
            after,
        ),
    ensures
        before.len() == rows,
        after.len() == rows,
        columns.len() == 0 ==> forall|i: int|
            0 <= i < rows ==> #[trigger] before[i] == seed_of(version),
        forall|i: int|
            0 <= i < rows ==> #[trigger] after[i] == combined(
                before[i],
                xxh3(seed_of(version), cell_preimage(column.data_type, column.cells[i])),
            ),
{
    assert(columns.push(column).drop_last() =~= columns);
}

/// Rows that are hashed alike up to the last column, and whose cells there hash differently, have
/// different hashes, over any number of columns.
pub proof fn law_last_column_tells_rows_apart(
    batch: BatchView,
    names: Seq<Seq<char>>,
    name: Seq<char>,
    version: HashVersion,
    before: Seq<u64>,
    after: Seq<u64>,
    i: int,
    j: int,
)
    requires
        hash_batch_outcome(batch, names, version) == Ok::<Seq<u64>, ErrorView>(before),
        hash_batch_outcome(batch, names.push(name), version) == Ok::<Seq<u64>, ErrorView>(after),
        0 <= i < batch.rows,
        0 <= j < batch.rows,
        before[i] == before[j],
        ({
            let column = batch.columns[index_of(batch.fields, name)->0];
            xxh3(seed_of(version), cell_preimage(column.data_type, column.cells[i])) != xxh3(
                seed_of(version),
                cell_preimage(column.data_type, column.cells[j]),
            )
        }),
    ensures
        after[i] != after[j],
{
    law_every_column_counts(batch, names, name, version, before, after);
    let column = batch.columns[index_of(batch.fields, name)->0];
    let a = xxh3(seed_of(version), cell_preimage(column.data_type, column.cells[i]));
    let b = xxh3(seed_of(version), cell_preimage(column.data_type, column.cells[j]));
    if after[i] == after[j] {
        law_combine_tells_values_apart(before[i], a, b);
    }
}

/// Hashing succeeds exactly where every name is known and every column's type has a hash.
/// Otherwise the first unknown name is reported, then the first type without a hash.
pub proof fn law_when_hashing_succeeds(
    batch: BatchView,
    names: Seq<Seq<char>>,
    version: HashVersion,
)
    ensures
        ({
            let outcome = hash_batch_outcome(batch, names, version);
            let known = |c: int| index_of(batch.fields, names[c]) is Some;
            let hashable = |c: int|
                type_key(batch.columns[index_of(batch.fields, names[c])->0].data_type) is Some;
            if exists|c: int| 0 <= c < names.len() && !#[trigger] known(c) {
                exists|c: int|
                    {
                        &&& 0 <= c < names.len()
                        &&& !#[trigger] known(c)
                        &&& forall|b: int| 0 <= b < c ==> #[trigger] known(b)
                        &&& outcome == Err::<Seq<u64>, ErrorView>(
                            ErrorView::UnknownColumn(names[c]),
                        )
                    }
            } else if exists|c: int| 0 <= c < names.len() && !#[trigger] hashable(c) {
                exists|c: int|
                    {
                        &&& 0 <= c < names.len()
                        &&& !#[trigger] hashable(c)
                        &&& forall|b: int| 0 <= b < c ==> #[trigger] hashable(b)
                        &&& outcome == Err::<Seq<u64>, ErrorView>(
                            ErrorView::UnsupportedType(
                                display_name(
                                    batch.columns[index_of(batch.fields, names[c])->0].data_type,
                                ),
                            ),
                        )
                    }
            } else {
                outcome is Ok
            }
        }),
{
    let known = |c: int| index_of(batch.fields, names[c]) is Some;
    let hashable = |c: int|
        type_key(batch.columns[index_of(batch.fields, names[c])->0].data_type) is Some;
    let columns = named_columns(batch, names);
    let unknown = |i: int| index_of(batch.fields, names[i]) is None;
    let unhashable = |i: int| type_key(columns[i].data_type) is None;
    lemma_first_where(names.len(), unknown);
    lemma_first_where(columns.len(), unhashable);
    assert forall|c: int| 0 <= c < names.len() implies {
        &&& #[trigger] known(c) == !unknown(c)
        &&& hashable(c) == !unhashable(c)
    } by {}
    match first_where(names.len(), unknown) {
        Some(c) => {
            assert(unknown(c));
            assert(!known(c));
            assert forall|b: int| 0 <= b < c implies #[trigger] known(b) by {
                assert(!unknown(b));
            }
        },
        None => {
            assert forall|b: int| 0 <= b < names.len() implies #[trigger] known(b) by {
                assert(!unknown(b));
            }
            match first_where(columns.len(), unhashable) {
                Some(c) => {
                    assert(unhashable(c));
                    assert(known(c));
                    assert(!hashable(c));
                    assert forall|b: int| 0 <= b < c implies #[trigger] hashable(b) by {
                        assert(!unhashable(b));
                        assert(known(b));
                    }
                },
                None => {
                    assert forall|b: int| 0 <= b < names.len() implies #[trigger] hashable(b) by {
                        assert(!unhashable(b));
                        assert(known(b));
                    }
                },
            }
        },
    }
}

/// The types that have a hash: all but those that the library does not read into, and times of a
/// unit that their width does not go with.
pub proof fn law_which_types_have_a_hash(t: DataTypeView)
    ensures
        type_key(t) is None <==> {
            ||| t is Other
            ||| t == DataTypeView::Time32(TimeUnit::Microsecond)
            ||| t == DataTypeView::Time32(TimeUnit::Nanosecond)
            ||| t == DataTypeView::Time64(TimeUnit::Second)
            ||| t == DataTypeView::Time64(TimeUnit::Millisecond)
        },
{
}

/// Floats are hashed alike exactly where they are the same bits, both no number, or both zero.
pub proof fn law_which_floats_are_hashed_alike(a: u64, b: u64, x: u32, y: u32)
    ensures
        cell_preimage(DataTypeView::Float64, Some(CellView::Float64(a))) == cell_preimage(
            DataTypeView::Float64,
            Some(CellView::Float64(b)),
        ) <==> {
            let (m, n) = (
                a as int % 0x8000_0000_0000_0000,
                b as int % 0x8000_0000_0000_0000,
            );
            ||| a == b
            ||| m > 0x7FF0_0000_0000_0000 && n > 0x7FF0_0000_0000_0000
            ||| m == 0 && n == 0
        },
        cell_preimage(DataTypeView::Float32, Some(CellView::Float32(x))) == cell_preimage(
            DataTypeView::Float32,
            Some(CellView::Float32(y)),
        ) <==> {
            let (m, n) = (x as int % 0x8000_0000, y as int % 0x8000_0000);
            ||| x == y
            ||| m > 0x7F80_0000 && n > 0x7F80_0000
            ||| m == 0 && n == 0
        },
{
    law_values_are_told_apart(
        DataTypeView::Float64,
        CellView::Float64(a),
        CellView::Float64(b),
    );
    law_values_are_told_apart(
        DataTypeView::Float32,
        CellView::Float32(x),
        CellView::Float32(y),
    );
}

/// Values of a type that is not a float are hashed alike exactly where they are the same.
pub proof fn law_other_values_are_told_apart(t: DataTypeView, a: CellView, b: CellView)
    requires
        type_key(t) is Some,
        !(t is Float32),
        !(t is Float64),
        fits(t, a),
        fits(t, b),
    ensures
        cell_preimage(t, Some(a)) == cell_preimage(t, Some(b)) <==> a == b,
{
    law_values_are_told_apart(t, a, b);
}

/// A table's fingerprint starts from the version's seed, and each hash adds itself, modulo `2^64`.
pub proof fn law_each_hash_adds_itself(hashes: Seq<u64>, h: u64, version: HashVersion)
    ensures
        table_hash(Seq::empty(), version) == seed_of(version),
        table_hash(hashes.push(h), version) == (table_hash(hashes, version) + h)
            % 0x1_0000_0000_0000_0000,
{
    assert(hashes.push(h).drop_last() =~= hashes);
    let s = seed_of(version) + hash_sum(hashes);
    vstd::arithmetic::div_mod::lemma_add_mod_noop(s, h as int, 0x1_0000_0000_0000_0000);
    vstd::arithmetic::div_mod::lemma_add_mod_noop_right(h as int, s, 0x1_0000_0000_0000_0000);
}

/// How a value is folded in: it, the golden ratio's bits, sixty-four times the hash so far and a
/// quarter of it add up, modulo `2^64`, to the bits in which the new hash differs from the old.
pub proof fn law_how_hashes_combine(acc: u64, value: u64)
    ensures
        (combined(acc, value) ^ acc) as int == (value + 0x9E37_79B9_7F4A_7C15 + acc * 64 + acc
            / 4) % 0x1_0000_0000_0000_0000,
{
    let x = value.wrapping_add(0x9E37_79B9_7F4A_7C15).wrapping_add(acc << 6u64).wrapping_add(
        acc >> 2u64,
    );
    assert((acc ^ x) ^ acc == x) by (bit_vector);
    assert(acc << 6u64 == (acc % 0x0400_0000_0000_0000) * 64) by (bit_vector);
    assert(acc >> 2u64 == acc / 4) by (bit_vector);
    let exact = value + 0x9E37_79B9_7F4A_7C15 + acc * 64 + acc / 4;
    let wraps = (exact - x) / 0x1_0000_0000_0000_0000;
    let high = acc as int / 0x0400_0000_0000_0000;
    assert(acc * 64 == (acc << 6u64) + high * 0x1_0000_0000_0000_0000);
    assert(exact == wraps * 0x1_0000_0000_0000_0000 + x);
    lemma_fundamental_div_mod_converse(exact, 0x1_0000_0000_0000_0000, wraps, x as int);
}

/// A version has one name, and a name that is no version's has no version.
pub proof fn law_hash_names_are_exact(name: Seq<char>, version: HashVersion)
    ensures
        hash_version_named(name) == Some(version) <==> name == hash_version_name(version),
        hash_version_name(HashVersion::V1) == "v1"@,
{
}

/// What is hashed for a value is its type's key and its bytes; of a float, the bytes of a float
/// that it counts as equal to. What is hashed for a null is the key and a zero byte, which stands
/// in front exactly for the types that have a value of a single zero byte.
pub proof fn law_what_is_hashed(t: DataTypeView, c: CellView)
    requires
        type_key(t) is Some,
    ensures
        !(c is Float32) && !(c is Float64) ==> cell_preimage(t, Some(c)) == type_key(t)->0
            + cell_bytes(c),
        c matches CellView::Float64(bits) ==> exists|same: u64|
            {
                &&& cell_preimage(t, Some(c)) == type_key(t)->0 + #[trigger] cell_bytes(
                    CellView::Float64(same),
                )
                &&& same == bits || bits as int % 0x8000_0000_0000_0000 == 0 && same == 0
                    || bits as int % 0x8000_0000_0000_0000 > 0x7FF0_0000_0000_0000 && same
                    == 0x7FF8_0000_0000_0000
            },
        c matches CellView::Float32(bits) ==> exists|same: u32|
            {
                &&& cell_preimage(t, Some(c)) == type_key(t)->0 + #[trigger] cell_bytes(
                    CellView::Float32(same),
                )
                &&& same == bits || bits as int % 0x8000_0000 == 0 && same == 0 || bits as int
                    % 0x8000_0000 > 0x7F80_0000 && same == 0x7FC0_0000
            },
        cell_preimage(t, None) == (if t is Boolean || t is Int8 || t is UInt8 || t is Utf8
            || t is LargeUtf8 || t is Binary || t is LargeBinary {
            seq![0u8] + type_key(t)->0
        } else {
            type_key(t)->0 + seq![0u8]
        }),
{
    match c {
        CellView::Float64(bits) => {
            let same = canonical_f64(bits);
            assert(cell_preimage(t, Some(c)) == type_key(t)->0 + cell_bytes(
                CellView::Float64(same),
            ));
        },
        CellView::Float32(bits) => {
            let same = canonical_f32(bits);
            assert(cell_preimage(t, Some(c)) == type_key(t)->0 + cell_bytes(
                CellView::Float32(same),
            ));
        },
        _ => {},
    }
}

/// The tag that each type's key starts with.
pub proof fn law_tags(t: DataTypeView)
    requires
        type_key(t) is Some,
    ensures
        type_key(t)->0.len() > 0,
        type_key(t)->0[0] == (match t {
            DataTypeView::Boolean => 0x01u8,
            DataTypeView::Int8 => 0x02,
            DataTypeView::Int16 => 0x03,
            DataTypeView::Int32 => 0x04,
            DataTypeView::Int64 => 0x05,
            DataTypeView::UInt8 => 0x06,
            DataTypeView::UInt16 => 0x07,
            DataTypeView::UInt32 => 0x08,
            DataTypeView::UInt64 => 0x09,
            DataTypeView::Float32 => 0x0A,
            DataTypeView::Float64 => 0x0B,
            DataTypeView::Utf8 => 0x0C,
            DataTypeView::LargeUtf8 => 0x0C,
            DataTypeView::Binary => 0x0D,
            DataTypeView::LargeBinary => 0x0D,
            DataTypeView::Date32 => 0x0E,
            DataTypeView::Date64 => 0x0F,
            DataTypeView::Time32(_) => 0x10,
            DataTypeView::Time64(_) => 0x11,
            DataTypeView::Timestamp(_, _) => 0x12,
            DataTypeView::Decimal128(_, _) => 0x13,
            DataTypeView::Decimal256(_, _) => 0x14,
            DataTypeView::Other(_) => 0x00,
        }),
{
}

/// What follows the tag: nothing but for times and timestamps, which have their unit there and
/// then the bytes of a zone, and decimals, which have their precision and their scale.
pub proof fn law_parameters_behind_tags(t: DataTypeView)
    requires
        type_key(t) is Some,
    ensures
        ({
            let rest = type_key(t)->0.drop_first();
            let number = |unit: TimeUnit|
                match unit {
                    TimeUnit::Second => 0u8,
                    TimeUnit::Millisecond => 1,
                    TimeUnit::Microsecond => 2,
                    TimeUnit::Nanosecond => 3,
                };
            match t {
                DataTypeView::Time32(unit) => rest == seq![number(unit)],
                DataTypeView::Time64(unit) => rest == seq![number(unit)],
                DataTypeView::Timestamp(unit, None) => rest == seq![number(unit)],
                DataTypeView::Timestamp(unit, Some(zone)) => rest == seq![number(unit)]
                    + encode_utf8(zone),
                DataTypeView::Decimal128(precision, scale) => rest == seq![
                    precision,
                    (scale as int % 0x100) as u8,
                ],
                DataTypeView::Decimal256(precision, scale) => rest == seq![
                    precision,
                    (scale as int % 0x100) as u8,
                ],
                _ => rest.len() == 0,
            }
        }),
{
    let rest = type_key(t)->0.drop_first();
    lemma_byte_spans();
    match t {
        DataTypeView::Time32(unit) => {
            assert(rest =~= seq![unit_byte(unit)]);
        },
        DataTypeView::Time64(unit) => {
            assert(rest =~= seq![unit_byte(unit)]);
        },
        DataTypeView::Timestamp(unit, None) => {
            assert(rest =~= seq![unit_byte(unit)]);
        },
        DataTypeView::Timestamp(unit, Some(zone)) => {
            assert(rest =~= seq![unit_byte(unit)] + encode_utf8(zone));
        },
        DataTypeView::Decimal128(precision, scale) => {
            assert(rest =~= seq![precision, (scale as int % 0x100) as u8]);
        },
        DataTypeView::Decimal256(precision, scale) => {
            assert(rest =~= seq![precision, (scale as int % 0x100) as u8]);
        },
        _ => {},
    }
}

} // verus!
