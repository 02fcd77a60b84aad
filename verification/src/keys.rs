//! Row keys: the cells of some columns of a row, and their encoding as comparable bytes.

use crate::batch::RecordBatch;
use crate::column::{
    fits_or_null, key_bytes, lemma_cell_bytes_injective, CellView, Column, ColumnView,
};
use crate::hash::{canonical, canonical_bytes, canonical_or_null};
use crate::schema::DataTypeView;
use arrow_array::{ArrayRef, LargeBinaryArray};
use arrow_row::{RowConverter, SortField};
use std::sync::Arc;
use vstd::prelude::*;

verus! {

/// The cells of a row in the given columns.
pub open spec fn row_key(columns: Seq<ColumnView>, row: int) -> Seq<Option<CellView>> {
    columns.map_values(|c: ColumnView| c.cells[row])
}

/// The keys of all rows.
pub open spec fn row_keys(columns: Seq<ColumnView>, rows: nat) -> Seq<Seq<Option<CellView>>> {
    Seq::new(rows, |i: int| row_key(columns, i))
}

/// A column with its floats brought to one `NaN` and one zero.
pub open spec fn canonical_column(column: ColumnView) -> ColumnView {
    ColumnView {
        data_type: column.data_type,
        cells: column.cells.map_values(|c: Option<CellView>| canonical_or_null(c)),
    }
}

/// Columns with their floats brought to one `NaN` and one zero.
pub open spec fn canonical_columns(columns: Seq<ColumnView>) -> Seq<ColumnView> {
    columns.map_values(|c: ColumnView| canonical_column(c))
}

/// The types of columns.
pub open spec fn column_types(columns: Seq<ColumnView>) -> Seq<DataTypeView> {
    columns.map_values(|c: ColumnView| c.data_type)
}

/// Whether a key is one of a row in columns of the given types.
pub open spec fn key_fits(types: Seq<DataTypeView>, key: Seq<Option<CellView>>) -> bool {
    &&& key.len() == types.len()
    &&& forall|c: int| 0 <= c < key.len() ==> fits_or_null(types[c], #[trigger] key[c])
}

/// Whether a key holds a null.
pub open spec fn key_has_null(key: Seq<Option<CellView>>) -> bool {
    exists|c: int| 0 <= c < key.len() && (#[trigger] key[c]) is None
}

/// The bytes of a key's cells.
pub open spec fn key_parts(key: Seq<Option<CellView>>) -> Seq<Option<Seq<u8>>> {
    key.map_values(|c: Option<CellView>| key_bytes(c))
}

/// Row `i` of columns of optional bytes.
pub open spec fn parts_at(columns: Seq<Vec<Option<Vec<u8>>>>, i: int) -> Seq<Option<Seq<u8>>> {
    columns.map_values(
        |c: Vec<Option<Vec<u8>>>|
            match c@[i] {
                Some(b) => Some(b@),
                None => None,
            },
    )
}

/// The encoding of a row of optional byte strings.
pub uninterp spec fn row_bytes(parts: Seq<Option<Seq<u8>>>) -> Seq<u8>;

/// Calls `arrow_row::RowConverter` on columns of byte strings, with default sort options, and
/// hands out each row's encoding. Claims that the encoding of a row is a function of the row's
/// cells alone, and that no other row of as many cells has it.
#[verifier::external_body]
pub(crate) fn encode_rows(columns: &Vec<Vec<Option<Vec<u8>>>>) -> (rows: Vec<Vec<u8>>)
    requires
        columns@.len() > 0,
        forall|c: int|
            0 <= c < columns@.len() ==> (#[trigger] columns@[c])@.len() == columns@[0]@.len(),
    ensures
        rows@.len() == columns@[0]@.len(),
        forall|i: int|
            0 <= i < rows@.len() ==> (#[trigger] rows@[i])@ == row_bytes(parts_at(columns@, i)),
        forall|i: int, other: Seq<Option<Seq<u8>>>|
            0 <= i < rows@.len() && other.len() == columns@.len() && (#[trigger] row_bytes(other))
                == (#[trigger] rows@[i])@ ==> other == parts_at(columns@, i),
{
    let fields = columns.iter()
        .map(|_| SortField::new(arrow_schema::DataType::LargeBinary))
        .collect();
    let arrays: Vec<ArrayRef> = columns.iter()
        .map(|c| Arc::new(LargeBinaryArray::from_iter(c.iter().map(|v| v.as_deref()))) as ArrayRef)
        .collect();
    let rows = RowConverter::new(fields).unwrap().convert_columns(&arrays).unwrap();
    rows.iter().map(|r| r.as_ref().to_vec()).collect()
}

/// The encoding of a key.
pub open spec fn key_code(key: Seq<Option<CellView>>) -> Seq<u8> {
    row_bytes(key_parts(key))
}

/// Whether rows of bytes are the encodings of keys, which tell them from all other keys of the
/// same types.
pub open spec fn encodes(
    rows: Seq<Vec<u8>>,
    types: Seq<DataTypeView>,
    keys: Seq<Seq<Option<CellView>>>,
) -> bool {
    &&& rows.len() == keys.len()
    &&& forall|i: int| 0 <= i < rows.len() ==> (#[trigger] rows[i])@ == key_code(keys[i])
    &&& forall|i: int| 0 <= i < rows.len() ==> key_fits(types, #[trigger] keys[i])
    &&& forall|i: int, other: Seq<Option<CellView>>|
        0 <= i < rows.len() && key_fits(types, other) && (#[trigger] key_code(other)) == (
        #[trigger] rows[i])@ ==> other == keys[i]
}

/// Keys of the same types are told apart by their cells' bytes.
proof fn lemma_key_parts_injective(
    types: Seq<DataTypeView>,
    a: Seq<Option<CellView>>,
    b: Seq<Option<CellView>>,
)
    requires
        key_fits(types, a),
        key_fits(types, b),
        key_parts(a) == key_parts(b),
    ensures
        a == b,
{
    assert forall|c: int| 0 <= c < a.len() implies a[c] == b[c] by {
        assert(key_parts(a)[c] == key_bytes(a[c]));
        assert(key_parts(b)[c] == key_bytes(b[c]));
        assert(fits_or_null(types[c], a[c]));
        assert(fits_or_null(types[c], b[c]));
        match (a[c], b[c]) {
            (Some(x), Some(y)) => {
                lemma_cell_bytes_injective(types[c], x, y);
            },
            _ => {},
        }
    }
    assert(a =~= b);
}

/// The bytes of a column's cells, with floats in canonical form if asked for.
fn column_parts(column: &Column, canonical_floats: bool) -> (parts: Vec<Option<Vec<u8>>>)
    ensures
        parts@.len() == column@.cells.len(),
        column@.wf(),
        forall|i: int|
            0 <= i < parts@.len() ==> match #[trigger] parts@[i] {
                Some(b) => key_bytes(
                    if canonical_floats {
                        canonical_or_null(column@.cells[i])
                    } else {
                        column@.cells[i]
                    },
                ) == Some(b@),
                None => column@.cells[i] is None,
            },
{
    let n = column.len();
    let mut parts: Vec<Option<Vec<u8>>> = Vec::new();
    let mut i: usize = 0;
    while i < n
        invariant
            i <= n == column@.cells.len(),
            parts@.len() == i,
            forall|i: int|
                0 <= i < parts@.len() ==> match #[trigger] parts@[i] {
                    Some(b) => key_bytes(
                        if canonical_floats {
                            canonical_or_null(column@.cells[i])
                        } else {
                            column@.cells[i]
                        },
                    ) == Some(b@),
                    None => column@.cells[i] is None,
                },
        decreases n - i,
    {
        let part = match column.cell(i) {
            Some(c) => Some(
                if canonical_floats {
                    canonical_bytes(c)
                } else {
                    c.to_bytes()
                },
            ),
            None => None,
        };
        parts.push(part);
        i += 1;
    }
    parts
}

/// The columns at the given positions.
pub open spec fn columns_at(columns: Seq<ColumnView>, indices: Seq<usize>) -> Seq<ColumnView> {
    indices.map_values(|i: usize| columns[i as int])
}

/// The encoded keys of all rows of a batch over the columns at the given positions.
pub(crate) fn encode_keys(batch: &RecordBatch, indices: &Vec<usize>, canonical_floats: bool) -> (
rows: Vec<Vec<u8>>)
    requires
        indices@.len() > 0,
        forall|k: int| 0 <= k < indices@.len() ==> (#[trigger] indices@[k]) < batch@.columns.len(),
    ensures
        ({
            let columns = columns_at(batch@.columns, indices@);
            let keyed = if canonical_floats {
                canonical_columns(columns)
            } else {
                columns
            };
            encodes(rows@, column_types(columns), row_keys(keyed, batch@.rows))
        }),
{
    let ghost columns = columns_at(batch@.columns, indices@);
    let ghost keyed = if canonical_floats {
        canonical_columns(columns)
    } else {
        columns
    };
    let ghost types = column_types(columns);
    let ghost keys = row_keys(keyed, batch@.rows);
    let mut parts: Vec<Vec<Option<Vec<u8>>>> = Vec::new();
    let n = batch.num_rows();
    let mut k: usize = 0;
    while k < indices.len()
        invariant
            k <= indices@.len(),
            parts@.len() == k,
            n == batch@.rows,
            batch@.wf(),
            columns == columns_at(batch@.columns, indices@),
            keyed == (if canonical_floats {
                canonical_columns(columns)
            } else {
                columns
            }),
            forall|k: int|
                0 <= k < indices@.len() ==> (#[trigger] indices@[k]) < batch@.columns.len(),
            forall|c: int| 0 <= c < parts@.len() ==> (#[trigger] parts@[c])@.len() == n,
            forall|c: int, i: int|
                0 <= c < parts@.len() && 0 <= i < n ==> (match #[trigger] parts@[c]@[i] {
                    Some(b) => Some(b@),
                    None => None,
                }) == key_bytes(keyed[c].cells[i]),
        decreases indices@.len() - k,
    {
        let column = batch.column(indices[k]);
        assert(columns[k as int] == column@);
        let part = column_parts(column, canonical_floats);
        proof {
            assert forall|i: int| 0 <= i < n implies (match #[trigger] part@[i] {
                Some(b) => Some(b@),
                None => None,
            }) == key_bytes(keyed[k as int].cells[i]) by {}
        }
        parts.push(part);
        k += 1;
    }
    let rows = encode_rows(&parts);
    proof {
        assert forall|i: int| 0 <= i < n implies key_fits(types, #[trigger] keys[i])
            && parts_at(parts@, i) == key_parts(keys[i]) by {
            assert forall|c: int| 0 <= c < keys[i].len() implies fits_or_null(
                types[c],
                #[trigger] keys[i][c],
            ) by {
                let column = batch@.columns[indices@[c] as int];
                assert(column.wf());
                assert(fits_or_null(column.data_type, column.cells[i]));
                assert(columns[c] == column);
            }
            assert(parts_at(parts@, i) =~= key_parts(keys[i])) by {
                assert forall|c: int| 0 <= c < parts@.len() implies parts_at(parts@, i)[c]
                    == key_parts(keys[i])[c] by {
                    let b = parts@[c]@[i];
                    assert(key_parts(keys[i])[c] == key_bytes(keyed[c].cells[i]));
                }
            }
        }
        assert(parts@[0]@.len() == n);
        assert forall|i: int, other: Seq<Option<CellView>>|
            0 <= i < rows@.len() && key_fits(types, other) && (#[trigger] key_code(other)) == (
            #[trigger] rows@[i])@ implies other == keys[i] by {
            assert(key_fits(types, keys[i]));
            assert(row_bytes(key_parts(other)) == rows@[i]@);
            assert(key_parts(other) == parts_at(parts@, i));
            lemma_key_parts_injective(types, other, keys[i]);
        }
    }
    rows
}

} // verus!
