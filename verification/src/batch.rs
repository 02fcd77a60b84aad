//! Record batches: columns of equal length under a schema.

use crate::column::{fits_or_null, row_numbers, Column, ColumnView};
use crate::error::{same_outcome, Error, ErrorView};
use crate::rows::{first_where, ints, lemma_first_where, lemma_first_where_is};
use crate::schema::{display_name, index_of, FieldView, Schema};
use crate::text::{decimal, decimal_text};
use vstd::prelude::*;
use vstd::string::StringExecFns;

verus! {

/// The model of [`RecordBatch`].
pub ghost struct BatchView {
    pub fields: Seq<FieldView>,
    pub columns: Seq<ColumnView>,
    pub rows: nat,
}

impl BatchView {
    /// There is one column per field, of the field's type, with one cell per row, and only a
    /// nullable field's column holds nulls.
    pub open spec fn wf(self) -> bool {
        &&& self.fields.len() == self.columns.len()
        &&& forall|i: int|
            0 <= i < self.columns.len() ==> {
                &&& (#[trigger] self.columns[i]).wf()
                &&& self.columns[i].cells.len() == self.rows
                &&& self.columns[i].data_type == self.fields[i].data_type
                &&& self.columns[i].has_null() ==> self.fields[i].nullable
            }
    }

    /// The batch of the rows named, in the order in which they are named.
    pub open spec fn take(self, rows: Seq<int>) -> BatchView {
        BatchView {
            fields: self.fields,
            columns: self.columns.map_values(
                |c: ColumnView| c.take(rows.map_values(|r: int| Some(r))),
            ),
            rows: rows.len(),
        }
    }

    /// The first column of the given name.
    pub open spec fn column_named(self, name: Seq<char>) -> ColumnView {
        self.columns[index_of(self.fields, name)->0]
    }
}

/// What columns and a schema make up: a batch, or the first thing that is wrong with them.
pub open spec fn batch_outcome(
    fields: Seq<FieldView>,
    columns: Seq<ColumnView>,
    row_count: Option<nat>,
) -> Result<BatchView, ErrorView> {
    let n = columns.len();
    let rows = match row_count {
        Some(r) => r,
        None => columns[0].cells.len(),
    };
    let null_at = first_where(n, |i: int| !fields[i].nullable && columns[i].has_null());
    let short_at = first_where(n, |i: int| columns[i].cells.len() != rows);
    let type_at = first_where(n, |i: int| columns[i].data_type != fields[i].data_type);
    if fields.len() != n {
        Err(
            ErrorView::SchemaMismatch(
                "Invalid argument error: number of columns("@ + decimal(n)
                    + ") must match number of fields("@ + decimal(fields.len()) + ") in schema"@,
            ),
        )
    } else if row_count is None && n == 0 {
        Err(
            ErrorView::SchemaMismatch(
                "Invalid argument error: must either specify a row count or at least one column"@,
            ),
        )
    } else if null_at is Some {
        Err(
            ErrorView::SchemaMismatch(
                "Invalid argument error: Column '"@ + fields[null_at->0].name
                    + "' is declared as non-nullable but contains null values"@,
            ),
        )
    } else if short_at is Some {
        Err(
            ErrorView::SchemaMismatch(
                if row_count is Some {
                    "Invalid argument error: all columns in a record batch must have the specified row count"@
                } else {
                    "Invalid argument error: all columns in a record batch must have the same length"@
                },
            ),
        )
    } else if type_at is Some {
        Err(
            ErrorView::SchemaMismatch(
                "Invalid argument error: column types must match schema types, expected "@
                    + display_name(fields[type_at->0].data_type) + " but found "@ + display_name(
                    columns[type_at->0].data_type,
                ) + " at column index "@ + decimal(type_at->0 as nat),
            ),
        )
    } else {
        Ok(BatchView { fields, columns, rows })
    }
}

/// Columns that agree with the fields, and of equal length, make up a batch.
pub proof fn lemma_columns_make_a_batch(
    fields: Seq<FieldView>,
    columns: Seq<ColumnView>,
    rows: nat,
)
    requires
        columns.len() == fields.len(),
        forall|i: int|
            0 <= i < columns.len() ==> {
                &&& (#[trigger] columns[i]).cells.len() == rows
                &&& columns[i].data_type == fields[i].data_type
                &&& columns[i].has_null() ==> fields[i].nullable
            },
    ensures
        batch_outcome(fields, columns, Some(rows)) == Ok::<BatchView, ErrorView>(
            BatchView { fields, columns, rows },
        ),
        columns.len() > 0 ==> batch_outcome(fields, columns, None) == Ok::<BatchView, ErrorView>(
            BatchView { fields, columns, rows },
        ),
{
    let n = columns.len();
    assert(n > 0 ==> columns[0].cells.len() == rows);
    lemma_first_where(n, |i: int| !fields[i].nullable && columns[i].has_null());
    lemma_first_where(n, |i: int| columns[i].cells.len() != rows);
    lemma_first_where(n, |i: int| columns[i].data_type != fields[i].data_type);
}

/// Columns of equal length under a schema.
#[derive(Debug, PartialEq, Eq)]
pub struct RecordBatch {
    schema: Schema,
    columns: Vec<Column>,
    row_count: usize,
}

impl View for RecordBatch {
    type V = BatchView;

    closed spec fn view(&self) -> BatchView {
        BatchView {
            fields: self.schema@,
            columns: self.columns@.map_values(|c: Column| c@),
            rows: self.row_count as nat,
        }
    }
}

impl RecordBatch {
    #[verifier::type_invariant]
    spec fn inv(self) -> bool {
        self@.wf()
    }

    /// A batch of the columns under the schema, with as many rows as the first column has.
    pub fn try_new(schema: Schema, columns: Vec<Column>) -> (r: Result<RecordBatch, Error>)
        ensures
            same_outcome(r, batch_outcome(schema@, columns@.map_values(|c: Column| c@), None)),
    {
        Self::build(schema, columns, None)
    }

    /// A batch of the columns under the schema with the given number of rows, which a batch
    /// without columns has as well.
    pub fn try_new_with_row_count(schema: Schema, columns: Vec<Column>, row_count: usize) -> (r:
        Result<RecordBatch, Error>)
        ensures
            same_outcome(
                r,
                batch_outcome(
                    schema@,
                    columns@.map_values(|c: Column| c@),
                    Some(row_count as nat),
                ),
            ),
    {
        Self::build(schema, columns, Some(row_count))
    }

    #[verifier::loop_isolation(false)]
    fn build(schema: Schema, columns: Vec<Column>, row_count: Option<usize>) -> (r: Result<
        RecordBatch,
        Error,
    >)
        ensures
            same_outcome(
                r,
                batch_outcome(
                    schema@,
                    columns@.map_values(|c: Column| c@),
                    match row_count {
                        Some(n) => Some(n as nat),
                        None => None,
                    },
                ),
            ),
    {
        let ghost fs = schema@;
        let ghost cs = columns@.map_values(|c: Column| c@);
        let n = columns.len();
        if schema.fields.len() != n {
            let mut m = "Invalid argument error: number of columns(".to_owned();
            m.append(decimal_text(n as u64).as_str());
            m.append(") must match number of fields(");
            m.append(decimal_text(schema.fields.len() as u64).as_str());
            m.append(") in schema");
            return Err(Error::SchemaMismatch(m));
        }
        let rows = match row_count {
            Some(r) => r,
            None => {
                if n == 0 {
                    return Err(
                        Error::schema_mismatch(
                            "Invalid argument error: must either specify a row count or at least one column",
                        ),
                    );
                }
                columns[0].len()
            },
        };
        let ghost null_p = |i: int| !fs[i].nullable && cs[i].has_null();
        let ghost short_p = |i: int| cs[i].cells.len() != rows;
        let ghost type_p = |i: int| cs[i].data_type != fs[i].data_type;
        let mut i: usize = 0;
        while i < n
            invariant
                i <= n == columns@.len() == schema.fields@.len(),
                fs == schema@,
                cs == columns@.map_values(|c: Column| c@),
                null_p == (|i: int| !fs[i].nullable && cs[i].has_null()),
                forall|j: int| 0 <= j < i ==> !#[trigger] null_p(j),
            decreases n - i,
        {
            if !schema.fields[i].nullable && columns[i].has_null() {
                proof {
                    lemma_first_where_is(n as nat, null_p, i as int);
                }
                let mut m = "Invalid argument error: Column '".to_owned();
                m.append(schema.fields[i].name.as_str());
                m.append("' is declared as non-nullable but contains null values");
                return Err(Error::SchemaMismatch(m));
            }
            i += 1;
        }
        proof {
            lemma_first_where(n as nat, null_p);
        }
        i = 0;
        while i < n
            invariant
                i <= n == columns@.len() == schema.fields@.len(),
                fs == schema@,
                cs == columns@.map_values(|c: Column| c@),
                short_p == (|i: int| cs[i].cells.len() != rows),
                forall|j: int| 0 <= j < i ==> !#[trigger] short_p(j),
            decreases n - i,
        {
            if columns[i].len() != rows {
                proof {
                    lemma_first_where_is(n as nat, short_p, i as int);
                }
                return match row_count {
                    Some(_) => Err(
                        Error::schema_mismatch(
                            "Invalid argument error: all columns in a record batch must have the specified row count",
                        ),
                    ),
                    None => Err(
                        Error::schema_mismatch(
                            "Invalid argument error: all columns in a record batch must have the same length",
                        ),
                    ),
                };
            }
            i += 1;
        }
        proof {
            lemma_first_where(n as nat, short_p);
        }
        i = 0;
        while i < n
            invariant
                i <= n == columns@.len() == schema.fields@.len(),
                fs == schema@,
                cs == columns@.map_values(|c: Column| c@),
                type_p == (|i: int| cs[i].data_type != fs[i].data_type),
                forall|j: int| 0 <= j < i ==> !#[trigger] type_p(j),
                forall|j: int| 0 <= j < i ==> (#[trigger] cs[j]).wf(),
            decreases n - i,
        {
            if !columns[i].data_type().same(&schema.fields[i].data_type) {
                proof {
                    lemma_first_where_is(n as nat, type_p, i as int);
                }
                let mut m =
                    "Invalid argument error: column types must match schema types, expected ".to_owned();
                m.append(schema.fields[i].data_type.name().as_str());
                m.append(" but found ");
                m.append(columns[i].data_type().name().as_str());
                m.append(" at column index ");
                m.append(decimal_text(i as u64).as_str());
                return Err(Error::SchemaMismatch(m));
            }
            i += 1;
        }
        proof {
            lemma_first_where(n as nat, type_p);
            assert forall|j: int| 0 <= j < cs.len() implies {
                &&& (#[trigger] cs[j]).wf()
                &&& cs[j].cells.len() == rows
                &&& cs[j].data_type == fs[j].data_type
                &&& cs[j].has_null() ==> fs[j].nullable
            } by {
                assert(!type_p(j));
                assert(!short_p(j));
                assert(!null_p(j));
            }
        }
        Ok(RecordBatch { schema, columns, row_count: rows })
    }

    /// The schema.
    pub fn schema(&self) -> (s: &Schema)
        ensures
            s@ == self@.fields,
            self@.wf(),
    {
        proof {
            use_type_invariant(self);
        }
        &self.schema
    }

    /// The columns, in schema order.
    pub fn columns(&self) -> (c: &Vec<Column>)
        ensures
            c@.map_values(|c: Column| c@) == self@.columns,
            self@.wf(),
    {
        proof {
            use_type_invariant(self);
        }
        &self.columns
    }

    /// The column at a position.
    pub fn column(&self, i: usize) -> (c: &Column)
        requires
            i < self@.columns.len(),
        ensures
            c@ == self@.columns[i as int],
            self@.wf(),
    {
        proof {
            use_type_invariant(self);
        }
        &self.columns[i]
    }

    /// The batch of the rows named, in the order in which they are named.
    pub fn take(&self, rows: &Vec<usize>) -> (r: RecordBatch)
        requires
            forall|k: int| 0 <= k < rows@.len() ==> (#[trigger] rows@[k]) < self@.rows,
        ensures
            r@ == self@.take(ints(rows@)),
    {
        proof {
            use_type_invariant(self);
        }
        let ghost target = self@.take(ints(rows@));
        let mut numbers: Vec<Option<usize>> = Vec::new();
        let mut k: usize = 0;
        while k < rows.len()
            invariant
                k <= rows@.len(),
                numbers@.len() == k,
                forall|j: int| 0 <= j < k ==> #[trigger] numbers@[j] == Some(rows@[j]),
            decreases rows@.len() - k,
        {
            numbers.push(Some(rows[k]));
            k += 1;
        }
        assert(row_numbers(numbers@) =~= ints(rows@).map_values(|r: int| Some(r)));
        let mut columns: Vec<Column> = Vec::new();
        let mut i: usize = 0;
        while i < self.columns.len()
            invariant
                i <= self.columns@.len(),
                columns@.len() == i,
                self@.wf(),
                target == self@.take(ints(rows@)),
                rows@.len() == numbers@.len(),
                row_numbers(numbers@) == ints(rows@).map_values(|r: int| Some(r)),
                forall|k: int| 0 <= k < rows@.len() ==> (#[trigger] rows@[k]) < self@.rows,
                forall|j: int| 0 <= j < rows@.len() ==> #[trigger] numbers@[j] == Some(rows@[j]),
                forall|j: int| 0 <= j < i ==> (#[trigger] columns@[j])@ == target.columns[j],
            decreases self.columns@.len() - i,
        {
            assert(self@.columns[i as int] == self.columns@[i as int]@);
            columns.push(self.columns[i].take(&numbers));
            i += 1;
        }
        proof {
            assert(columns@.map_values(|c: Column| c@) =~= target.columns);
            assert forall|j: int| 0 <= j < target.columns.len() implies {
                &&& (#[trigger] target.columns[j]).wf()
                &&& target.columns[j].cells.len() == target.rows
                &&& target.columns[j].data_type == target.fields[j].data_type
                &&& target.columns[j].has_null() ==> target.fields[j].nullable
            } by {
                let c = self@.columns[j];
                assert(c.wf());
                assert forall|k: int| 0 <= k < target.columns[j].cells.len() implies fits_or_null(
                    c.data_type,
                    #[trigger] target.columns[j].cells[k],
                ) && target.columns[j].cells[k] == c.cells[rows@[k] as int] by {
                    assert(fits_or_null(c.data_type, c.cells[rows@[k] as int]));
                }
                if target.columns[j].has_null() {
                    let k = choose|k: int|
                        0 <= k < target.columns[j].cells.len() && (
                        #[trigger] target.columns[j].cells[k]) is None;
                    assert(c.cells[rows@[k] as int] is None);
                }
            }
        }
        RecordBatch { schema: self.schema.clone(), columns, row_count: rows.len() }
    }

    /// The number of columns.
    pub fn num_columns(&self) -> (n: usize)
        ensures
            n == self@.columns.len(),
            self@.wf(),
    {
        proof {
            use_type_invariant(self);
        }
        self.columns.len()
    }

    /// The number of rows.
    pub fn num_rows(&self) -> (n: usize)
        ensures
            n == self@.rows,
            self@.wf(),
    {
        proof {
            use_type_invariant(self);
        }
        self.row_count
    }
}

impl Clone for RecordBatch {
    fn clone(&self) -> (r: Self)
        ensures
            r@ == self@,
    {
        proof {
            use_type_invariant(self);
        }
        let mut columns: Vec<Column> = Vec::new();
        let mut i: usize = 0;
        while i < self.columns.len()
            invariant
                i <= self.columns@.len(),
                columns@.len() == i,
                forall|j: int| 0 <= j < i ==> (#[trigger] columns@[j])@ == self.columns@[j]@,
            decreases self.columns@.len() - i,
        {
            columns.push(self.columns[i].clone());
            i += 1;
        }
        assert(columns@.map_values(|c: Column| c@) =~= self@.columns);
        RecordBatch { schema: self.schema.clone(), columns, row_count: self.row_count }
    }
}

/// The first of the names that the schema does not have.
pub open spec fn first_unknown(fields: Seq<FieldView>, names: Seq<Seq<char>>) -> Option<int> {
    first_where(names.len(), |i: int| index_of(fields, names[i]) is None)
}

/// The texts of string slices.
pub open spec fn texts(names: Seq<&str>) -> Seq<Seq<char>> {
    names.map_values(|s: &str| s@)
}

/// A name that is not unknown has a position.
pub proof fn lemma_known_names(fields: Seq<FieldView>, names: Seq<Seq<char>>)
    requires
        first_unknown(fields, names) is None,
    ensures
        forall|c: int|
            0 <= c < names.len() ==> {
                &&& index_of(fields, #[trigger] names[c]) is Some
                &&& 0 <= index_of(fields, names[c])->0 < fields.len()
            },
{
    let p = |i: int| index_of(fields, names[i]) is None;
    lemma_first_where(names.len(), p);
    assert forall|c: int| 0 <= c < names.len() implies {
        &&& index_of(fields, #[trigger] names[c]) is Some
        &&& 0 <= index_of(fields, names[c])->0 < fields.len()
    } by {
        assert(!p(c));
    }
}

/// The positions of the named columns, or the first name that the schema does not have.
pub fn resolve_indices(schema: &Schema, names: &[&str]) -> (r: Result<Vec<usize>, Error>)
    ensures
        match r {
            Ok(v) => {
                &&& first_unknown(schema@, texts(names@)) is None
                &&& v@.len() == names@.len()
                &&& forall|i: int|
                    0 <= i < v@.len() ==> {
                        &&& (#[trigger] v@[i]) < schema@.len()
                        &&& index_of(schema@, names@[i]@) == Some(v@[i] as int)
                    }
            },
            Err(e) => {
                &&& first_unknown(schema@, texts(names@)) is Some
                &&& e@ == ErrorView::UnknownColumn(
                    texts(names@)[first_unknown(schema@, texts(names@))->0],
                )
            },
        },
{
    let ghost p = |i: int| index_of(schema@, texts(names@)[i]) is None;
    let mut out: Vec<usize> = Vec::new();
    let mut i: usize = 0;
    while i < names.len()
        invariant
            i <= names@.len(),
            out@.len() == i,
            p == (|i: int| index_of(schema@, texts(names@)[i]) is None),
            forall|j: int| 0 <= j < i ==> !#[trigger] p(j),
            forall|j: int|
                0 <= j < i ==> {
                    &&& (#[trigger] out@[j]) < schema@.len()
                    &&& index_of(schema@, names@[j]@) == Some(out@[j] as int)
                },
        decreases names@.len() - i,
    {
        match schema.index_of(names[i]) {
            Some(k) => {
                assert(!p(i as int));
                out.push(k);
            },
            None => {
                proof {
                    lemma_first_where_is(names@.len(), p, i as int);
                }
                return Err(Error::unknown_column(names[i]));
            },
        }
        i += 1;
    }
    proof {
        lemma_first_where(names@.len(), p);
    }
    Ok(out)
}

/// Taking rows of a batch takes their cells in every column, under the same fields.
pub proof fn law_taken_rows(batch: BatchView, rows: Seq<int>, c: int, k: int)
    requires
        0 <= c < batch.columns.len(),
        0 <= k < rows.len(),
    ensures
        batch.take(rows).fields == batch.fields,
        batch.take(rows).rows == rows.len(),
        batch.take(rows).columns.len() == batch.columns.len(),
        batch.take(rows).columns[c].data_type == batch.columns[c].data_type,
        batch.take(rows).columns[c].cells.len() == rows.len(),
        batch.take(rows).columns[c].cells[k] == batch.columns[c].cells[rows[k]],
{
}

/// Columns make up a batch exactly where there is one for each field, of its type, with as many
/// cells as there are rows, and with a null only under a nullable field. The number of rows is
/// the one given, or else that of the first column, which there must be. The batch holds the
/// fields and columns as they are.
pub proof fn law_when_columns_make_a_batch(
    fields: Seq<FieldView>,
    columns: Seq<ColumnView>,
    row_count: Option<nat>,
)
    ensures
        ({
            let fit = |rows: nat|
                columns.len() == fields.len() && forall|i: int|
                    0 <= i < columns.len() ==> {
                        &&& (#[trigger] columns[i]).cells.len() == rows
                        &&& columns[i].data_type == fields[i].data_type
                        &&& fields[i].nullable || forall|k: int|
                            0 <= k < columns[i].cells.len() ==> (
                            #[trigger] columns[i].cells[k]) is Some
                    };
            match (batch_outcome(fields, columns, row_count), row_count) {
                (Ok(b), Some(rows)) => {
                    &&& fit(rows)
                    &&& b.rows == rows
                    &&& b.fields == fields
                    &&& b.columns == columns
                },
                (Ok(b), None) => {
                    &&& columns.len() > 0
                    &&& fit(columns[0].cells.len())
                    &&& b.rows == columns[0].cells.len()
                    &&& b.fields == fields
                    &&& b.columns == columns
                },
                (Err(e), Some(rows)) => e is SchemaMismatch && !fit(rows),
                (Err(e), None) => e is SchemaMismatch && (columns.len() == 0 || !fit(
                    columns[0].cells.len(),
                )),
            }
        }),
{
    let n = columns.len();
    let rows = match row_count {
        Some(r) => r,
        None => columns[0].cells.len(),
    };
    let null_p = |i: int| !fields[i].nullable && columns[i].has_null();
    let short_p = |i: int| columns[i].cells.len() != rows;
    let type_p = |i: int| columns[i].data_type != fields[i].data_type;
    lemma_first_where(n, null_p);
    lemma_first_where(n, short_p);
    lemma_first_where(n, type_p);
    if fields.len() == n && !(row_count is None && n == 0) {
        if let Some(i) = first_where(n, null_p) {
            assert(null_p(i));
        } else if let Some(i) = first_where(n, short_p) {
            assert(short_p(i));
        } else if let Some(i) = first_where(n, type_p) {
            assert(type_p(i));
        } else {
            assert forall|i: int| 0 <= i < n implies {
                &&& (#[trigger] columns[i]).cells.len() == rows
                &&& columns[i].data_type == fields[i].data_type
                &&& fields[i].nullable || forall|k: int|
                    0 <= k < columns[i].cells.len() ==> (#[trigger] columns[i].cells[k]) is Some
            } by {
                assert(!null_p(i) && !short_p(i) && !type_p(i));
            }
        }
    }
}

/// Names are read as they are, one for each, in order.
pub proof fn law_names_are_read_as_they_are(names: Seq<&str>, i: int)
    ensures
        texts(names).len() == names.len(),
        0 <= i < names.len() ==> texts(names)[i] == names[i]@,
{
}

/// A null under a field that takes none is told first, of the first such field.
pub proof fn law_first_null_is_told(
    fields: Seq<FieldView>,
    columns: Seq<ColumnView>,
    row_count: Option<nat>,
    i: int,
)
    requires
        columns.len() == fields.len(),
        0 <= i < columns.len(),
        !fields[i].nullable,
        columns[i].has_null(),
        forall|k: int| 0 <= k < i ==> (#[trigger] fields[k]).nullable || !columns[k].has_null(),
    ensures
        batch_outcome(fields, columns, row_count) == Err::<BatchView, ErrorView>(
            ErrorView::SchemaMismatch(
                "Invalid argument error: Column '"@ + fields[i].name
                    + "' is declared as non-nullable but contains null values"@,
            ),
        ),
{
    let null_p = |i: int| !fields[i].nullable && columns[i].has_null();
    assert forall|k: int| 0 <= k < i implies !#[trigger] null_p(k) by {
        assert(fields[k].nullable || !columns[k].has_null());
    }
    lemma_first_where_is(columns.len(), null_p, i);
}

/// A column with another number of cells than there are rows is told next.
pub proof fn law_short_columns_are_told(
    fields: Seq<FieldView>,
    columns: Seq<ColumnView>,
    row_count: Option<nat>,
    i: int,
)
    requires
        columns.len() == fields.len(),
        0 <= i < columns.len(),
        forall|k: int|
            0 <= k < columns.len() ==> (#[trigger] fields[k]).nullable || !columns[k].has_null(),
        columns[i].cells.len() != (match row_count {
            Some(rows) => rows,
            None => columns[0].cells.len(),
        }),
    ensures
        batch_outcome(fields, columns, row_count) == Err::<BatchView, ErrorView>(
            ErrorView::SchemaMismatch(
                if row_count is Some {
                    "Invalid argument error: all columns in a record batch must have the specified row count"@
                } else {
                    "Invalid argument error: all columns in a record batch must have the same length"@
                },
            ),
        ),
{
    let rows = match row_count {
        Some(r) => r,
        None => columns[0].cells.len(),
    };
    let null_p = |i: int| !fields[i].nullable && columns[i].has_null();
    let short_p = |i: int| columns[i].cells.len() != rows;
    lemma_first_where(columns.len(), null_p);
    lemma_first_where(columns.len(), short_p);
    assert forall|k: int| 0 <= k < columns.len() implies !#[trigger] null_p(k) by {
        assert(fields[k].nullable || !columns[k].has_null());
    }
    assert(short_p(i));
}

/// A column of another type than its field's is told last, of the first such field.
pub proof fn law_first_other_type_is_told(
    fields: Seq<FieldView>,
    columns: Seq<ColumnView>,
    row_count: Option<nat>,
    i: int,
)
    requires
        columns.len() == fields.len(),
        0 <= i < columns.len(),
        forall|k: int|
            0 <= k < columns.len() ==> {
                &&& (#[trigger] fields[k]).nullable || !columns[k].has_null()
                &&& columns[k].cells.len() == (match row_count {
                    Some(rows) => rows,
                    None => columns[0].cells.len(),
                })
            },
        columns[i].data_type != fields[i].data_type,
        forall|k: int| 0 <= k < i ==> (#[trigger] fields[k]).data_type == columns[k].data_type,
    ensures
        batch_outcome(fields, columns, row_count) == Err::<BatchView, ErrorView>(
            ErrorView::SchemaMismatch(
                "Invalid argument error: column types must match schema types, expected "@
                    + display_name(fields[i].data_type) + " but found "@ + display_name(
                    columns[i].data_type,
                ) + " at column index "@ + decimal(i as nat),
            ),
        ),
{
    let rows = match row_count {
        Some(r) => r,
        None => columns[0].cells.len(),
    };
    let null_p = |i: int| !fields[i].nullable && columns[i].has_null();
    let short_p = |i: int| columns[i].cells.len() != rows;
    let type_p = |i: int| columns[i].data_type != fields[i].data_type;
    lemma_first_where(columns.len(), null_p);
    lemma_first_where(columns.len(), short_p);
    assert forall|k: int| 0 <= k < columns.len() implies !#[trigger] null_p(k) by {
        assert(fields[k].nullable || !columns[k].has_null());
    }
    assert forall|k: int| 0 <= k < columns.len() implies !#[trigger] short_p(k) by {
        assert(fields[k].nullable || !columns[k].has_null());
    }
    assert forall|k: int| 0 <= k < i implies !#[trigger] type_p(k) by {
        assert(fields[k].data_type == columns[k].data_type);
    }
    lemma_first_where_is(columns.len(), type_p, i);
}

} // verus!
