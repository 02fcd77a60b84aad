//! Aggregate: grouping rows by key and reducing each group to one row.
//!
//! Groups are told apart by the exact encodings of their keys. Sums and means are
//! double-precision whatever the column's numeric type. The least and the greatest value are
//! found by comparing integers as integers and floats as doubles, both exactly, and are handed
//! out as they stand in the column.

use crate::batch::{
    batch_outcome, first_unknown, lemma_columns_make_a_batch, lemma_known_names, resolve_indices,
    texts, BatchView, RecordBatch,
};
use crate::column::{cell_view, fits_or_null, row_numbers, Cell, CellView, Column, ColumnView};
use crate::error::{same_outcome, Error, ErrorView};
use crate::float::{
    add_doubles, divide_double, integer_to_double, is_nan, law_adding_to_zero,
    law_small_integers_add_exactly, law_small_integers_are_exact, less, less_than, of_integer,
    quotient, sum, value, widen, widened, STEP,
};
use crate::groups::{
    codes, first_rows, int_groups, is_first, key_groups, lemma_first_rows, lemma_has_first,
    lemma_same_groups, RowGroups,
};
use crate::hash::named_columns;
use crate::keys::{
    column_types, columns_at, encode_keys, key_code, key_fits, row_key, row_keys,
};
use crate::rows::{
    first_where, ints, lemma_first_where, lemma_first_where_is, lemma_rows_where, rows_where,
};
use crate::schema::{display_name, index_of, DataType, DataTypeView, Field, FieldView, Schema};
use crate::text::text_eq;
use vstd::arithmetic::power2::pow2;
use vstd::prelude::*;

verus! {

/// How the rows of a group are reduced to one value.
#[derive(Debug, Clone, Copy, PartialEq, Eq, Structural, Hash)]
pub enum AggFunc {
    /// The number of values that are not null, of a column of any type.
    Count,
    /// The sum of the values, or null where there are none.
    Sum,
    /// The mean of the values, or null where there are none.
    Mean,
    /// The least value, or null where there are none. A `NaN` is neither less nor greater than
    /// any float: it is the result where it is the first value, and passed over otherwise.
    Min,
    /// The greatest value, or null where there are none, with `NaN` as for `Min`.
    Max,
}

/// The function of a name.
pub open spec fn function_named(name: Seq<char>) -> Option<AggFunc> {
    if name == "count"@ {
        Some(AggFunc::Count)
    } else if name == "sum"@ {
        Some(AggFunc::Sum)
    } else if name == "mean"@ || name == "avg"@ {
        Some(AggFunc::Mean)
    } else if name == "min"@ {
        Some(AggFunc::Min)
    } else if name == "max"@ {
        Some(AggFunc::Max)
    } else {
        None
    }
}

impl AggFunc {
    /// The function of a name, which is in lower case.
    pub fn parse(s: &str) -> (r: Option<Self>)
        ensures
            r == function_named(s@),
    {
        if text_eq(s, "count") {
            Some(AggFunc::Count)
        } else if text_eq(s, "sum") {
            Some(AggFunc::Sum)
        } else if text_eq(s, "mean") || text_eq(s, "avg") {
            Some(AggFunc::Mean)
        } else if text_eq(s, "min") {
            Some(AggFunc::Min)
        } else if text_eq(s, "max") {
            Some(AggFunc::Max)
        } else {
            None
        }
    }
}

/// One output column: a source column, how it is reduced, and the name of the result.
#[derive(Debug)]
pub struct Aggregation {
    /// The source column.
    pub column: String,
    /// How it is reduced.
    pub func: AggFunc,
    /// The name of the output column.
    pub alias: String,
}

/// The model of [`Aggregation`].
pub ghost struct AggregationView {
    pub column: Seq<char>,
    pub func: AggFunc,
    pub alias: Seq<char>,
}

impl View for Aggregation {
    type V = AggregationView;

    open spec fn view(&self) -> AggregationView {
        AggregationView { column: self.column@, func: self.func, alias: self.alias@ }
    }
}

impl Clone for Aggregation {
    fn clone(&self) -> (r: Self)
        ensures
            r == *self,
    {
        Aggregation { column: self.column.clone(), func: self.func, alias: self.alias.clone() }
    }
}

impl Aggregation {
    /// Reduces a column with a function, under the given name.
    pub fn new(column: &str, func: AggFunc, alias: &str) -> (a: Self)
        ensures
            a@ == (AggregationView { column: column@, func, alias: alias@ }),
    {
        Aggregation { column: column.to_owned(), func, alias: alias.to_owned() }
    }
}

/// Whether a column's values can be summed and compared.
pub open spec fn is_numeric(t: DataTypeView) -> bool {
    match t {
        DataTypeView::Int8
        | DataTypeView::Int16
        | DataTypeView::Int32
        | DataTypeView::Int64
        | DataTypeView::UInt8
        | DataTypeView::UInt16
        | DataTypeView::UInt32
        | DataTypeView::UInt64
        | DataTypeView::Float32
        | DataTypeView::Float64 => true,
        _ => false,
    }
}

/// The double nearest to a number; zero stands for what is no number.
pub open spec fn as_double(c: CellView) -> u64 {
    match c {
        CellView::Int8(v) => of_integer(v as int),
        CellView::Int16(v) => of_integer(v as int),
        CellView::Int32(v) => of_integer(v as int),
        CellView::Int64(v) => of_integer(v as int),
        CellView::UInt8(v) => of_integer(v as int),
        CellView::UInt16(v) => of_integer(v as int),
        CellView::UInt32(v) => of_integer(v as int),
        CellView::UInt64(v) => of_integer(v as int),
        CellView::Float32(bits) => widened(bits),
        CellView::Float64(bits) => bits,
        _ => 0,
    }
}

/// The integer that a cell of an integer type holds.
pub open spec fn as_integer(c: CellView) -> Option<int> {
    match c {
        CellView::Int8(v) => Some(v as int),
        CellView::Int16(v) => Some(v as int),
        CellView::Int32(v) => Some(v as int),
        CellView::Int64(v) => Some(v as int),
        CellView::UInt8(v) => Some(v as int),
        CellView::UInt16(v) => Some(v as int),
        CellView::UInt32(v) => Some(v as int),
        CellView::UInt64(v) => Some(v as int),
        _ => None,
    }
}

/// Whether a number is less than another: integers by their values, floats as doubles.
pub open spec fn is_below(a: CellView, b: CellView) -> bool {
    match (as_integer(a), as_integer(b)) {
        (Some(x), Some(y)) => x < y,
        _ => less(as_double(a), as_double(b)),
    }
}

/// The rows of a group whose cells are not null.
pub open spec fn present(column: ColumnView, group: Seq<int>) -> Seq<int>
    decreases group.len(),
{
    if group.len() == 0 {
        Seq::empty()
    } else {
        let rest = present(column, group.drop_last());
        if column.cells[group.last()] is Some {
            rest.push(group.last())
        } else {
            rest
        }
    }
}

/// The sum of the cells of rows, each added in turn as a double.
pub open spec fn total(column: ColumnView, rows: Seq<int>) -> u64
    decreases rows.len(),
{
    if rows.len() == 0 {
        0
    } else {
        sum(total(column, rows.drop_last()), as_double(column.cells[rows.last()]->0))
    }
}

/// Whether a row replaces the best one so far: its cell is less, or greater.
pub open spec fn beats(column: ColumnView, least: bool, row: int, best: int) -> bool {
    let a = column.cells[row]->0;
    let b = column.cells[best]->0;
    if least {
        is_below(a, b)
    } else {
        is_below(b, a)
    }
}

/// The row of the least or the greatest cell: the first row, unless a later one beats it.
pub open spec fn best_row(column: ColumnView, least: bool, rows: Seq<int>) -> int
    decreases rows.len(),
{
    if rows.len() <= 1 {
        rows[0]
    } else {
        let best = best_row(column, least, rows.drop_last());
        if beats(column, least, rows.last(), best) {
            rows.last()
        } else {
            best
        }
    }
}

/// A group of a column reduced by a function.
pub open spec fn reduced(column: ColumnView, func: AggFunc, group: Seq<int>) -> Option<CellView> {
    let rows = present(column, group);
    match func {
        AggFunc::Count => Some(CellView::Int64(rows.len() as i64)),
        AggFunc::Sum => if rows.len() == 0 {
            None
        } else {
            Some(CellView::Float64(total(column, rows)))
        },
        AggFunc::Mean => if rows.len() == 0 {
            None
        } else {
            Some(CellView::Float64(quotient(total(column, rows), rows.len() as int)))
        },
        AggFunc::Min => if rows.len() == 0 {
            None
        } else {
            column.cells[best_row(column, true, rows)]
        },
        AggFunc::Max => if rows.len() == 0 {
            None
        } else {
            column.cells[best_row(column, false, rows)]
        },
    }
}

/// The type of a reduced column.
pub open spec fn reduced_type(t: DataTypeView, func: AggFunc) -> DataTypeView {
    match func {
        AggFunc::Count => DataTypeView::Int64,
        AggFunc::Sum => DataTypeView::Float64,
        AggFunc::Mean => DataTypeView::Float64,
        AggFunc::Min => t,
        AggFunc::Max => t,
    }
}

/// A column reduced over groups.
pub open spec fn reduced_column(
    column: ColumnView,
    func: AggFunc,
    groups: Seq<Seq<int>>,
) -> ColumnView {
    ColumnView {
        data_type: reduced_type(column.data_type, func),
        cells: groups.map_values(|g: Seq<int>| reduced(column, func, g)),
    }
}

/// The groups of a batch's rows: by key, in the order in which the keys first appear, or one
/// group of all rows where there is no key.
pub open spec fn row_groups(batch: BatchView, names: Seq<Seq<char>>) -> Seq<Seq<int>> {
    if names.len() == 0 {
        seq![Seq::new(batch.rows, |i: int| i)]
    } else {
        key_groups(row_keys(named_columns(batch, names), batch.rows))
    }
}

/// The models of aggregations.
pub open spec fn aggregation_views(aggregations: Seq<Aggregation>) -> Seq<AggregationView> {
    aggregations.map_values(|a: Aggregation| a@)
}

/// The fields of the output: the keys, then the aggregations.
pub open spec fn output_fields(
    batch: BatchView,
    names: Seq<Seq<char>>,
    aggregations: Seq<AggregationView>,
) -> Seq<FieldView> {
    names.map_values(
        |name: Seq<char>|
            FieldView {
                name,
                data_type: batch.column_named(name).data_type,
                nullable: true,
            },
    ) + aggregations.map_values(
        |a: AggregationView|
            FieldView {
                name: a.alias,
                data_type: reduced_type(batch.column_named(a.column).data_type, a.func),
                nullable: !(a.func is Count),
            },
    )
}

/// The columns of the output: the keys of each group's first row, then the aggregations.
pub open spec fn output_columns(
    batch: BatchView,
    names: Seq<Seq<char>>,
    aggregations: Seq<AggregationView>,
) -> Seq<ColumnView> {
    let groups = row_groups(batch, names);
    names.map_values(
        |name: Seq<char>|
            batch.column_named(name).take(groups.map_values(|g: Seq<int>| Some(g[0]))),
    ) + aggregations.map_values(
        |a: AggregationView| reduced_column(batch.column_named(a.column), a.func, groups),
    )
}

/// Whether an aggregation names an unknown column, or one that its function does not take.
pub open spec fn is_refused(batch: BatchView, a: AggregationView) -> bool {
    index_of(batch.fields, a.column) is None || (!(a.func is Count) && !is_numeric(
        batch.column_named(a.column).data_type,
    ))
}

/// The first aggregation that is refused.
pub open spec fn first_refused(batch: BatchView, aggregations: Seq<AggregationView>) -> Option<
    int,
> {
    first_where(aggregations.len(), |i: int| is_refused(batch, aggregations[i]))
}

/// What [`aggregate`] gives.
pub open spec fn aggregate_outcome(
    batch: BatchView,
    names: Seq<Seq<char>>,
    aggregations: Seq<AggregationView>,
) -> Result<BatchView, ErrorView> {
    match first_unknown(batch.fields, names) {
        Some(i) => Err(ErrorView::UnknownColumn(names[i])),
        None => match first_refused(batch, aggregations) {
            Some(i) => Err(
                if index_of(batch.fields, aggregations[i].column) is None {
                    ErrorView::UnknownColumn(aggregations[i].column)
                } else {
                    ErrorView::UnsupportedType(
                        display_name(batch.column_named(aggregations[i].column).data_type),
                    )
                },
            ),
            None => batch_outcome(
                output_fields(batch, names, aggregations),
                output_columns(batch, names, aggregations),
                None,
            ),
        },
    }
}

/// The double nearest to a number.
fn to_double(c: &Cell) -> (r: u64)
    ensures
        r == as_double(c@),
{
    match c {
        Cell::Int8(v) => integer_to_double(*v as i128),
        Cell::Int16(v) => integer_to_double(*v as i128),
        Cell::Int32(v) => integer_to_double(*v as i128),
        Cell::Int64(v) => integer_to_double(*v as i128),
        Cell::UInt8(v) => integer_to_double(*v as i128),
        Cell::UInt16(v) => integer_to_double(*v as i128),
        Cell::UInt32(v) => integer_to_double(*v as i128),
        Cell::UInt64(v) => integer_to_double(*v as i128),
        Cell::Float32(bits) => widen(*bits),
        Cell::Float64(bits) => *bits,
        _ => 0,
    }
}

/// The integer that a cell of an integer type holds.
fn to_integer(c: &Cell) -> (r: Option<i128>)
    ensures
        match r {
            Some(i) => as_integer(c@) == Some(i as int),
            None => as_integer(c@) is None,
        },
{
    match c {
        Cell::Int8(v) => Some(*v as i128),
        Cell::Int16(v) => Some(*v as i128),
        Cell::Int32(v) => Some(*v as i128),
        Cell::Int64(v) => Some(*v as i128),
        Cell::UInt8(v) => Some(*v as i128),
        Cell::UInt16(v) => Some(*v as i128),
        Cell::UInt32(v) => Some(*v as i128),
        Cell::UInt64(v) => Some(*v as i128),
        _ => None,
    }
}

/// Whether a number is less than another.
fn below(a: &Cell, b: &Cell) -> (r: bool)
    ensures
        r == is_below(a@, b@),
{
    match (to_integer(a), to_integer(b)) {
        (Some(x), Some(y)) => x < y,
        _ => less_than(to_double(a), to_double(b)),
    }
}

fn numeric_supported(t: &DataType) -> (r: bool)
    ensures
        r == is_numeric(t@),
{
    match t {
        DataType::Int8
        | DataType::Int16
        | DataType::Int32
        | DataType::Int64
        | DataType::UInt8
        | DataType::UInt16
        | DataType::UInt32
        | DataType::UInt64
        | DataType::Float32
        | DataType::Float64 => true,
        _ => false,
    }
}

/// The number and the sum of the cells of a group that are not null.
fn count_and_sum(column: &Column, group: &Vec<usize>) -> (r: (usize, u64))
    requires
        forall|k: int| 0 <= k < group@.len() ==> (#[trigger] group@[k]) < column@.cells.len(),
    ensures
        r.0 == present(column@, ints(group@)).len(),
        r.1 == total(column@, present(column@, ints(group@))),
        r.0 <= group@.len(),
{
    let ghost rows = ints(group@);
    let mut n: usize = 0;
    let mut acc: u64 = 0;
    let mut k: usize = 0;
    assert(rows.take(0) =~= Seq::empty());
    while k < group.len()
        invariant
            k <= group@.len(),
            n <= k,
            rows == ints(group@),
            forall|k: int| 0 <= k < group@.len() ==> (#[trigger] group@[k]) < column@.cells.len(),
            n == present(column@, rows.take(k as int)).len(),
            acc == total(column@, present(column@, rows.take(k as int))),
        decreases group@.len() - k,
    {
        let row = group[k];
        proof {
            assert(rows.take(k as int + 1).drop_last() =~= rows.take(k as int));
            assert(rows.take(k as int + 1).last() == row);
        }
        match column.cell(row) {
            Some(c) => {
                let ghost before = present(column@, rows.take(k as int));
                assert(before.push(row as int).drop_last() =~= before);
                acc = add_doubles(acc, to_double(c));
                n += 1;
            },
            None => {},
        }
        k += 1;
    }
    assert(rows.take(k as int) =~= rows);
    (n, acc)
}

/// The row of the least or the greatest cell of a group.
fn find_best(column: &Column, least: bool, group: &Vec<usize>) -> (r: Option<usize>)
    requires
        forall|k: int| 0 <= k < group@.len() ==> (#[trigger] group@[k]) < column@.cells.len(),
    ensures
        match r {
            Some(b) => {
                &&& b < column@.cells.len()
                &&& present(column@, ints(group@)).len() > 0
                &&& b == best_row(column@, least, present(column@, ints(group@)))
            },
            None => present(column@, ints(group@)).len() == 0,
        },
{
    let ghost rows = ints(group@);
    let mut best: Option<usize> = None;
    let mut k: usize = 0;
    assert(rows.take(0) =~= Seq::empty());
    while k < group.len()
        invariant
            k <= group@.len(),
            rows == ints(group@),
            forall|k: int| 0 <= k < group@.len() ==> (#[trigger] group@[k]) < column@.cells.len(),
            match best {
                Some(b) => {
                    let seen = present(column@, rows.take(k as int));
                    &&& b < column@.cells.len()
                    &&& column@.cells[b as int] is Some
                    &&& seen.len() > 0
                    &&& b == best_row(column@, least, seen)
                },
                None => present(column@, rows.take(k as int)).len() == 0,
            },
        decreases group@.len() - k,
    {
        let row = group[k];
        proof {
            assert(rows.take(k as int + 1).drop_last() =~= rows.take(k as int));
            assert(rows.take(k as int + 1).last() == row);
        }
        match column.cell(row) {
            Some(c) => {
                let ghost before = present(column@, rows.take(k as int));
                assert(before.push(row as int).drop_last() =~= before);
                best = match best {
                    None => Some(row),
                    Some(at) => {
                        let better = match column.cell(at) {
                            Some(b) => if least {
                                below(c, b)
                            } else {
                                below(b, c)
                            },
                            None => false,
                        };
                        if better {
                            Some(row)
                        } else {
                            Some(at)
                        }
                    },
                };
            },
            None => {},
        }
        k += 1;
    }
    assert(rows.take(k as int) =~= rows);
    best
}

/// Whether groups are made of rows below `n`.
pub open spec fn groups_within(groups: Seq<Vec<usize>>, n: nat) -> bool {
    forall|g: int, k: int|
        0 <= g < groups.len() && 0 <= k < groups[g]@.len() ==> (#[trigger] groups[g]@[k]) < n
}

/// A column reduced over groups.
fn reduce_column(column: &Column, func: AggFunc, groups: &Vec<Vec<usize>>) -> (r: Column)
    requires
        groups_within(groups@, column@.cells.len()),
        forall|g: int|
            0 <= g < groups@.len() ==> (#[trigger] groups@[g])@.len() <= 0x20_0000_0000_0000,
    ensures
        r@ == reduced_column(column@, func, int_groups(groups@)),
{
    let ghost target = reduced_column(column@, func, int_groups(groups@));
    match func {
        AggFunc::Min | AggFunc::Max => {
            let least = match func {
                AggFunc::Min => true,
                _ => false,
            };
            let mut winners: Vec<Option<usize>> = Vec::new();
            let mut g: usize = 0;
            while g < groups.len()
                invariant
                    g <= groups@.len(),
                    winners@.len() == g,
                    func is Min || func is Max,
                    least == (func is Min),
                    groups_within(groups@, column@.cells.len()),
                    target == reduced_column(column@, func, int_groups(groups@)),
                    forall|j: int|
                        0 <= j < g ==> match #[trigger] winners@[j] {
                            Some(i) => i < column@.cells.len() && target.cells[j]
                                == column@.cells[i as int],
                            None => target.cells[j] is None,
                        },
                decreases groups@.len() - g,
            {
                assert forall|k: int| 0 <= k < groups@[g as int]@.len() implies (
                #[trigger] groups@[g as int]@[k]) < column@.cells.len() by {}
                winners.push(find_best(column, least, &groups[g]));
                g += 1;
            }
            let r = column.take(&winners);
            assert(r@.cells =~= target.cells);
            r
        },
        _ => {
            let mut cells: Vec<Option<Cell>> = Vec::new();
            let mut g: usize = 0;
            while g < groups.len()
                invariant
                    g <= groups@.len(),
                    cells@.len() == g,
                    !(func is Min),
                    !(func is Max),
                    groups_within(groups@, column@.cells.len()),
                    forall|g: int|
                        0 <= g < groups@.len() ==> (#[trigger] groups@[g])@.len()
                            <= 0x20_0000_0000_0000,
                    target == reduced_column(column@, func, int_groups(groups@)),
                    forall|j: int|
                        0 <= j < g ==> cell_view(#[trigger] cells@[j]) == target.cells[j]
                            && fits_or_null(target.data_type, cell_view(cells@[j])),
                decreases groups@.len() - g,
            {
                assert forall|k: int| 0 <= k < groups@[g as int]@.len() implies (
                #[trigger] groups@[g as int]@[k]) < column@.cells.len() by {}
                let (n, acc) = count_and_sum(column, &groups[g]);
                assert(groups@[g as int]@.len() <= 0x20_0000_0000_0000);
                let cell = match func {
                    AggFunc::Count => Some(Cell::Int64(n as i64)),
                    AggFunc::Sum => if n == 0 {
                        None
                    } else {
                        Some(Cell::Float64(acc))
                    },
                    _ => if n == 0 {
                        None
                    } else {
                        Some(Cell::Float64(divide_double(acc, n as u64)))
                    },
                };
                cells.push(cell);
                g += 1;
            }
            let data_type = match func {
                AggFunc::Count => DataType::Int64,
                _ => DataType::Float64,
            };
            proof {
                assert(data_type@ == target.data_type);
                assert forall|i: int| 0 <= i < cells@.len() implies fits_or_null(
                    data_type@,
                    cell_view(#[trigger] cells@[i]),
                ) by {}
                assert(cells@.map_values(|c: Option<Cell>| cell_view(c)) =~= target.cells);
            }
            Column::try_new(data_type, cells).unwrap()
        },
    }
}

/// The numbers below `n`.
fn all_rows(n: usize) -> (rows: Vec<usize>)
    ensures
        ints(rows@) == Seq::new(n as nat, |i: int| i),
        rows@.len() == n,
        forall|k: int| 0 <= k < n ==> #[trigger] rows@[k] == k,
{
    let mut rows: Vec<usize> = Vec::new();
    let mut i: usize = 0;
    while i < n
        invariant
            i <= n,
            rows@.len() == i,
            forall|k: int| 0 <= k < i ==> #[trigger] rows@[k] == k,
        decreases n - i,
    {
        rows.push(i);
        i += 1;
    }
    assert(ints(rows@) =~= Seq::new(n as nat, |i: int| i));
    rows
}

/// The groups of a batch's rows over the columns at the given positions.
fn group_rows(batch: &RecordBatch, indices: &Vec<usize>) -> (groups: Vec<Vec<usize>>)
    requires
        forall|k: int| 0 <= k < indices@.len() ==> (#[trigger] indices@[k]) < batch@.columns.len(),
    ensures
        int_groups(groups@) == (if indices@.len() == 0 {
            seq![Seq::new(batch@.rows, |i: int| i)]
        } else {
            key_groups(row_keys(columns_at(batch@.columns, indices@), batch@.rows))
        }),
        groups_within(groups@, batch@.rows),
        forall|g: int|
            0 <= g < groups@.len() ==> {
                &&& (#[trigger] groups@[g])@.len() <= batch@.rows
                &&& indices@.len() > 0 ==> groups@[g]@.len() > 0
            },
{
    if indices.len() == 0 {
        let rows = all_rows(batch.num_rows());
        let mut groups: Vec<Vec<usize>> = Vec::new();
        groups.push(rows);
        assert(int_groups(groups@) =~= seq![Seq::new(batch@.rows, |i: int| i)]);
        return groups;
    }
    let rows = encode_keys(batch, indices, false);
    let ghost columns = columns_at(batch@.columns, indices@);
    let ghost keys = row_keys(columns, batch@.rows);
    let ghost names = codes(rows@);
    proof {
        let types = column_types(columns);
        assert forall|i: int, j: int| 0 <= i < names.len() && 0 <= j < names.len() implies ((
        #[trigger] names[i] == #[trigger] names[j]) <==> keys[i] == keys[j]) by {
            assert(rows@[i]@ == key_code(keys[i]));
            assert(rows@[j]@ == key_code(keys[j]));
            assert(key_fits(types, keys[j]));
        }
        lemma_same_groups(names, keys);
    }
    let found = RowGroups::of_codes(&rows);
    proof {
        let n = rows@.len();
        let leaders = found.leaders@;
        lemma_rows_where(n, |i: int| is_first(names, i));
        assert(ints(leaders) == first_rows(names));
        assert forall|g: int| 0 <= g < leaders.len() implies ({
            let group = (#[trigger] found.groups@[g])@;
            &&& ints(group) == key_groups(names)[g]
            &&& 0 < group.len() <= n
            &&& forall|k: int| 0 <= k < group.len() ==> (#[trigger] group[k]) < n
        }) by {
            let leader = ints(leaders)[g];
            assert(leader == leaders[g]);
            let like = |i: int| names[i] == names[leader];
            lemma_rows_where(n, like);
            assert(like(leader));
            let group = found.groups@[g]@;
            assert(ints(group).contains(leader));
            assert forall|k: int| 0 <= k < group.len() implies (#[trigger] group[k]) < n by {
                assert(ints(group)[k] == group[k]);
            }
        }
        assert(int_groups(found.groups@) =~= key_groups(names));
        assert(groups_within(found.groups@, batch@.rows)) by {
            assert forall|g: int, k: int|
                0 <= g < found.groups@.len() && 0 <= k < found.groups@[g]@.len() implies (
            #[trigger] found.groups@[g]@[k]) < batch@.rows by {
                let group = found.groups@[g]@;
                assert(group[k] < n);
            }
        }
    }
    found.groups
}

/// Groups a batch by the named columns and reduces each group with the aggregations.
///
/// With no column to group by, all rows are one group, also where there are none. The groups
/// come in the order in which their keys first appear. The output has the columns grouped by,
/// nullable, and then one column per aggregation, named by its alias. A batch of more than
/// `2^53` rows is not taken: every count is exact as a double.
///
/// Fails with `UnknownColumn` for a name that the schema does not have, with `UnsupportedType`
/// for a column that is not numeric under any function but a count, and with `SchemaMismatch`
/// where the output would have no column.
pub fn aggregate(batch: &RecordBatch, group_by: &[&str], aggregations: &[Aggregation]) -> (r:
    Result<RecordBatch, Error>)
    requires
        batch@.rows <= 0x20_0000_0000_0000,
    ensures
        same_outcome(
            r,
            aggregate_outcome(batch@, texts(group_by@), aggregation_views(aggregations@)),
        ),
{
    let ghost names = texts(group_by@);
    let ghost aggs = aggregation_views(aggregations@);
    let indices = match resolve_indices(batch.schema(), group_by) {
        Ok(v) => v,
        Err(e) => {
            return Err(e);
        },
    };
    let ghost refused = |i: int| is_refused(batch@, aggs[i]);
    let mut sources: Vec<usize> = Vec::new();
    let mut a: usize = 0;
    while a < aggregations.len()
        invariant
            a <= aggregations@.len(),
            sources@.len() == a,
            batch@.wf(),
            names == texts(group_by@),
            aggs == aggregation_views(aggregations@),
            first_unknown(batch@.fields, names) is None,
            refused == (|i: int| is_refused(batch@, aggs[i])),
            forall|j: int| 0 <= j < a ==> !#[trigger] refused(j),
            forall|j: int|
                0 <= j < a ==> {
                    &&& (#[trigger] sources@[j]) < batch@.columns.len()
                    &&& index_of(batch@.fields, aggs[j].column) == Some(sources@[j] as int)
                },
        decreases aggregations@.len() - a,
    {
        let agg = &aggregations[a];
        assert(aggs[a as int] == agg@);
        match batch.schema().index_of(agg.column.as_str()) {
            Some(i) => {
                let t = batch.column(i).data_type();
                let counts = match agg.func {
                    AggFunc::Count => true,
                    _ => false,
                };
                if !counts && !numeric_supported(t) {
                    proof {
                        assert(refused(a as int));
                        lemma_first_where_is(aggs.len(), refused, a as int);
                    }
                    return Err(Error::unsupported_type(t.name().as_str()));
                }
                assert(!refused(a as int));
                sources.push(i);
            },
            None => {
                proof {
                    assert(refused(a as int));
                    lemma_first_where_is(aggs.len(), refused, a as int);
                }
                return Err(Error::unknown_column(agg.column.as_str()));
            },
        }
        a += 1;
    }
    proof {
        lemma_first_where(aggs.len(), refused);
        assert(columns_at(batch@.columns, indices@) =~= named_columns(batch@, names));
    }
    let groups = group_rows(batch, &indices);
    let ghost model = row_groups(batch@, names);
    assert(int_groups(groups@) == model);

    let ghost expected_fields = output_fields(batch@, names, aggs);
    let ghost expected_columns = output_columns(batch@, names, aggs);
    let mut fields: Vec<Field> = Vec::new();
    let mut columns: Vec<Column> = Vec::new();
    if group_by.len() > 0 {
        let mut representatives: Vec<Option<usize>> = Vec::new();
        let mut g: usize = 0;
        while g < groups.len()
            invariant
                g <= groups@.len(),
                representatives@.len() == g,
                int_groups(groups@) == model,
                groups_within(groups@, batch@.rows),
                forall|g: int| 0 <= g < groups@.len() ==> (#[trigger] groups@[g])@.len() > 0,
                forall|j: int|
                    0 <= j < g ==> {
                        &&& #[trigger] representatives@[j] == Some(groups@[j]@[0])
                        &&& groups@[j]@[0] < batch@.rows
                    },
            decreases groups@.len() - g,
        {
            assert(groups@[g as int]@.len() > 0);
            assert(groups@[g as int]@[0] < batch@.rows);
            representatives.push(Some(groups[g][0]));
            g += 1;
        }
        proof {
            assert(row_numbers(representatives@) =~= model.map_values(|g: Seq<int>| Some(g[0])))
                by {
                assert forall|j: int| 0 <= j < model.len() implies row_numbers(representatives@)[j]
                    == Some(model[j][0]) by {
                    assert(representatives@[j] == Some(groups@[j]@[0]));
                    assert(model[j] == ints(groups@[j]@));
                }
            }
        }
        let mut k: usize = 0;
        while k < group_by.len()
            invariant
                k <= group_by@.len() == indices@.len() == names.len(),
                fields@.len() == k,
                columns@.len() == k,
                batch@.wf(),
                names == texts(group_by@),
                expected_fields == output_fields(batch@, names, aggs),
                expected_columns == output_columns(batch@, names, aggs),
                model == row_groups(batch@, names),
                row_numbers(representatives@) == model.map_values(|g: Seq<int>| Some(g[0])),
                forall|j: int|
                    0 <= j < representatives@.len() ==> match #[trigger] representatives@[j] {
                        Some(i) => i < batch@.rows,
                        None => true,
                    },
                forall|i: int|
                    0 <= i < indices@.len() ==> {
                        &&& (#[trigger] indices@[i]) < batch@.fields.len()
                        &&& index_of(batch@.fields, group_by@[i]@) == Some(indices@[i] as int)
                    },
                forall|j: int| 0 <= j < k ==> (#[trigger] fields@[j])@ == expected_fields[j],
                forall|j: int| 0 <= j < k ==> (#[trigger] columns@[j])@ == expected_columns[j],
            decreases group_by@.len() - k,
        {
            let column = batch.column(indices[k]);
            assert(names[k as int] == group_by@[k as int]@);
            assert(column@ == batch@.column_named(names[k as int]));
            fields.push(Field::new(group_by[k], column.data_type().clone(), true));
            columns.push(column.take(&representatives));
            k += 1;
        }
    }
    let mut a: usize = 0;
    while a < aggregations.len()
        invariant
            a <= aggregations@.len() == sources@.len() == aggs.len(),
            fields@.len() == names.len() + a,
            columns@.len() == names.len() + a,
            batch@.wf(),
            batch@.rows <= 0x20_0000_0000_0000,
            aggs == aggregation_views(aggregations@),
            expected_fields == output_fields(batch@, names, aggs),
            expected_columns == output_columns(batch@, names, aggs),
            model == row_groups(batch@, names),
            int_groups(groups@) == model,
            groups_within(groups@, batch@.rows),
            forall|g: int| 0 <= g < groups@.len() ==> (#[trigger] groups@[g])@.len() <= batch@.rows,
            forall|j: int|
                0 <= j < aggs.len() ==> {
                    &&& (#[trigger] sources@[j]) < batch@.columns.len()
                    &&& index_of(batch@.fields, aggs[j].column) == Some(sources@[j] as int)
                },
            forall|j: int| 0 <= j < fields@.len() ==> (#[trigger] fields@[j])@ == expected_fields[j],
            forall|j: int|
                0 <= j < columns@.len() ==> (#[trigger] columns@[j])@ == expected_columns[j],
        decreases aggregations@.len() - a,
    {
        let agg = &aggregations[a];
        assert(aggs[a as int] == agg@);
        let column = batch.column(sources[a]);
        assert(column@ == batch@.column_named(agg@.column));
        let out = reduce_column(column, agg.func, &groups);
        let nullable = match agg.func {
            AggFunc::Count => false,
            _ => true,
        };
        fields.push(Field::new(agg.alias.as_str(), out.data_type().clone(), nullable));
        columns.push(out);
        a += 1;
    }
    let schema = Schema::new(fields);
    proof {
        assert(schema@ =~= expected_fields);
        assert(columns@.map_values(|c: Column| c@) =~= expected_columns);
    }
    RecordBatch::try_new(schema, columns)
}

/// Where no name is unknown and no aggregation is refused, there is one output row per group,
/// unless the output would have no column.
pub proof fn law_one_row_per_group(
    batch: BatchView,
    names: Seq<Seq<char>>,
    aggregations: Seq<AggregationView>,
)
    requires
        batch.wf(),
        first_unknown(batch.fields, names) is None,
        first_refused(batch, aggregations) is None,
        names.len() + aggregations.len() > 0,
    ensures
        aggregate_outcome(batch, names, aggregations) == Ok::<BatchView, ErrorView>(
            BatchView {
                fields: output_fields(batch, names, aggregations),
                columns: output_columns(batch, names, aggregations),
                rows: row_groups(batch, names).len(),
            },
        ),
{
    let fields = output_fields(batch, names, aggregations);
    let columns = output_columns(batch, names, aggregations);
    let groups = row_groups(batch, names);
    lemma_known_names(batch.fields, names);
    assert forall|i: int| 0 <= i < columns.len() implies {
        &&& (#[trigger] columns[i]).cells.len() == groups.len()
        &&& columns[i].data_type == fields[i].data_type
        &&& columns[i].has_null() ==> fields[i].nullable
    } by {
        if i >= names.len() {
            let a = aggregations[i - names.len()];
            assert(columns[i] == reduced_column(batch.column_named(a.column), a.func, groups));
        }
    }
    lemma_columns_make_a_batch(fields, columns, groups.len());
}

/// Without a column to group by there is one group, of all rows, also where there are none: its
/// count is then zero and every other reduction null.
pub proof fn law_whole_table_is_one_group(batch: BatchView, column: ColumnView, func: AggFunc)
    ensures
        row_groups(batch, Seq::empty()).len() == 1,
        batch.rows == 0 ==> reduced(column, func, row_groups(batch, Seq::empty())[0]) == (
        if func is Count {
            Some(CellView::Int64(0))
        } else {
            None
        }),
{
}

/// Every row is in one group, and the rows of a group are those with its key.
pub proof fn law_groups_partition_rows(batch: BatchView, names: Seq<Seq<char>>, row: int) -> (g: int)
    requires
        0 <= row < batch.rows,
    ensures
        0 <= g < row_groups(batch, names).len(),
        row_groups(batch, names)[g].contains(row),
        forall|h: int|
            0 <= h < row_groups(batch, names).len() && #[trigger] row_groups(batch, names)[
                h
            ].contains(row) ==> h == g,
{
    let groups = row_groups(batch, names);
    if names.len() == 0 {
        assert(groups[0][row] == row);
        0
    } else {
        let keys = row_keys(named_columns(batch, names), batch.rows);
        let firsts = first_rows(keys);
        let f = lemma_has_first(keys, row);
        let g = choose|g: int| 0 <= g < firsts.len() && firsts[g] == f;
        let like = |i: int| keys[i] == keys[f];
        lemma_rows_where(keys.len(), like);
        assert(like(row));
        assert(groups[g] == rows_where(keys.len(), like));
        lemma_first_rows(keys);
        assert forall|h: int| 0 <= h < groups.len() && #[trigger] groups[h].contains(
            row,
        ) implies h == g by {
            let like_h = |i: int| keys[i] == keys[firsts[h]];
            lemma_rows_where(keys.len(), like_h);
            assert(groups[h] == rows_where(keys.len(), like_h));
            let k = choose|k: int| 0 <= k < groups[h].len() && groups[h][k] == row;
            assert(like_h(groups[h][k]));
            assert(keys[firsts[h]] == keys[firsts[g]]);
            if h < g {
                assert(keys[firsts[h]] != keys[firsts[g]]);
            } else if g < h {
                assert(keys[firsts[g]] != keys[firsts[h]]);
            }
        }
        g
    }
}

/// Groups come in the order in which their keys first appear.
pub proof fn law_groups_in_order_of_appearance(
    batch: BatchView,
    names: Seq<Seq<char>>,
    a: int,
    b: int,
)
    requires
        names.len() > 0,
        0 <= a < b < row_groups(batch, names).len(),
    ensures
        row_groups(batch, names)[a].len() > 0,
        row_groups(batch, names)[b].len() > 0,
        row_groups(batch, names)[a][0] < row_groups(batch, names)[b][0],
{
    let keys = row_keys(named_columns(batch, names), batch.rows);
    lemma_first_rows(keys);
    lemma_group_starts_with_leader(keys, a);
    lemma_group_starts_with_leader(keys, b);
}

proof fn lemma_group_starts_with_leader<K>(keys: Seq<K>, g: int)
    requires
        0 <= g < first_rows(keys).len(),
    ensures
        key_groups(keys)[g].len() > 0,
        key_groups(keys)[g][0] == first_rows(keys)[g],
{
    let f = first_rows(keys)[g];
    let p = |i: int| is_first(keys, i);
    lemma_rows_where(keys.len(), p);
    assert(p(f));
    let like = |i: int| keys[i] == keys[f];
    lemma_rows_where(keys.len(), like);
    let group = key_groups(keys)[g];
    assert(like(f));
    let k = choose|k: int| 0 <= k < group.len() && group[k] == f;
    assert(like(group[0]));
    if k > 0 {
        assert(group[0] < group[k]);
        assert(keys[group[0]] != keys[f]);
    }
}

/// Whether a cell is a float that is no number.
pub open spec fn is_nan_cell(c: CellView) -> bool {
    as_integer(c) is None && is_nan(as_double(c))
}

/// Where no cell is a `NaN`, the row chosen is one of the rows, and none of them beats it.
pub proof fn law_best_is_unbeaten(column: ColumnView, least: bool, rows: Seq<int>, k: int)
    requires
        column.wf(),
        0 <= k < rows.len(),
        forall|j: int|
            0 <= j < rows.len() ==> {
                &&& 0 <= #[trigger] rows[j] < column.cells.len()
                &&& column.cells[rows[j]] is Some
                &&& !is_nan_cell(column.cells[rows[j]]->0)
            },
    ensures
        rows.contains(best_row(column, least, rows)),
        !beats(column, least, rows[k], best_row(column, least, rows)),
    decreases rows.len(),
{
    if rows.len() > 1 {
        let rest = rows.drop_last();
        let best = best_row(column, least, rest);
        assert forall|j: int| 0 <= j < rest.len() implies {
            &&& 0 <= #[trigger] rest[j] < column.cells.len()
            &&& column.cells[rest[j]] is Some
            &&& !is_nan_cell(column.cells[rest[j]]->0)
        } by {
            assert(rest[j] == rows[j]);
        }
        let last = rows.len() - 1;
        if k < last {
            law_best_is_unbeaten(column, least, rest, k);
            assert(rest[k] == rows[k]);
        } else {
            law_best_is_unbeaten(column, least, rest, 0);
        }
        let at = choose|at: int| 0 <= at < rest.len() && rest[at] == best;
        assert(rows[at] == best);
        assert(rows[last] == rows.last());
        assert(rows.contains(best_row(column, least, rows)));
        lemma_integers_stand_together(column, rows[k], best);
        lemma_integers_stand_together(column, rows[last], best);
    } else {
        assert(rows[0] == best_row(column, least, rows));
    }
}

/// Whether a column holds integers.
pub open spec fn is_integer_type(t: DataTypeView) -> bool {
    match t {
        DataTypeView::Int8
        | DataTypeView::Int16
        | DataTypeView::Int32
        | DataTypeView::Int64
        | DataTypeView::UInt8
        | DataTypeView::UInt16
        | DataTypeView::UInt32
        | DataTypeView::UInt64 => true,
        _ => false,
    }
}

/// The cells of a column are all integers or none of them is.
proof fn lemma_integers_stand_together(column: ColumnView, a: int, b: int)
    requires
        column.wf(),
        0 <= a < column.cells.len(),
        0 <= b < column.cells.len(),
        column.cells[a] is Some,
        column.cells[b] is Some,
    ensures
        as_integer(column.cells[a]->0) is Some <==> as_integer(column.cells[b]->0) is Some,
        is_integer_type(column.data_type) ==> as_integer(column.cells[a]->0) is Some,
{
    assert(fits_or_null(column.data_type, column.cells[a]));
    assert(fits_or_null(column.data_type, column.cells[b]));
}

/// The rows with cells are those of the group whose cells are not null.
proof fn lemma_present(column: ColumnView, group: Seq<int>)
    ensures
        forall|j: int|
            0 <= j < present(column, group).len() ==> {
                &&& column.cells[#[trigger] present(column, group)[j]] is Some
                &&& group.contains(present(column, group)[j])
            },
        forall|k: int|
            0 <= k < group.len() && column.cells[#[trigger] group[k]] is Some ==> present(
                column,
                group,
            ).contains(group[k]),
    decreases group.len(),
{
    if group.len() > 0 {
        let rest = group.drop_last();
        let (all, fewer) = (present(column, group), present(column, rest));
        lemma_present(column, rest);
        assert forall|j: int| 0 <= j < all.len() implies {
            &&& column.cells[#[trigger] all[j]] is Some
            &&& group.contains(all[j])
        } by {
            if j < fewer.len() {
                assert(all[j] == fewer[j]);
                let k = choose|k: int| 0 <= k < rest.len() && rest[k] == fewer[j];
                assert(group[k] == fewer[j]);
            } else {
                assert(group[group.len() - 1] == all[j]);
            }
        }
        assert forall|k: int|
            0 <= k < group.len() && column.cells[#[trigger] group[k]] is Some implies all.contains(
            group[k],
        ) by {
            if k < rest.len() {
                assert(rest[k] == group[k]);
                assert(fewer.contains(rest[k]));
                let j = choose|j: int| 0 <= j < fewer.len() && fewer[j] == rest[k];
                assert(all[j] == group[k]);
            } else {
                assert(all[all.len() - 1] == group[k]);
            }
        }
    }
}

/// Of a column of integers of any size, the least and the greatest value of a group that has any
/// are values of the group, and no value of the group is less, or greater.
pub proof fn law_extremes_of_integers_are_exact(column: ColumnView, group: Seq<int>, k: int)
    requires
        column.wf(),
        is_integer_type(column.data_type),
        forall|j: int| 0 <= j < group.len() ==> 0 <= #[trigger] group[j] < column.cells.len(),
        0 <= k < group.len(),
        column.cells[group[k]] is Some,
    ensures
        match (
            reduced(column, AggFunc::Min, group),
            reduced(column, AggFunc::Max, group),
            as_integer(column.cells[group[k]]->0),
        ) {
            (Some(lo), Some(hi), Some(v)) => {
                &&& exists|j: int|
                    0 <= j < group.len() && column.cells[#[trigger] group[j]] == Some(lo)
                &&& exists|j: int|
                    0 <= j < group.len() && column.cells[#[trigger] group[j]] == Some(hi)
                &&& as_integer(lo) is Some
                &&& as_integer(hi) is Some
                &&& as_integer(lo)->0 <= v <= as_integer(hi)->0
            },
            _ => false,
        },
{
    let rows = present(column, group);
    lemma_present(column, group);
    assert(rows.contains(group[k]));
    let at = choose|at: int| 0 <= at < rows.len() && rows[at] == group[k];
    assert forall|j: int| 0 <= j < rows.len() implies {
        &&& 0 <= #[trigger] rows[j] < column.cells.len()
        &&& column.cells[rows[j]] is Some
        &&& !is_nan_cell(column.cells[rows[j]]->0)
    } by {
        assert(group.contains(rows[j]));
        let g = choose|g: int| 0 <= g < group.len() && group[g] == rows[j];
        assert(0 <= group[g] < column.cells.len());
        lemma_integers_stand_together(column, rows[j], rows[j]);
    }
    lemma_integers_stand_together(column, group[k], group[k]);
    law_best_is_unbeaten(column, true, rows, at);
    law_best_is_unbeaten(column, false, rows, at);
    let (least, most) = (best_row(column, true, rows), best_row(column, false, rows));
    let j = choose|j: int| 0 <= j < rows.len() && rows[j] == least;
    let l = choose|l: int| 0 <= l < rows.len() && rows[l] == most;
    assert(group.contains(rows[j]));
    assert(group.contains(rows[l]));
    let g = choose|g: int| 0 <= g < group.len() && group[g] == least;
    let h = choose|h: int| 0 <= h < group.len() && group[h] == most;
    assert(column.cells[group[g]] == column.cells[least]);
    assert(column.cells[group[h]] == column.cells[most]);
    lemma_integers_stand_together(column, least, group[k]);
    lemma_integers_stand_together(column, most, group[k]);
}

/// The exact sum of the integers of rows.
pub open spec fn exact_sum(values: Seq<int>) -> int
    decreases values.len(),
{
    if values.len() == 0 {
        0
    } else {
        exact_sum(values.drop_last()) + values.last()
    }
}

/// A sum of integers is exact as long as the integers and the sums on the way have no more than
/// 53 bits.
pub proof fn law_small_sums_are_exact(column: ColumnView, rows: Seq<int>, values: Seq<int>)
    requires
        rows.len() == values.len(),
        forall|k: int|
            0 <= k < rows.len() ==> as_double(column.cells[#[trigger] rows[k]]->0) == of_integer(
                values[k],
            ),
        forall|k: int| 0 <= k < values.len() ==> -2 * STEP < #[trigger] values[k] < 2 * STEP,
        forall|k: int|
            0 <= k <= values.len() ==> -2 * STEP < exact_sum(#[trigger] values.take(k)) < 2 * STEP,
    ensures
        total(column, rows) == of_integer(exact_sum(values)),
    decreases rows.len(),
{
    if rows.len() == 0 {
        law_small_integers_add_exactly(0, 0);
        law_small_integers_are_exact(0);
        law_adding_to_zero(of_integer(0));
    } else {
        let n = rows.len() - 1;
        let fewer = values.drop_last();
        assert forall|k: int| 0 <= k < n implies as_double(
            column.cells[#[trigger] rows.drop_last()[k]]->0,
        ) == of_integer(fewer[k]) by {
            assert(rows.drop_last()[k] == rows[k]);
        }
        assert forall|k: int| 0 <= k <= fewer.len() implies -2 * STEP < exact_sum(
            #[trigger] fewer.take(k),
        ) < 2 * STEP by {
            assert(fewer.take(k) =~= values.take(k));
        }
        law_small_sums_are_exact(column, rows.drop_last(), fewer);
        assert(fewer =~= values.take(n));
        assert(rows[n] == rows.last());
        law_small_integers_add_exactly(exact_sum(fewer), values[n]);
    }
}

/// The number of cells that are not null in all groups together.
pub open spec fn count_in_groups(column: ColumnView, groups: Seq<Seq<int>>) -> nat
    decreases groups.len(),
{
    if groups.len() == 0 {
        0
    } else {
        count_in_groups(column, groups.drop_last()) + present(column, groups.last()).len()
    }
}

/// The groups of the first `n` rows.
spec fn groups_so_far<K>(keys: Seq<K>, n: nat) -> Seq<Seq<int>> {
    rows_where(n, |i: int| is_first(keys, i)).map_values(
        |f: int| rows_where(n, |i: int| keys[i] == keys[f]),
    )
}

/// One row more in one of the groups.
proof fn lemma_count_one_more(column: ColumnView, groups: Seq<Seq<int>>, g: int, row: int)
    requires
        0 <= g < groups.len(),
    ensures
        count_in_groups(column, groups.update(g, groups[g].push(row))) == count_in_groups(
            column,
            groups,
        ) + present(column, seq![row]).len(),
    decreases groups.len(),
{
    let grown = groups.update(g, groups[g].push(row));
    reveal_with_fuel(present, 2);
    assert(groups[g].push(row).drop_last() =~= groups[g]);
    assert(seq![row].drop_last() =~= Seq::empty());
    if g == groups.len() - 1 {
        assert(grown.drop_last() =~= groups.drop_last());
    } else {
        assert(grown.drop_last() =~= groups.drop_last().update(
            g,
            groups.drop_last()[g].push(row),
        ));
        lemma_count_one_more(column, groups.drop_last(), g, row);
    }
}

/// How the groups change with one more row.
proof fn lemma_groups_grow<K>(keys: Seq<K>, n: nat) -> (g: int)
    requires
        n < keys.len(),
    ensures
        ({
            let before = groups_so_far(keys, n);
            let after = groups_so_far(keys, n + 1);
            if is_first(keys, n as int) {
                after == before.push(seq![n as int])
            } else {
                0 <= g < before.len() && after == before.update(g, before[g].push(n as int))
            }
        }),
{
    let before = groups_so_far(keys, n);
    let after = groups_so_far(keys, n + 1);
    let p = |i: int| is_first(keys, i);
    let firsts = rows_where(n, p);
    lemma_rows_where(n, p);
    let row = n as int;
    if is_first(keys, row) {
        assert(p(row));
        assert forall|k: int| 0 <= k < firsts.len() implies #[trigger] after[k] == before[k] by {
            let like = |i: int| keys[i] == keys[firsts[k]];
            assert(keys[firsts[k]] != keys[row]);
            assert(!like(row));
            assert(after[k] == rows_where(n + 1, like));
        }
        let like = |i: int| keys[i] == keys[row];
        lemma_rows_where(n, like);
        assert(like(row));
        if rows_where(n, like).len() > 0 {
            assert(like(rows_where(n, like)[0]));
        }
        assert(rows_where(n, like) =~= Seq::empty());
        assert(after[firsts.len() as int] == rows_where(n + 1, like));
        assert(after =~= before.push(seq![row]));
        0
    } else {
        assert(!p(row));
        let f = lemma_has_first(keys, row);
        assert(p(f));
        assert(f != row);
        let g = choose|g: int| 0 <= g < firsts.len() && firsts[g] == f;
        assert forall|k: int| 0 <= k < firsts.len() implies #[trigger] after[k] == (if k == g {
            before[g].push(row)
        } else {
            before[k]
        }) by {
            let like = |i: int| keys[i] == keys[firsts[k]];
            assert(after[k] == rows_where(n + 1, like));
            assert(before[k] == rows_where(n, like));
            if k == g {
                assert(like(row));
            } else {
                if k < g {
                    assert(firsts[k] < firsts[g]);
                    assert(keys[firsts[k]] != keys[f]);
                } else {
                    assert(firsts[g] < firsts[k]);
                    assert(p(firsts[k]));
                    assert(keys[f] != keys[firsts[k]]);
                }
                assert(!like(row));
            }
        }
        assert(after =~= before.update(g, before[g].push(row)));
        g
    }
}

proof fn lemma_count_so_far<K>(column: ColumnView, keys: Seq<K>, n: nat)
    requires
        n <= keys.len(),
    ensures
        count_in_groups(column, groups_so_far(keys, n)) == present(
            column,
            Seq::new(n, |i: int| i),
        ).len(),
    decreases n,
{
    let rows = Seq::new(n, |i: int| i);
    if n == 0 {
        assert(groups_so_far(keys, 0) =~= Seq::empty());
    } else {
        let m = (n - 1) as nat;
        lemma_count_so_far(column, keys, m);
        let before = groups_so_far(keys, m);
        let g = lemma_groups_grow(keys, m);
        let row = m as int;
        reveal_with_fuel(present, 2);
        assert(seq![row].drop_last() =~= Seq::empty());
        assert(rows.drop_last() =~= Seq::new(m, |i: int| i));
        if is_first(keys, row) {
            assert(before.push(seq![row]).drop_last() =~= before);
        } else {
            lemma_count_one_more(column, before, g, row);
        }
    }
}

/// The counts of all groups add up to that of the whole column.
pub proof fn law_counts_add_up(batch: BatchView, names: Seq<Seq<char>>, column: ColumnView)
    ensures
        count_in_groups(column, row_groups(batch, names)) == present(
            column,
            Seq::new(batch.rows, |i: int| i),
        ).len(),
{
    let groups = row_groups(batch, names);
    if names.len() == 0 {
        reveal_with_fuel(count_in_groups, 2);
        assert(groups.drop_last() =~= Seq::empty());
    } else {
        let keys = row_keys(named_columns(batch, names), batch.rows);
        lemma_count_so_far(column, keys, keys.len());
        lemma_groups_so_far(keys);
    }
}

proof fn lemma_groups_so_far<K>(keys: Seq<K>)
    ensures
        groups_so_far(keys, keys.len()) == key_groups(keys),
{
    assert(groups_so_far(keys, keys.len()) =~= key_groups(keys));
}

/// Whether two rows agree: they have the same cell in the column of each name.
pub open spec fn rows_agree(batch: BatchView, names: Seq<Seq<char>>, i: int, j: int) -> bool {
    forall|c: int|
        0 <= c < names.len() ==> {
            let column = batch.columns[index_of(batch.fields, #[trigger] names[c])->0];
            column.cells[i] == column.cells[j]
        }
}

proof fn lemma_rows_agree(batch: BatchView, names: Seq<Seq<char>>, i: int, j: int)
    ensures
        rows_agree(batch, names, i, j) <==> row_key(named_columns(batch, names), i) == row_key(
            named_columns(batch, names),
            j,
        ),
{
    let columns = named_columns(batch, names);
    let (a, b) = (row_key(columns, i), row_key(columns, j));
    assert forall|c: int| 0 <= c < names.len() implies {
        let column = batch.columns[index_of(batch.fields, #[trigger] names[c])->0];
        a[c] == column.cells[i] && b[c] == column.cells[j]
    } by {}
    if rows_agree(batch, names, i, j) {
        assert forall|c: int| 0 <= c < a.len() implies a[c] == b[c] by {
            assert(names[c] == names[c]);
        }
        assert(a =~= b);
    }
    if a == b {
        assert forall|c: int| 0 <= c < names.len() implies {
            let column = batch.columns[index_of(batch.fields, #[trigger] names[c])->0];
            column.cells[i] == column.cells[j]
        } by {
            assert(a[c] == b[c]);
        }
    }
}

/// Whether a row is in one of the groups.
pub open spec fn is_grouped(groups: Seq<Seq<int>>, row: int) -> bool {
    exists|g: int, k: int|
        0 <= g < groups.len() && 0 <= k < groups[g].len() && #[trigger] groups[g][k] == row
}

/// What the groups are: every row is in one, ascending within it, and two rows are in one group
/// exactly where they agree on all names. Groups come in the order of their first rows. Without
/// names there is one group, also where there are no rows; with names no group is empty.
pub proof fn law_what_groups_are(batch: BatchView, names: Seq<Seq<char>>)
    ensures
        ({
            let groups = row_groups(batch, names);
            &&& names.len() == 0 ==> groups.len() == 1
            &&& forall|g: int, k: int|
                0 <= g < groups.len() && 0 <= k < groups[g].len() ==> 0 <= #[trigger] groups[g][k]
                    < batch.rows
            &&& forall|g: int, j: int, k: int|
                0 <= g < groups.len() && 0 <= j < k < groups[g].len() ==> #[trigger] groups[g][j]
                    < #[trigger] groups[g][k]
            &&& forall|row: int| 0 <= row < batch.rows ==> #[trigger] is_grouped(groups, row)
            &&& forall|g: int, j: int, h: int, k: int|
                0 <= g < groups.len() && 0 <= j < groups[g].len() && 0 <= h < groups.len() && 0 <= k
                    < groups[h].len() ==> (g == h <==> rows_agree(
                    batch,
                    names,
                    #[trigger] groups[g][j],
                    #[trigger] groups[h][k],
                ))
            &&& names.len() > 0 ==> forall|g: int|
                0 <= g < groups.len() ==> (#[trigger] groups[g]).len() > 0
            &&& forall|g: int, h: int|
                0 <= g < h < groups.len() ==> (#[trigger] groups[g])[0] < (#[trigger] groups[h])[0]
        }),
{
    let groups = row_groups(batch, names);
    assert forall|row: int| 0 <= row < batch.rows implies #[trigger] is_grouped(groups, row) by {
        let g = law_groups_partition_rows(batch, names, row);
        let k = choose|k: int| 0 <= k < groups[g].len() && groups[g][k] == row;
        assert(groups[g][k] == row);
    }
    if names.len() > 0 {
        let columns = named_columns(batch, names);
        let keys = row_keys(columns, batch.rows);
        let firsts = first_rows(keys);
        lemma_first_rows(keys);
        assert forall|g: int| 0 <= g < groups.len() implies {
            let group = #[trigger] groups[g];
            &&& group.len() > 0
            &&& group[0] == firsts[g]
            &&& forall|k: int|
                0 <= k < group.len() ==> 0 <= #[trigger] group[k] < batch.rows && keys[group[k]]
                    == keys[firsts[g]]
            &&& forall|j: int, k: int|
                0 <= j < k < group.len() ==> #[trigger] group[j] < #[trigger] group[k]
        } by {
            lemma_group_starts_with_leader(keys, g);
            let like = |i: int| keys[i] == keys[firsts[g]];
            lemma_rows_where(keys.len(), like);
            let group = groups[g];
            assert(group == rows_where(keys.len(), like));
            assert forall|k: int| 0 <= k < group.len() implies 0 <= #[trigger] group[k]
                < batch.rows && keys[group[k]] == keys[firsts[g]] by {
                assert(like(group[k]));
            }
        }
        assert forall|g: int, j: int, h: int, k: int|
            0 <= g < groups.len() && 0 <= j < groups[g].len() && 0 <= h < groups.len() && 0 <= k
                < groups[h].len() implies (g == h <==> rows_agree(
            batch,
            names,
            #[trigger] groups[g][j],
            #[trigger] groups[h][k],
        )) by {
            let (a, b) = (groups[g][j], groups[h][k]);
            lemma_rows_agree(batch, names, a, b);
            assert(keys[a] == row_key(columns, a));
            assert(keys[b] == row_key(columns, b));
            if g < h {
                assert(keys[firsts[g]] != keys[firsts[h]]);
            } else if h < g {
                assert(keys[firsts[h]] != keys[firsts[g]]);
            }
        }
    }
}

/// What the output is: a row for each group, with the cells that the group's first row has under
/// the names, and then what each aggregation makes of the group. A count is never null.
pub proof fn law_what_aggregate_gives(
    batch: BatchView,
    names: Seq<Seq<char>>,
    aggregations: Seq<AggregationView>,
    out: BatchView,
)
    requires
        aggregate_outcome(batch, names, aggregations) == Ok::<BatchView, ErrorView>(out),
    ensures
        ({
            let groups = row_groups(batch, names);
            let n = names.len();
            &&& out.rows == groups.len()
            &&& out.columns.len() == n + aggregations.len()
            &&& out.fields.len() == n + aggregations.len()
            &&& forall|c: int|
                0 <= c < out.columns.len() ==> (#[trigger] out.columns[c]).cells.len() == out.rows
            &&& forall|c: int|
                0 <= c < n ==> {
                    let source = batch.columns[index_of(batch.fields, #[trigger] names[c])->0];
                    &&& out.fields[c].name == names[c]
                    &&& out.fields[c].nullable
                    &&& out.fields[c].data_type == source.data_type
                    &&& out.columns[c].data_type == source.data_type
                }
            &&& forall|c: int, g: int|
                0 <= c < n && 0 <= g < groups.len() ==> #[trigger] out.columns[c].cells[g]
                    == batch.columns[index_of(batch.fields, names[c])->0].cells[groups[g][0]]
            &&& forall|a: int|
                0 <= a < aggregations.len() ==> {
                    let source = batch.columns[index_of(
                        batch.fields,
                        (#[trigger] aggregations[a]).column,
                    )->0];
                    let field = out.fields[n + a];
                    &&& field.name == aggregations[a].alias
                    &&& field.data_type == out.columns[n + a].data_type
                    &&& match aggregations[a].func {
                        AggFunc::Count => field.data_type is Int64 && !field.nullable,
                        AggFunc::Sum => field.data_type is Float64 && field.nullable,
                        AggFunc::Mean => field.data_type is Float64 && field.nullable,
                        AggFunc::Min => field.data_type == source.data_type && field.nullable,
                        AggFunc::Max => field.data_type == source.data_type && field.nullable,
                    }
                }
            &&& forall|a: int, g: int|
                0 <= a < aggregations.len() && 0 <= g < groups.len() ==> out.columns[n
                    + a].cells[g] == reduced(
                    batch.columns[index_of(
                        batch.fields,
                        (#[trigger] aggregations[a]).column,
                    )->0],
                    aggregations[a].func,
                    #[trigger] groups[g],
                )
        }),
{
    let groups = row_groups(batch, names);
    let fields = output_fields(batch, names, aggregations);
    let columns = output_columns(batch, names, aggregations);
    let n = names.len();
    assert(out.fields == fields && out.columns == columns);
    assert(columns.len() > 0);
    assert forall|c: int| 0 <= c < columns.len() implies (#[trigger] columns[c]).cells.len()
        == groups.len() by {
        if c >= n {
            let a = aggregations[c - n];
            assert(columns[c] == reduced_column(batch.column_named(a.column), a.func, groups));
        }
    }
    assert(columns[0].cells.len() == groups.len());
    assert forall|a: int| 0 <= a < aggregations.len() implies columns[n + a] == reduced_column(
        batch.column_named((#[trigger] aggregations[a]).column),
        aggregations[a].func,
        groups,
    ) by {}
}

/// An aggregation succeeds exactly where every name to group by is known, every aggregation's
/// column is known and, for anything but a count, numeric, and there is something to compute.
/// Otherwise it says what is wrong first: a name to group by, then an aggregation.
pub proof fn law_when_aggregate_succeeds(
    batch: BatchView,
    names: Seq<Seq<char>>,
    aggregations: Seq<AggregationView>,
)
    requires
        batch.wf(),
    ensures
        ({
            let outcome = aggregate_outcome(batch, names, aggregations);
            let accepted = |a: int|
                index_of(batch.fields, aggregations[a].column) is Some && (
                aggregations[a].func is Count || is_integer_type(
                    batch.columns[index_of(batch.fields, aggregations[a].column)->0].data_type,
                ) || batch.columns[index_of(
                    batch.fields,
                    aggregations[a].column,
                )->0].data_type is Float32 || batch.columns[index_of(
                    batch.fields,
                    aggregations[a].column,
                )->0].data_type is Float64);
            if exists|c: int|
                0 <= c < names.len() && index_of(batch.fields, #[trigger] names[c]) is None {
                exists|c: int|
                    {
                        &&& 0 <= c < names.len()
                        &&& index_of(batch.fields, #[trigger] names[c]) is None
                        &&& forall|b: int|
                            0 <= b < c ==> index_of(batch.fields, #[trigger] names[b]) is Some
                        &&& outcome == Err::<BatchView, ErrorView>(
                            ErrorView::UnknownColumn(names[c]),
                        )
                    }
            } else if exists|a: int| 0 <= a < aggregations.len() && !#[trigger] accepted(a) {
                exists|a: int|
                    {
                        &&& 0 <= a < aggregations.len()
                        &&& !#[trigger] accepted(a)
                        &&& forall|b: int| 0 <= b < a ==> #[trigger] accepted(b)
                        &&& outcome == Err::<BatchView, ErrorView>(
                            match index_of(batch.fields, aggregations[a].column) {
                                None => ErrorView::UnknownColumn(aggregations[a].column),
                                Some(i) => ErrorView::UnsupportedType(
                                    display_name(batch.columns[i].data_type),
                                ),
                            },
                        )
                    }
            } else if names.len() + aggregations.len() == 0 {
                outcome matches Err(ErrorView::SchemaMismatch(_))
            } else {
                outcome is Ok
            }
        }),
{
    let accepted = |a: int|
        index_of(batch.fields, aggregations[a].column) is Some && (aggregations[a].func is Count
            || is_integer_type(
            batch.columns[index_of(batch.fields, aggregations[a].column)->0].data_type,
        ) || batch.columns[index_of(
            batch.fields,
            aggregations[a].column,
        )->0].data_type is Float32 || batch.columns[index_of(
            batch.fields,
            aggregations[a].column,
        )->0].data_type is Float64);
    let unknown = |c: int| index_of(batch.fields, names[c]) is None;
    let refused = |a: int| is_refused(batch, aggregations[a]);
    lemma_first_where(names.len(), unknown);
    lemma_first_where(aggregations.len(), refused);
    assert forall|a: int| 0 <= a < aggregations.len() implies #[trigger] refused(a)
        == !accepted(a) by {}
    match first_where(names.len(), unknown) {
        Some(c) => {
            assert(unknown(c));
            assert forall|b: int| 0 <= b < c implies index_of(
                batch.fields,
                #[trigger] names[b],
            ) is Some by {
                assert(!unknown(b));
            }
        },
        None => {
            assert forall|b: int| 0 <= b < names.len() implies index_of(
                batch.fields,
                #[trigger] names[b],
            ) is Some by {
                assert(!unknown(b));
            }
            match first_where(aggregations.len(), refused) {
                Some(a) => {
                    assert(refused(a));
                    assert forall|b: int| 0 <= b < a implies #[trigger] accepted(b) by {
                        assert(!refused(b));
                    }
                },
                None => {
                    assert forall|b: int| 0 <= b < aggregations.len() implies #[trigger] accepted(
                        b,
                    ) by {
                        assert(!refused(b));
                    }
                    if names.len() + aggregations.len() > 0 {
                        law_one_row_per_group(batch, names, aggregations);
                    }
                },
            }
        },
    }
}

/// The rows whose cells are not null are what a filter leaves of the group.
proof fn lemma_present_is_filter(column: ColumnView, group: Seq<int>)
    ensures
        present(column, group) == group.filter(|r: int| column.cells[r] is Some),
    decreases group.len(),
{
    reveal(Seq::filter);
    if group.len() > 0 {
        lemma_present_is_filter(column, group.drop_last());
    } else {
        assert(group.filter(|r: int| column.cells[r] is Some) =~= Seq::empty());
    }
}

proof fn lemma_present_twice(column: ColumnView, group: Seq<int>)
    ensures
        present(column, present(column, group)) == present(column, group),
    decreases group.len(),
{
    if group.len() > 0 {
        let rest = present(column, group.drop_last());
        lemma_present_twice(column, group.drop_last());
        if column.cells[group.last()] is Some {
            assert(rest.push(group.last()).drop_last() =~= rest);
        }
    }
}

/// Nulls count for nothing: a group with its null rows taken out has the same count, sum, mean,
/// least and greatest value.
pub proof fn law_null_rows_do_not_count(column: ColumnView, func: AggFunc, group: Seq<int>)
    ensures
        reduced(column, func, group.filter(|r: int| column.cells[r] is Some)) == reduced(
            column,
            func,
            group,
        ),
{
    lemma_present_is_filter(column, group);
    lemma_present_twice(column, group);
}

/// A null at the end of a group changes no reduction.
pub proof fn law_one_more_null_changes_nothing(
    column: ColumnView,
    func: AggFunc,
    group: Seq<int>,
    row: int,
)
    requires
        column.cells[row] is None,
    ensures
        reduced(column, func, group.push(row)) == reduced(column, func, group),
{
    assert(group.push(row).drop_last() =~= group);
}

/// Of no rows the count is zero and every other reduction null.
pub proof fn law_nothing_reduces_to_null(column: ColumnView)
    ensures
        reduced(column, AggFunc::Count, Seq::empty()) == Some(CellView::Int64(0)),
        reduced(column, AggFunc::Sum, Seq::empty()) is None,
        reduced(column, AggFunc::Mean, Seq::empty()) is None,
        reduced(column, AggFunc::Min, Seq::empty()) is None,
        reduced(column, AggFunc::Max, Seq::empty()) is None,
{
}

proof fn lemma_present_bound(column: ColumnView, group: Seq<int>)
    ensures
        present(column, group).len() <= group.len(),
    decreases group.len(),
{
    if group.len() > 0 {
        lemma_present_bound(column, group.drop_last());
    }
}

/// The mean of a group is its sum divided by its count, for a column of any numeric type: null
/// where the count is zero, which is where the sum is.
pub proof fn law_mean_is_sum_over_count(column: ColumnView, group: Seq<int>)
    requires
        group.len() <= i64::MAX,
    ensures
        match (
            reduced(column, AggFunc::Count, group),
            reduced(column, AggFunc::Sum, group),
            reduced(column, AggFunc::Mean, group),
        ) {
            (Some(CellView::Int64(n)), None, None) => n == 0,
            (
                Some(CellView::Int64(n)),
                Some(CellView::Float64(s)),
                Some(CellView::Float64(m)),
            ) => n > 0 && m == quotient(s, n as int),
            _ => false,
        },
{
    lemma_present_bound(column, group);
}

/// One more value in a group counts once and is added to the sum as a double. It is the least
/// value where there was none or where it is below the one that was, and so for the greatest.
pub proof fn law_one_more_value(column: ColumnView, group: Seq<int>, row: int, v: CellView)
    requires
        group.len() < i64::MAX,
        column.cells[row] == Some(v),
    ensures
        ({
            let after = group.push(row);
            &&& match (
                reduced(column, AggFunc::Count, group),
                reduced(column, AggFunc::Count, after),
            ) {
                (Some(CellView::Int64(n)), Some(CellView::Int64(m))) => m == n + 1,
                _ => false,
            }
            &&& match (reduced(column, AggFunc::Sum, group), reduced(column, AggFunc::Sum, after)) {
                (None, Some(CellView::Float64(t))) => t == sum(0, as_double(v)),
                (Some(CellView::Float64(s)), Some(CellView::Float64(t))) => t == sum(
                    s,
                    as_double(v),
                ),
                _ => false,
            }
            &&& match (reduced(column, AggFunc::Min, group), reduced(column, AggFunc::Min, after)) {
                (None, lo) => lo == Some(v),
                (Some(m), lo) => lo == Some(
                    if is_below(v, m) {
                        v
                    } else {
                        m
                    },
                ),
            }
            &&& match (reduced(column, AggFunc::Max, group), reduced(column, AggFunc::Max, after)) {
                (None, hi) => hi == Some(v),
                (Some(m), hi) => hi == Some(
                    if is_below(m, v) {
                        v
                    } else {
                        m
                    },
                ),
            }
        }),
{
    let rows = present(column, group);
    assert(group.push(row).drop_last() =~= group);
    assert(rows.push(row).drop_last() =~= rows);
    lemma_present_bound(column, group);
    lemma_present(column, group);
    let grown = present(column, group.push(row));
    assert(grown == rows.push(row));
    assert(total(column, grown) == sum(total(column, rows), as_double(v)));
    if rows.len() > 0 {
        lemma_best_is_a_row(column, true, rows);
        lemma_best_is_a_row(column, false, rows);
        let (lo, hi) = (best_row(column, true, rows), best_row(column, false, rows));
        let j = choose|j: int| 0 <= j < rows.len() && rows[j] == lo;
        let k = choose|k: int| 0 <= k < rows.len() && rows[k] == hi;
        assert(column.cells[rows[j]] is Some);
        assert(column.cells[rows[k]] is Some);
    } else {
        assert(total(column, rows) == 0);
        assert(grown[0] == row);
    }
}

proof fn lemma_best_is_a_row(column: ColumnView, least: bool, rows: Seq<int>)
    requires
        rows.len() > 0,
    ensures
        rows.contains(best_row(column, least, rows)),
    decreases rows.len(),
{
    if rows.len() == 1 {
        assert(rows[0] == best_row(column, least, rows));
    } else {
        let rest = rows.drop_last();
        let best = best_row(column, least, rest);
        lemma_best_is_a_row(column, least, rest);
        let at = choose|at: int| 0 <= at < rest.len() && rest[at] == best;
        assert(rows[at] == best);
        assert(rows[rows.len() - 1] == rows.last());
    }
}

/// Integers of one type are compared by their values, floats as doubles, whatever they are.
pub proof fn law_how_values_compare(a: i64, b: i64, c: u64, d: u64, x: u64, y: u64, v: u32, w: u32)
    ensures
        is_below(CellView::Int64(a), CellView::Int64(b)) == (a < b),
        is_below(CellView::Int32(a as i32), CellView::Int32(b as i32)) == ((a as i32) < b as i32),
        is_below(CellView::Int16(a as i16), CellView::Int16(b as i16)) == ((a as i16) < b as i16),
        is_below(CellView::Int8(a as i8), CellView::Int8(b as i8)) == ((a as i8) < b as i8),
        is_below(CellView::UInt64(c), CellView::UInt64(d)) == (c < d),
        is_below(CellView::UInt32(v), CellView::UInt32(w)) == (v < w),
        is_below(CellView::UInt16(v as u16), CellView::UInt16(w as u16)) == ((v as u16)
            < w as u16),
        is_below(CellView::UInt8(v as u8), CellView::UInt8(w as u8)) == ((v as u8) < w as u8),
        is_below(CellView::Float64(x), CellView::Float64(y)) == (!is_nan(x) && !is_nan(y)
            && value(x) < value(y)),
        is_below(CellView::Float32(v), CellView::Float32(w)) == is_below(
            CellView::Float64(widened(v)),
            CellView::Float64(widened(w)),
        ),
{
}

/// Numbers are summed as what they are: an integer of at most 53 bits is added as itself, a
/// larger one as the double nearest to it, and a float as the double of its value.
pub proof fn law_what_is_summed(c: CellView, i: int, x: u64, v: u32)
    ensures
        as_double(CellView::Float64(x)) == x,
        as_double(CellView::Float32(v)) == widened(v),
        (c matches CellView::Int64(n) && n == i) || (c matches CellView::Int32(n) && n == i) || (
        c matches CellView::Int16(n) && n == i) || (c matches CellView::Int8(n) && n == i) || (
        c matches CellView::UInt64(n) && n == i) || (c matches CellView::UInt32(n) && n == i) || (
        c matches CellView::UInt16(n) && n == i) || (c matches CellView::UInt8(n) && n == i) ==> {
            &&& as_double(c) == of_integer(i)
            &&& -2 * STEP < i < 2 * STEP ==> value(as_double(c)) == i * pow2(1074)
        },
{
    if -2 * STEP < i < 2 * STEP {
        law_small_integers_are_exact(i);
    }
}

/// Each function has one name, in lower case, but for the mean, which has two, and no other name
/// is a function's.
pub proof fn law_names_of_functions(name: Seq<char>, func: AggFunc)
    ensures
        function_named(name) == Some(func) <==> match func {
            AggFunc::Count => name == "count"@,
            AggFunc::Sum => name == "sum"@,
            AggFunc::Mean => name == "mean"@ || name == "avg"@,
            AggFunc::Min => name == "min"@,
            AggFunc::Max => name == "max"@,
        },
{
    reveal_strlit("count");
    reveal_strlit("sum");
    reveal_strlit("mean");
    reveal_strlit("avg");
    reveal_strlit("min");
    reveal_strlit("max");
    assert("count"@[0] == 'c' && "sum"@[0] == 's' && "avg"@[0] == 'a' && "mean"@[1] == 'e');
    assert("mean"@[0] == 'm' && "min"@[0] == 'm' && "max"@[0] == 'm');
    assert("min"@[1] == 'i' && "max"@[1] == 'a');
}

/// Aggregations are read as they are, one for each, in order.
pub proof fn law_aggregations_are_read_as_they_are(aggregations: Seq<Aggregation>, i: int)
    ensures
        aggregation_views(aggregations).len() == aggregations.len(),
        0 <= i < aggregations.len() ==> {
            let view = aggregation_views(aggregations)[i];
            &&& view.column == aggregations[i].column@
            &&& view.func == aggregations[i].func
            &&& view.alias == aggregations[i].alias@
        },
{
}

} // verus!
