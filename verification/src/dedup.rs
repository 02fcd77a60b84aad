//! Deduplication: the first row of every distinct key.
//!
//! The composite hash only decides which rows are compared: two rows are duplicates where
//! their keys are equal, never where only their hashes are.

use crate::batch::{
    first_unknown, lemma_known_names, resolve_indices, texts, BatchView, RecordBatch,
};
use crate::column::{CellView, ColumnView};
use crate::error::{same_outcome, Error, ErrorView};
use crate::groups::{
    codes, first_rows, is_first, lemma_first_rows, lemma_has_first, lemma_same_groups, RowGroups,
};
use crate::hash::{
    canonical_or_null, hash_batch, hash_batch_outcome, named_columns, row_hash,
    HashVersion,
};
use crate::keys::{
    canonical_columns, column_types, columns_at, encode_keys, key_code, key_fits, row_key, row_keys,
};
use crate::rows::{ints, lemma_rows_where, lemma_rows_where_all};
use crate::schema::index_of;
use vstd::prelude::*;

verus! {

/// The keys by which rows are duplicates: the cells of the named columns, with every `NaN`
/// brought to one and the negative zero to zero.
pub open spec fn dedup_keys(batch: BatchView, names: Seq<Seq<char>>) -> Seq<
    Seq<Option<CellView>>,
> {
    row_keys(canonical_columns(named_columns(batch, names)), batch.rows)
}

/// The first rows of every distinct key, in their order.
pub open spec fn deduplicated(batch: BatchView, names: Seq<Seq<char>>) -> BatchView {
    batch.take(first_rows(dedup_keys(batch, names)))
}

/// What [`drop_duplicates`] gives.
pub open spec fn drop_duplicates_outcome(
    batch: BatchView,
    names: Seq<Seq<char>>,
    version: HashVersion,
) -> Result<BatchView, ErrorView> {
    match hash_batch_outcome(batch, names, version) {
        Ok(_) => Ok(deduplicated(batch, names)),
        Err(e) => Err(e),
    }
}

/// Rows with equal keys have equal hashes.
pub proof fn law_equal_keys_have_equal_hashes(
    version: HashVersion,
    columns: Seq<ColumnView>,
    rows: nat,
    i: int,
    j: int,
)
    requires
        0 <= i < rows,
        0 <= j < rows,
        forall|c: int| 0 <= c < columns.len() ==> (#[trigger] columns[c]).cells.len() == rows,
        row_key(canonical_columns(columns), i) == row_key(canonical_columns(columns), j),
    ensures
        row_hash(version, columns, i) == row_hash(version, columns, j),
    decreases columns.len(),
{
    if columns.len() > 0 {
        let keyed = canonical_columns(columns);
        let rest = columns.drop_last();
        let last = columns.len() - 1;
        assert forall|c: int| 0 <= c < columns.len() implies canonical_or_null(
            (#[trigger] columns[c]).cells[i],
        ) == canonical_or_null(columns[c].cells[j]) by {
            assert(row_key(keyed, i)[c] == keyed[c].cells[i]);
            assert(row_key(keyed, j)[c] == keyed[c].cells[j]);
        }
        assert(row_key(canonical_columns(rest), i) =~= row_key(canonical_columns(rest), j)) by {
            assert forall|c: int| 0 <= c < rest.len() implies row_key(canonical_columns(rest), i)[c]
                == row_key(canonical_columns(rest), j)[c] by {
                assert(columns[c].cells.len() == rows);
            }
        }
        assert forall|c: int| 0 <= c < rest.len() implies (#[trigger] rest[c]).cells.len()
            == rows by {
            assert(rest[c] == columns[c]);
        }
        law_equal_keys_have_equal_hashes(version, rest, rows, i, j);
        assert(columns[last].cells.len() == rows);
    }
}

/// One empty code per row.
fn empty_codes(n: usize) -> (rows: Vec<Vec<u8>>)
    ensures
        rows@.len() == n,
        forall|i: int| 0 <= i < n ==> (#[trigger] rows@[i])@ == Seq::<u8>::empty(),
{
    let mut rows: Vec<Vec<u8>> = Vec::new();
    let mut i: usize = 0;
    while i < n
        invariant
            i <= n,
            rows@.len() == i,
            forall|j: int| 0 <= j < i ==> (#[trigger] rows@[j])@ == Seq::<u8>::empty(),
        decreases n - i,
    {
        rows.push(Vec::new());
        i += 1;
    }
    rows
}

/// Keeps the first row of every distinct value of the named columns, and the order of the rows
/// that remain. Two nulls are equal, and so are any two `NaN`s and the two zeros.
///
/// Fails as [`hash_batch`] does.
pub fn drop_duplicates(batch: &RecordBatch, columns: &[&str], version: HashVersion) -> (r: Result<
    RecordBatch,
    Error,
>)
    ensures
        same_outcome(r, drop_duplicates_outcome(batch@, texts(columns@), version)),
{
    let hashes = match hash_batch(batch, columns, version) {
        Ok(v) => v,
        Err(e) => {
            return Err(e);
        },
    };
    let indices = match resolve_indices(batch.schema(), columns) {
        Ok(v) => v,
        Err(e) => {
            return Err(e);
        },
    };
    let ghost named = named_columns(batch@, texts(columns@));
    let ghost keys = dedup_keys(batch@, texts(columns@));
    proof {
        assert(columns_at(batch@.columns, indices@) =~= named);
        assert forall|k: int| 0 <= k < indices@.len() implies (#[trigger] indices@[k])
            < batch@.columns.len() by {}
    }
    let rows = if columns.len() == 0 {
        empty_codes(batch.num_rows())
    } else {
        encode_keys(batch, &indices, true)
    };
    proof {
        let types = column_types(named);
        assert(rows@.len() == keys.len());
        assert forall|i: int, j: int|
            0 <= i < rows@.len() && 0 <= j < rows@.len() implies ((#[trigger] codes(rows@)[i]
            == #[trigger] codes(rows@)[j]) <==> keys[i] == keys[j]) by {
            if columns@.len() == 0 {
                assert(rows@[i]@ == rows@[j]@);
                assert(keys[i] =~= keys[j]);
            } else {
                assert(rows@[i]@ == key_code(keys[i]));
                assert(rows@[j]@ == key_code(keys[j]));
                assert(key_fits(types, keys[j]));
            }
        }
        assert forall|i: int, j: int|
            0 <= i < rows@.len() && 0 <= j < rows@.len() && #[trigger] codes(rows@)[i]
                == #[trigger] codes(rows@)[j] implies hashes@[i] == hashes@[j] by {
            assert forall|c: int| 0 <= c < named.len() implies (#[trigger] named[c]).cells.len()
                == batch@.rows by {
                assert(indices@[c] < batch@.columns.len());
                assert(batch@.columns[indices@[c] as int].cells.len() == batch@.rows);
            }
            assert(keys[i] == keys[j]);
            law_equal_keys_have_equal_hashes(version, named, batch@.rows, i, j);
            assert(hashes@[i] == row_hash(version, named, i));
            assert(hashes@[j] == row_hash(version, named, j));
        }
        lemma_same_groups(codes(rows@), keys);
    }
    let groups = RowGroups::build(&rows, &hashes);
    proof {
        let p = |i: int| is_first(codes(rows@), i);
        lemma_rows_where(rows@.len(), p);
        assert(ints(groups.leaders@) == first_rows(codes(rows@)));
        assert forall|k: int| 0 <= k < groups.leaders@.len() implies (#[trigger] groups.leaders@[k])
            < batch@.rows by {
            assert(ints(groups.leaders@)[k] == groups.leaders@[k]);
        }
    }
    Ok(batch.take(&groups.leaders))
}

/// The keys of a selection of rows are the selected keys.
proof fn lemma_keys_of_selection(batch: BatchView, names: Seq<Seq<char>>, rows: Seq<int>)
    requires
        batch.wf(),
        first_unknown(batch.fields, names) is None,
        forall|k: int| 0 <= k < rows.len() ==> 0 <= #[trigger] rows[k] < batch.rows,
    ensures
        dedup_keys(batch.take(rows), names) == rows.map_values(
            |r: int| dedup_keys(batch, names)[r],
        ),
{
    let taken = batch.take(rows);
    let old_columns = named_columns(batch, names);
    let new_columns = named_columns(taken, names);
    lemma_known_names(batch.fields, names);
    assert forall|k: int| 0 <= k < rows.len() implies dedup_keys(taken, names)[k] == dedup_keys(
        batch,
        names,
    )[rows[k]] by {
        assert(dedup_keys(taken, names)[k] =~= dedup_keys(batch, names)[rows[k]]) by {
            assert forall|c: int| 0 <= c < names.len() implies dedup_keys(taken, names)[k][c]
                == dedup_keys(batch, names)[rows[k]][c] by {
                let at = index_of(batch.fields, names[c])->0;
                assert(old_columns[c] == batch.columns[at]);
                assert(new_columns[c] == taken.columns[at]);
                assert(batch.columns[at].cells.len() == batch.rows);
                assert(taken.columns[at].cells[k] == batch.columns[at].cells[rows[k]]);
            }
        }
    }
    assert(dedup_keys(taken, names) =~= rows.map_values(|r: int| dedup_keys(batch, names)[r]));
}

/// The rows that remain keep their order.
pub proof fn law_order_is_kept(batch: BatchView, names: Seq<Seq<char>>, a: int, b: int)
    requires
        0 <= a < b < deduplicated(batch, names).rows,
    ensures
        0 <= first_rows(dedup_keys(batch, names))[a] < first_rows(dedup_keys(batch, names))[b]
            < batch.rows,
{
    lemma_first_rows(dedup_keys(batch, names));
}

/// A row remains exactly where no earlier row has its key, whatever the rows' hashes are.
pub proof fn law_hashes_decide_nothing(batch: BatchView, names: Seq<Seq<char>>, i: int)
    requires
        0 <= i < batch.rows,
    ensures
        first_rows(dedup_keys(batch, names)).contains(i) <==> is_first(
            dedup_keys(batch, names),
            i,
        ),
{
    lemma_is_first_row(dedup_keys(batch, names), i);
}

proof fn lemma_is_first_row<K>(keys: Seq<K>, i: int)
    requires
        0 <= i < keys.len(),
    ensures
        first_rows(keys).contains(i) <==> is_first(keys, i),
{
    let p = |i: int| is_first(keys, i);
    lemma_rows_where(keys.len(), p);
    let firsts = first_rows(keys);
    if firsts.contains(i) {
        let k = choose|k: int| 0 <= k < firsts.len() && firsts[k] == i;
        assert(p(firsts[k]));
    }
    if is_first(keys, i) {
        assert(p(i));
    }
}

/// No two rows that remain have one key.
pub proof fn law_remaining_keys_are_distinct(
    batch: BatchView,
    names: Seq<Seq<char>>,
    a: int,
    b: int,
)
    requires
        batch.wf(),
        first_unknown(batch.fields, names) is None,
        0 <= a < b < deduplicated(batch, names).rows,
    ensures
        dedup_keys(deduplicated(batch, names), names)[a] != dedup_keys(
            deduplicated(batch, names),
            names,
        )[b],
{
    let keys = dedup_keys(batch, names);
    lemma_first_rows(keys);
    lemma_keys_of_selection(batch, names, first_rows(keys));
}

/// Every row's key is that of a row that remains, and that row is no later.
pub proof fn law_every_key_remains(batch: BatchView, names: Seq<Seq<char>>, i: int) -> (a: int)
    requires
        batch.wf(),
        first_unknown(batch.fields, names) is None,
        0 <= i < batch.rows,
    ensures
        0 <= a < deduplicated(batch, names).rows,
        first_rows(dedup_keys(batch, names))[a] <= i,
        dedup_keys(deduplicated(batch, names), names)[a] == dedup_keys(batch, names)[i],
{
    let keys = dedup_keys(batch, names);
    let firsts = first_rows(keys);
    let f = lemma_has_first(keys, i);
    lemma_first_rows(keys);
    lemma_keys_of_selection(batch, names, firsts);
    choose|a: int| 0 <= a < firsts.len() && firsts[a] == f
}

/// Dropping duplicates twice is the same as dropping them once.
pub proof fn law_idempotent(batch: BatchView, names: Seq<Seq<char>>)
    requires
        batch.wf(),
        first_unknown(batch.fields, names) is None,
    ensures
        deduplicated(deduplicated(batch, names), names) == deduplicated(batch, names),
{
    let once = deduplicated(batch, names);
    let keys = dedup_keys(once, names);
    let p = |i: int| is_first(keys, i);
    assert forall|i: int| 0 <= i < keys.len() implies #[trigger] p(i) by {
        assert forall|j: int| 0 <= j < i implies #[trigger] keys[j] != keys[i] by {
            law_remaining_keys_are_distinct(batch, names, j, i);
        }
    }
    lemma_rows_where_all(keys.len(), p);
    let all = Seq::new(keys.len(), |i: int| i);
    let twice = once.take(all);
    lemma_first_rows(dedup_keys(batch, names));
    assert(twice.columns =~= once.columns) by {
        assert forall|c: int| 0 <= c < once.columns.len() implies twice.columns[c]
            == once.columns[c] by {
            assert(twice.columns[c].cells =~= once.columns[c].cells);
        }
    }
}

/// Whether two cells count as the same: nulls do, values that are equal do, and so do floats that
/// are both no number or both zero.
pub open spec fn cells_alike(a: Option<CellView>, b: Option<CellView>) -> bool {
    match (a, b) {
        (Some(CellView::Float64(x)), Some(CellView::Float64(y))) => {
            let (m, n) = (x as int % 0x8000_0000_0000_0000, y as int % 0x8000_0000_0000_0000);
            ||| x == y
            ||| m > 0x7FF0_0000_0000_0000 && n > 0x7FF0_0000_0000_0000
            ||| m == 0 && n == 0
        },
        (Some(CellView::Float32(x)), Some(CellView::Float32(y))) => {
            let (m, n) = (x as int % 0x8000_0000, y as int % 0x8000_0000);
            ||| x == y
            ||| m > 0x7F80_0000 && n > 0x7F80_0000
            ||| m == 0 && n == 0
        },
        _ => a == b,
    }
}

/// Whether two rows are duplicates: their cells count as the same under every name.
pub open spec fn are_duplicates(batch: BatchView, names: Seq<Seq<char>>, i: int, j: int) -> bool {
    forall|c: int|
        0 <= c < names.len() ==> {
            let column = batch.columns[index_of(batch.fields, #[trigger] names[c])->0];
            cells_alike(column.cells[i], column.cells[j])
        }
}

/// Rows are duplicates exactly where their keys are equal.
proof fn lemma_duplicates(batch: BatchView, names: Seq<Seq<char>>, i: int, j: int)
    requires
        batch.wf(),
        first_unknown(batch.fields, names) is None,
        0 <= i < batch.rows,
        0 <= j < batch.rows,
    ensures
        are_duplicates(batch, names, i, j) <==> dedup_keys(batch, names)[i] == dedup_keys(
            batch,
            names,
        )[j],
{
    let keys = dedup_keys(batch, names);
    let columns = named_columns(batch, names);
    lemma_known_names(batch.fields, names);
    assert forall|c: int| 0 <= c < names.len() implies {
        let column = batch.columns[index_of(batch.fields, #[trigger] names[c])->0];
        &&& keys[i][c] == canonical_or_null(column.cells[i])
        &&& keys[j][c] == canonical_or_null(column.cells[j])
        &&& cells_alike(column.cells[i], column.cells[j]) <==> keys[i][c] == keys[j][c]
    } by {
        let column = batch.columns[index_of(batch.fields, names[c])->0];
        assert(columns[c] == column);
        assert(column.cells.len() == batch.rows);
    }
    if are_duplicates(batch, names, i, j) {
        assert forall|c: int| 0 <= c < names.len() implies keys[i][c] == keys[j][c] by {
            assert(names[c] == names[c]);
        }
        assert(keys[i] =~= keys[j]);
    }
    if keys[i] == keys[j] {
        assert forall|c: int| 0 <= c < names.len() implies {
            let column = batch.columns[index_of(batch.fields, #[trigger] names[c])->0];
            cells_alike(column.cells[i], column.cells[j])
        } by {
            assert(keys[i][c] == keys[j][c]);
        }
    }
}

/// Whether a row has no duplicate before it.
pub open spec fn has_no_earlier_duplicate(
    batch: BatchView,
    names: Seq<Seq<char>>,
    i: int,
) -> bool {
    forall|j: int| 0 <= j < i ==> !#[trigger] are_duplicates(batch, names, j, i)
}

/// What remains: exactly the rows without an earlier duplicate, in their order, with all their
/// cells and under the same fields. `rows` are their places in the batch.
pub proof fn law_what_remains(
    batch: BatchView,
    names: Seq<Seq<char>>,
    version: HashVersion,
    out: BatchView,
) -> (rows: Seq<int>)
    requires
        batch.wf(),
        drop_duplicates_outcome(batch, names, version) == Ok::<BatchView, ErrorView>(out),
    ensures
        out.fields == batch.fields,
        out.rows == rows.len(),
        out.columns.len() == batch.columns.len(),
        forall|c: int|
            0 <= c < out.columns.len() ==> {
                &&& (#[trigger] out.columns[c]).data_type == batch.columns[c].data_type
                &&& out.columns[c].cells.len() == rows.len()
            },
        forall|c: int, k: int|
            0 <= c < out.columns.len() && 0 <= k < rows.len() ==> #[trigger] out.columns[c].cells[k]
                == batch.columns[c].cells[rows[k]],
        forall|k: int| 0 <= k < rows.len() ==> 0 <= #[trigger] rows[k] < batch.rows,
        forall|j: int, k: int| 0 <= j < k < rows.len() ==> #[trigger] rows[j] < #[trigger] rows[k],
        forall|i: int|
            0 <= i < batch.rows ==> (#[trigger] rows.contains(i) <==> has_no_earlier_duplicate(
                batch,
                names,
                i,
            )),
{
    let keys = dedup_keys(batch, names);
    let rows = first_rows(keys);
    lemma_first_rows(keys);
    assert(out == batch.take(rows));
    assert(first_unknown(batch.fields, names) is None);
    assert forall|i: int| 0 <= i < batch.rows implies (#[trigger] rows.contains(i)
        <==> has_no_earlier_duplicate(batch, names, i)) by {
        lemma_is_first_row(keys, i);
        assert forall|j: int| 0 <= j < i implies (#[trigger] are_duplicates(batch, names, j, i)
            <==> keys[j] == keys[i]) by {
            lemma_duplicates(batch, names, j, i);
        }
        if is_first(keys, i) {
            assert forall|j: int| 0 <= j < i implies !#[trigger] are_duplicates(
                batch,
                names,
                j,
                i,
            ) by {
                assert(keys[j] != keys[i]);
            }
        }
        if has_no_earlier_duplicate(batch, names, i) {
            assert forall|j: int| 0 <= j < i implies #[trigger] keys[j] != keys[i] by {
                assert(!are_duplicates(batch, names, j, i));
            }
        }
    }
    assert forall|c: int, k: int| 0 <= c < out.columns.len() && 0 <= k < rows.len() implies
        #[trigger] out.columns[c].cells[k] == batch.columns[c].cells[rows[k]] by {}
    rows
}

/// Dropping duplicates fails exactly where hashing the named columns does, and in the same way.
pub proof fn law_dedup_fails_as_hashing_does(
    batch: BatchView,
    names: Seq<Seq<char>>,
    version: HashVersion,
)
    ensures
        match (
            hash_batch_outcome(batch, names, version),
            drop_duplicates_outcome(batch, names, version),
        ) {
            (Ok(_), Ok(_)) => true,
            (Err(a), Err(b)) => a == b,
            _ => false,
        },
{
}

} // verus!
