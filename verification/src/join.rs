//! Join: matching the rows of two batches on key columns.
//!
//! Keys are compared by their exact encodings, never by a hash alone. A hash decides which keys
//! are compared.

use crate::batch::{
    first_unknown, lemma_columns_make_a_batch, resolve_indices, texts, BatchView, RecordBatch,
};
use crate::column::{row_numbers, CellView, Column, ColumnView};
use crate::error::{same_outcome, Error, ErrorView};
use crate::groups::{codes, code_hashes, RowGroups};
use crate::hash::named_columns;
use crate::keys::{
    column_types, columns_at, encode_keys, encodes, key_code, key_fits, key_has_null, row_key,
    row_keys,
};
use crate::rows::{
    first_where, ints, lemma_first_where, lemma_first_where_is, lemma_rows_where,
    lemma_rows_where_same, rows_where,
};
use crate::schema::{
    display_name, index_of, law_names_stand_for_first_fields, Field, FieldView, Schema,
};
use crate::text::text_eq;
use vstd::prelude::*;
use vstd::string::StringExecFns;

verus! {

/// Which rows without a match on the other side survive.
#[derive(Debug, Clone, Copy, PartialEq, Eq, Structural, Hash)]
pub enum JoinType {
    /// Only rows with a match on both sides.
    Inner,
    /// Every left row; one without a match gets nulls for the right columns.
    Left,
    /// Every right row; one without a match gets nulls for the left columns.
    Right,
    /// Every row of both sides.
    Full,
}

impl Default for JoinType {
    fn default() -> (r: Self)
        ensures
            r == JoinType::Inner,
    {
        JoinType::Inner
    }
}

/// The join type of a name.
pub open spec fn join_type_named(name: Seq<char>) -> Option<JoinType> {
    if name == "inner"@ {
        Some(JoinType::Inner)
    } else if name == "left"@ {
        Some(JoinType::Left)
    } else if name == "right"@ {
        Some(JoinType::Right)
    } else if name == "full"@ {
        Some(JoinType::Full)
    } else {
        None
    }
}

impl JoinType {
    /// The join type of a name, which is in lower case.
    pub fn parse(s: &str) -> (r: Option<Self>)
        ensures
            r == join_type_named(s@),
    {
        if text_eq(s, "inner") {
            Some(JoinType::Inner)
        } else if text_eq(s, "left") {
            Some(JoinType::Left)
        } else if text_eq(s, "right") {
            Some(JoinType::Right)
        } else if text_eq(s, "full") {
            Some(JoinType::Full)
        } else {
            None
        }
    }
}

/// Whether left rows without a match survive.
pub open spec fn keeps_left(how: JoinType) -> bool {
    how is Left || how is Full
}

/// Whether right rows without a match survive.
pub open spec fn keeps_right(how: JoinType) -> bool {
    how is Right || how is Full
}

/// Whether two keys match: they are equal and, unless nulls match nulls, hold no null.
pub open spec fn keys_match(
    a: Seq<Option<CellView>>,
    b: Seq<Option<CellView>>,
    null_safe: bool,
) -> bool {
    a == b && (null_safe || !key_has_null(a))
}

/// The right rows that match a left row.
pub open spec fn matches_of(
    left: Seq<Seq<Option<CellView>>>,
    right: Seq<Seq<Option<CellView>>>,
    null_safe: bool,
    l: int,
) -> Seq<int> {
    rows_where(right.len(), |r: int| keys_match(left[l], right[r], null_safe))
}

/// The output rows of a left row: one for each match, or one with nothing on the right.
pub open spec fn pairs_of(
    left: Seq<Seq<Option<CellView>>>,
    right: Seq<Seq<Option<CellView>>>,
    how: JoinType,
    null_safe: bool,
    l: int,
) -> Seq<(Option<int>, Option<int>)> {
    let matches = matches_of(left, right, null_safe, l);
    if matches.len() > 0 {
        matches.map_values(|r: int| (Some(l), Some(r)))
    } else if keeps_left(how) {
        seq![(Some(l), None)]
    } else {
        Seq::empty()
    }
}

/// The output rows of the first `n` left rows.
pub open spec fn left_pairs(
    left: Seq<Seq<Option<CellView>>>,
    right: Seq<Seq<Option<CellView>>>,
    how: JoinType,
    null_safe: bool,
    n: nat,
) -> Seq<(Option<int>, Option<int>)>
    decreases n,
{
    if n == 0 {
        Seq::empty()
    } else {
        left_pairs(left, right, how, null_safe, (n - 1) as nat) + pairs_of(
            left,
            right,
            how,
            null_safe,
            n - 1,
        )
    }
}

/// Whether one of the first `n` left rows matches a right row.
pub open spec fn is_matched(
    left: Seq<Seq<Option<CellView>>>,
    right: Seq<Seq<Option<CellView>>>,
    null_safe: bool,
    n: nat,
    r: int,
) -> bool {
    exists|l: int| 0 <= l < n && keys_match(#[trigger] left[l], right[r], null_safe)
}

/// The right rows without a match.
pub open spec fn unmatched(
    left: Seq<Seq<Option<CellView>>>,
    right: Seq<Seq<Option<CellView>>>,
    null_safe: bool,
) -> Seq<int> {
    rows_where(right.len(), |r: int| !is_matched(left, right, null_safe, left.len(), r))
}

/// The rows of each side that make up the output rows: those of the left rows in their order,
/// then the right rows without a match.
pub open spec fn join_pairs(
    left: Seq<Seq<Option<CellView>>>,
    right: Seq<Seq<Option<CellView>>>,
    how: JoinType,
    null_safe: bool,
) -> Seq<(Option<int>, Option<int>)> {
    left_pairs(left, right, how, null_safe, left.len()) + if keeps_right(how) {
        unmatched(left, right, null_safe).map_values(|r: int| (None::<int>, Some(r)))
    } else {
        Seq::empty()
    }
}

/// The left rows of pairs.
pub open spec fn left_sides(pairs: Seq<(Option<int>, Option<int>)>) -> Seq<Option<int>> {
    pairs.map_values(|p: (Option<int>, Option<int>)| p.0)
}

/// The right rows of pairs.
pub open spec fn right_sides(pairs: Seq<(Option<int>, Option<int>)>) -> Seq<Option<int>> {
    pairs.map_values(|p: (Option<int>, Option<int>)| p.1)
}

/// A left field in the output: nullable.
pub open spec fn left_field(f: FieldView) -> FieldView {
    FieldView { name: f.name, data_type: f.data_type, nullable: true }
}

/// A right field in the output: nullable, and with a suffix where the left side has its name.
pub open spec fn right_field(left: Seq<FieldView>, f: FieldView) -> FieldView {
    FieldView {
        name: if index_of(left, f.name) is Some {
            f.name + "_right"@
        } else {
            f.name
        },
        data_type: f.data_type,
        nullable: true,
    }
}

/// The fields of the output.
pub open spec fn joined_fields(left: Seq<FieldView>, right: Seq<FieldView>) -> Seq<FieldView> {
    left.map_values(|f: FieldView| left_field(f)) + right.map_values(
        |f: FieldView| right_field(left, f),
    )
}

/// The columns of the output.
pub open spec fn joined_columns(
    left: BatchView,
    right: BatchView,
    pairs: Seq<(Option<int>, Option<int>)>,
) -> Seq<ColumnView> {
    left.columns.map_values(|c: ColumnView| c.take(left_sides(pairs))) + right.columns.map_values(
        |c: ColumnView| c.take(right_sides(pairs)),
    )
}

/// The output of a join whose keys are known and have matching types.
pub open spec fn joined(
    left: BatchView,
    right: BatchView,
    left_keys: Seq<Seq<char>>,
    right_keys: Seq<Seq<char>>,
    how: JoinType,
    null_safe: bool,
) -> BatchView {
    let pairs = join_pairs(
        row_keys(named_columns(left, left_keys), left.rows),
        row_keys(named_columns(right, right_keys), right.rows),
        how,
        null_safe,
    );
    BatchView {
        fields: joined_fields(left.fields, right.fields),
        columns: joined_columns(left, right, pairs),
        rows: pairs.len(),
    }
}

/// The first position at which the key columns of the two sides differ in type.
pub open spec fn first_type_mismatch(left: Seq<ColumnView>, right: Seq<ColumnView>) -> Option<int> {
    first_where(left.len(), |i: int| left[i].data_type != right[i].data_type)
}

/// What a join gives.
pub open spec fn join_outcome(
    left: BatchView,
    right: BatchView,
    left_keys: Seq<Seq<char>>,
    right_keys: Seq<Seq<char>>,
    how: JoinType,
    null_safe: bool,
) -> Result<BatchView, ErrorView> {
    let left_columns = named_columns(left, left_keys);
    let right_columns = named_columns(right, right_keys);
    if left_keys.len() == 0 || left_keys.len() != right_keys.len() {
        Err(ErrorView::Config("left_keys and right_keys must be the same non-zero length"@))
    } else if first_unknown(left.fields, left_keys) is Some {
        Err(ErrorView::UnknownColumn(left_keys[first_unknown(left.fields, left_keys)->0]))
    } else if first_unknown(right.fields, right_keys) is Some {
        Err(ErrorView::UnknownColumn(right_keys[first_unknown(right.fields, right_keys)->0]))
    } else {
        match first_type_mismatch(left_columns, right_columns) {
            Some(i) => Err(
                ErrorView::TypeMismatch {
                    column: left_keys[i] + "/"@ + right_keys[i],
                    expected: display_name(left_columns[i].data_type),
                    actual: display_name(right_columns[i].data_type),
                },
            ),
            None => Ok(joined(left, right, left_keys, right_keys, how, null_safe)),
        }
    }
}

/// Whether a row has a null in one of the columns at the given positions.
fn has_null_key(batch: &RecordBatch, indices: &Vec<usize>, row: usize) -> (r: bool)
    requires
        row < batch@.rows,
        forall|k: int| 0 <= k < indices@.len() ==> (#[trigger] indices@[k]) < batch@.columns.len(),
    ensures
        r == key_has_null(row_key(columns_at(batch@.columns, indices@), row as int)),
{
    let ghost columns = columns_at(batch@.columns, indices@);
    let ghost key = row_key(columns, row as int);
    let mut k: usize = 0;
    while k < indices.len()
        invariant
            k <= indices@.len(),
            row < batch@.rows,
            columns == columns_at(batch@.columns, indices@),
            key == row_key(columns, row as int),
            forall|k: int|
                0 <= k < indices@.len() ==> (#[trigger] indices@[k]) < batch@.columns.len(),
            forall|c: int| 0 <= c < k ==> (#[trigger] key[c]) is Some,
        decreases indices@.len() - k,
    {
        let column = batch.column(indices[k]);
        assert(columns[k as int] == column@);
        assert(column@.cells.len() == batch@.rows);
        assert(key[k as int] == column@.cells[row as int]);
        if column.is_null(row) {
            return true;
        }
        k += 1;
    }
    false
}

/// The pairs of output rows, as row numbers of each side.
#[verifier::rlimit(40)]
fn match_rows(
    left: &RecordBatch,
    right: &RecordBatch,
    left_indices: &Vec<usize>,
    right_indices: &Vec<usize>,
    how: JoinType,
    null_safe: bool,
) -> (r: (Vec<Option<usize>>, Vec<Option<usize>>))
    requires
        0 < left_indices@.len() == right_indices@.len(),
        forall|k: int|
            0 <= k < left_indices@.len() ==> (#[trigger] left_indices@[k]) < left@.columns.len(),
        forall|k: int|
            0 <= k < right_indices@.len() ==> (#[trigger] right_indices@[k])
                < right@.columns.len(),
        column_types(columns_at(left@.columns, left_indices@)) == column_types(
            columns_at(right@.columns, right_indices@),
        ),
    ensures
        ({
            let pairs = join_pairs(
                row_keys(columns_at(left@.columns, left_indices@), left@.rows),
                row_keys(columns_at(right@.columns, right_indices@), right@.rows),
                how,
                null_safe,
            );
            &&& row_numbers(r.0@) == left_sides(pairs)
            &&& row_numbers(r.1@) == right_sides(pairs)
        }),
        forall|k: int|
            0 <= k < r.0@.len() ==> match #[trigger] r.0@[k] {
                Some(i) => i < left@.rows,
                None => true,
            },
        forall|k: int|
            0 <= k < r.1@.len() ==> match #[trigger] r.1@[k] {
                Some(i) => i < right@.rows,
                None => true,
            },
{
    let ghost lcols = columns_at(left@.columns, left_indices@);
    let ghost rcols = columns_at(right@.columns, right_indices@);
    let ghost lk = row_keys(lcols, left@.rows);
    let ghost rk = row_keys(rcols, right@.rows);
    let ghost types = column_types(lcols);
    let left_rows = encode_keys(left, left_indices, false);
    let right_rows = encode_keys(right, right_indices, false);
    let groups = RowGroups::of_codes(&right_rows);
    let ghost rcodes = codes(right_rows@);
    let right_len = right.num_rows();
    let left_len = left.num_rows();
    let mut matched: Vec<bool> = Vec::new();
    let mut i: usize = 0;
    while i < right_len
        invariant
            i <= right_len,
            matched@.len() == i,
            forall|j: int| 0 <= j < i ==> !#[trigger] matched@[j],
        decreases right_len - i,
    {
        matched.push(false);
        i += 1;
    }
    let mut left_out: Vec<Option<usize>> = Vec::new();
    let mut right_out: Vec<Option<usize>> = Vec::new();
    let ghost mut pairs: Seq<(Option<int>, Option<int>)> = Seq::empty();
    let mut l: usize = 0;
    assert(row_numbers(left_out@) =~= left_sides(pairs));
    assert(row_numbers(right_out@) =~= right_sides(pairs));
    while l < left_len
        invariant
            l <= left_len == left@.rows,
            right_len == right@.rows,
            forall|k: int|
                0 <= k < left_indices@.len() ==> (#[trigger] left_indices@[k])
                    < left@.columns.len(),
            lcols == columns_at(left@.columns, left_indices@),
            lk == row_keys(lcols, left@.rows),
            rk == row_keys(rcols, right@.rows),
            encodes(left_rows@, types, lk),
            encodes(right_rows@, types, rk),
            rcodes == codes(right_rows@),
            groups.holds(rcodes, code_hashes(rcodes), right_rows@.len()),
            matched@.len() == right_len,
            forall|r: int|
                0 <= r < right_len ==> #[trigger] matched@[r] == is_matched(
                    lk,
                    rk,
                    null_safe,
                    l as nat,
                    r,
                ),
            pairs == left_pairs(lk, rk, how, null_safe, l as nat),
            row_numbers(left_out@) == left_sides(pairs),
            row_numbers(right_out@) == right_sides(pairs),
            forall|k: int|
                0 <= k < left_out@.len() ==> match #[trigger] left_out@[k] {
                    Some(i) => i < left@.rows,
                    None => true,
                },
            forall|k: int|
                0 <= k < right_out@.len() ==> match #[trigger] right_out@[k] {
                    Some(i) => i < right@.rows,
                    None => true,
                },
        decreases left_len - l,
    {
        let ghost found = |r: int| keys_match(lk[l as int], rk[r], null_safe);
        let ghost before = pairs;
        let ghost old_matched = matched@;
        proof {
            assert forall|r: int| 0 <= r < right_len implies ((left_rows@[l as int]@
                == #[trigger] rcodes[r]) <==> lk[l as int] == rk[r]) by {
                assert(rcodes[r] == right_rows@[r]@);
                assert(right_rows@[r]@ == key_code(rk[r]));
                assert(left_rows@[l as int]@ == key_code(lk[l as int]));
                assert(key_fits(types, lk[l as int]));
            }
            lemma_rows_where(rk.len(), found);
        }
        let excluded = !null_safe && has_null_key(left, left_indices, l);
        let group: Option<usize> = if excluded {
            None
        } else {
            groups.find_code(&right_rows, &left_rows[l])
        };
        match group {
            Some(g) => {
                let ghost leader = groups.leaders@[g as int] as int;
                let members = &groups.groups[g];
                let ghost targets = ints(members@);
                proof {
                    let like = |i: int| rcodes[i] == rcodes[leader];
                    assert forall|r: int| 0 <= r < rk.len() implies #[trigger] like(r) == found(
                        r,
                    ) by {
                        assert(rcodes[leader] == left_rows@[l as int]@);
                    }
                    lemma_rows_where_same(rk.len(), like, found);
                    assert(targets == matches_of(lk, rk, null_safe, l as int));
                    lemma_rows_where(right_rows@.len(), |i: int| crate::groups::is_first(rcodes, i));
                    assert(ints(groups.leaders@)[g as int] == leader);
                    assert(found(leader));
                    assert(targets.contains(leader));
                }
                let mut k: usize = 0;
                while k < members.len()
                    invariant
                        k <= members@.len(),
                        l < left_len == left@.rows,
                        right_len == right@.rows == rk.len(),
                        matched@.len() == right_len == old_matched.len(),
                        targets == ints(members@),
                        forall|k: int|
                            0 <= k < targets.len() ==> 0 <= #[trigger] targets[k] < right_len,
                        forall|r: int|
                            0 <= r < right_len ==> #[trigger] matched@[r] == (old_matched[r]
                                || targets.take(k as int).contains(r)),
                        pairs == before + targets.take(k as int).map_values(
                            |r: int| (Some(l as int), Some(r)),
                        ),
                        row_numbers(left_out@) == left_sides(pairs),
                        row_numbers(right_out@) == right_sides(pairs),
                        forall|k: int|
                            0 <= k < left_out@.len() ==> match #[trigger] left_out@[k] {
                                Some(i) => i < left@.rows,
                                None => true,
                            },
                        forall|k: int|
                            0 <= k < right_out@.len() ==> match #[trigger] right_out@[k] {
                                Some(i) => i < right@.rows,
                                None => true,
                            },
                    decreases members@.len() - k,
                {
                    let r = members[k];
                    assert(targets[k as int] == r);
                    left_out.push(Some(l));
                    right_out.push(Some(r));
                    let ghost prior = matched@;
                    matched.set(r, true);
                    proof {
                        let done = targets.take(k as int);
                        let more = targets.take(k as int + 1);
                        assert(more =~= done.push(r as int));
                        assert forall|x: int| 0 <= x < right_len implies #[trigger] matched@[x]
                            == (old_matched[x] || more.contains(x)) by {
                            if more.contains(x) && x != r {
                                let y = choose|y: int| 0 <= y < more.len() && more[y] == x;
                                assert(done[y] == x);
                            }
                            if done.contains(x) {
                                let y = choose|y: int| 0 <= y < done.len() && done[y] == x;
                                assert(more[y] == x);
                            }
                            if x == r {
                                assert(more[k as int] == r);
                            }
                            assert(prior[x] == (old_matched[x] || done.contains(x)));
                        }
                        let pair = (Some(l as int), Some(r as int));
                        let longer = pairs.push(pair);
                        assert(longer =~= before + more.map_values(
                            |r: int| (Some(l as int), Some(r)),
                        ));
                        assert(row_numbers(left_out@) =~= left_sides(pairs).push(Some(l as int)));
                        assert(row_numbers(right_out@) =~= right_sides(pairs).push(Some(r as int)));
                        assert(left_sides(longer) =~= left_sides(pairs).push(Some(l as int)));
                        assert(right_sides(longer) =~= right_sides(pairs).push(Some(r as int)));
                        pairs = longer;
                    }
                    k += 1;
                }
                assert(targets.take(k as int) =~= targets);
            },
            None => {
                proof {
                    assert forall|r: int| 0 <= r < rk.len() implies !#[trigger] found(r) by {
                        assert(rcodes[r] == right_rows@[r]@);
                    }
                    assert(rows_where(rk.len(), found) =~= Seq::empty()) by {
                        if rows_where(rk.len(), found).len() > 0 {
                            assert(found(rows_where(rk.len(), found)[0]));
                        }
                    }
                }
                let keep = match how {
                    JoinType::Left | JoinType::Full => true,
                    _ => false,
                };
                if keep {
                    left_out.push(Some(l));
                    right_out.push(None);
                    proof {
                        let longer = pairs.push((Some(l as int), None));
                        assert(row_numbers(left_out@) =~= left_sides(pairs).push(Some(l as int)));
                        assert(row_numbers(right_out@) =~= right_sides(pairs).push(None));
                        assert(left_sides(longer) =~= left_sides(pairs).push(Some(l as int)));
                        assert(right_sides(longer) =~= right_sides(pairs).push(None));
                        pairs = longer;
                    }
                }
            },
        }
        proof {
            let now = pairs_of(lk, rk, how, null_safe, l as int);
            assert(pairs =~= before + now);
            assert forall|r: int| 0 <= r < right_len implies #[trigger] matched@[r] == is_matched(
                lk,
                rk,
                null_safe,
                (l + 1) as nat,
                r,
            ) by {
                assert(old_matched[r] == is_matched(lk, rk, null_safe, l as nat, r));
                let targets = matches_of(lk, rk, null_safe, l as int);
                if found(r) {
                    assert(targets.contains(r));
                    assert(keys_match(lk[l as int], rk[r], null_safe));
                }
                if targets.contains(r) {
                    let y = choose|y: int| 0 <= y < targets.len() && targets[y] == r;
                    assert(found(targets[y]));
                }
                if is_matched(lk, rk, null_safe, l as nat, r) {
                    let x = choose|x: int|
                        0 <= x < l && keys_match(#[trigger] lk[x], rk[r], null_safe);
                    assert(keys_match(lk[x], rk[r], null_safe));
                }
                if is_matched(lk, rk, null_safe, (l + 1) as nat, r) {
                    let x = choose|x: int|
                        0 <= x < l + 1 && keys_match(#[trigger] lk[x], rk[r], null_safe);
                    if x < l {
                        assert(keys_match(lk[x], rk[r], null_safe));
                    }
                }
            }
        }
        l += 1;
    }
    let keep_right = match how {
        JoinType::Right | JoinType::Full => true,
        _ => false,
    };
    let ghost all_left = pairs;
    if keep_right {
        let ghost open_rows = |r: int| !is_matched(lk, rk, null_safe, lk.len(), r);
        let mut r: usize = 0;
        assert(all_left =~= all_left + rows_where(0, open_rows).map_values(
            |r: int| (None::<int>, Some(r)),
        ));
        while r < right_len
            invariant
                r <= right_len == right@.rows,
                rk.len() == right_len,
                matched@.len() == right_len,
                open_rows == (|r: int| !is_matched(lk, rk, null_safe, lk.len(), r)),
                forall|r: int|
                    0 <= r < right_len ==> #[trigger] matched@[r] == is_matched(
                        lk,
                        rk,
                        null_safe,
                        lk.len(),
                        r,
                    ),
                pairs == all_left + rows_where(r as nat, open_rows).map_values(
                    |r: int| (None::<int>, Some(r)),
                ),
                row_numbers(left_out@) == left_sides(pairs),
                row_numbers(right_out@) == right_sides(pairs),
                forall|k: int|
                    0 <= k < left_out@.len() ==> match #[trigger] left_out@[k] {
                        Some(i) => i < left@.rows,
                        None => true,
                    },
                forall|k: int|
                    0 <= k < right_out@.len() ==> match #[trigger] right_out@[k] {
                        Some(i) => i < right@.rows,
                        None => true,
                    },
            decreases right_len - r,
        {
            if !matched[r] {
                left_out.push(None);
                right_out.push(Some(r));
                proof {
                    assert(open_rows(r as int));
                    let longer = pairs.push((None, Some(r as int)));
                    assert(row_numbers(left_out@) =~= left_sides(pairs).push(None));
                    assert(row_numbers(right_out@) =~= right_sides(pairs).push(Some(r as int)));
                    assert(left_sides(longer) =~= left_sides(pairs).push(None));
                    assert(right_sides(longer) =~= right_sides(pairs).push(Some(r as int)));
                    assert(longer =~= all_left + rows_where((r + 1) as nat, open_rows).map_values(
                        |r: int| (None::<int>, Some(r)),
                    ));
                    pairs = longer;
                }
            } else {
                assert(!open_rows(r as int));
            }
            r += 1;
        }
    }
    proof {
        assert(pairs =~= join_pairs(lk, rk, how, null_safe));
    }
    (left_out, right_out)
}

/// The columns of a batch at the given rows, with nulls where no row is given.
fn take_columns(batch: &RecordBatch, rows: &Vec<Option<usize>>, columns: &mut Vec<Column>)
    requires
        forall|k: int|
            0 <= k < rows@.len() ==> match #[trigger] rows@[k] {
                Some(i) => i < batch@.rows,
                None => true,
            },
    ensures
        column_views(final(columns)@) == column_views(old(columns)@) + batch@.columns.map_values(
            |c: ColumnView| c.take(row_numbers(rows@)),
        ),
{
    let ghost before = column_views(columns@);
    let ghost taken = batch@.columns.map_values(|c: ColumnView| c.take(row_numbers(rows@)));
    let n = batch.num_columns();
    let mut k: usize = 0;
    assert(before =~= before + taken.take(0));
    while k < n
        invariant
            k <= n == batch@.columns.len(),
            batch@.wf(),
            taken == batch@.columns.map_values(|c: ColumnView| c.take(row_numbers(rows@))),
            forall|k: int|
                0 <= k < rows@.len() ==> match #[trigger] rows@[k] {
                    Some(i) => i < batch@.rows,
                    None => true,
                },
            column_views(columns@) == before + taken.take(k as int),
        decreases n - k,
    {
        let column = batch.column(k);
        let ghost so_far = columns@;
        let out = column.take(rows);
        columns.push(out);
        assert(column_views(columns@) =~= column_views(so_far).push(out@));
        assert(taken.take(k as int + 1) =~= taken.take(k as int).push(out@));
        k += 1;
    }
    assert(taken.take(k as int) =~= taken);
}

/// The models of columns.
pub open spec fn column_views(columns: Seq<Column>) -> Seq<ColumnView> {
    columns.map_values(|c: Column| c@)
}

/// The models of fields.
pub open spec fn field_views(fields: Seq<Field>) -> Seq<FieldView> {
    fields.map_values(|f: Field| f@)
}

/// The fields of the output.
fn join_fields(left: &Schema, right: &Schema) -> (fields: Vec<Field>)
    ensures
        field_views(fields@) == joined_fields(left@, right@),
{
    let ghost expected = joined_fields(left@, right@);
    let mut fields: Vec<Field> = Vec::new();
    let mut i: usize = 0;
    while i < left.fields.len()
        invariant
            i <= left.fields@.len(),
            fields@.len() == i,
            expected == joined_fields(left@, right@),
            forall|j: int| 0 <= j < i ==> (#[trigger] fields@[j])@ == expected[j],
        decreases left.fields@.len() - i,
    {
        let f = &left.fields[i];
        assert(left@[i as int] == f@);
        fields.push(Field::new(f.name.as_str(), f.data_type.clone(), true));
        i += 1;
    }
    let mut j: usize = 0;
    while j < right.fields.len()
        invariant
            j <= right.fields@.len(),
            fields@.len() == left.fields@.len() + j,
            expected == joined_fields(left@, right@),
            forall|k: int| 0 <= k < fields@.len() ==> (#[trigger] fields@[k])@ == expected[k],
        decreases right.fields@.len() - j,
    {
        let f = &right.fields[j];
        assert(right@[j as int] == f@);
        let name = if left.index_of(f.name.as_str()).is_some() {
            let mut suffixed = f.name.clone();
            suffixed.append("_right");
            suffixed
        } else {
            f.name.clone()
        };
        fields.push(Field::new(name.as_str(), f.data_type.clone(), true));
        j += 1;
    }
    assert(field_views(fields@) =~= expected);
    fields
}

/// Joins two batches on key columns; `null_safe` says whether nulls match nulls.
fn join_on(
    left: &RecordBatch,
    right: &RecordBatch,
    left_keys: &[&str],
    right_keys: &[&str],
    how: JoinType,
    null_safe: bool,
) -> (r: Result<RecordBatch, Error>)
    ensures
        same_outcome(
            r,
            join_outcome(left@, right@, texts(left_keys@), texts(right_keys@), how, null_safe),
        ),
{
    if left_keys.len() == 0 || right_keys.len() != left_keys.len() {
        return Err(Error::config("left_keys and right_keys must be the same non-zero length"));
    }
    let left_indices = match resolve_indices(left.schema(), left_keys) {
        Ok(v) => v,
        Err(e) => {
            return Err(e);
        },
    };
    let right_indices = match resolve_indices(right.schema(), right_keys) {
        Ok(v) => v,
        Err(e) => {
            return Err(e);
        },
    };
    let ghost lcols = named_columns(left@, texts(left_keys@));
    let ghost rcols = named_columns(right@, texts(right_keys@));
    let ghost differ = |i: int| lcols[i].data_type != rcols[i].data_type;
    proof {
        assert(columns_at(left@.columns, left_indices@) =~= lcols);
        assert(columns_at(right@.columns, right_indices@) =~= rcols);
    }
    let mut i: usize = 0;
    while i < left_indices.len()
        invariant
            i <= left_indices@.len() == right_indices@.len() == left_keys@.len()
                == right_keys@.len() == lcols.len() == rcols.len(),
            left@.wf(),
            right@.wf(),
            left_keys@.len() > 0,
            first_unknown(left@.fields, texts(left_keys@)) is None,
            first_unknown(right@.fields, texts(right_keys@)) is None,
            lcols == named_columns(left@, texts(left_keys@)),
            rcols == named_columns(right@, texts(right_keys@)),
            lcols == columns_at(left@.columns, left_indices@),
            rcols == columns_at(right@.columns, right_indices@),
            differ == (|i: int| lcols[i].data_type != rcols[i].data_type),
            forall|k: int|
                0 <= k < left_indices@.len() ==> (#[trigger] left_indices@[k])
                    < left@.columns.len(),
            forall|k: int|
                0 <= k < right_indices@.len() ==> (#[trigger] right_indices@[k])
                    < right@.columns.len(),
            forall|j: int| 0 <= j < i ==> !#[trigger] differ(j),
        decreases left_indices@.len() - i,
    {
        let l = left.column(left_indices[i]).data_type();
        let r = right.column(right_indices[i]).data_type();
        assert(l@ == lcols[i as int].data_type);
        assert(r@ == rcols[i as int].data_type);
        if !l.same(r) {
            let mut column = left_keys[i].to_owned();
            column.append("/");
            column.append(right_keys[i]);
            proof {
                lemma_first_where_is(lcols.len(), differ, i as int);
                assert(texts(left_keys@)[i as int] == left_keys@[i as int]@);
                assert(texts(right_keys@)[i as int] == right_keys@[i as int]@);
            }
            return Err(
                Error::type_mismatch(column.as_str(), l.name().as_str(), r.name().as_str()),
            );
        }
        assert(!differ(i as int));
        i += 1;
    }
    proof {
        lemma_first_where(lcols.len(), differ);
        assert(column_types(lcols) =~= column_types(rcols)) by {
            assert forall|c: int| 0 <= c < lcols.len() implies column_types(lcols)[c]
                == column_types(rcols)[c] by {
                assert(!differ(c));
            }
        }
    }
    let (left_rows, right_rows) = match_rows(
        left,
        right,
        &left_indices,
        &right_indices,
        how,
        null_safe,
    );
    let fields = join_fields(left.schema(), right.schema());
    let mut columns: Vec<Column> = Vec::new();
    take_columns(left, &left_rows, &mut columns);
    take_columns(right, &right_rows, &mut columns);
    let ghost expected = joined(
        left@,
        right@,
        texts(left_keys@),
        texts(right_keys@),
        how,
        null_safe,
    );
    let schema = Schema::new(fields);
    proof {
        assert(column_views(columns@) =~= expected.columns);
        assert(schema@ =~= expected.fields);
        assert(expected.columns.len() == left@.columns.len() + right@.columns.len());
        assert forall|i: int| 0 <= i < expected.columns.len() implies {
            &&& (#[trigger] expected.columns[i]).cells.len() == expected.rows
            &&& expected.columns[i].data_type == expected.fields[i].data_type
            &&& expected.columns[i].has_null() ==> expected.fields[i].nullable
        } by {
            if i < left@.columns.len() {
                assert(left@.columns[i].data_type == left@.fields[i].data_type);
            } else {
                let j = i - left@.columns.len();
                assert(right@.columns[j].data_type == right@.fields[j].data_type);
            }
        }
        assert(left_indices@[0] < left@.columns.len());
        lemma_columns_make_a_batch(expected.fields, expected.columns, expected.rows);
    }
    RecordBatch::try_new(schema, columns)
}

/// Joins two batches on key columns, matched pairwise by position. A row with a null in a key
/// column matches no row.
///
/// The output has every field of the left batch, then every field of the right one, all of them
/// nullable; a right field with the name of a left field gets the suffix `_right`. The rows are
/// those of the left batch in their order, each once per match, or once with nulls where it has
/// none and the join type keeps it, and then the right rows without a match, where the join
/// type keeps those.
///
/// Fails with `Config` where the key lists are empty or differ in length, with `UnknownColumn`
/// for a name that a schema does not have, and with `TypeMismatch` where paired key columns
/// differ in type.
pub fn join(
    left: &RecordBatch,
    right: &RecordBatch,
    left_keys: &[&str],
    right_keys: &[&str],
    how: JoinType,
) -> (r: Result<RecordBatch, Error>)
    ensures
        same_outcome(
            r,
            join_outcome(left@, right@, texts(left_keys@), texts(right_keys@), how, false),
        ),
{
    join_on(left, right, left_keys, right_keys, how, false)
}

/// [`join`], but a null in a key column matches a null in the paired one.
pub fn join_null_safe(
    left: &RecordBatch,
    right: &RecordBatch,
    left_keys: &[&str],
    right_keys: &[&str],
    how: JoinType,
) -> (r: Result<RecordBatch, Error>)
    ensures
        same_outcome(
            r,
            join_outcome(left@, right@, texts(left_keys@), texts(right_keys@), how, true),
        ),
{
    join_on(left, right, left_keys, right_keys, how, true)
}

/// The output rows of left rows: what each of them is.
proof fn lemma_left_pairs(
    left: Seq<Seq<Option<CellView>>>,
    right: Seq<Seq<Option<CellView>>>,
    how: JoinType,
    null_safe: bool,
    n: nat,
)
    ensures
        forall|k: int|
            0 <= k < left_pairs(left, right, how, null_safe, n).len() ==> match (
            #[trigger] left_pairs(left, right, how, null_safe, n)[k]) {
                (Some(l), Some(r)) => 0 <= l < n && 0 <= r < right.len() && keys_match(
                    left[l],
                    right[r],
                    null_safe,
                ),
                (Some(l), None) => 0 <= l < n && keeps_left(how) && matches_of(
                    left,
                    right,
                    null_safe,
                    l,
                ).len() == 0,
                (None, _) => false,
            },
    decreases n,
{
    if n > 0 {
        let m = (n - 1) as nat;
        lemma_left_pairs(left, right, how, null_safe, m);
        let before = left_pairs(left, right, how, null_safe, m);
        let now = pairs_of(left, right, how, null_safe, m as int);
        let all = left_pairs(left, right, how, null_safe, n);
        let found = |r: int| keys_match(left[m as int], right[r], null_safe);
        lemma_rows_where(right.len(), found);
        assert forall|k: int| 0 <= k < all.len() implies match (#[trigger] all[k]) {
            (Some(l), Some(r)) => 0 <= l < n && 0 <= r < right.len() && keys_match(
                left[l],
                right[r],
                null_safe,
            ),
            (Some(l), None) => 0 <= l < n && keeps_left(how) && matches_of(
                left,
                right,
                null_safe,
                l,
            ).len() == 0,
            (None, _) => false,
        } by {
            if k < before.len() {
                assert(all[k] == before[k]);
            } else {
                assert(all[k] == now[k - before.len()]);
                let matches = matches_of(left, right, null_safe, m as int);
                if matches.len() > 0 {
                    assert(found(matches[k - before.len()]));
                }
            }
        }
    }
}

/// The output rows of one left row are among those of all.
proof fn lemma_left_pairs_hold(
    left: Seq<Seq<Option<CellView>>>,
    right: Seq<Seq<Option<CellView>>>,
    how: JoinType,
    null_safe: bool,
    n: nat,
    l: int,
    k: int,
) -> (at: int)
    requires
        0 <= l < n,
        0 <= k < pairs_of(left, right, how, null_safe, l).len(),
    ensures
        0 <= at < left_pairs(left, right, how, null_safe, n).len(),
        left_pairs(left, right, how, null_safe, n)[at] == pairs_of(
            left,
            right,
            how,
            null_safe,
            l,
        )[k],
    decreases n,
{
    let m = (n - 1) as nat;
    let before = left_pairs(left, right, how, null_safe, m);
    if l == m {
        before.len() + k
    } else {
        lemma_left_pairs_hold(left, right, how, null_safe, m, l, k)
    }
}

/// Every output row with both sides is of rows whose keys match.
pub proof fn law_joined_rows_match(
    left: Seq<Seq<Option<CellView>>>,
    right: Seq<Seq<Option<CellView>>>,
    how: JoinType,
    null_safe: bool,
    k: int,
)
    requires
        0 <= k < join_pairs(left, right, how, null_safe).len(),
    ensures
        match join_pairs(left, right, how, null_safe)[k] {
            (Some(l), Some(r)) => 0 <= l < left.len() && 0 <= r < right.len() && keys_match(
                left[l],
                right[r],
                null_safe,
            ),
            (Some(l), None) => 0 <= l < left.len() && keeps_left(how) && matches_of(
                left,
                right,
                null_safe,
                l,
            ).len() == 0,
            (None, Some(r)) => 0 <= r < right.len() && keeps_right(how) && !is_matched(
                left,
                right,
                null_safe,
                left.len(),
                r,
            ),
            (None, None) => false,
        },
{
    let first = left_pairs(left, right, how, null_safe, left.len());
    lemma_left_pairs(left, right, how, null_safe, left.len());
    if k < first.len() {
        assert(join_pairs(left, right, how, null_safe)[k] == first[k]);
    } else {
        let open_rows = |r: int| !is_matched(left, right, null_safe, left.len(), r);
        lemma_rows_where(right.len(), open_rows);
        assert(open_rows(unmatched(left, right, null_safe)[k - first.len()]));
    }
}

/// Every two rows whose keys match are an output row.
pub proof fn law_matching_rows_are_joined(
    left: Seq<Seq<Option<CellView>>>,
    right: Seq<Seq<Option<CellView>>>,
    how: JoinType,
    null_safe: bool,
    l: int,
    r: int,
)
    requires
        0 <= l < left.len(),
        0 <= r < right.len(),
        keys_match(left[l], right[r], null_safe),
    ensures
        join_pairs(left, right, how, null_safe).contains((Some(l), Some(r))),
{
    let found = |r: int| keys_match(left[l], right[r], null_safe);
    let matches = matches_of(left, right, null_safe, l);
    lemma_rows_where(right.len(), found);
    assert(found(r));
    let k = choose|k: int| 0 <= k < matches.len() && matches[k] == r;
    let at = lemma_left_pairs_hold(left, right, how, null_safe, left.len(), l, k);
    assert(join_pairs(left, right, how, null_safe)[at] == (Some(l), Some(r)));
}

/// A left or full join keeps every left row.
pub proof fn law_left_rows_are_kept(
    left: Seq<Seq<Option<CellView>>>,
    right: Seq<Seq<Option<CellView>>>,
    how: JoinType,
    null_safe: bool,
    l: int,
)
    requires
        keeps_left(how),
        0 <= l < left.len(),
    ensures
        left_sides(join_pairs(left, right, how, null_safe)).contains(Some(l)),
{
    let at = lemma_left_pairs_hold(left, right, how, null_safe, left.len(), l, 0);
    assert(left_sides(join_pairs(left, right, how, null_safe))[at] == Some(l));
}

/// A right or full join keeps every right row.
pub proof fn law_right_rows_are_kept(
    left: Seq<Seq<Option<CellView>>>,
    right: Seq<Seq<Option<CellView>>>,
    how: JoinType,
    null_safe: bool,
    r: int,
)
    requires
        keeps_right(how),
        0 <= r < right.len(),
    ensures
        right_sides(join_pairs(left, right, how, null_safe)).contains(Some(r)),
{
    let pairs = join_pairs(left, right, how, null_safe);
    if is_matched(left, right, null_safe, left.len(), r) {
        let l = choose|l: int|
            0 <= l < left.len() && keys_match(#[trigger] left[l], right[r], null_safe);
        law_matching_rows_are_joined(left, right, how, null_safe, l, r);
        let at = choose|at: int| 0 <= at < pairs.len() && pairs[at] == (Some(l), Some(r));
        assert(right_sides(pairs)[at] == Some(r));
    } else {
        let open_rows = |r: int| !is_matched(left, right, null_safe, left.len(), r);
        lemma_rows_where(right.len(), open_rows);
        assert(open_rows(r));
        let rest = unmatched(left, right, null_safe);
        let k = choose|k: int| 0 <= k < rest.len() && rest[k] == r;
        let first = left_pairs(left, right, how, null_safe, left.len());
        assert(right_sides(pairs)[first.len() + k] == Some(r));
    }
}

/// An inner join has only rows with both sides.
pub proof fn law_inner_rows_have_both_sides(
    left: Seq<Seq<Option<CellView>>>,
    right: Seq<Seq<Option<CellView>>>,
    null_safe: bool,
    k: int,
)
    requires
        0 <= k < join_pairs(left, right, JoinType::Inner, null_safe).len(),
    ensures
        join_pairs(left, right, JoinType::Inner, null_safe)[k].0 is Some,
        join_pairs(left, right, JoinType::Inner, null_safe)[k].1 is Some,
{
    law_joined_rows_match(left, right, JoinType::Inner, null_safe, k);
}

/// A key with a null matches nothing, unless nulls match nulls.
pub proof fn law_null_keys_match_nothing(
    left: Seq<Seq<Option<CellView>>>,
    right: Seq<Seq<Option<CellView>>>,
    how: JoinType,
    l: int,
    r: int,
)
    requires
        0 <= l < left.len(),
        0 <= r < right.len(),
        key_has_null(left[l]) || key_has_null(right[r]),
    ensures
        !join_pairs(left, right, how, false).contains((Some(l), Some(r))),
{
    let pairs = join_pairs(left, right, how, false);
    if pairs.contains((Some(l), Some(r))) {
        let k = choose|k: int| 0 <= k < pairs.len() && pairs[k] == (Some(l), Some(r));
        law_joined_rows_match(left, right, how, false, k);
    }
}

proof fn lemma_left_pairs_without_nulls(
    left: Seq<Seq<Option<CellView>>>,
    right: Seq<Seq<Option<CellView>>>,
    how: JoinType,
    n: nat,
)
    requires
        n <= left.len(),
        forall|l: int| 0 <= l < left.len() ==> !key_has_null(#[trigger] left[l]),
    ensures
        left_pairs(left, right, how, false, n) == left_pairs(left, right, how, true, n),
    decreases n,
{
    if n > 0 {
        let m = n - 1;
        lemma_left_pairs_without_nulls(left, right, how, m as nat);
        let strict = |r: int| keys_match(left[m], right[r], false);
        let safe = |r: int| keys_match(left[m], right[r], true);
        assert(!key_has_null(left[m]));
        lemma_rows_where_same(right.len(), strict, safe);
    }
}

/// Where no left key holds a null, it makes no difference whether nulls match nulls.
pub proof fn law_null_safety_matters_only_for_nulls(
    left: Seq<Seq<Option<CellView>>>,
    right: Seq<Seq<Option<CellView>>>,
    how: JoinType,
)
    requires
        forall|l: int| 0 <= l < left.len() ==> !key_has_null(#[trigger] left[l]),
    ensures
        join_pairs(left, right, how, false) == join_pairs(left, right, how, true),
{
    lemma_left_pairs_without_nulls(left, right, how, left.len());
    let strict = |r: int| !is_matched(left, right, false, left.len(), r);
    let safe = |r: int| !is_matched(left, right, true, left.len(), r);
    assert forall|r: int| 0 <= r < right.len() implies #[trigger] strict(r) == safe(r) by {
        if is_matched(left, right, true, left.len(), r) {
            let l = choose|l: int|
                0 <= l < left.len() && keys_match(#[trigger] left[l], right[r], true);
            assert(!key_has_null(left[l]));
            assert(keys_match(left[l], right[r], false));
        }
        if is_matched(left, right, false, left.len(), r) {
            let l = choose|l: int|
                0 <= l < left.len() && keys_match(#[trigger] left[l], right[r], false);
            assert(keys_match(left[l], right[r], true));
        }
    }
    lemma_rows_where_same(right.len(), strict, safe);
}

proof fn lemma_left_pairs_depend_on_left(
    left: Seq<Seq<Option<CellView>>>,
    right: Seq<Seq<Option<CellView>>>,
    a: JoinType,
    b: JoinType,
    null_safe: bool,
    n: nat,
)
    requires
        keeps_left(a) == keeps_left(b),
    ensures
        left_pairs(left, right, a, null_safe, n) == left_pairs(left, right, b, null_safe, n),
    decreases n,
{
    if n > 0 {
        lemma_left_pairs_depend_on_left(left, right, a, b, null_safe, (n - 1) as nat);
    }
}

/// A right join is the inner join followed by the right rows without a match, and a full join
/// is the left join followed by them.
pub proof fn law_right_rows_follow(
    left: Seq<Seq<Option<CellView>>>,
    right: Seq<Seq<Option<CellView>>>,
    null_safe: bool,
)
    ensures
        ({
            let rest = unmatched(left, right, null_safe).map_values(
                |r: int| (None::<int>, Some(r)),
            );
            &&& join_pairs(left, right, JoinType::Right, null_safe) == join_pairs(
                left,
                right,
                JoinType::Inner,
                null_safe,
            ) + rest
            &&& join_pairs(left, right, JoinType::Full, null_safe) == join_pairs(
                left,
                right,
                JoinType::Left,
                null_safe,
            ) + rest
        }),
{
    let n = left.len();
    lemma_left_pairs_depend_on_left(left, right, JoinType::Inner, JoinType::Right, null_safe, n);
    lemma_left_pairs_depend_on_left(left, right, JoinType::Left, JoinType::Full, null_safe, n);
    let inner = left_pairs(left, right, JoinType::Inner, null_safe, n);
    let outer = left_pairs(left, right, JoinType::Left, null_safe, n);
    assert(inner + Seq::<(Option<int>, Option<int>)>::empty() =~= inner);
    assert(outer + Seq::<(Option<int>, Option<int>)>::empty() =~= outer);
}

/// Output rows come in the order of their left rows, and those of one left row in the order of
/// their right rows.
pub proof fn law_output_order(
    left: Seq<Seq<Option<CellView>>>,
    right: Seq<Seq<Option<CellView>>>,
    how: JoinType,
    null_safe: bool,
    a: int,
    b: int,
)
    requires
        0 <= a < b < join_pairs(left, right, how, null_safe).len(),
    ensures
        match (
            join_pairs(left, right, how, null_safe)[a],
            join_pairs(left, right, how, null_safe)[b],
        ) {
            ((Some(l), r), (Some(m), s)) => l < m || (l == m && r is Some && s is Some && r->0
                < s->0),
            ((None, r), (None, s)) => r->0 < s->0,
            ((Some(_), _), (None, _)) => true,
            ((None, _), (Some(_), _)) => false,
        },
{
    let first = left_pairs(left, right, how, null_safe, left.len());
    lemma_left_pairs(left, right, how, null_safe, left.len());
    if b < first.len() {
        lemma_left_pairs_order(left, right, how, null_safe, left.len(), a, b);
        assert(join_pairs(left, right, how, null_safe)[a] == first[a]);
        assert(join_pairs(left, right, how, null_safe)[b] == first[b]);
    } else {
        let open_rows = |r: int| !is_matched(left, right, null_safe, left.len(), r);
        lemma_rows_where(right.len(), open_rows);
        if a < first.len() {
            assert(join_pairs(left, right, how, null_safe)[a] == first[a]);
        }
    }
}

proof fn lemma_left_pairs_order(
    left: Seq<Seq<Option<CellView>>>,
    right: Seq<Seq<Option<CellView>>>,
    how: JoinType,
    null_safe: bool,
    n: nat,
    a: int,
    b: int,
)
    requires
        0 <= a < b < left_pairs(left, right, how, null_safe, n).len(),
    ensures
        match (
            left_pairs(left, right, how, null_safe, n)[a],
            left_pairs(left, right, how, null_safe, n)[b],
        ) {
            ((Some(l), r), (Some(m), s)) => l < m || (l == m && r is Some && s is Some && r->0
                < s->0),
            _ => false,
        },
    decreases n,
{
    if n > 0 {
        let m = (n - 1) as nat;
        let before = left_pairs(left, right, how, null_safe, m);
        lemma_left_pairs(left, right, how, null_safe, m);
        let found = |r: int| keys_match(left[m as int], right[r], null_safe);
        lemma_rows_where(right.len(), found);
        let all = left_pairs(left, right, how, null_safe, n);
        if b < before.len() {
            lemma_left_pairs_order(left, right, how, null_safe, m, a, b);
        } else if a < before.len() {
            assert(all[a] == before[a]);
        }
    }
}

/// Whether two rows meet: under each pair of key names they have the same cell, which is no null
/// unless nulls match nulls.
pub open spec fn rows_meet(
    left: BatchView,
    l: int,
    left_keys: Seq<Seq<char>>,
    right: BatchView,
    r: int,
    right_keys: Seq<Seq<char>>,
    null_safe: bool,
) -> bool {
    forall|j: int|
        0 <= j < left_keys.len() ==> {
            let a = left.columns[index_of(left.fields, #[trigger] left_keys[j])->0].cells[l];
            let b = right.columns[index_of(right.fields, right_keys[j])->0].cells[r];
            a == b && (null_safe || a is Some)
        }
}

/// Whether a left row meets no right row.
pub open spec fn left_meets_none(
    left: BatchView,
    l: int,
    left_keys: Seq<Seq<char>>,
    right: BatchView,
    right_keys: Seq<Seq<char>>,
    null_safe: bool,
) -> bool {
    forall|r: int|
        0 <= r < right.rows ==> !#[trigger] rows_meet(
            left,
            l,
            left_keys,
            right,
            r,
            right_keys,
            null_safe,
        )
}

/// Whether a right row meets no left row.
pub open spec fn right_meets_none(
    left: BatchView,
    left_keys: Seq<Seq<char>>,
    right: BatchView,
    r: int,
    right_keys: Seq<Seq<char>>,
    null_safe: bool,
) -> bool {
    forall|l: int|
        0 <= l < left.rows ==> !#[trigger] rows_meet(
            left,
            l,
            left_keys,
            right,
            r,
            right_keys,
            null_safe,
        )
}

/// Whether a left row is one of those that rows are made of.
pub open spec fn left_is_there(made_of: Seq<(Option<int>, Option<int>)>, l: int) -> bool {
    exists|k: int| 0 <= k < made_of.len() && (#[trigger] made_of[k]).0 == Some(l)
}

/// Whether a right row is one of those that rows are made of.
pub open spec fn right_is_there(made_of: Seq<(Option<int>, Option<int>)>, r: int) -> bool {
    exists|k: int| 0 <= k < made_of.len() && (#[trigger] made_of[k]).1 == Some(r)
}

/// Rows meet exactly where their keys match.
proof fn lemma_rows_meet(
    left: BatchView,
    l: int,
    left_keys: Seq<Seq<char>>,
    right: BatchView,
    r: int,
    right_keys: Seq<Seq<char>>,
    null_safe: bool,
)
    requires
        left_keys.len() == right_keys.len(),
    ensures
        rows_meet(left, l, left_keys, right, r, right_keys, null_safe) <==> keys_match(
            row_key(named_columns(left, left_keys), l),
            row_key(named_columns(right, right_keys), r),
            null_safe,
        ),
{
    let a = row_key(named_columns(left, left_keys), l);
    let b = row_key(named_columns(right, right_keys), r);
    assert forall|j: int| 0 <= j < left_keys.len() implies {
        &&& #[trigger] a[j] == left.columns[index_of(left.fields, left_keys[j])->0].cells[l]
        &&& b[j] == right.columns[index_of(right.fields, right_keys[j])->0].cells[r]
    } by {}
    if rows_meet(left, l, left_keys, right, r, right_keys, null_safe) {
        assert forall|j: int| 0 <= j < a.len() implies a[j] == b[j] by {
            assert(left_keys[j] == left_keys[j]);
        }
        assert(a =~= b);
        if !null_safe {
            assert forall|j: int| 0 <= j < a.len() implies (#[trigger] a[j]) is Some by {
                assert(left_keys[j] == left_keys[j]);
            }
        }
    }
    if keys_match(a, b, null_safe) {
        assert forall|j: int| 0 <= j < left_keys.len() implies ({
            let x = left.columns[index_of(left.fields, #[trigger] left_keys[j])->0].cells[l];
            let y = right.columns[index_of(right.fields, right_keys[j])->0].cells[r];
            x == y && (null_safe || x is Some)
        }) by {
            assert(a[j] == b[j]);
        }
    }
}

/// What the rows of a join are: each is made of a left and a right row that meet, or, where the
/// join type keeps it, of a row that meets none and nulls for the other side. Every cell is the
/// cell of its column in the row it is made of. Each two rows that meet make up a row, each row
/// that is kept is there, and none is there twice: the rows come in the order of their left rows,
/// then of their right rows, and right rows without a left one come last.
pub proof fn law_what_join_rows_are(
    left: BatchView,
    right: BatchView,
    left_keys: Seq<Seq<char>>,
    right_keys: Seq<Seq<char>>,
    how: JoinType,
    null_safe: bool,
    out: BatchView,
) -> (made_of: Seq<(Option<int>, Option<int>)>)
    requires
        join_outcome(left, right, left_keys, right_keys, how, null_safe) == Ok::<
            BatchView,
            ErrorView,
        >(out),
    ensures
        out.rows == made_of.len(),
        out.columns.len() == left.columns.len() + right.columns.len(),
        forall|c: int, k: int|
            0 <= c < left.columns.len() && 0 <= k < out.rows ==> #[trigger] out.columns[c].cells[k]
                == (match made_of[k].0 {
                Some(l) => left.columns[c].cells[l],
                None => None,
            }),
        forall|c: int, k: int|
            0 <= c < right.columns.len() && 0 <= k < out.rows ==> out.columns[left.columns.len()
                + c].cells[k] == (match (#[trigger] made_of[k]).1 {
                Some(r) => (#[trigger] right.columns[c]).cells[r],
                None => None,
            }),
        forall|c: int| 0 <= c < out.columns.len() ==> (#[trigger] out.columns[c]).cells.len()
            == out.rows,
        forall|c: int|
            0 <= c < left.columns.len() ==> (#[trigger] left.columns[c]).data_type
                == out.columns[c].data_type,
        forall|c: int|
            0 <= c < right.columns.len() ==> (#[trigger] right.columns[c]).data_type
                == out.columns[left.columns.len() + c].data_type,
        forall|k: int|
            0 <= k < made_of.len() ==> match (#[trigger] made_of[k]) {
                (Some(l), Some(r)) => {
                    &&& 0 <= l < left.rows
                    &&& 0 <= r < right.rows
                    &&& rows_meet(left, l, left_keys, right, r, right_keys, null_safe)
                },
                (Some(l), None) => {
                    &&& how is Left || how is Full
                    &&& 0 <= l < left.rows
                    &&& left_meets_none(left, l, left_keys, right, right_keys, null_safe)
                },
                (None, Some(r)) => {
                    &&& how is Right || how is Full
                    &&& 0 <= r < right.rows
                    &&& right_meets_none(left, left_keys, right, r, right_keys, null_safe)
                },
                (None, None) => false,
            },
        forall|l: int, r: int|
            0 <= l < left.rows && 0 <= r < right.rows && #[trigger] rows_meet(
                left,
                l,
                left_keys,
                right,
                r,
                right_keys,
                null_safe,
            ) ==> made_of.contains((Some(l), Some(r))),
        how is Left || how is Full ==> forall|l: int|
            0 <= l < left.rows ==> #[trigger] left_is_there(made_of, l),
        how is Right || how is Full ==> forall|r: int|
            0 <= r < right.rows ==> #[trigger] right_is_there(made_of, r),
        forall|a: int, b: int|
            0 <= a < b < made_of.len() ==> match (#[trigger] made_of[a], #[trigger] made_of[b]) {
                ((Some(l), r), (Some(m), s)) => l < m || (l == m && r is Some && s is Some && r->0
                    < s->0),
                ((None, Some(r)), (None, Some(s))) => r < s,
                ((Some(_), _), (None, _)) => true,
                _ => false,
            },
{
    let lcols = named_columns(left, left_keys);
    let rcols = named_columns(right, right_keys);
    let lk = row_keys(lcols, left.rows);
    let rk = row_keys(rcols, right.rows);
    let pairs = join_pairs(lk, rk, how, null_safe);
    assert(out == joined(left, right, left_keys, right_keys, how, null_safe));
    assert forall|l: int, r: int| 0 <= l < left.rows && 0 <= r < right.rows implies (
    #[trigger] rows_meet(left, l, left_keys, right, r, right_keys, null_safe) <==> keys_match(
        lk[l],
        rk[r],
        null_safe,
    )) by {
        lemma_rows_meet(left, l, left_keys, right, r, right_keys, null_safe);
    }
    assert forall|c: int, k: int|
        0 <= c < right.columns.len() && 0 <= k < out.rows implies out.columns[left.columns.len()
        + c].cells[k] == (match (#[trigger] pairs[k]).1 {
        Some(r) => (#[trigger] right.columns[c]).cells[r],
        None => None,
    }) by {
        assert(out.columns[left.columns.len() + c] == right.columns[c].take(right_sides(pairs)));
        assert(right_sides(pairs)[k] == pairs[k].1);
    }
    assert forall|c: int, k: int| 0 <= c < left.columns.len() && 0 <= k < out.rows implies
        #[trigger] out.columns[c].cells[k] == (match pairs[k].0 {
        Some(l) => left.columns[c].cells[l],
        None => None,
    }) by {
        assert(out.columns[c] == left.columns[c].take(left_sides(pairs)));
        assert(left_sides(pairs)[k] == pairs[k].0);
    }
    assert forall|c: int| 0 <= c < out.columns.len() implies (
    #[trigger] out.columns[c]).cells.len() == out.rows by {
        if c < left.columns.len() {
            assert(out.columns[c] == left.columns[c].take(left_sides(pairs)));
        } else {
            let d = c - left.columns.len();
            assert(out.columns[c] == right.columns[d].take(right_sides(pairs)));
        }
    }
    assert forall|k: int| 0 <= k < pairs.len() implies match (#[trigger] pairs[k]) {
        (Some(l), Some(r)) => {
            &&& 0 <= l < left.rows
            &&& 0 <= r < right.rows
            &&& rows_meet(left, l, left_keys, right, r, right_keys, null_safe)
        },
        (Some(l), None) => {
            &&& how is Left || how is Full
            &&& 0 <= l < left.rows
            &&& left_meets_none(left, l, left_keys, right, right_keys, null_safe)
        },
        (None, Some(r)) => {
            &&& how is Right || how is Full
            &&& 0 <= r < right.rows
            &&& right_meets_none(left, left_keys, right, r, right_keys, null_safe)
        },
        (None, None) => false,
    } by {
        law_joined_rows_match(lk, rk, how, null_safe, k);
        match pairs[k] {
            (Some(l), None) => {
                let found = |r: int| keys_match(lk[l], rk[r], null_safe);
                lemma_rows_where(rk.len(), found);
                assert forall|r: int| 0 <= r < right.rows implies !#[trigger] rows_meet(
                    left,
                    l,
                    left_keys,
                    right,
                    r,
                    right_keys,
                    null_safe,
                ) by {
                    assert(rk.len() == right.rows);
                    if found(r) {
                        assert(rows_where(rk.len(), found).contains(r));
                    }
                }
            },
            (None, Some(r)) => {
                assert forall|l: int| 0 <= l < left.rows implies !#[trigger] rows_meet(
                    left,
                    l,
                    left_keys,
                    right,
                    r,
                    right_keys,
                    null_safe,
                ) by {
                    assert(!keys_match(lk[l], rk[r], null_safe));
                }
            },
            _ => {},
        }
    }
    assert forall|l: int, r: int|
        0 <= l < left.rows && 0 <= r < right.rows && #[trigger] rows_meet(
            left,
            l,
            left_keys,
            right,
            r,
            right_keys,
            null_safe,
        ) implies pairs.contains((Some(l), Some(r))) by {
        law_matching_rows_are_joined(lk, rk, how, null_safe, l, r);
    }
    if how is Left || how is Full {
        assert forall|l: int| 0 <= l < left.rows implies #[trigger] left_is_there(pairs, l) by {
            law_left_rows_are_kept(lk, rk, how, null_safe, l);
            let sides = left_sides(pairs);
            let k = choose|k: int| 0 <= k < sides.len() && sides[k] == Some(l);
            assert(pairs[k].0 == Some(l));
        }
    }
    if how is Right || how is Full {
        assert forall|r: int| 0 <= r < right.rows implies #[trigger] right_is_there(
            pairs,
            r,
        ) by {
            law_right_rows_are_kept(lk, rk, how, null_safe, r);
            let sides = right_sides(pairs);
            let k = choose|k: int| 0 <= k < sides.len() && sides[k] == Some(r);
            assert(pairs[k].1 == Some(r));
        }
    }
    assert forall|a: int, b: int| 0 <= a < b < pairs.len() implies match (
        #[trigger] pairs[a],
        #[trigger] pairs[b],
    ) {
        ((Some(l), r), (Some(m), s)) => l < m || (l == m && r is Some && s is Some && r->0 < s->0),
        ((None, Some(r)), (None, Some(s))) => r < s,
        ((Some(_), _), (None, _)) => true,
        _ => false,
    } by {
        law_output_order(lk, rk, how, null_safe, a, b);
        law_joined_rows_match(lk, rk, how, null_safe, a);
        law_joined_rows_match(lk, rk, how, null_safe, b);
    }
    pairs
}

/// Every right row is found, with its values, in a right or full join, and every left row in a
/// left or full join.
pub proof fn law_kept_rows_keep_their_values(
    left: BatchView,
    right: BatchView,
    left_keys: Seq<Seq<char>>,
    right_keys: Seq<Seq<char>>,
    how: JoinType,
    null_safe: bool,
    out: BatchView,
)
    requires
        join_outcome(left, right, left_keys, right_keys, how, null_safe) == Ok::<
            BatchView,
            ErrorView,
        >(out),
    ensures
        how is Left || how is Full ==> forall|l: int|
            0 <= l < left.rows ==> #[trigger] row_is_found(out, 0, left, l),
        how is Right || how is Full ==> forall|r: int|
            0 <= r < right.rows ==> #[trigger] row_is_found(
                out,
                left.columns.len() as int,
                right,
                r,
            ),
{
    let pairs = law_what_join_rows_are(
        left,
        right,
        left_keys,
        right_keys,
        how,
        null_safe,
        out,
    );
    if how is Left || how is Full {
        assert forall|l: int| 0 <= l < left.rows implies #[trigger] row_is_found(out, 0, left, l) by {
            assert(left_is_there(pairs, l));
            let k = choose|k: int| 0 <= k < pairs.len() && (#[trigger] pairs[k]).0 == Some(l);
            assert(has_cells(out, 0, k, left, l));
        }
    }
    if how is Right || how is Full {
        let n = left.columns.len() as int;
        assert forall|r: int| 0 <= r < right.rows implies #[trigger] row_is_found(out, n, right, r) by {
            assert(right_is_there(pairs, r));
            let k = choose|k: int| 0 <= k < pairs.len() && (#[trigger] pairs[k]).1 == Some(r);
            assert(has_cells(out, n, k, right, r));
        }
    }
}

/// Whether a batch has a row that holds, from column `from` on, the cells of row `i` of another.
pub open spec fn row_is_found(out: BatchView, from: int, batch: BatchView, i: int) -> bool {
    exists|k: int| 0 <= k < out.rows && #[trigger] has_cells(out, from, k, batch, i)
}

/// Whether row `k` of a batch holds, from column `from` on, the cells of row `i` of another.
pub open spec fn has_cells(out: BatchView, from: int, k: int, batch: BatchView, i: int) -> bool {
    forall|c: int|
        0 <= c < batch.columns.len() ==> (#[trigger] batch.columns[c]).cells[i]
            == out.columns[from + c].cells[k]
}

/// The fields of a join: those of the left batch and then those of the right one, all nullable,
/// under their names and types, but for the suffix of a right name that the left batch has too.
pub proof fn law_join_fields(
    left: BatchView,
    right: BatchView,
    left_keys: Seq<Seq<char>>,
    right_keys: Seq<Seq<char>>,
    how: JoinType,
    null_safe: bool,
    out: BatchView,
)
    requires
        join_outcome(left, right, left_keys, right_keys, how, null_safe) == Ok::<
            BatchView,
            ErrorView,
        >(out),
    ensures
        out.fields.len() == left.fields.len() + right.fields.len(),
        forall|i: int| 0 <= i < out.fields.len() ==> (#[trigger] out.fields[i]).nullable,
        forall|i: int|
            0 <= i < left.fields.len() ==> {
                &&& (#[trigger] left.fields[i]).name == out.fields[i].name
                &&& left.fields[i].data_type == out.fields[i].data_type
            },
        forall|i: int|
            0 <= i < right.fields.len() ==> {
                let f = out.fields[left.fields.len() + i];
                &&& (#[trigger] right.fields[i]).data_type == f.data_type
                &&& f.name == right.fields[i].name || f.name == right.fields[i].name + "_right"@
                &&& f.name == right.fields[i].name + "_right"@ <==> exists|j: int|
                    0 <= j < left.fields.len() && (#[trigger] left.fields[j]).name
                        == right.fields[i].name
            },
{
    reveal_strlit("_right");
    assert forall|i: int| 0 <= i < right.fields.len() implies ({
        let f = out.fields[left.fields.len() + i];
        &&& (#[trigger] right.fields[i]).data_type == f.data_type
        &&& f.name == right.fields[i].name || f.name == right.fields[i].name + "_right"@
        &&& f.name == right.fields[i].name + "_right"@ <==> exists|j: int|
            0 <= j < left.fields.len() && (#[trigger] left.fields[j]).name == right.fields[i].name
    }) by {
        let name = right.fields[i].name;
        law_names_stand_for_first_fields(left.fields, name);
        assert(out.fields[left.fields.len() + i] == right_field(left.fields, right.fields[i]));
        assert((name + "_right"@).len() == name.len() + 6);
    }
}

/// A join succeeds exactly where the key lists have one length that is not zero, every name is
/// known on its side, and paired columns have one type. Otherwise it says what is wrong: the
/// lengths, then the first unknown name, on the left before the right, then the first pair of
/// types.
pub proof fn law_when_join_succeeds(
    left: BatchView,
    right: BatchView,
    left_keys: Seq<Seq<char>>,
    right_keys: Seq<Seq<char>>,
    how: JoinType,
    null_safe: bool,
)
    ensures
        ({
            let outcome = join_outcome(left, right, left_keys, right_keys, how, null_safe);
            let left_known = forall|j: int|
                0 <= j < left_keys.len() ==> index_of(left.fields, #[trigger] left_keys[j]) is Some;
            let right_known = forall|j: int|
                0 <= j < right_keys.len() ==> index_of(
                    right.fields,
                    #[trigger] right_keys[j],
                ) is Some;
            let one_type = |j: int|
                left.columns[index_of(left.fields, left_keys[j])->0].data_type
                    == right.columns[index_of(right.fields, right_keys[j])->0].data_type;
            if left_keys.len() == 0 || left_keys.len() != right_keys.len() {
                outcome == Err::<BatchView, ErrorView>(
                    ErrorView::Config(
                        "left_keys and right_keys must be the same non-zero length"@,
                    ),
                )
            } else if !left_known {
                exists|j: int|
                    {
                        &&& 0 <= j < left_keys.len()
                        &&& outcome == Err::<BatchView, ErrorView>(
                            ErrorView::UnknownColumn(#[trigger] left_keys[j]),
                        )
                        &&& index_of(left.fields, left_keys[j]) is None
                        &&& forall|i: int|
                            0 <= i < j ==> index_of(left.fields, #[trigger] left_keys[i]) is Some
                    }
            } else if !right_known {
                exists|j: int|
                    {
                        &&& 0 <= j < right_keys.len()
                        &&& outcome == Err::<BatchView, ErrorView>(
                            ErrorView::UnknownColumn(#[trigger] right_keys[j]),
                        )
                        &&& index_of(right.fields, right_keys[j]) is None
                        &&& forall|i: int|
                            0 <= i < j ==> index_of(right.fields, #[trigger] right_keys[i]) is Some
                    }
            } else if exists|j: int| 0 <= j < left_keys.len() && !#[trigger] one_type(j) {
                exists|j: int|
                    {
                        &&& 0 <= j < left_keys.len()
                        &&& !#[trigger] one_type(j)
                        &&& forall|i: int| 0 <= i < j ==> #[trigger] one_type(i)
                        &&& outcome == Err::<BatchView, ErrorView>(
                            ErrorView::TypeMismatch {
                                column: left_keys[j] + "/"@ + right_keys[j],
                                expected: display_name(
                                    left.columns[index_of(left.fields, left_keys[j])->0].data_type,
                                ),
                                actual: display_name(
                                    right.columns[index_of(
                                        right.fields,
                                        right_keys[j],
                                    )->0].data_type,
                                ),
                            },
                        )
                    }
            } else {
                outcome is Ok
            }
        }),
{
    let one_type = |j: int|
        left.columns[index_of(left.fields, left_keys[j])->0].data_type
            == right.columns[index_of(right.fields, right_keys[j])->0].data_type;
    let lcols = named_columns(left, left_keys);
    let rcols = named_columns(right, right_keys);
    let left_unknown = |i: int| index_of(left.fields, left_keys[i]) is None;
    let right_unknown = |i: int| index_of(right.fields, right_keys[i]) is None;
    let differ = |i: int| lcols[i].data_type != rcols[i].data_type;
    lemma_first_where(left_keys.len(), left_unknown);
    lemma_first_where(right_keys.len(), right_unknown);
    lemma_first_where(lcols.len(), differ);
    if left_keys.len() > 0 && left_keys.len() == right_keys.len() {
        assert forall|j: int| 0 <= j < left_keys.len() implies #[trigger] differ(j)
            == !one_type(j) by {}
        if let Some(j) = first_where(left_keys.len(), left_unknown) {
            assert(left_unknown(j));
            assert forall|i: int| 0 <= i < j implies index_of(
                left.fields,
                #[trigger] left_keys[i],
            ) is Some by {
                assert(!left_unknown(i));
            }
        } else {
            assert forall|i: int| 0 <= i < left_keys.len() implies index_of(
                left.fields,
                #[trigger] left_keys[i],
            ) is Some by {
                assert(!left_unknown(i));
            }
            if let Some(j) = first_where(right_keys.len(), right_unknown) {
                assert(right_unknown(j));
                assert forall|i: int| 0 <= i < j implies index_of(
                    right.fields,
                    #[trigger] right_keys[i],
                ) is Some by {
                    assert(!right_unknown(i));
                }
            } else {
                assert forall|i: int| 0 <= i < right_keys.len() implies index_of(
                    right.fields,
                    #[trigger] right_keys[i],
                ) is Some by {
                    assert(!right_unknown(i));
                }
                if let Some(j) = first_where(lcols.len(), differ) {
                    assert(differ(j));
                    assert forall|i: int| 0 <= i < j implies #[trigger] one_type(i) by {
                        assert(!differ(i));
                    }
                } else {
                    assert forall|i: int| 0 <= i < left_keys.len() implies #[trigger] one_type(
                        i,
                    ) by {
                        assert(!differ(i));
                    }
                }
            }
        }
    }
}

/// Each join type has one name, in lower case, and no other name is a join type's.
pub proof fn law_names_of_join_types(name: Seq<char>, how: JoinType)
    ensures
        join_type_named(name) == Some(how) <==> name == (match how {
            JoinType::Inner => "inner"@,
            JoinType::Left => "left"@,
            JoinType::Right => "right"@,
            JoinType::Full => "full"@,
        }),
{
    reveal_strlit("inner");
    reveal_strlit("left");
    reveal_strlit("right");
    reveal_strlit("full");
    assert("inner"@[0] == 'i' && "left"@[0] == 'l' && "right"@[0] == 'r' && "full"@[0] == 'f');
}

} // verus!
