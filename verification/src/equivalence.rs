//! Output equivalence: whether two batches hold the same rows under the same schema, whatever
//! the order of the rows.
//!
//! [`EquivalenceMode::Fast`] compares order-independent fingerprints: different rows may, however
//! unlikely, have one fingerprint. [`EquivalenceMode::Exact`] compares the rows themselves as
//! well.

use crate::batch::{
    first_unknown, lemma_known_names, resolve_indices, texts, BatchView, RecordBatch,
};
use crate::column::{CellView, ColumnView};
use crate::error::{same_outcome, Error, ErrorView};
use crate::groups::{
    code_hashes, codes, first_rows, key_groups, lemma_first_rows, lemma_has_first, lemma_rows_like,
    lemma_same_groups, rows_like, RowGroups,
};
use crate::hash::{
    cell_hash, combined, first_unhashable, hash_batch, hash_batch_outcome,
    law_row_order_does_not_matter, named_columns, row_hash, row_hashes, seed_of,
    table_fingerprint, table_hash, type_key, HashVersion,
};
use crate::keys::{
    column_types, columns_at, encode_keys, encodes, key_code, key_fits, row_key, row_keys,
};
use crate::rows::{
    ints, lemma_first_where, lemma_first_where_same, lemma_mapped_alike, lemma_rows_where,
    lemma_rows_where_same, rows_where,
};
use crate::schema::{
    index_of, is_index_of, law_names_stand_for_first_fields, lemma_has_index, names_are_distinct,
    DataTypeView, FieldView, Schema,
};
use crate::text::string_views;
use crate::validate::{
    counts, is_last_of, is_met, is_missing, last_of, law_schema_agrees_with_itself,
    law_what_a_difference_means, lemma_has_last, schema_diff, validate_schema, DiffView,
    SchemaDiff, ValidateSchemaOptions,
};
use vstd::prelude::*;

verus! {

/// How thoroughly rows are compared.
#[derive(Debug, Clone, Copy, PartialEq, Eq, Structural)]
pub enum EquivalenceMode {
    /// By fingerprint only.
    Fast,
    /// By fingerprint, and row by row.
    Exact,
}

impl Default for EquivalenceMode {
    fn default() -> (r: Self)
        ensures
            r == EquivalenceMode::Fast,
    {
        EquivalenceMode::Fast
    }
}

/// How two batches are compared.
#[derive(Debug, Clone)]
pub struct EquivalenceOptions {
    /// The columns to compare, in order. Where none are given, those of the expected schema that
    /// the actual one has as well, in the expected order.
    pub columns: Option<Vec<String>>,
    /// The row-hashing algorithm.
    pub hash_version: HashVersion,
    /// How strictly the schemas are compared.
    pub schema_options: ValidateSchemaOptions,
    /// How thoroughly the rows are compared.
    pub mode: EquivalenceMode,
}

impl EquivalenceOptions {
    /// The names of the columns to compare, where they are given.
    pub open spec fn names(self) -> Option<Seq<Seq<char>>> {
        match self.columns {
            Some(v) => Some(string_views(v@)),
            None => None,
        }
    }
}

impl Default for EquivalenceOptions {
    fn default() -> (r: Self)
        ensures
            r.columns is None,
            r.hash_version == HashVersion::CURRENT,
            r.schema_options == (ValidateSchemaOptions { allow_numeric_widening: false }),
            r.mode == EquivalenceMode::Fast,
    {
        EquivalenceOptions {
            columns: None,
            hash_version: HashVersion::default(),
            schema_options: ValidateSchemaOptions::default(),
            mode: EquivalenceMode::default(),
        }
    }
}

/// The result of comparing two batches.
#[derive(Debug, Clone)]
pub struct EquivalenceReport {
    /// How the schemas differ.
    pub schema_diff: SchemaDiff,
    /// The number of actual rows.
    pub row_count_actual: usize,
    /// The number of expected rows.
    pub row_count_expected: usize,
    /// The fingerprint of the actual rows over the compared columns.
    pub table_fingerprint_actual: u64,
    /// The fingerprint of the expected rows over the compared columns.
    pub table_fingerprint_expected: u64,
    /// Whether the fingerprints are equal.
    pub fingerprints_match: bool,
    /// Whether the rows are the same, where that was asked for.
    pub rows_exactly_match: Option<bool>,
}

/// The model of [`EquivalenceReport`].
#[verifier::ext_equal]
pub ghost struct ReportView {
    pub schema_diff: DiffView,
    pub row_count_actual: nat,
    pub row_count_expected: nat,
    pub table_fingerprint_actual: u64,
    pub table_fingerprint_expected: u64,
    pub fingerprints_match: bool,
    pub rows_exactly_match: Option<bool>,
}

impl View for EquivalenceReport {
    type V = ReportView;

    open spec fn view(&self) -> ReportView {
        ReportView {
            schema_diff: self.schema_diff@,
            row_count_actual: self.row_count_actual as nat,
            row_count_expected: self.row_count_expected as nat,
            table_fingerprint_actual: self.table_fingerprint_actual,
            table_fingerprint_expected: self.table_fingerprint_expected,
            fingerprints_match: self.fingerprints_match,
            rows_exactly_match: self.rows_exactly_match,
        }
    }
}

impl ReportView {
    /// Whether the batches are equivalent: the schemas do not differ, there are as many rows,
    /// the fingerprints are equal, and the rows are the same where they were compared.
    pub open spec fn is_equivalent(self) -> bool {
        &&& self.schema_diff.is_empty()
        &&& self.row_count_actual == self.row_count_expected
        &&& self.fingerprints_match
        &&& self.rows_exactly_match != Some(false)
    }
}

impl EquivalenceReport {
    /// Whether the batches are equivalent. An additional column is enough for them not to be.
    pub fn is_equivalent(&self) -> (r: bool)
        ensures
            r == self@.is_equivalent(),
    {
        self.schema_diff.is_empty() && self.row_count_actual == self.row_count_expected
            && self.fingerprints_match && match self.rows_exactly_match {
            Some(same) => same,
            None => true,
        }
    }
}

/// The names of the expected columns that the actual schema has as well.
pub open spec fn shared_names(actual: Seq<FieldView>, expected: Seq<FieldView>) -> Seq<Seq<char>> {
    rows_where(expected.len(), |i: int| index_of(actual, expected[i].name) is Some).map_values(
        |i: int| expected[i].name,
    )
}

/// The names of the columns that are compared.
pub open spec fn compared_names(
    actual: BatchView,
    expected: BatchView,
    columns: Option<Seq<Seq<char>>>,
) -> Seq<Seq<char>> {
    match columns {
        Some(names) => names,
        None => shared_names(actual.fields, expected.fields),
    }
}

/// Whether two batches hold the same rows in the named columns, each as often: there are as many
/// rows, and the columns have the same types and, in some order, the same cells.
pub open spec fn same_rows(
    actual: BatchView,
    expected: BatchView,
    names: Seq<Seq<char>>,
) -> bool {
    let a = named_columns(actual, names);
    let e = named_columns(expected, names);
    &&& actual.rows == expected.rows
    &&& column_types(a) == column_types(e)
    &&& row_keys(a, actual.rows).to_multiset() == row_keys(e, expected.rows).to_multiset()
}

/// What [`check_equivalence`] gives.
pub open spec fn equivalence_outcome(
    actual: BatchView,
    expected: BatchView,
    columns: Option<Seq<Seq<char>>>,
    version: HashVersion,
    schema_options: ValidateSchemaOptions,
    mode: EquivalenceMode,
) -> Result<ReportView, ErrorView> {
    let names = compared_names(actual, expected, columns);
    match (
        hash_batch_outcome(actual, names, version),
        hash_batch_outcome(expected, names, version),
    ) {
        (Err(e), _) => Err(e),
        (_, Err(e)) => Err(e),
        (Ok(a), Ok(b)) => Ok(
            ReportView {
                schema_diff: schema_diff(actual.fields, expected.fields, schema_options),
                row_count_actual: actual.rows,
                row_count_expected: expected.rows,
                table_fingerprint_actual: table_hash(a, version),
                table_fingerprint_expected: table_hash(b, version),
                fingerprints_match: table_hash(a, version) == table_hash(b, version),
                rows_exactly_match: match mode {
                    EquivalenceMode::Fast => None,
                    EquivalenceMode::Exact => Some(same_rows(actual, expected, names)),
                },
            },
        ),
    }
}

/// How often a key occurs is how many rows have it.
pub proof fn lemma_count<K>(keys: Seq<K>, key: K)
    ensures
        keys.to_multiset().count(key) == rows_like(keys, key).len(),
    decreases keys.len(),
{
    broadcast use vstd::seq_lib::group_to_multiset_ensures;

    if keys.len() > 0 {
        let rest = keys.drop_last();
        lemma_count(rest, key);
        assert(keys =~= rest.push(keys.last()));
        let p = |i: int| keys[i] == key;
        let q = |i: int| rest[i] == key;
        lemma_rows_where_same(rest.len(), p, q);
    }
}

/// The rows with a key, selected by any predicate that says so.
proof fn lemma_rows_like_is<K>(keys: Seq<K>, key: K, p: spec_fn(int) -> bool)
    requires
        forall|i: int| 0 <= i < keys.len() ==> #[trigger] p(i) == (keys[i] == key),
    ensures
        rows_where(keys.len(), p) == rows_like(keys, key),
{
    lemma_rows_where_same(keys.len(), p, |i: int| keys[i] == key);
}

/// Keys of which each occurs equally often are the same keys in some order.
proof fn lemma_same_counts<K>(a: Seq<K>, b: Seq<K>)
    requires
        forall|key: K| #[trigger] rows_like(a, key).len() == rows_like(b, key).len(),
    ensures
        a.to_multiset() == b.to_multiset(),
{
    assert forall|key: K| #[trigger] a.to_multiset().count(key) == b.to_multiset().count(key) by {
        lemma_count(a, key);
        lemma_count(b, key);
        assert(rows_like(a, key).len() == rows_like(b, key).len());
    }
    assert(a.to_multiset() =~= b.to_multiset());
}

/// Whether two batches hold the same rows in the columns at the given positions, which have the
/// same types on both sides.
fn compare_rows(
    actual: &RecordBatch,
    expected: &RecordBatch,
    actual_indices: &Vec<usize>,
    expected_indices: &Vec<usize>,
) -> (r: bool)
    requires
        0 < actual_indices@.len() == expected_indices@.len(),
        forall|k: int|
            0 <= k < actual_indices@.len() ==> (#[trigger] actual_indices@[k])
                < actual@.columns.len(),
        forall|k: int|
            0 <= k < expected_indices@.len() ==> (#[trigger] expected_indices@[k])
                < expected@.columns.len(),
        column_types(columns_at(actual@.columns, actual_indices@)) == column_types(
            columns_at(expected@.columns, expected_indices@),
        ),
    ensures
        r == (row_keys(
            columns_at(actual@.columns, actual_indices@),
            actual@.rows,
        ).to_multiset() == row_keys(
            columns_at(expected@.columns, expected_indices@),
            expected@.rows,
        ).to_multiset()),
{
    let ghost acols = columns_at(actual@.columns, actual_indices@);
    let ghost ecols = columns_at(expected@.columns, expected_indices@);
    let ghost ak = row_keys(acols, actual@.rows);
    let ghost ek = row_keys(ecols, expected@.rows);
    let ghost types = column_types(acols);
    let actual_rows = encode_keys(actual, actual_indices, false);
    let expected_rows = encode_keys(expected, expected_indices, false);
    let groups = RowGroups::of_codes(&actual_rows);
    let ghost acodes = codes(actual_rows@);
    let ghost leaders = ints(groups.leaders@);
    proof {
        assert forall|i: int, j: int| 0 <= i < ak.len() && 0 <= j < ak.len() implies ((
        #[trigger] acodes[i] == #[trigger] acodes[j]) <==> ak[i] == ak[j]) by {
            assert(actual_rows@[i]@ == key_code(ak[i]));
            assert(actual_rows@[j]@ == key_code(ak[j]));
            assert(key_fits(types, ak[j]));
        }
        lemma_same_groups(acodes, ak);
        assert(leaders == first_rows(ak));
        lemma_first_rows(ak);
        assert forall|g: int| 0 <= g < leaders.len() implies (
        #[trigger] groups.groups@[g])@.len() == rows_like(ak, ak[leaders[g]]).len() by {
            assert(leaders[g] == groups.leaders@[g]);
            assert(ints(groups.groups@[g]@) == key_groups(acodes)[g]);
            assert(key_groups(ak)[g] == rows_like(ak, ak[leaders[g]]));
        }
    }
    let n = groups.leaders.len();
    let mut counts: Vec<usize> = Vec::new();
    let mut g: usize = 0;
    while g < n
        invariant
            g <= n,
            counts@.len() == g,
            forall|h: int| 0 <= h < g ==> #[trigger] counts@[h] == 0,
        decreases n - g,
    {
        counts.push(0);
        g += 1;
    }
    let mut j: usize = 0;
    while j < expected_rows.len()
        invariant
            j <= expected_rows@.len(),
            ak == row_keys(columns_at(actual@.columns, actual_indices@), actual@.rows),
            ek == row_keys(columns_at(expected@.columns, expected_indices@), expected@.rows),
            n == leaders.len() == counts@.len() == groups.leaders@.len(),
            leaders == ints(groups.leaders@),
            leaders == first_rows(ak),
            ak.len() == actual_rows@.len(),
            acodes == codes(actual_rows@),
            encodes(actual_rows@, types, ak),
            encodes(expected_rows@, types, ek),
            groups.holds(acodes, code_hashes(acodes), actual_rows@.len()),
            forall|g: int|
                0 <= g < leaders.len() ==> 0 <= #[trigger] leaders[g] < ak.len(),
            forall|g: int, h: int|
                0 <= g < h < leaders.len() ==> ak[#[trigger] leaders[g]]
                    != ak[#[trigger] leaders[h]],
            forall|h: int|
                0 <= h < n ==> #[trigger] counts@[h] == rows_where(
                    j as nat,
                    |i: int| ek[i] == ak[leaders[h]],
                ).len(),
            forall|i: int|
                0 <= i < j ==> exists|h: int|
                    0 <= h < n && #[trigger] ek[i] == ak[#[trigger] leaders[h]],
        decreases expected_rows@.len() - j,
    {
        proof {
            assert forall|i: int| 0 <= i < ak.len() implies ((expected_rows@[j as int]@
                == #[trigger] acodes[i]) <==> ek[j as int] == ak[i]) by {
                assert(actual_rows@[i]@ == key_code(ak[i]));
                assert(expected_rows@[j as int]@ == key_code(ek[j as int]));
                assert(key_fits(types, ek[j as int]));
            }
        }
        match groups.find_code(&actual_rows, &expected_rows[j]) {
            Some(g) => {
                let ghost before = counts@;
                let count = counts[g];
                proof {
                    assert(leaders[g as int] == groups.leaders@[g as int]);
                    lemma_rows_where(j as nat, |i: int| ek[i] == ak[leaders[g as int]]);
                    assert(count <= j);
                }
                counts.set(g, count + 1);
                proof {
                    assert forall|h: int| 0 <= h < n implies #[trigger] counts@[h] == rows_where(
                        (j + 1) as nat,
                        |i: int| ek[i] == ak[leaders[h]],
                    ).len() by {
                        let like = |i: int| ek[i] == ak[leaders[h]];
                        assert(before[h] == rows_where(j as nat, like).len());
                        if h == g {
                            assert(like(j as int));
                        } else {
                            if h < g {
                                assert(ak[leaders[h]] != ak[leaders[g as int]]);
                            } else {
                                assert(ak[leaders[g as int]] != ak[leaders[h]]);
                            }
                            assert(!like(j as int));
                        }
                    }
                    assert(ek[j as int] == ak[leaders[g as int]]);
                }
            },
            None => {
                proof {
                    let key = ek[j as int];
                    lemma_count(ak, key);
                    lemma_count(ek, key);
                    lemma_rows_like(ak, key);
                    lemma_rows_like(ek, key);
                    assert(ek[j as int] == key);
                    if rows_like(ak, key).len() > 0 {
                        let i = rows_like(ak, key)[0];
                        assert(acodes[i] == expected_rows@[j as int]@);
                    }
                }
                return false;
            },
        }
        j += 1;
    }
    proof {
        assert forall|h: int| 0 <= h < n implies #[trigger] counts@[h] == rows_like(
            ek,
            ak[leaders[h]],
        ).len() by {
            lemma_rows_like_is(ek, ak[leaders[h]], |i: int| ek[i] == ak[leaders[h]]);
        }
    }
    let mut g: usize = 0;
    while g < n
        invariant
            g <= n,
            ak == row_keys(columns_at(actual@.columns, actual_indices@), actual@.rows),
            ek == row_keys(columns_at(expected@.columns, expected_indices@), expected@.rows),
            n == leaders.len() == counts@.len() == groups.groups@.len(),
            ek.len() == expected_rows@.len(),
            forall|h: int|
                0 <= h < n ==> #[trigger] counts@[h] == rows_like(ek, ak[leaders[h]]).len(),
            forall|h: int|
                0 <= h < n ==> (#[trigger] groups.groups@[h])@.len() == rows_like(
                    ak,
                    ak[leaders[h]],
                ).len(),
            forall|h: int|
                0 <= h < g ==> #[trigger] counts@[h] == rows_like(ak, ak[leaders[h]]).len(),
        decreases n - g,
    {
        assert(groups.groups@[g as int]@.len() == rows_like(ak, ak[leaders[g as int]]).len());
        if counts[g] != groups.groups[g].len() {
            proof {
                let key = ak[leaders[g as int]];
                lemma_count(ak, key);
                lemma_count(ek, key);
                assert(counts@[g as int] == rows_like(ek, key).len());
            }
            return false;
        }
        g += 1;
    }
    proof {
        assert forall|key: Seq<Option<CellView>>| #[trigger] rows_like(ak, key).len() == rows_like(
            ek,
            key,
        ).len() by {
            lemma_rows_like(ak, key);
            lemma_rows_like(ek, key);
            if rows_like(ak, key).len() > 0 {
                let i = rows_like(ak, key)[0];
                let f = lemma_has_first(ak, i);
                let h = choose|h: int| 0 <= h < leaders.len() && leaders[h] == f;
                assert(counts@[h] == rows_like(ak, ak[leaders[h]]).len());
            } else if rows_like(ek, key).len() > 0 {
                let i = rows_like(ek, key)[0];
                let h = choose|h: int| 0 <= h < n && #[trigger] ek[i] == ak[#[trigger] leaders[h]];
                assert(ak[leaders[h]] == key);
            }
        }
        lemma_same_counts(ak, ek);
    }
    true
}

/// Whether two batches hold the same rows in the named columns, which both have.
fn rows_exactly_equal(actual: &RecordBatch, expected: &RecordBatch, columns: &[&str]) -> (r: bool)
    requires
        first_unknown(actual@.fields, texts(columns@)) is None,
        first_unknown(expected@.fields, texts(columns@)) is None,
    ensures
        r == same_rows(actual@, expected@, texts(columns@)),
{
    if actual.num_rows() != expected.num_rows() {
        return false;
    }
    let ghost names = texts(columns@);
    let ghost acols = named_columns(actual@, names);
    let ghost ecols = named_columns(expected@, names);
    match (
        resolve_indices(actual.schema(), columns),
        resolve_indices(expected.schema(), columns),
    ) {
        (Ok(actual_indices), Ok(expected_indices)) => {
            proof {
                assert(columns_at(actual@.columns, actual_indices@) =~= acols);
                assert(columns_at(expected@.columns, expected_indices@) =~= ecols);
            }
            let mut i: usize = 0;
            while i < actual_indices.len()
                invariant
                    i <= actual_indices@.len() == expected_indices@.len() == acols.len()
                        == ecols.len(),
                    actual@.wf(),
                    expected@.wf(),
                    acols == columns_at(actual@.columns, actual_indices@),
                    ecols == columns_at(expected@.columns, expected_indices@),
                    acols == named_columns(actual@, texts(columns@)),
                    ecols == named_columns(expected@, texts(columns@)),
                    forall|k: int|
                        0 <= k < actual_indices@.len() ==> (#[trigger] actual_indices@[k])
                            < actual@.columns.len(),
                    forall|k: int|
                        0 <= k < expected_indices@.len() ==> (#[trigger] expected_indices@[k])
                            < expected@.columns.len(),
                    forall|c: int|
                        0 <= c < i ==> #[trigger] column_types(acols)[c]
                            == column_types(ecols)[c],
                decreases actual_indices@.len() - i,
            {
                let a = actual.column(actual_indices[i]).data_type();
                let e = expected.column(expected_indices[i]).data_type();
                assert(a@ == column_types(acols)[i as int]);
                assert(e@ == column_types(ecols)[i as int]);
                if !a.same(e) {
                    return false;
                }
                i += 1;
            }
            assert(column_types(acols) =~= column_types(ecols));
            if columns.len() == 0 {
                assert(row_keys(acols, actual@.rows) =~= row_keys(ecols, expected@.rows)) by {
                    assert forall|i: int| 0 <= i < actual@.rows implies row_key(acols, i)
                        == row_key(ecols, i) by {
                        assert(row_key(acols, i) =~= row_key(ecols, i));
                    }
                }
                true
            } else {
                compare_rows(actual, expected, &actual_indices, &expected_indices)
            }
        },
        _ => {
            assert(false);
            false
        },
    }
}

/// The names of the expected columns that the actual schema has as well.
fn shared_columns(actual: &Schema, expected: &Schema) -> (names: Vec<String>)
    ensures
        string_views(names@) == shared_names(actual@, expected@),
{
    let ghost shared = |i: int| index_of(actual@, expected@[i].name) is Some;
    let ghost name_of = |i: int| expected@[i].name;
    let mut names: Vec<String> = Vec::new();
    let mut i: usize = 0;
    assert(string_views(names@) =~= rows_where(0, shared).map_values(name_of));
    while i < expected.fields.len()
        invariant
            i <= expected.fields@.len(),
            shared == (|i: int| index_of(actual@, expected@[i].name) is Some),
            name_of == (|i: int| expected@[i].name),
            string_views(names@) == rows_where(i as nat, shared).map_values(name_of),
        decreases expected.fields@.len() - i,
    {
        let field = &expected.fields[i];
        assert(expected@[i as int] == field@);
        let ghost before = names@;
        let ghost rows = rows_where(i as nat, shared);
        if actual.index_of(field.name.as_str()).is_some() {
            names.push(field.name.clone());
            proof {
                assert(shared(i as int));
                assert(string_views(names@) =~= string_views(before).push(field.name@));
                assert(rows.push(i as int).map_values(name_of) =~= rows.map_values(name_of).push(
                    field.name@,
                ));
            }
        } else {
            assert(!shared(i as int));
        }
        i += 1;
    }
    names
}

/// Compares two batches: their schemas, the numbers of their rows, and the rows whatever their
/// order.
///
/// The rows are compared over the same columns in the same order, so that a column that only
/// stands in another place makes no difference. A column of another type does.
///
/// Fails as [`hash_batch`] does, on the actual batch and then on the expected one.
pub fn check_equivalence(
    actual: &RecordBatch,
    expected: &RecordBatch,
    options: EquivalenceOptions,
) -> (r: Result<EquivalenceReport, Error>)
    ensures
        same_outcome(
            r,
            equivalence_outcome(
                actual@,
                expected@,
                options.names(),
                options.hash_version,
                options.schema_options,
                options.mode,
            ),
        ),
{
    let diff = validate_schema(actual.schema(), expected.schema(), options.schema_options);
    let owned = match options.columns {
        Some(names) => names,
        None => shared_columns(actual.schema(), expected.schema()),
    };
    let ghost names = compared_names(actual@, expected@, options.names());
    assert(string_views(owned@) == names);
    let mut columns: Vec<&str> = Vec::new();
    let mut i: usize = 0;
    while i < owned.len()
        invariant
            i <= owned@.len(),
            columns@.len() == i,
            forall|j: int| 0 <= j < i ==> (#[trigger] columns@[j])@ == owned@[j]@,
        decreases owned@.len() - i,
    {
        columns.push(owned[i].as_str());
        i += 1;
    }
    assert(texts(columns@) =~= names);
    let actual_hashes = match hash_batch(actual, columns.as_slice(), options.hash_version) {
        Ok(v) => v,
        Err(e) => {
            return Err(e);
        },
    };
    let expected_hashes = match hash_batch(expected, columns.as_slice(), options.hash_version) {
        Ok(v) => v,
        Err(e) => {
            return Err(e);
        },
    };
    let fingerprint_actual = table_fingerprint(&actual_hashes, options.hash_version);
    let fingerprint_expected = table_fingerprint(&expected_hashes, options.hash_version);
    let rows_exactly_match = match options.mode {
        EquivalenceMode::Fast => None,
        EquivalenceMode::Exact => Some(
            rows_exactly_equal(actual, expected, columns.as_slice()),
        ),
    };
    Ok(
        EquivalenceReport {
            schema_diff: diff,
            row_count_actual: actual.num_rows(),
            row_count_expected: expected.num_rows(),
            table_fingerprint_actual: fingerprint_actual,
            table_fingerprint_expected: fingerprint_expected,
            fingerprints_match: fingerprint_actual == fingerprint_expected,
            rows_exactly_match,
        },
    )
}

/// The hash of a row by its key and the types of its cells.
pub open spec fn key_hash(
    version: HashVersion,
    types: Seq<DataTypeView>,
    key: Seq<Option<CellView>>,
) -> u64
    decreases types.len(),
{
    if types.len() == 0 {
        seed_of(version)
    } else {
        combined(
            key_hash(version, types.drop_last(), key.drop_last()),
            cell_hash(version, types.last(), key.last()),
        )
    }
}

/// A row's hash is that of its key.
proof fn lemma_row_hash_by_key(version: HashVersion, columns: Seq<ColumnView>, row: int)
    ensures
        row_hash(version, columns, row) == key_hash(
            version,
            column_types(columns),
            row_key(columns, row),
        ),
    decreases columns.len(),
{
    if columns.len() > 0 {
        let rest = columns.drop_last();
        lemma_row_hash_by_key(version, rest, row);
        assert(column_types(rest) =~= column_types(columns).drop_last());
        assert(row_key(rest, row) =~= row_key(columns, row).drop_last());
    }
}

proof fn lemma_row_hashes_by_key(version: HashVersion, columns: Seq<ColumnView>, rows: nat)
    ensures
        row_hashes(version, columns, rows) == row_keys(columns, rows).map_values(
            |key: Seq<Option<CellView>>| key_hash(version, column_types(columns), key),
        ),
{
    let f = |key: Seq<Option<CellView>>| key_hash(version, column_types(columns), key);
    assert forall|i: int| 0 <= i < rows implies row_hashes(version, columns, rows)[i] == row_keys(
        columns,
        rows,
    ).map_values(f)[i] by {
        lemma_row_hash_by_key(version, columns, i);
    }
    assert(row_hashes(version, columns, rows) =~= row_keys(columns, rows).map_values(f));
}

/// Batches that hold the same rows have the same fingerprint.
pub proof fn law_same_rows_have_the_same_fingerprint(
    actual: BatchView,
    expected: BatchView,
    names: Seq<Seq<char>>,
    version: HashVersion,
)
    requires
        same_rows(actual, expected, names),
    ensures
        table_hash(row_hashes(version, named_columns(actual, names), actual.rows), version)
            == table_hash(
            row_hashes(version, named_columns(expected, names), expected.rows),
            version,
        ),
{
    let a = named_columns(actual, names);
    let e = named_columns(expected, names);
    lemma_row_hashes_by_key(version, a, actual.rows);
    lemma_row_hashes_by_key(version, e, expected.rows);
    let f = |key: Seq<Option<CellView>>| key_hash(version, column_types(a), key);
    lemma_mapped_alike(row_keys(a, actual.rows), row_keys(e, expected.rows), f);
    law_row_order_does_not_matter(
        row_hashes(version, a, actual.rows),
        row_hashes(version, e, expected.rows),
        version,
    );
}

/// Batches that hold the same rows, under schemas that do not differ, are equivalent in either
/// mode.
pub proof fn law_same_rows_are_equivalent(
    actual: BatchView,
    expected: BatchView,
    columns: Option<Seq<Seq<char>>>,
    version: HashVersion,
    schema_options: ValidateSchemaOptions,
    mode: EquivalenceMode,
)
    requires
        same_rows(actual, expected, compared_names(actual, expected, columns)),
        schema_diff(actual.fields, expected.fields, schema_options).is_empty(),
    ensures
        match equivalence_outcome(actual, expected, columns, version, schema_options, mode) {
            Ok(report) => report.is_equivalent(),
            Err(_) => {
                let names = compared_names(actual, expected, columns);
                hash_batch_outcome(actual, names, version) is Err || hash_batch_outcome(
                    expected,
                    names,
                    version,
                ) is Err
            },
        },
{
    law_same_rows_have_the_same_fingerprint(
        actual,
        expected,
        compared_names(actual, expected, columns),
        version,
    );
}

/// A batch is equivalent to itself.
pub proof fn law_equivalent_to_itself(
    batch: BatchView,
    columns: Option<Seq<Seq<char>>>,
    version: HashVersion,
    schema_options: ValidateSchemaOptions,
    mode: EquivalenceMode,
)
    ensures
        match equivalence_outcome(batch, batch, columns, version, schema_options, mode) {
            Ok(report) => report.is_equivalent(),
            Err(_) => hash_batch_outcome(
                batch,
                compared_names(batch, batch, columns),
                version,
            ) is Err,
        },
{
    law_schema_agrees_with_itself(batch.fields, schema_options);
    law_same_rows_are_equivalent(batch, batch, columns, version, schema_options, mode);
}

/// Whether a sequence holds the numbers below `n`, each once, in some order.
pub open spec fn is_order(order: Seq<int>, n: nat) -> bool {
    order.to_multiset() == Seq::new(n, |i: int| i).to_multiset()
}

proof fn lemma_order(order: Seq<int>, n: nat)
    requires
        is_order(order, n),
    ensures
        order.len() == n,
        forall|k: int| 0 <= k < order.len() ==> 0 <= #[trigger] order[k] < n,
        forall|j: int| 0 <= j < n ==> #[trigger] order.contains(j),
{
    broadcast use vstd::seq_lib::group_to_multiset_ensures;

    let all = Seq::new(n, |i: int| i);
    assert(order.len() == order.to_multiset().len());
    assert(all.len() == all.to_multiset().len());
    assert forall|k: int| 0 <= k < order.len() implies 0 <= #[trigger] order[k] < n by {
        assert(order.contains(order[k]));
        assert(all.to_multiset().count(order[k]) > 0);
        assert(all.contains(order[k]));
    }
    assert forall|j: int| 0 <= j < n implies #[trigger] order.contains(j) by {
        assert(all[j] == j);
        assert(all.contains(j));
        assert(order.to_multiset().count(j) > 0);
    }
}

/// The rows of a batch in another order are the same rows.
proof fn lemma_same_rows_in_another_order(
    batch: BatchView,
    order: Seq<int>,
    names: Seq<Seq<char>>,
)
    requires
        batch.wf(),
        is_order(order, batch.rows),
        first_unknown(batch.fields, names) is None,
    ensures
        same_rows(batch.take(order), batch, names),
        first_unhashable(named_columns(batch.take(order), names)) == first_unhashable(
            named_columns(batch, names),
        ),
{
    let all = Seq::new(batch.rows, |i: int| i);
    lemma_order(order, batch.rows);
    let taken = batch.take(order);
    let a = named_columns(taken, names);
    let e = named_columns(batch, names);
    lemma_known_names(batch.fields, names);
    assert(column_types(a) =~= column_types(e)) by {
        assert forall|c: int| 0 <= c < names.len() implies column_types(a)[c]
            == column_types(e)[c] by {
            let at = index_of(batch.fields, names[c])->0;
            assert(a[c] == taken.columns[at]);
        }
    }
    let f = |i: int| row_key(e, i);
    assert(row_keys(e, batch.rows) =~= all.map_values(f));
    assert(row_keys(a, taken.rows) =~= order.map_values(f)) by {
        assert forall|k: int| 0 <= k < order.len() implies row_keys(a, taken.rows)[k] == f(
            order[k],
        ) by {
            assert(row_key(a, k) =~= row_key(e, order[k])) by {
                assert forall|c: int| 0 <= c < names.len() implies row_key(a, k)[c] == row_key(
                    e,
                    order[k],
                )[c] by {
                    let at = index_of(batch.fields, names[c])->0;
                    assert(a[c] == taken.columns[at]);
                    assert(e[c] == batch.columns[at]);
                    assert(taken.columns[at].cells[k] == batch.columns[at].cells[order[k]]);
                }
            }
        }
    }
    lemma_mapped_alike(order, all, f);
    let unhashable = |i: int| type_key(e[i].data_type) is None;
    assert forall|i: int| 0 <= i < e.len() implies #[trigger] unhashable(i) == (type_key(
        a[i].data_type,
    ) is None) by {
        assert(column_types(a)[i] == column_types(e)[i]);
    }
    lemma_first_where_same(e.len(), unhashable, |i: int| type_key(a[i].data_type) is None);
}

/// A batch is equivalent to one with the same rows in another order.
pub proof fn law_equivalent_in_another_order(
    batch: BatchView,
    order: Seq<int>,
    columns: Option<Seq<Seq<char>>>,
    version: HashVersion,
    schema_options: ValidateSchemaOptions,
    mode: EquivalenceMode,
)
    requires
        batch.wf(),
        is_order(order, batch.rows),
    ensures
        match equivalence_outcome(
            batch.take(order),
            batch,
            columns,
            version,
            schema_options,
            mode,
        ) {
            Ok(report) => report.is_equivalent(),
            Err(_) => hash_batch_outcome(
                batch,
                compared_names(batch, batch, columns),
                version,
            ) is Err,
        },
{
    let taken = batch.take(order);
    let names = compared_names(batch, batch, columns);
    assert(compared_names(taken, batch, columns) == names);
    law_schema_agrees_with_itself(batch.fields, schema_options);
    if first_unknown(batch.fields, names) is None {
        lemma_same_rows_in_another_order(batch, order, names);
        law_same_rows_are_equivalent(taken, batch, columns, version, schema_options, mode);
    }
}

/// A batch with its columns in another order.
pub open spec fn with_columns_reordered(batch: BatchView, order: Seq<int>) -> BatchView {
    BatchView {
        fields: order.map_values(|k: int| batch.fields[k]),
        columns: order.map_values(|k: int| batch.columns[k]),
        rows: batch.rows,
    }
}

/// Where no name repeats, the fields of each name are found again in another order.
proof fn lemma_reordered_names(a: Seq<FieldView>, order: Seq<int>, name: Seq<char>)
    requires
        is_order(order, a.len()),
        names_are_distinct(a),
    ensures
        ({
            let b = order.map_values(|k: int| a[k]);
            &&& match (index_of(a, name), index_of(b, name)) {
                (Some(i), Some(k)) => 0 <= i < a.len() && 0 <= k < b.len() && order[k] == i,
                (None, None) => true,
                _ => false,
            }
            &&& match (last_of(a, name), last_of(b, name)) {
                (Some(i), Some(k)) => 0 <= i < a.len() && 0 <= k < b.len() && b[k] == a[i],
                (None, None) => true,
                _ => false,
            }
        }),
{
    let b = order.map_values(|k: int| a[k]);
    lemma_order(order, a.len());
    if exists|j: int| 0 <= j < a.len() && (#[trigger] a[j]).name == name {
        let j = choose|j: int| 0 <= j < a.len() && (#[trigger] a[j]).name == name;
        assert(order.contains(j));
        let k = choose|k: int| 0 <= k < order.len() && order[k] == j;
        assert(b[k] == a[j]);
        lemma_has_index(a, j);
        lemma_has_index(b, k);
        lemma_has_last(a, j);
        lemma_has_last(b, k);
        let (i, m) = (index_of(a, name)->0, index_of(b, name)->0);
        assert(a[i].name == name);
        assert(b[m] == a[order[m]]);
        let (l, n) = (last_of(a, name)->0, last_of(b, name)->0);
        assert(b[n] == a[order[n]]);
    } else {
        if let Some(i) = index_of(a, name) {
            assert(is_index_of(a, name, i));
        }
        if let Some(i) = last_of(a, name) {
            assert(is_last_of(a, name, i));
        }
        if let Some(k) = index_of(b, name) {
            assert(is_index_of(b, name, k));
            assert(b[k] == a[order[k]]);
        }
        if let Some(k) = last_of(b, name) {
            assert(is_last_of(b, name, k));
            assert(b[k] == a[order[k]]);
        }
    }
}

/// Fields in another order differ from others as they did, but for the order in which additional
/// columns are listed.
proof fn lemma_reordered_difference(
    a: Seq<FieldView>,
    order: Seq<int>,
    expected: Seq<FieldView>,
    options: ValidateSchemaOptions,
)
    requires
        is_order(order, a.len()),
        names_are_distinct(a),
    ensures
        ({
            let b = order.map_values(|k: int| a[k]);
            let before = schema_diff(a, expected, options);
            let after = schema_diff(b, expected, options);
            &&& after.is_empty() == before.is_empty()
            &&& after.is_breaking() == before.is_breaking()
        }),
{
    let b = order.map_values(|k: int| a[k]);
    lemma_order(order, a.len());
    law_what_a_difference_means(a, expected, options);
    law_what_a_difference_means(b, expected, options);
    assert forall|i: int| 0 <= i < expected.len() implies is_met(
        a,
        #[trigger] expected[i],
        options,
    ) == is_met(b, expected[i], options) by {
        lemma_reordered_names(a, order, expected[i].name);
    }
    let before = schema_diff(a, expected, options);
    let after = schema_diff(b, expected, options);
    if before.is_breaking() {
        let i = choose|i: int|
            0 <= i < expected.len() && counts(expected, i) && !is_met(
                a,
                #[trigger] expected[i],
                options,
            );
        assert(!is_met(b, expected[i], options));
    }
    if after.is_breaking() {
        let i = choose|i: int|
            0 <= i < expected.len() && counts(expected, i) && !is_met(
                b,
                #[trigger] expected[i],
                options,
            );
        assert(!is_met(a, expected[i], options));
    }
    if before.is_empty() {
        assert forall|k: int| 0 <= k < b.len() implies !is_missing(expected, #[trigger] b[k]) by {
            assert(b[k] == a[order[k]]);
        }
    }
    if after.is_empty() {
        assert forall|j: int| 0 <= j < a.len() implies !is_missing(expected, #[trigger] a[j]) by {
            assert(order.contains(j));
            let k = choose|k: int| 0 <= k < order.len() && order[k] == j;
            assert(b[k] == a[j]);
        }
    }
}

/// The order of the actual rows and columns does not matter: where no name of the actual batch
/// repeats, what is found of it, against any expected batch, is found of it in any order of its
/// rows and columns, and an error is the same error.
pub proof fn law_order_does_not_matter(
    actual: BatchView,
    row_order: Seq<int>,
    column_order: Seq<int>,
    expected: BatchView,
    columns: Option<Seq<Seq<char>>>,
    version: HashVersion,
    schema_options: ValidateSchemaOptions,
    mode: EquivalenceMode,
)
    requires
        actual.wf(),
        names_are_distinct(actual.fields),
        is_order(row_order, actual.rows),
        is_order(column_order, actual.fields.len()),
    ensures
        ({
            let other = with_columns_reordered(actual, column_order).take(row_order);
            match (
                equivalence_outcome(actual, expected, columns, version, schema_options, mode),
                equivalence_outcome(other, expected, columns, version, schema_options, mode),
            ) {
                (Ok(before), Ok(after)) => {
                    &&& after.row_count_actual == before.row_count_actual
                    &&& after.row_count_expected == before.row_count_expected
                    &&& after.table_fingerprint_actual == before.table_fingerprint_actual
                    &&& after.table_fingerprint_expected == before.table_fingerprint_expected
                    &&& after.fingerprints_match == before.fingerprints_match
                    &&& after.rows_exactly_match == before.rows_exactly_match
                    &&& after.schema_diff.is_empty() == before.schema_diff.is_empty()
                    &&& after.schema_diff.is_breaking() == before.schema_diff.is_breaking()
                    &&& after.is_equivalent() == before.is_equivalent()
                },
                (Err(before), Err(after)) => before == after,
                _ => false,
            }
        }),
{
    let turned = with_columns_reordered(actual, column_order);
    let other = turned.take(row_order);
    lemma_order(column_order, actual.fields.len());
    lemma_order(row_order, actual.rows);
    lemma_reordered_difference(actual.fields, column_order, expected.fields, schema_options);
    assert(turned.wf()) by {
        assert forall|k: int| 0 <= k < turned.columns.len() implies {
            &&& (#[trigger] turned.columns[k]).wf()
            &&& turned.columns[k].cells.len() == turned.rows
            &&& turned.columns[k].data_type == turned.fields[k].data_type
            &&& turned.columns[k].has_null() ==> turned.fields[k].nullable
        } by {
            assert(turned.columns[k] == actual.columns[column_order[k]]);
            assert(turned.fields[k] == actual.fields[column_order[k]]);
        }
    }
    let names = compared_names(actual, expected, columns);
    if columns is None {
        let shared = |i: int| index_of(actual.fields, expected.fields[i].name) is Some;
        let still = |i: int| index_of(turned.fields, expected.fields[i].name) is Some;
        assert forall|i: int| 0 <= i < expected.fields.len() implies #[trigger] shared(i) == still(
            i,
        ) by {
            lemma_reordered_names(actual.fields, column_order, expected.fields[i].name);
        }
        lemma_rows_where_same(expected.fields.len(), shared, still);
    }
    assert(compared_names(other, expected, columns) == names);
    let unknown = |i: int| index_of(actual.fields, names[i]) is None;
    let still_unknown = |i: int| index_of(turned.fields, names[i]) is None;
    assert forall|i: int| 0 <= i < names.len() implies #[trigger] unknown(i) == still_unknown(
        i,
    ) by {
        lemma_reordered_names(actual.fields, column_order, names[i]);
    }
    lemma_first_where_same(names.len(), unknown, still_unknown);
    if first_unknown(actual.fields, names) is None {
        lemma_known_names(actual.fields, names);
        assert forall|i: int| 0 <= i < names.len() implies turned.column_named(
            #[trigger] names[i],
        ) == actual.column_named(names[i]) by {
            lemma_reordered_names(actual.fields, column_order, names[i]);
        }
        assert(named_columns(turned, names) =~= named_columns(actual, names));
        lemma_same_rows_in_another_order(turned, row_order, names);
        law_same_rows_have_the_same_fingerprint(other, turned, names, version);
        let (a, o) = (named_columns(actual, names), named_columns(other, names));
        assert(column_types(a) == column_types(o));
        if let Some(i) = first_unhashable(a) {
            lemma_first_where(a.len(), |i: int| type_key(a[i].data_type) is None);
            assert(column_types(a)[i] == column_types(o)[i]);
        }
    }
}

/// A batch is equivalent to one with the same rows and columns in another order, where no name
/// repeats.
pub proof fn law_equivalent_with_columns_reordered(
    batch: BatchView,
    row_order: Seq<int>,
    column_order: Seq<int>,
    columns: Option<Seq<Seq<char>>>,
    version: HashVersion,
    schema_options: ValidateSchemaOptions,
    mode: EquivalenceMode,
)
    requires
        batch.wf(),
        names_are_distinct(batch.fields),
        is_order(row_order, batch.rows),
        is_order(column_order, batch.fields.len()),
    ensures
        match equivalence_outcome(
            with_columns_reordered(batch, column_order).take(row_order),
            batch,
            columns,
            version,
            schema_options,
            mode,
        ) {
            Ok(report) => report.is_equivalent(),
            Err(_) => hash_batch_outcome(
                batch,
                compared_names(batch, batch, columns),
                version,
            ) is Err,
        },
{
    law_equivalent_to_itself(batch, columns, version, schema_options, mode);
    law_order_does_not_matter(
        batch,
        row_order,
        column_order,
        batch,
        columns,
        version,
        schema_options,
        mode,
    );
}

/// Where a column stands makes no difference: batches of as many rows with the same columns
/// under the compared names hold the same rows.
pub proof fn law_column_position_does_not_matter(
    actual: BatchView,
    expected: BatchView,
    names: Seq<Seq<char>>,
)
    requires
        actual.rows == expected.rows,
        forall|i: int|
            0 <= i < names.len() ==> actual.column_named(#[trigger] names[i])
                == expected.column_named(names[i]),
    ensures
        same_rows(actual, expected, names),
{
    assert(named_columns(actual, names) =~= named_columns(expected, names));
}

/// What is equivalent does not break anything and has the same names; a report in exact mode
/// that says so means the same rows.
pub proof fn law_equivalence_is_strict(
    actual: BatchView,
    expected: BatchView,
    columns: Option<Seq<Seq<char>>>,
    version: HashVersion,
    schema_options: ValidateSchemaOptions,
    mode: EquivalenceMode,
)
    ensures
        match equivalence_outcome(actual, expected, columns, version, schema_options, mode) {
            Ok(report) => report.is_equivalent() ==> {
                &&& !report.schema_diff.is_breaking()
                &&& report.schema_diff.unexpected.len() == 0
                &&& actual.rows == expected.rows
                &&& mode is Exact ==> same_rows(
                    actual,
                    expected,
                    compared_names(actual, expected, columns),
                )
            },
            Err(_) => true,
        },
{
}

/// Which columns are compared: those named, or else every column of the expected batch whose name
/// the actual batch has too, in the expected order. `at` gives their places there.
pub proof fn law_which_columns_are_compared(
    actual: BatchView,
    expected: BatchView,
    columns: Option<Seq<Seq<char>>>,
) -> (at: Seq<int>)
    ensures
        columns matches Some(names) ==> compared_names(actual, expected, columns) == names,
        columns is None ==> {
            let names = compared_names(actual, expected, columns);
            &&& names.len() == at.len()
            &&& forall|k: int|
                0 <= k < at.len() ==> {
                    &&& 0 <= #[trigger] at[k] < expected.fields.len()
                    &&& names[k] == expected.fields[at[k]].name
                    &&& has_name(actual.fields, names[k])
                }
            &&& forall|j: int, k: int|
                0 <= j < k < at.len() ==> #[trigger] at[j] < #[trigger] at[k]
            &&& forall|i: int|
                0 <= i < expected.fields.len() && has_name(
                    actual.fields,
                    (#[trigger] expected.fields[i]).name,
                ) ==> at.contains(i) && names.contains(expected.fields[i].name)
        },
{
    let shared = |i: int| index_of(actual.fields, expected.fields[i].name) is Some;
    lemma_rows_where(expected.fields.len(), shared);
    let at = rows_where(expected.fields.len(), shared);
    if columns is None {
        let names = compared_names(actual, expected, columns);
        assert forall|i: int| 0 <= i < expected.fields.len() implies #[trigger] shared(i)
            == has_name(actual.fields, expected.fields[i].name) by {
            law_names_stand_for_first_fields(actual.fields, expected.fields[i].name);
        }
        assert forall|k: int| 0 <= k < at.len() implies {
            &&& 0 <= #[trigger] at[k] < expected.fields.len()
            &&& names[k] == expected.fields[at[k]].name
            &&& has_name(actual.fields, names[k])
        } by {
            assert(shared(at[k]));
        }
        assert forall|i: int|
            0 <= i < expected.fields.len() && has_name(
                actual.fields,
                (#[trigger] expected.fields[i]).name,
            ) implies at.contains(i) && names.contains(expected.fields[i].name) by {
            assert(shared(i));
            let k = choose|k: int| 0 <= k < at.len() && at[k] == i;
            assert(names[k] == expected.fields[i].name);
        }
    }
    at
}

/// Whether a schema has a field of a name.
pub open spec fn has_name(fields: Seq<FieldView>, name: Seq<char>) -> bool {
    exists|j: int| 0 <= j < fields.len() && (#[trigger] fields[j]).name == name
}

/// What a report says: the difference of the schemas, the numbers of rows, the fingerprints of
/// the compared columns' row hashes and whether they are equal, and in exact mode alone whether
/// the rows are the same. It fails where hashing the compared columns fails, on the actual side
/// first.
pub proof fn law_what_a_report_says(
    actual: BatchView,
    expected: BatchView,
    columns: Option<Seq<Seq<char>>>,
    version: HashVersion,
    schema_options: ValidateSchemaOptions,
    mode: EquivalenceMode,
)
    ensures
        ({
            let names = compared_names(actual, expected, columns);
            match (
                equivalence_outcome(actual, expected, columns, version, schema_options, mode),
                hash_batch_outcome(actual, names, version),
                hash_batch_outcome(expected, names, version),
            ) {
                (Ok(report), Ok(a), Ok(b)) => {
                    &&& report.schema_diff == schema_diff(
                        actual.fields,
                        expected.fields,
                        schema_options,
                    )
                    &&& report.row_count_actual == actual.rows
                    &&& report.row_count_expected == expected.rows
                    &&& report.table_fingerprint_actual == table_hash(a, version)
                    &&& report.table_fingerprint_expected == table_hash(b, version)
                    &&& report.fingerprints_match <==> report.table_fingerprint_actual
                        == report.table_fingerprint_expected
                    &&& report.rows_exactly_match is Some <==> mode is Exact
                },
                (Err(e), Err(a), _) => e == a,
                (Err(e), Ok(_), Err(b)) => e == b,
                _ => false,
            }
        }),
{
}

/// A report means that the batches are equivalent exactly where the schemas differ in nothing,
/// there are as many rows on both sides, the fingerprints are equal, and the rows were not found
/// to differ.
pub proof fn law_when_batches_are_equivalent(report: ReportView)
    ensures
        report.is_equivalent() <==> {
            &&& report.schema_diff.missing.len() == 0
            &&& report.schema_diff.unexpected.len() == 0
            &&& report.schema_diff.retyped.len() == 0
            &&& report.schema_diff.nullability.len() == 0
            &&& report.row_count_actual == report.row_count_expected
            &&& report.fingerprints_match
            &&& report.rows_exactly_match is None || report.rows_exactly_match->0
        },
{
}

/// Whether an order of the actual rows pairs each of them with one expected row that has the same
/// cells under all names.
pub open spec fn rows_correspond(
    actual: BatchView,
    expected: BatchView,
    names: Seq<Seq<char>>,
    order: Seq<int>,
) -> bool {
    &&& order.len() == actual.rows
    &&& order.len() == expected.rows
    &&& forall|k: int| 0 <= k < order.len() ==> 0 <= #[trigger] order[k] < actual.rows
    &&& forall|j: int, k: int|
        0 <= j < k < order.len() ==> #[trigger] order[j] != #[trigger] order[k]
    &&& forall|k: int, c: int|
        0 <= k < order.len() && 0 <= c < names.len() ==> actual.columns[index_of(
            actual.fields,
            #[trigger] names[c],
        )->0].cells[#[trigger] order[k]] == expected.columns[index_of(
            expected.fields,
            names[c],
        )->0].cells[k]
}

/// Sequences with the same elements, each as often, are one another in some order.
proof fn lemma_order_of<K>(a: Seq<K>, b: Seq<K>) -> (order: Seq<int>)
    requires
        a.to_multiset() == b.to_multiset(),
    ensures
        order.len() == a.len(),
        order.len() == b.len(),
        forall|k: int| 0 <= k < order.len() ==> 0 <= #[trigger] order[k] < a.len(),
        forall|j: int, k: int|
            0 <= j < k < order.len() ==> #[trigger] order[j] != #[trigger] order[k],
        forall|k: int| 0 <= k < order.len() ==> a[#[trigger] order[k]] == b[k],
    decreases a.len(),
{
    broadcast use vstd::seq_lib::group_to_multiset_ensures;

    assert(a.len() == a.to_multiset().len());
    assert(b.len() == b.to_multiset().len());
    if a.len() == 0 {
        Seq::empty()
    } else {
        let n = b.len() - 1;
        let x = b[n];
        assert(b.contains(x));
        assert(a.contains(x)) by {
            assert(b.to_multiset().count(x) > 0);
            assert(a.to_multiset().count(x) > 0);
        }
        let at = choose|at: int| 0 <= at < a.len() && a[at] == x;
        assert(a.remove(at).to_multiset() =~= a.to_multiset().remove(x));
        assert(b.remove(n).to_multiset() =~= b.to_multiset().remove(x));
        let rest = lemma_order_of(a.remove(at), b.remove(n));
        let shifted = rest.map_values(
            |k: int|
                if k < at {
                    k
                } else {
                    k + 1
                },
        );
        let order = shifted.push(at);
        assert forall|k: int| 0 <= k < order.len() implies {
            &&& 0 <= #[trigger] order[k] < a.len()
            &&& a[order[k]] == b[k]
        } by {
            if k < rest.len() {
                assert(0 <= rest[k] < a.len() - 1);
                assert(a.remove(at)[rest[k]] == b.remove(n)[k]);
            }
        }
        assert forall|j: int, k: int| 0 <= j < k < order.len() implies #[trigger] order[j]
            != #[trigger] order[k] by {
            assert(0 <= rest[j] < a.len() - 1);
            if k < rest.len() {
                assert(rest[j] != rest[k]);
            }
        }
        order
    }
}

/// Sequences of which one is the other in some order have the same elements, each as often.
proof fn lemma_ordered_alike<K>(a: Seq<K>, b: Seq<K>, order: Seq<int>)
    requires
        order.len() == a.len(),
        order.len() == b.len(),
        forall|k: int| 0 <= k < order.len() ==> 0 <= #[trigger] order[k] < a.len(),
        forall|j: int, k: int|
            0 <= j < k < order.len() ==> #[trigger] order[j] != #[trigger] order[k],
        forall|k: int| 0 <= k < order.len() ==> a[#[trigger] order[k]] == b[k],
    ensures
        a.to_multiset() == b.to_multiset(),
    decreases a.len(),
{
    broadcast use vstd::seq_lib::group_to_multiset_ensures;

    if a.len() == 0 {
        assert(a =~= b);
    } else {
        let n = b.len() - 1;
        let at = order[n];
        let rest = order.drop_last().map_values(
            |k: int|
                if k < at {
                    k
                } else {
                    k - 1
                },
        );
        assert forall|k: int| 0 <= k < rest.len() implies {
            &&& 0 <= #[trigger] rest[k] < a.len() - 1
            &&& a.remove(at)[rest[k]] == b.remove(n)[k]
        } by {
            assert(order[k] != order[n]);
            assert(a[order[k]] == b[k]);
        }
        assert forall|j: int, k: int| 0 <= j < k < rest.len() implies #[trigger] rest[j]
            != #[trigger] rest[k] by {
            assert(order[j] != order[k]);
            assert(order[j] != order[n]);
            assert(order[k] != order[n]);
        }
        lemma_ordered_alike(a.remove(at), b.remove(n), rest);
        let x = a[at];
        assert(b[n] == x);
        assert(a.contains(x));
        assert(b.contains(x));
        assert(a.remove(at).to_multiset() =~= a.to_multiset().remove(x));
        assert(b.remove(n).to_multiset() =~= b.to_multiset().remove(x));
        assert(a.to_multiset() =~= a.remove(at).to_multiset().insert(x));
        assert(b.to_multiset() =~= b.remove(n).to_multiset().insert(x));
    }
}

/// What exact mode finds: the rows are the same exactly where there are as many on both sides,
/// the compared columns have the same types, and in some order each actual row has the cells of
/// an expected row in every compared column.
pub proof fn law_what_exact_mode_finds(
    actual: BatchView,
    expected: BatchView,
    columns: Option<Seq<Seq<char>>>,
    version: HashVersion,
    schema_options: ValidateSchemaOptions,
    report: ReportView,
)
    requires
        equivalence_outcome(
            actual,
            expected,
            columns,
            version,
            schema_options,
            EquivalenceMode::Exact,
        ) == Ok::<ReportView, ErrorView>(report),
    ensures
        ({
            let names = compared_names(actual, expected, columns);
            report.rows_exactly_match == Some(true) <==> {
                &&& actual.rows == expected.rows
                &&& forall|c: int|
                    0 <= c < names.len() ==> actual.columns[index_of(
                        actual.fields,
                        #[trigger] names[c],
                    )->0].data_type == expected.columns[index_of(
                        expected.fields,
                        names[c],
                    )->0].data_type
                &&& exists|order: Seq<int>| #[trigger]
                    rows_correspond(actual, expected, names, order)
            }
        }),
{
    let names = compared_names(actual, expected, columns);
    let a = named_columns(actual, names);
    let e = named_columns(expected, names);
    let x = row_keys(a, actual.rows);
    let y = row_keys(e, expected.rows);
    let one_type = forall|c: int|
        0 <= c < names.len() ==> actual.columns[index_of(
            actual.fields,
            #[trigger] names[c],
        )->0].data_type == expected.columns[index_of(expected.fields, names[c])->0].data_type;
    if column_types(a) == column_types(e) {
        assert forall|c: int| 0 <= c < names.len() implies actual.columns[index_of(
            actual.fields,
            #[trigger] names[c],
        )->0].data_type == expected.columns[index_of(expected.fields, names[c])->0].data_type by {
            assert(column_types(a)[c] == column_types(e)[c]);
        }
    }
    if one_type {
        assert forall|c: int| 0 <= c < names.len() implies column_types(a)[c] == column_types(
            e,
        )[c] by {
            assert(names[c] == names[c]);
        }
        assert(column_types(a) =~= column_types(e));
    }
    if report.rows_exactly_match == Some(true) {
        let order = lemma_order_of(x, y);
        assert forall|k: int, c: int|
            0 <= k < order.len() && 0 <= c < names.len() implies actual.columns[index_of(
            actual.fields,
            #[trigger] names[c],
        )->0].cells[#[trigger] order[k]] == expected.columns[index_of(
            expected.fields,
            names[c],
        )->0].cells[k] by {
            assert(x[order[k]] == y[k]);
            assert(x[order[k]][c] == a[c].cells[order[k]]);
            assert(y[k][c] == e[c].cells[k]);
        }
        assert(rows_correspond(actual, expected, names, order));
    }
    if actual.rows == expected.rows && one_type && exists|order: Seq<int>| #[trigger]
        rows_correspond(actual, expected, names, order) {
        let order = choose|order: Seq<int>| #[trigger]
            rows_correspond(actual, expected, names, order);
        assert forall|k: int| 0 <= k < order.len() implies x[#[trigger] order[k]] == y[k] by {
            assert forall|c: int| 0 <= c < names.len() implies x[order[k]][c] == y[k][c] by {
                assert(x[order[k]][c] == a[c].cells[order[k]]);
                assert(y[k][c] == e[c].cells[k]);
                assert(names[c] == names[c]);
            }
            assert(x[order[k]] =~= y[k]);
        }
        lemma_ordered_alike(x, y, order);
    }
}

/// Batches that are equivalent in exact mode, with all columns compared, hold the same rows: in
/// some order each actual row has the cells of an expected row under every name of the expected
/// batch.
pub proof fn law_equivalent_batches_hold_the_same_rows(
    actual: BatchView,
    expected: BatchView,
    version: HashVersion,
    schema_options: ValidateSchemaOptions,
    report: ReportView,
) -> (order: Seq<int>)
    requires
        equivalence_outcome(
            actual,
            expected,
            None,
            version,
            schema_options,
            EquivalenceMode::Exact,
        ) == Ok::<ReportView, ErrorView>(report),
        report.is_equivalent(),
    ensures
        rows_correspond(
            actual,
            expected,
            expected.fields.map_values(|f: FieldView| f.name),
            order,
        ),
{
    let all = expected.fields.map_values(|f: FieldView| f.name);
    let names = compared_names(actual, expected, None);
    law_what_exact_mode_finds(actual, expected, None, version, schema_options, report);
    let at = law_which_columns_are_compared(actual, expected, None);
    let order = choose|order: Seq<int>| #[trigger]
        rows_correspond(actual, expected, names, order);
    law_what_a_difference_means(actual.fields, expected.fields, schema_options);
    assert forall|k: int, c: int| 0 <= k < order.len() && 0 <= c < all.len() implies
        actual.columns[index_of(actual.fields, #[trigger] all[c])->0].cells[#[trigger] order[k]]
        == expected.columns[index_of(expected.fields, all[c])->0].cells[k] by {
        let name = expected.fields[c].name;
        assert(all[c] == name);
        lemma_has_last(expected.fields, c);
        let last = last_of(expected.fields, name)->0;
        assert(counts(expected.fields, last));
        assert(is_met(actual.fields, expected.fields[last], schema_options));
        let j = last_of(actual.fields, name)->0;
        assert(is_last_of(actual.fields, name, j));
        assert(actual.fields[j].name == name);
        assert(has_name(actual.fields, name));
        assert(names.contains(name));
        let d = choose|d: int| 0 <= d < names.len() && names[d] == name;
        assert(names[d] == name);
    }
    assert(rows_correspond(actual, expected, all, order));
    order
}

/// The options name the columns that they list, in order, and none where they list none.
pub proof fn law_options_name_what_they_list(options: EquivalenceOptions, i: int)
    ensures
        options.names() is None <==> options.columns is None,
        options.columns matches Some(v) ==> {
            &&& options.names()->0.len() == v@.len()
            &&& 0 <= i < v@.len() ==> options.names()->0[i] == v@[i]@
        },
{
}

} // verus!
