//! Schema validation: how an actual schema differs from an expected one.

use crate::rows::{lemma_rows_where, lemma_rows_where_none, lemma_rows_where_same, rows_where};
use crate::schema::{DataType, DataTypeView, FieldView, Schema};
use crate::text::{string_views, text_eq};
use vstd::prelude::*;

verus! {

/// How strict [`validate_schema`] is.
#[derive(Debug, Clone, Copy)]
pub struct ValidateSchemaOptions {
    /// Whether the actual type may be a wider numeric type of the same kind than the expected
    /// one. A narrower type, a change of signedness or one from integers to floats is never
    /// accepted.
    pub allow_numeric_widening: bool,
}

impl Default for ValidateSchemaOptions {
    fn default() -> (r: Self)
        ensures
            r == (ValidateSchemaOptions { allow_numeric_widening: false }),
    {
        ValidateSchemaOptions { allow_numeric_widening: false }
    }
}

/// A column of both schemas whose types do not agree.
#[derive(Debug, Clone, PartialEq, Eq)]
pub struct RetypedColumn {
    /// The column's name.
    pub column: String,
    /// The expected type.
    pub expected: DataType,
    /// The actual type.
    pub actual: DataType,
}

/// The model of [`RetypedColumn`].
pub ghost struct RetypedView {
    pub column: Seq<char>,
    pub expected: DataTypeView,
    pub actual: DataTypeView,
}

impl View for RetypedColumn {
    type V = RetypedView;

    open spec fn view(&self) -> RetypedView {
        RetypedView {
            column: self.column@,
            expected: self.expected@,
            actual: self.actual@,
        }
    }
}

/// A column of both schemas that may hold nulls although it is expected not to.
#[derive(Debug, Clone, PartialEq, Eq)]
pub struct NullabilityChange {
    /// The column's name.
    pub column: String,
    /// Whether the expected schema allows nulls.
    pub expected_nullable: bool,
    /// Whether the actual schema allows nulls.
    pub actual_nullable: bool,
}

/// The model of [`NullabilityChange`].
pub ghost struct NullabilityView {
    pub column: Seq<char>,
    pub expected_nullable: bool,
    pub actual_nullable: bool,
}

impl View for NullabilityChange {
    type V = NullabilityView;

    open spec fn view(&self) -> NullabilityView {
        NullabilityView {
            column: self.column@,
            expected_nullable: self.expected_nullable,
            actual_nullable: self.actual_nullable,
        }
    }
}

/// How an actual schema differs from an expected one.
#[derive(Debug, Clone, PartialEq, Eq)]
pub struct SchemaDiff {
    /// The names that only the expected schema has.
    pub missing: Vec<String>,
    /// The names that only the actual schema has.
    pub unexpected: Vec<String>,
    /// The columns whose types do not agree.
    pub retyped: Vec<RetypedColumn>,
    /// The columns that may hold nulls although they are expected not to.
    pub nullability: Vec<NullabilityChange>,
}

/// The model of [`SchemaDiff`].
#[verifier::ext_equal]
pub ghost struct DiffView {
    pub missing: Seq<Seq<char>>,
    pub unexpected: Seq<Seq<char>>,
    pub retyped: Seq<RetypedView>,
    pub nullability: Seq<NullabilityView>,
}

impl View for SchemaDiff {
    type V = DiffView;

    open spec fn view(&self) -> DiffView {
        DiffView {
            missing: string_views(self.missing@),
            unexpected: string_views(self.unexpected@),
            retyped: self.retyped@.map_values(|c: RetypedColumn| c@),
            nullability: self.nullability@.map_values(|c: NullabilityChange| c@),
        }
    }
}

impl DiffView {
    /// Whether the schemas agree.
    pub open spec fn is_empty(self) -> bool {
        &&& self.missing.len() == 0
        &&& self.unexpected.len() == 0
        &&& self.retyped.len() == 0
        &&& self.nullability.len() == 0
    }

    /// Whether the difference is more than additional columns.
    pub open spec fn is_breaking(self) -> bool {
        ||| self.missing.len() > 0
        ||| self.retyped.len() > 0
        ||| self.nullability.len() > 0
    }
}

impl Default for SchemaDiff {
    fn default() -> (r: Self)
        ensures
            r@.is_empty(),
    {
        SchemaDiff {
            missing: Vec::new(),
            unexpected: Vec::new(),
            retyped: Vec::new(),
            nullability: Vec::new(),
        }
    }
}

impl SchemaDiff {
    /// Whether the schemas agree.
    pub fn is_empty(&self) -> (r: bool)
        ensures
            r == self@.is_empty(),
    {
        self.missing.len() == 0 && self.unexpected.len() == 0 && self.retyped.len() == 0
            && self.nullability.len() == 0
    }

    /// Whether the difference is one that a caller cannot ignore: a missing column, another
    /// type, or nulls where none are expected. Additional columns alone are not.
    pub fn is_breaking(&self) -> (r: bool)
        ensures
            r == self@.is_breaking(),
    {
        self.missing.len() > 0 || self.retyped.len() > 0 || self.nullability.len() > 0
    }
}

/// The rank of a numeric type within its kind: signed, unsigned or float.
pub open spec fn numeric_rank(t: DataTypeView) -> Option<(int, int)> {
    match t {
        DataTypeView::Int8 => Some((0, 8)),
        DataTypeView::Int16 => Some((0, 16)),
        DataTypeView::Int32 => Some((0, 32)),
        DataTypeView::Int64 => Some((0, 64)),
        DataTypeView::UInt8 => Some((1, 8)),
        DataTypeView::UInt16 => Some((1, 16)),
        DataTypeView::UInt32 => Some((1, 32)),
        DataTypeView::UInt64 => Some((1, 64)),
        DataTypeView::Float32 => Some((2, 32)),
        DataTypeView::Float64 => Some((2, 64)),
        _ => None,
    }
}

/// Whether the actual type is a wider numeric type of the expected type's kind.
pub open spec fn is_widening(expected: DataTypeView, actual: DataTypeView) -> bool {
    match (numeric_rank(expected), numeric_rank(actual)) {
        (Some((a, m)), Some((b, n))) => a == b && m < n,
        _ => false,
    }
}

/// Whether the actual type is accepted for the expected one.
pub open spec fn types_agree(
    expected: DataTypeView,
    actual: DataTypeView,
    options: ValidateSchemaOptions,
) -> bool {
    expected == actual || (options.allow_numeric_widening && is_widening(expected, actual))
}

/// Whether the actual nullability is accepted for the expected one: only nulls where none are
/// expected are not.
pub open spec fn nullability_agrees(expected_nullable: bool, actual_nullable: bool) -> bool {
    expected_nullable || !actual_nullable
}

/// Whether the field at `i` is the last with a name.
pub open spec fn is_last_of(fields: Seq<FieldView>, name: Seq<char>, i: int) -> bool {
    &&& 0 <= i < fields.len()
    &&& fields[i].name == name
    &&& forall|j: int| i < j < fields.len() ==> (#[trigger] fields[j]).name != name
}

/// Whether the field at `i` counts: it is the last with its name, which stands for all of them.
pub open spec fn counts(fields: Seq<FieldView>, i: int) -> bool {
    is_last_of(fields, fields[i].name, i)
}

/// The last field with a name, which stands for all of them.
pub open spec fn last_of(fields: Seq<FieldView>, name: Seq<char>) -> Option<int> {
    if exists|i: int| is_last_of(fields, name, i) {
        Some(choose|i: int| is_last_of(fields, name, i))
    } else {
        None
    }
}

/// Whether the expected field is missing.
pub open spec fn is_missing(actual: Seq<FieldView>, expected: FieldView) -> bool {
    last_of(actual, expected.name) is None
}

/// Whether the expected field has another type.
pub open spec fn is_retyped(
    actual: Seq<FieldView>,
    expected: FieldView,
    options: ValidateSchemaOptions,
) -> bool {
    match last_of(actual, expected.name) {
        Some(i) => !types_agree(expected.data_type, actual[i].data_type, options),
        None => false,
    }
}

/// Whether the expected field may hold nulls although it is expected not to.
pub open spec fn is_loosened(actual: Seq<FieldView>, expected: FieldView) -> bool {
    match last_of(actual, expected.name) {
        Some(i) => !nullability_agrees(expected.nullable, actual[i].nullable),
        None => false,
    }
}

/// How the actual schema differs from the expected one.
pub open spec fn schema_diff(
    actual: Seq<FieldView>,
    expected: Seq<FieldView>,
    options: ValidateSchemaOptions,
) -> DiffView {
    let n = expected.len();
    DiffView {
        missing: rows_where(
            n,
            |i: int| counts(expected, i) && is_missing(actual, expected[i]),
        ).map_values(|i: int| expected[i].name),
        unexpected: rows_where(
            actual.len(),
            |i: int| counts(actual, i) && is_missing(expected, actual[i]),
        ).map_values(|i: int| actual[i].name),
        retyped: rows_where(
            n,
            |i: int| counts(expected, i) && is_retyped(actual, expected[i], options),
        ).map_values(
            |i: int|
                RetypedView {
                    column: expected[i].name,
                    expected: expected[i].data_type,
                    actual: actual[last_of(actual, expected[i].name)->0].data_type,
                },
        ),
        nullability: rows_where(
            n,
            |i: int| counts(expected, i) && is_loosened(actual, expected[i]),
        ).map_values(
            |i: int|
                NullabilityView {
                    column: expected[i].name,
                    expected_nullable: expected[i].nullable,
                    actual_nullable: actual[last_of(actual, expected[i].name)->0].nullable,
                },
        ),
    }
}

/// Only one field is the last with a name.
proof fn lemma_last_of(fields: Seq<FieldView>, name: Seq<char>, i: int)
    requires
        is_last_of(fields, name, i),
    ensures
        last_of(fields, name) == Some(i),
{
    let c = choose|k: int| is_last_of(fields, name, k);
    assert(is_last_of(fields, name, c));
    if c < i {
        assert(fields[i].name != name);
    } else if i < c {
        assert(fields[c].name != name);
    }
}

fn is_numeric_widening(expected: &DataType, actual: &DataType) -> (r: bool)
    ensures
        r == is_widening(expected@, actual@),
{
    match (expected, actual) {
        (DataType::Int8, DataType::Int16 | DataType::Int32 | DataType::Int64) => true,
        (DataType::Int16, DataType::Int32 | DataType::Int64) => true,
        (DataType::Int32, DataType::Int64) => true,
        (DataType::UInt8, DataType::UInt16 | DataType::UInt32 | DataType::UInt64) => true,
        (DataType::UInt16, DataType::UInt32 | DataType::UInt64) => true,
        (DataType::UInt32, DataType::UInt64) => true,
        (DataType::Float32, DataType::Float64) => true,
        _ => false,
    }
}

fn types_compatible(
    expected: &DataType,
    actual: &DataType,
    options: ValidateSchemaOptions,
) -> (r: bool)
    ensures
        r == types_agree(expected@, actual@, options),
{
    expected.same(actual) || (options.allow_numeric_widening && is_numeric_widening(
        expected,
        actual,
    ))
}

fn nullability_compatible(expected_nullable: bool, actual_nullable: bool) -> (r: bool)
    ensures
        r == nullability_agrees(expected_nullable, actual_nullable),
{
    expected_nullable || !actual_nullable
}

/// The last field with a name.
fn find_last(schema: &Schema, name: &str) -> (r: Option<usize>)
    ensures
        match r {
            Some(i) => i < schema@.len() && last_of(schema@, name@) == Some(i as int),
            None => last_of(schema@, name@) is None,
        },
{
    let mut i: usize = schema.fields.len();
    while i > 0
        invariant
            i <= schema.fields@.len(),
            forall|j: int| i <= j < schema@.len() ==> (#[trigger] schema@[j]).name != name@,
        decreases i,
    {
        i -= 1;
        assert(schema@[i as int] == schema.fields@[i as int]@);
        if text_eq(schema.fields[i].name.as_str(), name) {
            proof {
                assert(is_last_of(schema@, name@, i as int));
                lemma_last_of(schema@, name@, i as int);
            }
            return Some(i);
        }
    }
    None
}

/// Whether the field at `i` is the last with its name.
fn field_counts(schema: &Schema, i: usize) -> (r: bool)
    requires
        i < schema@.len(),
    ensures
        r == counts(schema@, i as int),
{
    assert(schema@[i as int] == schema.fields@[i as int]@);
    proof {
        lemma_has_last(schema@, i as int);
        if counts(schema@, i as int) {
            lemma_last_of(schema@, schema@[i as int].name, i as int);
        }
    }
    match find_last(schema, schema.fields[i].name.as_str()) {
        Some(last) => last == i,
        None => false,
    }
}

/// How the actual schema differs from the expected one. Columns are matched by name; where a
/// name repeats within a schema, its last field counts.
pub fn validate_schema(
    actual: &Schema,
    expected: &Schema,
    options: ValidateSchemaOptions,
) -> (diff: SchemaDiff)
    ensures
        diff@ == schema_diff(actual@, expected@, options),
{
    let ghost goal = schema_diff(actual@, expected@, options);
    let ghost missing_at = |i: int| counts(expected@, i) && is_missing(actual@, expected@[i]);
    let ghost retyped_at = |i: int| counts(expected@, i) && is_retyped(actual@, expected@[i], options);
    let ghost loosened_at = |i: int| counts(expected@, i) && is_loosened(actual@, expected@[i]);
    let ghost unexpected_at = |i: int| counts(actual@, i) && is_missing(expected@, actual@[i]);
    let ghost name_of = |i: int| expected@[i].name;
    let ghost actual_name = |i: int| actual@[i].name;
    let ghost retyping = |i: int|
        RetypedView {
            column: expected@[i].name,
            expected: expected@[i].data_type,
            actual: actual@[last_of(actual@, expected@[i].name)->0].data_type,
        };
    let ghost loosening = |i: int|
        NullabilityView {
            column: expected@[i].name,
            expected_nullable: expected@[i].nullable,
            actual_nullable: actual@[last_of(actual@, expected@[i].name)->0].nullable,
        };
    let mut missing: Vec<String> = Vec::new();
    let mut retyped: Vec<RetypedColumn> = Vec::new();
    let mut nullability: Vec<NullabilityChange> = Vec::new();
    let mut i: usize = 0;
    proof {
        assert(string_views(missing@) =~= rows_where(0, missing_at).map_values(name_of));
        assert(retyped@.map_values(|c: RetypedColumn| c@) =~= rows_where(
            0,
            retyped_at,
        ).map_values(retyping));
        assert(nullability@.map_values(|c: NullabilityChange| c@) =~= rows_where(
            0,
            loosened_at,
        ).map_values(loosening));
    }
    while i < expected.fields.len()
        invariant
            i <= expected.fields@.len(),
            missing_at == (|i: int| counts(expected@, i) && is_missing(actual@, expected@[i])),
            retyped_at == (|i: int| counts(expected@, i) && is_retyped(actual@, expected@[i], options)),
            loosened_at == (|i: int| counts(expected@, i) && is_loosened(actual@, expected@[i])),
            name_of == (|i: int| expected@[i].name),
            retyping == (|i: int|
                RetypedView {
                    column: expected@[i].name,
                    expected: expected@[i].data_type,
                    actual: actual@[last_of(actual@, expected@[i].name)->0].data_type,
                }),
            loosening == (|i: int|
                NullabilityView {
                    column: expected@[i].name,
                    expected_nullable: expected@[i].nullable,
                    actual_nullable: actual@[last_of(actual@, expected@[i].name)->0].nullable,
                }),
            string_views(missing@) == rows_where(i as nat, missing_at).map_values(name_of),
            retyped@.map_values(|c: RetypedColumn| c@) == rows_where(
                i as nat,
                retyped_at,
            ).map_values(retyping),
            nullability@.map_values(|c: NullabilityChange| c@) == rows_where(
                i as nat,
                loosened_at,
            ).map_values(loosening),
        decreases expected.fields@.len() - i,
    {
        let field = &expected.fields[i];
        assert(expected@[i as int] == field@);
        let ghost old_missing = rows_where(i as nat, missing_at);
        let ghost old_retyped = rows_where(i as nat, retyped_at);
        let ghost old_loosened = rows_where(i as nat, loosened_at);
        if !field_counts(expected, i) {
            assert(!missing_at(i as int) && !retyped_at(i as int) && !loosened_at(i as int));
            i += 1;
            continue ;
        }
        match find_last(actual, field.name.as_str()) {
            None => {
                let ghost before = missing@;
                missing.push(field.name.clone());
                proof {
                    assert(missing_at(i as int));
                    assert(string_views(missing@) =~= string_views(before).push(field.name@));
                    assert(old_missing.push(i as int).map_values(name_of)
                        =~= old_missing.map_values(name_of).push(field.name@));
                }
            },
            Some(j) => {
                let other = &actual.fields[j];
                assert(actual@[j as int] == other@);
                assert(!missing_at(i as int));
                if !types_compatible(&field.data_type, &other.data_type, options) {
                    let ghost before = retyped@;
                    let change = RetypedColumn {
                        column: field.name.clone(),
                        expected: field.data_type.clone(),
                        actual: other.data_type.clone(),
                    };
                    retyped.push(change);
                    proof {
                        assert(retyped_at(i as int));
                        assert(retyped@.map_values(|c: RetypedColumn| c@) =~= before.map_values(
                            |c: RetypedColumn| c@,
                        ).push(change@));
                        assert(old_retyped.push(i as int).map_values(retyping)
                            =~= old_retyped.map_values(retyping).push(change@));
                    }
                } else {
                    assert(!retyped_at(i as int));
                }
                if !nullability_compatible(field.nullable, other.nullable) {
                    let ghost before = nullability@;
                    let change = NullabilityChange {
                        column: field.name.clone(),
                        expected_nullable: field.nullable,
                        actual_nullable: other.nullable,
                    };
                    nullability.push(change);
                    proof {
                        assert(loosened_at(i as int));
                        assert(nullability@.map_values(|c: NullabilityChange| c@)
                            =~= before.map_values(|c: NullabilityChange| c@).push(change@));
                        assert(old_loosened.push(i as int).map_values(loosening)
                            =~= old_loosened.map_values(loosening).push(change@));
                    }
                } else {
                    assert(!loosened_at(i as int));
                }
            },
        }
        i += 1;
    }
    let mut unexpected: Vec<String> = Vec::new();
    let mut j: usize = 0;
    assert(string_views(unexpected@) =~= rows_where(0, unexpected_at).map_values(actual_name));
    while j < actual.fields.len()
        invariant
            j <= actual.fields@.len(),
            unexpected_at == (|i: int| counts(actual@, i) && is_missing(expected@, actual@[i])),
            actual_name == (|i: int| actual@[i].name),
            string_views(unexpected@) == rows_where(j as nat, unexpected_at).map_values(
                actual_name,
            ),
        decreases actual.fields@.len() - j,
    {
        let field = &actual.fields[j];
        assert(actual@[j as int] == field@);
        let ghost old_unexpected = rows_where(j as nat, unexpected_at);
        if !field_counts(actual, j) {
            assert(!unexpected_at(j as int));
            j += 1;
            continue ;
        }
        match find_last(expected, field.name.as_str()) {
            None => {
                let ghost before = unexpected@;
                unexpected.push(field.name.clone());
                proof {
                    assert(unexpected_at(j as int));
                    assert(string_views(unexpected@) =~= string_views(before).push(field.name@));
                    assert(old_unexpected.push(j as int).map_values(actual_name)
                        =~= old_unexpected.map_values(actual_name).push(field.name@));
                }
            },
            Some(_) => {
                assert(!unexpected_at(j as int));
            },
        }
        j += 1;
    }
    SchemaDiff { missing, unexpected, retyped, nullability }
}

/// A name that occurs has a last field.
pub proof fn lemma_has_last(fields: Seq<FieldView>, i: int)
    requires
        0 <= i < fields.len(),
    ensures
        last_of(fields, fields[i].name) is Some,
        is_last_of(fields, fields[i].name, last_of(fields, fields[i].name)->0),
    decreases fields.len() - i,
{
    if exists|j: int| i < j < fields.len() && (#[trigger] fields[j]).name == fields[i].name {
        let j = choose|j: int| i < j < fields.len() && (#[trigger] fields[j]).name
            == fields[i].name;
        lemma_has_last(fields, j);
    } else {
        assert(is_last_of(fields, fields[i].name, i));
        lemma_last_of(fields, fields[i].name, i);
    }
}

/// Whether an expected field is there, with an accepted type and nullability.
pub open spec fn is_met(
    actual: Seq<FieldView>,
    expected: FieldView,
    options: ValidateSchemaOptions,
) -> bool {
    &&& !is_missing(actual, expected)
    &&& !is_retyped(actual, expected, options)
    &&& !is_loosened(actual, expected)
}

/// A difference is breaking where some expected field that counts is not met, and empty where
/// all of them are met and the actual schema has no other names.
pub proof fn law_what_a_difference_means(
    actual: Seq<FieldView>,
    expected: Seq<FieldView>,
    options: ValidateSchemaOptions,
)
    ensures
        schema_diff(actual, expected, options).is_breaking() <==> exists|i: int|
            0 <= i < expected.len() && counts(expected, i) && !is_met(
                actual,
                #[trigger] expected[i],
                options,
            ),
        schema_diff(actual, expected, options).is_empty() <==> {
            &&& forall|i: int|
                0 <= i < expected.len() && counts(expected, i) ==> is_met(
                    actual,
                    #[trigger] expected[i],
                    options,
                )
            &&& forall|i: int|
                0 <= i < actual.len() ==> !is_missing(expected, #[trigger] actual[i])
        },
{
    let n = expected.len();
    let missing_at = |i: int| counts(expected, i) && is_missing(actual, expected[i]);
    let retyped_at = |i: int| counts(expected, i) && is_retyped(actual, expected[i], options);
    let loosened_at = |i: int| counts(expected, i) && is_loosened(actual, expected[i]);
    let unexpected_at = |i: int| counts(actual, i) && is_missing(expected, actual[i]);
    lemma_rows_where_none(n, missing_at);
    lemma_rows_where_none(n, retyped_at);
    lemma_rows_where_none(n, loosened_at);
    lemma_rows_where_none(actual.len(), unexpected_at);
    let diff = schema_diff(actual, expected, options);
    assert(diff.missing.len() == rows_where(n, missing_at).len());
    assert(diff.retyped.len() == rows_where(n, retyped_at).len());
    assert(diff.nullability.len() == rows_where(n, loosened_at).len());
    assert(diff.unexpected.len() == rows_where(actual.len(), unexpected_at).len());
    if diff.is_breaking() {
        if diff.missing.len() > 0 {
            let i = choose|i: int| 0 <= i < n && #[trigger] missing_at(i);
            assert(!is_met(actual, expected[i], options));
        } else if diff.retyped.len() > 0 {
            let i = choose|i: int| 0 <= i < n && #[trigger] retyped_at(i);
            assert(!is_met(actual, expected[i], options));
        } else {
            let i = choose|i: int| 0 <= i < n && #[trigger] loosened_at(i);
            assert(!is_met(actual, expected[i], options));
        }
    } else {
        assert forall|i: int| 0 <= i < n && counts(expected, i) implies is_met(
            actual,
            #[trigger] expected[i],
            options,
        ) by {
            assert(!missing_at(i));
            assert(!retyped_at(i));
            assert(!loosened_at(i));
        }
    }
    if diff.unexpected.len() == 0 {
        assert forall|i: int| 0 <= i < actual.len() implies !is_missing(
            expected,
            #[trigger] actual[i],
        ) by {
            lemma_has_last(actual, i);
            let last = last_of(actual, actual[i].name)->0;
            assert(counts(actual, last));
            assert(!unexpected_at(last));
        }
    } else {
        let i = choose|i: int| 0 <= i < actual.len() && #[trigger] unexpected_at(i);
        assert(is_missing(expected, actual[i]));
    }
}

/// A schema does not differ from itself.
pub proof fn law_schema_agrees_with_itself(fields: Seq<FieldView>, options: ValidateSchemaOptions)
    ensures
        schema_diff(fields, fields, options).is_empty(),
{
    assert forall|i: int| 0 <= i < fields.len() && counts(fields, i) implies is_met(
        fields,
        #[trigger] fields[i],
        options,
    ) by {
        lemma_last_of(fields, fields[i].name, i);
    }
    assert forall|i: int| 0 <= i < fields.len() implies !is_missing(
        fields,
        #[trigger] fields[i],
    ) by {
        lemma_has_last(fields, i);
    }
    law_what_a_difference_means(fields, fields, options);
}

/// Whether two schemas have the same names in the same places, and the same fields that count.
pub open spec fn same_where_it_counts(a: Seq<FieldView>, b: Seq<FieldView>) -> bool {
    &&& a.len() == b.len()
    &&& forall|i: int| 0 <= i < a.len() ==> (#[trigger] a[i]).name == b[i].name
    &&& forall|i: int| 0 <= i < a.len() && #[trigger] counts(a, i) ==> a[i] == b[i]
}

/// In such schemas the same field is the last with a name.
proof fn lemma_same_last(a: Seq<FieldView>, b: Seq<FieldView>, name: Seq<char>)
    requires
        same_where_it_counts(a, b),
    ensures
        last_of(a, name) == last_of(b, name),
        last_of(a, name) matches Some(i) ==> 0 <= i < a.len() && a[i] == b[i],
{
    if let Some(i) = last_of(a, name) {
        assert(is_last_of(a, name, i));
        assert(counts(a, i));
        assert(a[i] == b[i]);
        assert forall|j: int| i < j < b.len() implies (#[trigger] b[j]).name != name by {
            assert(a[j].name == b[j].name);
        }
        assert(is_last_of(b, name, i));
        lemma_last_of(b, name, i);
    } else if let Some(i) = last_of(b, name) {
        assert(is_last_of(b, name, i));
        assert(a[i].name == b[i].name);
        lemma_has_last(a, i);
    }
}

/// Such schemas count the same fields.
proof fn lemma_same_counts(a: Seq<FieldView>, b: Seq<FieldView>, i: int)
    requires
        same_where_it_counts(a, b),
        0 <= i < a.len(),
    ensures
        counts(a, i) == counts(b, i),
{
    assert(a[i].name == b[i].name);
    lemma_same_last(a, b, a[i].name);
    lemma_has_last(a, i);
    lemma_has_last(b, i);
    if counts(a, i) {
        lemma_last_of(a, a[i].name, i);
    }
    if counts(b, i) {
        lemma_last_of(b, b[i].name, i);
    }
}

/// Of the fields with one name only the last matters: what the others are changes nothing, on
/// either side.
pub proof fn law_earlier_fields_do_not_matter(
    a: Seq<FieldView>,
    a2: Seq<FieldView>,
    b: Seq<FieldView>,
    b2: Seq<FieldView>,
    options: ValidateSchemaOptions,
)
    requires
        same_where_it_counts(a, a2),
        same_where_it_counts(b, b2),
    ensures
        schema_diff(a, b, options) == schema_diff(a2, b2, options),
{
    let n = b.len();
    let missing_at = |i: int| counts(b, i) && is_missing(a, b[i]);
    let missing_at2 = |i: int| counts(b2, i) && is_missing(a2, b2[i]);
    let retyped_at = |i: int| counts(b, i) && is_retyped(a, b[i], options);
    let retyped_at2 = |i: int| counts(b2, i) && is_retyped(a2, b2[i], options);
    let loosened_at = |i: int| counts(b, i) && is_loosened(a, b[i]);
    let loosened_at2 = |i: int| counts(b2, i) && is_loosened(a2, b2[i]);
    let unexpected_at = |i: int| counts(a, i) && is_missing(b, a[i]);
    let unexpected_at2 = |i: int| counts(a2, i) && is_missing(b2, a2[i]);
    assert forall|i: int| 0 <= i < n implies {
        &&& #[trigger] missing_at(i) == missing_at2(i)
        &&& retyped_at(i) == retyped_at2(i)
        &&& loosened_at(i) == loosened_at2(i)
    } by {
        lemma_same_counts(b, b2, i);
        lemma_same_last(a, a2, b[i].name);
    }
    assert forall|i: int| 0 <= i < a.len() implies #[trigger] unexpected_at(i) == unexpected_at2(
        i,
    ) by {
        lemma_same_counts(a, a2, i);
        lemma_same_last(b, b2, a[i].name);
    }
    assert forall|i: int| 0 <= i < n implies #[trigger] retyped_at(i) == retyped_at2(i) by {
        assert(missing_at(i) == missing_at2(i));
    }
    assert forall|i: int| 0 <= i < n implies #[trigger] loosened_at(i) == loosened_at2(i) by {
        assert(missing_at(i) == missing_at2(i));
    }
    lemma_rows_where_same(n, missing_at, missing_at2);
    lemma_rows_where_same(n, retyped_at, retyped_at2);
    lemma_rows_where_same(n, loosened_at, loosened_at2);
    lemma_rows_where_same(a.len(), unexpected_at, unexpected_at2);
    lemma_rows_where(n, missing_at);
    lemma_rows_where(n, retyped_at);
    lemma_rows_where(n, loosened_at);
    lemma_rows_where(a.len(), unexpected_at);
    let x = schema_diff(a, b, options);
    let y = schema_diff(a2, b2, options);
    assert(x.missing =~= y.missing);
    assert(x.unexpected =~= y.unexpected);
    assert forall|k: int| 0 <= k < x.retyped.len() implies x.retyped[k] == y.retyped[k] by {
        let i = rows_where(n, retyped_at)[k];
        assert(retyped_at(i));
        lemma_same_last(a, a2, b[i].name);
    }
    assert(x.retyped =~= y.retyped);
    assert forall|k: int| 0 <= k < x.nullability.len() implies x.nullability[k]
        == y.nullability[k] by {
        let i = rows_where(n, loosened_at)[k];
        assert(loosened_at(i));
        lemma_same_last(a, a2, b[i].name);
    }
    assert(x.nullability =~= y.nullability);
}

/// Additional columns alone do not break anything, and they are reported.
pub proof fn law_additional_columns_do_not_break(
    expected: Seq<FieldView>,
    added: FieldView,
    options: ValidateSchemaOptions,
)
    requires
        forall|i: int| 0 <= i < expected.len() ==> (#[trigger] expected[i]).name != added.name,
    ensures
        !schema_diff(expected.push(added), expected, options).is_breaking(),
        schema_diff(expected.push(added), expected, options).unexpected.len() > 0,
        !schema_diff(expected.push(added), expected, options).is_empty(),
{
    let actual = expected.push(added);
    assert forall|i: int| 0 <= i < expected.len() && counts(expected, i) implies is_met(
        actual,
        #[trigger] expected[i],
        options,
    ) by {
        assert(actual[i] == expected[i]);
        assert(is_last_of(actual, expected[i].name, i));
        lemma_last_of(actual, expected[i].name, i);
    }
    law_what_a_difference_means(actual, expected, options);
    let last = actual.len() - 1;
    assert(actual[last as int] == added);
    assert(is_missing(expected, actual[last as int]));
    assert(counts(actual, last as int));
    let unexpected_at = |i: int| counts(actual, i) && is_missing(expected, actual[i]);
    lemma_rows_where_none(actual.len(), unexpected_at);
    assert(unexpected_at(last as int));
}

/// A breaking difference is a difference.
pub proof fn law_breaking_is_not_empty(diff: DiffView)
    ensures
        diff.is_breaking() ==> !diff.is_empty(),
        !diff.is_breaking() && diff.unexpected.len() == 0 ==> diff.is_empty(),
{
}

/// What one schema misses of another is what the other has in addition.
pub proof fn law_missing_and_unexpected_mirror(
    a: Seq<FieldView>,
    b: Seq<FieldView>,
    options: ValidateSchemaOptions,
)
    ensures
        schema_diff(a, b, options).missing == schema_diff(b, a, options).unexpected,
{
}

/// What is selected by two conditions is what the second leaves of what the first selects.
proof fn lemma_selected_in_steps<A>(
    n: nat,
    p: spec_fn(int) -> bool,
    q: spec_fn(int) -> bool,
    f: spec_fn(int) -> A,
    keeps: spec_fn(A) -> bool,
)
    requires
        forall|i: int| 0 <= i < n ==> #[trigger] q(i) == (p(i) && keeps(f(i))),
    ensures
        rows_where(n, q).map_values(f) == rows_where(n, p).map_values(f).filter(keeps),
    decreases n,
{
    reveal(Seq::filter);
    if n == 0 {
        assert(rows_where(0, q).map_values(f) =~= rows_where(0, p).map_values(f).filter(keeps));
    } else {
        let m = (n - 1) as nat;
        let (x, y) = (rows_where(m, p), rows_where(m, q));
        lemma_selected_in_steps(m, p, q, f, keeps);
        assert(q(m as int) == (p(m as int) && keeps(f(m as int))));
        assert(x.push(m as int).map_values(f) =~= x.map_values(f).push(f(m as int)));
        assert(y.push(m as int).map_values(f) =~= y.map_values(f).push(f(m as int)));
        assert(x.map_values(f).push(f(m as int)).drop_last() =~= x.map_values(f));
    }
}

/// Accepting wider types takes the widenings off the list of retyped columns and changes nothing
/// else.
pub proof fn law_widening_accepts_more(actual: Seq<FieldView>, expected: Seq<FieldView>)
    ensures
        ({
            let strict = schema_diff(
                actual,
                expected,
                ValidateSchemaOptions { allow_numeric_widening: false },
            );
            let lax = schema_diff(
                actual,
                expected,
                ValidateSchemaOptions { allow_numeric_widening: true },
            );
            &&& lax.retyped == strict.retyped.filter(
                |c: RetypedView| !is_widening(c.expected, c.actual),
            )
            &&& lax.missing == strict.missing
            &&& lax.unexpected == strict.unexpected
            &&& lax.nullability == strict.nullability
        }),
{
    let off = ValidateSchemaOptions { allow_numeric_widening: false };
    let on = ValidateSchemaOptions { allow_numeric_widening: true };
    let p = |i: int| counts(expected, i) && is_retyped(actual, expected[i], off);
    let q = |i: int| counts(expected, i) && is_retyped(actual, expected[i], on);
    let f = |i: int|
        RetypedView {
            column: expected[i].name,
            expected: expected[i].data_type,
            actual: actual[last_of(actual, expected[i].name)->0].data_type,
        };
    let keeps = |c: RetypedView| !is_widening(c.expected, c.actual);
    lemma_selected_in_steps(expected.len(), p, q, f, keeps);
}

/// Widening goes one way, never between signed, unsigned and float types, and in steps.
pub proof fn law_widening_is_an_order(a: DataTypeView, b: DataTypeView, c: DataTypeView)
    ensures
        !is_widening(a, a),
        is_widening(a, b) ==> !is_widening(b, a),
        is_widening(a, b) && is_widening(b, c) ==> is_widening(a, c),
        is_widening(a, b) ==> match (numeric_rank(a), numeric_rank(b)) {
            (Some((kind, _)), Some((other, _))) => kind == other,
            _ => false,
        },
{
}

/// A narrower type is never accepted.
pub proof fn law_narrowing_is_refused(
    narrow: DataTypeView,
    wide: DataTypeView,
    options: ValidateSchemaOptions,
)
    requires
        is_widening(narrow, wide),
    ensures
        !types_agree(wide, narrow, options),
{
}

/// A name stands for the last field that has it, and for none where no field has it.
pub proof fn law_names_stand_for_last_fields(fields: Seq<FieldView>, name: Seq<char>)
    ensures
        match last_of(fields, name) {
            Some(i) => {
                &&& 0 <= i < fields.len()
                &&& fields[i].name == name
                &&& forall|j: int| i < j < fields.len() ==> (#[trigger] fields[j]).name != name
            },
            None => forall|j: int| 0 <= j < fields.len() ==> (#[trigger] fields[j]).name != name,
        },
{
    if let Some(i) = last_of(fields, name) {
        assert(is_last_of(fields, name, i));
    } else {
        assert forall|j: int| 0 <= j < fields.len() implies (#[trigger] fields[j]).name
            != name by {
            lemma_has_last(fields, j);
        }
    }
}

/// What is selected and mapped holds exactly the images of what satisfies the predicate.
proof fn lemma_selected<A>(n: nat, p: spec_fn(int) -> bool, f: spec_fn(int) -> A, x: A)
    ensures
        rows_where(n, p).map_values(f).contains(x) <==> exists|i: int|
            0 <= i < n && #[trigger] p(i) && f(i) == x,
{
    let rows = rows_where(n, p);
    let images = rows.map_values(f);
    lemma_rows_where(n, p);
    if images.contains(x) {
        let k = choose|k: int| 0 <= k < images.len() && images[k] == x;
        assert(p(rows[k]) && f(rows[k]) == x);
    }
    if exists|i: int| 0 <= i < n && #[trigger] p(i) && f(i) == x {
        let i = choose|i: int| 0 <= i < n && #[trigger] p(i) && f(i) == x;
        let k = choose|k: int| 0 <= k < rows.len() && rows[k] == i;
        assert(images[k] == x);
    }
}

/// The place of a field that counts is that of its name.
proof fn lemma_place(fields: Seq<FieldView>, i: int)
    requires
        0 <= i < fields.len(),
        counts(fields, i),
    ensures
        last_of(fields, fields[i].name) == Some(i),
{
    lemma_last_of(fields, fields[i].name, i);
}

/// Which names are missing and which are unexpected: those that stand for a field on one side
/// alone. Each is listed once, in the order of the fields.
pub proof fn law_which_names_are_reported(
    actual: Seq<FieldView>,
    expected: Seq<FieldView>,
    options: ValidateSchemaOptions,
    name: Seq<char>,
)
    ensures
        ({
            let diff = schema_diff(actual, expected, options);
            &&& diff.missing.contains(name) <==> last_of(expected, name) is Some && last_of(
                actual,
                name,
            ) is None
            &&& diff.unexpected.contains(name) <==> last_of(actual, name) is Some && last_of(
                expected,
                name,
            ) is None
            &&& forall|a: int, b: int|
                0 <= a < b < diff.missing.len() ==> last_of(expected, #[trigger] diff.missing[a])->0
                    < last_of(expected, #[trigger] diff.missing[b])->0
            &&& forall|a: int, b: int|
                0 <= a < b < diff.unexpected.len() ==> last_of(
                    actual,
                    #[trigger] diff.unexpected[a],
                )->0 < last_of(actual, #[trigger] diff.unexpected[b])->0
        }),
{
    lemma_missing_names(actual, expected, options, name);
    lemma_missing_names(expected, actual, options, name);
    law_missing_and_unexpected_mirror(expected, actual, options);
}

proof fn lemma_missing_names(
    actual: Seq<FieldView>,
    expected: Seq<FieldView>,
    options: ValidateSchemaOptions,
    name: Seq<char>,
)
    ensures
        ({
            let diff = schema_diff(actual, expected, options);
            &&& diff.missing.contains(name) <==> last_of(expected, name) is Some && last_of(
                actual,
                name,
            ) is None
            &&& forall|a: int, b: int|
                0 <= a < b < diff.missing.len() ==> last_of(expected, #[trigger] diff.missing[a])->0
                    < last_of(expected, #[trigger] diff.missing[b])->0
        }),
{
    let diff = schema_diff(actual, expected, options);
    let p = |i: int| counts(expected, i) && is_missing(actual, expected[i]);
    let f = |i: int| expected[i].name;
    let n = expected.len();
    let rows = rows_where(n, p);
    lemma_rows_where(n, p);
    lemma_selected(n, p, f, name);
    law_names_stand_for_last_fields(expected, name);
    if last_of(expected, name) is Some && last_of(actual, name) is None {
        let i = last_of(expected, name)->0;
        assert(p(i) && f(i) == name);
    }
    if diff.missing.contains(name) {
        let i = choose|i: int| 0 <= i < n && #[trigger] p(i) && f(i) == name;
        lemma_place(expected, i);
    }
    assert forall|a: int, b: int| 0 <= a < b < diff.missing.len() implies last_of(
        expected,
        #[trigger] diff.missing[a],
    )->0 < last_of(expected, #[trigger] diff.missing[b])->0 by {
        assert(p(rows[a]) && p(rows[b]));
        lemma_place(expected, rows[a]);
        lemma_place(expected, rows[b]);
    }
}

/// Which columns are reported as retyped: those whose name stands for a field on both sides, of
/// different types, of which the actual one is not an accepted widening. Each comes once, with
/// both types, in the order of the expected fields.
pub proof fn law_which_columns_are_retyped(
    actual: Seq<FieldView>,
    expected: Seq<FieldView>,
    options: ValidateSchemaOptions,
    change: RetypedView,
)
    ensures
        ({
            let diff = schema_diff(actual, expected, options);
            &&& diff.retyped.contains(change) <==> {
                &&& last_of(expected, change.column) is Some
                &&& last_of(actual, change.column) is Some
                &&& change.expected == expected[last_of(expected, change.column)->0].data_type
                &&& change.actual == actual[last_of(actual, change.column)->0].data_type
                &&& change.expected != change.actual
                &&& !(options.allow_numeric_widening && is_widening(
                    change.expected,
                    change.actual,
                ))
            }
            &&& forall|a: int, b: int|
                0 <= a < b < diff.retyped.len() ==> last_of(
                    expected,
                    (#[trigger] diff.retyped[a]).column,
                )->0 < last_of(expected, (#[trigger] diff.retyped[b]).column)->0
        }),
{
    let diff = schema_diff(actual, expected, options);
    let p = |i: int| counts(expected, i) && is_retyped(actual, expected[i], options);
    let f = |i: int|
        RetypedView {
            column: expected[i].name,
            expected: expected[i].data_type,
            actual: actual[last_of(actual, expected[i].name)->0].data_type,
        };
    let n = expected.len();
    let rows = rows_where(n, p);
    lemma_rows_where(n, p);
    lemma_selected(n, p, f, change);
    law_names_stand_for_last_fields(expected, change.column);
    if last_of(expected, change.column) is Some && last_of(actual, change.column) is Some
        && change.expected == expected[last_of(expected, change.column)->0].data_type
        && change.actual == actual[last_of(actual, change.column)->0].data_type && change.expected
        != change.actual && !(options.allow_numeric_widening && is_widening(
        change.expected,
        change.actual,
    )) {
        let i = last_of(expected, change.column)->0;
        assert(p(i) && f(i) == change);
    }
    if diff.retyped.contains(change) {
        let i = choose|i: int| 0 <= i < n && #[trigger] p(i) && f(i) == change;
        lemma_place(expected, i);
    }
    assert forall|a: int, b: int| 0 <= a < b < diff.retyped.len() implies last_of(
        expected,
        (#[trigger] diff.retyped[a]).column,
    )->0 < last_of(expected, (#[trigger] diff.retyped[b]).column)->0 by {
        assert(p(rows[a]) && p(rows[b]));
        lemma_place(expected, rows[a]);
        lemma_place(expected, rows[b]);
    }
}

/// Which columns are reported for their nullability: those whose name stands for a field on both
/// sides that may hold nulls on the actual side alone. Each comes once, in the order of the
/// expected fields.
pub proof fn law_which_columns_are_loosened(
    actual: Seq<FieldView>,
    expected: Seq<FieldView>,
    options: ValidateSchemaOptions,
    change: NullabilityView,
)
    ensures
        ({
            let diff = schema_diff(actual, expected, options);
            &&& diff.nullability.contains(change) <==> {
                &&& last_of(expected, change.column) is Some
                &&& last_of(actual, change.column) is Some
                &&& change.expected_nullable == expected[last_of(
                    expected,
                    change.column,
                )->0].nullable
                &&& change.actual_nullable == actual[last_of(actual, change.column)->0].nullable
                &&& !change.expected_nullable
                &&& change.actual_nullable
            }
            &&& forall|a: int, b: int|
                0 <= a < b < diff.nullability.len() ==> last_of(
                    expected,
                    (#[trigger] diff.nullability[a]).column,
                )->0 < last_of(expected, (#[trigger] diff.nullability[b]).column)->0
        }),
{
    let diff = schema_diff(actual, expected, options);
    let p = |i: int| counts(expected, i) && is_loosened(actual, expected[i]);
    let f = |i: int|
        NullabilityView {
            column: expected[i].name,
            expected_nullable: expected[i].nullable,
            actual_nullable: actual[last_of(actual, expected[i].name)->0].nullable,
        };
    let n = expected.len();
    let rows = rows_where(n, p);
    lemma_rows_where(n, p);
    lemma_selected(n, p, f, change);
    law_names_stand_for_last_fields(expected, change.column);
    if last_of(expected, change.column) is Some && last_of(actual, change.column) is Some
        && change.expected_nullable == expected[last_of(expected, change.column)->0].nullable
        && change.actual_nullable == actual[last_of(actual, change.column)->0].nullable
        && !change.expected_nullable && change.actual_nullable {
        let i = last_of(expected, change.column)->0;
        assert(p(i) && f(i) == change);
    }
    if diff.nullability.contains(change) {
        let i = choose|i: int| 0 <= i < n && #[trigger] p(i) && f(i) == change;
        lemma_place(expected, i);
    }
    assert forall|a: int, b: int| 0 <= a < b < diff.nullability.len() implies last_of(
        expected,
        (#[trigger] diff.nullability[a]).column,
    )->0 < last_of(expected, (#[trigger] diff.nullability[b]).column)->0 by {
        assert(p(rows[a]) && p(rows[b]));
        lemma_place(expected, rows[a]);
        lemma_place(expected, rows[b]);
    }
}

/// A difference breaks where anything is missing, retyped or loosened; it is empty where nothing
/// of that holds and nothing is unexpected.
pub proof fn law_what_breaks(diff: DiffView)
    ensures
        diff.is_breaking() <==> diff.missing.len() + diff.retyped.len() + diff.nullability.len()
            > 0,
        diff.is_empty() <==> diff.missing.len() + diff.retyped.len() + diff.nullability.len()
            + diff.unexpected.len() == 0,
{
}

/// The accepted widenings: from a signed integer, an unsigned integer or a float to a wider one of
/// its kind, and nothing else.
pub proof fn law_which_types_widen(expected: DataTypeView, actual: DataTypeView)
    ensures
        is_widening(expected, actual) <==> match expected {
            DataTypeView::Int8 => actual is Int16 || actual is Int32 || actual is Int64,
            DataTypeView::Int16 => actual is Int32 || actual is Int64,
            DataTypeView::Int32 => actual is Int64,
            DataTypeView::UInt8 => actual is UInt16 || actual is UInt32 || actual is UInt64,
            DataTypeView::UInt16 => actual is UInt32 || actual is UInt64,
            DataTypeView::UInt32 => actual is UInt64,
            DataTypeView::Float32 => actual is Float64,
            _ => false,
        },
{
}

} // verus!
