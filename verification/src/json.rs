//! JSON normalization: a column of JSON texts, one object per row, as typed columns.
//!
//! The rules by which values become cells are versioned ([`NormalizeVersion`]).

use crate::batch::{lemma_columns_make_a_batch, BatchView, RecordBatch};
use crate::column::{cell_view, fits_or_null, Cell, CellView, Column, ColumnView};
use crate::error::{same_outcome, Error, ErrorView};
use crate::rows::{
    first_where, lemma_first_where, lemma_first_where_is, lemma_rows_where, lemma_rows_where_same,
    rows_where,
};
use crate::schema::{display_name, DataType, DataTypeView, Field, FieldView, Schema};
use crate::text::{string_views, text_eq, text_values};
use serde_json::Value;
use vstd::prelude::*;
use vstd::string::StrSliceExecFns;

verus! {

/// Names one exact, frozen set of rules.
#[derive(Debug, Clone, Copy, PartialEq, Eq, Structural, Hash)]
pub enum NormalizeVersion {
    V1,
}

/// The stable name of a version.
pub open spec fn normalize_version_name(version: NormalizeVersion) -> Seq<char> {
    match version {
        NormalizeVersion::V1 => "v1"@,
    }
}

/// The version of a stable name.
pub open spec fn normalize_version_named(name: Seq<char>) -> Option<NormalizeVersion> {
    if name == "v1"@ {
        Some(NormalizeVersion::V1)
    } else {
        None
    }
}

impl NormalizeVersion {
    /// The version used where a caller does not pin one.
    pub const CURRENT: NormalizeVersion = NormalizeVersion::V1;

    /// The version's stable name.
    pub fn as_str(self) -> (s: &'static str)
        ensures
            s@ == normalize_version_name(self),
    {
        match self {
            NormalizeVersion::V1 => "v1",
        }
    }

    /// The version of a stable name.
    pub fn parse(s: &str) -> (r: Option<Self>)
        ensures
            r == normalize_version_named(s@),
    {
        if text_eq(s, "v1") {
            Some(NormalizeVersion::V1)
        } else {
            None
        }
    }
}

impl Default for NormalizeVersion {
    fn default() -> (r: Self)
        ensures
            r == NormalizeVersion::CURRENT,
    {
        NormalizeVersion::CURRENT
    }
}

/// A JSON value. A number is held as the integer of 64 bits that it is, where it is one, and as
/// the bits of the double that stands for it.
#[derive(Debug)]
pub enum Json {
    Null,
    Bool(bool),
    Number(Option<i64>, Option<u64>),
    Text(String),
    Array(Vec<Json>),
    Object(Vec<(String, Json)>),
}

/// The model of [`Json`].
pub ghost enum JsonView {
    Null,
    Bool(bool),
    Number(Option<i64>, Option<u64>),
    Text(Seq<char>),
    Array(Seq<JsonView>),
    Object(Seq<(Seq<char>, JsonView)>),
}

impl Json {
    /// The model.
    pub open spec fn view(&self) -> JsonView
        decreases self,
    {
        match self {
            Json::Null => JsonView::Null,
            Json::Bool(b) => JsonView::Bool(*b),
            Json::Number(integer, double) => JsonView::Number(*integer, *double),
            Json::Text(s) => JsonView::Text(s@),
            Json::Array(items) => JsonView::Array(
                Seq::new(
                    items@.len(),
                    |i: int|
                        if 0 <= i < items@.len() {
                            items@[i].view()
                        } else {
                            arbitrary()
                        },
                ),
            ),
            Json::Object(entries) => JsonView::Object(
                Seq::new(
                    entries@.len(),
                    |i: int|
                        if 0 <= i < entries@.len() {
                            (entries@[i].0@, entries@[i].1.view())
                        } else {
                            arbitrary()
                        },
                ),
            ),
        }
    }
}

/// A parsed JSON value.
#[verifier::external_type_specification]
#[verifier::external_body]
pub struct ExValue(serde_json::Value);

/// What a parsed JSON value holds.
pub uninterp spec fn json_of(v: Value) -> JsonView;

/// What parsing a text gives, where it is JSON.
pub uninterp spec fn parsed(text: Seq<char>) -> Option<Value>;

/// Calls `serde_json::from_str` for a value, and drops the reason of a refusal. Claims that
/// whether a text is JSON, and its value, depend on the text alone.
#[verifier::external_body]
pub(crate) fn parse_value(text: &str) -> (r: Option<Value>)
    ensures
        r == parsed(text@),
{
    serde_json::from_str::<Value>(text).ok()
}

/// One level of a parsed JSON value.
enum Node<'a> {
    Null,
    Bool(bool),
    Number(Option<i64>, Option<u64>),
    Text(String),
    Array(Vec<&'a Value>),
    Object(Vec<(String, &'a Value)>),
}

/// The model of one level of a parsed JSON value.
spec fn node_view(n: Node) -> JsonView {
    match n {
        Node::Null => JsonView::Null,
        Node::Bool(b) => JsonView::Bool(b),
        Node::Number(integer, double) => JsonView::Number(integer, double),
        Node::Text(s) => JsonView::Text(s@),
        Node::Array(items) => JsonView::Array(items@.map_values(|v: &Value| json_of(*v))),
        Node::Object(entries) => JsonView::Object(
            entries@.map_values(|e: (String, &Value)| (e.0@, json_of(*e.1))),
        ),
    }
}

/// Takes one level of a `serde_json::Value` apart: the variant and what it holds, a number by
/// `Number::as_i64` and by the bits of `Number::as_f64`, and an object's entries as its map
/// hands them out. Claims that this is what the value holds.
#[verifier::external_body]
fn expand<'a>(v: &'a Value) -> (n: Node<'a>)
    ensures
        node_view(n) == json_of(*v),
{
    match v {
        Value::Null => Node::Null,
        Value::Bool(b) => Node::Bool(*b),
        Value::Number(n) => Node::Number(n.as_i64(), n.as_f64().map(|x| x.to_bits())),
        Value::String(s) => Node::Text(s.clone()),
        Value::Array(items) => Node::Array(items.iter().collect()),
        Value::Object(map) => Node::Object(map.iter().map(|(k, x)| (k.clone(), x)).collect()),
    }
}

/// A parsed JSON value as plain data.
fn lift(v: &Value) -> (j: Json)
    ensures
        j@ == json_of(*v),
    decreases json_of(*v),
{
    match expand(v) {
        Node::Null => Json::Null,
        Node::Bool(b) => Json::Bool(b),
        Node::Number(integer, double) => Json::Number(integer, double),
        Node::Text(s) => Json::Text(s),
        Node::Array(items) => {
            let mut out: Vec<Json> = Vec::new();
            let mut i: usize = 0;
            while i < items.len()
                invariant
                    i <= items@.len(),
                    out@.len() == i,
                    json_of(*v) == node_view(Node::Array(items)),
                    forall|k: int| 0 <= k < i ==> (#[trigger] out@[k])@ == json_of(*items@[k]),
                decreases items@.len() - i,
            {
                assert(json_of(*v)->Array_0[i as int] == json_of(*items@[i as int]));
                out.push(lift(items[i]));
                i += 1;
            }
            let j = Json::Array(out);
            assert(j@->Array_0 =~= json_of(*v)->Array_0);
            j
        },
        Node::Object(entries) => {
            let mut out: Vec<(String, Json)> = Vec::new();
            let mut i: usize = 0;
            while i < entries.len()
                invariant
                    i <= entries@.len(),
                    out@.len() == i,
                    json_of(*v) == node_view(Node::Object(entries)),
                    forall|k: int|
                        0 <= k < i ==> (#[trigger] out@[k]).0@ == entries@[k].0@ && out@[k].1@
                            == json_of(*entries@[k].1),
                decreases entries@.len() - i,
            {
                let e = &entries[i];
                assert(json_of(*v)->Object_0[i as int].1 == json_of(*e.1));
                let child = lift(e.1);
                out.push((e.0.clone(), child));
                i += 1;
            }
            let j = Json::Object(out);
            assert(j@->Object_0 =~= json_of(*v)->Object_0);
            j
        },
    }
}

/// The parts of a name between its dots.
pub open spec fn path_of(name: Seq<char>) -> Seq<Seq<char>>
    decreases name.len(),
{
    if name.len() == 0 {
        seq![Seq::empty()]
    } else {
        let before = path_of(name.drop_last());
        if name.last() == '.' {
            before.push(Seq::empty())
        } else {
            before.drop_last().push(before.last().push(name.last()))
        }
    }
}

/// Which entries have a key.
pub open spec fn has_key(
    entries: Seq<(Seq<char>, JsonView)>,
    key: Seq<char>,
) -> spec_fn(int) -> bool {
    |i: int| entries[i].0 == key
}

/// The value of an object's key.
pub open spec fn entry(entries: Seq<(Seq<char>, JsonView)>, key: Seq<char>) -> Option<JsonView> {
    match first_where(entries.len(), has_key(entries, key)) {
        Some(i) => Some(entries[i].1),
        None => None,
    }
}

/// The value that a path of keys leads to, through objects only.
pub open spec fn value_at(root: JsonView, path: Seq<Seq<char>>) -> Option<JsonView>
    decreases path.len(),
{
    if path.len() == 0 {
        Some(root)
    } else {
        match value_at(root, path.drop_last()) {
            Some(JsonView::Object(entries)) => entry(entries, path.last()),
            _ => None,
        }
    }
}

/// A value as a cell of a type, where it is one of the kind that the type takes.
pub open spec fn as_cell(t: DataTypeView, v: JsonView) -> Option<CellView> {
    match (t, v) {
        (DataTypeView::Utf8, JsonView::Text(s)) => Some(CellView::Text(s)),
        (DataTypeView::Int64, JsonView::Number(Some(n), _)) => Some(CellView::Int64(n)),
        (DataTypeView::Float64, JsonView::Number(_, Some(bits))) => Some(CellView::Float64(bits)),
        (DataTypeView::Boolean, JsonView::Bool(b)) => Some(CellView::Boolean(b)),
        _ => None,
    }
}

/// Whether a row is no JSON object.
pub open spec fn is_malformed(row: Option<JsonView>) -> bool {
    !(row matches Some(JsonView::Object(_)))
}

/// The value of a field in a row, where there is one.
pub open spec fn field_value(row: Option<JsonView>, field: FieldView) -> Option<JsonView> {
    if is_malformed(row) {
        None
    } else {
        value_at(row->0, path_of(field.name))
    }
}

/// The cell of a field in a row.
pub open spec fn field_cell(row: Option<JsonView>, field: FieldView) -> Option<CellView> {
    match field_value(row, field) {
        Some(v) => as_cell(field.data_type, v),
        None => None,
    }
}

/// Whether a field has a value in a row, other than a JSON null, that its type does not take.
pub open spec fn is_mismatch(row: Option<JsonView>, field: FieldView) -> bool {
    match field_value(row, field) {
        Some(v) => !(v is Null) && as_cell(field.data_type, v) is None,
        None => false,
    }
}

/// The number of rows that are no JSON object.
pub open spec fn malformed_count(rows: Seq<Option<JsonView>>) -> nat {
    rows_where(rows.len(), |i: int| is_malformed(rows[i])).len()
}

/// The number of rows in which a field has a value that its type does not take.
pub open spec fn field_mismatches(rows: Seq<Option<JsonView>>, field: FieldView) -> nat {
    rows_where(rows.len(), |i: int| is_mismatch(rows[i], field)).len()
}

/// The number of mismatches of all fields of a name.
pub open spec fn mismatch_count(
    rows: Seq<Option<JsonView>>,
    fields: Seq<FieldView>,
    name: Seq<char>,
) -> nat
    decreases fields.len(),
{
    if fields.len() == 0 {
        0
    } else {
        mismatch_count(rows, fields.drop_last(), name) + if fields.last().name == name {
            field_mismatches(rows, fields.last())
        } else {
            0
        }
    }
}

/// The column of a field.
pub open spec fn field_column(rows: Seq<Option<JsonView>>, field: FieldView) -> ColumnView {
    ColumnView {
        data_type: field.data_type,
        cells: rows.map_values(|row: Option<JsonView>| field_cell(row, field)),
    }
}

/// A field as it stands over its column: it may hold nulls where it was declared so or where its
/// column has one.
pub open spec fn field_over(rows: Seq<Option<JsonView>>, field: FieldView) -> FieldView {
    FieldView { nullable: field.nullable || field_column(rows, field).has_null(), ..field }
}

/// What was found while normalizing, besides the columns. A name without mismatches is not
/// listed.
#[derive(Debug, PartialEq, Eq)]
pub struct NormalizeStats {
    /// The number of rows that were no JSON object.
    pub rows_malformed: u64,
    /// By column name, the number of values of the wrong kind.
    pub type_mismatches: Vec<(String, u64)>,
}

/// The model of [`NormalizeStats`].
#[verifier::ext_equal]
pub ghost struct StatsView {
    pub rows_malformed: nat,
    pub type_mismatches: Map<Seq<char>, nat>,
}

/// The counts by name that a list of pairs stands for: the first of each name.
pub open spec fn counts_of(pairs: Seq<(String, u64)>) -> Map<Seq<char>, nat> {
    Map::new(
        |name: Seq<char>| exists|i: int| 0 <= i < pairs.len() && (#[trigger] pairs[i]).0@ == name,
        |name: Seq<char>|
            pairs[first_where(pairs.len(), |i: int| pairs[i].0@ == name)->0].1 as nat,
    )
}

impl View for NormalizeStats {
    type V = StatsView;

    open spec fn view(&self) -> StatsView {
        StatsView {
            rows_malformed: self.rows_malformed as nat,
            type_mismatches: counts_of(self.type_mismatches@),
        }
    }
}

impl Default for NormalizeStats {
    fn default() -> (r: Self)
        ensures
            r.wf(),
            r@ == (StatsView { rows_malformed: 0, type_mismatches: Map::empty() }),
    {
        let r = NormalizeStats { rows_malformed: 0, type_mismatches: Vec::new() };
        assert(r@.type_mismatches =~= Map::empty());
        r
    }
}

impl Clone for NormalizeStats {
    fn clone(&self) -> (r: Self)
        ensures
            r.rows_malformed == self.rows_malformed,
            r.type_mismatches@ == self.type_mismatches@,
            r@ == self@,
    {
        let mut pairs: Vec<(String, u64)> = Vec::new();
        let mut i: usize = 0;
        while i < self.type_mismatches.len()
            invariant
                i <= self.type_mismatches@.len(),
                pairs@.len() == i,
                forall|j: int| 0 <= j < i ==> #[trigger] pairs@[j] == self.type_mismatches@[j],
            decreases self.type_mismatches@.len() - i,
        {
            let pair = &self.type_mismatches[i];
            pairs.push((pair.0.clone(), pair.1));
            i += 1;
        }
        assert(pairs@ =~= self.type_mismatches@);
        NormalizeStats { rows_malformed: self.rows_malformed, type_mismatches: pairs }
    }
}

impl NormalizeStats {
    /// Whether each column is listed once.
    pub open spec fn wf(self) -> bool {
        forall|i: int, j: int|
            0 <= i < j < self.type_mismatches@.len() ==> (
            #[trigger] self.type_mismatches@[i]).0@ != (#[trigger] self.type_mismatches@[j]).0@
    }

    /// The number of mismatches of a column, where it has any.
    pub fn mismatches(&self, name: &str) -> (r: Option<u64>)
        ensures
            match r {
                Some(n) => self@.type_mismatches.contains_key(name@)
                    && self@.type_mismatches[name@] == n,
                None => !self@.type_mismatches.contains_key(name@),
            },
    {
        let ghost pairs = self.type_mismatches@;
        let ghost p = |i: int| pairs[i].0@ == name@;
        let mut i: usize = 0;
        while i < self.type_mismatches.len()
            invariant
                i <= pairs.len(),
                pairs == self.type_mismatches@,
                p == (|i: int| pairs[i].0@ == name@),
                forall|j: int| 0 <= j < i ==> !#[trigger] p(j),
            decreases pairs.len() - i,
        {
            let pair = &self.type_mismatches[i];
            if text_eq(pair.0.as_str(), name) {
                proof {
                    lemma_first_where_is(pairs.len(), p, i as int);
                    assert(pairs[i as int].0@ == name@);
                }
                return Some(pair.1);
            }
            assert(!p(i as int));
            i += 1;
        }
        assert forall|j: int| 0 <= j < pairs.len() implies (#[trigger] pairs[j]).0@ != name@ by {
            assert(!p(j));
        }
        None
    }
}

/// The statistics of rows under fields.
pub open spec fn stats_of(rows: Seq<Option<JsonView>>, fields: Seq<FieldView>) -> StatsView {
    StatsView {
        rows_malformed: malformed_count(rows),
        type_mismatches: Map::new(
            |name: Seq<char>| mismatch_count(rows, fields, name) > 0,
            |name: Seq<char>| mismatch_count(rows, fields, name),
        ),
    }
}

/// Whether values can become cells of a type.
pub open spec fn is_target(t: DataTypeView) -> bool {
    t is Utf8 || t is Int64 || t is Float64 || t is Boolean
}

/// The first field whose type no value can become a cell of.
pub open spec fn first_unsupported(fields: Seq<FieldView>) -> Option<int> {
    first_where(fields.len(), |i: int| !is_target(fields[i].data_type))
}

/// What normalizing parsed rows gives.
pub open spec fn normalize_outcome(
    rows: Seq<Option<JsonView>>,
    fields: Seq<FieldView>,
) -> Result<(BatchView, StatsView), ErrorView> {
    match first_unsupported(fields) {
        Some(i) => Err(ErrorView::UnsupportedType(display_name(fields[i].data_type))),
        None => Ok(
            (
                BatchView {
                    fields: fields.map_values(|f: FieldView| field_over(rows, f)),
                    columns: fields.map_values(|f: FieldView| field_column(rows, f)),
                    rows: rows.len(),
                },
                stats_of(rows, fields),
            ),
        ),
    }
}

/// The JSON of a row's text, where there is one and it is JSON.
pub open spec fn row_json(text: Option<Seq<char>>) -> Option<JsonView> {
    match text {
        Some(t) => match parsed(t) {
            Some(v) => Some(json_of(v)),
            None => None,
        },
        None => None,
    }
}

/// The JSON of rows.
pub open spec fn row_views(rows: Seq<Option<Json>>) -> Seq<Option<JsonView>> {
    rows.map_values(
        |r: Option<Json>|
            match r {
                Some(j) => Some(j@),
                None => None,
            },
    )
}

/// The parts of a name between its dots.
fn split_path(name: &str) -> (path: Vec<String>)
    ensures
        string_views(path@) == path_of(name@),
{
    let n = name.unicode_len();
    let mut path: Vec<String> = Vec::new();
    let mut start: usize = 0;
    let mut i: usize = 0;
    proof {
        assert(name@.take(0) =~= Seq::empty());
        assert(seq![name@.subrange(0, 0)] =~= seq![Seq::<char>::empty()]);
        assert(string_views(path@).push(name@.subrange(0, 0)) =~= seq![
            name@.subrange(0, 0),
        ]);
        assert(name@.subrange(0, 0) =~= Seq::empty());
    }
    while i < n
        invariant
            start <= i <= n == name@.len(),
            string_views(path@).push(name@.subrange(start as int, i as int))
                == path_of(name@.take(i as int)),
        decreases n - i,
    {
        let c = name.get_char(i);
        let ghost before = string_views(path@);
        let ghost part = name@.subrange(start as int, i as int);
        proof {
            let longer = name@.take(i as int + 1);
            assert(longer.drop_last() =~= name@.take(i as int));
            assert(longer.last() == c);
            assert(before.push(part).drop_last() =~= before);
            assert(before.push(part).last() == part);
        }
        if c == '.' {
            let piece = name.substring_char(start, i);
            path.push(piece.to_owned());
            start = i + 1;
            proof {
                assert(string_views(path@) =~= before.push(part));
                assert(name@.subrange(start as int, i as int + 1) =~= Seq::empty());
            }
        } else {
            assert(name@.subrange(start as int, i as int + 1) =~= part.push(c));
        }
        i += 1;
    }
    let ghost before = string_views(path@);
    let piece = name.substring_char(start, n);
    path.push(piece.to_owned());
    proof {
        assert(name@.take(n as int) =~= name@);
        assert(string_views(path@) =~= before.push(
            name@.subrange(start as int, n as int),
        ));
    }
    path
}

/// The value of an object's key.
fn get<'a>(entries: &'a Vec<(String, Json)>, key: &str) -> (r: Option<&'a Json>)
    ensures
        match r {
            Some(v) => entry(Json::Object(*entries)@->Object_0, key@) == Some(v@),
            None => entry(Json::Object(*entries)@->Object_0, key@) is None,
        },
{
    let ghost views = Json::Object(*entries)@->Object_0;
    let ghost p = has_key(views, key@);
    let mut i: usize = 0;
    while i < entries.len()
        invariant
            i <= entries@.len() == views.len(),
            views == Json::Object(*entries)@->Object_0,
            p == has_key(views, key@),
            forall|j: int| 0 <= j < i ==> !#[trigger] p(j),
        decreases entries@.len() - i,
    {
        assert(views[i as int] == (entries@[i as int].0@, entries@[i as int].1@));
        if text_eq(entries[i].0.as_str(), key) {
            proof {
                lemma_first_where_is(views.len(), p, i as int);
            }
            return Some(&entries[i].1);
        }
        assert(!p(i as int));
        i += 1;
    }
    proof {
        lemma_first_where(views.len(), p);
    }
    None
}

/// The value that a path of keys leads to.
fn walk<'a>(root: &'a Json, path: &Vec<String>) -> (r: Option<&'a Json>)
    ensures
        match r {
            Some(v) => value_at(root@, string_views(path@)) == Some(v@),
            None => value_at(root@, string_views(path@)) is None,
        },
{
    let ghost keys = string_views(path@);
    let mut current = Some(root);
    let mut k: usize = 0;
    assert(keys.take(0) =~= Seq::empty());
    while k < path.len()
        invariant
            k <= path@.len(),
            keys == string_views(path@),
            match current {
                Some(v) => value_at(root@, keys.take(k as int)) == Some(v@),
                None => value_at(root@, keys.take(k as int)) is None,
            },
        decreases path@.len() - k,
    {
        proof {
            assert(keys.take(k as int + 1).drop_last() =~= keys.take(k as int));
            assert(keys.take(k as int + 1).last() == path@[k as int]@);
        }
        current = match current {
            Some(Json::Object(entries)) => get(entries, path[k].as_str()),
            _ => None,
        };
        k += 1;
    }
    assert(keys.take(k as int) =~= keys);
    current
}

/// A value as a cell of a type.
fn to_cell(t: &DataType, v: &Json) -> (c: Option<Cell>)
    ensures
        cell_view(c) == as_cell(t@, v@),
{
    match (t, v) {
        (DataType::Utf8, Json::Text(s)) => Some(Cell::Text(s.clone())),
        (DataType::Int64, Json::Number(Some(n), _)) => Some(Cell::Int64(*n)),
        (DataType::Float64, Json::Number(_, Some(bits))) => Some(Cell::Float64(*bits)),
        (DataType::Boolean, Json::Bool(b)) => Some(Cell::Boolean(*b)),
        _ => None,
    }
}

/// The column of a field, and the number of its mismatches.
fn build_column(rows: &Vec<Option<Json>>, field: &Field) -> (r: (Column, u64))
    requires
        is_target(field@.data_type),
    ensures
        r.0@ == field_column(row_views(rows@), field@),
        r.1 == field_mismatches(row_views(rows@), field@),
        r.1 <= rows@.len(),
{
    let ghost views = row_views(rows@);
    let ghost wrong = |i: int| is_mismatch(views[i], field@);
    let ghost target = field_column(views, field@);
    let path = split_path(field.name.as_str());
    let mut cells: Vec<Option<Cell>> = Vec::new();
    let mut mismatches: u64 = 0;
    let mut i: usize = 0;
    while i < rows.len()
        invariant
            i <= rows@.len(),
            cells@.len() == i,
            mismatches <= i,
            is_target(field@.data_type),
            views == row_views(rows@),
            wrong == (|i: int| is_mismatch(views[i], field@)),
            target == field_column(views, field@),
            string_views(path@) == path_of(field@.name),
            mismatches == rows_where(i as nat, wrong).len(),
            forall|j: int|
                0 <= j < i ==> cell_view(#[trigger] cells@[j]) == target.cells[j] && fits_or_null(
                    field@.data_type,
                    cell_view(cells@[j]),
                ),
        decreases rows@.len() - i,
    {
        let value = match &rows[i] {
            Some(root) => match root {
                Json::Object(_) => walk(root, &path),
                _ => None,
            },
            None => None,
        };
        assert(match value {
            Some(v) => field_value(views[i as int], field@) == Some(v@),
            None => field_value(views[i as int], field@) is None,
        });
        match value {
            Some(v) => {
                let cell = to_cell(&field.data_type, v);
                let null = match v {
                    Json::Null => true,
                    _ => false,
                };
                if cell.is_none() && !null {
                    assert(wrong(i as int));
                    mismatches += 1;
                } else {
                    assert(!wrong(i as int));
                }
                cells.push(cell);
            },
            None => {
                assert(!wrong(i as int));
                cells.push(None);
            },
        }
        i += 1;
    }
    proof {
        assert(cells@.map_values(|c: Option<Cell>| cell_view(c)) =~= target.cells);
    }
    (Column::try_new(field.data_type.clone(), cells).unwrap(), mismatches)
}

/// No name has more mismatches than there are rows and fields.
proof fn lemma_mismatch_bound(
    rows: Seq<Option<JsonView>>,
    fields: Seq<FieldView>,
    name: Seq<char>,
)
    ensures
        mismatch_count(rows, fields, name) <= rows.len() * fields.len(),
    decreases fields.len(),
{
    if fields.len() > 0 {
        lemma_mismatch_bound(rows, fields.drop_last(), name);
        lemma_rows_where(rows.len(), |i: int| is_mismatch(rows[i], fields.last()));
        assert(rows.len() * fields.len() == rows.len() * (fields.len() - 1) + rows.len())
            by (nonlinear_arith);
    }
}

/// Whether pairs list, once each, the names with mismatches and their counts.
spec fn lists_mismatches(
    pairs: Seq<(String, u64)>,
    rows: Seq<Option<JsonView>>,
    fields: Seq<FieldView>,
) -> bool {
    &&& forall|i: int, j: int|
        0 <= i < j < pairs.len() ==> (#[trigger] pairs[i]).0@ != (#[trigger] pairs[j]).0@
    &&& forall|i: int|
        0 <= i < pairs.len() ==> (#[trigger] pairs[i]).1 == mismatch_count(
            rows,
            fields,
            pairs[i].0@,
        ) && pairs[i].1 > 0
    &&& forall|name: Seq<char>|
        #[trigger] mismatch_count(rows, fields, name) > 0 ==> exists|i: int|
            0 <= i < pairs.len() && (#[trigger] pairs[i]).0@ == name
}

/// Such pairs stand for the counts by name.
proof fn lemma_counts(
    pairs: Seq<(String, u64)>,
    rows: Seq<Option<JsonView>>,
    fields: Seq<FieldView>,
)
    requires
        lists_mismatches(pairs, rows, fields),
    ensures
        counts_of(pairs) == stats_of(rows, fields).type_mismatches,
{
    let counts = counts_of(pairs);
    let expected = stats_of(rows, fields).type_mismatches;
    assert forall|name: Seq<char>| #[trigger] counts.contains_key(name) == expected.contains_key(
        name,
    ) by {
        if counts.contains_key(name) {
            let i = choose|i: int| 0 <= i < pairs.len() && (#[trigger] pairs[i]).0@ == name;
            assert(pairs[i].1 > 0);
        }
    }
    assert forall|name: Seq<char>| #[trigger] counts.contains_key(name) implies counts[name]
        == expected[name] by {
        let p = |i: int| pairs[i].0@ == name;
        let i = choose|i: int| 0 <= i < pairs.len() && (#[trigger] pairs[i]).0@ == name;
        assert(p(i));
        lemma_first_where(pairs.len(), p);
        let f = first_where(pairs.len(), p)->0;
        assert(p(f));
        assert(pairs[f].1 == mismatch_count(rows, fields, pairs[f].0@));
    }
    assert(counts =~= expected);
}

/// Adds a field's mismatches to those listed.
fn add_mismatches(
    pairs: &mut Vec<(String, u64)>,
    name: &str,
    count: u64,
    Ghost(rows): Ghost<Seq<Option<JsonView>>>,
    Ghost(fields): Ghost<Seq<FieldView>>,
)
    requires
        fields.len() > 0,
        fields.last().name == name@,
        field_mismatches(rows, fields.last()) == count,
        lists_mismatches(old(pairs)@, rows, fields.drop_last()),
        rows.len() * fields.len() <= u64::MAX,
    ensures
        lists_mismatches(final(pairs)@, rows, fields),
{
    let ghost before = pairs@;
    let ghost fewer = fields.drop_last();
    if count == 0 {
        assert forall|other: Seq<char>| #[trigger] mismatch_count(rows, fields, other)
            == mismatch_count(rows, fewer, other) by {}
        return;
    }
    let mut i: usize = 0;
    while i < pairs.len()
        invariant
            i <= pairs@.len(),
            pairs@ == before,
            fewer == fields.drop_last(),
            fields.len() > 0,
            count > 0,
            fields.last().name == name@,
            field_mismatches(rows, fields.last()) == count,
            lists_mismatches(before, rows, fewer),
            rows.len() * fields.len() <= u64::MAX,
            forall|j: int| 0 <= j < i ==> (#[trigger] before[j]).0@ != name@,
        decreases before.len() - i,
    {
        if text_eq(pairs[i].0.as_str(), name) {
            let ghost at = i as int;
            proof {
                lemma_mismatch_bound(rows, fields, name@);
                assert(before[at].1 == mismatch_count(rows, fewer, before[at].0@));
            }
            let listed = pairs[i].0.clone();
            let total = pairs[i].1 + count;
            pairs.set(i, (listed, total));
            proof {
                let after = pairs@;
                assert forall|j: int| 0 <= j < after.len() implies (#[trigger] after[j]).0@
                    == before[j].0@ && after[j].1 == mismatch_count(rows, fields, after[j].0@)
                    && after[j].1 > 0 by {
                    assert(before[j].1 == mismatch_count(rows, fewer, before[j].0@));
                    if j < at {
                        assert(before[j].0@ != before[at].0@);
                    } else if at < j {
                        assert(before[at].0@ != before[j].0@);
                    }
                }
                assert forall|other: Seq<char>| #[trigger] mismatch_count(
                    rows,
                    fields,
                    other,
                ) > 0 implies exists|j: int| 0 <= j < after.len() && (#[trigger] after[j]).0@
                    == other by {
                    if other == name@ {
                        assert(after[at].0@ == other);
                    } else {
                        assert(mismatch_count(rows, fewer, other) > 0);
                        let j = choose|j: int|
                            0 <= j < before.len() && (#[trigger] before[j]).0@ == other;
                        assert(after[j].0@ == other);
                    }
                }
                assert forall|j: int, k: int| 0 <= j < k < after.len() implies (
                #[trigger] after[j]).0@ != (#[trigger] after[k]).0@ by {
                    assert(before[j].0@ != before[k].0@);
                }
            }
            return;
        }
        i += 1;
    }
    pairs.push((name.to_owned(), count));
    proof {
        let after = pairs@;
        let last = before.len() as int;
        assert(mismatch_count(rows, fewer, name@) == 0);
        assert forall|j: int| 0 <= j < after.len() implies (#[trigger] after[j]).1
            == mismatch_count(rows, fields, after[j].0@) && after[j].1 > 0 by {
            if j < last {
                assert(after[j] == before[j]);
                assert(before[j].1 == mismatch_count(rows, fewer, before[j].0@));
            }
        }
        assert forall|j: int, k: int| 0 <= j < k < after.len() implies (#[trigger] after[j]).0@ != (
        #[trigger] after[k]).0@ by {
            assert(after[j] == before[j]);
            if k < last {
                assert(after[k] == before[k]);
            }
        }
        assert forall|other: Seq<char>| #[trigger] mismatch_count(
            rows,
            fields,
            other,
        ) > 0 implies exists|j: int| 0 <= j < after.len() && (#[trigger] after[j]).0@
            == other by {
            if other == name@ {
                assert(after[last].0@ == other);
            } else {
                assert(mismatch_count(rows, fewer, other) > 0);
                let j = choose|j: int| 0 <= j < before.len() && (#[trigger] before[j]).0@ == other;
                assert(after[j].0@ == other);
            }
        }
    }
}

/// The number of rows that are no JSON object.
fn count_malformed(rows: &Vec<Option<Json>>) -> (n: u64)
    ensures
        n == malformed_count(row_views(rows@)),
{
    let ghost views = row_views(rows@);
    let ghost bad = |i: int| is_malformed(views[i]);
    let mut n: u64 = 0;
    let mut i: usize = 0;
    while i < rows.len()
        invariant
            i <= rows@.len(),
            n <= i,
            views == row_views(rows@),
            bad == (|i: int| is_malformed(views[i])),
            n == rows_where(i as nat, bad).len(),
        decreases rows@.len() - i,
    {
        let object = match &rows[i] {
            Some(Json::Object(_)) => true,
            _ => false,
        };
        if !object {
            assert(bad(i as int));
            n += 1;
        } else {
            assert(!bad(i as int));
        }
        i += 1;
    }
    n
}

/// [`normalize_json`] on rows that are parsed; a row that is no JSON, or null, is `None`.
pub fn normalize_parsed(
    rows: &Vec<Option<Json>>,
    schema: &Schema,
    version: NormalizeVersion,
) -> (r: Result<(RecordBatch, NormalizeStats), Error>)
    requires
        rows@.len() * schema@.len() <= u64::MAX,
    ensures
        same_outcome(r, normalize_outcome(row_views(rows@), schema@)),
        r matches Ok((_, stats)) ==> stats.wf(),
{
    let _ = version;
    let ghost views = row_views(rows@);
    let ghost fields = schema@;
    let ghost unsupported = |i: int| !is_target(fields[i].data_type);
    let mut i: usize = 0;
    while i < schema.fields.len()
        invariant
            i <= schema.fields@.len() == fields.len(),
            fields == schema@,
            unsupported == (|i: int| !is_target(fields[i].data_type)),
            forall|j: int| 0 <= j < i ==> !#[trigger] unsupported(j),
        decreases schema.fields@.len() - i,
    {
        let t = &schema.fields[i].data_type;
        assert(fields[i as int].data_type == t@);
        let good = match t {
            DataType::Utf8 | DataType::Int64 | DataType::Float64 | DataType::Boolean => true,
            _ => false,
        };
        if !good {
            proof {
                assert(unsupported(i as int));
                lemma_first_where_is(fields.len(), unsupported, i as int);
            }
            return Err(Error::unsupported_type(t.name().as_str()));
        }
        assert(!unsupported(i as int));
        i += 1;
    }
    proof {
        lemma_first_where(fields.len(), unsupported);
    }
    let ghost target = fields.map_values(|f: FieldView| field_column(views, f));
    let ghost over = fields.map_values(|f: FieldView| field_over(views, f));
    let mut columns: Vec<Column> = Vec::new();
    let mut out_fields: Vec<Field> = Vec::new();
    let mut pairs: Vec<(String, u64)> = Vec::new();
    let mut k: usize = 0;
    assert(lists_mismatches(pairs@, views, fields.take(0)));
    while k < schema.fields.len()
        invariant
            k <= schema.fields@.len() == fields.len(),
            columns@.len() == out_fields@.len() == k,
            fields == schema@,
            views == row_views(rows@),
            target == fields.map_values(|f: FieldView| field_column(views, f)),
            over == fields.map_values(|f: FieldView| field_over(views, f)),
            rows@.len() * fields.len() <= u64::MAX,
            unsupported == (|i: int| !is_target(fields[i].data_type)),
            forall|j: int| 0 <= j < fields.len() ==> !#[trigger] unsupported(j),
            lists_mismatches(pairs@, views, fields.take(k as int)),
            forall|j: int| 0 <= j < k ==> (#[trigger] columns@[j])@ == target[j],
            forall|j: int| 0 <= j < k ==> (#[trigger] out_fields@[j])@ == over[j],
        decreases schema.fields@.len() - k,
    {
        let field = &schema.fields[k];
        assert(fields[k as int] == field@);
        assert(!unsupported(k as int));
        let (column, mismatches) = build_column(rows, field);
        proof {
            let done = fields.take(k as int + 1);
            assert(done.drop_last() =~= fields.take(k as int));
            assert(done.last() == field@);
            assert(rows@.len() * done.len() <= rows@.len() * fields.len()) by (nonlinear_arith)
                requires
                    done.len() <= fields.len(),
            ;
        }
        add_mismatches(
            &mut pairs,
            field.name.as_str(),
            mismatches,
            Ghost(views),
            Ghost(fields.take(k as int + 1)),
        );
        let nullable = field.nullable || column.has_null();
        out_fields.push(Field { nullable, ..field.clone() });
        columns.push(column);
        k += 1;
    }
    proof {
        assert(fields.take(k as int) =~= fields);
        lemma_counts(pairs@, views, fields);
        assert(columns@.map_values(|c: Column| c@) =~= target);
        assert(out_fields@.map_values(|f: Field| f@) =~= over);
        lemma_columns_make_a_batch(over, target, rows@.len());
    }
    let rows_malformed = count_malformed(rows);
    let out_schema = Schema { fields: out_fields };
    let batch = RecordBatch::try_new_with_row_count(out_schema, columns, rows.len()).unwrap();
    Ok((batch, NormalizeStats { rows_malformed, type_mismatches: pairs }))
}

/// Parses JSON texts, one object per row, into columns.
///
/// A field's name is a path of keys separated by dots. The supported types are `Utf8`, `Int64`,
/// `Float64` and `Boolean`.
///
/// A row that is null, is no JSON or no object is null in every column and counts as malformed.
/// A path that leads to nothing, or to a JSON null, is null in its column and does not count. One
/// that leads to a value of another kind is null and counts for its column. The counts are of 64
/// bits, which hold the number of rows times that of fields.
///
/// The batch has a row for each text, also where the schema has no fields, and its fields are
/// those of the schema, except that one whose column has a null is nullable.
///
/// Fails with `UnsupportedType` for the first field of another type, and in no other case.
pub fn normalize_json(
    json: &Vec<Option<String>>,
    schema: &Schema,
    version: NormalizeVersion,
) -> (r: Result<(RecordBatch, NormalizeStats), Error>)
    requires
        json@.len() * schema@.len() <= u64::MAX,
    ensures
        same_outcome(
            r,
            normalize_outcome(
                text_values(json@).map_values(|t: Option<Seq<char>>| row_json(t)),
                schema@,
            ),
        ),
        r matches Ok((_, stats)) ==> stats.wf(),
{
    let ghost views = text_values(json@).map_values(|t: Option<Seq<char>>| row_json(t));
    let mut rows: Vec<Option<Json>> = Vec::new();
    let mut i: usize = 0;
    while i < json.len()
        invariant
            i <= json@.len(),
            rows@.len() == i,
            views == text_values(json@).map_values(|t: Option<Seq<char>>| row_json(t)),
            forall|j: int| 0 <= j < i ==> #[trigger] row_views(rows@)[j] == views[j],
        decreases json@.len() - i,
    {
        let ghost before = rows@;
        let row = match &json[i] {
            Some(text) => match parse_value(text.as_str()) {
                Some(v) => Some(lift(&v)),
                None => None,
            },
            None => None,
        };
        rows.push(row);
        proof {
            assert forall|j: int| 0 <= j < i + 1 implies #[trigger] row_views(rows@)[j]
                == views[j] by {
                if j < i {
                    assert(row_views(rows@)[j] == row_views(before)[j]);
                } else {
                    assert(text_values(json@)[j] == match json@[j] {
                        Some(s) => Some(s@),
                        None => None,
                    });
                }
            }
        }
        i += 1;
    }
    assert(row_views(rows@) =~= views);
    normalize_parsed(&rows, schema, version)
}

/// A version is found again by its name.
pub proof fn law_normalize_version_names(version: NormalizeVersion)
    ensures
        normalize_version_named(normalize_version_name(version)) == Some(version),
{
}

/// A malformed row is null in every column and counts for none of them.
pub proof fn law_malformed_rows_are_null(row: Option<JsonView>, field: FieldView)
    requires
        is_malformed(row),
    ensures
        field_cell(row, field) is None,
        !is_mismatch(row, field),
{
}

/// A path that leads to nothing or to a JSON null is null in its column and does not count; one
/// that leads to anything else is null exactly where it counts.
pub proof fn law_what_counts_as_a_mismatch(row: Option<JsonView>, field: FieldView)
    ensures
        match field_value(row, field) {
            None => field_cell(row, field) is None && !is_mismatch(row, field),
            Some(JsonView::Null) => field_cell(row, field) is None && !is_mismatch(row, field),
            Some(_) => is_mismatch(row, field) <==> field_cell(row, field) is None,
        },
{
}

/// No type takes an object or an array.
pub proof fn law_nested_values_never_fit(t: DataTypeView, v: JsonView)
    requires
        v is Object || v is Array,
    ensures
        as_cell(t, v) is None,
{
}

/// A name without a dot is a path of one key.
pub proof fn law_plain_name_is_one_key(name: Seq<char>)
    requires
        !name.contains('.'),
    ensures
        path_of(name) == seq![name],
    decreases name.len(),
{
    if name.len() > 0 {
        let rest = name.drop_last();
        assert(!rest.contains('.')) by {
            if rest.contains('.') {
                let i = choose|i: int| 0 <= i < rest.len() && rest[i] == '.';
                assert(name[i] == '.');
            }
        }
        law_plain_name_is_one_key(rest);
        assert(name[name.len() - 1] == name.last());
        assert(path_of(name) =~= seq![rest.push(name.last())]);
        assert(rest.push(name.last()) =~= name);
    } else {
        assert(name =~= Seq::empty());
    }
}

/// A path has at least one key.
proof fn lemma_path_not_empty(name: Seq<char>)
    ensures
        path_of(name).len() > 0,
    decreases name.len(),
{
    if name.len() > 0 {
        lemma_path_not_empty(name.drop_last());
    }
}

/// A dot between two names joins their paths.
pub proof fn law_dots_join_paths(a: Seq<char>, b: Seq<char>)
    ensures
        path_of(a.push('.') + b) == path_of(a) + path_of(b),
    decreases b.len(),
{
    let name = a.push('.') + b;
    if b.len() == 0 {
        assert(name =~= a.push('.'));
        assert(name.drop_last() =~= a);
        assert(path_of(name) =~= path_of(a) + path_of(b));
    } else {
        let rest = b.drop_last();
        assert(name.drop_last() =~= a.push('.') + rest);
        assert(name.last() == b.last());
        law_dots_join_paths(a, rest);
        lemma_path_not_empty(rest);
        let (x, y) = (path_of(a), path_of(rest));
        assert((x + y).drop_last() =~= x + y.drop_last());
        assert((x + y).last() == y.last());
        assert(path_of(name) =~= x + path_of(b));
    }
}

/// Values are looked up key by key: a path in two parts leads where its second part leads from
/// where the first one does.
pub proof fn law_paths_are_followed_in_order(
    root: JsonView,
    a: Seq<Seq<char>>,
    b: Seq<Seq<char>>,
)
    ensures
        value_at(root, a + b) == (match value_at(root, a) {
            Some(v) => value_at(v, b),
            None => None,
        }),
    decreases b.len(),
{
    if b.len() == 0 {
        assert(a + b =~= a);
    } else {
        assert((a + b).drop_last() =~= a + b.drop_last());
        law_paths_are_followed_in_order(root, a, b.drop_last());
    }
}

/// With fields of supported types normalizing succeeds, whatever the rows hold: the batch has
/// as many rows, and its fields are those given, but for nullable ones where a null arises.
pub proof fn law_bad_rows_do_not_fail(rows: Seq<Option<JsonView>>, fields: Seq<FieldView>)
    requires
        forall|i: int| 0 <= i < fields.len() ==> is_target((#[trigger] fields[i]).data_type),
    ensures
        match normalize_outcome(rows, fields) {
            Ok((batch, stats)) => {
                &&& batch.wf()
                &&& batch.rows == rows.len()
                &&& batch.fields.len() == fields.len()
                &&& forall|i: int|
                    0 <= i < fields.len() ==> {
                        &&& (#[trigger] batch.fields[i]).name == fields[i].name
                        &&& batch.fields[i].data_type == fields[i].data_type
                        &&& fields[i].nullable ==> batch.fields[i].nullable
                        &&& batch.fields[i].nullable ==> fields[i].nullable
                            || batch.columns[i].has_null()
                    }
                &&& stats == stats_of(rows, fields)
            },
            Err(_) => false,
        },
{
    lemma_first_where(fields.len(), |i: int| !is_target(fields[i].data_type));
}

/// Where all fields are nullable, the batch has the fields given.
pub proof fn law_nullable_fields_are_kept(rows: Seq<Option<JsonView>>, fields: Seq<FieldView>)
    requires
        forall|i: int|
            0 <= i < fields.len() ==> is_target((#[trigger] fields[i]).data_type)
                && fields[i].nullable,
    ensures
        match normalize_outcome(rows, fields) {
            Ok((batch, _)) => batch.fields == fields,
            Err(_) => false,
        },
{
    lemma_first_where(fields.len(), |i: int| !is_target(fields[i].data_type));
    assert(fields.map_values(|f: FieldView| field_over(rows, f)) =~= fields);
}

/// The value that a row has under a name: where the row is an object, what the name's path leads
/// to.
pub open spec fn value_in(row: Option<JsonView>, name: Seq<char>) -> Option<JsonView> {
    match row {
        Some(JsonView::Object(entries)) => value_at(JsonView::Object(entries), path_of(name)),
        _ => None,
    }
}

/// A path without keys leads to where it starts. A path of one key leads from an object to the
/// first entry with that key, where there is one, and from anything else nowhere.
pub proof fn law_one_key_leads_one_step(root: JsonView, key: Seq<char>)
    ensures
        value_at(root, Seq::empty()) == Some(root),
        match root {
            JsonView::Object(entries) => match value_at(root, seq![key]) {
                Some(v) => exists|i: int|
                    {
                        &&& 0 <= i < entries.len()
                        &&& #[trigger] entries[i] == (key, v)
                        &&& forall|j: int| 0 <= j < i ==> (#[trigger] entries[j]).0 != key
                    },
                None => forall|j: int| 0 <= j < entries.len() ==> (#[trigger] entries[j]).0 != key,
            },
            _ => value_at(root, seq![key]) is None,
        },
{
    assert(seq![key].drop_last() =~= Seq::empty());
    assert(value_at(root, Seq::empty()) == Some(root));
    assert(seq![key].last() == key);
    if let JsonView::Object(entries) = root {
        lemma_entry(entries, key);
    }
}

/// The value of a key is that of the first entry with the key.
proof fn lemma_entry(entries: Seq<(Seq<char>, JsonView)>, key: Seq<char>)
    ensures
        match entry(entries, key) {
            Some(v) => exists|i: int|
                {
                    &&& 0 <= i < entries.len()
                    &&& #[trigger] entries[i] == (key, v)
                    &&& forall|j: int| 0 <= j < i ==> (#[trigger] entries[j]).0 != key
                },
            None => forall|j: int| 0 <= j < entries.len() ==> (#[trigger] entries[j]).0 != key,
        },
{
    let p = has_key(entries, key);
    lemma_first_where(entries.len(), p);
    match first_where(entries.len(), p) {
        Some(i) => {
            assert(p(i));
            assert(entries[i] == (key, entries[i].1));
            assert forall|j: int| 0 <= j < i implies (#[trigger] entries[j]).0 != key by {
                assert(!p(j));
            }
        },
        None => {
            assert forall|j: int| 0 <= j < entries.len() implies (#[trigger] entries[j]).0
                != key by {
                assert(!p(j));
            }
        },
    }
}

/// A row is what parsing its text gives, and nothing where there is no text or it is no JSON.
pub proof fn law_rows_are_what_parsing_gives(text: Seq<char>, v: Value)
    ensures
        row_json(None) is None,
        parsed(text) == Some(v) ==> row_json(Some(text)) == Some(json_of(v)),
        parsed(text) is None ==> row_json(Some(text)) is None,
{
}

/// Normalizing succeeds exactly where every field is of one of the four types, and reports the
/// first type that is not.
pub proof fn law_when_normalizing_succeeds(
    rows: Seq<Option<JsonView>>,
    fields: Seq<FieldView>,
)
    ensures
        ({
            let supported = |i: int|
                fields[i].data_type is Utf8 || fields[i].data_type is Int64
                    || fields[i].data_type is Float64 || fields[i].data_type is Boolean;
            match normalize_outcome(rows, fields) {
                Ok(_) => forall|i: int| 0 <= i < fields.len() ==> #[trigger] supported(i),
                Err(e) => exists|i: int|
                    {
                        &&& 0 <= i < fields.len()
                        &&& !#[trigger] supported(i)
                        &&& forall|j: int| 0 <= j < i ==> #[trigger] supported(j)
                        &&& e == ErrorView::UnsupportedType(display_name(fields[i].data_type))
                    },
            }
        }),
{
    let supported = |i: int|
        fields[i].data_type is Utf8 || fields[i].data_type is Int64
            || fields[i].data_type is Float64 || fields[i].data_type is Boolean;
    let p = |i: int| !is_target(fields[i].data_type);
    lemma_first_where(fields.len(), p);
    match first_where(fields.len(), p) {
        Some(i) => {
            assert(p(i));
            assert(!supported(i));
            assert forall|j: int| 0 <= j < i implies #[trigger] supported(j) by {
                assert(!p(j));
            }
        },
        None => {
            assert forall|j: int| 0 <= j < fields.len() implies #[trigger] supported(j) by {
                assert(!p(j));
            }
        },
    }
}

/// Each cell holds the very value that the row's JSON has under the field's name: a text, an
/// integer, the bits of a double or a truth value, and nothing where the value is of another
/// kind or there is none.
pub proof fn law_cells_hold_what_the_json_holds(
    rows: Seq<Option<JsonView>>,
    fields: Seq<FieldView>,
    batch: BatchView,
    stats: StatsView,
    f: int,
    i: int,
)
    requires
        normalize_outcome(rows, fields) == Ok::<(BatchView, StatsView), ErrorView>((batch, stats)),
        0 <= f < fields.len(),
        0 <= i < rows.len(),
    ensures
        batch.rows == rows.len(),
        batch.columns.len() == fields.len(),
        batch.columns[f].cells.len() == rows.len(),
        batch.columns[f].data_type == fields[f].data_type,
        ({
            let cell = batch.columns[f].cells[i];
            let held = value_in(rows[i], fields[f].name);
            match fields[f].data_type {
                DataTypeView::Boolean => match cell {
                    Some(CellView::Boolean(b)) => held == Some(JsonView::Bool(b)),
                    Some(_) => false,
                    None => !(held matches Some(JsonView::Bool(_))),
                },
                DataTypeView::Utf8 => match cell {
                    Some(CellView::Text(s)) => held == Some(JsonView::Text(s)),
                    Some(_) => false,
                    None => !(held matches Some(JsonView::Text(_))),
                },
                DataTypeView::Int64 => match cell {
                    Some(CellView::Int64(n)) => held matches Some(JsonView::Number(Some(m), _))
                        && m == n,
                    Some(_) => false,
                    None => !(held matches Some(JsonView::Number(Some(_), _))),
                },
                DataTypeView::Float64 => match cell {
                    Some(CellView::Float64(bits)) => held matches Some(
                        JsonView::Number(_, Some(m)),
                    ) && m == bits,
                    Some(_) => false,
                    None => !(held matches Some(JsonView::Number(_, Some(_)))),
                },
                _ => false,
            }
        }),
{
    lemma_first_where(fields.len(), |i: int| !is_target(fields[i].data_type));
    let p = |i: int| !is_target(fields[i].data_type);
    assert(!p(f));
    assert(batch.columns[f] == field_column(rows, fields[f]));
    assert(batch.columns[f].cells[i] == field_cell(rows[i], fields[f]));
    assert(field_value(rows[i], fields[f]) == value_in(rows[i], fields[f].name));
}

/// The mismatches that statistics list for a name: none where the name is not listed.
pub open spec fn listed(stats: StatsView, name: Seq<char>) -> nat {
    if stats.type_mismatches.contains_key(name) {
        stats.type_mismatches[name]
    } else {
        0
    }
}

/// Fields are normalized each on its own: one more field adds the field, the column and the
/// mismatches that it has alone, and changes nothing else.
pub proof fn law_fields_are_normalized_alone(
    rows: Seq<Option<JsonView>>,
    fields: Seq<FieldView>,
    field: FieldView,
    batch: BatchView,
    stats: StatsView,
    alone: BatchView,
    alone_stats: StatsView,
)
    requires
        normalize_outcome(rows, fields) == Ok::<(BatchView, StatsView), ErrorView>((batch, stats)),
        normalize_outcome(rows, seq![field]) == Ok::<(BatchView, StatsView), ErrorView>(
            (alone, alone_stats),
        ),
    ensures
        match normalize_outcome(rows, fields.push(field)) {
            Ok((both, both_stats)) => {
                &&& both.rows == batch.rows == alone.rows == rows.len()
                &&& alone.fields.len() == 1
                &&& alone.columns.len() == 1
                &&& both.fields == batch.fields.push(alone.fields[0])
                &&& both.columns == batch.columns.push(alone.columns[0])
                &&& both_stats.rows_malformed == stats.rows_malformed
                &&& both_stats.rows_malformed == alone_stats.rows_malformed
                &&& forall|name: Seq<char>|
                    #[trigger] listed(both_stats, name) == listed(stats, name) + listed(
                        alone_stats,
                        name,
                    )
                &&& forall|name: Seq<char>|
                    name != field.name ==> #[trigger] listed(alone_stats, name) == 0
                &&& forall|name: Seq<char>|
                    #[trigger] both_stats.type_mismatches.contains_key(name) <==> listed(
                        both_stats,
                        name,
                    ) > 0
            },
            Err(_) => false,
        },
{
    let more = fields.push(field);
    let one = seq![field];
    lemma_supported_fields(fields);
    lemma_supported_fields(one);
    lemma_supported_fields(more);
    assert(one[0] == field);
    assert forall|i: int| 0 <= i < more.len() implies is_target(
        (#[trigger] more[i]).data_type,
    ) by {
        if i < fields.len() {
            assert(more[i] == fields[i]);
        }
    }
    assert(more.map_values(|f: FieldView| field_over(rows, f)) =~= fields.map_values(
        |f: FieldView| field_over(rows, f),
    ).push(field_over(rows, field)));
    assert(more.map_values(|f: FieldView| field_column(rows, f)) =~= fields.map_values(
        |f: FieldView| field_column(rows, f),
    ).push(field_column(rows, field)));
    assert(more.drop_last() =~= fields);
    assert(one.drop_last() =~= Seq::empty());
    assert forall|name: Seq<char>|
        #[trigger] mismatch_count(rows, one, name) == (if field.name == name {
        field_mismatches(rows, field)
    } else {
        0
    }) by {
        assert(one.last() == field);
        assert(mismatch_count(rows, Seq::empty(), name) == 0);
    }
    assert forall|name: Seq<char>| #[trigger] mismatch_count(rows, more, name) == mismatch_count(
        rows,
        fields,
        name,
    ) + mismatch_count(rows, one, name) by {}
}

/// Normalizing succeeds exactly with fields of supported types.
proof fn lemma_supported_fields(fields: Seq<FieldView>)
    ensures
        first_unsupported(fields) is None <==> forall|i: int|
            0 <= i < fields.len() ==> is_target((#[trigger] fields[i]).data_type),
{
    let p = |i: int| !is_target(fields[i].data_type);
    lemma_first_where(fields.len(), p);
    if first_unsupported(fields) is None {
        assert forall|i: int| 0 <= i < fields.len() implies is_target(
            (#[trigger] fields[i]).data_type,
        ) by {
            assert(!p(i));
        }
    }
}

/// Without rows there are no cells and nothing is counted; without fields nothing but malformed
/// rows is.
pub proof fn law_nothing_to_normalize(rows: Seq<Option<JsonView>>, fields: Seq<FieldView>)
    ensures
        match normalize_outcome(Seq::empty(), fields) {
            Ok((batch, stats)) => {
                &&& batch.rows == 0
                &&& stats.rows_malformed == 0
                &&& forall|name: Seq<char>| #[trigger] listed(stats, name) == 0
            },
            Err(_) => true,
        },
        match normalize_outcome(rows, Seq::empty()) {
            Ok((batch, stats)) => {
                &&& batch.rows == rows.len()
                &&& batch.fields.len() == 0
                &&& batch.columns.len() == 0
                &&& forall|name: Seq<char>| #[trigger] listed(stats, name) == 0
            },
            Err(_) => false,
        },
{
    let none = Seq::<Option<JsonView>>::empty();
    assert forall|name: Seq<char>| #[trigger] mismatch_count(none, fields, name) == 0 by {
        lemma_mismatch_bound(none, fields, name);
    }
    lemma_supported_fields(Seq::empty());
}

/// Rows are normalized each on its own: one more row adds a cell to the field's column and
/// changes no other. It counts as malformed exactly where it is no object, and as a mismatch
/// exactly where it has a value under the field's name that is no null, and the cell is null. The
/// field may hold nulls where it was declared so or its column does.
pub proof fn law_rows_are_normalized_alone(
    rows: Seq<Option<JsonView>>,
    row: Option<JsonView>,
    field: FieldView,
    before: BatchView,
    stats: StatsView,
    after: BatchView,
    after_stats: StatsView,
)
    requires
        normalize_outcome(rows, seq![field]) == Ok::<(BatchView, StatsView), ErrorView>(
            (before, stats),
        ),
        normalize_outcome(rows.push(row), seq![field]) == Ok::<(BatchView, StatsView), ErrorView>(
            (after, after_stats),
        ),
    ensures
        after.rows == rows.len() + 1,
        after.columns.len() == 1,
        after.columns[0].cells.len() == rows.len() + 1,
        after.columns[0].cells.drop_last() == before.columns[0].cells,
        after.fields.len() == 1,
        after.fields[0].name == field.name,
        after.fields[0].data_type == field.data_type,
        after.fields[0].nullable <==> field.nullable || exists|i: int|
            0 <= i < after.columns[0].cells.len() && #[trigger] after.columns[0].cells[i] is None,
        after_stats.rows_malformed == stats.rows_malformed + (if row matches Some(
            JsonView::Object(_),
        ) {
            0int
        } else {
            1int
        }),
        listed(after_stats, field.name) == listed(stats, field.name) + (match value_in(
            row,
            field.name,
        ) {
            None => 0int,
            Some(JsonView::Null) => 0int,
            Some(_) => if after.columns[0].cells.last() is None {
                1int
            } else {
                0int
            },
        }),
{
    let more = rows.push(row);
    let one = seq![field];
    lemma_supported_fields(one);
    assert(one[0] == field);
    assert(one.drop_last() =~= Seq::empty());
    assert(one.last() == field);
    assert(mismatch_count(rows, Seq::empty(), field.name) == 0);
    assert(mismatch_count(more, Seq::empty(), field.name) == 0);
    let n = rows.len();
    let bad = |i: int| is_malformed(rows[i]);
    let bad_more = |i: int| is_malformed(more[i]);
    let wrong = |i: int| is_mismatch(rows[i], field);
    let wrong_more = |i: int| is_mismatch(more[i], field);
    lemma_rows_where_same(n, bad, bad_more);
    lemma_rows_where_same(n, wrong, wrong_more);
    assert(more[n as int] == row);
    assert(field_value(row, field) == value_in(row, field.name));
    assert(after.columns[0] == field_column(more, field));
    assert(before.columns[0] == field_column(rows, field));
    assert(after.columns[0].cells.drop_last() =~= before.columns[0].cells);
    assert(after.columns[0].cells.last() == field_cell(row, field));
    assert(rows_where(n + 1, bad_more).len() == rows_where(n, bad).len() + if bad_more(n as int) {
        1int
    } else {
        0int
    });
    assert(rows_where(n + 1, wrong_more).len() == rows_where(n, wrong).len() + if wrong_more(
        n as int,
    ) {
        1int
    } else {
        0int
    });
    assert(bad_more(n as int) == is_malformed(row));
    assert(wrong_more(n as int) == is_mismatch(row, field));
    assert(field_mismatches(more, field) == rows_where(n + 1, wrong_more).len());
    assert(field_mismatches(rows, field) == rows_where(n, wrong).len());
    assert(malformed_count(more) == rows_where(n + 1, bad_more).len());
    assert(mismatch_count(more, one, field.name) == field_mismatches(more, field));
    assert(mismatch_count(rows, one, field.name) == field_mismatches(rows, field));
}

/// A version has one name, and a name that is no version's has no version.
pub proof fn law_normalize_names_are_exact(name: Seq<char>, version: NormalizeVersion)
    ensures
        normalize_version_named(name) == Some(version) <==> name == normalize_version_name(
            version,
        ),
        normalize_version_name(NormalizeVersion::V1) == "v1"@,
{
}

/// Statistics that list each column once say of it what is listed, and nothing of others.
pub proof fn law_listed_mismatches(stats: NormalizeStats, name: Seq<char>, i: int)
    requires
        stats.wf(),
    ensures
        stats@.rows_malformed == stats.rows_malformed,
        0 <= i < stats.type_mismatches@.len() ==> {
            let (column, count) = stats.type_mismatches@[i];
            &&& stats@.type_mismatches.contains_key(column@)
            &&& stats@.type_mismatches[column@] == count
        },
        stats@.type_mismatches.contains_key(name) <==> exists|k: int|
            0 <= k < stats.type_mismatches@.len() && (#[trigger] stats.type_mismatches@[k]).0@
                == name,
{
    let pairs = stats.type_mismatches@;
    if 0 <= i < pairs.len() {
        let p = |k: int| pairs[k].0@ == pairs[i].0@;
        lemma_first_where(pairs.len(), p);
        assert(p(i));
        let f = first_where(pairs.len(), p)->0;
        assert(p(f));
        if f < i {
            assert(pairs[f].0@ != pairs[i].0@);
        }
    }
}

/// Rows are read as they are: the JSON of each, in order, and nothing where there is none.
pub proof fn law_rows_are_read_as_they_are(rows: Seq<Option<Json>>, i: int)
    ensures
        row_views(rows).len() == rows.len(),
        0 <= i < rows.len() && rows[i] is None ==> row_views(rows)[i] is None,
        0 <= i < rows.len() && rows[i] is Some ==> row_views(rows)[i] == Some(rows[i]->0@),
{
}

/// A JSON value is modelled as what it is: its kind, and what it holds, item by item and entry by
/// entry in order.
pub proof fn law_values_are_read_as_they_are(v: Json, i: int)
    ensures
        match v {
            Json::Null => v@ is Null,
            Json::Bool(b) => v@ == JsonView::Bool(b),
            Json::Number(integer, double) => v@ == JsonView::Number(integer, double),
            Json::Text(s) => v@ == JsonView::Text(s@),
            Json::Array(items) => {
                &&& v@ is Array
                &&& v@->Array_0.len() == items@.len()
                &&& 0 <= i < items@.len() ==> v@->Array_0[i] == items@[i]@
            },
            Json::Object(entries) => {
                &&& v@ is Object
                &&& v@->Object_0.len() == entries@.len()
                &&& 0 <= i < entries@.len() ==> v@->Object_0[i] == (
                    entries@[i].0@,
                    entries@[i].1@,
                )
            },
        },
{
}

} // verus!
