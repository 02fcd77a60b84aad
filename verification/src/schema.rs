//! Schemas: the names, types and nullability of a batch's columns.
//!
//! The types are Arrow's. A type whose values a kernel reads is a variant of its own; every
//! other Arrow type is carried by the name Arrow displays it under ([`DataType::Other`]).

use crate::hash::{seed_of, xxh3, xxh3_hash, HashVersion};
use crate::text::{
    debug_text, decimal, decimal_text, quoted, signed_decimal, signed_decimal_text, text_eq,
};
use vstd::prelude::*;
use vstd::string::{StrSliceExecFns, StringExecFns};
use vstd::utf8::encode_utf8;

verus! {

/// The unit of a time or timestamp type.
#[derive(Debug, Clone, Copy, PartialEq, Eq, Structural)]
pub enum TimeUnit {
    Second,
    Millisecond,
    Microsecond,
    Nanosecond,
}

/// The type of a column's values.
#[derive(Debug, PartialEq, Eq)]
pub enum DataType {
    Boolean,
    Int8,
    Int16,
    Int32,
    Int64,
    UInt8,
    UInt16,
    UInt32,
    UInt64,
    Float32,
    Float64,
    Utf8,
    LargeUtf8,
    Binary,
    LargeBinary,
    Date32,
    Date64,
    Time32(TimeUnit),
    Time64(TimeUnit),
    /// A point in time, with its time zone where it has one.
    Timestamp(TimeUnit, Option<String>),
    /// Precision and scale.
    Decimal128(u8, i8),
    /// Precision and scale.
    Decimal256(u8, i8),
    /// Any other Arrow type, by the name it is displayed under.
    Other(String),
}

/// The model of [`DataType`].
pub ghost enum DataTypeView {
    Boolean,
    Int8,
    Int16,
    Int32,
    Int64,
    UInt8,
    UInt16,
    UInt32,
    UInt64,
    Float32,
    Float64,
    Utf8,
    LargeUtf8,
    Binary,
    LargeBinary,
    Date32,
    Date64,
    Time32(TimeUnit),
    Time64(TimeUnit),
    Timestamp(TimeUnit, Option<Seq<char>>),
    Decimal128(u8, i8),
    Decimal256(u8, i8),
    Other(Seq<char>),
}

impl View for DataType {
    type V = DataTypeView;

    open spec fn view(&self) -> DataTypeView {
        match self {
            DataType::Boolean => DataTypeView::Boolean,
            DataType::Int8 => DataTypeView::Int8,
            DataType::Int16 => DataTypeView::Int16,
            DataType::Int32 => DataTypeView::Int32,
            DataType::Int64 => DataTypeView::Int64,
            DataType::UInt8 => DataTypeView::UInt8,
            DataType::UInt16 => DataTypeView::UInt16,
            DataType::UInt32 => DataTypeView::UInt32,
            DataType::UInt64 => DataTypeView::UInt64,
            DataType::Float32 => DataTypeView::Float32,
            DataType::Float64 => DataTypeView::Float64,
            DataType::Utf8 => DataTypeView::Utf8,
            DataType::LargeUtf8 => DataTypeView::LargeUtf8,
            DataType::Binary => DataTypeView::Binary,
            DataType::LargeBinary => DataTypeView::LargeBinary,
            DataType::Date32 => DataTypeView::Date32,
            DataType::Date64 => DataTypeView::Date64,
            DataType::Time32(unit) => DataTypeView::Time32(*unit),
            DataType::Time64(unit) => DataTypeView::Time64(*unit),
            DataType::Timestamp(unit, None) => DataTypeView::Timestamp(*unit, None),
            DataType::Timestamp(unit, Some(zone)) => DataTypeView::Timestamp(*unit, Some(zone@)),
            DataType::Decimal128(precision, scale) => DataTypeView::Decimal128(*precision, *scale),
            DataType::Decimal256(precision, scale) => DataTypeView::Decimal256(*precision, *scale),
            DataType::Other(name) => DataTypeView::Other(name@),
        }
    }
}

/// The name of a unit.
pub open spec fn unit_name(unit: TimeUnit) -> Seq<char> {
    match unit {
        TimeUnit::Second => "Second"@,
        TimeUnit::Millisecond => "Millisecond"@,
        TimeUnit::Microsecond => "Microsecond"@,
        TimeUnit::Nanosecond => "Nanosecond"@,
    }
}

/// The name that Arrow displays a type under.
pub open spec fn display_name(t: DataTypeView) -> Seq<char> {
    match t {
        DataTypeView::Boolean => "Boolean"@,
        DataTypeView::Int8 => "Int8"@,
        DataTypeView::Int16 => "Int16"@,
        DataTypeView::Int32 => "Int32"@,
        DataTypeView::Int64 => "Int64"@,
        DataTypeView::UInt8 => "UInt8"@,
        DataTypeView::UInt16 => "UInt16"@,
        DataTypeView::UInt32 => "UInt32"@,
        DataTypeView::UInt64 => "UInt64"@,
        DataTypeView::Float32 => "Float32"@,
        DataTypeView::Float64 => "Float64"@,
        DataTypeView::Utf8 => "Utf8"@,
        DataTypeView::LargeUtf8 => "LargeUtf8"@,
        DataTypeView::Binary => "Binary"@,
        DataTypeView::LargeBinary => "LargeBinary"@,
        DataTypeView::Date32 => "Date32"@,
        DataTypeView::Date64 => "Date64"@,
        DataTypeView::Time32(unit) => "Time32("@ + unit_name(unit) + ")"@,
        DataTypeView::Time64(unit) => "Time64("@ + unit_name(unit) + ")"@,
        DataTypeView::Timestamp(unit, None) => "Timestamp("@ + unit_name(unit) + ", None)"@,
        DataTypeView::Timestamp(unit, Some(zone)) => "Timestamp("@ + unit_name(unit) + ", Some("@
            + debug_text(zone) + "))"@,
        DataTypeView::Decimal128(precision, scale) => "Decimal128("@ + decimal(precision as nat)
            + ", "@ + signed_decimal(scale as int) + ")"@,
        DataTypeView::Decimal256(precision, scale) => "Decimal256("@ + decimal(precision as nat)
            + ", "@ + signed_decimal(scale as int) + ")"@,
        DataTypeView::Other(name) => name,
    }
}

impl TimeUnit {
    /// The unit's name.
    pub fn name(self) -> (s: &'static str)
        ensures
            s@ == unit_name(self),
    {
        match self {
            TimeUnit::Second => "Second",
            TimeUnit::Millisecond => "Millisecond",
            TimeUnit::Microsecond => "Microsecond",
            TimeUnit::Nanosecond => "Nanosecond",
        }
    }
}

impl Clone for DataType {
    fn clone(&self) -> (r: Self)
        ensures
            r == *self,
    {
        match self {
            DataType::Boolean => DataType::Boolean,
            DataType::Int8 => DataType::Int8,
            DataType::Int16 => DataType::Int16,
            DataType::Int32 => DataType::Int32,
            DataType::Int64 => DataType::Int64,
            DataType::UInt8 => DataType::UInt8,
            DataType::UInt16 => DataType::UInt16,
            DataType::UInt32 => DataType::UInt32,
            DataType::UInt64 => DataType::UInt64,
            DataType::Float32 => DataType::Float32,
            DataType::Float64 => DataType::Float64,
            DataType::Utf8 => DataType::Utf8,
            DataType::LargeUtf8 => DataType::LargeUtf8,
            DataType::Binary => DataType::Binary,
            DataType::LargeBinary => DataType::LargeBinary,
            DataType::Date32 => DataType::Date32,
            DataType::Date64 => DataType::Date64,
            DataType::Time32(unit) => DataType::Time32(*unit),
            DataType::Time64(unit) => DataType::Time64(*unit),
            DataType::Timestamp(unit, None) => DataType::Timestamp(*unit, None),
            DataType::Timestamp(unit, Some(zone)) => DataType::Timestamp(*unit, Some(zone.clone())),
            DataType::Decimal128(precision, scale) => DataType::Decimal128(*precision, *scale),
            DataType::Decimal256(precision, scale) => DataType::Decimal256(*precision, *scale),
            DataType::Other(name) => DataType::Other(name.clone()),
        }
    }
}

impl DataType {
    /// Whether two types are the same, parameters and all.
    pub fn same(&self, other: &DataType) -> (r: bool)
        ensures
            r == (self@ == other@),
    {
        match (self, other) {
            (DataType::Boolean, DataType::Boolean) => true,
            (DataType::Int8, DataType::Int8) => true,
            (DataType::Int16, DataType::Int16) => true,
            (DataType::Int32, DataType::Int32) => true,
            (DataType::Int64, DataType::Int64) => true,
            (DataType::UInt8, DataType::UInt8) => true,
            (DataType::UInt16, DataType::UInt16) => true,
            (DataType::UInt32, DataType::UInt32) => true,
            (DataType::UInt64, DataType::UInt64) => true,
            (DataType::Float32, DataType::Float32) => true,
            (DataType::Float64, DataType::Float64) => true,
            (DataType::Utf8, DataType::Utf8) => true,
            (DataType::LargeUtf8, DataType::LargeUtf8) => true,
            (DataType::Binary, DataType::Binary) => true,
            (DataType::LargeBinary, DataType::LargeBinary) => true,
            (DataType::Date32, DataType::Date32) => true,
            (DataType::Date64, DataType::Date64) => true,
            (DataType::Time32(a), DataType::Time32(b)) => *a == *b,
            (DataType::Time64(a), DataType::Time64(b)) => *a == *b,
            (DataType::Timestamp(a, None), DataType::Timestamp(b, None)) => *a == *b,
            (DataType::Timestamp(a, Some(y)), DataType::Timestamp(b, Some(z))) => *a == *b
                && text_eq(y.as_str(), z.as_str()),
            (DataType::Decimal128(p, s), DataType::Decimal128(q, t)) => *p == *q && *s == *t,
            (DataType::Decimal256(p, s), DataType::Decimal256(q, t)) => *p == *q && *s == *t,
            (DataType::Other(y), DataType::Other(z)) => text_eq(y.as_str(), z.as_str()),
            _ => false,
        }
    }

    /// The name that Arrow displays the type under.
    pub fn name(&self) -> (s: String)
        ensures
            s@ == display_name(self@),
    {
        match self {
            DataType::Boolean => "Boolean".to_owned(),
            DataType::Int8 => "Int8".to_owned(),
            DataType::Int16 => "Int16".to_owned(),
            DataType::Int32 => "Int32".to_owned(),
            DataType::Int64 => "Int64".to_owned(),
            DataType::UInt8 => "UInt8".to_owned(),
            DataType::UInt16 => "UInt16".to_owned(),
            DataType::UInt32 => "UInt32".to_owned(),
            DataType::UInt64 => "UInt64".to_owned(),
            DataType::Float32 => "Float32".to_owned(),
            DataType::Float64 => "Float64".to_owned(),
            DataType::Utf8 => "Utf8".to_owned(),
            DataType::LargeUtf8 => "LargeUtf8".to_owned(),
            DataType::Binary => "Binary".to_owned(),
            DataType::LargeBinary => "LargeBinary".to_owned(),
            DataType::Date32 => "Date32".to_owned(),
            DataType::Date64 => "Date64".to_owned(),
            DataType::Time32(unit) => {
                let mut s = "Time32(".to_owned();
                s.append(unit.name());
                s.append(")");
                s
            },
            DataType::Time64(unit) => {
                let mut s = "Time64(".to_owned();
                s.append(unit.name());
                s.append(")");
                s
            },
            DataType::Timestamp(unit, None) => {
                let mut s = "Timestamp(".to_owned();
                s.append(unit.name());
                s.append(", None)");
                s
            },
            DataType::Timestamp(unit, Some(zone)) => {
                let mut s = "Timestamp(".to_owned();
                s.append(unit.name());
                s.append(", Some(");
                s.append(quoted(zone.as_str()).as_str());
                s.append("))");
                s
            },
            DataType::Decimal128(precision, scale) => {
                let mut s = "Decimal128(".to_owned();
                s.append(decimal_text(*precision as u64).as_str());
                s.append(", ");
                s.append(signed_decimal_text(*scale as i64).as_str());
                s.append(")");
                s
            },
            DataType::Decimal256(precision, scale) => {
                let mut s = "Decimal256(".to_owned();
                s.append(decimal_text(*precision as u64).as_str());
                s.append(", ");
                s.append(signed_decimal_text(*scale as i64).as_str());
                s.append(")");
                s
            },
            DataType::Other(name) => name.clone(),
        }
    }
}

/// One column's name, type and nullability.
#[derive(Debug, PartialEq, Eq)]
pub struct Field {
    /// The column's name.
    pub name: String,
    /// The type of its values.
    pub data_type: DataType,
    /// Whether it may hold nulls.
    pub nullable: bool,
}

/// The model of [`Field`].
pub ghost struct FieldView {
    pub name: Seq<char>,
    pub data_type: DataTypeView,
    pub nullable: bool,
}

impl View for Field {
    type V = FieldView;

    open spec fn view(&self) -> FieldView {
        FieldView { name: self.name@, data_type: self.data_type@, nullable: self.nullable }
    }
}

impl Clone for Field {
    fn clone(&self) -> (r: Self)
        ensures
            r == *self,
    {
        Field {
            name: self.name.clone(),
            data_type: self.data_type.clone(),
            nullable: self.nullable,
        }
    }
}

impl Field {
    /// A field of a name, a type and whether it may hold nulls.
    pub fn new(name: &str, data_type: DataType, nullable: bool) -> (f: Self)
        ensures
            f@ == (FieldView { name: name@, data_type: data_type@, nullable }),
    {
        Field { name: name.to_owned(), data_type, nullable }
    }
}

/// The fields of a batch, in order. Names may repeat.
#[derive(Debug, PartialEq, Eq)]
pub struct Schema {
    pub fields: Vec<Field>,
}

impl View for Schema {
    type V = Seq<FieldView>;

    open spec fn view(&self) -> Seq<FieldView> {
        self.fields@.map_values(|f: Field| f@)
    }
}

/// Whether no two fields share a name.
pub open spec fn names_are_distinct(fields: Seq<FieldView>) -> bool {
    forall|i: int, j: int|
        0 <= i < j < fields.len() ==> (#[trigger] fields[i]).name != (#[trigger] fields[j]).name
}

/// Whether field `i` is the first with the given name.
pub open spec fn is_index_of(fields: Seq<FieldView>, name: Seq<char>, i: int) -> bool {
    &&& 0 <= i < fields.len()
    &&& fields[i].name == name
    &&& forall|j: int| 0 <= j < i ==> (#[trigger] fields[j]).name != name
}

/// The position of the first field with the given name.
pub open spec fn index_of(fields: Seq<FieldView>, name: Seq<char>) -> Option<int> {
    if exists|i: int| is_index_of(fields, name, i) {
        Some(choose|i: int| is_index_of(fields, name, i))
    } else {
        None
    }
}

/// Only one field is the first with a name.
pub proof fn lemma_index_of(fields: Seq<FieldView>, name: Seq<char>, i: int)
    requires
        is_index_of(fields, name, i),
    ensures
        index_of(fields, name) == Some(i),
{
    let c = choose|k: int| is_index_of(fields, name, k);
    assert(is_index_of(fields, name, c));
    if c < i {
        assert(fields[c].name != name);
    } else if i < c {
        assert(fields[i].name != name);
    }
}

/// A name stands for the first field that has it, and for none where no field has it.
pub proof fn law_names_stand_for_first_fields(fields: Seq<FieldView>, name: Seq<char>)
    ensures
        match index_of(fields, name) {
            Some(i) => {
                &&& 0 <= i < fields.len()
                &&& fields[i].name == name
                &&& forall|j: int| 0 <= j < i ==> (#[trigger] fields[j]).name != name
            },
            None => forall|j: int| 0 <= j < fields.len() ==> (#[trigger] fields[j]).name != name,
        },
{
    if let Some(i) = index_of(fields, name) {
        assert(is_index_of(fields, name, i));
    } else {
        assert forall|j: int| 0 <= j < fields.len() implies (#[trigger] fields[j]).name
            != name by {
            lemma_has_index(fields, j);
        }
    }
}

/// A name that occurs has a first field.
pub proof fn lemma_has_index(fields: Seq<FieldView>, i: int)
    requires
        0 <= i < fields.len(),
    ensures
        index_of(fields, fields[i].name) is Some,
        is_index_of(fields, fields[i].name, index_of(fields, fields[i].name)->0),
    decreases i,
{
    if exists|j: int| 0 <= j < i && (#[trigger] fields[j]).name == fields[i].name {
        let j = choose|j: int| 0 <= j < i && (#[trigger] fields[j]).name == fields[i].name;
        lemma_has_index(fields, j);
    } else {
        assert(is_index_of(fields, fields[i].name, i));
        lemma_index_of(fields, fields[i].name, i);
    }
}

impl Clone for Schema {
    fn clone(&self) -> (r: Self)
        ensures
            r@ == self@,
    {
        let r = Schema { fields: self.fields.clone() };
        assert(r@ =~= self@);
        r
    }
}

impl Schema {
    /// A schema of the fields, in order.
    pub fn new(fields: Vec<Field>) -> (s: Self)
        ensures
            s@ == fields@.map_values(|f: Field| f@),
    {
        Schema { fields }
    }

    /// The position of the first field named `name`.
    pub fn index_of(&self, name: &str) -> (r: Option<usize>)
        ensures
            match r {
                Some(i) => index_of(self@, name@) == Some(i as int) && is_index_of(
                    self@,
                    name@,
                    i as int,
                ),
                None => index_of(self@, name@) is None,
            },
    {
        let mut i: usize = 0;
        while i < self.fields.len()
            invariant
                i <= self.fields@.len(),
                forall|j: int| 0 <= j < i ==> (#[trigger] self@[j]).name != name@,
            decreases self.fields@.len() - i,
        {
            if text_eq(self.fields[i].name.as_str(), name) {
                proof {
                    assert(self@[i as int].name == name@);
                    lemma_index_of(self@, name@, i as int);
                }
                return Some(i);
            }
            assert(self@[i as int].name != name@);
            i += 1;
        }
        proof {
            if exists|k: int| is_index_of(self@, name@, k) {
                let k = choose|k: int| is_index_of(self@, name@, k);
                assert(self@[k].name != name@);
            }
        }
        None
    }
}

/// What is hashed for a field: its name, its type as text, and whether it is nullable.
pub open spec fn field_bytes(f: FieldView) -> Seq<u8> {
    encode_utf8(f.name) + encode_utf8(display_name(f.data_type)) + seq![
        if f.nullable {
            1u8
        } else {
            0u8
        },
    ]
}

/// What is hashed for a schema: its fields, in order.
pub open spec fn schema_bytes(fields: Seq<FieldView>) -> Seq<u8>
    decreases fields.len(),
{
    if fields.len() == 0 {
        Seq::empty()
    } else {
        schema_bytes(fields.drop_last()) + field_bytes(fields.last())
    }
}

/// A hash of a schema's shape: the names of its fields in order, their types and whether they
/// are nullable. These are hashed one after the other with nothing in between, so a name is not
/// kept apart from the type behind it: a field `xU` of `Int64` and a field `x` of `UInt64` have
/// one fingerprint.
pub fn schema_fingerprint(schema: &Schema, version: HashVersion) -> (r: u64)
    ensures
        r == xxh3(seed_of(version), schema_bytes(schema@)),
{
    let mut bytes: Vec<u8> = Vec::new();
    let mut i: usize = 0;
    assert(schema@.take(0) =~= Seq::empty());
    while i < schema.fields.len()
        invariant
            i <= schema.fields@.len(),
            bytes@ == schema_bytes(schema@.take(i as int)),
        decreases schema.fields@.len() - i,
    {
        let field = &schema.fields[i];
        let ghost before = bytes@;
        let mut name = field.name.as_str().as_bytes_vec();
        let mut type_text = field.data_type.name().as_str().as_bytes_vec();
        bytes.append(&mut name);
        bytes.append(&mut type_text);
        bytes.push(if field.nullable { 1 } else { 0 });
        proof {
            let done = schema@.take(i as int + 1);
            assert(done.drop_last() =~= schema@.take(i as int));
            assert(done.last() == field@);
            assert(bytes@ =~= before + field_bytes(field@));
        }
        i += 1;
    }
    assert(schema@.take(i as int) =~= schema@);
    xxh3_hash(version.seed(), bytes.as_slice())
}

/// Whether two schemas have the same names and types.
pub open spec fn same_columns(a: Seq<FieldView>, b: Seq<FieldView>) -> bool {
    &&& a.len() == b.len()
    &&& forall|i: int|
        0 <= i < a.len() ==> (#[trigger] a[i]).name == b[i].name && a[i].data_type
            == b[i].data_type
}

proof fn lemma_same_columns_len(a: Seq<FieldView>, b: Seq<FieldView>)
    requires
        same_columns(a, b),
    ensures
        schema_bytes(a).len() == schema_bytes(b).len(),
    decreases a.len(),
{
    if a.len() > 0 {
        assert(a[a.len() - 1] == a.last());
        assert forall|i: int| 0 <= i < a.len() - 1 implies (#[trigger] a.drop_last()[i]).name
            == b.drop_last()[i].name && a.drop_last()[i].data_type
            == b.drop_last()[i].data_type by {
            assert(a.drop_last()[i] == a[i]);
        }
        lemma_same_columns_len(a.drop_last(), b.drop_last());
    }
}

/// Whether a field is nullable shows in what is hashed.
pub proof fn law_nullability_shows(a: Seq<FieldView>, b: Seq<FieldView>, i: int)
    requires
        same_columns(a, b),
        0 <= i < a.len(),
        a[i].nullable != b[i].nullable,
    ensures
        schema_bytes(a) != schema_bytes(b),
    decreases a.len(),
{
    let n = a.len();
    let (x, y) = (schema_bytes(a.drop_last()), schema_bytes(b.drop_last()));
    assert(a[n - 1] == a.last());
    assert forall|i: int| 0 <= i < a.len() - 1 implies (#[trigger] a.drop_last()[i]).name
        == b.drop_last()[i].name && a.drop_last()[i].data_type == b.drop_last()[i].data_type by {
        assert(a.drop_last()[i] == a[i]);
    }
    lemma_same_columns_len(a.drop_last(), b.drop_last());
    let (p, q) = (field_bytes(a.last()), field_bytes(b.last()));
    assert(p.len() == q.len());
    if i == n - 1 {
        assert(schema_bytes(a)[x.len() + p.len() - 1] == p[p.len() - 1]);
        assert(schema_bytes(b)[y.len() + q.len() - 1] == q[q.len() - 1]);
    } else {
        law_nullability_shows(a.drop_last(), b.drop_last(), i);
        if schema_bytes(a) == schema_bytes(b) {
            assert(x =~= schema_bytes(a).take(x.len() as int));
            assert(y =~= schema_bytes(b).take(x.len() as int));
        }
    }
}

/// A schema's fields are hashed one after the other: one more field adds its name, its type's text
/// and a byte for its nullability at the end. No fields are no bytes.
pub proof fn law_every_field_counts(fields: Seq<FieldView>, f: FieldView)
    ensures
        schema_bytes(Seq::empty()).len() == 0,
        schema_bytes(fields.push(f)) == schema_bytes(fields) + encode_utf8(f.name) + encode_utf8(
            display_name(f.data_type),
        ) + seq![
            if f.nullable {
                1u8
            } else {
                0u8
            },
        ],
{
    assert(fields.push(f).drop_last() =~= fields);
    assert(schema_bytes(fields.push(f)) =~= schema_bytes(fields) + encode_utf8(f.name)
        + encode_utf8(display_name(f.data_type)) + seq![
        if f.nullable {
            1u8
        } else {
            0u8
        },
    ]);
}

/// The texts of the types without a zone or a precision.
pub proof fn law_texts_of_types(name: Seq<char>)
    ensures
        display_name(DataTypeView::Date64) == "Date64"@,
        display_name(DataTypeView::Date32) == "Date32"@,
        display_name(DataTypeView::LargeBinary) == "LargeBinary"@,
        display_name(DataTypeView::Binary) == "Binary"@,
        display_name(DataTypeView::LargeUtf8) == "LargeUtf8"@,
        display_name(DataTypeView::Utf8) == "Utf8"@,
        display_name(DataTypeView::Float64) == "Float64"@,
        display_name(DataTypeView::Float32) == "Float32"@,
        display_name(DataTypeView::UInt64) == "UInt64"@,
        display_name(DataTypeView::UInt32) == "UInt32"@,
        display_name(DataTypeView::UInt16) == "UInt16"@,
        display_name(DataTypeView::UInt8) == "UInt8"@,
        display_name(DataTypeView::Int64) == "Int64"@,
        display_name(DataTypeView::Int32) == "Int32"@,
        display_name(DataTypeView::Int16) == "Int16"@,
        display_name(DataTypeView::Int8) == "Int8"@,
        display_name(DataTypeView::Boolean) == "Boolean"@,
        display_name(DataTypeView::Time32(TimeUnit::Second)) == "Time32(Second)"@,
        display_name(DataTypeView::Time64(TimeUnit::Second)) == "Time64(Second)"@,
        display_name(DataTypeView::Timestamp(TimeUnit::Second, None)) == "Timestamp(Second, None)"@,
        display_name(DataTypeView::Time32(TimeUnit::Millisecond)) == "Time32(Millisecond)"@,
        display_name(DataTypeView::Time64(TimeUnit::Millisecond)) == "Time64(Millisecond)"@,
        display_name(DataTypeView::Timestamp(TimeUnit::Millisecond, None)) == "Timestamp(Millisecond, None)"@,
        display_name(DataTypeView::Time32(TimeUnit::Microsecond)) == "Time32(Microsecond)"@,
        display_name(DataTypeView::Time64(TimeUnit::Microsecond)) == "Time64(Microsecond)"@,
        display_name(DataTypeView::Timestamp(TimeUnit::Microsecond, None)) == "Timestamp(Microsecond, None)"@,
        display_name(DataTypeView::Time32(TimeUnit::Nanosecond)) == "Time32(Nanosecond)"@,
        display_name(DataTypeView::Time64(TimeUnit::Nanosecond)) == "Time64(Nanosecond)"@,
        display_name(DataTypeView::Timestamp(TimeUnit::Nanosecond, None)) == "Timestamp(Nanosecond, None)"@,
        display_name(DataTypeView::Other(name)) == name,
{
    reveal_strlit(")");
    reveal_strlit(", None)");
    reveal_strlit("Microsecond");
    reveal_strlit("Millisecond");
    reveal_strlit("Nanosecond");
    reveal_strlit("Second");
    reveal_strlit("Time32(");
    reveal_strlit("Time32(Microsecond)");
    reveal_strlit("Time32(Millisecond)");
    reveal_strlit("Time32(Nanosecond)");
    reveal_strlit("Time32(Second)");
    reveal_strlit("Time64(");
    reveal_strlit("Time64(Microsecond)");
    reveal_strlit("Time64(Millisecond)");
    reveal_strlit("Time64(Nanosecond)");
    reveal_strlit("Time64(Second)");
    reveal_strlit("Timestamp(");
    reveal_strlit("Timestamp(Microsecond, None)");
    reveal_strlit("Timestamp(Millisecond, None)");
    reveal_strlit("Timestamp(Nanosecond, None)");
    reveal_strlit("Timestamp(Second, None)");
    assert(display_name(DataTypeView::Time32(TimeUnit::Second)) =~= "Time32(Second)"@);
    assert(display_name(DataTypeView::Time64(TimeUnit::Second)) =~= "Time64(Second)"@);
    assert(display_name(DataTypeView::Timestamp(TimeUnit::Second, None)) =~= "Timestamp(Second, None)"@);
    assert(display_name(DataTypeView::Time32(TimeUnit::Millisecond)) =~= "Time32(Millisecond)"@);
    assert(display_name(DataTypeView::Time64(TimeUnit::Millisecond)) =~= "Time64(Millisecond)"@);
    assert(display_name(DataTypeView::Timestamp(TimeUnit::Millisecond, None)) =~= "Timestamp(Millisecond, None)"@);
    assert(display_name(DataTypeView::Time32(TimeUnit::Microsecond)) =~= "Time32(Microsecond)"@);
    assert(display_name(DataTypeView::Time64(TimeUnit::Microsecond)) =~= "Time64(Microsecond)"@);
    assert(display_name(DataTypeView::Timestamp(TimeUnit::Microsecond, None)) =~= "Timestamp(Microsecond, None)"@);
    assert(display_name(DataTypeView::Time32(TimeUnit::Nanosecond)) =~= "Time32(Nanosecond)"@);
    assert(display_name(DataTypeView::Time64(TimeUnit::Nanosecond)) =~= "Time64(Nanosecond)"@);
    assert(display_name(DataTypeView::Timestamp(TimeUnit::Nanosecond, None)) =~= "Timestamp(Nanosecond, None)"@);
}

/// The text of a decimal type holds its precision and its scale, in this order.
pub proof fn law_texts_of_decimals(precision: u8, scale: i8)
    ensures
        ({
            let (p, s) = (decimal(precision as nat), signed_decimal(scale as int));
            let (a, b) = (
                display_name(DataTypeView::Decimal128(precision, scale)),
                display_name(DataTypeView::Decimal256(precision, scale)),
            );
            let n = 11 + p.len() as int;
            &&& a.take(11) == "Decimal128("@
            &&& b.take(11) == "Decimal256("@
            &&& a.subrange(11, n) == p
            &&& a.skip(n) == ", "@ + s + ")"@
            &&& b.skip(11) == a.skip(11)
        }),
{
    reveal_strlit("Decimal128(");
    reveal_strlit("Decimal256(");
    assert("Decimal128("@.len() == 11);
    assert("Decimal256("@.len() == 11);
    let (p, s) = (decimal(precision as nat), signed_decimal(scale as int));
    let a = display_name(DataTypeView::Decimal128(precision, scale));
    let b = display_name(DataTypeView::Decimal256(precision, scale));
    let n = 11 + p.len() as int;
    assert(a.take(11) =~= "Decimal128("@);
    assert(b.take(11) =~= "Decimal256("@);
    assert(a.subrange(11, n) =~= p);
    assert(a.skip(n) =~= ", "@ + s + ")"@);
    assert(b.skip(11) =~= a.skip(11));
}

/// The text of a timestamp type with a zone holds its unit and the quoted zone.
pub proof fn law_texts_of_zones(unit: TimeUnit, zone: Seq<char>)
    ensures
        display_name(DataTypeView::Timestamp(unit, Some(zone))) == (match unit {
            TimeUnit::Second => "Timestamp(Second, Some("@,
            TimeUnit::Millisecond => "Timestamp(Millisecond, Some("@,
            TimeUnit::Microsecond => "Timestamp(Microsecond, Some("@,
            TimeUnit::Nanosecond => "Timestamp(Nanosecond, Some("@,
        }) + debug_text(zone) + "))"@,
{
    reveal_strlit("Timestamp(");
    reveal_strlit(", Some(");
    reveal_strlit("Second");
    reveal_strlit("Millisecond");
    reveal_strlit("Microsecond");
    reveal_strlit("Nanosecond");
    reveal_strlit("Timestamp(Second, Some(");
    reveal_strlit("Timestamp(Millisecond, Some(");
    reveal_strlit("Timestamp(Microsecond, Some(");
    reveal_strlit("Timestamp(Nanosecond, Some(");
    let start = match unit {
        TimeUnit::Second => "Timestamp(Second, Some("@,
        TimeUnit::Millisecond => "Timestamp(Millisecond, Some("@,
        TimeUnit::Microsecond => "Timestamp(Microsecond, Some("@,
        TimeUnit::Nanosecond => "Timestamp(Nanosecond, Some("@,
    };
    assert("Timestamp("@ + unit_name(unit) + ", Some("@ =~= start);
}

} // verus!
