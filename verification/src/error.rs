//! The crate's error type.

use crate::text::{debug_text, quoted};
use vstd::prelude::*;
use vstd::string::StringExecFns;

verus! {

/// Why a call could not be carried out.
#[derive(Debug, Clone)]
pub enum Error {
    /// A column name that the schema does not have.
    UnknownColumn(String),
    /// A column whose type is not the one required.
    TypeMismatch {
        /// The column's name.
        column: String,
        /// The type required.
        expected: String,
        /// The type found.
        actual: String,
    },
    /// Columns that do not make up a batch of their schema.
    SchemaMismatch(String),
    /// A type that the operation is not defined on.
    UnsupportedType(String),
    /// An argument that is not valid in itself.
    Config(String),
}

/// The model of [`Error`].
pub ghost enum ErrorView {
    UnknownColumn(Seq<char>),
    TypeMismatch { column: Seq<char>, expected: Seq<char>, actual: Seq<char> },
    SchemaMismatch(Seq<char>),
    UnsupportedType(Seq<char>),
    Config(Seq<char>),
}

impl View for Error {
    type V = ErrorView;

    open spec fn view(&self) -> ErrorView {
        match self {
            Error::UnknownColumn(s) => ErrorView::UnknownColumn(s@),
            Error::TypeMismatch { column, expected, actual } => ErrorView::TypeMismatch {
                column: column@,
                expected: expected@,
                actual: actual@,
            },
            Error::SchemaMismatch(s) => ErrorView::SchemaMismatch(s@),
            Error::UnsupportedType(s) => ErrorView::UnsupportedType(s@),
            Error::Config(s) => ErrorView::Config(s@),
        }
    }
}

/// The text that describes an error.
pub open spec fn error_message(e: ErrorView) -> Seq<char> {
    match e {
        ErrorView::UnknownColumn(name) => "column "@ + debug_text(name) + " not found in schema"@,
        ErrorView::TypeMismatch { column, expected, actual } => "column "@ + debug_text(column)
            + " has type "@ + actual + ", expected "@ + expected,
        ErrorView::SchemaMismatch(reason) => "schema mismatch: "@ + reason,
        ErrorView::UnsupportedType(reason) => "unsupported arrow type for this operation: "@
            + reason,
        ErrorView::Config(reason) => "invalid configuration: "@ + reason,
    }
}

impl Error {
    /// A name that the schema does not have.
    pub fn unknown_column(name: &str) -> (e: Self)
        ensures
            e@ == ErrorView::UnknownColumn(name@),
    {
        Error::UnknownColumn(name.to_owned())
    }

    /// A column of another type than the one required.
    pub fn type_mismatch(column: &str, expected: &str, actual: &str) -> (e: Self)
        ensures
            e@ == (ErrorView::TypeMismatch {
                column: column@,
                expected: expected@,
                actual: actual@,
            }),
    {
        Error::TypeMismatch {
            column: column.to_owned(),
            expected: expected.to_owned(),
            actual: actual.to_owned(),
        }
    }

    /// Columns that do not make up a batch.
    pub fn schema_mismatch(reason: &str) -> (e: Self)
        ensures
            e@ == ErrorView::SchemaMismatch(reason@),
    {
        Error::SchemaMismatch(reason.to_owned())
    }

    /// A type that the operation is not defined on.
    pub fn unsupported_type(reason: &str) -> (e: Self)
        ensures
            e@ == ErrorView::UnsupportedType(reason@),
    {
        Error::UnsupportedType(reason.to_owned())
    }

    /// An argument that is not valid in itself.
    pub fn config(reason: &str) -> (e: Self)
        ensures
            e@ == ErrorView::Config(reason@),
    {
        Error::Config(reason.to_owned())
    }

    /// Describes the error in one line.
    pub fn message(&self) -> (s: String)
        ensures
            s@ == error_message(self@),
    {
        match self {
            Error::UnknownColumn(name) => {
                let mut s = "column ".to_owned();
                s.append(quoted(name.as_str()).as_str());
                s.append(" not found in schema");
                s
            },
            Error::TypeMismatch { column, expected, actual } => {
                let mut s = "column ".to_owned();
                s.append(quoted(column.as_str()).as_str());
                s.append(" has type ");
                s.append(actual.as_str());
                s.append(", expected ");
                s.append(expected.as_str());
                s
            },
            Error::SchemaMismatch(reason) => {
                let mut s = "schema mismatch: ".to_owned();
                s.append(reason.as_str());
                s
            },
            Error::UnsupportedType(reason) => {
                let mut s = "unsupported arrow type for this operation: ".to_owned();
                s.append(reason.as_str());
                s
            },
            Error::Config(reason) => {
                let mut s = "invalid configuration: ".to_owned();
                s.append(reason.as_str());
                s
            },
        }
    }
}

/// Whether `r` is the outcome `s`: the value that `s` gives, or the error.
pub open spec fn same_outcome<T: View>(r: Result<T, Error>, s: Result<T::V, ErrorView>) -> bool {
    match (r, s) {
        (Ok(v), Ok(m)) => v@ == m,
        (Err(e), Err(m)) => e@ == m,
        _ => false,
    }
}

/// A message tells what the error carries: it ends with the reason, and a message about a column
/// holds its quoted name where messages of that kind have it, with the types behind it.
pub proof fn law_messages_carry_what_errors_do(
    text: Seq<char>,
    expected: Seq<char>,
    actual: Seq<char>,
)
    ensures
        ({
            let m = error_message(ErrorView::SchemaMismatch(text));
            &&& m.len() == 17 + text.len()
            &&& m.skip(17) == text
        }),
        ({
            let m = error_message(ErrorView::UnsupportedType(text));
            &&& m.len() == 43 + text.len()
            &&& m.skip(43) == text
        }),
        ({
            let m = error_message(ErrorView::Config(text));
            &&& m.len() == 23 + text.len()
            &&& m.skip(23) == text
        }),
        ({
            let m = error_message(ErrorView::UnknownColumn(text));
            let n = debug_text(text).len() as int;
            &&& m.len() == 7 + n + 20
            &&& m.subrange(7, 7 + n) == debug_text(text)
            &&& m.skip(7 + n) == " not found in schema"@
        }),
        ({
            let m = error_message(ErrorView::TypeMismatch { column: text, expected, actual });
            let n = 7 + debug_text(text).len() as int;
            let k = n + 10 + actual.len();
            &&& m.len() == k + 11 + expected.len()
            &&& m.subrange(7, n) == debug_text(text)
            &&& m.subrange(n, n + 10) == " has type "@
            &&& m.subrange(n + 10, k) == actual
            &&& m.subrange(k, k + 11) == ", expected "@
            &&& m.skip(k + 11) == expected
        }),
{
    reveal_strlit("schema mismatch: ");
    reveal_strlit("unsupported arrow type for this operation: ");
    reveal_strlit("invalid configuration: ");
    reveal_strlit("column ");
    reveal_strlit(" not found in schema");
    reveal_strlit(" has type ");
    reveal_strlit(", expected ");
    assert("schema mismatch: "@.len() == 17);
    assert("unsupported arrow type for this operation: "@.len() == 43);
    assert("invalid configuration: "@.len() == 23);
    assert("column "@.len() == 7);
    assert(" not found in schema"@.len() == 20);
    assert(" has type "@.len() == 10);
    assert(", expected "@.len() == 11);
    let q = debug_text(text);
    assert(error_message(ErrorView::SchemaMismatch(text)).skip(17) =~= text);
    assert(error_message(ErrorView::UnsupportedType(text)).skip(43) =~= text);
    assert(error_message(ErrorView::Config(text)).skip(23) =~= text);
    let m = error_message(ErrorView::UnknownColumn(text));
    assert(m.subrange(7, 7 + q.len() as int) =~= q);
    assert(m.skip(7 + q.len() as int) =~= " not found in schema"@);
    let m = error_message(ErrorView::TypeMismatch { column: text, expected, actual });
    let n = 7 + q.len() as int;
    let k = n + 10 + actual.len() as int;
    assert(m.subrange(7, n) =~= q);
    assert(m.subrange(n, n + 10) =~= " has type "@);
    assert(m.subrange(n + 10, k) =~= actual);
    assert(m.subrange(k, k + 11) =~= ", expected "@);
    assert(m.skip(k + 11) =~= expected);
}

/// An outcome is met by its value and by nothing else: a value meets it only where it is a value
/// with the same model, an error only where it is that error.
pub proof fn law_outcomes_are_exact<T: View>(r: Result<T, Error>, s: Result<T::V, ErrorView>)
    ensures
        same_outcome(r, s) <==> {
            ||| r is Ok && s is Ok && r->Ok_0@ == s->Ok_0
            ||| r is Err && s is Err && r->Err_0@ == s->Err_0
        },
{
}

} // verus!
