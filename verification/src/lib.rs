//! Native kernels for Spark-style data transformations, with their behaviour proved.
//!
//! Every kernel is a pure function of plain values: a [`batch::RecordBatch`] holds typed
//! columns, a [`schema::Schema`] names them, and each function states in its contract what
//! it returns for every input it accepts, and each error with the inputs that give it.

pub mod aggregate;
pub mod batch;
pub mod bytes;
pub mod clean;
pub mod column;
pub mod cpu;
pub mod dedup;
pub mod equivalence;
pub mod error;
pub mod float;
pub mod groups;
pub mod hash;
pub mod join;
pub mod json;
pub mod keys;
pub mod rows;
pub mod schema;
pub mod text;
pub mod validate;

pub use aggregate::{aggregate, AggFunc, Aggregation};
pub use batch::RecordBatch;
pub use clean::{apply_rules, clean_with_preset, preset, CleanRule, CleanupVersion};
pub use column::{Cell, Column};
pub use cpu::{features, CpuFeatures};
pub use dedup::drop_duplicates;
pub use equivalence::{check_equivalence, EquivalenceMode, EquivalenceOptions, EquivalenceReport};
pub use error::Error;
pub use hash::{hash_batch, hash_batch_all_columns, table_fingerprint, HashVersion};
pub use join::{join, join_null_safe, JoinType};
pub use json::{normalize_json, NormalizeStats, NormalizeVersion};
pub use schema::{schema_fingerprint, DataType, Field, Schema};
pub use validate::{
    validate_schema, NullabilityChange, RetypedColumn, SchemaDiff, ValidateSchemaOptions,
};
