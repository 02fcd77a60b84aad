# witchhat_core

Kernels for Spark-style work on record batches, verified with Verus: composite row and table
hashing, schema validation and fingerprints, JSON normalization, regex cleanup, output
equivalence, deduplication, joins and grouped aggregation.

`src/` is the library. Its data model is `batch`, `column` and `schema`; every kernel states in
its contract what it returns for every input, and each error with the inputs that give it. Proof
functions named `law_..` state what holds across calls. Calls into `arrow_row`, `regex`,
`serde_json` and `xxhash_rust` stand behind small functions whose contracts are believed, not
proved; each says what it claims.

- `hash`, `keys`, `groups`: what a row's hash and key are, and grouping rows by key
- `dedup`, `join`, `aggregate`, `equivalence`: the kernels built on them
- `validate`, `schema`, `json`, `clean`, `cpu`: the others
- `float`: double-precision arithmetic on bit patterns, proved against exact rounding
- `rows`, `bytes`, `text`: what the modules share

`app/` converts Arrow arrays to the library's columns and back and registers the Python module.
`tests/` runs the library, with the outside crates linked.
