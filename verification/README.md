# datamorph

A library for moving structured data between JSON, YAML, TOML and CSV. Its
functions are verified by Verus against their contracts. Where an outside
crate decides an outcome (whether jsonschema finds an instance valid, what
the csv crate reads from a text), the contracts name that outcome and state
exactly what the library does with it.

- `src/value.rs`, `src/value_ops.rs`: the document value shared by all
  formats, its mathematical model, and objects kept in key order.
- `src/query.rs`, `src/query_model.rs`: the Universal Path Language, its
  parser and evaluator, specified over the document model.
- `src/csv_adapter.rs`: CSV reading with type inference, writing with a
  header row, and delimiter and header probing, over the `csv` crate.
- `src/adapters.rs`: the formats, their names and extensions, and reading
  and writing by format.
- `src/validation.rs`: JSON Schema validation over `jsonschema`.
- `src/cli.rs`: format detection, repair of JSON texts, and the rules the
  command line follows.
- `src/text.rs`: text operations with their specifications.
- `src/laws.rs`: properties that relate several functions, proved.
- `app/`: the command-line program: files, standard streams, terminal
  output, the serde conversions and floating point.

Floating-point numbers are held by the library as their IEEE-754 bit
patterns; reading, writing and adding them is done by closures that the
caller passes in.
