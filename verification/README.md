# splicer

Verified building blocks of the splicer.

- `src/blob.rs`, `src/reloc.rs`: data segments. Names are interned, record
  fields are written by name, and pointers between segments stay symbolic until
  every segment has a base address.
- `src/sidetable/`: per-kind info tables that lifted cells refer to (chars,
  enums, flags, handles, records, variants). `src/plan.rs` and
  `src/classify.rs` hold the plans that the tables are built from and the order
  in which they are walked.
- `src/interfaces.rs`: lookup of WIT interfaces by unversioned name.
- `src/wire_format.rs`, `src/config_values.rs`, `src/config_provider.rs`: the
  configuration table, its bytes, and the provider that serves it.
- `src/hello_tier1.rs`: the `hello-tier1` builtin.

`app/` wraps the provider and the builtin as components. `tests/` runs the
library on concrete values.

Each module states its laws as public proof functions next to the functions
that they are about.
