# tabdiff

Semantic diff for tables, verified with Verus. Rows are matched by key, or by content
where there is no key, and values are compared rather than bytes: `1.0` equals `1.00`,
floats can have tolerances, and the order of rows and columns does not matter.

## Layout

- `src/` is the verified library.
  - `schema`, `value`, `float`, `text`: columns, cells, doubles as bit patterns, strings.
  - `schema_diff`, `rename`, `infer`: what changed in the columns, which of them were
    renamed, and which one identifies the rows.
  - `key`, `hash`: rows in byte-comparable form, and their content hashes.
  - `input`, `sort`, `merge`: batches, sorted runs within a memory budget, and the merge
    of runs into one sorted stream per side.
  - `row_diff`, `keyless`: the two scans, by key and by content.
  - `filter`: the row filter language.
  - `plan`: from options and samples to a finished report.
  - `report`, `error`: the report, its text, and the messages.
  - `keyed_laws`, `keyless_laws`, `plan_laws`, `order_laws`: what holds of diffs as a whole.
  - `report_laws`: what holds of printed reports.
- `app/` is the command line and the Python binding: it reads CSV and Parquet files,
  measures what they take in memory, spills sorted runs to Arrow IPC files, and prints
  reports.
- `tests/` runs the library on concrete tables.

Floats appear in the library as the bit patterns of doubles, with the text that they are
shown as. Arrow's row format, its casts and the size of its columns, and the XXH3 hash,
are called through small wrappers whose contracts are taken on trust; each says so in its comment.
