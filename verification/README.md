# openjd

The verified core of an Open Job Description runtime: the values, operators and
functions of the expression language, snapshots and their hashes, job templates,
the running of actions, and the comparison of an evaluator with a reference.

- `src/` is the library. Verus proves the contract of every function but the thin
  wrappers around other crates and the standard library (marked
  `external_body`) and the one `assume_specification`. Those contracts are
  trusted; the comment above each says what it claims.
- `tests/` runs the library on concrete values.
- `app/` is ordinary Rust around it: files, processes, serialisation and the
  floating-point power of the machine.

| Module | What it holds |
|---|---|
| `binary64`, `decimal`, `repr` | floating point with exact rounding, and its decimal texts |
| `value`, `types`, `range_expr`, `comparison`, `display`, `error` | values of the expression language |
| `context`, `budgeted_vec` | limits on the work and the memory of an evaluation |
| `functions` | operators and functions |
| `op_table` | the operators of the syntax and what they dispatch to |
| `symbol_table`, `format_string` | names and the texts that refer to them |
| `hash`, `manifest` | hashes of files and manifests of snapshots |
| `model` | job and environment templates |
| `sessions` | actions, their cancelation, and the helper process |
| `differential` | comparison with a reference |
| `json`, `json_text` | JSON values, read and written with `serde_json` |
| `text`, `assoc` | what the others share |
