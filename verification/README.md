# pyfunc

A DuckDB extension that registers Python user-defined functions from SQL and
runs them in an embedded Python interpreter:

```sql
SELECT * FROM create_py_function('add', 'a INT, b INT', 'INT', 'return a + b');
SELECT * FROM py_call('add', args := ['1', '2']);
SELECT * FROM list_py_functions();
```

## Layout

- `src/` is the library, verified with Verus:
  - `parser.rs`: function definitions, type-name normalization, parameter
    lists, function bodies in `$$` or single quotes, and
    `CREATE [OR REPLACE] FUNCTION` statements;
  - `registry.rs`: the registry of functions, keyed by lowercased name;
  - `create_function_vtab.rs`: what each step of the table functions
    `create_py_function`, `py_call` and `list_py_functions` decides;
  - `values.rs`, `executor.rs`, `types.rs`: reading arguments, the Python
    source that wraps a body, result kinds and DuckDB logical types;
  - `text.rs`: byte-level models of the `str` operations the parsers use;
  - `laws.rs`: properties that relate several operations.
- `app/` connects the library to DuckDB (`duckdb`), to the Python runtime
  (`pyo3`) and holds the process-wide registry behind a lock.
- `tests/` runs the library on concrete values.
