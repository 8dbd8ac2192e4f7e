[package]
name = "pyfunc"
version = "0.1.0"
edition = "2021"
publish = false

[dependencies]
duckdb = { version = "*", features = ["vtab-loadable"] }
duckdb-loadable-macros = "*"
libduckdb-sys = { version = "*", features = ["loadable-extension"] }
once_cell = "*"
parking_lot = "*"
pyo3 = "*"
