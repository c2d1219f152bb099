[package]
name = "xlsx_editor"
version = "0.1.0"
edition = "2021"
publish = false

[dependencies]
quick-xml = "=0.37.5"
regex = "=1.13.1"
thiserror = "=2.0.21"
zip = { version = "=4.6.1", default-features = false, features = ["deflate"] }
mimalloc = "=0.1.52"
polars-core = { version = "=0.49.1", default-features = false, features = ["dtype-i128"] }
