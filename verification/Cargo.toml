[package]
name = "fhe_query"
version = "0.1.0"
edition = "2021"
publish = false

[dependencies]
tfhe = { version = "=0.6.4", features = ["integer", "x86_64-unix"] }
sqlparser = "=0.63.0"
csv = "=1.4.0"
rusqlite = { version = "=0.40.2", features = ["bundled"] }
