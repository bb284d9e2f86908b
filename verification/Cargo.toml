[package]
name = "ledger_entry"
version = "0.1.0"
edition = "2021"
publish = false

[dependencies]
chrono = { version = "0.4", default-features = false, features = ["std"] }
regex = "1"
rust_decimal = { version = "1", default-features = false, features = ["std"] }
rustyline = "*"
rustyline-derive = "*"
