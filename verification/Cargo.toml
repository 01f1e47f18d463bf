[package]
name = "goose_http"
version = "0.1.0"
edition = "2021"
publish = false

[dependencies]
regex = "1"
time = "0.1"
chrono = "0.4"
mime_guess = "2"
clap = "2"
nickel = "0.11"
rusqlite = { version = "*", features = ["bundled"] }
rustc-serialize = "0.3"
