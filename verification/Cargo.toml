[package]
name = "morsel_engine"
version = "0.1.0"
edition = "2021"
publish = false

[dependencies]
ahash = "0.8"
fxhash = "0.2"
parking_lot = "0.12"
rayon = "1"
tracing = "0.1"
xxhash-rust = { version = "0.8", features = ["xxh3"] }
