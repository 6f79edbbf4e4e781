[package]
name = "tidings"
version = "0.1.0"
edition = "2021"
publish = false

[dependencies]
relative-path = "1"
unicode-normalization = "0.1"
caseless = "0.2"
sanitize-filename = "0.6"
xxhash-rust = { version = "0.8", features = ["xxh3"] }
jiff = "0.2"
tokio = { version = "1", features = ["sync", "rt", "rt-multi-thread", "time", "macros"] }
etcetera = "0.10"
notify = "8"
notify-debouncer-full = "0.5"
rusqlite = { version = "0.37", features = ["bundled"] }
atomic-write-file = "0.2"
thiserror = "2"
tracing = "0.1"
