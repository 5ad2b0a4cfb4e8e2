[package]
name = "daft_flotilla"
version = "0.1.0"
edition = "2021"
publish = false

[dependencies]
arrow-array = "59"
arrow-flight = "=60.1.0"
arrow-schema = "59"
bytes = "=1.12.1"
crc-fast = "=1.10.0"
crc32fast = "=1.5.4"
futures = "0.3"
parquet = { version = "=60.1.0", default-features = false, features = ["arrow", "async"] }
rand = "=0.10.3"
serde = { version = "1", features = ["derive"] }
serde_arrow = { version = "*", features = ["arrow-59"] }
serde_json = "=1.0.154"
sketches-ddsketch = { version = "=0.4.2", features = ["use_serde"] }
tokio = { version = "=1.54.1", features = ["rt", "time", "fs", "io-util", "sync", "macros", "signal"] }
tokio-util = "0.7"
tonic = "=0.14.9"
