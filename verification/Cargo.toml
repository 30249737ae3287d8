[package]
name = "disson"
version = "0.1.0"
edition = "2021"
publish = false

[dependencies]
zstd = "*"
sha2 = "*"
serde = { version = "1", features = ["derive"] }
ron = "*"
csv = "1"
dirs = "*"
fs2 = "*"
atty = "*"
tokio = { version = "1", features = ["rt", "sync", "signal", "macros", "time"] }
notify = "*"

[dev-dependencies]
bincode = "1"
