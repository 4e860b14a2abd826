[package]
name = "runkv"
version = "0.1.0"
edition = "2021"
publish = false

[dependencies]
anyhow = "1"
async-trait = "0.1"
bincode = "1"
bytes = "1"
futures = "0.3"
itertools = "*"
lazy_static = "1"
prometheus = { version = "*", default-features = false }
prost = "*"
serde = { version = "1", features = ["derive"] }
slog = "2"
thiserror = "*"
tokio = { version = "1", features = ["macros", "rt", "sync", "time"] }
tonic = { version = "*", default-features = false }
tracing = "0.1"
