[package]
name = "padagonia"
version = "0.1.0"
edition = "2021"
publish = false

[dependencies]
ahash = "0.8"
crc32fast = "1"
sha2 = "0.10"
serde = { version = "1", features = ["derive"] }
serde_json = "1"
rmp-serde = "1"
rayon = "1"
fast-hnsw = "*"
rand = "0.8"
config = { version = "0.14", default-features = false, features = ["toml"] }
tracing = "0.1"
tracing-subscriber = { version = "0.3", features = ["env-filter", "fmt"] }
axum = "0.7"
tokio = { version = "1", features = ["rt-multi-thread", "macros", "net", "signal", "sync", "time"] }
tower-http = { version = "0.6", features = ["timeout", "trace"] }
metrics-exporter-prometheus = { version = "0.16", default-features = false }
