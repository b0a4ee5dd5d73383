[package]
name = "podspine"
version = "0.1.0"
edition = "2021"
publish = false

[dependencies]
anyhow = "1"
axum = "0.8"
axum-extra = { version = "0.10", features = ["typed-header"] }
axum-range = "0.5"
base64 = "0.22"
blake3 = { version = "1", default-features = false, features = ["std"] }
clap = { version = "4", features = ["derive", "env"] }
getrandom = "0.3"
maud = { version = "0.27", features = ["axum"] }
metrics = "0.24"
metrics-exporter-prometheus = { version = "0.17", default-features = false }
notify = "8"
qrcode = { version = "0.14", default-features = false, features = ["svg"] }
rss = "2"
rusqlite = { version = "0.37", features = ["bundled"] }
serde = { version = "1", features = ["derive"] }
serde_json = "1"
thiserror = "2"
time = { version = "0.3", features = ["formatting", "parsing"] }
tokio = { version = "1", features = ["fs", "macros", "net", "rt-multi-thread", "sync", "time"] }
toml = "0.9"
tower = { version = "0.5", features = ["limit", "util"] }
tower-http = { version = "0.6", features = ["limit", "timeout", "trace"] }
tracing = "0.1"
wait-timeout = "0.2"
