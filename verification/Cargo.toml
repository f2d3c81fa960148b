[package]
name = "weakseq"
version = "0.1.0"
edition = "2021"
publish = false

[dependencies]
alloy-primitives = { version = "=0.8.26", default-features = false, features = ["std"] }
governor = "=0.6.3"
parking_lot = "=0.12.5"
anyhow = "=1.0.104"
clap = { version = "=4.6.7", features = ["derive"] }
tokio = { version = "=1.54.1", features = ["macros", "rt-multi-thread", "net", "time", "signal"] }
axum = { version = "=0.8.9", default-features = false, features = ["http1", "tokio", "json"] }
async-graphql = { version = "=7.2.1", default-features = false, features = ["graphiql"] }
async-graphql-axum = "=7.2.1"
tracing = "=0.1.44"
tracing-subscriber = { version = "=0.3.23", features = ["env-filter", "json"] }
metrics = "=0.24.6"
metrics-exporter-prometheus = { version = "=0.16.2", default-features = false }
