[package]
name = "temporal-gridshift"
version = "0.1.0"
edition = "2021"
publish = false

[dependencies]
anyhow = "=1.0.104"
async-trait = "=0.1.92"
chrono = { version = "=0.4.45", features = ["serde"] }
chrono-tz = "=0.10.4"
futures = "=0.3.34"
good_lp = { version = "=1.15.3", default-features = false, features = ["microlp"] }
humantime = "=2.4.0"
iana-time-zone = "=0.1.65"
reqwest = { version = "=0.12.28", features = ["json"] }
serde = { version = "=1.0.229", features = ["derive"] }
temporalio-client = { version = "=1.1.1", features = ["vendored-protox"] }
temporalio-common = { version = "=1.1.1", features = ["vendored-protox"] }
temporalio-macros = "=1.1.1"
temporalio-sdk = "=1.1.1"
temporalio-workflow = "=1.1.1"
tokio = { version = "=1.54.1", features = ["macros", "rt-multi-thread", "sync"] }
tonic = "=0.14.9"
tracing = "=0.1.44"
