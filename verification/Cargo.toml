[package]
name = "order_matching_engine"
version = "0.1.0"
edition = "2021"
publish = false

[dependencies]
actix-web = "=4.18.1"
anyhow = "=1.0.104"
chrono = { version = "=0.4.45", features = ["serde"] }
crossbeam = "=0.8.5"
lazy_static = "=1.5.1"
priority-queue = "=2.7.0"
prometheus = { version = "=0.13.4", default-features = false }
serde = { version = "=1.0.229", features = ["derive"] }
socket2 = "=0.5.10"
tokio = { version = "=1.54.1", features = ["net", "rt-multi-thread", "macros"] }
uuid = { version = "=1.29.0", features = ["v4", "serde"] }

[dev-dependencies]
borsh = "=1.8.1"
