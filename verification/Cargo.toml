[package]
name = "swap_ledger"
version = "0.1.0"
edition = "2021"
publish = false

[dependencies]
axum = "*"
parking_lot = "*"
serde = { version = "*", features = ["derive"] }
serde_json = "*"
tokio = { version = "*", features = ["rt-multi-thread", "macros", "net"] }
tower-http = { version = "*", features = ["cors"] }
