[package]
name = "decsync"
version = "0.1.0"
edition = "2021"
publish = false

[dependencies]
chrono = "=0.4.45"
serde_json = { version = "=1.0.154", features = ["float_roundtrip", "unbounded_depth"] }
thiserror = "=2.0.21"
