[package]
name = "graphify_plugin_telemetry"
version = "0.1.0"
edition = "2021"
publish = false

[dependencies]
rusqlite = { version = "=0.32.1", features = ["bundled"] }
serde = { version = "1", features = ["derive"] }
serde_json = "=1.0.154"
thiserror = "1"
ureq = { version = "=2.12.1", features = ["json"] }

