[package]
name = "jot_core"
version = "0.0.4"
edition = "2021"
publish = false

[dependencies]
blake3 = "1"
chrono = "0.4"
directories = "*"
indexmap = "2"
markdown = "1"
notify = "*"
rusqlite = { version = "*", features = ["bundled"] }
serde = { version = "1", features = ["derive"] }
serde_json = { version = "1", features = ["preserve_order"] }
thiserror = "*"
toml = "*"
uuid = { version = "1", features = ["v4", "v7", "serde"] }
yaml_serde = "*"

[dev-dependencies]
tempfile = "3"
