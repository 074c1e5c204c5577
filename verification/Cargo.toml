[package]
name = "instar_core"
version = "0.1.0"
edition = "2021"
publish = false

[dependencies]
dirs = "=5.0.1"
petgraph = { version = "0.6", default-features = false }
semver = "=1.0.28"
serde = { version = "=1.0.229", features = ["derive"] }
serde_json = "=1.0.154"
sha2 = "=0.10.9"
tempfile = "=3.27.0"
toml_edit = { version = "=0.22.27", features = ["serde"] }
ureq = { version = "=2.12.1", features = ["native-tls"] }
zip = { version = "=2.6.1", default-features = false, features = ["deflate"] }
