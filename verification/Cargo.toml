[package]
name = "trail"
version = "0.1.0"
edition = "2021"
publish = false

[dependencies]
clap = { version = "4", features = ["derive"] }
clap_complete = "4"
env_logger = "0.11"
git2 = { version = "0.19", default-features = false, features = ["vendored-libgit2"] }
ignore = "0.4"
log = "0.4"
napi = { version = "2", features = ["serde-json"] }
napi-derive = "2"
pyo3 = { version = "0.23", features = ["extension-module", "abi3-py39"] }
pythonize = "0.23"
rusqlite = { version = "0.32", features = ["bundled"] }
serde = { version = "1", features = ["derive"] }
serde_json = "1"
thiserror = "1"
toml = "0.8"
