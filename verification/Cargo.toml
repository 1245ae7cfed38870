[package]
name = "engine_core"
version = "0.1.0"
edition = "2021"
publish = false

[dependencies]
serde = { version = "1", features = ["derive"] }
serde_json = "1"
rand = "0.9"
jsonschema = { version = "*", default-features = false }
semver = "1"
bson = "2"
walkdir = "2"
toml = "*"
anyhow = "1"
thiserror = "2"
log = "0.4"
indexmap = "2"
topo_sort = "*"
schemars = "1"
regex = "1"
