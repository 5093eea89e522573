[package]
name = "osm_semantic"
version = "0.1.0"
edition = "2021"
publish = false

[dependencies]
quick-xml = "0.31"
regex = "1"
rkyv = "0.7"
xz = "0.1"
log = { version = "0.4", features = ["kv"] }
structured-logger = "1"
serde = { version = "1", features = ["derive"] }
serde_json = "1"
png = "0.17"
raqote = "0.8"
font-kit = "*"
pathfinder_geometry = "*"
