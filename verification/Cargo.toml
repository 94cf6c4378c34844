[package]
name = "copc_converter"
version = "0.9.15"
edition = "2021"
publish = false

[dependencies]
anyhow = "1"
byteorder = "1"
clap = { version = "4", features = ["derive"] }
crs-definitions = "*"
dashmap = "6"
indicatif = "*"
las = { version = "0.9", features = ["laz-parallel"] }
laz = { version = "*", features = ["parallel"] }
lz4_flex = "*"
mimalloc = "0.1"
rayon = "1"
serde_json = "1"
thiserror = "2"
tracing = "0.1"
tracing-subscriber = { version = "0.3", features = ["env-filter"] }
