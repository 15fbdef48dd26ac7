[package]
name = "traces"
version = "0.1.0"
edition = "2021"
publish = false

[dependencies]
blake3 = "=1.8.7"
chrono = { version = "=0.4.45", features = ["serde"] }
clap = { version = "4", features = ["derive"] }
comfy-table = { version = "=7.2.2", default-features = false }
indexmap = "=2.14.2"
num-traits = "0.2"
postcard = { version = "=1.1.3", features = ["use-std"] }
pulldown-cmark = { version = "=0.13.6", default-features = false }
rayon = "1"
redb = "=4.4.0"
serde = { version = "1", features = ["derive"] }
thiserror = "2"
tracing = "0.1"
walkdir = "2"
yaml_serde = "=0.10.7"
