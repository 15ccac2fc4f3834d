[package]
name = "datatool"
version = "0.1.0"
edition = "2021"
publish = false

[dependencies]
iced-x86 = { version = "1", default-features = false, features = ["std", "decoder", "instr_info"] }
rustc-hash = "*"
permutation = "*"
petgraph = "*"
anyhow = "1"
clap = { version = "4", features = ["derive"] }
serde = { version = "1", features = ["derive"] }
serde_yaml = "*"
serde_json = "1"
bincode = "1"
zstd = "*"
object = { version = "*", features = ["write"] }
ndarray = "*"
ndarray-npy = "*"
walkdir = "2"
rayon = "1"
tracing = "0.1"
tracing-subscriber = { version = "0.3", features = ["env-filter"] }
tempfile = "3"
csv = "1"
